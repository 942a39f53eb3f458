//! Request authentication for the gateway: every request carries the
//! device's Ed25519 public key, a device id derived from it, a timestamp, a
//! fresh nonce and a signature over the method, path, those values and the
//! SHA-256 of the body. Nonces are remembered for a while to refuse
//! replays, and each device is rate limited.
use vstd::prelude::*;
use std::collections::{HashMap, VecDeque};
use crate::primitives::{
    sha256, sha256_spec, ed25519_key_valid, ed25519_key_valid_spec, ed25519_verify, ed25519_verify_spec,
};
use crate::relay::{sat_add, sat_sub};
use crate::wire::{
    be16, be32, be64, bytes_eq, key128, key128_of, push_be16, push_be32, push_be64, push_bytes, copy_16, copy_32, copy_64,
};

verus! {

/// How far a request's timestamp may be from the gateway's clock.
pub const MAX_CLOCK_SKEW_MS: u64 = 300000;

/// How long a seen nonce is remembered.
pub const NONCE_TTL_MS: u64 = 300000;

/// Most nonces remembered per device. It must cover the requests a device
/// can make while a nonce is remembered: the rate limit allows at most 600
/// in five minutes.
pub const MAX_NONCES_PER_DEVICE: usize = 1024;

/// Length of a rate-limiting window.
pub const RATE_WINDOW_MS: u64 = 60000;

/// Requests a device may make per window.
pub const RATE_LIMIT_PER_DEVICE: u32 = 120;

#[derive(Debug, Clone, Copy, PartialEq, Eq)]
pub enum AuthError {
    MissingHeader,
    InvalidHeader,
    InvalidTimestamp,
    InvalidDevice,
    InvalidSignature,
    Replay,
    RateLimited,
}

/// One request header as the gateway sees it: absent, present but not
/// visible ASCII text, or its text.
pub enum HeaderText {
    Missing,
    NotText,
    Text(Vec<u8>),
}

/// The authentication headers of a request.
pub struct AuthHeaders {
    pub device_id: HeaderText,
    pub public_key: HeaderText,
    pub timestamp: HeaderText,
    pub nonce: HeaderText,
    pub signature: HeaderText,
}

/// Mathematical value of a [`HeaderText`].
pub enum HeaderView {
    Missing,
    NotText,
    Text(Seq<u8>),
}

/// Mathematical value of [`AuthHeaders`].
pub struct AuthHeadersView {
    pub device_id: HeaderView,
    pub public_key: HeaderView,
    pub timestamp: HeaderView,
    pub nonce: HeaderView,
    pub signature: HeaderView,
}

impl View for HeaderText {
    type V = HeaderView;

    open spec fn view(&self) -> HeaderView {
        match self {
            HeaderText::Missing => HeaderView::Missing,
            HeaderText::NotText => HeaderView::NotText,
            HeaderText::Text(t) => HeaderView::Text(t@),
        }
    }
}

impl View for AuthHeaders {
    type V = AuthHeadersView;

    open spec fn view(&self) -> AuthHeadersView {
        AuthHeadersView {
            device_id: self.device_id@,
            public_key: self.public_key@,
            timestamp: self.timestamp@,
            nonce: self.nonce@,
            signature: self.signature@,
        }
    }
}

/// "M/relay-auth/v1"
pub open spec fn auth_domain() -> Seq<u8> {
    seq![77u8, 47u8, 114u8, 101u8, 108u8, 97u8, 121u8, 45u8, 97u8, 117u8, 116u8, 104u8, 47u8, 118u8, 49u8]
}

/// "M/device-id/v1"
pub open spec fn device_id_domain() -> Seq<u8> {
    seq![77u8, 47u8, 100u8, 101u8, 118u8, 105u8, 99u8, 101u8, 45u8, 105u8, 100u8, 47u8, 118u8, 49u8]
}

/// The value of an ASCII hex digit, upper or lower case.
pub open spec fn hex_digit(c: u8) -> Option<u8> {
    if 48 <= c <= 57 {
        Some((c - 48) as u8)
    } else if 97 <= c <= 102 {
        Some((c - 97 + 10) as u8)
    } else if 65 <= c <= 70 {
        Some((c - 65 + 10) as u8)
    } else {
        None
    }
}

/// The `n` bytes a header of exactly `2n` hex digits stands for.
pub open spec fn hex_bytes(t: Seq<u8>, n: nat) -> Option<Seq<u8>> {
    if t.len() == 2 * n && forall|i: int| 0 <= i < 2 * n ==> (#[trigger] hex_digit(t[i])) is Some {
        Some(Seq::new(n, |k: int| (hex_digit(t[2 * k])->Some_0 * 16 + hex_digit(t[2 * k + 1])->Some_0) as u8))
    } else {
        None
    }
}

/// A header read as `n` hex-encoded bytes.
pub open spec fn header_hex(h: HeaderView, n: nat) -> Result<Seq<u8>, AuthError> {
    match h {
        HeaderView::Missing => Err(AuthError::MissingHeader),
        HeaderView::NotText => Err(AuthError::InvalidHeader),
        HeaderView::Text(t) => match hex_bytes(t, n) {
            Some(b) => Ok(b),
            None => Err(AuthError::InvalidHeader),
        },
    }
}

/// Whether every byte is an ASCII decimal digit.
pub open spec fn all_decimal(s: Seq<u8>) -> bool {
    forall|i: int| 0 <= i < s.len() ==> 48 <= #[trigger] s[i] <= 57
}

/// The number decimal digits stand for.
pub open spec fn decimal_value(s: Seq<u8>) -> nat
    decreases s.len(),
{
    if s.len() == 0 {
        0
    } else {
        decimal_value(s.drop_last()) * 10 + (s.last() - 48) as nat
    }
}

/// A `u64` read from text the way `str::parse::<u64>` reads it: an optional
/// `+` followed by at least one decimal digit, no larger than `u64::MAX`.
pub open spec fn parse_u64(t: Seq<u8>) -> Option<u64> {
    let d = if t.len() > 0 && t[0] == 43 {
        t.subrange(1, t.len() as int)
    } else {
        t
    };
    if d.len() > 0 && all_decimal(d) && decimal_value(d) <= u64::MAX {
        Some(decimal_value(d) as u64)
    } else {
        None
    }
}

/// A header read as a decimal `u64`.
pub open spec fn header_u64(h: HeaderView) -> Result<u64, AuthError> {
    match h {
        HeaderView::Missing => Err(AuthError::MissingHeader),
        HeaderView::NotText => Err(AuthError::InvalidHeader),
        HeaderView::Text(t) => match parse_u64(t) {
            Some(v) => Ok(v),
            None => Err(AuthError::InvalidHeader),
        },
    }
}

/// The values a request's authentication headers carry.
pub struct Credentials {
    pub device_id: [u8; 16],
    pub public_key: [u8; 32],
    pub timestamp_ms: u64,
    pub nonce: [u8; 16],
    pub signature: [u8; 64],
}

/// Mathematical value of [`Credentials`].
pub struct CredentialsView {
    pub device_id: Seq<u8>,
    pub public_key: Seq<u8>,
    pub timestamp_ms: u64,
    pub nonce: Seq<u8>,
    pub signature: Seq<u8>,
}

impl View for Credentials {
    type V = CredentialsView;

    open spec fn view(&self) -> CredentialsView {
        CredentialsView {
            device_id: self.device_id@,
            public_key: self.public_key@,
            timestamp_ms: self.timestamp_ms,
            nonce: self.nonce@,
            signature: self.signature@,
        }
    }
}

/// The headers read in order (device id, public key, timestamp, nonce,
/// signature); the first that is missing or malformed decides the error.
pub open spec fn parse_credentials_spec(h: AuthHeadersView) -> Result<CredentialsView, AuthError> {
    match header_hex(h.device_id, 16) {
        Err(e) => Err(e),
        Ok(device_id) => match header_hex(h.public_key, 32) {
            Err(e) => Err(e),
            Ok(public_key) => match header_u64(h.timestamp) {
                Err(e) => Err(e),
                Ok(timestamp_ms) => match header_hex(h.nonce, 16) {
                    Err(e) => Err(e),
                    Ok(nonce) => match header_hex(h.signature, 64) {
                        Err(e) => Err(e),
                        Ok(signature) => Ok(CredentialsView { device_id, public_key, timestamp_ms, nonce, signature }),
                    },
                },
            },
        },
    }
}

/// The device id of a public key: the first 16 bytes of the SHA-256 of the
/// domain and the key.
pub open spec fn device_id_of(public_key: Seq<u8>) -> Seq<u8> {
    sha256_spec(device_id_domain() + public_key).subrange(0, 16)
}

/// Whether a timestamp is within the allowed skew of `now_ms`, either way.
pub open spec fn timely(timestamp_ms: u64, now_ms: u64) -> bool {
    timestamp_ms <= sat_add(now_ms, MAX_CLOCK_SKEW_MS) && sat_sub(now_ms, timestamp_ms) <= MAX_CLOCK_SKEW_MS
}

/// The bytes a request signature covers: domain, length-prefixed method and
/// path, device id, public key, timestamp, nonce and body hash.
pub open spec fn signing_bytes_spec(
    method: Seq<u8>,
    path: Seq<u8>,
    device_id: Seq<u8>,
    public_key: Seq<u8>,
    timestamp_ms: u64,
    nonce: Seq<u8>,
    body_hash: Seq<u8>,
) -> Seq<u8> {
    auth_domain() + be16(method.len() as u16) + method + be32(path.len() as u32) + path + device_id + public_key
        + be64(timestamp_ms) + nonce + body_hash
}

/// The stateless checks of a request, in order: the headers, the device id
/// against the public key, the timestamp, the public key, the signature.
pub open spec fn request_check(
    h: AuthHeadersView,
    method: Seq<u8>,
    path: Seq<u8>,
    body: Seq<u8>,
    now_ms: u64,
) -> Result<CredentialsView, AuthError> {
    match parse_credentials_spec(h) {
        Err(e) => Err(e),
        Ok(c) => if c.device_id != device_id_of(c.public_key) {
            Err(AuthError::InvalidDevice)
        } else if !timely(c.timestamp_ms, now_ms) {
            Err(AuthError::InvalidTimestamp)
        } else if !ed25519_key_valid_spec(c.public_key) {
            Err(AuthError::InvalidHeader)
        } else if !ed25519_verify_spec(
            c.public_key,
            signing_bytes_spec(method, path, c.device_id, c.public_key, c.timestamp_ms, c.nonce, sha256_spec(body)),
            c.signature,
        ) {
            Err(AuthError::InvalidSignature)
        } else {
            Ok(c)
        },
    }
}

/// What recording a signed request does to its device's state: nonces that
/// expired by `now` are forgotten; a nonce still remembered is a replay; a
/// window that is a full window old starts afresh; a full window refuses;
/// otherwise the request is counted and its nonce remembered until
/// `now + NONCE_TTL_MS`, the oldest nonce giving way when the device already
/// has [`MAX_NONCES_PER_DEVICE`].
pub struct RequestOutcome {
    pub result: Result<(), AuthError>,
    pub nonces: Seq<(u128, u64)>,
    pub rate: Option<(u64, u32)>,
}

/// The remembered nonces that have not expired at `now`.
pub open spec fn fresh_nonces(q: Seq<(u128, u64)>, now: u64) -> Seq<(u128, u64)> {
    q.filter(|e: (u128, u64)| e.1 > now)
}

/// Whether `nonce` is among the remembered nonces.
pub open spec fn nonce_seen(q: Seq<(u128, u64)>, nonce: u128) -> bool {
    exists|i: int| 0 <= i < q.len() && (#[trigger] q[i]).0 == nonce
}

pub open spec fn request_outcome(q0: Seq<(u128, u64)>, r0: Option<(u64, u32)>, nonce: u128, now: u64) -> RequestOutcome {
    let q1 = fresh_nonces(q0, now);
    if nonce_seen(q1, nonce) {
        RequestOutcome { result: Err(AuthError::Replay), nonces: q1, rate: r0 }
    } else {
        let start = match r0 {
            Some(r) => r,
            None => (now, 0u32),
        };
        let window = if sat_sub(now, start.0) >= RATE_WINDOW_MS {
            (now, 0u32)
        } else {
            start
        };
        if window.1 >= RATE_LIMIT_PER_DEVICE {
            RequestOutcome { result: Err(AuthError::RateLimited), nonces: q1, rate: Some(window) }
        } else {
            let kept = if q1.len() >= MAX_NONCES_PER_DEVICE {
                q1.drop_first()
            } else {
                q1
            };
            RequestOutcome {
                result: Ok(()),
                nonces: kept.push((nonce, (now + NONCE_TTL_MS) as u64)),
                rate: Some((window.0, (window.1 + 1) as u32)),
            }
        }
    }
}

/// The gateway's replay and rate state: remembered nonces with their
/// expiry, and the current window of each device.
pub struct AuthState {
    nonces: HashMap<u128, VecDeque<(u128, u64)>>,
    rates: HashMap<u128, (u64, u32)>,
}

impl AuthState {
    /// The nonces remembered for a device, oldest first, with their expiry.
    pub closed spec fn nonces_of(&self, device: u128) -> Seq<(u128, u64)> {
        if self.nonces@.contains_key(device) {
            self.nonces@[device]@
        } else {
            Seq::empty()
        }
    }

    /// The current rate window of a device (start, requests counted).
    pub closed spec fn rate_of(&self, device: u128) -> Option<(u64, u32)> {
        if self.rates@.contains_key(device) {
            Some(self.rates@[device])
        } else {
            None
        }
    }

    /// A state that remembers nothing.
    pub fn new() -> (s: Self)
        ensures
            forall|d: u128| #[trigger] s.nonces_of(d) == Seq::<(u128, u64)>::empty() && s.rate_of(d) is None,
    {
        AuthState { nonces: HashMap::new(), rates: HashMap::new() }
    }

    /// Records a request of `device_id` with `nonce` at monotonic time
    /// `now`, as [`request_outcome`] says; no other device is touched.
    pub fn record_request(&mut self, device_id: &[u8; 16], nonce: &[u8; 16], now: u64) -> (r: Result<(), AuthError>)
        requires
            now + NONCE_TTL_MS <= u64::MAX,
        ensures
            ({
                let d = key128(device_id@);
                let o = request_outcome(old(self).nonces_of(d), old(self).rate_of(d), key128(nonce@), now);
                &&& r == o.result
                &&& final(self).nonces_of(d) == o.nonces
                &&& final(self).rate_of(d) == o.rate
            }),
            forall|k: u128|
                k != key128(device_id@) ==> #[trigger] final(self).nonces_of(k) == old(self).nonces_of(k)
                    && final(self).rate_of(k) == old(self).rate_of(k),
    {
        let d = key128_of(device_id);
        let n = key128_of(nonce);
        let ghost q0 = self.nonces_of(d);
        let queue = match self.nonces.remove(&d) {
            Some(q) => q,
            None => VecDeque::new(),
        };
        assert(queue@ == q0);
        let mut q = keep_fresh(queue, now);
        if nonce_listed(&q, n) {
            let _ = self.nonces.insert(d, q);
            proof {
                assert forall|k: u128| k != d implies #[trigger] self.nonces_of(k) == old(self).nonces_of(k) by {}
            }
            return Err(AuthError::Replay);
        }
        let mut window = match self.rates.get(&d) {
            Some(r) => *r,
            None => (now, 0u32),
        };
        if now.saturating_sub(window.0) >= RATE_WINDOW_MS {
            window = (now, 0u32);
        }
        if window.1 >= RATE_LIMIT_PER_DEVICE {
            let _ = self.rates.insert(d, window);
            let _ = self.nonces.insert(d, q);
            proof {
                assert forall|k: u128| k != d implies #[trigger] self.nonces_of(k) == old(self).nonces_of(k)
                    && self.rate_of(k) == old(self).rate_of(k) by {}
            }
            return Err(AuthError::RateLimited);
        }
        let _ = self.rates.insert(d, (window.0, window.1 + 1));
        let ghost q1 = q@;
        if q.len() >= MAX_NONCES_PER_DEVICE {
            let _ = q.pop_front();
            assert(q@ =~= q1.drop_first());
        }
        q.push_back((n, now + NONCE_TTL_MS));
        let _ = self.nonces.insert(d, q);
        proof {
            assert forall|k: u128| k != d implies #[trigger] self.nonces_of(k) == old(self).nonces_of(k)
                && self.rate_of(k) == old(self).rate_of(k) by {}
        }
        Ok(())
    }

    /// Authenticates a request: the stateless checks of [`request_check`],
    /// then [`AuthState::record_request`] at monotonic time `mono_now`; on success the
    /// authenticated device id. A request refused by the stateless checks
    /// changes nothing.
    pub fn authenticate(
        &mut self,
        headers: &AuthHeaders,
        method: &[u8],
        path: &[u8],
        body: &[u8],
        now_ms: u64,
        mono_now: u64,
    ) -> (r: Result<[u8; 16], AuthError>)
        requires
            mono_now + NONCE_TTL_MS <= u64::MAX,
        ensures
            match request_check(headers@, method@, path@, body@, now_ms) {
                Err(e) => r == Err::<[u8; 16], AuthError>(e) && forall|k: u128|
                    #[trigger] final(self).nonces_of(k) == old(self).nonces_of(k) && final(self).rate_of(k) == old(self).rate_of(k),
                Ok(c) => {
                    let d = key128(c.device_id);
                    let o = request_outcome(old(self).nonces_of(d), old(self).rate_of(d), key128(c.nonce), mono_now);
                    &&& match o.result {
                        Ok(()) => r is Ok && r->Ok_0@ == c.device_id,
                        Err(e) => r == Err::<[u8; 16], AuthError>(e),
                    }
                    &&& final(self).nonces_of(d) == o.nonces
                    &&& final(self).rate_of(d) == o.rate
                    &&& forall|k: u128|
                        k != d ==> #[trigger] final(self).nonces_of(k) == old(self).nonces_of(k) && final(self).rate_of(k) == old(self).rate_of(k)
                },
            },
    {
        let c = match parse_credentials(headers) {
            Ok(c) => c,
            Err(e) => return Err(e),
        };
        let expected = device_id_from_public_key(&c.public_key);
        if !bytes_eq(&c.device_id, &expected) {
            return Err(AuthError::InvalidDevice);
        }
        if c.timestamp_ms > now_ms.saturating_add(MAX_CLOCK_SKEW_MS) || now_ms.saturating_sub(c.timestamp_ms)
            > MAX_CLOCK_SKEW_MS {
            return Err(AuthError::InvalidTimestamp);
        }
        let body_hash = sha256(body);
        let signed = signing_bytes(method, path, &c.device_id, &c.public_key, c.timestamp_ms, &c.nonce, &body_hash);
        if !ed25519_key_valid(&c.public_key) {
            return Err(AuthError::InvalidHeader);
        }
        if !ed25519_verify(&c.public_key, &signed, &c.signature) {
            return Err(AuthError::InvalidSignature);
        }
        assert(request_check(headers@, method@, path@, body@, now_ms) == Ok::<CredentialsView, AuthError>(c@));
        let ghost d = key128(c.device_id@);
        let ghost o = request_outcome(self.nonces_of(d), self.rate_of(d), key128(c.nonce@), mono_now);
        let res = self.record_request(&c.device_id, &c.nonce, mono_now);
        assert(self.nonces_of(d) == o.nonces);
        assert(self.rate_of(d) == o.rate);
        assert(res == o.result);
        match res {
            Ok(()) => {
                let out = c.device_id;
                assert(out@ == c@.device_id);
                assert(request_check(headers@, method@, path@, body@, now_ms)->Ok_0.device_id == out@);
                Ok(out)
            },
            Err(e) => Err(e),
        }
    }
}

/// Forgets the nonces that expired by `now`, keeping the rest in order.
fn keep_fresh(q: VecDeque<(u128, u64)>, now: u64) -> (r: VecDeque<(u128, u64)>)
    ensures
        r@ == fresh_nonces(q@, now),
{
    let ghost pred = |e: (u128, u64)| e.1 > now;
    let mut out: VecDeque<(u128, u64)> = VecDeque::new();
    let mut i: usize = 0;
    assert(q@.subrange(0, 0).filter(pred) =~= Seq::<(u128, u64)>::empty()) by {
        reveal(Seq::filter);
    }
    while i < q.len()
        invariant
            i <= q@.len(),
            pred == (|e: (u128, u64)| e.1 > now),
            out@ == q@.subrange(0, i as int).filter(pred),
        decreases q@.len() - i,
    {
        let e = q[i];
        proof {
            assert(q@.subrange(0, i + 1) =~= q@.subrange(0, i as int).push(e));
            q@.subrange(0, i as int).lemma_filter_push(e, pred);
        }
        if e.1 > now {
            out.push_back(e);
        }
        i = i + 1;
    }
    assert(q@.subrange(0, q@.len() as int) =~= q@);
    out
}

/// Whether `nonce` is among the remembered nonces.
fn nonce_listed(q: &VecDeque<(u128, u64)>, nonce: u128) -> (r: bool)
    ensures
        r == nonce_seen(q@, nonce),
{
    let mut i: usize = 0;
    while i < q.len()
        invariant
            i <= q@.len(),
            forall|j: int| 0 <= j < i ==> (#[trigger] q@[j]).0 != nonce,
        decreases q@.len() - i,
    {
        if q[i].0 == nonce {
            return true;
        }
        i = i + 1;
    }
    false
}

/// The value of an ASCII hex digit.
pub(crate) fn hex_nibble(value: u8) -> (r: Option<u8>)
    ensures
        r == hex_digit(value),
{
    if 48 <= value && value <= 57 {
        Some(value - 48)
    } else if 97 <= value && value <= 102 {
        Some(value - 97 + 10)
    } else if 65 <= value && value <= 70 {
        Some(value - 65 + 10)
    } else {
        None
    }
}

/// Reads a header of exactly `2n` hex digits as `n` bytes.
fn parse_hex(h: &HeaderText, n: usize) -> (r: Result<Vec<u8>, AuthError>)
    requires
        n <= 64,
    ensures
        match header_hex(h@, n as nat) {
            Ok(b) => r is Ok && r->Ok_0@ == b,
            Err(e) => r == Err::<Vec<u8>, AuthError>(e),
        },
{
    let text = match h {
        HeaderText::Missing => return Err(AuthError::MissingHeader),
        HeaderText::NotText => return Err(AuthError::InvalidHeader),
        HeaderText::Text(t) => t,
    };
    if text.len() != 2 * n {
        return Err(AuthError::InvalidHeader);
    }
    let mut out: Vec<u8> = Vec::new();
    let mut i: usize = 0;
    while i < n
        invariant
            i <= n,
            n <= 64,
            h@ == HeaderView::Text(text@),
            text@.len() == 2 * n,
            out@.len() == i,
            forall|j: int| 0 <= j < 2 * i ==> (#[trigger] hex_digit(text@[j])) is Some,
            forall|k: int|
                0 <= k < i ==> out@[k] == (hex_digit(text@[2 * k])->Some_0 * 16 + hex_digit(text@[2 * k + 1])->Some_0) as u8,
        decreases n - i,
    {
        let hi = match hex_nibble(text[2 * i]) {
            Some(v) => v,
            None => {
                assert(hex_bytes(text@, n as nat) is None) by {
                    assert(hex_digit(text@[2 * i as int]) is None);
                }
                return Err(AuthError::InvalidHeader);
            },
        };
        let lo = match hex_nibble(text[2 * i + 1]) {
            Some(v) => v,
            None => {
                assert(hex_bytes(text@, n as nat) is None) by {
                    assert(hex_digit(text@[2 * i as int + 1]) is None);
                }
                return Err(AuthError::InvalidHeader);
            },
        };
        out.push(hi * 16 + lo);
        i = i + 1;
    }
    assert(out@ =~= Seq::new(
        n as nat,
        |k: int| (hex_digit(text@[2 * k])->Some_0 * 16 + hex_digit(text@[2 * k + 1])->Some_0) as u8,
    ));
    Ok(out)
}

proof fn lemma_decimal_prefix(s: Seq<u8>, k: int)
    requires
        all_decimal(s),
        0 <= k <= s.len(),
    ensures
        decimal_value(s.subrange(0, k)) <= decimal_value(s),
    decreases s.len() - k,
{
    if k < s.len() {
        lemma_decimal_prefix(s, k + 1);
        assert(s.subrange(0, k + 1).drop_last() =~= s.subrange(0, k));
    } else {
        assert(s.subrange(0, k) =~= s);
    }
}

/// Reads a decimal `u64` the way `str::parse::<u64>` does.
pub(crate) fn parse_decimal(t: &[u8]) -> (r: Option<u64>)
    ensures
        r == parse_u64(t@),
{
    let start: usize = if t.len() > 0 && t[0] == 43 { 1 } else { 0 };
    let ghost d = t@.subrange(start as int, t@.len() as int);
    assert(d == (if t@.len() > 0 && t@[0] == 43 { t@.subrange(1, t@.len() as int) } else { t@ })) by {
        if start == 0 {
            assert(d =~= t@);
        }
    }
    if t.len() == start {
        return None;
    }
    let mut v: u64 = 0;
    let mut i: usize = start;
    while i < t.len()
        invariant
            start <= i <= t@.len(),
            d == t@.subrange(start as int, t@.len() as int),
            d == (if t@.len() > 0 && t@[0] == 43 { t@.subrange(1, t@.len() as int) } else { t@ }),
            all_decimal(d.subrange(0, i - start)),
            v == decimal_value(d.subrange(0, i - start)),
        decreases t@.len() - i,
    {
        let c = t[i];
        assert(d[i - start] == c);
        if c < 48 || c > 57 {
            assert(!all_decimal(d));
            return None;
        }
        proof {
            assert(d.subrange(0, i + 1 - start).drop_last() =~= d.subrange(0, i - start));
        }
        let step = match v.checked_mul(10) {
            Some(x) => x.checked_add((c - 48) as u64),
            None => None,
        };
        match step {
            Some(x) => {
                v = x;
            },
            None => {
                proof {
                    if all_decimal(d) {
                        lemma_decimal_prefix(d, i + 1 - start);
                    }
                }
                return None;
            },
        }
        i = i + 1;
    }
    assert(d.subrange(0, d.len() as int) =~= d);
    Some(v)
}

/// Reads the authentication headers of a request, in the order device id,
/// public key, timestamp, nonce, signature.
pub fn parse_credentials(h: &AuthHeaders) -> (r: Result<Credentials, AuthError>)
    ensures
        match parse_credentials_spec(h@) {
            Ok(c) => r is Ok && r->Ok_0@ == c,
            Err(e) => r is Err && r->Err_0 == e,
        },
{
    let device_id = match parse_hex(&h.device_id, 16) {
        Ok(b) => b,
        Err(e) => return Err(e),
    };
    let public_key = match parse_hex(&h.public_key, 32) {
        Ok(b) => b,
        Err(e) => return Err(e),
    };
    let timestamp_ms = match &h.timestamp {
        HeaderText::Missing => return Err(AuthError::MissingHeader),
        HeaderText::NotText => return Err(AuthError::InvalidHeader),
        HeaderText::Text(t) => match parse_decimal(t.as_slice()) {
            Some(v) => v,
            None => return Err(AuthError::InvalidHeader),
        },
    };
    let nonce = match parse_hex(&h.nonce, 16) {
        Ok(b) => b,
        Err(e) => return Err(e),
    };
    let signature = match parse_hex(&h.signature, 64) {
        Ok(b) => b,
        Err(e) => return Err(e),
    };
    let c = Credentials {
        device_id: copy_16(device_id.as_slice(), 0),
        public_key: copy_32(public_key.as_slice(), 0),
        timestamp_ms,
        nonce: copy_16(nonce.as_slice(), 0),
        signature: copy_64(signature.as_slice(), 0),
    };
    assert(c.device_id@ =~= device_id@);
    assert(c.public_key@ =~= public_key@);
    assert(c.nonce@ =~= nonce@);
    assert(c.signature@ =~= signature@);
    Ok(c)
}

fn device_id_domain_bytes() -> (v: Vec<u8>)
    ensures
        v@ == device_id_domain(),
{
    let v = vec![77u8, 47u8, 100u8, 101u8, 118u8, 105u8, 99u8, 101u8, 45u8, 105u8, 100u8, 47u8, 118u8, 49u8];
    assert(v@ =~= device_id_domain());
    v
}

fn auth_domain_bytes() -> (v: Vec<u8>)
    ensures
        v@ == auth_domain(),
{
    let v = vec![77u8, 47u8, 114u8, 101u8, 108u8, 97u8, 121u8, 45u8, 97u8, 117u8, 116u8, 104u8, 47u8, 118u8, 49u8];
    assert(v@ =~= auth_domain());
    v
}

/// The device id a public key stands for.
pub fn device_id_from_public_key(public_key: &[u8; 32]) -> (id: [u8; 16])
    ensures
        id@ == device_id_of(public_key@),
{
    let mut input = device_id_domain_bytes();
    push_bytes(&mut input, public_key);
    let digest = sha256(input.as_slice());
    copy_16(&digest, 0)
}

/// The bytes a request signature covers.
pub fn signing_bytes(
    method: &[u8],
    path: &[u8],
    device_id: &[u8; 16],
    public_key: &[u8; 32],
    timestamp_ms: u64,
    nonce: &[u8; 16],
    body_hash: &[u8],
) -> (out: Vec<u8>)
    ensures
        out@ == signing_bytes_spec(method@, path@, device_id@, public_key@, timestamp_ms, nonce@, body_hash@),
{
    let mut out = auth_domain_bytes();
    push_be16(&mut out, method.len() as u16);
    push_bytes(&mut out, method);
    push_be32(&mut out, path.len() as u32);
    push_bytes(&mut out, path);
    push_bytes(&mut out, device_id);
    push_bytes(&mut out, public_key);
    push_be64(&mut out, timestamp_ms);
    push_bytes(&mut out, nonce);
    push_bytes(&mut out, body_hash);
    out
}

/// The nonce memory covers every request the rate limit lets a device make
/// while a nonce is remembered.
pub proof fn lemma_nonce_capacity_covers_rate_window_and_ttl()
    ensures
        RATE_LIMIT_PER_DEVICE * (NONCE_TTL_MS / RATE_WINDOW_MS) <= MAX_NONCES_PER_DEVICE,
{
}

/// A remembered nonce that has not expired is refused as a replay.
pub proof fn lemma_remembered_nonce_is_replay(q: Seq<(u128, u64)>, r: Option<(u64, u32)>, nonce: u128, expires: u64, now: u64)
    requires
        q.contains((nonce, expires)),
        now < expires,
    ensures
        request_outcome(q, r, nonce, now).result == Err::<(), AuthError>(AuthError::Replay),
{
    let i = choose|i: int| 0 <= i < q.len() && q[i] == (nonce, expires);
    q.lemma_filter_contains(|e: (u128, u64)| e.1 > now, i);
    let f = fresh_nonces(q, now);
    let j = choose|j: int| 0 <= j < f.len() && f[j] == (nonce, expires);
    assert(f[j].0 == nonce);
}

/// An accepted request's nonce is remembered until the nonce lifetime has
/// passed, and counts against the device's window.
pub proof fn lemma_accepted_nonce_is_remembered(q: Seq<(u128, u64)>, r: Option<(u64, u32)>, nonce: u128, now: u64)
    requires
        request_outcome(q, r, nonce, now).result is Ok,
        now + NONCE_TTL_MS <= u64::MAX,
    ensures
        request_outcome(q, r, nonce, now).nonces.contains((nonce, (now + NONCE_TTL_MS) as u64)),
        request_outcome(q, r, nonce, now).rate->Some_0.1 >= 1,
{
    let o = request_outcome(q, r, nonce, now);
    assert(o.nonces[o.nonces.len() - 1] == (nonce, (now + NONCE_TTL_MS) as u64));
}

/// Within a window, a device that has made [`RATE_LIMIT_PER_DEVICE`]
/// requests is refused until the window has passed.
pub proof fn lemma_full_window_is_rate_limited(q: Seq<(u128, u64)>, start: u64, nonce: u128, now: u64)
    requires
        !nonce_seen(fresh_nonces(q, now), nonce),
        sat_sub(now, start) < RATE_WINDOW_MS,
    ensures
        request_outcome(q, Some((start, RATE_LIMIT_PER_DEVICE)), nonce, now).result == Err::<(), AuthError>(
            AuthError::RateLimited,
        ),
{
}

/// When a remembered nonce was accepted: its expiry less the nonce lifetime.
pub open spec fn accepted_at(e: (u128, u64)) -> int {
    e.1 - NONCE_TTL_MS
}

/// How many remembered nonces were accepted at or after `from` and before `to`.
pub open spec fn accepted_in(q: Seq<(u128, u64)>, from: int, to: int) -> nat {
    q.filter(|e: (u128, u64)| from <= accepted_at(e) && accepted_at(e) < to).len()
}

/// How many rate windows an interval of `d` milliseconds that ends where a
/// window starts can reach back into.
pub open spec fn windows_for(d: int) -> int {
    if d <= 0 {
        0
    } else {
        (d + RATE_WINDOW_MS - 1) / (RATE_WINDOW_MS as int)
    }
}

/// A device's remembered nonces and rate window are what requests at times
/// no later than `last` can leave behind: every remembered nonce was
/// accepted before the current window closes, at most the window's count
/// in the current window, and at most [`RATE_LIMIT_PER_DEVICE`] per window
/// before it.
pub open spec fn nonce_history_ok(q: Seq<(u128, u64)>, r: Option<(u64, u32)>, last: u64) -> bool {
    match r {
        None => q.len() == 0,
        Some(w) => {
            &&& w.0 <= last
            &&& w.1 <= RATE_LIMIT_PER_DEVICE
            &&& forall|i: int| 0 <= i < q.len() ==> accepted_at(#[trigger] q[i]) < w.0 + RATE_WINDOW_MS
            &&& accepted_in(q, w.0 as int, w.0 + RATE_WINDOW_MS) <= w.1
            &&& forall|t: int|
                #[trigger] accepted_in(q, t, w.0 as int) <= RATE_LIMIT_PER_DEVICE * windows_for(w.0 - t)
        }
    }
}

proof fn lemma_filter_len_split(
    q: Seq<(u128, u64)>,
    p: spec_fn((u128, u64)) -> bool,
    a: spec_fn((u128, u64)) -> bool,
    b: spec_fn((u128, u64)) -> bool,
)
    requires
        forall|x: (u128, u64)| #[trigger] p(x) ==> a(x) || b(x),
    ensures
        q.filter(p).len() <= q.filter(a).len() + q.filter(b).len(),
    decreases q.len(),
{
    reveal(Seq::filter);
    if q.len() > 0 {
        lemma_filter_len_split(q.drop_last(), p, a, b);
    }
}

proof fn lemma_filter_len_of_filter(q: Seq<(u128, u64)>, f: spec_fn((u128, u64)) -> bool, p: spec_fn((u128, u64)) -> bool)
    ensures
        q.filter(f).filter(p).len() <= q.filter(p).len(),
    decreases q.len(),
{
    reveal(Seq::filter);
    if q.len() > 0 {
        let d = q.drop_last();
        lemma_filter_len_of_filter(d, f, p);
        if f(q.last()) {
            d.filter(f).lemma_filter_push(q.last(), p);
        }
    }
}

proof fn lemma_filter_len_drop_first(q: Seq<(u128, u64)>, p: spec_fn((u128, u64)) -> bool)
    requires
        q.len() > 0,
    ensures
        q.drop_first().filter(p).len() <= q.filter(p).len(),
{
    assert(q =~= seq![q[0]] + q.drop_first());
    Seq::filter_distributes_over_add(seq![q[0]], q.drop_first(), p);
}

proof fn lemma_filter_len_none(q: Seq<(u128, u64)>, p: spec_fn((u128, u64)) -> bool)
    requires
        forall|i: int| 0 <= i < q.len() ==> !p(#[trigger] q[i]),
    ensures
        q.filter(p).len() == 0,
    decreases q.len(),
{
    reveal(Seq::filter);
    if q.len() > 0 {
        lemma_filter_len_none(q.drop_last(), p);
    }
}

proof fn lemma_windows_for(d: int, e: int)
    ensures
        0 <= d <= e ==> windows_for(d) <= windows_for(e),
        0 < d && d + RATE_WINDOW_MS <= e ==> windows_for(d) + 1 <= windows_for(e),
        0 < e ==> 1 <= windows_for(e),
        e < NONCE_TTL_MS ==> windows_for(e) <= 5,
{
    if 0 < d && d + RATE_WINDOW_MS <= e {
        assert((d + 59999) / 60000 + 1 <= (e + 59999) / 60000) by (nonlinear_arith)
            requires
                0 < d,
                d + 60000 <= e,
        ;
    }
    if 0 <= d && d <= e {
        if d > 0 {
            assert((d + 59999) / 60000 <= (e + 59999) / 60000) by (nonlinear_arith)
                requires
                    0 < d <= e,
            ;
        }
    }
    if 0 < e {
        assert(1 <= (e + 59999) / 60000) by (nonlinear_arith)
            requires
                0 < e,
        ;
    }
    if 0 < e && e < NONCE_TTL_MS {
        assert((e + 59999) / 60000 <= 5) by (nonlinear_arith)
            requires
                0 < e < 300000,
        ;
    }
}

/// The nonce memory suffices: for a device whose state comes from requests
/// at non-decreasing times, the nonces still fresh when a request arrives
/// number fewer than [`MAX_NONCES_PER_DEVICE`], so recording the request
/// never drops a nonce before it expires; and the state it leaves is again
/// of that kind.
pub proof fn lemma_nonce_memory_suffices(q: Seq<(u128, u64)>, r: Option<(u64, u32)>, last: u64, nonce: u128, now: u64)
    requires
        nonce_history_ok(q, r, last),
        last <= now,
        now + NONCE_TTL_MS <= u64::MAX,
    ensures
        fresh_nonces(q, now).len() < MAX_NONCES_PER_DEVICE,
        nonce_history_ok(request_outcome(q, r, nonce, now).nonces, request_outcome(q, r, nonce, now).rate, now),
{
    let fresh = |e: (u128, u64)| e.1 > now;
    let q1 = fresh_nonces(q, now);
    assert(q1 == q.filter(fresh));
    let o = request_outcome(q, r, nonce, now);
    match r {
        None => {
            assert(q1.len() == 0) by {
                q.lemma_filter_len(fresh);
            }
            if o.result is Ok {
                let e = (nonce, (now + NONCE_TTL_MS) as u64);
                assert(o.nonces == q1.push(e));
                assert(q1 =~= Seq::<(u128, u64)>::empty());
                assert(o.nonces =~= seq![e]);
                assert forall|t: int| #[trigger] accepted_in(o.nonces, t, now as int) <= RATE_LIMIT_PER_DEVICE
                    * windows_for(now - t) by {
                    let p = |x: (u128, u64)| t <= accepted_at(x) && accepted_at(x) < now;
                    lemma_filter_len_none(o.nonces, p);
                    lemma_windows_for(0, now - t);
                }
                let p = |x: (u128, u64)| now <= accepted_at(x) && accepted_at(x) < now + RATE_WINDOW_MS;
                o.nonces.lemma_filter_len(p);
            }
        },
        Some(w) => {
            let s = w.0;
            let c = w.1;
            // The fresh nonces: those accepted after `now - TTL`.
            let cur = |x: (u128, u64)| s <= accepted_at(x) && accepted_at(x) < s + RATE_WINDOW_MS;
            let before = |x: (u128, u64)| (now - NONCE_TTL_MS + 1) as int <= accepted_at(x) && accepted_at(x) < s;
            assert forall|i: int| 0 <= i < q.len() && #[trigger] fresh(q[i]) implies before(q[i]) || cur(q[i]) by {
                assert(accepted_at(q[i]) < s + RATE_WINDOW_MS);
            }
            assert(q1.len() < MAX_NONCES_PER_DEVICE) by {
                assert forall|x: (u128, u64)| #[trigger] fresh(x) implies (before(x) || cur(x)) || accepted_at(x) >= s
                    + RATE_WINDOW_MS by {}
                let late = |x: (u128, u64)| accepted_at(x) >= s + RATE_WINDOW_MS;
                let bc = |x: (u128, u64)| before(x) || cur(x);
                lemma_filter_len_split(q, fresh, bc, late);
                lemma_filter_len_none(q, late);
                lemma_filter_len_split(q, bc, before, cur);
                assert(q.filter(before).len() == accepted_in(q, (now - NONCE_TTL_MS + 1) as int, s as int));
                assert(accepted_in(q, (now - NONCE_TTL_MS + 1) as int, s as int) <= RATE_LIMIT_PER_DEVICE
                    * windows_for(s - (now - NONCE_TTL_MS + 1)));
                lemma_windows_for(s - (now - NONCE_TTL_MS + 1), s - (now - NONCE_TTL_MS + 1));
                if s - (now - NONCE_TTL_MS + 1) <= 0 {
                    assert(windows_for(s - (now - NONCE_TTL_MS + 1)) == 0);
                }
            }
            // Filtering by freshness only lowers every count.
            assert forall|t: int, u: int| #[trigger] accepted_in(q1, t, u) <= accepted_in(q, t, u) by {
                let p = |x: (u128, u64)| t <= accepted_at(x) && accepted_at(x) < u;
                lemma_filter_len_of_filter(q, fresh, p);
            }
            assert forall|i: int| 0 <= i < q1.len() implies accepted_at(#[trigger] q1[i]) < s + RATE_WINDOW_MS by {
                assert(q1.contains(q1[i]));
                q.lemma_filter_contains_rev(fresh, q1[i]);
            }
            let reset = sat_sub(now, s) >= RATE_WINDOW_MS;
            let window = if reset { (now, 0u32) } else { w };
            if reset {
                // A new window starts at `now`: everything remembered lies before it.
                assert forall|t: int| #[trigger] accepted_in(q1, t, now as int) <= RATE_LIMIT_PER_DEVICE * windows_for(
                    now - t,
                ) by {
                    let p = |x: (u128, u64)| t <= accepted_at(x) && accepted_at(x) < now;
                    let late = |x: (u128, u64)| accepted_at(x) >= s + RATE_WINDOW_MS;
                    lemma_filter_len_none(q1, late);
                    if t < s {
                        let a = |x: (u128, u64)| t <= accepted_at(x) && accepted_at(x) < s;
                        let ac = |x: (u128, u64)| a(x) || cur(x);
                        lemma_filter_len_split(q1, p, ac, late);
                        lemma_filter_len_split(q1, ac, a, cur);
                        assert(accepted_in(q1, s as int, s + RATE_WINDOW_MS) <= c);
                        assert(accepted_in(q1, t, s as int) <= accepted_in(q, t, s as int));
                        lemma_windows_for(s - t, now - t);
                    } else {
                        lemma_filter_len_split(q1, p, cur, late);
                        assert(accepted_in(q1, s as int, s + RATE_WINDOW_MS) <= c);
                        if t < now {
                            lemma_windows_for(now - t, now - t);
                        } else {
                            lemma_filter_len_none(q1, p);
                        }
                    }
                }
                let pnew = |x: (u128, u64)| now <= accepted_at(x) && accepted_at(x) < now + RATE_WINDOW_MS;
                lemma_filter_len_none(q1, pnew);
            }
            if o.result is Ok {
                let e = (nonce, (now + NONCE_TTL_MS) as u64);
                let kept = if q1.len() >= MAX_NONCES_PER_DEVICE {
                    q1.drop_first()
                } else {
                    q1
                };
                assert(kept == q1);
                assert(o.nonces == q1.push(e));
                assert(o.rate == Some((window.0, (window.1 + 1) as u32)));
                let ws = window.0;
                assert forall|i: int| 0 <= i < o.nonces.len() implies accepted_at(#[trigger] o.nonces[i]) < ws
                    + RATE_WINDOW_MS by {
                    if i < q1.len() {
                        assert(o.nonces[i] == q1[i]);
                    }
                }
                let pc = |x: (u128, u64)| ws <= accepted_at(x) && accepted_at(x) < ws + RATE_WINDOW_MS;
                q1.lemma_filter_push(e, pc);
                assert forall|t: int| #[trigger] accepted_in(o.nonces, t, ws as int) <= RATE_LIMIT_PER_DEVICE * windows_for(
                    ws - t,
                ) by {
                    let p = |x: (u128, u64)| t <= accepted_at(x) && accepted_at(x) < ws;
                    q1.lemma_filter_push(e, p);
                    assert(accepted_in(q1, t, ws as int) == q1.filter(p).len());
                    if !reset {
                        assert(accepted_in(q1, t, s as int) <= accepted_in(q, t, s as int));
                    }
                }
                if !reset {
                    assert(accepted_in(q1, s as int, s + RATE_WINDOW_MS) <= accepted_in(q, s as int, s + RATE_WINDOW_MS));
                }
            } else {
                assert(o.nonces == q1);
                if !reset {
                    assert forall|t: int| #[trigger] accepted_in(q1, t, s as int) <= RATE_LIMIT_PER_DEVICE * windows_for(
                        s - t,
                    ) by {
                        assert(accepted_in(q1, t, s as int) <= accepted_in(q, t, s as int));
                    }
                    assert(accepted_in(q1, s as int, s + RATE_WINDOW_MS) <= accepted_in(q, s as int, s + RATE_WINDOW_MS));
                }
            }
        },
    }
}

/// A nonce that is still fresh stays remembered whatever request a device
/// whose state comes from requests at non-decreasing times makes next, so
/// it is refused as a replay until it expires.
pub proof fn lemma_fresh_nonce_survives(
    q: Seq<(u128, u64)>,
    r: Option<(u64, u32)>,
    last: u64,
    seen: (u128, u64),
    nonce: u128,
    now: u64,
)
    requires
        nonce_history_ok(q, r, last),
        q.contains(seen),
        last <= now < seen.1,
        now + NONCE_TTL_MS <= u64::MAX,
    ensures
        request_outcome(q, r, nonce, now).nonces.contains(seen),
{
    lemma_nonce_memory_suffices(q, r, last, nonce, now);
    let fresh = |e: (u128, u64)| e.1 > now;
    let i = choose|i: int| 0 <= i < q.len() && q[i] == seen;
    q.lemma_filter_contains(fresh, i);
    let q1 = fresh_nonces(q, now);
    assert(q1 == q.filter(fresh));
    let o = request_outcome(q, r, nonce, now);
    if o.result is Ok {
        let e = (nonce, (now + NONCE_TTL_MS) as u64);
        assert(o.nonces == q1.push(e));
        let j = choose|j: int| 0 <= j < q1.len() && q1[j] == seen;
        assert(o.nonces[j] == seen);
    }
}

impl Default for AuthState {
    fn default() -> (s: Self)
        ensures
            forall|d: u128| #[trigger] s.nonces_of(d) == Seq::<(u128, u64)>::empty() && s.rate_of(d) is None,
    {
        Self::new()
    }
}

} // verus!
