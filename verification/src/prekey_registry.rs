//! The gateway's registry of published prekey bundles: signed, time-bounded
//! publications whose generation only grows, revocation, and one-time
//! prekey claims that hand each key to exactly one claimant and answer a
//! retried request with the same claim.
use vstd::prelude::*;
use std::collections::HashMap;
use crate::identity::{signed_prekey_message, SignedPrekeyRecord};
use crate::primitives::{ed25519_verify, ed25519_verify_spec};
use crate::protocol::{BundleView, PreKeyBundle, PROTOCOL_VERSION};
use crate::relay::{sat_add, sat_sub};
use crate::wire::{
    all_zero, be16, be32, be64, bytes_eq, key128, key128_of, push_be16, push_be32, push_be64, push_bytes, is_zero_id, read_be16,
    read_be32, read_be64, lemma_be16_round_trip, lemma_be32_round_trip, lemma_be64_round_trip,
};

verus! {

/// Longest lifetime a publication may claim.
pub const MAX_LIFETIME_MS: u64 = 2592000000;

/// How far in the future a publication may claim to be issued.
pub const MAX_CLOCK_SKEW_MS: u64 = 300000;

#[derive(Debug, Clone)]
pub struct PreKeyPublication {
    pub bundle: PreKeyBundle,
    pub generation: u64,
    pub issued_at_ms: u64,
    pub expires_at_ms: u64,
    pub signature: [u8; 64],
}

#[derive(Debug, Clone, Copy, PartialEq, Eq)]
pub enum PublicationError {
    InvalidBundle,
    InvalidVersion,
    InvalidTime,
    Expired,
    TooLong,
    InvalidSignature,
    WrongDevice,
    StaleGeneration,
    NotFound,
    AlreadyRevoked,
    AlreadyClaimed,
    InvalidRequest,
    Poisoned,
}

/// Mathematical value of a [`PreKeyPublication`].
pub struct PublicationView {
    pub bundle: BundleView,
    pub generation: u64,
    pub issued_at_ms: u64,
    pub expires_at_ms: u64,
    pub signature: Seq<u8>,
}

impl View for PreKeyPublication {
    type V = PublicationView;

    open spec fn view(&self) -> PublicationView {
        PublicationView {
            bundle: self.bundle@,
            generation: self.generation,
            issued_at_ms: self.issued_at_ms,
            expires_at_ms: self.expires_at_ms,
            signature: self.signature@,
        }
    }
}

/// "M/PREKEY-PUBLICATION/v1"
pub open spec fn publication_domain() -> Seq<u8> {
    seq![
        77u8, 47u8, 80u8, 82u8, 69u8, 75u8, 69u8, 89u8, 45u8, 80u8, 85u8, 66u8, 76u8, 73u8, 67u8, 65u8, 84u8, 73u8,
        79u8, 78u8, 47u8, 118u8, 49u8,
    ]
}

/// The one-time prekeys of a publication, each as its big-endian id and
/// public key, in order.
pub open spec fn one_time_prekey_bytes(keys: Seq<(u32, Seq<u8>)>) -> Seq<u8>
    decreases keys.len(),
{
    if keys.len() == 0 {
        Seq::empty()
    } else {
        one_time_prekey_bytes(keys.drop_last()) + be32(keys.last().0) + keys.last().1
    }
}

/// The bytes a publication's signature covers: domain, bundle fields,
/// generation, issue and expiry times, and the counted one-time prekeys.
pub open spec fn publication_bytes(p: PublicationView) -> Seq<u8> {
    let b = p.bundle;
    publication_domain() + be16(b.protocol_version) + b.device_id + b.identity_signing_key + b.identity_agreement_key
        + be32(b.signed_prekey_id) + b.signed_prekey + b.signed_prekey_signature + be64(p.generation) + be64(
        p.issued_at_ms,
    ) + be64(p.expires_at_ms) + be32(b.one_time_prekeys.len() as u32) + one_time_prekey_bytes(b.one_time_prekeys)
}

/// Whether no one-time prekey id occurs twice in a bundle.
pub open spec fn bundle_ids_distinct(b: BundleView) -> bool {
    forall|i: int, j: int|
        0 <= i < j < b.one_time_prekeys.len() ==> (#[trigger] b.one_time_prekeys[i]).0
            != (#[trigger] b.one_time_prekeys[j]).0
}

/// Whether the publication is signed by its bundle's identity key.
pub open spec fn publication_signed(p: PublicationView) -> bool {
    ed25519_verify_spec(p.bundle.identity_signing_key, publication_bytes(p), p.signature)
}

/// Whether the bundle's signed prekey is signed by its identity key.
pub open spec fn prekey_signed(b: BundleView) -> bool {
    ed25519_verify_spec(
        b.identity_signing_key,
        signed_prekey_message(b.signed_prekey_id, b.signed_prekey, b.identity_agreement_key),
        b.signed_prekey_signature,
    )
}

/// The first check a publication fails, in order: bundle structure,
/// version, device, issue time, lifetime, expiry, signatures; `None` when it
/// passes.
pub open spec fn publication_error(p: PublicationView, expected_device: Seq<u8>, now_ms: u64) -> Option<
    PublicationError,
> {
    if !bundle_ids_distinct(p.bundle) {
        Some(PublicationError::InvalidBundle)
    } else if p.bundle.protocol_version != PROTOCOL_VERSION {
        Some(PublicationError::InvalidVersion)
    } else if p.bundle.device_id != expected_device {
        Some(PublicationError::WrongDevice)
    } else if p.issued_at_ms > sat_add(now_ms, MAX_CLOCK_SKEW_MS) || p.expires_at_ms <= p.issued_at_ms {
        Some(PublicationError::InvalidTime)
    } else if sat_sub(p.expires_at_ms, p.issued_at_ms) > MAX_LIFETIME_MS {
        Some(PublicationError::TooLong)
    } else if p.expires_at_ms <= now_ms {
        Some(PublicationError::Expired)
    } else if !publication_signed(p) || !prekey_signed(p.bundle) {
        Some(PublicationError::InvalidSignature)
    } else {
        None
    }
}

/// The signed bytes of a publication hold every field at a fixed place, so
/// each can be read back: the domain, the big-endian protocol version, the
/// device id, both identity keys, the big-endian signed-prekey id, the signed
/// prekey and its signature, then the big-endian generation, issue time and
/// expiry time, the big-endian count of one-time prekeys and the prekeys
/// themselves.
pub proof fn lemma_publication_bytes_fields(p: PublicationView)
    requires
        p.bundle.device_id.len() == 16,
        p.bundle.identity_signing_key.len() == 32,
        p.bundle.identity_agreement_key.len() == 32,
        p.bundle.signed_prekey.len() == 32,
        p.bundle.signed_prekey_signature.len() == 64,
        p.bundle.one_time_prekeys.len() <= u32::MAX,
    ensures
        ({
            let s = publication_bytes(p);
            &&& s.len() >= 233
            &&& s.subrange(0, 23) == publication_domain()
            &&& read_be16(s, 23) == p.bundle.protocol_version
            &&& s.subrange(25, 41) == p.bundle.device_id
            &&& s.subrange(41, 73) == p.bundle.identity_signing_key
            &&& s.subrange(73, 105) == p.bundle.identity_agreement_key
            &&& read_be32(s, 105) == p.bundle.signed_prekey_id
            &&& s.subrange(109, 141) == p.bundle.signed_prekey
            &&& s.subrange(141, 205) == p.bundle.signed_prekey_signature
            &&& read_be64(s, 205) == p.generation
            &&& read_be64(s, 213) == p.issued_at_ms
            &&& read_be64(s, 221) == p.expires_at_ms
            &&& read_be32(s, 229) == p.bundle.one_time_prekeys.len()
            &&& s.subrange(233, s.len() as int) == one_time_prekey_bytes(p.bundle.one_time_prekeys)
        }),
{
    let b = p.bundle;
    let s = publication_bytes(p);
    let n = b.one_time_prekeys.len() as u32;
    lemma_be16_round_trip(b.protocol_version);
    lemma_be32_round_trip(b.signed_prekey_id);
    lemma_be64_round_trip(p.generation);
    lemma_be64_round_trip(p.issued_at_ms);
    lemma_be64_round_trip(p.expires_at_ms);
    lemma_be32_round_trip(n);
    assert(s.subrange(0, 23) =~= publication_domain());
    assert(s.subrange(23, 25) =~= be16(b.protocol_version));
    assert(read_be16(s, 23) == read_be16(s.subrange(23, 25), 0));
    assert(s.subrange(25, 41) =~= b.device_id);
    assert(s.subrange(41, 73) =~= b.identity_signing_key);
    assert(s.subrange(73, 105) =~= b.identity_agreement_key);
    assert(s.subrange(105, 109) =~= be32(b.signed_prekey_id));
    assert(read_be32(s, 105) == read_be32(s.subrange(105, 109), 0));
    assert(s.subrange(109, 141) =~= b.signed_prekey);
    assert(s.subrange(141, 205) =~= b.signed_prekey_signature);
    assert(s.subrange(205, 213) =~= be64(p.generation));
    assert(read_be64(s, 205) == read_be64(s.subrange(205, 213), 0));
    assert(s.subrange(213, 221) =~= be64(p.issued_at_ms));
    assert(read_be64(s, 213) == read_be64(s.subrange(213, 221), 0));
    assert(s.subrange(221, 229) =~= be64(p.expires_at_ms));
    assert(read_be64(s, 221) == read_be64(s.subrange(221, 229), 0));
    assert(s.subrange(229, 233) =~= be32(n));
    assert(read_be32(s, 229) == read_be32(s.subrange(229, 233), 0));
    assert(s.subrange(233, s.len() as int) =~= one_time_prekey_bytes(b.one_time_prekeys));
}

/// The signature covers the expiry time (and likewise every other field):
/// two publications that differ only in their expiry have different signed
/// bytes.
pub proof fn lemma_publication_bytes_bind_expiry(p: PublicationView, expires_at_ms: u64)
    requires
        p.bundle.device_id.len() == 16,
        p.bundle.identity_signing_key.len() == 32,
        p.bundle.identity_agreement_key.len() == 32,
        p.bundle.signed_prekey.len() == 32,
        p.bundle.signed_prekey_signature.len() == 64,
        p.bundle.one_time_prekeys.len() <= u32::MAX,
        expires_at_ms != p.expires_at_ms,
    ensures
        publication_bytes(PublicationView { expires_at_ms, ..p }) != publication_bytes(p),
{
    lemma_publication_bytes_fields(p);
    lemma_publication_bytes_fields(PublicationView { expires_at_ms, ..p });
}

/// What a publication that once passed validation keeps at every later
/// time: distinct one-time prekey ids, the current protocol version, a
/// lifetime that is positive and within [`MAX_LIFETIME_MS`], and both
/// signatures.
pub open spec fn publication_valid(p: PublicationView) -> bool {
    &&& bundle_ids_distinct(p.bundle)
    &&& p.bundle.protocol_version == PROTOCOL_VERSION
    &&& p.expires_at_ms > p.issued_at_ms
    &&& sat_sub(p.expires_at_ms, p.issued_at_ms) <= MAX_LIFETIME_MS
    &&& publication_signed(p)
    &&& prekey_signed(p.bundle)
}

/// Why publishing `p` for `expected_device` at `now_ms` is refused, given
/// whether its device is revoked and its current publication: the first
/// failed validation check, then revocation, then a generation that does
/// not grow.
pub open spec fn publish_error(
    p: PublicationView,
    expected_device: Seq<u8>,
    now_ms: u64,
    revoked: bool,
    current: Option<PublicationView>,
) -> Option<PublicationError> {
    match publication_error(p, expected_device, now_ms) {
        Some(e) => Some(e),
        None => if revoked {
            Some(PublicationError::AlreadyRevoked)
        } else if current is Some && p.generation <= current->Some_0.generation {
            Some(PublicationError::StaleGeneration)
        } else {
            None
        },
    }
}

/// Why revoking generation `generation` of a device is refused, given its
/// current publication and whether it is already revoked.
pub open spec fn revoke_error(current: Option<PublicationView>, revoked: bool, generation: u64) -> Option<PublicationError> {
    match current {
        None => Some(PublicationError::NotFound),
        Some(p) => if p.generation != generation {
            Some(PublicationError::StaleGeneration)
        } else if revoked {
            Some(PublicationError::AlreadyRevoked)
        } else {
            None
        },
    }
}

fn publication_domain_bytes() -> (v: Vec<u8>)
    ensures
        v@ == publication_domain(),
{
    let v = vec![
        77u8, 47u8, 80u8, 82u8, 69u8, 75u8, 69u8, 89u8, 45u8, 80u8, 85u8, 66u8, 76u8, 73u8, 67u8, 65u8, 84u8, 73u8,
        79u8, 78u8, 47u8, 118u8, 49u8,
    ];
    assert(v@ =~= publication_domain());
    v
}

impl PreKeyPublication {
    /// The bytes the publication's signature covers.
    pub fn signing_bytes(&self) -> (out: Vec<u8>)
        ensures
            out@ == publication_bytes(self@),
    {
        let b = &self.bundle;
        let mut out = publication_domain_bytes();
        push_be16(&mut out, b.protocol_version.0);
        push_bytes(&mut out, &b.device_id);
        push_bytes(&mut out, &b.identity_signing_key);
        push_bytes(&mut out, &b.identity_agreement_key);
        push_be32(&mut out, b.signed_prekey_id);
        push_bytes(&mut out, &b.signed_prekey);
        push_bytes(&mut out, &b.signed_prekey_signature);
        push_be64(&mut out, self.generation);
        push_be64(&mut out, self.issued_at_ms);
        push_be64(&mut out, self.expires_at_ms);
        push_be32(&mut out, b.one_time_prekeys.len() as u32);
        let ghost head = out@;
        let ghost keys = b@.one_time_prekeys;
        let mut i: usize = 0;
        assert(keys.subrange(0, 0) =~= Seq::<(u32, Seq<u8>)>::empty());
        assert(head + one_time_prekey_bytes(keys.subrange(0, 0)) =~= head);
        while i < b.one_time_prekeys.len()
            invariant
                i <= keys.len(),
                keys == b@.one_time_prekeys,
                keys.len() == b.one_time_prekeys@.len(),
                out@ == head + one_time_prekey_bytes(keys.subrange(0, i as int)),
            decreases keys.len() - i,
        {
            let k = &b.one_time_prekeys[i];
            push_be32(&mut out, k.key_id);
            push_bytes(&mut out, &k.public_key);
            proof {
                let s = keys.subrange(0, i + 1);
                assert(s.drop_last() =~= keys.subrange(0, i as int));
                assert(s.last() == keys[i as int]);
                assert(out@ =~= head + one_time_prekey_bytes(s));
            }
            i = i + 1;
        }
        assert(keys.subrange(0, keys.len() as int) =~= keys);
        out
    }

    /// Whether the publication is signed by its bundle's identity key.
    pub fn verify_signature(&self) -> (ok: bool)
        ensures
            ok == publication_signed(self@),
    {
        let bytes = self.signing_bytes();
        ed25519_verify(&self.bundle.identity_signing_key, bytes.as_slice(), &self.signature)
    }

    /// Checks a publication for `expected_device` at `now_ms`, refusing it
    /// with the first check it fails.
    pub fn validate(&self, expected_device: [u8; 16], now_ms: u64) -> (r: Result<(), PublicationError>)
        ensures
            match publication_error(self@, expected_device@, now_ms) {
                Some(e) => r == Err::<(), PublicationError>(e),
                None => r is Ok,
            },
    {
        match self.bundle.validate() {
            Err(_) => {
                assert(!bundle_ids_distinct(self@.bundle)) by {
                    let b = &self.bundle;
                    let (i, j) = choose|i: int, j: int|
                        0 <= i < j < b.one_time_prekeys@.len() && #[trigger] b.one_time_prekeys@[i].key_id
                            == #[trigger] b.one_time_prekeys@[j].key_id;
                    assert(self@.bundle.one_time_prekeys[i].0 == self@.bundle.one_time_prekeys[j].0);
                }
                return Err(PublicationError::InvalidBundle);
            },
            Ok(()) => {},
        }
        if self.bundle.protocol_version.0 != PROTOCOL_VERSION {
            return Err(PublicationError::InvalidVersion);
        }
        if !bytes_eq(&self.bundle.device_id, &expected_device) {
            return Err(PublicationError::WrongDevice);
        }
        if self.issued_at_ms > now_ms.saturating_add(MAX_CLOCK_SKEW_MS) || self.expires_at_ms <= self.issued_at_ms {
            return Err(PublicationError::InvalidTime);
        }
        if self.expires_at_ms.saturating_sub(self.issued_at_ms) > MAX_LIFETIME_MS {
            return Err(PublicationError::TooLong);
        }
        if self.expires_at_ms <= now_ms {
            return Err(PublicationError::Expired);
        }
        if !self.verify_signature() || !verify_signed_prekey(&self.bundle) {
            return Err(PublicationError::InvalidSignature);
        }
        Ok(())
    }

    /// A field-for-field copy.
    pub fn duplicate(&self) -> (p: Self)
        ensures
            p@ == self@,
    {
        PreKeyPublication {
            bundle: self.bundle.duplicate(),
            generation: self.generation,
            issued_at_ms: self.issued_at_ms,
            expires_at_ms: self.expires_at_ms,
            signature: self.signature,
        }
    }
}

/// Whether the bundle's signed prekey is signed by its identity key.
fn verify_signed_prekey(bundle: &PreKeyBundle) -> (ok: bool)
    ensures
        ok == prekey_signed(bundle@),
{
    let bytes = SignedPrekeyRecord::signing_bytes(bundle.signed_prekey_id, &bundle.signed_prekey, &bundle.identity_agreement_key);
    ed25519_verify(&bundle.identity_signing_key, bytes.as_slice(), &bundle.signed_prekey_signature)
}

#[derive(Debug, Clone, Copy, PartialEq, Eq)]
pub struct OpkClaimRequest {
    pub request_id: [u8; 16],
}

#[derive(Debug, Clone, Copy, PartialEq, Eq)]
pub struct OpkClaim {
    pub request_id: [u8; 16],
    pub claimant_device: [u8; 16],
    pub recipient_device: [u8; 16],
    pub generation: u64,
    pub key_id: u32,
    pub public_key: [u8; 32],
}

/// Mathematical value of an [`OpkClaim`].
pub struct ClaimView {
    pub request_id: Seq<u8>,
    pub claimant_device: Seq<u8>,
    pub recipient_device: Seq<u8>,
    pub generation: u64,
    pub key_id: u32,
    pub public_key: Seq<u8>,
}

impl View for OpkClaim {
    type V = ClaimView;

    open spec fn view(&self) -> ClaimView {
        ClaimView {
            request_id: self.request_id@,
            claimant_device: self.claimant_device@,
            recipient_device: self.recipient_device@,
            generation: self.generation,
            key_id: self.key_id,
            public_key: self.public_key@,
        }
    }
}

/// Whether a claim is of key `key_id` of `recipient`'s generation `generation`.
pub open spec fn claims_key(c: ClaimView, recipient: Seq<u8>, generation: u64, key_id: u32) -> bool {
    c.recipient_device == recipient && c.generation == generation && c.key_id == key_id
}

/// Whether a claim answers request `request_id` of `claimant`.
pub open spec fn answers_request(c: ClaimView, claimant: Seq<u8>, request_id: Seq<u8>) -> bool {
    c.claimant_device == claimant && c.request_id == request_id
}

/// The claim of a key, if it has been claimed.
pub open spec fn claim_of(claims: Seq<ClaimView>, recipient: Seq<u8>, generation: u64, key_id: u32) -> Option<ClaimView> {
    if exists|i: int| 0 <= i < claims.len() && claims_key(#[trigger] claims[i], recipient, generation, key_id) {
        Some(claims[choose|i: int| 0 <= i < claims.len() && claims_key(#[trigger] claims[i], recipient, generation, key_id)])
    } else {
        None
    }
}

/// Whether a request of a claimant has already been answered.
pub open spec fn request_used(claims: Seq<ClaimView>, claimant: Seq<u8>, request_id: Seq<u8>) -> bool {
    exists|i: int| 0 <= i < claims.len() && answers_request(#[trigger] claims[i], claimant, request_id)
}

/// The public key of the first one-time prekey with id `key_id`.
pub open spec fn prekey_with_id(keys: Seq<(u32, Seq<u8>)>, key_id: u32) -> Option<Seq<u8>>
    decreases keys.len(),
{
    if keys.len() == 0 {
        None
    } else if keys[0].0 == key_id {
        Some(keys[0].1)
    } else {
        prekey_with_id(keys.drop_first(), key_id)
    }
}

/// Every key is claimed at most once and every request answered at most once.
pub open spec fn claims_ok(claims: Seq<ClaimView>) -> bool {
    &&& forall|i: int, j: int|
        0 <= i < j < claims.len() ==> !claims_key(
            #[trigger] claims[j],
            (#[trigger] claims[i]).recipient_device,
            claims[i].generation,
            claims[i].key_id,
        )
    &&& forall|i: int, j: int|
        0 <= i < j < claims.len() ==> !answers_request(
            #[trigger] claims[j],
            (#[trigger] claims[i]).claimant_device,
            claims[i].request_id,
        )
}

/// A claim is backed by its recipient's publication: one exists, of the
/// claim's generation or a later one, and while it is of the claim's
/// generation it lists the claimed key with the claimed public key.
pub open spec fn claim_backed(c: ClaimView, p: Option<PublicationView>) -> bool {
    match p {
        None => false,
        Some(p) => c.generation <= p.generation && (c.generation == p.generation ==> prekey_with_id(
            p.bundle.one_time_prekeys,
            c.key_id,
        ) == Some(c.public_key)),
    }
}

/// What a claim of key `key_id` of `recipient`'s generation `generation` by
/// `claimant` with request `request_id` gives, against the recipient's
/// publication and revocation and the claims so far: a zero request id is
/// invalid; a revoked, missing or expired publication is not found; another
/// generation is stale; a key claimed by this very request gives that claim
/// again, and by another request is already claimed; a request answered for
/// another key is invalid; a key the bundle lacks is not found; otherwise a
/// new claim.
pub open spec fn claim_result(
    publication: Option<PublicationView>,
    revoked: bool,
    claims: Seq<ClaimView>,
    recipient: Seq<u8>,
    generation: u64,
    key_id: u32,
    claimant: Seq<u8>,
    request_id: Seq<u8>,
    now_ms: u64,
) -> Result<ClaimView, PublicationError> {
    if is_zero_id(request_id) {
        Err(PublicationError::InvalidRequest)
    } else if revoked {
        Err(PublicationError::NotFound)
    } else {
        match publication {
            None => Err(PublicationError::NotFound),
            Some(p) => if p.expires_at_ms <= now_ms {
                Err(PublicationError::NotFound)
            } else if p.generation != generation {
                Err(PublicationError::StaleGeneration)
            } else {
                match claim_of(claims, recipient, generation, key_id) {
                    Some(c) => if answers_request(c, claimant, request_id) {
                        Ok(c)
                    } else {
                        Err(PublicationError::AlreadyClaimed)
                    },
                    None => if request_used(claims, claimant, request_id) {
                        Err(PublicationError::InvalidRequest)
                    } else {
                        match prekey_with_id(p.bundle.one_time_prekeys, key_id) {
                            None => Err(PublicationError::NotFound),
                            Some(public_key) => Ok(
                                ClaimView {
                                    request_id,
                                    claimant_device: claimant,
                                    recipient_device: recipient,
                                    generation,
                                    key_id,
                                    public_key,
                                },
                            ),
                        }
                    },
                }
            },
        }
    }
}

/// The registry: the current publication and revocation time of each
/// device (by routing key), and the one-time prekey claims in the order
/// they were made.
pub struct PreKeyRegistry {
    publications: HashMap<u128, PreKeyPublication>,
    revoked: HashMap<u128, u64>,
    claims: Vec<OpkClaim>,
}

impl PreKeyRegistry {
    /// The current publication of a device.
    pub closed spec fn publication_of(&self, device: u128) -> Option<PublicationView> {
        if self.publications@.contains_key(device) {
            Some(self.publications@[device]@)
        } else {
            None
        }
    }

    /// When a device was revoked, if it was.
    pub closed spec fn revoked_at(&self, device: u128) -> Option<u64> {
        if self.revoked@.contains_key(device) {
            Some(self.revoked@[device])
        } else {
            None
        }
    }

    /// The claims made so far, oldest first.
    pub closed spec fn claims(&self) -> Seq<ClaimView> {
        self.claims@.map_values(|c: OpkClaim| c@)
    }

    /// Well-formedness: every key claimed at most once, every request
    /// answered at most once; every stored publication passed validation
    /// and is stored under its own device; every claim is backed by its
    /// recipient's publication.
    pub closed spec fn wf(&self) -> bool {
        &&& claims_ok(self.claims())
        &&& forall|d: u128| #[trigger] self.publication_of(d) is Some ==> publication_valid(
            self.publication_of(d)->Some_0,
        ) && key128(self.publication_of(d)->Some_0.bundle.device_id) == d
        &&& forall|i: int|
            0 <= i < self.claims().len() ==> claim_backed(
                #[trigger] self.claims()[i],
                self.publication_of(key128(self.claims()[i].recipient_device)),
            )
    }

    /// A stored publication passed validation and is stored under its own
    /// device; in particular both of its signatures verify.
    pub proof fn lemma_stored_publication_valid(&self, d: u128)
        requires
            self.wf(),
            self.publication_of(d) is Some,
        ensures
            publication_valid(self.publication_of(d)->Some_0),
            key128(self.publication_of(d)->Some_0.bundle.device_id) == d,
    {
    }

    /// An empty registry.
    pub fn new() -> (r: Self)
        ensures
            r.wf(),
            r.claims() == Seq::<ClaimView>::empty(),
            forall|d: u128| #[trigger] r.publication_of(d) is None && r.revoked_at(d) is None,
    {
        let r = PreKeyRegistry { publications: HashMap::new(), revoked: HashMap::new(), claims: Vec::new() };
        assert(r.claims() =~= Seq::<ClaimView>::empty());
        r
    }

    /// Publishes a bundle for `expected_device`: a publication that fails
    /// validation, is for a revoked device, or does not raise the device's
    /// generation is refused and changes nothing; otherwise it replaces the
    /// device's publication.
    pub fn publish(&mut self, expected_device: [u8; 16], publication: PreKeyPublication, now_ms: u64) -> (r: Result<
        (),
        PublicationError,
    >)
        requires
            old(self).wf(),
        ensures
            final(self).wf(),
            final(self).claims() == old(self).claims(),
            forall|d: u128| #[trigger] final(self).revoked_at(d) == old(self).revoked_at(d),
            ({
                let d = key128(publication@.bundle.device_id);
                let e = publish_error(
                    publication@,
                    expected_device@,
                    now_ms,
                    old(self).revoked_at(d) is Some,
                    old(self).publication_of(d),
                );
                &&& match e {
                    Some(err) => r == Err::<(), PublicationError>(err) && forall|k: u128|
                        #[trigger] final(self).publication_of(k) == old(self).publication_of(k),
                    None => r is Ok && final(self).publication_of(d) == Some(publication@) && forall|k: u128|
                        k != d ==> #[trigger] final(self).publication_of(k) == old(self).publication_of(k),
                }
            }),
    {
        let d = key128_of(&publication.bundle.device_id);
        match publication.validate(expected_device, now_ms) {
            Err(e) => return Err(e),
            Ok(()) => {},
        }
        if self.revoked.contains_key(&d) {
            return Err(PublicationError::AlreadyRevoked);
        }
        match self.publications.get(&d) {
            Some(current) => {
                if publication.generation <= current.generation {
                    return Err(PublicationError::StaleGeneration);
                }
            },
            None => {},
        }
        let ghost before = *self;
        let ghost pv = publication@;
        let _ = self.publications.insert(d, publication);
        proof {
            assert(self.claims() == before.claims());
            assert forall|k: u128| #[trigger] self.publication_of(k) == if k == d {
                Some(pv)
            } else {
                before.publication_of(k)
            } by {}
            assert forall|i: int| 0 <= i < self.claims().len() implies claim_backed(
                #[trigger] self.claims()[i],
                self.publication_of(key128(self.claims()[i].recipient_device)),
            ) by {
                let c = self.claims()[i];
                assert(claim_backed(c, before.publication_of(key128(c.recipient_device))));
            }
        }
        Ok(())
    }

    /// A copy of a device's current publication.
    pub fn get(&self, device: [u8; 16]) -> (r: Option<PreKeyPublication>)
        ensures
            match self.publication_of(key128(device@)) {
                Some(p) => r is Some && r->Some_0@ == p,
                None => r is None,
            },
    {
        let d = key128_of(&device);
        match self.publications.get(&d) {
            Some(p) => Some(p.duplicate()),
            None => None,
        }
    }

    /// Whether a device has been revoked.
    pub fn is_revoked(&self, device: [u8; 16]) -> (r: bool)
        ensures
            r == self.revoked_at(key128(device@)) is Some,
    {
        let d = key128_of(&device);
        self.revoked.contains_key(&d)
    }

    /// Revokes a device's publication of generation `generation` at
    /// `now_ms`: not found without a publication, stale for another
    /// generation, refused when already revoked. The publication itself is
    /// kept, so its signature can still be checked.
    pub fn revoke(&mut self, device: [u8; 16], generation: u64, now_ms: u64) -> (r: Result<(), PublicationError>)
        requires
            old(self).wf(),
        ensures
            final(self).wf(),
            final(self).claims() == old(self).claims(),
            forall|k: u128| #[trigger] final(self).publication_of(k) == old(self).publication_of(k),
            ({
                let d = key128(device@);
                let e = revoke_error(old(self).publication_of(d), old(self).revoked_at(d) is Some, generation);
                &&& match e {
                    Some(err) => r == Err::<(), PublicationError>(err) && forall|k: u128|
                        #[trigger] final(self).revoked_at(k) == old(self).revoked_at(k),
                    None => r is Ok && final(self).revoked_at(d) == Some(now_ms) && forall|k: u128|
                        k != d ==> #[trigger] final(self).revoked_at(k) == old(self).revoked_at(k),
                }
            }),
    {
        let d = key128_of(&device);
        match self.publications.get(&d) {
            None => return Err(PublicationError::NotFound),
            Some(current) => {
                if current.generation != generation {
                    return Err(PublicationError::StaleGeneration);
                }
            },
        }
        if self.revoked.contains_key(&d) {
            return Err(PublicationError::AlreadyRevoked);
        }
        let ghost before = *self;
        let _ = self.revoked.insert(d, now_ms);
        proof {
            assert forall|k: u128| #[trigger] self.publication_of(k) == before.publication_of(k) by {}
            assert(self.claims() == before.claims());
        }
        Ok(())
    }

    /// A copy of a device's publication if it is neither revoked nor
    /// expired at `now_ms`.
    pub fn get_active(&self, device: [u8; 16], now_ms: u64) -> (r: Option<PreKeyPublication>)
        ensures
            ({
                let d = key128(device@);
                match self.publication_of(d) {
                    Some(p) => if self.revoked_at(d) is None && p.expires_at_ms > now_ms {
                        r is Some && r->Some_0@ == p
                    } else {
                        r is None
                    },
                    None => r is None,
                }
            }),
    {
        let d = key128_of(&device);
        if self.revoked.contains_key(&d) {
            return None;
        }
        match self.publications.get(&d) {
            Some(p) => if p.expires_at_ms > now_ms {
                Some(p.duplicate())
            } else {
                None
            },
            None => None,
        }
    }

    /// Claims one-time prekey `key_id` of `recipient`'s generation
    /// `generation` for `claimant`'s request `request_id`, as
    /// [`claim_result`] says; only a new claim is recorded.
    pub fn claim_opk(
        &mut self,
        recipient: [u8; 16],
        generation: u64,
        key_id: u32,
        claimant: [u8; 16],
        request_id: [u8; 16],
        now_ms: u64,
    ) -> (r: Result<OpkClaim, PublicationError>)
        requires
            old(self).wf(),
        ensures
            final(self).wf(),
            forall|k: u128| #[trigger] final(self).publication_of(k) == old(self).publication_of(k),
            forall|k: u128| #[trigger] final(self).revoked_at(k) == old(self).revoked_at(k),
            ({
                let d = key128(recipient@);
                let res = claim_result(
                    old(self).publication_of(d),
                    old(self).revoked_at(d) is Some,
                    old(self).claims(),
                    recipient@,
                    generation,
                    key_id,
                    claimant@,
                    request_id@,
                    now_ms,
                );
                &&& match res {
                    Ok(c) => r is Ok && r->Ok_0@ == c,
                    Err(e) => r == Err::<OpkClaim, PublicationError>(e),
                }
                &&& r is Ok ==> {
                    &&& old(self).publication_of(d) is Some
                    &&& prekey_with_id(old(self).publication_of(d)->Some_0.bundle.one_time_prekeys, key_id) is Some
                    &&& r->Ok_0@ == (ClaimView {
                        request_id: request_id@,
                        claimant_device: claimant@,
                        recipient_device: recipient@,
                        generation,
                        key_id,
                        public_key: prekey_with_id(
                            old(self).publication_of(d)->Some_0.bundle.one_time_prekeys,
                            key_id,
                        )->Some_0,
                    })
                }
                &&& final(self).claims() == if res is Ok && claim_of(
                    old(self).claims(),
                    recipient@,
                    generation,
                    key_id,
                ) is None {
                    old(self).claims().push(res->Ok_0)
                } else {
                    old(self).claims()
                }
            }),
    {
        if all_zero(&request_id) {
            return Err(PublicationError::InvalidRequest);
        }
        let d = key128_of(&recipient);
        if self.revoked.contains_key(&d) {
            return Err(PublicationError::NotFound);
        }
        let publication = match self.publications.get(&d) {
            Some(p) => p,
            None => return Err(PublicationError::NotFound),
        };
        if publication.expires_at_ms <= now_ms {
            return Err(PublicationError::NotFound);
        }
        if publication.generation != generation {
            return Err(PublicationError::StaleGeneration);
        }
        let ghost claims = self.claims();
        match find_claim(&self.claims, &recipient, generation, key_id) {
            Some(i) => {
                let existing = self.claims[i];
                proof {
                    lemma_claim_of_index(claims, i as int, recipient@, generation, key_id);
                    assert(claim_backed(claims[i as int], self.publication_of(key128(claims[i as int].recipient_device))));
                }
                if bytes_eq(&existing.claimant_device, &claimant) && bytes_eq(&existing.request_id, &request_id) {
                    return Ok(existing);
                }
                return Err(PublicationError::AlreadyClaimed);
            },
            None => {},
        }
        if request_answered(&self.claims, &claimant, &request_id) {
            return Err(PublicationError::InvalidRequest);
        }
        let public_key = match find_prekey(&publication.bundle, key_id) {
            Some(k) => k,
            None => return Err(PublicationError::NotFound),
        };
        let claim = OpkClaim {
            request_id,
            claimant_device: claimant,
            recipient_device: recipient,
            generation,
            key_id,
            public_key,
        };
        let ghost before = *self;
        self.claims.push(claim);
        proof {
            assert(self.claims() =~= claims.push(claim@));
            assert forall|k: u128| #[trigger] self.publication_of(k) == before.publication_of(k) by {}
            assert forall|i: int| 0 <= i < self.claims().len() implies claim_backed(
                #[trigger] self.claims()[i],
                self.publication_of(key128(self.claims()[i].recipient_device)),
            ) by {
                if i < claims.len() {
                    assert(self.claims()[i] == claims[i]);
                }
            }
            assert forall|i: int, j: int| 0 <= i < j < self.claims().len() implies !claims_key(
                #[trigger] self.claims()[j],
                (#[trigger] self.claims()[i]).recipient_device,
                self.claims()[i].generation,
                self.claims()[i].key_id,
            ) by {
                if j == claims.len() {
                    assert(!claims_key(claims[i], recipient@, generation, key_id));
                }
            }
            assert forall|i: int, j: int| 0 <= i < j < self.claims().len() implies !answers_request(
                #[trigger] self.claims()[j],
                (#[trigger] self.claims()[i]).claimant_device,
                self.claims()[i].request_id,
            ) by {
                if j == claims.len() {
                    assert(!answers_request(claims[i], claimant@, request_id@));
                }
            }
        }
        Ok(claim)
    }
}

proof fn lemma_claim_of_index(claims: Seq<ClaimView>, i: int, recipient: Seq<u8>, generation: u64, key_id: u32)
    requires
        claims_ok(claims),
        0 <= i < claims.len(),
        claims_key(claims[i], recipient, generation, key_id),
    ensures
        claim_of(claims, recipient, generation, key_id) == Some(claims[i]),
{
    let j = choose|j: int| 0 <= j < claims.len() && claims_key(#[trigger] claims[j], recipient, generation, key_id);
    if j < i {
        assert(!claims_key(claims[i], claims[j].recipient_device, claims[j].generation, claims[j].key_id));
    } else if j > i {
        assert(!claims_key(claims[j], claims[i].recipient_device, claims[i].generation, claims[i].key_id));
    }
}

/// The position of the claim of a key, if it has been claimed.
fn find_claim(claims: &Vec<OpkClaim>, recipient: &[u8; 16], generation: u64, key_id: u32) -> (r: Option<usize>)
    ensures
        match r {
            Some(i) => i < claims@.len() && claims_key(claims@[i as int]@, recipient@, generation, key_id),
            None => forall|i: int| 0 <= i < claims@.len() ==> !claims_key(#[trigger] claims@[i]@, recipient@, generation, key_id),
        },
{
    let mut i: usize = 0;
    while i < claims.len()
        invariant
            i <= claims@.len(),
            forall|j: int| 0 <= j < i ==> !claims_key(#[trigger] claims@[j]@, recipient@, generation, key_id),
        decreases claims@.len() - i,
    {
        let c = &claims[i];
        if bytes_eq(&c.recipient_device, recipient) && c.generation == generation && c.key_id == key_id {
            return Some(i);
        }
        i = i + 1;
    }
    None
}

/// Whether a request of a claimant has already been answered.
fn request_answered(claims: &Vec<OpkClaim>, claimant: &[u8; 16], request_id: &[u8; 16]) -> (r: bool)
    ensures
        r == request_used(claims@.map_values(|c: OpkClaim| c@), claimant@, request_id@),
{
    let ghost cv = claims@.map_values(|c: OpkClaim| c@);
    let mut i: usize = 0;
    while i < claims.len()
        invariant
            i <= claims@.len(),
            cv == claims@.map_values(|c: OpkClaim| c@),
            forall|j: int| 0 <= j < i ==> !answers_request(#[trigger] cv[j], claimant@, request_id@),
        decreases claims@.len() - i,
    {
        let c = &claims[i];
        if bytes_eq(&c.claimant_device, claimant) && bytes_eq(&c.request_id, request_id) {
            assert(answers_request(cv[i as int], claimant@, request_id@));
            return true;
        }
        i = i + 1;
    }
    false
}

/// The public key of the first one-time prekey of a bundle with id `key_id`.
fn find_prekey(bundle: &PreKeyBundle, key_id: u32) -> (r: Option<[u8; 32]>)
    ensures
        match prekey_with_id(bundle@.one_time_prekeys, key_id) {
            Some(k) => r is Some && r->Some_0@ == k,
            None => r is None,
        },
{
    let ghost keys = bundle@.one_time_prekeys;
    let mut i: usize = 0;
    assert(keys.subrange(0, keys.len() as int) =~= keys);
    while i < bundle.one_time_prekeys.len()
        invariant
            i <= keys.len(),
            keys == bundle@.one_time_prekeys,
            keys.len() == bundle.one_time_prekeys@.len(),
            prekey_with_id(keys, key_id) == prekey_with_id(keys.subrange(i as int, keys.len() as int), key_id),
        decreases keys.len() - i,
    {
        let k = &bundle.one_time_prekeys[i];
        let ghost rest = keys.subrange(i as int, keys.len() as int);
        assert(rest[0] == keys[i as int]);
        if k.key_id == key_id {
            return Some(k.public_key);
        }
        assert(rest.drop_first() =~= keys.subrange(i + 1, keys.len() as int));
        i = i + 1;
    }
    None
}

/// A claim that succeeded answers a retry of the same request with the same
/// claim, as long as the publication stays current.
pub proof fn lemma_claim_retry_gives_same_claim(
    publication: Option<PublicationView>,
    claims: Seq<ClaimView>,
    recipient: Seq<u8>,
    generation: u64,
    key_id: u32,
    claimant: Seq<u8>,
    request_id: Seq<u8>,
    now_ms: u64,
    later_ms: u64,
)
    requires
        claims_ok(claims),
        claim_result(publication, false, claims, recipient, generation, key_id, claimant, request_id, now_ms) is Ok,
        publication is Some ==> publication->Some_0.expires_at_ms > later_ms,
    ensures
        ({
            let c = claim_result(publication, false, claims, recipient, generation, key_id, claimant, request_id, now_ms)->Ok_0;
            let after = if claim_of(claims, recipient, generation, key_id) is None {
                claims.push(c)
            } else {
                claims
            };
            claim_result(publication, false, after, recipient, generation, key_id, claimant, request_id, later_ms)
                == Ok::<ClaimView, PublicationError>(c)
        }),
{
    let c = claim_result(publication, false, claims, recipient, generation, key_id, claimant, request_id, now_ms)->Ok_0;
    if claim_of(claims, recipient, generation, key_id) is None {
        let after = claims.push(c);
        assert(claims_key(after[claims.len() as int], recipient, generation, key_id));
        assert(claim_of(after, recipient, generation, key_id) == Some(c)) by {
            let j = choose|j: int| 0 <= j < after.len() && claims_key(#[trigger] after[j], recipient, generation, key_id);
            if j < claims.len() {
                assert(claims_key(claims[j], recipient, generation, key_id));
            }
        }
    }
}

/// Once a key is claimed, no other claimant or request can claim it.
pub proof fn lemma_claimed_key_has_one_winner(
    publication: Option<PublicationView>,
    revoked: bool,
    claims: Seq<ClaimView>,
    recipient: Seq<u8>,
    generation: u64,
    key_id: u32,
    claimant: Seq<u8>,
    request_id: Seq<u8>,
    now_ms: u64,
)
    requires
        claim_of(claims, recipient, generation, key_id) is Some,
        !answers_request(claim_of(claims, recipient, generation, key_id)->Some_0, claimant, request_id),
    ensures
        claim_result(publication, revoked, claims, recipient, generation, key_id, claimant, request_id, now_ms) is Err,
        !is_zero_id(request_id) && !revoked && publication is Some && publication->Some_0.expires_at_ms > now_ms
            && publication->Some_0.generation == generation ==> claim_result(
            publication,
            revoked,
            claims,
            recipient,
            generation,
            key_id,
            claimant,
            request_id,
            now_ms,
        ) == Err::<ClaimView, PublicationError>(PublicationError::AlreadyClaimed),
{
}

/// Revoking a device's current generation keeps its publication, whose
/// signatures still verify, and refuses every later publication for that
/// device (one that passes validation with `AlreadyRevoked`, any other with
/// its first failed check) and every further revocation.
pub proof fn lemma_revocation_blocks_republish(
    before: &PreKeyRegistry,
    after: &PreKeyRegistry,
    d: u128,
    generation: u64,
    now_ms: u64,
    q: PublicationView,
    expected_device: Seq<u8>,
    later_ms: u64,
)
    requires
        before.wf(),
        revoke_error(before.publication_of(d), before.revoked_at(d) is Some, generation) is None,
        after.revoked_at(d) == Some(now_ms),
        forall|k: u128| #[trigger] after.publication_of(k) == before.publication_of(k),
    ensures
        after.publication_of(d) is Some,
        after.publication_of(d) == before.publication_of(d),
        publication_signed(after.publication_of(d)->Some_0),
        prekey_signed(after.publication_of(d)->Some_0.bundle),
        publish_error(q, expected_device, later_ms, after.revoked_at(d) is Some, after.publication_of(d)) == Some(
            match publication_error(q, expected_device, later_ms) {
                Some(e) => e,
                None => PublicationError::AlreadyRevoked,
            },
        ),
        revoke_error(after.publication_of(d), after.revoked_at(d) is Some, generation) == Some(
            PublicationError::AlreadyRevoked,
        ),
{
    before.lemma_stored_publication_valid(d);
}

/// A revoked device cannot publish again: every publication is refused.
pub proof fn lemma_revoked_device_cannot_publish(
    p: PublicationView,
    expected_device: Seq<u8>,
    now_ms: u64,
    current: Option<PublicationView>,
)
    ensures
        publish_error(p, expected_device, now_ms, true, current) is Some,
{
}

impl Default for PreKeyRegistry {
    fn default() -> (r: Self)
        ensures
            r.wf(),
            r.claims() == Seq::<ClaimView>::empty(),
            forall|d: u128| #[trigger] r.publication_of(d) is None && r.revoked_at(d) is None,
    {
        Self::new()
    }
}

} // verus!
