//! Receive side of the symmetric ratchet: out-of-order delivery within a
//! bounded window, single use of every message key, state that a failed
//! decryption never touches, and a canonical snapshot for encrypted storage.
use vstd::prelude::*;
use crate::primitives::{wipe_32, wipe_keyed_secrets};
use crate::ratchet::{RatchetState, RatchetError, chain_at, key_at, packet_open};
use crate::protocol::{RatchetHeader, RatchetHeaderError};
use crate::wire::{
    be16, be64, read_be16, read_be64, push_be16, push_be64, push_bytes, copy_32, get_be16, get_be64,
    lemma_be16_round_trip, lemma_be64_round_trip,
};

verus! {

/// How far ahead of the expected counter a message may be.
pub const MAX_SKIP: u64 = 256;

#[derive(Debug, Clone, PartialEq, Eq)]
pub enum ReceiveError {
    TooFarAhead,
    Replay,
    Decryption,
    InvalidHeader(RatchetHeaderError),
}

/// Skipped keys, ordered by counter, each counter at most once.
pub open spec fn sorted(s: Seq<(u64, Seq<u8>)>) -> bool {
    forall|i: int, j: int| 0 <= i < j < s.len() ==> #[trigger] s[i].0 < #[trigger] s[j].0
}

/// `p` is where counter `k` belongs in the ordered list `s`.
pub open spec fn pos_ok(s: Seq<(u64, Seq<u8>)>, k: u64, p: int) -> bool {
    &&& 0 <= p <= s.len()
    &&& forall|i: int| 0 <= i < p ==> #[trigger] s[i].0 < k
    &&& forall|i: int| p <= i < s.len() ==> #[trigger] s[i].0 >= k
}

/// Where counter `k` belongs in the ordered list `s`.
pub open spec fn pos(s: Seq<(u64, Seq<u8>)>, k: u64) -> int {
    choose|p: int| pos_ok(s, k, p)
}

/// Whether `s` holds a key for counter `k`.
pub open spec fn seq_has(s: Seq<(u64, Seq<u8>)>, k: u64) -> bool {
    pos(s, k) < s.len() && s[pos(s, k)].0 == k
}

/// The key `s` holds for counter `k`, if any.
pub open spec fn seq_lookup(s: Seq<(u64, Seq<u8>)>, k: u64) -> Option<Seq<u8>> {
    if seq_has(s, k) {
        Some(s[pos(s, k)].1)
    } else {
        None
    }
}

/// `s` with the key of counter `k` set to `v`.
pub open spec fn seq_insert(s: Seq<(u64, Seq<u8>)>, k: u64, v: Seq<u8>) -> Seq<(u64, Seq<u8>)> {
    if seq_has(s, k) {
        s.update(pos(s, k), (k, v))
    } else {
        s.insert(pos(s, k), (k, v))
    }
}

/// `s` without a key for counter `k`.
pub open spec fn seq_remove(s: Seq<(u64, Seq<u8>)>, k: u64) -> Seq<(u64, Seq<u8>)> {
    if seq_has(s, k) {
        s.remove(pos(s, k))
    } else {
        s
    }
}

/// The skipped keys once the keys of counters `c .. c + n` have been stored.
pub open spec fn skipped_after(s: Seq<(u64, Seq<u8>)>, chain: Seq<u8>, c: int, n: nat) -> Seq<(u64, Seq<u8>)>
    decreases n,
{
    if n == 0 {
        s
    } else {
        let m = (n - 1) as nat;
        seq_insert(skipped_after(s, chain, c, m), (c + m) as u64, key_at(chain, c, m))
    }
}

pub proof fn lemma_pos_unique(s: Seq<(u64, Seq<u8>)>, k: u64, p: int)
    requires
        pos_ok(s, k, p),
    ensures
        pos(s, k) == p,
{
    let q = pos(s, k);
    assert(pos_ok(s, k, q));
    if q < p {
        assert(s[q].0 < k);
    } else if p < q {
        assert(s[p].0 < k);
    }
}

proof fn lemma_insert_sorted(s: Seq<(u64, Seq<u8>)>, k: u64, v: Seq<u8>)
    requires
        sorted(s),
        pos_ok(s, k, pos(s, k)),
    ensures
        sorted(seq_insert(s, k, v)),
{
    let p = pos(s, k);
    let t = seq_insert(s, k, v);
    assert forall|i: int, j: int| 0 <= i < j < t.len() implies #[trigger] t[i].0 < #[trigger] t[j].0 by {
        if seq_has(s, k) {
            if i != p && j != p {
                assert(s[i].0 < s[j].0);
            } else if i == p {
                assert(s[j].0 > s[p].0);
            } else {
                assert(s[i].0 < s[p].0);
            }
        } else {
            if j < p {
                assert(s[i].0 < s[j].0);
            } else if i > p {
                assert(s[i - 1].0 < s[j - 1].0);
            } else if i == p {
                assert(s[j - 1].0 >= k);
                assert(j - 1 == p || s[p].0 < s[j - 1].0);
                assert(p < s.len() ==> s[p].0 != k);
            } else if j == p {
                assert(s[i].0 < k);
            } else {
                assert(s[i].0 < k);
                assert(s[j - 1].0 >= k);
            }
        }
    }
}

proof fn lemma_remove_sorted(s: Seq<(u64, Seq<u8>)>, k: u64)
    requires
        sorted(s),
        pos_ok(s, k, pos(s, k)),
    ensures
        sorted(seq_remove(s, k)),
{
    let t = seq_remove(s, k);
    if seq_has(s, k) {
        let p = pos(s, k);
        assert(t.len() == s.len() - 1);
        assert(forall|i: int| 0 <= i < p ==> t[i] == s[i]);
        assert(forall|i: int| p <= i < t.len() ==> t[i] == s[i + 1]);
        assert forall|i: int, j: int| 0 <= i < j < t.len() implies #[trigger] t[i].0 < #[trigger] t[j].0 by {
            if j < p {
                assert(s[i].0 < s[j].0);
            } else if i >= p {
                assert(s[i + 1].0 < s[j + 1].0);
            } else {
                assert(s[i].0 < s[j + 1].0);
            }
        }
    }
}

/// The mathematical value of the skipped-key vector.
pub open spec fn entries_view(v: Seq<(u64, [u8; 32])>) -> Seq<(u64, Seq<u8>)> {
    v.map_values(|e: (u64, [u8; 32])| (e.0, e.1@))
}

/// Index where counter `k` belongs in the ordered vector.
fn find_pos(v: &Vec<(u64, [u8; 32])>, k: u64) -> (p: usize)
    requires
        sorted(entries_view(v@)),
    ensures
        pos_ok(entries_view(v@), k, p as int),
        pos(entries_view(v@), k) == p,
{
    let ghost s = entries_view(v@);
    let mut i: usize = 0;
    while i < v.len() && v[i].0 < k
        invariant
            s == entries_view(v@),
            sorted(s),
            i <= v@.len(),
            forall|j: int| 0 <= j < i ==> #[trigger] s[j].0 < k,
        decreases v@.len() - i,
    {
        i = i + 1;
    }
    assert forall|j: int| i <= j < s.len() implies #[trigger] s[j].0 >= k by {
        assert(s[i as int].0 >= k);
        if j > i {
            assert(s[i as int].0 < s[j].0);
        }
    }
    proof {
        lemma_pos_unique(s, k, i as int);
    }
    i
}

/// Sets the key of counter `k`, keeping the vector ordered.
fn insert_key(v: &mut Vec<(u64, [u8; 32])>, k: u64, key: [u8; 32])
    requires
        sorted(entries_view(old(v)@)),
    ensures
        entries_view(final(v)@) == seq_insert(entries_view(old(v)@), k, key@),
        sorted(entries_view(final(v)@)),
{
    let ghost s = entries_view(v@);
    let p = find_pos(v, k);
    proof {
        lemma_insert_sorted(s, k, key@);
    }
    if p < v.len() && v[p].0 == k {
        v.set(p, (k, key));
        assert(entries_view(v@) =~= s.update(p as int, (k, key@)));
    } else {
        v.insert(p, (k, key));
        assert(entries_view(v@) =~= s.insert(p as int, (k, key@)));
    }
}

/// Removes and returns the key of counter `k`, if present.
fn remove_key(v: &mut Vec<(u64, [u8; 32])>, k: u64) -> (r: Option<[u8; 32]>)
    requires
        sorted(entries_view(old(v)@)),
    ensures
        entries_view(final(v)@) == seq_remove(entries_view(old(v)@), k),
        sorted(entries_view(final(v)@)),
        match seq_lookup(entries_view(old(v)@), k) {
            Some(key) => r is Some && r->Some_0@ == key,
            None => r is None,
        },
{
    let ghost s = entries_view(v@);
    let p = find_pos(v, k);
    proof {
        lemma_remove_sorted(s, k);
    }
    if p < v.len() && v[p].0 == k {
        let (_, key) = v.remove(p);
        assert(entries_view(v@) =~= s.remove(p as int));
        Some(key)
    } else {
        None
    }
}

/// An element-for-element copy of the skipped-key vector.
fn copy_entries(v: &Vec<(u64, [u8; 32])>) -> (out: Vec<(u64, [u8; 32])>)
    ensures
        out@ == v@,
{
    let mut out: Vec<(u64, [u8; 32])> = Vec::new();
    let mut i: usize = 0;
    while i < v.len()
        invariant
            i <= v@.len(),
            out@ == v@.subrange(0, i as int),
        decreases v@.len() - i,
    {
        let e = v[i];
        out.push(e);
        i = i + 1;
        assert(out@ =~= v@.subrange(0, i as int));
    }
    assert(v@.subrange(0, i as int) =~= v@);
    out
}

/// Mathematical value of a [`ReceiveRatchet`].
pub struct ReceiveView {
    pub chain: Seq<u8>,
    pub counter: u64,
    pub skipped: Seq<(u64, Seq<u8>)>,
}

/// What looking up the key of message `target` does: the key (or the
/// refusal) and the state afterwards.
pub open spec fn key_for_outcome(v: ReceiveView, target: u64) -> (Result<Seq<u8>, ReceiveError>, ReceiveView) {
    let e = v.counter;
    if target < e {
        match seq_lookup(v.skipped, target) {
            Some(k) => (
                Ok(k),
                ReceiveView { chain: v.chain, counter: v.counter, skipped: seq_remove(v.skipped, target) },
            ),
            None => (Err(ReceiveError::Replay), v),
        }
    } else if target - e > MAX_SKIP {
        (Err(ReceiveError::TooFarAhead), v)
    } else {
        let d = (target - e) as nat;
        let after = ReceiveView {
            chain: chain_at(v.chain, e as int, d + 1),
            counter: if target < u64::MAX {
                (target + 1) as u64
            } else {
                target
            },
            skipped: skipped_after(v.skipped, v.chain, e as int, d),
        };
        if target < u64::MAX {
            (Ok(key_at(v.chain, e as int, d)), after)
        } else {
            (Err(ReceiveError::Decryption), after)
        }
    }
}

/// What decrypting `packet` as message `target` does: the plaintext (or the
/// refusal) and the state afterwards. Only a packet that authenticates
/// changes the state.
pub open spec fn decrypt_outcome(v: ReceiveView, target: u64, packet: Seq<u8>, aad: Seq<u8>) -> (Result<Seq<u8>, ReceiveError>, ReceiveView) {
    let (k, after) = key_for_outcome(v, target);
    match k {
        Err(e) => (Err(e), v),
        Ok(key) => match packet_open(key, packet, aad) {
            Ok(p) => (Ok(p), after),
            Err(_) => (Err(ReceiveError::Decryption), v),
        },
    }
}

/// A decryption that fails changes nothing, whatever the counter: the
/// expected counter, the chain key and every stored skipped key (also the
/// one of the very counter asked for) are as they were, so the genuine
/// packet can still be decrypted afterwards.
pub proof fn lemma_failed_decrypt_changes_nothing(v: ReceiveView, target: u64, packet: Seq<u8>, aad: Seq<u8>)
    ensures
        decrypt_outcome(v, target, packet, aad).0 is Err ==> decrypt_outcome(v, target, packet, aad).1 == v,
        decrypt_outcome(v, target, packet, aad).0 is Err && target < v.counter ==> decrypt_outcome(
            v,
            target,
            packet,
            aad,
        ).1.skipped == v.skipped,
{
}

/// A result's value with the key taken by its bytes.
pub open spec fn key_result_view(r: Result<[u8; 32], ReceiveError>) -> Result<Seq<u8>, ReceiveError> {
    match r {
        Ok(k) => Ok(k@),
        Err(e) => Err(e),
    }
}

/// A result's value with the plaintext taken by its bytes.
pub open spec fn bytes_result_view(r: Result<Vec<u8>, ReceiveError>) -> Result<Seq<u8>, ReceiveError> {
    match r {
        Ok(p) => Ok(p@),
        Err(e) => Err(e),
    }
}


/// Version of the receive-state snapshot format.
pub const SNAPSHOT_VERSION: u16 = 1;

/// Bytes before the chain key: magic, version, counter, entry count.
pub const SNAPSHOT_HEADER_LEN: usize = 16;

/// Bytes of one skipped entry: counter then key.
pub const SNAPSHOT_ENTRY_LEN: usize = 40;

/// Most skipped keys a snapshot may carry.
pub const MAX_SNAPSHOT_SKIPPED: usize = 256;

#[derive(Debug, Clone, PartialEq, Eq)]
pub enum ReceiveSnapshotError {
    Truncated,
    InvalidMagic,
    InvalidVersion,
    InvalidLength,
    TooManySkipped,
    DuplicateCounter,
}

/// "MRS1"
pub open spec fn snapshot_magic() -> Seq<u8> {
    seq![77u8, 82u8, 83u8, 49u8]
}

/// The skipped entries, each as its counter then its key.
pub open spec fn entries_bytes(s: Seq<(u64, Seq<u8>)>) -> Seq<u8>
    decreases s.len(),
{
    if s.len() == 0 {
        Seq::empty()
    } else {
        entries_bytes(s.drop_last()) + be64(s.last().0) + s.last().1
    }
}

/// The canonical snapshot of a receive state: magic, version, next counter,
/// number of skipped keys, chain key, then the skipped entries in counter
/// order.
pub open spec fn snapshot_bytes(v: ReceiveView) -> Seq<u8> {
    snapshot_magic() + be16(SNAPSHOT_VERSION) + be64(v.counter) + be16(v.skipped.len() as u16)
        + v.chain + entries_bytes(v.skipped)
}

/// Entry `i` of a snapshot.
pub open spec fn snapshot_entry(b: Seq<u8>, i: int) -> (u64, Seq<u8>) {
    (read_be64(b, 48 + 40 * i), b.subrange(56 + 40 * i, 88 + 40 * i))
}

/// The skipped keys after reading the first `n` entries of a snapshot.
pub open spec fn snapshot_skipped(b: Seq<u8>, n: nat) -> Seq<(u64, Seq<u8>)>
    decreases n,
{
    if n == 0 {
        Seq::empty()
    } else {
        let m = (n - 1) as nat;
        seq_insert(snapshot_skipped(b, m), snapshot_entry(b, m as int).0, snapshot_entry(b, m as int).1)
    }
}

/// No two of the first `n` entries of a snapshot share a counter.
pub open spec fn snapshot_counters_distinct(b: Seq<u8>, n: nat) -> bool {
    forall|i: int, j: int|
        0 <= i < j < n ==> #[trigger] snapshot_entry(b, i).0 != #[trigger] snapshot_entry(b, j).0
}

/// What restoring a snapshot yields; each refusal names the first check
/// the bytes fail.
pub open spec fn snapshot_decoding(b: Seq<u8>) -> Result<ReceiveView, ReceiveSnapshotError> {
    if b.len() < 48 {
        Err(ReceiveSnapshotError::Truncated)
    } else if b.subrange(0, 4) != snapshot_magic() {
        Err(ReceiveSnapshotError::InvalidMagic)
    } else if read_be16(b, 4) != SNAPSHOT_VERSION {
        Err(ReceiveSnapshotError::InvalidVersion)
    } else if read_be16(b, 14) > 256 {
        Err(ReceiveSnapshotError::TooManySkipped)
    } else if b.len() != 48 + 40 * read_be16(b, 14) {
        Err(ReceiveSnapshotError::InvalidLength)
    } else if !snapshot_counters_distinct(b, read_be16(b, 14) as nat) {
        Err(ReceiveSnapshotError::DuplicateCounter)
    } else {
        Ok(
            ReceiveView {
                chain: b.subrange(16, 48),
                counter: read_be64(b, 6),
                skipped: snapshot_skipped(b, read_be16(b, 14) as nat),
            },
        )
    }
}

/// Every ordered list has a place for every counter.
pub proof fn lemma_pos_exists(s: Seq<(u64, Seq<u8>)>, k: u64)
    requires
        sorted(s),
    ensures
        pos_ok(s, k, pos(s, k)),
    decreases s.len(),
{
    if s.len() == 0 {
        assert(pos_ok(s, k, 0));
    } else {
        let t = s.drop_last();
        assert(sorted(t));
        lemma_pos_exists(t, k);
        let p = pos(t, k);
        if s.last().0 < k {
            assert forall|i: int| 0 <= i < s.len() implies #[trigger] s[i].0 < k by {
                if i < s.len() - 1 {
                    assert(s[i].0 < s[s.len() - 1].0);
                }
            }
            assert(pos_ok(s, k, s.len() as int));
        } else {
            assert forall|i: int| p <= i < s.len() implies #[trigger] s[i].0 >= k by {
                if i < s.len() - 1 {
                    assert(t[i].0 >= k);
                }
            }
            assert forall|i: int| 0 <= i < p implies #[trigger] s[i].0 < k by {
                assert(t[i].0 < k);
            }
            assert(pos_ok(s, k, p));
        }
    }
}

/// In an ordered list, holding a key for `k` means some entry has counter `k`.
pub proof fn lemma_has_iff_exists(s: Seq<(u64, Seq<u8>)>, k: u64)
    requires
        sorted(s),
    ensures
        seq_has(s, k) <==> exists|i: int| 0 <= i < s.len() && #[trigger] s[i].0 == k,
{
    lemma_pos_exists(s, k);
    let p = pos(s, k);
    if exists|i: int| 0 <= i < s.len() && #[trigger] s[i].0 == k {
        let i = choose|i: int| 0 <= i < s.len() && #[trigger] s[i].0 == k;
        assert(i >= p);
        if i > p {
            assert(s[p].0 < s[i].0);
        }
    }
}

/// Setting a key keeps the list ordered and adds exactly that counter.
pub proof fn lemma_insert_members(s: Seq<(u64, Seq<u8>)>, k: u64, v: Seq<u8>, x: u64)
    requires
        sorted(s),
    ensures
        sorted(seq_insert(s, k, v)),
        seq_has(seq_insert(s, k, v), x) <==> (seq_has(s, x) || x == k),
{
    lemma_pos_exists(s, k);
    lemma_insert_sorted(s, k, v);
    let t = seq_insert(s, k, v);
    let p = pos(s, k);
    lemma_has_iff_exists(s, x);
    lemma_has_iff_exists(t, x);
    lemma_has_iff_exists(s, k);
    if seq_has(s, x) {
        let i = choose|i: int| 0 <= i < s.len() && #[trigger] s[i].0 == x;
        if seq_has(s, k) {
            assert(t[i].0 == x);
        } else if i < p {
            assert(t[i].0 == x);
        } else {
            assert(t[i + 1].0 == x);
        }
    }
    if x == k {
        assert(t[p].0 == k);
    }
    if seq_has(t, x) {
        let i = choose|i: int| 0 <= i < t.len() && #[trigger] t[i].0 == x;
        if x != k {
            if seq_has(s, k) {
                assert(s[i].0 == x);
            } else if i < p {
                assert(s[i].0 == x);
            } else {
                assert(i != p);
                assert(s[i - 1].0 == x);
            }
        }
    }
}

/// Dropping a key keeps the list ordered and removes exactly that counter.
proof fn lemma_remove_members(s: Seq<(u64, Seq<u8>)>, k: u64, x: u64)
    requires
        sorted(s),
    ensures
        sorted(seq_remove(s, k)),
        seq_has(seq_remove(s, k), x) <==> (seq_has(s, x) && x != k),
{
    lemma_pos_exists(s, k);
    lemma_remove_sorted(s, k);
    let t = seq_remove(s, k);
    lemma_has_iff_exists(s, x);
    lemma_has_iff_exists(t, x);
    if seq_has(s, k) {
        let p = pos(s, k);
        assert(forall|i: int| 0 <= i < p ==> t[i] == s[i]);
        assert(forall|i: int| p <= i < t.len() ==> t[i] == s[i + 1]);
        if seq_has(s, x) && x != k {
            let i = choose|i: int| 0 <= i < s.len() && #[trigger] s[i].0 == x;
            if i < p {
                assert(t[i].0 == x);
            } else {
                assert(i != p);
                assert(t[i - 1].0 == x);
            }
        }
        if seq_has(t, x) {
            let i = choose|i: int| 0 <= i < t.len() && #[trigger] t[i].0 == x;
            if i < p {
                assert(s[i].0 == x);
                assert(s[i].0 < k);
            } else {
                assert(s[i + 1].0 == x);
                assert(s[p].0 < s[i + 1].0);
            }
        }
    }
}

/// Storing the keys of counters `c .. c + n` keeps the list ordered and adds
/// exactly those counters.
proof fn lemma_skipped_after_members(s: Seq<(u64, Seq<u8>)>, chain: Seq<u8>, c: int, n: nat, x: u64)
    requires
        sorted(s),
        0 <= c,
        c + n <= u64::MAX,
    ensures
        sorted(skipped_after(s, chain, c, n)),
        seq_has(skipped_after(s, chain, c, n), x) <==> (seq_has(s, x) || (c <= x && x < c + n)),
    decreases n,
{
    if n > 0 {
        let m = (n - 1) as nat;
        lemma_skipped_after_members(s, chain, c, m, x);
        lemma_insert_members(skipped_after(s, chain, c, m), (c + m) as u64, key_at(chain, c, m), x);
    }
}

/// A counter above every stored one is appended.
proof fn lemma_insert_last(s: Seq<(u64, Seq<u8>)>, k: u64, v: Seq<u8>)
    requires
        sorted(s),
        forall|i: int| 0 <= i < s.len() ==> #[trigger] s[i].0 < k,
    ensures
        seq_insert(s, k, v) == s.push((k, v)),
{
    assert(pos_ok(s, k, s.len() as int));
    lemma_pos_unique(s, k, s.len() as int);
    assert(s.insert(s.len() as int, (k, v)) =~= s.push((k, v)));
}

/// The encoded entries of an ordered list, entry by entry.
proof fn lemma_entries_bytes(s: Seq<(u64, Seq<u8>)>)
    requires
        forall|i: int| 0 <= i < s.len() ==> (#[trigger] s[i]).1.len() == 32,
    ensures
        entries_bytes(s).len() == 40 * s.len(),
        forall|i: int|
            0 <= i < s.len() ==> entries_bytes(s).subrange(40 * i, 40 * i + 8) == be64(
                (#[trigger] s[i]).0,
            ) && entries_bytes(s).subrange(40 * i + 8, 40 * i + 40) == s[i].1,
    decreases s.len(),
{
    if s.len() > 0 {
        let t = s.drop_last();
        lemma_entries_bytes(t);
        let e = entries_bytes(s);
        let n = s.len() - 1;
        assert forall|i: int| 0 <= i < s.len() implies e.subrange(40 * i, 40 * i + 8) == be64(
            (#[trigger] s[i]).0,
        ) && e.subrange(40 * i + 8, 40 * i + 40) == s[i].1 by {
            if i < n {
                assert(t[i] == s[i]);
                assert(e.subrange(40 * i, 40 * i + 8) =~= entries_bytes(t).subrange(40 * i, 40 * i + 8));
                assert(e.subrange(40 * i + 8, 40 * i + 40) =~= entries_bytes(t).subrange(
                    40 * i + 8,
                    40 * i + 40,
                ));
            } else {
                assert(e.subrange(40 * i, 40 * i + 8) =~= be64(s.last().0));
                assert(e.subrange(40 * i + 8, 40 * i + 40) =~= s.last().1);
            }
        }
    }
}

/// Restoring a snapshot gives back the state it was taken of.
pub proof fn lemma_snapshot_round_trip(v: ReceiveView)
    requires
        sorted(v.skipped),
        v.chain.len() == 32,
        v.skipped.len() <= MAX_SNAPSHOT_SKIPPED,
        forall|i: int| 0 <= i < v.skipped.len() ==> (#[trigger] v.skipped[i]).1.len() == 32,
    ensures
        snapshot_decoding(snapshot_bytes(v)) == Ok::<ReceiveView, ReceiveSnapshotError>(v),
{
    let b = snapshot_bytes(v);
    let s = v.skipped;
    let n = s.len();
    lemma_entries_bytes(s);
    lemma_be16_round_trip(SNAPSHOT_VERSION);
    lemma_be16_round_trip(n as u16);
    lemma_be64_round_trip(v.counter);
    assert(b.len() == 48 + 40 * n);
    assert(b.subrange(0, 4) =~= snapshot_magic());
    assert(b.subrange(4, 6) =~= be16(SNAPSHOT_VERSION));
    assert(read_be16(b, 4) == read_be16(b.subrange(4, 6), 0));
    assert(b.subrange(6, 14) =~= be64(v.counter));
    assert(read_be64(b, 6) == read_be64(b.subrange(6, 14), 0));
    assert(b.subrange(14, 16) =~= be16(n as u16));
    assert(read_be16(b, 14) == read_be16(b.subrange(14, 16), 0));
    assert(read_be16(b, 14) == n);
    assert(b.subrange(16, 48) =~= v.chain);
    let e = entries_bytes(s);
    assert forall|i: int| 0 <= i < n implies #[trigger] snapshot_entry(b, i) == s[i] by {
        assert(b.subrange(48 + 40 * i, 56 + 40 * i) =~= e.subrange(40 * i, 40 * i + 8));
        assert(b.subrange(56 + 40 * i, 88 + 40 * i) =~= e.subrange(40 * i + 8, 40 * i + 40));
        lemma_be64_round_trip(s[i].0);
        assert(read_be64(b, 48 + 40 * i) == read_be64(b.subrange(48 + 40 * i, 56 + 40 * i), 0));
    }
    assert forall|i: int, j: int| 0 <= i < j < n implies #[trigger] snapshot_entry(b, i).0
        != #[trigger] snapshot_entry(b, j).0 by {
        assert(s[i].0 < s[j].0);
    }
    lemma_snapshot_skipped_prefix(b, s, n);
    assert(s.subrange(0, n as int) =~= s);
}

/// Reading the entries of an ordered list back in order rebuilds it.
proof fn lemma_snapshot_skipped_prefix(b: Seq<u8>, s: Seq<(u64, Seq<u8>)>, m: nat)
    requires
        sorted(s),
        m <= s.len(),
        forall|i: int| 0 <= i < s.len() ==> #[trigger] snapshot_entry(b, i) == s[i],
    ensures
        snapshot_skipped(b, m) == s.subrange(0, m as int),
    decreases m,
{
    if m == 0 {
        assert(s.subrange(0, 0) =~= Seq::<(u64, Seq<u8>)>::empty());
    } else {
        let k = (m - 1) as nat;
        lemma_snapshot_skipped_prefix(b, s, k);
        let pre = s.subrange(0, k as int);
        assert(sorted(pre));
        assert(snapshot_entry(b, k as int) == s[k as int]);
        assert forall|i: int| 0 <= i < pre.len() implies #[trigger] pre[i].0 < s[k as int].0 by {
            assert(s[i].0 < s[k as int].0);
        }
        lemma_insert_last(pre, s[k as int].0, s[k as int].1);
        assert(pre.push(s[k as int]) =~= s.subrange(0, m as int));
    }
}


/// The keys read from the first `n` entries of a snapshot are ordered and
/// hold exactly the counters of those entries.
proof fn lemma_snapshot_skipped_members(b: Seq<u8>, n: nat, x: u64)
    ensures
        sorted(snapshot_skipped(b, n)),
        seq_has(snapshot_skipped(b, n), x) <==> exists|j: int|
            0 <= j < n && #[trigger] snapshot_entry(b, j).0 == x,
    decreases n,
{
    if n == 0 {
        lemma_has_iff_exists(Seq::<(u64, Seq<u8>)>::empty(), x);
    } else {
        let m = (n - 1) as nat;
        lemma_snapshot_skipped_members(b, m, x);
        if x == snapshot_entry(b, m as int).0 {
            assert(0 <= m < n && snapshot_entry(b, m as int).0 == x);
        }
        lemma_insert_members(snapshot_skipped(b, m), snapshot_entry(b, m as int).0, snapshot_entry(b, m as int).1, x);
        if exists|j: int| 0 <= j < n && #[trigger] snapshot_entry(b, j).0 == x {
            let j = choose|j: int| 0 <= j < n && #[trigger] snapshot_entry(b, j).0 == x;
            if j < m {
                assert(exists|j: int| 0 <= j < m && #[trigger] snapshot_entry(b, j).0 == x);
            }
        }
    }
}

pub struct ReceiveRatchet {
    state: RatchetState,
    skipped: Vec<(u64, [u8; 32])>,
}

impl Drop for ReceiveRatchet {
    /// Wipes every stored skipped key; the chain state wipes itself.
    fn drop(&mut self)
        opens_invariants none
        no_unwind
    {
        wipe_keyed_secrets(&mut self.skipped);
    }
}

impl View for ReceiveRatchet {
    type V = ReceiveView;

    closed spec fn view(&self) -> ReceiveView {
        ReceiveView {
            chain: self.state@.chain,
            counter: self.state@.counter,
            skipped: entries_view(self.skipped@),
        }
    }
}

impl ReceiveRatchet {
    /// Skipped keys are kept ordered by counter, each counter once.
    pub open spec fn wf(&self) -> bool {
        sorted(self@.skipped)
    }

    pub proof fn lemma_chain_len(&self)
        ensures
            self@.chain.len() == 32,
    {
        self.state.lemma_chain_len();
    }

    /// A receive chain for a session root, expecting message 0.
    pub fn from_root(root: [u8; 32]) -> (r: Result<Self, RatchetError>)
        ensures
            r is Ok,
            r->Ok_0.wf(),
            r->Ok_0@.chain == crate::ratchet::initial_chain(root@),
            r->Ok_0@.counter == 0,
            r->Ok_0@.skipped == Seq::<(u64, Seq<u8>)>::empty(),
    {
        let state = RatchetState::from_root(root)?;
        let r = ReceiveRatchet { state, skipped: Vec::new() };
        assert(r@.skipped =~= Seq::<(u64, Seq<u8>)>::empty());
        Ok(r)
    }

    /// The counter of the next in-order message.
    pub fn expected_counter(&self) -> (c: u64)
        ensures
            c == self@.counter,
    {
        self.state.counter()
    }

    /// How many skipped message keys are held.
    pub fn skipped_count(&self) -> (n: usize)
        ensures
            n == self@.skipped.len(),
    {
        self.skipped.len()
    }


    /// Canonical plaintext snapshot for encrypted platform storage; refused
    /// when more skipped keys are held than a snapshot may carry.
    pub fn snapshot(&self) -> (r: Result<Vec<u8>, ReceiveSnapshotError>)
        requires
            self.wf(),
        ensures
            self@.skipped.len() > MAX_SNAPSHOT_SKIPPED ==> r == Err::<Vec<u8>, ReceiveSnapshotError>(
                ReceiveSnapshotError::TooManySkipped,
            ),
            self@.skipped.len() <= MAX_SNAPSHOT_SKIPPED ==> r is Ok && r->Ok_0@ == snapshot_bytes(self@),
    {
        if self.skipped.len() > MAX_SNAPSHOT_SKIPPED {
            return Err(ReceiveSnapshotError::TooManySkipped);
        }
        let mut out: Vec<u8> = Vec::new();
        let magic = vec![77u8, 82u8, 83u8, 49u8];
        push_bytes(&mut out, magic.as_slice());
        push_be16(&mut out, SNAPSHOT_VERSION);
        push_be64(&mut out, self.state.counter());
        push_be16(&mut out, self.skipped.len() as u16);
        let chain = self.state.chain_key_bytes();
        push_bytes(&mut out, &chain);
        let ghost prefix = out@;
        let ghost s = entries_view(self.skipped@);
        assert(s.subrange(0, 0) =~= Seq::<(u64, Seq<u8>)>::empty());
        let mut i: usize = 0;
        while i < self.skipped.len()
            invariant
                s == entries_view(self.skipped@),
                i <= self.skipped@.len(),
                out@ == prefix + entries_bytes(s.subrange(0, i as int)),
            decreases self.skipped@.len() - i,
        {
            let (c, k) = self.skipped[i];
            push_be64(&mut out, c);
            push_bytes(&mut out, &k);
            i = i + 1;
            assert(s.subrange(0, i as int).drop_last() =~= s.subrange(0, i - 1));
        }
        assert(s.subrange(0, i as int) =~= s);
        assert(magic@ =~= snapshot_magic());
        assert(out@ =~= snapshot_bytes(self@));
        Ok(out)
    }

    /// Restores a receive state from its snapshot.
    pub fn from_snapshot(snapshot: &[u8]) -> (r: Result<Self, ReceiveSnapshotError>)
        ensures
            match snapshot_decoding(snapshot@) {
                Ok(v) => r is Ok && r->Ok_0@ == v && r->Ok_0.wf(),
                Err(e) => r is Err && r->Err_0 == e,
            },
    {
        let ghost b = snapshot@;
        if snapshot.len() < 48 {
            return Err(ReceiveSnapshotError::Truncated);
        }
        if snapshot[0] != 77u8 || snapshot[1] != 82u8 || snapshot[2] != 83u8 || snapshot[3] != 49u8 {
            assert(b.subrange(0, 4) != snapshot_magic()) by {
                if b.subrange(0, 4) == snapshot_magic() {
                    assert(b.subrange(0, 4)[0] == b[0]);
                    assert(b.subrange(0, 4)[1] == b[1]);
                    assert(b.subrange(0, 4)[2] == b[2]);
                    assert(b.subrange(0, 4)[3] == b[3]);
                }
            }
            return Err(ReceiveSnapshotError::InvalidMagic);
        }
        assert(b.subrange(0, 4) =~= snapshot_magic());
        let version = get_be16(snapshot, 4);
        if version != SNAPSHOT_VERSION {
            return Err(ReceiveSnapshotError::InvalidVersion);
        }
        let counter = get_be64(snapshot, 6);
        let count = get_be16(snapshot, 14) as usize;
        if count > MAX_SNAPSHOT_SKIPPED {
            return Err(ReceiveSnapshotError::TooManySkipped);
        }
        let expected = SNAPSHOT_HEADER_LEN + 32 + count * SNAPSHOT_ENTRY_LEN;
        if snapshot.len() != expected {
            return Err(ReceiveSnapshotError::InvalidLength);
        }
        let chain = copy_32(snapshot, 16);
        let mut skipped: Vec<(u64, [u8; 32])> = Vec::new();
        assert(entries_view(skipped@) =~= snapshot_skipped(b, 0));
        let mut i: usize = 0;
        while i < count
            invariant
                b == snapshot@,
                count <= 256,
                b.len() >= 48,
                b.subrange(0, 4) == snapshot_magic(),
                read_be16(b, 4) == SNAPSHOT_VERSION,
                read_be16(b, 14) == count,
                b.len() == 48 + 40 * count,
                i <= count,
                entries_view(skipped@) == snapshot_skipped(b, i as nat),
                sorted(entries_view(skipped@)),
                snapshot_counters_distinct(b, i as nat),
            decreases count - i,
        {
            let offset = 48 + 40 * i;
            let entry_counter = get_be64(snapshot, offset);
            let key = copy_32(snapshot, offset + 8);
            assert(snapshot_entry(b, i as int) == (entry_counter, key@));
            let p = find_pos(&skipped, entry_counter);
            proof {
                lemma_snapshot_skipped_members(b, i as nat, entry_counter);
                lemma_has_iff_exists(entries_view(skipped@), entry_counter);
            }
            if p < skipped.len() && skipped[p].0 == entry_counter {
                assert(!snapshot_counters_distinct(b, count as nat)) by {
                    let j = choose|j: int| 0 <= j < i && #[trigger] snapshot_entry(b, j).0 == entry_counter;
                    assert(snapshot_entry(b, j).0 == snapshot_entry(b, i as int).0);
                }
                return Err(ReceiveSnapshotError::DuplicateCounter);
            }
            insert_key(&mut skipped, entry_counter, key);
            assert forall|x: int, y: int| 0 <= x < y < i + 1 implies #[trigger] snapshot_entry(b, x).0
                != #[trigger] snapshot_entry(b, y).0 by {
                if y == i {
                    if snapshot_entry(b, x).0 == entry_counter {
                        assert(exists|j: int| 0 <= j < i && #[trigger] snapshot_entry(b, j).0 == entry_counter);
                    }
                }
            }
            i = i + 1;
        }
        let state = RatchetState::from_parts(chain, counter);
        let r = ReceiveRatchet { state, skipped };
        Ok(r)
    }

    /// The key of message `target`: a stored skipped key (used once), or the
    /// key derived by advancing the chain, storing the keys of every message
    /// passed over.
    pub fn key_for(&mut self, target: u64) -> (r: Result<[u8; 32], ReceiveError>)
        requires
            old(self).wf(),
        ensures
            final(self).wf(),
            key_result_view(r) == key_for_outcome(old(self)@, target).0,
            final(self)@ == key_for_outcome(old(self)@, target).1,
    {
        let expected = self.state.counter();
        if target < expected {
            let r = remove_key(&mut self.skipped, target);
            return match r {
                Some(k) => Ok(k),
                None => Err(ReceiveError::Replay),
            };
        }
        if target - expected > MAX_SKIP {
            return Err(ReceiveError::TooFarAhead);
        }
        let ghost chain0 = self.state@.chain;
        let ghost s0 = entries_view(self.skipped@);
        let ghost d: nat = (target - expected) as nat;
        let mut target_key: Option<[u8; 32]> = None;
        while self.state.counter() <= target
            invariant
                chain0 == old(self)@.chain,
                s0 == old(self)@.skipped,
                expected == old(self)@.counter,
                expected <= target,
                target - expected <= MAX_SKIP,
                expected <= self.state@.counter,
                d == target - expected,
                self.state@.chain == chain_at(chain0, expected as int, (self.state@.counter - expected) as nat),
                sorted(entries_view(self.skipped@)),
                target_key is None ==> self.state@.counter <= target && entries_view(self.skipped@)
                    == skipped_after(s0, chain0, expected as int, (self.state@.counter - expected) as nat),
                target_key is Some ==> self.state@.counter == target + 1 && entries_view(self.skipped@)
                    == skipped_after(s0, chain0, expected as int, d) && target_key->Some_0@ == key_at(
                    chain0,
                    expected as int,
                    d,
                ),
            decreases target + 1 - self.state@.counter,
        {
            let counter = self.state.counter();
            let ghost i: nat = (counter - expected) as nat;
            assert(chain_at(chain0, expected as int, i + 1) == crate::ratchet::next_chain(
                chain_at(chain0, expected as int, i),
                (expected + i) as u64,
            ));
            let key = match self.state.next_message_key() {
                Ok(k) => k,
                Err(_) => {
                    return Err(ReceiveError::Decryption);
                },
            };
            if counter == target {
                target_key = Some(key);
            } else {
                insert_key(&mut self.skipped, counter, key);
            }
        }
        match target_key {
            Some(k) => Ok(k),
            None => Err(ReceiveError::Decryption),
        }
    }

    /// Decrypts message `counter`. Nothing changes unless the packet
    /// authenticates under that message's key.
    pub fn decrypt(&mut self, counter: u64, packet: &[u8], aad: &[u8]) -> (r: Result<Vec<u8>, ReceiveError>)
        requires
            old(self).wf(),
        ensures
            final(self).wf(),
            bytes_result_view(r) == decrypt_outcome(old(self)@, counter, packet@, aad@).0,
            final(self)@ == decrypt_outcome(old(self)@, counter, packet@, aad@).1,
            r is Err ==> final(self)@ == old(self)@,
    {
        let mut candidate = ReceiveRatchet { state: self.state.duplicate(), skipped: copy_entries(&self.skipped) };
        let mut key = candidate.key_for(counter)?;
        let opened = RatchetState::decrypt_once(&key, packet, aad);
        wipe_32(&mut key);
        let plaintext = match opened {
            Ok(p) => p,
            Err(_) => {
                return Err(ReceiveError::Decryption);
            },
        };
        *self = candidate;
        Ok(plaintext)
    }

    /// Decrypts a message whose counter travels in an encoded ratchet header;
    /// a malformed header is refused without touching the state.
    pub fn decrypt_with_header(&mut self, header_bytes: &[u8], packet: &[u8], aad: &[u8]) -> (r: Result<Vec<u8>, ReceiveError>)
        requires
            old(self).wf(),
        ensures
            final(self).wf(),
            match crate::protocol::ratchet_header_decoding(header_bytes@) {
                Ok(c) => {
                    &&& bytes_result_view(r) == decrypt_outcome(old(self)@, c, packet@, aad@).0
                    &&& final(self)@ == decrypt_outcome(old(self)@, c, packet@, aad@).1
                },
                Err(e) => r == Err::<Vec<u8>, ReceiveError>(ReceiveError::InvalidHeader(e))
                    && final(self)@ == old(self)@,
            },
            r is Err ==> final(self)@ == old(self)@,
    {
        let header = match RatchetHeader::decode(header_bytes) {
            Ok(h) => h,
            Err(e) => {
                return Err(ReceiveError::InvalidHeader(e));
            },
        };
        self.decrypt(header.message_counter, packet, aad)
    }
}

} // verus!

verus! {

/// Every skipped entry is below `bound` and holds the true key of its
/// message for a chain that started at `start`.
pub open spec fn entries_ok(s: Seq<(u64, Seq<u8>)>, start: Seq<u8>, bound: int) -> bool {
    forall|i: int|
        0 <= i < s.len() ==> (#[trigger] s[i]).0 < bound && s[i].1 == key_at(start, 0, s[i].0 as nat)
}

/// A receive state that is in step with a sending chain that started at
/// `start`: its chain key is the sender's after `counter` messages, and it
/// holds, in counter order, only true keys of messages before `counter`.
pub open spec fn in_sync(v: ReceiveView, start: Seq<u8>) -> bool {
    &&& sorted(v.skipped)
    &&& v.chain == chain_at(start, 0, v.counter as nat)
    &&& entries_ok(v.skipped, start, v.counter as int)
}

/// Stepping a chain `a` times and then `n` more is stepping it `a + n` times.
pub proof fn lemma_chain_at_compose(start: Seq<u8>, a: nat, n: nat)
    ensures
        chain_at(chain_at(start, 0, a), a as int, n) == chain_at(start, 0, a + n),
    decreases n,
{
    if n > 0 {
        lemma_chain_at_compose(start, a, (n - 1) as nat);
    }
}

proof fn lemma_insert_ok(s: Seq<(u64, Seq<u8>)>, k: u64, v: Seq<u8>, start: Seq<u8>, bound: int)
    requires
        sorted(s),
        entries_ok(s, start, bound),
        k < bound,
        v == key_at(start, 0, k as nat),
    ensures
        entries_ok(seq_insert(s, k, v), start, bound),
        sorted(seq_insert(s, k, v)),
{
    lemma_pos_exists(s, k);
    lemma_insert_sorted(s, k, v);
    let t = seq_insert(s, k, v);
    let p = pos(s, k);
    assert forall|i: int| 0 <= i < t.len() implies (#[trigger] t[i]).0 < bound && t[i].1 == key_at(
        start,
        0,
        t[i].0 as nat,
    ) by {
        if i == p {
        } else if seq_has(s, k) || i < p {
            assert(t[i] == s[i]);
        } else {
            assert(t[i] == s[i - 1]);
        }
    }
}

proof fn lemma_remove_ok(s: Seq<(u64, Seq<u8>)>, k: u64, start: Seq<u8>, bound: int)
    requires
        sorted(s),
        entries_ok(s, start, bound),
    ensures
        entries_ok(seq_remove(s, k), start, bound),
        sorted(seq_remove(s, k)),
        !seq_has(seq_remove(s, k), k),
{
    lemma_pos_exists(s, k);
    lemma_remove_sorted(s, k);
    let t = seq_remove(s, k);
    let p = pos(s, k);
    lemma_has_iff_exists(t, k);
    if seq_has(s, k) {
        assert forall|i: int| 0 <= i < t.len() implies (#[trigger] t[i]).0 < bound && t[i].1
            == key_at(start, 0, t[i].0 as nat) && t[i].0 != k by {
            if i < p {
                assert(t[i] == s[i]);
                assert(s[i].0 < s[p].0);
            } else {
                assert(t[i] == s[i + 1]);
                assert(s[p].0 < s[i + 1].0);
            }
        }
    } else {
        lemma_has_iff_exists(s, k);
    }
}

/// Storing the keys of the messages passed over keeps the entries true and
/// ordered, and below the first message not passed over.
proof fn lemma_skipped_after_ok(s: Seq<(u64, Seq<u8>)>, start: Seq<u8>, e: nat, n: nat)
    requires
        sorted(s),
        entries_ok(s, start, e as int),
        e + n <= u64::MAX,
    ensures
        sorted(skipped_after(s, chain_at(start, 0, e), e as int, n)),
        entries_ok(skipped_after(s, chain_at(start, 0, e), e as int, n), start, (e + n) as int),
    decreases n,
{
    let chain = chain_at(start, 0, e);
    if n == 0 {
        assert(skipped_after(s, chain, e as int, 0) == s);
    } else {
        let m = (n - 1) as nat;
        lemma_skipped_after_ok(s, start, e, m);
        let prev = skipped_after(s, chain, e as int, m);
        lemma_chain_at_compose(start, e, m);
        assert forall|i: int| 0 <= i < prev.len() implies (#[trigger] prev[i]).0 < e + n && prev[i].1
            == key_at(start, 0, prev[i].0 as nat) by {
        }
        lemma_insert_ok(prev, (e + m) as u64, key_at(chain, e as int, m), start, (e + n) as int);
    }
}

/// Decrypting keeps a receive state in step with its sender, and accepts a
/// packet only when it authenticates under the sender's key of that message.
pub proof fn lemma_decrypt_keeps_sync(v: ReceiveView, start: Seq<u8>, target: u64, packet: Seq<u8>, aad: Seq<u8>)
    requires
        in_sync(v, start),
    ensures
        in_sync(decrypt_outcome(v, target, packet, aad).1, start),
        decrypt_outcome(v, target, packet, aad).0 is Ok ==> packet_open(
            key_at(start, 0, target as nat),
            packet,
            aad,
        ) == Ok::<Seq<u8>, RatchetError>(decrypt_outcome(v, target, packet, aad).0->Ok_0),
{
    let e = v.counter;
    let (k, after) = key_for_outcome(v, target);
    if target < e {
        lemma_pos_exists(v.skipped, target);
        lemma_remove_ok(v.skipped, target, start, e as int);
        if seq_has(v.skipped, target) {
            let p = pos(v.skipped, target);
            assert(v.skipped[p].1 == key_at(start, 0, target as nat));
        }
    } else if target - e <= MAX_SKIP && target < u64::MAX {
        let d = (target - e) as nat;
        lemma_skipped_after_ok(v.skipped, start, e as nat, d);
        lemma_chain_at_compose(start, e as nat, d + 1);
        lemma_chain_at_compose(start, e as nat, d);
        let s2 = after.skipped;
        assert forall|i: int| 0 <= i < s2.len() implies (#[trigger] s2[i]).0 < after.counter && s2[i].1
            == key_at(start, 0, s2[i].0 as nat) by {
            assert(s2[i].0 < e + d);
        }
    }
}

/// What a successful decryption of message `c` does to the expected counter
/// and to the set of skipped counters. A message at or past the expected
/// counter `e` is at most [`MAX_SKIP`] ahead, moves the counter to `c + 1`
/// and adds exactly the counters `e .. c - 1`; an earlier message must have
/// been skipped, leaves the skipped counters, and the counter stays.
pub proof fn lemma_decrypt_counters(v: ReceiveView, c: u64, packet: Seq<u8>, aad: Seq<u8>)
    requires
        sorted(v.skipped),
        decrypt_outcome(v, c, packet, aad).0 is Ok,
    ensures
        ({
            let w = decrypt_outcome(v, c, packet, aad).1;
            &&& sorted(w.skipped)
            &&& c >= v.counter ==> {
                &&& c - v.counter <= MAX_SKIP
                &&& w.counter == c + 1
                &&& forall|k: u64|
                    #[trigger] seq_has(w.skipped, k) <==> (seq_has(v.skipped, k) || (v.counter <= k && k < c))
            }
            &&& c < v.counter ==> {
                &&& seq_has(v.skipped, c)
                &&& w.counter == v.counter
                &&& forall|k: u64| #[trigger] seq_has(w.skipped, k) <==> (seq_has(v.skipped, k) && k != c)
            }
        }),
{
    let e = v.counter;
    let w = decrypt_outcome(v, c, packet, aad).1;
    if c < e {
        lemma_remove_members(v.skipped, c, c);
        assert forall|k: u64| #[trigger] seq_has(w.skipped, k) <==> (seq_has(v.skipped, k) && k != c) by {
            lemma_remove_members(v.skipped, c, k);
        }
    } else {
        let d = (c - e) as nat;
        lemma_skipped_after_members(v.skipped, v.chain, e as int, d, 0);
        assert forall|k: u64| #[trigger] seq_has(w.skipped, k) <==> (seq_has(v.skipped, k) || (e <= k && k < c)) by {
            lemma_skipped_after_members(v.skipped, v.chain, e as int, d, k);
        }
    }
}

/// A message whose key has been used is refused as a replay: after a
/// successful decryption of message `target`, decrypting it again fails.
pub proof fn lemma_no_replay(v: ReceiveView, start: Seq<u8>, target: u64, packet: Seq<u8>, aad: Seq<u8>, packet2: Seq<u8>, aad2: Seq<u8>)
    requires
        in_sync(v, start),
        decrypt_outcome(v, target, packet, aad).0 is Ok,
    ensures
        decrypt_outcome(decrypt_outcome(v, target, packet, aad).1, target, packet2, aad2).0
            == Err::<Seq<u8>, ReceiveError>(ReceiveError::Replay),
{
    let e = v.counter;
    let after = decrypt_outcome(v, target, packet, aad).1;
    lemma_decrypt_keeps_sync(v, start, target, packet, aad);
    if target < e {
        lemma_remove_ok(v.skipped, target, start, e as int);
    } else {
        let d = (target - e) as nat;
        lemma_skipped_after_ok(v.skipped, start, e as nat, d);
        let s2 = after.skipped;
        lemma_pos_exists(s2, target);
        lemma_has_iff_exists(s2, target);
        if seq_has(s2, target) {
            let i = choose|i: int| 0 <= i < s2.len() && #[trigger] s2[i].0 == target;
            assert(s2[i].0 < e + d);
        }
    }
}

/// A message the sender keyed, inside the receive window and not yet
/// consumed, decrypts to its plaintext.
pub proof fn lemma_accepts_sender_packet(v: ReceiveView, start: Seq<u8>, target: u64, packet: Seq<u8>, aad: Seq<u8>, plaintext: Seq<u8>)
    requires
        in_sync(v, start),
        packet_open(key_at(start, 0, target as nat), packet, aad) == Ok::<Seq<u8>, RatchetError>(plaintext),
        target < u64::MAX,
        (v.counter <= target && target - v.counter <= MAX_SKIP) || seq_has(v.skipped, target),
    ensures
        decrypt_outcome(v, target, packet, aad).0 == Ok::<Seq<u8>, ReceiveError>(plaintext),
{
    let e = v.counter;
    lemma_pos_exists(v.skipped, target);
    if target < e {
        let p = pos(v.skipped, target);
        assert(v.skipped[p].1 == key_at(start, 0, target as nat));
    } else {
        if seq_has(v.skipped, target) && target >= e {
            let p = pos(v.skipped, target);
            assert(v.skipped[p].0 < e);
        }
        let d = (target - e) as nat;
        lemma_chain_at_compose(start, e as nat, d);
    }
}

impl ReceiveRatchet {
    /// Snapshotting a receive state and restoring the bytes gives the same
    /// state back.
    pub proof fn lemma_snapshot_restores(&self)
        requires
            self.wf(),
            self@.skipped.len() <= MAX_SNAPSHOT_SKIPPED,
        ensures
            snapshot_decoding(snapshot_bytes(self@)) == Ok::<ReceiveView, ReceiveSnapshotError>(self@),
    {
        self.state.lemma_chain_len();
        assert forall|i: int| 0 <= i < self@.skipped.len() implies (#[trigger] self@.skipped[i]).1.len()
            == 32 by {
            assert(self@.skipped[i] == (self.skipped@[i].0, self.skipped@[i].1@));
        }
        lemma_snapshot_round_trip(self@);
    }
}

} // verus!
