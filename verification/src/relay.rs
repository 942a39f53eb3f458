//! The gateway's bounded in-memory relay of encrypted messages: a queue per
//! recipient device, limits per device and in total, expiry of offline
//! messages, duplicate suppression, and deletion only on acknowledgement.
//! The relay never interprets ciphertext.
use vstd::prelude::*;
use std::collections::{HashMap, VecDeque};
use crate::protocol::{EncryptedMessage, MessageView, PROTOCOL_VERSION};
use crate::wire::{all_zero, bytes_eq, is_zero_id, key128, key128_of};

verus! {

broadcast use vstd::std_specs::hash::group_hash_axioms;

pub const MAX_PER_DEVICE: usize = 256;

pub const MAX_TOTAL_MESSAGES: usize = 65536;

pub const MAX_TOTAL_BYTES: usize = 536870912;

pub const MAX_CIPHERTEXT: usize = 4194304;

pub const MAX_RATCHET_HEADER: usize = 16384;

pub const OFFLINE_TTL_MS: u64 = 604800000;

pub const MAX_CLOCK_SKEW_MS: u64 = 300000;

#[derive(Debug, Clone, Copy, PartialEq, Eq)]
pub enum PushResult {
    Accepted,
    Duplicate,
    Invalid,
    Full,
}

/// The relay's structural checks: current version, non-zero identifiers,
/// and a non-empty ratchet header and ciphertext within their limits.
pub open spec fn valid_message(m: MessageView) -> bool {
    &&& m.version == PROTOCOL_VERSION
    &&& !is_zero_id(m.message_id)
    &&& !is_zero_id(m.conversation_id)
    &&& !is_zero_id(m.sender_device_id)
    &&& !is_zero_id(m.recipient_device_id)
    &&& 0 < m.ratchet_header.len() <= MAX_RATCHET_HEADER
    &&& 0 < m.ciphertext.len() <= MAX_CIPHERTEXT
}

/// `a + b`, stopping at the largest `u64`.
pub open spec fn sat_add(a: u64, b: u64) -> u64 {
    if a + b > u64::MAX {
        u64::MAX
    } else {
        (a + b) as u64
    }
}

/// `a - b`, stopping at zero.
pub open spec fn sat_sub(a: u64, b: u64) -> u64 {
    if a >= b {
        (a - b) as u64
    } else {
        0
    }
}

/// Whether a message sent at `sent_at_ms` is acceptable at `now_ms`: not
/// from further in the future than the clock skew, not older than the
/// offline lifetime.
pub open spec fn within_window(sent_at_ms: u64, now_ms: u64) -> bool {
    sent_at_ms <= sat_add(now_ms, MAX_CLOCK_SKEW_MS) && sat_sub(now_ms, sent_at_ms) <= OFFLINE_TTL_MS
}

/// The relay's time window in plain arithmetic: a message is timely exactly
/// when it was sent no more than [`MAX_CLOCK_SKEW_MS`] ahead of the relay's
/// clock and no more than [`OFFLINE_TTL_MS`] (seven days) before it. In
/// particular a message sent ten minutes ago is timely.
pub proof fn lemma_window_is_skew_ahead_and_offline_lifetime_behind(sent_at_ms: u64, now_ms: u64)
    ensures
        within_window(sent_at_ms, now_ms) <==> (sent_at_ms <= now_ms + MAX_CLOCK_SKEW_MS && now_ms - sent_at_ms
            <= OFFLINE_TTL_MS),
        OFFLINE_TTL_MS == 7 * 24 * 60 * 60 * 1000,
        MAX_CLOCK_SKEW_MS == 5 * 60 * 1000,
        sent_at_ms <= now_ms && now_ms - sent_at_ms <= 600000 ==> within_window(sent_at_ms, now_ms),
{
}

/// Bytes a message is accounted for: the size of its canonical encoding.
pub open spec fn message_size(m: MessageView) -> int {
    82 + m.ratchet_header.len() as int + m.ciphertext.len() as int
}

/// A queued message: the message, when it expires, and its accounted size.
pub struct StoredView {
    pub message: MessageView,
    pub expires_at_ms: u64,
    pub accounted_bytes: usize,
}

struct StoredMessage {
    message: EncryptedMessage,
    expires_at_ms: u64,
    accounted_bytes: usize,
}

spec fn stored_view(s: StoredMessage) -> StoredView {
    StoredView { message: s.message@, expires_at_ms: s.expires_at_ms, accounted_bytes: s.accounted_bytes }
}

spec fn queue_view(q: Seq<StoredMessage>) -> Seq<StoredView> {
    q.map_values(|s: StoredMessage| stored_view(s))
}

/// Whether a stored message is still deliverable at `now_ms`.
pub open spec fn unexpired(s: StoredView, now_ms: u64) -> bool {
    s.expires_at_ms > now_ms
}

/// The messages of a queue that are still deliverable at `now_ms`.
pub open spec fn live(now_ms: u64) -> spec_fn(StoredView) -> bool {
    |s: StoredView| unexpired(s, now_ms)
}

/// Accounted bytes of a queue.
pub open spec fn queue_bytes(q: Seq<StoredView>) -> int
    decreases q.len(),
{
    if q.len() == 0 {
        0
    } else {
        queue_bytes(q.drop_last()) + q.last().accounted_bytes
    }
}

/// Messages held over all device queues.
pub open spec fn total_len(slots: Seq<(u128, Seq<StoredView>)>) -> int
    decreases slots.len(),
{
    if slots.len() == 0 {
        0
    } else {
        total_len(slots.drop_last()) + slots.last().1.len()
    }
}

/// Accounted bytes over all device queues.
pub open spec fn total_bytes(slots: Seq<(u128, Seq<StoredView>)>) -> int
    decreases slots.len(),
{
    if slots.len() == 0 {
        0
    } else {
        total_bytes(slots.drop_last()) + queue_bytes(slots.last().1)
    }
}

proof fn lemma_queue_bytes_push(q: Seq<StoredView>, s: StoredView)
    ensures
        queue_bytes(q.push(s)) == queue_bytes(q) + s.accounted_bytes,
{
    assert(q.push(s).drop_last() =~= q);
}

proof fn lemma_queue_bytes_nonneg(q: Seq<StoredView>)
    ensures
        queue_bytes(q) >= 0,
    decreases q.len(),
{
    if q.len() > 0 {
        lemma_queue_bytes_nonneg(q.drop_last());
    }
}

proof fn lemma_totals_nonneg(slots: Seq<(u128, Seq<StoredView>)>)
    ensures
        total_len(slots) >= 0,
        total_bytes(slots) >= 0,
    decreases slots.len(),
{
    if slots.len() > 0 {
        lemma_totals_nonneg(slots.drop_last());
        lemma_queue_bytes_nonneg(slots.last().1);
    }
}

/// Replacing one device's queue changes the totals by the difference.
proof fn lemma_totals_update(slots: Seq<(u128, Seq<StoredView>)>, i: int, x: (u128, Seq<StoredView>))
    requires
        0 <= i < slots.len(),
    ensures
        total_len(slots.update(i, x)) == total_len(slots) - slots[i].1.len() + x.1.len(),
        total_bytes(slots.update(i, x)) == total_bytes(slots) - queue_bytes(slots[i].1) + queue_bytes(x.1),
    decreases slots.len(),
{
    let t = slots.update(i, x);
    if i == slots.len() - 1 {
        assert(t.drop_last() =~= slots.drop_last());
    } else {
        assert(t.drop_last() =~= slots.drop_last().update(i, x));
        lemma_totals_update(slots.drop_last(), i, x);
    }
}

/// One queue's share never exceeds the totals.
proof fn lemma_totals_bound(slots: Seq<(u128, Seq<StoredView>)>, i: int)
    requires
        0 <= i < slots.len(),
    ensures
        slots[i].1.len() <= total_len(slots),
        queue_bytes(slots[i].1) <= total_bytes(slots),
    decreases slots.len(),
{
    lemma_totals_nonneg(slots.drop_last());
    lemma_queue_bytes_nonneg(slots.last().1);
    if i < slots.len() - 1 {
        lemma_totals_bound(slots.drop_last(), i);
    }
}

proof fn lemma_totals_push(slots: Seq<(u128, Seq<StoredView>)>, x: (u128, Seq<StoredView>))
    ensures
        total_len(slots.push(x)) == total_len(slots) + x.1.len(),
        total_bytes(slots.push(x)) == total_bytes(slots) + queue_bytes(x.1),
{
    assert(slots.push(x).drop_last() =~= slots);
}

/// Removes the messages that have expired at `now_ms`, keeping the rest in
/// order; returns how many messages and accounted bytes were removed.
fn remove_expired(queue: VecDeque<StoredMessage>, now_ms: u64) -> (r: (VecDeque<StoredMessage>, usize, usize))
    requires
        queue_bytes(queue_view(queue@)) <= MAX_TOTAL_BYTES,
    ensures
        queue_view(r.0@) == queue_view(queue@).filter(live(now_ms)),
        r.1 == queue@.len() - r.0@.len(),
        r.2 == queue_bytes(queue_view(queue@)) - queue_bytes(queue_view(r.0@)),
{
    let ghost old_q = queue_view(queue@);
    let ghost pred = live(now_ms);
    let len0 = queue.len();
    let ghost n = old_q.len();
    let mut rest = queue;
    let mut kept: VecDeque<StoredMessage> = VecDeque::new();
    let mut removed_messages: usize = 0;
    let mut removed_bytes: usize = 0;
    let ghost mut k: int = 0;
    assert(old_q.subrange(0, 0).filter(pred) =~= Seq::<StoredView>::empty()) by {
        reveal(Seq::filter);
    }
    assert(old_q.subrange(0, n as int) =~= old_q);
    assert(queue_view(kept@) =~= Seq::<StoredView>::empty());
    proof {
        lemma_queue_bytes_nonneg(old_q);
        assert(old_q.subrange(0, 0) =~= Seq::<StoredView>::empty());
    }
    while rest.len() > 0
        invariant
            n == old_q.len(),
            n == len0,
            pred == live(now_ms),
            queue_bytes(old_q) <= MAX_TOTAL_BYTES,
            0 <= k <= n,
            queue_view(rest@) == old_q.subrange(k, n as int),
            queue_view(kept@) == old_q.subrange(0, k).filter(pred),
            removed_messages == k - kept@.len(),
            removed_bytes == queue_bytes(old_q.subrange(0, k)) - queue_bytes(queue_view(kept@)),
            queue_bytes(old_q.subrange(0, k)) <= queue_bytes(old_q),
        decreases rest@.len(),
    {
        let ghost before_rest = rest@;
        assert(queue_view(before_rest).len() == before_rest.len());
        assert(k < n);
        assert(queue_view(before_rest)[0] == old_q.subrange(k, n as int)[0]);
        let s = rest.pop_front().unwrap();
        assert(stored_view(s) == old_q[k]);
        assert forall|j: int| 0 <= j < rest@.len() implies queue_view(rest@)[j] == old_q.subrange(k + 1, n as int)[j] by {
            assert(rest@[j] == before_rest[j + 1]);
            assert(queue_view(before_rest)[j + 1] == old_q.subrange(k, n as int)[j + 1]);
        }
        assert(queue_view(rest@) =~= old_q.subrange(k + 1, n as int));
        proof {
            assert(old_q.subrange(0, k + 1) =~= old_q.subrange(0, k).push(old_q[k]));
            old_q.subrange(0, k).lemma_filter_push(old_q[k], pred);
            lemma_queue_bytes_push(old_q.subrange(0, k), old_q[k]);
            lemma_queue_bytes_prefix(old_q, k + 1);
            lemma_queue_bytes_nonneg(queue_view(kept@));
        }
        if s.expires_at_ms > now_ms {
            let ghost kv = queue_view(kept@);
            proof {
                lemma_queue_bytes_push(kv, stored_view(s));
            }
            kept.push_back(s);
            assert(queue_view(kept@) =~= kv.push(old_q[k]));
        } else {
            removed_messages = removed_messages + 1;
            removed_bytes = removed_bytes + s.accounted_bytes;
        }
        proof {
            k = k + 1;
        }
    }
    assert(k == n);
    (kept, removed_messages, removed_bytes)
}

/// A prefix's accounted bytes never exceed the whole queue's.
proof fn lemma_queue_bytes_prefix(q: Seq<StoredView>, k: int)
    requires
        0 <= k <= q.len(),
    ensures
        queue_bytes(q.subrange(0, k)) <= queue_bytes(q),
    decreases q.len() - k,
{
    if k < q.len() {
        lemma_queue_bytes_prefix(q, k + 1);
        assert(q.subrange(0, k + 1) =~= q.subrange(0, k).push(q[k]));
        lemma_queue_bytes_push(q.subrange(0, k), q[k]);
    } else {
        assert(q.subrange(0, k) =~= q);
    }
}


/// Whether a queue holds a message with id `message_id`.
pub open spec fn queue_has_id(q: Seq<StoredView>, message_id: Seq<u8>) -> bool {
    exists|i: int| 0 <= i < q.len() && #[trigger] q[i].message.message_id == message_id
}

/// Whether no two messages of a queue share an id.
pub open spec fn ids_distinct(q: Seq<StoredView>) -> bool {
    forall|a: int, b: int|
        0 <= a < b < q.len() ==> (#[trigger] q[a]).message.message_id != (#[trigger] q[b]).message.message_id
}

/// A device queue as the relay keeps it: within the per-device limit and
/// holding no message id twice.
pub open spec fn queue_ok(q: Seq<StoredView>) -> bool {
    q.len() <= MAX_PER_DEVICE && ids_distinct(q)
}

/// The messages of a queue other than the one with id `message_id`.
pub open spec fn other_than(message_id: Seq<u8>) -> spec_fn(StoredView) -> bool {
    |s: StoredView| s.message.message_id != message_id
}

/// Mathematical value of a [`RelayStore`]: one slot per recipient device
/// (by routing key) with its queue in arrival order, and the two running totals.
pub struct RelayView {
    pub slots: Seq<(u128, Seq<StoredView>)>,
    pub total_messages: usize,
    pub total_bytes: usize,
}

/// Whether no routing key has two slots.
pub open spec fn keys_distinct(slots: Seq<(u128, Seq<StoredView>)>) -> bool {
    forall|i: int, j: int| 0 <= i < j < slots.len() ==> (#[trigger] slots[i]).0 != (#[trigger] slots[j]).0
}

/// The queue held under routing key `key` (empty when there is none).
pub open spec fn queue_in(slots: Seq<(u128, Seq<StoredView>)>, key: u128) -> Seq<StoredView> {
    if exists|i: int| 0 <= i < slots.len() && #[trigger] slots[i].0 == key {
        slots[choose|i: int| 0 <= i < slots.len() && #[trigger] slots[i].0 == key].1
    } else {
        Seq::empty()
    }
}

/// The queue of the device with routing key `key` (empty when it has none).
pub open spec fn queue_of(v: RelayView, key: u128) -> Seq<StoredView> {
    queue_in(v.slots, key)
}

/// The relay's invariant: one slot per device, every queue within the
/// per-device limit and free of repeated message ids, and both running
/// totals equal to what the queues hold and within the global limits.
pub open spec fn relay_ok(v: RelayView) -> bool {
    &&& keys_distinct(v.slots)
    &&& forall|i: int| 0 <= i < v.slots.len() ==> queue_ok(#[trigger] v.slots[i].1)
    &&& v.total_messages == total_len(v.slots)
    &&& v.total_bytes == total_bytes(v.slots)
    &&& v.total_messages <= MAX_TOTAL_MESSAGES
    &&& v.total_bytes <= MAX_TOTAL_BYTES
}

/// What pushing a valid, timely message does to its recipient's queue and
/// the totals: expired messages are dropped first; then a repeated id is a
/// duplicate, a full queue or a full relay refuses, and otherwise the
/// message is appended with its expiry and accounted size.
pub struct PushOutcome {
    pub result: PushResult,
    pub queue: Seq<StoredView>,
    pub total_messages: int,
    pub total_bytes: int,
}

pub open spec fn push_outcome(v: RelayView, m: MessageView, now_ms: u64) -> PushOutcome {
    let q0 = queue_of(v, key128(m.recipient_device_id));
    let q1 = q0.filter(live(now_ms));
    let tm = v.total_messages - (q0.len() - q1.len());
    let tb = v.total_bytes - (queue_bytes(q0) - queue_bytes(q1));
    if queue_has_id(q1, m.message_id) {
        PushOutcome { result: PushResult::Duplicate, queue: q1, total_messages: tm, total_bytes: tb }
    } else if q1.len() >= MAX_PER_DEVICE || tm >= MAX_TOTAL_MESSAGES || tb + message_size(m) > MAX_TOTAL_BYTES {
        PushOutcome { result: PushResult::Full, queue: q1, total_messages: tm, total_bytes: tb }
    } else {
        PushOutcome {
            result: PushResult::Accepted,
            queue: q1.push(
                StoredView {
                    message: m,
                    expires_at_ms: sat_add(now_ms, OFFLINE_TTL_MS),
                    accounted_bytes: message_size(m) as usize,
                },
            ),
            total_messages: tm + 1,
            total_bytes: tb + message_size(m),
        }
    }
}

/// `new_v` is `old_v` after pushing the valid, timely message `m` at
/// `now_ms` with result `r`: the recipient's queue and the totals are as
/// [`push_outcome`] says, every other device's queue is untouched.
pub open spec fn push_effect(old_v: RelayView, new_v: RelayView, m: MessageView, now_ms: u64, r: PushResult) -> bool {
    let key = key128(m.recipient_device_id);
    let o = push_outcome(old_v, m, now_ms);
    &&& r == o.result
    &&& queue_of(new_v, key) == o.queue
    &&& new_v.total_messages == o.total_messages
    &&& new_v.total_bytes == o.total_bytes
    &&& forall|k: u128| k != key ==> #[trigger] queue_of(new_v, k) == queue_of(old_v, k)
}

proof fn lemma_queue_in_slot(slots: Seq<(u128, Seq<StoredView>)>, i: int)
    requires
        keys_distinct(slots),
        0 <= i < slots.len(),
    ensures
        queue_in(slots, slots[i].0) == slots[i].1,
{
    let key = slots[i].0;
    assert(slots[i].0 == key);
    let j = choose|j: int| 0 <= j < slots.len() && #[trigger] slots[j].0 == key;
    if j < i {
        assert(slots[j].0 != slots[i].0);
    } else if j > i {
        assert(slots[i].0 != slots[j].0);
    }
}

/// Replacing the queue of slot `i` changes only that device's queue.
proof fn lemma_queue_in_update(slots: Seq<(u128, Seq<StoredView>)>, i: int, q: Seq<StoredView>)
    requires
        keys_distinct(slots),
        0 <= i < slots.len(),
    ensures
        keys_distinct(slots.update(i, (slots[i].0, q))),
        forall|k: u128|
            #[trigger] queue_in(slots.update(i, (slots[i].0, q)), k) == if k == slots[i].0 {
                q
            } else {
                queue_in(slots, k)
            },
{
    let t = slots.update(i, (slots[i].0, q));
    assert forall|a: int, b: int| 0 <= a < b < t.len() implies (#[trigger] t[a]).0 != (#[trigger] t[b]).0 by {
        assert(slots[a].0 != slots[b].0);
    }
    assert forall|k: u128| #[trigger] queue_in(t, k) == if k == slots[i].0 { q } else { queue_in(slots, k) } by {
        if k == slots[i].0 {
            lemma_queue_in_slot(t, i);
        } else if exists|j: int| 0 <= j < slots.len() && #[trigger] slots[j].0 == k {
            let j = choose|j: int| 0 <= j < slots.len() && #[trigger] slots[j].0 == k;
            lemma_queue_in_slot(slots, j);
            lemma_queue_in_slot(t, j);
        } else {
            assert(!exists|j: int| 0 <= j < t.len() && #[trigger] t[j].0 == k) by {
                if exists|j: int| 0 <= j < t.len() && #[trigger] t[j].0 == k {
                    let j = choose|j: int| 0 <= j < t.len() && #[trigger] t[j].0 == k;
                    assert(slots[j].0 == k);
                }
            }
        }
    }
}

/// Adding a slot for a new key changes only that device's queue.
proof fn lemma_queue_in_push(slots: Seq<(u128, Seq<StoredView>)>, key: u128, q: Seq<StoredView>)
    requires
        keys_distinct(slots),
        forall|i: int| 0 <= i < slots.len() ==> (#[trigger] slots[i]).0 != key,
    ensures
        keys_distinct(slots.push((key, q))),
        forall|k: u128| #[trigger] queue_in(slots.push((key, q)), k) == if k == key { q } else { queue_in(slots, k) },
{
    let t = slots.push((key, q));
    assert forall|a: int, b: int| 0 <= a < b < t.len() implies (#[trigger] t[a]).0 != (#[trigger] t[b]).0 by {
        if b < slots.len() {
            assert(slots[a].0 != slots[b].0);
        } else {
            assert(slots[a].0 != key);
        }
    }
    assert forall|k: u128| #[trigger] queue_in(t, k) == if k == key { q } else { queue_in(slots, k) } by {
        if k == key {
            lemma_queue_in_slot(t, slots.len() as int);
        } else if exists|j: int| 0 <= j < slots.len() && #[trigger] slots[j].0 == k {
            let j = choose|j: int| 0 <= j < slots.len() && #[trigger] slots[j].0 == k;
            lemma_queue_in_slot(slots, j);
            lemma_queue_in_slot(t, j);
        } else {
            assert(!exists|j: int| 0 <= j < t.len() && #[trigger] t[j].0 == k) by {
                if exists|j: int| 0 <= j < t.len() && #[trigger] t[j].0 == k {
                    let j = choose|j: int| 0 <= j < t.len() && #[trigger] t[j].0 == k;
                    assert(slots[j].0 == k);
                }
            }
        }
    }
}

/// Removing slot `i` (the last slot takes its place) empties only that
/// device's queue.
proof fn lemma_queue_in_remove(slots: Seq<(u128, Seq<StoredView>)>, i: int)
    requires
        keys_distinct(slots),
        0 <= i < slots.len(),
    ensures
        keys_distinct(slots.update(i, slots.last()).drop_last()),
        forall|k: u128|
            #[trigger] queue_in(slots.update(i, slots.last()).drop_last(), k) == if k == slots[i].0 {
                Seq::<StoredView>::empty()
            } else {
                queue_in(slots, k)
            },
{
    let n = slots.len() - 1;
    let t = slots.update(i, slots.last()).drop_last();
    assert forall|a: int, b: int| 0 <= a < b < t.len() implies (#[trigger] t[a]).0 != (#[trigger] t[b]).0 by {
        if a == i {
            assert(slots[b].0 != slots[n].0);
        } else if b == i {
            assert(slots[a].0 != slots[n].0);
        } else {
            assert(slots[a].0 != slots[b].0);
        }
    }
    assert forall|k: u128|
        #[trigger] queue_in(t, k) == if k == slots[i].0 { Seq::<StoredView>::empty() } else { queue_in(slots, k) } by {
        if k == slots[i].0 {
            assert(!exists|j: int| 0 <= j < t.len() && #[trigger] t[j].0 == k) by {
                if exists|j: int| 0 <= j < t.len() && #[trigger] t[j].0 == k {
                    let j = choose|j: int| 0 <= j < t.len() && #[trigger] t[j].0 == k;
                    if j == i {
                        assert(slots[i].0 != slots[n].0);
                    } else if j < i {
                        assert(slots[j].0 != slots[i].0);
                    } else {
                        assert(slots[i].0 != slots[j].0);
                    }
                }
            }
        } else if exists|j: int| 0 <= j < slots.len() && #[trigger] slots[j].0 == k {
            let j = choose|j: int| 0 <= j < slots.len() && #[trigger] slots[j].0 == k;
            lemma_queue_in_slot(slots, j);
            if j == n {
                lemma_queue_in_slot(t, i);
            } else {
                lemma_queue_in_slot(t, j);
            }
        } else {
            assert(!exists|j: int| 0 <= j < t.len() && #[trigger] t[j].0 == k) by {
                if exists|j: int| 0 <= j < t.len() && #[trigger] t[j].0 == k {
                    let j = choose|j: int| 0 <= j < t.len() && #[trigger] t[j].0 == k;
                    if j == i {
                        assert(slots[n].0 == k);
                    } else {
                        assert(slots[j].0 == k);
                    }
                }
            }
        }
    }
}

/// Removing slot `i` takes its queue out of the totals.
proof fn lemma_totals_remove(slots: Seq<(u128, Seq<StoredView>)>, i: int)
    requires
        0 <= i < slots.len(),
    ensures
        total_len(slots.update(i, slots.last()).drop_last()) == total_len(slots) - slots[i].1.len(),
        total_bytes(slots.update(i, slots.last()).drop_last()) == total_bytes(slots) - queue_bytes(slots[i].1),
{
    let u = slots.update(i, slots.last());
    lemma_totals_update(slots, i, slots.last());
    assert(u.last() == slots.last());
}

/// A relay whose slots all hold messages has no more slots than messages.
proof fn lemma_slots_len_bound(slots: Seq<(u128, Seq<StoredView>)>)
    requires
        forall|i: int| 0 <= i < slots.len() ==> (#[trigger] slots[i]).1.len() > 0,
    ensures
        slots.len() <= total_len(slots),
    decreases slots.len(),
{
    if slots.len() > 0 {
        lemma_slots_len_bound(slots.drop_last());
    }
}

/// Filtering keeps a queue within the limits and free of repeated ids.
proof fn lemma_filter_queue_ok(q: Seq<StoredView>, pred: spec_fn(StoredView) -> bool)
    requires
        queue_ok(q),
    ensures
        queue_ok(q.filter(pred)),
    decreases q.len(),
{
    reveal(Seq::filter);
    q.lemma_filter_len(pred);
    if q.len() > 0 {
        let d = q.drop_last();
        lemma_filter_queue_ok(d, pred);
        if pred(q.last()) {
            let f = d.filter(pred);
            assert forall|a: int| 0 <= a < f.len() implies (#[trigger] f[a]).message.message_id
                != q.last().message.message_id by {
                assert(f.contains(f[a]));
                d.lemma_filter_contains_rev(pred, f[a]);
                let j = choose|j: int| 0 <= j < d.len() && d[j] == f[a];
                assert(q[j] == d[j]);
                assert(q[j].message.message_id != q[q.len() - 1].message.message_id);
            }
            assert(q.filter(pred) == f.push(q.last()));
        }
    }
}

/// In a queue without repeated ids, dropping the message with a given id
/// removes one message if the queue holds it and none otherwise.
proof fn lemma_drop_id_len(q: Seq<StoredView>, message_id: Seq<u8>)
    requires
        ids_distinct(q),
    ensures
        q.filter(other_than(message_id)).len() == q.len() - (if queue_has_id(q, message_id) { 1int } else { 0int }),
        !queue_has_id(q.filter(other_than(message_id)), message_id),
    decreases q.len(),
{
    reveal(Seq::filter);
    let pred = other_than(message_id);
    let f = q.filter(pred);
    if q.len() > 0 {
        let d = q.drop_last();
        lemma_drop_id_len(d, message_id);
        if q.last().message.message_id == message_id {
            assert(!queue_has_id(d, message_id)) by {
                if queue_has_id(d, message_id) {
                    let j = choose|j: int| 0 <= j < d.len() && #[trigger] d[j].message.message_id == message_id;
                    assert(q[j] == d[j]);
                    assert(q[j].message.message_id != q[q.len() - 1].message.message_id);
                }
            }
            assert(queue_has_id(q, message_id)) by {
                assert(q[q.len() - 1].message.message_id == message_id);
            }
        } else {
            assert(queue_has_id(q, message_id) == queue_has_id(d, message_id)) by {
                if queue_has_id(q, message_id) {
                    let j = choose|j: int| 0 <= j < q.len() && #[trigger] q[j].message.message_id == message_id;
                    assert(d[j] == q[j]);
                }
                if queue_has_id(d, message_id) {
                    let j = choose|j: int| 0 <= j < d.len() && #[trigger] d[j].message.message_id == message_id;
                    assert(q[j] == d[j]);
                }
            }
            let g = d.filter(pred);
            assert(f == g.push(q.last()));
            assert(!queue_has_id(f, message_id)) by {
                if queue_has_id(f, message_id) {
                    let j = choose|j: int| 0 <= j < f.len() && #[trigger] f[j].message.message_id == message_id;
                    if j < g.len() {
                        assert(g[j] == f[j]);
                    }
                }
            }
        }
    }
}

/// Removes the messages with id `message_id`, keeping the rest in order;
/// returns how many messages and accounted bytes were removed.
fn remove_id(queue: VecDeque<StoredMessage>, message_id: &[u8; 16]) -> (r: (VecDeque<StoredMessage>, usize, usize))
    requires
        queue_bytes(queue_view(queue@)) <= MAX_TOTAL_BYTES,
    ensures
        queue_view(r.0@) == queue_view(queue@).filter(other_than(message_id@)),
        r.1 == queue@.len() - r.0@.len(),
        r.2 == queue_bytes(queue_view(queue@)) - queue_bytes(queue_view(r.0@)),
{
    let ghost old_q = queue_view(queue@);
    let ghost pred = other_than(message_id@);
    let len0 = queue.len();
    let ghost n = old_q.len();
    let mut rest = queue;
    let mut kept: VecDeque<StoredMessage> = VecDeque::new();
    let mut removed_messages: usize = 0;
    let mut removed_bytes: usize = 0;
    let ghost mut k: int = 0;
    assert(old_q.subrange(0, 0).filter(pred) =~= Seq::<StoredView>::empty()) by {
        reveal(Seq::filter);
    }
    assert(old_q.subrange(0, n as int) =~= old_q);
    assert(queue_view(kept@) =~= Seq::<StoredView>::empty());
    proof {
        lemma_queue_bytes_nonneg(old_q);
        assert(old_q.subrange(0, 0) =~= Seq::<StoredView>::empty());
    }
    while rest.len() > 0
        invariant
            n == old_q.len(),
            n == len0,
            pred == other_than(message_id@),
            queue_bytes(old_q) <= MAX_TOTAL_BYTES,
            0 <= k <= n,
            queue_view(rest@) == old_q.subrange(k, n as int),
            queue_view(kept@) == old_q.subrange(0, k).filter(pred),
            removed_messages == k - kept@.len(),
            removed_bytes == queue_bytes(old_q.subrange(0, k)) - queue_bytes(queue_view(kept@)),
            queue_bytes(old_q.subrange(0, k)) <= queue_bytes(old_q),
        decreases rest@.len(),
    {
        let ghost before_rest = rest@;
        assert(queue_view(before_rest).len() == before_rest.len());
        assert(k < n);
        assert(queue_view(before_rest)[0] == old_q.subrange(k, n as int)[0]);
        let s = rest.pop_front().unwrap();
        assert(stored_view(s) == old_q[k]);
        assert forall|j: int| 0 <= j < rest@.len() implies queue_view(rest@)[j] == old_q.subrange(k + 1, n as int)[j] by {
            assert(rest@[j] == before_rest[j + 1]);
            assert(queue_view(before_rest)[j + 1] == old_q.subrange(k, n as int)[j + 1]);
        }
        assert(queue_view(rest@) =~= old_q.subrange(k + 1, n as int));
        proof {
            assert(old_q.subrange(0, k + 1) =~= old_q.subrange(0, k).push(old_q[k]));
            old_q.subrange(0, k).lemma_filter_push(old_q[k], pred);
            lemma_queue_bytes_push(old_q.subrange(0, k), old_q[k]);
            lemma_queue_bytes_prefix(old_q, k + 1);
            lemma_queue_bytes_nonneg(queue_view(kept@));
        }
        if !bytes_eq(&s.message.message_id, message_id) {
            let ghost kv = queue_view(kept@);
            proof {
                lemma_queue_bytes_push(kv, stored_view(s));
            }
            kept.push_back(s);
            assert(queue_view(kept@) =~= kv.push(old_q[k]));
        } else {
            removed_messages = removed_messages + 1;
            removed_bytes = removed_bytes + s.accounted_bytes;
        }
        proof {
            k = k + 1;
        }
    }
    assert(k == n);
    (kept, removed_messages, removed_bytes)
}

/// Whether `m` passes the relay's structural checks.
fn check_message(m: &EncryptedMessage) -> (r: bool)
    ensures
        r == valid_message(m@),
{
    m.version.0 == PROTOCOL_VERSION && !all_zero(&m.message_id) && !all_zero(&m.conversation_id) && !all_zero(
        &m.sender_device_id,
    ) && !all_zero(&m.recipient_device_id) && m.ratchet_header.len() > 0 && m.ratchet_header.len()
        <= MAX_RATCHET_HEADER && m.ciphertext.len() > 0 && m.ciphertext.len() <= MAX_CIPHERTEXT
}

/// Whether a message sent at `sent_at_ms` is timely at `now_ms`.
fn in_window(sent_at_ms: u64, now_ms: u64) -> (r: bool)
    ensures
        r == within_window(sent_at_ms, now_ms),
{
    !(sent_at_ms > now_ms.saturating_add(MAX_CLOCK_SKEW_MS) || now_ms.saturating_sub(sent_at_ms) > OFFLINE_TTL_MS)
}

/// The accounted size of a valid message.
fn accounted_size(m: &EncryptedMessage) -> (r: usize)
    requires
        valid_message(m@),
    ensures
        r == message_size(m@),
{
    82 + m.ratchet_header.len() + m.ciphertext.len()
}

/// Whether a queue holds a message with id `message_id`.
fn queue_contains(q: &VecDeque<StoredMessage>, message_id: &[u8; 16]) -> (r: bool)
    ensures
        r == queue_has_id(queue_view(q@), message_id@),
{
    let mut i: usize = 0;
    while i < q.len()
        invariant
            i <= q@.len(),
            forall|j: int| 0 <= j < i ==> (#[trigger] queue_view(q@)[j]).message.message_id != message_id@,
        decreases q@.len() - i,
    {
        if bytes_eq(&q[i].message.message_id, message_id) {
            assert(queue_view(q@)[i as int].message.message_id == message_id@);
            return true;
        }
        i = i + 1;
    }
    proof {
        if queue_has_id(queue_view(q@), message_id@) {
            let j = choose|j: int| 0 <= j < queue_view(q@).len() && #[trigger] queue_view(q@)[j].message.message_id == message_id@;
            assert(queue_view(q@)[j].message.message_id != message_id@);
        }
    }
    false
}

/// Copies of the messages of a queue, in order.
fn copy_messages(q: &VecDeque<StoredMessage>) -> (r: Vec<EncryptedMessage>)
    ensures
        r@.len() == q@.len(),
        forall|j: int| 0 <= j < q@.len() ==> (#[trigger] r@[j])@ == queue_view(q@)[j].message,
{
    let mut out: Vec<EncryptedMessage> = Vec::new();
    let mut i: usize = 0;
    while i < q.len()
        invariant
            i <= q@.len(),
            out@.len() == i,
            forall|j: int| 0 <= j < i ==> (#[trigger] out@[j])@ == queue_view(q@)[j].message,
        decreases q@.len() - i,
    {
        out.push(q[i].message.duplicate());
        i = i + 1;
    }
    out
}

/// A message that was accepted is reported as a duplicate when it is pushed
/// again while its recipient's queue still holds it and it has not expired.
pub proof fn lemma_repeated_push_is_duplicate(v: RelayView, m: MessageView, now_ms: u64, w: RelayView, later_ms: u64)
    requires
        push_outcome(v, m, now_ms).result == PushResult::Accepted,
        queue_of(w, key128(m.recipient_device_id)).contains(push_outcome(v, m, now_ms).queue.last()),
        later_ms < sat_add(now_ms, OFFLINE_TTL_MS),
    ensures
        push_outcome(w, m, later_ms).result == PushResult::Duplicate,
{
    let stored = push_outcome(v, m, now_ms).queue.last();
    let q = queue_of(w, key128(m.recipient_device_id));
    let i = choose|i: int| 0 <= i < q.len() && q[i] == stored;
    q.lemma_filter_contains(live(later_ms), i);
    let f = q.filter(live(later_ms));
    let j = choose|j: int| 0 <= j < f.len() && f[j] == stored;
    assert(f[j].message.message_id == m.message_id);
}

/// Pulling deletes nothing that is still deliverable: a second pull at the
/// same time hands out the same messages as the first.
pub proof fn lemma_pull_is_repeatable(q: Seq<StoredView>, now_ms: u64)
    ensures
        q.filter(live(now_ms)).filter(live(now_ms)) == q.filter(live(now_ms)),
    decreases q.len(),
{
    reveal(Seq::filter);
    if q.len() > 0 {
        lemma_pull_is_repeatable(q.drop_last(), now_ms);
        let f = q.drop_last().filter(live(now_ms));
        if unexpired(q.last(), now_ms) {
            assert(q.filter(live(now_ms)) == f.push(q.last()));
            f.lemma_filter_push(q.last(), live(now_ms));
        }
    }
}

/// Acknowledging a message removes that message and keeps every other
/// message of the queue.
pub proof fn lemma_ack_removes_only_that_message(q: Seq<StoredView>, message_id: Seq<u8>)
    requires
        ids_distinct(q),
    ensures
        !queue_has_id(q.filter(other_than(message_id)), message_id),
        forall|i: int|
            0 <= i < q.len() && (#[trigger] q[i]).message.message_id != message_id ==> q.filter(
                other_than(message_id),
            ).contains(q[i]),
{
    lemma_drop_id_len(q, message_id);
    assert forall|i: int| 0 <= i < q.len() && (#[trigger] q[i]).message.message_id != message_id implies q.filter(
        other_than(message_id),
    ).contains(q[i]) by {
        q.lemma_filter_contains(other_than(message_id), i);
    }
}

pub struct RelayStore {
    index: HashMap<u128, usize>,
    devices: Vec<u128>,
    queues: Vec<VecDeque<StoredMessage>>,
    total_messages: usize,
    total_bytes: usize,
}

impl View for RelayStore {
    type V = RelayView;

    closed spec fn view(&self) -> RelayView {
        RelayView {
            slots: Seq::new(self.devices@.len(), |i: int| (self.devices@[i], queue_view(self.queues@[i]@))),
            total_messages: self.total_messages,
            total_bytes: self.total_bytes,
        }
    }
}

impl RelayStore {
    /// The routing index finds exactly the slots.
    closed spec fn index_ok(&self) -> bool {
        &&& self.devices@.len() == self.queues@.len()
        &&& forall|i: int|
            0 <= i < self.devices@.len() ==> self.index@.contains_key(#[trigger] self.devices@[i])
                && self.index@[self.devices@[i]] == i
        &&& forall|k: u128|
            #[trigger] self.index@.contains_key(k) ==> self.index@[k] < self.devices@.len()
                && self.devices@[self.index@[k] as int] == k
    }

    /// Well-formedness: the index is exact, the relay's invariant holds and
    /// no slot is kept for a device whose queue is empty.
    pub closed spec fn wf(&self) -> bool {
        &&& self.index_ok()
        &&& relay_ok(self@)
        &&& forall|i: int| 0 <= i < self@.slots.len() ==> (#[trigger] self@.slots[i]).1.len() > 0
    }

    /// An empty relay.
    pub fn new() -> (s: Self)
        ensures
            s.wf(),
            forall|k: u128| #[trigger] queue_of(s@, k) == Seq::<StoredView>::empty(),
            s@.total_messages == 0,
            s@.total_bytes == 0,
    {
        let s = RelayStore { index: HashMap::new(), devices: Vec::new(), queues: Vec::new(), total_messages: 0, total_bytes: 0 };
        assert(s@.slots =~= Seq::<(u128, Seq<StoredView>)>::empty());
        s
    }

    fn find_slot(&self, key: u128) -> (r: Option<usize>)
        requires
            self.index_ok(),
        ensures
            match r {
                Some(i) => i < self@.slots.len() && self@.slots[i as int].0 == key,
                None => forall|j: int| 0 <= j < self@.slots.len() ==> (#[trigger] self@.slots[j]).0 != key,
            },
    {
        match self.index.get(&key) {
            Some(i) => Some(*i),
            None => {
                assert forall|j: int| 0 <= j < self@.slots.len() implies (#[trigger] self@.slots[j]).0 != key by {
                    assert(self.index@.contains_key(self.devices@[j]));
                }
                None
            },
        }
    }

    /// Puts `q` into slot `i` and hands back the queue that was there.
    fn swap_queue(&mut self, i: usize, q: VecDeque<StoredMessage>) -> (r: VecDeque<StoredMessage>)
        requires
            old(self).index_ok(),
            i < old(self)@.slots.len(),
        ensures
            final(self).index_ok(),
            final(self).total_messages == old(self).total_messages,
            final(self).total_bytes == old(self).total_bytes,
            final(self)@.slots == old(self)@.slots.update(i as int, (old(self)@.slots[i as int].0, queue_view(q@))),
            queue_view(r@) == old(self)@.slots[i as int].1,
    {
        let mut q = q;
        self.queues.set_and_swap(i, &mut q);
        assert(self@.slots =~= old(self)@.slots.update(i as int, (old(self)@.slots[i as int].0, queue_view(self.queues@[i as int]@))));
        q
    }

    /// Adds a slot for a device that has none.
    fn push_slot(&mut self, key: u128, q: VecDeque<StoredMessage>)
        requires
            old(self).index_ok(),
            forall|j: int| 0 <= j < old(self)@.slots.len() ==> (#[trigger] old(self)@.slots[j]).0 != key,
            old(self)@.slots.len() < usize::MAX,
        ensures
            final(self).index_ok(),
            final(self).total_messages == old(self).total_messages,
            final(self).total_bytes == old(self).total_bytes,
            final(self)@.slots == old(self)@.slots.push((key, queue_view(q@))),
    {
        let n = self.devices.len();
        self.devices.push(key);
        self.queues.push(q);
        let _ = self.index.insert(key, n);
        proof {
            assert forall|i: int| 0 <= i < self.devices@.len() implies self.index@.contains_key(#[trigger] self.devices@[i])
                && self.index@[self.devices@[i]] == i by {
                if i < n {
                    assert(old(self)@.slots[i].0 != key);
                }
            }
            assert forall|k: u128| #[trigger] self.index@.contains_key(k) implies self.index@[k] < self.devices@.len()
                && self.devices@[self.index@[k] as int] == k by {
                if k != key {
                    assert(old(self).index@.contains_key(k));
                }
            }
        }
        assert(self@.slots =~= old(self)@.slots.push((key, queue_view(q@))));
    }

    /// Removes slot `i`, the last slot taking its place; hands back its queue.
    fn remove_slot(&mut self, i: usize) -> (r: VecDeque<StoredMessage>)
        requires
            old(self).index_ok(),
            i < old(self)@.slots.len(),
        ensures
            final(self).index_ok(),
            final(self).total_messages == old(self).total_messages,
            final(self).total_bytes == old(self).total_bytes,
            final(self)@.slots == old(self)@.slots.update(i as int, old(self)@.slots.last()).drop_last(),
            queue_view(r@) == old(self)@.slots[i as int].1,
    {
        let ghost d = self.devices@;
        let ghost n = d.len() - 1;
        let key = self.devices[i];
        let r = self.queues.swap_remove(i);
        let _ = self.devices.swap_remove(i);
        let _ = self.index.remove(&key);
        if i < self.devices.len() {
            let moved = self.devices[i];
            let _ = self.index.insert(moved, i);
        }
        proof {
            assert forall|a: int, b: int| 0 <= a < b < d.len() implies d[a] != d[b] by {
                assert(old(self).index@[d[a]] == a);
                assert(old(self).index@[d[b]] == b);
            }
            assert forall|j: int| 0 <= j < self.devices@.len() implies self.index@.contains_key(#[trigger] self.devices@[j])
                && self.index@[self.devices@[j]] == j by {
                if j != i {
                    assert(self.devices@[j] == d[j]);
                    assert(d[j] != key);
                    assert(old(self).index@[d[j]] == j);
                }
            }
            assert forall|k: u128| #[trigger] self.index@.contains_key(k) implies self.index@[k] < self.devices@.len()
                && self.devices@[self.index@[k] as int] == k by {
                if i < self.devices@.len() && k == d[n] {
                } else {
                    assert(k != key);
                    assert(old(self).index@.contains_key(k));
                    let m = old(self).index@[k];
                    assert(d[m as int] == k);
                    assert(m != i);
                    assert(m != n);
                }
            }
        }
        assert(self@.slots =~= old(self)@.slots.update(i as int, old(self)@.slots.last()).drop_last());
        r
    }
}

impl RelayStore {
    /// In every state each device's queue holds at most [`MAX_PER_DEVICE`]
    /// messages, no message id twice, and the relay as a whole at most
    /// [`MAX_TOTAL_MESSAGES`] messages and [`MAX_TOTAL_BYTES`] accounted bytes.
    pub proof fn lemma_relay_bounds(&self)
        requires
            self.wf(),
        ensures
            forall|k: u128| #[trigger] queue_of(self@, k).len() <= MAX_PER_DEVICE,
            forall|k: u128| ids_distinct(#[trigger] queue_of(self@, k)),
            self@.total_messages <= MAX_TOTAL_MESSAGES,
            self@.total_bytes <= MAX_TOTAL_BYTES,
    {
        assert forall|k: u128| queue_ok(#[trigger] queue_of(self@, k)) by {
            let slots = self@.slots;
            if exists|i: int| 0 <= i < slots.len() && #[trigger] slots[i].0 == k {
                let j = choose|i: int| 0 <= i < slots.len() && #[trigger] slots[i].0 == k;
                assert(queue_ok(slots[j].1));
            } else {
                assert(ids_distinct(Seq::<StoredView>::empty()));
            }
        }
    }

    proof fn lemma_keys_distinct(&self)
        requires
            self.index_ok(),
        ensures
            keys_distinct(self@.slots),
    {
        assert forall|a: int, b: int| 0 <= a < b < self@.slots.len() implies (#[trigger] self@.slots[a]).0
            != (#[trigger] self@.slots[b]).0 by {
            assert(self.index@[self.devices@[a]] == a);
            assert(self.index@[self.devices@[b]] == b);
        }
    }

    /// Stores `q` as the queue of slot `i`, or drops the slot when `q` is empty.
    fn store_queue(&mut self, i: usize, q: VecDeque<StoredMessage>)
        requires
            old(self).index_ok(),
            i < old(self)@.slots.len(),
        ensures
            final(self).index_ok(),
            final(self).total_messages == old(self).total_messages,
            final(self).total_bytes == old(self).total_bytes,
            final(self)@.slots.len() <= old(self)@.slots.len(),
            forall|k: u128|
                #[trigger] queue_of(final(self)@, k) == if k == old(self)@.slots[i as int].0 {
                    queue_view(q@)
                } else {
                    queue_of(old(self)@, k)
                },
            total_len(final(self)@.slots) == total_len(old(self)@.slots) - old(self)@.slots[i as int].1.len() + q@.len(),
            total_bytes(final(self)@.slots) == total_bytes(old(self)@.slots) - queue_bytes(old(self)@.slots[i as int].1)
                + queue_bytes(queue_view(q@)),
            forall|j: int|
                0 <= j < final(self)@.slots.len() ==> {
                    ||| (#[trigger] final(self)@.slots[j]).1 == queue_view(q@) && q@.len() > 0
                    ||| j != i && final(self)@.slots[j] == old(self)@.slots[j]
                    ||| old(self)@.slots.len() - 1 != i && final(self)@.slots[j] == old(self)@.slots[old(self)@.slots.len() - 1]
                },
    {
        let ghost s = self@.slots;
        proof {
            self.lemma_keys_distinct();
        }
        if q.len() == 0 {
            let _ = self.remove_slot(i);
            proof {
                lemma_queue_in_remove(s, i as int);
                lemma_totals_remove(s, i as int);
                assert(queue_view(q@) =~= Seq::<StoredView>::empty());
                lemma_queue_bytes_nonneg(queue_view(q@));
                assert(queue_bytes(queue_view(q@)) == 0) by {
                    reveal_with_fuel(queue_bytes, 1);
                }
            }
        } else {
            let _ = self.swap_queue(i, q);
            proof {
                lemma_queue_in_update(s, i as int, queue_view(q@));
                lemma_totals_update(s, i as int, (s[i as int].0, queue_view(q@)));
            }
        }
    }

    /// Pushes a valid, timely message for a device that has a slot.
    fn push_into_slot(&mut self, i: usize, message: EncryptedMessage, accounted: usize, now_ms: u64) -> (r: PushResult)
        requires
            old(self).wf(),
            i < old(self)@.slots.len(),
            old(self)@.slots[i as int].0 == key128(message@.recipient_device_id),
            valid_message(message@),
            accounted == message_size(message@),
        ensures
            final(self).wf(),
            push_effect(old(self)@, final(self)@, message@, now_ms, r),
    {
        let ghost v0 = self@;
        let ghost key = key128(message@.recipient_device_id);
        proof {
            self.lemma_keys_distinct();
            lemma_queue_in_slot(v0.slots, i as int);
            lemma_totals_bound(v0.slots, i as int);
        }
        let empty: VecDeque<StoredMessage> = VecDeque::new();
        assert(queue_view(empty@) =~= Seq::<StoredView>::empty());
        let q0 = self.swap_queue(i, empty);
        let ghost v1 = self@;
        proof {
            lemma_queue_in_update(v0.slots, i as int, Seq::<StoredView>::empty());
            lemma_totals_update(v0.slots, i as int, (key, Seq::<StoredView>::empty()));
            assert(queue_bytes(Seq::<StoredView>::empty()) == 0);
        }
        let (mut q, removed_messages, removed_bytes) = remove_expired(q0, now_ms);
        let ghost q1 = queue_view(q@);
        proof {
            lemma_queue_bytes_nonneg(q1);
            lemma_filter_queue_ok(queue_view(q0@), live(now_ms));
            queue_view(q0@).lemma_filter_len(live(now_ms));
        }
        let ghost message_id_view = message@.message_id;
        let mut tm = self.total_messages - removed_messages;
        let mut tb = self.total_bytes - removed_bytes;
        let result;
        if queue_contains(&q, &message.message_id) {
            result = PushResult::Duplicate;
        } else if q.len() >= MAX_PER_DEVICE || tm >= MAX_TOTAL_MESSAGES || tb + accounted > MAX_TOTAL_BYTES {
            result = PushResult::Full;
        } else {
            let stored = StoredMessage { message, expires_at_ms: now_ms.saturating_add(OFFLINE_TTL_MS), accounted_bytes: accounted };
            let ghost sv = stored_view(stored);
            proof {
                lemma_queue_bytes_push(q1, sv);
            }
            q.push_back(stored);
            assert(queue_view(q@) =~= q1.push(sv));
            assert(ids_distinct(q1.push(sv))) by {
                assert forall|a: int, b: int| 0 <= a < b < q1.len() + 1 implies (#[trigger] q1.push(sv)[a]).message.message_id
                    != (#[trigger] q1.push(sv)[b]).message.message_id by {
                    if b == q1.len() {
                        assert(q1[a].message.message_id != message_id_view);
                    } else {
                        assert(q1[a].message.message_id != q1[b].message.message_id);
                    }
                }
            }
            tm = tm + 1;
            tb = tb + accounted;
            result = PushResult::Accepted;
        }
        self.total_messages = tm;
        self.total_bytes = tb;
        let ghost v2 = self@;
        assert(v2.slots == v1.slots);
        self.store_queue(i, q);
        proof {
            assert forall|k: u128| k != key implies #[trigger] queue_of(self@, k) == queue_of(v0, k) by {
                assert(queue_of(v1, k) == queue_in(v1.slots, k));
            }
            assert forall|j: int| 0 <= j < self@.slots.len() implies queue_ok(#[trigger] self@.slots[j].1)
                && self@.slots[j].1.len() > 0 by {
                let n = v2.slots.len() - 1;
                assert(v2.slots.len() == v0.slots.len());
                if j != i && self@.slots[j] == v2.slots[j] {
                    assert(v0.slots[j] == v2.slots[j]);
                } else if n != i && self@.slots[j] == v2.slots[n] {
                    assert(v0.slots[n] == v2.slots[n]);
                }
            }
            self.lemma_keys_distinct();
        }
        result
    }

    /// Pushes a valid, timely message for a device that has no slot.
    fn push_new_slot(&mut self, key: u128, message: EncryptedMessage, accounted: usize, now_ms: u64) -> (r: PushResult)
        requires
            old(self).wf(),
            forall|j: int| 0 <= j < old(self)@.slots.len() ==> (#[trigger] old(self)@.slots[j]).0 != key,
            key == key128(message@.recipient_device_id),
            valid_message(message@),
            accounted == message_size(message@),
        ensures
            final(self).wf(),
            push_effect(old(self)@, final(self)@, message@, now_ms, r),
    {
        let ghost v0 = self@;
        proof {
            self.lemma_keys_distinct();
            assert(queue_of(v0, key) == Seq::<StoredView>::empty());
            assert(Seq::<StoredView>::empty().filter(live(now_ms)) =~= Seq::<StoredView>::empty()) by {
                reveal(Seq::filter);
            }
        }
        if self.total_messages >= MAX_TOTAL_MESSAGES || self.total_bytes + accounted > MAX_TOTAL_BYTES {
            return PushResult::Full;
        }
        let stored = StoredMessage { message, expires_at_ms: now_ms.saturating_add(OFFLINE_TTL_MS), accounted_bytes: accounted };
        let ghost sv = stored_view(stored);
        let mut q: VecDeque<StoredMessage> = VecDeque::new();
        q.push_back(stored);
        assert(queue_view(q@) =~= Seq::<StoredView>::empty().push(sv));
        proof {
            lemma_queue_bytes_push(Seq::<StoredView>::empty(), sv);
            lemma_slots_len_bound(v0.slots);
        }
        self.push_slot(key, q);
        self.total_messages = self.total_messages + 1;
        self.total_bytes = self.total_bytes + accounted;
        proof {
            lemma_queue_in_push(v0.slots, key, queue_view(q@));
            lemma_totals_push(v0.slots, (key, queue_view(q@)));
            assert forall|j: int| 0 <= j < self@.slots.len() implies queue_ok(#[trigger] self@.slots[j].1)
                && self@.slots[j].1.len() > 0 by {
                if j < v0.slots.len() {
                    assert(self@.slots[j] == v0.slots[j]);
                }
            }
        }
        PushResult::Accepted
    }

    /// Queues an encrypted message for its recipient device. A message that
    /// fails the structural checks, or was sent too far in the future or too
    /// long ago, is `Invalid` and changes nothing; otherwise the recipient's
    /// expired messages are dropped and the message is `Duplicate`, `Full`
    /// or `Accepted` as [`push_outcome`] says.
    pub fn push(&mut self, message: EncryptedMessage, now_ms: u64) -> (r: PushResult)
        requires
            old(self).wf(),
        ensures
            final(self).wf(),
            !(valid_message(message@) && within_window(message@.sent_at_ms, now_ms)) ==> r == PushResult::Invalid
                && final(self)@ == old(self)@,
            valid_message(message@) && within_window(message@.sent_at_ms, now_ms) ==> push_effect(
                old(self)@,
                final(self)@,
                message@,
                now_ms,
                r,
            ),
    {
        if !check_message(&message) || !in_window(message.sent_at_ms, now_ms) {
            return PushResult::Invalid;
        }
        let accounted = accounted_size(&message);
        let key = key128_of(&message.recipient_device_id);
        match self.find_slot(key) {
            Some(i) => self.push_into_slot(i, message, accounted, now_ms),
            None => self.push_new_slot(key, message, accounted, now_ms),
        }
    }

    /// Hands out copies of the messages queued for a device that are still
    /// deliverable at `now_ms`, oldest first. Expired messages are dropped;
    /// nothing else is removed: a message stays until it is acknowledged.
    pub fn pull(&mut self, device_id: [u8; 16], now_ms: u64) -> (r: Vec<EncryptedMessage>)
        requires
            old(self).wf(),
        ensures
            final(self).wf(),
            ({
                let key = key128(device_id@);
                let q0 = queue_of(old(self)@, key);
                let q1 = q0.filter(live(now_ms));
                &&& r@.len() == q1.len()
                &&& forall|j: int| 0 <= j < q1.len() ==> (#[trigger] r@[j])@ == q1[j].message
                &&& queue_of(final(self)@, key) == q1
                &&& final(self)@.total_messages == old(self)@.total_messages - (q0.len() - q1.len())
                &&& final(self)@.total_bytes == old(self)@.total_bytes - (queue_bytes(q0) - queue_bytes(q1))
                &&& forall|k: u128| k != key ==> #[trigger] queue_of(final(self)@, k) == queue_of(old(self)@, k)
            }),
    {
        let key = key128_of(&device_id);
        let ghost v0 = self@;
        proof {
            self.lemma_keys_distinct();
        }
        match self.find_slot(key) {
            None => {
                proof {
                    assert(queue_of(v0, key) == Seq::<StoredView>::empty());
                    assert(Seq::<StoredView>::empty().filter(live(now_ms)) =~= Seq::<StoredView>::empty()) by {
                        reveal(Seq::filter);
                    }
                }
                Vec::new()
            },
            Some(i) => {
                proof {
                    lemma_queue_in_slot(v0.slots, i as int);
                    lemma_totals_bound(v0.slots, i as int);
                }
                let empty: VecDeque<StoredMessage> = VecDeque::new();
                assert(queue_view(empty@) =~= Seq::<StoredView>::empty());
                let q0 = self.swap_queue(i, empty);
                let ghost v1 = self@;
                proof {
                    lemma_queue_in_update(v0.slots, i as int, Seq::<StoredView>::empty());
                    lemma_totals_update(v0.slots, i as int, (key, Seq::<StoredView>::empty()));
                    assert(queue_bytes(Seq::<StoredView>::empty()) == 0);
                }
                let (q, removed_messages, removed_bytes) = remove_expired(q0, now_ms);
                proof {
                    lemma_queue_bytes_nonneg(queue_view(q@));
                    lemma_filter_queue_ok(queue_view(q0@), live(now_ms));
                }
                self.total_messages = self.total_messages - removed_messages;
                self.total_bytes = self.total_bytes - removed_bytes;
                let out = copy_messages(&q);
                let ghost v2 = self@;
                assert(v2.slots == v1.slots);
                self.store_queue(i, q);
                proof {
                    assert forall|k: u128| k != key implies #[trigger] queue_of(self@, k) == queue_of(v0, k) by {
                        assert(queue_of(v1, k) == queue_in(v1.slots, k));
                    }
                    assert forall|j: int| 0 <= j < self@.slots.len() implies queue_ok(#[trigger] self@.slots[j].1)
                        && self@.slots[j].1.len() > 0 by {
                        let n = v2.slots.len() - 1;
                        assert(v2.slots.len() == v0.slots.len());
                if j != i && self@.slots[j] == v2.slots[j] {
                            assert(v0.slots[j] == v2.slots[j]);
                        } else if n != i && self@.slots[j] == v2.slots[n] {
                            assert(v0.slots[n] == v2.slots[n]);
                        }
                    }
                    self.lemma_keys_distinct();
                }
                out
            },
        }
    }

    /// Deletes the message `message_id` from a device's queue; true when it
    /// was there. No other message is touched.
    pub fn ack(&mut self, device_id: [u8; 16], message_id: [u8; 16]) -> (r: bool)
        requires
            old(self).wf(),
        ensures
            final(self).wf(),
            ({
                let key = key128(device_id@);
                let q0 = queue_of(old(self)@, key);
                let q1 = q0.filter(other_than(message_id@));
                &&& r == queue_has_id(q0, message_id@)
                &&& queue_of(final(self)@, key) == q1
                &&& final(self)@.total_messages == old(self)@.total_messages - (if r { 1int } else { 0int })
                &&& final(self)@.total_bytes == old(self)@.total_bytes - (queue_bytes(q0) - queue_bytes(q1))
                &&& forall|k: u128| k != key ==> #[trigger] queue_of(final(self)@, k) == queue_of(old(self)@, k)
            }),
    {
        let key = key128_of(&device_id);
        let ghost v0 = self@;
        proof {
            self.lemma_keys_distinct();
        }
        match self.find_slot(key) {
            None => {
                proof {
                    assert(queue_of(v0, key) == Seq::<StoredView>::empty());
                    assert(Seq::<StoredView>::empty().filter(other_than(message_id@)) =~= Seq::<StoredView>::empty()) by {
                        reveal(Seq::filter);
                    }
                    assert(queue_bytes(Seq::<StoredView>::empty()) == 0);
                }
                false
            },
            Some(i) => {
                proof {
                    lemma_queue_in_slot(v0.slots, i as int);
                    lemma_totals_bound(v0.slots, i as int);
                }
                let empty: VecDeque<StoredMessage> = VecDeque::new();
                assert(queue_view(empty@) =~= Seq::<StoredView>::empty());
                let q0 = self.swap_queue(i, empty);
                let ghost v1 = self@;
                proof {
                    lemma_queue_in_update(v0.slots, i as int, Seq::<StoredView>::empty());
                    lemma_totals_update(v0.slots, i as int, (key, Seq::<StoredView>::empty()));
                    assert(queue_bytes(Seq::<StoredView>::empty()) == 0);
                }
                let (q, removed_messages, removed_bytes) = remove_id(q0, &message_id);
                proof {
                    lemma_queue_bytes_nonneg(queue_view(q@));
                    lemma_filter_queue_ok(queue_view(q0@), other_than(message_id@));
                    lemma_drop_id_len(queue_view(q0@), message_id@);
                }
                let removed = removed_messages > 0;
                self.total_messages = self.total_messages - removed_messages;
                self.total_bytes = self.total_bytes - removed_bytes;
                let ghost v2 = self@;
                assert(v2.slots == v1.slots);
                self.store_queue(i, q);
                proof {
                    assert forall|k: u128| k != key implies #[trigger] queue_of(self@, k) == queue_of(v0, k) by {
                        assert(queue_of(v1, k) == queue_in(v1.slots, k));
                    }
                    assert forall|j: int| 0 <= j < self@.slots.len() implies queue_ok(#[trigger] self@.slots[j].1)
                        && self@.slots[j].1.len() > 0 by {
                        let n = v2.slots.len() - 1;
                        assert(v2.slots.len() == v0.slots.len());
                if j != i && self@.slots[j] == v2.slots[j] {
                            assert(v0.slots[j] == v2.slots[j]);
                        } else if n != i && self@.slots[j] == v2.slots[n] {
                            assert(v0.slots[n] == v2.slots[n]);
                        }
                    }
                    self.lemma_keys_distinct();
                }
                removed
            },
        }
    }
}

impl Default for RelayStore {
    fn default() -> (s: Self)
        ensures
            s.wf(),
            forall|k: u128| #[trigger] queue_of(s@, k) == Seq::<StoredView>::empty(),
            s@.total_messages == 0,
            s@.total_bytes == 0,
    {
        Self::new()
    }
}

} // verus!
