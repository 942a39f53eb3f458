//! Publishing and safely rotating prekeys: a signed-prekey store that keeps
//! a bounded set of retired keys alive for a grace period, and a store of
//! single-use one-time prekeys.
use vstd::prelude::*;
use std::collections::BTreeMap;
use vstd::std_specs::btree::spec_keys_iter;
use vstd::std_specs::iter::IteratorSpec;
use crate::identity::{
    IdentityKey, OneTimePrekey, OneTimePrekeyView, SignedPrekey, SignedPrekeyRecord,
    SignedPrekeyView, signed_prekey_message,
};
use crate::primitives::{ed25519_public_spec, ed25519_sign_spec, ed25519_verify_spec, x25519_public_spec};
use crate::wire::bytes_eq;

verus! {

pub const DEFAULT_SIGNED_PREKEY_ROTATION_MS: u64 = 604800000;

pub const DEFAULT_SIGNED_PREKEY_GRACE_MS: u64 = 86400000;

/// Most retired signed prekeys kept alive at once.
pub const MAX_RETIRED_SIGNED_PREKEYS: usize = 2;

/// The record `identity` publishes for `prekey` under `key_id`.
pub open spec fn is_published_record(r: SignedPrekeyRecord, identity_seed: Seq<u8>, agreement_public: Seq<u8>, key_id: u32, prekey_public: Seq<u8>) -> bool {
    &&& r.key_id == key_id
    &&& r.public_key@ == prekey_public
    &&& r.agreement_public_key@ == agreement_public
    &&& r.signature@ == ed25519_sign_spec(
        identity_seed,
        signed_prekey_message(key_id, prekey_public, agreement_public),
    )
}

/// Signs `prekey` together with the identity's agreement key under `key_id`.
/// The record verifies under the identity's own verifying key.
pub fn publishable_signed_prekey(identity: &IdentityKey, key_id: u32, prekey: &SignedPrekey) -> (r: SignedPrekeyRecord)
    ensures
        is_published_record(r, identity@.signing_seed, identity@.agreement_public, key_id, prekey@.public),
        ed25519_verify_spec(
            ed25519_public_spec(identity@.signing_seed),
            signed_prekey_message(r.key_id, r.public_key@, r.agreement_public_key@),
            r.signature@,
        ),
{
    let public_key = prekey.public_key();
    let agreement_public_key = identity.agreement_public_key();
    let bytes = SignedPrekeyRecord::signing_bytes(key_id, &public_key, &agreement_public_key);
    let signature = identity.sign(bytes.as_slice());
    SignedPrekeyRecord { key_id, public_key, agreement_public_key, signature }
}

/// An element-for-element copy of a record.
fn copy_record(r: &SignedPrekeyRecord) -> (c: SignedPrekeyRecord)
    ensures
        c == *r,
{
    SignedPrekeyRecord {
        key_id: r.key_id,
        public_key: r.public_key,
        agreement_public_key: r.agreement_public_key,
        signature: r.signature,
    }
}

#[derive(Debug, Clone, Copy, PartialEq, Eq)]
pub enum SignedPrekeyStoreError {
    DuplicateKeyId,
    NotFound,
    InvalidTime,
    GenerationOverflow,
    RetiredCapacity,
    Poisoned,
}

struct SignedPrekeyEntry {
    key_id: u32,
    created_at_ms: u64,
    expires_at_ms: Option<u64>,
    key: SignedPrekey,
    record: SignedPrekeyRecord,
}

/// Mathematical value of a stored signed prekey.
pub struct SignedPrekeyEntryView {
    pub key_id: u32,
    pub created_at_ms: u64,
    pub expires_at_ms: Option<u64>,
    pub key: SignedPrekeyView,
    pub record: SignedPrekeyRecord,
}

spec fn entry_view(e: SignedPrekeyEntry) -> SignedPrekeyEntryView {
    SignedPrekeyEntryView {
        key_id: e.key_id,
        created_at_ms: e.created_at_ms,
        expires_at_ms: e.expires_at_ms,
        key: e.key@,
        record: e.record,
    }
}

/// Whether a stored key may still be used at `now_ms`.
pub open spec fn is_live(e: SignedPrekeyEntryView, now_ms: u64) -> bool {
    match e.expires_at_ms {
        None => true,
        Some(expires) => now_ms < expires,
    }
}

/// Mathematical value of a [`SignedPrekeyStore`]: the current entry and the
/// retired entries by key id.
pub struct SignedPrekeyStoreView {
    pub current: SignedPrekeyEntryView,
    pub retired: Map<u32, SignedPrekeyEntryView>,
}

/// The retired keys still live at `now_ms`.
pub open spec fn live_retired(v: SignedPrekeyStoreView, now_ms: u64) -> Map<u32, SignedPrekeyEntryView> {
    Map::new(|k: u32| v.retired.contains_key(k) && is_live(v.retired[k], now_ms), |k: u32| v.retired[k])
}

/// The key a lookup of `key_id` at `now_ms` hands to the caller's
/// operation: the current key, or a live retired key with that id.
pub open spec fn usable_key(v: SignedPrekeyStoreView, key_id: u32, now_ms: u64) -> Option<SignedPrekeyView> {
    if v.current.key_id == key_id {
        Some(v.current.key)
    } else if v.retired.contains_key(key_id) && is_live(v.retired[key_id], now_ms) {
        Some(v.retired[key_id].key)
    } else {
        None
    }
}

/// `out` is what `operation` returned when run on a prekey whose value is `key`.
pub open spec fn operation_ran_on<R, F: FnOnce(&SignedPrekey) -> R>(operation: F, key: SignedPrekeyView, out: R) -> bool {
    exists|k: SignedPrekey| k@ == key && #[trigger] operation.ensures((&k,), out)
}

/// A well-formed entry: its key halves match and its record publishes it.
pub open spec fn entry_ok(e: SignedPrekeyEntryView) -> bool {
    &&& e.key.public == x25519_public_spec(e.key.secret)
    &&& e.record.key_id == e.key_id
    &&& e.record.public_key@ == e.key.public
}

/// Why rotating to `new_key_id` at `now_ms` with `grace_ms` of grace is
/// refused, if it is: an id already in use, a clock before the current key's
/// creation, no room for another retired key, or an expiry past the clock's range.
pub open spec fn rotation_error(v: SignedPrekeyStoreView, new_key_id: u32, now_ms: u64, grace_ms: u64) -> Option<SignedPrekeyStoreError> {
    let pruned = live_retired(v, now_ms);
    if new_key_id == v.current.key_id || pruned.contains_key(new_key_id) {
        Some(SignedPrekeyStoreError::DuplicateKeyId)
    } else if now_ms < v.current.created_at_ms {
        Some(SignedPrekeyStoreError::InvalidTime)
    } else if pruned.len() >= MAX_RETIRED_SIGNED_PREKEYS {
        Some(SignedPrekeyStoreError::RetiredCapacity)
    } else if now_ms + grace_ms > u64::MAX {
        Some(SignedPrekeyStoreError::GenerationOverflow)
    } else {
        None
    }
}

/// The entry the current key becomes when it is retired at `expires_at_ms`.
pub open spec fn retired_entry(e: SignedPrekeyEntryView, expires_at_ms: u64) -> SignedPrekeyEntryView {
    SignedPrekeyEntryView {
        key_id: e.key_id,
        created_at_ms: e.created_at_ms,
        expires_at_ms: Some(expires_at_ms),
        key: e.key,
        record: e.record,
    }
}

/// Holds the active signed prekey and a bounded grace-period set of retired keys.
pub struct SignedPrekeyStore {
    current: SignedPrekeyEntry,
    retired: BTreeMap<u32, SignedPrekeyEntry>,
}

impl View for SignedPrekeyStore {
    type V = SignedPrekeyStoreView;

    closed spec fn view(&self) -> SignedPrekeyStoreView {
        SignedPrekeyStoreView {
            current: entry_view(self.current),
            retired: self.retired@.map_values(|e: SignedPrekeyEntry| entry_view(e)),
        }
    }
}

impl SignedPrekeyStore {
    /// The store's invariant: at most two retired keys, each stored under its
    /// own id with an expiry, none under the current id, every entry well
    /// formed, the current one never expiring.
    pub open spec fn wf(&self) -> bool {
        let v = self@;
        &&& v.retired.dom().finite()
        &&& v.retired.len() <= MAX_RETIRED_SIGNED_PREKEYS
        &&& entry_ok(v.current)
        &&& v.current.expires_at_ms is None
        &&& forall|k: u32| #[trigger] v.retired.contains_key(k) ==> {
            &&& entry_ok(v.retired[k])
            &&& v.retired[k].key_id == k
            &&& v.retired[k].expires_at_ms is Some
            &&& k != v.current.key_id
        }
    }

    /// The retired map in the view holds as many entries as the map beneath it.
    proof fn lemma_retired_len(&self)
        ensures
            self@.retired.dom().finite(),
            self@.retired.len() == self.retired.len(),
    {
        broadcast use vstd::std_specs::btree::group_btree_axioms;

        assert(self@.retired.dom() =~= self.retired@.dom());
    }

    /// A store whose current key is a fresh signed prekey published under
    /// `key_id` at `now_ms`.
    pub fn new(identity: &IdentityKey, key_id: u32, now_ms: u64) -> (s: Self)
        requires
            identity.wf(),
        ensures
            s.wf(),
            s@.current.key_id == key_id,
            s@.current.created_at_ms == now_ms,
            is_published_record(s@.current.record, identity@.signing_seed, identity@.agreement_public, key_id, s@.current.key.public),
            s@.retired == Map::<u32, SignedPrekeyEntryView>::empty(),
    {
        let key = SignedPrekey::generate();
        let record = publishable_signed_prekey(identity, key_id, &key);
        let s = SignedPrekeyStore {
            current: SignedPrekeyEntry { key_id, created_at_ms: now_ms, expires_at_ms: None, key, record },
            retired: BTreeMap::new(),
        };
        assert(s@.retired =~= Map::<u32, SignedPrekeyEntryView>::empty());
        s
    }

    pub fn current_record(&self) -> (r: Result<SignedPrekeyRecord, SignedPrekeyStoreError>)
        ensures
            r == Ok::<SignedPrekeyRecord, SignedPrekeyStoreError>(self@.current.record),
    {
        Ok(copy_record(&self.current.record))
    }

    pub fn current_key_id(&self) -> (r: Result<u32, SignedPrekeyStoreError>)
        ensures
            r == Ok::<u32, SignedPrekeyStoreError>(self@.current.key_id),
    {
        Ok(self.current.key_id)
    }

    pub fn retired_len(&self) -> (r: Result<usize, SignedPrekeyStoreError>)
        ensures
            r == Ok::<usize, SignedPrekeyStoreError>(self@.retired.len() as usize),
    {
        proof {
            self.lemma_retired_len();
        }
        Ok(self.retired.len())
    }

    /// Runs `operation` on the private key published under `key_id`, which
    /// stays in the store: the current key, or a retired key before its expiry.
    pub fn with_key<R, F>(&self, key_id: u32, now_ms: u64, operation: F) -> (r: Result<R, SignedPrekeyStoreError>)
        where
            F: FnOnce(&SignedPrekey) -> R,
        requires
            self.wf(),
            forall|k: &SignedPrekey| #[trigger] operation.requires((k,)),
        ensures
            match usable_key(self@, key_id, now_ms) {
                None => r == Err::<R, SignedPrekeyStoreError>(SignedPrekeyStoreError::NotFound),
                Some(key) => r is Ok && operation_ran_on(operation, key, r->Ok_0),
            },
    {
        if self.current.key_id == key_id {
            let out = operation(&self.current.key);
            assert(operation.ensures((&self.current.key,), out));
            assert(self.current.key@ == self@.current.key);
            assert(operation_ran_on(operation, self@.current.key, out));
            return Ok(out);
        }
        match self.retired.get(&key_id) {
            None => Err(SignedPrekeyStoreError::NotFound),
            Some(entry) => {
                let live = match entry.expires_at_ms {
                    Some(expires) => now_ms < expires,
                    None => true,
                };
                if !live {
                    return Err(SignedPrekeyStoreError::NotFound);
                }
                let out = operation(&entry.key);
                assert(operation.ensures((&entry.key,), out));
                assert(entry.key@ == self@.retired[key_id].key);
                assert(operation_ran_on(operation, self@.retired[key_id].key, out));
                Ok(out)
            },
        }
    }

    /// The ids of the retired keys, each once.
    fn retired_ids(&self) -> (ids: Vec<u32>)
        ensures
            ids@.to_set() == self@.retired.dom(),
            ids@.no_duplicates(),
    {
        broadcast use vstd::std_specs::btree::group_btree_axioms;

        let mut ids: Vec<u32> = Vec::new();
        for k in it: self.retired.keys()
            invariant
                ids@ == it.seq().unref().take(it.index()),
        {
            ids.push(*k);
            assert(ids@ =~= it.seq().unref().take(it.index() + 1));
        }
        assert(ids@ =~= spec_keys_iter(&self.retired).remaining().unref());
        assert(self@.retired.dom() =~= self.retired@.dom());
        ids
    }

    /// Drops the retired keys that have expired at `now_ms` and returns how
    /// many were dropped.
    fn drop_expired(&mut self, now_ms: u64) -> (removed: usize)
        requires
            old(self).wf(),
        ensures
            final(self).wf(),
            final(self)@.current == old(self)@.current,
            final(self)@.retired == live_retired(old(self)@, now_ms),
            removed == old(self)@.retired.len() - final(self)@.retired.len(),
    {
        let ghost old_retired = self@.retired;
        let ids = self.retired_ids();
        let mut removed: usize = 0;
        let mut i: usize = 0;
        while i < ids.len()
            invariant
                old(self).wf(),
                self.wf(),
                self@.current == old(self)@.current,
                old_retired == old(self)@.retired,
                ids@.to_set() == old_retired.dom(),
                ids@.no_duplicates(),
                0 <= i <= ids@.len(),
                forall|k: u32| #[trigger] self@.retired.contains_key(k) <==> old_retired.contains_key(k) && (
                    !ids@.take(i as int).contains(k) || is_live(old_retired[k], now_ms)),
                forall|k: u32| #[trigger] self@.retired.contains_key(k) ==> self@.retired[k] == old_retired[k],
                removed + self@.retired.len() == old_retired.len(),
                removed <= i,
            decreases ids@.len() - i,
        {
            let id = ids[i];
            assert(ids@.take(i + 1) =~= ids@.take(i as int).push(id));
            assert(!ids@.take(i as int).contains(id)) by {
                if ids@.take(i as int).contains(id) {
                    let j = choose|j: int| 0 <= j < i && ids@.take(i as int)[j] == id;
                    assert(ids@[j] == ids@[i as int]);
                }
            }
            assert(old_retired.contains_key(id)) by {
                assert(ids@.contains(id));
            }
            let expired = match self.retired.get(&id) {
                Some(entry) => match entry.expires_at_ms {
                    Some(expires) => now_ms >= expires,
                    None => false,
                },
                None => false,
            };
            assert(self@.retired.contains_key(id));
            assert(expired == !is_live(old_retired[id], now_ms));
            if expired {
                let ghost before = self@.retired;
                proof {
                    self.lemma_retired_len();
                }
                let _ = self.retired.remove(&id);
                assert(self@.retired =~= before.remove(id));
                proof {
                    self.lemma_retired_len();
                    assert(before.remove(id).len() == before.len() - 1);
                    vstd::set_lib::lemma_len_subset(self@.retired.dom(), old_retired.dom());
                }
                removed = removed + 1;
            }
            let ghost before_ids = ids@.take(i as int);
            let ghost after_ids = ids@.take(i + 1);
            assert forall|k: u32| after_ids.contains(k) <==> (before_ids.contains(k) || k == id) by {
                if after_ids.contains(k) {
                    let j = choose|j: int| 0 <= j < after_ids.len() && after_ids[j] == k;
                    if j < i {
                        assert(before_ids[j] == k);
                    }
                }
                if before_ids.contains(k) {
                    let j = choose|j: int| 0 <= j < before_ids.len() && before_ids[j] == k;
                    assert(after_ids[j] == k);
                }
                if k == id {
                    assert(after_ids[i as int] == k);
                }
            }
            i = i + 1;
        }
        assert(ids@.take(ids@.len() as int) =~= ids@);
        assert forall|k: u32| old_retired.contains_key(k) implies ids@.contains(k) by {
            assert(ids@.to_set().contains(k));
        }
        assert(self@.retired =~= live_retired(old(self)@, now_ms));
        removed
    }

    /// Rotates to a fresh signed prekey. Expired retired keys are removed
    /// first, whatever the outcome; a live grace key is never discarded, so
    /// rotation fails once the retired set is full.
    pub fn rotate(&mut self, identity: &IdentityKey, new_key_id: u32, now_ms: u64, grace_ms: u64) -> (r: Result<SignedPrekeyRecord, SignedPrekeyStoreError>)
        requires
            old(self).wf(),
            identity.wf(),
        ensures
            final(self).wf(),
            match rotation_error(old(self)@, new_key_id, now_ms, grace_ms) {
                Some(e) => r == Err::<SignedPrekeyRecord, SignedPrekeyStoreError>(e)
                    && final(self)@.current == old(self)@.current
                    && final(self)@.retired == live_retired(old(self)@, now_ms),
                None => r is Ok && {
                    let c = final(self)@.current;
                    &&& c.key_id == new_key_id
                    &&& c.created_at_ms == now_ms
                    &&& c.expires_at_ms is None
                    &&& r->Ok_0 == c.record
                    &&& is_published_record(c.record, identity@.signing_seed, identity@.agreement_public, new_key_id, c.key.public)
                    &&& final(self)@.retired == live_retired(old(self)@, now_ms).insert(
                        old(self)@.current.key_id,
                        retired_entry(old(self)@.current, (now_ms + grace_ms) as u64),
                    )
                },
            },
    {
        self.drop_expired(now_ms);
        proof {
            self.lemma_retired_len();
        }
        if new_key_id == self.current.key_id || self.retired.contains_key(&new_key_id) {
            return Err(SignedPrekeyStoreError::DuplicateKeyId);
        }
        if now_ms < self.current.created_at_ms {
            return Err(SignedPrekeyStoreError::InvalidTime);
        }
        if self.retired.len() >= MAX_RETIRED_SIGNED_PREKEYS {
            return Err(SignedPrekeyStoreError::RetiredCapacity);
        }
        let expires_at_ms = match now_ms.checked_add(grace_ms) {
            Some(e) => e,
            None => {
                return Err(SignedPrekeyStoreError::GenerationOverflow);
            },
        };
        let key = SignedPrekey::generate();
        let record = publishable_signed_prekey(identity, new_key_id, &key);
        let mut old_entry = SignedPrekeyEntry { key_id: new_key_id, created_at_ms: now_ms, expires_at_ms: None, key, record };
        std::mem::swap(&mut old_entry, &mut self.current);
        let old_id = old_entry.key_id;
        let retired_entry = SignedPrekeyEntry {
            key_id: old_entry.key_id,
            created_at_ms: old_entry.created_at_ms,
            expires_at_ms: Some(expires_at_ms),
            key: old_entry.key,
            record: old_entry.record,
        };
        let ghost before = self@.retired;
        let ghost ev = entry_view(retired_entry);
        let _ = self.retired.insert(old_id, retired_entry);
        assert(self@.retired =~= before.insert(old_id, ev));
        proof {
            self.lemma_retired_len();
        }
        Ok(copy_record(&self.current.record))
    }

    /// Removes retired keys that have expired at `now_ms`; returns how many.
    pub fn prune(&mut self, now_ms: u64) -> (r: Result<usize, SignedPrekeyStoreError>)
        requires
            old(self).wf(),
        ensures
            final(self).wf(),
            final(self)@.current == old(self)@.current,
            final(self)@.retired == live_retired(old(self)@, now_ms),
            r == Ok::<usize, SignedPrekeyStoreError>(
                (old(self)@.retired.len() - final(self)@.retired.len()) as usize,
            ),
    {
        let removed = self.drop_expired(now_ms);
        Ok(removed)
    }
}

#[derive(Debug, Clone, Copy, PartialEq, Eq)]
pub enum PreKeyStoreError {
    DuplicateKeyId,
    NotFound,
    PublicKeyMismatch,
    Poisoned,
}

/// `out` is what `operation` returned when run on a one-time prekey whose
/// value is `key`.
pub open spec fn otp_operation_ran_on<R, E, F: FnOnce(&OneTimePrekey) -> Result<R, E>>(operation: F, key: OneTimePrekeyView, out: Result<R, E>) -> bool {
    exists|k: OneTimePrekey| k@ == key && #[trigger] operation.ensures((&k,), out)
}

/// Single-use one-time prekeys, addressed by id.
pub struct OneTimePrekeyStore {
    keys: BTreeMap<u32, OneTimePrekey>,
}

impl View for OneTimePrekeyStore {
    type V = Map<u32, OneTimePrekeyView>;

    closed spec fn view(&self) -> Map<u32, OneTimePrekeyView> {
        self.keys@.map_values(|k: OneTimePrekey| k@)
    }
}

impl OneTimePrekeyStore {
    /// Every key is stored under its own id.
    pub open spec fn wf(&self) -> bool {
        forall|id: u32| #[trigger] self@.contains_key(id) ==> self@[id].key_id == id
    }

    /// An empty store.
    pub fn new() -> (s: Self)
        ensures
            s.wf(),
            s@ == Map::<u32, OneTimePrekeyView>::empty(),
    {
        let s = OneTimePrekeyStore { keys: BTreeMap::new() };
        assert(s@ =~= Map::<u32, OneTimePrekeyView>::empty());
        s
    }

    /// Adds a key under its id; refused when the id is already stored.
    pub fn insert(&mut self, key: OneTimePrekey) -> (r: Result<(), PreKeyStoreError>)
        requires
            old(self).wf(),
        ensures
            final(self).wf(),
            old(self)@.contains_key(key@.key_id) ==> r == Err::<(), PreKeyStoreError>(
                PreKeyStoreError::DuplicateKeyId,
            ) && final(self)@ == old(self)@,
            !old(self)@.contains_key(key@.key_id) ==> r is Ok && final(self)@ == old(self)@.insert(
                key@.key_id,
                key@,
            ),
    {
        let id = key.id();
        if self.keys.contains_key(&id) {
            return Err(PreKeyStoreError::DuplicateKeyId);
        }
        let ghost before = self@;
        let ghost kv = key@;
        let _ = self.keys.insert(id, key);
        assert(self@ =~= before.insert(id, kv));
        Ok(())
    }

    /// Removes and returns the key with id `key_id`: each key is handed out once.
    pub fn take(&mut self, key_id: u32) -> (r: Result<OneTimePrekey, PreKeyStoreError>)
        requires
            old(self).wf(),
        ensures
            final(self).wf(),
            !old(self)@.contains_key(key_id) ==> r is Err && r->Err_0 == PreKeyStoreError::NotFound
                && final(self)@ == old(self)@,
            old(self)@.contains_key(key_id) ==> r is Ok && r->Ok_0@ == old(self)@[key_id] && final(self)@
                == old(self)@.remove(key_id),
    {
        let ghost before = self@;
        match self.keys.remove(&key_id) {
            Some(k) => {
                assert(self@ =~= before.remove(key_id));
                Ok(k)
            },
            None => {
                assert(self@ =~= before);
                Err(PreKeyStoreError::NotFound)
            },
        }
    }

    /// Like [`take`](Self::take), but only when the stored public key is the
    /// expected one; a mismatch consumes nothing.
    pub fn take_matching(&mut self, key_id: u32, expected_public: &[u8; 32]) -> (r: Result<OneTimePrekey, PreKeyStoreError>)
        requires
            old(self).wf(),
        ensures
            final(self).wf(),
            !old(self)@.contains_key(key_id) ==> r is Err && r->Err_0 == PreKeyStoreError::NotFound
                && final(self)@ == old(self)@,
            old(self)@.contains_key(key_id) && old(self)@[key_id].public != expected_public@ ==> r is Err
                && r->Err_0 == PreKeyStoreError::PublicKeyMismatch && final(self)@ == old(self)@,
            old(self)@.contains_key(key_id) && old(self)@[key_id].public == expected_public@ ==> r is Ok
                && r->Ok_0@ == old(self)@[key_id] && final(self)@ == old(self)@.remove(key_id),
    {
        let public = match self.keys.get(&key_id) {
            Some(k) => k.public_key(),
            None => {
                return Err(PreKeyStoreError::NotFound);
            },
        };
        if !bytes_eq(&public, expected_public) {
            return Err(PreKeyStoreError::PublicKeyMismatch);
        }
        self.take(key_id)
    }

    /// Runs `operation` on the matching key and consumes the key only when
    /// the operation succeeds; on any error the store is left unchanged.
    pub fn with_matching<R, E, F>(&mut self, key_id: u32, expected_public: &[u8; 32], operation: F) -> (r: Result<R, E>)
        where
            F: FnOnce(&OneTimePrekey) -> Result<R, E>,
            E: From<PreKeyStoreError>,
        requires
            old(self).wf(),
            forall|k: &OneTimePrekey| #[trigger] operation.requires((k,)),
        ensures
            final(self).wf(),
            !old(self)@.contains_key(key_id) ==> final(self)@ == old(self)@ && r is Err && call_ensures(
                E::from,
                (PreKeyStoreError::NotFound,),
                r->Err_0,
            ),
            old(self)@.contains_key(key_id) && old(self)@[key_id].public != expected_public@ ==> final(self)@
                == old(self)@ && r is Err && call_ensures(
                E::from,
                (PreKeyStoreError::PublicKeyMismatch,),
                r->Err_0,
            ),
            old(self)@.contains_key(key_id) && old(self)@[key_id].public == expected_public@ ==> {
                &&& otp_operation_ran_on(operation, old(self)@[key_id], r)
                &&& r is Err ==> final(self)@ == old(self)@
                &&& r is Ok ==> final(self)@ == old(self)@.remove(key_id)
            },
    {
        let result = match self.keys.get(&key_id) {
            Some(k) => {
                let public = k.public_key();
                if !bytes_eq(&public, expected_public) {
                    return Err(E::from(PreKeyStoreError::PublicKeyMismatch));
                }
                let result = operation(k);
                assert(otp_operation_ran_on(operation, self@[key_id], result));
                result
            },
            None => {
                return Err(E::from(PreKeyStoreError::NotFound));
            },
        };
        match result {
            Ok(value) => {
                let ghost before = self@;
                let _consumed = self.keys.remove(&key_id);
                assert(self@ =~= before.remove(key_id));
                Ok(value)
            },
            Err(e) => Err(e),
        }
    }

    pub fn len(&self) -> (r: Result<usize, PreKeyStoreError>)
        ensures
            r == Ok::<usize, PreKeyStoreError>(self@.len() as usize),
    {
        proof {
            self.lemma_len();
        }
        Ok(self.keys.len())
    }

    pub fn is_empty(&self) -> (r: Result<bool, PreKeyStoreError>)
        ensures
            r == Ok::<bool, PreKeyStoreError>(self@.len() == 0),
    {
        proof {
            self.lemma_len();
        }
        Ok(self.keys.len() == 0)
    }

    /// The store holds as many keys as the map beneath it.
    proof fn lemma_len(&self)
        ensures
            self@.len() == self.keys.len(),
    {
        broadcast use vstd::std_specs::btree::group_btree_axioms;

        assert(self@.dom() =~= self.keys@.dom());
    }
}

impl Default for OneTimePrekeyStore {
    fn default() -> (s: Self)
        ensures
            s.wf(),
            s@ == Map::<u32, OneTimePrekeyView>::empty(),
    {
        Self::new()
    }
}

} // verus!

verus! {

/// After a rotation the previous signed prekey stays usable exactly until
/// its grace period ends.
pub proof fn lemma_grace_key_usable_until_expiry(before: SignedPrekeyStoreView, after: &SignedPrekeyStore, new_key_id: u32, now_ms: u64, grace_ms: u64, t: u64)
    requires
        after.wf(),
        rotation_error(before, new_key_id, now_ms, grace_ms) is None,
        after@.current.key_id == new_key_id,
        after@.retired == live_retired(before, now_ms).insert(
            before.current.key_id,
            retired_entry(before.current, (now_ms + grace_ms) as u64),
        ),
    ensures
        t < now_ms + grace_ms ==> usable_key(after@, before.current.key_id, t) == Some(before.current.key),
        t >= now_ms + grace_ms ==> usable_key(after@, before.current.key_id, t) is None,
{
}

/// A one-time prekey that has been taken is gone: a second take of the same
/// id finds nothing.
pub proof fn lemma_take_is_single_use(s: Map<u32, OneTimePrekeyView>, key_id: u32)
    ensures
        !s.remove(key_id).contains_key(key_id),
{
}

} // verus!
