use nexa::identity::{IdentityKey, OneTimePrekey};
use nexa::prekey_store::{
    OneTimePrekeyStore, PreKeyStoreError, SignedPrekeyStore, SignedPrekeyStoreError, DEFAULT_SIGNED_PREKEY_GRACE_MS,
};

#[test]
fn signed_prekey_rotation_keeps_old_key_during_grace() {
    let identity = IdentityKey::generate();
    let mut store = SignedPrekeyStore::new(&identity, 1, 1_000);
    let old = store.current_record().unwrap();
    let fresh = store.rotate(&identity, 2, 2_000, 500).unwrap();
    assert_eq!(fresh.key_id, 2);
    assert_eq!(store.current_key_id().unwrap(), 2);
    assert_eq!(store.retired_len().unwrap(), 1);
    assert!(store.with_key(old.key_id, 2_499, |_| ()).is_ok());
    assert!(matches!(store.with_key(old.key_id, 2_500, |_| ()), Err(SignedPrekeyStoreError::NotFound)));
    assert_eq!(store.prune(2_500).unwrap(), 1);
    assert_eq!(store.retired_len().unwrap(), 0);
}

#[test]
fn signed_prekey_rotation_rejects_id_reuse_and_time_rollback() {
    let identity = IdentityKey::generate();
    let mut store = SignedPrekeyStore::new(&identity, 4, 10_000);
    assert!(matches!(store.rotate(&identity, 4, 11_000, 1), Err(SignedPrekeyStoreError::DuplicateKeyId)));
    assert!(matches!(store.rotate(&identity, 5, 9_999, 1), Err(SignedPrekeyStoreError::InvalidTime)));
    store.rotate(&identity, 5, 11_000, 10).unwrap();
    assert!(matches!(store.rotate(&identity, 4, 12_000, 10), Ok(_)));
    assert_eq!(store.current_key_id().unwrap(), 4);
}

#[test]
fn signed_prekey_record_stays_bound_after_rotation() {
    let identity = IdentityKey::generate();
    let mut store = SignedPrekeyStore::new(&identity, 7, 100);
    let record = store.current_record().unwrap();
    assert!(record.verify(&identity.public_key()));
    let _ = store.rotate(&identity, 8, 200, DEFAULT_SIGNED_PREKEY_GRACE_MS).unwrap();
    let expected = record.public_key;
    assert!(store.with_key(record.key_id, 200, |key| assert_eq!(key.public_key(), expected)).is_ok());
}

// A live grace key is never dropped to make room: after two rotations both
// retired keys stay usable within their window, a third rotation is refused
// with `RetiredCapacity` until one of them expires, and pruning then frees
// exactly the expired one.
#[test]
fn signed_prekey_retirement_is_bounded_without_deleting_live_keys() {
    let identity = IdentityKey::generate();
    let mut store = SignedPrekeyStore::new(&identity, 1, 0);
    store.rotate(&identity, 2, 1, 1_000).unwrap();
    store.rotate(&identity, 3, 2, 1_000).unwrap();
    assert_eq!(store.retired_len().unwrap(), 2);
    assert!(store.with_key(1, 999, |_| ()).is_ok());
    assert!(store.with_key(2, 999, |_| ()).is_ok());
    assert!(matches!(store.rotate(&identity, 4, 3, 1_000), Err(SignedPrekeyStoreError::RetiredCapacity)));
    assert_eq!(store.current_key_id().unwrap(), 3);
    assert_eq!(store.prune(1_001).unwrap(), 1);
    assert_eq!(store.retired_len().unwrap(), 1);
    store.rotate(&identity, 4, 1_002, 1).unwrap();
    assert_eq!(store.current_key_id().unwrap(), 4);
    assert_eq!(store.retired_len().unwrap(), 1);
}

#[test]
fn duplicate_ids_are_rejected() {
    let mut store = OneTimePrekeyStore::new();
    store.insert(OneTimePrekey::generate(7)).unwrap();
    assert!(matches!(store.insert(OneTimePrekey::generate(7)), Err(PreKeyStoreError::DuplicateKeyId)));
    assert_eq!(store.len().unwrap(), 1);
}

#[test]
fn take_is_single_use() {
    let mut store = OneTimePrekeyStore::new();
    store.insert(OneTimePrekey::generate(8)).unwrap();
    let first = store.take(8).unwrap();
    assert_eq!(first.key_id, 8);
    assert!(matches!(store.take(8), Err(PreKeyStoreError::NotFound)));
    assert!(store.is_empty().unwrap());
}

#[test]
fn mismatched_public_key_does_not_consume_prekey() {
    let mut store = OneTimePrekeyStore::new();
    let key = OneTimePrekey::generate(10);
    let public = key.public_key();
    store.insert(key).unwrap();
    assert!(matches!(store.take_matching(10, &[1u8; 32]), Err(PreKeyStoreError::PublicKeyMismatch)));
    assert_eq!(store.len().unwrap(), 1);
    let consumed = store.take_matching(10, &public).unwrap();
    assert_eq!(consumed.key_id, 10);
    assert!(store.is_empty().unwrap());
}

#[test]
fn transactional_operation_restores_on_error() {
    let mut store = OneTimePrekeyStore::new();
    let key = OneTimePrekey::generate(13);
    let public = key.public_key();
    store.insert(key).unwrap();
    let failed: Result<(), PreKeyStoreError> = store.with_matching(13, &public, |_| Err(PreKeyStoreError::PublicKeyMismatch));
    assert!(matches!(failed, Err(PreKeyStoreError::PublicKeyMismatch)));
    assert_eq!(store.len().unwrap(), 1);
    let ok: Result<u8, PreKeyStoreError> = store.with_matching(13, &public, |_| Ok(1));
    assert_eq!(ok.unwrap(), 1);
    assert!(store.is_empty().unwrap());
}

#[test]
fn concurrent_take_allows_exactly_one_consumer() {
    let mut store = OneTimePrekeyStore::new();
    let key = OneTimePrekey::generate(9);
    let public = key.public_key();
    store.insert(key).unwrap();
    let mut winners = 0;
    for _ in 0..16 {
        if store.take_matching(9, &public).is_ok() {
            winners += 1;
        }
    }
    assert_eq!(winners, 1);
    assert_eq!(store.len().unwrap(), 0);
}

#[test]
fn default_store_is_empty_and_missing_key_is_not_found() {
    let mut store = OneTimePrekeyStore::default();
    assert!(store.is_empty().unwrap());
    assert!(matches!(store.take(1), Err(PreKeyStoreError::NotFound)));
    let r: Result<u8, PreKeyStoreError> = store.with_matching(1, &[0; 32], |_| Ok(1));
    assert!(matches!(r, Err(PreKeyStoreError::NotFound)));
}
