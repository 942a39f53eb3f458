use ed25519_dalek::{Signature, Verifier, VerifyingKey};
use nexa::identity::{DeviceId, IdentityKey, OneTimePrekey, SignedPrekey, SignedPrekeyRecord, VerificationState};

#[test]
fn identity_signature_verifies() {
    let identity = IdentityKey::generate();
    let payload = b"NEXA identity test";
    let public = VerifyingKey::from_bytes(&identity.public_key()).unwrap();
    assert!(public.verify(payload, &Signature::from_bytes(&identity.sign(payload))).is_ok());
}

#[test]
fn signed_prekey_binds_to_identity_and_agreement_key() {
    let identity = IdentityKey::generate();
    let spk = SignedPrekey::generate();
    let bytes = SignedPrekeyRecord::signing_bytes(7, &spk.public_key(), &identity.agreement_public_key());
    let record = SignedPrekeyRecord {
        key_id: 7,
        public_key: spk.public_key(),
        agreement_public_key: identity.agreement_public_key(),
        signature: identity.sign(&bytes),
    };
    assert!(record.verify(&identity.public_key()));
}

#[test]
fn wrong_identity_rejects_signed_prekey() {
    let identity = IdentityKey::generate();
    let other = IdentityKey::generate();
    let spk = SignedPrekey::generate();
    let bytes = SignedPrekeyRecord::signing_bytes(1, &spk.public_key(), &identity.agreement_public_key());
    let record = SignedPrekeyRecord {
        key_id: 1,
        public_key: spk.public_key(),
        agreement_public_key: identity.agreement_public_key(),
        signature: identity.sign(&bytes),
    };
    assert!(!record.verify(&other.public_key()));
}

#[test]
fn one_time_prekey_is_consumed_by_ownership() {
    let key = OneTimePrekey::generate(42);
    let peer = SignedPrekey::generate();
    assert_ne!(key.diffie_hellman(&peer.public_key()), [0u8; 32]);
}

#[test]
fn agreement_key_is_stable_and_private() {
    let identity = IdentityKey::generate();
    let peer = IdentityKey::generate();
    assert_ne!(identity.agreement_public_key(), [0u8; 32]);
    assert_eq!(
        identity.agreement_diffie_hellman(&peer.agreement_public_key()),
        peer.agreement_diffie_hellman(&identity.agreement_public_key())
    );
}

#[test]
fn signed_prekey_message_has_exact_layout() {
    let bytes = SignedPrekeyRecord::signing_bytes(0x01020304, &[5; 32], &[6; 32]);
    let mut expected = b"NEXA/SPK/v2".to_vec();
    expected.extend_from_slice(&[1, 2, 3, 4]);
    expected.extend_from_slice(&[5; 32]);
    expected.extend_from_slice(&[6; 32]);
    assert_eq!(bytes, expected);
}

#[test]
fn one_time_prekey_keeps_its_id_and_device_ids_compare_by_value() {
    let key = OneTimePrekey::generate(77);
    assert_eq!(key.id(), 77);
    assert_eq!(key.key_id, 77);
    assert_eq!(DeviceId([1; 16]), DeviceId([1; 16]));
    assert_ne!(VerificationState::Unverified, VerificationState::Verified);
}
