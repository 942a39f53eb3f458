use nexa::dh_ratchet::{DhRatchetError, DhRatchetState};
use nexa::identity::{IdentityKey, OneTimePrekey, SignedPrekey, SignedPrekeyRecord};
use nexa::prekey_store::publishable_signed_prekey;
use nexa::protocol::{OneTimePrekeyPublic, PreKeyBundle, ProtocolVersion, PROTOCOL_VERSION};
use nexa::session::{initiate, respond, InitiatorEphemeral, SessionError};

fn setup() -> (IdentityKey, IdentityKey, SignedPrekey, SignedPrekeyRecord, PreKeyBundle) {
    let a = IdentityKey::generate();
    let b = IdentityKey::generate();
    let spk = SignedPrekey::generate();
    let record = publishable_signed_prekey(&b, 1, &spk);
    let bundle = PreKeyBundle {
        protocol_version: ProtocolVersion(PROTOCOL_VERSION),
        device_id: [7; 16],
        identity_signing_key: b.public_key(),
        identity_agreement_key: b.agreement_public_key(),
        signed_prekey_id: record.key_id,
        signed_prekey: record.public_key,
        signed_prekey_signature: record.signature,
        one_time_prekeys: vec![],
    };
    (a, b, spk, record, bundle)
}

#[test]
fn initiator_and_responder_derive_same_root() {
    let (a, b, spk, record, bundle) = setup();
    let eph = InitiatorEphemeral::generate();
    let i = initiate(&a, [8; 16], &eph, &bundle, &record, None).unwrap();
    let r = respond(&b, &spk, None, [7; 16], [8; 16], a.agreement_public_key(), eph.public_key).unwrap();
    assert_eq!(i.root.as_bytes(), r.root.as_bytes());
}

#[test]
fn tampered_agreement_key_rejects_session() {
    let (a, _, spk, record, mut bundle) = setup();
    bundle.identity_agreement_key[0] ^= 1;
    let eph = InitiatorEphemeral::generate();
    assert!(matches!(initiate(&a, [8; 16], &eph, &bundle, &record, None), Err(SessionError::InvalidSignedPrekey)));
    let _ = spk;
}

#[test]
fn one_time_prekey_must_be_the_same_key_on_both_sides() {
    let (a, b, spk, record, mut bundle) = setup();
    let otp = OneTimePrekey::generate(9);
    let otp_public = otp.public_key();
    bundle.one_time_prekeys.push(OneTimePrekeyPublic { key_id: 9, public_key: otp_public });
    let eph = InitiatorEphemeral::generate();
    let i = initiate(&a, [8; 16], &eph, &bundle, &record, Some((9, otp_public))).unwrap();
    let r = respond(&b, &spk, Some((9, otp)), [7; 16], [8; 16], a.agreement_public_key(), eph.public_key).unwrap();
    assert_eq!(i.root.as_bytes(), r.root.as_bytes());
    assert_eq!(i.used_one_time_prekey_id, r.used_one_time_prekey_id);
}

#[test]
fn other_protocol_version_is_refused() {
    let (a, _, _, record, mut bundle) = setup();
    bundle.protocol_version = ProtocolVersion(PROTOCOL_VERSION + 1);
    let eph = InitiatorEphemeral::generate();
    assert!(matches!(initiate(&a, [8; 16], &eph, &bundle, &record, None), Err(SessionError::ProtocolVersion)));
}

#[test]
fn different_one_time_prekeys_give_different_roots() {
    let (a, b, spk, record, bundle) = setup();
    let eph = InitiatorEphemeral::generate();
    let i = initiate(&a, [8; 16], &eph, &bundle, &record, None).unwrap();
    let otp = OneTimePrekey::generate(3);
    let r = respond(&b, &spk, Some((3, otp)), [7; 16], [8; 16], a.agreement_public_key(), eph.public_key).unwrap();
    assert_ne!(i.root.as_bytes(), r.root.as_bytes());
    assert_eq!(i.used_one_time_prekey_id, None);
    assert_eq!(r.used_one_time_prekey_id, Some(3));
}

#[test]
fn both_sides_derive_same_transition() {
    let root = [11u8; 32];
    let mut a = DhRatchetState::new(root);
    let mut b = DhRatchetState::new(root);

    let a_old = a.public;
    let b_old = b.public;

    let (_, a_chain) = a.ratchet(b_old).unwrap();
    let (_, b_chain) = b.ratchet(a_old).unwrap();

    assert_eq!(a.root_key(), b.root_key());
    assert_eq!(a_chain, b_chain);
    assert_ne!(a.public, a_old);
    assert_ne!(b.public, b_old);
}

#[test]
fn zero_shared_secret_is_rejected() {
    let mut state = DhRatchetState::new([1u8; 32]);
    assert!(matches!(state.ratchet([0u8; 32]), Err(DhRatchetError::InvalidPeerKey)));
}

#[test]
fn rejected_peer_key_leaves_state_unchanged() {
    let mut state = DhRatchetState::new([2u8; 32]);
    let public = state.public;
    let root = *state.root_key();
    assert!(state.ratchet([0u8; 32]).is_err());
    assert_eq!(state.public, public);
    assert_eq!(*state.root_key(), root);
}

#[test]
fn ratchet_with_rotates_to_the_given_secret() {
    let root = [11u8; 32];
    let mut a = DhRatchetState::new(root);
    let mut b = DhRatchetState::new(root);
    let a_old = a.public;
    let b_old = b.public;

    let (a_root, a_chain) = a.ratchet_with(b_old, [5u8; 32]).unwrap();
    let (b_root, b_chain) = b.ratchet_with(a_old, [6u8; 32]).unwrap();

    assert_eq!(a_root, b_root);
    assert_eq!(a_chain, b_chain);
    assert_ne!(a_root, root);
    assert_eq!(*a.root_key(), a_root);
    let expected_a = x25519_dalek::PublicKey::from(&x25519_dalek::StaticSecret::from([5u8; 32])).to_bytes();
    let expected_b = x25519_dalek::PublicKey::from(&x25519_dalek::StaticSecret::from([6u8; 32])).to_bytes();
    assert_eq!(a.public, expected_a);
    assert_eq!(b.public, expected_b);
    assert_eq!(a.public_key(), expected_a);
    assert_eq!(b.public_key(), expected_b);
}

#[test]
fn ratchet_with_refuses_a_zero_shared_secret_without_rotating() {
    let mut state = DhRatchetState::new([3u8; 32]);
    let public = state.public;
    let root = *state.root_key();
    assert!(matches!(state.ratchet_with([0u8; 32], [5u8; 32]), Err(DhRatchetError::InvalidPeerKey)));
    assert_eq!(state.public, public);
    assert_eq!(*state.root_key(), root);
}
