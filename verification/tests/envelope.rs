use nexa::envelope::{EnvelopeError, WireEnvelope, MAX_CIPHERTEXT, MAX_HEADER};
use nexa::identity::{IdentityKey, SignedPrekey};
use nexa::prekey_store::publishable_signed_prekey;
use nexa::protocol::{EncryptedMessage, PreKeyBundle, ProtocolVersion, PROTOCOL_VERSION};
use nexa::ratchet::RatchetState;
use nexa::receive::ReceiveRatchet;
use nexa::session::{initiate, respond, InitiatorEphemeral};

fn sample() -> WireEnvelope {
    WireEnvelope {
        version: ProtocolVersion(PROTOCOL_VERSION),
        message_id: [1; 16],
        conversation_id: [2; 16],
        sender_device_id: [3; 16],
        recipient_device_id: [4; 16],
        ratchet_header: vec![5, 6],
        ciphertext: vec![7, 8, 9],
        sent_at_ms: 123,
    }
}

#[test]
fn lib_round_trip() {
    let e = sample();
    let bytes = e.encode().unwrap();
    assert_eq!(WireEnvelope::decode(&bytes).unwrap(), e);
}

#[test]
fn oversized_header_is_rejected() {
    let mut e = sample();
    e.ratchet_header = vec![0; MAX_HEADER + 1];
    assert_eq!(e.encode(), Err(EnvelopeError::HeaderTooLarge));
}

#[test]
fn unknown_version_is_rejected() {
    let mut e = sample();
    e.version = ProtocolVersion(PROTOCOL_VERSION + 1);
    assert_eq!(e.encode(), Err(EnvelopeError::UnsupportedVersion));
}

#[test]
fn zero_ids_and_bad_ciphertexts_are_rejected() {
    let mut e = sample();
    e.message_id = [0; 16];
    assert_eq!(e.validate(), Err(EnvelopeError::InvalidIds));
    assert_eq!(e.aad(), Err(EnvelopeError::InvalidIds));
    let mut e = sample();
    e.conversation_id = [0; 16];
    assert_eq!(e.encode(), Err(EnvelopeError::InvalidIds));
    let mut e = sample();
    e.ciphertext = vec![];
    assert_eq!(e.encode(), Err(EnvelopeError::CiphertextTooLarge));
    assert!(e.aad().is_ok());
    let mut e = sample();
    e.ciphertext = vec![1; MAX_CIPHERTEXT + 1];
    assert_eq!(e.validate(), Err(EnvelopeError::CiphertextTooLarge));
}

#[test]
fn garbage_does_not_decode() {
    assert_eq!(WireEnvelope::decode(&[]), Err(EnvelopeError::Decode));
    assert_eq!(WireEnvelope::decode(&[1, 2, 3]), Err(EnvelopeError::Decode));
}

#[test]
fn decoded_envelope_is_validated() {
    let mut e = sample();
    e.encode().unwrap();
    let bytes = e.encode().unwrap();
    e.message_id = [0; 16];
    let mut tampered = bytes.clone();
    for b in tampered[1..17].iter_mut() {
        *b = 0;
    }
    assert_eq!(WireEnvelope::decode(&tampered), Err(EnvelopeError::InvalidIds));
}

#[test]
fn aad_has_exact_layout_and_excludes_ciphertext() {
    let e = sample();
    let aad = e.aad().unwrap();
    let mut expected = b"M/ENVELOPE-AAD/v1".to_vec();
    expected.extend_from_slice(&[0, 1]);
    expected.extend_from_slice(&[1; 16]);
    expected.extend_from_slice(&[2; 16]);
    expected.extend_from_slice(&[3; 16]);
    expected.extend_from_slice(&[4; 16]);
    expected.extend_from_slice(&[0, 0, 0, 2, 5, 6]);
    expected.extend_from_slice(&123u64.to_be_bytes());
    assert_eq!(aad, expected);
    let mut other = sample();
    other.ciphertext = vec![42; 10];
    assert_eq!(other.aad().unwrap(), aad);
}

#[test]
fn envelope_from_message_keeps_every_field() {
    let m = EncryptedMessage::new([1; 16], [2; 16], [3; 16], [4; 16], vec![5, 6], vec![7, 8, 9], 123);
    let e = WireEnvelope::from(m);
    assert_eq!(e, sample());
}

#[test]
fn session_ratchet_and_wire_envelope_round_trip_end_to_end() {
    let alice = IdentityKey::generate();
    let bob = IdentityKey::generate();
    let bob_spk = SignedPrekey::generate();
    let bob_record = publishable_signed_prekey(&bob, 1, &bob_spk);
    let bob_device = [7; 16];
    let alice_device = [8; 16];
    let bundle = PreKeyBundle {
        protocol_version: ProtocolVersion(PROTOCOL_VERSION),
        device_id: bob_device,
        identity_signing_key: bob.public_key(),
        identity_agreement_key: bob.agreement_public_key(),
        signed_prekey_id: bob_record.key_id,
        signed_prekey: bob_record.public_key,
        signed_prekey_signature: bob_record.signature,
        one_time_prekeys: vec![],
    };
    let ephemeral = InitiatorEphemeral::generate();
    let initiator = initiate(&alice, alice_device, &ephemeral, &bundle, &bob_record, None).unwrap();
    let responder = respond(&bob, &bob_spk, None, bob_device, alice_device, alice.agreement_public_key(), ephemeral.public_key).unwrap();
    assert_eq!(initiator.root.as_bytes(), responder.root.as_bytes());

    let root: [u8; 32] = *initiator.root.as_bytes();
    let mut sender = RatchetState::from_root(root).unwrap();
    let mut receiver = ReceiveRatchet::from_root(root).unwrap();
    let mut envelope = WireEnvelope {
        version: ProtocolVersion(PROTOCOL_VERSION),
        message_id: [9; 16],
        conversation_id: [10; 16],
        sender_device_id: alice_device,
        recipient_device_id: bob_device,
        ratchet_header: sender.counter().to_be_bytes().to_vec(),
        ciphertext: vec![1],
        sent_at_ms: 1_000,
    };
    let aad = envelope.aad().unwrap();
    envelope.ciphertext = sender.encrypt(b"hello from M", &aad).unwrap();
    let wire = envelope.encode().unwrap();
    let decoded = WireEnvelope::decode(&wire).unwrap();
    let decoded_aad = decoded.aad().unwrap();
    let counter = u64::from_be_bytes(decoded.ratchet_header.as_slice().try_into().unwrap());
    let plaintext = receiver.decrypt(counter, &decoded.ciphertext, &decoded_aad).unwrap();
    assert_eq!(plaintext, b"hello from M");
    assert_eq!(receiver.expected_counter(), 1);

    let tampered_fields = [
        {
            let mut value = decoded.clone();
            value.message_id[0] ^= 1;
            value
        },
        {
            let mut value = decoded.clone();
            value.conversation_id[0] ^= 1;
            value
        },
        {
            let mut value = decoded.clone();
            value.sender_device_id[0] ^= 1;
            value
        },
        {
            let mut value = decoded.clone();
            value.recipient_device_id[0] ^= 1;
            value
        },
        {
            let mut value = decoded.clone();
            value.ratchet_header[0] ^= 1;
            value
        },
        {
            let mut value = decoded.clone();
            value.sent_at_ms ^= 1;
            value
        },
    ];

    for tampered in tampered_fields {
        let tampered_aad = tampered.aad().unwrap();
        assert!(receiver.decrypt(counter, &tampered.ciphertext, &tampered_aad).is_err());
        assert_eq!(receiver.expected_counter(), 1);
        assert_eq!(receiver.skipped_count(), 0);
    }
}
