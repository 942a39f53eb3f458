use nexa::protocol::{
    decode_message_ack, encode_message_ack, EncryptedMessage, MessageCodecError, OneTimePrekeyPublic, PreKeyBundle,
    ProtocolVersion, RatchetHeader, RatchetHeaderError, PROTOCOL_VERSION,
};

#[test]
fn prekey_bundle_has_version_and_public_prekeys() {
    let bundle = PreKeyBundle {
        protocol_version: ProtocolVersion(PROTOCOL_VERSION),
        device_id: [1; 16],
        identity_signing_key: [2; 32],
        identity_agreement_key: [8; 32],
        signed_prekey_id: 3,
        signed_prekey: [4; 32],
        signed_prekey_signature: [5; 64],
        one_time_prekeys: vec![OneTimePrekeyPublic { key_id: 6, public_key: [7; 32] }],
    };
    assert_eq!(bundle.protocol_version.0, 1);
    assert_eq!(bundle.one_time_prekeys.len(), 1);
}

#[test]
fn encrypted_message_binary_codec_round_trips() {
    let message = EncryptedMessage::new([1; 16], [2; 16], [3; 16], [4; 16], vec![5, 6], vec![7, 8, 9], 123);
    let encoded = message.encode().unwrap();
    assert_eq!(EncryptedMessage::decode(&encoded).unwrap(), message);
}

#[test]
fn message_codec_rejects_truncation_and_trailing_data() {
    let message = EncryptedMessage::new([1; 16], [2; 16], [3; 16], [4; 16], vec![5], vec![6], 123);
    let mut encoded = message.encode().unwrap();
    encoded.pop();
    assert_eq!(EncryptedMessage::decode(&encoded), Err(MessageCodecError::Truncated));
    let mut encoded = message.encode().unwrap();
    encoded.push(0);
    assert_eq!(EncryptedMessage::decode(&encoded), Err(MessageCodecError::TrailingBytes));
}

#[test]
fn ack_codec_is_exactly_one_message_id() {
    let id = [9; 16];
    assert_eq!(decode_message_ack(&encode_message_ack(&id)).unwrap(), id);
    assert_eq!(decode_message_ack(&[0; 15]), Err(MessageCodecError::Truncated));
    assert_eq!(decode_message_ack(&[0; 17]), Err(MessageCodecError::LengthMismatch));
}

#[test]
fn message_encoding_has_exact_layout() {
    let message = EncryptedMessage::new([1; 16], [2; 16], [3; 16], [4; 16], vec![5, 6], vec![7, 8, 9], 0x0102);
    let encoded = message.encode().unwrap();
    assert_eq!(encoded.len(), 2 + 64 + 4 + 2 + 4 + 3 + 8);
    assert_eq!(&encoded[0..2], &[0, 1]);
    assert_eq!(&encoded[66..70], &[0, 0, 0, 2]);
    assert_eq!(&encoded[encoded.len() - 8..], &[0, 0, 0, 0, 0, 0, 1, 2]);
}

#[test]
fn message_with_other_version_is_rejected() {
    let message = EncryptedMessage::new([1; 16], [2; 16], [3; 16], [4; 16], vec![5], vec![6], 123);
    let mut encoded = message.encode().unwrap();
    encoded[1] = 2;
    assert_eq!(EncryptedMessage::decode(&encoded), Err(MessageCodecError::InvalidVersion));
}

#[test]
fn ratchet_header_round_trips_and_rejects_bad_input() {
    let header = RatchetHeader::new(0x0102030405060708);
    let bytes = header.encode();
    assert_eq!(bytes, vec![0, 1, 1, 2, 3, 4, 5, 6, 7, 8]);
    assert_eq!(RatchetHeader::decode(&bytes).unwrap(), header);
    assert_eq!(RatchetHeader::decode(&bytes[..9]), Err(RatchetHeaderError::Truncated));
    let mut trailing = bytes.clone();
    trailing.push(0);
    assert_eq!(RatchetHeader::decode(&trailing), Err(RatchetHeaderError::TrailingBytes));
    let mut other = bytes.clone();
    other[1] = 2;
    assert_eq!(RatchetHeader::decode(&other), Err(RatchetHeaderError::InvalidVersion));
}

#[test]
fn bundle_with_repeated_one_time_prekey_id_is_invalid() {
    let mut bundle = PreKeyBundle {
        protocol_version: ProtocolVersion(PROTOCOL_VERSION),
        device_id: [1; 16],
        identity_signing_key: [2; 32],
        identity_agreement_key: [8; 32],
        signed_prekey_id: 3,
        signed_prekey: [4; 32],
        signed_prekey_signature: [5; 64],
        one_time_prekeys: vec![OneTimePrekeyPublic { key_id: 6, public_key: [7; 32] }],
    };
    assert!(bundle.validate().is_ok());
    bundle.one_time_prekeys.push(OneTimePrekeyPublic { key_id: 6, public_key: [9; 32] });
    assert!(bundle.validate().is_err());
}
