use nexa::protocol::{RatchetHeader, RatchetHeaderError};
use nexa::ratchet::{RatchetError, RatchetState};
use nexa::receive::{ReceiveError, ReceiveRatchet, ReceiveSnapshotError, MAX_SKIP};

#[test]
fn message_keys_advance() {
    let root = [7u8; 32];
    let mut a = RatchetState::from_root(root).unwrap();
    let k1 = a.next_message_key().unwrap();
    let k2 = a.next_message_key().unwrap();
    assert_ne!(k1.as_ref(), k2.as_ref());
    assert_eq!(a.counter(), 2);
}

#[test]
fn encryption_authenticates_aad() {
    let root = [9u8; 32];
    let mut sender = RatchetState::from_root(root).unwrap();
    let packet = sender.encrypt(b"hello", b"NEXA/aad/v1").unwrap();
    let key = {
        let mut probe = RatchetState::from_root(root).unwrap();
        probe.next_message_key().unwrap()
    };
    assert_eq!(RatchetState::decrypt_once(&key, &packet, b"NEXA/aad/v1").unwrap(), b"hello");
    assert!(RatchetState::decrypt_once(&key, &packet, b"wrong").is_err());
}

#[test]
fn tampering_fails() {
    let root = [3u8; 32];
    let mut sender = RatchetState::from_root(root).unwrap();
    let mut packet = sender.encrypt(b"secret", b"aad").unwrap();
    *packet.last_mut().unwrap() ^= 1;
    let mut probe = RatchetState::from_root(root).unwrap();
    let key = probe.next_message_key().unwrap();
    assert!(RatchetState::decrypt_once(&key, &packet, b"aad").is_err());
}

#[test]
fn short_packet_is_refused() {
    let key = [1u8; 32];
    assert_eq!(RatchetState::decrypt_once(&key, &[0u8; 5], b"aad"), Err(RatchetError::InvalidNonce));
}

#[test]
fn out_of_order_then_replay_is_rejected() {
    let root = [7u8; 32];
    let mut sender = RatchetState::from_root(root).unwrap();
    let p0 = sender.encrypt(b"zero", b"aad").unwrap();
    let p1 = sender.encrypt(b"one", b"aad").unwrap();
    let mut receiver = ReceiveRatchet::from_root(root).unwrap();
    assert_eq!(receiver.decrypt_with_header(&RatchetHeader::new(1).encode(), &p1, b"aad").unwrap(), b"one");
    assert_eq!(receiver.decrypt_with_header(&RatchetHeader::new(0).encode(), &p0, b"aad").unwrap(), b"zero");
    assert!(matches!(receiver.decrypt_with_header(&RatchetHeader::new(0).encode(), &p0, b"aad"), Err(ReceiveError::Replay)));
}

#[test]
fn excessive_skip_is_rejected() {
    let mut receiver = ReceiveRatchet::from_root([8u8; 32]).unwrap();
    assert!(matches!(receiver.key_for(MAX_SKIP + 1), Err(ReceiveError::TooFarAhead)));
}

#[test]
fn malformed_header_does_not_consume_receive_state() {
    let mut receiver = ReceiveRatchet::from_root([9u8; 32]).unwrap();
    let valid = RatchetHeader::new(0).encode();
    let mut invalid_version = valid.to_vec();
    invalid_version[1] ^= 1;
    assert!(matches!(
        receiver.decrypt_with_header(&invalid_version, b"bad", b"aad"),
        Err(ReceiveError::InvalidHeader(RatchetHeaderError::InvalidVersion))
    ));
    assert_eq!(receiver.expected_counter(), 0);
    assert_eq!(receiver.skipped_count(), 0);
    let mut trailing = valid.to_vec();
    trailing.push(0);
    assert!(matches!(
        receiver.decrypt_with_header(&trailing, b"bad", b"aad"),
        Err(ReceiveError::InvalidHeader(RatchetHeaderError::TrailingBytes))
    ));
    assert_eq!(receiver.expected_counter(), 0);
    assert_eq!(receiver.skipped_count(), 0);
}

#[test]
fn failed_decryption_does_not_consume_receive_state() {
    let root = [11u8; 32];
    let mut sender = RatchetState::from_root(root).unwrap();
    let valid = sender.encrypt(b"message", b"aad").unwrap();
    let mut tampered = valid.clone();
    *tampered.last_mut().unwrap() ^= 1;
    let mut receiver = ReceiveRatchet::from_root(root).unwrap();
    assert!(matches!(
        receiver.decrypt_with_header(&RatchetHeader::new(0).encode(), &tampered, b"aad"),
        Err(ReceiveError::Decryption)
    ));
    assert_eq!(receiver.expected_counter(), 0);
    assert_eq!(receiver.skipped_count(), 0);
    assert_eq!(receiver.decrypt_with_header(&RatchetHeader::new(0).encode(), &valid, b"aad").unwrap(), b"message");
}

#[test]
fn snapshot_round_trip_preserves_skipped_keys() {
    let root = [21u8; 32];
    let mut sender = RatchetState::from_root(root).unwrap();
    let p0 = sender.encrypt(b"zero", b"aad").unwrap();
    let p1 = sender.encrypt(b"one", b"aad").unwrap();
    let mut receiver = ReceiveRatchet::from_root(root).unwrap();
    receiver.decrypt_with_header(&RatchetHeader::new(1).encode(), &p1, b"aad").unwrap();
    let snapshot = receiver.snapshot().unwrap();
    let mut restored = ReceiveRatchet::from_snapshot(&snapshot).unwrap();
    assert_eq!(restored.expected_counter(), receiver.expected_counter());
    assert_eq!(restored.skipped_count(), 1);
    assert_eq!(restored.decrypt_with_header(&RatchetHeader::new(0).encode(), &p0, b"aad").unwrap(), b"zero");
}

#[test]
fn snapshot_rejects_trailing_duplicate_and_wrong_version() {
    let receiver = ReceiveRatchet::from_root([22u8; 32]).unwrap();
    let snapshot = receiver.snapshot().unwrap();
    let mut trailing = snapshot.clone();
    trailing.push(1);
    assert!(matches!(ReceiveRatchet::from_snapshot(&trailing), Err(ReceiveSnapshotError::InvalidLength)));
    let mut wrong = snapshot.clone();
    wrong[5] = 2;
    assert!(matches!(ReceiveRatchet::from_snapshot(&wrong), Err(ReceiveSnapshotError::InvalidVersion)));

    let mut duplicate = receiver.snapshot().unwrap();
    duplicate[14] = 0;
    duplicate[15] = 2;
    duplicate.extend_from_slice(&0u64.to_be_bytes());
    duplicate.extend_from_slice(&[1u8; 32]);
    duplicate.extend_from_slice(&0u64.to_be_bytes());
    duplicate.extend_from_slice(&[2u8; 32]);
    assert!(matches!(ReceiveRatchet::from_snapshot(&duplicate), Err(ReceiveSnapshotError::DuplicateCounter)));
}

#[test]
fn receiver_accepts_messages_within_the_skip_window_only() {
    let mut receiver = ReceiveRatchet::from_root([23u8; 32]).unwrap();
    assert!(receiver.key_for(MAX_SKIP).is_ok());
    assert_eq!(receiver.expected_counter(), MAX_SKIP + 1);
    assert_eq!(receiver.skipped_count(), MAX_SKIP as usize);
    assert!(matches!(receiver.key_for(3), Ok(_)));
    assert!(matches!(receiver.key_for(3), Err(ReceiveError::Replay)));
    assert_eq!(receiver.skipped_count(), MAX_SKIP as usize - 1);
}
