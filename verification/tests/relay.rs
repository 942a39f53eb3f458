use nexa::protocol::EncryptedMessage;
use nexa::relay::{PushResult, RelayStore, MAX_PER_DEVICE, MAX_TOTAL_MESSAGES, OFFLINE_TTL_MS, MAX_CLOCK_SKEW_MS};

const NOW: u64 = 1_700_000_000_000;

fn message(id: u8) -> EncryptedMessage {
    EncryptedMessage::new([id; 16], [2; 16], [3; 16], [4; 16], vec![5], vec![6], NOW)
}

#[test]
fn duplicate_message_is_not_queued_twice() {
    let mut store = RelayStore::default();
    assert_eq!(store.push(message(1), NOW), PushResult::Accepted);
    assert_eq!(store.push(message(1), NOW), PushResult::Duplicate);
    assert_eq!(store.pull([4; 16], NOW).len(), 1);
}

#[test]
fn ack_removes_only_matching_message() {
    let mut store = RelayStore::default();
    store.push(message(1), NOW);
    store.push(message(2), NOW);
    assert!(!store.ack([4; 16], [9; 16]));
    assert!(store.ack([4; 16], [1; 16]));
    assert_eq!(store.pull([4; 16], NOW).len(), 1);
}

#[test]
fn invalid_messages_are_rejected() {
    let mut store = RelayStore::default();
    let mut msg = message(1);
    msg.ciphertext.clear();
    assert_eq!(store.push(msg, NOW), PushResult::Invalid);
}

#[test]
fn pull_does_not_delete_before_ack() {
    let mut store = RelayStore::default();
    store.push(message(1), NOW);
    assert_eq!(store.pull([4; 16], NOW).len(), 1);
    assert_eq!(store.pull([4; 16], NOW).len(), 1);
}

#[test]
fn per_device_limit_is_enforced() {
    let mut store = RelayStore::default();
    for id in 1u16..=(MAX_PER_DEVICE as u16) {
        let mut msg = message((id & 0xff) as u8);
        msg.message_id = (id as u128).to_be_bytes();
        assert_eq!(store.push(msg, NOW), PushResult::Accepted);
    }
    let mut extra = message(0);
    extra.message_id = (257u128).to_be_bytes();
    assert_eq!(store.push(extra, NOW), PushResult::Full);
}

#[test]
fn global_message_limit_is_enforced_without_unbounded_growth() {
    let mut store = RelayStore::default();
    for id in 1..=MAX_TOTAL_MESSAGES {
        let mut msg = message((id % 255 + 1) as u8);
        msg.recipient_device_id = (id as u128).to_be_bytes();
        msg.message_id = (id as u128).to_be_bytes();
        assert_eq!(store.push(msg, NOW), PushResult::Accepted);
    }
    let mut extra = message(1);
    extra.message_id = (MAX_TOTAL_MESSAGES as u128 + 1).to_be_bytes();
    extra.recipient_device_id = (MAX_TOTAL_MESSAGES as u128 + 1).to_be_bytes();
    assert_eq!(store.push(extra, NOW), PushResult::Full);
}

#[test]
fn pulled_messages_are_copies_in_arrival_order() {
    let mut store = RelayStore::default();
    store.push(message(1), NOW);
    store.push(message(2), NOW);
    let pulled = store.pull([4; 16], NOW);
    assert_eq!(pulled, vec![message(1), message(2)]);
    assert!(store.pull([5; 16], NOW).is_empty());
}

#[test]
fn messages_outside_the_time_window_are_invalid() {
    let mut store = RelayStore::default();
    let mut future = message(1);
    future.sent_at_ms = NOW + MAX_CLOCK_SKEW_MS + 1;
    assert_eq!(store.push(future, NOW), PushResult::Invalid);
    let mut stale = message(2);
    stale.sent_at_ms = NOW - OFFLINE_TTL_MS - 1;
    assert_eq!(store.push(stale, NOW), PushResult::Invalid);
    let mut edge = message(3);
    edge.sent_at_ms = NOW + MAX_CLOCK_SKEW_MS;
    assert_eq!(store.push(edge, NOW), PushResult::Accepted);
}

#[test]
fn expired_messages_are_dropped_and_their_id_can_be_reused() {
    let mut store = RelayStore::default();
    store.push(message(1), NOW);
    let later = NOW + OFFLINE_TTL_MS;
    assert!(store.pull([4; 16], later).is_empty());
    let mut again = message(1);
    again.sent_at_ms = later;
    assert_eq!(store.push(again, later), PushResult::Accepted);
    assert_eq!(store.pull([4; 16], later).len(), 1);
}

#[test]
fn zero_identifiers_are_invalid() {
    let mut store = RelayStore::default();
    let mut msg = message(1);
    msg.recipient_device_id = [0; 16];
    assert_eq!(store.push(msg, NOW), PushResult::Invalid);
    let mut msg = message(1);
    msg.ratchet_header.clear();
    assert_eq!(store.push(msg, NOW), PushResult::Invalid);
}
