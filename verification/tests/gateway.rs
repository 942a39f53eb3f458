use nexa::gateway::{ack_status, hex_to_16, push_status, ws_step, WsAction, WsEvent, WS_IDLE_TIMEOUT_MS, WS_MAX_MESSAGE};
use nexa::relay::PushResult;
use nexa::transport::{Frame, FrameKind};

#[test]
fn hex_identifiers_are_read_pair_by_pair() {
    assert_eq!(hex_to_16(b"000102030405060708090a0b0c0d0eFF"), Some([0, 1, 2, 3, 4, 5, 6, 7, 8, 9, 10, 11, 12, 13, 14, 255]));
    assert_eq!(hex_to_16(b"0001"), None);
    assert_eq!(hex_to_16(b"zz0102030405060708090a0b0c0d0e0f"), None);
    assert_eq!(hex_to_16(b"+a0102030405060708090a0b0c0d0e0f"), Some([10, 1, 2, 3, 4, 5, 6, 7, 8, 9, 10, 11, 12, 13, 14, 15]));
}

#[test]
fn statuses_match_outcomes() {
    assert_eq!(push_status(PushResult::Accepted), 202);
    assert_eq!(push_status(PushResult::Duplicate), 409);
    assert_eq!(push_status(PushResult::Invalid), 400);
    assert_eq!(push_status(PushResult::Full), 429);
    assert_eq!(ack_status(true), 204);
    assert_eq!(ack_status(false), 404);
}

#[test]
fn ping_frame_is_answered_with_pong_frame() {
    let ping = Frame::new(FrameKind::Ping.code(), 5, vec![1, 2, 3]).unwrap().to_bytes().unwrap();
    let pong = Frame::new(FrameKind::Pong.code(), 0, vec![1, 2, 3]).unwrap().to_bytes().unwrap();
    match ws_step(WsEvent::Binary(ping)) {
        WsAction::SendBinary(bytes) => assert_eq!(bytes, pong),
        _ => panic!("a ping frame must be answered"),
    }
}

#[test]
fn websocket_decisions() {
    let opaque = Frame::new(FrameKind::EncryptedMessage.code(), 0, vec![9]).unwrap().to_bytes().unwrap();
    assert!(matches!(ws_step(WsEvent::Binary(opaque)), WsAction::Continue));
    let unknown = Frame::new(99, 0, vec![9]).unwrap().to_bytes().unwrap();
    assert!(matches!(ws_step(WsEvent::Binary(unknown)), WsAction::Stop));
    assert!(matches!(ws_step(WsEvent::Binary(vec![0, 1, 2])), WsAction::Close));
    assert!(matches!(ws_step(WsEvent::Binary(vec![0; WS_MAX_MESSAGE + 1])), WsAction::Close));
    assert!(matches!(ws_step(WsEvent::Text), WsAction::Close));
    assert!(matches!(ws_step(WsEvent::Close), WsAction::Stop));
    assert!(matches!(ws_step(WsEvent::Pong), WsAction::Continue));
    match ws_step(WsEvent::Ping(vec![4, 5])) {
        WsAction::SendPong(bytes) => assert_eq!(bytes, vec![4, 5]),
        _ => panic!("a websocket ping must be answered"),
    }
}

#[test]
fn idle_socket_is_closed_after_the_timeout() {
    assert_eq!(WS_IDLE_TIMEOUT_MS, 90_000);
    assert!(matches!(ws_step(WsEvent::Idle(89_999)), WsAction::Continue));
    assert!(matches!(ws_step(WsEvent::Idle(90_000)), WsAction::Close));
    assert!(matches!(ws_step(WsEvent::Idle(u64::MAX)), WsAction::Close));
}
