use nexa::transport::{Frame, FrameError, FrameKind, OutboundQueue, QueueError, MAX_FRAME, MAX_QUEUE, PROTOCOL_VERSION};

#[test]
fn frame_validates() {
    let frame = Frame::new(1, 0, b"ciphertext".to_vec()).unwrap();
    assert!(frame.validate().is_ok());
}

#[test]
fn queue_is_bounded() {
    let mut q = OutboundQueue::new(1);
    let f = Frame::new(1, 0, vec![1]).unwrap();
    q.push(f.clone()).unwrap();
    assert_eq!(q.push(f), Err(QueueError::Full));
    assert_eq!(q.len(), 1);
    assert!(q.pop().is_some());
    assert!(q.is_empty());
}

#[test]
fn rejects_oversized_frame() {
    assert_eq!(Frame::new(1, 0, vec![0; MAX_FRAME + 1]), Err(FrameError::PayloadTooLarge));
}

#[test]
fn empty_and_inconsistent_frames_are_invalid() {
    assert_eq!(Frame::new(1, 0, vec![]), Err(FrameError::EmptyPayload));
    let mut frame = Frame::new(1, 0, vec![1, 2]).unwrap();
    frame.header.payload_len = 3;
    assert_eq!(frame.validate(), Err(FrameError::LengthMismatch));
    frame.header.version = PROTOCOL_VERSION + 1;
    assert_eq!(frame.validate(), Err(FrameError::InvalidVersion));
}

#[test]
fn frame_binary_form_round_trips() {
    let frame = Frame::new(FrameKind::Ping.code(), 3, vec![9, 8, 7]).unwrap();
    let bytes = frame.to_bytes().unwrap();
    assert_eq!(bytes, vec![0, 1, 7, 3, 0, 0, 0, 3, 9, 8, 7]);
    assert_eq!(Frame::from_bytes(&bytes).unwrap(), frame);
    assert_eq!(frame.kind(), Ok(FrameKind::Ping));
    assert_eq!(Frame::from_bytes(&bytes[..7]), Err(FrameError::Truncated));
    assert_eq!(Frame::from_bytes(&bytes[..10]), Err(FrameError::LengthMismatch));
    assert_eq!(Frame::from_bytes(&bytes[..8]), Err(FrameError::EmptyPayload));
    let unknown = Frame::new(200, 0, vec![1]).unwrap();
    assert_eq!(unknown.kind(), Err(FrameError::UnknownKind));
}

#[test]
fn queue_is_first_in_first_out_and_capped() {
    let mut q = OutboundQueue::new(MAX_QUEUE + 5);
    let a = Frame::new(1, 0, vec![1]).unwrap();
    let b = Frame::new(2, 0, vec![2]).unwrap();
    q.push(a.clone()).unwrap();
    q.push(b.clone()).unwrap();
    assert_eq!(q.pop(), Some(a));
    assert_eq!(q.pop(), Some(b));
    assert_eq!(q.pop(), None);
    for i in 0..MAX_QUEUE {
        q.push(Frame::new(1, 0, vec![(i % 256) as u8]).unwrap()).unwrap();
    }
    assert_eq!(q.push(Frame::new(1, 0, vec![0]).unwrap()), Err(QueueError::Full));
    assert_eq!(q.len(), MAX_QUEUE);
}
