//! The gateway's request decisions: reading hex identifiers from request
//! paths, the HTTP status of each outcome, and what a WebSocket session
//! does with each message it receives. The gateway validates the binary
//! transport frame and never decrypts a payload.
use vstd::prelude::*;
use crate::auth::{hex_digit, hex_nibble, AuthError};
use crate::relay::PushResult;
use crate::transport::{
    Frame, FrameKind, FrameView, FrameHeader, MAX_FRAME, PROTOCOL_VERSION, parse_frame, frame_bytes, kind_of_code,
    kind_code,
};

verus! {

/// Largest WebSocket message the gateway accepts: a frame header and a
/// payload of at most [`MAX_FRAME`] bytes.
pub const WS_MAX_MESSAGE: usize = 16777224;

/// How long a WebSocket may stay silent before the gateway closes it.
pub const WS_IDLE_TIMEOUT_MS: u64 = 90000;

/// The byte two characters of a path segment stand for, read the way
/// `u8::from_str_radix(_, 16)` reads them: two hex digits, or a `+` sign
/// followed by one.
pub open spec fn hex_pair(c0: u8, c1: u8) -> Option<u8> {
    if c0 == 43 {
        hex_digit(c1)
    } else {
        match (hex_digit(c0), hex_digit(c1)) {
            (Some(h), Some(l)) => Some((h * 16 + l) as u8),
            _ => None,
        }
    }
}

/// Whether a byte continues a multi-byte UTF-8 character.
pub open spec fn utf8_continuation(b: u8) -> bool {
    128 <= b <= 191
}

/// Whether every two-character pair of a 32-byte segment starts on a
/// character boundary (a segment whose pairs split a character cannot be
/// read pair by pair).
pub open spec fn pairs_on_boundaries(s: Seq<u8>) -> bool {
    forall|k: int| 0 <= k < 16 ==> !utf8_continuation(#[trigger] s[2 * k])
}

/// The 16 bytes a 32-character path segment stands for, pair by pair.
pub open spec fn hex16(s: Seq<u8>) -> Option<Seq<u8>> {
    if s.len() == 32 && forall|k: int| 0 <= k < 16 ==> (#[trigger] hex_pair(s[2 * k], s[2 * k + 1])) is Some {
        Some(Seq::new(16, |k: int| hex_pair(s[2 * k], s[2 * k + 1])->Some_0))
    } else {
        None
    }
}

fn hex_pair_of(c0: u8, c1: u8) -> (r: Option<u8>)
    ensures
        r == hex_pair(c0, c1),
{
    if c0 == 43 {
        return hex_nibble(c1);
    }
    match (hex_nibble(c0), hex_nibble(c1)) {
        (Some(h), Some(l)) => Some(h * 16 + l),
        _ => None,
    }
}

/// Reads a 16-byte identifier written as 32 hex characters (the bytes of a
/// request path segment); `None` for any other length or a pair that is not
/// a hex byte.
pub fn hex_to_16(input: &[u8]) -> (r: Option<[u8; 16]>)
    requires
        input@.len() == 32 ==> pairs_on_boundaries(input@),
    ensures
        match hex16(input@) {
            Some(v) => r is Some && r->Some_0@ == v,
            None => r is None,
        },
{
    if input.len() != 32 {
        return None;
    }
    let mut out = [0u8; 16];
    let mut i: usize = 0;
    while i < 16
        invariant
            i <= 16,
            input@.len() == 32,
            forall|k: int| 0 <= k < i ==> (#[trigger] hex_pair(input@[2 * k], input@[2 * k + 1])) is Some,
            forall|k: int| 0 <= k < i ==> out@[k] == hex_pair(input@[2 * k], input@[2 * k + 1])->Some_0,
        decreases 16 - i,
    {
        match hex_pair_of(input[2 * i], input[2 * i + 1]) {
            Some(b) => {
                out[i] = b;
            },
            None => {
                assert(!(forall|k: int| 0 <= k < 16 ==> (#[trigger] hex_pair(input@[2 * k], input@[2 * k + 1])) is Some)) by {
                    assert(hex_pair(input@[2 * (i as int)], input@[2 * (i as int) + 1]) is None);
                }
                return None;
            },
        }
        i = i + 1;
    }
    assert(out@ =~= Seq::new(16, |k: int| hex_pair(input@[2 * k], input@[2 * k + 1])->Some_0));
    Some(out)
}

/// The HTTP status a relay push is answered with.
pub open spec fn push_status_spec(r: PushResult) -> u16 {
    match r {
        PushResult::Accepted => 202,
        PushResult::Duplicate => 409,
        PushResult::Invalid => 400,
        PushResult::Full => 429,
    }
}

/// The HTTP status of a relay push: accepted, conflict for a duplicate, bad
/// request for an invalid message, too many requests when the relay is full.
pub fn push_status(r: PushResult) -> (s: u16)
    ensures
        s == push_status_spec(r),
{
    match r {
        PushResult::Accepted => 202,
        PushResult::Duplicate => 409,
        PushResult::Invalid => 400,
        PushResult::Full => 429,
    }
}

/// The HTTP status of a refused request: too many requests when rate
/// limited, unauthorized otherwise.
pub fn auth_status(e: AuthError) -> (s: u16)
    ensures
        s == (if e == AuthError::RateLimited { 429u16 } else { 401u16 }),
{
    match e {
        AuthError::MissingHeader
        | AuthError::InvalidHeader
        | AuthError::InvalidTimestamp
        | AuthError::InvalidDevice
        | AuthError::InvalidSignature
        | AuthError::Replay => 401,
        AuthError::RateLimited => 429,
    }
}

/// The HTTP status of an acknowledgement: no content when the message was
/// deleted, not found otherwise.
pub fn ack_status(removed: bool) -> (s: u16)
    ensures
        s == (if removed { 204u16 } else { 404u16 }),
{
    if removed {
        204
    } else {
        404
    }
}

/// What arrives on a gateway WebSocket.
pub enum WsEvent {
    Binary(Vec<u8>),
    Text,
    Ping(Vec<u8>),
    Pong,
    Close,
    /// No message arrived for this many milliseconds since the last one.
    Idle(u64),
}

/// What the session does next: keep reading, send a binary message or a
/// WebSocket pong (and stop if sending fails), close the socket and stop,
/// or stop without a word.
pub enum WsAction {
    Continue,
    SendBinary(Vec<u8>),
    SendPong(Vec<u8>),
    Close,
    Stop,
}

/// Mathematical value of a [`WsEvent`].
pub enum WsEventView {
    Binary(Seq<u8>),
    Text,
    Ping(Seq<u8>),
    Pong,
    Close,
    Idle(u64),
}

/// Mathematical value of a [`WsAction`].
pub enum WsActionView {
    Continue,
    SendBinary(Seq<u8>),
    SendPong(Seq<u8>),
    Close,
    Stop,
}

impl View for WsEvent {
    type V = WsEventView;

    open spec fn view(&self) -> WsEventView {
        match self {
            WsEvent::Binary(b) => WsEventView::Binary(b@),
            WsEvent::Text => WsEventView::Text,
            WsEvent::Ping(b) => WsEventView::Ping(b@),
            WsEvent::Pong => WsEventView::Pong,
            WsEvent::Close => WsEventView::Close,
            WsEvent::Idle(ms) => WsEventView::Idle(*ms),
        }
    }
}

impl View for WsAction {
    type V = WsActionView;

    open spec fn view(&self) -> WsActionView {
        match self {
            WsAction::Continue => WsActionView::Continue,
            WsAction::SendBinary(b) => WsActionView::SendBinary(b@),
            WsAction::SendPong(b) => WsActionView::SendPong(b@),
            WsAction::Close => WsActionView::Close,
            WsAction::Stop => WsActionView::Stop,
        }
    }
}

/// The pong frame answering a ping frame: same payload, no flags.
pub open spec fn pong_for(ping: FrameView) -> FrameView {
    FrameView {
        header: FrameHeader {
            version: PROTOCOL_VERSION,
            kind: kind_code(FrameKind::Pong),
            flags: 0,
            payload_len: ping.payload.len() as u32,
        },
        payload: ping.payload,
    }
}

/// The session's answer to one message: an oversized or malformed binary
/// message or a text message closes the socket; a frame of unknown kind
/// ends the session; a ping frame is answered with a pong frame carrying
/// the same payload; other frames stay opaque and are left alone; a
/// WebSocket ping is answered with a pong; a close ends the session; a
/// silence of [`WS_IDLE_TIMEOUT_MS`] or more closes the socket.
pub open spec fn ws_decision(e: WsEventView) -> WsActionView {
    match e {
        WsEventView::Binary(b) => if b.len() > WS_MAX_MESSAGE {
            WsActionView::Close
        } else {
            match parse_frame(b) {
                Err(_) => WsActionView::Close,
                Ok(f) => match kind_of_code(f.header.kind) {
                    None => WsActionView::Stop,
                    Some(FrameKind::Ping) => WsActionView::SendBinary(frame_bytes(pong_for(f))),
                    Some(_) => WsActionView::Continue,
                },
            }
        },
        WsEventView::Text => WsActionView::Close,
        WsEventView::Ping(b) => WsActionView::SendPong(b),
        WsEventView::Pong => WsActionView::Continue,
        WsEventView::Close => WsActionView::Stop,
        WsEventView::Idle(ms) => if ms >= WS_IDLE_TIMEOUT_MS {
            WsActionView::Close
        } else {
            WsActionView::Continue
        },
    }
}

/// Decides what the session does with one received message.
pub fn ws_step(event: WsEvent) -> (a: WsAction)
    ensures
        a@ == ws_decision(event@),
{
    match event {
        WsEvent::Binary(bytes) => {
            if bytes.len() > WS_MAX_MESSAGE {
                return WsAction::Close;
            }
            let frame = match Frame::from_bytes(bytes.as_slice()) {
                Ok(frame) => frame,
                Err(_) => return WsAction::Close,
            };
            match frame.kind() {
                Ok(FrameKind::Ping) => {
                    let pong = Frame::new(FrameKind::Pong.code(), 0, frame.payload);
                    match pong {
                        Ok(pong) => match pong.to_bytes() {
                            Ok(out) => WsAction::SendBinary(out),
                            Err(_) => WsAction::Continue,
                        },
                        Err(_) => WsAction::Continue,
                    }
                },
                Ok(_) => WsAction::Continue,
                Err(_) => WsAction::Stop,
            }
        },
        WsEvent::Text => WsAction::Close,
        WsEvent::Ping(bytes) => WsAction::SendPong(bytes),
        WsEvent::Pong => WsAction::Continue,
        WsEvent::Close => WsAction::Stop,
        WsEvent::Idle(ms) => if ms >= WS_IDLE_TIMEOUT_MS {
            WsAction::Close
        } else {
            WsAction::Continue
        },
    }
}


/// The answer to a ping frame is a valid pong frame that reads back with
/// the ping's payload.
pub proof fn lemma_pong_answers_ping(ping: FrameView)
    requires
        crate::transport::frame_error(ping) is None,
    ensures
        parse_frame(frame_bytes(pong_for(ping))) == Ok::<FrameView, crate::transport::FrameError>(pong_for(ping)),
        kind_of_code(pong_for(ping).header.kind) == Some(FrameKind::Pong),
        pong_for(ping).payload == ping.payload,
{
    crate::transport::lemma_frame_round_trip(pong_for(ping));
}

} // verus!
