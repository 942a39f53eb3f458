//! Transport framing: a versioned frame header over an opaque payload, its
//! binary form, and a bounded outbound queue. The transport never
//! interprets plaintext.
use vstd::prelude::*;
use crate::wire::{
    be16, be32, read_be16, read_be32, push_be16, push_be32, push_bytes, copy_range, get_be16, get_be32,
    lemma_be16_round_trip, lemma_be32_round_trip, lemma_read_be16_canonical, lemma_read_be32_canonical,
};
use std::collections::VecDeque;

verus! {

pub const PROTOCOL_VERSION: u16 = 1;

/// Largest payload a frame carries.
pub const MAX_FRAME: usize = 16777216;

/// Largest capacity of an outbound queue.
pub const MAX_QUEUE: usize = 1024;

/// Bytes of a frame header on the wire: version, kind, flags, payload length.
pub const FRAME_HEADER_LEN: usize = 8;

#[derive(Debug, Clone, Copy, PartialEq, Eq)]
pub struct FrameHeader {
    pub version: u16,
    pub kind: u8,
    pub flags: u8,
    pub payload_len: u32,
}

#[derive(Debug, Clone, PartialEq, Eq)]
pub struct Frame {
    pub header: FrameHeader,
    pub payload: Vec<u8>,
}

#[derive(Debug, Clone, Copy, PartialEq, Eq)]
pub enum FrameError {
    InvalidVersion,
    EmptyPayload,
    PayloadTooLarge,
    LengthMismatch,
    Truncated,
    UnknownKind,
}

/// What a frame carries; the payload itself stays opaque.
#[derive(Debug, Clone, Copy, PartialEq, Eq)]
pub enum FrameKind {
    ClientHello,
    EncryptedMessage,
    MessageAck,
    MessageBatch,
    PreKeyBundle,
    PreKeyRequest,
    Ping,
    Pong,
}

/// The header byte of each frame kind.
pub open spec fn kind_code(k: FrameKind) -> u8 {
    match k {
        FrameKind::ClientHello => 1,
        FrameKind::EncryptedMessage => 2,
        FrameKind::MessageAck => 3,
        FrameKind::MessageBatch => 4,
        FrameKind::PreKeyBundle => 5,
        FrameKind::PreKeyRequest => 6,
        FrameKind::Ping => 7,
        FrameKind::Pong => 8,
    }
}

/// The frame kind of a header byte, if it names one.
pub open spec fn kind_of_code(c: u8) -> Option<FrameKind> {
    if c == 1 {
        Some(FrameKind::ClientHello)
    } else if c == 2 {
        Some(FrameKind::EncryptedMessage)
    } else if c == 3 {
        Some(FrameKind::MessageAck)
    } else if c == 4 {
        Some(FrameKind::MessageBatch)
    } else if c == 5 {
        Some(FrameKind::PreKeyBundle)
    } else if c == 6 {
        Some(FrameKind::PreKeyRequest)
    } else if c == 7 {
        Some(FrameKind::Ping)
    } else if c == 8 {
        Some(FrameKind::Pong)
    } else {
        None
    }
}

impl FrameKind {
    /// The header byte of this kind.
    pub fn code(self) -> (c: u8)
        ensures
            c == kind_code(self),
            kind_of_code(c) == Some(self),
    {
        match self {
            FrameKind::ClientHello => 1,
            FrameKind::EncryptedMessage => 2,
            FrameKind::MessageAck => 3,
            FrameKind::MessageBatch => 4,
            FrameKind::PreKeyBundle => 5,
            FrameKind::PreKeyRequest => 6,
            FrameKind::Ping => 7,
            FrameKind::Pong => 8,
        }
    }
}

/// Mathematical value of a [`Frame`].
pub struct FrameView {
    pub header: FrameHeader,
    pub payload: Seq<u8>,
}

impl View for Frame {
    type V = FrameView;

    open spec fn view(&self) -> FrameView {
        FrameView { header: self.header, payload: self.payload@ }
    }
}

/// The first check a frame fails: version, empty payload, oversized
/// payload, then a header length that disagrees with the payload.
pub open spec fn frame_error(f: FrameView) -> Option<FrameError> {
    if f.header.version != PROTOCOL_VERSION {
        Some(FrameError::InvalidVersion)
    } else if f.payload.len() == 0 {
        Some(FrameError::EmptyPayload)
    } else if f.payload.len() > MAX_FRAME {
        Some(FrameError::PayloadTooLarge)
    } else if f.header.payload_len as int != f.payload.len() {
        Some(FrameError::LengthMismatch)
    } else {
        None
    }
}

/// The binary form of a frame: version (u16 BE), kind, flags, payload
/// length (u32 BE), then the payload.
pub open spec fn frame_bytes(f: FrameView) -> Seq<u8> {
    be16(f.header.version) + seq![f.header.kind, f.header.flags] + be32(f.header.payload_len) + f.payload
}

/// The frame read from `bytes`: the header from the first eight bytes and
/// the payload from the rest, refused with the first check it fails.
pub open spec fn parse_frame(bytes: Seq<u8>) -> Result<FrameView, FrameError> {
    if bytes.len() < FRAME_HEADER_LEN {
        Err(FrameError::Truncated)
    } else {
        let f = FrameView {
            header: FrameHeader {
                version: read_be16(bytes, 0),
                kind: bytes[2],
                flags: bytes[3],
                payload_len: read_be32(bytes, 4),
            },
            payload: bytes.subrange(FRAME_HEADER_LEN as int, bytes.len() as int),
        };
        match frame_error(f) {
            Some(e) => Err(e),
            None => Ok(f),
        }
    }
}

impl Frame {
    /// A current-version frame around a non-empty payload of at most
    /// [`MAX_FRAME`] bytes.
    pub fn new(kind: u8, flags: u8, payload: Vec<u8>) -> (r: Result<Self, FrameError>)
        ensures
            payload@.len() == 0 ==> r == Err::<Frame, FrameError>(FrameError::EmptyPayload),
            payload@.len() > MAX_FRAME ==> r == Err::<Frame, FrameError>(FrameError::PayloadTooLarge),
            0 < payload@.len() <= MAX_FRAME ==> r is Ok && r->Ok_0.header == (FrameHeader {
                version: PROTOCOL_VERSION,
                kind,
                flags,
                payload_len: payload@.len() as u32,
            }) && r->Ok_0.payload@ == payload@,
            r is Ok ==> frame_error(r->Ok_0@) is None,
    {
        if payload.len() == 0 {
            return Err(FrameError::EmptyPayload);
        }
        if payload.len() > MAX_FRAME {
            return Err(FrameError::PayloadTooLarge);
        }
        let payload_len = payload.len() as u32;
        Ok(Frame { header: FrameHeader { version: PROTOCOL_VERSION, kind, flags, payload_len }, payload })
    }

    pub fn validate(&self) -> (r: Result<(), FrameError>)
        ensures
            match frame_error(self@) {
                Some(e) => r == Err::<(), FrameError>(e),
                None => r is Ok,
            },
    {
        if self.header.version != PROTOCOL_VERSION {
            return Err(FrameError::InvalidVersion);
        }
        if self.payload.len() == 0 {
            return Err(FrameError::EmptyPayload);
        }
        if self.payload.len() > MAX_FRAME {
            return Err(FrameError::PayloadTooLarge);
        }
        if self.header.payload_len as usize != self.payload.len() {
            return Err(FrameError::LengthMismatch);
        }
        Ok(())
    }

    /// The kind named by the header byte.
    pub fn kind(&self) -> (r: Result<FrameKind, FrameError>)
        ensures
            match kind_of_code(self.header.kind) {
                Some(k) => r == Ok::<FrameKind, FrameError>(k),
                None => r == Err::<FrameKind, FrameError>(FrameError::UnknownKind),
            },
    {
        let c = self.header.kind;
        if c == 1 {
            Ok(FrameKind::ClientHello)
        } else if c == 2 {
            Ok(FrameKind::EncryptedMessage)
        } else if c == 3 {
            Ok(FrameKind::MessageAck)
        } else if c == 4 {
            Ok(FrameKind::MessageBatch)
        } else if c == 5 {
            Ok(FrameKind::PreKeyBundle)
        } else if c == 6 {
            Ok(FrameKind::PreKeyRequest)
        } else if c == 7 {
            Ok(FrameKind::Ping)
        } else if c == 8 {
            Ok(FrameKind::Pong)
        } else {
            Err(FrameError::UnknownKind)
        }
    }

    /// The binary form of a valid frame.
    pub fn to_bytes(&self) -> (r: Result<Vec<u8>, FrameError>)
        ensures
            match frame_error(self@) {
                Some(e) => r == Err::<Vec<u8>, FrameError>(e),
                None => r is Ok && r->Ok_0@ == frame_bytes(self@),
            },
    {
        match self.validate() {
            Err(e) => return Err(e),
            Ok(()) => {},
        }
        let mut out: Vec<u8> = Vec::new();
        push_be16(&mut out, self.header.version);
        out.push(self.header.kind);
        out.push(self.header.flags);
        push_be32(&mut out, self.header.payload_len);
        push_bytes(&mut out, self.payload.as_slice());
        assert(out@ =~= frame_bytes(self@));
        Ok(out)
    }

    /// Reads a frame from its binary form and validates it.
    pub fn from_bytes(bytes: &[u8]) -> (r: Result<Self, FrameError>)
        ensures
            match parse_frame(bytes@) {
                Ok(f) => r is Ok && r->Ok_0@ == f,
                Err(e) => r == Err::<Frame, FrameError>(e),
            },
    {
        if bytes.len() < FRAME_HEADER_LEN {
            return Err(FrameError::Truncated);
        }
        let header = FrameHeader {
            version: get_be16(bytes, 0),
            kind: bytes[2],
            flags: bytes[3],
            payload_len: get_be32(bytes, 4),
        };
        let frame = Frame { header, payload: copy_range(bytes, FRAME_HEADER_LEN, bytes.len()) };
        match frame.validate() {
            Err(e) => Err(e),
            Ok(()) => Ok(frame),
        }
    }
}

/// A valid frame reads back from its binary form unchanged.
pub proof fn lemma_frame_round_trip(f: FrameView)
    requires
        frame_error(f) is None,
    ensures
        parse_frame(frame_bytes(f)) == Ok::<FrameView, FrameError>(f),
{
    let b = frame_bytes(f);
    lemma_be16_round_trip(f.header.version);
    lemma_be32_round_trip(f.header.payload_len);
    assert(b.subrange(0, 2) =~= be16(f.header.version));
    assert(read_be16(b, 0) == read_be16(be16(f.header.version), 0));
    assert(b.subrange(4, 8) =~= be32(f.header.payload_len));
    assert(read_be32(b, 4) == read_be32(be32(f.header.payload_len), 0));
    assert(b.subrange(8, b.len() as int) =~= f.payload);
}

/// The binary form is canonical: bytes that read as a frame are exactly
/// that frame's binary form.
pub proof fn lemma_frame_bytes_canonical(bytes: Seq<u8>)
    requires
        parse_frame(bytes) is Ok,
    ensures
        frame_bytes(parse_frame(bytes)->Ok_0) == bytes,
{
    let f = parse_frame(bytes)->Ok_0;
    lemma_read_be16_canonical(bytes, 0);
    lemma_read_be32_canonical(bytes, 4);
    assert(frame_bytes(f) =~= bytes);
}

#[derive(Debug, Clone, Copy, PartialEq, Eq)]
pub enum QueueError {
    Full,
}

/// Bounded outbound queue. Dropping messages is explicit: callers decide
/// whether to retry.
pub struct OutboundQueue {
    inner: VecDeque<Frame>,
    capacity: usize,
}

impl OutboundQueue {
    /// The queued frames, oldest first.
    pub closed spec fn frames(&self) -> Seq<Frame> {
        self.inner@
    }

    /// How many frames the queue holds at most.
    pub closed spec fn capacity(&self) -> usize {
        self.capacity
    }

    /// The queue never holds more than its capacity, which never exceeds
    /// [`MAX_QUEUE`].
    pub closed spec fn wf(&self) -> bool {
        self.inner@.len() <= self.capacity <= MAX_QUEUE
    }

    /// An empty queue holding at most `capacity` frames, capped at
    /// [`MAX_QUEUE`].
    pub fn new(capacity: usize) -> (q: Self)
        ensures
            q.wf(),
            q.frames() == Seq::<Frame>::empty(),
            q.capacity() == if capacity < MAX_QUEUE { capacity } else { MAX_QUEUE },
    {
        let capacity = if capacity < MAX_QUEUE { capacity } else { MAX_QUEUE };
        OutboundQueue { inner: VecDeque::new(), capacity }
    }

    /// Appends a frame, or refuses with `Full` and changes nothing.
    pub fn push(&mut self, frame: Frame) -> (r: Result<(), QueueError>)
        requires
            old(self).wf(),
        ensures
            final(self).wf(),
            final(self).capacity() == old(self).capacity(),
            old(self).frames().len() >= old(self).capacity() ==> r == Err::<(), QueueError>(QueueError::Full)
                && final(self).frames() == old(self).frames(),
            old(self).frames().len() < old(self).capacity() ==> r is Ok && final(self).frames() == old(
                self,
            ).frames().push(frame),
    {
        if self.inner.len() >= self.capacity {
            return Err(QueueError::Full);
        }
        self.inner.push_back(frame);
        Ok(())
    }

    /// Takes the oldest frame.
    pub fn pop(&mut self) -> (r: Option<Frame>)
        requires
            old(self).wf(),
        ensures
            final(self).wf(),
            final(self).capacity() == old(self).capacity(),
            old(self).frames().len() == 0 ==> r is None && final(self).frames() == old(self).frames(),
            old(self).frames().len() > 0 ==> r == Some(old(self).frames()[0]) && final(self).frames() == old(
                self,
            ).frames().drop_first(),
    {
        self.inner.pop_front()
    }

    pub fn len(&self) -> (n: usize)
        ensures
            n == self.frames().len(),
    {
        self.inner.len()
    }

    pub fn is_empty(&self) -> (b: bool)
        ensures
            b == (self.frames().len() == 0),
    {
        self.inner.len() == 0
    }

    /// In every state the queue holds at most its capacity, and the capacity
    /// is at most [`MAX_QUEUE`].
    pub proof fn lemma_queue_bounded(&self)
        requires
            self.wf(),
        ensures
            self.frames().len() <= self.capacity() <= MAX_QUEUE,
    {
    }
}

/// Frames leave the queue in the order they entered: after pushing `x`
/// onto a non-empty queue, the next frame out is still the oldest one, and
/// `x` comes out after all frames that were queued before it.
pub proof fn lemma_queue_first_in_first_out(frames: Seq<Frame>, x: Frame)
    ensures
        frames.len() > 0 ==> frames.push(x)[0] == frames[0] && frames.push(x).drop_first() == frames.drop_first().push(
            x,
        ),
        frames.len() == 0 ==> frames.push(x)[0] == x,
{
    if frames.len() > 0 {
        assert(frames.push(x).drop_first() =~= frames.drop_first().push(x));
    }
}

} // verus!
