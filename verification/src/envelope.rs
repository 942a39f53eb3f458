//! Canonical wire envelope for encrypted messages. Plaintext is never
//! represented here: an envelope carries identifiers, an opaque ratchet
//! header and the ciphertext, and its associated data authenticates every
//! field but the ciphertext.
use vstd::prelude::*;
use crate::protocol::{EncryptedMessage, MessageView, ProtocolVersion, PROTOCOL_VERSION};
use crate::wire::{
    all_zero, be16, be32, be64, is_zero_id, push_be16, push_be32, push_be64, push_bytes, read_be16, read_be64,
    lemma_be16_round_trip, lemma_be64_round_trip,
};

verus! {

/// Largest ratchet header an envelope carries.
pub const MAX_HEADER: usize = 256;

/// Largest ciphertext an envelope carries.
pub const MAX_CIPHERTEXT: usize = 16777216;

#[derive(Debug, Clone, Copy, PartialEq, Eq)]
pub enum EnvelopeError {
    Decode,
    UnsupportedVersion,
    HeaderTooLarge,
    CiphertextTooLarge,
    InvalidIds,
}

#[derive(Debug, Clone, PartialEq, Eq)]
pub struct WireEnvelope {
    pub version: ProtocolVersion,
    pub message_id: [u8; 16],
    pub conversation_id: [u8; 16],
    pub sender_device_id: [u8; 16],
    pub recipient_device_id: [u8; 16],
    pub ratchet_header: Vec<u8>,
    pub ciphertext: Vec<u8>,
    pub sent_at_ms: u64,
}

impl View for WireEnvelope {
    type V = MessageView;

    open spec fn view(&self) -> MessageView {
        MessageView {
            version: self.version.0,
            message_id: self.message_id@,
            conversation_id: self.conversation_id@,
            sender_device_id: self.sender_device_id@,
            recipient_device_id: self.recipient_device_id@,
            ratchet_header: self.ratchet_header@,
            ciphertext: self.ciphertext@,
            sent_at_ms: self.sent_at_ms,
        }
    }
}

impl From<EncryptedMessage> for WireEnvelope {
    fn from(m: EncryptedMessage) -> (e: Self) {
        WireEnvelope {
            version: m.version,
            message_id: m.message_id,
            conversation_id: m.conversation_id,
            sender_device_id: m.sender_device_id,
            recipient_device_id: m.recipient_device_id,
            ratchet_header: m.ratchet_header,
            ciphertext: m.ciphertext,
            sent_at_ms: m.sent_at_ms,
        }
    }
}

impl vstd::std_specs::convert::FromSpecImpl<EncryptedMessage> for WireEnvelope {
    open spec fn obeys_from_spec() -> bool {
        true
    }

    open spec fn from_spec(m: EncryptedMessage) -> WireEnvelope {
        WireEnvelope {
            version: m.version,
            message_id: m.message_id,
            conversation_id: m.conversation_id,
            sender_device_id: m.sender_device_id,
            recipient_device_id: m.recipient_device_id,
            ratchet_header: m.ratchet_header,
            ciphertext: m.ciphertext,
            sent_at_ms: m.sent_at_ms,
        }
    }
}

/// The first check the metadata of an envelope fails, in the order version,
/// header size, identifiers; `None` when it passes.
pub open spec fn metadata_error(e: MessageView) -> Option<EnvelopeError> {
    if e.version != PROTOCOL_VERSION {
        Some(EnvelopeError::UnsupportedVersion)
    } else if e.ratchet_header.len() > MAX_HEADER {
        Some(EnvelopeError::HeaderTooLarge)
    } else if is_zero_id(e.message_id) || is_zero_id(e.conversation_id) {
        Some(EnvelopeError::InvalidIds)
    } else {
        None
    }
}

/// The first check an envelope fails: its metadata, then a ciphertext that
/// is empty or too large; `None` when it passes.
pub open spec fn envelope_error(e: MessageView) -> Option<EnvelopeError> {
    match metadata_error(e) {
        Some(err) => Some(err),
        None => if e.ciphertext.len() == 0 || e.ciphertext.len() > MAX_CIPHERTEXT {
            Some(EnvelopeError::CiphertextTooLarge)
        } else {
            None
        },
    }
}

/// "M/ENVELOPE-AAD/v1"
pub open spec fn aad_domain() -> Seq<u8> {
    seq![77u8, 47u8, 69u8, 78u8, 86u8, 69u8, 76u8, 79u8, 80u8, 69u8, 45u8, 65u8, 65u8, 68u8, 47u8, 118u8, 49u8]
}

/// The associated data of an envelope: the domain, the version, the four
/// identifiers, the length-prefixed ratchet header and the send time, all
/// big-endian. The ciphertext is not part of it.
pub open spec fn envelope_aad(e: MessageView) -> Seq<u8> {
    aad_domain() + be16(e.version) + e.message_id + e.conversation_id + e.sender_device_id + e.recipient_device_id
        + be32(e.ratchet_header.len() as u32) + e.ratchet_header + be64(e.sent_at_ms)
}

/// The bytes postcard writes for an envelope's fields, in declaration order.
pub uninterp spec fn postcard_envelope_encoding(e: MessageView) -> Seq<u8>;

/// The envelope postcard reads from the front of `bytes`, if any.
pub uninterp spec fn postcard_envelope_decoding(bytes: Seq<u8>) -> Option<MessageView>;

#[verifier::external_type_specification]
#[verifier::external_body]
pub struct ExPostcardError(postcard::Error);

/// The field types of an envelope in declaration order, as postcard sees them.
type EnvelopeFields = (u16, [u8; 16], [u8; 16], [u8; 16], [u8; 16], Vec<u8>, Vec<u8>, u64);

/// `postcard::to_allocvec` of the envelope's fields in declaration order
/// (a newtype version is written as its inner `u16`). It always succeeds:
/// the `AllocVec` flavor's `try_push`, `try_extend` and `finalize` return
/// `Ok` unconditionally, and integers, fixed arrays and byte vectors (whose
/// length is known) raise no other serializer error. The bytes are those
/// named by [`postcard_envelope_encoding`], and `from_bytes` reads the same
/// fields back from them (the loopback property the crate's README example
/// and loopback tests show for integers, arrays, byte vectors and tuples).
#[verifier::external_body]
fn postcard_encode(e: &WireEnvelope) -> (r: Result<Vec<u8>, postcard::Error>)
    ensures
        r is Ok,
        r is Ok ==> r->Ok_0@ == postcard_envelope_encoding(e@),
        r is Ok ==> postcard_envelope_decoding(r->Ok_0@) == Some(e@),
{
    postcard::to_allocvec(&(
        e.version.0, e.message_id, e.conversation_id, e.sender_device_id, e.recipient_device_id,
        &e.ratchet_header, &e.ciphertext, e.sent_at_ms,
    ))
}

/// `postcard::from_bytes` of the envelope's fields in declaration order.
/// It succeeds exactly when [`postcard_envelope_decoding`] names an
/// envelope, and then gives that envelope; unused trailing bytes are ignored.
#[verifier::external_body]
fn postcard_decode(bytes: &[u8]) -> (r: Result<WireEnvelope, postcard::Error>)
    ensures
        r is Ok <==> postcard_envelope_decoding(bytes@) is Some,
        r is Ok ==> postcard_envelope_decoding(bytes@) == Some(r->Ok_0@),
{
    match postcard::from_bytes::<EnvelopeFields>(bytes) {
        Ok((v, m, c, s, r, h, ct, t)) => Ok(WireEnvelope {
            version: ProtocolVersion(v), message_id: m, conversation_id: c, sender_device_id: s,
            recipient_device_id: r, ratchet_header: h, ciphertext: ct, sent_at_ms: t,
        }),
        Err(err) => Err(err),
    }
}

/// What decoding `bytes` gives: the envelope postcard reads, if it passes
/// validation; `Decode` when postcard reads none.
pub open spec fn decode_result(bytes: Seq<u8>) -> Result<MessageView, EnvelopeError> {
    match postcard_envelope_decoding(bytes) {
        None => Err(EnvelopeError::Decode),
        Some(e) => match envelope_error(e) {
            Some(err) => Err(err),
            None => Ok(e),
        },
    }
}

fn aad_domain_bytes() -> (v: Vec<u8>)
    ensures
        v@ == aad_domain(),
{
    let v = vec![77u8, 47u8, 69u8, 78u8, 86u8, 69u8, 76u8, 79u8, 80u8, 69u8, 45u8, 65u8, 65u8, 68u8, 47u8, 118u8, 49u8];
    assert(v@ =~= aad_domain());
    v
}

impl WireEnvelope {
    fn validate_metadata(&self) -> (r: Result<(), EnvelopeError>)
        ensures
            match metadata_error(self@) {
                Some(err) => r == Err::<(), EnvelopeError>(err),
                None => r is Ok,
            },
    {
        if self.version.0 != PROTOCOL_VERSION {
            return Err(EnvelopeError::UnsupportedVersion);
        }
        if self.ratchet_header.len() > MAX_HEADER {
            return Err(EnvelopeError::HeaderTooLarge);
        }
        if all_zero(&self.message_id) || all_zero(&self.conversation_id) {
            return Err(EnvelopeError::InvalidIds);
        }
        Ok(())
    }

    /// Checks the metadata, then that the ciphertext is neither empty nor
    /// larger than [`MAX_CIPHERTEXT`].
    pub fn validate(&self) -> (r: Result<(), EnvelopeError>)
        ensures
            match envelope_error(self@) {
                Some(err) => r == Err::<(), EnvelopeError>(err),
                None => r is Ok,
            },
    {
        match self.validate_metadata() {
            Err(err) => return Err(err),
            Ok(()) => {},
        }
        if self.ciphertext.len() == 0 || self.ciphertext.len() > MAX_CIPHERTEXT {
            return Err(EnvelopeError::CiphertextTooLarge);
        }
        Ok(())
    }

    /// The canonical associated data of a valid envelope's metadata; the
    /// ciphertext is deliberately excluded.
    pub fn aad(&self) -> (r: Result<Vec<u8>, EnvelopeError>)
        ensures
            match metadata_error(self@) {
                Some(err) => r == Err::<Vec<u8>, EnvelopeError>(err),
                None => r is Ok && r->Ok_0@ == envelope_aad(self@),
            },
    {
        match self.validate_metadata() {
            Err(err) => return Err(err),
            Ok(()) => {},
        }
        let mut out = aad_domain_bytes();
        push_be16(&mut out, self.version.0);
        push_bytes(&mut out, &self.message_id);
        push_bytes(&mut out, &self.conversation_id);
        push_bytes(&mut out, &self.sender_device_id);
        push_bytes(&mut out, &self.recipient_device_id);
        push_be32(&mut out, self.ratchet_header.len() as u32);
        push_bytes(&mut out, self.ratchet_header.as_slice());
        push_be64(&mut out, self.sent_at_ms);
        Ok(out)
    }

    /// Validates the envelope and serialises it with postcard. An invalid
    /// envelope is refused with the first check it fails; a valid one is
    /// always encoded, and what it encodes decodes back to the same envelope.
    pub fn encode(&self) -> (r: Result<Vec<u8>, EnvelopeError>)
        ensures
            match envelope_error(self@) {
                Some(err) => r == Err::<Vec<u8>, EnvelopeError>(err),
                None => r is Ok && r->Ok_0@ == postcard_envelope_encoding(self@),
            },
            r is Ok ==> decode_result(r->Ok_0@) == Ok::<MessageView, EnvelopeError>(self@),
    {
        match self.validate() {
            Err(err) => return Err(err),
            Ok(()) => {},
        }
        match postcard_encode(self) {
            Ok(bytes) => Ok(bytes),
            Err(_) => Err(EnvelopeError::Decode),
        }
    }

    /// Reads an envelope with postcard and validates it.
    pub fn decode(bytes: &[u8]) -> (r: Result<Self, EnvelopeError>)
        ensures
            match r {
                Ok(e) => decode_result(bytes@) == Ok::<MessageView, EnvelopeError>(e@),
                Err(err) => decode_result(bytes@) == Err::<MessageView, EnvelopeError>(err),
            },
    {
        let value = match postcard_decode(bytes) {
            Ok(value) => value,
            Err(_) => return Err(EnvelopeError::Decode),
        };
        match value.validate() {
            Err(err) => return Err(err),
            Ok(()) => {},
        }
        Ok(value)
    }
}

/// The associated data leaves out the ciphertext: envelopes that differ only
/// in their ciphertext have the same associated data.
pub proof fn lemma_aad_ignores_ciphertext(e: MessageView, ciphertext: Seq<u8>)
    ensures
        envelope_aad(MessageView { ciphertext, ..e }) == envelope_aad(e),
        metadata_error(MessageView { ciphertext, ..e }) == metadata_error(e),
{
}

/// The associated data authenticates every metadata field: two envelopes
/// with 16-byte identifiers, headers within the limit and the same
/// associated data agree on version, identifiers, ratchet header and send time.
pub proof fn lemma_aad_binds_metadata(a: MessageView, b: MessageView)
    requires
        a.message_id.len() == 16 && a.conversation_id.len() == 16 && a.sender_device_id.len() == 16
            && a.recipient_device_id.len() == 16,
        b.message_id.len() == 16 && b.conversation_id.len() == 16 && b.sender_device_id.len() == 16
            && b.recipient_device_id.len() == 16,
        a.ratchet_header.len() <= MAX_HEADER,
        b.ratchet_header.len() <= MAX_HEADER,
        envelope_aad(a) == envelope_aad(b),
    ensures
        a.version == b.version,
        a.message_id == b.message_id,
        a.conversation_id == b.conversation_id,
        a.sender_device_id == b.sender_device_id,
        a.recipient_device_id == b.recipient_device_id,
        a.ratchet_header == b.ratchet_header,
        a.sent_at_ms == b.sent_at_ms,
{
    let x = envelope_aad(a);
    let y = envelope_aad(b);
    let ha = a.ratchet_header.len() as int;
    let hb = b.ratchet_header.len() as int;
    assert(x.len() == 95 + ha);
    assert(y.len() == 95 + hb);
    let h = ha;
    assert(x.subrange(17, 19) =~= be16(a.version));
    assert(y.subrange(17, 19) =~= be16(b.version));
    lemma_be16_round_trip(a.version);
    lemma_be16_round_trip(b.version);
    assert(read_be16(be16(a.version), 0) == read_be16(be16(b.version), 0));
    assert(x.subrange(19, 35) =~= a.message_id);
    assert(y.subrange(19, 35) =~= b.message_id);
    assert(x.subrange(35, 51) =~= a.conversation_id);
    assert(y.subrange(35, 51) =~= b.conversation_id);
    assert(x.subrange(51, 67) =~= a.sender_device_id);
    assert(y.subrange(51, 67) =~= b.sender_device_id);
    assert(x.subrange(67, 83) =~= a.recipient_device_id);
    assert(y.subrange(67, 83) =~= b.recipient_device_id);
    assert(x.subrange(87, 87 + h) =~= a.ratchet_header);
    assert(y.subrange(87, 87 + h) =~= b.ratchet_header);
    assert(x.subrange(87 + h, 95 + h) =~= be64(a.sent_at_ms));
    assert(y.subrange(87 + h, 95 + h) =~= be64(b.sent_at_ms));
    lemma_be64_round_trip(a.sent_at_ms);
    lemma_be64_round_trip(b.sent_at_ms);
    assert(read_be64(be64(a.sent_at_ms), 0) == read_be64(be64(b.sent_at_ms), 0));
}

} // verus!
