//! Versioned server-facing protocol types and the canonical binary codec of
//! encrypted messages, acknowledgements and ratchet headers.
use vstd::prelude::*;
use crate::wire::{
    be16, be32, be64, read_be16, read_be32, read_be64, lemma_be16_round_trip, lemma_be32_round_trip,
    lemma_be64_round_trip, lemma_read_be16_canonical, lemma_read_be32_canonical,
    lemma_read_be64_canonical, push_be16, push_be32, push_be64, push_bytes, copy_range, copy_16,
};

verus! {

/// The protocol version spoken by this implementation.
pub const PROTOCOL_VERSION: u16 = 1;

/// Version of the compact ratchet header.
pub const RATCHET_HEADER_VERSION: u16 = 1;

/// Length of an encoded ratchet header: version then message counter.
pub const RATCHET_HEADER_LEN: usize = 10;

/// Bytes of an encoded message before the ratchet header:
/// version, four identifiers and the header length.
pub const MESSAGE_PREFIX_LEN: usize = 70;

#[derive(Debug, Clone, Copy, PartialEq, Eq)]
pub struct ProtocolVersion(pub u16);

#[derive(Debug, Clone, PartialEq, Eq)]
pub struct OneTimePrekeyPublic {
    pub key_id: u32,
    pub public_key: [u8; 32],
}

#[derive(Debug, Clone, PartialEq, Eq)]
pub struct PreKeyBundle {
    pub protocol_version: ProtocolVersion,
    pub device_id: [u8; 16],
    pub identity_signing_key: [u8; 32],
    pub identity_agreement_key: [u8; 32],
    pub signed_prekey_id: u32,
    pub signed_prekey: [u8; 32],
    pub signed_prekey_signature: [u8; 64],
    pub one_time_prekeys: Vec<OneTimePrekeyPublic>,
}

#[derive(Debug, Clone, Copy, PartialEq, Eq)]
pub enum BundleError {
    DuplicateOneTimePrekeyId,
}

/// Mathematical value of a [`PreKeyBundle`]; each one-time prekey is its
/// id and public key.
pub struct BundleView {
    pub protocol_version: u16,
    pub device_id: Seq<u8>,
    pub identity_signing_key: Seq<u8>,
    pub identity_agreement_key: Seq<u8>,
    pub signed_prekey_id: u32,
    pub signed_prekey: Seq<u8>,
    pub signed_prekey_signature: Seq<u8>,
    pub one_time_prekeys: Seq<(u32, Seq<u8>)>,
}

impl View for PreKeyBundle {
    type V = BundleView;

    open spec fn view(&self) -> BundleView {
        BundleView {
            protocol_version: self.protocol_version.0,
            device_id: self.device_id@,
            identity_signing_key: self.identity_signing_key@,
            identity_agreement_key: self.identity_agreement_key@,
            signed_prekey_id: self.signed_prekey_id,
            signed_prekey: self.signed_prekey@,
            signed_prekey_signature: self.signed_prekey_signature@,
            one_time_prekeys: self.one_time_prekeys@.map_values(|k: OneTimePrekeyPublic| (k.key_id, k.public_key@)),
        }
    }
}

impl PreKeyBundle {
    /// A field-for-field copy.
    pub fn duplicate(&self) -> (b: Self)
        ensures
            b@ == self@,
    {
        let mut keys: Vec<OneTimePrekeyPublic> = Vec::new();
        let mut i: usize = 0;
        while i < self.one_time_prekeys.len()
            invariant
                i <= self.one_time_prekeys@.len(),
                keys@.len() == i,
                forall|j: int| 0 <= j < i ==> (#[trigger] keys@[j]).key_id == self.one_time_prekeys@[j].key_id
                    && keys@[j].public_key@ == self.one_time_prekeys@[j].public_key@,
            decreases self.one_time_prekeys@.len() - i,
        {
            let k = &self.one_time_prekeys[i];
            keys.push(OneTimePrekeyPublic { key_id: k.key_id, public_key: k.public_key });
            i = i + 1;
        }
        let b = PreKeyBundle {
            protocol_version: self.protocol_version,
            device_id: self.device_id,
            identity_signing_key: self.identity_signing_key,
            identity_agreement_key: self.identity_agreement_key,
            signed_prekey_id: self.signed_prekey_id,
            signed_prekey: self.signed_prekey,
            signed_prekey_signature: self.signed_prekey_signature,
            one_time_prekeys: keys,
        };
        assert(b@.one_time_prekeys =~= self@.one_time_prekeys);
        b
    }
}

impl PreKeyBundle {
    /// No one-time prekey id occurs twice in the bundle.
    pub open spec fn ids_distinct(self) -> bool {
        forall|i: int, j: int|
            0 <= i < j < self.one_time_prekeys@.len() ==> #[trigger] self.one_time_prekeys@[i].key_id
                != #[trigger] self.one_time_prekeys@[j].key_id
    }

    /// Structural check of a bundle: its one-time prekeys are addressed by
    /// distinct ids, so a claim by id names exactly one key. This rule is
    /// this library's own choice for bundles it accepts.
    pub fn validate(&self) -> (r: Result<(), BundleError>)
        ensures
            r is Ok <==> self.ids_distinct(),
    {
        let n = self.one_time_prekeys.len();
        let mut i: usize = 0;
        while i < n
            invariant
                n == self.one_time_prekeys@.len(),
                i <= n,
                forall|a: int, b: int|
                    0 <= a < b < n && a < i ==> #[trigger] self.one_time_prekeys@[a].key_id
                        != #[trigger] self.one_time_prekeys@[b].key_id,
            decreases n - i,
        {
            let mut j: usize = i + 1;
            while j < n
                invariant
                    n == self.one_time_prekeys@.len(),
                    i < n,
                    i + 1 <= j <= n,
                    forall|a: int, b: int|
                        0 <= a < b < n && a < i ==> #[trigger] self.one_time_prekeys@[a].key_id
                            != #[trigger] self.one_time_prekeys@[b].key_id,
                    forall|b: int|
                        i < b < j ==> self.one_time_prekeys@[i as int].key_id
                            != #[trigger] self.one_time_prekeys@[b].key_id,
                decreases n - j,
            {
                if self.one_time_prekeys[i].key_id == self.one_time_prekeys[j].key_id {
                    return Err(BundleError::DuplicateOneTimePrekeyId);
                }
                j = j + 1;
            }
            i = i + 1;
        }
        Ok(())
    }
}

#[derive(Debug, Clone, PartialEq, Eq)]
pub struct EncryptedMessage {
    pub version: ProtocolVersion,
    pub message_id: [u8; 16],
    pub conversation_id: [u8; 16],
    pub sender_device_id: [u8; 16],
    pub recipient_device_id: [u8; 16],
    pub ratchet_header: Vec<u8>,
    pub ciphertext: Vec<u8>,
    pub sent_at_ms: u64,
}

/// Mathematical value of an [`EncryptedMessage`].
pub struct MessageView {
    pub version: u16,
    pub message_id: Seq<u8>,
    pub conversation_id: Seq<u8>,
    pub sender_device_id: Seq<u8>,
    pub recipient_device_id: Seq<u8>,
    pub ratchet_header: Seq<u8>,
    pub ciphertext: Seq<u8>,
    pub sent_at_ms: u64,
}

impl View for EncryptedMessage {
    type V = MessageView;

    open spec fn view(&self) -> MessageView {
        MessageView {
            version: self.version.0,
            message_id: self.message_id@,
            conversation_id: self.conversation_id@,
            sender_device_id: self.sender_device_id@,
            recipient_device_id: self.recipient_device_id@,
            ratchet_header: self.ratchet_header@,
            ciphertext: self.ciphertext@,
            sent_at_ms: self.sent_at_ms,
        }
    }
}

#[derive(Debug, Clone, Copy, PartialEq, Eq)]
pub enum MessageCodecError {
    Truncated,
    InvalidVersion,
    LengthOverflow,
    LengthMismatch,
    TrailingBytes,
}

/// Identifiers are sixteen bytes and both length prefixes fit in a `u32`.
pub open spec fn message_shape_ok(m: MessageView) -> bool {
    &&& m.message_id.len() == 16
    &&& m.conversation_id.len() == 16
    &&& m.sender_device_id.len() == 16
    &&& m.recipient_device_id.len() == 16
    &&& m.ratchet_header.len() <= u32::MAX
    &&& m.ciphertext.len() <= u32::MAX
}

/// Canonical binary form: version, message, conversation, sender and
/// recipient ids, length-prefixed ratchet header, length-prefixed
/// ciphertext, send time; all integers big-endian.
pub open spec fn message_encoding(m: MessageView) -> Seq<u8> {
    be16(m.version) + m.message_id + m.conversation_id + m.sender_device_id
        + m.recipient_device_id + be32(m.ratchet_header.len() as u32) + m.ratchet_header + be32(
        m.ciphertext.len() as u32) + m.ciphertext + be64(m.sent_at_ms)
}

/// What decoding `b` yields: each failure names the first field that cannot
/// be read, and a well-formed message must use every byte.
pub open spec fn message_decoding(b: Seq<u8>) -> Result<MessageView, MessageCodecError> {
    let n = b.len();
    if n < 2 {
        Err(MessageCodecError::Truncated)
    } else if read_be16(b, 0) != PROTOCOL_VERSION {
        Err(MessageCodecError::InvalidVersion)
    } else if n < 70 {
        Err(MessageCodecError::Truncated)
    } else {
        let h = read_be32(b, 66) as int;
        if n < 74 + h {
            Err(MessageCodecError::Truncated)
        } else {
            let c = read_be32(b, 70 + h) as int;
            if n < 82 + h + c {
                Err(MessageCodecError::Truncated)
            } else if n != 82 + h + c {
                Err(MessageCodecError::TrailingBytes)
            } else {
                Ok(
                    MessageView {
                        version: read_be16(b, 0),
                        message_id: b.subrange(2, 18),
                        conversation_id: b.subrange(18, 34),
                        sender_device_id: b.subrange(34, 50),
                        recipient_device_id: b.subrange(50, 66),
                        ratchet_header: b.subrange(70, 70 + h),
                        ciphertext: b.subrange(74 + h, 74 + h + c),
                        sent_at_ms: read_be64(b, 74 + h + c),
                    },
                )
            }
        }
    }
}

/// Whether encoding `m` needs a length prefix or a total size that the
/// machine cannot hold.
pub open spec fn message_overflows(m: MessageView) -> bool {
    ||| m.ratchet_header.len() > u32::MAX
    ||| m.ciphertext.len() > u32::MAX
    ||| 82 + m.ratchet_header.len() + m.ciphertext.len() > usize::MAX
}

/// The cursor-based reader behind [`EncryptedMessage::decode`]: reads a
/// big-endian `u16` at `*cursor` and advances past it.
fn read_u16(bytes: &[u8], cursor: &mut usize) -> (r: Result<u16, MessageCodecError>)
    requires
        *old(cursor) <= bytes@.len(),
    ensures
        bytes@.len() - *old(cursor) < 2 ==> r == Err::<u16, MessageCodecError>(
            MessageCodecError::Truncated,
        ) && *final(cursor) == *old(cursor),
        bytes@.len() - *old(cursor) >= 2 ==> r == Ok::<u16, MessageCodecError>(
            read_be16(bytes@, *old(cursor) as int),
        ) && *final(cursor) == *old(cursor) + 2,
{
    if bytes.len() - *cursor < 2 {
        return Err(MessageCodecError::Truncated);
    }
    let c = *cursor;
    let value = (((bytes[c] as u16) << 8u16) | (bytes[c + 1] as u16)) as u16;
    *cursor = c + 2;
    Ok(value)
}

/// Reads a big-endian `u32` at `*cursor` and advances past it.
fn read_u32(bytes: &[u8], cursor: &mut usize) -> (r: Result<u32, MessageCodecError>)
    requires
        *old(cursor) <= bytes@.len(),
    ensures
        bytes@.len() - *old(cursor) < 4 ==> r == Err::<u32, MessageCodecError>(
            MessageCodecError::Truncated,
        ) && *final(cursor) == *old(cursor),
        bytes@.len() - *old(cursor) >= 4 ==> r == Ok::<u32, MessageCodecError>(
            read_be32(bytes@, *old(cursor) as int),
        ) && *final(cursor) == *old(cursor) + 4,
{
    if bytes.len() - *cursor < 4 {
        return Err(MessageCodecError::Truncated);
    }
    let c = *cursor;
    let value = (((bytes[c] as u32) << 24u32) | ((bytes[c + 1] as u32) << 16u32) | ((bytes[c
        + 2] as u32) << 8u32) | (bytes[c + 3] as u32)) as u32;
    *cursor = c + 4;
    Ok(value)
}

/// Reads a big-endian `u64` at `*cursor` and advances past it.
fn read_u64(bytes: &[u8], cursor: &mut usize) -> (r: Result<u64, MessageCodecError>)
    requires
        *old(cursor) <= bytes@.len(),
    ensures
        bytes@.len() - *old(cursor) < 8 ==> r == Err::<u64, MessageCodecError>(
            MessageCodecError::Truncated,
        ) && *final(cursor) == *old(cursor),
        bytes@.len() - *old(cursor) >= 8 ==> r == Ok::<u64, MessageCodecError>(
            read_be64(bytes@, *old(cursor) as int),
        ) && *final(cursor) == *old(cursor) + 8,
{
    if bytes.len() - *cursor < 8 {
        return Err(MessageCodecError::Truncated);
    }
    let c = *cursor;
    let value = (((bytes[c] as u64) << 56u64) | ((bytes[c + 1] as u64) << 48u64) | ((bytes[c
        + 2] as u64) << 40u64) | ((bytes[c + 3] as u64) << 32u64) | ((bytes[c + 4] as u64)
        << 24u64) | ((bytes[c + 5] as u64) << 16u64) | ((bytes[c + 6] as u64) << 8u64) | (bytes[c
        + 7] as u64)) as u64;
    *cursor = c + 8;
    Ok(value)
}

/// Reads sixteen bytes at `*cursor` and advances past them.
fn read_array_16(bytes: &[u8], cursor: &mut usize) -> (r: Result<[u8; 16], MessageCodecError>)
    requires
        *old(cursor) <= bytes@.len(),
    ensures
        bytes@.len() - *old(cursor) < 16 ==> r is Err && r->Err_0 == MessageCodecError::Truncated
            && *final(cursor) == *old(cursor),
        bytes@.len() - *old(cursor) >= 16 ==> r is Ok && r->Ok_0@ == bytes@.subrange(
            *old(cursor) as int,
            *old(cursor) + 16,
        ) && *final(cursor) == *old(cursor) + 16,
{
    if bytes.len() - *cursor < 16 {
        return Err(MessageCodecError::Truncated);
    }
    let out = copy_16(bytes, *cursor);
    *cursor = *cursor + 16;
    Ok(out)
}

/// Reads `len` bytes at `*cursor` and advances past them.
fn read_vec(bytes: &[u8], cursor: &mut usize, len: usize) -> (r: Result<Vec<u8>, MessageCodecError>)
    requires
        *old(cursor) <= bytes@.len(),
    ensures
        bytes@.len() - *old(cursor) < len ==> r is Err && r->Err_0 == MessageCodecError::Truncated
            && *final(cursor) == *old(cursor),
        bytes@.len() - *old(cursor) >= len ==> r is Ok && r->Ok_0@ == bytes@.subrange(
            *old(cursor) as int,
            *old(cursor) + len,
        ) && *final(cursor) == *old(cursor) + len,
{
    if bytes.len() - *cursor < len {
        return Err(MessageCodecError::Truncated);
    }
    let end = *cursor + len;
    let out = copy_range(bytes, *cursor, end);
    *cursor = end;
    Ok(out)
}

impl EncryptedMessage {
    /// A message of the current protocol version with the given fields.
    pub fn new(
        message_id: [u8; 16],
        conversation_id: [u8; 16],
        sender_device_id: [u8; 16],
        recipient_device_id: [u8; 16],
        ratchet_header: Vec<u8>,
        ciphertext: Vec<u8>,
        sent_at_ms: u64,
    ) -> (m: Self)
        ensures
            m.version.0 == PROTOCOL_VERSION,
            m.message_id == message_id,
            m.conversation_id == conversation_id,
            m.sender_device_id == sender_device_id,
            m.recipient_device_id == recipient_device_id,
            m.ratchet_header == ratchet_header,
            m.ciphertext == ciphertext,
            m.sent_at_ms == sent_at_ms,
    {
        EncryptedMessage {
            version: ProtocolVersion(PROTOCOL_VERSION),
            message_id,
            conversation_id,
            sender_device_id,
            recipient_device_id,
            ratchet_header,
            ciphertext,
            sent_at_ms,
        }
    }

    /// A field-for-field copy.
    pub fn duplicate(&self) -> (m: Self)
        ensures
            m@ == self@,
    {
        let ratchet_header = copy_range(self.ratchet_header.as_slice(), 0, self.ratchet_header.len());
        let ciphertext = copy_range(self.ciphertext.as_slice(), 0, self.ciphertext.len());
        assert(self.ratchet_header@.subrange(0, self.ratchet_header@.len() as int) =~= self.ratchet_header@);
        assert(self.ciphertext@.subrange(0, self.ciphertext@.len() as int) =~= self.ciphertext@);
        EncryptedMessage {
            version: self.version,
            message_id: self.message_id,
            conversation_id: self.conversation_id,
            sender_device_id: self.sender_device_id,
            recipient_device_id: self.recipient_device_id,
            ratchet_header,
            ciphertext,
            sent_at_ms: self.sent_at_ms,
        }
    }

    /// Canonical binary representation used inside transport frames.
    pub fn encode(&self) -> (r: Result<Vec<u8>, MessageCodecError>)
        ensures
            match r {
                Ok(bytes) => !message_overflows(self@) && bytes@ == message_encoding(self@),
                Err(e) => message_overflows(self@) && e == MessageCodecError::LengthOverflow,
            },
    {
        let hlen = self.ratchet_header.len();
        let clen = self.ciphertext.len();
        if hlen > 0xffff_ffffusize || clen > 0xffff_ffffusize {
            return Err(MessageCodecError::LengthOverflow);
        }
        if hlen > usize::MAX - 82 || clen > usize::MAX - 82 - hlen {
            return Err(MessageCodecError::LengthOverflow);
        }
        let mut out: Vec<u8> = Vec::with_capacity(82 + hlen + clen);
        push_be16(&mut out, self.version.0);
        push_bytes(&mut out, &self.message_id);
        push_bytes(&mut out, &self.conversation_id);
        push_bytes(&mut out, &self.sender_device_id);
        push_bytes(&mut out, &self.recipient_device_id);
        push_be32(&mut out, hlen as u32);
        push_bytes(&mut out, self.ratchet_header.as_slice());
        push_be32(&mut out, clen as u32);
        push_bytes(&mut out, self.ciphertext.as_slice());
        push_be64(&mut out, self.sent_at_ms);
        Ok(out)
    }

    /// Parses the canonical binary representation.
    pub fn decode(bytes: &[u8]) -> (r: Result<Self, MessageCodecError>)
        ensures
            match message_decoding(bytes@) {
                Ok(v) => r is Ok && r->Ok_0@ == v,
                Err(e) => r == Err::<Self, MessageCodecError>(e),
            },
    {
        let mut cursor: usize = 0;
        let version = read_u16(bytes, &mut cursor)?;
        if version != PROTOCOL_VERSION {
            return Err(MessageCodecError::InvalidVersion);
        }
        let message_id = read_array_16(bytes, &mut cursor)?;
        let conversation_id = read_array_16(bytes, &mut cursor)?;
        let sender_device_id = read_array_16(bytes, &mut cursor)?;
        let recipient_device_id = read_array_16(bytes, &mut cursor)?;
        let header_len = read_u32(bytes, &mut cursor)? as usize;
        let ratchet_header = read_vec(bytes, &mut cursor, header_len)?;
        let ciphertext_len = read_u32(bytes, &mut cursor)? as usize;
        let ciphertext = read_vec(bytes, &mut cursor, ciphertext_len)?;
        let sent_at_ms = read_u64(bytes, &mut cursor)?;
        if cursor != bytes.len() {
            return Err(MessageCodecError::TrailingBytes);
        }
        Ok(
            EncryptedMessage {
                version: ProtocolVersion(version),
                message_id,
                conversation_id,
                sender_device_id,
                recipient_device_id,
                ratchet_header,
                ciphertext,
                sent_at_ms,
            },
        )
    }
}

/// Decoding the canonical encoding of a current-version message gives the
/// message back.
pub proof fn lemma_message_round_trip(m: MessageView)
    requires
        message_shape_ok(m),
        m.version == PROTOCOL_VERSION,
    ensures
        message_decoding(message_encoding(m)) == Ok::<MessageView, MessageCodecError>(m),
{
    let b = message_encoding(m);
    let h = m.ratchet_header.len() as int;
    let c = m.ciphertext.len() as int;
    lemma_be16_round_trip(m.version);
    lemma_be32_round_trip(h as u32);
    lemma_be32_round_trip(c as u32);
    lemma_be64_round_trip(m.sent_at_ms);
    assert(b.len() == 82 + h + c);
    assert(b.subrange(0, 2) =~= be16(m.version));
    assert(b.subrange(2, 18) =~= m.message_id);
    assert(b.subrange(18, 34) =~= m.conversation_id);
    assert(b.subrange(34, 50) =~= m.sender_device_id);
    assert(b.subrange(50, 66) =~= m.recipient_device_id);
    assert(b.subrange(66, 70) =~= be32(h as u32));
    assert(b.subrange(70, 70 + h) =~= m.ratchet_header);
    assert(b.subrange(70 + h, 74 + h) =~= be32(c as u32));
    assert(b.subrange(74 + h, 74 + h + c) =~= m.ciphertext);
    assert(b.subrange(74 + h + c, 82 + h + c) =~= be64(m.sent_at_ms));
    assert(read_be16(b, 0) == read_be16(b.subrange(0, 2), 0));
    assert(read_be32(b, 66) == read_be32(b.subrange(66, 70), 0));
    assert(read_be32(b, 70 + h) == read_be32(b.subrange(70 + h, 74 + h), 0));
    assert(read_be64(b, 74 + h + c) == read_be64(b.subrange(74 + h + c, 82 + h + c), 0));
}

/// Every byte string that decodes is the canonical encoding of what it
/// decodes to: the codec has no second spelling of a message.
pub proof fn lemma_message_decoding_canonical(b: Seq<u8>)
    requires
        message_decoding(b) is Ok,
    ensures
        message_shape_ok(message_decoding(b)->Ok_0),
        message_encoding(message_decoding(b)->Ok_0) == b,
{
    let m = message_decoding(b)->Ok_0;
    let h = read_be32(b, 66) as int;
    let c = read_be32(b, 70 + h) as int;
    lemma_read_be16_canonical(b, 0);
    lemma_read_be32_canonical(b, 66);
    lemma_read_be32_canonical(b, 70 + h);
    lemma_read_be64_canonical(b, 74 + h + c);
    assert(m.ratchet_header.len() == h);
    assert(m.ciphertext.len() == c);
    assert(message_encoding(m) =~= b);
}

/// The acknowledgement of a message is exactly its id.
pub fn encode_message_ack(message_id: &[u8; 16]) -> (r: [u8; 16])
    ensures
        r == *message_id,
{
    *message_id
}

/// Parses an acknowledgement: exactly sixteen bytes.
pub fn decode_message_ack(bytes: &[u8]) -> (r: Result<[u8; 16], MessageCodecError>)
    ensures
        bytes@.len() < 16 ==> r == Err::<[u8; 16], MessageCodecError>(MessageCodecError::Truncated),
        bytes@.len() > 16 ==> r == Err::<[u8; 16], MessageCodecError>(
            MessageCodecError::LengthMismatch,
        ),
        bytes@.len() == 16 ==> r is Ok && r->Ok_0@ == bytes@,
{
    if bytes.len() != 16 {
        return if bytes.len() < 16 {
            Err(MessageCodecError::Truncated)
        } else {
            Err(MessageCodecError::LengthMismatch)
        };
    }
    let out = copy_16(bytes, 0);
    assert(bytes@.subrange(0, 16) =~= bytes@);
    Ok(out)
}

/// Compact header carried with every ratchet message. Its encoding is this
/// library's own ten-byte format: the header version then the message
/// counter, both big-endian.
#[derive(Debug, Clone, Copy, PartialEq, Eq)]
pub struct RatchetHeader {
    pub version: u16,
    pub message_counter: u64,
}

#[derive(Debug, Clone, Copy, PartialEq, Eq)]
pub enum RatchetHeaderError {
    Truncated,
    InvalidVersion,
    TrailingBytes,
}

/// Encoded header: version then counter, both big-endian.
pub open spec fn ratchet_header_encoding(version: u16, counter: u64) -> Seq<u8> {
    be16(version) + be64(counter)
}

/// What a ratchet header reads as: the counter of a ten-byte header of the
/// current version, or the first thing wrong with the bytes (too short for
/// a version, another version, too short for a counter, bytes left over).
pub open spec fn ratchet_header_decoding(bytes: Seq<u8>) -> Result<u64, RatchetHeaderError> {
    if bytes.len() < 2 {
        Err(RatchetHeaderError::Truncated)
    } else if read_be16(bytes, 0) != RATCHET_HEADER_VERSION {
        Err(RatchetHeaderError::InvalidVersion)
    } else if bytes.len() < 10 {
        Err(RatchetHeaderError::Truncated)
    } else if bytes.len() > 10 {
        Err(RatchetHeaderError::TrailingBytes)
    } else {
        Ok(read_be64(bytes, 2))
    }
}

impl RatchetHeader {
    /// The current-version header of message `message_counter`.
    pub fn new(message_counter: u64) -> (h: Self)
        ensures
            h.version == RATCHET_HEADER_VERSION,
            h.message_counter == message_counter,
    {
        RatchetHeader { version: RATCHET_HEADER_VERSION, message_counter }
    }

    pub fn encode(&self) -> (out: Vec<u8>)
        ensures
            out@ == ratchet_header_encoding(self.version, self.message_counter),
    {
        let mut out: Vec<u8> = Vec::with_capacity(RATCHET_HEADER_LEN);
        push_be16(&mut out, self.version);
        push_be64(&mut out, self.message_counter);
        out
    }

    /// Parses a header; it must be of the current version and exactly ten bytes.
    pub fn decode(bytes: &[u8]) -> (r: Result<Self, RatchetHeaderError>)
        ensures
            match ratchet_header_decoding(bytes@) {
                Ok(counter) => r == Ok::<Self, RatchetHeaderError>(
                    RatchetHeader { version: RATCHET_HEADER_VERSION, message_counter: counter },
                ),
                Err(e) => r == Err::<Self, RatchetHeaderError>(e),
            },
    {
        if bytes.len() < 2 {
            return Err(RatchetHeaderError::Truncated);
        }
        let version = (((bytes[0] as u16) << 8u16) | (bytes[1] as u16)) as u16;
        if version != RATCHET_HEADER_VERSION {
            return Err(RatchetHeaderError::InvalidVersion);
        }
        if bytes.len() < RATCHET_HEADER_LEN {
            return Err(RatchetHeaderError::Truncated);
        }
        if bytes.len() > RATCHET_HEADER_LEN {
            return Err(RatchetHeaderError::TrailingBytes);
        }
        let counter = (((bytes[2] as u64) << 56u64) | ((bytes[3] as u64) << 48u64) | ((
        bytes[4] as u64) << 40u64) | ((bytes[5] as u64) << 32u64) | ((bytes[6] as u64) << 24u64)
            | ((bytes[7] as u64) << 16u64) | ((bytes[8] as u64) << 8u64) | (bytes[9] as u64)) as u64;
        Ok(RatchetHeader { version, message_counter: counter })
    }
}

/// Decoding an encoded current-version header gives the same counter back.
pub proof fn lemma_ratchet_header_round_trip(counter: u64)
    ensures
        ({
            let b = ratchet_header_encoding(RATCHET_HEADER_VERSION, counter);
            b.len() == 10 && read_be16(b, 0) == RATCHET_HEADER_VERSION && read_be64(b, 2)
                == counter
        }),
{
    let b = ratchet_header_encoding(RATCHET_HEADER_VERSION, counter);
    lemma_be16_round_trip(RATCHET_HEADER_VERSION);
    lemma_be64_round_trip(counter);
    assert(b.subrange(0, 2) =~= be16(RATCHET_HEADER_VERSION));
    assert(b.subrange(2, 10) =~= be64(counter));
    assert(read_be16(b, 0) == read_be16(b.subrange(0, 2), 0));
    assert(read_be64(b, 2) == read_be64(b.subrange(2, 10), 0));
}

} // verus!
