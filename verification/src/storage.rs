//! Local encrypted storage: a versioned encrypted record format, and the
//! naming, framing and recovery rules of a crash-safe append-only journal
//! of such records. Key derivation is not part of it: the platform layer
//! supplies the storage key, and the files themselves are written and read
//! by the platform layer.
use vstd::prelude::*;
use crate::auth::{all_decimal, decimal_value, parse_decimal, parse_u64};
use crate::crypto::{open, open_result, seal, Ciphertext, CryptoError, NONCE_LEN};
use crate::primitives::AEAD_MAX_MESSAGE;
use crate::wire::{be16, be64, read_be16, read_be64, push_be16, push_be64, push_bytes, copy_range, get_be16, get_be64};

verus! {

pub const STORAGE_FORMAT_VERSION: u16 = 1;

pub const RECORD_HEADER_LEN: usize = 2;

pub const AEAD_TAG_LEN: usize = 16;

/// Bytes of a journal entry before its state: magic and generation.
pub const JOURNAL_HEADER_LEN: usize = 12;

#[derive(Debug, Clone, Copy, PartialEq, Eq)]
pub struct StorageFormatVersion(pub u16);

#[derive(Debug, Clone, PartialEq, Eq)]
pub enum StorageError {
    InvalidVersion,
    Truncated,
    InvalidCiphertext,
    InvalidJournalRecord,
    NoValidRecord,
    GenerationOverflow,
    Io,
    Crypto(CryptoError),
}

impl From<CryptoError> for StorageError {
    fn from(value: CryptoError) -> (e: Self) {
        StorageError::Crypto(value)
    }
}

impl vstd::std_specs::convert::FromSpecImpl<CryptoError> for StorageError {
    open spec fn obeys_from_spec() -> bool {
        true
    }

    open spec fn from_spec(value: CryptoError) -> StorageError {
        StorageError::Crypto(value)
    }
}

/// A record: format version (u16 BE), nonce, AEAD body.
pub open spec fn record_bytes(nonce: Seq<u8>, body: Seq<u8>) -> Seq<u8> {
    be16(STORAGE_FORMAT_VERSION) + nonce + body
}

/// What opening a record under `key` gives: framing is checked before any
/// decryption, a record too short for version, nonce and tag is truncated,
/// another version is refused, and the body must authenticate.
pub open spec fn open_record_result(key: Seq<u8>, record: Seq<u8>) -> Result<Seq<u8>, StorageError> {
    if record.len() < RECORD_HEADER_LEN + NONCE_LEN + AEAD_TAG_LEN {
        Err(StorageError::Truncated)
    } else if read_be16(record, 0) != STORAGE_FORMAT_VERSION {
        Err(StorageError::InvalidVersion)
    } else {
        match open_result(key, record.subrange(2, 14), record.subrange(14, record.len() as int)) {
            Ok(p) => Ok(p),
            Err(e) => Err(StorageError::Crypto(e)),
        }
    }
}

/// Seals `plaintext` under `key` into a record with a fresh nonce. Fails
/// only for a plaintext too long for the cipher; a record it returns opens
/// under the same key to the same plaintext.
pub fn seal_record(key: &[u8; 32], plaintext: &[u8]) -> (r: Result<Vec<u8>, StorageError>)
    ensures
        r is Ok <==> plaintext@.len() < AEAD_MAX_MESSAGE,
        r is Err ==> r->Err_0 == StorageError::Crypto(CryptoError::EncryptionFailed),
        r is Ok ==> open_record_result(key@, r->Ok_0@) == Ok::<Seq<u8>, StorageError>(plaintext@),
        r is Ok ==> r->Ok_0@.len() == plaintext@.len() + RECORD_HEADER_LEN + NONCE_LEN + AEAD_TAG_LEN,
{
    let encrypted = match seal(key, plaintext) {
        Ok(c) => c,
        Err(e) => return Err(StorageError::Crypto(e)),
    };
    let mut out: Vec<u8> = Vec::new();
    push_be16(&mut out, STORAGE_FORMAT_VERSION);
    push_bytes(&mut out, &encrypted.nonce);
    push_bytes(&mut out, encrypted.body.as_slice());
    proof {
        let rec = out@;
        assert(rec =~= record_bytes(encrypted.nonce@, encrypted.body@));
        assert(rec.subrange(0, 2) =~= be16(STORAGE_FORMAT_VERSION));
        crate::wire::lemma_be16_round_trip(STORAGE_FORMAT_VERSION);
        assert(read_be16(rec, 0) == read_be16(be16(STORAGE_FORMAT_VERSION), 0));
        assert(rec.subrange(2, 14) =~= encrypted.nonce@);
        assert(rec.subrange(14, rec.len() as int) =~= encrypted.body@);
    }
    Ok(out)
}

/// Opens a record under `key`.
pub fn open_record(key: &[u8; 32], record: &[u8]) -> (r: Result<Vec<u8>, StorageError>)
    ensures
        match open_record_result(key@, record@) {
            Ok(p) => r is Ok && r->Ok_0@ == p,
            Err(e) => r == Err::<Vec<u8>, StorageError>(e),
        },
{
    if record.len() < RECORD_HEADER_LEN + NONCE_LEN + AEAD_TAG_LEN {
        return Err(StorageError::Truncated);
    }
    let version = get_be16(record, 0);
    if version != STORAGE_FORMAT_VERSION {
        return Err(StorageError::InvalidVersion);
    }
    let nonce_bytes = copy_range(record, 2, 14);
    let mut nonce = [0u8; 12];
    let mut i: usize = 0;
    while i < 12
        invariant
            i <= 12,
            nonce@.len() == 12,
            nonce_bytes@.len() == 12,
            forall|j: int| 0 <= j < i ==> nonce@[j] == nonce_bytes@[j],
        decreases 12 - i,
    {
        nonce[i] = nonce_bytes[i];
        i = i + 1;
    }
    assert(nonce@ =~= record@.subrange(2, 14));
    let body = copy_range(record, 14, record.len());
    match open(key, &Ciphertext { nonce, body }) {
        Ok(p) => Ok(p),
        Err(e) => Err(StorageError::Crypto(e)),
    }
}

/// "MJR1"
pub open spec fn journal_magic() -> Seq<u8> {
    seq![77u8, 74u8, 82u8, 49u8]
}

/// A journal entry: magic, generation (u64 BE), state.
pub open spec fn journal_entry(generation: u64, state: Seq<u8>) -> Seq<u8> {
    journal_magic() + be64(generation) + state
}

/// The state a journal entry of generation `expected` holds.
pub open spec fn journal_state(entry: Seq<u8>, expected: u64) -> Result<Seq<u8>, StorageError> {
    if entry.len() < JOURNAL_HEADER_LEN {
        Err(StorageError::Truncated)
    } else if entry.subrange(0, 4) != journal_magic() {
        Err(StorageError::InvalidJournalRecord)
    } else if read_be64(entry, 4) != expected {
        Err(StorageError::InvalidJournalRecord)
    } else {
        Ok(entry.subrange(JOURNAL_HEADER_LEN as int, entry.len() as int))
    }
}

/// What a journal file of generation `generation` yields under `key`: its
/// record opened, then the entry's state.
pub open spec fn journal_file_state(key: Seq<u8>, generation: u64, file: Seq<u8>) -> Result<Seq<u8>, StorageError> {
    match open_record_result(key, file) {
        Err(e) => Err(e),
        Ok(entry) => journal_state(entry, generation),
    }
}

/// Whether a journal prefix is usable in file names: non-empty, with no
/// path separator and no `..`.
pub open spec fn valid_prefix(p: Seq<u8>) -> bool {
    &&& p.len() > 0
    &&& forall|i: int| 0 <= i < p.len() ==> #[trigger] p[i] != 47u8 && p[i] != 92u8
    &&& forall|i: int| 0 <= i < p.len() - 1 ==> !(#[trigger] p[i] == 46u8 && p[i + 1] == 46u8)
}

/// Decimal digits of a number, without leading zeros.
pub open spec fn decimal_digits(n: u64) -> Seq<u8>
    decreases n,
{
    if n < 10 {
        seq![(48 + n) as u8]
    } else {
        decimal_digits(n / 10) + seq![(48 + n % 10) as u8]
    }
}

/// ".bin"
pub open spec fn final_suffix() -> Seq<u8> {
    seq![46u8, 98u8, 105u8, 110u8]
}

/// ".tmp"
pub open spec fn temp_suffix() -> Seq<u8> {
    seq![46u8, 116u8, 109u8, 112u8]
}

/// The file name of a journal generation: prefix, `-`, the generation in
/// decimal, then `suffix`.
pub open spec fn journal_name(prefix: Seq<u8>, generation: u64, suffix: Seq<u8>) -> Seq<u8> {
    prefix + seq![45u8] + decimal_digits(generation) + suffix
}

/// The generation a file name stands for: the prefix and `-`, a decimal
/// number read as `str::parse::<u64>` reads it, and `.bin`.
pub open spec fn generation_of_name(prefix: Seq<u8>, name: Seq<u8>) -> Option<u64> {
    let head = prefix + seq![45u8];
    if name.len() >= head.len() + 4 && name.subrange(0, head.len() as int) == head && name.subrange(
        name.len() - 4,
        name.len() as int,
    ) == final_suffix() {
        parse_u64(name.subrange(head.len() as int, name.len() - 4))
    } else {
        None
    }
}

/// A candidate record of recovery: a generation and the bytes of its file,
/// if the file could be read.
pub open spec fn candidate_state(key: Seq<u8>, c: (u64, Option<Seq<u8>>)) -> Result<Seq<u8>, StorageError> {
    match c.1 {
        None => Err(StorageError::Io),
        Some(file) => journal_file_state(key, c.0, file),
    }
}

fn push_decimal(out: &mut Vec<u8>, n: u64)
    ensures
        final(out)@ == old(out)@ + decimal_digits(n),
    decreases n,
{
    if n >= 10 {
        push_decimal(out, n / 10);
    }
    out.push((48 + n % 10) as u8);
    assert(final(out)@ =~= old(out)@ + decimal_digits(n));
}

/// The journal's file naming and record rules for one prefix. The platform
/// layer keeps the files in a directory of its choosing: it writes a new
/// generation under its temporary name, flushes it and renames it to its
/// final name, so a crash before the rename leaves only a temporary file
/// and the previous committed record intact; old records are kept.
pub struct EncryptedJournal {
    prefix: Vec<u8>,
}

impl EncryptedJournal {
    /// The journal's file name prefix.
    pub closed spec fn prefix(&self) -> Seq<u8> {
        self.prefix@
    }

    /// A journal whose files are named after `prefix`; a prefix that is
    /// empty, holds a path separator or `..` is refused.
    pub fn new(prefix: &[u8]) -> (r: Result<Self, StorageError>)
        ensures
            valid_prefix(prefix@) ==> r is Ok && r->Ok_0.prefix() == prefix@,
            !valid_prefix(prefix@) ==> r == Err::<EncryptedJournal, StorageError>(StorageError::InvalidJournalRecord),
    {
        if prefix.len() == 0 {
            return Err(StorageError::InvalidJournalRecord);
        }
        let mut i: usize = 0;
        while i < prefix.len()
            invariant
                i <= prefix@.len(),
                prefix@.len() > 0,
                forall|j: int| 0 <= j < i ==> #[trigger] prefix@[j] != 47u8 && prefix@[j] != 92u8,
                forall|j: int| 0 <= j < i && j < prefix@.len() - 1 ==> !(#[trigger] prefix@[j] == 46u8 && prefix@[j + 1] == 46u8),
            decreases prefix@.len() - i,
        {
            let c = prefix[i];
            if c == 47 || c == 92 {
                return Err(StorageError::InvalidJournalRecord);
            }
            if c == 46 && i + 1 < prefix.len() && prefix[i + 1] == 46 {
                assert(!valid_prefix(prefix@)) by {
                    assert(prefix@[i as int] == 46u8 && prefix@[i + 1] == 46u8);
                }
                return Err(StorageError::InvalidJournalRecord);
            }
            i = i + 1;
        }
        Ok(EncryptedJournal { prefix: copy_range(prefix, 0, prefix.len()) })
    }

    /// The name of the committed file of a generation.
    pub fn final_path(&self, generation: u64) -> (name: Vec<u8>)
        ensures
            name@ == journal_name(self.prefix(), generation, final_suffix()),
    {
        let mut name = copy_range(self.prefix.as_slice(), 0, self.prefix.len());
        assert(name@ =~= self.prefix@);
        name.push(45u8);
        push_decimal(&mut name, generation);
        let ghost before = name@;
        name.push(46u8);
        name.push(98u8);
        name.push(105u8);
        name.push(110u8);
        assert(name@ =~= journal_name(self.prefix(), generation, final_suffix()));
        name
    }

    /// The name a generation is written under before it is committed.
    pub fn temp_path(&self, generation: u64) -> (name: Vec<u8>)
        ensures
            name@ == journal_name(self.prefix(), generation, temp_suffix()),
    {
        let mut name = copy_range(self.prefix.as_slice(), 0, self.prefix.len());
        assert(name@ =~= self.prefix@);
        name.push(45u8);
        push_decimal(&mut name, generation);
        name.push(46u8);
        name.push(116u8);
        name.push(109u8);
        name.push(112u8);
        assert(name@ =~= journal_name(self.prefix(), generation, temp_suffix()));
        name
    }

    /// The generation a directory entry's file name stands for, if it is a
    /// committed file of this journal.
    pub fn parse_generation(&self, name: &[u8]) -> (r: Option<u64>)
        ensures
            r == generation_of_name(self.prefix(), name@),
    {
        let ghost head = self.prefix@ + seq![45u8];
        let p = self.prefix.len();
        if name.len() < 5 || name.len() - 5 < p {
            return None;
        }
        let mut i: usize = 0;
        while i < p
            invariant
                i <= p,
                p == self.prefix@.len(),
                head == self.prefix@ + seq![45u8],
                name@.len() >= p + 5,
                forall|j: int| 0 <= j < i ==> name@[j] == self.prefix@[j],
            decreases p - i,
        {
            if name[i] != self.prefix[i] {
                assert(name@.subrange(0, head.len() as int)[i as int] != head[i as int]);
                return None;
            }
            i = i + 1;
        }
        let n = name.len();
        if name[p] != 45 {
            assert(name@.subrange(0, head.len() as int)[p as int] != head[p as int]);
            return None;
        }
        assert(name@.subrange(0, head.len() as int) =~= head);
        let tail = copy_range(name, n - 4, n);
        if !(tail[0] == 46 && tail[1] == 98 && tail[2] == 105 && tail[3] == 110) {
            assert(tail@ != final_suffix()) by {
                if tail@ == final_suffix() {
                    assert(tail@[0] == final_suffix()[0]);
                    assert(tail@[1] == final_suffix()[1]);
                    assert(tail@[2] == final_suffix()[2]);
                    assert(tail@[3] == final_suffix()[3]);
                }
            }
            return None;
        }
        assert(tail@ =~= final_suffix());
        let stem = copy_range(name, p + 1, n - 4);
        parse_decimal(stem.as_slice())
    }

    /// The journal entry of a generation: magic, generation, state.
    pub fn encode_journal(generation: u64, plaintext: &[u8]) -> (entry: Vec<u8>)
        ensures
            entry@ == journal_entry(generation, plaintext@),
    {
        let mut out = vec![77u8, 74u8, 82u8, 49u8];
        assert(out@ =~= journal_magic());
        push_be64(&mut out, generation);
        push_bytes(&mut out, plaintext);
        out
    }

    /// The state of a journal entry that belongs to generation
    /// `expected_generation`.
    pub fn decode_journal(record: &[u8], expected_generation: u64) -> (r: Result<Vec<u8>, StorageError>)
        ensures
            match journal_state(record@, expected_generation) {
                Ok(s) => r is Ok && r->Ok_0@ == s,
                Err(e) => r == Err::<Vec<u8>, StorageError>(e),
            },
    {
        if record.len() < JOURNAL_HEADER_LEN {
            return Err(StorageError::Truncated);
        }
        if !(record[0] == 77 && record[1] == 74 && record[2] == 82 && record[3] == 49) {
            assert(record@.subrange(0, 4) != journal_magic()) by {
                if record@.subrange(0, 4) == journal_magic() {
                    assert(record@.subrange(0, 4)[0] == journal_magic()[0]);
                    assert(record@.subrange(0, 4)[1] == journal_magic()[1]);
                    assert(record@.subrange(0, 4)[2] == journal_magic()[2]);
                    assert(record@.subrange(0, 4)[3] == journal_magic()[3]);
                }
            }
            return Err(StorageError::InvalidJournalRecord);
        }
        assert(record@.subrange(0, 4) =~= journal_magic());
        let generation = get_be64(record, 4);
        if generation != expected_generation {
            return Err(StorageError::InvalidJournalRecord);
        }
        Ok(copy_range(record, JOURNAL_HEADER_LEN, record.len()))
    }

    /// The generation the next save is written as: one past the newest
    /// committed generation, or 0 for an empty journal; refused when the
    /// newest is the largest generation there is.
    pub fn next_generation(generations: &[u64]) -> (r: Result<u64, StorageError>)
        ensures
            generations@.len() == 0 ==> r == Ok::<u64, StorageError>(0),
            generations@.len() > 0 ==> (r is Err <==> exists|i: int|
                0 <= i < generations@.len() && #[trigger] generations@[i] == u64::MAX),
            r is Err ==> r->Err_0 == StorageError::GenerationOverflow,
            generations@.len() > 0 && r is Ok ==> (exists|i: int|
                0 <= i < generations@.len() && #[trigger] generations@[i] + 1 == r->Ok_0) && forall|j: int|
                0 <= j < generations@.len() ==> #[trigger] generations@[j] < r->Ok_0,
    {
        if generations.len() == 0 {
            return Ok(0);
        }
        let mut best: usize = 0;
        let mut i: usize = 1;
        while i < generations.len()
            invariant
                1 <= i <= generations@.len(),
                best < i,
                forall|j: int| 0 <= j < i ==> #[trigger] generations@[j] <= generations@[best as int],
            decreases generations@.len() - i,
        {
            if generations[i] > generations[best] {
                best = i;
            }
            i = i + 1;
        }
        let newest = generations[best];
        if newest == u64::MAX {
            return Err(StorageError::GenerationOverflow);
        }
        Ok(newest + 1)
    }

    /// The file a save of `plaintext` as generation `generation` writes.
    pub fn seal_journal(key: &[u8; 32], generation: u64, plaintext: &[u8]) -> (r: Result<Vec<u8>, StorageError>)
        ensures
            r is Ok <==> plaintext@.len() + JOURNAL_HEADER_LEN < AEAD_MAX_MESSAGE,
            r is Err ==> r->Err_0 == StorageError::Crypto(CryptoError::EncryptionFailed),
            r is Ok ==> open_record_result(key@, r->Ok_0@) == Ok::<Seq<u8>, StorageError>(
                journal_entry(generation, plaintext@),
            ),
    {
        let entry = Self::encode_journal(generation, plaintext);
        seal_record(key, entry.as_slice())
    }

    /// The state a journal file of generation `generation` holds under `key`.
    pub fn open_journal(key: &[u8; 32], generation: u64, file: &[u8]) -> (r: Result<Vec<u8>, StorageError>)
        ensures
            match journal_file_state(key@, generation, file@) {
                Ok(s) => r is Ok && r->Ok_0@ == s,
                Err(e) => r == Err::<Vec<u8>, StorageError>(e),
            },
    {
        let entry = match open_record(key, file) {
            Ok(e) => e,
            Err(e) => return Err(e),
        };
        Self::decode_journal(entry.as_slice(), generation)
    }

    /// Recovery: among the committed files read from the journal's
    /// directory (a generation and its bytes, or `None` when the file could
    /// not be read), the newest generation whose record authenticates and
    /// belongs to that generation, with its state. Corrupt newer records
    /// are passed over so that an older committed record recovers the
    /// state; without any valid record the journal has `NoValidRecord`.
    pub fn latest_valid(key: &[u8; 32], candidates: &Vec<(u64, Option<Vec<u8>>)>) -> (r: Result<(u64, Vec<u8>), StorageError>)
        ensures
            ({
                let cs = candidates@.map_values(|c: (u64, Option<Vec<u8>>)| (c.0, match c.1 { Some(b) => Some(b@), None => None }));
                &&& r is Err <==> forall|i: int| 0 <= i < cs.len() ==> (#[trigger] candidate_state(key@, cs[i])) is Err
                &&& r is Err ==> r->Err_0 == StorageError::NoValidRecord
                &&& r is Ok ==> exists|i: int|
                    0 <= i < cs.len() && cs[i].0 == r->Ok_0.0 && #[trigger] candidate_state(key@, cs[i])
                        == Ok::<Seq<u8>, StorageError>(r->Ok_0.1@)
                &&& r is Ok ==> forall|i: int|
                    0 <= i < cs.len() && (#[trigger] candidate_state(key@, cs[i])) is Ok ==> cs[i].0 <= r->Ok_0.0
            }),
    {
        let ghost cs = candidates@.map_values(|c: (u64, Option<Vec<u8>>)| (c.0, match c.1 { Some(b) => Some(b@), None => None }));
        let mut best: Option<(u64, Vec<u8>)> = None;
        let mut i: usize = 0;
        while i < candidates.len()
            invariant
                i <= candidates@.len(),
                cs == candidates@.map_values(|c: (u64, Option<Vec<u8>>)| (c.0, match c.1 { Some(b) => Some(b@), None => None })),
                best is None <==> forall|j: int| 0 <= j < i ==> (#[trigger] candidate_state(key@, cs[j])) is Err,
                best is Some ==> exists|j: int|
                    0 <= j < i && cs[j].0 == best->Some_0.0 && #[trigger] candidate_state(key@, cs[j])
                        == Ok::<Seq<u8>, StorageError>(best->Some_0.1@),
                best is Some ==> forall|j: int|
                    0 <= j < i && (#[trigger] candidate_state(key@, cs[j])) is Ok ==> cs[j].0 <= best->Some_0.0,
            decreases candidates@.len() - i,
        {
            let generation = candidates[i].0;
            let state = match &candidates[i].1 {
                None => None,
                Some(file) => match Self::open_journal(key, generation, file.as_slice()) {
                    Ok(s) => Some(s),
                    Err(_) => None,
                },
            };
            assert(cs[i as int].0 == generation);
            assert(state is Some ==> candidate_state(key@, cs[i as int]) == Ok::<Seq<u8>, StorageError>(state->Some_0@));
            assert(state is None ==> candidate_state(key@, cs[i as int]) is Err);
            match state {
                Some(s) => {
                    let better = match &best {
                        None => true,
                        Some(b) => generation > b.0,
                    };
                    if better {
                        best = Some((generation, s));
                    }
                },
                None => {},
            }
            i = i + 1;
        }
        match best {
            Some(b) => Ok(b),
            None => Err(StorageError::NoValidRecord),
        }
    }
}

/// A sealed record opens under the same key to what was sealed.
pub proof fn lemma_record_round_trip(key: Seq<u8>, nonce: Seq<u8>, body: Seq<u8>, plaintext: Seq<u8>)
    requires
        nonce.len() == 12,
        body.len() >= AEAD_TAG_LEN,
        open_result(key, nonce, body) == Ok::<Seq<u8>, CryptoError>(plaintext),
    ensures
        open_record_result(key, record_bytes(nonce, body)) == Ok::<Seq<u8>, StorageError>(plaintext),
{
    let rec = record_bytes(nonce, body);
    assert(rec.subrange(0, 2) =~= be16(STORAGE_FORMAT_VERSION));
    crate::wire::lemma_be16_round_trip(STORAGE_FORMAT_VERSION);
    assert(read_be16(rec, 0) == read_be16(be16(STORAGE_FORMAT_VERSION), 0));
    assert(rec.subrange(2, 14) =~= nonce);
    assert(rec.subrange(14, rec.len() as int) =~= body);
}

/// A journal entry reads back as its state for its own generation and for
/// no other.
pub proof fn lemma_journal_entry_round_trip(generation: u64, state: Seq<u8>, other: u64)
    ensures
        journal_state(journal_entry(generation, state), generation) == Ok::<Seq<u8>, StorageError>(state),
        other != generation ==> journal_state(journal_entry(generation, state), other) == Err::<Seq<u8>, StorageError>(
            StorageError::InvalidJournalRecord,
        ),
{
    let e = journal_entry(generation, state);
    assert(e.subrange(0, 4) =~= journal_magic());
    assert(e.subrange(4, 12) =~= be64(generation));
    crate::wire::lemma_be64_round_trip(generation);
    assert(read_be64(e, 4) == read_be64(be64(generation), 0));
    assert(e.subrange(12, e.len() as int) =~= state);
}

proof fn lemma_decimal_digits(n: u64)
    ensures
        decimal_digits(n).len() > 0,
        all_decimal(decimal_digits(n)),
        decimal_value(decimal_digits(n)) == n,
        decimal_digits(n)[0] != 43u8,
    decreases n,
{
    if n >= 10 {
        lemma_decimal_digits(n / 10);
        let d = decimal_digits(n);
        assert(d.drop_last() =~= decimal_digits(n / 10));
        assert(d[0] == decimal_digits(n / 10)[0]);
        assert(d.last() == (48 + n % 10) as u8);
        assert((d.last() - 48) as nat == n % 10);
        assert(n == (n / 10) * 10 + n % 10);
        assert(decimal_value(d) == decimal_value(d.drop_last()) * 10 + (d.last() - 48) as nat);
    } else {
        let d = decimal_digits(n);
        assert(decimal_value(d.drop_last()) == 0);
        assert(decimal_value(d) == decimal_value(d.drop_last()) * 10 + (d.last() - 48) as nat);
    }
}

/// A committed file's name reads back as its generation, and a temporary
/// file's name never reads as a generation, so recovery ignores writes that
/// were never committed.
pub proof fn lemma_journal_names(prefix: Seq<u8>, generation: u64)
    ensures
        generation_of_name(prefix, journal_name(prefix, generation, final_suffix())) == Some(generation),
        generation_of_name(prefix, journal_name(prefix, generation, temp_suffix())) is None,
{
    lemma_decimal_digits(generation);
    let head = prefix + seq![45u8];
    let d = decimal_digits(generation);
    let f = journal_name(prefix, generation, final_suffix());
    assert(f =~= head + d + final_suffix());
    assert(f.subrange(0, head.len() as int) =~= head);
    assert(f.subrange(f.len() - 4, f.len() as int) =~= final_suffix());
    assert(f.subrange(head.len() as int, f.len() - 4) =~= d);
    let t = journal_name(prefix, generation, temp_suffix());
    assert(t.subrange(t.len() - 4, t.len() as int) =~= temp_suffix());
    assert(temp_suffix()[1] != final_suffix()[1]);
    assert(t.subrange(t.len() - 4, t.len() as int) != final_suffix());
}

} // verus!
