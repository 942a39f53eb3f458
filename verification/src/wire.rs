//! Big-endian integer encodings and byte-sequence helpers shared by the codecs.
use vstd::prelude::*;

verus! {

/// Whether every byte of an identifier is zero.
pub open spec fn is_zero_id(id: Seq<u8>) -> bool {
    forall|i: int| 0 <= i < id.len() ==> id[i] == 0u8
}

/// Big-endian bytes of a `u16`.
pub open spec fn be16(v: u16) -> Seq<u8> {
    seq![(v >> 8u16) as u8, v as u8]
}

/// Big-endian bytes of a `u32`.
pub open spec fn be32(v: u32) -> Seq<u8> {
    seq![(v >> 24u32) as u8, (v >> 16u32) as u8, (v >> 8u32) as u8, v as u8]
}

/// Big-endian bytes of a `u64`.
pub open spec fn be64(v: u64) -> Seq<u8> {
    seq![
        (v >> 56u64) as u8,
        (v >> 48u64) as u8,
        (v >> 40u64) as u8,
        (v >> 32u64) as u8,
        (v >> 24u64) as u8,
        (v >> 16u64) as u8,
        (v >> 8u64) as u8,
        v as u8,
    ]
}

/// The `u16` whose big-endian bytes start `s` at `at`.
pub open spec fn read_be16(s: Seq<u8>, at: int) -> u16 {
    (((s[at] as u16) << 8u16) | (s[at + 1] as u16)) as u16
}

/// The `u32` whose big-endian bytes start `s` at `at`.
pub open spec fn read_be32(s: Seq<u8>, at: int) -> u32 {
    (((s[at] as u32) << 24u32) | ((s[at + 1] as u32) << 16u32) | ((s[at + 2] as u32) << 8u32)
        | (s[at + 3] as u32)) as u32
}

/// The `u64` whose big-endian bytes start `s` at `at`.
pub open spec fn read_be64(s: Seq<u8>, at: int) -> u64 {
    (((s[at] as u64) << 56u64) | ((s[at + 1] as u64) << 48u64) | ((s[at + 2] as u64) << 40u64)
        | ((s[at + 3] as u64) << 32u64) | ((s[at + 4] as u64) << 24u64) | ((s[at + 5] as u64)
        << 16u64) | ((s[at + 6] as u64) << 8u64) | (s[at + 7] as u64)) as u64
}

/// Reading back the big-endian bytes of a `u16` gives the same value.
pub proof fn lemma_be16_round_trip(v: u16)
    ensures
        read_be16(be16(v), 0) == v,
{
    let b0 = (v >> 8u16) as u8;
    let b1 = v as u8;
    assert(((((b0 as u16) << 8u16) | (b1 as u16)) as u16) == v) by (bit_vector)
        requires
            b0 == (v >> 8u16) as u8,
            b1 == v as u8,
    ;
}

/// Reading back the big-endian bytes of a `u32` gives the same value.
pub proof fn lemma_be32_round_trip(v: u32)
    ensures
        read_be32(be32(v), 0) == v,
{
    let b0 = (v >> 24u32) as u8;
    let b1 = (v >> 16u32) as u8;
    let b2 = (v >> 8u32) as u8;
    let b3 = v as u8;
    assert(((((b0 as u32) << 24u32) | ((b1 as u32) << 16u32) | ((b2 as u32) << 8u32) | (b3 as u32))
        as u32) == v) by (bit_vector)
        requires
            b0 == (v >> 24u32) as u8,
            b1 == (v >> 16u32) as u8,
            b2 == (v >> 8u32) as u8,
            b3 == v as u8,
    ;
}

/// Reading back the big-endian bytes of a `u64` gives the same value.
pub proof fn lemma_be64_round_trip(v: u64)
    ensures
        read_be64(be64(v), 0) == v,
{
    let b0 = (v >> 56u64) as u8;
    let b1 = (v >> 48u64) as u8;
    let b2 = (v >> 40u64) as u8;
    let b3 = (v >> 32u64) as u8;
    let b4 = (v >> 24u64) as u8;
    let b5 = (v >> 16u64) as u8;
    let b6 = (v >> 8u64) as u8;
    let b7 = v as u8;
    assert(((((b0 as u64) << 56u64) | ((b1 as u64) << 48u64) | ((b2 as u64) << 40u64) | ((
    b3 as u64) << 32u64) | ((b4 as u64) << 24u64) | ((b5 as u64) << 16u64) | ((b6 as u64)
        << 8u64) | (b7 as u64)) as u64) == v) by (bit_vector)
        requires
            b0 == (v >> 56u64) as u8,
            b1 == (v >> 48u64) as u8,
            b2 == (v >> 40u64) as u8,
            b3 == (v >> 32u64) as u8,
            b4 == (v >> 24u64) as u8,
            b5 == (v >> 16u64) as u8,
            b6 == (v >> 8u64) as u8,
            b7 == v as u8,
    ;
}

/// Writing the value read from two bytes gives back those bytes.
pub proof fn lemma_read_be16_canonical(s: Seq<u8>, at: int)
    requires
        0 <= at,
        at + 2 <= s.len(),
    ensures
        be16(read_be16(s, at)) == s.subrange(at, at + 2),
{
    let b0 = s[at];
    let b1 = s[at + 1];
    let v = read_be16(s, at);
    assert((v >> 8u16) as u8 == b0 && v as u8 == b1) by (bit_vector)
        requires
            v == (((b0 as u16) << 8u16) | (b1 as u16)) as u16,
    ;
    assert(be16(v) =~= s.subrange(at, at + 2));
}

/// Writing the value read from four bytes gives back those bytes.
pub proof fn lemma_read_be32_canonical(s: Seq<u8>, at: int)
    requires
        0 <= at,
        at + 4 <= s.len(),
    ensures
        be32(read_be32(s, at)) == s.subrange(at, at + 4),
{
    let b0 = s[at];
    let b1 = s[at + 1];
    let b2 = s[at + 2];
    let b3 = s[at + 3];
    let v = read_be32(s, at);
    assert((v >> 24u32) as u8 == b0 && (v >> 16u32) as u8 == b1 && (v >> 8u32) as u8 == b2 && v
        as u8 == b3) by (bit_vector)
        requires
            v == (((b0 as u32) << 24u32) | ((b1 as u32) << 16u32) | ((b2 as u32) << 8u32) | (
            b3 as u32)) as u32,
    ;
    assert(be32(v) =~= s.subrange(at, at + 4));
}

/// Writing the value read from eight bytes gives back those bytes.
pub proof fn lemma_read_be64_canonical(s: Seq<u8>, at: int)
    requires
        0 <= at,
        at + 8 <= s.len(),
    ensures
        be64(read_be64(s, at)) == s.subrange(at, at + 8),
{
    let b0 = s[at];
    let b1 = s[at + 1];
    let b2 = s[at + 2];
    let b3 = s[at + 3];
    let b4 = s[at + 4];
    let b5 = s[at + 5];
    let b6 = s[at + 6];
    let b7 = s[at + 7];
    let v = read_be64(s, at);
    assert((v >> 56u64) as u8 == b0 && (v >> 48u64) as u8 == b1 && (v >> 40u64) as u8 == b2 && (v
        >> 32u64) as u8 == b3 && (v >> 24u64) as u8 == b4 && (v >> 16u64) as u8 == b5 && (v
        >> 8u64) as u8 == b6 && v as u8 == b7) by (bit_vector)
        requires
            v == (((b0 as u64) << 56u64) | ((b1 as u64) << 48u64) | ((b2 as u64) << 40u64) | ((
            b3 as u64) << 32u64) | ((b4 as u64) << 24u64) | ((b5 as u64) << 16u64) | ((
            b6 as u64) << 8u64) | (b7 as u64)) as u64,
    ;
    assert(be64(v) =~= s.subrange(at, at + 8));
}

/// Appends the big-endian bytes of `v`.
pub fn push_be16(out: &mut Vec<u8>, v: u16)
    ensures
        final(out)@ == old(out)@ + be16(v),
{
    out.push((v >> 8u16) as u8);
    out.push(v as u8);
    assert(final(out)@ =~= old(out)@ + be16(v));
}

/// Appends the big-endian bytes of `v`.
pub fn push_be32(out: &mut Vec<u8>, v: u32)
    ensures
        final(out)@ == old(out)@ + be32(v),
{
    out.push((v >> 24u32) as u8);
    out.push((v >> 16u32) as u8);
    out.push((v >> 8u32) as u8);
    out.push(v as u8);
    assert(final(out)@ =~= old(out)@ + be32(v));
}

/// Appends the big-endian bytes of `v`.
pub fn push_be64(out: &mut Vec<u8>, v: u64)
    ensures
        final(out)@ == old(out)@ + be64(v),
{
    out.push((v >> 56u64) as u8);
    out.push((v >> 48u64) as u8);
    out.push((v >> 40u64) as u8);
    out.push((v >> 32u64) as u8);
    out.push((v >> 24u64) as u8);
    out.push((v >> 16u64) as u8);
    out.push((v >> 8u64) as u8);
    out.push(v as u8);
    assert(final(out)@ =~= old(out)@ + be64(v));
}

/// Appends every byte of `src`.
pub fn push_bytes(out: &mut Vec<u8>, src: &[u8])
    ensures
        final(out)@ == old(out)@ + src@,
{
    let ghost start = out@;
    let mut i: usize = 0;
    while i < src.len()
        invariant
            i <= src@.len(),
            out@ == start + src@.subrange(0, i as int),
        decreases src@.len() - i,
    {
        out.push(src[i]);
        i = i + 1;
        assert(out@ =~= start + src@.subrange(0, i as int));
    }
    assert(src@.subrange(0, i as int) =~= src@);
}

/// Copies `bytes[start..end]` into a fresh vector.
pub fn copy_range(bytes: &[u8], start: usize, end: usize) -> (out: Vec<u8>)
    requires
        start <= end <= bytes@.len(),
    ensures
        out@ == bytes@.subrange(start as int, end as int),
{
    let mut out: Vec<u8> = Vec::new();
    let mut i: usize = start;
    while i < end
        invariant
            start <= i <= end <= bytes@.len(),
            out@ == bytes@.subrange(start as int, i as int),
        decreases end - i,
    {
        out.push(bytes[i]);
        i = i + 1;
        assert(out@ =~= bytes@.subrange(start as int, i as int));
    }
    out
}

/// Copies `bytes[start..start + 16]` into an array.
pub fn copy_16(bytes: &[u8], start: usize) -> (out: [u8; 16])
    requires
        start + 16 <= bytes@.len(),
    ensures
        out@ == bytes@.subrange(start as int, start + 16),
{
    let mut out = [0u8; 16];
    let mut i: usize = 0;
    while i < 16
        invariant
            i <= 16,
            start + 16 <= bytes.len(),
            out@.len() == 16,
            forall|j: int| 0 <= j < i ==> out@[j] == bytes@[start + j],
        decreases 16 - i,
    {
        out[i] = bytes[start + i];
        i = i + 1;
    }
    assert(out@ =~= bytes@.subrange(start as int, start + 16));
    out
}

/// Copies `bytes[start..start + 32]` into an array.
pub fn copy_32(bytes: &[u8], start: usize) -> (out: [u8; 32])
    requires
        start + 32 <= bytes@.len(),
    ensures
        out@ == bytes@.subrange(start as int, start + 32),
{
    let mut out = [0u8; 32];
    let mut i: usize = 0;
    while i < 32
        invariant
            i <= 32,
            start + 32 <= bytes.len(),
            out@.len() == 32,
            forall|j: int| 0 <= j < i ==> out@[j] == bytes@[start + j],
        decreases 32 - i,
    {
        out[i] = bytes[start + i];
        i = i + 1;
    }
    assert(out@ =~= bytes@.subrange(start as int, start + 32));
    out
}

/// The 128-bit integer the first `n` bytes of an identifier read as, big-endian.
pub open spec fn be128(id: Seq<u8>, n: nat) -> u128
    decreases n,
{
    if n == 0 {
        0
    } else {
        ((be128(id, (n - 1) as nat) << 8u128) | (id[n - 1] as u128)) as u128
    }
}

/// The 128-bit integer a 16-byte identifier reads as, big-endian.
pub open spec fn key128(id: Seq<u8>) -> u128 {
    be128(id, 16)
}

pub fn key128_of(id: &[u8; 16]) -> (k: u128)
    ensures
        k == key128(id@),
{
    let mut k: u128 = 0;
    let mut i: usize = 0;
    while i < 16
        invariant
            i <= 16,
            id@.len() == 16,
            k == be128(id@, i as nat),
        decreases 16 - i,
    {
        k = (k << 8u128) | (id[i] as u128);
        i = i + 1;
    }
    k
}


pub fn copy_64(bytes: &[u8], start: usize) -> (out: [u8; 64])
    requires
        start + 64 <= bytes@.len(),
    ensures
        out@ == bytes@.subrange(start as int, start + 64),
{
    let mut out = [0u8; 64];
    let mut i: usize = 0;
    while i < 64
        invariant
            i <= 64,
            start + 64 <= bytes.len(),
            out@.len() == 64,
            forall|j: int| 0 <= j < i ==> out@[j] == bytes@[start + j],
        decreases 64 - i,
    {
        out[i] = bytes[start + i];
        i = i + 1;
    }
    assert(out@ =~= bytes@.subrange(start as int, start + 64));
    out
}

pub fn all_zero(value: &[u8]) -> (r: bool)
    ensures
        r == (forall|i: int| 0 <= i < value@.len() ==> value@[i] == 0u8),
{
    let mut i: usize = 0;
    while i < value.len()
        invariant
            i <= value@.len(),
            forall|j: int| 0 <= j < i ==> value@[j] == 0u8,
        decreases value@.len() - i,
    {
        if value[i] != 0 {
            return false;
        }
        i = i + 1;
    }
    true
}

/// Whether two byte slices hold the same bytes.
pub fn bytes_eq(a: &[u8], b: &[u8]) -> (r: bool)
    ensures
        r == (a@ == b@),
{
    if a.len() != b.len() {
        return false;
    }
    let mut i: usize = 0;
    while i < a.len()
        invariant
            i <= a@.len(),
            a@.len() == b@.len(),
            forall|j: int| 0 <= j < i ==> a@[j] == b@[j],
        decreases a@.len() - i,
    {
        if a[i] != b[i] {
            return false;
        }
        i = i + 1;
    }
    assert(a@ =~= b@);
    true
}

} // verus!

verus! {

/// The big-endian `u16` at `at`.
pub fn get_be16(bytes: &[u8], at: usize) -> (v: u16)
    requires
        at + 2 <= bytes@.len(),
    ensures
        v == read_be16(bytes@, at as int),
{
    (((bytes[at] as u16) << 8u16) | (bytes[at + 1] as u16)) as u16
}

/// The big-endian `u32` at `at`.
pub fn get_be32(bytes: &[u8], at: usize) -> (v: u32)
    requires
        at + 4 <= bytes@.len(),
    ensures
        v == read_be32(bytes@, at as int),
{
    (((bytes[at] as u32) << 24u32) | ((bytes[at + 1] as u32) << 16u32) | ((bytes[at + 2] as u32)
        << 8u32) | (bytes[at + 3] as u32)) as u32
}

/// The big-endian `u64` at `at`.
pub fn get_be64(bytes: &[u8], at: usize) -> (v: u64)
    requires
        at + 8 <= bytes@.len(),
    ensures
        v == read_be64(bytes@, at as int),
{
    (((bytes[at] as u64) << 56u64) | ((bytes[at + 1] as u64) << 48u64) | ((bytes[at + 2] as u64)
        << 40u64) | ((bytes[at + 3] as u64) << 32u64) | ((bytes[at + 4] as u64) << 24u64) | ((
    bytes[at + 5] as u64) << 16u64) | ((bytes[at + 6] as u64) << 8u64) | (bytes[at + 7] as u64)) as u64
}

} // verus!
