//! NEXA cryptographic boundary: the API version and authenticated
//! encryption of opaque byte strings under a 32-byte key with a fresh nonce.
use vstd::prelude::*;
use crate::primitives::{aead_open, aead_open_spec, aead_seal, aead_seal_spec, random_bytes, AEAD_MAX_MESSAGE};
use crate::wire::copy_32;

verus! {

pub const API_VERSION: u32 = 1;

/// Length of a symmetric key.
pub const KEY_LEN: usize = 32;

/// Length of an AEAD nonce.
pub const NONCE_LEN: usize = 12;

#[derive(Debug, Clone, Copy, PartialEq, Eq)]
pub struct CryptoApiVersion(pub u32);

/// The version of this cryptographic API.
pub fn api_version() -> (v: CryptoApiVersion)
    ensures
        v.0 == API_VERSION,
{
    CryptoApiVersion(API_VERSION)
}

#[derive(Debug, Clone, Copy, PartialEq, Eq)]
pub enum CryptoError {
    EncryptionFailed,
    DecryptionFailed,
}

/// A sealed value: the nonce it was sealed with and the AEAD body
/// (ciphertext followed by the tag).
#[derive(Debug, Clone, PartialEq, Eq)]
pub struct Ciphertext {
    pub nonce: [u8; 12],
    pub body: Vec<u8>,
}

/// Takes the first twelve bytes of a byte vector.
fn first_12(v: &Vec<u8>) -> (out: [u8; 12])
    requires
        v@.len() >= 12,
    ensures
        out@ == v@.subrange(0, 12),
{
    let mut out = [0u8; 12];
    let mut i: usize = 0;
    while i < 12
        invariant
            i <= 12,
            v@.len() >= 12,
            out@.len() == 12,
            forall|j: int| 0 <= j < i ==> out@[j] == v@[j],
        decreases 12 - i,
    {
        out[i] = v[i];
        i = i + 1;
    }
    assert(out@ =~= v@.subrange(0, 12));
    out
}

/// A fresh random symmetric key.
pub fn generate_key() -> (key: [u8; 32]) {
    let bytes = random_bytes(KEY_LEN);
    copy_32(bytes.as_slice(), 0)
}

/// Seals `plaintext` under `key` with a fresh random nonce and no associated
/// data. Fails only for a plaintext too long for ChaCha20-Poly1305.
pub fn seal(key: &[u8; 32], plaintext: &[u8]) -> (r: Result<Ciphertext, CryptoError>)
    ensures
        r is Ok <==> plaintext@.len() < AEAD_MAX_MESSAGE,
        r is Err ==> r->Err_0 == CryptoError::EncryptionFailed,
        r is Ok ==> r->Ok_0.body@ == aead_seal_spec(key@, r->Ok_0.nonce@, plaintext@, seq![]),
        r is Ok ==> r->Ok_0.body@.len() == plaintext@.len() + 16,
        r is Ok ==> open_result(key@, r->Ok_0.nonce@, r->Ok_0.body@) == Ok::<
            Seq<u8>,
            CryptoError,
        >(plaintext@),
{
    if plaintext.len() as u64 >= AEAD_MAX_MESSAGE {
        return Err(CryptoError::EncryptionFailed);
    }
    let nonce_bytes = random_bytes(NONCE_LEN);
    let nonce = first_12(&nonce_bytes);
    let empty: [u8; 0] = [];
    assert(empty@ =~= seq![]);
    let body = aead_seal(key, &nonce, plaintext, &empty);
    Ok(Ciphertext { nonce, body })
}

/// What opening a body sealed under `key` with `nonce` yields.
pub open spec fn open_result(key: Seq<u8>, nonce: Seq<u8>, body: Seq<u8>) -> Result<Seq<u8>, CryptoError> {
    match aead_open_spec(key, nonce, body, seq![]) {
        Some(p) => Ok(p),
        None => Err(CryptoError::DecryptionFailed),
    }
}

/// Opens a sealed value; fails when the tag does not authenticate it.
pub fn open(key: &[u8; 32], ciphertext: &Ciphertext) -> (r: Result<Vec<u8>, CryptoError>)
    ensures
        match open_result(key@, ciphertext.nonce@, ciphertext.body@) {
            Ok(p) => r is Ok && r->Ok_0@ == p,
            Err(e) => r == Err::<Vec<u8>, CryptoError>(e),
        },
{
    let empty: [u8; 0] = [];
    assert(empty@ =~= seq![]);
    match aead_open(key, ciphertext.nonce.as_slice(), ciphertext.body.as_slice(), &empty) {
        Some(p) => Ok(p),
        None => Err(CryptoError::DecryptionFailed),
    }
}

} // verus!
