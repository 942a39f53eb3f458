//! The cryptographic primitives this library relies on, each a thin trusted
//! wrapper around one call of an established crate. Verus believes these
//! contracts; every other function in the crate is proved against them.
use vstd::prelude::*;
use chacha20poly1305::aead::{Aead, KeyInit, Payload};
use chacha20poly1305::{ChaCha20Poly1305, Nonce};
use ed25519_dalek::{Signature, Signer, SigningKey, Verifier, VerifyingKey};
use hkdf::Hkdf;
use rand_core::{OsRng, RngCore};
use sha2::{Digest, Sha256};
use x25519_dalek::{PublicKey, StaticSecret};
use zeroize::Zeroize;

verus! {

/// Output of HKDF-SHA256 (RFC 5869): extract with `salt` over `ikm`, then
/// expand `info` to `len` bytes.
pub uninterp spec fn hkdf_sha256_spec(salt: Seq<u8>, ikm: Seq<u8>, info: Seq<u8>, len: nat) -> Seq<u8>;

/// ChaCha20-Poly1305 (RFC 8439) ciphertext followed by its 16-byte tag.
pub uninterp spec fn aead_seal_spec(key: Seq<u8>, nonce: Seq<u8>, msg: Seq<u8>, aad: Seq<u8>) -> Seq<u8>;

/// ChaCha20-Poly1305 decryption: the plaintext when the tag authenticates
/// `ct` and `aad` under `key` and `nonce`, otherwise nothing.
pub uninterp spec fn aead_open_spec(key: Seq<u8>, nonce: Seq<u8>, ct: Seq<u8>, aad: Seq<u8>) -> Option<Seq<u8>>;

/// X25519 public key of a 32-byte secret scalar.
pub uninterp spec fn x25519_public_spec(secret: Seq<u8>) -> Seq<u8>;

/// X25519 shared secret of a secret scalar and a peer public key.
pub uninterp spec fn x25519_shared_spec(secret: Seq<u8>, peer: Seq<u8>) -> Seq<u8>;

/// Ed25519 verifying key (compressed point) of a 32-byte signing seed.
pub uninterp spec fn ed25519_public_spec(seed: Seq<u8>) -> Seq<u8>;

/// Ed25519 signature (RFC 8032) by a 32-byte signing seed.
pub uninterp spec fn ed25519_sign_spec(seed: Seq<u8>, msg: Seq<u8>) -> Seq<u8>;

/// Whether 32 bytes decompress to an Ed25519 verifying key.
pub uninterp spec fn ed25519_key_valid_spec(public: Seq<u8>) -> bool;

/// Whether `sig` is a valid Ed25519 signature of `msg` under `public`.
pub uninterp spec fn ed25519_verify_spec(public: Seq<u8>, msg: Seq<u8>, sig: Seq<u8>) -> bool;

/// SHA-256 digest.
pub uninterp spec fn sha256_spec(data: Seq<u8>) -> Seq<u8>;

/// Largest output HKDF-SHA256 can expand to: 255 blocks of 32 bytes.
pub const HKDF_MAX_OUTPUT: usize = 8160;

/// Largest message ChaCha20-Poly1305 accepts is just under this many bytes.
pub const AEAD_MAX_MESSAGE: u64 = 274877906880;

/// `Hkdf::<Sha256>::new(Some(salt), ikm)` followed by `expand(info, ..)` into
/// `len` bytes. `expand` fails only above 8160 bytes, which `requires` rules
/// out; the output is named by [`hkdf_sha256_spec`].
#[verifier::external_body]
pub(crate) fn hkdf_sha256(salt: &[u8], ikm: &[u8], info: &[u8], len: usize) -> (okm: Vec<u8>)
    requires
        len <= HKDF_MAX_OUTPUT,
    ensures
        okm@ == hkdf_sha256_spec(salt@, ikm@, info@, len as nat),
        okm@.len() == len,
{
    let hk = Hkdf::<Sha256>::new(Some(salt), ikm);
    let mut okm = vec![0u8; len];
    match hk.expand(info, &mut okm) {
        Ok(()) => okm,
        Err(_) => Vec::new(),
    }
}

/// `ChaCha20Poly1305::encrypt` with a 32-byte key and 12-byte nonce. The
/// crate refuses only messages of 64 * (2^32 - 1) bytes or more, which
/// `requires` rules out. The result is the ciphertext with the 16-byte tag
/// appended, and decrypting it with the same key, nonce and associated data
/// gives the message back (the AEAD correctness the crate documents).
#[verifier::external_body]
pub(crate) fn aead_seal(key: &[u8; 32], nonce: &[u8; 12], msg: &[u8], aad: &[u8]) -> (ct: Vec<u8>)
    requires
        msg@.len() < AEAD_MAX_MESSAGE,
    ensures
        ct@ == aead_seal_spec(key@, nonce@, msg@, aad@),
        ct@.len() == msg@.len() + 16,
        aead_open_spec(key@, nonce@, ct@, aad@) == Some(msg@),
{
    match ChaCha20Poly1305::new_from_slice(key) {
        Ok(cipher) => match cipher.encrypt(Nonce::from_slice(nonce), Payload { msg, aad }) {
            Ok(ct) => ct,
            Err(_) => Vec::new(),
        },
        Err(_) => Vec::new(),
    }
}

/// `ChaCha20Poly1305::decrypt` with a 32-byte key and 12-byte nonce: the
/// plaintext, or nothing when authentication fails.
#[verifier::external_body]
pub(crate) fn aead_open(key: &[u8; 32], nonce: &[u8], ct: &[u8], aad: &[u8]) -> (r: Option<Vec<u8>>)
    requires
        nonce@.len() == 12,
    ensures
        r is Some == aead_open_spec(key@, nonce@, ct@, aad@) is Some,
        r is Some ==> r->Some_0@ == aead_open_spec(key@, nonce@, ct@, aad@)->Some_0,
{
    match ChaCha20Poly1305::new_from_slice(key) {
        Ok(cipher) => cipher.decrypt(Nonce::from_slice(nonce), Payload { msg: ct, aad }).ok(),
        Err(_) => None,
    }
}

/// `OsRng::fill_bytes` into `len` fresh bytes. Nothing is promised of the
/// bytes but their number; the call does not return if the operating
/// system's generator fails.
#[verifier::external_body]
pub(crate) fn random_bytes(len: usize) -> (out: Vec<u8>)
    ensures
        out@.len() == len,
{
    let mut out = vec![0u8; len];
    OsRng.fill_bytes(&mut out);
    out
}

/// Both ends of an X25519 agreement get the same secret: whichever other
/// 32-byte secret meets `public`, it shares with `secret` what `secret`
/// shares with that other secret's public key.
pub open spec fn x25519_agrees(secret: Seq<u8>, public: Seq<u8>) -> bool {
    forall|other: Seq<u8>|
        other.len() == 32 ==> #[trigger] x25519_shared_spec(other, public) == x25519_shared_spec(
            secret,
            x25519_public_spec(other),
        )
}

/// `public` is the X25519 public key of the 32-byte `secret`, with the
/// agreement property such a pair has.
pub open spec fn x25519_key_pair(secret: Seq<u8>, public: Seq<u8>) -> bool {
    &&& secret.len() == 32
    &&& public == x25519_public_spec(secret)
    &&& x25519_agrees(secret, public)
}

/// `PublicKey::from(&StaticSecret::from(secret))` as bytes. The key agrees
/// with every other static secret: x25519-dalek's README shows two parties
/// that each call `diffie_hellman` with the other's public key getting the
/// same bytes, and both `diffie_hellman` and `PublicKey::from` multiply by
/// the clamped secret (`mul_clamped`, `mul_base_clamped`), so the two
/// products commute.
#[verifier::external_body]
pub(crate) fn x25519_public(secret: &[u8; 32]) -> (public: [u8; 32])
    ensures
        public@ == x25519_public_spec(secret@),
        x25519_agrees(secret@, public@),
{
    PublicKey::from(&StaticSecret::from(*secret)).to_bytes()
}

/// `StaticSecret::from(secret).diffie_hellman(&PublicKey::from(peer))` as bytes.
/// The all-zero public key forces the all-zero shared value whatever the
/// secret, as x25519-dalek's documentation of `was_contributory` explains.
#[verifier::external_body]
pub(crate) fn x25519_shared(secret: &[u8; 32], peer: &[u8; 32]) -> (shared: [u8; 32])
    ensures
        shared@ == x25519_shared_spec(secret@, peer@),
        peer@ == Seq::new(32, |i: int| 0u8) ==> forall|i: int| 0 <= i < 32 ==> shared@[i] == 0u8,
{
    StaticSecret::from(*secret).diffie_hellman(&PublicKey::from(*peer)).to_bytes()
}

/// `SigningKey::from_bytes(seed).verifying_key()` as bytes. A key derived
/// from a signing key always decompresses again.
#[verifier::external_body]
pub(crate) fn ed25519_public(seed: &[u8; 32]) -> (public: [u8; 32])
    ensures
        public@ == ed25519_public_spec(seed@),
        ed25519_key_valid_spec(public@),
{
    SigningKey::from_bytes(seed).verifying_key().to_bytes()
}

/// `SigningKey::from_bytes(seed).sign(msg)` as bytes. The signature verifies
/// under the seed's own verifying key (the scheme's correctness).
#[verifier::external_body]
pub(crate) fn ed25519_sign(seed: &[u8; 32], msg: &[u8]) -> (sig: [u8; 64])
    ensures
        sig@ == ed25519_sign_spec(seed@, msg@),
        ed25519_verify_spec(ed25519_public_spec(seed@), msg@, sig@),
{
    SigningKey::from_bytes(seed).sign(msg).to_bytes()
}

/// `VerifyingKey::from_bytes(public).is_ok()`.
#[verifier::external_body]
pub(crate) fn ed25519_key_valid(public: &[u8; 32]) -> (r: bool)
    ensures
        r == ed25519_key_valid_spec(public@),
{
    VerifyingKey::from_bytes(public).is_ok()
}

/// `VerifyingKey::from_bytes(public)` then `Verifier::verify` of `msg` against
/// `Signature::from_bytes(sig)`; false when the key does not decompress.
#[verifier::external_body]
pub(crate) fn ed25519_verify(public: &[u8; 32], msg: &[u8], sig: &[u8; 64]) -> (r: bool)
    ensures
        r == ed25519_verify_spec(public@, msg@, sig@),
        r ==> ed25519_key_valid_spec(public@),
{
    match VerifyingKey::from_bytes(public) {
        Ok(key) => key.verify(msg, &Signature::from_bytes(sig)).is_ok(),
        Err(_) => false,
    }
}

/// `Zeroize::zeroize` on a 32-byte secret: the crate overwrites every byte
/// with zero through volatile writes, so the wipe is not optimised away.
#[verifier::external_body]
pub(crate) fn wipe_32(secret: &mut [u8; 32])
    ensures
        final(secret)@ == Seq::new(32, |i: int| 0u8),
    opens_invariants none
    no_unwind
{
    secret.zeroize();
}

/// `Zeroize::zeroize` on a byte vector: the crate overwrites its bytes and
/// spare capacity with zero and then clears it, leaving it empty.
#[verifier::external_body]
pub(crate) fn wipe_bytes(bytes: &mut Vec<u8>)
    ensures
        final(bytes)@ == Seq::<u8>::empty(),
    opens_invariants none
    no_unwind
{
    bytes.zeroize();
}

/// `Zeroize::zeroize` on a vector of counters with their 32-byte keys: the
/// crate overwrites every entry and the spare capacity with zero and then
/// clears the vector, leaving it empty.
#[verifier::external_body]
pub(crate) fn wipe_keyed_secrets(entries: &mut Vec<(u64, [u8; 32])>)
    ensures
        final(entries)@ == Seq::<(u64, [u8; 32])>::empty(),
    opens_invariants none
    no_unwind
{
    entries.zeroize();
}

/// `Sha256::digest(data)` as bytes.
#[verifier::external_body]
pub(crate) fn sha256(data: &[u8]) -> (digest: [u8; 32])
    ensures
        digest@ == sha256_spec(data@),
{
    Sha256::digest(data).into()
}

} // verus!
