//! Account/device identity keys, signed prekeys and one-time prekeys.
use vstd::prelude::*;
use crate::primitives::{
    random_bytes, wipe_32, x25519_public, x25519_key_pair, x25519_shared, x25519_shared_spec, ed25519_public,
    ed25519_public_spec, ed25519_sign, ed25519_sign_spec, ed25519_verify, ed25519_verify_spec,
    ed25519_key_valid_spec,
};
use crate::wire::{be32, push_be32, push_bytes, copy_32};

verus! {

#[derive(Debug, Clone, Copy, PartialEq, Eq, Hash)]
pub struct DeviceId(pub [u8; 16]);

#[derive(Debug, Clone, Copy, PartialEq, Eq)]
pub enum VerificationState {
    Unverified,
    Verified,
    Changed,
    Revoked,
}

/// 32 fresh random bytes.
fn random_32() -> (out: [u8; 32]) {
    let bytes = random_bytes(32);
    copy_32(bytes.as_slice(), 0)
}

/// Long-lived device identity: an Ed25519 signing key and an X25519
/// agreement key.
pub struct IdentityKey {
    signing_seed: [u8; 32],
    agreement_secret: [u8; 32],
    agreement_public: [u8; 32],
}

impl Drop for IdentityKey {
    /// Wipes both secrets.
    fn drop(&mut self)
        opens_invariants none
        no_unwind
    {
        wipe_32(&mut self.signing_seed);
        wipe_32(&mut self.agreement_secret);
    }
}

/// Mathematical value of an [`IdentityKey`]: its two secrets.
pub struct IdentityView {
    pub signing_seed: Seq<u8>,
    pub agreement_secret: Seq<u8>,
    pub agreement_public: Seq<u8>,
}

impl View for IdentityKey {
    type V = IdentityView;

    closed spec fn view(&self) -> IdentityView {
        IdentityView {
            signing_seed: self.signing_seed@,
            agreement_secret: self.agreement_secret@,
            agreement_public: self.agreement_public@,
        }
    }
}

impl IdentityKey {
    /// The stored agreement public key belongs to the agreement secret.
    pub open spec fn wf(&self) -> bool {
        x25519_key_pair(self@.agreement_secret, self@.agreement_public)
    }

    /// Both secrets are fresh random bytes.
    pub fn generate() -> (k: Self)
        ensures
            k.wf(),
    {
        let signing_seed = random_32();
        let agreement_secret = random_32();
        let agreement_public = x25519_public(&agreement_secret);
        IdentityKey { signing_seed, agreement_secret, agreement_public }
    }

    /// The Ed25519 verifying key.
    pub fn public_key(&self) -> (p: [u8; 32])
        ensures
            p@ == ed25519_public_spec(self@.signing_seed),
            ed25519_key_valid_spec(p@),
    {
        ed25519_public(&self.signing_seed)
    }

    /// Signs `message` with the identity key.
    pub fn sign(&self, message: &[u8]) -> (sig: [u8; 64])
        ensures
            sig@ == ed25519_sign_spec(self@.signing_seed, message@),
            ed25519_verify_spec(ed25519_public_spec(self@.signing_seed), message@, sig@),
    {
        ed25519_sign(&self.signing_seed, message)
    }

    /// The X25519 agreement public key.
    pub fn agreement_public_key(&self) -> (p: [u8; 32])
        ensures
            p@ == self@.agreement_public,
    {
        self.agreement_public
    }

    /// X25519 agreement with a peer public key.
    pub fn agreement_diffie_hellman(&self, peer_public: &[u8; 32]) -> (s: [u8; 32])
        ensures
            s@ == x25519_shared_spec(self@.agreement_secret, peer_public@),
    {
        x25519_shared(&self.agreement_secret, peer_public)
    }
}

/// Medium-term X25519 prekey whose public half the identity signs.
pub struct SignedPrekey {
    secret: [u8; 32],
    public: [u8; 32],
}

impl Drop for SignedPrekey {
    /// Wipes the secret.
    fn drop(&mut self)
        opens_invariants none
        no_unwind
    {
        wipe_32(&mut self.secret);
    }
}

/// Mathematical value of a [`SignedPrekey`].
pub struct SignedPrekeyView {
    pub secret: Seq<u8>,
    pub public: Seq<u8>,
}

impl View for SignedPrekey {
    type V = SignedPrekeyView;

    closed spec fn view(&self) -> SignedPrekeyView {
        SignedPrekeyView { secret: self.secret@, public: self.public@ }
    }
}

impl SignedPrekey {
    /// The public half belongs to the secret half.
    pub open spec fn wf(&self) -> bool {
        x25519_key_pair(self@.secret, self@.public)
    }

    pub fn generate() -> (k: Self)
        ensures
            k.wf(),
    {
        let secret = random_32();
        let public = x25519_public(&secret);
        SignedPrekey { secret, public }
    }

    pub fn public_key(&self) -> (p: [u8; 32])
        ensures
            p@ == self@.public,
    {
        self.public
    }

    pub fn diffie_hellman(&self, peer_public: &[u8; 32]) -> (s: [u8; 32])
        ensures
            s@ == x25519_shared_spec(self@.secret, peer_public@),
    {
        x25519_shared(&self.secret, peer_public)
    }
}

/// Single-use X25519 prekey, addressed by `key_id`.
pub struct OneTimePrekey {
    pub key_id: u32,
    secret: [u8; 32],
    public: [u8; 32],
}

impl Drop for OneTimePrekey {
    /// Wipes the secret.
    fn drop(&mut self)
        opens_invariants none
        no_unwind
    {
        wipe_32(&mut self.secret);
    }
}

/// Mathematical value of a [`OneTimePrekey`].
pub struct OneTimePrekeyView {
    pub key_id: u32,
    pub secret: Seq<u8>,
    pub public: Seq<u8>,
}

impl View for OneTimePrekey {
    type V = OneTimePrekeyView;

    closed spec fn view(&self) -> OneTimePrekeyView {
        OneTimePrekeyView { key_id: self.key_id, secret: self.secret@, public: self.public@ }
    }
}

impl OneTimePrekey {
    pub open spec fn wf(&self) -> bool {
        x25519_key_pair(self@.secret, self@.public)
    }

    pub fn generate(key_id: u32) -> (k: Self)
        ensures
            k.wf(),
            k@.key_id == key_id,
    {
        let secret = random_32();
        let public = x25519_public(&secret);
        OneTimePrekey { key_id, secret, public }
    }

    pub fn public_key(&self) -> (p: [u8; 32])
        ensures
            p@ == self@.public,
    {
        self.public
    }

    /// The id the prekey is published under.
    pub fn id(&self) -> (id: u32)
        ensures
            id == self@.key_id,
    {
        self.key_id
    }

    /// X25519 agreement; consumes the prekey so it cannot be used twice.
    pub fn diffie_hellman(self, peer_public: &[u8; 32]) -> (s: [u8; 32])
        ensures
            s@ == x25519_shared_spec(self@.secret, peer_public@),
    {
        x25519_shared(&self.secret, peer_public)
    }
}

/// "NEXA/SPK/v2"
pub open spec fn signed_prekey_domain() -> Seq<u8> {
    seq![78u8, 69u8, 88u8, 65u8, 47u8, 83u8, 80u8, 75u8, 47u8, 118u8, 50u8]
}

/// The bytes an identity signs to bind a signed prekey and its own
/// agreement key: domain, key id, prekey, agreement key.
pub open spec fn signed_prekey_message(key_id: u32, public_key: Seq<u8>, agreement_public_key: Seq<u8>) -> Seq<u8> {
    signed_prekey_domain() + be32(key_id) + public_key + agreement_public_key
}

/// Publishable record of a signed prekey.
#[derive(Debug, Clone, PartialEq, Eq)]
pub struct SignedPrekeyRecord {
    pub key_id: u32,
    pub public_key: [u8; 32],
    pub agreement_public_key: [u8; 32],
    pub signature: [u8; 64],
}

impl SignedPrekeyRecord {
    pub fn signing_bytes(key_id: u32, public_key: &[u8; 32], agreement_public_key: &[u8; 32]) -> (out: Vec<u8>)
        ensures
            out@ == signed_prekey_message(key_id, public_key@, agreement_public_key@),
    {
        let mut out = vec![78u8, 69u8, 88u8, 65u8, 47u8, 83u8, 80u8, 75u8, 47u8, 118u8, 50u8];
        assert(out@ =~= signed_prekey_domain());
        push_be32(&mut out, key_id);
        push_bytes(&mut out, public_key);
        push_bytes(&mut out, agreement_public_key);
        out
    }

    /// Whether the record is signed by the identity whose verifying key is
    /// `identity_public`.
    pub fn verify(&self, identity_public: &[u8; 32]) -> (ok: bool)
        ensures
            ok == ed25519_verify_spec(
                identity_public@,
                signed_prekey_message(self.key_id, self.public_key@, self.agreement_public_key@),
                self.signature@,
            ),
    {
        let bytes = Self::signing_bytes(self.key_id, &self.public_key, &self.agreement_public_key);
        ed25519_verify(identity_public, bytes.as_slice(), &self.signature)
    }
}

} // verus!
