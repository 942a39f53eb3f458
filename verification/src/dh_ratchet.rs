//! Staged DH-ratchet state transition: rotates the root key with fresh
//! X25519 material and yields a new chain seed.
use vstd::prelude::*;
use crate::primitives::{hkdf_sha256, hkdf_sha256_spec, x25519_key_pair, x25519_public, x25519_public_spec, x25519_shared, x25519_shared_spec, random_bytes, wipe_32, wipe_bytes};
use crate::wire::{all_zero, copy_32, push_bytes};

verus! {

/// "NEXA/DH-RATCHET/v1"
pub open spec fn dh_root_domain() -> Seq<u8> {
    seq![78u8, 69u8, 88u8, 65u8, 47u8, 68u8, 72u8, 45u8, 82u8, 65u8, 84u8, 67u8, 72u8, 69u8, 84u8, 47u8, 118u8, 49u8]
}

/// The 64 bytes a transition expands to: HKDF keyed by the current root,
/// with the shared secret and the root as info. The first half is the next
/// root, the second the chain seed.
pub open spec fn dh_expansion(root: Seq<u8>, shared: Seq<u8>) -> Seq<u8> {
    hkdf_sha256_spec(dh_root_domain(), root, shared + root, 64)
}

/// Whether a shared secret is all zero bytes (a low-order peer key).
pub open spec fn is_all_zero(s: Seq<u8>) -> bool {
    forall|i: int| 0 <= i < s.len() ==> s[i] == 0u8
}

#[derive(Debug, Clone, PartialEq, Eq)]
pub enum DhRatchetError {
    InvalidPeerKey,
    Kdf,
}

pub struct DhRatchetState {
    root_key: [u8; 32],
    private: [u8; 32],
    pub public: [u8; 32],
}

impl Drop for DhRatchetState {
    /// Wipes the root key and the private key.
    fn drop(&mut self)
        opens_invariants none
        no_unwind
    {
        wipe_32(&mut self.root_key);
        wipe_32(&mut self.private);
    }
}

/// Mathematical value of a [`DhRatchetState`].
pub struct DhRatchetView {
    pub root: Seq<u8>,
    pub private: Seq<u8>,
    pub public: Seq<u8>,
}

impl View for DhRatchetState {
    type V = DhRatchetView;

    closed spec fn view(&self) -> DhRatchetView {
        DhRatchetView { root: self.root_key@, private: self.private@, public: self.public@ }
    }
}

impl DhRatchetState {
    /// The published public key belongs to the current private key.
    pub open spec fn wf(&self) -> bool {
        x25519_key_pair(self@.private, self@.public)
    }

    /// A state at `root_key` with a fresh random private key.
    pub fn new(root_key: [u8; 32]) -> (s: Self)
        ensures
            s.wf(),
            s@.root == root_key@,
    {
        let bytes = random_bytes(32);
        let private = copy_32(bytes.as_slice(), 0);
        let public = x25519_public(&private);
        DhRatchetState { root_key, private, public }
    }

    /// The current public key.
    pub fn public_key(&self) -> (p: [u8; 32])
        ensures
            p@ == self@.public,
    {
        self.public
    }

    pub fn root_key(&self) -> (r: &[u8; 32])
        ensures
            r@ == self@.root,
    {
        &self.root_key
    }

    /// Performs one DH transition with `peer_public`: returns the new root
    /// and a fresh chain seed and replaces the key pair with one drawn from
    /// the operating system's generator. An all-zero shared secret is
    /// refused and changes nothing.
    pub fn ratchet(&mut self, peer_public: [u8; 32]) -> (r: Result<([u8; 32], [u8; 32]), DhRatchetError>)
        requires
            old(self).wf(),
        ensures
            final(self).wf(),
            ({
                let shared = x25519_shared_spec(old(self)@.private, peer_public@);
                let out = dh_expansion(old(self)@.root, shared);
                &&& is_all_zero(shared) ==> r == Err::<([u8; 32], [u8; 32]), DhRatchetError>(
                    DhRatchetError::InvalidPeerKey,
                ) && final(self)@ == old(self)@
                &&& peer_public@ == Seq::new(32, |i: int| 0u8) ==> is_all_zero(shared)
                &&& !is_all_zero(shared) ==> r is Ok && r->Ok_0.0@ == out.subrange(0, 32) && r->Ok_0.1@
                    == out.subrange(32, 64) && final(self)@.root == out.subrange(0, 32)
            }),
    {
        let bytes = random_bytes(32);
        let fresh = copy_32(bytes.as_slice(), 0);
        self.ratchet_with(peer_public, fresh)
    }

    /// One DH transition with `peer_public` that rotates to the key pair of
    /// the given `fresh` secret: on success the root is the first half of
    /// the expansion, the chain seed the second half, and the private key
    /// is `fresh` with its public key beside it. An all-zero shared secret
    /// is refused and changes nothing.
    pub fn ratchet_with(&mut self, peer_public: [u8; 32], fresh: [u8; 32]) -> (r: Result<([u8; 32], [u8; 32]), DhRatchetError>)
        requires
            old(self).wf(),
        ensures
            final(self).wf(),
            ({
                let shared = x25519_shared_spec(old(self)@.private, peer_public@);
                let out = dh_expansion(old(self)@.root, shared);
                &&& is_all_zero(shared) ==> r == Err::<([u8; 32], [u8; 32]), DhRatchetError>(
                    DhRatchetError::InvalidPeerKey,
                ) && final(self)@ == old(self)@
                &&& peer_public@ == Seq::new(32, |i: int| 0u8) ==> is_all_zero(shared)
                &&& !is_all_zero(shared) ==> {
                    &&& r is Ok
                    &&& r->Ok_0.0@ == out.subrange(0, 32)
                    &&& r->Ok_0.1@ == out.subrange(32, 64)
                    &&& final(self)@.root == out.subrange(0, 32)
                    &&& final(self)@.private == fresh@
                    &&& final(self)@.public == x25519_public_spec(fresh@)
                }
            }),
    {
        let dh = x25519_shared(&self.private, &peer_public);
        if all_zero(&dh) {
            return Err(DhRatchetError::InvalidPeerKey);
        }
        let domain = vec![78u8, 69u8, 88u8, 65u8, 47u8, 68u8, 72u8, 45u8, 82u8, 65u8, 84u8, 67u8, 72u8, 69u8, 84u8, 47u8, 118u8, 49u8];
        assert(domain@ =~= dh_root_domain());
        let mut info: Vec<u8> = Vec::new();
        push_bytes(&mut info, &dh);
        push_bytes(&mut info, &self.root_key);
        let mut expanded = hkdf_sha256(domain.as_slice(), &self.root_key, info.as_slice(), 64);
        let next_root = copy_32(expanded.as_slice(), 0);
        let chain = copy_32(expanded.as_slice(), 32);
        wipe_bytes(&mut info);
        wipe_bytes(&mut expanded);
        let mut dh = dh;
        wipe_32(&mut dh);
        self.root_key = next_root;
        self.private = fresh;
        self.public = x25519_public(&self.private);
        Ok((next_root, chain))
    }
}

/// Two parties at the same root that each ratchet with the other's current
/// public key compute the same shared secret, and so derive the same next
/// root and chain seed.
pub proof fn lemma_both_sides_derive_same_transition(a: DhRatchetState, b: DhRatchetState)
    requires
        a.wf(),
        b.wf(),
        a@.root == b@.root,
    ensures
        x25519_shared_spec(a@.private, b@.public) == x25519_shared_spec(b@.private, a@.public),
        dh_expansion(a@.root, x25519_shared_spec(a@.private, b@.public)) == dh_expansion(
            b@.root,
            x25519_shared_spec(b@.private, a@.public),
        ),
{
    assert(x25519_shared_spec(a@.private, b@.public) == x25519_shared_spec(b@.private, x25519_public_spec(a@.private)));
}

} // verus!
