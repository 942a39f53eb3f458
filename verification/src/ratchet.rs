//! Staged symmetric ratchet: each step derives a fresh message key with
//! domain-separated HKDF-SHA256 and advances the chain. The receive side
//! keeps the keys of skipped messages so that out-of-order delivery works
//! and replays are refused, and can be persisted as a canonical snapshot.
use vstd::prelude::*;
use crate::primitives::{
    hkdf_sha256, hkdf_sha256_spec, aead_seal, aead_seal_spec, aead_open, aead_open_spec,
    random_bytes, wipe_32, wipe_bytes, AEAD_MAX_MESSAGE,
};
use crate::wire::{be64, push_be64, push_bytes, copy_32};

verus! {

/// "NEXA/CHAIN/v1"
pub open spec fn chain_domain() -> Seq<u8> {
    seq![78u8, 69u8, 88u8, 65u8, 47u8, 67u8, 72u8, 65u8, 73u8, 78u8, 47u8, 118u8, 49u8]
}

/// "NEXA/MESSAGE/v1"
pub open spec fn message_domain() -> Seq<u8> {
    seq![78u8, 69u8, 88u8, 65u8, 47u8, 77u8, 69u8, 83u8, 83u8, 65u8, 71u8, 69u8, 47u8, 118u8, 49u8]
}

/// "initial-chain"
pub open spec fn initial_chain_info() -> Seq<u8> {
    seq![105u8, 110u8, 105u8, 116u8, 105u8, 97u8, 108u8, 45u8, 99u8, 104u8, 97u8, 105u8, 110u8]
}

fn chain_domain_bytes() -> (v: Vec<u8>)
    ensures
        v@ == chain_domain(),
{
    let v = vec![78u8, 69u8, 88u8, 65u8, 47u8, 67u8, 72u8, 65u8, 73u8, 78u8, 47u8, 118u8, 49u8];
    assert(v@ =~= chain_domain());
    v
}

fn message_domain_bytes() -> (v: Vec<u8>)
    ensures
        v@ == message_domain(),
{
    let v = vec![78u8, 69u8, 88u8, 65u8, 47u8, 77u8, 69u8, 83u8, 83u8, 65u8, 71u8, 69u8, 47u8, 118u8, 49u8];
    assert(v@ =~= message_domain());
    v
}

fn initial_chain_info_bytes() -> (v: Vec<u8>)
    ensures
        v@ == initial_chain_info(),
{
    let v = vec![105u8, 110u8, 105u8, 116u8, 105u8, 97u8, 108u8, 45u8, 99u8, 104u8, 97u8, 105u8, 110u8];
    assert(v@ =~= initial_chain_info());
    v
}

/// The chain key a root key starts from.
pub open spec fn initial_chain(root: Seq<u8>) -> Seq<u8> {
    hkdf_sha256_spec(chain_domain(), root, initial_chain_info(), 32)
}

/// The key of message `counter` derived from the current chain key.
pub open spec fn message_key(chain: Seq<u8>, counter: u64) -> Seq<u8> {
    hkdf_sha256_spec(message_domain(), chain, be64(counter), 32)
}

/// The chain key that follows `chain` once message `counter` is keyed.
pub open spec fn next_chain(chain: Seq<u8>, counter: u64) -> Seq<u8> {
    hkdf_sha256_spec(chain_domain(), chain, be64(counter), 32)
}

/// A message key and the chain step that follows it are HKDF of the same
/// chain key and big-endian counter under two different salts ("NEXA/MESSAGE/v1"
/// for the key, "NEXA/CHAIN/v1" for the step), so the key handed out is
/// never derived the way the next chain key is.
pub proof fn lemma_message_key_separate_from_chain_step(chain: Seq<u8>, counter: u64)
    ensures
        message_key(chain, counter) == hkdf_sha256_spec(message_domain(), chain, be64(counter), 32),
        next_chain(chain, counter) == hkdf_sha256_spec(chain_domain(), chain, be64(counter), 32),
        message_domain() != chain_domain(),
        message_domain() =~= seq![78u8, 69u8, 88u8, 65u8, 47u8, 77u8, 69u8, 83u8, 83u8, 65u8, 71u8, 69u8, 47u8, 118u8, 49u8],
        chain_domain() =~= seq![78u8, 69u8, 88u8, 65u8, 47u8, 67u8, 72u8, 65u8, 73u8, 78u8, 47u8, 118u8, 49u8],
{
    assert(message_domain().len() != chain_domain().len());
}

/// The chain key after `n` steps from `chain` at counter `c`.
pub open spec fn chain_at(chain: Seq<u8>, c: int, n: nat) -> Seq<u8>
    decreases n,
{
    if n == 0 {
        chain
    } else {
        next_chain(chain_at(chain, c, (n - 1) as nat), (c + n - 1) as u64)
    }
}

/// The key of message `c + n` for a chain that stood at `chain` at counter `c`.
pub open spec fn key_at(chain: Seq<u8>, c: int, n: nat) -> Seq<u8> {
    message_key(chain_at(chain, c, n), (c + n) as u64)
}

#[derive(Debug, Clone, PartialEq, Eq)]
pub enum RatchetError {
    Kdf,
    Encryption,
    Decryption,
    InvalidNonce,
}

/// Sending (and, inside [`ReceiveRatchet`], receiving) chain state.
#[derive(Clone)]
pub struct RatchetState {
    chain_key: [u8; 32],
    next_counter: u64,
}

impl Drop for RatchetState {
    /// Wipes the chain key.
    fn drop(&mut self)
        opens_invariants none
        no_unwind
    {
        wipe_32(&mut self.chain_key);
    }
}

/// Mathematical value of a [`RatchetState`].
pub struct RatchetView {
    pub chain: Seq<u8>,
    pub counter: u64,
}

impl View for RatchetState {
    type V = RatchetView;

    closed spec fn view(&self) -> RatchetView {
        RatchetView { chain: self.chain_key@, counter: self.next_counter }
    }
}

/// What decrypting a nonce-prefixed packet with `key` yields.
pub open spec fn packet_open(key: Seq<u8>, packet: Seq<u8>, aad: Seq<u8>) -> Result<Seq<u8>, RatchetError> {
    if packet.len() < 12 {
        Err(RatchetError::InvalidNonce)
    } else {
        match aead_open_spec(key, packet.subrange(0, 12), packet.subrange(12, packet.len() as int), aad) {
            Some(p) => Ok(p),
            None => Err(RatchetError::Decryption),
        }
    }
}

impl RatchetState {
    /// The chain key is always 32 bytes.
    pub proof fn lemma_chain_len(&self)
        ensures
            self@.chain.len() == 32,
    {
    }

    /// Starts a chain from a session root.
    pub fn from_root(root: [u8; 32]) -> (r: Result<Self, RatchetError>)
        ensures
            r is Ok,
            r->Ok_0@.chain == initial_chain(root@),
            r->Ok_0@.counter == 0,
    {
        let chain = hkdf_sha256(&chain_domain_bytes(), &root, &initial_chain_info_bytes(), 32);
        Ok(RatchetState { chain_key: copy_32(chain.as_slice(), 0), next_counter: 0 })
    }

    /// Rebuilds a state from its parts, as a snapshot stores them.
    pub fn from_parts(chain_key: [u8; 32], next_counter: u64) -> (s: Self)
        ensures
            s@.chain == chain_key@,
            s@.counter == next_counter,
    {
        RatchetState { chain_key, next_counter }
    }

    /// The chain key, for the receive snapshot.
    pub(crate) fn chain_key_bytes(&self) -> (k: [u8; 32])
        ensures
            k@ == self@.chain,
    {
        self.chain_key
    }

    /// An identical copy of this state.
    pub(crate) fn duplicate(&self) -> (s: Self)
        ensures
            s@ == self@,
    {
        RatchetState { chain_key: self.chain_key, next_counter: self.next_counter }
    }

    /// The counter of the next message key.
    pub fn counter(&self) -> (c: u64)
        ensures
            c == self@.counter,
    {
        self.next_counter
    }

    /// Derives a one-use message key and advances the chain. At the last
    /// counter the chain still advances but the counter cannot, and the
    /// call fails.
    pub fn next_message_key(&mut self) -> (r: Result<[u8; 32], RatchetError>)
        ensures
            final(self)@.chain == next_chain(old(self)@.chain, old(self)@.counter),
            old(self)@.counter < u64::MAX ==> r is Ok && r->Ok_0@ == message_key(
                old(self)@.chain,
                old(self)@.counter,
            ) && final(self)@.counter == old(self)@.counter + 1,
            old(self)@.counter == u64::MAX ==> r == Err::<[u8; 32], RatchetError>(RatchetError::Kdf)
                && final(self)@.counter == old(self)@.counter,
    {
        let mut current = self.chain_key;
        let mut info: Vec<u8> = Vec::new();
        push_be64(&mut info, self.next_counter);
        assert(info@ =~= be64(self.next_counter));
        let mut message = hkdf_sha256(&message_domain_bytes(), &current, info.as_slice(), 32);
        let mut next = hkdf_sha256(&chain_domain_bytes(), &current, info.as_slice(), 32);
        self.chain_key = copy_32(next.as_slice(), 0);
        assert(next@.subrange(0, 32) =~= next@);
        assert(message@.subrange(0, 32) =~= message@);
        let key = copy_32(message.as_slice(), 0);
        wipe_32(&mut current);
        wipe_bytes(&mut message);
        wipe_bytes(&mut next);
        if self.next_counter == u64::MAX {
            return Err(RatchetError::Kdf);
        }
        self.next_counter = self.next_counter + 1;
        Ok(key)
    }

    /// Encrypts under the next message key with a fresh random nonce; the
    /// packet is the nonce followed by the AEAD ciphertext and tag.
    pub fn encrypt(&mut self, plaintext: &[u8], aad: &[u8]) -> (r: Result<Vec<u8>, RatchetError>)
        ensures
            final(self)@.chain == next_chain(old(self)@.chain, old(self)@.counter),
            old(self)@.counter == u64::MAX ==> r == Err::<Vec<u8>, RatchetError>(RatchetError::Kdf)
                && final(self)@.counter == old(self)@.counter,
            old(self)@.counter < u64::MAX ==> final(self)@.counter == old(self)@.counter + 1,
            old(self)@.counter < u64::MAX && plaintext@.len() >= AEAD_MAX_MESSAGE ==> r == Err::<
                Vec<u8>,
                RatchetError,
            >(RatchetError::Encryption),
            old(self)@.counter < u64::MAX && plaintext@.len() < AEAD_MAX_MESSAGE ==> {
                let key = message_key(old(self)@.chain, old(self)@.counter);
                &&& r is Ok
                &&& r->Ok_0@.len() == 12 + plaintext@.len() + 16
                &&& r->Ok_0@.subrange(12, r->Ok_0@.len() as int) == aead_seal_spec(
                    key,
                    r->Ok_0@.subrange(0, 12),
                    plaintext@,
                    aad@,
                )
                &&& packet_open(key, r->Ok_0@, aad@) == Ok::<Seq<u8>, RatchetError>(plaintext@)
            },
    {
        let mut key = self.next_message_key()?;
        if plaintext.len() as u64 >= AEAD_MAX_MESSAGE {
            wipe_32(&mut key);
            return Err(RatchetError::Encryption);
        }
        let nonce_bytes = random_bytes(12);
        let mut nonce = [0u8; 12];
        let mut i: usize = 0;
        while i < 12
            invariant
                i <= 12,
                nonce_bytes@.len() == 12,
                nonce@.len() == 12,
                forall|j: int| 0 <= j < i ==> nonce@[j] == nonce_bytes@[j],
            decreases 12 - i,
        {
            nonce[i] = nonce_bytes[i];
            i = i + 1;
        }
        let ciphertext = aead_seal(&key, &nonce, plaintext, aad);
        wipe_32(&mut key);
        let mut out: Vec<u8> = Vec::new();
        push_bytes(&mut out, &nonce);
        push_bytes(&mut out, ciphertext.as_slice());
        assert(out@.subrange(0, 12) =~= nonce@);
        assert(out@.subrange(12, out@.len() as int) =~= ciphertext@);
        Ok(out)
    }

    /// Decrypts a nonce-prefixed packet with a given message key.
    pub fn decrypt_once(key: &[u8; 32], packet: &[u8], aad: &[u8]) -> (r: Result<Vec<u8>, RatchetError>)
        ensures
            match packet_open(key@, packet@, aad@) {
                Ok(p) => r is Ok && r->Ok_0@ == p,
                Err(e) => r == Err::<Vec<u8>, RatchetError>(e),
            },
    {
        if packet.len() < 12 {
            return Err(RatchetError::InvalidNonce);
        }
        let nonce = crate::wire::copy_range(packet, 0, 12);
        let body = crate::wire::copy_range(packet, 12, packet.len());
        match aead_open(key, nonce.as_slice(), body.as_slice(), aad) {
            Some(p) => Ok(p),
            None => Err(RatchetError::Decryption),
        }
    }
}

} // verus!
