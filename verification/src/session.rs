//! Session establishment: an X3DH-style handshake in which the initiator
//! checks the recipient's signed prekey, combines three or four X25519
//! agreements and derives a 32-byte session root with domain-separated HKDF;
//! the responder derives the same root from its private halves.
use vstd::prelude::*;
use crate::identity::{IdentityKey, OneTimePrekey, SignedPrekey, SignedPrekeyRecord, signed_prekey_message};
use crate::primitives::{
    ed25519_key_valid, ed25519_key_valid_spec, ed25519_verify_spec, hkdf_sha256, hkdf_sha256_spec,
    random_bytes, wipe_32, wipe_bytes, x25519_key_pair, x25519_public, x25519_public_spec, x25519_shared,
    x25519_shared_spec,
};
use crate::protocol::{PreKeyBundle, PROTOCOL_VERSION};
use crate::dh_ratchet::is_all_zero;
use crate::wire::{all_zero, be16, bytes_eq, copy_32, push_be16, push_bytes};

verus! {

/// "M/SESSION/v1"
pub open spec fn session_domain() -> Seq<u8> {
    seq![77u8, 47u8, 83u8, 69u8, 83u8, 83u8, 73u8, 79u8, 78u8, 47u8, 118u8, 49u8]
}

/// The session root: HKDF over the concatenated agreements, salted with the
/// session domain, with the protocol version, both device ids and the
/// initiator's ephemeral public key as info.
pub open spec fn session_root(ikm: Seq<u8>, initiator_device: Seq<u8>, responder_device: Seq<u8>, ephemeral_public: Seq<u8>) -> Seq<u8> {
    hkdf_sha256_spec(
        session_domain(),
        ikm,
        be16(PROTOCOL_VERSION) + initiator_device + responder_device + ephemeral_public,
        32,
    )
}

/// The session root is bound to both devices: it is HKDF, salted with the
/// session domain, of the agreements, with an info of 66 bytes that holds
/// the protocol version, then the initiator's device id, then the
/// responder's device id, then the ephemeral public key. So two handshakes
/// whose device ids differ derive their roots from different inputs.
pub proof fn lemma_session_root_binds_devices(
    ikm: Seq<u8>,
    initiator_device: Seq<u8>,
    responder_device: Seq<u8>,
    ephemeral_public: Seq<u8>,
)
    requires
        initiator_device.len() == 16,
        responder_device.len() == 16,
        ephemeral_public.len() == 32,
    ensures
        forall|info: Seq<u8>|
            info.len() == 66 && info.subrange(0, 2) == be16(PROTOCOL_VERSION) && info.subrange(2, 18)
                == initiator_device && info.subrange(18, 34) == responder_device && info.subrange(34, 66)
                == ephemeral_public ==> session_root(ikm, initiator_device, responder_device, ephemeral_public)
                == #[trigger] hkdf_sha256_spec(session_domain(), ikm, info, 32),
{
    assert forall|info: Seq<u8>|
        info.len() == 66 && info.subrange(0, 2) == be16(PROTOCOL_VERSION) && info.subrange(2, 18) == initiator_device
            && info.subrange(18, 34) == responder_device && info.subrange(34, 66) == ephemeral_public implies session_root(
        ikm,
        initiator_device,
        responder_device,
        ephemeral_public,
    ) == #[trigger] hkdf_sha256_spec(session_domain(), ikm, info, 32) by {
        let whole = be16(PROTOCOL_VERSION) + initiator_device + responder_device + ephemeral_public;
        assert forall|k: int| 0 <= k < 66 implies info[k] == whole[k] by {
            if k < 2 {
                assert(info.subrange(0, 2)[k] == info[k]);
            } else if k < 18 {
                assert(info.subrange(2, 18)[k - 2] == info[k]);
            } else if k < 34 {
                assert(info.subrange(18, 34)[k - 18] == info[k]);
            } else {
                assert(info.subrange(34, 66)[k - 34] == info[k]);
            }
        }
        assert(info =~= whole);
    }
}

#[derive(Debug, Clone, PartialEq, Eq)]
pub enum SessionError {
    ProtocolVersion,
    InvalidSignedPrekey,
    InvalidPeerIdentity,
    InvalidSharedSecret,
    KeyDerivation,
}

/// The initiator's fresh X25519 key for one handshake.
pub struct InitiatorEphemeral {
    secret: [u8; 32],
    pub public_key: [u8; 32],
}

/// Mathematical value of an [`InitiatorEphemeral`].
pub struct EphemeralView {
    pub secret: Seq<u8>,
    pub public: Seq<u8>,
}

impl View for InitiatorEphemeral {
    type V = EphemeralView;

    closed spec fn view(&self) -> EphemeralView {
        EphemeralView { secret: self.secret@, public: self.public_key@ }
    }
}

impl InitiatorEphemeral {
    pub open spec fn wf(&self) -> bool {
        x25519_key_pair(self@.secret, self@.public)
    }

    pub fn public(&self) -> (p: [u8; 32])
        ensures
            p@ == self@.public,
    {
        self.public_key
    }

    pub fn generate() -> (e: Self)
        ensures
            e.wf(),
    {
        let bytes = random_bytes(32);
        let secret = copy_32(bytes.as_slice(), 0);
        let public_key = x25519_public(&secret);
        InitiatorEphemeral { secret, public_key }
    }

    fn shared(&self, peer: &[u8; 32]) -> (s: [u8; 32])
        ensures
            s@ == x25519_shared_spec(self@.secret, peer@),
    {
        x25519_shared(&self.secret, peer)
    }
}

pub struct SessionRoot(pub [u8; 32]);

impl Drop for SessionRoot {
    /// Wipes the root.
    fn drop(&mut self)
        opens_invariants none
        no_unwind
    {
        wipe_32(&mut self.0);
    }
}

impl Drop for InitiatorEphemeral {
    /// Wipes the secret.
    fn drop(&mut self)
        opens_invariants none
        no_unwind
    {
        wipe_32(&mut self.secret);
    }
}

impl SessionRoot {
    pub fn as_bytes(&self) -> (b: &[u8; 32])
        ensures
            b@ == self.0@,
    {
        &self.0
    }
}

pub struct InitiatorSession {
    pub root: SessionRoot,
    pub peer_device_id: [u8; 16],
    pub used_one_time_prekey_id: Option<u32>,
}

pub struct ResponderSession {
    pub root: SessionRoot,
    pub peer_device_id: [u8; 16],
    pub used_one_time_prekey_id: Option<u32>,
}

/// Whether the recipient's bundle passes the initiator's checks: current
/// version, a decodable identity key, and a signed-prekey record that is
/// signed by that identity and names the bundle's prekey and agreement key.
/// Returns the first failed check.
pub open spec fn bundle_check(bundle: PreKeyBundle, record: SignedPrekeyRecord) -> Option<SessionError> {
    if bundle.protocol_version.0 != PROTOCOL_VERSION {
        Some(SessionError::ProtocolVersion)
    } else if !ed25519_key_valid_spec(bundle.identity_signing_key@) {
        Some(SessionError::InvalidPeerIdentity)
    } else if bundle.identity_agreement_key@ != record.agreement_public_key@ || !ed25519_verify_spec(
        bundle.identity_signing_key@,
        signed_prekey_message(record.key_id, record.public_key@, record.agreement_public_key@),
        record.signature@,
    ) || record.key_id != bundle.signed_prekey_id || record.public_key@ != bundle.signed_prekey@ {
        Some(SessionError::InvalidSignedPrekey)
    } else {
        None
    }
}

/// What the handshake derives from its agreements: the root when every
/// agreement is non-zero, and which one-time prekey was used.
pub open spec fn handshake_outcome(dh1: Seq<u8>, dh2: Seq<u8>, dh3: Seq<u8>, dh4: Option<(u32, Seq<u8>)>, initiator_device: Seq<u8>, responder_device: Seq<u8>, ephemeral_public: Seq<u8>) -> Result<(Seq<u8>, Option<u32>), SessionError> {
    if is_all_zero(dh1) || is_all_zero(dh2) || is_all_zero(dh3) {
        Err(SessionError::InvalidSharedSecret)
    } else {
        match dh4 {
            Some((id, dh)) => if is_all_zero(dh) {
                Err(SessionError::InvalidSharedSecret)
            } else {
                Ok((session_root(dh1 + dh2 + dh3 + dh, initiator_device, responder_device, ephemeral_public), Some(id)))
            },
            None => Ok((session_root(dh1 + dh2 + dh3, initiator_device, responder_device, ephemeral_public), None)),
        }
    }
}

/// Derives the root from the concatenated agreements; refused only for an
/// all-zero input.
fn derive_root(ikm: &[u8], initiator_device_id: &[u8; 16], responder_device_id: &[u8; 16], ephemeral_public: &[u8; 32]) -> (r: Option<SessionRoot>)
    ensures
        is_all_zero(ikm@) <==> r is None,
        r is Some ==> r->Some_0.0@ == session_root(ikm@, initiator_device_id@, responder_device_id@, ephemeral_public@),
{
    if all_zero(ikm) {
        return None;
    }
    let domain = vec![77u8, 47u8, 83u8, 69u8, 83u8, 83u8, 73u8, 79u8, 78u8, 47u8, 118u8, 49u8];
    assert(domain@ =~= session_domain());
    let mut info: Vec<u8> = Vec::with_capacity(70);
    push_be16(&mut info, PROTOCOL_VERSION);
    push_bytes(&mut info, initiator_device_id);
    push_bytes(&mut info, responder_device_id);
    push_bytes(&mut info, ephemeral_public);
    let mut out = hkdf_sha256(domain.as_slice(), ikm, info.as_slice(), 32);
    assert(out@.subrange(0, 32) =~= out@);
    let root = SessionRoot(copy_32(out.as_slice(), 0));
    wipe_bytes(&mut out);
    Some(root)
}

/// Runs the agreements' zero checks and the derivation shared by both roles.
fn combine(dh1: &[u8; 32], dh2: &[u8; 32], dh3: &[u8; 32], dh4: Option<(u32, [u8; 32])>, initiator_device_id: &[u8; 16], responder_device_id: &[u8; 16], ephemeral_public: &[u8; 32]) -> (r: Result<(SessionRoot, Option<u32>), SessionError>)
    ensures
        ({
            let d4 = match dh4 {
                Some((id, dh)) => Some((id, dh@)),
                None => None,
            };
            match handshake_outcome(dh1@, dh2@, dh3@, d4, initiator_device_id@, responder_device_id@, ephemeral_public@) {
                Ok((root, id)) => r is Ok && r->Ok_0.0.0@ == root && r->Ok_0.1 == id,
                Err(e) => r is Err && r->Err_0 == e,
            }
        }),
{
    if all_zero(dh1) || all_zero(dh2) || all_zero(dh3) {
        return Err(SessionError::InvalidSharedSecret);
    }
    let mut ikm: Vec<u8> = Vec::with_capacity(128);
    push_bytes(&mut ikm, dh1);
    push_bytes(&mut ikm, dh2);
    push_bytes(&mut ikm, dh3);
    let used_id = match dh4 {
        Some((id, dh)) => {
            if all_zero(&dh) {
                return Err(SessionError::InvalidSharedSecret);
            }
            push_bytes(&mut ikm, &dh);
            Some(id)
        },
        None => None,
    };
    proof {
        assert(ikm@.subrange(0, 32) =~= dh1@);
        assert(ikm@[0] == dh1@[0]);
        if is_all_zero(ikm@) {
            assert forall|i: int| 0 <= i < dh1@.len() implies dh1@[i] == 0u8 by {
                assert(ikm@[i] == dh1@[i]);
            }
        }
    }
    let derived = derive_root(ikm.as_slice(), initiator_device_id, responder_device_id, ephemeral_public);
    wipe_bytes(&mut ikm);
    match derived {
        Some(root) => Ok((root, used_id)),
        None => Err(SessionError::KeyDerivation),
    }
}

/// The initiator's side: checks the recipient's bundle and signed prekey,
/// then derives the root from its identity, its ephemeral key and the
/// recipient's keys (and the claimed one-time prekey, if any).
pub fn initiate(
    own_identity: &IdentityKey,
    own_device_id: [u8; 16],
    own_ephemeral: &InitiatorEphemeral,
    bundle: &PreKeyBundle,
    signed_prekey_record: &SignedPrekeyRecord,
    one_time_prekey_public: Option<(u32, [u8; 32])>,
) -> (r: Result<InitiatorSession, SessionError>)
    ensures
        match bundle_check(*bundle, *signed_prekey_record) {
            Some(e) => r is Err && r->Err_0 == e,
            None => {
                let dh4 = match one_time_prekey_public {
                    Some((id, public)) => Some((id, x25519_shared_spec(own_ephemeral@.secret, public@))),
                    None => None,
                };
                match handshake_outcome(
                    x25519_shared_spec(own_identity@.agreement_secret, bundle.signed_prekey@),
                    x25519_shared_spec(own_ephemeral@.secret, bundle.identity_agreement_key@),
                    x25519_shared_spec(own_ephemeral@.secret, bundle.signed_prekey@),
                    dh4,
                    own_device_id@,
                    bundle.device_id@,
                    own_ephemeral@.public,
                ) {
                    Ok((root, id)) => r is Ok && r->Ok_0.root.0@ == root && r->Ok_0.used_one_time_prekey_id
                        == id && r->Ok_0.peer_device_id == bundle.device_id,
                    Err(e) => r is Err && r->Err_0 == e,
                }
            },
        },
{
    if bundle.protocol_version.0 != PROTOCOL_VERSION {
        return Err(SessionError::ProtocolVersion);
    }
    if !ed25519_key_valid(&bundle.identity_signing_key) {
        return Err(SessionError::InvalidPeerIdentity);
    }
    if !bytes_eq(&bundle.identity_agreement_key, &signed_prekey_record.agreement_public_key)
        || !signed_prekey_record.verify(&bundle.identity_signing_key)
        || signed_prekey_record.key_id != bundle.signed_prekey_id || !bytes_eq(
        &signed_prekey_record.public_key,
        &bundle.signed_prekey,
    ) {
        return Err(SessionError::InvalidSignedPrekey);
    }
    let dh1 = own_identity.agreement_diffie_hellman(&bundle.signed_prekey);
    let dh2 = own_ephemeral.shared(&bundle.identity_agreement_key);
    let dh3 = own_ephemeral.shared(&bundle.signed_prekey);
    let dh4 = match one_time_prekey_public {
        Some((id, public)) => Some((id, own_ephemeral.shared(&public))),
        None => None,
    };
    let eph_public = own_ephemeral.public();
    let (root, used_id) = combine(&dh1, &dh2, &dh3, dh4, &own_device_id, &bundle.device_id, &eph_public)?;
    Ok(InitiatorSession { root, peer_device_id: bundle.device_id, used_one_time_prekey_id: used_id })
}

/// The responder's side: derives the root from its identity, its signed
/// prekey (and the claimed one-time prekey, consumed) and the initiator's
/// identity agreement key and ephemeral key.
pub fn respond(
    own_identity: &IdentityKey,
    own_signed_prekey: &SignedPrekey,
    own_one_time_prekey: Option<(u32, OneTimePrekey)>,
    own_device_id: [u8; 16],
    peer_device_id: [u8; 16],
    peer_identity_agreement_key: [u8; 32],
    peer_ephemeral_public: [u8; 32],
) -> (r: Result<ResponderSession, SessionError>)
    ensures
        ({
            let dh4 = match own_one_time_prekey {
                Some((id, otp)) => Some((id, x25519_shared_spec(otp@.secret, peer_ephemeral_public@))),
                None => None,
            };
            match handshake_outcome(
                x25519_shared_spec(own_signed_prekey@.secret, peer_identity_agreement_key@),
                x25519_shared_spec(own_identity@.agreement_secret, peer_ephemeral_public@),
                x25519_shared_spec(own_signed_prekey@.secret, peer_ephemeral_public@),
                dh4,
                peer_device_id@,
                own_device_id@,
                peer_ephemeral_public@,
            ) {
                Ok((root, id)) => r is Ok && r->Ok_0.root.0@ == root && r->Ok_0.used_one_time_prekey_id == id
                    && r->Ok_0.peer_device_id == peer_device_id,
                Err(e) => r is Err && r->Err_0 == e,
            }
        }),
{
    let dh1 = own_signed_prekey.diffie_hellman(&peer_identity_agreement_key);
    let dh2 = own_identity.agreement_diffie_hellman(&peer_ephemeral_public);
    let dh3 = own_signed_prekey.diffie_hellman(&peer_ephemeral_public);
    let dh4 = match own_one_time_prekey {
        Some((id, otp)) => Some((id, otp.diffie_hellman(&peer_ephemeral_public))),
        None => None,
    };
    let (root, used_id) = combine(&dh1, &dh2, &dh3, dh4, &peer_device_id, &own_device_id, &peer_ephemeral_public)?;
    Ok(ResponderSession { root, peer_device_id, used_one_time_prekey_id: used_id })
}

/// Initiator and responder derive the same root and record the same
/// one-time prekey: the initiator combines its identity and ephemeral
/// secrets with the responder's published agreement key, signed prekey and
/// optional one-time prekey; the responder combines the secret halves of
/// those keys with the initiator's agreement key and ephemeral public key.
/// Both name the devices the same way.
pub proof fn lemma_initiator_and_responder_agree(
    initiator: IdentityKey,
    ephemeral: InitiatorEphemeral,
    responder: IdentityKey,
    signed_prekey: SignedPrekey,
    one_time: Option<(u32, OneTimePrekey)>,
    initiator_device: Seq<u8>,
    responder_device: Seq<u8>,
)
    requires
        initiator.wf(),
        ephemeral.wf(),
        responder.wf(),
        signed_prekey.wf(),
        one_time matches Some((_, otp)) ==> otp.wf(),
    ensures
        ({
            let eph_pub = ephemeral@.public;
            let i4 = match one_time {
                Some((id, otp)) => Some((id, x25519_shared_spec(ephemeral@.secret, otp@.public))),
                None => None,
            };
            let r4 = match one_time {
                Some((id, otp)) => Some((id, x25519_shared_spec(otp@.secret, eph_pub))),
                None => None,
            };
            handshake_outcome(
                x25519_shared_spec(initiator@.agreement_secret, signed_prekey@.public),
                x25519_shared_spec(ephemeral@.secret, responder@.agreement_public),
                x25519_shared_spec(ephemeral@.secret, signed_prekey@.public),
                i4,
                initiator_device,
                responder_device,
                eph_pub,
            ) == handshake_outcome(
                x25519_shared_spec(signed_prekey@.secret, initiator@.agreement_public),
                x25519_shared_spec(responder@.agreement_secret, eph_pub),
                x25519_shared_spec(signed_prekey@.secret, eph_pub),
                r4,
                initiator_device,
                responder_device,
                eph_pub,
            )
        }),
{
    // Each agreement is read off the agreement property of one side's pair.
    assert(x25519_shared_spec(signed_prekey@.secret, initiator@.agreement_public) == x25519_shared_spec(
        initiator@.agreement_secret,
        x25519_public_spec(signed_prekey@.secret),
    ));
    assert(x25519_shared_spec(responder@.agreement_secret, ephemeral@.public) == x25519_shared_spec(
        ephemeral@.secret,
        x25519_public_spec(responder@.agreement_secret),
    ));
    assert(x25519_shared_spec(signed_prekey@.secret, ephemeral@.public) == x25519_shared_spec(
        ephemeral@.secret,
        x25519_public_spec(signed_prekey@.secret),
    ));
    match one_time {
        Some((id, otp)) => {
            assert(x25519_shared_spec(otp@.secret, ephemeral@.public) == x25519_shared_spec(
                ephemeral@.secret,
                x25519_public_spec(otp@.secret),
            ));
        },
        None => {},
    }
}

} // verus!
