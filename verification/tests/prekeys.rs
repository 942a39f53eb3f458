use ed25519_dalek::{Signer, SigningKey};
use nexa::auth::device_id_from_public_key;
use nexa::prekey_registry::{PreKeyPublication, PreKeyRegistry, PublicationError, MAX_LIFETIME_MS};
use nexa::protocol::{OneTimePrekeyPublic, PreKeyBundle, ProtocolVersion, PROTOCOL_VERSION};

const NOW: u64 = 1_700_000_000_000;

fn publication(key: &SigningKey, generation: u64) -> PreKeyPublication {
    let public = key.verifying_key().to_bytes();
    let device = device_id_from_public_key(&public);
    let agreement = [3u8; 32];
    let spk = [4u8; 32];
    let mut sb = b"NEXA/SPK/v2".to_vec();
    sb.extend_from_slice(&7u32.to_be_bytes());
    sb.extend_from_slice(&spk);
    sb.extend_from_slice(&agreement);
    let bundle = PreKeyBundle {
        protocol_version: ProtocolVersion(PROTOCOL_VERSION),
        device_id: device,
        identity_signing_key: public,
        identity_agreement_key: agreement,
        signed_prekey_id: 7,
        signed_prekey: spk,
        signed_prekey_signature: key.sign(&sb).to_bytes(),
        one_time_prekeys: vec![OneTimePrekeyPublic { key_id: 9, public_key: [5; 32] }],
    };
    let now = NOW;
    let mut p = PreKeyPublication { bundle, generation, issued_at_ms: now, expires_at_ms: now + 60_000, signature: [0; 64] };
    p.signature = key.sign(&p.signing_bytes()).to_bytes();
    p
}

#[test]
fn publication_is_signed_and_monotonic() {
    let key = SigningKey::from_bytes(&[42; 32]);
    let mut r = PreKeyRegistry::default();
    let p1 = publication(&key, 1);
    let d = p1.bundle.device_id;
    assert!(r.publish(d, p1.clone(), NOW).is_ok());
    assert!(matches!(r.publish(d, p1, NOW), Err(PublicationError::StaleGeneration)));
    let p2 = publication(&key, 2);
    assert!(r.publish(d, p2, NOW).is_ok());
    assert_eq!(r.get(d).unwrap().generation, 2);
}

#[test]
fn prekeys_tampering_is_rejected() {
    let key = SigningKey::from_bytes(&[43; 32]);
    let mut r = PreKeyRegistry::default();
    let mut p = publication(&key, 1);
    p.bundle.signed_prekey[0] ^= 1;
    assert!(matches!(r.publish(p.bundle.device_id, p, NOW), Err(PublicationError::InvalidSignature)));
    let mut p = publication(&key, 1);
    p.signature[0] ^= 1;
    assert!(matches!(r.publish(p.bundle.device_id, p, NOW), Err(PublicationError::InvalidSignature)));
}

#[test]
fn revocation_blocks_republish_without_invalidating_publication_signature() {
    let key = SigningKey::from_bytes(&[44; 32]);
    let mut r = PreKeyRegistry::default();
    let p = publication(&key, 5);
    let d = p.bundle.device_id;
    r.publish(p.bundle.device_id, p, NOW).unwrap();
    r.revoke(d, 5, NOW).unwrap();
    assert!(r.is_revoked(d));
    assert!(r.get(d).unwrap().verify_signature());
    assert!(r.get_active(d, NOW).is_none());
    let p6 = publication(&key, 6);
    assert!(matches!(r.publish(p6.bundle.device_id, p6, NOW), Err(PublicationError::AlreadyRevoked)));
}

#[test]
fn opk_claim_is_atomic_and_idempotent() {
    let key = SigningKey::from_bytes(&[45; 32]);
    let mut r = PreKeyRegistry::default();
    let p = publication(&key, 7);
    let recipient = p.bundle.device_id;
    r.publish(p.bundle.device_id, p, NOW).unwrap();
    let claimant = [8u8; 16];
    let request = [9u8; 16];
    let first = r.claim_opk(recipient, 7, 9, claimant, request, NOW).unwrap();
    let retry = r.claim_opk(recipient, 7, 9, claimant, request, NOW).unwrap();
    assert_eq!(first, retry);
    assert!(matches!(r.claim_opk(recipient, 7, 9, [10; 16], [11; 16], NOW), Err(PublicationError::AlreadyClaimed)));
    assert!(matches!(r.claim_opk(recipient, 6, 9, [10; 16], [12; 16], NOW), Err(PublicationError::StaleGeneration)));
    assert!(matches!(r.claim_opk(recipient, 7, 99, [10; 16], [13; 16], NOW), Err(PublicationError::NotFound)));
}

#[test]
fn concurrent_opk_claim_has_exactly_one_winner() {
    let key = SigningKey::from_bytes(&[46; 32]);
    let mut r = PreKeyRegistry::default();
    let p = publication(&key, 8);
    let recipient = p.bundle.device_id;
    r.publish(p.bundle.device_id, p, NOW).unwrap();
    let mut winners = 0;
    for i in 0u8..16 {
        if r.claim_opk(recipient, 8, 9, [i + 1; 16], [i + 33; 16], NOW).is_ok() {
            winners += 1;
        }
    }
    assert_eq!(winners, 1);
}

#[test]
fn claimed_key_carries_the_published_public_key() {
    let key = SigningKey::from_bytes(&[47; 32]);
    let mut r = PreKeyRegistry::default();
    let p = publication(&key, 3);
    let recipient = p.bundle.device_id;
    r.publish(recipient, p, NOW).unwrap();
    let claim = r.claim_opk(recipient, 3, 9, [1; 16], [2; 16], NOW).unwrap();
    assert_eq!(claim.public_key, [5; 32]);
    assert_eq!(claim.recipient_device, recipient);
    assert_eq!(claim.claimant_device, [1; 16]);
    assert!(matches!(r.claim_opk(recipient, 3, 9, [1; 16], [0; 16], NOW), Err(PublicationError::InvalidRequest)));
    assert!(matches!(r.claim_opk([1; 16], 3, 9, [1; 16], [3; 16], NOW), Err(PublicationError::NotFound)));
    assert!(matches!(r.claim_opk(recipient, 3, 9, [1; 16], [2; 16], NOW + 60_000), Err(PublicationError::NotFound)));
}

#[test]
fn publication_checks_time_device_and_bundle() {
    let key = SigningKey::from_bytes(&[48; 32]);
    let p = publication(&key, 1);
    let d = p.bundle.device_id;
    assert_eq!(p.validate(d, NOW), Ok(()));
    assert_eq!(p.validate([0; 16], NOW), Err(PublicationError::WrongDevice));
    assert_eq!(p.validate(d, NOW + 60_000), Err(PublicationError::Expired));
    assert_eq!(p.validate(d, NOW - 300_001), Err(PublicationError::InvalidTime));
    let mut long = publication(&key, 1);
    long.expires_at_ms = NOW + MAX_LIFETIME_MS + 1;
    assert_eq!(long.validate(d, NOW), Err(PublicationError::TooLong));
    let mut dup = publication(&key, 1);
    dup.bundle.one_time_prekeys.push(OneTimePrekeyPublic { key_id: 9, public_key: [6; 32] });
    assert_eq!(dup.validate(d, NOW), Err(PublicationError::InvalidBundle));
    let mut version = publication(&key, 1);
    version.bundle.protocol_version = ProtocolVersion(PROTOCOL_VERSION + 1);
    assert_eq!(version.validate(d, NOW), Err(PublicationError::InvalidVersion));
}

#[test]
fn revoke_checks_generation_and_is_not_repeated() {
    let key = SigningKey::from_bytes(&[49; 32]);
    let mut r = PreKeyRegistry::default();
    let p = publication(&key, 4);
    let d = p.bundle.device_id;
    assert_eq!(r.revoke(d, 4, NOW), Err(PublicationError::NotFound));
    r.publish(d, p, NOW).unwrap();
    assert_eq!(r.revoke(d, 3, NOW), Err(PublicationError::StaleGeneration));
    assert_eq!(r.get_active(d, NOW).unwrap().generation, 4);
    assert!(r.get_active(d, NOW + 60_000).is_none());
    assert_eq!(r.revoke(d, 4, NOW), Ok(()));
    assert_eq!(r.revoke(d, 4, NOW), Err(PublicationError::AlreadyRevoked));
    assert!(matches!(r.claim_opk(d, 4, 9, [1; 16], [2; 16], NOW), Err(PublicationError::NotFound)));
}
