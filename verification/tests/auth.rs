use ed25519_dalek::{Signer, SigningKey};
use nexa::auth::{
    device_id_from_public_key, parse_credentials, signing_bytes, AuthError, AuthHeaders, AuthState, HeaderText,
    MAX_NONCES_PER_DEVICE, NONCE_TTL_MS, RATE_LIMIT_PER_DEVICE, RATE_WINDOW_MS,
};
use sha2::{Digest, Sha256};

const NOW: u64 = 1_700_000_000_000;

fn test_key() -> SigningKey {
    SigningKey::from_bytes(&[42u8; 32])
}

fn hex(bytes: &[u8]) -> Vec<u8> {
    bytes.iter().map(|b| format!("{b:02x}")).collect::<String>().into_bytes()
}

fn signed_headers(key: &SigningKey, method: &[u8], path: &[u8], body: &[u8], timestamp: u64, nonce: [u8; 16]) -> AuthHeaders {
    let public = key.verifying_key().to_bytes();
    let device = device_id_from_public_key(&public);
    let hash = Sha256::digest(body);
    let signature = key.sign(&signing_bytes(method, path, &device, &public, timestamp, &nonce, &hash));
    AuthHeaders {
        device_id: HeaderText::Text(hex(&device)),
        public_key: HeaderText::Text(hex(&public)),
        timestamp: HeaderText::Text(timestamp.to_string().into_bytes()),
        nonce: HeaderText::Text(hex(&nonce)),
        signature: HeaderText::Text(hex(&signature.to_bytes())),
    }
}

#[test]
fn valid_signature_authenticates() {
    let key = test_key();
    let mut auth = AuthState::default();
    let headers = signed_headers(&key, b"POST", b"/v1/relay", b"ciphertext", NOW, [7; 16]);
    assert!(auth.authenticate(&headers, b"POST", b"/v1/relay", b"ciphertext", NOW, 0).is_ok());
}

#[test]
fn auth_tampering_is_rejected() {
    let key = test_key();
    let mut auth = AuthState::default();
    let headers = signed_headers(&key, b"POST", b"/v1/relay", b"a", NOW, [8; 16]);
    assert_eq!(auth.authenticate(&headers, b"POST", b"/v1/relay", b"b", NOW, 0), Err(AuthError::InvalidSignature));
}

#[test]
fn nonce_replay_is_rejected() {
    let key = test_key();
    let mut auth = AuthState::default();
    let headers = signed_headers(&key, b"GET", b"/v1/relay/abc", b"", NOW, [9; 16]);
    assert!(auth.authenticate(&headers, b"GET", b"/v1/relay/abc", b"", NOW, 0).is_ok());
    assert_eq!(auth.authenticate(&headers, b"GET", b"/v1/relay/abc", b"", NOW, 0), Err(AuthError::Replay));
}

#[test]
fn nonce_capacity_covers_rate_window_and_ttl() {
    let max_requests_during_ttl = RATE_LIMIT_PER_DEVICE as usize * (NONCE_TTL_MS / RATE_WINDOW_MS) as usize;
    assert!(MAX_NONCES_PER_DEVICE >= max_requests_during_ttl);
}

#[test]
fn device_id_is_deterministic() {
    let key = test_key();
    let public = key.verifying_key().to_bytes();
    assert_eq!(device_id_from_public_key(&public), device_id_from_public_key(&public));
}

#[test]
fn device_id_is_the_domain_separated_digest_prefix() {
    let public = test_key().verifying_key().to_bytes();
    let mut hasher = Sha256::new();
    hasher.update(b"M/device-id/v1");
    hasher.update(public);
    let digest = hasher.finalize();
    assert_eq!(&device_id_from_public_key(&public)[..], &digest[..16]);
}

#[test]
fn missing_and_malformed_headers_are_rejected_in_order() {
    let key = test_key();
    let mut headers = signed_headers(&key, b"GET", b"/p", b"", NOW, [1; 16]);
    headers.nonce = HeaderText::Missing;
    assert_eq!(parse_credentials(&headers).err(), Some(AuthError::MissingHeader));
    headers.timestamp = HeaderText::Text(b"12x".to_vec());
    assert_eq!(parse_credentials(&headers).err(), Some(AuthError::InvalidHeader));
    headers.device_id = HeaderText::NotText;
    assert_eq!(parse_credentials(&headers).err(), Some(AuthError::InvalidHeader));
    let mut headers = signed_headers(&key, b"GET", b"/p", b"", NOW, [1; 16]);
    headers.signature = HeaderText::Text(b"abcd".to_vec());
    assert_eq!(parse_credentials(&headers).err(), Some(AuthError::InvalidHeader));
    let mut headers = signed_headers(&key, b"GET", b"/p", b"", NOW, [1; 16]);
    headers.timestamp = HeaderText::Text(b"+1700000000000".to_vec());
    assert_eq!(parse_credentials(&headers).unwrap().timestamp_ms, NOW);
    headers.timestamp = HeaderText::Text(b"18446744073709551616".to_vec());
    assert_eq!(parse_credentials(&headers).err(), Some(AuthError::InvalidHeader));
}

#[test]
fn wrong_device_and_stale_timestamp_are_rejected() {
    let key = test_key();
    let mut auth = AuthState::default();
    let mut headers = signed_headers(&key, b"GET", b"/p", b"", NOW, [2; 16]);
    headers.device_id = HeaderText::Text(hex(&[0u8; 16]));
    assert_eq!(auth.authenticate(&headers, b"GET", b"/p", b"", NOW, 0), Err(AuthError::InvalidDevice));
    let headers = signed_headers(&key, b"GET", b"/p", b"", NOW - 300_001, [3; 16]);
    assert_eq!(auth.authenticate(&headers, b"GET", b"/p", b"", NOW, 0), Err(AuthError::InvalidTimestamp));
    let headers = signed_headers(&key, b"GET", b"/p", b"", NOW + 300_000, [4; 16]);
    assert!(auth.authenticate(&headers, b"GET", b"/p", b"", NOW, 0).is_ok());
}

#[test]
fn rate_limit_applies_per_window() {
    let key = test_key();
    let mut auth = AuthState::default();
    for i in 0..RATE_LIMIT_PER_DEVICE {
        let nonce = (i as u128 + 1).to_be_bytes();
        let headers = signed_headers(&key, b"GET", b"/p", b"", NOW, nonce);
        assert!(auth.authenticate(&headers, b"GET", b"/p", b"", NOW, 1_000).is_ok());
    }
    let headers = signed_headers(&key, b"GET", b"/p", b"", NOW, [0xee; 16]);
    assert_eq!(auth.authenticate(&headers, b"GET", b"/p", b"", NOW, 1_000 + RATE_WINDOW_MS - 1), Err(AuthError::RateLimited));
    assert!(auth.authenticate(&headers, b"GET", b"/p", b"", NOW, 1_000 + RATE_WINDOW_MS).is_ok());
}

#[test]
fn expired_nonce_may_be_used_again() {
    let key = test_key();
    let mut auth = AuthState::default();
    let headers = signed_headers(&key, b"GET", b"/p", b"", NOW, [5; 16]);
    assert!(auth.authenticate(&headers, b"GET", b"/p", b"", NOW, 10).is_ok());
    assert_eq!(auth.authenticate(&headers, b"GET", b"/p", b"", NOW, 10 + NONCE_TTL_MS - 1), Err(AuthError::Replay));
    assert!(auth.authenticate(&headers, b"GET", b"/p", b"", NOW, 10 + NONCE_TTL_MS).is_ok());
}

#[test]
fn signing_bytes_have_exact_layout() {
    let bytes = signing_bytes(b"GET", b"/x", &[1; 16], &[2; 32], 5, &[3; 16], &[4; 32]);
    let mut expected = b"M/relay-auth/v1".to_vec();
    expected.extend_from_slice(&[0, 3]);
    expected.extend_from_slice(b"GET");
    expected.extend_from_slice(&[0, 0, 0, 2]);
    expected.extend_from_slice(b"/x");
    expected.extend_from_slice(&[1; 16]);
    expected.extend_from_slice(&[2; 32]);
    expected.extend_from_slice(&5u64.to_be_bytes());
    expected.extend_from_slice(&[3; 16]);
    expected.extend_from_slice(&[4; 32]);
    assert_eq!(bytes, expected);
}
