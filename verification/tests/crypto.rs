use nexa::crypto::{api_version, generate_key, open, seal, CryptoError, API_VERSION, KEY_LEN, NONCE_LEN};
use nexa::wallet::WalletMode;

#[test]
fn api_version_is_current() {
    assert_eq!(api_version().0, API_VERSION);
    assert_eq!(KEY_LEN, 32);
    assert_eq!(NONCE_LEN, 12);
}

#[test]
fn sealed_value_opens_and_tampering_is_detected() {
    let key = generate_key();
    let mut sealed = seal(&key, b"payload").unwrap();
    assert_eq!(sealed.body.len(), b"payload".len() + 16);
    assert_eq!(open(&key, &sealed).unwrap(), b"payload");
    sealed.body[0] ^= 1;
    assert_eq!(open(&key, &sealed), Err(CryptoError::DecryptionFailed));
}

#[test]
fn generated_keys_differ() {
    assert_ne!(generate_key(), generate_key());
    assert_eq!(WalletMode::NonCustodial, WalletMode::NonCustodial);
}
