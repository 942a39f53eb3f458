use nexa::crypto::{generate_key, CryptoError, NONCE_LEN};
use nexa::protocol::RatchetHeader;
use nexa::ratchet::RatchetState;
use nexa::receive::{ReceiveError, ReceiveRatchet};
use nexa::storage::{open_record, seal_record, EncryptedJournal, StorageError, RECORD_HEADER_LEN};

#[test]
fn round_trip() {
    let key = generate_key();
    let record = seal_record(&key, b"ratchet-state").unwrap();
    assert_eq!(open_record(&key, &record).unwrap(), b"ratchet-state");
}

#[test]
fn lib_tampering_is_rejected() {
    let key = generate_key();
    let mut record = seal_record(&key, b"secret-state").unwrap();
    let last = record.len() - 1;
    record[last] ^= 1;
    assert!(matches!(open_record(&key, &record), Err(StorageError::Crypto(CryptoError::DecryptionFailed))));
}

#[test]
fn wrong_key_is_rejected() {
    let key = generate_key();
    let other = generate_key();
    let record = seal_record(&key, b"secret-state").unwrap();
    assert!(open_record(&other, &record).is_err());
}

#[test]
fn version_and_truncation_are_checked_before_decrypt() {
    let key = generate_key();
    assert!(matches!(open_record(&key, &[0]), Err(StorageError::Truncated)));
    let mut record = seal_record(&key, b"state").unwrap();
    record[0] = 0;
    record[1] = 2;
    assert!(matches!(open_record(&key, &record), Err(StorageError::InvalidVersion)));
    let short_ciphertext = [0u8; RECORD_HEADER_LEN + NONCE_LEN];
    assert!(matches!(open_record(&key, &short_ciphertext), Err(StorageError::Truncated)));
}

#[test]
fn repeated_seals_use_fresh_nonces() {
    let key = generate_key();
    let a = seal_record(&key, b"same").unwrap();
    let b = seal_record(&key, b"same").unwrap();
    assert_ne!(&a[RECORD_HEADER_LEN..RECORD_HEADER_LEN + NONCE_LEN], &b[RECORD_HEADER_LEN..RECORD_HEADER_LEN + NONCE_LEN]);
    assert_ne!(a, b);
}

/// The committed files of a journal kept in memory: what the platform layer
/// writes under each generation's final name.
struct Files {
    journal: EncryptedJournal,
    committed: Vec<(Vec<u8>, Vec<u8>)>,
}

impl Files {
    fn new(prefix: &str) -> Files {
        Files { journal: EncryptedJournal::new(prefix.as_bytes()).unwrap(), committed: Vec::new() }
    }

    fn save(&mut self, key: &[u8; 32], state: &[u8]) -> u64 {
        let generations: Vec<u64> = self.committed.iter().filter_map(|(n, _)| self.journal.parse_generation(n)).collect();
        let generation = EncryptedJournal::next_generation(&generations).unwrap();
        let file = EncryptedJournal::seal_journal(key, generation, state).unwrap();
        self.committed.push((self.journal.final_path(generation), file));
        generation
    }

    fn file_mut(&mut self, generation: u64) -> &mut Vec<u8> {
        let name = self.journal.final_path(generation);
        &mut self.committed.iter_mut().find(|(n, _)| *n == name).unwrap().1
    }

    fn load(&self, key: &[u8; 32]) -> Result<(u64, Vec<u8>), StorageError> {
        let candidates: Vec<(u64, Option<Vec<u8>>)> = self
            .committed
            .iter()
            .filter_map(|(n, bytes)| self.journal.parse_generation(n).map(|g| (g, Some(bytes.clone()))))
            .collect();
        EncryptedJournal::latest_valid(key, &candidates)
    }
}

#[test]
fn journal_recovers_after_a_corrupt_newest_record() {
    let mut files = Files::new("ratchet");
    let key = generate_key();
    assert_eq!(files.save(&key, b"state-0"), 0);
    assert_eq!(files.save(&key, b"state-1"), 1);
    let newest = files.file_mut(1);
    *newest.last_mut().unwrap() ^= 1;
    let (generation, state) = files.load(&key).unwrap();
    assert_eq!(generation, 0);
    assert_eq!(state, b"state-0");
}

#[test]
fn journal_ignores_orphaned_temp_file() {
    let mut files = Files::new("ratchet");
    let key = generate_key();
    files.save(&key, b"stable");
    let temp = files.journal.temp_path(99);
    files.committed.push((temp, b"partial".to_vec()));
    let (generation, state) = files.load(&key).unwrap();
    assert_eq!(generation, 0);
    assert_eq!(state, b"stable");
}

#[test]
fn journal_rejects_wrong_key_and_corrupts_to_no_valid_record() {
    let mut files = Files::new("ratchet");
    let key = generate_key();
    let wrong = generate_key();
    files.save(&key, b"secret");
    assert!(matches!(files.load(&wrong), Err(StorageError::NoValidRecord)));
    *files.file_mut(0) = b"broken".to_vec();
    assert!(matches!(files.load(&key), Err(StorageError::NoValidRecord)));
}

#[test]
fn ratchet_snapshot_survives_encrypted_restart_and_preserves_replay_protection() {
    let root = [42u8; 32];
    let storage_key = generate_key();
    let mut files = Files::new("receive");

    let mut sender = RatchetState::from_root(root).unwrap();
    let packet0 = sender.encrypt(b"zero", b"aad").unwrap();
    let packet1 = sender.encrypt(b"one", b"aad").unwrap();
    let packet2 = sender.encrypt(b"two", b"aad").unwrap();

    let mut receiver = ReceiveRatchet::from_root(root).unwrap();
    assert_eq!(receiver.decrypt_with_header(&RatchetHeader::new(1).encode(), &packet1, b"aad").unwrap(), b"one");
    let snapshot = receiver.snapshot().unwrap();
    let generation = files.save(&storage_key, &snapshot);
    assert_eq!(generation, 0);
    drop(receiver);

    let (_, restored_snapshot) = files.load(&storage_key).unwrap();
    let mut restored = ReceiveRatchet::from_snapshot(&restored_snapshot).unwrap();
    assert_eq!(restored.decrypt_with_header(&RatchetHeader::new(0).encode(), &packet0, b"aad").unwrap(), b"zero");
    assert_eq!(restored.decrypt_with_header(&RatchetHeader::new(2).encode(), &packet2, b"aad").unwrap(), b"two");
    assert!(matches!(restored.decrypt_with_header(&RatchetHeader::new(1).encode(), &packet1, b"aad"), Err(ReceiveError::Replay)));
    assert_eq!(restored.expected_counter(), 3);
}

#[test]
fn tampered_or_wrong_key_snapshot_cannot_restore() {
    let root = [43u8; 32];
    let key = generate_key();
    let wrong = generate_key();
    let mut files = Files::new("receive");
    let receiver = ReceiveRatchet::from_root(root).unwrap();
    let snapshot = receiver.snapshot().unwrap();
    files.save(&key, &snapshot);
    assert!(matches!(files.load(&wrong), Err(StorageError::NoValidRecord)));
    let bytes = files.file_mut(0);
    *bytes.last_mut().unwrap() ^= 1;
    assert!(matches!(files.load(&key), Err(StorageError::NoValidRecord)));
}

#[test]
fn journal_names_and_prefix_rules() {
    let journal = EncryptedJournal::new(b"ratchet").unwrap();
    assert_eq!(journal.final_path(12), b"ratchet-12.bin".to_vec());
    assert_eq!(journal.temp_path(0), b"ratchet-0.tmp".to_vec());
    assert_eq!(journal.parse_generation(b"ratchet-12.bin"), Some(12));
    assert_eq!(journal.parse_generation(b"ratchet-+7.bin"), Some(7));
    assert_eq!(journal.parse_generation(b"ratchet-12.tmp"), None);
    assert_eq!(journal.parse_generation(b"ratchet-.bin"), None);
    assert_eq!(journal.parse_generation(b"other-1.bin"), None);
    assert_eq!(journal.parse_generation(b"ratchet-18446744073709551616.bin"), None);
    assert!(matches!(EncryptedJournal::new(b""), Err(StorageError::InvalidJournalRecord)));
    assert!(matches!(EncryptedJournal::new(b"a/b"), Err(StorageError::InvalidJournalRecord)));
    assert!(matches!(EncryptedJournal::new(b"a\\b"), Err(StorageError::InvalidJournalRecord)));
    assert!(matches!(EncryptedJournal::new(b"a..b"), Err(StorageError::InvalidJournalRecord)));
    assert!(EncryptedJournal::new(b"a.b").is_ok());
}

#[test]
fn journal_entries_and_generations() {
    let entry = EncryptedJournal::encode_journal(5, b"xy");
    assert_eq!(entry, b"MJR1\0\0\0\0\0\0\0\x05xy".to_vec());
    assert_eq!(EncryptedJournal::decode_journal(&entry, 5).unwrap(), b"xy");
    assert!(matches!(EncryptedJournal::decode_journal(&entry, 6), Err(StorageError::InvalidJournalRecord)));
    assert!(matches!(EncryptedJournal::decode_journal(&entry[..11], 5), Err(StorageError::Truncated)));
    assert_eq!(EncryptedJournal::next_generation(&[]), Ok(0));
    assert_eq!(EncryptedJournal::next_generation(&[3, 9, 4]), Ok(10));
    assert!(matches!(EncryptedJournal::next_generation(&[1, u64::MAX]), Err(StorageError::GenerationOverflow)));
}
