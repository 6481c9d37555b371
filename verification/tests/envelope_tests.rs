//! Tests for the codec and the authenticated-encryption envelope.

use seigr_hive::codec::{Snapshot, encode_snapshot, decode_snapshot};
use seigr_hive::envelope::{encrypt_config, decrypt_config, seal_snapshot, generate_key};
use seigr_hive::errors::DatabaseError;
use seigr_hive::user::User;

fn sample_snapshot() -> Snapshot {
    let users = vec![
        User::new("alice".to_string(), "a@x.com".to_string(), "pw123".to_string()).unwrap(),
        User::new("bob".to_string(), "b@x.com".to_string(), "hunter".to_string()).unwrap(),
    ];
    let file_links = vec![
        ("notes.txt".to_string(), vec!["cube:notes.txt".to_string()]),
        ("img".to_string(), vec!["cube:img".to_string()]),
    ];
    Snapshot { users, file_links }
}

fn assert_snapshots_equal(a: &Snapshot, b: &Snapshot) {
    assert_eq!(a.users.len(), b.users.len());
    for (ua, ub) in a.users.iter().zip(b.users.iter()) {
        assert_eq!(ua.username, ub.username);
        assert_eq!(ua.email, ub.email);
        assert_eq!(ua.beeid, ub.beeid);
        assert_eq!(ua.authenticate, ub.authenticate);
        assert_eq!(ua.key, ub.key);
        assert_eq!(ua.password_hash, ub.password_hash);
    }
    assert_eq!(a.file_links, b.file_links);
}

#[test]
fn codec_round_trip() {
    let snapshot = sample_snapshot();
    let bytes = encode_snapshot(&snapshot);
    let decoded = decode_snapshot(bytes.as_slice()).unwrap();
    assert_snapshots_equal(&snapshot, &decoded);
}

#[test]
fn codec_round_trip_empty() {
    let snapshot = Snapshot { users: Vec::new(), file_links: Vec::new() };
    let bytes = encode_snapshot(&snapshot);
    let decoded = decode_snapshot(bytes.as_slice()).unwrap();
    assert_eq!(decoded.users.len(), 0);
    assert_eq!(decoded.file_links.len(), 0);
}

#[test]
fn codec_rejects_garbage() {
    let e = decode_snapshot(b"not a snapshot").unwrap_err();
    assert!(matches!(e, DatabaseError::Other(_)));
    let snapshot = sample_snapshot();
    let mut bytes = encode_snapshot(&snapshot);
    bytes.pop();
    assert!(decode_snapshot(bytes.as_slice()).is_err());
}

#[test]
fn envelope_round_trip() {
    let snapshot = sample_snapshot();
    let key = [7u8; 32];
    let nonce = [3u8; 12];
    let env = encrypt_config(&snapshot, &key, &nonce).unwrap();
    let decoded = decrypt_config(&key, env.as_slice()).unwrap();
    assert_snapshots_equal(&snapshot, &decoded);
}

#[test]
fn envelope_round_trip_fresh_nonce() {
    let snapshot = sample_snapshot();
    let key = generate_key().unwrap();
    let env1 = seal_snapshot(&snapshot, &key).unwrap();
    let env2 = seal_snapshot(&snapshot, &key).unwrap();
    // each save draws a fresh nonce, so the envelopes differ
    assert_ne!(env1, env2);
    let decoded = decrypt_config(&key, env1.as_slice()).unwrap();
    assert_snapshots_equal(&snapshot, &decoded);
}

#[test]
fn wrong_key_fails_decryption() {
    let snapshot = sample_snapshot();
    let key1 = [7u8; 32];
    let key2 = [8u8; 32];
    let env = encrypt_config(&snapshot, &key1, &[3u8; 12]).unwrap();
    let e = decrypt_config(&key2, env.as_slice()).unwrap_err();
    assert!(matches!(e, DatabaseError::DecryptionFailed));
}

#[test]
fn corrupted_envelope_fails_decryption() {
    let snapshot = sample_snapshot();
    let key = [7u8; 32];
    let mut env = encrypt_config(&snapshot, &key, &[3u8; 12]).unwrap();
    let last = env.len() - 1;
    env[last] ^= 0x01;
    let e = decrypt_config(&key, env.as_slice()).unwrap_err();
    assert!(matches!(e, DatabaseError::DecryptionFailed));
}

#[test]
fn short_envelope_fails_decryption() {
    let key = [7u8; 32];
    let e = decrypt_config(&key, b"short").unwrap_err();
    assert!(matches!(e, DatabaseError::DecryptionFailed));
}

#[test]
fn envelope_prepends_nonce() {
    let snapshot = Snapshot { users: Vec::new(), file_links: Vec::new() };
    let key = [9u8; 32];
    let nonce = [5u8; 12];
    let env = encrypt_config(&snapshot, &key, &nonce).unwrap();
    assert_eq!(&env[0..12], &nonce);
    let plaintext = encode_snapshot(&snapshot);
    assert_eq!(env.len(), 12 + plaintext.len() + 16);
    // the sealed payload is not the plaintext itself
    assert_ne!(&env[12..12 + plaintext.len()], plaintext.as_slice());
}

#[test]
fn generated_keys_differ() {
    let k1 = generate_key().unwrap();
    let k2 = generate_key().unwrap();
    assert_ne!(k1, k2);
}
