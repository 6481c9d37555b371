//! Tests for the chunk store: storage, retrieval, slicing, deletion and
//! transactions.

use seigr_hive::database::{Database, Transaction};
use seigr_hive::errors::DatabaseError;
use seigr_hive::hasher::fingerprint;

fn small_db() -> Database {
    Database::with_config(4, 100).unwrap()
}

#[test]
fn store_then_retrieve_round_trip() {
    let mut db = small_db();
    db.store_file("f".to_string(), b"ABCDEFGHI".to_vec()).unwrap();
    assert_eq!(db.retrieve_file("f").unwrap(), b"ABCDEFGHI".to_vec());
}

#[test]
fn slice_returns_exact_cells() {
    let mut db = small_db();
    db.store_file("f".to_string(), b"ABCDEFGHI".to_vec()).unwrap();
    // cells are ABCD, EFGH, I
    assert_eq!(db.slice_file("f", 1, 2).unwrap(), b"EFGH".to_vec());
    assert_eq!(db.slice_file("f", 0, 2).unwrap(), b"ABCDEFGH".to_vec());
    assert_eq!(db.slice_file("f", 2, 3).unwrap(), b"I".to_vec());
}

#[test]
fn slice_full_range_equals_retrieve() {
    let mut db = small_db();
    db.store_file("f".to_string(), b"ABCDEFGHI".to_vec()).unwrap();
    assert_eq!(db.slice_file("f", 0, 3).unwrap(), db.retrieve_file("f").unwrap());
}

#[test]
fn slice_clamps_out_of_range_bounds() {
    let mut db = small_db();
    db.store_file("f".to_string(), b"ABCDEFGHI".to_vec()).unwrap();
    assert_eq!(db.slice_file("f", 1, 99).unwrap(), b"EFGHI".to_vec());
    assert_eq!(db.slice_file("f", 50, 99).unwrap(), b"".to_vec());
}

#[test]
fn slice_rejects_inverted_bounds() {
    let mut db = small_db();
    db.store_file("f".to_string(), b"ABCDEFGHI".to_vec()).unwrap();
    let e = db.slice_file("f", 2, 1).unwrap_err();
    assert!(matches!(e, DatabaseError::InvalidArgument));
}

#[test]
fn slice_missing_file_not_found() {
    let db = small_db();
    let e = db.slice_file("absent", 0, 1).unwrap_err();
    assert!(matches!(e, DatabaseError::FileNotFound(_)));
}

#[test]
fn retrieve_missing_file_not_found() {
    let db = small_db();
    let e = db.retrieve_file("absent").unwrap_err();
    assert!(matches!(e, DatabaseError::FileNotFound(_)));
}

#[test]
fn empty_payload_round_trips() {
    let mut db = small_db();
    db.store_file("empty".to_string(), Vec::new()).unwrap();
    assert_eq!(db.retrieve_file("empty").unwrap(), Vec::<u8>::new());
    assert_eq!(db.slice_file("empty", 0, 0).unwrap(), Vec::<u8>::new());
}

#[test]
fn store_overwrites_prior_mapping() {
    let mut db = small_db();
    db.store_file("f".to_string(), b"first".to_vec()).unwrap();
    db.store_file("f".to_string(), b"second payload".to_vec()).unwrap();
    assert_eq!(db.retrieve_file("f").unwrap(), b"second payload".to_vec());
}

#[test]
fn files_are_independent() {
    let mut db = small_db();
    db.store_file("a".to_string(), b"alpha".to_vec()).unwrap();
    db.store_file("b".to_string(), b"bravo!".to_vec()).unwrap();
    assert_eq!(db.retrieve_file("a").unwrap(), b"alpha".to_vec());
    assert_eq!(db.retrieve_file("b").unwrap(), b"bravo!".to_vec());
}

#[test]
fn delete_removes_entry() {
    let mut db = small_db();
    db.store_file("f".to_string(), b"data".to_vec()).unwrap();
    db.delete_file("f".to_string()).unwrap();
    assert!(matches!(db.retrieve_file("f").unwrap_err(), DatabaseError::FileNotFound(_)));
    assert!(matches!(db.delete_file("f".to_string()).unwrap_err(), DatabaseError::FileNotFound(_)));
}

#[test]
fn get_file_links_reports_cube_ids() {
    let mut db = small_db();
    assert!(db.get_file_links("f").is_none());
    db.store_file("f".to_string(), b"data".to_vec()).unwrap();
    let links = db.get_file_links("f").unwrap();
    assert_eq!(links.len(), 1);
    assert_eq!(links[0], "cube:f".to_string());
}

#[test]
fn large_chunk_size_single_cell() {
    let mut db = Database::new();
    db.store_file("big".to_string(), b"one small payload".to_vec()).unwrap();
    assert_eq!(db.retrieve_file("big").unwrap(), b"one small payload".to_vec());
}

#[test]
fn with_config_rejects_zero_sizes() {
    assert!(matches!(Database::with_config(0, 5).unwrap_err(), DatabaseError::InvalidArgument));
    assert!(matches!(Database::with_config(5, 0).unwrap_err(), DatabaseError::InvalidArgument));
}

#[test]
fn transaction_applies_all_changes() {
    let mut db = small_db();
    let mut txn = Transaction::new();
    txn.store_file("a".to_string(), b"first".to_vec());
    txn.store_file("b".to_string(), b"second".to_vec());
    txn.delete_file("a".to_string());
    txn.commit(&mut db).unwrap();
    assert!(matches!(db.retrieve_file("a").unwrap_err(), DatabaseError::FileNotFound(_)));
    assert_eq!(db.retrieve_file("b").unwrap(), b"second".to_vec());
}

#[test]
fn transaction_failure_leaves_store_unchanged() {
    let mut db = small_db();
    db.store_file("kept".to_string(), b"before".to_vec()).unwrap();
    let mut txn = Transaction::new();
    txn.store_file("new".to_string(), b"staged".to_vec());
    txn.delete_file("missing".to_string());
    let e = txn.commit(&mut db).unwrap_err();
    assert!(matches!(e, DatabaseError::FileNotFound(_)));
    assert_eq!(db.retrieve_file("kept").unwrap(), b"before".to_vec());
    assert!(db.retrieve_file("new").is_err());
}

fn chain_id(prev: &str, data: &[u8]) -> String {
    let mut input = prev.as_bytes().to_vec();
    input.extend_from_slice(data);
    fingerprint(&input)
}

fn chain_ids(cells: &[&[u8]]) -> Vec<String> {
    let mut ids: Vec<String> = Vec::new();
    let mut prev = String::new();
    for cell in cells {
        let id = chain_id(&prev, cell);
        prev = id.clone();
        ids.push(id);
    }
    ids
}

#[test]
fn tampering_changes_every_later_chain_id() {
    let original = chain_ids(&[b"ABCD", b"EFGH", b"I"]);
    let tampered = chain_ids(&[b"ABCD", b"EXGH", b"I"]);
    assert_eq!(original[0], tampered[0]);
    assert_ne!(original[1], tampered[1]);
    assert_ne!(original[2], tampered[2]);
}

#[test]
fn chain_ids_are_deterministic() {
    let first = chain_ids(&[b"ABCD", b"EFGH"]);
    let second = chain_ids(&[b"ABCD", b"EFGH"]);
    assert_eq!(first, second);
}

#[test]
fn helper_ids_depend_on_their_inputs() {
    assert_eq!(Database::beecell_id(b"data"), Database::beecell_id(b"data"));
    assert_ne!(Database::beecell_id(b"data"), Database::beecell_id(b"date"));
    assert_eq!(Database::previous_beecell_id("cell7"), Database::next_beecell_id("cell7"));
    assert_ne!(
        Database::beecell_id_from_previous("a", b"data"),
        Database::beecell_id_from_previous("b", b"data")
    );
    assert_ne!(
        Database::beecell_id_from_next("a", b"data"),
        Database::beecell_id_from_next("a", b"date")
    );
    assert_eq!(
        Database::beecell_id_from_previous_and_next("a", "b", b"data"),
        Database::beecell_id_from_previous_and_next("a", "b", b"data")
    );
    assert_ne!(
        Database::beecell_id_from_previous_and_next("a", "b", b"data"),
        Database::beecell_id_from_previous_and_next("a", "c", b"data")
    );
}

#[test]
fn fingerprint_matches_known_digest() {
    // The BLAKE2b-512 digest of "abc", hex encoded.
    let expected = "ba80a53f981c4d0d6a2797b69f12f6e94c212f14685ac4b74b12bb6fdbffa2d1\
7d87c5392aab792dc252d5de4533cc9518d38aa8dbf1925ab92386edd4009923";
    assert_eq!(fingerprint(b"abc"), expected.to_string());
    assert_eq!(fingerprint(b"").len(), 128);
    assert_ne!(fingerprint(b"abc"), fingerprint(b"abd"));
}
