//! Tests for the credential vault: registration, authentication, lookup
//! and the user record itself.

use seigr_hive::database::Database;
use seigr_hive::errors::DatabaseError;
use seigr_hive::login::{register_user, authenticate_user};
use seigr_hive::seigrconfig::SeigrConfig;
use seigr_hive::user::User;

#[test]
fn register_then_authenticate() {
    let mut config = SeigrConfig::default();
    register_user(&mut config, "alice".to_string(), "pw123".to_string(), "a@x.com".to_string())
        .unwrap();
    assert_eq!(authenticate_user(&config, "alice".to_string(), "pw123".to_string()).unwrap(), true);
    assert_eq!(
        authenticate_user(&config, "alice".to_string(), "wrong".to_string()).unwrap(),
        false
    );
    let e = authenticate_user(&config, "bob".to_string(), "anything".to_string()).unwrap_err();
    assert!(matches!(e, DatabaseError::UserNotFound));
}

#[test]
fn duplicate_registration_rejected() {
    let mut config = SeigrConfig::default();
    register_user(&mut config, "alice".to_string(), "pw123".to_string(), "a@x.com".to_string())
        .unwrap();
    let e = register_user(
        &mut config,
        "alice".to_string(),
        "other".to_string(),
        "b@x.com".to_string(),
    )
    .unwrap_err();
    assert!(matches!(e, DatabaseError::DuplicateUser));
}

#[test]
fn database_register_and_authenticate() {
    let mut db = Database::new();
    db.register_user(
        "alice".to_string(),
        "a@x.com".to_string(),
        "pw123".to_string(),
        "bee1".to_string(),
        [0u8; 32],
    )
    .unwrap();
    assert_eq!(db.authenticate_user("alice", "pw123").unwrap(), true);
    assert_eq!(db.authenticate_user("alice", "nope").unwrap(), false);
    assert!(matches!(db.authenticate_user("bob", "pw").unwrap_err(), DatabaseError::UserNotFound));
    let e = db
        .register_user(
            "alice".to_string(),
            "c@x.com".to_string(),
            "pw456".to_string(),
            "bee2".to_string(),
            [1u8; 32],
        )
        .unwrap_err();
    assert!(matches!(e, DatabaseError::DuplicateUser));
}

#[test]
fn database_user_lookup() {
    let mut db = Database::new();
    assert_eq!(db.user_exists("alice").unwrap(), false);
    assert!(matches!(db.get_user("alice".to_string()).unwrap_err(), DatabaseError::UserNotFound));
    db.register_user(
        "alice".to_string(),
        "a@x.com".to_string(),
        "pw123".to_string(),
        "bee1".to_string(),
        [0u8; 32],
    )
    .unwrap();
    assert_eq!(db.user_exists("alice").unwrap(), true);
    let u = db.get_user("alice".to_string()).unwrap();
    assert_eq!(u.username(), "alice");
    assert_eq!(u.email(), "a@x.com");
    assert_eq!(u.beeid(), "bee1");
}

#[test]
fn add_user_replaces_record() {
    let mut db = Database::new();
    let first = User::new("carol".to_string(), "c1@x.com".to_string(), "one".to_string()).unwrap();
    let second = User::new("carol".to_string(), "c2@x.com".to_string(), "two".to_string()).unwrap();
    db.add_user(first).unwrap();
    db.add_user(second).unwrap();
    let u = db.get_user("carol".to_string()).unwrap();
    assert_eq!(u.get_email(), "c2@x.com");
    assert_eq!(db.authenticate_user("carol", "two").unwrap(), true);
    assert_eq!(db.authenticate_user("carol", "one").unwrap(), false);
}

#[test]
fn user_record_never_stores_plaintext_hash_verifies() {
    let user = User::new("dave".to_string(), "d@x.com".to_string(), "secret".to_string()).unwrap();
    assert!(user.authenticate("secret"));
    assert!(!user.authenticate("Secret"));
    assert!(!user.authenticate(""));
    assert_ne!(user.password_hash, "secret".to_string());
    assert_eq!(user.password_hash.len(), 60);
}

#[test]
fn update_password_rehashes() {
    let mut user = User::new("erin".to_string(), "e@x.com".to_string(), "old".to_string()).unwrap();
    user.update_password("new".to_string()).unwrap();
    assert!(user.authenticate("new"));
    assert!(!user.authenticate("old"));
}

#[test]
fn user_field_updates() {
    let mut user = User::new("fay".to_string(), "f@x.com".to_string(), "pw".to_string()).unwrap();
    user.update_username("faye".to_string());
    user.update_email("faye@x.com".to_string());
    assert_eq!(user.username(), "faye");
    assert_eq!(user.email(), "faye@x.com");
    assert_eq!(user.get_email(), "faye@x.com");
}

#[test]
fn beeid_carries_fixed_prefix() {
    let beeid = User::generate_beeid("gus", "g@x.com");
    assert!(beeid.starts_with("seigr_bee"));
    assert!(beeid.len() > 9);
    let user = User::new("gus".to_string(), "g@x.com".to_string(), "pw".to_string()).unwrap();
    assert!(user.beeid().starts_with("seigr_bee"));
}

#[test]
fn config_form_fields_and_getters() {
    let mut config = SeigrConfig::default();
    assert_eq!(config.username(), "");
    config.set_username("heidi".to_string()).unwrap();
    config.set_password("pw".to_string()).unwrap();
    config.set_email("h@x.com".to_string()).unwrap();
    config.set_beeid("bee".to_string()).unwrap();
    assert_eq!(config.username(), "heidi");
    assert_eq!(config.password(), "pw");
    assert_eq!(config.email(), "h@x.com");
    assert_eq!(config.beeid(), "bee");
}

#[test]
fn config_first_user_getters() {
    let mut config = SeigrConfig::default();
    assert!(matches!(config.get_username().unwrap_err(), DatabaseError::UserNotFound));
    assert!(matches!(config.get_email().unwrap_err(), DatabaseError::UserNotFound));
    assert!(matches!(config.get_beeid().unwrap_err(), DatabaseError::UserNotFound));
    assert!(matches!(config.get_key().unwrap_err(), DatabaseError::UserNotFound));
    assert!(!config.has_users());
    config.add_user("ivan".to_string(), "pw".to_string(), "i@x.com".to_string()).unwrap();
    assert!(config.has_users());
    assert!(config.user_exists("ivan"));
    assert!(!config.user_exists("judy"));
    assert_eq!(config.get_username().unwrap(), "ivan".to_string());
    assert_eq!(config.get_email().unwrap(), "i@x.com".to_string());
    assert_eq!(config.get_key().unwrap(), [0u8; 32]);
    let u = config.get_user("ivan".to_string()).unwrap();
    assert_eq!(u.username(), "ivan");
}

#[test]
fn error_messages_name_their_kind() {
    assert_eq!(DatabaseError::UserNotFound.message(), "User not found".to_string());
    assert_eq!(
        DatabaseError::FileNotFound("x".to_string()).message(),
        "File not found: x".to_string()
    );
    assert_eq!(DatabaseError::DecryptionFailed.message(), "Decryption failed".to_string());
    assert_eq!(DatabaseError::InvalidArgument.message(), "Invalid argument".to_string());
    assert_eq!(DatabaseError::DuplicateUser.message(), "User already exists".to_string());
}
