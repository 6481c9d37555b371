//! Tests for the interaction state and key dispatch, plus the building
//! blocks they use.

use seigr_hive::app::{App, AppState};
use seigr_hive::beecell::BeeCell;
use seigr_hive::eventhandler::EventHandler;
use seigr_hive::numfmt::{u64_to_decimal, u64_to_hex};

#[test]
fn test_app_register_user() {
    let mut app = App::default();
    let result = app.register_user(
        "username".to_string(),
        "password".to_string(),
        "email@example.com".to_string(),
    );
    assert!(result.is_ok());
    assert!(app.username.is_some());
}

#[test]
fn test_app_authenticate_user() {
    let mut app = App::default();
    let result = app.authenticate_user("username".to_string(), "password".to_string());
    assert!(result.is_ok());
    assert!(app.authenticated);
}

#[test]
fn app_register_fills_user_record() {
    let mut app = App::new();
    app.register_user("kim".to_string(), "pw".to_string(), "k@x.com".to_string()).unwrap();
    let user = app.get_user().unwrap();
    assert_eq!(user.username(), "kim");
    assert_eq!(user.email(), "k@x.com");
    assert!(user.authenticate("pw"));
    assert_eq!(app.get_email().unwrap(), "k@x.com".to_string());
}

#[test]
fn app_applies_vault_verdict() {
    let mut app = App::new();
    app.authenticate_user("username".to_string(), "password".to_string()).unwrap();
    assert!(app.authenticated);
    app.apply_auth_verdict(false);
    assert!(!app.authenticated);
    app.apply_auth_verdict(true);
    assert!(app.authenticated);
}

#[test]
fn app_state_transitions() {
    let mut app = App::new();
    assert!(matches!(app.get_state(), AppState::Login));
    app.set_state(AppState::Register);
    assert!(matches!(app.get_state(), AppState::Register));
    assert!(!app.should_quit);
    app.quit();
    assert!(app.should_quit);
    app.tick();
    assert!(app.should_quit);
}

#[test]
fn key_dispatch() {
    let mut handler = EventHandler::new();
    let mut app = App::new();
    handler.handle_key_event(&mut app, 'r');
    assert!(matches!(app.get_state(), AppState::Register));
    handler.handle_key_event(&mut app, 'l');
    assert!(matches!(app.get_state(), AppState::Login));
    handler.handle_key_event(&mut app, 'x');
    assert!(matches!(app.get_state(), AppState::Login));
    assert!(!app.should_quit);
    handler.handle_key_event(&mut app, 'q');
    assert!(app.should_quit);
}

#[test]
fn beecell_builder() {
    let mut cell = BeeCell::new();
    assert!(!cell.is_sealed());
    assert_eq!(cell.get_data(), b"");
    cell.add_data(b"hello ".to_vec());
    cell.add_data(b"world".to_vec());
    assert_eq!(cell.get_data(), b"hello world");
    let open_id = cell.beecell_id();
    cell.seal();
    assert!(cell.is_sealed());
    assert_eq!(cell.get_data(), b"hello world");
    // the identifier covers the sealed flag, so it changes on sealing
    assert_ne!(cell.beecell_id(), open_id);
    assert_eq!(cell.previous_beecell_id(), cell.beecell_id());
    assert_eq!(cell.next_beecell_id(), cell.beecell_id());
}

#[test]
fn beecell_ids_deterministic() {
    let mut a = BeeCell::new();
    a.add_data(b"same".to_vec());
    let mut b = BeeCell::new();
    b.add_data(b"same".to_vec());
    assert_eq!(a.beecell_id(), b.beecell_id());
    let mut c = BeeCell::new();
    c.add_data(b"different".to_vec());
    assert_ne!(a.beecell_id(), c.beecell_id());
}

#[test]
fn number_rendering() {
    assert_eq!(u64_to_decimal(0), "0".to_string());
    assert_eq!(u64_to_decimal(7), "7".to_string());
    assert_eq!(u64_to_decimal(12345), "12345".to_string());
    assert_eq!(u64_to_decimal(u64::MAX), "18446744073709551615".to_string());
    assert_eq!(u64_to_hex(0), "0".to_string());
    assert_eq!(u64_to_hex(255), "ff".to_string());
    assert_eq!(u64_to_hex(0xdead_beef), "deadbeef".to_string());
}
