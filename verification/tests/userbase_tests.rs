//! Registration and login: every refusal names its own cause.

use worldcache::text::bound_string;
use worldcache::userbase::{UserBase, UserBaseError};

fn b(s: &str) -> [u8; 32] {
    bound_string(String::from(s))
}

#[test]
fn register_then_login_round_trip() {
    let mut ub = UserBase::new();
    assert!(ub.register(b("alice"), b("pw1")));
    let cid = ub.login(b("alice"), b("pw1")).unwrap();
    assert_eq!(cid, 1);
    assert!(ub.is_logged_in(cid));
}

#[test]
fn duplicate_name_is_refused() {
    let mut ub = UserBase::new();
    assert!(ub.register(b("alice"), b("pw1")));
    assert!(!ub.register(b("alice"), b("pw2")));
}

#[test]
fn unknown_username_is_named() {
    let mut ub = UserBase::new();
    assert_eq!(ub.login(b("ghost"), b("pw")), Err(UserBaseError::UnknownUsername));
}

#[test]
fn wrong_password_is_named() {
    let mut ub = UserBase::new();
    assert!(ub.register(b("alice"), b("pw1")));
    assert_eq!(ub.login(b("alice"), b("nope")), Err(UserBaseError::WrongPassword));
}

#[test]
fn double_login_is_named() {
    let mut ub = UserBase::new();
    assert!(ub.register(b("alice"), b("pw1")));
    let _ = ub.login(b("alice"), b("pw1")).unwrap();
    assert_eq!(ub.login(b("alice"), b("pw1")), Err(UserBaseError::AlreadyLoggedIn));
}

#[test]
fn logout_frees_the_session() {
    let mut ub = UserBase::new();
    assert!(ub.register(b("alice"), b("pw1")));
    let cid = ub.login(b("alice"), b("pw1")).unwrap();
    ub.logout(cid);
    assert!(!ub.is_logged_in(cid));
    assert!(ub.login(b("alice"), b("pw1")).is_ok());
}

#[test]
fn log_everyone_out_clears_all_sessions() {
    let mut ub = UserBase::new();
    assert!(ub.register(b("alice"), b("pw1")));
    assert!(ub.register(b("bob"), b("pw2")));
    let a = ub.login(b("alice"), b("pw1")).unwrap();
    let c = ub.login(b("bob"), b("pw2")).unwrap();
    ub.log_everyone_out();
    assert!(!ub.is_logged_in(a));
    assert!(!ub.is_logged_in(c));
}

#[test]
fn first_time_setup_flag_is_tracked() {
    let mut ub = UserBase::new();
    assert!(ub.register(b("alice"), b("pw1")));
    let cid = ub.login(b("alice"), b("pw1")).unwrap();
    assert!(!ub.client_is_setup(cid));
    ub.set_client_setup_true(cid);
    assert!(ub.client_is_setup(cid));
}

#[test]
fn registration_file_parsing_wants_exactly_two_lines() {
    assert!(UserBase::parse_registration(b"alice\npw1").is_some());
    assert!(UserBase::parse_registration(b"alice").is_none());
    assert!(UserBase::parse_registration(b"alice\npw1\nextra").is_none());
    let (u, p) = UserBase::parse_registration(b"  alice \n pw1\t").unwrap();
    assert_eq!(u, b("alice"));
    assert_eq!(p, b("pw1"));
}

#[test]
fn consume_registration_entry_registers_valid_files() {
    let mut ub = UserBase::new();
    assert!(ub.consume_registration_entry(b"alice\npw1"));
    assert!(!ub.consume_registration_entry(b"alice\npw1"));
    assert!(!ub.consume_registration_entry(b"garbage"));
    assert!(ub.login(b("alice"), b("pw1")).is_ok());
}
