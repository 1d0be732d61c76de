//! Fixed-width names, their readable form, and the storage key convention.

use worldcache::keys::{location_diffs_save_path, location_primitive_save_path};
use worldcache::text::{bound_string, bounded_eq, bounded_printable};

#[test]
fn bound_string_truncates_and_pads() {
    let b = bound_string(String::from("bob"));
    assert_eq!(&b[..3], b"bob");
    assert!(b[3..].iter().all(|&x| x == 0));
    let long = bound_string(String::from("abcdefghijklmnopqrstuvwxyz0123456789"));
    assert_eq!(&long[..], b"abcdefghijklmnopqrstuvwxyz012345");
}

#[test]
fn bounded_printable_trims_and_stops_at_padding() {
    let b = bound_string(String::from("  bob \t"));
    assert_eq!(bounded_printable(b), "bob");
    let empty = bound_string(String::new());
    assert_eq!(bounded_printable(empty), "");
}

#[test]
fn bounded_printable_round_trips_plain_names() {
    for name in ["alice", "bob", "x", "a_long_user_name_32bytes_exactly"] {
        let b = bound_string(String::from(name));
        assert_eq!(bounded_printable(b), name);
    }
}

#[test]
fn bounded_eq_is_bytewise() {
    let a = bound_string(String::from("alice"));
    let b = bound_string(String::from("alice"));
    let c = bound_string(String::from("alicf"));
    assert!(bounded_eq(&a, &b));
    assert!(!bounded_eq(&a, &c));
}

#[test]
fn save_paths_follow_the_key_convention() {
    assert_eq!(location_primitive_save_path(0), "loc_prim_0");
    assert_eq!(location_primitive_save_path(7), "loc_prim_7");
    assert_eq!(location_primitive_save_path(4203), "loc_prim_4203");
    assert_eq!(location_diffs_save_path(7), "loc_diffs_7");
    assert_eq!(location_diffs_save_path(4294967295), "loc_diffs_4294967295");
}
