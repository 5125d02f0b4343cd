//! Path components that are accepted and rejected.

use shodh_memory::path_guard::sanitize_component;

#[test]
fn accepts_ordinary_identifiers() {
    for ok in ["all", "user-1", "a.b", "X_9", "someone@example.com"] {
        assert!(sanitize_component(ok, "user id").is_ok(), "{ok}");
    }
}

#[test]
fn rejects_everything_that_could_leave_the_directory() {
    for bad in [
        "", ".", "..", "../x", "a/b", "a\\b", "/etc", "a\0b", ".hidden",
        "..%2f", "a b", "名前", &"x".repeat(129),
    ] {
        assert!(sanitize_component(bad, "user id").is_err(), "{bad:?}");
    }
}

#[test]
fn the_longest_component_has_128_bytes() {
    let longest = "x".repeat(128);
    assert_eq!(sanitize_component(&longest, "user id"), Ok(longest.as_str()));
    assert!(sanitize_component(&"x".repeat(129), "user id").is_err());
}

#[test]
fn an_accepted_component_comes_back_as_the_same_slice() {
    let value = "user-1";
    let same = sanitize_component(value, "user id").unwrap();
    assert_eq!(same, value);
    assert_eq!(same.as_ptr(), value.as_ptr());
}

#[test]
fn the_rejection_names_what_was_expected() {
    assert_eq!(
        sanitize_component("../x", "user id"),
        Err("invalid user id: must be a single plain path component ([A-Za-z0-9._@-], not starting with '.', <=128 bytes)".to_string())
    );
}

#[test]
fn a_joined_component_stays_below_its_base() {
    let base = "/var/lib/users";
    let value = sanitize_component("a.b", "user id").unwrap();
    let joined = std::path::Path::new(base).join(value);
    assert_eq!(joined.parent(), Some(std::path::Path::new(base)));
    assert_eq!(joined.file_name().and_then(|n| n.to_str()), Some("a.b"));
}

#[test]
fn letters_beyond_ascii_are_rejected() {
    for bad in ["é", "ß", "１", "a\u{301}"] {
        assert!(sanitize_component(bad, "session").is_err(), "{bad:?}");
    }
}
