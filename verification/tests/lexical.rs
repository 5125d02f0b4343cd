//! Shapes of words.

use shodh_memory::lexical::is_acronym;
use shodh_memory::lexical::is_camel_case;
use shodh_memory::lexical::is_version_number;

#[test]
fn test_is_camel_case() {
    assert!(is_camel_case("PostgreSQL"));
    assert!(is_camel_case("GraphQL"));
    assert!(is_camel_case("FastAPI"));
    assert!(is_camel_case("RocksDB"));
    assert!(!is_camel_case("USA")); // All caps = acronym, not CamelCase
    assert!(!is_camel_case("hello")); // All lowercase
    assert!(!is_camel_case("Hi")); // Too short
    assert!(!is_camel_case("CONSTANT")); // All uppercase
}

#[test]
fn test_is_acronym() {
    assert!(is_acronym("USA"));
    assert!(is_acronym("API"));
    assert!(is_acronym("AWS"));
    assert!(is_acronym("S3")); // Uppercase + digit
    assert!(!is_acronym("A")); // Too short (1 char)
    assert!(!is_acronym("TOOLONGACRONYM")); // Too long (>6)
    assert!(!is_acronym("hello")); // Not uppercase
}

#[test]
fn test_is_version_number() {
    assert!(is_version_number("v1.2.3"));
    assert!(is_version_number("2.0.0"));
    assert!(is_version_number("2.0.0-rc1"));
    assert!(is_version_number("V1.0.0-beta.2"));
    assert!(!is_version_number("hello"));
    assert!(!is_version_number("v"));
    assert!(!is_version_number("123")); // No dot
    assert!(!is_version_number(""));
}

#[test]
fn camel_case_needs_a_capital_first_and_another_later() {
    assert!(!is_camel_case("iPhone"));
    assert!(!is_camel_case("Hello"));
    assert!(!is_camel_case("H2o"));
    assert!(is_camel_case("AbC"));
    assert!(!is_camel_case(""));
}

#[test]
fn digits_come_on_top_of_the_letters_of_an_acronym() {
    assert!(is_acronym("ABC123"));
    assert!(is_acronym("ABCDE1"));
    assert!(is_acronym("1ABCDE"));
    assert!(is_acronym("A12345"));
    assert!(!is_acronym("ABCDE12"));
    assert!(!is_acronym("ABC1234"));
    assert!(!is_acronym("123456"));
}

#[test]
fn an_acronym_has_up_to_five_letters_and_two_characters_at_least() {
    assert!(is_acronym("AB"));
    assert!(is_acronym("ABCDE"));
    assert!(!is_acronym("ABCDEF"));
    assert!(is_acronym("ÄÖÜÄÖ"));
    assert!(!is_acronym("ÄÖÜÄÖÜ"));
    assert!(!is_acronym("É"));
    assert!(!is_acronym(""));
}

#[test]
fn a_camel_case_word_is_no_acronym_and_can_grow() {
    for w in ["PostgreSQL", "AbC", "ÉéÉ", "FastAPI"] {
        assert!(is_camel_case(w));
        assert!(!is_acronym(w));
        for s in ["", "x", "X", " 1", "é!"] {
            assert!(is_camel_case(&format!("{w}{s}")), "{w}{s}");
        }
    }
}

#[test]
fn letters_beyond_ascii_have_a_case() {
    assert!(is_camel_case("ÉcoleÉ"));
    assert!(!is_camel_case("école"));
    assert!(!is_camel_case("ÉÉÉ"));
    assert!(is_camel_case("ÉéÉ"));
}

#[test]
fn an_acronym_needs_a_letter() {
    assert!(!is_acronym("123"));
    assert!(is_acronym("3D"));
    assert!(!is_acronym("A-B"));
}

#[test]
fn versions_take_one_v_and_no_other_characters() {
    assert!(!is_version_number("vv1.0"));
    assert!(!is_version_number("1.0_2"));
    assert!(!is_version_number(".1.0"));
    assert!(is_version_number("1."));
    assert!(!is_version_number("1.é"));
}
