use schemaform::number::{
    canonical_integer_with_limit, is_json_number_text, number_is_integer, number_texts_equal,
    ParseBlockerKind,
};
use schemaform::value::{numbers_equal, JsonNumber};

fn number(text: &str) -> JsonNumber {
    let parsed: serde_json::Number = serde_json::from_str(text).expect("the number should parse");
    JsonNumber::parse(parsed.as_str()).expect("serde_json numbers are JSON numbers")
}

#[test]
fn integer_equality_is_non_expanding_and_not_limited_to_machine_exponents() {
    let exponent = number("1e4096");
    let plain = number(&format!("1{}", "0".repeat(4096)));
    assert!(numbers_equal(&exponent, &plain));

    let huge_exponent = number("1e9223372036854775808");
    let equivalent = number("10e9223372036854775807");
    assert!(numbers_equal(&huge_exponent, &equivalent));

    let negative_zero = number("-0e9223372036854775808");
    let zero = number("0");
    assert!(numbers_equal(&negative_zero, &zero));

    let decimal = number("1.20");
    let exponent = number("120e-2");
    assert!(numbers_equal(&decimal, &exponent));
}

#[test]
fn different_numbers_are_not_equal() {
    assert!(!number_texts_equal("1", "-1"));
    assert!(!number_texts_equal("1.5", "15e-2"));
    assert!(number_texts_equal("15e-1", "1.5"));
    assert!(!number_texts_equal("1e9223372036854775808", "1e9223372036854775807"));
}

#[test]
fn canonical_integer_expands_exponents_and_drops_fraction_zeros() {
    assert_eq!(canonical_integer_with_limit("1e3", 4096), Ok("1000".to_string()));
    assert_eq!(canonical_integer_with_limit("-12.30e1", 4096), Ok("-123".to_string()));
    assert_eq!(canonical_integer_with_limit("1200e-2", 4096), Ok("12".to_string()));
    assert_eq!(canonical_integer_with_limit("007", 4096), Ok("7".to_string()));
}

#[test]
fn canonical_integer_writes_every_zero_as_zero() {
    assert_eq!(canonical_integer_with_limit("-0.0e5", 4096), Ok("0".to_string()));
    assert_eq!(canonical_integer_with_limit("0e9223372036854775808", 4096), Ok("0".to_string()));
    assert_eq!(
        canonical_integer_with_limit("0", 0),
        Err(ParseBlockerKind::ResourceLimitExceeded)
    );
}

#[test]
fn canonical_integer_rejects_fractions() {
    assert_eq!(canonical_integer_with_limit("1.5", 4096), Err(ParseBlockerKind::InvalidInteger));
    assert_eq!(canonical_integer_with_limit("1e-1", 4096), Err(ParseBlockerKind::InvalidInteger));
    assert_eq!(
        canonical_integer_with_limit("1e-9223372036854775809", 4096),
        Err(ParseBlockerKind::InvalidInteger)
    );
}

#[test]
fn canonical_integer_digit_budget_applies_to_the_canonical_value() {
    let fits = canonical_integer_with_limit("0.001e4098", 4096).expect("4096 digits fit");
    assert_eq!(fits.len(), 4096);
    assert!(fits.starts_with('1'));
    assert!(fits[1..].bytes().all(|digit| digit == b'0'));
    assert_eq!(
        canonical_integer_with_limit("1e4096", 4096),
        Err(ParseBlockerKind::ResourceLimitExceeded)
    );
    assert_eq!(
        canonical_integer_with_limit("1e9223372036854775808", 4096),
        Err(ParseBlockerKind::ResourceLimitExceeded)
    );
}

#[test]
fn integral_numbers_are_recognized() {
    assert!(number_is_integer("1.0"));
    assert!(number_is_integer("10e-1"));
    assert!(number_is_integer("-0.0"));
    assert!(!number_is_integer("1.5"));
    assert!(!number_is_integer("1e-1"));
}

#[test]
fn json_number_grammar_is_enforced() {
    assert!(is_json_number_text("-1.5e+10"));
    assert!(is_json_number_text("0"));
    assert!(!is_json_number_text("01"));
    assert!(!is_json_number_text("1."));
    assert!(!is_json_number_text("-"));
    assert!(!is_json_number_text("1e"));
    assert!(!is_json_number_text("+1"));
    assert!(JsonNumber::parse("1.2.3").is_none());
}
