use schemaform::engine::{
    number_from_reading, parse_integer, parse_integer_with_limit, parse_number, ParseBlocker,
};
use schemaform::value::JsonValue;

fn number_text(value: &JsonValue) -> Option<String> {
    match value {
        JsonValue::Number(n) => Some(n.as_str().to_string()),
        _ => None,
    }
}

#[test]
fn numbers_keep_their_spelling() {
    assert_eq!(parse_number("1.50").ok().and_then(|v| number_text(&v)).as_deref(), Some("1.50"));
    assert_eq!(parse_number(" -2e3 ").ok().and_then(|v| number_text(&v)).as_deref(), Some("-2e+3"));
    assert_eq!(parse_number("abc").err(), Some(ParseBlocker::InvalidNumber));
    assert_eq!(parse_number("\"1\"").err(), Some(ParseBlocker::InvalidNumber));
    assert_eq!(parse_number("01").err(), Some(ParseBlocker::InvalidNumber));
}

#[test]
fn integers_are_canonical() {
    assert_eq!(parse_integer("1e2").ok().and_then(|v| number_text(&v)).as_deref(), Some("100"));
    assert_eq!(parse_integer(" 3.0 ").ok().and_then(|v| number_text(&v)).as_deref(), Some("3"));
    assert_eq!(parse_integer("-0").ok().and_then(|v| number_text(&v)).as_deref(), Some("0"));
    assert_eq!(parse_integer("1.5").err(), Some(ParseBlocker::InvalidInteger));
    assert_eq!(parse_integer("x").err(), Some(ParseBlocker::InvalidInteger));
    assert_eq!(parse_integer_with_limit("1e10", 5).err(), Some(ParseBlocker::ResourceLimitExceeded));
    assert_eq!(parse_integer_with_limit("12345", 5).ok().and_then(|v| number_text(&v)).as_deref(), Some("12345"));
}

#[test]
fn readings_become_numbers_or_the_given_blocker() {
    assert_eq!(number_from_reading(Some("7".to_string()), ParseBlocker::InvalidInteger).ok().and_then(|v| number_text(&v)).as_deref(), Some("7"));
    assert_eq!(number_from_reading(Some("07".to_string()), ParseBlocker::InvalidInteger).err(), Some(ParseBlocker::InvalidInteger));
    assert_eq!(number_from_reading(None, ParseBlocker::InvalidNumber).err(), Some(ParseBlocker::InvalidNumber));
}

#[test]
fn number_readings_take_json_whitespace_only_and_normalize_the_exponent() {
    assert_eq!(parse_number("\t1E5\r\n").ok().and_then(|v| number_text(&v)).as_deref(), Some("1e+5"));
    assert_eq!(parse_number("1.5E-2").ok().and_then(|v| number_text(&v)).as_deref(), Some("1.5e-2"));
    assert_eq!(parse_number("007").err(), Some(ParseBlocker::InvalidNumber));
    assert_eq!(parse_number("\u{a0}1").err(), Some(ParseBlocker::InvalidNumber));
    assert_eq!(parse_integer(" 12 ").ok().and_then(|v| number_text(&v)).as_deref(), Some("12"));
}
