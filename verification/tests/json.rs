use schemaform::definition::ResourceLimitPhase;
use schemaform::json::{
    check_data_schema_source, check_form_data_source, data_schema_from_parsed,
    form_data_from_parsed, ui_schema_error_location, FormDataLimits, JsonParseError,
    JsonSyntaxError, PathSegment,
};
use schemaform::limits::{CompilationLimitDimension, CompilationLimitPhase};
use schemaform::profile::CompilationProfile;
use schemaform::value::{JsonNumber, JsonValue};

#[test]
fn syntax_reasons_drop_the_location_suffix() {
    let error = JsonSyntaxError::from_parts(3, 7, "expected value at line 3 column 7".to_string());
    assert_eq!(error.line(), 3);
    assert_eq!(error.column(), 7);
    assert_eq!(error.reason(), "expected value");
    let other = JsonSyntaxError::from_parts(3, 8, "expected value at line 3 column 7".to_string());
    assert_eq!(other.reason(), "expected value at line 3 column 7");
}

#[test]
fn syntax_errors_keep_serde_json_positions() {
    let error = serde_json::from_str::<serde_json::Value>("{\n  \"a\": }").expect_err("invalid JSON");
    let (line, column) = (error.line(), error.column());
    let converted = JsonSyntaxError::from_parts(line, column, error.to_string());
    assert_eq!(converted.line(), line);
    assert_eq!(converted.column(), column);
    assert_eq!(converted.line(), 2);
    assert_eq!(converted.reason(), "expected value");
}

#[test]
fn form_data_source_limits_become_construction_resource_limits() {
    let limits = FormDataLimits::default().max_bytes(3);
    match check_form_data_source(b"[1,2]", &limits) {
        Err(JsonParseError::ResourceLimit(error)) => {
            assert_eq!(error.phase(), ResourceLimitPhase::Construction);
            assert_eq!(error.dimension(), "bytes");
            assert_eq!(error.maximum(), 3);
            assert_eq!(error.observed(), 5);
            assert_eq!(error.path().as_str(), "");
        }
        other => panic!("unexpected outcome {other:?}"),
    }
    assert!(check_form_data_source(b"[1,2]", &FormDataLimits::default()).is_ok());
}

#[test]
fn parsed_form_data_is_bounded_after_parsing() {
    let limits = FormDataLimits::default().max_depth(0);
    let value = JsonValue::Array(vec![JsonValue::Null]);
    match form_data_from_parsed(Ok(value), &limits) {
        Err(JsonParseError::ResourceLimit(error)) => {
            assert_eq!(error.dimension(), "depth");
            assert_eq!(error.observed(), 1);
            assert_eq!(error.path().as_str(), "/0");
        }
        other => panic!("unexpected outcome {other:?}"),
    }
    let syntax = JsonSyntaxError::from_parts(1, 2, "trailing comma at line 1 column 2".to_string());
    match form_data_from_parsed(Err(syntax), &limits) {
        Err(JsonParseError::Syntax(error)) => assert_eq!(error.reason(), "trailing comma"),
        other => panic!("unexpected outcome {other:?}"),
    }
    let accepted = form_data_from_parsed(Ok(JsonValue::Bool(true)), &limits).expect("a scalar has depth 0");
    assert!(matches!(accepted, JsonValue::Bool(true)));
}

#[test]
fn data_schema_limits_are_compilation_limits() {
    let profile = CompilationProfile::standard().max_data_schema_tokens(2);
    match check_data_schema_source(br#"{"type":"string"}"#, &profile) {
        Err(JsonParseError::CompilationLimit(error)) => {
            assert_eq!(error.phase(), CompilationLimitPhase::Parse);
            assert_eq!(error.dimension(), CompilationLimitDimension::Tokens);
            assert_eq!(error.observed(), 3);
        }
        other => panic!("unexpected outcome {other:?}"),
    }
    let schema = JsonValue::Object(vec![(
        "minimum".to_string(),
        JsonValue::Number(JsonNumber::parse("1").expect("number")),
    )]);
    let profile = CompilationProfile::standard().max_data_schema_bytes(10);
    match data_schema_from_parsed(11, Ok(schema), &profile) {
        Err(JsonParseError::CompilationLimit(error)) => {
            assert_eq!(error.dimension(), CompilationLimitDimension::Bytes);
            assert_eq!(error.observed(), 11);
        }
        other => panic!("unexpected outcome {other:?}"),
    }
}

#[test]
fn deserialization_paths_become_pointers() {
    let path = vec![
        PathSegment::Member("a/b".to_string()),
        PathSegment::Other,
        PathSegment::Element(3),
        PathSegment::Member("~x".to_string()),
    ];
    assert_eq!(ui_schema_error_location(&path).as_str(), "/a~1b/3/~0x");
    assert_eq!(ui_schema_error_location(&Vec::new()).as_str(), "");
}

#[test]
fn syntax_positions_are_one_based() {
    let error = serde_json::from_slice::<serde_json::Value>(b"[\n").expect_err("unterminated array");
    let converted = JsonSyntaxError::from_parts(error.line(), error.column(), error.to_string());
    assert!(converted.line() >= 1);
    assert!(converted.column() >= 1);
    let reported = JsonSyntaxError::from_parts(2, 0, "EOF while parsing a list at line 2 column 0".to_string());
    assert_eq!(reported.line(), 2);
    assert_eq!(reported.column(), 1);
    assert_eq!(reported.reason(), "EOF while parsing a list");
}
