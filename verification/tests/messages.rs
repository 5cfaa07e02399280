use schemaform::address::{AddressError, JsonPointer};
use schemaform::definition::{
    InputError, ResourceError, ResourceLimitError, ResourceLimitPhase, UiSchemaInputError,
    UiSchemaInputErrorKind,
};
use schemaform::engine::{ApplyExternalFindingsError, CompileError, CreateFormError, EditError, ExternalFindingError};
use schemaform::json::{JsonParseError, JsonSyntaxError};
use schemaform::limits::{
    check_input_source, CompilationLimitDimension, CompilationLimitError, CompilationLimitPhase,
    InputLimits,
};
use schemaform::state::{FormBuildError, HostCommitError, ReinitializeError, UserOperationError};

fn resource_limit() -> ResourceLimitError {
    ResourceLimitError::new(
        ResourceLimitPhase::Operation,
        "nodes",
        3,
        4,
        JsonPointer::parse("/a/0".to_string()).unwrap(),
    )
}

fn compilation_limit() -> CompilationLimitError {
    CompilationLimitError::new(
        CompilationLimitPhase::Graph,
        CompilationLimitDimension::ScalarBytes,
        10,
        12,
        "/properties/x".to_string(),
    )
}

#[test]
fn limit_errors_describe_the_violation() {
    assert_eq!(
        compilation_limit().description(),
        "data-schema Graph ScalarBytes limit 10 exceeded by 12 at /properties/x"
    );
    assert_eq!(resource_limit().description(), "observed 4 exceeds nodes limit 3 at /a/0 during Operation");
    let limits = InputLimits {
        bytes: 2,
        tokens: 100,
        depth: 100,
        nodes: 100,
        members: 100,
        collection_length: 100,
        scalar_bytes: 100,
    };
    let error = check_input_source(b"[1, 2]", limits).expect_err("too many bytes");
    assert_eq!(error.description(), "input bytes limit 2 exceeded by 6");
}

#[test]
fn input_errors_describe_the_ui_schema_location() {
    let ui = UiSchemaInputError::new("/elements/0".to_string(), UiSchemaInputErrorKind::DuplicateElementId);
    assert_eq!(ui.description(), "UI schema DuplicateElementId at /elements/0");
    assert_eq!(UiSchemaInputErrorKind::DuplicateElementId.description(), "duplicate element ID");
    assert_eq!(InputError::InvalidUiSchema(ui).description(), "invalid or unsupported UI schema at /elements/0: DuplicateElementId");
    assert_eq!(InputError::InvalidDataSchema.description(), "invalid data schema");
    assert_eq!(ResourceError::InvalidResourceGraph.description(), "invalid or incomplete caller-supplied resource graph");
    assert_eq!(ResourceError::Limit(compilation_limit()).description(), compilation_limit().description());
    assert_eq!(AddressError::UriMustBeAbsolute.description(), "invalid public address: UriMustBeAbsolute");
}

#[test]
fn form_errors_describe_the_rejection() {
    assert_eq!(FormBuildError::FormDataMustBeObject.description(), "form data must be a JSON object");
    assert_eq!(FormBuildError::ResourceLimit(resource_limit()).description(), resource_limit().description());
    assert_eq!(UserOperationError::UnknownTarget.description(), "unknown or removed operation target");
    assert_eq!(UserOperationError::OperationNotAllowed.description(), "operation is not allowed for the current target");
    assert_eq!(HostCommitError::InvalidOperation.description(), "invalid host transaction operation");
    assert_eq!(ReinitializeError::InvalidFormData.description(), "invalid replacement form data");
    assert_eq!(CreateFormError::FormDataMustBeObject.description(), "form data must be an object");
    assert_eq!(EditError::UnknownControl("/a".to_string()).description(), "unknown control binding: /a");
    assert_eq!(
        EditError::UnresolvedControl("/b".to_string()).description(),
        "control binding is absent from form data: /b"
    );
    assert_eq!(
        EditError::OperationNotAllowed("/c".to_string()).description(),
        "operation is not allowed for control: /c"
    );
    assert_eq!(
        ExternalFindingError::InvalidInstancePointer("x".to_string()).description(),
        "invalid external finding instance pointer: x"
    );
    assert_eq!(
        ApplyExternalFindingsError::StaleDataRevision { current: 7, supplied: 12 }.description(),
        "external findings target data revision 12, but the current revision is 7"
    );
}

#[test]
fn parse_errors_describe_the_input() {
    let syntax = JsonSyntaxError::from_parts(2, 5, "expected value at line 2 column 5".to_string());
    assert_eq!(syntax.description(), "expected value at line 2 column 5");
    assert_eq!(JsonParseError::Syntax(syntax).description(), "invalid JSON: expected value at line 2 column 5");
    let ui = JsonParseError::InvalidUiSchema {
        location: JsonPointer::parse("/type".to_string()).unwrap(),
        reason: "unknown variant".to_string(),
    };
    assert_eq!(ui.description(), "invalid UI schema at /type: unknown variant");
    assert_eq!(JsonParseError::ResourceLimit(resource_limit()).description(), resource_limit().description());
}

#[test]
fn compile_errors_describe_the_failure() {
    assert_eq!(
        CompileError::MissingProperties.description(),
        "object data schema must declare properties"
    );
    assert_eq!(
        CompileError::UnsupportedReference("#/$defs/missing".to_string()).description(),
        "unsupported data-schema reference: #/$defs/missing"
    );
    assert_eq!(
        CompileError::ResourceLimit(compilation_limit()).description(),
        "data-schema Graph ScalarBytes limit 10 exceeded by 12 at /properties/x"
    );
}
