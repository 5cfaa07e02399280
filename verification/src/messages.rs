use vstd::prelude::*;

use crate::address::AddressError;
use crate::definition::{
    InputError, ResourceError, ResourceLimitError, ResourceLimitFailure, ResourceLimitPhase,
    UiSchemaFailure, UiSchemaInputError, UiSchemaInputErrorKind,
};
use crate::engine::{ApplyExternalFindingsError, CompileError, CreateFormError, EditError, ExternalFindingError};
use crate::json::{JsonParseError, JsonSyntaxError, SyntaxFailure};
use crate::limits::{
    input_dimension_name, spec_input_dimension_name, CompilationLimitDimension, CompilationLimitError,
    CompilationLimitFailure, CompilationLimitPhase, InputFailure, InputLimitError,
};
use crate::state::{
    ExternalFindingError as StaleFindingError, FormBuildError, HostCommitError, ReinitializeError,
    UserOperationError,
};
use crate::text::{nat_text, push_decimal, push_text};

verus! {

/// The name of a compilation phase, as `Debug` prints it.
pub open spec fn phase_name(p: CompilationLimitPhase) -> Seq<char> {
    match p {
        CompilationLimitPhase::Parse => "Parse"@,
        CompilationLimitPhase::Structure => "Structure"@,
        CompilationLimitPhase::Graph => "Graph"@,
        CompilationLimitPhase::Projection => "Projection"@,
        CompilationLimitPhase::Definition => "Definition"@,
    }
}

fn phase_text(p: CompilationLimitPhase) -> (r: &'static str)
    ensures
        r@ == phase_name(p),
{
    match p {
        CompilationLimitPhase::Parse => "Parse",
        CompilationLimitPhase::Structure => "Structure",
        CompilationLimitPhase::Graph => "Graph",
        CompilationLimitPhase::Projection => "Projection",
        CompilationLimitPhase::Definition => "Definition",
    }
}

/// The name of a compilation-limit dimension, as `Debug` prints it.
pub open spec fn dimension_name(d: CompilationLimitDimension) -> Seq<char> {
    match d {
        CompilationLimitDimension::Bytes => "Bytes"@,
        CompilationLimitDimension::Tokens => "Tokens"@,
        CompilationLimitDimension::Depth => "Depth"@,
        CompilationLimitDimension::Nodes => "Nodes"@,
        CompilationLimitDimension::Members => "Members"@,
        CompilationLimitDimension::ScalarBytes => "ScalarBytes"@,
        CompilationLimitDimension::Resources => "Resources"@,
        CompilationLimitDimension::References => "References"@,
        CompilationLimitDimension::Traversal => "Traversal"@,
        CompilationLimitDimension::DefinitionNodes => "DefinitionNodes"@,
        CompilationLimitDimension::Controls => "Controls"@,
        CompilationLimitDimension::UriBytes => "UriBytes"@,
        CompilationLimitDimension::PointerBytes => "PointerBytes"@,
        CompilationLimitDimension::CapabilityFindings => "CapabilityFindings"@,
    }
}

fn dimension_text(d: CompilationLimitDimension) -> (r: &'static str)
    ensures
        r@ == dimension_name(d),
{
    match d {
        CompilationLimitDimension::Bytes => "Bytes",
        CompilationLimitDimension::Tokens => "Tokens",
        CompilationLimitDimension::Depth => "Depth",
        CompilationLimitDimension::Nodes => "Nodes",
        CompilationLimitDimension::Members => "Members",
        CompilationLimitDimension::ScalarBytes => "ScalarBytes",
        CompilationLimitDimension::Resources => "Resources",
        CompilationLimitDimension::References => "References",
        CompilationLimitDimension::Traversal => "Traversal",
        CompilationLimitDimension::DefinitionNodes => "DefinitionNodes",
        CompilationLimitDimension::Controls => "Controls",
        CompilationLimitDimension::UriBytes => "UriBytes",
        CompilationLimitDimension::PointerBytes => "PointerBytes",
        CompilationLimitDimension::CapabilityFindings => "CapabilityFindings",
    }
}

/// "data-schema {phase:?} {dimension:?} limit {maximum} exceeded by
/// {observed} at {pointer}".
pub open spec fn compilation_limit_message(f: CompilationLimitFailure) -> Seq<char> {
    "data-schema "@ + phase_name(f.phase) + " "@ + dimension_name(f.dimension) + " limit "@ + nat_text(f.maximum)
        + " exceeded by "@ + nat_text(f.observed) + " at "@ + f.pointer
}

impl CompilationLimitError {
    /// The human-readable description (see [`compilation_limit_message`]).
    pub fn description(&self) -> (r: String)
        ensures
            r@ == compilation_limit_message(self@),
    {
        let mut out = String::new();
        push_text(&mut out, "data-schema ");
        push_text(&mut out, phase_text(self.phase()));
        push_text(&mut out, " ");
        push_text(&mut out, dimension_text(self.dimension()));
        push_text(&mut out, " limit ");
        push_decimal(&mut out, self.maximum() as u64);
        push_text(&mut out, " exceeded by ");
        push_decimal(&mut out, self.observed() as u64);
        push_text(&mut out, " at ");
        push_text(&mut out, self.pointer().as_str());
        assert(out@ =~= compilation_limit_message(self@));
        out
    }
}

/// "input {dimension} limit {maximum} exceeded by {observed}".
pub open spec fn input_limit_message(f: InputFailure) -> Seq<char> {
    "input "@ + spec_input_dimension_name(f.dimension) + " limit "@ + nat_text(f.maximum) + " exceeded by "@
        + nat_text(f.observed)
}

impl InputLimitError {
    /// The human-readable description (see [`input_limit_message`]).
    pub fn description(&self) -> (r: String)
        ensures
            r@ == input_limit_message(self@),
    {
        let mut out = String::new();
        push_text(&mut out, "input ");
        push_text(&mut out, input_dimension_name(self.dimension()));
        push_text(&mut out, " limit ");
        push_decimal(&mut out, self.maximum() as u64);
        push_text(&mut out, " exceeded by ");
        push_decimal(&mut out, self.observed() as u64);
        assert(out@ =~= input_limit_message(self@));
        out
    }
}

/// The name of a resource-limit phase, as `Debug` prints it.
pub open spec fn resource_phase_name(p: ResourceLimitPhase) -> Seq<char> {
    match p {
        ResourceLimitPhase::Construction => "Construction"@,
        ResourceLimitPhase::Operation => "Operation"@,
    }
}

/// "observed {observed} exceeds {dimension} limit {maximum} at {path}
/// during {phase:?}".
pub open spec fn resource_limit_message(f: ResourceLimitFailure) -> Seq<char> {
    "observed "@ + nat_text(f.observed) + " exceeds "@ + f.dimension + " limit "@ + nat_text(f.maximum) + " at "@
        + f.path + " during "@ + resource_phase_name(f.phase)
}

impl ResourceLimitError {
    /// The human-readable description (see [`resource_limit_message`]).
    pub fn description(&self) -> (r: String)
        ensures
            r@ == resource_limit_message(self@),
    {
        let mut out = String::new();
        push_text(&mut out, "observed ");
        push_decimal(&mut out, self.observed() as u64);
        push_text(&mut out, " exceeds ");
        push_text(&mut out, self.dimension());
        push_text(&mut out, " limit ");
        push_decimal(&mut out, self.maximum() as u64);
        push_text(&mut out, " at ");
        push_text(&mut out, self.path().as_str());
        push_text(&mut out, " during ");
        push_text(
            &mut out,
            match self.phase() {
                ResourceLimitPhase::Construction => "Construction",
                ResourceLimitPhase::Operation => "Operation",
            },
        );
        assert(out@ =~= resource_limit_message(self@));
        out
    }
}

/// The name of a UI-schema failure category, as `Debug` prints it.
pub open spec fn kind_name(k: UiSchemaInputErrorKind) -> Seq<char> {
    match k {
        UiSchemaInputErrorKind::UnsupportedField => "UnsupportedField"@,
        UiSchemaInputErrorKind::InvalidBindingOrigin => "InvalidBindingOrigin"@,
        UiSchemaInputErrorKind::UnknownBinding => "UnknownBinding"@,
        UiSchemaInputErrorKind::DuplicateBinding => "DuplicateBinding"@,
        UiSchemaInputErrorKind::InvalidPropertySelection => "InvalidPropertySelection"@,
        UiSchemaInputErrorKind::DuplicateElementId => "DuplicateElementId"@,
        UiSchemaInputErrorKind::DuplicateRequiredExtension => "DuplicateRequiredExtension"@,
        UiSchemaInputErrorKind::MissingRequiredExtension => "MissingRequiredExtension"@,
        UiSchemaInputErrorKind::ResourceLimit => "ResourceLimit"@,
    }
}

fn kind_text(k: UiSchemaInputErrorKind) -> (r: &'static str)
    ensures
        r@ == kind_name(k),
{
    match k {
        UiSchemaInputErrorKind::UnsupportedField => "UnsupportedField",
        UiSchemaInputErrorKind::InvalidBindingOrigin => "InvalidBindingOrigin",
        UiSchemaInputErrorKind::UnknownBinding => "UnknownBinding",
        UiSchemaInputErrorKind::DuplicateBinding => "DuplicateBinding",
        UiSchemaInputErrorKind::InvalidPropertySelection => "InvalidPropertySelection",
        UiSchemaInputErrorKind::DuplicateElementId => "DuplicateElementId",
        UiSchemaInputErrorKind::DuplicateRequiredExtension => "DuplicateRequiredExtension",
        UiSchemaInputErrorKind::MissingRequiredExtension => "MissingRequiredExtension",
        UiSchemaInputErrorKind::ResourceLimit => "ResourceLimit",
    }
}

/// The human-readable phrase of a UI-schema failure category.
pub open spec fn kind_phrase(k: UiSchemaInputErrorKind) -> Seq<char> {
    match k {
        UiSchemaInputErrorKind::UnsupportedField => "unsupported field"@,
        UiSchemaInputErrorKind::InvalidBindingOrigin => "invalid binding origin"@,
        UiSchemaInputErrorKind::UnknownBinding => "unknown binding"@,
        UiSchemaInputErrorKind::DuplicateBinding => "duplicate binding"@,
        UiSchemaInputErrorKind::InvalidPropertySelection => "invalid property selection"@,
        UiSchemaInputErrorKind::DuplicateElementId => "duplicate element ID"@,
        UiSchemaInputErrorKind::DuplicateRequiredExtension => "duplicate required extension"@,
        UiSchemaInputErrorKind::MissingRequiredExtension => "missing required extension"@,
        UiSchemaInputErrorKind::ResourceLimit => "resource limit"@,
    }
}

impl UiSchemaInputErrorKind {
    /// The human-readable phrase of the category (see [`kind_phrase`]).
    pub fn description(&self) -> (r: String)
        ensures
            r@ == kind_phrase(*self),
    {
        let text = match self {
            UiSchemaInputErrorKind::UnsupportedField => "unsupported field",
            UiSchemaInputErrorKind::InvalidBindingOrigin => "invalid binding origin",
            UiSchemaInputErrorKind::UnknownBinding => "unknown binding",
            UiSchemaInputErrorKind::DuplicateBinding => "duplicate binding",
            UiSchemaInputErrorKind::InvalidPropertySelection => "invalid property selection",
            UiSchemaInputErrorKind::DuplicateElementId => "duplicate element ID",
            UiSchemaInputErrorKind::DuplicateRequiredExtension => "duplicate required extension",
            UiSchemaInputErrorKind::MissingRequiredExtension => "missing required extension",
            UiSchemaInputErrorKind::ResourceLimit => "resource limit",
        };
        text.to_string()
    }
}

/// "UI schema {kind:?} at {location}".
pub open spec fn ui_schema_message(f: UiSchemaFailure) -> Seq<char> {
    "UI schema "@ + kind_name(f.kind) + " at "@ + f.location
}

impl UiSchemaInputError {
    /// The human-readable description (see [`ui_schema_message`]).
    pub fn description(&self) -> (r: String)
        ensures
            r@ == ui_schema_message(self@),
    {
        let mut out = String::new();
        push_text(&mut out, "UI schema ");
        push_text(&mut out, kind_text(self.kind()));
        push_text(&mut out, " at ");
        push_text(&mut out, self.location().as_str());
        assert(out@ =~= ui_schema_message(self@));
        out
    }
}

/// "invalid data schema", or "invalid or unsupported UI schema at
/// {location}: {kind:?}".
pub open spec fn input_message(e: InputError) -> Seq<char> {
    match e {
        InputError::InvalidDataSchema => "invalid data schema"@,
        InputError::InvalidUiSchema(u) => "invalid or unsupported UI schema at "@ + u@.location + ": "@ + kind_name(u@.kind),
    }
}

impl InputError {
    /// The human-readable description (see [`input_message`]).
    pub fn description(&self) -> (r: String)
        ensures
            r@ == input_message(*self),
    {
        let mut out = String::new();
        match self {
            InputError::InvalidDataSchema => {
                push_text(&mut out, "invalid data schema");
            },
            InputError::InvalidUiSchema(u) => {
                push_text(&mut out, "invalid or unsupported UI schema at ");
                push_text(&mut out, u.location().as_str());
                push_text(&mut out, ": ");
                push_text(&mut out, kind_text(u.kind()));
            },
        }
        assert(out@ =~= input_message(*self));
        out
    }
}

/// "invalid or incomplete caller-supplied resource graph", or the limit's
/// description.
pub open spec fn resource_message(e: ResourceError) -> Seq<char> {
    match e {
        ResourceError::InvalidResourceGraph => "invalid or incomplete caller-supplied resource graph"@,
        ResourceError::Limit(l) => compilation_limit_message(l@),
    }
}

impl ResourceError {
    /// The human-readable description (see [`resource_message`]).
    pub fn description(&self) -> (r: String)
        ensures
            r@ == resource_message(*self),
    {
        match self {
            ResourceError::InvalidResourceGraph => "invalid or incomplete caller-supplied resource graph".to_string(),
            ResourceError::Limit(l) => l.description(),
        }
    }
}

/// "invalid public address: {self:?}".
pub open spec fn address_message(e: AddressError) -> Seq<char> {
    "invalid public address: "@ + match e {
        AddressError::Empty => "Empty"@,
        AddressError::InvalidJsonPointer => "InvalidJsonPointer"@,
        AddressError::UriMustBeAbsolute => "UriMustBeAbsolute"@,
        AddressError::RetrievalUriHasFragment => "RetrievalUriHasFragment"@,
    }
}

impl AddressError {
    /// The human-readable description (see [`address_message`]).
    pub fn description(&self) -> (r: String)
        ensures
            r@ == address_message(*self),
    {
        let mut out = String::new();
        push_text(&mut out, "invalid public address: ");
        push_text(
            &mut out,
            match self {
                AddressError::Empty => "Empty",
                AddressError::InvalidJsonPointer => "InvalidJsonPointer",
                AddressError::UriMustBeAbsolute => "UriMustBeAbsolute",
                AddressError::RetrievalUriHasFragment => "RetrievalUriHasFragment",
            },
        );
        assert(out@ =~= address_message(*self));
        out
    }
}

/// "form data must be a JSON object", or the resource limit's description.
pub open spec fn form_build_message(e: FormBuildError) -> Seq<char> {
    match e {
        FormBuildError::FormDataMustBeObject => "form data must be a JSON object"@,
        FormBuildError::ResourceLimit(l) => resource_limit_message(l@),
    }
}

impl FormBuildError {
    /// The human-readable description (see [`form_build_message`]).
    pub fn description(&self) -> (r: String)
        ensures
            r@ == form_build_message(*self),
    {
        match self {
            FormBuildError::FormDataMustBeObject => "form data must be a JSON object".to_string(),
            FormBuildError::ResourceLimit(l) => l.description(),
        }
    }
}

/// The description of a rejected end-user operation.
pub open spec fn user_operation_message(e: UserOperationError) -> Seq<char> {
    match e {
        UserOperationError::UnknownTarget => "unknown or removed operation target"@,
        UserOperationError::OperationNotAllowed => "operation is not allowed for the current target"@,
        UserOperationError::ResourceLimit(l) => resource_limit_message(l@),
    }
}

impl UserOperationError {
    /// The human-readable description (see [`user_operation_message`]).
    pub fn description(&self) -> (r: String)
        ensures
            r@ == user_operation_message(*self),
    {
        match self {
            UserOperationError::UnknownTarget => "unknown or removed operation target".to_string(),
            UserOperationError::OperationNotAllowed => "operation is not allowed for the current target".to_string(),
            UserOperationError::ResourceLimit(l) => l.description(),
        }
    }
}

/// The description of a failed host commit.
pub open spec fn host_commit_message(e: HostCommitError) -> Seq<char> {
    match e {
        HostCommitError::InvalidOperation => "invalid host transaction operation"@,
        HostCommitError::ResourceLimit(l) => resource_limit_message(l@),
    }
}

impl HostCommitError {
    /// The human-readable description (see [`host_commit_message`]).
    pub fn description(&self) -> (r: String)
        ensures
            r@ == host_commit_message(*self),
    {
        match self {
            HostCommitError::InvalidOperation => "invalid host transaction operation".to_string(),
            HostCommitError::ResourceLimit(l) => l.description(),
        }
    }
}

/// The description of a rejected external-finding batch.
pub open spec fn stale_finding_message(e: StaleFindingError) -> Seq<char> {
    match e {
        StaleFindingError::StaleRevision { .. } => "external findings target a stale data revision"@,
        StaleFindingError::ResourceLimit(l) => resource_limit_message(l@),
    }
}

impl StaleFindingError {
    /// The human-readable description (see [`stale_finding_message`]).
    pub fn description(&self) -> (r: String)
        ensures
            r@ == stale_finding_message(*self),
    {
        match self {
            StaleFindingError::StaleRevision { .. } => "external findings target a stale data revision".to_string(),
            StaleFindingError::ResourceLimit(l) => l.description(),
        }
    }
}

/// The description of a failed reinitialization.
pub open spec fn reinitialize_message(e: ReinitializeError) -> Seq<char> {
    match e {
        ReinitializeError::InvalidFormData => "invalid replacement form data"@,
        ReinitializeError::ResourceLimit(l) => resource_limit_message(l@),
    }
}

impl ReinitializeError {
    /// The human-readable description (see [`reinitialize_message`]).
    pub fn description(&self) -> (r: String)
        ensures
            r@ == reinitialize_message(*self),
    {
        match self {
            ReinitializeError::InvalidFormData => "invalid replacement form data".to_string(),
            ReinitializeError::ResourceLimit(l) => l.description(),
        }
    }
}

/// The description of a failed compilation.
pub open spec fn compile_message(e: CompileError) -> Seq<char> {
    match e {
        CompileError::MissingProperties => "object data schema must declare properties"@,
        CompileError::UnsupportedReference(reference) => "unsupported data-schema reference: "@ + reference@,
        CompileError::ResourceLimit(l) => compilation_limit_message(l@),
    }
}

impl CompileError {
    /// The human-readable description (see [`compile_message`]).
    pub fn description(&self) -> (r: String)
        ensures
            r@ == compile_message(*self),
    {
        match self {
            CompileError::MissingProperties => "object data schema must declare properties".to_string(),
            CompileError::UnsupportedReference(reference) => {
                let mut out = String::new();
                push_text(&mut out, "unsupported data-schema reference: ");
                push_text(&mut out, reference.as_str());
                out
            },
            CompileError::ResourceLimit(l) => l.description(),
        }
    }
}

impl CreateFormError {
    /// The human-readable description: "form data must be an object".
    pub fn description(&self) -> (r: String)
        ensures
            r@ == "form data must be an object"@,
    {
        "form data must be an object".to_string()
    }
}

/// The description of a rejected edit, naming the control binding.
pub open spec fn edit_message(e: EditError) -> Seq<char> {
    match e {
        EditError::UnknownControl(b) => "unknown control binding: "@ + b@,
        EditError::UnresolvedControl(b) => "control binding is absent from form data: "@ + b@,
        EditError::OperationNotAllowed(b) => "operation is not allowed for control: "@ + b@,
    }
}

impl EditError {
    /// The human-readable description (see [`edit_message`]).
    pub fn description(&self) -> (r: String)
        ensures
            r@ == edit_message(*self),
    {
        let mut out = String::new();
        match self {
            EditError::UnknownControl(b) => {
                push_text(&mut out, "unknown control binding: ");
                push_text(&mut out, b.as_str());
            },
            EditError::UnresolvedControl(b) => {
                push_text(&mut out, "control binding is absent from form data: ");
                push_text(&mut out, b.as_str());
            },
            EditError::OperationNotAllowed(b) => {
                push_text(&mut out, "operation is not allowed for control: ");
                push_text(&mut out, b.as_str());
            },
        }
        assert(out@ =~= edit_message(*self));
        out
    }
}

impl ExternalFindingError {
    /// The human-readable description: "invalid external finding instance
    /// pointer: {pointer}".
    pub fn description(&self) -> (r: String)
        ensures
            r@ == "invalid external finding instance pointer: "@ + match *self {
                ExternalFindingError::InvalidInstancePointer(p) => p@,
            },
    {
        let mut out = String::new();
        push_text(&mut out, "invalid external finding instance pointer: ");
        match self {
            ExternalFindingError::InvalidInstancePointer(p) => push_text(&mut out, p.as_str()),
        }
        out
    }
}

/// "external findings target data revision {supplied}, but the current
/// revision is {current}".
pub open spec fn stale_revision_message(current: u64, supplied: u64) -> Seq<char> {
    "external findings target data revision "@ + nat_text(supplied as nat) + ", but the current revision is "@
        + nat_text(current as nat)
}

impl ApplyExternalFindingsError {
    /// The human-readable description (see [`stale_revision_message`]).
    pub fn description(&self) -> (r: String)
        ensures
            match *self {
                ApplyExternalFindingsError::StaleDataRevision { current, supplied } => r@ == stale_revision_message(current, supplied),
            },
    {
        let mut out = String::new();
        match self {
            ApplyExternalFindingsError::StaleDataRevision { current, supplied } => {
                push_text(&mut out, "external findings target data revision ");
                push_decimal(&mut out, *supplied);
                push_text(&mut out, ", but the current revision is ");
                push_decimal(&mut out, *current);
                assert(out@ =~= stale_revision_message(*current, *supplied));
            },
        }
        out
    }
}

/// "{reason} at line {line} column {column}".
pub open spec fn syntax_message(f: SyntaxFailure) -> Seq<char> {
    f.reason + " at line "@ + nat_text(f.line as nat) + " column "@ + nat_text(f.column as nat)
}

impl JsonSyntaxError {
    /// The human-readable description (see [`syntax_message`]).
    pub fn description(&self) -> (r: String)
        ensures
            r@ == syntax_message(self@),
    {
        let mut out = String::new();
        push_text(&mut out, self.reason());
        push_text(&mut out, " at line ");
        push_decimal(&mut out, self.line() as u64);
        push_text(&mut out, " column ");
        push_decimal(&mut out, self.column() as u64);
        assert(out@ =~= syntax_message(self@));
        out
    }
}

/// The description of a parse failure.
pub open spec fn parse_message(e: JsonParseError) -> Seq<char> {
    match e {
        JsonParseError::Syntax(s) => "invalid JSON: "@ + syntax_message(s@),
        JsonParseError::ResourceLimit(l) => resource_limit_message(l@),
        JsonParseError::CompilationLimit(l) => compilation_limit_message(l@),
        JsonParseError::InvalidUiSchema { location, reason } => "invalid UI schema at "@ + location@ + ": "@ + reason@,
    }
}

impl JsonParseError {
    /// The human-readable description (see [`parse_message`]).
    pub fn description(&self) -> (r: String)
        ensures
            r@ == parse_message(*self),
    {
        match self {
            JsonParseError::Syntax(s) => {
                let mut out = String::new();
                push_text(&mut out, "invalid JSON: ");
                let inner = s.description();
                push_text(&mut out, inner.as_str());
                out
            },
            JsonParseError::ResourceLimit(l) => l.description(),
            JsonParseError::CompilationLimit(l) => l.description(),
            JsonParseError::InvalidUiSchema { location, reason } => {
                let mut out = String::new();
                push_text(&mut out, "invalid UI schema at ");
                push_text(&mut out, location.as_str());
                push_text(&mut out, ": ");
                push_text(&mut out, reason.as_str());
                out
            },
        }
    }
}

} // verus!
