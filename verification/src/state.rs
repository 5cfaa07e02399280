use vstd::prelude::*;

use crate::address::JsonPointer;
use crate::definition::ResourceLimitError;

verus! {

/// Opaque, form-scoped identity of an array item independent of its index.
///
/// It survives moves and index shifts but becomes invalid when the item is
/// removed or when an authoritative replacement creates fresh topology.
#[derive(Debug, Clone, Copy, PartialEq, Eq, Hash, Structural)]
pub struct ItemIdentity {
    form: u64,
    local: u64,
}

impl ItemIdentity {
    /// The identity of item `local` of form `form`.
    pub fn new(form: u64, local: u64) -> (r: ItemIdentity)
        ensures
            r.form_spec() == form,
            r.local_spec() == local,
    {
        ItemIdentity { form, local }
    }

    pub closed spec fn form_spec(self) -> u64 {
        self.form
    }

    pub closed spec fn local_spec(self) -> u64 {
        self.local
    }
}

/// Opaque identity of one current node instance in one form.
///
/// An identity remains stable while its node exists, including across array
/// reordering.
#[derive(Debug, Clone, Copy, PartialEq, Eq, Hash, Structural)]
pub struct InstanceIdentity {
    form: u64,
    node: u64,
    item: Option<ItemIdentity>,
}

impl InstanceIdentity {
    /// The identity of node `node` of form `form`, inside array item `item` if any.
    pub fn new(form: u64, node: u64, item: Option<ItemIdentity>) -> (r: InstanceIdentity)
        ensures
            r.form_spec() == form,
            r.node_spec() == node,
            r.item_spec() == item,
    {
        InstanceIdentity { form, node, item }
    }

    pub closed spec fn form_spec(self) -> u64 {
        self.form
    }

    pub closed spec fn node_spec(self) -> u64 {
        self.node
    }

    pub closed spec fn item_spec(self) -> Option<ItemIdentity> {
        self.item
    }
}

/// Form-scoped revision of canonical JSON data.
///
/// It advances when canonical data changes and on every successful
/// reinitialization, and is used to reject stale external findings.
#[derive(Debug, Clone, Copy, PartialEq, Eq, PartialOrd, Ord, Hash, Structural)]
pub struct DataRevision {
    form: u64,
    revision: u64,
}

impl DataRevision {
    /// Revision `revision` of form `form`'s data.
    pub fn new(form: u64, revision: u64) -> (r: DataRevision)
        ensures
            r.form_spec() == form,
            r.revision_spec() == revision,
    {
        DataRevision { form, revision }
    }

    pub closed spec fn form_spec(self) -> u64 {
        self.form
    }

    pub closed spec fn revision_spec(self) -> u64 {
        self.revision
    }
}

/// Form-scoped revision of all observable data and interaction state.
///
/// It may advance while the data revision stays fixed.
#[derive(Debug, Clone, Copy, PartialEq, Eq, PartialOrd, Ord, Hash, Structural)]
pub struct StateRevision {
    form: u64,
    revision: u64,
}

impl StateRevision {
    /// Revision `revision` of form `form`'s observable state.
    pub fn new(form: u64, revision: u64) -> (r: StateRevision)
        ensures
            r.form_spec() == form,
            r.revision_spec() == revision,
    {
        StateRevision { form, revision }
    }

    pub closed spec fn form_spec(self) -> u64 {
        self.form
    }

    pub closed spec fn revision_spec(self) -> u64 {
        self.revision
    }
}

/// The current absolute JSON binding of a runtime node.
pub struct CurrentBinding {
    pointer: JsonPointer,
    item: Option<ItemIdentity>,
}

impl CurrentBinding {
    /// The binding `pointer`, inside array item `item` if any.
    pub fn new(pointer: JsonPointer, item: Option<ItemIdentity>) -> (r: CurrentBinding)
        ensures
            r.pointer_spec() == pointer@,
            r.item_spec() == item,
    {
        CurrentBinding { pointer, item }
    }

    pub closed spec fn pointer_spec(&self) -> Seq<char> {
        self.pointer@
    }

    pub closed spec fn item_spec(&self) -> Option<ItemIdentity> {
        self.item
    }

    /// The node's absolute JSON pointer.
    pub fn pointer(&self) -> (r: &JsonPointer)
        ensures
            r@ == self.pointer_spec(),
    {
        &self.pointer
    }

    /// The array item the node belongs to, if any.
    pub fn item(&self) -> (r: Option<ItemIdentity>)
        ensures
            r == self.item_spec(),
    {
        self.item
    }
}

/// Why schema validation could not reach a verdict.
#[derive(Debug)]
pub struct IndeterminateReason {
    code: String,
}

impl IndeterminateReason {
    /// A reason with the machine-readable code `code`.
    pub(crate) fn new(code: String) -> (r: IndeterminateReason)
        ensures
            r.code_spec() == code@,
    {
        IndeterminateReason { code }
    }

    pub closed spec fn code_spec(&self) -> Seq<char> {
        self.code@
    }

    /// Returns the stable machine-readable reason code.
    pub fn code(&self) -> (r: &str)
        ensures
            r@ == self.code_spec(),
    {
        self.code.as_str()
    }
}

/// A snapshot of schema-aware user operations currently allowed on a node,
/// one bit per operation.
#[derive(Debug, Clone, Copy, PartialEq, Eq, Default, Structural)]
pub struct AllowedOperations(u32);

impl AllowedOperations {
    pub closed spec fn bits(self) -> u32 {
        self.0
    }

    /// No operation allowed.
    pub fn none() -> (r: AllowedOperations)
        ensures
            r.bits() == 0,
    {
        AllowedOperations(0)
    }

    /// Only text input allowed.
    pub fn input_text() -> (r: AllowedOperations)
        ensures
            r.bits() == 1,
    {
        AllowedOperations(1)
    }

    /// Only setting a value allowed.
    pub fn set_value() -> (r: AllowedOperations)
        ensures
            r.bits() == 2,
    {
        AllowedOperations(2)
    }

    /// Only setting null allowed.
    pub fn set_null() -> (r: AllowedOperations)
        ensures
            r.bits() == 4,
    {
        AllowedOperations(4)
    }

    /// Only removing the value allowed.
    pub fn remove_value() -> (r: AllowedOperations)
        ensures
            r.bits() == 8,
    {
        AllowedOperations(8)
    }

    /// Only replacing the value allowed.
    pub fn replace_value() -> (r: AllowedOperations)
        ensures
            r.bits() == 16,
    {
        AllowedOperations(16)
    }

    /// Only materializing the value allowed.
    pub fn materialize() -> (r: AllowedOperations)
        ensures
            r.bits() == 32,
    {
        AllowedOperations(32)
    }

    /// Only appending an item allowed.
    pub fn append_item() -> (r: AllowedOperations)
        ensures
            r.bits() == 64,
    {
        AllowedOperations(64)
    }

    /// Only removing an item allowed.
    pub fn remove_item() -> (r: AllowedOperations)
        ensures
            r.bits() == 128,
    {
        AllowedOperations(128)
    }

    /// Only moving an item allowed.
    pub fn move_item() -> (r: AllowedOperations)
        ensures
            r.bits() == 256,
    {
        AllowedOperations(256)
    }

    /// Allows also every operation `other` allows.
    pub fn add(&mut self, other: AllowedOperations)
        ensures
            final(self).bits() == old(self).bits() | other.bits(),
    {
        self.0 = self.0 | other.0;
    }

    pub fn can_input_text(self) -> (r: bool)
        ensures
            r == (self.bits() & 1 != 0),
    {
        self.0 & 1 != 0
    }

    pub fn can_set_value(self) -> (r: bool)
        ensures
            r == (self.bits() & 2 != 0),
    {
        self.0 & 2 != 0
    }

    pub fn can_set_null(self) -> (r: bool)
        ensures
            r == (self.bits() & 4 != 0),
    {
        self.0 & 4 != 0
    }

    pub fn can_remove_value(self) -> (r: bool)
        ensures
            r == (self.bits() & 8 != 0),
    {
        self.0 & 8 != 0
    }

    pub fn can_replace_value(self) -> (r: bool)
        ensures
            r == (self.bits() & 16 != 0),
    {
        self.0 & 16 != 0
    }

    pub fn can_materialize(self) -> (r: bool)
        ensures
            r == (self.bits() & 32 != 0),
    {
        self.0 & 32 != 0
    }

    pub fn can_append_item(self) -> (r: bool)
        ensures
            r == (self.bits() & 64 != 0),
    {
        self.0 & 64 != 0
    }

    pub fn can_remove_item(self) -> (r: bool)
        ensures
            r == (self.bits() & 128 != 0),
    {
        self.0 & 128 != 0
    }

    pub fn can_move_item(self) -> (r: bool)
        ensures
            r == (self.bits() & 256 != 0),
    {
        self.0 & 256 != 0
    }
}

/// Adding permissions keeps every permission either side had and gains no
/// other: after `a.add(b)`, each operation is allowed exactly when `a` or `b`
/// allowed it.
pub proof fn lemma_allowed_union(a: AllowedOperations, b: AllowedOperations, operation: u32)
    ensures
        ((a.bits() | b.bits()) & operation != 0) == ((a.bits() & operation != 0) || (b.bits() & operation != 0)),
{
    let x = a.bits();
    let y = b.bits();
    assert(((x | y) & operation != 0) == ((x & operation != 0) || (y & operation != 0))) by (bit_vector);
}

/// How soon a finding becomes visible.
#[derive(Debug, Clone, Copy, PartialEq, Eq, Structural)]
#[non_exhaustive]
pub enum FindingVisibility {
    Immediate,
    TouchedOrSubmission,
    SubmissionOnly,
}

/// Visibility of validation findings and of external findings, set independently.
#[derive(Debug, Clone, Copy, PartialEq, Eq, Structural)]
pub struct FindingVisibilityPolicy {
    validation: FindingVisibility,
    external: FindingVisibility,
}

impl FindingVisibilityPolicy {
    pub closed spec fn validation_spec(self) -> FindingVisibility {
        self.validation
    }

    pub closed spec fn external_spec(self) -> FindingVisibility {
        self.external
    }

    /// Configures validation and external-finding presentation independently.
    pub fn new(validation: FindingVisibility, external: FindingVisibility) -> (r: FindingVisibilityPolicy)
        ensures
            r.validation_spec() == validation,
            r.external_spec() == external,
    {
        FindingVisibilityPolicy { validation, external }
    }

    /// Returns the validation-finding visibility policy.
    pub fn validation(self) -> (r: FindingVisibility)
        ensures
            r == self.validation_spec(),
    {
        self.validation
    }

    /// Returns the external-finding visibility policy.
    pub fn external(self) -> (r: FindingVisibility)
        ensures
            r == self.external_spec(),
    {
        self.external
    }

    /// Replaces only validation-finding visibility.
    pub fn with_validation(self, validation: FindingVisibility) -> (r: FindingVisibilityPolicy)
        ensures
            r.validation_spec() == validation,
            r.external_spec() == self.external_spec(),
    {
        FindingVisibilityPolicy { validation, ..self }
    }

    /// Replaces only external-finding visibility.
    pub fn with_external(self, external: FindingVisibility) -> (r: FindingVisibilityPolicy)
        ensures
            r.validation_spec() == self.validation_spec(),
            r.external_spec() == external,
    {
        FindingVisibilityPolicy { external, ..self }
    }
}

impl Default for FindingVisibilityPolicy {
    fn default() -> (r: FindingVisibilityPolicy)
        ensures
            r.validation_spec() == FindingVisibility::TouchedOrSubmission,
            r.external_spec() == FindingVisibility::TouchedOrSubmission,
    {
        FindingVisibilityPolicy::new(FindingVisibility::TouchedOrSubmission, FindingVisibility::TouchedOrSubmission)
    }
}

/// Whether a scalar node currently holds a usable value.
#[derive(Debug, Clone, Copy, PartialEq, Eq, Structural)]
#[non_exhaustive]
pub enum ScalarValueState {
    Missing,
    Null,
    Empty,
    Compatible,
    Incompatible,
}

/// Bounds on incoming and active external findings and their untrusted parameters.
#[derive(Debug, Clone, Copy, PartialEq, Eq, Structural)]
pub struct ExternalFindingLimits {
    max_active_findings: usize,
    max_active_bytes: usize,
    max_incoming_findings: usize,
    max_incoming_bytes: usize,
    max_parameter_depth: usize,
    max_parameter_nodes: usize,
    max_parameter_collection_length: usize,
    max_parameter_scalar_bytes: usize,
}

/// The bounds external-finding limits hold.
pub struct FindingBounds {
    pub max_active_findings: usize,
    pub max_active_bytes: usize,
    pub max_incoming_findings: usize,
    pub max_incoming_bytes: usize,
    pub max_parameter_depth: usize,
    pub max_parameter_nodes: usize,
    pub max_parameter_collection_length: usize,
    pub max_parameter_scalar_bytes: usize,
}

impl View for ExternalFindingLimits {
    type V = FindingBounds;

    closed spec fn view(&self) -> FindingBounds {
        FindingBounds {
            max_active_findings: self.max_active_findings,
            max_active_bytes: self.max_active_bytes,
            max_incoming_findings: self.max_incoming_findings,
            max_incoming_bytes: self.max_incoming_bytes,
            max_parameter_depth: self.max_parameter_depth,
            max_parameter_nodes: self.max_parameter_nodes,
            max_parameter_collection_length: self.max_parameter_collection_length,
            max_parameter_scalar_bytes: self.max_parameter_scalar_bytes,
        }
    }
}

/// `n * 4`, saturating at `usize::MAX`.
pub open spec fn times_four(n: usize) -> usize {
    if n * 4 > usize::MAX {
        usize::MAX
    } else {
        (n * 4) as usize
    }
}

/// The bounds of `ExternalFindingLimits::new(active_findings, active_bytes)`:
/// incoming bounds four times the active ones (saturating), parameter bounds
/// at their defaults.
pub open spec fn finding_bounds_for(active_findings: usize, active_bytes: usize) -> FindingBounds {
    FindingBounds {
        max_active_findings: active_findings,
        max_active_bytes: active_bytes,
        max_incoming_findings: times_four(active_findings),
        max_incoming_bytes: times_four(active_bytes),
        max_parameter_depth: 32,
        max_parameter_nodes: 4096,
        max_parameter_collection_length: 1024,
        max_parameter_scalar_bytes: 65536,
    }
}

fn saturating_times_four(n: usize) -> (r: usize)
    ensures
        r == times_four(n),
{
    if n > usize::MAX / 4 {
        usize::MAX
    } else {
        n * 4
    }
}

impl ExternalFindingLimits {
    /// Creates limits for aggregate active finding count and encoded bytes
    /// (both nonzero). Raw incoming count and byte limits are four times their
    /// active counterparts, saturating; per-parameter limits take their
    /// defaults.
    pub fn new(max_active_findings: usize, max_active_bytes: usize) -> (r: ExternalFindingLimits)
        requires
            max_active_findings > 0,
            max_active_bytes > 0,
        ensures
            r@ == finding_bounds_for(max_active_findings, max_active_bytes),
    {
        ExternalFindingLimits {
            max_active_findings,
            max_active_bytes,
            max_incoming_findings: saturating_times_four(max_active_findings),
            max_incoming_bytes: saturating_times_four(max_active_bytes),
            max_parameter_depth: 32,
            max_parameter_nodes: 4096,
            max_parameter_collection_length: 1024,
            max_parameter_scalar_bytes: 64 * 1024,
        }
    }

    /// Sets the maximum finding count in one raw incoming batch.
    pub fn max_incoming_findings(self, maximum: usize) -> (r: ExternalFindingLimits)
        ensures
            r@ == (FindingBounds { max_incoming_findings: maximum, ..self@ }),
    {
        ExternalFindingLimits { max_incoming_findings: maximum, ..self }
    }

    /// Sets the maximum encoded bytes in one raw incoming batch.
    pub fn max_incoming_bytes(self, maximum: usize) -> (r: ExternalFindingLimits)
        ensures
            r@ == (FindingBounds { max_incoming_bytes: maximum, ..self@ }),
    {
        ExternalFindingLimits { max_incoming_bytes: maximum, ..self }
    }

    /// Sets the maximum nesting depth of one finding's parameters.
    pub fn max_parameter_depth(self, maximum: usize) -> (r: ExternalFindingLimits)
        ensures
            r@ == (FindingBounds { max_parameter_depth: maximum, ..self@ }),
    {
        ExternalFindingLimits { max_parameter_depth: maximum, ..self }
    }

    /// Sets the maximum JSON node count in one finding's parameters.
    pub fn max_parameter_nodes(self, maximum: usize) -> (r: ExternalFindingLimits)
        ensures
            r@ == (FindingBounds { max_parameter_nodes: maximum, ..self@ }),
    {
        ExternalFindingLimits { max_parameter_nodes: maximum, ..self }
    }

    /// Sets the maximum length of one parameter object or array.
    pub fn max_parameter_collection_length(self, maximum: usize) -> (r: ExternalFindingLimits)
        ensures
            r@ == (FindingBounds { max_parameter_collection_length: maximum, ..self@ }),
    {
        ExternalFindingLimits { max_parameter_collection_length: maximum, ..self }
    }

    /// Sets the maximum encoded bytes of one parameter scalar.
    pub fn max_parameter_scalar_bytes(self, maximum: usize) -> (r: ExternalFindingLimits)
        ensures
            r@ == (FindingBounds { max_parameter_scalar_bytes: maximum, ..self@ }),
    {
        ExternalFindingLimits { max_parameter_scalar_bytes: maximum, ..self }
    }

    /// Returns the inclusive active finding-count maximum.
    pub fn max_active_findings(self) -> (r: usize)
        ensures
            r == self@.max_active_findings,
    {
        self.max_active_findings
    }

    /// Returns the inclusive active encoded-byte maximum.
    pub fn max_active_bytes(self) -> (r: usize)
        ensures
            r == self@.max_active_bytes,
    {
        self.max_active_bytes
    }

    /// Returns the inclusive raw incoming finding-count maximum.
    pub fn incoming_findings(self) -> (r: usize)
        ensures
            r == self@.max_incoming_findings,
    {
        self.max_incoming_findings
    }

    /// Returns the inclusive raw incoming encoded-byte maximum.
    pub fn incoming_bytes(self) -> (r: usize)
        ensures
            r == self@.max_incoming_bytes,
    {
        self.max_incoming_bytes
    }

    /// Returns the inclusive parameter nesting-depth maximum.
    pub fn parameter_depth(self) -> (r: usize)
        ensures
            r == self@.max_parameter_depth,
    {
        self.max_parameter_depth
    }

    /// Returns the inclusive parameter node-count maximum.
    pub fn parameter_nodes(self) -> (r: usize)
        ensures
            r == self@.max_parameter_nodes,
    {
        self.max_parameter_nodes
    }

    /// Returns the inclusive parameter collection-length maximum.
    pub fn parameter_collection_length(self) -> (r: usize)
        ensures
            r == self@.max_parameter_collection_length,
    {
        self.max_parameter_collection_length
    }

    /// Returns the inclusive parameter scalar-byte maximum.
    pub fn parameter_scalar_bytes(self) -> (r: usize)
        ensures
            r == self@.max_parameter_scalar_bytes,
    {
        self.max_parameter_scalar_bytes
    }
}

impl Default for ExternalFindingLimits {
    fn default() -> (r: ExternalFindingLimits)
        ensures
            r@ == finding_bounds_for(1024, 1_048_576),
    {
        ExternalFindingLimits::new(1024, 1_048_576)
    }
}

/// Revision and node invalidation information for one completed operation.
///
/// `changed` lists extant instances that should be reread; `removed` lists
/// identities that must no longer be resolved. Neither list repeats an
/// identity.
#[derive(Debug)]
pub struct Transition {
    before_data: DataRevision,
    after_data: DataRevision,
    before_state: StateRevision,
    after_state: StateRevision,
    changed: Vec<InstanceIdentity>,
    removed: Vec<InstanceIdentity>,
}

impl Transition {
    #[verifier::type_invariant]
    spec fn well_formed(self) -> bool {
        self.changed@.no_duplicates() && self.removed@.no_duplicates()
    }

    pub closed spec fn before_data_spec(&self) -> DataRevision {
        self.before_data
    }

    pub closed spec fn after_data_spec(&self) -> DataRevision {
        self.after_data
    }

    pub closed spec fn before_state_spec(&self) -> StateRevision {
        self.before_state
    }

    pub closed spec fn after_state_spec(&self) -> StateRevision {
        self.after_state
    }

    pub closed spec fn changed_spec(&self) -> Seq<InstanceIdentity> {
        self.changed@
    }

    pub closed spec fn removed_spec(&self) -> Seq<InstanceIdentity> {
        self.removed@
    }

    /// A transition between the given revisions with deduplicated node lists.
    pub fn new(
        before_data: DataRevision,
        after_data: DataRevision,
        before_state: StateRevision,
        after_state: StateRevision,
        changed: Vec<InstanceIdentity>,
        removed: Vec<InstanceIdentity>,
    ) -> (r: Transition)
        requires
            changed@.no_duplicates(),
            removed@.no_duplicates(),
        ensures
            r.before_data_spec() == before_data,
            r.after_data_spec() == after_data,
            r.before_state_spec() == before_state,
            r.after_state_spec() == after_state,
            r.changed_spec() == changed@,
            r.removed_spec() == removed@,
    {
        Transition { before_data, after_data, before_state, after_state, changed, removed }
    }

    /// Returns the canonical-data revision observed before the operation.
    pub fn before_data_revision(&self) -> (r: DataRevision)
        ensures
            r == self.before_data_spec(),
    {
        self.before_data
    }

    /// Returns the canonical-data revision after the operation committed.
    pub fn after_data_revision(&self) -> (r: DataRevision)
        ensures
            r == self.after_data_spec(),
    {
        self.after_data
    }

    /// Returns the observable-state revision observed before the operation.
    pub fn before_state_revision(&self) -> (r: StateRevision)
        ensures
            r == self.before_state_spec(),
    {
        self.before_state
    }

    /// Returns the observable-state revision after the operation committed.
    pub fn after_state_revision(&self) -> (r: StateRevision)
        ensures
            r == self.after_state_spec(),
    {
        self.after_state
    }

    /// Returns whether neither revisions nor observable node sets changed.
    pub fn is_empty(&self) -> (r: bool)
        ensures
            r == (self.before_data_spec() == self.after_data_spec()
                && self.before_state_spec() == self.after_state_spec()
                && self.changed_spec().len() == 0
                && self.removed_spec().len() == 0),
    {
        self.before_data == self.after_data && self.before_state == self.after_state
            && self.changed.len() == 0 && self.removed.len() == 0
    }

    /// The extant node instances whose observable view may have changed; no
    /// identity appears twice.
    pub fn changed(&self) -> (r: Vec<InstanceIdentity>)
        ensures
            r@ == self.changed_spec(),
            r@.no_duplicates(),
    {
        proof {
            use_type_invariant(self);
        }
        self.changed.clone()
    }

    /// The node instances removed by a topology change; no identity appears twice.
    pub fn removed(&self) -> (r: Vec<InstanceIdentity>)
        ensures
            r@ == self.removed_spec(),
            r@.no_duplicates(),
    {
        proof {
            use_type_invariant(self);
        }
        self.removed.clone()
    }
}

/// Failure to construct form state from a definition and initial JSON value.
#[derive(Debug)]
#[non_exhaustive]
pub enum FormBuildError {
    FormDataMustBeObject,
    ResourceLimit(ResourceLimitError),
}

/// Rejection of one schema-aware end-user operation; every error leaves the
/// form unchanged.
#[derive(Debug)]
#[non_exhaustive]
pub enum UserOperationError {
    UnknownTarget,
    OperationNotAllowed,
    ResourceLimit(ResourceLimitError),
}

/// Failure to atomically commit a host transaction.
#[derive(Debug)]
#[non_exhaustive]
pub enum HostCommitError {
    InvalidOperation,
    ResourceLimit(ResourceLimitError),
}

/// Failure of a fallible host transaction closure or of its atomic commit.
#[derive(Debug)]
#[non_exhaustive]
pub enum TransactionError<E> {
    Closure(E),
    Commit(HostCommitError),
}

/// Rejection of an external-finding batch before any state is changed.
#[derive(Debug)]
#[non_exhaustive]
pub enum ExternalFindingError {
    StaleRevision { current: DataRevision, supplied: DataRevision },
    ResourceLimit(ResourceLimitError),
}

/// Failure to atomically replace a form's baseline and current data.
#[derive(Debug)]
#[non_exhaustive]
pub enum ReinitializeError {
    InvalidFormData,
    ResourceLimit(ResourceLimitError),
}

} // verus!
