use vstd::prelude::*;

use crate::address::{
    append_index, append_index_spec, append_token, append_token_spec, is_pointer_text,
    lemma_append_index_valid, lemma_append_token_valid, JsonPointer,
};
use crate::limits::CompilationLimitError;
use crate::text::{str_eq, string_push};

verus! {

/// Opaque identifier for one node in a compiled definition tree.
#[derive(Debug, Clone, Copy, PartialEq, Eq, Hash, Structural)]
pub struct DefinitionNodeId(pub u64);

/// A definition node's layout or control role.
#[derive(Debug, Clone, Copy, PartialEq, Eq, Structural)]
#[non_exhaustive]
pub enum DefinitionNodeKind {
    /// A form-data control.
    Control,
    /// A structural layout synthesized from the data schema.
    AutoGeneratedLayout,
    /// An authored ordered vertical layout.
    Stack,
    /// An authored responsive grid.
    Grid,
    /// A cell within a responsive grid.
    GridCell,
    /// An authored titled grouping.
    Group,
    /// An authored tab container.
    Tabs,
    /// One authored titled panel within tabs.
    TabPanel,
    /// Authored escaped plain text, not HTML or Markdown.
    Text,
    /// A visible placeholder for a region the compiler cannot represent.
    Unsupported,
}

/// Effective compact and wide spans for a cell in a 12-column grid.
#[derive(Debug, Clone, Copy, PartialEq, Eq, Structural)]
pub struct GridSpans {
    compact: u8,
    wide: u8,
}

impl GridSpans {
    #[verifier::type_invariant]
    spec fn well_formed(self) -> bool {
        1 <= self.compact <= 12 && 1 <= self.wide <= 12
    }

    /// Spans of a grid cell; each is between one and twelve columns.
    pub fn new(compact: u8, wide: u8) -> (r: GridSpans)
        requires
            1 <= compact <= 12,
            1 <= wide <= 12,
        ensures
            r.compact_spec() == compact,
            r.wide_spec() == wide,
    {
        GridSpans { compact, wide }
    }

    pub closed spec fn compact_spec(self) -> u8 {
        self.compact
    }

    pub closed spec fn wide_spec(self) -> u8 {
        self.wide
    }

    /// Returns the compact-layout span in columns.
    pub fn compact(self) -> (r: u8)
        ensures
            r == self.compact_spec(),
            1 <= r <= 12,
    {
        proof {
            use_type_invariant(&self);
        }
        self.compact
    }

    /// Returns the wide-layout span in columns.
    pub fn wide(self) -> (r: u8)
        ensures
            r == self.wide_spec(),
            1 <= r <= 12,
    {
        proof {
            use_type_invariant(&self);
        }
        self.wide
    }
}

/// The compiled data shape represented by a definition node.
#[derive(Debug, Clone, Copy, PartialEq, Eq, Structural)]
#[non_exhaustive]
pub enum SemanticKind {
    /// A JSON string scalar.
    String,
    /// A JSON number scalar.
    Number,
    /// A mathematically integral JSON number scalar.
    Integer,
    /// A JSON boolean scalar.
    Boolean,
    /// The JSON null value.
    Null,
    /// A finite set of compiled JSON scalar choices.
    Choice,
    /// An object with a finite, statically named editable projection.
    FixedObject,
    /// An array whose items share one inline definition template.
    HomogeneousArray,
}

/// Opaque, versioned identity of a definition's observable semantics.
#[derive(Debug, Clone, Copy, PartialEq, Eq, Hash)]
pub struct DefinitionFingerprint(pub [u8; 32]);

/// Whether a capability finding is advisory or prevents strict operation.
#[derive(Debug, Clone, Copy, PartialEq, Eq, Structural)]
#[non_exhaustive]
pub enum CapabilitySeverity {
    Warning,
    Blocking,
}

/// The stable category of a UI-schema input failure.
#[derive(Debug, Clone, Copy, PartialEq, Eq, Structural)]
#[non_exhaustive]
pub enum UiSchemaInputErrorKind {
    UnsupportedField,
    InvalidBindingOrigin,
    UnknownBinding,
    DuplicateBinding,
    InvalidPropertySelection,
    DuplicateElementId,
    DuplicateRequiredExtension,
    MissingRequiredExtension,
    ResourceLimit,
}

/// A UI-schema input failure paired with its JSON location and stable category.
#[derive(Debug)]
pub struct UiSchemaInputError {
    location: JsonPointer,
    kind: UiSchemaInputErrorKind,
}

/// The content of a UI-schema input failure.
pub struct UiSchemaFailure {
    pub location: Seq<char>,
    pub kind: UiSchemaInputErrorKind,
}

impl View for UiSchemaInputError {
    type V = UiSchemaFailure;

    closed spec fn view(&self) -> UiSchemaFailure {
        UiSchemaFailure { location: self.location@, kind: self.kind }
    }
}

impl UiSchemaInputError {
    /// A failure of category `kind` at the UI-schema location `location`.
    pub fn new(location: String, kind: UiSchemaInputErrorKind) -> (r: UiSchemaInputError)
        requires
            is_pointer_text(location@),
        ensures
            r@ == (UiSchemaFailure { location: location@, kind }),
    {
        UiSchemaInputError { location: JsonPointer::from_valid(location), kind }
    }

    /// Returns the location in the authored UI schema.
    pub fn location(&self) -> (r: &JsonPointer)
        ensures
            r@ == self@.location,
    {
        &self.location
    }

    /// Returns the machine-readable category of the failure.
    pub fn kind(&self) -> (r: UiSchemaInputErrorKind)
        ensures
            r == self@.kind,
    {
        self.kind
    }
}

/// Invalid or unsupported caller input detected before capability analysis.
#[derive(Debug)]
#[non_exhaustive]
pub enum InputError {
    InvalidDataSchema,
    InvalidUiSchema(UiSchemaInputError),
}

/// Failure to prepare or bound the caller-supplied schema resource graph.
#[derive(Debug)]
#[non_exhaustive]
pub enum ResourceError {
    InvalidResourceGraph,
    Limit(CompilationLimitError),
}

/// Stage at which a runtime form-state or untrusted-input resource limit was enforced.
#[derive(Debug, Clone, Copy, PartialEq, Eq, Structural)]
#[non_exhaustive]
pub enum ResourceLimitPhase {
    Construction,
    Operation,
}

/// A deterministic resource-bound violation with its phase and location.
///
/// `observed` is the rejected value and is always greater than `maximum`.
#[derive(Debug)]
pub struct ResourceLimitError {
    phase: ResourceLimitPhase,
    dimension: &'static str,
    maximum: usize,
    observed: usize,
    path: JsonPointer,
}

/// The content of a resource-bound violation.
pub struct ResourceLimitFailure {
    pub phase: ResourceLimitPhase,
    pub dimension: Seq<char>,
    pub maximum: nat,
    pub observed: nat,
    pub path: Seq<char>,
}

impl View for ResourceLimitError {
    type V = ResourceLimitFailure;

    closed spec fn view(&self) -> ResourceLimitFailure {
        ResourceLimitFailure {
            phase: self.phase,
            dimension: self.dimension@,
            maximum: self.maximum as nat,
            observed: self.observed as nat,
            path: self.path@,
        }
    }
}

impl ResourceLimitError {
    #[verifier::type_invariant]
    spec fn well_formed(self) -> bool {
        self.observed > self.maximum
    }

    /// A violation of the `dimension` bound `maximum` by `observed` at `path`.
    pub fn new(
        phase: ResourceLimitPhase,
        dimension: &'static str,
        maximum: usize,
        observed: usize,
        path: JsonPointer,
    ) -> (r: ResourceLimitError)
        requires
            observed > maximum,
        ensures
            r@ == (ResourceLimitFailure {
                phase,
                dimension: dimension@,
                maximum: maximum as nat,
                observed: observed as nat,
                path: path@,
            }),
    {
        ResourceLimitError { phase, dimension, maximum, observed, path }
    }

    /// Returns whether the limit failed during construction or an operation.
    pub fn phase(&self) -> (r: ResourceLimitPhase)
        ensures
            r == self@.phase,
    {
        self.phase
    }

    /// Returns the stable machine-readable name of the bounded dimension.
    pub fn dimension(&self) -> (r: &'static str)
        ensures
            r@ == self@.dimension,
    {
        self.dimension
    }

    /// Returns the configured inclusive maximum.
    pub fn maximum(&self) -> (r: usize)
        ensures
            r as nat == self@.maximum,
            self@.observed > self@.maximum,
    {
        proof {
            use_type_invariant(self);
        }
        self.maximum
    }

    /// Returns the value observed when the operation was rejected; it is
    /// always greater than the maximum.
    pub fn observed(&self) -> (r: usize)
        ensures
            r as nat == self@.observed,
            self@.observed > self@.maximum,
    {
        proof {
            use_type_invariant(self);
        }
        self.observed
    }

    /// Returns the nearest relevant form-data, JSON-input, or UI-schema location.
    pub fn path(&self) -> (r: &JsonPointer)
        ensures
            r@ == self@.path,
    {
        &self.path
    }
}

/// One entry of an automatic layout's property ordering.
#[derive(Debug)]
pub enum PropertyPosition {
    /// The named property.
    Property(String),
    /// Every selected property not ordered explicitly, in name order.
    Remaining,
}

/// The content of a property position.
pub enum PositionView {
    Property(Seq<char>),
    Remaining,
}

impl View for PropertyPosition {
    type V = PositionView;

    open spec fn view(&self) -> PositionView {
        match self {
            PropertyPosition::Property(p) => PositionView::Property(p@),
            PropertyPosition::Remaining => PositionView::Remaining,
        }
    }
}

/// The properties an automatic layout shows and their order.
#[derive(Debug)]
pub struct PropertySelection {
    /// Properties to show; empty means all of them.
    pub shown: Vec<String>,
    /// Properties to leave out.
    pub omitted: Vec<String>,
    /// Explicit order, with at most one `Remaining` slot.
    pub order: Vec<PropertyPosition>,
}

/// The names held by a vector of strings.
pub open spec fn names(v: Seq<String>) -> Seq<Seq<char>> {
    v.map_values(|s: String| s@)
}

/// The positions of an ordering.
pub open spec fn positions(v: Seq<PropertyPosition>) -> Seq<PositionView> {
    v.map_values(|p: PropertyPosition| p@)
}

/// Position `j` of `order` repeats an earlier entry: the same property, or a
/// second `Remaining`.
pub open spec fn repeats_earlier(order: Seq<PositionView>, j: int) -> bool {
    exists|k: int| 0 <= k < j && #[trigger] order[k] == order[j]
}

/// The first position of `order` that repeats an earlier one, or -1.
pub open spec fn first_repeat(order: Seq<PositionView>) -> int
    decreases order.len(),
{
    if order.len() == 0 {
        -1
    } else if first_repeat(order.drop_last()) >= 0 {
        first_repeat(order.drop_last())
    } else if repeats_earlier(order, order.len() - 1) {
        order.len() - 1
    } else {
        -1
    }
}

/// The property names that `order` places explicitly, in order.
pub open spec fn ordered_names(order: Seq<PositionView>) -> Seq<Seq<char>>
    decreases order.len(),
{
    if order.len() == 0 {
        Seq::empty()
    } else {
        match order.last() {
            PositionView::Property(p) => ordered_names(order.drop_last()).push(p),
            PositionView::Remaining => ordered_names(order.drop_last()),
        }
    }
}

/// `location/properties/order/i` in the authored UI schema.
pub open spec fn order_location(location: Seq<char>, i: nat) -> Seq<char> {
    append_index_spec(append_token_spec(append_token_spec(location, "properties"@), "order"@), i)
}

/// `location/properties/<list>/i` in the authored UI schema.
pub open spec fn list_location(location: Seq<char>, list: Seq<char>, i: nat) -> Seq<char> {
    append_index_spec(append_token_spec(append_token_spec(location, "properties"@), list), i)
}

/// The failure reported for the repeated order position `j`.
pub open spec fn repeat_failure(location: Seq<char>, order: Seq<PositionView>, j: int) -> UiSchemaFailure {
    UiSchemaFailure {
        location: match order[j] {
            PositionView::Property(_) => append_token_spec(order_location(location, j as nat), "property"@),
            PositionView::Remaining => order_location(location, j as nat),
        },
        kind: UiSchemaInputErrorKind::InvalidPropertySelection,
    }
}

fn positions_equal(a: &PropertyPosition, b: &PropertyPosition) -> (r: bool)
    ensures
        r == (a@ == b@),
{
    match (a, b) {
        (PropertyPosition::Property(x), PropertyPosition::Property(y)) => str_eq(x.as_str(), y.as_str()),
        (PropertyPosition::Remaining, PropertyPosition::Remaining) => true,
        _ => false,
    }
}

/// Checks an automatic layout's explicit order: no property may appear twice
/// and `Remaining` at most once. Returns the explicitly ordered property names
/// and whether a `Remaining` slot is present.
pub fn validate_auto_property_order(selection: &PropertySelection, value_location: &str) -> (r: Result<(Vec<String>, bool), UiSchemaInputError>)
    requires
        is_pointer_text(value_location@),
    ensures
        match r {
            Ok((named, remaining)) => first_repeat(positions(selection.order@)) == -1
                && names(named@) == ordered_names(positions(selection.order@))
                && remaining == positions(selection.order@).contains(PositionView::Remaining),
            Err(e) => first_repeat(positions(selection.order@)) >= 0
                && e@ == repeat_failure(value_location@, positions(selection.order@), first_repeat(positions(selection.order@))),
        },
{
    let order = &selection.order;
    let ghost all = positions(order@);
    let mut named: Vec<String> = Vec::new();
    let mut remaining_seen = false;
    let mut i: usize = 0;
    while i < order.len()
        invariant
            order == &selection.order,
            all == positions(order@),
            is_pointer_text(value_location@),
            i <= order.len(),
            first_repeat(all.take(i as int)) == -1,
            names(named@) == ordered_names(all.take(i as int)),
            remaining_seen == all.take(i as int).contains(PositionView::Remaining),
        decreases order.len() - i,
    {
        assert(all.take(i + 1).drop_last() =~= all.take(i as int));
        let mut k: usize = 0;
        let mut repeated = false;
        while k < i
            invariant
                order == &selection.order,
                all == positions(order@),
                i < order.len(),
                k <= i,
                repeated == exists|m: int| 0 <= m < k && #[trigger] all[m] == all[i as int],
            decreases i - k,
        {
            assert(all[k as int] == order@[k as int]@ && all[i as int] == order@[i as int]@);
            if positions_equal(&order[k], &order[i]) {
                repeated = true;
            }
            k += 1;
        }
        assert(repeats_earlier(all.take(i + 1), i as int) == repeated) by {
            if repeated {
                let m = choose|m: int| 0 <= m < i && #[trigger] all[m] == all[i as int];
                assert(all.take(i + 1)[m] == all.take(i + 1)[i as int]);
            }
            if repeats_earlier(all.take(i + 1), i as int) {
                let m = choose|m: int| 0 <= m < i && #[trigger] all.take(i + 1)[m] == all.take(i + 1)[i as int];
                assert(all[m] == all[i as int]);
            }
        }
        if repeated {
            proof {
                lemma_first_repeat_prefix(all, i as int + 1);
            }
            let base = append_token(append_token(value_location, "properties").as_str(), "order");
            let at = append_index(base.as_str(), i);
            proof {
                lemma_append_token_valid(value_location@, "properties"@);
                lemma_append_token_valid(append_token_spec(value_location@, "properties"@), "order"@);
                lemma_append_index_valid(base@, i as nat);
            }
            match &order[i] {
                PropertyPosition::Property(_) => {
                    let loc = append_token(at.as_str(), "property");
                    proof {
                        lemma_append_token_valid(at@, "property"@);
                    }
                    return Err(UiSchemaInputError::new(loc, UiSchemaInputErrorKind::InvalidPropertySelection));
                },
                PropertyPosition::Remaining => {
                    return Err(UiSchemaInputError::new(at, UiSchemaInputErrorKind::InvalidPropertySelection));
                },
            }
        }
        match &order[i] {
            PropertyPosition::Property(p) => {
                let ghost before = named@;
                named.push(p.clone());
                assert(names(named@) =~= names(before).push(p@));
            },
            PropertyPosition::Remaining => {
                remaining_seen = true;
            },
        }
        proof {
            assert(all.take(i + 1).contains(PositionView::Remaining) == (all.take(i as int).contains(PositionView::Remaining)
                || all[i as int] == PositionView::Remaining)) by {
                if all.take(i + 1).contains(PositionView::Remaining) {
                    let m = choose|m: int| 0 <= m < i + 1 && #[trigger] all.take(i + 1)[m] == PositionView::Remaining;
                    if m < i {
                        assert(all.take(i as int)[m] == PositionView::Remaining);
                    }
                }
                if all.take(i as int).contains(PositionView::Remaining) {
                    let m = choose|m: int| 0 <= m < i && #[trigger] all.take(i as int)[m] == PositionView::Remaining;
                    assert(all.take(i + 1)[m] == PositionView::Remaining);
                }
                if all[i as int] == PositionView::Remaining {
                    assert(all.take(i + 1)[i as int] == PositionView::Remaining);
                }
            }
        }
        i += 1;
    }
    assert(all.take(order.len() as int) =~= all);
    Ok((named, remaining_seen))
}

proof fn lemma_first_repeat_prefix(order: Seq<PositionView>, n: int)
    requires
        0 <= n <= order.len(),
        first_repeat(order.take(n)) >= 0,
    ensures
        first_repeat(order) == first_repeat(order.take(n)),
    decreases order.len() - n,
{
    if n < order.len() {
        assert(order.take(n + 1).drop_last() =~= order.take(n));
        lemma_first_repeat_prefix(order, n + 1);
    } else {
        assert(order.take(n) =~= order);
    }
}

/// Whether `v` holds the text `name`.
pub fn contains_name(v: &Vec<String>, name: &str) -> (r: bool)
    ensures
        r == names(v@).contains(name@),
{
    let mut i: usize = 0;
    while i < v.len()
        invariant
            i <= v.len(),
            forall|j: int| 0 <= j < i ==> names(v@)[j] != name@,
        decreases v.len() - i,
    {
        if str_eq(v[i].as_str(), name) {
            assert(names(v@)[i as int] == name@);
            return true;
        }
        i += 1;
    }
    false
}

/// The named entries of a property table, as texts.
pub open spec fn table(direct: Seq<(String, usize)>) -> Seq<(Seq<char>, usize)> {
    direct.map_values(|e: (String, usize)| (e.0@, e.1))
}

/// Position of the first entry named `name`, or -1.
pub open spec fn key_index(direct: Seq<(Seq<char>, usize)>, name: Seq<char>) -> int
    decreases direct.len(),
{
    if direct.len() == 0 {
        -1
    } else if key_index(direct.drop_last(), name) >= 0 {
        key_index(direct.drop_last(), name)
    } else if direct.last().0 == name {
        direct.len() - 1
    } else {
        -1
    }
}

/// The first of `wanted` that is not a key of `direct`, or -1.
pub open spec fn first_unknown(wanted: Seq<Seq<char>>, direct: Seq<(Seq<char>, usize)>) -> int
    decreases wanted.len(),
{
    if wanted.len() == 0 {
        -1
    } else if first_unknown(wanted.drop_last(), direct) >= 0 {
        first_unknown(wanted.drop_last(), direct)
    } else if key_index(direct, wanted.last()) < 0 {
        wanted.len() - 1
    } else {
        -1
    }
}

/// The first position of `order` naming a property that is not a key of `direct`, or -1.
pub open spec fn first_unknown_position(order: Seq<PositionView>, direct: Seq<(Seq<char>, usize)>) -> int
    decreases order.len(),
{
    if order.len() == 0 {
        -1
    } else if first_unknown_position(order.drop_last(), direct) >= 0 {
        first_unknown_position(order.drop_last(), direct)
    } else if order.last() matches PositionView::Property(p) && key_index(direct, p) < 0 {
        order.len() - 1
    } else {
        -1
    }
}

/// Whether the property `name` (a key of the table) is shown.
pub open spec fn is_shown(shown: Seq<Seq<char>>, omitted: Seq<Seq<char>>, name: Seq<char>) -> bool {
    (shown.len() == 0 || shown.contains(name)) && !omitted.contains(name)
}

/// The shown properties that are not ordered explicitly, in table order.
pub open spec fn remaining_properties(
    direct: Seq<(Seq<char>, usize)>,
    shown: Seq<Seq<char>>,
    omitted: Seq<Seq<char>>,
    explicit: Seq<Seq<char>>,
) -> Seq<usize>
    decreases direct.len(),
{
    if direct.len() == 0 {
        Seq::empty()
    } else {
        let rest = remaining_properties(direct.drop_last(), shown, omitted, explicit);
        let e = direct.last();
        if is_shown(shown, omitted, e.0) && !explicit.contains(e.0) {
            rest.push(e.1)
        } else {
            rest
        }
    }
}

/// The shown properties laid out by `order`, with each `Remaining` slot
/// expanded to `remaining`.
pub open spec fn arranged(
    order: Seq<PositionView>,
    direct: Seq<(Seq<char>, usize)>,
    shown: Seq<Seq<char>>,
    omitted: Seq<Seq<char>>,
    remaining: Seq<usize>,
) -> Seq<usize>
    decreases order.len(),
{
    if order.len() == 0 {
        Seq::empty()
    } else {
        let rest = arranged(order.drop_last(), direct, shown, omitted, remaining);
        match order.last() {
            PositionView::Property(p) => if is_shown(shown, omitted, p) {
                rest.push(direct[key_index(direct, p)].1)
            } else {
                rest
            },
            PositionView::Remaining => rest + remaining,
        }
    }
}

/// The UI-schema wire name of the shown-properties list.
pub open spec fn shown_list_name() -> Seq<char> {
    seq!['i', 'n', 'c', 'l', 'u', 'd', 'e']
}

fn shown_list_text() -> (r: String)
    ensures
        r@ == shown_list_name(),
{
    let mut r = String::new();
    string_push(&mut r, 'i');
    string_push(&mut r, 'n');
    string_push(&mut r, 'c');
    string_push(&mut r, 'l');
    string_push(&mut r, 'u');
    string_push(&mut r, 'd');
    string_push(&mut r, 'e');
    assert(r@ =~= shown_list_name());
    r
}

/// The outcome of selecting an automatic layout's properties: the first
/// unknown name among the shown list, then the omitted list, then the
/// explicit order; otherwise the shown properties in layout order.
pub open spec fn spec_select_auto_properties(
    shown: Seq<Seq<char>>,
    omitted: Seq<Seq<char>>,
    order: Seq<PositionView>,
    direct: Seq<(Seq<char>, usize)>,
    location: Seq<char>,
    explicit: Seq<Seq<char>>,
    remaining_seen: bool,
) -> Result<Seq<usize>, UiSchemaFailure> {
    if shown.len() > 0 && first_unknown(shown, direct) >= 0 {
        Err(UiSchemaFailure {
            location: list_location(location, shown_list_name(), first_unknown(shown, direct) as nat),
            kind: UiSchemaInputErrorKind::UnknownBinding,
        })
    } else if first_unknown(omitted, direct) >= 0 {
        Err(UiSchemaFailure {
            location: list_location(location, "exclude"@, first_unknown(omitted, direct) as nat),
            kind: UiSchemaInputErrorKind::UnknownBinding,
        })
    } else if first_unknown_position(order, direct) >= 0 {
        Err(UiSchemaFailure {
            location: append_token_spec(order_location(location, first_unknown_position(order, direct) as nat), "property"@),
            kind: UiSchemaInputErrorKind::UnknownBinding,
        })
    } else {
        let remaining = remaining_properties(direct, shown, omitted, explicit);
        Ok(arranged(order, direct, shown, omitted, remaining) + if remaining_seen { Seq::empty() } else { remaining })
    }
}

fn find_key(direct: &Vec<(String, usize)>, name: &str) -> (r: Option<usize>)
    ensures
        match r {
            Some(k) => key_index(table(direct@), name@) == k && k < direct.len(),
            None => key_index(table(direct@), name@) == -1,
        },
{
    let ghost t = table(direct@);
    let mut i: usize = 0;
    while i < direct.len()
        invariant
            t == table(direct@),
            i <= direct.len(),
            key_index(t.take(i as int), name@) == -1,
        decreases direct.len() - i,
    {
        assert(t.take(i + 1).drop_last() =~= t.take(i as int));
        if str_eq(direct[i].0.as_str(), name) {
            proof {
                lemma_key_index_prefix(t, name@, i + 1);
            }
            return Some(i);
        }
        i += 1;
    }
    assert(t.take(direct.len() as int) =~= t);
    None
}

proof fn lemma_key_index_prefix(direct: Seq<(Seq<char>, usize)>, name: Seq<char>, n: int)
    requires
        0 <= n <= direct.len(),
        key_index(direct.take(n), name) >= 0,
    ensures
        key_index(direct, name) == key_index(direct.take(n), name),
    decreases direct.len() - n,
{
    if n < direct.len() {
        assert(direct.take(n + 1).drop_last() =~= direct.take(n));
        lemma_key_index_prefix(direct, name, n + 1);
    } else {
        assert(direct.take(n) =~= direct);
    }
}

proof fn lemma_key_index_bounds(direct: Seq<(Seq<char>, usize)>, name: Seq<char>)
    ensures
        -1 <= key_index(direct, name) < direct.len(),
        key_index(direct, name) >= 0 ==> direct[key_index(direct, name)].0 == name,
    decreases direct.len(),
{
    if direct.len() > 0 {
        lemma_key_index_bounds(direct.drop_last(), name);
    }
}

/// The first position of `wanted` that is not a key of `direct`.
fn find_unknown(wanted: &Vec<String>, direct: &Vec<(String, usize)>) -> (r: Option<usize>)
    ensures
        match r {
            Some(j) => first_unknown(names(wanted@), table(direct@)) == j,
            None => first_unknown(names(wanted@), table(direct@)) == -1,
        },
{
    let ghost w = names(wanted@);
    let mut i: usize = 0;
    while i < wanted.len()
        invariant
            w == names(wanted@),
            i <= wanted.len(),
            first_unknown(w.take(i as int), table(direct@)) == -1,
        decreases wanted.len() - i,
    {
        assert(w.take(i + 1).drop_last() =~= w.take(i as int));
        assert(w.take(i + 1).last() == wanted@[i as int]@);
        if find_key(direct, wanted[i].as_str()).is_none() {
            proof {
                lemma_first_unknown_prefix(w, table(direct@), i + 1);
            }
            return Some(i);
        }
        i += 1;
    }
    assert(w.take(wanted.len() as int) =~= w);
    None
}

proof fn lemma_first_unknown_prefix(wanted: Seq<Seq<char>>, direct: Seq<(Seq<char>, usize)>, n: int)
    requires
        0 <= n <= wanted.len(),
        first_unknown(wanted.take(n), direct) >= 0,
    ensures
        first_unknown(wanted, direct) == first_unknown(wanted.take(n), direct),
    decreases wanted.len() - n,
{
    if n < wanted.len() {
        assert(wanted.take(n + 1).drop_last() =~= wanted.take(n));
        lemma_first_unknown_prefix(wanted, direct, n + 1);
    } else {
        assert(wanted.take(n) =~= wanted);
    }
}

proof fn lemma_first_unknown_position_prefix(order: Seq<PositionView>, direct: Seq<(Seq<char>, usize)>, n: int)
    requires
        0 <= n <= order.len(),
        first_unknown_position(order.take(n), direct) >= 0,
    ensures
        first_unknown_position(order, direct) == first_unknown_position(order.take(n), direct),
    decreases order.len() - n,
{
    if n < order.len() {
        assert(order.take(n + 1).drop_last() =~= order.take(n));
        lemma_first_unknown_position_prefix(order, direct, n + 1);
    } else {
        assert(order.take(n) =~= order);
    }
}

/// Chooses and orders the properties an automatic layout shows (see
/// [`spec_select_auto_properties`]). `direct_properties` lists the layout's
/// direct properties with their generated node indices, in name order;
/// `explicitly_ordered` and `remaining_seen` are what
/// [`validate_auto_property_order`] returned for `selection`.
pub fn select_auto_properties(
    selection: &PropertySelection,
    direct_properties: &Vec<(String, usize)>,
    value_location: &str,
    explicitly_ordered: &Vec<String>,
    remaining_seen: bool,
) -> (r: Result<Vec<usize>, UiSchemaInputError>)
    requires
        is_pointer_text(value_location@),
    ensures
        match spec_select_auto_properties(
            names(selection.shown@),
            names(selection.omitted@),
            positions(selection.order@),
            table(direct_properties@),
            value_location@,
            names(explicitly_ordered@),
            remaining_seen,
        ) {
            Ok(s) => r matches Ok(v) && v@ == s,
            Err(f) => r matches Err(e) && e@ == f,
        },
{
    let ghost shown = names(selection.shown@);
    let ghost omitted = names(selection.omitted@);
    let ghost order = positions(selection.order@);
    let ghost direct = table(direct_properties@);
    let ghost explicit = names(explicitly_ordered@);
    proof {
        lemma_append_token_valid(value_location@, "properties"@);
    }
    let properties = append_token(value_location, "properties");
    if selection.shown.len() > 0 {
        match find_unknown(&selection.shown, direct_properties) {
            Some(j) => {
                let list = shown_list_text();
                let base = append_token(properties.as_str(), list.as_str());
                proof {
                    lemma_append_token_valid(properties@, list@);
                    lemma_append_index_valid(base@, j as nat);
                }
                return Err(UiSchemaInputError::new(append_index(base.as_str(), j), UiSchemaInputErrorKind::UnknownBinding));
            },
            None => {},
        }
    }
    match find_unknown(&selection.omitted, direct_properties) {
        Some(j) => {
            let base = append_token(properties.as_str(), "exclude");
            proof {
                lemma_append_token_valid(properties@, "exclude"@);
                lemma_append_index_valid(base@, j as nat);
            }
            return Err(UiSchemaInputError::new(append_index(base.as_str(), j), UiSchemaInputErrorKind::UnknownBinding));
        },
        None => {},
    }
    let positions_list = &selection.order;
    let mut i: usize = 0;
    while i < positions_list.len()
        invariant
            positions_list == &selection.order,
            order == positions(positions_list@),
            direct == table(direct_properties@),
            properties@ == append_token_spec(value_location@, "properties"@),
            is_pointer_text(properties@),
            shown == names(selection.shown@),
            omitted == names(selection.omitted@),
            !(shown.len() > 0 && first_unknown(shown, direct) >= 0),
            first_unknown(omitted, direct) < 0,
            i <= positions_list.len(),
            first_unknown_position(order.take(i as int), direct) == -1,
        decreases positions_list.len() - i,
    {
        assert(order.take(i + 1).drop_last() =~= order.take(i as int));
        assert(order.take(i + 1).last() == positions_list@[i as int]@);
        match &positions_list[i] {
            PropertyPosition::Property(p) => {
                if find_key(direct_properties, p.as_str()).is_none() {
                    proof {
                        lemma_first_unknown_position_prefix(order, direct, i + 1);
                    }
                    let base = append_token(properties.as_str(), "order");
                    proof {
                        lemma_append_token_valid(properties@, "order"@);
                        lemma_append_index_valid(base@, i as nat);
                    }
                    let at = append_index(base.as_str(), i);
                    proof {
                        lemma_append_token_valid(at@, "property"@);
                    }
                    return Err(UiSchemaInputError::new(append_token(at.as_str(), "property"), UiSchemaInputErrorKind::UnknownBinding));
                }
            },
            PropertyPosition::Remaining => {},
        }
        i += 1;
    }
    assert(order.take(positions_list.len() as int) =~= order);
    let remaining = collect_remaining(selection, direct_properties, explicitly_ordered);
    let mut ordered: Vec<usize> = Vec::new();
    let mut i: usize = 0;
    while i < positions_list.len()
        invariant
            positions_list == &selection.order,
            order == positions(positions_list@),
            direct == table(direct_properties@),
            shown == names(selection.shown@),
            omitted == names(selection.omitted@),
            first_unknown_position(order, direct) == -1,
            remaining@ == remaining_properties(direct, shown, omitted, explicit),
            i <= positions_list.len(),
            ordered@ == arranged(order.take(i as int), direct, shown, omitted, remaining@),
        decreases positions_list.len() - i,
    {
        assert(order.take(i + 1).drop_last() =~= order.take(i as int));
        assert(order.take(i + 1).last() == positions_list@[i as int]@);
        match &positions_list[i] {
            PropertyPosition::Property(p) => {
                if is_shown_exec(selection, p.as_str()) {
                    proof {
                        lemma_known_position(order, direct, i as int);
                    }
                    match find_key(direct_properties, p.as_str()) {
                        Some(k) => {
                            ordered.push(direct_properties[k].1);
                        },
                        None => {},
                    }
                }
            },
            PropertyPosition::Remaining => {
                let mut j: usize = 0;
                let ghost before = ordered@;
                while j < remaining.len()
                    invariant
                        j <= remaining.len(),
                        ordered@ == before + remaining@.take(j as int),
                    decreases remaining.len() - j,
                {
                    ordered.push(remaining[j]);
                    assert(remaining@.take(j + 1) =~= remaining@.take(j as int).push(remaining@[j as int]));
                    j += 1;
                }
                assert(remaining@.take(remaining.len() as int) =~= remaining@);
            },
        }
        i += 1;
    }
    assert(order.take(positions_list.len() as int) =~= order);
    if !remaining_seen {
        let mut j: usize = 0;
        let ghost before = ordered@;
        while j < remaining.len()
            invariant
                j <= remaining.len(),
                ordered@ == before + remaining@.take(j as int),
            decreases remaining.len() - j,
        {
            ordered.push(remaining[j]);
            assert(remaining@.take(j + 1) =~= remaining@.take(j as int).push(remaining@[j as int]));
            j += 1;
        }
        assert(remaining@.take(remaining.len() as int) =~= remaining@);
    } else {
        assert(ordered@ + Seq::<usize>::empty() =~= ordered@);
    }
    Ok(ordered)
}

proof fn lemma_known_position(order: Seq<PositionView>, direct: Seq<(Seq<char>, usize)>, i: int)
    requires
        0 <= i < order.len(),
        first_unknown_position(order, direct) == -1,
    ensures
        order[i] matches PositionView::Property(p) ==> key_index(direct, p) >= 0,
    decreases order.len(),
{
    if i < order.len() - 1 {
        lemma_known_position(order.drop_last(), direct, i);
        assert(order.drop_last()[i] == order[i]);
    }
}

fn is_shown_exec(selection: &PropertySelection, name: &str) -> (r: bool)
    ensures
        r == is_shown(names(selection.shown@), names(selection.omitted@), name@),
{
    (selection.shown.len() == 0 || contains_name(&selection.shown, name)) && !contains_name(&selection.omitted, name)
}

fn collect_remaining(selection: &PropertySelection, direct: &Vec<(String, usize)>, explicit: &Vec<String>) -> (r: Vec<usize>)
    ensures
        r@ == remaining_properties(table(direct@), names(selection.shown@), names(selection.omitted@), names(explicit@)),
{
    let ghost t = table(direct@);
    let mut out: Vec<usize> = Vec::new();
    let mut i: usize = 0;
    while i < direct.len()
        invariant
            t == table(direct@),
            i <= direct.len(),
            out@ == remaining_properties(t.take(i as int), names(selection.shown@), names(selection.omitted@), names(explicit@)),
        decreases direct.len() - i,
    {
        assert(t.take(i + 1).drop_last() =~= t.take(i as int));
        assert(t.take(i + 1).last() == (direct@[i as int].0@, direct@[i as int].1));
        let name = direct[i].0.as_str();
        if is_shown_exec(selection, name) && !contains_name(explicit, name) {
            out.push(direct[i].1);
        }
        i += 1;
    }
    assert(t.take(direct.len() as int) =~= t);
    out
}

/// Records an authored element ID, rejecting one already used in the same UI
/// schema (reported at `value_location/id`). An element without an ID
/// records nothing.
pub fn register_authored_id(
    id: Option<&str>,
    value_location: &str,
    authored_ids: &mut Vec<String>,
) -> (r: Result<Option<String>, UiSchemaInputError>)
    requires
        is_pointer_text(value_location@),
    ensures
        match id {
            None => r matches Ok(None) && final(authored_ids)@ == old(authored_ids)@,
            Some(x) => if names(old(authored_ids)@).contains(x@) {
                r matches Err(e) && e@ == (UiSchemaFailure {
                    location: append_token_spec(value_location@, "id"@),
                    kind: UiSchemaInputErrorKind::DuplicateElementId,
                }) && final(authored_ids)@ == old(authored_ids)@
            } else {
                r matches Ok(Some(s)) && s@ == x@ && names(final(authored_ids)@) == names(old(authored_ids)@).push(x@)
            },
        },
{
    let authored_id = match id {
        None => return Ok(None),
        Some(x) => x,
    };
    if contains_name(authored_ids, authored_id) {
        proof {
            lemma_append_token_valid(value_location@, "id"@);
        }
        return Err(UiSchemaInputError::new(append_token(value_location, "id"), UiSchemaInputErrorKind::DuplicateElementId));
    }
    let ghost before = authored_ids@;
    authored_ids.push(authored_id.to_owned());
    assert(names(authored_ids@) =~= names(before).push(authored_id@));
    Ok(Some(authored_id.to_owned()))
}

} // verus!
