use vstd::prelude::*;

use crate::compiled::{ArrayDefinition, ArrayItemTemplate, ControlDefinition, ObjectDefinition};
use crate::definition::DefinitionFingerprint;
use crate::address::{append_index, append_index_spec, is_pointer_text, pointer_starts_with, JsonPointer};
use crate::annotations::{compatible, scalar_value_is_compatible, ControlKind};
use crate::number::spec_numbers_equal;
use crate::choices::datas;
use crate::engine::{
    integer_value, json_number_reading, number_value, parse_integer, parse_number, parse_outcome,
    DEFAULT_MAX_CANONICAL_INTEGER_DIGITS, batch_data, batch_datas, finding_key, finding_keys, sources_sorted, ApplyExternalFindingsError, BatchData, CreateFormError, EditError, ExternalFinding,
    ExternalFindingBatch, FindingKey, ParseBlocker,
};
use crate::text::{chars_of, push_text, str_eq, string_from_chars};
use crate::pointer::{
    lemma_write_then_resolve, parent_is_object, parent_is_object_in, remove_member, remove_pointer, resolve, resolve_pointer, write_pointer, write_value,
};
use crate::value::{copy_value, json_values_equal, numbers_equal, spec_json_equal, JsonData, JsonValue};

verus! {

/// A compiled form definition: its controls, fixed objects and homogeneous
/// arrays, and its fingerprint.
#[derive(Debug, Clone)]
pub struct FormDefinition {
    pub controls: Vec<ControlDefinition>,
    pub objects: Vec<ObjectDefinition>,
    pub arrays: Vec<ArrayDefinition>,
    pub fingerprint: DefinitionFingerprint,
}

/// The interaction state of one control: its definition, the text being
/// edited, why that text cannot become data, and whether it was touched.
#[derive(Debug)]
pub struct ControlState {
    definition: ControlDefinition,
    edit_buffer: Option<String>,
    parse_blocker: Option<ParseBlocker>,
    touched: bool,
}

/// The content of a control's state: binding, edit text, parse blocker,
/// touched.
pub type ControlStateData = (Seq<char>, Option<Seq<char>>, Option<ParseBlocker>, bool);

/// The content of a control's state.
pub closed spec fn control_state_data(c: ControlState) -> ControlStateData {
    (
        c.definition.binding@,
        match c.edit_buffer {
            Some(t) => Some(t@),
            None => None,
        },
        c.parse_blocker,
        c.touched,
    )
}

/// The contents of control states.
pub open spec fn control_datas(cs: Seq<ControlState>) -> Seq<ControlStateData> {
    cs.map_values(|c: ControlState| control_state_data(c))
}

/// A control's state before any interaction.
pub open spec fn fresh_control(binding: Seq<char>) -> ControlStateData {
    (binding, None, None, false)
}

/// A control's state with its edit and lifecycle state cleared.
pub open spec fn cleared(c: ControlStateData) -> ControlStateData {
    (c.0, None, None, false)
}

/// A control holds edit or lifecycle state.
pub open spec fn has_lifecycle_state(c: ControlStateData) -> bool {
    c.1 is Some || c.2 is Some || c.3
}

/// One item of a homogeneous array: its stable identity and its controls.
#[derive(Debug)]
pub struct ArrayItemState {
    identity: u64,
    controls: Vec<ControlState>,
}

/// The content of an item: identity and control states.
pub type ItemData = (u64, Seq<ControlStateData>);

/// The content of an item.
pub closed spec fn item_data(i: ArrayItemState) -> ItemData {
    (i.identity, control_datas(i.controls@))
}

/// The contents of items.
pub open spec fn item_datas(items: Seq<ArrayItemState>) -> Seq<ItemData> {
    items.map_values(|i: ArrayItemState| item_data(i))
}

/// A homogeneous array's definition and its items.
#[derive(Debug)]
pub struct ArrayState {
    definition: ArrayDefinition,
    items: Vec<ArrayItemState>,
}

/// The content of an array's state: binding, the bindings of its item
/// template's controls, and its items.
pub type ArrayData = (Seq<char>, Seq<Seq<char>>, Seq<ItemData>);

/// The bindings of an array's item-template controls.
pub open spec fn template_bindings(t: ArrayItemTemplate) -> Seq<Seq<char>> {
    t.controls@.map_values(|c: ControlDefinition| c.binding@)
}

/// The content of an array's state.
pub closed spec fn array_data(a: ArrayState) -> ArrayData {
    (a.definition.binding@, template_bindings(a.definition.item_template), item_datas(a.items@))
}

/// The contents of array states.
pub open spec fn array_datas(arrays: Seq<ArrayState>) -> Seq<ArrayData> {
    arrays.map_values(|a: ArrayState| array_data(a))
}

/// A fresh item with identity `identity`: one untouched control per
/// template control.
pub open spec fn fresh_item(template: Seq<Seq<char>>, identity: u64) -> ItemData {
    (identity, template.map_values(|b: Seq<char>| fresh_control(b)))
}

/// `count` fresh items with consecutive identities from `start`.
pub open spec fn fresh_items(template: Seq<Seq<char>>, start: nat, count: nat) -> Seq<ItemData> {
    Seq::new(count, |i: int| fresh_item(template, (start + i) as u64))
}

/// Fresh items with the given identities, in order.
pub open spec fn items_with(template: Seq<Seq<char>>, identities: Seq<u64>) -> Seq<ItemData> {
    identities.map_values(|id: u64| fresh_item(template, id))
}

/// The identities of items, in order.
pub open spec fn identities(items: Seq<ItemData>) -> Seq<u64> {
    items.map_values(|i: ItemData| i.0)
}

/// How many items the data holds for an array: the length of the array at
/// its binding, or none when the binding does not lead to an array.
pub open spec fn item_count(data: JsonData, binding: Seq<char>) -> nat {
    match resolve_pointer(data, binding) {
        Some(JsonData::Array(items)) => items.len(),
        _ => 0,
    }
}

/// The item counts of the first arrays, summed.
pub open spec fn total_items(arrays: Seq<ArrayDefinition>, data: JsonData) -> nat
    decreases arrays.len(),
{
    if arrays.len() == 0 {
        0
    } else {
        total_items(arrays.drop_last(), data) + item_count(data, arrays.last().binding@)
    }
}

/// The arrays' states for data `data`, items numbered consecutively from
/// `start`, array after array.
pub open spec fn initial_arrays(arrays: Seq<ArrayDefinition>, data: JsonData, start: nat) -> Seq<ArrayData>
    decreases arrays.len(),
{
    if arrays.len() == 0 {
        Seq::empty()
    } else {
        let a = arrays.last();
        let t = template_bindings(a.item_template);
        initial_arrays(arrays.drop_last(), data, start).push(
            (a.binding@, t, fresh_items(t, start + total_items(arrays.drop_last(), data), item_count(data, a.binding@))),
        )
    }
}

/// Owned form data, interaction state, external findings and revisions.
#[derive(Debug)]
pub struct Form {
    controls: Vec<ControlState>,
    arrays: Vec<ArrayState>,
    next_item_identity: u64,
    baseline_array_identities: Vec<Vec<u64>>,
    definition_fingerprint: DefinitionFingerprint,
    baseline: JsonValue,
    form_data: JsonValue,
    external_finding_batches: Vec<ExternalFindingBatch>,
    submission_attempted: bool,
    data_revision: u64,
    state_revision: u64,
}

/// The content of a form.
pub struct FormData {
    pub controls: Seq<ControlStateData>,
    pub arrays: Seq<ArrayData>,
    pub next_item_identity: u64,
    pub baseline_array_identities: Seq<Seq<u64>>,
    pub fingerprint: Seq<u8>,
    pub baseline: JsonData,
    pub form_data: JsonData,
    pub batches: Seq<BatchData>,
    pub submission_attempted: bool,
    pub data_revision: u64,
    pub state_revision: u64,
}

impl View for Form {
    type V = FormData;

    closed spec fn view(&self) -> FormData {
        FormData {
            controls: control_datas(self.controls@),
            arrays: array_datas(self.arrays@),
            next_item_identity: self.next_item_identity,
            baseline_array_identities: self.baseline_array_identities@.map_values(|v: Vec<u64>| v@),
            fingerprint: self.definition_fingerprint.0@,
            baseline: self.baseline@,
            form_data: self.form_data@,
            batches: batch_datas(self.external_finding_batches@),
            submission_attempted: self.submission_attempted,
            data_revision: self.data_revision,
            state_revision: self.state_revision,
        }
    }
}

impl Form {
    #[verifier::type_invariant]
    spec fn well_formed(self) -> bool {
        &&& sources_sorted(batch_datas(self.external_finding_batches@))
        &&& self.arrays.len() == self.baseline_array_identities.len()
    }
}

fn copy_control(c: &ControlDefinition) -> (r: ControlDefinition)
    ensures
        r.binding@ == c.binding@,
{
    ControlDefinition {
        binding: c.binding.duplicate(),
        parent_binding: c.parent_binding.clone(),
        kind: c.kind,
        choices: c.choices.clone(),
        accepts_null: c.accepts_null,
        schema_locations: c.schema_locations.clone(),
        presentation: c.presentation.clone(),
        creation_seed: c.creation_seed.clone(),
        required: c.required,
    }
}

fn copy_array(a: &ArrayDefinition) -> (r: ArrayDefinition)
    ensures
        r.binding@ == a.binding@,
        template_bindings(r.item_template) == template_bindings(a.item_template),
{
    let mut controls: Vec<ControlDefinition> = Vec::new();
    let mut i: usize = 0;
    while i < a.item_template.controls.len()
        invariant
            i <= a.item_template.controls.len(),
            controls@.map_values(|c: ControlDefinition| c.binding@) == template_bindings(a.item_template).take(i as int),
        decreases a.item_template.controls.len() - i,
    {
        let copy = copy_control(&a.item_template.controls[i]);
        assert(template_bindings(a.item_template)[i as int] == copy.binding@);
        let ghost before = controls@;
        controls.push(copy);
        assert(controls@.map_values(|c: ControlDefinition| c.binding@) =~= before.map_values(
            |c: ControlDefinition| c.binding@,
        ).push(template_bindings(a.item_template)[i as int]));
        assert(template_bindings(a.item_template).take(i + 1) =~= template_bindings(a.item_template).take(
            i as int,
        ).push(template_bindings(a.item_template)[i as int]));
        i += 1;
    }
    assert(template_bindings(a.item_template).take(i as int) =~= template_bindings(a.item_template));
    ArrayDefinition {
        binding: a.binding.duplicate(),
        parent_binding: a.parent_binding.clone(),
        schema_locations: a.schema_locations.clone(),
        presentation: a.presentation.clone(),
        required: a.required,
        creation_seed: a.creation_seed.clone(),
        min_items: a.min_items,
        max_items: a.max_items,
        item_template: ArrayItemTemplate {
            controls,
            objects: a.item_template.objects.clone(),
            creation_seed: a.item_template.creation_seed.clone(),
        },
    }
}

fn fresh_control_state(definition: ControlDefinition) -> (r: ControlState)
    ensures
        control_state_data(r) == fresh_control(definition.binding@),
{
    ControlState { definition, edit_buffer: None, parse_blocker: None, touched: false }
}

/// A fresh item with identity `identity` for the array `definition`.
fn new_item(identity: u64, definition: &ArrayDefinition) -> (r: ArrayItemState)
    ensures
        item_data(r) == fresh_item(template_bindings(definition.item_template), identity),
{
    let ghost t = template_bindings(definition.item_template);
    let mut controls: Vec<ControlState> = Vec::new();
    let mut i: usize = 0;
    while i < definition.item_template.controls.len()
        invariant
            i <= definition.item_template.controls.len(),
            t == template_bindings(definition.item_template),
            control_datas(controls@) == t.take(i as int).map_values(|b: Seq<char>| fresh_control(b)),
        decreases definition.item_template.controls.len() - i,
    {
        let state = fresh_control_state(copy_control(&definition.item_template.controls[i]));
        assert(t[i as int] == definition.item_template.controls@[i as int].binding@);
        assert(control_state_data(state) == fresh_control(t[i as int]));
        let ghost before = controls@;
        controls.push(state);
        assert(control_datas(controls@) =~= control_datas(before).push(fresh_control(t[i as int])));
        assert(t.take(i + 1) =~= t.take(i as int).push(t[i as int]));
        assert(t.take(i + 1).map_values(|b: Seq<char>| fresh_control(b)) =~= t.take(i as int).map_values(
            |b: Seq<char>| fresh_control(b),
        ).push(fresh_control(t[i as int])));
        i += 1;
    }
    assert(t.take(i as int) =~= t);
    ArrayItemState { identity, controls }
}

/// How many items `data` holds at `binding`.
fn count_items(data: &JsonValue, binding: &crate::address::JsonPointer) -> (r: usize)
    ensures
        r as nat == item_count(data@, binding@),
{
    match resolve(binding, data) {
        Some(v) => match v {
            JsonValue::Array(items) => {
                assert(v@->Array_0.len() == items.len());
                items.len()
            },
            _ => 0,
        },
        None => 0,
    }
}

/// The state of a form just created from `def` with data `data`: untouched
/// controls, one fresh item per array element (identities counted from 1,
/// array after array), the data as both baseline and current data, no
/// external findings, no submission attempt, revisions at 0.
pub open spec fn initial_form(def: FormDefinition, data: JsonData) -> FormData {
    let arrays = initial_arrays(def.arrays@, data, 1);
    FormData {
        controls: def.controls@.map_values(|c: ControlDefinition| fresh_control(c.binding@)),
        arrays,
        next_item_identity: (1 + total_items(def.arrays@, data)) as u64,
        baseline_array_identities: arrays.map_values(|a: ArrayData| identities(a.2)),
        fingerprint: def.fingerprint.0@,
        baseline: data,
        form_data: data,
        batches: Seq::empty(),
        submission_attempted: false,
        data_revision: 0,
        state_revision: 0,
    }
}

proof fn lemma_total_prefix(arrays: Seq<ArrayDefinition>, data: JsonData, i: int)
    requires
        0 <= i <= arrays.len(),
    ensures
        total_items(arrays.take(i), data) <= total_items(arrays, data),
    decreases arrays.len() - i,
{
    if i < arrays.len() {
        assert(arrays.take(i + 1).drop_last() =~= arrays.take(i));
        lemma_total_prefix(arrays, data, i + 1);
    } else {
        assert(arrays.take(i) =~= arrays);
    }
}

/// Fresh items for `count` elements, identities from `*next` on.
fn fresh_array_items(definition: &ArrayDefinition, count: usize, next: &mut u64) -> (r: Vec<ArrayItemState>)
    requires
        *old(next) + count <= u64::MAX,
    ensures
        item_datas(r@) == fresh_items(template_bindings(definition.item_template), *old(next) as nat, count as nat),
        *final(next) == *old(next) + count,
{
    let ghost t = template_bindings(definition.item_template);
    let ghost start = *next as nat;
    let mut items: Vec<ArrayItemState> = Vec::new();
    let mut j: usize = 0;
    while j < count
        invariant
            j <= count,
            *next == start + j,
            start + count <= u64::MAX,
            t == template_bindings(definition.item_template),
            item_datas(items@) == fresh_items(t, start, j as nat),
        decreases count - j,
    {
        let item = new_item(*next, definition);
        let ghost before = items@;
        items.push(item);
        assert(item_datas(items@) =~= fresh_items(t, start, (j + 1) as nat)) by {
            assert(item_datas(items@) =~= item_datas(before).push(fresh_item(t, (start + j) as u64)));
        }
        *next = *next + 1;
        j += 1;
    }
    items
}

fn item_identities(items: &Vec<ArrayItemState>) -> (r: Vec<u64>)
    ensures
        r@ == identities(item_datas(items@)),
{
    let mut out: Vec<u64> = Vec::new();
    let mut i: usize = 0;
    while i < items.len()
        invariant
            i <= items.len(),
            out@ == identities(item_datas(items@)).take(i as int),
        decreases items.len() - i,
    {
        out.push(items[i].identity);
        assert(out@ =~= identities(item_datas(items@)).take(i + 1));
        i += 1;
    }
    assert(identities(item_datas(items@)).take(i as int) =~= identities(item_datas(items@)));
    out
}

impl FormDefinition {
    /// Form state over `form_data`, which must be an object (see
    /// [`initial_form`]).
    pub fn create_form(&self, form_data: JsonValue) -> (r: Result<Form, CreateFormError>)
        requires
            1 + total_items(self.arrays@, form_data@) <= u64::MAX,
        ensures
            !(form_data@ is Object) ==> r == Err::<Form, CreateFormError>(CreateFormError::FormDataMustBeObject),
            form_data@ is Object ==> (r matches Ok(f) && f@ == initial_form(*self, form_data@)),
    {
        if !matches!(form_data, JsonValue::Object(_)) {
            return Err(CreateFormError::FormDataMustBeObject);
        }
        let mut controls: Vec<ControlState> = Vec::new();
        let mut i: usize = 0;
        while i < self.controls.len()
            invariant
                i <= self.controls.len(),
                control_datas(controls@) == self.controls@.take(i as int).map_values(
                    |c: ControlDefinition| fresh_control(c.binding@),
                ),
            decreases self.controls.len() - i,
        {
            let state = fresh_control_state(copy_control(&self.controls[i]));
            let ghost before = controls@;
            controls.push(state);
            assert(control_datas(controls@) =~= self.controls@.take(i + 1).map_values(
                |c: ControlDefinition| fresh_control(c.binding@),
            )) by {
                assert(control_datas(controls@) =~= control_datas(before).push(fresh_control(self.controls@[i as int].binding@)));
            }
            i += 1;
        }
        assert(self.controls@.take(i as int) =~= self.controls@);
        let ghost data = form_data@;
        let ghost defs = self.arrays@;
        let mut arrays: Vec<ArrayState> = Vec::new();
        let mut baseline_identities: Vec<Vec<u64>> = Vec::new();
        let mut next: u64 = 1;
        let mut k: usize = 0;
        while k < self.arrays.len()
            invariant
                k <= self.arrays.len(),
                defs == self.arrays@,
                data == form_data@,
                1 + total_items(defs, data) <= u64::MAX,
                next == 1 + total_items(defs.take(k as int), data),
                array_datas(arrays@) == initial_arrays(defs.take(k as int), data, 1),
                baseline_identities@.map_values(|v: Vec<u64>| v@) == initial_arrays(defs.take(k as int), data, 1).map_values(
                    |a: ArrayData| identities(a.2),
                ),
                arrays.len() == baseline_identities.len(),
            decreases self.arrays.len() - k,
        {
            proof {
                assert(defs.take(k + 1).drop_last() =~= defs.take(k as int));
                assert(defs.take(k + 1).last() == defs[k as int]);
                lemma_total_prefix(defs, data, k + 1);
            }
            let definition = copy_array(&self.arrays[k]);
            let count = count_items(&form_data, &self.arrays[k].binding);
            let ghost start = next as nat;
            let items = fresh_array_items(&definition, count, &mut next);
            let ids = item_identities(&items);
            let ghost entry = (defs[k as int].binding@, template_bindings(defs[k as int].item_template), fresh_items(
                template_bindings(defs[k as int].item_template),
                start,
                count as nat,
            ));
            let state = ArrayState { definition, items };
            assert(array_data(state) == entry);
            let ghost before = arrays@;
            let ghost before_ids = baseline_identities@;
            arrays.push(state);
            baseline_identities.push(ids);
            proof {
                assert(array_datas(arrays@) =~= array_datas(before).push(entry));
                assert(initial_arrays(defs.take(k + 1), data, 1) == initial_arrays(defs.take(k as int), data, 1).push(
                    entry,
                ));
                assert(baseline_identities@.map_values(|v: Vec<u64>| v@) =~= before_ids.map_values(|v: Vec<u64>| v@).push(
                    identities(entry.2),
                ));
                assert(initial_arrays(defs.take(k + 1), data, 1).map_values(|a: ArrayData| identities(a.2))
                    =~= initial_arrays(defs.take(k as int), data, 1).map_values(|a: ArrayData| identities(a.2)).push(
                    identities(entry.2),
                ));
            }
            k += 1;
        }
        assert(defs.take(k as int) =~= defs);
        let baseline = form_data.clone();
        let form = Form {
            controls,
            arrays,
            next_item_identity: next,
            baseline_array_identities: baseline_identities,
            definition_fingerprint: self.fingerprint,
            baseline,
            form_data,
            external_finding_batches: Vec::new(),
            submission_attempted: false,
            data_revision: 0,
            state_revision: 0,
        };
        assert(batch_datas(form.external_finding_batches@) =~= Seq::<BatchData>::empty());
        assert(form@.batches =~= initial_form(*self, data).batches);
        Ok(form)
    }
}

/// The form after a host source's findings were applied: only the batches
/// and the state revision may differ.
pub open spec fn same_but_findings(a: FormData, b: FormData) -> bool {
    &&& a.controls == b.controls
    &&& a.arrays == b.arrays
    &&& a.next_item_identity == b.next_item_identity
    &&& a.baseline_array_identities == b.baseline_array_identities
    &&& a.fingerprint == b.fingerprint
    &&& a.baseline == b.baseline
    &&& a.form_data == b.form_data
    &&& a.submission_attempted == b.submission_attempted
    &&& a.data_revision == b.data_revision
}

/// Whether the value at `binding` differs from the baseline's: one present
/// and the other absent, or both present and not semantically equal.
pub open spec fn value_is_dirty(f: FormData, binding: Seq<char>) -> bool {
    match (resolve_pointer(f.form_data, binding), resolve_pointer(f.baseline, binding)) {
        (Some(current), Some(base)) => !spec_json_equal(current, base),
        (None, None) => false,
        _ => true,
    }
}

impl Form {
    /// Returns the current form data.
    pub fn form_data(&self) -> (r: &JsonValue)
        ensures
            r@ == self@.form_data,
    {
        &self.form_data
    }

    /// Returns the revision of the form data.
    pub fn data_revision(&self) -> (r: u64)
        ensures
            r == self@.data_revision,
    {
        self.data_revision
    }

    /// Returns the revision of all observable state.
    pub fn state_revision(&self) -> (r: u64)
        ensures
            r == self@.state_revision,
    {
        self.state_revision
    }

    /// Returns whether a submission was attempted since the last lifecycle
    /// boundary.
    pub fn submission_attempted(&self) -> (r: bool)
        ensures
            r == self@.submission_attempted,
    {
        self.submission_attempted
    }

    /// Returns the identities of the items of the array at `binding`, in
    /// order, or nothing for an unknown array.
    pub fn array_item_identities(&self, binding: &str) -> (r: Option<Vec<u64>>)
        ensures
            match r {
                Some(ids) => exists|a: int|
                    0 <= a < self@.arrays.len() && self@.arrays[a].0 == binding@ && (forall|b: int|
                        0 <= b < a ==> self@.arrays[b].0 != binding@) && ids@ == identities(self@.arrays[a].2),
                None => forall|a: int| 0 <= a < self@.arrays.len() ==> self@.arrays[a].0 != binding@,
            },
    {
        let mut i: usize = 0;
        while i < self.arrays.len()
            invariant
                i <= self.arrays.len(),
                forall|b: int| 0 <= b < i ==> array_datas(self.arrays@)[b].0 != binding@,
            decreases self.arrays.len() - i,
        {
            if crate::text::str_eq(self.arrays[i].definition.binding.as_str(), binding) {
                let ids = item_identities(&self.arrays[i].items);
                assert(array_datas(self.arrays@)[i as int] == array_data(self.arrays@[i as int]));
                assert(self@.arrays == array_datas(self.arrays@));
                assert(self@.arrays[i as int].0 == binding@);
                assert(ids@ == identities(self@.arrays[i as int].2));
                return Some(ids);
            }
            i += 1;
        }
        None
    }

    /// Whether the value at `binding` differs from the baseline (see
    /// [`value_is_dirty`]); an invalid pointer is never dirty.
    pub fn bound_value_is_dirty(&self, binding: &str) -> (r: bool)
        ensures
            crate::address::is_pointer_text(binding@) ==> r == value_is_dirty(self@, binding@),
            !crate::address::is_pointer_text(binding@) ==> !r,
    {
        let pointer = match crate::address::JsonPointer::parse(binding.to_owned()) {
            Ok(p) => p,
            Err(_) => return false,
        };
        match (resolve(&pointer, &self.form_data), resolve(&pointer, &self.baseline)) {
            (Some(current), Some(base)) => !json_values_equal(current, base),
            (None, None) => false,
            _ => true,
        }
    }

    /// Applies a host source's findings against `data_revision` (see
    /// `engine::apply_external_findings`): a stale revision is refused and
    /// changes nothing; otherwise the source's batch is replaced, added or
    /// dropped, and the state revision goes up exactly when the batches
    /// changed. Nothing else changes.
    pub fn apply_external_findings(
        &mut self,
        source: String,
        data_revision: u64,
        findings: Vec<ExternalFinding>,
    ) -> (r: Result<(), ApplyExternalFindingsError>)
        requires
            old(self)@.state_revision < u64::MAX,
        ensures
            same_but_findings(old(self)@, final(self)@),
            data_revision != old(self)@.data_revision ==> r == Err::<(), ApplyExternalFindingsError>(
                ApplyExternalFindingsError::StaleDataRevision { current: old(self)@.data_revision, supplied: data_revision },
            ) && final(self)@.batches == old(self)@.batches,
            data_revision == old(self)@.data_revision ==> r is Ok && exists|fs: Seq<FindingKey>|
                crate::engine::normalized_findings(fs, crate::engine::finding_keys(findings@))
                    && crate::engine::batches_after(old(self)@.batches, final(self)@.batches, source@, data_revision, fs),
            final(self)@.state_revision == old(self)@.state_revision + if final(self)@.batches == old(self)@.batches {
                0int
            } else {
                1int
            },
    {
        proof {
            use_type_invariant(&*self);
        }
        let mut batches: Vec<ExternalFindingBatch> = Vec::new();
        std::mem::swap(&mut batches, &mut self.external_finding_batches);
        let mut state = self.state_revision;
        let current = self.data_revision;
        let r = crate::engine::apply_external_findings(&mut batches, &mut state, current, source, data_revision, findings);
        self.external_finding_batches = batches;
        self.state_revision = state;
        r
    }
}

/// Some control holds edit or lifecycle state.
pub open spec fn controls_pending(cs: Seq<ControlStateData>) -> bool {
    exists|i: int| 0 <= i < cs.len() && #[trigger] has_lifecycle_state(cs[i])
}

/// Some control of some item holds edit or lifecycle state.
pub open spec fn items_pending(items: Seq<ItemData>) -> bool {
    exists|j: int| 0 <= j < items.len() && #[trigger] controls_pending(items[j].1)
}

/// An item with its controls' edit and lifecycle state cleared.
pub open spec fn clear_item(i: ItemData) -> ItemData {
    (i.0, i.1.map_values(|c: ControlStateData| cleared(c)))
}

fn clear_controls(cs: &Vec<ControlState>) -> (r: (Vec<ControlState>, bool))
    ensures
        control_datas(r.0@) == control_datas(cs@).map_values(|c: ControlStateData| cleared(c)),
        r.1 == controls_pending(control_datas(cs@)),
{
    let ghost orig = control_datas(cs@);
    let mut out: Vec<ControlState> = Vec::new();
    let mut pending = false;
    let mut i: usize = 0;
    while i < cs.len()
        invariant
            i <= cs.len(),
            orig == control_datas(cs@),
            control_datas(out@) == orig.take(i as int).map_values(|c: ControlStateData| cleared(c)),
            pending == exists|q: int| 0 <= q < i && #[trigger] has_lifecycle_state(orig[q]),
        decreases cs.len() - i,
    {
        let c = &cs[i];
        assert(orig[i as int] == control_state_data(*c));
        let was = c.edit_buffer.is_some() || c.parse_blocker.is_some() || c.touched;
        let ghost before_out = out@;
        out.push(ControlState { definition: copy_control(&c.definition), edit_buffer: None, parse_blocker: None, touched: false });
        proof {
            assert(control_datas(out@) =~= orig.take(i + 1).map_values(|c: ControlStateData| cleared(c))) by {
                assert(control_datas(out@) =~= control_datas(before_out).push(cleared(orig[i as int])));
                assert(orig.take(i + 1) =~= orig.take(i as int).push(orig[i as int]));
            }
            assert(was == has_lifecycle_state(orig[i as int]));
        }
        pending = pending || was;
        i += 1;
    }
    assert(orig.take(i as int) =~= orig);
    (out, pending)
}

fn clear_items(items: &Vec<ArrayItemState>) -> (r: (Vec<ArrayItemState>, bool))
    ensures
        item_datas(r.0@) == item_datas(items@).map_values(|i: ItemData| clear_item(i)),
        r.1 == items_pending(item_datas(items@)),
{
    let ghost orig = item_datas(items@);
    let mut out: Vec<ArrayItemState> = Vec::new();
    let mut pending = false;
    let mut i: usize = 0;
    while i < items.len()
        invariant
            i <= items.len(),
            orig == item_datas(items@),
            item_datas(out@) == orig.take(i as int).map_values(|x: ItemData| clear_item(x)),
            pending == exists|q: int| 0 <= q < i && #[trigger] controls_pending(orig[q].1),
        decreases items.len() - i,
    {
        let item = &items[i];
        assert(orig[i as int] == item_data(*item));
        let (controls, was) = clear_controls(&item.controls);
        assert(was == controls_pending(orig[i as int].1));
        let ghost before_out = out@;
        out.push(ArrayItemState { identity: item.identity, controls });
        proof {
            assert(item_datas(out@) =~= orig.take(i + 1).map_values(|x: ItemData| clear_item(x))) by {
                assert(item_datas(out@) =~= item_datas(before_out).push(clear_item(orig[i as int])));
                assert(orig.take(i + 1) =~= orig.take(i as int).push(orig[i as int]));
            }
        }
        pending = pending || was;
        i += 1;
    }
    assert(orig.take(i as int) =~= orig);
    (out, pending)
}

/// Fresh items with the identities `ids`, in order.
fn items_with_identities(definition: &ArrayDefinition, ids: &Vec<u64>) -> (r: Vec<ArrayItemState>)
    ensures
        item_datas(r@) == items_with(template_bindings(definition.item_template), ids@),
{
    let ghost t = template_bindings(definition.item_template);
    let mut out: Vec<ArrayItemState> = Vec::new();
    let mut i: usize = 0;
    while i < ids.len()
        invariant
            i <= ids.len(),
            t == template_bindings(definition.item_template),
            item_datas(out@) == items_with(t, ids@.take(i as int)),
        decreases ids.len() - i,
    {
        let item = new_item(ids[i], definition);
        let ghost before = out@;
        out.push(item);
        assert(item_datas(out@) =~= items_with(t, ids@.take(i + 1))) by {
            assert(item_datas(out@) =~= item_datas(before).push(fresh_item(t, ids@[i as int])));
            assert(ids@.take(i + 1) =~= ids@.take(i as int).push(ids@[i as int]));
        }
        i += 1;
    }
    assert(ids@.take(i as int) =~= ids@);
    out
}

fn same_identities(a: &Vec<u64>, b: &Vec<u64>) -> (r: bool)
    ensures
        r == (a@ == b@),
{
    if a.len() != b.len() {
        return false;
    }
    let mut i: usize = 0;
    while i < a.len()
        invariant
            i <= a.len(),
            a.len() == b.len(),
            forall|q: int| 0 <= q < i ==> a@[q] == b@[q],
        decreases a.len() - i,
    {
        if a[i] != b[i] {
            return false;
        }
        i += 1;
    }
    assert(a@ =~= b@);
    true
}

/// Some array's item identities differ from its baseline identities.
pub open spec fn topology_changed(f: FormData) -> bool {
    exists|a: int|
        0 <= a < f.arrays.len() && #[trigger] identities(f.arrays[a].2) != f.baseline_array_identities[a]
}

/// Some array item holds edit or lifecycle state.
pub open spec fn arrays_pending(arrays: Seq<ArrayData>) -> bool {
    exists|a: int| 0 <= a < arrays.len() && #[trigger] items_pending(arrays[a].2)
}

/// The arrays after a reset: fresh items with the baseline identities when
/// any array's topology changed, otherwise the same items, cleared.
pub open spec fn reset_arrays(f: FormData) -> Seq<ArrayData> {
    Seq::new(
        f.arrays.len(),
        |a: int|
            (
                f.arrays[a].0,
                f.arrays[a].1,
                if topology_changed(f) {
                    items_with(f.arrays[a].1, f.baseline_array_identities[a])
                } else {
                    f.arrays[a].2.map_values(|i: ItemData| clear_item(i))
                },
            ),
    )
}

/// The form after a reset: every control's edit and lifecycle state
/// cleared; the baseline data back when the data differs from it
/// semantically (which drops external findings and advances the data
/// revision); baseline array topology back when any array changed; no
/// submission attempt; the state revision advanced exactly when anything
/// observable changed.
pub open spec fn reset_form(f: FormData) -> FormData {
    let data_changed = !spec_json_equal(f.form_data, f.baseline);
    let state_changed = data_changed || topology_changed(f) || f.submission_attempted || controls_pending(f.controls)
        || arrays_pending(f.arrays);
    FormData {
        controls: f.controls.map_values(|c: ControlStateData| cleared(c)),
        arrays: reset_arrays(f),
        next_item_identity: f.next_item_identity,
        baseline_array_identities: f.baseline_array_identities,
        fingerprint: f.fingerprint,
        baseline: f.baseline,
        form_data: if data_changed {
            f.baseline
        } else {
            f.form_data
        },
        batches: if data_changed {
            Seq::empty()
        } else {
            f.batches
        },
        submission_attempted: false,
        data_revision: if data_changed {
            (f.data_revision + 1) as u64
        } else {
            f.data_revision
        },
        state_revision: if state_changed {
            (f.state_revision + 1) as u64
        } else {
            f.state_revision
        },
    }
}

impl Form {
    /// Restores the baseline data and interaction state (see
    /// [`reset_form`]).
    pub fn reset(&mut self)
        requires
            old(self)@.data_revision < u64::MAX,
            old(self)@.state_revision < u64::MAX,
        ensures
            final(self)@ == reset_form(old(self)@),
    {
        proof {
            use_type_invariant(&*self);
        }
        let ghost f = self@;
        let data_changed = !json_values_equal(&self.form_data, &self.baseline);
        let mut topology = false;
        let mut a: usize = 0;
        while a < self.arrays.len()
            invariant
                a <= self.arrays.len(),
                self.arrays.len() == self.baseline_array_identities.len(),
                f == self@,
                topology == exists|b: int|
                    0 <= b < a && #[trigger] identities(f.arrays[b].2) != f.baseline_array_identities[b],
            decreases self.arrays.len() - a,
        {
            let ids = item_identities(&self.arrays[a].items);
            let same = same_identities(&ids, &self.baseline_array_identities[a]);
            assert(f.arrays[a as int] == array_data(self.arrays@[a as int]));
            assert(f.baseline_array_identities[a as int] == self.baseline_array_identities@[a as int]@);
            assert(identities(f.arrays[a as int].2) == ids@);
            topology = topology || !same;
            a += 1;
        }
        assert(topology == topology_changed(f));
        let (cleared_controls, controls_were_pending) = clear_controls(&self.controls);
        let mut out: Vec<ArrayState> = Vec::new();
        let mut items_were_pending = false;
        let mut k: usize = 0;
        while k < self.arrays.len()
            invariant
                k <= self.arrays.len(),
                f == self@,
                self.arrays.len() == self.baseline_array_identities.len(),
                topology == topology_changed(f),
                out.len() == k,
                array_datas(out@) == reset_arrays(f).take(k as int),
                items_were_pending == exists|b: int| 0 <= b < k && #[trigger] items_pending(f.arrays[b].2),
            decreases self.arrays.len() - k,
        {
            let array = &self.arrays[k];
            assert(f.arrays[k as int] == array_data(*array));
            let (items, was) = clear_items(&array.items);
            let definition = copy_array(&array.definition);
            let items = if topology {
                items_with_identities(&definition, &self.baseline_array_identities[k])
            } else {
                items
            };
            let state = ArrayState { definition, items };
            assert(array_data(state) == reset_arrays(f)[k as int]) by {
                assert(self.baseline_array_identities@[k as int]@ == f.baseline_array_identities[k as int]);
            }
            let ghost before_out = out@;
            out.push(state);
            proof {
                assert(array_datas(out@) =~= reset_arrays(f).take(k + 1)) by {
                    assert(array_datas(out@) =~= array_datas(before_out).push(reset_arrays(f)[k as int]));
                    assert(reset_arrays(f).take(k + 1) =~= reset_arrays(f).take(k as int).push(reset_arrays(f)[k as int]));
                }
            }
            items_were_pending = items_were_pending || was;
            k += 1;
        }
        assert(reset_arrays(f).take(k as int) =~= reset_arrays(f));
        self.controls = cleared_controls;
        self.arrays = out;
        let state_changed = data_changed || topology || self.submission_attempted || controls_were_pending
            || items_were_pending;
        if data_changed {
            self.form_data = self.baseline.clone();
            self.data_revision = self.data_revision + 1;
            self.external_finding_batches = Vec::new();
            assert(batch_datas(self.external_finding_batches@) =~= Seq::<BatchData>::empty());
        }
        self.submission_attempted = false;
        if state_changed {
            self.state_revision = self.state_revision + 1;
        }
        proof {
            assert(self@.controls == f.controls.map_values(|c: ControlStateData| cleared(c)));
            assert(self@.baseline_array_identities =~= f.baseline_array_identities);
        }
    }
}

/// The item counts `data` gives the arrays, summed.
pub open spec fn total_for(arrays: Seq<ArrayData>, data: JsonData) -> nat
    decreases arrays.len(),
{
    if arrays.len() == 0 {
        0
    } else {
        total_for(arrays.drop_last(), data) + item_count(data, arrays.last().0)
    }
}

/// The arrays with fresh items for `data`, identities counted from `start`,
/// array after array.
pub open spec fn refreshed_arrays(arrays: Seq<ArrayData>, data: JsonData, start: nat) -> Seq<ArrayData>
    decreases arrays.len(),
{
    if arrays.len() == 0 {
        Seq::empty()
    } else {
        let a = arrays.last();
        refreshed_arrays(arrays.drop_last(), data, start).push(
            (a.0, a.1, fresh_items(a.1, start + total_for(arrays.drop_last(), data), item_count(data, a.0))),
        )
    }
}

/// The form after reinitialization with `data`: controls cleared, fresh
/// array items for `data`, `data` as the new baseline (and as current data
/// when it differs semantically), no external findings, no submission
/// attempt, both revisions advanced.
pub open spec fn reinitialized(f: FormData, data: JsonData) -> FormData {
    let arrays = refreshed_arrays(f.arrays, data, f.next_item_identity as nat);
    FormData {
        controls: f.controls.map_values(|c: ControlStateData| cleared(c)),
        arrays,
        next_item_identity: (f.next_item_identity + total_for(f.arrays, data)) as u64,
        baseline_array_identities: arrays.map_values(|a: ArrayData| identities(a.2)),
        fingerprint: f.fingerprint,
        baseline: data,
        form_data: if !spec_json_equal(f.form_data, data) {
            data
        } else {
            f.form_data
        },
        batches: Seq::empty(),
        submission_attempted: false,
        data_revision: (f.data_revision + 1) as u64,
        state_revision: (f.state_revision + 1) as u64,
    }
}

proof fn lemma_total_for_prefix(arrays: Seq<ArrayData>, data: JsonData, i: int)
    requires
        0 <= i <= arrays.len(),
    ensures
        total_for(arrays.take(i), data) <= total_for(arrays, data),
    decreases arrays.len() - i,
{
    if i < arrays.len() {
        assert(arrays.take(i + 1).drop_last() =~= arrays.take(i));
        lemma_total_for_prefix(arrays, data, i + 1);
    } else {
        assert(arrays.take(i) =~= arrays);
    }
}

impl Form {
    /// Installs `form_data`, which must be an object, as the new baseline
    /// (see [`reinitialized`]); other data changes nothing.
    pub fn reinitialize(&mut self, form_data: JsonValue) -> (r: Result<(), CreateFormError>)
        requires
            old(self)@.data_revision < u64::MAX,
            old(self)@.state_revision < u64::MAX,
            old(self)@.next_item_identity + total_for(old(self)@.arrays, form_data@) <= u64::MAX,
        ensures
            !(form_data@ is Object) ==> r == Err::<(), CreateFormError>(CreateFormError::FormDataMustBeObject)
                && final(self)@ == old(self)@,
            form_data@ is Object ==> r is Ok && final(self)@ == reinitialized(old(self)@, form_data@),
    {
        if !matches!(form_data, JsonValue::Object(_)) {
            return Err(CreateFormError::FormDataMustBeObject);
        }
        proof {
            use_type_invariant(&*self);
        }
        let ghost f = self@;
        let ghost data = form_data@;
        let data_changed = !json_values_equal(&self.form_data, &form_data);
        let (cleared_controls, _) = clear_controls(&self.controls);
        let mut out: Vec<ArrayState> = Vec::new();
        let mut ids_out: Vec<Vec<u64>> = Vec::new();
        let mut next = self.next_item_identity;
        let mut k: usize = 0;
        while k < self.arrays.len()
            invariant
                k <= self.arrays.len(),
                f == self@,
                data == form_data@,
                f.next_item_identity + total_for(f.arrays, data) <= u64::MAX,
                next == f.next_item_identity + total_for(f.arrays.take(k as int), data),
                out.len() == k,
                ids_out.len() == k,
                array_datas(out@) == refreshed_arrays(f.arrays.take(k as int), data, f.next_item_identity as nat),
                ids_out@.map_values(|v: Vec<u64>| v@) == refreshed_arrays(
                    f.arrays.take(k as int),
                    data,
                    f.next_item_identity as nat,
                ).map_values(|a: ArrayData| identities(a.2)),
            decreases self.arrays.len() - k,
        {
            proof {
                assert(f.arrays.take(k + 1).drop_last() =~= f.arrays.take(k as int));
                assert(f.arrays.take(k + 1).last() == f.arrays[k as int]);
                lemma_total_for_prefix(f.arrays, data, k + 1);
            }
            let array = &self.arrays[k];
            assert(f.arrays[k as int] == array_data(*array));
            let definition = copy_array(&array.definition);
            let count = count_items(&form_data, &array.definition.binding);
            let ghost start = next as nat;
            let items = fresh_array_items(&definition, count, &mut next);
            let ids = item_identities(&items);
            let ghost entry = (f.arrays[k as int].0, f.arrays[k as int].1, fresh_items(
                f.arrays[k as int].1,
                start,
                count as nat,
            ));
            let state = ArrayState { definition, items };
            assert(array_data(state) == entry);
            let ghost before = out@;
            let ghost before_ids = ids_out@;
            out.push(state);
            ids_out.push(ids);
            proof {
                assert(array_datas(out@) =~= array_datas(before).push(entry));
                assert(ids_out@.map_values(|v: Vec<u64>| v@) =~= before_ids.map_values(|v: Vec<u64>| v@).push(
                    identities(entry.2),
                ));
                assert(refreshed_arrays(f.arrays.take(k + 1), data, f.next_item_identity as nat).map_values(
                    |a: ArrayData| identities(a.2),
                ) =~= refreshed_arrays(f.arrays.take(k as int), data, f.next_item_identity as nat).map_values(
                    |a: ArrayData| identities(a.2),
                ).push(identities(entry.2)));
            }
            k += 1;
        }
        assert(f.arrays.take(k as int) =~= f.arrays);
        self.controls = cleared_controls;
        self.arrays = out;
        self.baseline_array_identities = ids_out;
        self.next_item_identity = next;
        if data_changed {
            self.form_data = form_data.clone();
        }
        self.baseline = form_data;
        self.external_finding_batches = Vec::new();
        assert(batch_datas(self.external_finding_batches@) =~= Seq::<BatchData>::empty());
        self.submission_attempted = false;
        self.data_revision = self.data_revision + 1;
        self.state_revision = self.state_revision + 1;
        Ok(())
    }
}


/// Where a control's state lives in a form: a control of the fixed part, or
/// control `control` of item `item` of array `array`.
#[derive(Debug, Clone, Copy, PartialEq, Eq)]
pub enum ControlLocation {
    Static(usize),
    ArrayItem(usize, usize, usize),
}

/// The absolute binding of a control of an array item: the item's pointer
/// (the array binding and the item's index) followed by the control's
/// relative binding.
pub open spec fn item_control_binding(f: FormData, a: int, i: int, c: int) -> Seq<char> {
    append_index_spec(f.arrays[a].0, i as nat) + f.arrays[a].2[i].1[c].0
}

/// `(a, i, c)` names a control of an item of an array of the form.
pub open spec fn item_slot(f: FormData, a: int, i: int, c: int) -> bool {
    &&& 0 <= a < f.arrays.len()
    &&& 0 <= i < f.arrays[a].2.len()
    &&& 0 <= c < f.arrays[a].2[i].1.len()
}

/// Slot `(a, i, c)` comes before slot `(a2, i2, c2)`: array by array, item by
/// item, control by control.
pub open spec fn slot_before(a: int, i: int, c: int, a2: int, i2: int, c2: int) -> bool {
    a < a2 || (a == a2 && i < i2) || (a == a2 && i == i2 && c < c2)
}

/// No control of the fixed part has binding `binding`.
pub open spec fn no_static_control(f: FormData, binding: Seq<char>) -> bool {
    forall|j: int| 0 <= j < f.controls.len() ==> #[trigger] f.controls[j].0 != binding
}

/// `l` is where the control bound to `binding` is found: the first control of
/// the fixed part with that binding, or else the first array-item control
/// with that absolute binding.
pub open spec fn locates(f: FormData, binding: Seq<char>, l: ControlLocation) -> bool {
    match l {
        ControlLocation::Static(k) => {
            &&& k < f.controls.len()
            &&& f.controls[k as int].0 == binding
            &&& forall|j: int| 0 <= j < k ==> #[trigger] f.controls[j].0 != binding
        },
        ControlLocation::ArrayItem(a, i, c) => {
            &&& no_static_control(f, binding)
            &&& item_slot(f, a as int, i as int, c as int)
            &&& item_control_binding(f, a as int, i as int, c as int) == binding
            &&& forall|a2: int, i2: int, c2: int|
                item_slot(f, a2, i2, c2) && slot_before(a2, i2, c2, a as int, i as int, c as int)
                    ==> #[trigger] item_control_binding(f, a2, i2, c2) != binding
        },
    }
}

/// The location of the control bound to `binding`, if the form has one.
pub open spec fn control_location_of(f: FormData, binding: Seq<char>) -> Option<ControlLocation> {
    if exists|l: ControlLocation| locates(f, binding, l) {
        Some(choose|l: ControlLocation| locates(f, binding, l))
    } else {
        None
    }
}

/// A binding is located at one place at most.
pub proof fn lemma_location_unique(f: FormData, binding: Seq<char>, l1: ControlLocation, l2: ControlLocation)
    requires
        locates(f, binding, l1),
        locates(f, binding, l2),
    ensures
        l1 == l2,
{
    match (l1, l2) {
        (ControlLocation::Static(k1), ControlLocation::Static(k2)) => {
            if k1 < k2 {
                assert(f.controls[k1 as int].0 != binding);
            } else if k2 < k1 {
                assert(f.controls[k2 as int].0 != binding);
            }
        },
        (ControlLocation::Static(k1), ControlLocation::ArrayItem(_, _, _)) => {
            assert(f.controls[k1 as int].0 != binding);
        },
        (ControlLocation::ArrayItem(_, _, _), ControlLocation::Static(k2)) => {
            assert(f.controls[k2 as int].0 != binding);
        },
        (ControlLocation::ArrayItem(a1, i1, c1), ControlLocation::ArrayItem(a2, i2, c2)) => {
            if slot_before(a1 as int, i1 as int, c1 as int, a2 as int, i2 as int, c2 as int) {
                assert(item_control_binding(f, a1 as int, i1 as int, c1 as int) != binding);
            } else if slot_before(a2 as int, i2 as int, c2 as int, a1 as int, i1 as int, c1 as int) {
                assert(item_control_binding(f, a2 as int, i2 as int, c2 as int) != binding);
            }
        },
    }
}

/// The state of the control at `l`.
pub open spec fn control_at(f: FormData, l: ControlLocation) -> ControlStateData {
    match l {
        ControlLocation::Static(k) => f.controls[k as int],
        ControlLocation::ArrayItem(a, i, c) => f.arrays[a as int].2[i as int].1[c as int],
    }
}

/// The form with the state of the control at `l` replaced by `d`.
pub open spec fn with_control(f: FormData, l: ControlLocation, d: ControlStateData) -> FormData {
    match l {
        ControlLocation::Static(k) => FormData { controls: f.controls.update(k as int, d), ..f },
        ControlLocation::ArrayItem(a, i, c) => {
            let arr = f.arrays[a as int];
            let item = arr.2[i as int];
            FormData {
                arrays: f.arrays.update(a as int, (arr.0, arr.1, arr.2.update(i as int, (item.0, item.1.update(c as int, d))))),
                ..f
            }
        },
    }
}

/// A control's state once its edit text is committed: text that parsed is
/// dropped, text that did not parse stays with its blocker.
pub open spec fn finalized(c: ControlStateData) -> ControlStateData {
    (c.0, if c.2 is None { None } else { c.1 }, c.2, c.3)
}

/// A control's state after the user leaves it: committed and touched.
pub open spec fn blurred(c: ControlStateData) -> ControlStateData {
    (c.0, if c.2 is None { None } else { c.1 }, c.2, true)
}

/// The form after the control at `l` is left: its state is blurred, and the
/// state revision goes up by one exactly when that changed it.
pub open spec fn blurred_form(f: FormData, l: ControlLocation) -> FormData {
    let c = control_at(f, l);
    let n = blurred(c);
    FormData {
        state_revision: if n != c {
            (f.state_revision + 1) as u64
        } else {
            f.state_revision
        },
        ..with_control(f, l, n)
    }
}


/// Changing one control of one item of one array changes the arrays' content
/// at that control only.
proof fn lemma_item_control_updated(before: Seq<ArrayState>, after: Seq<ArrayState>, a: int, i: int, c: int)
    requires
        0 <= a < before.len(),
        0 <= i < before[a].items.len(),
        0 <= c < before[a].items@[i].controls.len(),
        after.len() == before.len(),
        forall|x: int| 0 <= x < before.len() && x != a ==> after[x] == before[x],
        after[a].definition == before[a].definition,
        after[a].items.len() == before[a].items.len(),
        forall|x: int| 0 <= x < before[a].items.len() && x != i ==> after[a].items@[x] == before[a].items@[x],
        after[a].items@[i].identity == before[a].items@[i].identity,
        after[a].items@[i].controls.len() == before[a].items@[i].controls.len(),
        forall|x: int|
            0 <= x < before[a].items@[i].controls.len() && x != c ==> after[a].items@[i].controls@[x]
                == before[a].items@[i].controls@[x],
    ensures
        ({
            let d = array_datas(before);
            let arr = d[a];
            let item = arr.2[i];
            array_datas(after) == d.update(
                a,
                (arr.0, arr.1, arr.2.update(i, (item.0, item.1.update(c, control_state_data(after[a].items@[i].controls@[c]))))),
            )
        }),
{
    let d = array_datas(before);
    let arr = d[a];
    let item = arr.2[i];
    let nc = control_state_data(after[a].items@[i].controls@[c]);
    assert(control_datas(after[a].items@[i].controls@) =~= item.1.update(c, nc));
    assert(item_datas(after[a].items@) =~= arr.2.update(i, (item.0, item.1.update(c, nc))));
    assert(array_datas(after) =~= d.update(a, (arr.0, arr.1, arr.2.update(i, (item.0, item.1.update(c, nc))))));
}

impl ControlState {
    /// Commits the edit text when it parsed; reports whether the state changed.
    fn finalize_edit_buffer(&mut self) -> (r: bool)
        ensures
            control_state_data(*final(self)) == finalized(control_state_data(*old(self))),
            r == (finalized(control_state_data(*old(self))) != control_state_data(*old(self))),
            final(self).definition == old(self).definition,
        no_unwind
    {
        let commit = match (&self.parse_blocker, &self.edit_buffer) {
            (None, Some(_)) => true,
            _ => false,
        };
        if commit {
            self.edit_buffer = None;
        }
        commit
    }

    /// Commits the edit text and marks the control touched; reports whether
    /// the state changed.
    fn blur_state(&mut self) -> (r: bool)
        ensures
            control_state_data(*final(self)) == blurred(control_state_data(*old(self))),
            r == (blurred(control_state_data(*old(self))) != control_state_data(*old(self))),
            final(self).definition == old(self).definition,
    {
        let committed = self.finalize_edit_buffer();
        let changed = committed || !self.touched;
        self.touched = true;
        changed
    }
}

impl Form {
    /// Finds the control bound to `binding`: in the fixed part first, then
    /// array by array, item by item.
    pub fn control_location(&self, binding: &str) -> (r: Option<ControlLocation>)
        ensures
            r == control_location_of(self@, binding@),
    {
        let ghost f = self@;
        let mut k: usize = 0;
        while k < self.controls.len()
            invariant
                k <= self.controls.len(),
                f == self@,
                forall|j: int| 0 <= j < k ==> #[trigger] f.controls[j].0 != binding@,
            decreases self.controls.len() - k,
        {
            assert(f.controls[k as int] == control_state_data(self.controls@[k as int]));
            if str_eq(self.controls[k].definition.binding.as_str(), binding) {
                let l = ControlLocation::Static(k);
                proof {
                    assert(locates(f, binding@, l));
                    let c = choose|l: ControlLocation| locates(f, binding@, l);
                    lemma_location_unique(f, binding@, l, c);
                }
                return Some(l);
            }
            k += 1;
        }
        assert(no_static_control(f, binding@));
        let mut a: usize = 0;
        while a < self.arrays.len()
            invariant
                a <= self.arrays.len(),
                f == self@,
                no_static_control(f, binding@),
                forall|a2: int, i2: int, c2: int|
                    item_slot(f, a2, i2, c2) && a2 < a ==> #[trigger] item_control_binding(f, a2, i2, c2) != binding@,
            decreases self.arrays.len() - a,
        {
            let array = &self.arrays[a];
            assert(f.arrays[a as int] == array_data(*array));
            let mut i: usize = 0;
            while i < array.items.len()
                invariant
                    i <= array.items.len(),
                    a < self.arrays.len(),
                    *array == self.arrays@[a as int],
                    f == self@,
                    f.arrays[a as int] == array_data(*array),
                    no_static_control(f, binding@),
                    forall|a2: int, i2: int, c2: int|
                        item_slot(f, a2, i2, c2) && (a2 < a || (a2 == a && i2 < i)) ==> #[trigger] item_control_binding(
                            f,
                            a2,
                            i2,
                            c2,
                        ) != binding@,
                decreases array.items.len() - i,
            {
                let item = &array.items[i];
                assert(f.arrays[a as int].2[i as int] == item_data(*item));
                let mut c: usize = 0;
                while c < item.controls.len()
                    invariant
                        c <= item.controls.len(),
                        a < self.arrays.len(),
                        i < array.items.len(),
                        *array == self.arrays@[a as int],
                        *item == array.items@[i as int],
                        f == self@,
                        f.arrays[a as int] == array_data(*array),
                        f.arrays[a as int].2[i as int] == item_data(*item),
                        no_static_control(f, binding@),
                        forall|a2: int, i2: int, c2: int|
                            item_slot(f, a2, i2, c2) && (a2 < a || (a2 == a && i2 < i) || (a2 == a && i2 == i && c2 < c))
                                ==> #[trigger] item_control_binding(f, a2, i2, c2) != binding@,
                    decreases item.controls.len() - c,
                {
                    let mut full = append_index(array.definition.binding.as_str(), i);
                    push_text(&mut full, item.controls[c].definition.binding.as_str());
                    assert(f.arrays[a as int].2[i as int].1[c as int] == control_state_data(item.controls@[c as int]));
                    assert(full@ == item_control_binding(f, a as int, i as int, c as int));
                    if str_eq(full.as_str(), binding) {
                        let l = ControlLocation::ArrayItem(a, i, c);
                        proof {
                            assert(locates(f, binding@, l));
                            let other = choose|l: ControlLocation| locates(f, binding@, l);
                            lemma_location_unique(f, binding@, l, other);
                        }
                        return Some(l);
                    }
                    c += 1;
                }
                i += 1;
            }
            a += 1;
        }
        proof {
            assert forall|l: ControlLocation| !locates(f, binding@, l) by {
                match l {
                    ControlLocation::Static(k) => {
                        if k < f.controls.len() {
                            assert(f.controls[k as int].0 != binding@);
                        }
                    },
                    ControlLocation::ArrayItem(a2, i2, c2) => {
                        if item_slot(f, a2 as int, i2 as int, c2 as int) {
                            assert(item_control_binding(f, a2 as int, i2 as int, c2 as int) != binding@);
                        }
                    },
                }
            }
        }
        None
    }

    /// Leaves the control bound to `binding` (see [`blurred_form`]); an
    /// unknown binding is refused and changes nothing.
    pub fn blur(&mut self, binding: &str) -> (r: Result<(), EditError>)
        requires
            old(self)@.state_revision < u64::MAX,
        ensures
            match control_location_of(old(self)@, binding@) {
                None => r matches Err(EditError::UnknownControl(s)) && s@ == binding@ && final(self)@ == old(self)@,
                Some(l) => r is Ok && final(self)@ == blurred_form(old(self)@, l),
            },
    {
        proof {
            use_type_invariant(&*self);
        }
        let ghost f = self@;
        match self.control_location(binding) {
            None => Err(EditError::UnknownControl(binding.to_string())),
            Some(l) => {
                let changed = match l {
                    ControlLocation::Static(k) => self.controls[k].blur_state(),
                    ControlLocation::ArrayItem(a, i, c) => {
                        let ghost before = self.arrays@;
                        let changed = self.arrays[a].items[i].controls[c].blur_state();
                        proof {
                            lemma_item_control_updated(before, self.arrays@, a as int, i as int, c as int);
                        }
                        changed
                    },
                };
                if changed {
                    self.state_revision = self.state_revision + 1;
                }
                proof {
                    assert(self@.controls =~= with_control(f, l, blurred(control_at(f, l))).controls);
                    assert(self@.arrays =~= with_control(f, l, blurred(control_at(f, l))).arrays);
                }
                Ok(())
            },
        }
    }
}


/// A reason a submission is refused: edit text that did not parse (absolute
/// binding and reason), or a blocking host finding (source, instance
/// pointer, code).
pub enum BlockerData {
    Parse(Seq<char>, ParseBlocker),
    External(Seq<char>, Seq<char>, Seq<char>),
}

/// The parse blockers of controls whose bindings are relative to `prefix`,
/// in order.
pub open spec fn control_blockers(cs: Seq<ControlStateData>, prefix: Seq<char>) -> Seq<BlockerData>
    decreases cs.len(),
{
    if cs.len() == 0 {
        Seq::empty()
    } else {
        let rest = control_blockers(cs.drop_last(), prefix);
        match cs.last().2 {
            Some(reason) => rest.push(BlockerData::Parse(prefix + cs.last().0, reason)),
            None => rest,
        }
    }
}

/// The parse blockers of the items of the array bound to `array`, item by
/// item.
pub open spec fn item_blockers(items: Seq<ItemData>, array: Seq<char>) -> Seq<BlockerData>
    decreases items.len(),
{
    if items.len() == 0 {
        Seq::empty()
    } else {
        item_blockers(items.drop_last(), array) + control_blockers(
            items.last().1,
            append_index_spec(array, (items.len() - 1) as nat),
        )
    }
}

/// The parse blockers of the arrays' items, array by array.
pub open spec fn array_blockers(arrays: Seq<ArrayData>) -> Seq<BlockerData>
    decreases arrays.len(),
{
    if arrays.len() == 0 {
        Seq::empty()
    } else {
        array_blockers(arrays.drop_last()) + item_blockers(arrays.last().2, arrays.last().0)
    }
}

/// The blocking findings of one source, in order.
pub open spec fn finding_blockers(source: Seq<char>, fs: Seq<FindingKey>) -> Seq<BlockerData>
    decreases fs.len(),
{
    if fs.len() == 0 {
        Seq::empty()
    } else {
        let rest = finding_blockers(source, fs.drop_last());
        if fs.last().2 {
            rest.push(BlockerData::External(source, fs.last().0, fs.last().1))
        } else {
            rest
        }
    }
}

/// The blocking findings of all batches, batch by batch.
pub open spec fn batch_blockers(bs: Seq<BatchData>) -> Seq<BlockerData>
    decreases bs.len(),
{
    if bs.len() == 0 {
        Seq::empty()
    } else {
        batch_blockers(bs.drop_last()) + finding_blockers(bs.last().0, bs.last().2)
    }
}

/// Everything that blocks a submission of the form: parse blockers of the
/// fixed controls, then of the array items, then blocking host findings.
pub open spec fn submission_blockers(f: FormData) -> Seq<BlockerData> {
    control_blockers(f.controls, Seq::empty()) + array_blockers(f.arrays) + batch_blockers(f.batches)
}

/// Control states with their edit text committed.
pub open spec fn finalized_controls(cs: Seq<ControlStateData>) -> Seq<ControlStateData> {
    cs.map_values(|c: ControlStateData| finalized(c))
}

/// Items with their controls' edit text committed.
pub open spec fn finalized_items(items: Seq<ItemData>) -> Seq<ItemData> {
    items.map_values(|i: ItemData| (i.0, finalized_controls(i.1)))
}

/// Arrays with their items' edit text committed.
pub open spec fn finalized_arrays(arrays: Seq<ArrayData>) -> Seq<ArrayData> {
    arrays.map_values(|a: ArrayData| (a.0, a.1, finalized_items(a.2)))
}

/// The form after a submission attempt: every control's edit text is
/// committed, the attempt is recorded, and the state revision goes up by one
/// exactly when that changed the state.
pub open spec fn submitted_form(f: FormData) -> FormData {
    let controls = finalized_controls(f.controls);
    let arrays = finalized_arrays(f.arrays);
    let changed = !f.submission_attempted || controls != f.controls || arrays != f.arrays;
    FormData {
        controls,
        arrays,
        submission_attempted: true,
        state_revision: if changed {
            (f.state_revision + 1) as u64
        } else {
            f.state_revision
        },
        ..f
    }
}

/// Immutable data accepted for submission: the form data, its revision and
/// the definition's fingerprint.
#[derive(Debug)]
pub struct SubmissionSnapshot {
    form_data: JsonValue,
    data_revision: u64,
    definition_fingerprint: DefinitionFingerprint,
}

impl View for SubmissionSnapshot {
    type V = (JsonData, u64, Seq<u8>);

    closed spec fn view(&self) -> (JsonData, u64, Seq<u8>) {
        (self.form_data@, self.data_revision, self.definition_fingerprint.0@)
    }
}

impl SubmissionSnapshot {
    /// The submitted form data.
    pub fn form_data(&self) -> (r: &JsonValue)
        ensures
            r@ == self@.0,
    {
        &self.form_data
    }

    /// The data revision the snapshot was taken at.
    pub fn data_revision(&self) -> (r: u64)
        ensures
            r == self@.1,
    {
        self.data_revision
    }

    /// The fingerprint of the definition the form was created from.
    pub fn definition_fingerprint(&self) -> (r: DefinitionFingerprint)
        ensures
            r.0@ == self@.2,
    {
        self.definition_fingerprint
    }
}

#[derive(Debug)]
enum SubmissionBlocker {
    Parse { binding: String, reason: ParseBlocker },
    External { source: String, instance_pointer: String, code: String },
}

spec fn blocker_data(b: SubmissionBlocker) -> BlockerData {
    match b {
        SubmissionBlocker::Parse { binding, reason } => BlockerData::Parse(binding@, reason),
        SubmissionBlocker::External { source, instance_pointer, code } => BlockerData::External(
            source@,
            instance_pointer@,
            code@,
        ),
    }
}

spec fn blocker_datas(bs: Seq<SubmissionBlocker>) -> Seq<BlockerData> {
    bs.map_values(|b: SubmissionBlocker| blocker_data(b))
}

/// `b` is a parse blocker of the control bound to `binding`.
pub open spec fn blocks_binding(b: BlockerData, binding: Seq<char>) -> bool {
    b matches BlockerData::Parse(x, _) && x == binding
}

/// Why a submission was refused: its blockers, in order.
#[derive(Debug)]
pub struct SubmissionFailure {
    blockers: Vec<SubmissionBlocker>,
}

impl View for SubmissionFailure {
    type V = Seq<BlockerData>;

    closed spec fn view(&self) -> Seq<BlockerData> {
        blocker_datas(self.blockers@)
    }
}

impl SubmissionFailure {
    /// Whether the edit text of the control bound to `binding` blocks the
    /// submission.
    pub fn has_parse_blocker(&self, binding: &str) -> (r: bool)
        ensures
            r == exists|i: int|
                0 <= i < self@.len() && blocks_binding(#[trigger] self@[i], binding@),
    {
        let mut i: usize = 0;
        while i < self.blockers.len()
            invariant
                i <= self.blockers.len(),
                forall|j: int| 0 <= j < i ==> !blocks_binding(#[trigger] self@[j], binding@),
            decreases self.blockers.len() - i,
        {
            assert(self@[i as int] == blocker_data(self.blockers@[i as int]));
            if let SubmissionBlocker::Parse { binding: b, .. } = &self.blockers[i] {
                if str_eq(b.as_str(), binding) {
                    return true;
                }
            }
            i += 1;
        }
        false
    }

    /// Whether host source `source` blocks the submission with code `code` at
    /// `instance_pointer`.
    pub fn has_external_blocker(&self, source: &str, instance_pointer: &str, code: &str) -> (r: bool)
        ensures
            r == exists|i: int|
                0 <= i < self@.len() && #[trigger] self@[i] == BlockerData::External(source@, instance_pointer@, code@),
    {
        let mut i: usize = 0;
        while i < self.blockers.len()
            invariant
                i <= self.blockers.len(),
                forall|j: int| 0 <= j < i ==> #[trigger] self@[j] != BlockerData::External(source@, instance_pointer@, code@),
            decreases self.blockers.len() - i,
        {
            assert(self@[i as int] == blocker_data(self.blockers@[i as int]));
            if let SubmissionBlocker::External { source: s, instance_pointer: p, code: c } = &self.blockers[i] {
                if str_eq(s.as_str(), source) && str_eq(p.as_str(), instance_pointer) && str_eq(c.as_str(), code) {
                    return true;
                }
            }
            i += 1;
        }
        false
    }
}

fn copy_string(s: &str) -> (r: String)
    ensures
        r@ == s@,
{
    string_from_chars(&chars_of(s))
}


fn collect_control_blockers(cs: &Vec<ControlState>, prefix: &str, out: &mut Vec<SubmissionBlocker>)
    ensures
        blocker_datas(final(out)@) == blocker_datas(old(out)@) + control_blockers(control_datas(cs@), prefix@),
{
    let ghost start = blocker_datas(out@);
    let ghost d = control_datas(cs@);
    let mut k: usize = 0;
    while k < cs.len()
        invariant
            k <= cs.len(),
            d == control_datas(cs@),
            blocker_datas(out@) == start + control_blockers(d.take(k as int), prefix@),
        decreases cs.len() - k,
    {
        assert(d.take(k + 1).drop_last() =~= d.take(k as int));
        assert(d.take(k + 1).last() == control_state_data(cs@[k as int]));
        let ghost before = blocker_datas(out@);
        if let Some(reason) = cs[k].parse_blocker {
            let mut binding = copy_string(prefix);
            push_text(&mut binding, cs[k].definition.binding.as_str());
            out.push(SubmissionBlocker::Parse { binding, reason });
            assert(blocker_datas(out@) =~= before.push(BlockerData::Parse(prefix@ + d[k as int].0, reason)));
        }
        k += 1;
    }
    assert(d.take(k as int) =~= d);
}

fn collect_item_blockers(items: &Vec<ArrayItemState>, array: &str, out: &mut Vec<SubmissionBlocker>)
    ensures
        blocker_datas(final(out)@) == blocker_datas(old(out)@) + item_blockers(item_datas(items@), array@),
{
    let ghost start = blocker_datas(out@);
    let ghost d = item_datas(items@);
    let mut i: usize = 0;
    while i < items.len()
        invariant
            i <= items.len(),
            d == item_datas(items@),
            blocker_datas(out@) == start + item_blockers(d.take(i as int), array@),
        decreases items.len() - i,
    {
        assert(d.take(i + 1).drop_last() =~= d.take(i as int));
        assert(d.take(i + 1).last() == item_data(items@[i as int]));
        let prefix = append_index(array, i);
        let ghost before = blocker_datas(out@);
        collect_control_blockers(&items[i].controls, prefix.as_str(), out);
        assert(start + item_blockers(d.take(i + 1), array@) =~= before + control_blockers(
            control_datas(items@[i as int].controls@),
            prefix@,
        ));
        i += 1;
    }
    assert(d.take(i as int) =~= d);
}

fn collect_finding_blockers(source: &str, findings: &Vec<ExternalFinding>, out: &mut Vec<SubmissionBlocker>)
    ensures
        blocker_datas(final(out)@) == blocker_datas(old(out)@) + finding_blockers(source@, finding_keys(findings@)),
{
    let ghost start = blocker_datas(out@);
    let ghost d = finding_keys(findings@);
    let mut k: usize = 0;
    while k < findings.len()
        invariant
            k <= findings.len(),
            d == finding_keys(findings@),
            blocker_datas(out@) == start + finding_blockers(source@, d.take(k as int)),
        decreases findings.len() - k,
    {
        assert(d.take(k + 1).drop_last() =~= d.take(k as int));
        assert(d.take(k + 1).last() == finding_key(findings@[k as int]));
        let ghost before = blocker_datas(out@);
        let f = &findings[k];
        if f.is_blocking() {
            let b = SubmissionBlocker::External {
                source: copy_string(source),
                instance_pointer: copy_string(f.instance_pointer()),
                code: copy_string(f.code()),
            };
            out.push(b);
            assert(blocker_datas(out@) =~= before.push(BlockerData::External(source@, d[k as int].0, d[k as int].1)));
        }
        k += 1;
    }
    assert(d.take(k as int) =~= d);
}

fn finalize_controls(cs: &mut Vec<ControlState>) -> (changed: bool)
    ensures
        control_datas(final(cs)@) == finalized_controls(control_datas(old(cs)@)),
        changed == (finalized_controls(control_datas(old(cs)@)) != control_datas(old(cs)@)),
    no_unwind
{
    let ghost d = control_datas(cs@);
    let mut changed = false;
    let mut k: usize = 0;
    while k < cs.len()
        invariant
            k <= cs.len(),
            cs.len() == d.len(),
            forall|j: int| 0 <= j < k ==> #[trigger] control_state_data(cs@[j]) == finalized(d[j]),
            forall|j: int| k <= j < cs.len() ==> #[trigger] control_state_data(cs@[j]) == d[j],
            changed == exists|j: int| 0 <= j < k && #[trigger] finalized(d[j]) != d[j],
        decreases cs.len() - k,
    {
        let c = cs[k].finalize_edit_buffer();
        changed = changed || c;
        k += 1;
    }
    assert(control_datas(cs@) =~= finalized_controls(d));
    if !changed {
        assert(finalized_controls(d) =~= d);
    } else {
        proof {
            let j = choose|j: int| 0 <= j < d.len() && #[trigger] finalized(d[j]) != d[j];
            assert(finalized_controls(d)[j] != d[j]);
        }
    }
    changed
}

fn finalize_items(items: &mut Vec<ArrayItemState>) -> (changed: bool)
    ensures
        item_datas(final(items)@) == finalized_items(item_datas(old(items)@)),
        changed == (finalized_items(item_datas(old(items)@)) != item_datas(old(items)@)),
    no_unwind
{
    let ghost d = item_datas(items@);
    let mut changed = false;
    let mut k: usize = 0;
    while k < items.len()
        invariant
            k <= items.len(),
            items.len() == d.len(),
            forall|j: int| 0 <= j < k ==> #[trigger] item_data(items@[j]) == (d[j].0, finalized_controls(d[j].1)),
            forall|j: int| k <= j < items.len() ==> #[trigger] item_data(items@[j]) == d[j],
            changed == exists|j: int| 0 <= j < k && #[trigger] finalized_controls(d[j].1) != d[j].1,
        decreases items.len() - k,
    {
        let ghost prev = items@;
        let c = finalize_controls(&mut items[k].controls);
        proof {
            assert(item_data(prev[k as int]) == d[k as int]);
            assert(items@[k as int].identity == prev[k as int].identity);
            assert(item_data(items@[k as int]) == (d[k as int].0, finalized_controls(d[k as int].1)));
            if c {
                assert(finalized_controls(d[k as int].1) != d[k as int].1);
            }
        }
        changed = changed || c;
        k += 1;
    }
    assert(item_datas(items@) =~= finalized_items(d));
    if !changed {
        assert forall|j: int| 0 <= j < d.len() implies finalized_items(d)[j] == d[j] by {
            assert(finalized_controls(d[j].1) == d[j].1);
        }
        assert(finalized_items(d) =~= d);
    } else {
        proof {
            let j = choose|j: int| 0 <= j < d.len() && #[trigger] finalized_controls(d[j].1) != d[j].1;
            assert(finalized_items(d)[j] != d[j]);
        }
    }
    changed
}

impl Form {
    /// Tries to submit: commits every control's parsed edit text, records the
    /// attempt (see [`submitted_form`]), and returns a snapshot of the data,
    /// or, when anything blocks the submission, every blocker in order.
    #[verifier::rlimit(50)]
    pub fn prepare_submission(&mut self) -> (r: Result<SubmissionSnapshot, SubmissionFailure>)
        requires
            old(self)@.state_revision < u64::MAX,
        ensures
            final(self)@ == submitted_form(old(self)@),
            match r {
                Ok(s) => submission_blockers(old(self)@).len() == 0 && s@ == (
                    old(self)@.form_data,
                    old(self)@.data_revision,
                    old(self)@.fingerprint,
                ),
                Err(e) => submission_blockers(old(self)@).len() > 0 && e@ == submission_blockers(old(self)@),
            },
    {
        proof {
            use_type_invariant(&*self);
        }
        let ghost f = self@;
        let mut blockers: Vec<SubmissionBlocker> = Vec::new();
        collect_control_blockers(&self.controls, "", &mut blockers);
        proof {
            reveal_strlit("");
            assert forall|cs: Seq<ControlStateData>| #[trigger] control_blockers(cs, ""@) == control_blockers(cs, Seq::empty()) by {
                assert(""@ =~= Seq::<char>::empty());
            }
        }
        let ghost after_controls = blocker_datas(blockers@);
        assert(after_controls =~= control_blockers(f.controls, Seq::empty()));
        let mut a: usize = 0;
        while a < self.arrays.len()
            invariant
                a <= self.arrays.len(),
                f == self@,
                blocker_datas(blockers@) == after_controls + array_blockers(f.arrays.take(a as int)),
            decreases self.arrays.len() - a,
        {
            assert(f.arrays.take(a + 1).drop_last() =~= f.arrays.take(a as int));
            assert(f.arrays.take(a + 1).last() == array_data(self.arrays@[a as int]));
            let ghost before = blocker_datas(blockers@);
            collect_item_blockers(&self.arrays[a].items, self.arrays[a].definition.binding.as_str(), &mut blockers);
            assert(after_controls + array_blockers(f.arrays.take(a + 1)) =~= before + item_blockers(
                item_datas(self.arrays@[a as int].items@),
                self.arrays@[a as int].definition.binding@,
            ));
            a += 1;
        }
        assert(f.arrays.take(a as int) =~= f.arrays);
        let ghost after_arrays = blocker_datas(blockers@);
        let mut b: usize = 0;
        while b < self.external_finding_batches.len()
            invariant
                b <= self.external_finding_batches.len(),
                f == self@,
                blocker_datas(blockers@) == after_arrays + batch_blockers(f.batches.take(b as int)),
            decreases self.external_finding_batches.len() - b,
        {
            assert(f.batches.take(b + 1).drop_last() =~= f.batches.take(b as int));
            assert(f.batches.take(b + 1).last() == batch_data(self.external_finding_batches@[b as int]));
            let ghost before = blocker_datas(blockers@);
            let batch = &self.external_finding_batches[b];
            collect_finding_blockers(batch.source.as_str(), &batch.findings, &mut blockers);
            assert(after_arrays + batch_blockers(f.batches.take(b + 1)) =~= before + finding_blockers(
                batch.source@,
                finding_keys(batch.findings@),
            ));
            b += 1;
        }
        assert(f.batches.take(b as int) =~= f.batches);
        assert(blocker_datas(blockers@) =~= submission_blockers(f));
        let mut state_changed = !self.submission_attempted;
        self.submission_attempted = true;
        let controls_changed = finalize_controls(&mut self.controls);
        let mut arrays_changed = false;
        let ghost g = *self;
        let mut k: usize = 0;
        while k < self.arrays.len()
            invariant
                k <= self.arrays.len(),
                self.controls == g.controls,
                self.next_item_identity == g.next_item_identity,
                self.baseline_array_identities == g.baseline_array_identities,
                self.definition_fingerprint == g.definition_fingerprint,
                self.baseline == g.baseline,
                self.form_data == g.form_data,
                self.submission_attempted == g.submission_attempted,
                self.data_revision == g.data_revision,
                self.state_revision == g.state_revision,
                g.state_revision == f.state_revision,
                self.arrays.len() == f.arrays.len(),
                self.arrays.len() == self.baseline_array_identities.len(),
                self.external_finding_batches@ == old(self).external_finding_batches@,
                sources_sorted(batch_datas(self.external_finding_batches@)),
                forall|j: int| 0 <= j < k ==> #[trigger] array_data(self.arrays@[j]) == (
                    f.arrays[j].0,
                    f.arrays[j].1,
                    finalized_items(f.arrays[j].2),
                ),
                forall|j: int| k <= j < self.arrays.len() ==> #[trigger] array_data(self.arrays@[j]) == f.arrays[j],
                arrays_changed == exists|j: int| 0 <= j < k && #[trigger] finalized_items(f.arrays[j].2) != f.arrays[j].2,
            decreases self.arrays.len() - k,
        {
            assert(array_data(self.arrays@[k as int]) == f.arrays[k as int]);
            let ghost prev = self.arrays@;
            let c = finalize_items(&mut self.arrays[k].items);
            proof {
                assert(self.arrays@[k as int].definition == prev[k as int].definition);
                assert(array_data(self.arrays@[k as int]) == (
                    f.arrays[k as int].0,
                    f.arrays[k as int].1,
                    finalized_items(f.arrays[k as int].2),
                ));
                if c {
                    assert(finalized_items(f.arrays[k as int].2) != f.arrays[k as int].2);
                }
            }
            arrays_changed = arrays_changed || c;
            k += 1;
        }
        proof {
            assert(array_datas(self.arrays@) =~= finalized_arrays(f.arrays));
            if !arrays_changed {
                assert forall|j: int| 0 <= j < f.arrays.len() implies finalized_arrays(f.arrays)[j] == f.arrays[j] by {
                    assert(finalized_items(f.arrays[j].2) == f.arrays[j].2);
                }
                assert(finalized_arrays(f.arrays) =~= f.arrays);
            } else {
                let j = choose|j: int| 0 <= j < f.arrays.len() && #[trigger] finalized_items(f.arrays[j].2) != f.arrays[j].2;
                assert(finalized_arrays(f.arrays)[j] != f.arrays[j]);
            }
        }
        state_changed = state_changed || controls_changed || arrays_changed;
        if state_changed {
            self.state_revision = self.state_revision + 1;
        }
        if blockers.len() == 0 {
            Ok(
                SubmissionSnapshot {
                    form_data: copy_value(&self.form_data),
                    data_revision: self.data_revision,
                    definition_fingerprint: self.definition_fingerprint,
                },
            )
        } else {
            Err(SubmissionFailure { blockers })
        }
    }
}


/// A control accepts `v`: null when it accepts null, otherwise a value that
/// fits its kind and choices.
pub open spec fn accepts(d: ControlDefinition, v: JsonData) -> bool {
    if v is Null {
        d.accepts_null
    } else {
        compatible(d.kind, datas(d.choices@), v)
    }
}

/// The value a control stores for `v`: the first of its choices equal to
/// `v`, or `v` itself.
pub open spec fn stored_choice(choices: Seq<JsonData>, v: JsonData) -> JsonData
    decreases choices.len(),
{
    if choices.len() == 0 {
        v
    } else if spec_json_equal(choices[0], v) {
        choices[0]
    } else {
        stored_choice(choices.drop_first(), v)
    }
}

/// A control's state with its edit text and parse blocker dropped.
pub open spec fn edit_cleared(c: ControlStateData) -> ControlStateData {
    (c.0, None, None, c.3)
}

/// The form after the control at `l` set the data to `d`: its edit state is
/// dropped, host findings are discarded, and both revisions go up by one.
pub open spec fn value_set_form(f: FormData, l: ControlLocation, d: JsonData) -> FormData {
    FormData {
        form_data: d,
        batches: Seq::empty(),
        data_revision: (f.data_revision + 1) as u64,
        state_revision: (f.state_revision + 1) as u64,
        ..with_control(f, l, edit_cleared(control_at(f, l)))
    }
}

/// What setting `value` through the control bound to `binding` does: the
/// error (as [`edit_error_view`] gives it), or the form after it.
pub open spec fn set_value_outcome(
    f: FormData,
    definition: ControlDefinition,
    binding: Seq<char>,
    l: ControlLocation,
    value: JsonData,
) -> Result<FormData, (int, Seq<char>)> {
    let stored = stored_choice(datas(definition.choices@), value);
    if !accepts(definition, value) {
        Err((2, binding))
    } else if !is_pointer_text(binding) {
        Err((0, binding))
    } else if resolve_pointer(f.form_data, binding) matches Some(current) && spec_json_equal(current, stored) {
        Ok(f)
    } else {
        match write_pointer(f.form_data, binding, stored) {
            Some(d) => Ok(value_set_form(f, l, d)),
            None => Err((1, binding)),
        }
    }
}

/// An edit error as a kind (0 unknown control, 1 unresolved control, 2
/// operation not allowed) and the binding it names.
pub open spec fn edit_error_view(e: EditError) -> (int, Seq<char>) {
    match e {
        EditError::UnknownControl(s) => (0, s@),
        EditError::UnresolvedControl(s) => (1, s@),
        EditError::OperationNotAllowed(s) => (2, s@),
    }
}


impl ControlState {
    /// Drops the edit text and the parse blocker.
    fn clear_edit(&mut self)
        ensures
            control_state_data(*final(self)) == edit_cleared(control_state_data(*old(self))),
            final(self).definition == old(self).definition,
    {
        self.edit_buffer = None;
        self.parse_blocker = None;
    }
}

fn stored_value(choices: &Vec<JsonValue>, value: &JsonValue) -> (r: JsonValue)
    ensures
        r@ == stored_choice(datas(choices@), value@),
{
    let ghost c = datas(choices@);
    assert(c.skip(0) =~= c);
    let mut i: usize = 0;
    while i < choices.len()
        invariant
            i <= choices.len(),
            c == datas(choices@),
            stored_choice(c, value@) == stored_choice(c.skip(i as int), value@),
        decreases choices.len() - i,
    {
        assert(c.skip(i as int)[0] == choices@[i as int]@);
        assert(c.skip(i as int).drop_first() =~= c.skip(i + 1));
        if json_values_equal(&choices[i], value) {
            return copy_value(&choices[i]);
        }
        i += 1;
    }
    assert(c.skip(i as int).len() == 0);
    copy_value(value)
}

impl Form {
    /// The definition of the control at `l`.
    pub closed spec fn definition_at(&self, l: ControlLocation) -> ControlDefinition {
        match l {
            ControlLocation::Static(k) => self.controls@[k as int].definition,
            ControlLocation::ArrayItem(a, i, c) => self.arrays@[a as int].items@[i as int].controls@[c as int].definition,
        }
    }

    fn control_ref(&self, l: ControlLocation) -> (r: &ControlState)
        requires
            locates(self@, control_location_binding(self@, l), l),
        ensures
            control_state_data(*r) == control_at(self@, l),
    {
        match l {
            ControlLocation::Static(k) => &self.controls[k],
            ControlLocation::ArrayItem(a, i, c) => &self.arrays[a].items[i].controls[c],
        }
    }

    fn definition_ref(&self, l: ControlLocation) -> (r: &ControlDefinition)
        requires
            locates(self@, control_location_binding(self@, l), l),
        ensures
            *r == self.definition_at(l),
    {
        match l {
            ControlLocation::Static(k) => &self.controls[k].definition,
            ControlLocation::ArrayItem(a, i, c) => &self.arrays[a].items[i].controls[c].definition,
        }
    }

    /// Sets the value of the control bound to `binding` (see
    /// [`set_value_outcome`]). An unknown binding is refused; so is a value
    /// the control does not accept, and a binding whose parent is missing.
    pub fn set_value(&mut self, binding: &str, value: &JsonValue) -> (r: Result<(), EditError>)
        requires
            old(self)@.data_revision < u64::MAX,
            old(self)@.state_revision < u64::MAX,
        ensures
            match control_location_of(old(self)@, binding@) {
                None => r matches Err(EditError::UnknownControl(s)) && s@ == binding@ && final(self)@ == old(self)@,
                Some(l) => match set_value_outcome(old(self)@, old(self).definition_at(l), binding@, l, value@) {
                    Ok(g) => r is Ok && final(self)@ == g,
                    Err(e) => r matches Err(x) && edit_error_view(x) == e && final(self)@ == old(self)@,
                },
            },
    {
        proof {
            use_type_invariant(&*self);
        }
        let ghost f = self@;
        let l = match self.control_location(binding) {
            None => return Err(EditError::UnknownControl(binding.to_string())),
            Some(l) => l,
        };
        assert(locates(f, binding@, l)) by {
            assert(exists|x: ControlLocation| locates(f, binding@, x));
        }
        assert(control_location_binding(f, l) == binding@);
        let definition = self.definition_ref(l);
        let ghost def = self.definition_at(l);
        let compatible = match value {
            JsonValue::Null => definition.accepts_null,
            _ => scalar_value_is_compatible(definition.kind, &definition.choices, value),
        };
        if !compatible {
            return Err(EditError::OperationNotAllowed(binding.to_string()));
        }
        let stored = stored_value(&definition.choices, value);
        let pointer = match JsonPointer::parse(binding.to_string()) {
            Ok(p) => p,
            Err(_) => return Err(EditError::UnknownControl(binding.to_string())),
        };
        if let Some(current) = resolve(&pointer, &self.form_data) {
            if json_values_equal(current, &stored) {
                return Ok(());
            }
        }
        let mut data = copy_value(&self.form_data);
        if !write_value(&pointer, &mut data, stored) {
            return Err(EditError::UnresolvedControl(binding.to_string()));
        }
        self.form_data = data;
        match l {
            ControlLocation::Static(k) => self.controls[k].clear_edit(),
            ControlLocation::ArrayItem(a, i, c) => {
                let ghost before = self.arrays@;
                self.arrays[a].items[i].controls[c].clear_edit();
                proof {
                    lemma_item_control_updated(before, self.arrays@, a as int, i as int, c as int);
                }
            },
        }
        self.external_finding_batches = Vec::new();
        self.data_revision = self.data_revision + 1;
        self.state_revision = self.state_revision + 1;
        proof {
            assert(batch_datas(self.external_finding_batches@) =~= Seq::<BatchData>::empty());
            assert(self@.controls =~= value_set_form(f, l, self.form_data@).controls);
            assert(self@.arrays =~= value_set_form(f, l, self.form_data@).arrays);
        }
        Ok(())
    }
}

/// The binding a location stands for.
pub open spec fn control_location_binding(f: FormData, l: ControlLocation) -> Seq<char> {
    match l {
        ControlLocation::Static(k) => f.controls[k as int].0,
        ControlLocation::ArrayItem(a, i, c) => item_control_binding(f, a as int, i as int, c as int),
    }
}


/// What a control of `kind` makes of edit text `input`: the value or the
/// parse blocker; nothing for controls that take no text.
pub open spec fn text_value(kind: ControlKind, input: Seq<char>) -> Option<Result<JsonData, ParseBlocker>> {
    match kind {
        ControlKind::String => Some(Ok(JsonData::String(input))),
        ControlKind::Number => Some(number_value(json_number_reading(input), ParseBlocker::InvalidNumber)),
        ControlKind::Integer => Some(integer_value(input, DEFAULT_MAX_CANONICAL_INTEGER_DIGITS as nat)),
        _ => None,
    }
}

/// Edit text read as `v` leaves the data at `current` as it is: the same
/// string, or a number equal to it.
pub open spec fn same_edit_value(current: JsonData, v: JsonData) -> bool {
    match v {
        JsonData::String(t) => current == JsonData::String(t),
        JsonData::Number(t) => current matches JsonData::Number(c) && spec_numbers_equal(c, t),
        _ => false,
    }
}

/// The form after edit text `input` went into the control at `l`: the text
/// is kept with its parse blocker; new data, when there is any, replaces the
/// form data, discards host findings and moves the data revision; the state
/// revision moves when the data or the control's state changed.
pub open spec fn edited_form(
    f: FormData,
    l: ControlLocation,
    input: Seq<char>,
    blocker: Option<ParseBlocker>,
    data: Option<JsonData>,
) -> FormData {
    let c = control_at(f, l);
    let n = (c.0, Some(input), blocker, c.3);
    let g = with_control(f, l, n);
    FormData {
        form_data: match data {
            Some(d) => d,
            None => f.form_data,
        },
        batches: if data is Some {
            Seq::empty()
        } else {
            f.batches
        },
        data_revision: if data is Some {
            (f.data_revision + 1) as u64
        } else {
            f.data_revision
        },
        state_revision: if data is Some || n != c {
            (f.state_revision + 1) as u64
        } else {
            f.state_revision
        },
        ..g
    }
}

/// What typing `input` into the control bound to `binding` does: the error
/// (as [`edit_error_view`] gives it), or the form after it. Only text,
/// number and integer controls take text; the data there must be null (when
/// the control accepts null) or a value the control accepts, or missing
/// under an object. Text that parses to the value already there changes no
/// data.
pub open spec fn edit_text_outcome(
    f: FormData,
    definition: ControlDefinition,
    binding: Seq<char>,
    l: ControlLocation,
    input: Seq<char>,
) -> Result<FormData, (int, Seq<char>)> {
    if !is_pointer_text(binding) {
        Err((0, binding))
    } else {
        match text_value(definition.kind, input) {
            None => Err((2, binding)),
            Some(parsed) => {
                let current = resolve_pointer(f.form_data, binding);
                if current matches Some(c) && !(c is Null) && !accepts(definition, c) {
                    Err((2, binding))
                } else if current matches Some(c) && c is Null && !definition.accepts_null {
                    Err((2, binding))
                } else if current is None && !parent_is_object(f.form_data, binding) {
                    Err((1, binding))
                } else {
                    match parsed {
                        Err(blocker) => Ok(edited_form(f, l, input, Some(blocker), None)),
                        Ok(v) => if current matches Some(c) && same_edit_value(c, v) {
                            Ok(edited_form(f, l, input, None, None))
                        } else {
                            match write_pointer(f.form_data, binding, v) {
                                Some(d) => Ok(edited_form(f, l, input, None, Some(d))),
                                None => Err((1, binding)),
                            }
                        },
                    }
                }
            },
        }
    }
}

impl ControlState {
    /// Whether the control already holds edit text `input` with `blocker`.
    fn edit_matches(&self, input: &str, blocker: Option<ParseBlocker>) -> (r: bool)
        ensures
            r == (control_state_data(*self).1 == Some(input@) && control_state_data(*self).2 == blocker),
    {
        let same_text = match &self.edit_buffer {
            Some(t) => str_eq(t.as_str(), input),
            None => false,
        };
        let same_blocker = match (self.parse_blocker, blocker) {
            (None, None) => true,
            (Some(ParseBlocker::InvalidNumber), Some(ParseBlocker::InvalidNumber)) => true,
            (Some(ParseBlocker::InvalidInteger), Some(ParseBlocker::InvalidInteger)) => true,
            (Some(ParseBlocker::ResourceLimitExceeded), Some(ParseBlocker::ResourceLimitExceeded)) => true,
            _ => false,
        };
        same_text && same_blocker
    }

    /// Keeps `input` as the edit text, with `blocker`.
    fn set_edit(&mut self, input: String, blocker: Option<ParseBlocker>)
        ensures
            control_state_data(*final(self)) == (
                control_state_data(*old(self)).0,
                Some(input@),
                blocker,
                control_state_data(*old(self)).3,
            ),
            final(self).definition == old(self).definition,
    {
        self.edit_buffer = Some(input);
        self.parse_blocker = blocker;
    }
}

fn same_edit_value_exec(current: &JsonValue, v: &JsonValue) -> (r: bool)
    ensures
        r == same_edit_value(current@, v@),
{
    match (current, v) {
        (JsonValue::String(c), JsonValue::String(t)) => str_eq(c.as_str(), t.as_str()),
        (JsonValue::Number(c), JsonValue::Number(t)) => numbers_equal(c, t),
        (_, JsonValue::String(t)) => {
            assert(current@ != JsonData::String(t@));
            false
        },
        _ => false,
    }
}

impl Form {
    /// Takes edit text for the control bound to `binding` (see
    /// [`edit_text_outcome`]); an unknown binding is refused and changes
    /// nothing.
    #[verifier::rlimit(50)]
    pub fn edit_text(&mut self, binding: &str, input: &str) -> (r: Result<(), EditError>)
        requires
            old(self)@.data_revision < u64::MAX,
            old(self)@.state_revision < u64::MAX,
        ensures
            match control_location_of(old(self)@, binding@) {
                None => r matches Err(EditError::UnknownControl(s)) && s@ == binding@ && final(self)@ == old(self)@,
                Some(l) => match edit_text_outcome(old(self)@, old(self).definition_at(l), binding@, l, input@) {
                    Ok(g) => r is Ok && final(self)@ == g,
                    Err(e) => r matches Err(x) && edit_error_view(x) == e && final(self)@ == old(self)@,
                },
            },
    {
        proof {
            use_type_invariant(&*self);
        }
        let ghost f = self@;
        let l = match self.control_location(binding) {
            None => return Err(EditError::UnknownControl(binding.to_string())),
            Some(l) => l,
        };
        assert(locates(f, binding@, l)) by {
            assert(exists|x: ControlLocation| locates(f, binding@, x));
        }
        let definition = self.definition_ref(l);
        let pointer = match JsonPointer::parse(binding.to_string()) {
            Ok(p) => p,
            Err(_) => return Err(EditError::UnknownControl(binding.to_string())),
        };
        let parsed = match definition.kind {
            ControlKind::String => Ok(JsonValue::String(copy_string(input))),
            ControlKind::Number => parse_number(input),
            ControlKind::Integer => parse_integer(input),
            _ => return Err(EditError::OperationNotAllowed(binding.to_string())),
        };
        assert(text_value(definition.kind, input@) == Some(parse_outcome(parsed)));
        let current = resolve(&pointer, &self.form_data);
        match current {
            Some(c) => {
                match c {
                    JsonValue::Null => {
                        if !definition.accepts_null {
                            return Err(EditError::OperationNotAllowed(binding.to_string()));
                        }
                    },
                    _ => {
                        if !scalar_value_is_compatible(definition.kind, &definition.choices, c) {
                            return Err(EditError::OperationNotAllowed(binding.to_string()));
                        }
                    },
                }
            },
            None => {
                if !parent_is_object_in(&pointer, &self.form_data) {
                    return Err(EditError::UnresolvedControl(binding.to_string()));
                }
            },
        }
        let (blocker, replacement) = match parsed {
            Err(b) => (Some(b), None),
            Ok(v) => {
                let unchanged = match current {
                    Some(c) => same_edit_value_exec(c, &v),
                    None => false,
                };
                if unchanged {
                    (None, None)
                } else {
                    (None, Some(v))
                }
            },
        };
        assert(control_location_binding(f, l) == binding@);
        let same_edit = self.control_ref(l).edit_matches(input, blocker);
        let data_changed = replacement.is_some();
        if let Some(v) = replacement {
            let mut data = copy_value(&self.form_data);
            if !write_value(&pointer, &mut data, v) {
                return Err(EditError::UnresolvedControl(binding.to_string()));
            }
            self.form_data = data;
        }
        let ghost before_control = control_at(self@, l);
        assert(before_control == control_at(f, l));
        let text = copy_string(input);
        match l {
            ControlLocation::Static(k) => self.controls[k].set_edit(text, blocker),
            ControlLocation::ArrayItem(a, i, c) => {
                let ghost before = self.arrays@;
                self.arrays[a].items[i].controls[c].set_edit(text, blocker);
                proof {
                    lemma_item_control_updated(before, self.arrays@, a as int, i as int, c as int);
                }
            },
        }
        let ghost after_control = control_at(self@, l);
        let state_changed = !same_edit || data_changed;
        if data_changed {
            self.external_finding_batches = Vec::new();
            self.data_revision = self.data_revision + 1;
            assert(batch_datas(self.external_finding_batches@) =~= Seq::<BatchData>::empty());
        }
        if state_changed {
            self.state_revision = self.state_revision + 1;
        }
        proof {
            let n = (before_control.0, Some(input@), blocker, before_control.3);
            assert(after_control == n);
            assert(self@.controls =~= with_control(f, l, n).controls);
            assert(self@.arrays =~= with_control(f, l, n).arrays);
        }
        Ok(())
    }
}


/// Position of the first `x` in `s`, or -1.
pub open spec fn first_index<A>(s: Seq<A>, x: A) -> int
    decreases s.len(),
{
    if s.len() == 0 {
        -1
    } else if first_index(s.drop_last(), x) >= 0 {
        first_index(s.drop_last(), x)
    } else if s.last() == x {
        s.len() - 1
    } else {
        -1
    }
}

/// [`first_index`] finds the first occurrence, and -1 exactly when there is
/// none.
pub proof fn lemma_first_index<A>(s: Seq<A>, x: A)
    ensures
        -1 <= first_index(s, x) < s.len(),
        first_index(s, x) == -1 <==> forall|j: int| 0 <= j < s.len() ==> s[j] != x,
        first_index(s, x) >= 0 ==> s[first_index(s, x)] == x && forall|j: int|
            0 <= j < first_index(s, x) ==> s[j] != x,
    decreases s.len(),
{
    if s.len() > 0 {
        let p = s.drop_last();
        lemma_first_index(p, x);
        assert forall|j: int| 0 <= j < p.len() implies p[j] == s[j] by {}
        if first_index(p, x) < 0 && s.last() != x {
            assert forall|j: int| 0 <= j < s.len() implies s[j] != x by {
                if j < p.len() {
                    assert(p[j] == s[j]);
                }
            }
        }
    }
}

/// The bindings of the arrays, in order.
pub open spec fn array_bindings(arrays: Seq<ArrayData>) -> Seq<Seq<char>> {
    arrays.map_values(|a: ArrayData| a.0)
}

/// The position of the array bound to `binding`, or -1.
pub open spec fn find_array(f: FormData, binding: Seq<char>) -> int {
    first_index(array_bindings(f.arrays), binding)
}

/// The values the data holds for array `a`, when its binding leads to an
/// array.
pub open spec fn array_values(f: FormData, a: int) -> Option<Seq<JsonData>> {
    match resolve_pointer(f.form_data, f.arrays[a].0) {
        Some(JsonData::Array(vs)) => Some(vs),
        _ => None,
    }
}

/// An item can be added to array `a`: it exists, its data is an array, and
/// that array is below `maximum` items.
pub open spec fn can_append_at(f: FormData, maximum: Option<usize>, a: int) -> bool {
    &&& 0 <= a < f.arrays.len()
    &&& array_values(f, a) matches Some(vs)
    &&& (maximum matches Some(m) ==> vs.len() < m)
}

/// An item can be removed from array `a`: its data is a non-empty array
/// above `minimum` items.
pub open spec fn can_remove_at(f: FormData, minimum: Option<usize>, a: int) -> bool {
    &&& 0 <= a < f.arrays.len()
    &&& array_values(f, a) matches Some(vs)
    &&& vs.len() > 0
    &&& (minimum matches Some(m) ==> vs.len() > m)
}

/// Items of array `a` can be moved: its data is an array of two items or more.
pub open spec fn can_move_at(f: FormData, a: int) -> bool {
    &&& 0 <= a < f.arrays.len()
    &&& array_values(f, a) matches Some(vs)
    &&& vs.len() > 1
}

/// The form after an item with a fresh identity went into array `a` at
/// position `i`, with data `d`: both revisions move and host findings are
/// discarded.
pub open spec fn item_inserted_form(f: FormData, a: int, i: int, d: JsonData) -> FormData {
    let arr = f.arrays[a];
    FormData {
        form_data: d,
        arrays: f.arrays.update(a, (arr.0, arr.1, arr.2.insert(i, fresh_item(arr.1, f.next_item_identity)))),
        next_item_identity: (f.next_item_identity + 1) as u64,
        batches: Seq::empty(),
        data_revision: (f.data_revision + 1) as u64,
        state_revision: (f.state_revision + 1) as u64,
        ..f
    }
}

/// Where a new item goes in array `a`: at the end (of the data array and of
/// the items), or before the item with identity `before` (at its position
/// in both); -1 when there is no such item.
pub open spec fn insert_positions(f: FormData, a: int, vs: Seq<JsonData>, at_end: bool, before: u64) -> (int, int) {
    if at_end {
        (vs.len() as int, f.arrays[a].2.len() as int)
    } else {
        let i = first_index(identities(f.arrays[a].2), before);
        (i, i)
    }
}

/// What adding an item to the array bound to `binding` does: the new item's
/// identity and the form after it, or the error (as [`edit_error_view`]
/// gives it). The data array gets the template's creation seed where the
/// item goes.
pub open spec fn insert_outcome(
    f: FormData,
    definition: ArrayDefinition,
    binding: Seq<char>,
    at_end: bool,
    before: u64,
) -> Result<(u64, FormData), (int, Seq<char>)> {
    let a = find_array(f, binding);
    if !can_append_at(f, definition.max_items, a) {
        Err((2, binding))
    } else {
        let vs = array_values(f, a)->Some_0;
        let (p, i) = insert_positions(f, a, vs, at_end, before);
        if i < 0 {
            Err((0, binding))
        } else if p > vs.len() {
            Err((1, binding))
        } else {
            match write_pointer(f.form_data, f.arrays[a].0, JsonData::Array(vs.insert(p, definition.item_template.creation_seed@))) {
                Some(d) => Ok((f.next_item_identity, item_inserted_form(f, a, i, d))),
                None => Err((1, binding)),
            }
        }
    }
}

/// The form after item `i` of array `a` went, with data `d`.
pub open spec fn item_removed_form(f: FormData, a: int, i: int, d: JsonData) -> FormData {
    let arr = f.arrays[a];
    FormData {
        form_data: d,
        arrays: f.arrays.update(a, (arr.0, arr.1, arr.2.remove(i))),
        batches: Seq::empty(),
        data_revision: (f.data_revision + 1) as u64,
        state_revision: (f.state_revision + 1) as u64,
        ..f
    }
}

/// The form after items `i` and `j` of array `a` traded places, with data
/// `d`; the data revision moves (and host findings go) when `changed`.
pub open spec fn items_swapped_form(f: FormData, a: int, i: int, j: int, d: JsonData, changed: bool) -> FormData {
    let arr = f.arrays[a];
    let items = arr.2.update(i, arr.2[j]).update(j, arr.2[i]);
    FormData {
        form_data: d,
        arrays: f.arrays.update(a, (arr.0, arr.1, items)),
        batches: if changed {
            Seq::empty()
        } else {
            f.batches
        },
        data_revision: if changed {
            (f.data_revision + 1) as u64
        } else {
            f.data_revision
        },
        state_revision: (f.state_revision + 1) as u64,
        ..f
    }
}

/// What removing the item with identity `identity` from the array bound to
/// `binding` does: the identities of the items after it and the form after
/// it, or the error (as [`edit_error_view`] gives it). The data array loses
/// the value at the item's position.
pub open spec fn remove_outcome(
    f: FormData,
    definition: ArrayDefinition,
    binding: Seq<char>,
    identity: u64,
) -> Result<(Seq<u64>, FormData), (int, Seq<char>)> {
    let a = find_array(f, binding);
    if !can_remove_at(f, definition.min_items, a) {
        Err((2, binding))
    } else {
        let ids = identities(f.arrays[a].2);
        let i = first_index(ids, identity);
        let vs = array_values(f, a)->Some_0;
        if i < 0 {
            Err((0, binding))
        } else if i >= vs.len() {
            Err((1, binding))
        } else {
            match write_pointer(f.form_data, f.arrays[a].0, JsonData::Array(vs.remove(i))) {
                Some(d) => Ok((ids.skip(i + 1), item_removed_form(f, a, i, d))),
                None => Err((1, binding)),
            }
        }
    }
}

/// What moving the item with identity `identity` of the array bound to
/// `binding` one place up (towards the start) or down does: the identity of
/// the item it traded places with, the two positions, whether the data
/// changed, and the form after it; or the error (as [`edit_error_view`]
/// gives it). The data array's values at the two positions trade places
/// too; the data counts as changed when they differ.
pub open spec fn move_outcome(
    f: FormData,
    binding: Seq<char>,
    identity: u64,
    up: bool,
) -> Result<(u64, int, int, bool, FormData), (int, Seq<char>)> {
    let a = find_array(f, binding);
    if a < 0 {
        Err((0, binding))
    } else {
        let items = f.arrays[a].2;
        let i = first_index(identities(items), identity);
        let to = if up {
            i - 1
        } else {
            i + 1
        };
        if i < 0 {
            Err((0, binding))
        } else if to < 0 || to >= items.len() {
            Err((2, binding))
        } else {
            match array_values(f, a) {
                None => Err((1, binding)),
                Some(vs) => if i >= vs.len() || to >= vs.len() {
                    Err((1, binding))
                } else {
                    let changed = !spec_json_equal(vs[i], vs[to]);
                    match write_pointer(f.form_data, f.arrays[a].0, JsonData::Array(vs.update(i, vs[to]).update(to, vs[i]))) {
                        Some(d) => Ok((items[to].0, i, to, changed, items_swapped_form(f, a, i, to, d, changed))),
                        None => Err((1, binding)),
                    }
                },
            }
        }
    }
}

/// An item that was removed, and the identities of the items after it.
#[derive(Debug)]
pub struct RemovedArrayItem {
    pub identity: u64,
    pub shifted: Vec<u64>,
}

/// An item that was inserted, and the identities of the items after it.
#[derive(Debug)]
pub struct InsertedArrayItem {
    pub identity: u64,
    pub shifted: Vec<u64>,
}

/// An item that moved by one place, the item it traded places with, the
/// two positions, and whether the data changed.
#[derive(Debug)]
pub struct MovedArrayItem {
    pub identity: u64,
    pub displaced: u64,
    pub from: usize,
    pub to: usize,
    pub data_changed: bool,
}

fn copy_values(vs: &Vec<JsonValue>) -> (r: Vec<JsonValue>)
    ensures
        datas(r@) == datas(vs@),
{
    let mut out: Vec<JsonValue> = Vec::new();
    let mut i: usize = 0;
    while i < vs.len()
        invariant
            i <= vs.len(),
            datas(out@) == datas(vs@).take(i as int),
        decreases vs.len() - i,
    {
        let ghost prev = datas(out@);
        let c = copy_value(&vs[i]);
        out.push(c);
        assert(datas(vs@).take(i + 1) =~= datas(vs@).take(i as int).push(vs@[i as int]@));
        assert(datas(out@) =~= prev.push(c@));
        i += 1;
    }
    assert(datas(vs@).take(i as int) =~= datas(vs@));
    out
}

impl Form {
    /// The definition of array `a`.
    pub closed spec fn array_definition_at(&self, a: int) -> ArrayDefinition {
        self.arrays@[a].definition
    }

    fn array_position(&self, binding: &str) -> (r: Option<usize>)
        ensures
            match r {
                Some(a) => a < self@.arrays.len() && a as int == find_array(self@, binding@),
                None => find_array(self@, binding@) == -1,
            },
    {
        let ghost f = self@;
        let ghost s = array_bindings(f.arrays);
        proof {
            lemma_first_index(s, binding@);
        }
        let mut a: usize = 0;
        while a < self.arrays.len()
            invariant
                a <= self.arrays.len(),
                f == self@,
                s == array_bindings(f.arrays),
                forall|j: int| 0 <= j < a ==> s[j] != binding@,
            decreases self.arrays.len() - a,
        {
            assert(s[a as int] == self.arrays@[a as int].definition.binding@);
            if str_eq(self.arrays[a].definition.binding.as_str(), binding) {
                proof {
                    lemma_first_index(s, binding@);
                    let fi = first_index(s, binding@);
                    assert(s[a as int] == binding@);
                    if fi == -1 {
                        assert(s[a as int] != binding@);
                    }
                    if fi < a {
                        assert(s[fi] != binding@);
                    }
                    if fi > a {
                        assert(s[a as int] != binding@);
                    }
                }
                return Some(a);
            }
            a += 1;
        }
        None
    }

    fn values_at(&self, a: usize) -> (r: Option<Vec<JsonValue>>)
        requires
            a < self@.arrays.len(),
        ensures
            match array_values(self@, a as int) {
                Some(vs) => r matches Some(v) && datas(v@) == vs,
                None => r is None,
            },
    {
        match resolve(&self.arrays[a].definition.binding, &self.form_data) {
            Some(JsonValue::Array(items)) => {
                let out = copy_values(items);
                assert(datas(items@) =~= JsonValue::Array(*items)@->Array_0);
                Some(out)
            },
            _ => None,
        }
    }

    /// Whether an item can be added to the array bound to `binding` (see
    /// [`can_append_at`]).
    pub fn array_can_append(&self, binding: &str) -> (r: bool)
        ensures
            r == can_append_at(
                self@,
                self.array_definition_at(find_array(self@, binding@)).max_items,
                find_array(self@, binding@),
            ),
    {
        match self.array_position(binding) {
            None => false,
            Some(a) => match self.values_at(a) {
                None => false,
                Some(vs) => match self.arrays[a].definition.max_items {
                    Some(m) => vs.len() < m,
                    None => true,
                },
            },
        }
    }

    /// Whether an item can be removed from the array bound to `binding` (see
    /// [`can_remove_at`]).
    pub fn array_can_remove(&self, binding: &str) -> (r: bool)
        ensures
            r == can_remove_at(
                self@,
                self.array_definition_at(find_array(self@, binding@)).min_items,
                find_array(self@, binding@),
            ),
    {
        match self.array_position(binding) {
            None => false,
            Some(a) => match self.values_at(a) {
                None => false,
                Some(vs) => vs.len() > 0 && match self.arrays[a].definition.min_items {
                    Some(m) => vs.len() > m,
                    None => true,
                },
            },
        }
    }

    /// Whether items of the array bound to `binding` can be moved (see
    /// [`can_move_at`]).
    pub fn array_can_move(&self, binding: &str) -> (r: bool)
        ensures
            r == can_move_at(self@, find_array(self@, binding@)),
    {
        match self.array_position(binding) {
            None => false,
            Some(a) => match self.values_at(a) {
                None => false,
                Some(vs) => vs.len() > 1,
            },
        }
    }

    #[verifier::rlimit(50)]
    fn insert_item_at(&mut self, binding: &str, a: usize, p: usize, i: usize, vs: Vec<JsonValue>) -> (r: Result<u64, EditError>)
        requires
            a < old(self)@.arrays.len(),
            p <= vs.len(),
            i <= old(self)@.arrays[a as int].2.len(),
            can_append_at(old(self)@, old(self).array_definition_at(a as int).max_items, a as int),
            array_values(old(self)@, a as int) == Some(datas(vs@)),
            old(self)@.next_item_identity < u64::MAX,
            old(self)@.data_revision < u64::MAX,
            old(self)@.state_revision < u64::MAX,
        ensures
            match write_pointer(
                old(self)@.form_data,
                old(self)@.arrays[a as int].0,
                JsonData::Array(datas(vs@).insert(p as int, old(self).array_definition_at(a as int).item_template.creation_seed@)),
            ) {
                Some(d) => r == Ok::<u64, EditError>(old(self)@.next_item_identity) && final(self)@ == item_inserted_form(
                    old(self)@,
                    a as int,
                    i as int,
                    d,
                ),
                None => r matches Err(EditError::UnresolvedControl(s)) && s@ == binding@ && final(self)@ == old(self)@,
            },
    {
        proof {
            use_type_invariant(&*self);
        }
        let ghost f = self@;
        let mut vs = vs;
        let seed = copy_value(&self.arrays[a].definition.item_template.creation_seed);
        let ghost before = datas(vs@);
        vs.insert(p, seed);
        assert(datas(vs@) =~= before.insert(p as int, self.arrays@[a as int].definition.item_template.creation_seed@));
        let new_array = JsonValue::Array(vs);
        assert(new_array@->Array_0 =~= datas(vs@));
        let mut data = copy_value(&self.form_data);
        if !write_value(&self.arrays[a].definition.binding, &mut data, new_array) {
            return Err(EditError::UnresolvedControl(binding.to_string()));
        }
        self.form_data = data;
        let identity = self.next_item_identity;
        self.next_item_identity = self.next_item_identity + 1;
        let item = new_item(identity, &self.arrays[a].definition);
        let ghost old_items = self.arrays@[a as int].items@;
        self.arrays[a].items.insert(i, item);
        proof {
            let arr = f.arrays[a as int];
            assert(item_datas(self.arrays@[a as int].items@) =~= arr.2.insert(
                i as int,
                fresh_item(arr.1, f.next_item_identity),
            ));
            assert(array_datas(self.arrays@) =~= f.arrays.update(
                a as int,
                (arr.0, arr.1, arr.2.insert(i as int, fresh_item(arr.1, f.next_item_identity))),
            ));
        }
        self.external_finding_batches = Vec::new();
        assert(batch_datas(self.external_finding_batches@) =~= Seq::<BatchData>::empty());
        self.data_revision = self.data_revision + 1;
        self.state_revision = self.state_revision + 1;
        Ok(identity)
    }

    /// Adds an item at the end of the array bound to `binding` (see
    /// [`insert_outcome`]) and returns its identity.
    pub fn append_array_item(&mut self, binding: &str) -> (r: Result<u64, EditError>)
        requires
            old(self)@.next_item_identity < u64::MAX,
            old(self)@.data_revision < u64::MAX,
            old(self)@.state_revision < u64::MAX,
        ensures
            match insert_outcome(old(self)@, old(self).array_definition_at(find_array(old(self)@, binding@)), binding@, true, 0) {
                Ok((id, g)) => r == Ok::<u64, EditError>(id) && final(self)@ == g,
                Err(e) => r matches Err(x) && edit_error_view(x) == e && final(self)@ == old(self)@,
            },
    {
        if !self.array_can_append(binding) {
            return Err(EditError::OperationNotAllowed(binding.to_string()));
        }
        let a = match self.array_position(binding) {
            Some(a) => a,
            None => return Err(EditError::UnknownControl(binding.to_string())),
        };
        let vs = match self.values_at(a) {
            Some(vs) => vs,
            None => return Err(EditError::UnresolvedControl(binding.to_string())),
        };
        let p = vs.len();
        let i = self.arrays[a].items.len();
        self.insert_item_at(binding, a, p, i, vs)
    }

    fn item_position(&self, a: usize, identity: u64) -> (r: Option<usize>)
        requires
            a < self@.arrays.len(),
        ensures
            match r {
                Some(i) => i < self@.arrays[a as int].2.len() && i as int == first_index(
                    identities(self@.arrays[a as int].2),
                    identity,
                ),
                None => first_index(identities(self@.arrays[a as int].2), identity) == -1,
            },
    {
        let ghost s = identities(self@.arrays[a as int].2);
        let items = &self.arrays[a].items;
        assert(self@.arrays[a as int].2 == item_datas(items@));
        let mut i: usize = 0;
        while i < items.len()
            invariant
                i <= items.len(),
                a < self@.arrays.len(),
                self@.arrays[a as int].2 == item_datas(items@),
                s == identities(self@.arrays[a as int].2),
                s == identities(item_datas(items@)),
                forall|j: int| 0 <= j < i ==> s[j] != identity,
            decreases items.len() - i,
        {
            assert(s[i as int] == items@[i as int].identity);
            if items[i].identity == identity {
                proof {
                    lemma_first_index(s, identity);
                    let fi = first_index(s, identity);
                    if fi == -1 {
                        assert(s[i as int] != identity);
                    }
                    if fi < i {
                        assert(s[fi] != identity);
                    }
                    if fi > i {
                        assert(s[i as int] != identity);
                    }
                }
                return Some(i);
            }
            i += 1;
        }
        proof {
            lemma_first_index(s, identity);
        }
        None
    }

    /// Adds an item before the item with identity `before` in the array bound
    /// to `binding` (see [`insert_outcome`]); returns its identity and the
    /// identities of the items after it.
    pub fn insert_array_item_before(&mut self, binding: &str, before: u64) -> (r: Result<InsertedArrayItem, EditError>)
        requires
            old(self)@.next_item_identity < u64::MAX,
            old(self)@.data_revision < u64::MAX,
            old(self)@.state_revision < u64::MAX,
        ensures
            match insert_outcome(old(self)@, old(self).array_definition_at(find_array(old(self)@, binding@)), binding@, false, before) {
                Ok((id, g)) => r matches Ok(x) && x.identity == id && final(self)@ == g && x.shifted@ == identities(
                    g.arrays[find_array(old(self)@, binding@)].2,
                ).skip(first_index(identities(old(self)@.arrays[find_array(old(self)@, binding@)].2), before) + 1),
                Err(e) => r matches Err(x) && edit_error_view(x) == e && final(self)@ == old(self)@,
            },
    {
        if !self.array_can_append(binding) {
            return Err(EditError::OperationNotAllowed(binding.to_string()));
        }
        let a = match self.array_position(binding) {
            Some(a) => a,
            None => return Err(EditError::UnknownControl(binding.to_string())),
        };
        let i = match self.item_position(a, before) {
            Some(i) => i,
            None => return Err(EditError::UnknownControl(binding.to_string())),
        };
        let vs = match self.values_at(a) {
            Some(vs) => vs,
            None => return Err(EditError::UnresolvedControl(binding.to_string())),
        };
        if i > vs.len() {
            return Err(EditError::UnresolvedControl(binding.to_string()));
        }
        let n_items = self.arrays[a].items.len();
        assert(i < n_items);
        let identity = self.insert_item_at(binding, a, i, i, vs)?;
        let shifted = self.identities_from(a, i + 1);
        Ok(InsertedArrayItem { identity, shifted })
    }

    fn identities_from(&self, a: usize, start: usize) -> (r: Vec<u64>)
        requires
            a < self@.arrays.len(),
            start <= self@.arrays[a as int].2.len(),
        ensures
            r@ == identities(self@.arrays[a as int].2).skip(start as int),
    {
        let items = &self.arrays[a].items;
        assert(self@.arrays[a as int].2 == item_datas(items@));
        let ghost s = identities(item_datas(items@));
        let mut out: Vec<u64> = Vec::new();
        let mut i: usize = start;
        while i < items.len()
            invariant
                start <= i <= items.len(),
                s == identities(item_datas(items@)),
                out@ == s.subrange(start as int, i as int),
            decreases items.len() - i,
        {
            out.push(items[i].identity);
            assert(out@ =~= s.subrange(start as int, i + 1));
            i += 1;
        }
        assert(s.subrange(start as int, i as int) =~= s.skip(start as int));
        out
    }
}


impl Form {
    /// Removes the item with identity `identity` from the array bound to
    /// `binding` (see [`remove_outcome`]).
    #[verifier::rlimit(50)]
    pub fn remove_array_item(&mut self, binding: &str, identity: u64) -> (r: Result<RemovedArrayItem, EditError>)
        requires
            old(self)@.data_revision < u64::MAX,
            old(self)@.state_revision < u64::MAX,
        ensures
            match remove_outcome(old(self)@, old(self).array_definition_at(find_array(old(self)@, binding@)), binding@, identity) {
                Ok((shifted, g)) => r matches Ok(x) && x.identity == identity && x.shifted@ == shifted && final(self)@ == g,
                Err(e) => r matches Err(x) && edit_error_view(x) == e && final(self)@ == old(self)@,
            },
    {
        proof {
            use_type_invariant(&*self);
        }
        let ghost f = self@;
        if !self.array_can_remove(binding) {
            return Err(EditError::OperationNotAllowed(binding.to_string()));
        }
        let a = match self.array_position(binding) {
            Some(a) => a,
            None => return Err(EditError::UnknownControl(binding.to_string())),
        };
        let i = match self.item_position(a, identity) {
            Some(i) => i,
            None => return Err(EditError::UnknownControl(binding.to_string())),
        };
        let n_items = self.arrays[a].items.len();
        assert(i < n_items);
        let shifted = self.identities_from(a, i + 1);
        let mut vs = match self.values_at(a) {
            Some(vs) => vs,
            None => return Err(EditError::UnresolvedControl(binding.to_string())),
        };
        if i >= vs.len() {
            return Err(EditError::UnresolvedControl(binding.to_string()));
        }
        let ghost before = datas(vs@);
        vs.remove(i);
        assert(datas(vs@) =~= before.remove(i as int));
        let new_array = JsonValue::Array(vs);
        assert(new_array@->Array_0 =~= datas(vs@));
        let mut data = copy_value(&self.form_data);
        if !write_value(&self.arrays[a].definition.binding, &mut data, new_array) {
            return Err(EditError::UnresolvedControl(binding.to_string()));
        }
        self.form_data = data;
        self.arrays[a].items.remove(i);
        proof {
            let arr = f.arrays[a as int];
            assert(item_datas(self.arrays@[a as int].items@) =~= arr.2.remove(i as int));
            assert(array_datas(self.arrays@) =~= f.arrays.update(a as int, (arr.0, arr.1, arr.2.remove(i as int))));
        }
        self.external_finding_batches = Vec::new();
        assert(batch_datas(self.external_finding_batches@) =~= Seq::<BatchData>::empty());
        self.data_revision = self.data_revision + 1;
        self.state_revision = self.state_revision + 1;
        Ok(RemovedArrayItem { identity, shifted })
    }

    /// Moves the item with identity `identity` of the array bound to
    /// `binding` one place towards the start (see [`move_outcome`]).
    pub fn move_array_item_up(&mut self, binding: &str, identity: u64) -> (r: Result<MovedArrayItem, EditError>)
        requires
            old(self)@.data_revision < u64::MAX,
            old(self)@.state_revision < u64::MAX,
        ensures
            match move_outcome(old(self)@, binding@, identity, true) {
                Ok((displaced, from, to, changed, g)) => r matches Ok(x) && x.identity == identity && x.displaced
                    == displaced && x.from == from && x.to == to && x.data_changed == changed && final(self)@ == g,
                Err(e) => r matches Err(x) && edit_error_view(x) == e && final(self)@ == old(self)@,
            },
    {
        self.move_array_item(binding, identity, true)
    }

    /// Moves the item with identity `identity` of the array bound to
    /// `binding` one place towards the end (see [`move_outcome`]).
    pub fn move_array_item_down(&mut self, binding: &str, identity: u64) -> (r: Result<MovedArrayItem, EditError>)
        requires
            old(self)@.data_revision < u64::MAX,
            old(self)@.state_revision < u64::MAX,
        ensures
            match move_outcome(old(self)@, binding@, identity, false) {
                Ok((displaced, from, to, changed, g)) => r matches Ok(x) && x.identity == identity && x.displaced
                    == displaced && x.from == from && x.to == to && x.data_changed == changed && final(self)@ == g,
                Err(e) => r matches Err(x) && edit_error_view(x) == e && final(self)@ == old(self)@,
            },
    {
        self.move_array_item(binding, identity, false)
    }

    #[verifier::rlimit(50)]
    fn move_array_item(&mut self, binding: &str, identity: u64, up: bool) -> (r: Result<MovedArrayItem, EditError>)
        requires
            old(self)@.data_revision < u64::MAX,
            old(self)@.state_revision < u64::MAX,
        ensures
            match move_outcome(old(self)@, binding@, identity, up) {
                Ok((displaced, from, to, changed, g)) => r matches Ok(x) && x.identity == identity && x.displaced
                    == displaced && x.from == from && x.to == to && x.data_changed == changed && final(self)@ == g,
                Err(e) => r matches Err(x) && edit_error_view(x) == e && final(self)@ == old(self)@,
            },
    {
        proof {
            use_type_invariant(&*self);
        }
        let ghost f = self@;
        let a = match self.array_position(binding) {
            Some(a) => a,
            None => return Err(EditError::UnknownControl(binding.to_string())),
        };
        let i = match self.item_position(a, identity) {
            Some(i) => i,
            None => return Err(EditError::UnknownControl(binding.to_string())),
        };
        let n = self.arrays[a].items.len();
        assert(f.arrays[a as int].2.len() == n);
        let to = if up {
            if i == 0 {
                return Err(EditError::OperationNotAllowed(binding.to_string()));
            }
            i - 1
        } else {
            if i + 1 >= n {
                return Err(EditError::OperationNotAllowed(binding.to_string()));
            }
            i + 1
        };
        let mut vs = match self.values_at(a) {
            Some(vs) => vs,
            None => return Err(EditError::UnresolvedControl(binding.to_string())),
        };
        if i >= vs.len() || to >= vs.len() {
            return Err(EditError::UnresolvedControl(binding.to_string()));
        }
        let data_changed = !json_values_equal(&vs[i], &vs[to]);
        let lo = if i < to { i } else { to };
        let hi = if i < to { to } else { i };
        let ghost before = datas(vs@);
        let moved = vs.remove(hi);
        vs.insert(lo, moved);
        assert(datas(vs@) =~= before.update(i as int, before[to as int]).update(to as int, before[i as int]));
        let new_array = JsonValue::Array(vs);
        assert(new_array@->Array_0 =~= datas(vs@));
        let mut data = copy_value(&self.form_data);
        if !write_value(&self.arrays[a].definition.binding, &mut data, new_array) {
            return Err(EditError::UnresolvedControl(binding.to_string()));
        }
        self.form_data = data;
        let displaced = self.arrays[a].items[to].identity;
        assert(displaced == f.arrays[a as int].2[to as int].0);
        let ghost old_items = item_datas(self.arrays@[a as int].items@);
        let item = self.arrays[a].items.remove(hi);
        self.arrays[a].items.insert(lo, item);
        proof {
            let arr = f.arrays[a as int];
            let swapped = arr.2.update(i as int, arr.2[to as int]).update(to as int, arr.2[i as int]);
            assert(item_datas(self.arrays@[a as int].items@) =~= swapped);
            assert(array_datas(self.arrays@) =~= f.arrays.update(a as int, (arr.0, arr.1, swapped)));
        }
        if data_changed {
            self.external_finding_batches = Vec::new();
            assert(batch_datas(self.external_finding_batches@) =~= Seq::<BatchData>::empty());
            self.data_revision = self.data_revision + 1;
        }
        self.state_revision = self.state_revision + 1;
        Ok(MovedArrayItem { identity, displaced, from: i, to, data_changed })
    }
}


/// A control's state with its edit state dropped when its absolute binding
/// `full` lies at or under `b`.
pub open spec fn clear_under(c: ControlStateData, full: Seq<char>, b: Seq<char>) -> ControlStateData {
    if pointer_starts_with(full, b) {
        edit_cleared(c)
    } else {
        c
    }
}

/// Control states whose bindings are relative to `prefix`, cleared at or
/// under `b`.
pub open spec fn controls_cleared_under(cs: Seq<ControlStateData>, prefix: Seq<char>, b: Seq<char>) -> Seq<ControlStateData> {
    cs.map_values(|c: ControlStateData| clear_under(c, prefix + c.0, b))
}

/// The items of the array bound to `array`, their controls cleared at or
/// under `b`.
pub open spec fn items_cleared_under(items: Seq<ItemData>, array: Seq<char>, b: Seq<char>) -> Seq<ItemData> {
    Seq::new(
        items.len(),
        |i: int| (items[i].0, controls_cleared_under(items[i].1, append_index_spec(array, i as nat), b)),
    )
}

/// How many fresh items the arrays at or under `b` get for `data`.
pub open spec fn reconciled_total(arrays: Seq<ArrayData>, data: JsonData, b: Seq<char>) -> nat
    decreases arrays.len(),
{
    if arrays.len() == 0 {
        0
    } else {
        reconciled_total(arrays.drop_last(), data, b) + if pointer_starts_with(arrays.last().0, b) {
            item_count(data, arrays.last().0)
        } else {
            0
        }
    }
}

/// The arrays with the ones bound at or under `b` given fresh items for
/// `data`, identities counted from `start`, array after array.
pub open spec fn reconciled_arrays(arrays: Seq<ArrayData>, data: JsonData, start: nat, b: Seq<char>) -> Seq<ArrayData>
    decreases arrays.len(),
{
    if arrays.len() == 0 {
        Seq::empty()
    } else {
        let a = arrays.last();
        reconciled_arrays(arrays.drop_last(), data, start, b).push(
            if pointer_starts_with(a.0, b) {
                (a.0, a.1, fresh_items(a.1, start + reconciled_total(arrays.drop_last(), data, b), item_count(data, a.0)))
            } else {
                a
            },
        )
    }
}

/// The form with the arrays bound at or under `b` rebuilt from its data
/// (fresh items, identities counted on), and, when `clear`, the edit state
/// of controls at or under `b` dropped.
pub open spec fn rebuilt_under(f: FormData, b: Seq<char>, clear: bool) -> FormData {
    let arrays = reconciled_arrays(f.arrays, f.form_data, f.next_item_identity as nat, b);
    FormData {
        controls: if clear {
            f.controls.map_values(|c: ControlStateData| clear_under(c, c.0, b))
        } else {
            f.controls
        },
        arrays: if clear {
            arrays.map_values(|a: ArrayData| (a.0, a.1, items_cleared_under(a.2, a.0, b)))
        } else {
            arrays
        },
        next_item_identity: (f.next_item_identity + reconciled_total(f.arrays, f.form_data, b)) as u64,
        ..f
    }
}

/// The form with data `d`, host findings discarded and both revisions moved.
pub open spec fn data_replaced(f: FormData, d: JsonData) -> FormData {
    FormData {
        form_data: d,
        batches: Seq::empty(),
        data_revision: (f.data_revision + 1) as u64,
        state_revision: (f.state_revision + 1) as u64,
        ..f
    }
}

/// The form after the value at `b` was removed, leaving data `d`: host
/// findings go, both revisions move, arrays at or under `b` are rebuilt
/// from `d`, and controls at or under `b` lose their edit state.
pub open spec fn value_removed_form(f: FormData, b: Seq<char>, d: JsonData) -> FormData {
    rebuilt_under(data_replaced(f, d), b, true)
}

proof fn lemma_reconciled_total_prefix(arrays: Seq<ArrayData>, data: JsonData, b: Seq<char>, i: int)
    requires
        0 <= i <= arrays.len(),
    ensures
        reconciled_total(arrays.take(i), data, b) <= reconciled_total(arrays, data, b),
    decreases arrays.len() - i,
{
    if i < arrays.len() {
        lemma_reconciled_total_prefix(arrays, data, b, i + 1);
        assert(arrays.take(i + 1).drop_last() =~= arrays.take(i));
    } else {
        assert(arrays.take(i) =~= arrays);
    }
}

fn starts_with_pointer(p: &str, prefix: &str) -> (r: bool)
    ensures
        r == pointer_starts_with(p@, prefix@),
{
    let pc = chars_of(p);
    let qc = chars_of(prefix);
    if qc.len() > pc.len() {
        return false;
    }
    let mut i: usize = 0;
    while i < qc.len()
        invariant
            i <= qc.len(),
            qc.len() <= pc.len(),
            pc@ == p@,
            qc@ == prefix@,
            forall|j: int| 0 <= j < i ==> pc@[j] == qc@[j],
        decreases qc.len() - i,
    {
        if pc[i] != qc[i] {
            assert(p@.take(prefix@.len() as int)[i as int] != prefix@[i as int]);
            return false;
        }
        i += 1;
    }
    assert(p@.take(prefix@.len() as int) =~= prefix@);
    qc.len() == pc.len() || pc[qc.len()] == '/'
}

fn clear_items_under(items: &mut Vec<ArrayItemState>, array: &str, b: &str)
    ensures
        item_datas(final(items)@) == items_cleared_under(item_datas(old(items)@), array@, b@),
        final(items).len() == old(items).len(),
{
    let ghost d = item_datas(items@);
    let mut i: usize = 0;
    while i < items.len()
        invariant
            i <= items.len(),
            items.len() == d.len(),
            forall|j: int| 0 <= j < i ==> #[trigger] item_data(items@[j]) == items_cleared_under(d, array@, b@)[j],
            forall|j: int| i <= j < items.len() ==> #[trigger] item_data(items@[j]) == d[j],
        decreases items.len() - i,
    {
        let prefix = append_index(array, i);
        let mut c: usize = 0;
        let ghost item = d[i as int];
        assert(item_data(items@[i as int]) == d[i as int]);
        assert(control_datas(items@[i as int].controls@) == item.1);
        assert forall|j: int| 0 <= j < item.1.len() implies #[trigger] control_state_data(items@[i as int].controls@[j])
            == item.1[j] by {
            assert(control_datas(items@[i as int].controls@)[j] == item.1[j]);
        }
        while c < items[i].controls.len()
            invariant
                i < items.len(),
                items.len() == d.len(),
                c <= items@[i as int].controls.len(),
                prefix@ == append_index_spec(array@, i as nat),
                item == d[i as int],
                items@[i as int].identity == item.0,
                items@[i as int].controls.len() == item.1.len(),
                forall|j: int| 0 <= j < c ==> #[trigger] control_state_data(items@[i as int].controls@[j]) == clear_under(
                    item.1[j],
                    prefix@ + item.1[j].0,
                    b@,
                ),
                forall|j: int| c <= j < item.1.len() ==> #[trigger] control_state_data(items@[i as int].controls@[j]) == item.1[j],
                forall|j: int| 0 <= j < i ==> #[trigger] item_data(items@[j]) == items_cleared_under(d, array@, b@)[j],
                forall|j: int| i < j < items.len() ==> #[trigger] item_data(items@[j]) == d[j],
            decreases item.1.len() - c,
        {
            let mut full = copy_string(prefix.as_str());
            push_text(&mut full, items[i].controls[c].definition.binding.as_str());
            assert(control_state_data(items@[i as int].controls@[c as int]) == item.1[c as int]);
            if starts_with_pointer(full.as_str(), b) {
                items[i].controls[c].clear_edit();
            }
            c += 1;
        }
        proof {
            assert(control_datas(items@[i as int].controls@) =~= controls_cleared_under(
                item.1,
                append_index_spec(array@, i as nat),
                b@,
            ));
            assert(item_data(items@[i as int]) == items_cleared_under(d, array@, b@)[i as int]);
        }
        i += 1;
    }
    assert(item_datas(items@) =~= items_cleared_under(d, array@, b@));
}

impl Form {
    /// Removes the value bound to `binding` from its parent object (see
    /// [`value_removed_form`]). A binding that is not a JSON Pointer is
    /// refused as unknown; one whose parent is not an object holding the
    /// member is refused as unresolved.
    #[verifier::rlimit(50)]
    pub fn remove_value(&mut self, binding: &str) -> (r: Result<(), EditError>)
        requires
            old(self)@.data_revision < u64::MAX,
            old(self)@.state_revision < u64::MAX,
            remove_pointer(old(self)@.form_data, binding@) matches Some(d) ==> old(self)@.next_item_identity
                + reconciled_total(old(self)@.arrays, d, binding@) <= u64::MAX,
        ensures
            !is_pointer_text(binding@) ==> (r matches Err(EditError::UnknownControl(s)) && s@ == binding@
                && final(self)@ == old(self)@),
            is_pointer_text(binding@) ==> match remove_pointer(old(self)@.form_data, binding@) {
                None => r matches Err(EditError::UnresolvedControl(s)) && s@ == binding@ && final(self)@ == old(self)@,
                Some(d) => r is Ok && final(self)@ == value_removed_form(old(self)@, binding@, d),
            },
    {
        proof {
            use_type_invariant(&*self);
        }
        let ghost f = self@;
        let pointer = match JsonPointer::parse(binding.to_string()) {
            Ok(p) => p,
            Err(_) => return Err(EditError::UnknownControl(binding.to_string())),
        };
        let mut data = copy_value(&self.form_data);
        if !remove_member(&pointer, &mut data) {
            return Err(EditError::UnresolvedControl(binding.to_string()));
        }
        let ghost d = data@;
        self.form_data = data;
        self.external_finding_batches = Vec::new();
        assert(batch_datas(self.external_finding_batches@) =~= Seq::<BatchData>::empty());
        self.data_revision = self.data_revision + 1;
        self.state_revision = self.state_revision + 1;
        self.rebuild_under(binding, true);
        Ok(())
    }
}


impl Form {
    /// Rebuilds the arrays bound at or under `binding` from the data and,
    /// when `clear`, drops the edit state of controls at or under it (see
    /// [`rebuilt_under`]).
    #[verifier::rlimit(50)]
    fn rebuild_under(&mut self, binding: &str, clear: bool)
        requires
            old(self)@.next_item_identity + reconciled_total(old(self)@.arrays, old(self)@.form_data, binding@)
                <= u64::MAX,
        ensures
            final(self)@ == rebuilt_under(old(self)@, binding@, clear),
    {
        proof {
            use_type_invariant(&*self);
        }
        let ghost f = self@;
        let ghost d = f.form_data;
        let ghost start = f.next_item_identity as nat;
        let ghost g = *self;
        let mut next = self.next_item_identity;
        let mut k: usize = 0;
        while k < self.arrays.len()
            invariant
                k <= self.arrays.len(),
                self.arrays.len() == f.arrays.len(),
                self.arrays.len() == self.baseline_array_identities.len(),
                sources_sorted(batch_datas(self.external_finding_batches@)),
                self.controls == g.controls,
                self.form_data == g.form_data,
                self.form_data@ == d,
                self.external_finding_batches == g.external_finding_batches,
                self.baseline_array_identities == g.baseline_array_identities,
                self.definition_fingerprint == g.definition_fingerprint,
                self.baseline == g.baseline,
                self.submission_attempted == g.submission_attempted,
                self.data_revision == g.data_revision,
                self.state_revision == g.state_revision,
                self.next_item_identity == g.next_item_identity,
                g.next_item_identity == f.next_item_identity,
                start == f.next_item_identity as nat,
                start + reconciled_total(f.arrays, d, binding@) <= u64::MAX,
                next == start + reconciled_total(f.arrays.take(k as int), d, binding@),
                forall|j: int| 0 <= j < k ==> #[trigger] array_data(self.arrays@[j]) == reconciled_arrays(
                    f.arrays.take(k as int),
                    d,
                    start,
                    binding@,
                )[j],
                forall|j: int| k <= j < self.arrays.len() ==> #[trigger] array_data(self.arrays@[j]) == f.arrays[j],
                reconciled_arrays(f.arrays.take(k as int), d, start, binding@).len() == k,
            decreases self.arrays.len() - k,
        {
            proof {
                assert(f.arrays.take(k + 1).drop_last() =~= f.arrays.take(k as int));
                assert(f.arrays.take(k + 1).last() == f.arrays[k as int]);
                lemma_reconciled_total_prefix(f.arrays, d, binding@, k + 1);
            }
            assert(array_data(self.arrays@[k as int]) == f.arrays[k as int]);
            if starts_with_pointer(self.arrays[k].definition.binding.as_str(), binding) {
                let count = count_items(&self.form_data, &self.arrays[k].definition.binding);
                let items = fresh_array_items(&self.arrays[k].definition, count, &mut next);
                self.arrays[k].items = items;
            }
            k += 1;
        }
        proof {
            assert(f.arrays.take(k as int) =~= f.arrays);
        }
        self.next_item_identity = next;
        let ghost mid = self@;
        assert(mid.arrays =~= reconciled_arrays(f.arrays, d, start, binding@));
        if clear {
        let ghost h = *self;
        let mut c: usize = 0;
        while c < self.controls.len()
            invariant
                c <= self.controls.len(),
                self.controls.len() == f.controls.len(),
                h.controls@.len() == f.controls.len(),
                control_datas(h.controls@) == f.controls,
                self.arrays == h.arrays,
                self.next_item_identity == h.next_item_identity,
                self.baseline_array_identities == h.baseline_array_identities,
                self.definition_fingerprint == h.definition_fingerprint,
                self.baseline == h.baseline,
                self.form_data == h.form_data,
                self.external_finding_batches == h.external_finding_batches,
                self.submission_attempted == h.submission_attempted,
                self.data_revision == h.data_revision,
                self.state_revision == h.state_revision,
                self.arrays.len() == self.baseline_array_identities.len(),
                sources_sorted(batch_datas(self.external_finding_batches@)),
                forall|j: int| 0 <= j < c ==> #[trigger] control_state_data(self.controls@[j]) == clear_under(
                    f.controls[j],
                    f.controls[j].0,
                    binding@,
                ),
                forall|j: int| c <= j < self.controls.len() ==> #[trigger] control_state_data(self.controls@[j]) == f.controls[j],
            decreases self.controls.len() - c,
        {
            assert(control_state_data(self.controls@[c as int]) == f.controls[c as int]);
            if starts_with_pointer(self.controls[c].definition.binding.as_str(), binding) {
                self.controls[c].clear_edit();
            }
            c += 1;
        }
        assert(control_datas(self.controls@) =~= f.controls.map_values(|x: ControlStateData| clear_under(x, x.0, binding@)));
        let ghost h2 = *self;
        let mut a: usize = 0;
        while a < self.arrays.len()
            invariant
                a <= self.arrays.len(),
                self.arrays.len() == mid.arrays.len(),
                array_datas(h2.arrays@) == mid.arrays,
                self.controls == h2.controls,
                self.next_item_identity == h2.next_item_identity,
                self.baseline_array_identities == h2.baseline_array_identities,
                self.definition_fingerprint == h2.definition_fingerprint,
                self.baseline == h2.baseline,
                self.form_data == h2.form_data,
                self.external_finding_batches == h2.external_finding_batches,
                self.submission_attempted == h2.submission_attempted,
                self.data_revision == h2.data_revision,
                self.state_revision == h2.state_revision,
                self.arrays.len() == self.baseline_array_identities.len(),
                sources_sorted(batch_datas(self.external_finding_batches@)),
                forall|j: int| 0 <= j < a ==> #[trigger] array_data(self.arrays@[j]) == (
                    mid.arrays[j].0,
                    mid.arrays[j].1,
                    items_cleared_under(mid.arrays[j].2, mid.arrays[j].0, binding@),
                ),
                forall|j: int| a <= j < self.arrays.len() ==> #[trigger] array_data(self.arrays@[j]) == mid.arrays[j],
            decreases self.arrays.len() - a,
        {
            assert(array_data(self.arrays@[a as int]) == mid.arrays[a as int]);
            let ab = copy_string(self.arrays[a].definition.binding.as_str());
            let ghost prev = self.arrays@;
            clear_items_under(&mut self.arrays[a].items, ab.as_str(), binding);
            proof {
                assert(self.arrays@[a as int].definition == prev[a as int].definition);
                assert(array_data(self.arrays@[a as int]) == (
                    mid.arrays[a as int].0,
                    mid.arrays[a as int].1,
                    items_cleared_under(mid.arrays[a as int].2, mid.arrays[a as int].0, binding@),
                ));
            }
            a += 1;
        }
        assert(array_datas(self.arrays@) =~= mid.arrays.map_values(
            |x: ArrayData| (x.0, x.1, items_cleared_under(x.2, x.0, binding@)),
        ));
        }
    }
}


/// What materializing `seed` (an object or an array) at the missing place
/// `binding` does: the form after it (data written, arrays under `binding`
/// rebuilt, host findings discarded, both revisions moved), or the error (as
/// [`edit_error_view`] gives it).
pub open spec fn materialize_outcome(f: FormData, binding: Seq<char>, seed: JsonData) -> Result<FormData, (int, Seq<char>)> {
    if !is_pointer_text(binding) {
        Err((0, binding))
    } else if resolve_pointer(f.form_data, binding) is Some || !(seed is Object || seed is Array) {
        Err((2, binding))
    } else {
        match write_pointer(f.form_data, binding, seed) {
            Some(d) => Ok(rebuilt_under(data_replaced(f, d), binding, false)),
            None => Err((1, binding)),
        }
    }
}

/// What replacing the value at `binding` by `value` does, where `value` is
/// an object replacing a non-object or an array replacing a non-array: the
/// form after it (data written, arrays under `binding` rebuilt, edit state
/// under it dropped, host findings discarded, both revisions moved), or the
/// error (as [`edit_error_view`] gives it).
pub open spec fn replace_outcome(f: FormData, binding: Seq<char>, value: JsonData) -> Result<FormData, (int, Seq<char>)> {
    if !is_pointer_text(binding) {
        Err((0, binding))
    } else if !(value is Object || value is Array) || !(resolve_pointer(f.form_data, binding) matches Some(c) && ((
    value is Object && !(c is Object)) || (value is Array && !(c is Array)))) {
        Err((2, binding))
    } else {
        match write_pointer(f.form_data, binding, value) {
            Some(d) => Ok(rebuilt_under(data_replaced(f, d), binding, true)),
            None => Err((1, binding)),
        }
    }
}

impl Form {
    /// Writes `seed` at the missing place `binding` (see
    /// [`materialize_outcome`]).
    pub fn materialize_structure(&mut self, binding: &str, seed: &JsonValue) -> (r: Result<(), EditError>)
        requires
            old(self)@.data_revision < u64::MAX,
            old(self)@.state_revision < u64::MAX,
            write_pointer(old(self)@.form_data, binding@, seed@) matches Some(d) ==> old(self)@.next_item_identity
                + reconciled_total(old(self)@.arrays, d, binding@) <= u64::MAX,
        ensures
            match materialize_outcome(old(self)@, binding@, seed@) {
                Ok(g) => r is Ok && final(self)@ == g,
                Err(e) => r matches Err(x) && edit_error_view(x) == e && final(self)@ == old(self)@,
            },
    {
        proof {
            use_type_invariant(&*self);
        }
        let pointer = match JsonPointer::parse(binding.to_string()) {
            Ok(p) => p,
            Err(_) => return Err(EditError::UnknownControl(binding.to_string())),
        };
        let structured = match seed {
            JsonValue::Object(_) => true,
            JsonValue::Array(_) => true,
            _ => false,
        };
        if resolve(&pointer, &self.form_data).is_some() || !structured {
            return Err(EditError::OperationNotAllowed(binding.to_string()));
        }
        let mut data = copy_value(&self.form_data);
        if !write_value(&pointer, &mut data, copy_value(seed)) {
            return Err(EditError::UnresolvedControl(binding.to_string()));
        }
        self.form_data = data;
        self.external_finding_batches = Vec::new();
        assert(batch_datas(self.external_finding_batches@) =~= Seq::<BatchData>::empty());
        self.data_revision = self.data_revision + 1;
        self.state_revision = self.state_revision + 1;
        self.rebuild_under(binding, false);
        Ok(())
    }

    /// Replaces the value at `binding` by an object or array of the other
    /// shape (see [`replace_outcome`]).
    pub fn replace_structure(&mut self, binding: &str, value: &JsonValue) -> (r: Result<(), EditError>)
        requires
            old(self)@.data_revision < u64::MAX,
            old(self)@.state_revision < u64::MAX,
            write_pointer(old(self)@.form_data, binding@, value@) matches Some(d) ==> old(self)@.next_item_identity
                + reconciled_total(old(self)@.arrays, d, binding@) <= u64::MAX,
        ensures
            match replace_outcome(old(self)@, binding@, value@) {
                Ok(g) => r is Ok && final(self)@ == g,
                Err(e) => r matches Err(x) && edit_error_view(x) == e && final(self)@ == old(self)@,
            },
    {
        proof {
            use_type_invariant(&*self);
        }
        let pointer = match JsonPointer::parse(binding.to_string()) {
            Ok(p) => p,
            Err(_) => return Err(EditError::UnknownControl(binding.to_string())),
        };
        let fits = match (value, resolve(&pointer, &self.form_data)) {
            (JsonValue::Object(_), Some(JsonValue::Object(_))) => false,
            (JsonValue::Object(_), Some(_)) => true,
            (JsonValue::Array(_), Some(JsonValue::Array(_))) => false,
            (JsonValue::Array(_), Some(_)) => true,
            _ => false,
        };
        if !fits {
            return Err(EditError::OperationNotAllowed(binding.to_string()));
        }
        let mut data = copy_value(&self.form_data);
        if !write_value(&pointer, &mut data, copy_value(value)) {
            return Err(EditError::UnresolvedControl(binding.to_string()));
        }
        self.form_data = data;
        self.external_finding_batches = Vec::new();
        assert(batch_datas(self.external_finding_batches@) =~= Seq::<BatchData>::empty());
        self.data_revision = self.data_revision + 1;
        self.state_revision = self.state_revision + 1;
        self.rebuild_under(binding, true);
        Ok(())
    }
}


impl Form {
    /// Records a change of state made outside the form's own operations: the
    /// state revision moves by one.
    pub fn mark_state_changed(&mut self)
        requires
            old(self)@.state_revision < u64::MAX,
        ensures
            final(self)@ == (FormData { state_revision: (old(self)@.state_revision + 1) as u64, ..old(self)@ }),
    {
        proof {
            use_type_invariant(&*self);
        }
        self.state_revision = self.state_revision + 1;
    }

    /// Whether the control bound to `binding` accepts `value` (see
    /// [`accepts`]); nothing for an unknown binding.
    pub fn control_accepts_value(&self, binding: &str, value: &JsonValue) -> (r: Option<bool>)
        ensures
            match control_location_of(self@, binding@) {
                None => r is None,
                Some(l) => r == Some(accepts(self.definition_at(l), value@)),
            },
    {
        let ghost f = self@;
        match self.control_location(binding) {
            None => None,
            Some(l) => {
                assert(locates(f, binding@, l)) by {
                    assert(exists|x: ControlLocation| locates(f, binding@, x));
                }
                assert(control_location_binding(f, l) == binding@);
                let definition = self.definition_ref(l);
                let accepted = match value {
                    JsonValue::Null => definition.accepts_null,
                    _ => scalar_value_is_compatible(definition.kind, &definition.choices, value),
                };
                Some(accepted)
            },
        }
    }

    /// The pointer of the item with identity `identity` in the array bound to
    /// `binding`: the array's binding and the item's position; nothing when
    /// there is no such array or item.
    pub fn array_item_binding(&self, binding: &str, identity: u64) -> (r: Option<String>)
        ensures
            ({
                let a = find_array(self@, binding@);
                let i = if a >= 0 {
                    first_index(identities(self@.arrays[a].2), identity)
                } else {
                    -1
                };
                match r {
                    Some(t) => a >= 0 && i >= 0 && t@ == append_index_spec(self@.arrays[a].0, i as nat),
                    None => a < 0 || i < 0,
                }
            }),
    {
        let a = match self.array_position(binding) {
            Some(a) => a,
            None => return None,
        };
        let i = match self.item_position(a, identity) {
            Some(i) => i,
            None => return None,
        };
        assert(self@.arrays[a as int].0 == self.arrays@[a as int].definition.binding@);
        Some(append_index(self.arrays[a].definition.binding.as_str(), i))
    }
}


/// A read-only view of one control's state.
pub struct ControlView<'a> {
    control: &'a ControlState,
}

impl<'a> View for ControlView<'a> {
    type V = ControlStateData;

    closed spec fn view(&self) -> ControlStateData {
        control_state_data(*self.control)
    }
}

impl<'a> ControlView<'a> {
    /// The control's binding, as its definition gives it.
    pub fn binding(&self) -> (r: &'a str)
        ensures
            r@ == self@.0,
    {
        self.control.definition.binding.as_str()
    }

    /// The text being edited, if any.
    pub fn edit_buffer(&self) -> (r: Option<&'a str>)
        ensures
            match r {
                Some(t) => self@.1 == Some(t@),
                None => self@.1 is None,
            },
    {
        match &self.control.edit_buffer {
            Some(t) => Some(t.as_str()),
            None => None,
        }
    }

    /// Why the edit text cannot become data, if it cannot.
    pub fn parse_blocker(&self) -> (r: Option<ParseBlocker>)
        ensures
            r == self@.2,
    {
        self.control.parse_blocker
    }

    /// Whether the user has left the control.
    pub fn is_touched(&self) -> (r: bool)
        ensures
            r == self@.3,
    {
        self.control.touched
    }
}

impl Form {
    /// A view of the state of the control bound to `binding`, if there is
    /// one.
    pub fn control(&self, binding: &str) -> (r: Option<ControlView<'_>>)
        ensures
            match control_location_of(self@, binding@) {
                None => r is None,
                Some(l) => r matches Some(v) && v@ == control_at(self@, l),
            },
    {
        let ghost f = self@;
        match self.control_location(binding) {
            None => None,
            Some(l) => {
                assert(locates(f, binding@, l)) by {
                    assert(exists|x: ControlLocation| locates(f, binding@, x));
                }
                assert(control_location_binding(f, l) == binding@);
                Some(ControlView { control: self.control_ref(l) })
            },
        }
    }
}


/// Every stored batch of host findings was reported against the form's
/// current data revision.
pub open spec fn findings_current(f: FormData) -> bool {
    forall|i: int| 0 <= i < f.batches.len() ==> #[trigger] f.batches[i].1 == f.data_revision
}

/// Going from `f` to `g` keeps host findings honest: when the data revision
/// moved, no findings are left; when it did not, the findings are the same.
pub open spec fn findings_follow_data(f: FormData, g: FormData) -> bool {
    &&& g.data_revision != f.data_revision ==> g.batches.len() == 0
    &&& g.data_revision == f.data_revision ==> g.batches == f.batches
}

/// Findings that follow the data stay current.
pub proof fn lemma_findings_stay_current(f: FormData, g: FormData)
    requires
        findings_current(f),
        findings_follow_data(f, g),
    ensures
        findings_current(g),
{
}

/// Reset and reinitialization drop host findings whenever they move the data
/// revision, and keep them otherwise.
pub proof fn lemma_reset_findings_follow_data(f: FormData, d: JsonData)
    requires
        f.data_revision < u64::MAX,
    ensures
        findings_follow_data(f, reset_form(f)),
        findings_follow_data(f, reinitialized(f, d)),
        findings_current(f) ==> findings_current(reset_form(f)),
{
}

/// Edits, value changes, removals and structure changes drop host findings
/// whenever they move the data revision, and keep them otherwise; leaving a
/// control and submitting never move it.
pub proof fn lemma_edits_findings_follow_data(
    f: FormData,
    definition: ControlDefinition,
    binding: Seq<char>,
    l: ControlLocation,
    input: Seq<char>,
    value: JsonData,
    d: JsonData,
)
    requires
        f.data_revision < u64::MAX,
    ensures
        edit_text_outcome(f, definition, binding, l, input) matches Ok(g) ==> findings_follow_data(f, g),
        set_value_outcome(f, definition, binding, l, value) matches Ok(g) ==> findings_follow_data(f, g),
        materialize_outcome(f, binding, value) matches Ok(g) ==> findings_follow_data(f, g),
        replace_outcome(f, binding, value) matches Ok(g) ==> findings_follow_data(f, g),
        findings_follow_data(f, value_removed_form(f, binding, d)),
        findings_follow_data(f, submitted_form(f)),
        findings_follow_data(f, blurred_form(f, l)),
{
}

/// Adding, removing and moving array items drop host findings whenever they
/// move the data revision, and keep them otherwise.
pub proof fn lemma_array_findings_follow_data(
    f: FormData,
    definition: ArrayDefinition,
    binding: Seq<char>,
    at_end: bool,
    identity: u64,
    up: bool,
)
    requires
        f.data_revision < u64::MAX,
    ensures
        insert_outcome(f, definition, binding, at_end, identity) matches Ok((_, g)) ==> findings_follow_data(f, g),
        remove_outcome(f, definition, binding, identity) matches Ok((_, g)) ==> findings_follow_data(f, g),
        move_outcome(f, binding, identity, up) matches Ok((_, _, _, _, g)) ==> findings_follow_data(f, g),
{
}


proof fn lemma_contains_concat<A>(a: Seq<A>, b: Seq<A>, x: A)
    requires
        a.contains(x) || b.contains(x),
    ensures
        (a + b).contains(x),
{
    if a.contains(x) {
        let k = choose|k: int| 0 <= k < a.len() && a[k] == x;
        assert((a + b)[k] == x);
    } else {
        let k = choose|k: int| 0 <= k < b.len() && b[k] == x;
        assert((a + b)[a.len() + k] == x);
    }
}

proof fn lemma_control_blockers_complete(cs: Seq<ControlStateData>, prefix: Seq<char>, j: int)
    requires
        0 <= j < cs.len(),
        cs[j].2 is Some,
    ensures
        control_blockers(cs, prefix).contains(BlockerData::Parse(prefix + cs[j].0, cs[j].2->Some_0)),
    decreases cs.len(),
{
    let x = BlockerData::Parse(prefix + cs[j].0, cs[j].2->Some_0);
    let rest = control_blockers(cs.drop_last(), prefix);
    if j == cs.len() - 1 {
        assert(control_blockers(cs, prefix) == rest.push(x));
        assert(rest.push(x)[rest.len() as int] == x);
    } else {
        assert(cs.drop_last()[j] == cs[j]);
        lemma_control_blockers_complete(cs.drop_last(), prefix, j);
        let k = choose|k: int| 0 <= k < rest.len() && rest[k] == x;
        match cs.last().2 {
            Some(r) => assert(rest.push(BlockerData::Parse(prefix + cs.last().0, r))[k] == x),
            None => {},
        }
    }
}

proof fn lemma_item_blockers_complete(items: Seq<ItemData>, array: Seq<char>, i: int, c: int)
    requires
        0 <= i < items.len(),
        0 <= c < items[i].1.len(),
        items[i].1[c].2 is Some,
    ensures
        item_blockers(items, array).contains(
            BlockerData::Parse(append_index_spec(array, i as nat) + items[i].1[c].0, items[i].1[c].2->Some_0),
        ),
    decreases items.len(),
{
    let x = BlockerData::Parse(append_index_spec(array, i as nat) + items[i].1[c].0, items[i].1[c].2->Some_0);
    let rest = item_blockers(items.drop_last(), array);
    let last = control_blockers(items.last().1, append_index_spec(array, (items.len() - 1) as nat));
    if i == items.len() - 1 {
        lemma_control_blockers_complete(items.last().1, append_index_spec(array, i as nat), c);
        lemma_contains_concat(rest, last, x);
    } else {
        assert(items.drop_last()[i] == items[i]);
        lemma_item_blockers_complete(items.drop_last(), array, i, c);
        lemma_contains_concat(rest, last, x);
    }
}

proof fn lemma_array_blockers_complete(arrays: Seq<ArrayData>, a: int, i: int, c: int)
    requires
        0 <= a < arrays.len(),
        0 <= i < arrays[a].2.len(),
        0 <= c < arrays[a].2[i].1.len(),
        arrays[a].2[i].1[c].2 is Some,
    ensures
        array_blockers(arrays).contains(
            BlockerData::Parse(
                append_index_spec(arrays[a].0, i as nat) + arrays[a].2[i].1[c].0,
                arrays[a].2[i].1[c].2->Some_0,
            ),
        ),
    decreases arrays.len(),
{
    let x = BlockerData::Parse(
        append_index_spec(arrays[a].0, i as nat) + arrays[a].2[i].1[c].0,
        arrays[a].2[i].1[c].2->Some_0,
    );
    let rest = array_blockers(arrays.drop_last());
    let last = item_blockers(arrays.last().2, arrays.last().0);
    if a == arrays.len() - 1 {
        lemma_item_blockers_complete(arrays.last().2, arrays.last().0, i, c);
        lemma_contains_concat(rest, last, x);
    } else {
        assert(arrays.drop_last()[a] == arrays[a]);
        lemma_array_blockers_complete(arrays.drop_last(), a, i, c);
        lemma_contains_concat(rest, last, x);
    }
}

/// Every control of the form, fixed or inside an array item, whose edit
/// text did not parse blocks submission: its parse blocker is among the
/// submission blockers at the control's full binding, so a submission of
/// such a form is refused.
pub proof fn lemma_every_parse_blocker_blocks(f: FormData, l: ControlLocation)
    requires
        match l {
            ControlLocation::Static(k) => k < f.controls.len(),
            ControlLocation::ArrayItem(a, i, c) => item_slot(f, a as int, i as int, c as int),
        },
        control_at(f, l).2 is Some,
    ensures
        submission_blockers(f).contains(BlockerData::Parse(control_location_binding(f, l), control_at(f, l).2->Some_0)),
        submission_blockers(f).len() > 0,
{
    let x = BlockerData::Parse(control_location_binding(f, l), control_at(f, l).2->Some_0);
    let sb = control_blockers(f.controls, Seq::empty());
    let ab = array_blockers(f.arrays);
    let bb = batch_blockers(f.batches);
    match l {
        ControlLocation::Static(k) => {
            lemma_control_blockers_complete(f.controls, Seq::empty(), k as int);
            assert(Seq::<char>::empty() + f.controls[k as int].0 =~= f.controls[k as int].0);
            lemma_contains_concat(sb, ab, x);
        },
        ControlLocation::ArrayItem(a, i, c) => {
            lemma_array_blockers_complete(f.arrays, a as int, i as int, c as int);
            lemma_contains_concat(sb, ab, x);
        },
    }
    lemma_contains_concat(sb + ab, bb, x);
    assert(submission_blockers(f) == sb + ab + bb);
}


/// Adding an item respects the array's maximum: after a successful append
/// or insert, the array bound to `binding` holds exactly one value more
/// than before, and when the array has a maximum item count `m`, it holds at
/// most `m`. A full array refuses the addition.
pub proof fn lemma_insert_respects_maximum(
    f: FormData,
    definition: ArrayDefinition,
    binding: Seq<char>,
    at_end: bool,
    before: u64,
)
    ensures
        insert_outcome(f, definition, binding, at_end, before) matches Ok((_, g)) ==> {
            let a = find_array(f, binding);
            &&& 0 <= a < f.arrays.len()
            &&& array_values(f, a) matches Some(vs)
            &&& array_values(g, a) matches Some(ws)
            &&& ws.len() == vs.len() + 1
            &&& (definition.max_items matches Some(m) ==> ws.len() <= m)
        },
        ({
            let a = find_array(f, binding);
            &&& 0 <= a < f.arrays.len()
            &&& array_values(f, a) matches Some(vs)
            &&& definition.max_items matches Some(m)
            &&& vs.len() >= m
        }) ==> insert_outcome(f, definition, binding, at_end, before) is Err,
{
    let a = find_array(f, binding);
    if insert_outcome(f, definition, binding, at_end, before) is Ok {
        let vs = array_values(f, a)->Some_0;
        let (p, i) = insert_positions(f, a, vs, at_end, before);
        let v = JsonData::Array(vs.insert(p, definition.item_template.creation_seed@));
        lemma_write_then_resolve(f.form_data, f.arrays[a].0, v);
    }
}

/// Removing an item respects the array's minimum: after a successful
/// removal, the array bound to `binding` holds exactly one value fewer than
/// before, and when the array has a minimum item count `m`, it holds at
/// least `m`. An array at its minimum refuses the removal.
pub proof fn lemma_remove_respects_minimum(f: FormData, definition: ArrayDefinition, binding: Seq<char>, identity: u64)
    ensures
        remove_outcome(f, definition, binding, identity) matches Ok((_, g)) ==> {
            let a = find_array(f, binding);
            &&& 0 <= a < f.arrays.len()
            &&& array_values(f, a) matches Some(vs)
            &&& array_values(g, a) matches Some(ws)
            &&& ws.len() + 1 == vs.len()
            &&& (definition.min_items matches Some(m) ==> ws.len() >= m)
        },
        ({
            let a = find_array(f, binding);
            &&& 0 <= a < f.arrays.len()
            &&& array_values(f, a) matches Some(vs)
            &&& definition.min_items matches Some(m)
            &&& vs.len() <= m
        }) ==> remove_outcome(f, definition, binding, identity) is Err,
{
    let a = find_array(f, binding);
    if remove_outcome(f, definition, binding, identity) is Ok {
        let vs = array_values(f, a)->Some_0;
        let i = first_index(identities(f.arrays[a].2), identity);
        let v = JsonData::Array(vs.remove(i));
        lemma_write_then_resolve(f.form_data, f.arrays[a].0, v);
    }
}


proof fn lemma_finding_blockers_complete(source: Seq<char>, fs: Seq<FindingKey>, j: int)
    requires
        0 <= j < fs.len(),
        fs[j].2,
    ensures
        finding_blockers(source, fs).contains(BlockerData::External(source, fs[j].0, fs[j].1)),
    decreases fs.len(),
{
    let x = BlockerData::External(source, fs[j].0, fs[j].1);
    let rest = finding_blockers(source, fs.drop_last());
    if j == fs.len() - 1 {
        assert(rest.push(x)[rest.len() as int] == x);
    } else {
        assert(fs.drop_last()[j] == fs[j]);
        lemma_finding_blockers_complete(source, fs.drop_last(), j);
        let k = choose|k: int| 0 <= k < rest.len() && rest[k] == x;
        if fs.last().2 {
            assert(rest.push(BlockerData::External(source, fs.last().0, fs.last().1))[k] == x);
        }
    }
}

proof fn lemma_batch_blockers_complete(bs: Seq<BatchData>, b: int, j: int)
    requires
        0 <= b < bs.len(),
        0 <= j < bs[b].2.len(),
        bs[b].2[j].2,
    ensures
        batch_blockers(bs).contains(BlockerData::External(bs[b].0, bs[b].2[j].0, bs[b].2[j].1)),
    decreases bs.len(),
{
    let x = BlockerData::External(bs[b].0, bs[b].2[j].0, bs[b].2[j].1);
    let rest = batch_blockers(bs.drop_last());
    let last = finding_blockers(bs.last().0, bs.last().2);
    if b == bs.len() - 1 {
        lemma_finding_blockers_complete(bs.last().0, bs.last().2, j);
    } else {
        assert(bs.drop_last()[b] == bs[b]);
        lemma_batch_blockers_complete(bs.drop_last(), b, j);
    }
    lemma_contains_concat(rest, last, x);
}

/// Every blocking host finding blocks submission: it is among the
/// submission blockers with its source, instance pointer and code, so a
/// submission of such a form is refused.
pub proof fn lemma_every_blocking_finding_blocks(f: FormData, b: int, j: int)
    requires
        0 <= b < f.batches.len(),
        0 <= j < f.batches[b].2.len(),
        f.batches[b].2[j].2,
    ensures
        submission_blockers(f).contains(BlockerData::External(f.batches[b].0, f.batches[b].2[j].0, f.batches[b].2[j].1)),
        submission_blockers(f).len() > 0,
{
    let x = BlockerData::External(f.batches[b].0, f.batches[b].2[j].0, f.batches[b].2[j].1);
    lemma_batch_blockers_complete(f.batches, b, j);
    lemma_contains_concat(
        control_blockers(f.controls, Seq::empty()) + array_blockers(f.arrays),
        batch_blockers(f.batches),
        x,
    );
}

/// Reset brings the baseline back: the data afterwards is the baseline, or
/// already semantically equal to it; no control keeps edit text, a parse
/// blocker or its touched mark; no submission attempt is recorded; and the
/// arrays hold the baseline item identities.
pub proof fn lemma_reset_restores_baseline(f: FormData)
    requires
        f.arrays.len() == f.baseline_array_identities.len(),
    ensures
        reset_form(f).form_data == f.baseline || spec_json_equal(reset_form(f).form_data, f.baseline),
        !controls_pending(reset_form(f).controls),
        !arrays_pending(reset_form(f).arrays),
        !reset_form(f).submission_attempted,
        forall|a: int| 0 <= a < f.arrays.len() ==> #[trigger] identities(reset_form(f).arrays[a].2)
            == f.baseline_array_identities[a],
{
    let g = reset_form(f);
    assert forall|a: int| 0 <= a < f.arrays.len() implies #[trigger] identities(g.arrays[a].2)
        == f.baseline_array_identities[a] by {
        if topology_changed(f) {
            assert(identities(g.arrays[a].2) =~= f.baseline_array_identities[a]);
        } else {
            assert(identities(f.arrays[a].2) == f.baseline_array_identities[a]);
            assert(identities(g.arrays[a].2) =~= identities(f.arrays[a].2));
        }
    }
    assert forall|a: int| 0 <= a < g.arrays.len() implies !#[trigger] items_pending(g.arrays[a].2) by {
        assert forall|j: int| 0 <= j < g.arrays[a].2.len() implies !#[trigger] controls_pending(g.arrays[a].2[j].1) by {
            let cs = g.arrays[a].2[j].1;
            assert forall|i: int| 0 <= i < cs.len() implies !#[trigger] has_lifecycle_state(cs[i]) by {}
        }
    }
}

} // verus!
