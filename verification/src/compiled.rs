use vstd::prelude::*;

use crate::address::JsonPointer;
use crate::annotations::{compatible, scalar_value_is_compatible, ControlKind, DataSchemaAnnotations};
use crate::choices::datas;
use crate::definition::DefinitionFingerprint;
use crate::fingerprint::{
    be_u64, concat, hash_fingerprint_length, hash_json_value, hash_optional_fingerprint_bytes, hash_optional_usize,
    hash_schema_value, item_parts, json_encoding, optional_length_field, optional_text_field, push_bytes, push_text,
    schema_encoding, sha256, sha256_digest, text_field,
};
use crate::locations::SchemaLocationDefinition;
use crate::text::text_le;
use crate::value::{JsonData, JsonValue};

verus! {

/// How a definition node is presented: its label, help text and the data
/// schema's annotations.
#[derive(Debug, Clone)]
pub struct NodePresentation {
    pub label: String,
    pub help: Option<String>,
    pub annotations: DataSchemaAnnotations,
}

/// A compiled scalar control.
#[derive(Debug, Clone)]
pub struct ControlDefinition {
    pub binding: JsonPointer,
    pub parent_binding: Option<JsonPointer>,
    pub kind: ControlKind,
    pub choices: Vec<JsonValue>,
    pub accepts_null: bool,
    pub schema_locations: Vec<SchemaLocationDefinition>,
    pub presentation: NodePresentation,
    pub creation_seed: Option<JsonValue>,
    pub required: bool,
}

/// A compiled fixed object.
#[derive(Debug, Clone)]
pub struct ObjectDefinition {
    pub binding: JsonPointer,
    pub parent_binding: Option<JsonPointer>,
    pub schema_locations: Vec<SchemaLocationDefinition>,
    pub presentation: NodePresentation,
    pub required: bool,
    pub creation_seed: JsonValue,
}

/// The template every item of a homogeneous array shares.
#[derive(Debug, Clone)]
pub struct ArrayItemTemplate {
    pub controls: Vec<ControlDefinition>,
    pub objects: Vec<ObjectDefinition>,
    pub creation_seed: JsonValue,
}

/// A compiled homogeneous array.
#[derive(Debug, Clone)]
pub struct ArrayDefinition {
    pub binding: JsonPointer,
    pub parent_binding: Option<JsonPointer>,
    pub schema_locations: Vec<SchemaLocationDefinition>,
    pub presentation: NodePresentation,
    pub required: bool,
    pub creation_seed: JsonValue,
    pub min_items: Option<usize>,
    pub max_items: Option<usize>,
    pub item_template: ArrayItemTemplate,
}

/// Whether `value` may stand at a control: null where the control accepts
/// null, otherwise a value that fits the control's kind and choices.
pub fn control_value_is_compatible(control: &ControlDefinition, value: &JsonValue) -> (r: bool)
    ensures
        r == if value@ is Null {
            control.accepts_null
        } else {
            compatible(control.kind, datas(control.choices@), value@)
        },
{
    if let JsonValue::Null = value {
        return control.accepts_null;
    }
    scalar_value_is_compatible(control.kind, &control.choices, value)
}

/// The byte for a flag.
pub open spec fn flag(b: bool) -> u8 {
    if b {
        1u8
    } else {
        0u8
    }
}

/// The byte for a control kind.
pub open spec fn kind_code(k: ControlKind) -> u8 {
    match k {
        ControlKind::String => 0u8,
        ControlKind::Integer => 1u8,
        ControlKind::Boolean => 2u8,
        ControlKind::Choice => 3u8,
        ControlKind::Constant => 4u8,
        ControlKind::Number => 5u8,
        ControlKind::Null => 6u8,
    }
}

fn kind_byte(k: ControlKind) -> (r: u8)
    ensures
        r == kind_code(k),
{
    match k {
        ControlKind::String => 0,
        ControlKind::Integer => 1,
        ControlKind::Boolean => 2,
        ControlKind::Choice => 3,
        ControlKind::Constant => 4,
        ControlKind::Number => 5,
        ControlKind::Null => 6,
    }
}

/// The optional help text of a presentation.
pub open spec fn help_field(p: NodePresentation) -> Seq<u8> {
    optional_text_field(
        match p.help {
            Some(h) => Some(h@),
            None => None,
        },
    )
}

/// A list of JSON values: its length, then each value.
pub open spec fn values_field(values: Seq<JsonValue>) -> Seq<u8> {
    be_u64(values.len()) + concat(item_parts(values.map_values(|v: JsonValue| v@)))
}

/// An optional creation seed: `1` and the value, or `0` when absent.
pub open spec fn seed_field(seed: Option<JsonValue>) -> Seq<u8> {
    match seed {
        Some(v) => seq![1u8] + json_encoding(v@),
        None => seq![0u8],
    }
}

/// The fields of a control before its creation seed: binding, kind, label
/// and help.
pub open spec fn control_head(c: ControlDefinition) -> Seq<u8> {
    text_field(c.binding@) + seq![kind_code(c.kind)] + text_field(c.presentation.label@) + help_field(c.presentation)
}

/// The fields of a control after its creation seed: the two flags and the
/// choices.
pub open spec fn control_tail(c: ControlDefinition) -> Seq<u8> {
    seq![flag(c.required), flag(c.accepts_null)] + values_field(c.choices@)
}

/// The fingerprint input of a control; controls of an item template leave
/// out their creation seed (`seeded` false).
#[verifier::opaque]
pub open spec fn control_encoding(c: ControlDefinition, seeded: bool) -> Seq<u8> {
    control_head(c) + (if seeded {
        seed_field(c.creation_seed)
    } else {
        Seq::empty()
    }) + control_tail(c)
}

/// The fingerprint input of an object.
#[verifier::opaque]
pub open spec fn object_encoding(o: ObjectDefinition) -> Seq<u8> {
    text_field(o.binding@) + text_field(o.presentation.label@) + help_field(o.presentation) + seq![flag(o.required)]
        + json_encoding(o.creation_seed@)
}

/// The fingerprint inputs of controls, in order.
pub open spec fn control_parts(cs: Seq<ControlDefinition>, seeded: bool) -> Seq<Seq<u8>> {
    cs.map_values(|c: ControlDefinition| control_encoding(c, seeded))
}

/// The fingerprint inputs of objects, in order.
pub open spec fn object_parts(os: Seq<ObjectDefinition>) -> Seq<Seq<u8>> {
    os.map_values(|o: ObjectDefinition| object_encoding(o))
}

/// The fields of an array itself: binding, label, help, whether it is
/// required, its item-count bounds and its creation seed.
pub open spec fn array_fields(a: ArrayDefinition) -> Seq<u8> {
    text_field(a.binding@) + text_field(a.presentation.label@) + help_field(a.presentation) + seq![flag(a.required)]
        + optional_length_field(a.min_items) + optional_length_field(a.max_items) + json_encoding(a.creation_seed@)
}

/// The fields of an item template: its seed, then its objects and its
/// controls (without their seeds), each list preceded by its length.
pub open spec fn template_fields(t: ArrayItemTemplate) -> Seq<u8> {
    json_encoding(t.creation_seed@) + be_u64(t.objects@.len()) + concat(object_parts(t.objects@)) + be_u64(
        t.controls@.len(),
    ) + concat(control_parts(t.controls@, false))
}

/// The fingerprint input of an array: its own fields, then its item
/// template's.
#[verifier::opaque]
pub open spec fn array_encoding(a: ArrayDefinition) -> Seq<u8> {
    array_fields(a) + template_fields(a.item_template)
}

/// The fingerprint inputs of arrays, in order.
pub open spec fn array_parts(arrays: Seq<ArrayDefinition>) -> Seq<Seq<u8>> {
    arrays.map_values(|a: ArrayDefinition| array_encoding(a))
}

/// The fingerprint inputs of used resources: each name, then its document
/// as a schema.
pub open spec fn resource_parts(resources: Seq<(String, &JsonValue)>) -> Seq<Seq<u8>> {
    resources.map_values(|r: (String, &JsonValue)| text_field(r.0@) + schema_encoding(r.1@))
}

/// The tag that starts a compiled definition's fingerprint input.
pub open spec fn definition_tag() -> Seq<u8> {
    vstd::utf8::encode_utf8("schemaform-compiled-definition-v15\0"@)
}

/// The fingerprint input of a compiled definition: the tag, then the
/// controls, objects, arrays and used resources, each list preceded by its
/// length.
pub open spec fn definition_encoding(
    controls: Seq<ControlDefinition>,
    objects: Seq<ObjectDefinition>,
    arrays: Seq<ArrayDefinition>,
    resources: Seq<(String, &JsonValue)>,
) -> Seq<u8> {
    definition_tag() + be_u64(controls.len()) + concat(control_parts(controls, true)) + be_u64(objects.len()) + concat(
        object_parts(objects),
    ) + be_u64(arrays.len()) + concat(array_parts(arrays)) + be_u64(resources.len()) + concat(
        resource_parts(resources),
    )
}

fn push_flag(input: &mut Vec<u8>, b: bool)
    ensures
        final(input)@ == old(input)@.push(flag(b)),
{
    input.push(if b { 1 } else { 0 });
}

fn hash_help(input: &mut Vec<u8>, p: &NodePresentation)
    ensures
        final(input)@ == old(input)@ + help_field(*p),
{
    match &p.help {
        Some(h) => hash_optional_fingerprint_bytes(input, Some(h.as_str())),
        None => hash_optional_fingerprint_bytes(input, None),
    }
}

fn hash_values(input: &mut Vec<u8>, values: &Vec<JsonValue>)
    ensures
        final(input)@ == old(input)@ + values_field(values@),
{
    let ghost d = values@.map_values(|v: JsonValue| v@);
    let ghost parts = item_parts(d);
    hash_fingerprint_length(input, values.len());
    let ghost start = input@;
    assert(parts.take(0) =~= Seq::<Seq<u8>>::empty());
    let mut i: usize = 0;
    while i < values.len()
        invariant
            i <= values.len(),
            d == values@.map_values(|v: JsonValue| v@),
            parts == item_parts(d),
            input@ == start + concat(parts.take(i as int)),
        decreases values.len() - i,
    {
        hash_json_value(input, &values[i]);
        assert(parts.take(i + 1).drop_last() =~= parts.take(i as int));
        assert(d[i as int] == values@[i as int]@);
        i += 1;
    }
    assert(parts.take(values.len() as int) =~= parts);
    assert(final(input)@ =~= old(input)@ + values_field(values@));
}

fn hash_control_head(input: &mut Vec<u8>, c: &ControlDefinition)
    ensures
        final(input)@ == old(input)@ + control_head(*c),
{
    push_text(input, c.binding.as_str());
    input.push(kind_byte(c.kind));
    push_text(input, c.presentation.label.as_str());
    hash_help(input, &c.presentation);
    assert(final(input)@ =~= old(input)@ + control_head(*c));
}

fn hash_seed(input: &mut Vec<u8>, seed: &Option<JsonValue>)
    ensures
        final(input)@ == old(input)@ + seed_field(*seed),
{
    match seed {
        Some(value) => {
            input.push(1);
            hash_json_value(input, value);
        },
        None => {
            input.push(0);
        },
    }
    assert(final(input)@ =~= old(input)@ + seed_field(*seed));
}

fn hash_control_tail(input: &mut Vec<u8>, c: &ControlDefinition)
    ensures
        final(input)@ == old(input)@ + control_tail(*c),
{
    push_flag(input, c.required);
    push_flag(input, c.accepts_null);
    hash_values(input, &c.choices);
    assert(final(input)@ =~= old(input)@ + control_tail(*c));
}

fn hash_control(input: &mut Vec<u8>, c: &ControlDefinition, seeded: bool)
    ensures
        final(input)@ == old(input)@ + control_encoding(*c, seeded),
{
    let ghost start = input@;
    hash_control_head(input, c);
    let ghost seed_part = if seeded {
        seed_field(c.creation_seed)
    } else {
        Seq::empty()
    };
    if seeded {
        hash_seed(input, &c.creation_seed);
    }
    assert(input@ =~= start + control_head(*c) + seed_part);
    let ghost middle = input@;
    hash_control_tail(input, c);
    proof {
        reveal(control_encoding);
    }
    assert(final(input)@ =~= old(input)@ + control_encoding(*c, seeded));
}

fn hash_controls(input: &mut Vec<u8>, controls: &Vec<ControlDefinition>, seeded: bool)
    ensures
        final(input)@ == old(input)@ + be_u64(controls@.len()) + concat(control_parts(controls@, seeded)),
{
    let ghost parts = control_parts(controls@, seeded);
    hash_fingerprint_length(input, controls.len());
    let ghost start = input@;
    assert(parts.take(0) =~= Seq::<Seq<u8>>::empty());
    let mut i: usize = 0;
    while i < controls.len()
        invariant
            i <= controls.len(),
            parts == control_parts(controls@, seeded),
            input@ == start + concat(parts.take(i as int)),
        decreases controls.len() - i,
    {
        hash_control(input, &controls[i], seeded);
        assert(parts.take(i + 1).drop_last() =~= parts.take(i as int));
        i += 1;
    }
    assert(parts.take(controls.len() as int) =~= parts);
}

fn hash_object(input: &mut Vec<u8>, o: &ObjectDefinition)
    ensures
        final(input)@ == old(input)@ + object_encoding(*o),
{
    push_text(input, o.binding.as_str());
    push_text(input, o.presentation.label.as_str());
    hash_help(input, &o.presentation);
    push_flag(input, o.required);
    hash_json_value(input, &o.creation_seed);
    proof {
        reveal(object_encoding);
    }
    assert(final(input)@ =~= old(input)@ + object_encoding(*o));
}

fn hash_objects(input: &mut Vec<u8>, objects: &Vec<ObjectDefinition>)
    ensures
        final(input)@ == old(input)@ + be_u64(objects@.len()) + concat(object_parts(objects@)),
{
    let ghost parts = object_parts(objects@);
    hash_fingerprint_length(input, objects.len());
    let ghost start = input@;
    assert(parts.take(0) =~= Seq::<Seq<u8>>::empty());
    let mut i: usize = 0;
    while i < objects.len()
        invariant
            i <= objects.len(),
            parts == object_parts(objects@),
            input@ == start + concat(parts.take(i as int)),
        decreases objects.len() - i,
    {
        hash_object(input, &objects[i]);
        assert(parts.take(i + 1).drop_last() =~= parts.take(i as int));
        i += 1;
    }
    assert(parts.take(objects.len() as int) =~= parts);
}

fn hash_array_fields(input: &mut Vec<u8>, a: &ArrayDefinition)
    ensures
        final(input)@ == old(input)@ + array_fields(*a),
{
    push_text(input, a.binding.as_str());
    push_text(input, a.presentation.label.as_str());
    hash_help(input, &a.presentation);
    push_flag(input, a.required);
    hash_optional_usize(input, a.min_items);
    hash_optional_usize(input, a.max_items);
    hash_json_value(input, &a.creation_seed);
    assert(final(input)@ =~= old(input)@ + array_fields(*a));
}

fn hash_template(input: &mut Vec<u8>, t: &ArrayItemTemplate)
    ensures
        final(input)@ == old(input)@ + template_fields(*t),
{
    hash_json_value(input, &t.creation_seed);
    hash_objects(input, &t.objects);
    hash_controls(input, &t.controls, false);
    assert(final(input)@ =~= old(input)@ + template_fields(*t));
}

fn hash_array(input: &mut Vec<u8>, a: &ArrayDefinition)
    ensures
        final(input)@ == old(input)@ + array_encoding(*a),
{
    hash_array_fields(input, a);
    hash_template(input, &a.item_template);
    proof {
        reveal(array_encoding);
    }
    assert(final(input)@ =~= old(input)@ + array_encoding(*a));
}

fn hash_arrays(input: &mut Vec<u8>, arrays: &Vec<ArrayDefinition>)
    ensures
        final(input)@ == old(input)@ + be_u64(arrays@.len()) + concat(array_parts(arrays@)),
{
    let ghost parts = array_parts(arrays@);
    hash_fingerprint_length(input, arrays.len());
    let ghost start = input@;
    assert(parts.take(0) =~= Seq::<Seq<u8>>::empty());
    let mut i: usize = 0;
    while i < arrays.len()
        invariant
            i <= arrays.len(),
            parts == array_parts(arrays@),
            input@ == start + concat(parts.take(i as int)),
        decreases arrays.len() - i,
    {
        hash_array(input, &arrays[i]);
        assert(parts.take(i + 1).drop_last() =~= parts.take(i as int));
        i += 1;
    }
    assert(parts.take(arrays.len() as int) =~= parts);
}

fn hash_resources(input: &mut Vec<u8>, resources: &Vec<(String, &JsonValue)>)
    ensures
        final(input)@ == old(input)@ + be_u64(resources@.len()) + concat(resource_parts(resources@)),
{
    let ghost parts = resource_parts(resources@);
    hash_fingerprint_length(input, resources.len());
    let ghost start = input@;
    assert(parts.take(0) =~= Seq::<Seq<u8>>::empty());
    let mut i: usize = 0;
    while i < resources.len()
        invariant
            i <= resources.len(),
            parts == resource_parts(resources@),
            input@ == start + concat(parts.take(i as int)),
        decreases resources.len() - i,
    {
        let (name, document) = &resources[i];
        push_text(input, name.as_str());
        hash_schema_value(input, document);
        assert(parts.take(i + 1).drop_last() =~= parts.take(i as int));
        i += 1;
    }
    assert(parts.take(resources.len() as int) =~= parts);
}

/// The used resources are named in strictly increasing code point order (the
/// order of a set of names), so each name comes once.
pub open spec fn resources_ascending(resources: Seq<(String, &JsonValue)>) -> bool {
    forall|i: int, j: int|
        0 <= i < j < resources.len() ==> #[trigger] resources[i].0@ != #[trigger] resources[j].0@ && text_le(
            resources[i].0@,
            resources[j].0@,
        )
}

/// The fingerprint of a compiled definition: the SHA-256 digest of its
/// controls, objects and arrays with their item templates, and of each used
/// resource's name and document, the resources taken by name.
pub fn fingerprint_compiled_definition(
    controls: &Vec<ControlDefinition>,
    objects: &Vec<ObjectDefinition>,
    arrays: &Vec<ArrayDefinition>,
    used_resources: &Vec<(String, &JsonValue)>,
) -> (r: DefinitionFingerprint)
    requires
        resources_ascending(used_resources@),
    ensures
        r.0@ == sha256(definition_encoding(controls@, objects@, arrays@, used_resources@)),
{
    let mut input: Vec<u8> = Vec::new();
    push_bytes(&mut input, "schemaform-compiled-definition-v15\0".as_bytes());
    hash_controls(&mut input, controls, true);
    hash_objects(&mut input, objects);
    hash_arrays(&mut input, arrays);
    hash_resources(&mut input, used_resources);
    assert(input@ =~= definition_encoding(controls@, objects@, arrays@, used_resources@));
    DefinitionFingerprint(sha256_digest(input.as_slice()))
}

} // verus!
