use vstd::prelude::*;

use crate::limits::{CompilationLimitDimension, CompilationLimitError, CompilationLimitFailure, CompilationLimitPhase};
use crate::number::{number_is_integer, spec_number_is_integer};
use crate::text::str_eq;
use crate::value::{find_member, member_index, JsonData, JsonValue};

verus! {

/// The JSON kind a schema projects onto a form control or container.
#[derive(Debug, Clone, Copy, PartialEq, Eq, Structural)]
pub enum ProjectedKind {
    String,
    Number,
    Integer,
    Boolean,
    Null,
    Object,
    Array,
}

/// A set of projected kinds, one flag per kind.
#[derive(Debug, Clone, Copy, PartialEq, Eq, Structural)]
pub struct KindSet {
    pub string: bool,
    pub number: bool,
    pub integer: bool,
    pub boolean: bool,
    pub null: bool,
    pub object: bool,
    pub array: bool,
}

/// Whether `kinds` holds `kind`.
pub open spec fn holds(kinds: KindSet, kind: ProjectedKind) -> bool {
    match kind {
        ProjectedKind::String => kinds.string,
        ProjectedKind::Number => kinds.number,
        ProjectedKind::Integer => kinds.integer,
        ProjectedKind::Boolean => kinds.boolean,
        ProjectedKind::Null => kinds.null,
        ProjectedKind::Object => kinds.object,
        ProjectedKind::Array => kinds.array,
    }
}

/// The empty set of kinds.
pub open spec fn no_kinds() -> KindSet {
    KindSet { string: false, number: false, integer: false, boolean: false, null: false, object: false, array: false }
}

/// The kinds of both sets.
pub open spec fn intersect(a: KindSet, b: KindSet) -> KindSet {
    KindSet {
        string: a.string && b.string,
        number: a.number && b.number,
        integer: a.integer && b.integer,
        boolean: a.boolean && b.boolean,
        null: a.null && b.null,
        object: a.object && b.object,
        array: a.array && b.array,
    }
}

/// `kinds` with `kind` added, and with `Integer` too when `kind` is `Number`
/// (every number schema admits integers).
pub open spec fn with_kind(kinds: KindSet, kind: ProjectedKind) -> KindSet {
    match kind {
        ProjectedKind::String => KindSet { string: true, ..kinds },
        ProjectedKind::Number => KindSet { number: true, integer: true, ..kinds },
        ProjectedKind::Integer => KindSet { integer: true, ..kinds },
        ProjectedKind::Boolean => KindSet { boolean: true, ..kinds },
        ProjectedKind::Null => KindSet { null: true, ..kinds },
        ProjectedKind::Object => KindSet { object: true, ..kinds },
        ProjectedKind::Array => KindSet { array: true, ..kinds },
    }
}

impl KindSet {
    /// The empty set of kinds.
    pub fn empty() -> (r: KindSet)
        ensures
            r == no_kinds(),
    {
        KindSet { string: false, number: false, integer: false, boolean: false, null: false, object: false, array: false }
    }
}

/// Adds `kind` to `kinds`, adding `Integer` as well for `Number`.
pub fn insert_projected_kind(kinds: &mut KindSet, kind: ProjectedKind)
    ensures
        *final(kinds) == with_kind(*old(kinds), kind),
{
    match kind {
        ProjectedKind::String => kinds.string = true,
        ProjectedKind::Number => {
            kinds.number = true;
            kinds.integer = true;
        },
        ProjectedKind::Integer => kinds.integer = true,
        ProjectedKind::Boolean => kinds.boolean = true,
        ProjectedKind::Null => kinds.null = true,
        ProjectedKind::Object => kinds.object = true,
        ProjectedKind::Array => kinds.array = true,
    }
}

/// The kind a JSON Schema `type` name denotes.
pub open spec fn kind_named(name: Seq<char>) -> Option<ProjectedKind> {
    if name == "string"@ {
        Some(ProjectedKind::String)
    } else if name == "number"@ {
        Some(ProjectedKind::Number)
    } else if name == "integer"@ {
        Some(ProjectedKind::Integer)
    } else if name == "boolean"@ {
        Some(ProjectedKind::Boolean)
    } else if name == "null"@ {
        Some(ProjectedKind::Null)
    } else if name == "object"@ {
        Some(ProjectedKind::Object)
    } else if name == "array"@ {
        Some(ProjectedKind::Array)
    } else {
        None
    }
}

/// The kind a JSON Schema `type` name denotes, if it is one of the seven.
pub fn projected_kind(kind: &str) -> (r: Option<ProjectedKind>)
    ensures
        r == kind_named(kind@),
{
    if str_eq(kind, "string") {
        Some(ProjectedKind::String)
    } else if str_eq(kind, "number") {
        Some(ProjectedKind::Number)
    } else if str_eq(kind, "integer") {
        Some(ProjectedKind::Integer)
    } else if str_eq(kind, "boolean") {
        Some(ProjectedKind::Boolean)
    } else if str_eq(kind, "null") {
        Some(ProjectedKind::Null)
    } else if str_eq(kind, "object") {
        Some(ProjectedKind::Object)
    } else if str_eq(kind, "array") {
        Some(ProjectedKind::Array)
    } else {
        None
    }
}

/// The kinds listed by the names in `items`, or `None` when one is not a
/// known type name.
pub open spec fn listed_kinds(items: Seq<JsonData>) -> Option<KindSet>
    decreases items.len(),
{
    if items.len() == 0 {
        Some(no_kinds())
    } else {
        match listed_kinds(items.drop_last()) {
            None => None,
            Some(kinds) => match items.last() {
                JsonData::String(name) => match kind_named(name) {
                    Some(kind) => Some(with_kind(kinds, kind)),
                    None => None,
                },
                _ => None,
            },
        }
    }
}

/// The kinds a `type` keyword value declares: one name or an array of names.
pub open spec fn declared_kinds(declared: JsonData) -> Option<KindSet> {
    match declared {
        JsonData::String(name) => match kind_named(name) {
            Some(kind) => Some(with_kind(no_kinds(), kind)),
            None => None,
        },
        JsonData::Array(items) => listed_kinds(items),
        _ => None,
    }
}

/// The kinds declared by the `type` keyword value `declared`.
pub fn declared_projected_kinds(declared: &JsonValue) -> (r: Option<KindSet>)
    ensures
        r == declared_kinds(declared@),
{
    match declared {
        JsonValue::String(name) => match projected_kind(name.as_str()) {
            Some(kind) => {
                let mut kinds = KindSet::empty();
                insert_projected_kind(&mut kinds, kind);
                Some(kinds)
            },
            None => None,
        },
        JsonValue::Array(items) => {
            let ghost data = declared@->Array_0;
            let mut kinds = KindSet::empty();
            let mut i: usize = 0;
            while i < items.len()
                invariant
                    *declared == JsonValue::Array(*items),
                    data == declared@->Array_0,
                    i <= items.len(),
                    listed_kinds(data.take(i as int)) == Some(kinds),
                decreases items.len() - i,
            {
                assert(data.take(i + 1).drop_last() =~= data.take(i as int));
                assert(data.take(i + 1).last() == items@[i as int]@);
                let kind = match &items[i] {
                    JsonValue::String(name) => match projected_kind(name.as_str()) {
                        Some(kind) => kind,
                        None => {
                            proof {
                                lemma_listed_kinds_none(data, i as int + 1);
                            }
                            return None;
                        },
                    },
                    _ => {
                        proof {
                            lemma_listed_kinds_none(data, i as int + 1);
                        }
                        return None;
                    },
                };
                insert_projected_kind(&mut kinds, kind);
                i += 1;
            }
            assert(data.take(items.len() as int) =~= data);
            Some(kinds)
        },
        _ => None,
    }
}

proof fn lemma_listed_kinds_none(items: Seq<JsonData>, n: int)
    requires
        0 <= n <= items.len(),
        listed_kinds(items.take(n)) is None,
    ensures
        listed_kinds(items) is None,
    decreases items.len() - n,
{
    if n < items.len() {
        assert(items.take(n + 1).drop_last() =~= items.take(n));
        lemma_listed_kinds_none(items, n + 1);
    } else {
        assert(items.take(n) =~= items);
    }
}

/// The `type` keyword values of the schemas that have one, in order.
pub open spec fn type_declarations(schemas: Seq<JsonData>) -> Seq<JsonData>
    decreases schemas.len(),
{
    if schemas.len() == 0 {
        Seq::empty()
    } else {
        let rest = type_declarations(schemas.drop_last());
        match schemas.last() {
            JsonData::Object(entries) => {
                let k = member_index(entries, "type"@);
                if k >= 0 {
                    rest.push(entries[k].1)
                } else {
                    rest
                }
            },
            _ => rest,
        }
    }
}

/// The kinds every declaration admits, or `None` when there is no
/// declaration or one of them is not a list of known type names.
pub open spec fn common_kinds(declarations: Seq<JsonData>) -> Option<KindSet>
    decreases declarations.len(),
{
    if declarations.len() == 0 {
        None
    } else if declarations.len() == 1 {
        declared_kinds(declarations[0])
    } else {
        match (common_kinds(declarations.drop_last()), declared_kinds(declarations.last())) {
            (Some(a), Some(b)) => Some(intersect(a, b)),
            _ => None,
        }
    }
}

/// How many of the non-null kinds `kinds` holds.
pub open spec fn non_null_count(kinds: KindSet) -> int {
    (if kinds.string { 1int } else { 0 }) + (if kinds.number { 1int } else { 0 }) + (if kinds.integer { 1int } else { 0 })
        + (if kinds.boolean { 1int } else { 0 }) + (if kinds.object { 1int } else { 0 }) + (if kinds.array { 1int } else { 0 })
}

/// The one non-null kind of a set holding exactly one.
pub open spec fn sole_kind(kinds: KindSet) -> ProjectedKind {
    if kinds.string {
        ProjectedKind::String
    } else if kinds.number {
        ProjectedKind::Number
    } else if kinds.integer {
        ProjectedKind::Integer
    } else if kinds.boolean {
        ProjectedKind::Boolean
    } else if kinds.object {
        ProjectedKind::Object
    } else {
        ProjectedKind::Array
    }
}

/// The single kind the `type` declarations of the applicable schemas agree
/// on: `Null` when they admit only null; `Number` when they admit exactly
/// numbers and integers; otherwise the one remaining kind. There is none when
/// no schema declares a type, a declaration is malformed, nullable objects or
/// arrays are admitted, or several kinds remain.
pub open spec fn spec_infer_kind(schemas: Seq<JsonData>) -> Option<ProjectedKind> {
    match common_kinds(type_declarations(schemas)) {
        None => None,
        Some(kinds) => {
            let accepts_null = kinds.null;
            let rest = KindSet { null: false, ..kinds };
            if non_null_count(rest) == 0 {
                if accepts_null { Some(ProjectedKind::Null) } else { None }
            } else if accepts_null && (rest.object || rest.array) {
                None
            } else if rest == (KindSet { number: true, integer: true, ..no_kinds() }) {
                Some(ProjectedKind::Number)
            } else if non_null_count(rest) == 1 {
                Some(sole_kind(rest))
            } else {
                None
            }
        },
    }
}

/// The data of a list of borrowed values.
pub open spec fn schema_data(schemas: Seq<&JsonValue>) -> Seq<JsonData> {
    schemas.map_values(|s: &JsonValue| s@)
}

fn type_member(schema: &JsonValue) -> (r: Option<&JsonValue>)
    ensures
        match schema@ {
            JsonData::Object(entries) => {
                let k = member_index(entries, "type"@);
                if k >= 0 {
                    r matches Some(v) && v@ == entries[k].1
                } else {
                    r is None
                }
            },
            _ => r is None,
        },
{
    match schema {
        JsonValue::Object(entries) => match find_member(entries, "type") {
            Some(k) => Some(&entries[k].1),
            None => None,
        },
        _ => None,
    }
}

/// Infers the single kind the applicable schemas project (see [`spec_infer_kind`]).
pub fn infer_kind(applicable: &Vec<&JsonValue>) -> (r: Option<ProjectedKind>)
    ensures
        r == spec_infer_kind(schema_data(applicable@)),
{
    let ghost all = schema_data(applicable@);
    let mut common: Option<KindSet> = None;
    let mut seen: usize = 0;
    let mut i: usize = 0;
    while i < applicable.len()
        invariant
            all == schema_data(applicable@),
            i <= applicable.len(),
            seen <= i,
            seen == type_declarations(all.take(i as int)).len(),
            seen == 0 ==> common is None,
            seen > 0 ==> common == common_kinds(type_declarations(all.take(i as int))),
        decreases applicable.len() - i,
    {
        assert(all.take(i + 1).drop_last() =~= all.take(i as int));
        assert(all.take(i + 1).last() == applicable@[i as int]@);
        let ghost before = type_declarations(all.take(i as int));
        match type_member(applicable[i]) {
            Some(declared) => {
                assert(type_declarations(all.take(i + 1)) == before.push(declared@));
                assert(before.push(declared@).drop_last() =~= before);
                let kinds = declared_projected_kinds(declared);
                if seen == 0 {
                    common = kinds;
                } else {
                    common = match (common, kinds) {
                        (Some(a), Some(b)) => Some(intersect_kinds(a, b)),
                        _ => None,
                    };
                }
                seen = seen + 1;
            },
            None => {
                assert(type_declarations(all.take(i + 1)) == before);
            },
        }
        i += 1;
    }
    assert(all.take(applicable.len() as int) =~= all);
    let kinds = match common {
        None => return None,
        Some(kinds) => kinds,
    };
    let accepts_null = kinds.null;
    let rest = KindSet { null: false, ..kinds };
    let count = count_non_null(rest);
    if count == 0 {
        return if accepts_null { Some(ProjectedKind::Null) } else { None };
    }
    if accepts_null && (rest.object || rest.array) {
        return None;
    }
    if rest.number && rest.integer && !rest.string && !rest.boolean && !rest.object && !rest.array {
        return Some(ProjectedKind::Number);
    }
    if count == 1 {
        Some(if rest.string {
            ProjectedKind::String
        } else if rest.number {
            ProjectedKind::Number
        } else if rest.integer {
            ProjectedKind::Integer
        } else if rest.boolean {
            ProjectedKind::Boolean
        } else if rest.object {
            ProjectedKind::Object
        } else {
            ProjectedKind::Array
        })
    } else {
        None
    }
}

fn intersect_kinds(a: KindSet, b: KindSet) -> (r: KindSet)
    ensures
        r == intersect(a, b),
{
    KindSet {
        string: a.string && b.string,
        number: a.number && b.number,
        integer: a.integer && b.integer,
        boolean: a.boolean && b.boolean,
        null: a.null && b.null,
        object: a.object && b.object,
        array: a.array && b.array,
    }
}

fn count_non_null(kinds: KindSet) -> (r: u8)
    ensures
        r as int == non_null_count(kinds),
{
    (if kinds.string { 1u8 } else { 0 }) + (if kinds.number { 1u8 } else { 0 }) + (if kinds.integer { 1u8 } else { 0 })
        + (if kinds.boolean { 1u8 } else { 0 }) + (if kinds.object { 1u8 } else { 0 }) + (if kinds.array { 1u8 } else { 0 })
}

/// A value is an instance of the JSON Schema type named `kind`; `integer`
/// admits every number whose value is integral.
pub open spec fn matches_type(value: JsonData, kind: Seq<char>) -> bool {
    if kind == "string"@ {
        value is String
    } else if kind == "number"@ {
        value is Number
    } else if kind == "integer"@ {
        value matches JsonData::Number(text) && spec_number_is_integer(text)
    } else if kind == "boolean"@ {
        value is Bool
    } else if kind == "null"@ {
        value is Null
    } else if kind == "object"@ {
        value is Object
    } else if kind == "array"@ {
        value is Array
    } else {
        false
    }
}

/// Whether `value` is an instance of the JSON Schema type named `kind`.
pub fn value_matches_type(value: &JsonValue, kind: &str) -> (r: bool)
    ensures
        r == matches_type(value@, kind@),
{
    if str_eq(kind, "string") {
        matches!(value, JsonValue::String(_))
    } else if str_eq(kind, "number") {
        matches!(value, JsonValue::Number(_))
    } else if str_eq(kind, "integer") {
        match value {
            JsonValue::Number(n) => number_is_integer(n.as_str()),
            _ => false,
        }
    } else if str_eq(kind, "boolean") {
        matches!(value, JsonValue::Bool(_))
    } else if str_eq(kind, "null") {
        matches!(value, JsonValue::Null)
    } else if str_eq(kind, "object") {
        matches!(value, JsonValue::Object(_))
    } else if str_eq(kind, "array") {
        matches!(value, JsonValue::Array(_))
    } else {
        false
    }
}

/// `item` is a type name and `value` is an instance of that type.
pub open spec fn names_type_of(item: JsonData, value: JsonData) -> bool {
    match item {
        JsonData::String(kind) => matches_type(value, kind),
        _ => false,
    }
}

/// A value satisfies a `type` keyword value: the named type, or one of the
/// named types of an array (entries that are not strings are ignored).
pub open spec fn matches_declaration(value: JsonData, declaration: JsonData) -> bool {
    match declaration {
        JsonData::String(kind) => matches_type(value, kind),
        JsonData::Array(items) => exists|i: int| 0 <= i < items.len() && names_type_of(#[trigger] items[i], value),
        _ => false,
    }
}

/// Whether `value` satisfies the `type` keyword value `declaration`.
pub fn value_matches_type_declaration(value: &JsonValue, declaration: &JsonValue) -> (r: bool)
    ensures
        r == matches_declaration(value@, declaration@),
{
    match declaration {
        JsonValue::String(kind) => value_matches_type(value, kind.as_str()),
        JsonValue::Array(kinds) => {
            let ghost data = declaration@->Array_0;
            let mut i: usize = 0;
            while i < kinds.len()
                invariant
                    *declaration == JsonValue::Array(*kinds),
                    data == declaration@->Array_0,
                    i <= kinds.len(),
                    forall|j: int| 0 <= j < i ==> !names_type_of(#[trigger] data[j], value@),
                decreases kinds.len() - i,
            {
                assert(data[i as int] == kinds@[i as int]@);
                match &kinds[i] {
                    JsonValue::String(kind) => {
                        if value_matches_type(value, kind.as_str()) {
                            return true;
                        }
                    },
                    _ => {},
                }
                i += 1;
            }
            false
        },
        _ => false,
    }
}

/// Some applicable schema declares a type, and every declared type admits null.
pub open spec fn spec_accepts_null(schemas: Seq<JsonData>) -> bool {
    let declarations = type_declarations(schemas);
    declarations.len() > 0 && forall|j: int| 0 <= j < declarations.len() ==> matches_declaration(JsonData::Null, #[trigger] declarations[j])
}

/// Whether the applicable schemas' type declarations all admit null.
pub fn applicable_accepts_null(applicable: &Vec<&JsonValue>) -> (r: bool)
    ensures
        r == spec_accepts_null(schema_data(applicable@)),
{
    let ghost all = schema_data(applicable@);
    let null = JsonValue::Null;
    let mut seen: usize = 0;
    let mut i: usize = 0;
    while i < applicable.len()
        invariant
            all == schema_data(applicable@),
            null@ == JsonData::Null,
            i <= applicable.len(),
            seen <= i,
            seen == type_declarations(all.take(i as int)).len(),
            forall|j: int| 0 <= j < seen ==> matches_declaration(JsonData::Null, #[trigger] type_declarations(all.take(i as int))[j]),
        decreases applicable.len() - i,
    {
        assert(all.take(i + 1).drop_last() =~= all.take(i as int));
        assert(all.take(i + 1).last() == applicable@[i as int]@);
        let ghost before = type_declarations(all.take(i as int));
        match type_member(applicable[i]) {
            Some(declared) => {
                assert(type_declarations(all.take(i + 1)) == before.push(declared@));
                if !value_matches_type_declaration(&null, declared) {
                    proof {
                        lemma_declarations_prefix(all, i as int + 1);
                        let d = type_declarations(all);
                        assert(d[seen as int] == declared@);
                    }
                    return false;
                }
                seen = seen + 1;
            },
            None => {
                assert(type_declarations(all.take(i + 1)) == before);
            },
        }
        i += 1;
    }
    assert(all.take(applicable.len() as int) =~= all);
    seen > 0
}

proof fn lemma_declarations_prefix(schemas: Seq<JsonData>, n: int)
    requires
        0 <= n <= schemas.len(),
    ensures
        type_declarations(schemas.take(n)).len() <= type_declarations(schemas).len(),
        forall|j: int| 0 <= j < type_declarations(schemas.take(n)).len() ==>
            #[trigger] type_declarations(schemas)[j] == type_declarations(schemas.take(n))[j],
    decreases schemas.len() - n,
{
    if n < schemas.len() {
        assert(schemas.take(n + 1).drop_last() =~= schemas.take(n));
        lemma_declarations_prefix(schemas, n + 1);
    } else {
        assert(schemas.take(n) =~= schemas);
    }
}

/// A bounded count of visits in one projection traversal.
pub struct ProjectionTraversal {
    maximum: usize,
    observed: usize,
}

impl ProjectionTraversal {
    pub closed spec fn maximum_spec(&self) -> usize {
        self.maximum
    }

    pub closed spec fn observed_spec(&self) -> usize {
        self.observed
    }

    /// A traversal allowed `maximum` visits, none made yet.
    pub fn new(maximum: usize) -> (r: ProjectionTraversal)
        ensures
            r.maximum_spec() == maximum,
            r.observed_spec() == 0,
    {
        ProjectionTraversal { maximum, observed: 0 }
    }

    /// Counts one visit (saturating); fails once the count exceeds the maximum.
    pub fn visit(&mut self) -> (r: Result<(), CompilationLimitError>)
        ensures
            final(self).maximum_spec() == old(self).maximum_spec(),
            final(self).observed_spec() == if old(self).observed_spec() == usize::MAX {
                usize::MAX
            } else {
                (old(self).observed_spec() + 1) as usize
            },
            final(self).observed_spec() > final(self).maximum_spec() <==> r is Err,
            r matches Err(e) ==> e@ == (CompilationLimitFailure {
                phase: CompilationLimitPhase::Projection,
                dimension: CompilationLimitDimension::Traversal,
                maximum: final(self).maximum_spec() as nat,
                observed: final(self).observed_spec() as nat,
                pointer: Seq::empty(),
            }),
    {
        self.observed = self.observed.saturating_add(1);
        if self.observed > self.maximum {
            return Err(CompilationLimitError::new(
                CompilationLimitPhase::Projection,
                CompilationLimitDimension::Traversal,
                self.maximum,
                self.observed,
                String::new(),
            ));
        }
        Ok(())
    }
}

} // verus!
