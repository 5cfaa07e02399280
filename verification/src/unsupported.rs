use vstd::prelude::*;

use crate::address::{append_token, append_token_spec, lemma_append_token_valid, JsonPointer};
use crate::annotations::{all_declared_names, declared_type_names, keyword_values, sorted_text_set, texts};
use crate::choices::{
    any_probe, any_probe_exec, earliest, earliest_exec, finding_at, implicit_parameters, keyword_finding,
    lemma_earliest_bounds, located_lt, located_lt_exec, schemas_of, FindingReport, LocatedSchema,
    UnsupportedFinding,
};
use crate::projection::ProjectedKind;
use crate::value::{JsonData, JsonValue};

verus! {

/// The least located subschema (by resource, then pointer) that carries
/// keyword `keyword`, the first of equals.
pub fn first_keyword_origin<'a, 'b>(applicable: &'a Vec<LocatedSchema<'b>>, keyword: &str) -> (r: Option<&'a LocatedSchema<'b>>)
    ensures
        ({
            let k = earliest(applicable@, keyword@, 0, applicable.len() as int);
            match r {
                Some(l) => 0 <= k < applicable.len() && *l == applicable@[k],
                None => k == -1,
            }
        }),
{
    match earliest_exec(applicable, keyword, 0) {
        Some(i) => Some(&applicable[i]),
        None => None,
    }
}

/// The position of the first least located subschema (by resource, then
/// pointer) among the first `n`, or -1 when there is none.
pub open spec fn least_located(a: Seq<LocatedSchema>, n: int) -> int
    decreases n,
{
    if n <= 0 || n > a.len() {
        -1
    } else {
        let best = least_located(a, n - 1);
        if best < 0 || located_lt(a[n - 1], a[best]) {
            n - 1
        } else {
            best
        }
    }
}

proof fn lemma_least_located_bounds(a: Seq<LocatedSchema>, n: int)
    requires
        0 <= n <= a.len(),
    ensures
        -1 <= least_located(a, n) < n,
        n > 0 ==> least_located(a, n) >= 0,
    decreases n,
{
    if n > 0 {
        lemma_least_located_bounds(a, n - 1);
    }
}

fn least_located_exec(applicable: &Vec<LocatedSchema>) -> (r: Option<usize>)
    ensures
        match r {
            Some(i) => least_located(applicable@, applicable.len() as int) == i && i < applicable.len(),
            None => least_located(applicable@, applicable.len() as int) == -1,
        },
{
    let mut best: Option<usize> = None;
    let mut n: usize = 0;
    while n < applicable.len()
        invariant
            n <= applicable.len(),
            match best {
                Some(i) => least_located(applicable@, n as int) == i && i < n,
                None => least_located(applicable@, n as int) == -1,
            },
        decreases applicable.len() - n,
    {
        match best {
            None => best = Some(n),
            Some(i) => {
                if located_lt_exec(&applicable[n], &applicable[i]) {
                    best = Some(n);
                }
            },
        }
        n += 1;
    }
    best
}

/// The dynamic-map finding at `keyword_location` of the located subschema `l`.
pub open spec fn dynamic_map_finding(l: LocatedSchema, keyword_location: Seq<char>, implicit: bool) -> FindingReport {
    FindingReport {
        code: "applicator.additional-properties.dynamic-map"@,
        keyword_location,
        resource: l.resource@,
        parameters: implicit_parameters(implicit),
    }
}

/// The findings of an object without declared properties, which the form
/// projects as a dynamic map: none when some schema declares `properties`;
/// otherwise, unless a schema closes the object, the dynamic map itself (at
/// the least schema with a schema-valued or `true` `additionalProperties`,
/// else implicitly at the least schema), then `patternProperties` and
/// `unevaluatedProperties` at the least schema carrying each.
pub open spec fn spec_dynamic_object_map_findings(a: Seq<LocatedSchema>) -> Seq<FindingReport> {
    if any_probe(a, "properties"@, 0) {
        Seq::empty()
    } else {
        let explicit = earliest(a, "additionalProperties"@, 5, a.len() as int);
        let origin = least_located(a, a.len() as int);
        let first: Seq<FindingReport> = if any_probe(a, "additionalProperties"@, 2) {
            Seq::empty()
        } else if explicit >= 0 {
            seq![dynamic_map_finding(a[explicit], append_token_spec(a[explicit].pointer@, "additionalProperties"@), false)]
        } else if origin >= 0 {
            seq![dynamic_map_finding(a[origin], a[origin].pointer@, true)]
        } else {
            Seq::empty()
        };
        let pattern = earliest(a, "patternProperties"@, 0, a.len() as int);
        let second = if pattern >= 0 {
            first.push(keyword_finding(a[pattern], "patternProperties"@, "applicator.pattern-properties.shape"@))
        } else {
            first
        };
        let unevaluated = earliest(a, "unevaluatedProperties"@, 0, a.len() as int);
        if unevaluated >= 0 {
            second.push(keyword_finding(a[unevaluated], "unevaluatedProperties"@, "unevaluated.properties.shape"@))
        } else {
            second
        }
    }
}

/// The findings of an object projected as a dynamic map (see
/// [`spec_dynamic_object_map_findings`]).
pub fn dynamic_object_map_findings(applicable: &Vec<LocatedSchema>) -> (r: Vec<UnsupportedFinding>)
    ensures
        r@.map_values(|f: UnsupportedFinding| f@) == spec_dynamic_object_map_findings(applicable@),
{
    let ghost a = applicable@;
    let mut findings: Vec<UnsupportedFinding> = Vec::new();
    if any_probe_exec(applicable, "properties", 0) {
        assert(findings@.map_values(|f: UnsupportedFinding| f@) =~= Seq::<FindingReport>::empty());
        return findings;
    }
    proof {
        lemma_earliest_bounds(a, "additionalProperties"@, 5, a.len() as int);
        lemma_earliest_bounds(a, "patternProperties"@, 0, a.len() as int);
        lemma_earliest_bounds(a, "unevaluatedProperties"@, 0, a.len() as int);
        lemma_least_located_bounds(a, a.len() as int);
    }
    if !any_probe_exec(applicable, "additionalProperties", 2) {
        let explicit = earliest_exec(applicable, "additionalProperties", 5);
        let chosen = match explicit {
            Some(i) => Some((i, false)),
            None => match least_located_exec(applicable) {
                Some(i) => Some((i, true)),
                None => None,
            },
        };
        match chosen {
            Some((i, implicit)) => {
                let origin = &applicable[i];
                let location = if implicit {
                    origin.pointer.as_str().to_string()
                } else {
                    let at = append_token(origin.pointer.as_str(), "additionalProperties");
                    proof {
                        lemma_append_token_valid(origin.pointer@, "additionalProperties"@);
                    }
                    at
                };
                assert(crate::address::is_pointer_text(location@));
                let mut members: Vec<(String, JsonValue)> = Vec::new();
                let name = "implicit".to_string();
                let flag = JsonValue::Bool(implicit);
                let ghost member = (name@, flag@);
                members.push((name, flag));
                let parameters = JsonValue::Object(members);
                assert(parameters@ == implicit_parameters(implicit)) by {
                    assert(parameters@->Object_0 =~= seq![member]);
                }
                let finding = UnsupportedFinding {
                    code: "applicator.additional-properties.dynamic-map".to_string(),
                    keyword_location: JsonPointer::from_valid(location),
                    resource: origin.resource.clone(),
                    parameters,
                };
                findings.push(finding);
            },
            None => {},
        }
    }
    let ghost first = findings@.map_values(|f: UnsupportedFinding| f@);
    match earliest_exec(applicable, "patternProperties", 0) {
        Some(i) => {
            let finding = finding_at(&applicable[i], "patternProperties", "applicator.pattern-properties.shape");
            findings.push(finding);
        },
        None => {},
    }
    let ghost second = findings@.map_values(|f: UnsupportedFinding| f@);
    match earliest_exec(applicable, "unevaluatedProperties", 0) {
        Some(i) => {
            let finding = finding_at(&applicable[i], "unevaluatedProperties", "unevaluated.properties.shape");
            findings.push(finding);
        },
        None => {},
    }
    assert(findings@.map_values(|f: UnsupportedFinding| f@) =~= spec_dynamic_object_map_findings(a));
    findings
}

/// The finding `code` at keyword `keyword` of a located subschema, or at the
/// subschema itself when there is no keyword; empty parameters.
pub open spec fn region_finding(l: LocatedSchema, keyword: Option<Seq<char>>, code: Seq<char>) -> FindingReport {
    match keyword {
        Some(k) => keyword_finding(l, k, code),
        None => FindingReport {
            code,
            keyword_location: l.pointer@,
            resource: l.resource@,
            parameters: JsonData::Object(Seq::empty()),
        },
    }
}

/// Some applicable schema is a boolean schema.
pub open spec fn any_boolean_schema(a: Seq<LocatedSchema>) -> bool {
    exists|i: int| 0 <= i < a.len() && (#[trigger] a[i]).schema@ is Bool
}

fn any_boolean_schema_exec(applicable: &Vec<LocatedSchema>) -> (r: bool)
    ensures
        r == any_boolean_schema(applicable@),
{
    let mut i: usize = 0;
    while i < applicable.len()
        invariant
            i <= applicable.len(),
            forall|j: int| 0 <= j < i ==> !((#[trigger] applicable@[j]).schema@ is Bool),
        decreases applicable.len() - i,
    {
        match applicable[i].schema {
            JsonValue::Bool(_) => {
                return true;
            },
            _ => {},
        }
        i += 1;
    }
    false
}

/// The code and keyword of the finding for a root the form cannot project:
/// an array root, a scalar root (at `type` when a kind is known), a root
/// declared only as an array, an unconstrained boolean schema, an ambiguous
/// `type`, or no type constraint at all.
pub open spec fn root_code(a: Seq<LocatedSchema>, kind: Option<ProjectedKind>, has_scalar_choices: bool) -> (Seq<char>, Option<Seq<char>>) {
    let names = all_declared_names(keyword_values(schemas_of(a), "type"@));
    if kind == Some(ProjectedKind::Array) {
        ("structure.root.array"@, Some("type"@))
    } else if kind is Some || has_scalar_choices {
        ("structure.root.scalar"@, if kind is Some { Some("type"@) } else { None })
    } else if names.len() > 0 && forall|i: int| 0 <= i < names.len() ==> #[trigger] names[i] == "array"@ {
        ("structure.root.array"@, Some("type"@))
    } else if any_boolean_schema(a) {
        ("core.boolean.unconstrained"@, None)
    } else if names.len() > 0 {
        ("validation.type.ambiguous"@, Some("type"@))
    } else {
        ("validation.type.unconstrained"@, None)
    }
}

/// The finding for a root the form cannot project (see [`root_code`]), at
/// the least schema carrying the keyword, else at the first applicable schema.
pub open spec fn spec_unsupported_root_finding(a: Seq<LocatedSchema>, kind: Option<ProjectedKind>, has_scalar_choices: bool) -> FindingReport {
    let (code, keyword) = root_code(a, kind, has_scalar_choices);
    match keyword {
        Some(k) => {
            let origin = earliest(a, k, 0, a.len() as int);
            if origin >= 0 {
                region_finding(a[origin], keyword, code)
            } else {
                region_finding(a[0], keyword, code)
            }
        },
        None => region_finding(a[0], keyword, code),
    }
}

fn region_finding_exec(l: &LocatedSchema, keyword: Option<&str>, code: &str) -> (r: UnsupportedFinding)
    ensures
        r@ == region_finding(*l, match keyword { Some(k) => Some(k@), None => None }, code@),
{
    match keyword {
        Some(k) => finding_at(l, k, code),
        None => {
            let parameters = JsonValue::Object(Vec::new());
            assert(parameters@->Object_0 =~= Seq::<(Seq<char>, JsonData)>::empty());
            UnsupportedFinding {
                code: code.to_string(),
                keyword_location: JsonPointer::from_valid(l.pointer.as_str().to_string()),
                resource: l.resource.clone(),
                parameters,
            }
        },
    }
}

/// The finding for a root the form cannot project (see
/// [`spec_unsupported_root_finding`]).
pub fn unsupported_root_finding(
    applicable: &Vec<LocatedSchema>,
    kind: Option<ProjectedKind>,
    has_scalar_choices: bool,
) -> (r: UnsupportedFinding)
    requires
        applicable.len() > 0,
    ensures
        r@ == spec_unsupported_root_finding(applicable@, kind, has_scalar_choices),
{
    let names = declared_type_names(applicable);
    let ghost all = all_declared_names(keyword_values(schemas_of(applicable@), "type"@));
    let only_array = names.len() == 1 && crate::text::str_eq(names[0].as_str(), "array");
    proof {
        let t = texts(names@);
        assert(sorted_text_set(t, all));
        if names.len() > 0 {
            assert(t.contains(t[0]));
        }
        if only_array {
            assert forall|i: int| 0 <= i < all.len() implies #[trigger] all[i] == "array"@ by {
                assert(all.contains(all[i]));
                assert(t.contains(all[i]));
                let k = choose|k: int| 0 <= k < t.len() && t[k] == all[i];
                assert(k == 0);
            }
        }
        if names.len() == 0 && all.len() > 0 {
            assert(all.contains(all[0]));
        }
        if names.len() > 1 && all.len() > 0 {
            assert(t.contains(t[0]) && t.contains(t[1]));
            assert(crate::annotations::text_before(t[0], t[1]));
            if forall|i: int| 0 <= i < all.len() ==> #[trigger] all[i] == "array"@ {
                let a0 = choose|k: int| 0 <= k < all.len() && all[k] == t[0];
                let a1 = choose|k: int| 0 <= k < all.len() && all[k] == t[1];
                assert(all[a0] == "array"@ && all[a1] == "array"@);
            }
        }
        if names.len() == 1 && !only_array && all.len() > 0 {
            assert(t[0] != "array"@);
            let a0 = choose|k: int| 0 <= k < all.len() && all[k] == t[0];
            assert(all[a0] != "array"@);
        }
    }
    let (code, keyword): (&str, Option<&str>) = if kind == Some(ProjectedKind::Array) {
        ("structure.root.array", Some("type"))
    } else if kind.is_some() || has_scalar_choices {
        ("structure.root.scalar", if kind.is_some() { Some("type") } else { None })
    } else if only_array {
        ("structure.root.array", Some("type"))
    } else if any_boolean_schema_exec(applicable) {
        ("core.boolean.unconstrained", None)
    } else if names.len() > 0 {
        ("validation.type.ambiguous", Some("type"))
    } else {
        ("validation.type.unconstrained", None)
    };
    let origin = match keyword {
        Some(k) => match earliest_exec(applicable, k, 0) {
            Some(i) => i,
            None => 0,
        },
        None => 0,
    };
    region_finding_exec(&applicable[origin], keyword, code)
}

/// The finding for a control the form cannot project: an unconstrained
/// boolean schema at the control, an ambiguous `type` at the least schema
/// declaring one, or no type constraint at the control.
pub open spec fn spec_unsupported_control_finding(a: Seq<LocatedSchema>, location: LocatedSchema) -> FindingReport {
    let origin = earliest(a, "type"@, 0, a.len() as int);
    if any_boolean_schema(a) {
        region_finding(location, None, "core.boolean.unconstrained"@)
    } else if origin >= 0 {
        region_finding(a[origin], Some("type"@), "validation.type.ambiguous"@)
    } else {
        region_finding(location, None, "validation.type.unconstrained"@)
    }
}

/// The finding for a control the form cannot project (see
/// [`spec_unsupported_control_finding`]).
pub fn unsupported_control_finding(applicable: &Vec<LocatedSchema>, location: &LocatedSchema) -> (r: UnsupportedFinding)
    ensures
        r@ == spec_unsupported_control_finding(applicable@, *location),
{
    if any_boolean_schema_exec(applicable) {
        return region_finding_exec(location, None, "core.boolean.unconstrained");
    }
    match earliest_exec(applicable, "type", 0) {
        Some(i) => region_finding_exec(&applicable[i], Some("type"), "validation.type.ambiguous"),
        None => region_finding_exec(location, None, "validation.type.unconstrained"),
    }
}

} // verus!
