use vstd::prelude::*;

use crate::address::{JsonPointer, SchemaLocation};
use crate::limits::{byte_len, sat_add};
use crate::state::DataRevision;
use crate::text::{chars_of, utf8_width};
use crate::value::{JsonData, JsonValue};

verus! {

/// One validator-produced explanation of an invalid validation outcome:
/// the keyword code, the invalid value's location in form data, the failing
/// schema keyword's location, and code-specific parameters.
#[derive(Debug)]
pub struct ValidationFinding {
    code: String,
    instance_location: JsonPointer,
    keyword_location: SchemaLocation,
    parameters: JsonValue,
}

impl ValidationFinding {
    pub closed spec fn code_spec(&self) -> Seq<char> {
        self.code@
    }

    pub closed spec fn instance_spec(&self) -> Seq<char> {
        self.instance_location@
    }

    pub closed spec fn keyword_resource_spec(&self) -> Seq<char> {
        self.keyword_location.resource_spec()
    }

    pub closed spec fn keyword_pointer_spec(&self) -> Seq<char> {
        self.keyword_location.pointer_spec()
    }

    pub closed spec fn parameters_spec(&self) -> JsonData {
        self.parameters@
    }

    /// A finding with the given parts.
    pub fn new(code: String, instance_location: JsonPointer, keyword_location: SchemaLocation, parameters: JsonValue) -> (r: ValidationFinding)
        ensures
            r.code_spec() == code@,
            r.instance_spec() == instance_location@,
            r.keyword_resource_spec() == keyword_location.resource_spec(),
            r.keyword_pointer_spec() == keyword_location.pointer_spec(),
            r.parameters_spec() == parameters@,
    {
        ValidationFinding { code, instance_location, keyword_location, parameters }
    }

    /// Returns the stable keyword code used to select presentation and parameters.
    pub fn code(&self) -> (r: &str)
        ensures
            r@ == self.code_spec(),
    {
        self.code.as_str()
    }

    /// Returns the location of the invalid value in form data.
    pub fn instance_location(&self) -> (r: &JsonPointer)
        ensures
            r@ == self.instance_spec(),
    {
        &self.instance_location
    }

    /// Returns the resource and pointer of the failing data-schema keyword.
    pub fn keyword_location(&self) -> (r: &SchemaLocation)
        ensures
            r.resource_spec() == self.keyword_resource_spec(),
            r.pointer_spec() == self.keyword_pointer_spec(),
    {
        &self.keyword_location
    }

    /// Returns keyword-specific structured parameters.
    pub fn parameters(&self) -> (r: &JsonValue)
        ensures
            r@ == self.parameters_spec(),
    {
        &self.parameters
    }
}

/// A host-supplied finding about one form-data location.
#[derive(Debug)]
pub struct ExternalFinding {
    code: String,
    instance_location: JsonPointer,
    parameters: JsonValue,
    blocking: bool,
}

/// The content of an external finding.
pub struct ExternalFindingData {
    pub code: Seq<char>,
    pub instance_location: Seq<char>,
    pub parameters: JsonData,
    pub blocking: bool,
}

impl View for ExternalFinding {
    type V = ExternalFindingData;

    closed spec fn view(&self) -> ExternalFindingData {
        ExternalFindingData {
            code: self.code@,
            instance_location: self.instance_location@,
            parameters: self.parameters@,
            blocking: self.blocking,
        }
    }
}

impl ExternalFinding {
    /// A finding that blocks submission.
    pub fn blocking(code: String, location: JsonPointer, parameters: JsonValue) -> (r: ExternalFinding)
        ensures
            r@ == (ExternalFindingData { code: code@, instance_location: location@, parameters: parameters@, blocking: true }),
    {
        ExternalFinding { code, instance_location: location, parameters, blocking: true }
    }

    /// A finding that only advises.
    pub fn advisory(code: String, location: JsonPointer, parameters: JsonValue) -> (r: ExternalFinding)
        ensures
            r@ == (ExternalFindingData { code: code@, instance_location: location@, parameters: parameters@, blocking: false }),
    {
        ExternalFinding { code, instance_location: location, parameters, blocking: false }
    }

    pub fn code(&self) -> (r: &str)
        ensures
            r@ == self@.code,
    {
        self.code.as_str()
    }

    pub fn instance_location(&self) -> (r: &JsonPointer)
        ensures
            r@ == self@.instance_location,
    {
        &self.instance_location
    }

    pub fn parameters(&self) -> (r: &JsonValue)
        ensures
            r@ == self@.parameters,
    {
        &self.parameters
    }

    pub fn is_blocking(&self) -> (r: bool)
        ensures
            r == self@.blocking,
    {
        self.blocking
    }
}

/// All findings one host source reports against one data revision.
#[derive(Debug)]
pub struct ExternalFindingBatch {
    source: String,
    revision: DataRevision,
    findings: Vec<ExternalFinding>,
}

impl ExternalFindingBatch {
    pub closed spec fn source_spec(&self) -> Seq<char> {
        self.source@
    }

    pub closed spec fn revision_spec(&self) -> DataRevision {
        self.revision
    }

    pub closed spec fn findings_spec(&self) -> Seq<ExternalFindingData> {
        self.findings@.map_values(|f: ExternalFinding| f@)
    }

    /// The batch `findings` from `source` against `revision`.
    pub fn new(source: String, revision: DataRevision, findings: Vec<ExternalFinding>) -> (r: ExternalFindingBatch)
        ensures
            r.source_spec() == source@,
            r.revision_spec() == revision,
            r.findings_spec() == findings@.map_values(|f: ExternalFinding| f@),
    {
        ExternalFindingBatch { source, revision, findings }
    }

    pub fn source(&self) -> (r: &str)
        ensures
            r@ == self.source_spec(),
    {
        self.source.as_str()
    }

    pub fn data_revision(&self) -> (r: DataRevision)
        ensures
            r == self.revision_spec(),
    {
        self.revision
    }

    /// The batch's findings, in order.
    pub fn findings(&self) -> (r: &Vec<ExternalFinding>)
        ensures
            r@.map_values(|f: ExternalFinding| f@) == self.findings_spec(),
    {
        &self.findings
    }
}

/// Adds `more` bytes to a running count (saturating); the count fails once it
/// exceeds `maximum`, reporting the count reached.
pub open spec fn add_bytes(bytes: nat, more: nat, maximum: nat) -> Result<nat, nat> {
    let b = sat_add(bytes, more);
    if b > maximum {
        Err(b)
    } else {
        Ok(b)
    }
}

/// Adds `more` bytes to `bytes` (saturating), failing with the new count when
/// it exceeds `maximum`.
pub fn add_external_finding_bytes(bytes: &mut usize, additional: usize, maximum: usize) -> (r: Result<(), usize>)
    ensures
        match add_bytes(*old(bytes) as nat, additional as nat, maximum as nat) {
            Ok(b) => r is Ok && *final(bytes) == b,
            Err(e) => r == Err::<(), usize>(e as usize) && *final(bytes) == e,
        },
{
    *bytes = (*bytes).saturating_add(additional);
    if *bytes > maximum {
        Err(*bytes)
    } else {
        Ok(())
    }
}

/// The bytes one character takes inside a compact JSON string literal.
pub open spec fn escaped_width(c: char) -> nat {
    if c == '"' || c == '\\' || c == '\u{8}' || c == '\t' || c == '\n' || c == '\u{c}' || c == '\r' {
        2
    } else if (c as u32) < 0x20 {
        6
    } else {
        utf8_width(c)
    }
}

fn escaped_width_of(c: char) -> (r: usize)
    ensures
        r == escaped_width(c),
{
    if c == '"' || c == '\\' || c == '\u{8}' || c == '\t' || c == '\n' || c == '\u{c}' || c == '\r' {
        2
    } else if (c as u32) < 0x20 {
        6
    } else if (c as u32) < 0x80 {
        1
    } else if (c as u32) < 0x800 {
        2
    } else if (c as u32) < 0x10000 {
        3
    } else {
        4
    }
}

/// Counting the characters of a string literal's body, one by one.
pub open spec fn chars_bytes(s: Seq<char>, bytes: nat, maximum: nat) -> Result<nat, nat>
    decreases s.len(),
{
    if s.len() == 0 {
        Ok(bytes)
    } else {
        match chars_bytes(s.drop_last(), bytes, maximum) {
            Err(e) => Err(e),
            Ok(b) => add_bytes(b, escaped_width(s.last()), maximum),
        }
    }
}

/// Counting a compact JSON string literal: two quotes, then its characters.
pub open spec fn string_bytes(s: Seq<char>, bytes: nat, maximum: nat) -> Result<nat, nat> {
    match add_bytes(bytes, 2, maximum) {
        Err(e) => Err(e),
        Ok(b) => chars_bytes(s, b, maximum),
    }
}

/// Adds the compact JSON encoding length of the string `value`.
pub fn add_json_string_encoded_len(value: &str, bytes: &mut usize, maximum: usize) -> (r: Result<(), usize>)
    ensures
        match string_bytes(value@, *old(bytes) as nat, maximum as nat) {
            Ok(b) => r is Ok && *final(bytes) == b,
            Err(e) => r == Err::<(), usize>(e as usize),
        },
{
    match add_external_finding_bytes(bytes, 2, maximum) {
        Err(e) => return Err(e),
        Ok(()) => {},
    }
    let chars = chars_of(value);
    let ghost start = *bytes as nat;
    let mut i: usize = 0;
    while i < chars.len()
        invariant
            chars@ == value@,
            add_bytes(*old(bytes) as nat, 2, maximum as nat) == Ok::<nat, nat>(start),
            i <= chars.len(),
            chars_bytes(chars@.take(i as int), start, maximum as nat) == Ok::<nat, nat>(*bytes as nat),
        decreases chars.len() - i,
    {
        assert(chars@.take(i + 1).drop_last() =~= chars@.take(i as int));
        match add_external_finding_bytes(bytes, escaped_width_of(chars[i]), maximum) {
            Err(e) => {
                proof {
                    lemma_chars_bytes_err(chars@, start, maximum as nat, i as int + 1);
                }
                return Err(e);
            },
            Ok(()) => {},
        }
        i += 1;
    }
    assert(chars@.take(chars.len() as int) =~= chars@);
    Ok(())
}

proof fn lemma_chars_bytes_err(s: Seq<char>, bytes: nat, maximum: nat, n: int)
    requires
        0 <= n <= s.len(),
        chars_bytes(s.take(n), bytes, maximum) is Err,
    ensures
        chars_bytes(s, bytes, maximum) == chars_bytes(s.take(n), bytes, maximum),
    decreases s.len() - n,
{
    if n < s.len() {
        assert(s.take(n + 1).drop_last() =~= s.take(n));
        lemma_chars_bytes_err(s, bytes, maximum, n + 1);
    } else {
        assert(s.take(n) =~= s);
    }
}

/// `n - 1`, or zero for zero.
pub open spec fn less_one(n: nat) -> nat {
    if n > 0 {
        (n - 1) as nat
    } else {
        0
    }
}

/// Counting the compact JSON encoding of a value in pre-order: scalars by
/// their text; an array by its brackets and commas, then its items; an
/// object by its braces, commas and colons, then each member name and value.
pub open spec fn encoded_bytes(v: JsonData, bytes: nat, maximum: nat) -> Result<nat, nat>
    decreases v, 0int,
{
    match v {
        JsonData::Null => add_bytes(bytes, 4, maximum),
        JsonData::Bool(b) => add_bytes(bytes, if b { 4 } else { 5 }, maximum),
        JsonData::Number(t) => add_bytes(bytes, byte_len(t) as nat, maximum),
        JsonData::String(s) => string_bytes(s, bytes, maximum),
        JsonData::Array(items) => match add_bytes(bytes, sat_add(2, less_one(items.len())), maximum) {
            Err(e) => Err(e),
            Ok(b) => items_bytes(items, 0, b, maximum),
        },
        JsonData::Object(entries) => match add_bytes(bytes, sat_add(sat_add(2, less_one(entries.len())), entries.len()), maximum) {
            Err(e) => Err(e),
            Ok(b) => entries_bytes(entries, 0, b, maximum),
        },
    }
}

/// Counting array items from position `i` on.
pub open spec fn items_bytes(items: Seq<JsonData>, i: int, bytes: nat, maximum: nat) -> Result<nat, nat>
    decreases items, items.len() - i,
{
    if i < 0 || i >= items.len() {
        Ok(bytes)
    } else {
        match encoded_bytes(items[i], bytes, maximum) {
            Err(e) => Err(e),
            Ok(b) => items_bytes(items, i + 1, b, maximum),
        }
    }
}

/// Counting object members from position `i` on: name, then value.
pub open spec fn entries_bytes(entries: Seq<(Seq<char>, JsonData)>, i: int, bytes: nat, maximum: nat) -> Result<nat, nat>
    decreases entries, entries.len() - i,
{
    if i < 0 || i >= entries.len() {
        Ok(bytes)
    } else {
        match string_bytes(entries[i].0, bytes, maximum) {
            Err(e) => Err(e),
            Ok(b) => {
                proof {
                    assert(decreases_to!(entries => entries[i]));
                    assert(decreases_to!(entries[i] => entries[i].1));
                }
                match encoded_bytes(entries[i].1, b, maximum) {
                    Err(e) => Err(e),
                    Ok(c) => entries_bytes(entries, i + 1, c, maximum),
                }
            },
        }
    }
}

/// Adds the compact JSON encoding length of `value` (see [`encoded_bytes`]).
pub fn add_json_encoded_len(value: &JsonValue, bytes: &mut usize, maximum: usize) -> (r: Result<(), usize>)
    ensures
        match encoded_bytes(value@, *old(bytes) as nat, maximum as nat) {
            Ok(b) => r is Ok && *final(bytes) == b,
            Err(e) => r == Err::<(), usize>(e as usize),
        },
    decreases value,
{
    match value {
        JsonValue::Null => add_external_finding_bytes(bytes, 4, maximum),
        JsonValue::Bool(b) => add_external_finding_bytes(bytes, if *b { 4 } else { 5 }, maximum),
        JsonValue::Number(n) => add_external_finding_bytes(bytes, n.as_str().len(), maximum),
        JsonValue::String(s) => add_json_string_encoded_len(s.as_str(), bytes, maximum),
        JsonValue::Array(items) => {
            let separators = if items.len() > 0 { items.len() - 1 } else { 0 };
            match add_external_finding_bytes(bytes, 2usize.saturating_add(separators), maximum) {
                Err(e) => return Err(e),
                Ok(()) => {},
            }
            let ghost data = value@->Array_0;
            let ghost total = encoded_bytes(value@, *old(bytes) as nat, maximum as nat);
            let mut i: usize = 0;
            while i < items.len()
                invariant
                    *value == JsonValue::Array(*items),
                    data == value@->Array_0,
                    i <= items.len(),
                    total == encoded_bytes(value@, *old(bytes) as nat, maximum as nat),
                    total == items_bytes(data, i as int, *bytes as nat, maximum as nat),
                decreases items.len() - i,
            {
                proof {
                    vstd::std_specs::vec::axiom_vec_index_decreases(*items, i as int);
                    assert(decreases_to!(*value => (*value)->Array_0));
                }
                match add_json_encoded_len(&items[i], bytes, maximum) {
                    Err(e) => return Err(e),
                    Ok(()) => {},
                }
                i += 1;
            }
            Ok(())
        },
        JsonValue::Object(entries) => {
            let separators = if entries.len() > 0 { entries.len() - 1 } else { 0 };
            let header = 2usize.saturating_add(separators).saturating_add(entries.len());
            match add_external_finding_bytes(bytes, header, maximum) {
                Err(e) => return Err(e),
                Ok(()) => {},
            }
            let ghost data = value@->Object_0;
            let ghost total = encoded_bytes(value@, *old(bytes) as nat, maximum as nat);
            let mut i: usize = 0;
            while i < entries.len()
                invariant
                    *value == JsonValue::Object(*entries),
                    data == value@->Object_0,
                    i <= entries.len(),
                    total == encoded_bytes(value@, *old(bytes) as nat, maximum as nat),
                    total == entries_bytes(data, i as int, *bytes as nat, maximum as nat),
                decreases entries.len() - i,
            {
                proof {
                    vstd::std_specs::vec::axiom_vec_index_decreases(*entries, i as int);
                    assert(decreases_to!(*value => (*value)->Object_0));
                    assert(decreases_to!(entries@[i as int] => entries@[i as int].1));
                }
                match add_json_string_encoded_len(entries[i].0.as_str(), bytes, maximum) {
                    Err(e) => return Err(e),
                    Ok(()) => {},
                }
                match add_json_encoded_len(&entries[i].1, bytes, maximum) {
                    Err(e) => return Err(e),
                    Ok(()) => {},
                }
                i += 1;
            }
            Ok(())
        },
    }
}

/// Counting a run of findings: for each, its code, its location pointer and
/// its encoded parameters.
pub open spec fn findings_bytes(findings: Seq<ExternalFindingData>, bytes: nat, maximum: nat) -> Result<nat, nat>
    decreases findings.len(),
{
    if findings.len() == 0 {
        Ok(bytes)
    } else {
        match findings_bytes(findings.drop_last(), bytes, maximum) {
            Err(e) => Err(e),
            Ok(b) => {
                let f = findings.last();
                match add_bytes(b, byte_len(f.code) as nat, maximum) {
                    Err(e) => Err(e),
                    Ok(c) => match add_bytes(c, byte_len(f.instance_location) as nat, maximum) {
                        Err(e) => Err(e),
                        Ok(d) => encoded_bytes(f.parameters, d, maximum),
                    },
                }
            },
        }
    }
}

/// Counting a batch: its source once, then its findings.
pub open spec fn batch_bytes(source: Seq<char>, findings: Seq<ExternalFindingData>, maximum: nat) -> Result<nat, nat> {
    match add_bytes(0, byte_len(source) as nat, maximum) {
        Err(e) => Err(e),
        Ok(b) => findings_bytes(findings, b, maximum),
    }
}

/// Adds the bytes of every finding of `batch` (see [`findings_bytes`]).
pub fn add_external_findings_bytes(batch: &ExternalFindingBatch, bytes: &mut usize, maximum: usize) -> (r: Result<(), usize>)
    ensures
        match findings_bytes(batch.findings_spec(), *old(bytes) as nat, maximum as nat) {
            Ok(b) => r is Ok && *final(bytes) == b,
            Err(e) => r == Err::<(), usize>(e as usize),
        },
{
    let findings = &batch.findings;
    let ghost all = batch.findings_spec();
    let ghost start = *bytes as nat;
    let mut i: usize = 0;
    while i < findings.len()
        invariant
            findings == &batch.findings,
            all == batch.findings_spec(),
            start == *old(bytes) as nat,
            i <= findings.len(),
            findings_bytes(all.take(i as int), start, maximum as nat) == Ok::<nat, nat>(*bytes as nat),
        decreases findings.len() - i,
    {
        assert(all.take(i + 1).drop_last() =~= all.take(i as int));
        assert(all.take(i + 1).last() == findings@[i as int]@);
        let finding = &findings[i];
        let step = add_finding_bytes(finding, bytes, maximum);
        match step {
            Err(e) => {
                proof {
                    lemma_findings_bytes_err(all, start, maximum as nat, i as int + 1);
                }
                return Err(e);
            },
            Ok(()) => {},
        }
        i += 1;
    }
    assert(all.take(findings.len() as int) =~= all);
    Ok(())
}

fn add_finding_bytes(finding: &ExternalFinding, bytes: &mut usize, maximum: usize) -> (r: Result<(), usize>)
    ensures
        match add_bytes(*old(bytes) as nat, byte_len(finding@.code) as nat, maximum as nat) {
            Err(e) => r == Err::<(), usize>(e as usize),
            Ok(c) => match add_bytes(c, byte_len(finding@.instance_location) as nat, maximum as nat) {
                Err(e) => r == Err::<(), usize>(e as usize),
                Ok(d) => match encoded_bytes(finding@.parameters, d, maximum as nat) {
                    Ok(b) => r is Ok && *final(bytes) == b,
                    Err(e) => r == Err::<(), usize>(e as usize),
                },
            },
        },
{
    match add_external_finding_bytes(bytes, finding.code.as_str().len(), maximum) {
        Err(e) => return Err(e),
        Ok(()) => {},
    }
    match add_external_finding_bytes(bytes, finding.instance_location.as_str().len(), maximum) {
        Err(e) => return Err(e),
        Ok(()) => {},
    }
    add_json_encoded_len(&finding.parameters, bytes, maximum)
}

proof fn lemma_findings_bytes_err(s: Seq<ExternalFindingData>, bytes: nat, maximum: nat, n: int)
    requires
        0 <= n <= s.len(),
        findings_bytes(s.take(n), bytes, maximum) is Err,
    ensures
        findings_bytes(s, bytes, maximum) == findings_bytes(s.take(n), bytes, maximum),
    decreases s.len() - n,
{
    if n < s.len() {
        assert(s.take(n + 1).drop_last() =~= s.take(n));
        lemma_findings_bytes_err(s, bytes, maximum, n + 1);
    } else {
        assert(s.take(n) =~= s);
    }
}

/// The encoded bytes of an incoming batch: the source once, then every
/// finding; the source counts even for an empty batch.
pub fn incoming_external_finding_batch_bytes(batch: &ExternalFindingBatch, maximum: usize) -> (r: Result<usize, usize>)
    ensures
        match batch_bytes(batch.source_spec(), batch.findings_spec(), maximum as nat) {
            Ok(b) => r == Ok::<usize, usize>(b as usize),
            Err(e) => r == Err::<usize, usize>(e as usize),
        },
{
    let mut bytes: usize = 0;
    match add_external_finding_bytes(&mut bytes, batch.source.as_str().len(), maximum) {
        Err(e) => return Err(e),
        Ok(()) => {},
    }
    match add_external_findings_bytes(batch, &mut bytes, maximum) {
        Err(e) => return Err(e),
        Ok(()) => {},
    }
    Ok(bytes)
}

/// The encoded bytes a batch keeps active: zero for an empty batch (which
/// only removes), otherwise as for an incoming batch.
pub fn active_external_finding_batch_bytes(batch: &ExternalFindingBatch, maximum: usize) -> (r: Result<usize, usize>)
    ensures
        batch.findings_spec().len() == 0 ==> r == Ok::<usize, usize>(0),
        batch.findings_spec().len() > 0 ==> match batch_bytes(batch.source_spec(), batch.findings_spec(), maximum as nat) {
            Ok(b) => r == Ok::<usize, usize>(b as usize),
            Err(e) => r == Err::<usize, usize>(e as usize),
        },
{
    if batch.findings.len() == 0 {
        return Ok(0);
    }
    incoming_external_finding_batch_bytes(batch, maximum)
}

} // verus!
