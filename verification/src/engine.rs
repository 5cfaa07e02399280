use vstd::prelude::*;

use crate::address::{is_pointer_text, JsonPointer};
use crate::limits::CompilationLimitError;
use crate::text::{lemma_text_le_antisymmetric, lemma_text_le_total, lemma_text_le_transitive, str_eq, text_le, text_le_exec};
use crate::number::{canonical_integer_with_limit, exponent_index, is_json_number, spec_canonical_integer, ParseBlockerKind};
use crate::value::{JsonData, JsonNumber, JsonValue};

verus! {

/// Failure to compile a data schema into a form definition.
#[derive(Debug)]
pub enum CompileError {
    MissingProperties,
    UnsupportedReference(String),
    ResourceLimit(CompilationLimitError),
}

/// Failure to create form state from initial data.
#[derive(Debug, Clone, Copy, PartialEq, Eq, Structural)]
pub enum CreateFormError {
    FormDataMustBeObject,
}

/// An array item removed from form state, and the items whose index shifted.
#[derive(Debug)]
pub struct RemovedArrayItem {
    pub identity: u64,
    pub shifted: Vec<u64>,
}

/// An array item inserted into form state, and the items whose index shifted.
#[derive(Debug)]
pub struct InsertedArrayItem {
    pub identity: u64,
    pub shifted: Vec<u64>,
}

/// An array item moved one place, and the item it swapped with.
#[derive(Debug)]
pub struct MovedArrayItem {
    pub identity: u64,
    pub displaced: u64,
    pub from: usize,
    pub to: usize,
    pub data_changed: bool,
}

/// Rejection of an edit addressed to a control binding.
#[derive(Debug)]
pub enum EditError {
    UnknownControl(String),
    UnresolvedControl(String),
    OperationNotAllowed(String),
}

/// Rejection of a host finding whose instance location is not a JSON Pointer.
#[derive(Debug)]
pub enum ExternalFindingError {
    InvalidInstancePointer(String),
}

/// Rejection of host findings aimed at a data revision other than the current one.
#[derive(Debug, Clone, Copy, PartialEq, Eq, Structural)]
pub enum ApplyExternalFindingsError {
    StaleDataRevision { current: u64, supplied: u64 },
}

/// Why an edit buffer cannot currently be converted to canonical JSON data.
#[derive(Debug, Clone, Copy, PartialEq, Eq, Structural)]
pub enum ParseBlocker {
    InvalidNumber,
    InvalidInteger,
    ResourceLimitExceeded,
}

/// A host finding about one form-data location, blocking or advisory.
#[derive(Debug)]
pub struct ExternalFinding {
    instance_pointer: JsonPointer,
    code: String,
    blocking: bool,
}

impl ExternalFinding {
    pub closed spec fn pointer_spec(&self) -> Seq<char> {
        self.instance_pointer@
    }

    pub closed spec fn code_spec(&self) -> Seq<char> {
        self.code@
    }

    pub closed spec fn blocking_spec(&self) -> bool {
        self.blocking
    }

    /// The form-data location the finding is about.
    pub fn instance_pointer(&self) -> (r: &str)
        ensures
            r@ == self.pointer_spec(),
    {
        self.instance_pointer.as_str()
    }

    /// The finding's code.
    pub fn code(&self) -> (r: &str)
        ensures
            r@ == self.code_spec(),
    {
        self.code.as_str()
    }

    /// Whether the finding blocks submission.
    pub fn is_blocking(&self) -> (r: bool)
        ensures
            r == self.blocking_spec(),
    {
        self.blocking
    }

    /// A blocking finding at `instance_pointer`, which must be a JSON Pointer.
    pub fn blocking(instance_pointer: &str, code: String) -> (r: Result<ExternalFinding, ExternalFindingError>)
        ensures
            is_pointer_text(instance_pointer@) ==> (r matches Ok(f) && f.pointer_spec() == instance_pointer@
                && f.code_spec() == code@ && f.blocking_spec()),
            !is_pointer_text(instance_pointer@) ==> (r matches Err(ExternalFindingError::InvalidInstancePointer(t))
                && t@ == instance_pointer@),
    {
        ExternalFinding::new(instance_pointer, code, true)
    }

    /// An advisory finding at `instance_pointer`, which must be a JSON Pointer.
    pub fn advisory(instance_pointer: &str, code: String) -> (r: Result<ExternalFinding, ExternalFindingError>)
        ensures
            is_pointer_text(instance_pointer@) ==> (r matches Ok(f) && f.pointer_spec() == instance_pointer@
                && f.code_spec() == code@ && !f.blocking_spec()),
            !is_pointer_text(instance_pointer@) ==> (r matches Err(ExternalFindingError::InvalidInstancePointer(t))
                && t@ == instance_pointer@),
    {
        ExternalFinding::new(instance_pointer, code, false)
    }

    fn new(instance_pointer: &str, code: String, blocking: bool) -> (r: Result<ExternalFinding, ExternalFindingError>)
        ensures
            is_pointer_text(instance_pointer@) ==> (r matches Ok(f) && f.pointer_spec() == instance_pointer@
                && f.code_spec() == code@ && f.blocking_spec() == blocking),
            !is_pointer_text(instance_pointer@) ==> (r matches Err(ExternalFindingError::InvalidInstancePointer(t))
                && t@ == instance_pointer@),
    {
        match JsonPointer::parse(instance_pointer.to_owned()) {
            Ok(pointer) => Ok(ExternalFinding { instance_pointer: pointer, code, blocking }),
            Err(_) => Err(ExternalFindingError::InvalidInstancePointer(instance_pointer.to_owned())),
        }
    }
}

/// What an external finding says: its instance pointer, its code, and
/// whether it blocks submission.
pub type FindingKey = (Seq<char>, Seq<char>, bool);

/// The content of an external finding.
pub open spec fn finding_key(f: ExternalFinding) -> FindingKey {
    (f.pointer_spec(), f.code_spec(), f.blocking_spec())
}

/// The contents of a list of external findings.
pub open spec fn finding_keys(fs: Seq<ExternalFinding>) -> Seq<FindingKey> {
    fs.map_values(|f: ExternalFinding| finding_key(f))
}

/// Findings ordered by instance pointer, then code (code point order), then
/// advisory before blocking; `a` comes strictly before `b`.
pub open spec fn finding_lt(a: FindingKey, b: FindingKey) -> bool {
    &&& a != b
    &&& if a.0 != b.0 {
        text_le(a.0, b.0)
    } else if a.1 != b.1 {
        text_le(a.1, b.1)
    } else {
        !a.2
    }
}

proof fn lemma_text_facts(x: Seq<char>, y: Seq<char>, z: Seq<char>)
    ensures
        text_le(x, y) || text_le(y, x),
        text_le(x, y) && text_le(y, x) ==> x == y,
        text_le(x, y) && text_le(y, z) ==> text_le(x, z),
{
    lemma_text_le_total(x, y);
    if text_le(x, y) && text_le(y, x) {
        lemma_text_le_antisymmetric(x, y);
    }
    if text_le(x, y) && text_le(y, z) {
        lemma_text_le_transitive(x, y, z);
    }
}

/// Findings are strictly ordered: of two different findings one comes
/// first, never both, and the order is transitive.
pub proof fn lemma_finding_order(a: FindingKey, b: FindingKey, c: FindingKey)
    ensures
        a != b ==> finding_lt(a, b) || finding_lt(b, a),
        !(finding_lt(a, b) && finding_lt(b, a)),
        finding_lt(a, b) && finding_lt(b, c) ==> finding_lt(a, c),
{
    lemma_text_facts(a.0, b.0, c.0);
    lemma_text_facts(b.0, c.0, a.0);
    lemma_text_facts(c.0, a.0, b.0);
    lemma_text_facts(a.0, c.0, b.0);
    lemma_text_facts(b.0, a.0, c.0);
    lemma_text_facts(c.0, b.0, a.0);
    lemma_text_facts(a.1, b.1, c.1);
    lemma_text_facts(b.1, c.1, a.1);
    lemma_text_facts(c.1, a.1, b.1);
    lemma_text_facts(a.1, c.1, b.1);
    lemma_text_facts(b.1, a.1, c.1);
    lemma_text_facts(c.1, b.1, a.1);
}

impl ExternalFinding {
    /// Whether both findings say the same thing.
    fn same_finding(&self, other: &ExternalFinding) -> (r: bool)
        ensures
            r == (finding_key(*self) == finding_key(*other)),
    {
        self.blocking == other.blocking && str_eq(self.code.as_str(), other.code.as_str()) && str_eq(
            self.instance_pointer.as_str(),
            other.instance_pointer.as_str(),
        )
    }

    /// Whether `self` comes strictly before `other` (see [`finding_lt`]).
    fn precedes(&self, other: &ExternalFinding) -> (r: bool)
        ensures
            r == finding_lt(finding_key(*self), finding_key(*other)),
    {
        if !str_eq(self.instance_pointer.as_str(), other.instance_pointer.as_str()) {
            text_le_exec(self.instance_pointer.as_str(), other.instance_pointer.as_str())
        } else if !str_eq(self.code.as_str(), other.code.as_str()) {
            text_le_exec(self.code.as_str(), other.code.as_str())
        } else {
            !self.blocking && other.blocking
        }
    }
}

/// `fs` holds the findings of `given`, each once, in finding order.
pub open spec fn normalized_findings(fs: Seq<FindingKey>, given: Seq<FindingKey>) -> bool {
    &&& forall|i: int, j: int| 0 <= i < j < fs.len() ==> finding_lt(#[trigger] fs[i], #[trigger] fs[j])
    &&& forall|k: FindingKey| fs.contains(k) <==> given.contains(k)
}

/// The findings sorted by instance pointer, code and blocking, each once.
pub fn normalize_findings(findings: Vec<ExternalFinding>) -> (r: Vec<ExternalFinding>)
    ensures
        normalized_findings(finding_keys(r@), finding_keys(findings@)),
{
    let ghost given = finding_keys(findings@);
    let mut rest = findings;
    let mut out: Vec<ExternalFinding> = Vec::new();
    while rest.len() > 0
        invariant
            forall|i: int, j: int| 0 <= i < j < out.len() ==> finding_lt(
                #[trigger] finding_keys(out@)[i],
                #[trigger] finding_keys(out@)[j],
            ),
            forall|k: FindingKey| (finding_keys(out@).contains(k) || finding_keys(rest@).contains(k)) <==> given.contains(k),
        decreases rest.len(),
    {
        let ghost before_rest = finding_keys(rest@);
        let f = rest.pop().unwrap();
        let ghost x = finding_key(f);
        assert(before_rest =~= finding_keys(rest@).push(x));
        let mut p: usize = 0;
        while p < out.len() && out[p].precedes(&f)
            invariant
                p <= out.len(),
                x == finding_key(f),
                forall|q: int| 0 <= q < p ==> finding_lt(#[trigger] finding_keys(out@)[q], x),
            decreases out.len() - p,
        {
            p += 1;
        }
        let ghost before = finding_keys(out@);
        if p < out.len() && out[p].same_finding(&f) {
            assert(before[p as int] == x);
        } else {
            if p < out.len() {
                proof {
                    lemma_finding_order(before[p as int], x, x);
                }
                assert(finding_lt(x, before[p as int]));
            }
            out.insert(p, f);
            proof {
                let after = finding_keys(out@);
                assert(after =~= before.insert(p as int, x));
                assert forall|a: int, b: int| 0 <= a < b < after.len() implies finding_lt(
                    #[trigger] after[a],
                    #[trigger] after[b],
                ) by {
                    if b < p {
                        assert(after[a] == before[a] && after[b] == before[b]);
                    } else if b == p {
                        assert(after[a] == before[a] && after[b] == x);
                    } else if a == p {
                        assert(after[a] == x && after[b] == before[b - 1]);
                        if b - 1 > p {
                            lemma_finding_order(x, before[p as int], before[b - 1]);
                        }
                    } else if a < p {
                        assert(after[a] == before[a] && after[b] == before[b - 1]);
                    } else {
                        assert(after[a] == before[a - 1] && after[b] == before[b - 1]);
                    }
                }
            }
        }
        proof {
            let now = finding_keys(out@);
            assert(now.contains(x)) by {
                if p < before.len() && before[p as int] == x && now == before {
                } else {
                    assert(now[p as int] == x);
                }
            }
            assert forall|k: FindingKey| now.contains(k) <==> (before.contains(k) || k == x) by {
                if now.contains(k) && k != x && now != before {
                    let i = choose|i: int| 0 <= i < now.len() && now[i] == k;
                    if i < p {
                        assert(before[i] == k);
                    } else {
                        assert(before[i - 1] == k);
                    }
                }
                if before.contains(k) && now != before {
                    let i = choose|i: int| 0 <= i < before.len() && before[i] == k;
                    if i < p {
                        assert(now[i] == k);
                    } else {
                        assert(now[i + 1] == k);
                    }
                }
            }
            assert forall|k: FindingKey| (now.contains(k) || finding_keys(rest@).contains(k)) <==> given.contains(k) by {
                assert(before_rest.contains(k) <==> (finding_keys(rest@).contains(k) || k == x)) by {
                    if before_rest.contains(k) && k != x {
                        let i = choose|i: int| 0 <= i < before_rest.len() && before_rest[i] == k;
                        assert(finding_keys(rest@)[i] == k);
                    }
                    if finding_keys(rest@).contains(k) {
                        let i = choose|i: int| 0 <= i < finding_keys(rest@).len() && finding_keys(rest@)[i] == k;
                        assert(before_rest[i] == k);
                    }
                    if k == x {
                        assert(before_rest[before_rest.len() - 1] == x);
                    }
                }
            }
        }
    }
    out
}

/// All findings one host source reported against one data revision.
#[derive(Debug)]
pub struct ExternalFindingBatch {
    pub source: String,
    pub data_revision: u64,
    pub findings: Vec<ExternalFinding>,
}

/// The content of a batch: its source, revision and findings.
pub type BatchData = (Seq<char>, u64, Seq<FindingKey>);

/// The content of a batch.
pub open spec fn batch_data(b: ExternalFindingBatch) -> BatchData {
    (b.source@, b.data_revision, finding_keys(b.findings@))
}

/// The contents of a list of batches.
pub open spec fn batch_datas(bs: Seq<ExternalFindingBatch>) -> Seq<BatchData> {
    bs.map_values(|b: ExternalFindingBatch| batch_data(b))
}

/// Text `a` comes strictly before text `b` in code point order.
pub open spec fn text_lt(a: Seq<char>, b: Seq<char>) -> bool {
    a != b && text_le(a, b)
}

/// Batches are ordered by source, each source once.
pub open spec fn sources_sorted(bs: Seq<BatchData>) -> bool {
    forall|i: int, j: int| 0 <= i < j < bs.len() ==> text_lt(#[trigger] bs[i].0, #[trigger] bs[j].0)
}

/// The batches after `source` reported the normalized findings `fs` against
/// `revision`: no findings drop the source's batch; otherwise the source's
/// batch is replaced, or a new batch goes in at its place by source.
pub open spec fn batches_after(
    old: Seq<BatchData>,
    new: Seq<BatchData>,
    source: Seq<char>,
    revision: u64,
    fs: Seq<FindingKey>,
) -> bool {
    &&& (forall|i: int| 0 <= i < old.len() ==> #[trigger] old[i].0 != source) ==> if fs.len() == 0 {
        new == old
    } else {
        exists|p: int| 0 <= p <= old.len() && new == old.insert(p, (source, revision, fs))
    }
    &&& forall|i: int|
        0 <= i < old.len() && #[trigger] old[i].0 == source ==> if fs.len() == 0 {
            new == old.remove(i)
        } else {
            new == old.update(i, (source, revision, fs))
        }
}

fn same_batch_findings(a: &Vec<ExternalFinding>, b: &Vec<ExternalFinding>) -> (r: bool)
    ensures
        r == (finding_keys(a@) == finding_keys(b@)),
{
    if a.len() != b.len() {
        return false;
    }
    let mut i: usize = 0;
    while i < a.len()
        invariant
            i <= a.len(),
            a.len() == b.len(),
            forall|q: int| 0 <= q < i ==> finding_keys(a@)[q] == finding_keys(b@)[q],
        decreases a.len() - i,
    {
        if !a[i].same_finding(&b[i]) {
            assert(finding_keys(a@)[i as int] != finding_keys(b@)[i as int]);
            return false;
        }
        i += 1;
    }
    assert(finding_keys(a@) =~= finding_keys(b@));
    true
}

/// Applies the findings a host source reports against `data_revision` to a
/// form's batches and state revision. A revision other than the form's
/// current one is refused and changes nothing. Otherwise the findings are
/// normalized (ordered by instance pointer, code and blocking, each once),
/// an empty report drops the source's batch, any other replaces or adds it
/// in source order, and the state revision goes up by one exactly when the
/// batches changed.
pub fn apply_external_findings(
    batches: &mut Vec<ExternalFindingBatch>,
    state_revision: &mut u64,
    current_data_revision: u64,
    source: String,
    data_revision: u64,
    findings: Vec<ExternalFinding>,
) -> (r: Result<(), ApplyExternalFindingsError>)
    requires
        sources_sorted(batch_datas(old(batches)@)),
        *old(state_revision) < u64::MAX,
    ensures
        data_revision != current_data_revision ==> r == Err::<(), ApplyExternalFindingsError>(
            ApplyExternalFindingsError::StaleDataRevision { current: current_data_revision, supplied: data_revision },
        ) && batch_datas(final(batches)@) == batch_datas(old(batches)@),
        data_revision == current_data_revision ==> r is Ok && exists|fs: Seq<FindingKey>|
            normalized_findings(fs, finding_keys(findings@)) && batches_after(
                batch_datas(old(batches)@),
                batch_datas(final(batches)@),
                source@,
                data_revision,
                fs,
            ),
        sources_sorted(batch_datas(final(batches)@)),
        *final(state_revision) == *old(state_revision) + if batch_datas(final(batches)@) == batch_datas(
            old(batches)@,
        ) {
            0int
        } else {
            1int
        },
{
    let ghost old_data = batch_datas(batches@);
    if data_revision != current_data_revision {
        return Err(ApplyExternalFindingsError::StaleDataRevision { current: current_data_revision, supplied: data_revision });
    }
    let findings = normalize_findings(findings);
    let ghost fs = finding_keys(findings@);
    let mut existing: Option<usize> = None;
    let mut i: usize = 0;
    while i < batches.len()
        invariant
            i <= batches.len(),
            old_data == batch_datas(batches@),
            existing is None ==> forall|q: int| 0 <= q < i ==> #[trigger] old_data[q].0 != source@,
            existing matches Some(k) ==> k < batches.len() && old_data[k as int].0 == source@,
        decreases batches.len() - i,
    {
        if existing.is_none() && str_eq(batches[i].source.as_str(), source.as_str()) {
            assert(old_data[i as int].0 == batches@[i as int].source@);
            existing = Some(i);
        }
        i += 1;
    }
    proof {
        assert forall|a: int, b: int| 0 <= a < old_data.len() && 0 <= b < old_data.len() && old_data[a].0 == source@
            && old_data[b].0 == source@ implies a == b by {
            if a < b {
                assert(text_lt(old_data[a].0, old_data[b].0));
            } else if b < a {
                assert(text_lt(old_data[b].0, old_data[a].0));
            }
        }
    }
    if findings.len() == 0 {
        if let Some(k) = existing {
            batches.remove(k);
            proof {
                let now = batch_datas(batches@);
                assert(now =~= old_data.remove(k as int));
                assert(now.len() < old_data.len());
                assert forall|a: int, b: int| 0 <= a < b < now.len() implies text_lt(#[trigger] now[a].0, #[trigger] now[b].0) by {
                    let a1 = if a < k { a } else { a + 1 };
                    let b1 = if b < k { b } else { b + 1 };
                    assert(now[a] == old_data[a1] && now[b] == old_data[b1]);
                }
            }
            *state_revision = *state_revision + 1;
        } else {
            assert(batch_datas(batches@) =~= old_data);
        }
        return Ok(());
    }
    let ghost new_entry = (source@, data_revision, fs);
    match existing {
        Some(k) => {
            if batches[k].data_revision == data_revision && same_batch_findings(&batches[k].findings, &findings) {
                assert(old_data[k as int] == new_entry);
                assert(old_data.update(k as int, new_entry) =~= old_data);
                assert(batch_datas(batches@) =~= old_data);
                return Ok(());
            }
            assert(old_data[k as int] != new_entry);
            let batch = ExternalFindingBatch { source, data_revision, findings };
            batches.set(k, batch);
            proof {
                let now = batch_datas(batches@);
                assert(now =~= old_data.update(k as int, new_entry));
                assert(now[k as int] != old_data[k as int]);
                assert forall|a: int, b: int| 0 <= a < b < now.len() implies text_lt(#[trigger] now[a].0, #[trigger] now[b].0) by {
                    assert(now[a].0 == old_data[a].0 && now[b].0 == old_data[b].0);
                }
            }
            *state_revision = *state_revision + 1;
        },
        None => {
            let mut p: usize = 0;
            while p < batches.len() && text_le_exec(batches[p].source.as_str(), source.as_str())
                invariant
                    p <= batches.len(),
                    old_data == batch_datas(batches@),
                    forall|q: int| 0 <= q < batches.len() ==> #[trigger] old_data[q].0 != source@,
                    forall|q: int| 0 <= q < p ==> text_lt(#[trigger] old_data[q].0, source@),
                decreases batches.len() - p,
            {
                assert(old_data[p as int].0 == batches@[p as int].source@);
                p += 1;
            }
            if p < batches.len() {
                assert(old_data[p as int].0 == batches@[p as int].source@);
                proof {
                    lemma_text_facts(old_data[p as int].0, source@, source@);
                }
                assert(text_lt(source@, old_data[p as int].0));
            }
            let batch = ExternalFindingBatch { source, data_revision, findings };
            batches.insert(p, batch);
            proof {
                let now = batch_datas(batches@);
                assert(now =~= old_data.insert(p as int, new_entry));
                assert(now.len() != old_data.len());
                assert forall|a: int, b: int| 0 <= a < b < now.len() implies text_lt(#[trigger] now[a].0, #[trigger] now[b].0) by {
                    if b < p {
                        assert(now[a] == old_data[a] && now[b] == old_data[b]);
                    } else if b == p {
                        assert(now[a] == old_data[a] && now[b] == new_entry);
                    } else if a == p {
                        assert(now[a] == new_entry && now[b] == old_data[b - 1]);
                        if b - 1 > p {
                            lemma_text_facts(source@, old_data[p as int].0, old_data[b - 1].0);
                            lemma_text_facts(old_data[b - 1].0, source@, source@);
                            assert(text_lt(old_data[p as int].0, old_data[b - 1].0));
                            if source@ == old_data[b - 1].0 {
                                lemma_text_facts(source@, old_data[p as int].0, source@);
                            }
                        }
                    } else if a < p {
                        assert(now[a] == old_data[a] && now[b] == old_data[b - 1]);
                        lemma_text_facts(old_data[a].0, source@, old_data[b - 1].0);
                        if b - 1 > p {
                            assert(text_lt(old_data[p as int].0, old_data[b - 1].0));
                        }
                    } else {
                        assert(now[a] == old_data[a - 1] && now[b] == old_data[b - 1]);
                    }
                }
            }
            *state_revision = *state_revision + 1;
        },
    }
    Ok(())
}

/// The bound on canonical integer digits that edits of integer controls use.
pub const DEFAULT_MAX_CANONICAL_INTEGER_DIGITS: usize = 4096;

/// JSON whitespace: space, tab, line feed, carriage return.
pub open spec fn is_json_white(c: char) -> bool {
    c == ' ' || c == '\t' || c == '\n' || c == '\r'
}

/// How many characters of JSON whitespace `s` starts with.
pub open spec fn leading_json_white(s: Seq<char>) -> nat
    decreases s.len(),
{
    if s.len() > 0 && is_json_white(s[0]) {
        1 + leading_json_white(s.drop_first())
    } else {
        0
    }
}

/// How many characters of JSON whitespace `s` ends with.
pub open spec fn trailing_json_white(s: Seq<char>) -> nat
    decreases s.len(),
{
    if s.len() > 0 && is_json_white(s.last()) {
        1 + trailing_json_white(s.drop_last())
    } else {
        0
    }
}

/// How `serde_json` (with `arbitrary_precision`) spells a JSON number it
/// read: as written, except that an exponent marker becomes `e` and an
/// unsigned exponent gets a `+`.
pub open spec fn serde_number_text(t: Seq<char>) -> Seq<char> {
    let k = exponent_index(t);
    if k >= 0 {
        let e = t.skip(k + 1);
        t.take(k) + seq!['e'] + if e.len() > 0 && (e[0] == '+' || e[0] == '-') {
            e
        } else {
            seq!['+'] + e
        }
    } else {
        t
    }
}

/// What `serde_json` reads from `input` as a single JSON value that is a
/// number: the number between leading and trailing JSON whitespace, as
/// `serde_json` spells it; nothing when `input` is not a number so framed.
pub open spec fn json_number_reading(input: Seq<char>) -> Option<Seq<char>> {
    let t = input.skip(leading_json_white(input) as int);
    let n = t.take(t.len() - trailing_json_white(t));
    if is_json_number(n) {
        Some(serde_number_text(n))
    } else {
        None
    }
}

/// `serde_json::from_str::<serde_json::Value>`: when `input` parses to a
/// number, the number's text as `serde_json` renders it. The contract claims
/// the reading of [`json_number_reading`]: `from_str` skips JSON whitespace
/// around one value and refuses anything else after it, and with
/// `arbitrary_precision` the number's text is the scanned text, with the
/// exponent marker written `e` and a `+` added to an unsigned exponent.
#[verifier::external_body]
fn read_json_number(input: &str) -> (r: Option<String>)
    ensures
        match r {
            Some(t) => json_number_reading(input@) == Some(t@),
            None => json_number_reading(input@) is None,
        },
{
    match serde_json::from_str::<serde_json::Value>(input) {
        Ok(serde_json::Value::Number(number)) => Some(number.to_string()),
        _ => None,
    }
}

/// A character of the Unicode `White_Space` property: U+0009 to U+000D,
/// U+0020, U+0085, U+00A0, U+1680, U+2000 to U+200A, U+2028, U+2029,
/// U+202F, U+205F and U+3000.
pub open spec fn is_white_space(c: char) -> bool {
    let n = c as u32;
    (0x9 <= n <= 0xd) || n == 0x20 || n == 0x85 || n == 0xa0 || n == 0x1680 || (0x2000 <= n <= 0x200a) || n
        == 0x2028 || n == 0x2029 || n == 0x202f || n == 0x205f || n == 0x3000
}

/// How many `White_Space` characters `s` starts with.
pub open spec fn leading_white_space(s: Seq<char>) -> nat
    decreases s.len(),
{
    if s.len() > 0 && is_white_space(s[0]) {
        1 + leading_white_space(s.drop_first())
    } else {
        0
    }
}

/// How many `White_Space` characters `s` ends with.
pub open spec fn trailing_white_space(s: Seq<char>) -> nat
    decreases s.len(),
{
    if s.len() > 0 && is_white_space(s.last()) {
        1 + trailing_white_space(s.drop_last())
    } else {
        0
    }
}

/// `input` without its leading and trailing `White_Space` characters.
pub open spec fn trimmed(input: Seq<char>) -> Seq<char> {
    let t = input.skip(leading_white_space(input) as int);
    t.take(t.len() - trailing_white_space(t))
}

/// `str::trim`, which its documentation defines as removing leading and
/// trailing characters of the Unicode `White_Space` property (see
/// [`trimmed`]).
#[verifier::external_body]
fn trim_text(input: &str) -> (r: &str)
    ensures
        r@ == trimmed(input@),
{
    input.trim()
}

/// The content of a parse outcome.
pub open spec fn parse_outcome(r: Result<JsonValue, ParseBlocker>) -> Result<JsonData, ParseBlocker> {
    match r {
        Ok(v) => Ok(v@),
        Err(e) => Err(e),
    }
}

/// The number read, as a JSON number, or `failure` when nothing was read.
pub open spec fn number_value(reading: Option<Seq<char>>, failure: ParseBlocker) -> Result<JsonData, ParseBlocker> {
    match reading {
        Some(t) => if is_json_number(t) {
            Ok(JsonData::Number(t))
        } else {
            Err(failure)
        },
        None => Err(failure),
    }
}

/// The value for a reading of an edit buffer: the number read, or `failure`.
pub fn number_from_reading(reading: Option<String>, failure: ParseBlocker) -> (r: Result<JsonValue, ParseBlocker>)
    ensures
        parse_outcome(r) == number_value(
            match reading {
                Some(t) => Some(t@),
                None => None,
            },
            failure,
        ),
{
    match reading {
        Some(text) => match JsonNumber::parse(text.as_str()) {
            Some(number) => Ok(JsonValue::Number(number)),
            None => Err(failure),
        },
        None => Err(failure),
    }
}

/// The number an edit buffer holds (see [`number_value`]).
pub fn parse_number(input: &str) -> (r: Result<JsonValue, ParseBlocker>)
    ensures
        parse_outcome(r) == number_value(json_number_reading(input@), ParseBlocker::InvalidNumber),
{
    number_from_reading(read_json_number(input), ParseBlocker::InvalidNumber)
}

/// The blocker of a canonical-integer failure.
pub open spec fn blocker_of(kind: ParseBlockerKind) -> ParseBlocker {
    match kind {
        ParseBlockerKind::InvalidNumber => ParseBlocker::InvalidNumber,
        ParseBlockerKind::InvalidInteger => ParseBlocker::InvalidInteger,
        ParseBlockerKind::ResourceLimitExceeded => ParseBlocker::ResourceLimitExceeded,
    }
}

/// The integer an edit buffer holds: not a JSON number is an invalid
/// integer; otherwise its trimmed text in canonical integer form (within
/// `maximum` digits), read back as a number.
pub open spec fn integer_value(input: Seq<char>, maximum: nat) -> Result<JsonData, ParseBlocker> {
    if json_number_reading(input) is None {
        Err(ParseBlocker::InvalidInteger)
    } else {
        match spec_canonical_integer(trimmed(input), maximum) {
            Err(kind) => Err(blocker_of(kind)),
            Ok(canonical) => number_value(json_number_reading(canonical), ParseBlocker::InvalidInteger),
        }
    }
}

/// The integer an edit buffer holds, within `maximum_digits` canonical
/// digits (see [`integer_value`]).
pub fn parse_integer_with_limit(input: &str, maximum_digits: usize) -> (r: Result<JsonValue, ParseBlocker>)
    ensures
        parse_outcome(r) == integer_value(input@, maximum_digits as nat),
{
    if read_json_number(input).is_none() {
        return Err(ParseBlocker::InvalidInteger);
    }
    let canonical = match canonical_integer_with_limit(trim_text(input), maximum_digits) {
        Ok(text) => text,
        Err(kind) => {
            return Err(
                match kind {
                    ParseBlockerKind::InvalidNumber => ParseBlocker::InvalidNumber,
                    ParseBlockerKind::InvalidInteger => ParseBlocker::InvalidInteger,
                    ParseBlockerKind::ResourceLimitExceeded => ParseBlocker::ResourceLimitExceeded,
                },
            );
        },
    };
    number_from_reading(read_json_number(canonical.as_str()), ParseBlocker::InvalidInteger)
}

/// The integer an edit buffer holds, within the default digit bound.
pub fn parse_integer(input: &str) -> (r: Result<JsonValue, ParseBlocker>)
    ensures
        parse_outcome(r) == integer_value(input@, DEFAULT_MAX_CANONICAL_INTEGER_DIGITS as nat),
{
    parse_integer_with_limit(input, DEFAULT_MAX_CANONICAL_INTEGER_DIGITS)
}

} // verus!
