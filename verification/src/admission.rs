use vstd::prelude::*;

use crate::address::JsonPointer;
use crate::definition::{ResourceLimitError, ResourceLimitFailure, ResourceLimitPhase};
use crate::finding::{
    active_external_finding_batch_bytes, add_bytes, batch_bytes, chars_bytes, encoded_bytes, entries_bytes,
    findings_bytes, incoming_external_finding_batch_bytes, items_bytes, string_bytes, ExternalFindingBatch,
    ExternalFindingData,
};
use crate::limits::{check_input_value, sat_add, spec_check_input_value, InputDimension, InputFailure, InputLimits};
use crate::state::{DataRevision, ExternalFindingError, ExternalFindingLimits, FindingBounds};
use crate::value::JsonData;

verus! {

proof fn lemma_chars_err(s: Seq<char>, bytes: nat, maximum: nat)
    ensures
        match chars_bytes(s, bytes, maximum) {
            Err(e) => e > maximum && e <= usize::MAX,
            Ok(b) => b <= maximum || b == bytes,
        },
    decreases s.len(),
{
    if s.len() > 0 {
        lemma_chars_err(s.drop_last(), bytes, maximum);
    }
}

proof fn lemma_string_err(s: Seq<char>, bytes: nat, maximum: nat)
    ensures
        match string_bytes(s, bytes, maximum) {
            Err(e) => e > maximum && e <= usize::MAX,
            Ok(b) => b <= maximum || b == bytes,
        },
{
    if let Ok(b) = add_bytes(bytes, 2, maximum) {
        lemma_chars_err(s, b, maximum);
    }
}

proof fn lemma_encoded_err(v: JsonData, bytes: nat, maximum: nat)
    ensures
        match encoded_bytes(v, bytes, maximum) {
            Err(e) => e > maximum && e <= usize::MAX,
            Ok(b) => b <= maximum || b == bytes,
        },
    decreases v, 0int,
{
    match v {
        JsonData::String(s) => lemma_string_err(s, bytes, maximum),
        JsonData::Array(items) => {
            if let Ok(b) = add_bytes(bytes, sat_add(2, if items.len() > 0 { (items.len() - 1) as nat } else { 0 }), maximum) {
                lemma_items_err(items, 0, b, maximum);
            }
        },
        JsonData::Object(entries) => {
            let n = entries.len();
            if let Ok(b) = add_bytes(bytes, sat_add(sat_add(2, if n > 0 { (n - 1) as nat } else { 0 }), n), maximum) {
                lemma_entries_err(entries, 0, b, maximum);
            }
        },
        _ => {},
    }
}

proof fn lemma_items_err(items: Seq<JsonData>, i: int, bytes: nat, maximum: nat)
    ensures
        match items_bytes(items, i, bytes, maximum) {
            Err(e) => e > maximum && e <= usize::MAX,
            Ok(b) => b <= maximum || b == bytes,
        },
    decreases items, items.len() - i,
{
    if 0 <= i < items.len() {
        lemma_encoded_err(items[i], bytes, maximum);
        if let Ok(b) = encoded_bytes(items[i], bytes, maximum) {
            lemma_items_err(items, i + 1, b, maximum);
        }
    }
}

proof fn lemma_entries_err(entries: Seq<(Seq<char>, JsonData)>, i: int, bytes: nat, maximum: nat)
    ensures
        match entries_bytes(entries, i, bytes, maximum) {
            Err(e) => e > maximum && e <= usize::MAX,
            Ok(b) => b <= maximum || b == bytes,
        },
    decreases entries, entries.len() - i,
{
    if 0 <= i < entries.len() {
        lemma_string_err(entries[i].0, bytes, maximum);
        if let Ok(b) = string_bytes(entries[i].0, bytes, maximum) {
            assert(decreases_to!(entries => entries[i]));
            assert(decreases_to!(entries[i] => entries[i].1));
            lemma_encoded_err(entries[i].1, b, maximum);
            if let Ok(c) = encoded_bytes(entries[i].1, b, maximum) {
                lemma_entries_err(entries, i + 1, c, maximum);
            }
        }
    }
}

proof fn lemma_findings_err(fs: Seq<ExternalFindingData>, bytes: nat, maximum: nat)
    ensures
        match findings_bytes(fs, bytes, maximum) {
            Err(e) => e > maximum && e <= usize::MAX,
            Ok(b) => b <= maximum || b == bytes,
        },
    decreases fs.len(),
{
    if fs.len() > 0 {
        lemma_findings_err(fs.drop_last(), bytes, maximum);
        if let Ok(b) = findings_bytes(fs.drop_last(), bytes, maximum) {
            let f = fs.last();
            if let Ok(c) = add_bytes(b, crate::limits::byte_len(f.code) as nat, maximum) {
                if let Ok(d) = add_bytes(c, crate::limits::byte_len(f.instance_location) as nat, maximum) {
                    lemma_encoded_err(f.parameters, d, maximum);
                }
            }
        }
    }
}

/// A batch's byte count fails only with a count above the maximum.
pub proof fn lemma_batch_bytes_err(source: Seq<char>, fs: Seq<ExternalFindingData>, maximum: nat)
    ensures
        match batch_bytes(source, fs, maximum) {
            Err(e) => e > maximum && e <= usize::MAX,
            Ok(b) => b <= maximum,
        },
{
    if let Ok(b) = add_bytes(0, crate::limits::byte_len(source) as nat, maximum) {
        lemma_findings_err(fs, b, maximum);
    }
}

/// The bounds an external finding's parameters are held to: the incoming
/// byte bound, the parameter node bound for tokens, nodes and members, and
/// the parameter depth, collection-length and scalar-byte bounds.
pub open spec fn parameter_limits(b: FindingBounds) -> InputLimits {
    InputLimits {
        bytes: b.max_incoming_bytes,
        tokens: b.max_parameter_nodes,
        depth: b.max_parameter_depth,
        nodes: b.max_parameter_nodes,
        members: b.max_parameter_nodes,
        collection_length: b.max_parameter_collection_length,
        scalar_bytes: b.max_parameter_scalar_bytes,
    }
}

/// The name a parameter bound is reported under.
pub open spec fn parameter_dimension(d: InputDimension) -> Seq<char> {
    match d {
        InputDimension::Depth => "external_finding_parameter_depth"@,
        InputDimension::Nodes => "external_finding_parameter_nodes"@,
        InputDimension::Members => "external_finding_parameter_nodes"@,
        InputDimension::CollectionLength => "external_finding_parameter_collection_length"@,
        InputDimension::ScalarBytes => "external_finding_parameter_scalar_bytes"@,
        InputDimension::Bytes => "bytes"@,
        InputDimension::Tokens => "tokens"@,
    }
}

fn parameter_dimension_text(d: InputDimension) -> (r: &'static str)
    ensures
        r@ == parameter_dimension(d),
{
    match d {
        InputDimension::Depth => "external_finding_parameter_depth",
        InputDimension::Nodes => "external_finding_parameter_nodes",
        InputDimension::Members => "external_finding_parameter_nodes",
        InputDimension::CollectionLength => "external_finding_parameter_collection_length",
        InputDimension::ScalarBytes => "external_finding_parameter_scalar_bytes",
        InputDimension::Bytes => "bytes",
        InputDimension::Tokens => "tokens",
    }
}

/// The first finding whose parameters break the bounds `l`, with how.
pub open spec fn first_parameter_failure(fs: Seq<ExternalFindingData>, l: InputLimits) -> Option<(int, InputFailure)>
    decreases fs.len(),
{
    if fs.len() == 0 {
        None
    } else {
        match first_parameter_failure(fs.drop_last(), l) {
            Some(x) => Some(x),
            None => match spec_check_input_value(fs.last().parameters, l) {
                Some(f) => Some(((fs.len() - 1) as int, f)),
                None => None,
            },
        }
    }
}

/// Why a host batch is refused.
pub enum AdmissionFailure {
    /// The batch names another form's, or an older, data revision.
    Stale,
    /// A bound is exceeded.
    Limit(ResourceLimitFailure),
}

/// An operation-phase violation of bound `dimension` reported at the root.
pub open spec fn root_failure(dimension: Seq<char>, maximum: nat, observed: nat) -> ResourceLimitFailure {
    ResourceLimitFailure { phase: ResourceLimitPhase::Operation, dimension, maximum, observed, path: Seq::empty() }
}

/// The checks a raw host batch must pass, in order: its revision is the
/// form's current one (same form, same revision); it holds at most the
/// incoming finding count; each finding's parameters keep the parameter
/// bounds; its encoded bytes keep the incoming byte bound.
pub open spec fn incoming_admission(
    b: FindingBounds,
    current: DataRevision,
    supplied: DataRevision,
    source: Seq<char>,
    fs: Seq<ExternalFindingData>,
) -> Option<AdmissionFailure> {
    if supplied != current {
        Some(AdmissionFailure::Stale)
    } else if fs.len() > b.max_incoming_findings {
        Some(AdmissionFailure::Limit(root_failure("incoming_external_findings"@, b.max_incoming_findings as nat, fs.len())))
    } else {
        match first_parameter_failure(fs, parameter_limits(b)) {
            Some((k, f)) => Some(
                AdmissionFailure::Limit(
                    ResourceLimitFailure {
                        phase: ResourceLimitPhase::Operation,
                        dimension: parameter_dimension(f.dimension),
                        maximum: f.maximum,
                        observed: f.observed,
                        path: fs[k].instance_location,
                    },
                ),
            ),
            None => match batch_bytes(source, fs, b.max_incoming_bytes as nat) {
                Err(o) => Some(
                    AdmissionFailure::Limit(root_failure("incoming_external_finding_bytes"@, b.max_incoming_bytes as nat, o)),
                ),
                Ok(_) => None,
            },
        }
    }
}

/// The error answers the failure: a stale revision names the current and
/// the supplied revisions; a limit failure carries that violation.
pub open spec fn answers(
    r: Result<(), ExternalFindingError>,
    failure: Option<AdmissionFailure>,
    current: DataRevision,
    supplied: DataRevision,
) -> bool {
    match failure {
        None => r is Ok,
        Some(AdmissionFailure::Stale) => r matches Err(ExternalFindingError::StaleRevision { current: c, supplied: s })
            && c == current && s == supplied,
        Some(AdmissionFailure::Limit(f)) => r matches Err(ExternalFindingError::ResourceLimit(e)) && e@ == f,
    }
}

/// Checks a raw host batch against the form's current data revision and the
/// incoming bounds (see [`incoming_admission`]); each failure comes exactly
/// when its check fails.
#[verifier::rlimit(40)]
pub fn check_incoming_external_findings(
    limits: ExternalFindingLimits,
    current: DataRevision,
    batch: &ExternalFindingBatch,
) -> (r: Result<(), ExternalFindingError>)
    ensures
        answers(
            r,
            incoming_admission(limits@, current, batch.revision_spec(), batch.source_spec(), batch.findings_spec()),
            current,
            batch.revision_spec(),
        ),
{
    let supplied = batch.data_revision();
    if supplied != current {
        return Err(ExternalFindingError::StaleRevision { current, supplied });
    }
    let findings = batch.findings();
    let ghost fs = batch.findings_spec();
    assert(findings@.len() == fs.len());
    let incoming = findings.len();
    if incoming > limits.incoming_findings() {
        return Err(
            ExternalFindingError::ResourceLimit(
                ResourceLimitError::new(
                    ResourceLimitPhase::Operation,
                    "incoming_external_findings",
                    limits.incoming_findings(),
                    incoming,
                    JsonPointer::root(),
                ),
            ),
        );
    }
    let parameter_bounds = InputLimits {
        bytes: limits.incoming_bytes(),
        tokens: limits.parameter_nodes(),
        depth: limits.parameter_depth(),
        nodes: limits.parameter_nodes(),
        members: limits.parameter_nodes(),
        collection_length: limits.parameter_collection_length(),
        scalar_bytes: limits.parameter_scalar_bytes(),
    };
    assert(parameter_bounds == parameter_limits(limits@));
    let mut i: usize = 0;
    while i < findings.len()
        invariant
            i <= findings.len(),
            fs == findings@.map_values(|f: crate::finding::ExternalFinding| f@),
            fs == batch.findings_spec(),
            fs.len() <= limits@.max_incoming_findings,
            supplied == current,
            supplied == batch.revision_spec(),
            parameter_bounds == parameter_limits(limits@),
            first_parameter_failure(fs.take(i as int), parameter_bounds) is None,
        decreases findings.len() - i,
    {
        assert(fs.take(i + 1).drop_last() =~= fs.take(i as int));
        assert(fs.take(i + 1).last() == findings@[i as int]@);
        match check_input_value(findings[i].parameters(), parameter_bounds) {
            Err(error) => {
                proof {
                    assert(fs[i as int] == findings@[i as int]@);
                    assert(spec_check_input_value(fs[i as int].parameters, parameter_bounds) == Some(error@));
                    assert(first_parameter_failure(fs.take(i + 1), parameter_bounds) == Some((i as int, error@)));
                }
                let path = findings[i].instance_location().duplicate();
                let e = ResourceLimitError::new(
                    ResourceLimitPhase::Operation,
                    parameter_dimension_text(error.dimension()),
                    error.maximum(),
                    error.observed(),
                    path,
                );
                proof {
                    lemma_first_failure_prefix(fs, parameter_bounds, i + 1);
                    assert(first_parameter_failure(fs, parameter_limits(limits@)) == Some((i as int, error@)));
                    assert(fs[i as int].instance_location == path@);
                    assert(e@ == (ResourceLimitFailure {
                        phase: ResourceLimitPhase::Operation,
                        dimension: parameter_dimension(error@.dimension),
                        maximum: error@.maximum,
                        observed: error@.observed,
                        path: fs[i as int].instance_location,
                    }));
                    assert(fs.len() <= limits@.max_incoming_findings);
                }
                return Err(ExternalFindingError::ResourceLimit(e));
            },
            Ok(()) => {},
        }
        i += 1;
    }
    assert(fs.take(i as int) =~= fs);
    match incoming_external_finding_batch_bytes(batch, limits.incoming_bytes()) {
        Err(observed) => {
            proof {
                lemma_batch_bytes_err(batch.source_spec(), fs, limits@.max_incoming_bytes as nat);
            }
            Err(
                ExternalFindingError::ResourceLimit(
                    ResourceLimitError::new(
                        ResourceLimitPhase::Operation,
                        "incoming_external_finding_bytes",
                        limits.incoming_bytes(),
                        observed,
                        JsonPointer::root(),
                    ),
                ),
            )
        },
        Ok(_) => Ok(()),
    }
}

proof fn lemma_first_failure_prefix(fs: Seq<ExternalFindingData>, l: InputLimits, n: int)
    requires
        0 <= n <= fs.len(),
        first_parameter_failure(fs.take(n), l) is Some,
    ensures
        first_parameter_failure(fs, l) == first_parameter_failure(fs.take(n), l),
    decreases fs.len() - n,
{
    if n < fs.len() {
        assert(fs.take(n + 1).drop_last() =~= fs.take(n));
        lemma_first_failure_prefix(fs, l, n + 1);
    } else {
        assert(fs.take(n) =~= fs);
    }
}

/// What the active checks read of a stored batch: its source and findings.
pub open spec fn stored_data(b: ExternalFindingBatch) -> (Seq<char>, Seq<ExternalFindingData>) {
    (b.source_spec(), b.findings_spec())
}

/// What the active checks read of stored batches.
pub open spec fn stored_datas(bs: Seq<ExternalFindingBatch>) -> Seq<(Seq<char>, Seq<ExternalFindingData>)> {
    bs.map_values(|b: ExternalFindingBatch| stored_data(b))
}

/// The bytes a batch keeps active: none when it has no findings, otherwise
/// its encoded bytes.
#[verifier::opaque]
pub open spec fn active_bytes(source: Seq<char>, fs: Seq<ExternalFindingData>, maximum: nat) -> Result<nat, nat> {
    if fs.len() == 0 {
        Ok(0)
    } else {
        batch_bytes(source, fs, maximum)
    }
}

fn active_bytes_of(batch: &ExternalFindingBatch, maximum: usize) -> (r: Result<usize, usize>)
    ensures
        match active_bytes(batch.source_spec(), batch.findings_spec(), maximum as nat) {
            Ok(b) => r == Ok::<usize, usize>(b as usize) && b <= maximum,
            Err(e) => r == Err::<usize, usize>(e as usize) && e > maximum && e <= usize::MAX,
        },
{
    proof {
        reveal(active_bytes);
        lemma_batch_bytes_err(batch.source_spec(), batch.findings_spec(), maximum as nat);
    }
    active_external_finding_batch_bytes(batch, maximum)
}

/// The finding count of every stored batch but the one at `skip`, summed
/// first to last, saturating.
pub open spec fn retained_count(bs: Seq<(Seq<char>, Seq<ExternalFindingData>)>, skip: int) -> nat
    decreases bs.len(),
{
    if bs.len() == 0 {
        0
    } else {
        let r = retained_count(bs.drop_last(), skip);
        if bs.len() - 1 == skip {
            r
        } else {
            sat_add(r, bs.last().1.len())
        }
    }
}

/// The active bytes of every stored batch but the one at `skip`, summed
/// first to last, saturating.
pub open spec fn retained_bytes(bs: Seq<(Seq<char>, Seq<ExternalFindingData>)>, skip: int, maximum: nat) -> nat
    decreases bs.len(),
{
    if bs.len() == 0 {
        0
    } else {
        let r = retained_bytes(bs.drop_last(), skip, maximum);
        if bs.len() - 1 == skip {
            r
        } else {
            match active_bytes(bs.last().0, bs.last().1, maximum) {
                Ok(n) => sat_add(r, n),
                Err(_) => r,
            }
        }
    }
}

/// The aggregate checks a normalized batch must pass before it replaces the
/// batch at `skip` (or joins, when `skip` names none): the active finding
/// count, the batch's own active bytes, then the active bytes of all
/// batches together.
pub open spec fn active_admission(
    b: FindingBounds,
    stored: Seq<(Seq<char>, Seq<ExternalFindingData>)>,
    skip: int,
    source: Seq<char>,
    fs: Seq<ExternalFindingData>,
) -> Option<AdmissionFailure> {
    let count = sat_add(retained_count(stored, skip), fs.len());
    if count > b.max_active_findings {
        Some(AdmissionFailure::Limit(root_failure("active_external_findings"@, b.max_active_findings as nat, count)))
    } else {
        match active_bytes(source, fs, b.max_active_bytes as nat) {
            Err(o) => Some(
                AdmissionFailure::Limit(root_failure("active_external_finding_bytes"@, b.max_active_bytes as nat, o)),
            ),
            Ok(incoming) => {
                let total = sat_add(retained_bytes(stored, skip, b.max_active_bytes as nat), incoming);
                if total > b.max_active_bytes {
                    Some(
                        AdmissionFailure::Limit(
                            root_failure("active_external_finding_bytes"@, b.max_active_bytes as nat, total),
                        ),
                    )
                } else {
                    None
                }
            },
        }
    }
}

/// Checks a normalized batch against the aggregate bounds before it
/// replaces the stored batch at `existing` (or joins the stored batches);
/// each failure comes exactly when its check fails. Stored batches keep
/// the active byte bound, as the form keeps them.
#[verifier::rlimit(40)]
pub fn check_active_external_findings(
    limits: ExternalFindingLimits,
    stored: &Vec<ExternalFindingBatch>,
    existing: Option<usize>,
    batch: &ExternalFindingBatch,
) -> (r: Result<(), ExternalFindingError>)
    requires
        existing matches Some(k) ==> k < stored.len(),
        forall|i: int|
            0 <= i < stored.len() && existing != Some(i as usize) ==> #[trigger] active_bytes(
                stored@[i].source_spec(),
                stored@[i].findings_spec(),
                limits@.max_active_bytes as nat,
            ) is Ok,
    ensures
        answers(
            r,
            active_admission(
                limits@,
                stored_datas(stored@),
                match existing {
                    Some(k) => k as int,
                    None => -1,
                },
                batch.source_spec(),
                batch.findings_spec(),
            ),
            batch.revision_spec(),
            batch.revision_spec(),
        ),
{
    let ghost sd = stored_datas(stored@);
    let ghost skip: int = match existing {
        Some(k) => k as int,
        None => -1,
    };
    let ghost maximum = limits@.max_active_bytes as nat;
    let mut count: usize = 0;
    let mut bytes: usize = 0;
    let mut i: usize = 0;
    while i < stored.len()
        invariant
            i <= stored.len(),
            sd == stored_datas(stored@),
            maximum == limits@.max_active_bytes as nat,
            skip == match existing {
                Some(k) => k as int,
                None => -1,
            },
            existing matches Some(k) ==> k < stored.len(),
            forall|q: int|
                0 <= q < stored.len() && existing != Some(q as usize) ==> #[trigger] active_bytes(
                    stored@[q].source_spec(),
                    stored@[q].findings_spec(),
                    limits@.max_active_bytes as nat,
                ) is Ok,
            count == retained_count(sd.take(i as int), skip),
            bytes == retained_bytes(sd.take(i as int), skip, maximum),
        decreases stored.len() - i,
    {
        assert(sd.take(i + 1).drop_last() =~= sd.take(i as int));
        assert(sd.take(i + 1).last() == stored_data(stored@[i as int]));
        let skipped = match existing {
            Some(k) => k == i,
            None => false,
        };
        if !skipped {
            let n = stored[i].findings().len();
            assert(n == stored@[i as int].findings_spec().len());
            count = count.saturating_add(n);
            match active_bytes_of(&stored[i], limits.max_active_bytes()) {
                Ok(b) => {
                    bytes = bytes.saturating_add(b);
                },
                Err(_) => {
                    proof {
                        assert(active_bytes(stored@[i as int].source_spec(), stored@[i as int].findings_spec(), maximum) is Ok);
                        assert(false);
                    }
                },
            }
        }
        i += 1;
    }
    assert(sd.take(i as int) =~= sd);
    let n = batch.findings().len();
    assert(n == batch.findings_spec().len());
    let observed_count = count.saturating_add(n);
    if observed_count > limits.max_active_findings() {
        return Err(
            ExternalFindingError::ResourceLimit(
                ResourceLimitError::new(
                    ResourceLimitPhase::Operation,
                    "active_external_findings",
                    limits.max_active_findings(),
                    observed_count,
                    JsonPointer::root(),
                ),
            ),
        );
    }
    let incoming = match active_bytes_of(batch, limits.max_active_bytes()) {
        Ok(b) => b,
        Err(observed) => {
            return Err(
                ExternalFindingError::ResourceLimit(
                    ResourceLimitError::new(
                        ResourceLimitPhase::Operation,
                        "active_external_finding_bytes",
                        limits.max_active_bytes(),
                        observed,
                        JsonPointer::root(),
                    ),
                ),
            );
        },
    };
    let observed_bytes = bytes.saturating_add(incoming);
    if observed_bytes > limits.max_active_bytes() {
        return Err(
            ExternalFindingError::ResourceLimit(
                ResourceLimitError::new(
                    ResourceLimitPhase::Operation,
                    "active_external_finding_bytes",
                    limits.max_active_bytes(),
                    observed_bytes,
                    JsonPointer::root(),
                ),
            ),
        );
    }
    Ok(())
}

} // verus!
