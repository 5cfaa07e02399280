use schemaform::address::JsonPointer;
use schemaform::admission::{check_active_external_findings, check_incoming_external_findings};
use schemaform::finding::{ExternalFinding, ExternalFindingBatch};
use schemaform::state::{DataRevision, ExternalFindingError, ExternalFindingLimits};
use schemaform::value::JsonValue;

fn finding(code: &str, location: &str, parameters: JsonValue) -> ExternalFinding {
    ExternalFinding::blocking(code.to_string(), JsonPointer::parse(location.to_string()).unwrap(), parameters)
}

fn batch(source: &str, revision: DataRevision, findings: Vec<ExternalFinding>) -> ExternalFindingBatch {
    ExternalFindingBatch::new(source.to_string(), revision, findings)
}

fn limit(result: Result<(), ExternalFindingError>) -> (String, usize, usize, String) {
    match result {
        Err(ExternalFindingError::ResourceLimit(e)) => {
            (e.dimension().to_string(), e.maximum(), e.observed(), e.path().as_str().to_string())
        },
        other => panic!("expected a limit failure, got {other:?}"),
    }
}

fn nested(depth: usize) -> JsonValue {
    let mut value = JsonValue::Null;
    for _ in 0..depth {
        value = JsonValue::Array(vec![value]);
    }
    value
}

#[test]
fn batches_for_another_revision_or_form_are_stale() {
    let limits = ExternalFindingLimits::default();
    let current = DataRevision::new(1, 5);
    for supplied in [DataRevision::new(1, 4), DataRevision::new(2, 5)] {
        let result = check_incoming_external_findings(limits, current, &batch("server", supplied, Vec::new()));
        assert!(matches!(
            result,
            Err(ExternalFindingError::StaleRevision { current: c, supplied: s }) if c == current && s == supplied
        ));
    }
    assert!(check_incoming_external_findings(limits, current, &batch("server", current, Vec::new())).is_ok());
}

#[test]
fn incoming_bounds_are_checked_in_order() {
    let current = DataRevision::new(1, 1);
    let small = ExternalFindingLimits::new(1, 1_000);
    let many: Vec<ExternalFinding> = (0..5).map(|_| finding("c", "/a", JsonValue::Null)).collect();
    assert_eq!(
        limit(check_incoming_external_findings(small, current, &batch("s", current, many))),
        ("incoming_external_findings".to_string(), 4, 5, String::new())
    );
    let deep = vec![finding("c", "/a", JsonValue::Null), finding("c", "/b/0", nested(33))];
    assert_eq!(
        limit(check_incoming_external_findings(ExternalFindingLimits::default(), current, &batch("s", current, deep))),
        ("external_finding_parameter_depth".to_string(), 32, 33, "/b/0".to_string())
    );
    let tight = ExternalFindingLimits::new(10, 3);
    let (dimension, maximum, observed, path) =
        limit(check_incoming_external_findings(tight, current, &batch("server", current, vec![finding("code", "/x", JsonValue::Null)])));
    assert_eq!((dimension.as_str(), maximum, path.as_str()), ("incoming_external_finding_bytes", 12, ""));
    assert!(observed > 12);
}

#[test]
fn active_bounds_count_retained_batches() {
    let current = DataRevision::new(1, 1);
    let limits = ExternalFindingLimits::new(2, 1_000);
    let stored = vec![
        batch("a", current, vec![finding("c", "/a", JsonValue::Null)]),
        batch("b", current, vec![finding("c", "/b", JsonValue::Null)]),
    ];
    let incoming = batch("c", current, vec![finding("c", "/c", JsonValue::Null)]);
    assert_eq!(
        limit(check_active_external_findings(limits, &stored, None, &incoming)),
        ("active_external_findings".to_string(), 2, 3, String::new())
    );
    let replacing = batch("b", current, vec![finding("d", "/b", JsonValue::Null)]);
    assert!(check_active_external_findings(limits, &stored, Some(1), &replacing).is_ok());
    let byte_limits = ExternalFindingLimits::new(10, 12);
    let (dimension, maximum, observed, _) =
        limit(check_active_external_findings(byte_limits, &Vec::new(), None, &batch("source", current, vec![finding("c", "/a", JsonValue::Null)])));
    assert_eq!((dimension.as_str(), maximum), ("active_external_finding_bytes", 12));
    assert!(observed > 12);
}
