use schemaform::engine::{
    apply_external_findings, normalize_findings, ApplyExternalFindingsError, ExternalFinding, ExternalFindingBatch,
};

fn blocking(pointer: &str, code: &str) -> ExternalFinding {
    ExternalFinding::blocking(pointer, code.to_string()).expect("pointer")
}

fn advisory(pointer: &str, code: &str) -> ExternalFinding {
    ExternalFinding::advisory(pointer, code.to_string()).expect("pointer")
}

fn sources(batches: &[ExternalFindingBatch]) -> Vec<String> {
    batches.iter().map(|b| b.source.clone()).collect()
}

#[test]
fn findings_are_ordered_and_deduplicated() {
    let normalized = normalize_findings(vec![
        blocking("/b", "x"),
        advisory("/a", "y"),
        blocking("/a", "y"),
        blocking("/b", "x"),
        advisory("/a", "a"),
    ]);
    let listed: Vec<(String, bool)> = normalized
        .iter()
        .map(|f| (format!("{f:?}"), true))
        .collect();
    assert_eq!(listed.len(), 4);
    let expected = normalize_findings(vec![
        advisory("/a", "a"),
        advisory("/a", "y"),
        blocking("/a", "y"),
        blocking("/b", "x"),
    ]);
    assert_eq!(format!("{normalized:?}"), format!("{expected:?}"));
}

#[test]
fn stale_revisions_are_refused_without_change() {
    let mut batches = Vec::new();
    let mut state = 4;
    let result = apply_external_findings(&mut batches, &mut state, 2, "server".to_string(), 1, vec![blocking("/q", "x")]);
    assert_eq!(result, Err(ApplyExternalFindingsError::StaleDataRevision { current: 2, supplied: 1 }));
    assert!(batches.is_empty());
    assert_eq!(state, 4);
}

#[test]
fn sources_are_added_replaced_and_cleared() {
    let mut batches = Vec::new();
    let mut state = 0;
    apply_external_findings(&mut batches, &mut state, 3, "z-source".to_string(), 3, vec![blocking("/q", "x")]).unwrap();
    apply_external_findings(&mut batches, &mut state, 3, "a-source".to_string(), 3, vec![advisory("/", "y")]).unwrap();
    assert_eq!(sources(&batches), vec!["a-source", "z-source"]);
    assert_eq!(state, 2);
    apply_external_findings(
        &mut batches,
        &mut state,
        3,
        "z-source".to_string(),
        3,
        vec![blocking("/q", "x"), blocking("/q", "x")],
    )
    .unwrap();
    assert_eq!(state, 2, "an equivalent batch is a no-op");
    apply_external_findings(&mut batches, &mut state, 3, "z-source".to_string(), 3, vec![blocking("/q", "w")]).unwrap();
    assert_eq!(state, 3);
    assert_eq!(batches[1].findings.len(), 1);
    apply_external_findings(&mut batches, &mut state, 3, "z-source".to_string(), 3, Vec::new()).unwrap();
    assert_eq!(sources(&batches), vec!["a-source"]);
    assert_eq!(state, 4);
    apply_external_findings(&mut batches, &mut state, 3, "missing".to_string(), 3, Vec::new()).unwrap();
    assert_eq!(state, 4, "clearing an absent source is a no-op");
}
