use schemaform::state::{
    AllowedOperations, DataRevision, ExternalFindingLimits, FindingVisibility,
    FindingVisibilityPolicy, InstanceIdentity, ItemIdentity, StateRevision, Transition,
};

#[test]
fn allowed_operations_combine_permissions() {
    let mut operations = AllowedOperations::none();
    assert!(!operations.can_input_text());
    operations.add(AllowedOperations::input_text());
    operations.add(AllowedOperations::move_item());
    assert!(operations.can_input_text());
    assert!(operations.can_move_item());
    assert!(!operations.can_set_value());
    assert!(!operations.can_append_item());
    let mut all = AllowedOperations::default();
    for one in [
        AllowedOperations::set_value(), AllowedOperations::set_null(), AllowedOperations::remove_value(),
        AllowedOperations::replace_value(), AllowedOperations::materialize(), AllowedOperations::append_item(),
        AllowedOperations::remove_item(),
    ] {
        all.add(one);
    }
    assert!(all.can_set_value() && all.can_set_null() && all.can_remove_value() && all.can_replace_value());
    assert!(all.can_materialize() && all.can_append_item() && all.can_remove_item());
    assert!(!all.can_input_text() && !all.can_move_item());
}

#[test]
fn visibility_policies_change_one_side_at_a_time() {
    let policy = FindingVisibilityPolicy::default();
    assert_eq!(policy.validation(), FindingVisibility::TouchedOrSubmission);
    assert_eq!(policy.external(), FindingVisibility::TouchedOrSubmission);
    let changed = policy.with_validation(FindingVisibility::Immediate);
    assert_eq!(changed.validation(), FindingVisibility::Immediate);
    assert_eq!(changed.external(), FindingVisibility::TouchedOrSubmission);
    let changed = changed.with_external(FindingVisibility::SubmissionOnly);
    assert_eq!(changed, FindingVisibilityPolicy::new(FindingVisibility::Immediate, FindingVisibility::SubmissionOnly));
}

#[test]
fn external_finding_limits_scale_incoming_bounds() {
    let limits = ExternalFindingLimits::new(10, 100);
    assert_eq!(limits.max_active_findings(), 10);
    assert_eq!(limits.max_active_bytes(), 100);
    assert_eq!(limits.incoming_findings(), 40);
    assert_eq!(limits.incoming_bytes(), 400);
    assert_eq!(limits.parameter_depth(), 32);
    assert_eq!(limits.parameter_nodes(), 4096);
    assert_eq!(limits.parameter_collection_length(), 1024);
    assert_eq!(limits.parameter_scalar_bytes(), 65_536);
    let saturated = ExternalFindingLimits::new(usize::MAX, 1);
    assert_eq!(saturated.incoming_findings(), usize::MAX);
    assert_eq!(saturated.incoming_bytes(), 4);
    let defaults = ExternalFindingLimits::default();
    assert_eq!(defaults.incoming_findings(), 4096);
    assert_eq!(defaults.incoming_bytes(), 4 * 1024 * 1024);
    let tuned = defaults.max_incoming_findings(7).max_parameter_depth(3).max_parameter_scalar_bytes(9);
    assert_eq!(tuned.incoming_findings(), 7);
    assert_eq!(tuned.parameter_depth(), 3);
    assert_eq!(tuned.parameter_scalar_bytes(), 9);
    assert_eq!(tuned.max_active_findings(), 1024);
    let tuned = tuned.max_incoming_bytes(11).max_parameter_nodes(12).max_parameter_collection_length(13);
    assert_eq!((tuned.incoming_bytes(), tuned.parameter_nodes(), tuned.parameter_collection_length()), (11, 12, 13));
}

#[test]
fn transitions_report_revisions_and_node_sets() {
    let item = ItemIdentity::new(1, 4);
    let node = InstanceIdentity::new(1, 9, Some(item));
    let quiet = Transition::new(
        DataRevision::new(1, 2), DataRevision::new(1, 2),
        StateRevision::new(1, 3), StateRevision::new(1, 3),
        Vec::new(), Vec::new(),
    );
    assert!(quiet.is_empty());
    let changed = Transition::new(
        DataRevision::new(1, 2), DataRevision::new(1, 3),
        StateRevision::new(1, 3), StateRevision::new(1, 4),
        vec![node], Vec::new(),
    );
    assert!(!changed.is_empty());
    assert_eq!(changed.changed(), vec![node]);
    assert!(changed.removed().is_empty());
    assert_eq!(changed.after_data_revision(), DataRevision::new(1, 3));
    assert!(changed.before_data_revision() < changed.after_data_revision());
    assert_eq!(changed.before_state_revision(), StateRevision::new(1, 3));
    assert_eq!(changed.after_state_revision(), StateRevision::new(1, 4));
}
