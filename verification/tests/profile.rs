use schemaform::json::FormDataLimits;
use schemaform::profile::CompilationProfile;

#[test]
fn the_standard_profile_has_the_documented_bounds() {
    let limits = CompilationProfile::standard().data_schema_limits();
    assert_eq!(
        limits.values(),
        [2_097_152, 262_144, 128, 131_072, 16_384, 1_048_576, 256, 16_384, 131_072, 16_384, 8_192, 8_192, 8_192, 1_024]
    );
    let ui = CompilationProfile::default().ui_schema_limits();
    assert_eq!(ui.values(), [2_097_152, 262_144, 128, 131_072, 65_536, 16_384, 1_048_576]);
    let extensions = CompilationProfile::standard().extension_limits();
    assert_eq!(extensions.values(), [32, 4_096, 2_048, 32, 16_384, 1_048_576]);
}

#[test]
fn each_profile_builder_replaces_one_bound() {
    let profile = CompilationProfile::standard()
        .max_data_schema_depth(3)
        .max_uri_bytes(40)
        .max_ui_schema_collection_length(5)
        .max_extension_value_bytes(9);
    let data = profile.data_schema_limits();
    assert_eq!(data.depth, 3);
    assert_eq!(data.uri_bytes, 40);
    assert_eq!(data.bytes, 2_097_152);
    assert_eq!(profile.ui_schema_limits().collection_length, 5);
    assert_eq!(profile.ui_schema_limits().depth, 128);
    assert_eq!(profile.extension_limits().value_bytes, 9);
    assert_eq!(profile.extension_limits().value_depth, 32);
    assert!(profile != CompilationProfile::standard());
    assert!(profile.duplicate() == profile);
}

#[test]
fn form_data_defaults_and_builders() {
    let limits = FormDataLimits::default();
    assert_eq!(limits.input_limits().values(), [4_194_304, 262_144, 32, 65_536, 65_536, 1_024, 262_144]);
    assert_eq!(limits.form_tree_nodes(), 65_536);
    assert_eq!(limits.repeated_items(), 16_384);
    assert_eq!(limits.active_edit_buffers(), 1_024);
    assert_eq!(limits.edit_buffer_bytes(), 524_288);
    assert_eq!(limits.total_edit_buffer_bytes(), 4_194_304);
    assert_eq!(limits.host_operations_per_transaction(), 256);
    assert_eq!(limits.retained_validation_findings(), 256);
    assert_eq!(limits.validation_parameter_bytes(), 4_096);
    assert_eq!(limits.canonical_integer_digits(), 4_096);
    let tuned = limits.max_depth(2).max_canonical_integer_digits(10).max_repeated_items(7);
    assert_eq!(tuned.input_limits().depth, 2);
    assert_eq!(tuned.canonical_integer_digits(), 10);
    assert_eq!(tuned.repeated_items(), 7);
    assert_eq!(tuned.input_limits().nodes, 65_536);
}
