use rexplore::rexplore_core::api::{
    load_rustdoc_json_from_str, package_name_from_manifest, rustdoc_json_stem, BuilderOptions,
    RexploreError,
};

#[test]
fn package_name_from_first_name_line() {
    let manifest = "[package]\nname = \"my-crate\"\nversion = \"0.1.0\"\n";
    assert_eq!(package_name_from_manifest(manifest).unwrap(), "my-crate");
}

#[test]
fn package_name_in_single_quotes_and_spaces() {
    let manifest = "[package]\n  name='tool'  \r\nname = \"later\"\n";
    assert_eq!(package_name_from_manifest(manifest).unwrap(), "tool");
}

#[test]
fn name_line_needs_exactly_one_equals_sign() {
    let manifest = "name = a = b\nnamespace = \"ns\"\n";
    assert_eq!(package_name_from_manifest(manifest).unwrap(), "ns");
}

#[test]
fn manifest_without_name() {
    let manifest = "[package]\nversion = \"0.1.0\"\n";
    assert!(matches!(
        package_name_from_manifest(manifest),
        Err(RexploreError::PackageNameNotFound)
    ));
    assert!(matches!(
        package_name_from_manifest(""),
        Err(RexploreError::PackageNameNotFound)
    ));
}

#[test]
fn json_stem_replaces_hyphens() {
    assert_eq!(rustdoc_json_stem("my-crate-name"), "my_crate_name");
    assert_eq!(rustdoc_json_stem("plain"), "plain");
}

#[test]
fn default_builder_options() {
    let o = BuilderOptions::default();
    assert!(o.sorted);
    assert!(!o.debug_sorting);
    assert!(!o.omit_blanket_impls);
    assert!(!o.omit_auto_trait_impls);
    assert!(!o.omit_auto_derived_impls);
}

#[test]
fn rustdoc_json_that_does_not_parse() {
    assert!(matches!(
        load_rustdoc_json_from_str("{ not json"),
        Err(RexploreError::JsonParse(_))
    ));
    assert!(matches!(
        load_rustdoc_json_from_str("{}"),
        Err(RexploreError::JsonParse(_))
    ));
}

#[test]
fn minimal_rustdoc_json_parses() {
    let json = r#"{"root":0,"crate_version":"1.2.3","includes_private":false,"index":{},"paths":{},"external_crates":{},"target":{"triple":"x86_64-unknown-linux-gnu","target_features":[]},"format_version":61}"#;
    let c = load_rustdoc_json_from_str(json).unwrap();
    assert_eq!(c.crate_version.as_deref(), Some("1.2.3"));
    assert!(c.index.is_empty());
}
