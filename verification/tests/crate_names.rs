use magellan::crate_name::{crate_name_from, extract_quoted_value, parse_cargo_toml_name};

#[test]
fn test_extract_quoted_value_double_quotes() {
    assert_eq!(extract_quoted_value(r#"name = "my-crate""#), Some("my-crate".to_string()));
}

#[test]
fn test_extract_quoted_value_single_quotes() {
    assert_eq!(extract_quoted_value(r#"name = 'my-crate'"#), Some("my-crate".to_string()));
}

#[test]
fn test_extract_quoted_value_no_quotes() {
    assert_eq!(extract_quoted_value(r#"name = my-crate"#), None);
}

#[test]
fn test_extract_quoted_value_empty() {
    assert_eq!(extract_quoted_value(r#"name = """#), Some("".to_string()));
}

#[test]
fn test_parse_cargo_toml_name_valid() {
    let content = r#"
[package]
name = "test-crate"
version = "0.1.0"

[dependencies]
"#;
    assert_eq!(parse_cargo_toml_name(content), Some("test-crate".to_string()));
}

#[test]
fn test_parse_cargo_toml_name_with_spaces() {
    let content = r#"
[package]
name    =    "test-crate-with-spaces"
"#;
    assert_eq!(parse_cargo_toml_name(content), Some("test-crate-with-spaces".to_string()));
}

#[test]
fn test_parse_cargo_toml_name_empty() {
    assert_eq!(parse_cargo_toml_name(""), None);
}

#[test]
fn test_parse_cargo_toml_name_no_package_section() {
    let content = r#"
[dependencies]
serde = "1.0"
"#;
    assert_eq!(parse_cargo_toml_name(content), None);
}

#[test]
fn test_parse_cargo_toml_name_no_name_field() {
    let content = r#"
[package]
version = "0.1.0"
"#;
    assert_eq!(parse_cargo_toml_name(content), None);
}

#[test]
fn test_parse_cargo_toml_name_stops_at_next_section() {
    let content = r#"
[package]
version = "0.1.0"

[package.metadata]
name = "should-not-pick-this"

[dependencies]
"#;
    assert_eq!(parse_cargo_toml_name(content), None);
}

#[test]
fn crate_name_prefers_the_manifest_then_the_directory() {
    let manifest = "[package]\nname = \"from-manifest\"\n";
    assert_eq!(crate_name_from(Some(manifest), Some("dir")), "from-manifest");
    assert_eq!(crate_name_from(Some("not valid toml at all!!!"), Some("dir")), "dir");
    assert_eq!(crate_name_from(None, Some("my-test-crate-x")), "my-test-crate-x");
}

#[test]
fn crate_name_without_manifest_or_directory_is_unknown() {
    assert_eq!(crate_name_from(None, None), "unknown");
}

#[test]
fn test_fallback_to_directory_name() {
    // A project directory without a Cargo.toml: the directory name is used.
    let result = crate_name_from(None, Some("my-test-crate-1a2b3c"));
    assert!(result.starts_with("my-test-crate-"));
}

#[test]
fn test_unknown_fallback_empty_string_name() {
    // "/" has no file name and no Cargo.toml was read.
    let result = crate_name_from(None, None);
    assert_eq!(result, "unknown");
}
