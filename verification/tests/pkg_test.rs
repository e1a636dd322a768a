use stale::{
    manifest_file, npm_version_in, parse_pkg_query, resolve_pkg_version, uv_version_in,
    JsonDocument, Leaf, PkgError, PkgManager, Record, TomlDocument, TomlMember,
};

const UV_LOCK_TWO: &str = r#"
version = 1

[[package]]
name = "flask"
version = "3.0.0"

[[package]]
name = "requests"
version = "2.31.0"
"#;

const UV_LOCK_ONE: &str = "\nversion = 1\n\n[[package]]\nname = \"flask\"\nversion = \"3.0.0\"\n";

#[test]
fn test_resolve_npm_version_from_dependencies() {
    let v = resolve_pkg_version("npm:express", r#"{"dependencies":{"express":"^4.18.0"}}"#).ok().unwrap();
    assert_eq!(v, "^4.18.0");
}

#[test]
fn test_resolve_npm_version_from_dev_dependencies() {
    let v = resolve_pkg_version("js:jest", r#"{"devDependencies":{"jest":"^29.0.0"}}"#).ok().unwrap();
    assert_eq!(v, "^29.0.0");
}

#[test]
fn test_resolve_npm_version_not_found() {
    let err = resolve_pkg_version("npm:missing", r#"{"dependencies":{"express":"^4.18.0"}}"#);
    assert!(err.is_err());
}

#[test]
fn test_resolve_uv_version() {
    let v = resolve_pkg_version("uv:requests", UV_LOCK_TWO).ok().unwrap();
    assert_eq!(v, "2.31.0");
}

#[test]
fn test_resolve_uv_version_py_alias() {
    let v = resolve_pkg_version("py:flask", UV_LOCK_ONE).ok().unwrap();
    assert_eq!(v, "3.0.0");
}

#[test]
fn test_resolve_uv_version_not_found() {
    let err = resolve_pkg_version("uv:missing", UV_LOCK_ONE);
    assert!(err.is_err());
}

#[test]
fn test_resolve_unknown_manager() {
    let err = resolve_pkg_version("cargo:serde", "");
    assert!(err.is_err());
}

#[test]
fn test_resolve_invalid_format() {
    let err = resolve_pkg_version("no-colon", "");
    assert!(err.is_err());
}

#[test]
fn query_errors_name_what_is_wrong() {
    assert!(matches!(resolve_pkg_version("no-colon", ""), Err(PkgError::InvalidQuery(q)) if q == "no-colon"));
    assert!(matches!(resolve_pkg_version("cargo:serde", ""), Err(PkgError::UnknownManager(m)) if m == "cargo"));
    assert!(matches!(resolve_pkg_version("cargo:", ""), Err(PkgError::EmptyPackage(q)) if q == "cargo:"));
    assert!(matches!(resolve_pkg_version("npm:missing", "{}"), Err(PkgError::NotFound(p)) if p == "missing"));
    assert!(matches!(
        resolve_pkg_version("npm:x", "{not json"),
        Err(PkgError::InvalidManifest(PkgManager::Npm))
    ));
    assert!(matches!(
        resolve_pkg_version("uv:x", "[[package"),
        Err(PkgError::InvalidManifest(PkgManager::Uv))
    ));
}

#[test]
fn query_splits_at_first_colon() {
    let q = parse_pkg_query("python:a:b").ok().unwrap();
    assert_eq!(q.manager, PkgManager::Uv);
    assert_eq!(q.package, "a:b");
    let q = parse_pkg_query("npm:@scope/pkg").ok().unwrap();
    assert_eq!(q.manager, PkgManager::Npm);
    assert_eq!(q.package, "@scope/pkg");
    assert!(matches!(parse_pkg_query(":x"), Err(PkgError::UnknownManager(m)) if m.is_empty()));
}

#[test]
fn manifests_have_their_names() {
    assert_eq!(manifest_file(PkgManager::Npm), "package.json");
    assert_eq!(manifest_file(PkgManager::Uv), "uv.lock");
}

#[test]
fn npm_sections_are_searched_in_order() {
    let manifest = r#"{"peerDependencies":{"a":"3"},"devDependencies":{"a":"2"},"dependencies":{"a":1}}"#;
    assert_eq!(resolve_pkg_version("npm:a", manifest).ok().unwrap(), "2");
    let manifest = r#"{"peerDependencies":{"a":"3"}}"#;
    assert_eq!(resolve_pkg_version("npm:a", manifest).ok().unwrap(), "3");
    assert!(resolve_pkg_version("npm:a", "[1,2]").is_err());
}

#[test]
fn uv_skips_entries_without_a_version() {
    let lock = "[[package]]\nname = \"a\"\n\n[[package]]\nname = \"a\"\nversion = \"2\"\n";
    assert_eq!(resolve_pkg_version("uv:a", lock).ok().unwrap(), "2");
    assert!(resolve_pkg_version("uv:a", "package = 3\n").is_err());
}

#[test]
fn npm_lookup_on_a_written_document() {
    let doc = JsonDocument::Object(vec![
        ("dependencies".to_string(), Record::Table(vec![("x".to_string(), Leaf::Other)])),
        (
            "devDependencies".to_string(),
            Record::Table(vec![("x".to_string(), Leaf::Text("1.2.3".to_string()))]),
        ),
    ]);
    assert_eq!(npm_version_in(&doc, "x"), Some("1.2.3".to_string()));
    assert_eq!(npm_version_in(&doc, "y"), None);
    assert_eq!(npm_version_in(&JsonDocument::Other, "x"), None);
}

#[test]
fn uv_lookup_on_a_written_document() {
    let doc = TomlDocument::Table(vec![(
        "package".to_string(),
        TomlMember::Array(vec![
            Record::Other,
            Record::Table(vec![
                ("name".to_string(), Leaf::Text("flask".to_string())),
                ("version".to_string(), Leaf::Text("3.0.0".to_string())),
            ]),
        ]),
    )]);
    assert_eq!(uv_version_in(&doc, "flask"), Some("3.0.0".to_string()));
    assert_eq!(uv_version_in(&doc, "django"), None);
    assert_eq!(uv_version_in(&TomlDocument::Other, "flask"), None);
}
