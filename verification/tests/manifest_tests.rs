use dep_inspect::error::Error;
use dep_inspect::json::JsonValue;
use dep_inspect::node_modules::ScopeArena;
use dep_inspect::package_data::{get_workspace_globs, PackageJsonData};
use dep_inspect::snapshot::Snapshot;

fn jstr(s: &str) -> JsonValue {
    JsonValue::String(s.to_string())
}

fn jobj(fields: Vec<(&str, JsonValue)>) -> JsonValue {
    JsonValue::Object(fields.into_iter().map(|(k, v)| (k.to_string(), v)).collect())
}

#[test]
fn manifest_basic_fields() {
    let snap = Snapshot::new();
    let mut scopes = ScopeArena::new();
    let json = jobj(vec![
        ("name", jstr("demo")),
        ("version", jstr("1.2.3")),
        ("dependencies", jobj(vec![("a", jstr("^1.0.0")), ("b", jstr("workspace:*"))])),
    ]);
    let m = PackageJsonData::from_value(&json, 7, "/proj/demo", &snap, &mut scopes, 4).unwrap();
    assert_eq!(m.name.as_str(), "demo");
    assert_eq!(m.version.as_deref(), Some("1.2.3"));
    assert_eq!(m.install_path.as_str(), "/proj/demo");
    assert_eq!(m.parent_id, 7);
    assert_eq!(m.dependencies.len(), 2);
    assert_eq!(m.dependencies[0].0.as_str(), "a");
    assert_eq!(m.dependencies[1].0.as_str(), "b");
    assert!(m.workspace_data.is_none());
}

#[test]
fn manifest_placeholder_name() {
    let snap = Snapshot::new();
    let mut scopes = ScopeArena::new();
    let json = jobj(vec![("version", jstr("0.1.0"))]);
    let m = PackageJsonData::from_value(&json, 0, "/proj/anon", &snap, &mut scopes, 4).unwrap();
    assert_eq!(m.name.as_str(), "{no name}");
}

#[test]
fn manifest_dev_deps_dropped_under_node_modules() {
    let snap = Snapshot::new();
    let mut scopes = ScopeArena::new();
    let json = jobj(vec![
        ("name", jstr("a")),
        ("version", jstr("1.0.0")),
        ("devDependencies", jobj(vec![("t", jstr("^5"))])),
    ]);
    let inside = PackageJsonData::from_value(
        &json,
        0,
        "/proj/node_modules/a",
        &snap,
        &mut scopes,
        4,
    )
    .unwrap();
    assert_eq!(inside.dev_dependencies.len(), 0);
    let outside =
        PackageJsonData::from_value(&json, 0, "/proj/a", &snap, &mut scopes, 4).unwrap();
    assert_eq!(outside.dev_dependencies.len(), 1);
}

#[test]
fn manifest_bad_version_is_fatal() {
    let snap = Snapshot::new();
    let mut scopes = ScopeArena::new();
    let bad_text = jobj(vec![("name", jstr("x")), ("version", jstr("not-sem-ver"))]);
    match PackageJsonData::from_value(&bad_text, 0, "/p", &snap, &mut scopes, 4) {
        Err(e) => assert_eq!(e, Error::InvalidManifest),
        Ok(_) => panic!("expected an error"),
    }
    let bad_shape = jobj(vec![("name", jstr("x")), ("version", JsonValue::Number)]);
    match PackageJsonData::from_value(&bad_shape, 0, "/p", &snap, &mut scopes, 4) {
        Err(e) => assert_eq!(e, Error::InvalidManifest),
        Ok(_) => panic!("expected an error"),
    }
}

#[test]
fn manifest_bad_deps_are_fatal() {
    let snap = Snapshot::new();
    let mut scopes = ScopeArena::new();
    let bad = jobj(vec![
        ("name", jstr("x")),
        ("dependencies", jobj(vec![("a", JsonValue::Number)])),
    ]);
    match PackageJsonData::from_value(&bad, 0, "/p", &snap, &mut scopes, 4) {
        Err(e) => assert_eq!(e, Error::InvalidManifest),
        Ok(_) => panic!("expected an error"),
    }
}

#[test]
fn workspace_globs_prefixed_and_filtered() {
    let json = jobj(vec![(
        "workspaces",
        JsonValue::Array(vec![jstr("packages/*"), jstr("."), jstr("tools/*")]),
    )]);
    let globs = get_workspace_globs(&json, "/repo").unwrap().unwrap();
    assert_eq!(globs.len(), 2);
    assert_eq!(globs[0].as_str(), "/repo/packages/*");
    assert_eq!(globs[1].as_str(), "/repo/tools/*");
}

#[test]
fn workspace_globs_empty_or_absent() {
    let none = jobj(vec![("name", jstr("x"))]);
    assert!(get_workspace_globs(&none, "/repo").unwrap().is_none());
    let only_dot = jobj(vec![("workspaces", JsonValue::Array(vec![jstr(".")]))]);
    assert!(get_workspace_globs(&only_dot, "/repo").unwrap().is_none());
}

#[test]
fn workspace_globs_bad_shape_is_fatal() {
    let not_array = jobj(vec![("workspaces", jstr("packages/*"))]);
    assert_eq!(get_workspace_globs(&not_array, "/repo").unwrap_err(), Error::InvalidManifest);
    let bad_entry = jobj(vec![("workspaces", JsonValue::Array(vec![JsonValue::Null]))]);
    assert_eq!(get_workspace_globs(&bad_entry, "/repo").unwrap_err(), Error::InvalidManifest);
}

#[test]
fn error_messages() {
    assert_eq!(Error::MissingManifest.message(), "no package manifest at this path");
    assert_eq!(Error::InvalidManifest.message(), "invalid package manifest");
    assert_eq!(Error::MissingNodeModules.message(), "no installed packages directory found");
    assert_eq!(Error::BadRootEntry.message(), "root package is missing or truncated");
}
