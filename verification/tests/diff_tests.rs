use dep_inspect::diff::{Differ, DiffedPackageAndVersionReq};
use dep_inspect::json::JsonValue;
use dep_inspect::render::{diff_dep_label, print_diff_tree};
use dep_inspect::resolver::Resolver;
use dep_inspect::snapshot::{DirRecord, ManifestFile, Snapshot};

fn jstr(s: &str) -> JsonValue {
    JsonValue::String(s.to_string())
}

fn jobj(fields: Vec<(&str, JsonValue)>) -> JsonValue {
    JsonValue::Object(fields.into_iter().map(|(k, v)| (k.to_string(), v)).collect())
}

fn dir(path: &str, manifest: ManifestFile, entries: Vec<&str>) -> DirRecord {
    DirRecord {
        path: path.to_string(),
        manifest,
        entries: entries.into_iter().map(|e| e.to_string()).collect(),
    }
}

fn mf(fields: Vec<(&str, JsonValue)>) -> ManifestFile {
    ManifestFile::Json(jobj(fields))
}

fn app_with_dep(root: &str, dep: &str, dep_version: &str) -> Vec<DirRecord> {
    vec![
        dir(
            root,
            mf(vec![
                ("name", jstr("app")),
                ("version", jstr("1.0.0")),
                ("dependencies", jobj(vec![(dep, jstr("^1.0.0"))])),
            ]),
            vec![],
        ),
        dir(&format!("{}/node_modules", root), ManifestFile::Absent, vec![dep]),
        dir(
            &format!("{}/node_modules/{}", root, dep),
            mf(vec![("name", jstr(dep)), ("version", jstr(dep_version))]),
            vec![],
        ),
    ]
}

#[test]
fn diff_of_identical_graphs_is_empty() {
    let snap = Snapshot { dirs: app_with_dep("/app", "a", "1.0.0"), globs: vec![] };
    let mut rv = Resolver::new(snap, usize::MAX);
    let (ri, key) = rv.resolve("/app").unwrap();
    let dr = &rv.dep_resolvers[ri];
    let (_, root) = Differ::diff(dr, dr, &key, &key);
    assert!(root.is_none());
}

#[test]
fn s6_diff_add_remove() {
    let mut dirs = app_with_dep("/left", "a", "1.0.0");
    dirs.extend(app_with_dep("/right", "b", "1.0.0"));
    let snap = Snapshot { dirs, globs: vec![] };
    let mut rv = Resolver::new(snap, usize::MAX);
    let (li, lk) = rv.resolve("/left").unwrap();
    let (ri, rk) = rv.resolve("/right").unwrap();
    let (differ, root) = Differ::diff(&rv.dep_resolvers[li], &rv.dep_resolvers[ri], &lk, &rk);
    let root_idx = root.expect("the roots differ");
    let node = differ.diffed[root_idx].1.as_ref().unwrap();
    assert_eq!(node.dependencies.len(), 2);
    let labels: Vec<String> =
        node.dependencies.iter().map(|dd| diff_dep_label(dd, false)).collect();
    assert!(labels.contains(&"[REMOVED] a@^1.0.0 : 1.0.0".to_string()));
    assert!(labels.contains(&"[ADDED] b@^1.0.0 : 1.0.0".to_string()));

    // the reverse diff swaps additions and removals
    let (differ2, root2) = Differ::diff(&rv.dep_resolvers[ri], &rv.dep_resolvers[li], &rk, &lk);
    let node2 = differ2.diffed[root2.expect("the roots differ")].1.as_ref().unwrap();
    let labels2: Vec<String> =
        node2.dependencies.iter().map(|dd| diff_dep_label(dd, false)).collect();
    assert!(labels2.contains(&"[ADDED] a@^1.0.0 : 1.0.0".to_string()));
    assert!(labels2.contains(&"[REMOVED] b@^1.0.0 : 1.0.0".to_string()));
}

#[test]
fn diff_version_change() {
    let mut dirs = app_with_dep("/left", "a", "1.0.0");
    dirs.extend(app_with_dep("/right", "a", "1.5.0"));
    let snap = Snapshot { dirs, globs: vec![] };
    let mut rv = Resolver::new(snap, usize::MAX);
    let (li, lk) = rv.resolve("/left").unwrap();
    let (ri, rk) = rv.resolve("/right").unwrap();
    let (differ, root) = Differ::diff(&rv.dep_resolvers[li], &rv.dep_resolvers[ri], &lk, &rk);
    let root_idx = root.expect("the roots differ");
    let node = differ.diffed[root_idx].1.as_ref().unwrap();
    assert_eq!(node.dependencies.len(), 1);
    match &node.dependencies[0].package {
        DiffedPackageAndVersionReq::Changed { .. } => {},
        _ => panic!("expected a changed entry"),
    }
    assert_eq!(diff_dep_label(&node.dependencies[0], false), "a@^1.0.0 : 1.0.0 -> 1.5.0");

    let lines = print_diff_tree(&differ, &differ.diffed[root_idx].0);
    assert_eq!(lines.len(), 2);
    assert_eq!(lines[0].text, "app@1.0.0");
    assert_eq!(lines[1].depth, 1);
    assert_eq!(lines[1].text, "a@^1.0.0 : 1.0.0 -> 1.5.0");
}

#[test]
fn diff_of_unchanged_subtree_prunes() {
    // same dependency on both sides, but roots differ in version:
    // the unchanged edge disappears, the root still shows up
    let mut dirs = vec![
        dir(
            "/left",
            mf(vec![
                ("name", jstr("app")),
                ("version", jstr("1.0.0")),
                ("dependencies", jobj(vec![("a", jstr("^1.0.0"))])),
            ]),
            vec![],
        ),
        dir("/left/node_modules", ManifestFile::Absent, vec!["a"]),
        dir(
            "/left/node_modules/a",
            mf(vec![("name", jstr("a")), ("version", jstr("1.0.0"))]),
            vec![],
        ),
    ];
    dirs.push(dir(
        "/right",
        mf(vec![
            ("name", jstr("app")),
            ("version", jstr("2.0.0")),
            ("dependencies", jobj(vec![("a", jstr("^1.0.0"))])),
        ]),
        vec![],
    ));
    dirs.push(dir("/right/node_modules", ManifestFile::Absent, vec!["a"]));
    dirs.push(dir(
        "/right/node_modules/a",
        mf(vec![("name", jstr("a")), ("version", jstr("1.0.0"))]),
        vec![],
    ));
    let snap = Snapshot { dirs, globs: vec![] };
    let mut rv = Resolver::new(snap, usize::MAX);
    let (li, lk) = rv.resolve("/left").unwrap();
    let (ri, rk) = rv.resolve("/right").unwrap();
    let (differ, root) = Differ::diff(&rv.dep_resolvers[li], &rv.dep_resolvers[ri], &lk, &rk);
    let node = differ.diffed[root.expect("the roots differ")].1.as_ref().unwrap();
    assert_eq!(node.dependencies.len(), 0);
    assert_eq!(node.version_left.as_deref(), Some("1.0.0"));
    assert_eq!(node.version_right.as_deref(), Some("2.0.0"));
}

#[test]
fn diff_mismatched_resolution() {
    // installed on the left, missing on the right
    let mut dirs = app_with_dep("/left", "a", "1.0.0");
    dirs.push(dir(
        "/right",
        mf(vec![
            ("name", jstr("app")),
            ("version", jstr("1.0.0")),
            ("dependencies", jobj(vec![("a", jstr("^1.0.0"))])),
        ]),
        vec![],
    ));
    dirs.push(dir("/right/node_modules", ManifestFile::Absent, vec![]));
    let snap = Snapshot { dirs, globs: vec![] };
    let mut rv = Resolver::new(snap, usize::MAX);
    let (li, lk) = rv.resolve("/left").unwrap();
    let (ri, rk) = rv.resolve("/right").unwrap();
    let (differ, root) = Differ::diff(&rv.dep_resolvers[li], &rv.dep_resolvers[ri], &lk, &rk);
    let node = differ.diffed[root.expect("the roots differ")].1.as_ref().unwrap();
    assert_eq!(node.dependencies.len(), 1);
    assert_eq!(
        diff_dep_label(&node.dependencies[0], false),
        "a@^1.0.0 : [MISMATCHED RESOLUTION]"
    );
}
