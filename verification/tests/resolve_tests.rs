use dep_inspect::json::JsonValue;
use dep_inspect::package::LineTone;
use dep_inspect::render::print_tree;
use dep_inspect::resolver::{norm_for_glob, Resolver};
use dep_inspect::snapshot::{DirRecord, GlobExpansion, ManifestFile, Snapshot};

fn jstr(s: &str) -> JsonValue {
    JsonValue::String(s.to_string())
}

fn jobj(fields: Vec<(&str, JsonValue)>) -> JsonValue {
    JsonValue::Object(fields.into_iter().map(|(k, v)| (k.to_string(), v)).collect())
}

fn dir(path: &str, manifest: ManifestFile, entries: Vec<&str>) -> DirRecord {
    DirRecord {
        path: path.to_string(),
        manifest,
        entries: entries.into_iter().map(|e| e.to_string()).collect(),
    }
}

fn mf(fields: Vec<(&str, JsonValue)>) -> ManifestFile {
    ManifestFile::Json(jobj(fields))
}

#[test]
fn test_norm_for_glob() {
    assert_eq!(norm_for_glob("tests/workspace"), "tests/workspace");
    assert_eq!(norm_for_glob("tests/workspace/"), "tests/workspace");
}

#[test]
fn s1_flat_tree() {
    let snap = Snapshot {
        dirs: vec![
            dir(
                "/app",
                mf(vec![
                    ("name", jstr("app")),
                    ("version", jstr("1.0.0")),
                    ("dependencies", jobj(vec![("a", jstr("^1.0.0"))])),
                ]),
                vec![],
            ),
            dir("/app/node_modules", ManifestFile::Absent, vec!["a"]),
            dir(
                "/app/node_modules/a",
                mf(vec![("name", jstr("a")), ("version", jstr("1.2.3"))]),
                vec![],
            ),
        ],
        globs: vec![],
    };
    let mut rv = Resolver::new(snap, usize::MAX);
    let (ri, key) = rv.resolve("/app").unwrap();
    let lines = print_tree(&rv.dep_resolvers[ri], &key);
    assert_eq!(lines.len(), 2);
    assert_eq!(lines[0].depth, 0);
    assert_eq!(lines[0].text, "app@1.0.0");
    assert_eq!(lines[1].depth, 1);
    assert_eq!(lines[1].text, "a@^1.0.0 : 1.2.3");
}

#[test]
fn s2_missing() {
    let snap = Snapshot {
        dirs: vec![
            dir(
                "/app",
                mf(vec![
                    ("name", jstr("app")),
                    ("version", jstr("1.0.0")),
                    ("dependencies", jobj(vec![("a", jstr("^1.0.0"))])),
                ]),
                vec![],
            ),
            dir("/app/node_modules", ManifestFile::Absent, vec![]),
        ],
        globs: vec![],
    };
    let mut rv = Resolver::new(snap, usize::MAX);
    let (ri, key) = rv.resolve("/app").unwrap();
    let lines = print_tree(&rv.dep_resolvers[ri], &key);
    assert_eq!(lines.len(), 2);
    assert_eq!(lines[1].text, "a@^1.0.0 : [MISSING]");
}

#[test]
fn s3_version_mismatch() {
    let snap = Snapshot {
        dirs: vec![
            dir(
                "/app",
                mf(vec![
                    ("name", jstr("app")),
                    ("version", jstr("1.0.0")),
                    ("dependencies", jobj(vec![("a", jstr("^1.0.0"))])),
                ]),
                vec![],
            ),
            dir("/app/node_modules", ManifestFile::Absent, vec!["a"]),
            dir(
                "/app/node_modules/a",
                mf(vec![("name", jstr("a")), ("version", jstr("0.9.0"))]),
                vec![],
            ),
        ],
        globs: vec![],
    };
    let mut rv = Resolver::new(snap, usize::MAX);
    let (ri, key) = rv.resolve("/app").unwrap();
    let lines = print_tree(&rv.dep_resolvers[ri], &key);
    assert_eq!(lines[1].text, "a@^1.0.0 : 0.9.0 (version not satisfied)");
}

#[test]
fn s4_cycle() {
    let snap = Snapshot {
        dirs: vec![
            dir(
                "/app",
                mf(vec![
                    ("name", jstr("app")),
                    ("version", jstr("1.0.0")),
                    ("dependencies", jobj(vec![("a", jstr("^1.0.0"))])),
                ]),
                vec![],
            ),
            dir("/app/node_modules", ManifestFile::Absent, vec!["a", "b"]),
            dir(
                "/app/node_modules/a",
                mf(vec![
                    ("name", jstr("a")),
                    ("version", jstr("1.0.0")),
                    ("dependencies", jobj(vec![("b", jstr("^1.0.0"))])),
                ]),
                vec![],
            ),
            dir(
                "/app/node_modules/b",
                mf(vec![
                    ("name", jstr("b")),
                    ("version", jstr("1.0.0")),
                    ("dependencies", jobj(vec![("a", jstr("^1.0.0"))])),
                ]),
                vec![],
            ),
        ],
        globs: vec![],
    };
    let mut rv = Resolver::new(snap, usize::MAX);
    let (ri, key) = rv.resolve("/app").unwrap();
    let lines = print_tree(&rv.dep_resolvers[ri], &key);
    assert_eq!(lines.len(), 4);
    assert_eq!(lines[1].text, "a@^1.0.0 : 1.0.0");
    assert_eq!(lines[2].text, "b@^1.0.0 : 1.0.0");
    assert_eq!(lines[3].text, "a@^1.0.0 : 1.0.0 [DEDUPED]");
    assert_eq!(lines[3].depth, 3);
}

#[test]
fn s5_nested_override() {
    let snap = Snapshot {
        dirs: vec![
            dir(
                "/app",
                mf(vec![
                    ("name", jstr("app")),
                    ("version", jstr("1.0.0")),
                    (
                        "dependencies",
                        jobj(vec![("a", jstr("^1.0.0")), ("b", jstr("^1.0.0"))]),
                    ),
                ]),
                vec![],
            ),
            dir("/app/node_modules", ManifestFile::Absent, vec!["a", "b"]),
            dir(
                "/app/node_modules/a",
                mf(vec![
                    ("name", jstr("a")),
                    ("version", jstr("1.0.0")),
                    ("dependencies", jobj(vec![("b", jstr("^1.0.0"))])),
                ]),
                vec![],
            ),
            dir(
                "/app/node_modules/b",
                mf(vec![("name", jstr("b")), ("version", jstr("1.0.0"))]),
                vec![],
            ),
            dir("/app/node_modules/a/node_modules", ManifestFile::Absent, vec!["b"]),
            dir(
                "/app/node_modules/a/node_modules/b",
                mf(vec![("name", jstr("b")), ("version", jstr("2.0.0"))]),
                vec![],
            ),
        ],
        globs: vec![],
    };
    let mut rv = Resolver::new(snap, usize::MAX);
    let (ri, key) = rv.resolve("/app").unwrap();
    let lines = print_tree(&rv.dep_resolvers[ri], &key);
    assert_eq!(lines.len(), 4);
    assert_eq!(lines[1].text, "a@^1.0.0 : 1.0.0");
    // the nested copy wins for the edge out of `a`; it no longer
    // satisfies the declared range, so the line carries the flag
    assert_eq!(lines[2].depth, 2);
    assert_eq!(lines[2].text, "b@^1.0.0 : 2.0.0 (version not satisfied)");
    // the root still sees the hoisted copy; both nodes coexist, undeduped
    assert_eq!(lines[3].depth, 1);
    assert_eq!(lines[3].text, "b@^1.0.0 : 1.0.0");
}

#[test]
fn s7_workspace_reference() {
    let snap = Snapshot {
        dirs: vec![
            dir(
                "/ws",
                mf(vec![
                    ("name", jstr("ws")),
                    ("version", jstr("1.0.0")),
                    ("workspaces", JsonValue::Array(vec![jstr("packages/*")])),
                ]),
                vec![],
            ),
            dir("/ws/node_modules", ManifestFile::Absent, vec!["y"]),
            dir(
                "/ws/node_modules/y",
                mf(vec![("name", jstr("y")), ("version", jstr("1.0.0"))]),
                vec![],
            ),
            dir(
                "/ws/packages/x",
                mf(vec![
                    ("name", jstr("x")),
                    ("version", jstr("1.0.0")),
                    ("dependencies", jobj(vec![("y", jstr("workspace:*"))])),
                ]),
                vec![],
            ),
            dir(
                "/ws/packages/y",
                mf(vec![("name", jstr("y")), ("version", jstr("1.0.0"))]),
                vec![],
            ),
        ],
        globs: vec![GlobExpansion {
            pattern: "/ws/packages/*".to_string(),
            matches: vec!["/ws/packages/x".to_string(), "/ws/packages/y".to_string()],
        }],
    };
    let mut rv = Resolver::new(snap, usize::MAX);
    let (ri, key) = rv.resolve("/ws/packages/x").unwrap();
    let lines = print_tree(&rv.dep_resolvers[ri], &key);
    // the workspace reference renders as a leaf: no recursion into y
    assert_eq!(lines.len(), 2);
    assert_eq!(lines[0].text, "x@1.0.0");
    assert_eq!(lines[1].text, "y@workspace:* : ");
    assert!(rv.get_workspace_root("/ws").is_some());
    let members = rv.resolve_workspace_members("/ws").unwrap();
    assert_eq!(members.len(), 2);

    // a second resolve goes through the cached root: same resolver, same key
    let (ri2, key2) = rv.resolve("/ws/packages/x").unwrap();
    assert_eq!(ri2, ri);
    assert_eq!(key2.name, key.name);
    assert_eq!(key2.version, key.version);
    assert_eq!(key2.scope_id, key.scope_id);
}

#[test]
fn depth_cap_truncates() {
    let snap = Snapshot {
        dirs: vec![
            dir(
                "/app",
                mf(vec![
                    ("name", jstr("app")),
                    ("version", jstr("1.0.0")),
                    ("dependencies", jobj(vec![("a", jstr("^1.0.0"))])),
                ]),
                vec![],
            ),
            dir("/app/node_modules", ManifestFile::Absent, vec!["a"]),
            dir(
                "/app/node_modules/a",
                mf(vec![
                    ("name", jstr("a")),
                    ("version", jstr("1.0.0")),
                    ("dependencies", jobj(vec![("b", jstr("^1.0.0"))])),
                ]),
                vec![],
            ),
        ],
        globs: vec![],
    };
    let mut rv = Resolver::new(snap, 0);
    let (ri, key) = rv.resolve("/app").unwrap();
    let lines = print_tree(&rv.dep_resolvers[ri], &key);
    assert_eq!(lines.len(), 2);
    assert_eq!(lines[1].text, "a@^1.0.0 : [TRUNCATED]");
}

#[test]
fn dev_dependencies_follow_a_separator() {
    let snap = Snapshot {
        dirs: vec![
            dir(
                "/app",
                mf(vec![
                    ("name", jstr("app")),
                    ("version", jstr("1.0.0")),
                    ("dependencies", jobj(vec![("a", jstr("^1.0.0"))])),
                    ("devDependencies", jobj(vec![("t", jstr("^2.0.0"))])),
                ]),
                vec![],
            ),
            dir("/app/node_modules", ManifestFile::Absent, vec!["a", "t"]),
            dir(
                "/app/node_modules/a",
                mf(vec![("name", jstr("a")), ("version", jstr("1.1.0"))]),
                vec![],
            ),
            dir(
                "/app/node_modules/t",
                mf(vec![("name", jstr("t")), ("version", jstr("2.3.0"))]),
                vec![],
            ),
        ],
        globs: vec![],
    };
    let mut rv = Resolver::new(snap, usize::MAX);
    let (ri, key) = rv.resolve("/app").unwrap();
    let lines = print_tree(&rv.dep_resolvers[ri], &key);
    assert_eq!(lines.len(), 4);
    assert_eq!(lines[1].text, "a@^1.0.0 : 1.1.0");
    assert_eq!(lines[2].text, "[DEV DEPENDENCIES]");
    assert_eq!(lines[3].text, "t@^2.0.0 : 2.3.0");
}

#[test]
fn errors_at_bad_roots() {
    let snap = Snapshot {
        dirs: vec![dir(
            "/solo",
            mf(vec![("name", jstr("solo")), ("version", jstr("1.0.0"))]),
            vec![],
        )],
        globs: vec![],
    };
    let mut rv = Resolver::new(snap, usize::MAX);
    match rv.resolve("/solo") {
        Err(e) => assert_eq!(e, dep_inspect::error::Error::MissingNodeModules),
        Ok(_) => panic!("expected an error"),
    }
    match rv.resolve("/nowhere") {
        Err(e) => assert_eq!(e, dep_inspect::error::Error::MissingManifest),
        Ok(_) => panic!("expected an error"),
    }
}

#[test]
fn unreadable_scope_entry_is_skipped() {
    let snap = Snapshot {
        dirs: vec![
            dir(
                "/app",
                mf(vec![
                    ("name", jstr("app")),
                    ("version", jstr("1.0.0")),
                    ("dependencies", jobj(vec![("a", jstr("^1.0.0")), ("bad", jstr("*"))])),
                ]),
                vec![],
            ),
            dir("/app/node_modules", ManifestFile::Absent, vec!["a", "bad"]),
            dir(
                "/app/node_modules/a",
                mf(vec![("name", jstr("a")), ("version", jstr("1.0.0"))]),
                vec![],
            ),
            dir("/app/node_modules/bad", ManifestFile::Unreadable, vec![]),
        ],
        globs: vec![],
    };
    let mut rv = Resolver::new(snap, usize::MAX);
    let (ri, key) = rv.resolve("/app").unwrap();
    let lines = print_tree(&rv.dep_resolvers[ri], &key);
    assert_eq!(lines.len(), 3);
    assert_eq!(lines[1].text, "a@^1.0.0 : 1.0.0");
    // the unreadable entry is skipped, so its name stays unresolved
    assert_eq!(lines[2].text, "bad@* : [MISSING]");
}

#[test]
fn scoped_packages_one_level_deeper() {
    let snap = Snapshot {
        dirs: vec![
            dir(
                "/app",
                mf(vec![
                    ("name", jstr("app")),
                    ("version", jstr("1.0.0")),
                    ("dependencies", jobj(vec![("@org/util", jstr("^1.0.0"))])),
                ]),
                vec![],
            ),
            dir("/app/node_modules", ManifestFile::Absent, vec!["@org"]),
            dir("/app/node_modules/@org", ManifestFile::Absent, vec!["util"]),
            dir(
                "/app/node_modules/@org/util",
                mf(vec![("name", jstr("@org/util")), ("version", jstr("1.4.0"))]),
                vec![],
            ),
        ],
        globs: vec![],
    };
    let mut rv = Resolver::new(snap, usize::MAX);
    let (ri, key) = rv.resolve("/app").unwrap();
    let lines = print_tree(&rv.dep_resolvers[ri], &key);
    assert_eq!(lines.len(), 2);
    assert_eq!(lines[1].text, "@org/util@^1.0.0 : 1.4.0");
}

#[test]
fn workspace_root_resolves_itself() {
    let snap = Snapshot {
        dirs: vec![
            dir(
                "/ws",
                mf(vec![
                    ("name", jstr("ws")),
                    ("version", jstr("1.0.0")),
                    ("workspaces", JsonValue::Array(vec![jstr("packages/*")])),
                ]),
                vec![],
            ),
            dir("/ws/node_modules", ManifestFile::Absent, vec![]),
            dir(
                "/ws/packages/x",
                mf(vec![("name", jstr("x")), ("version", jstr("0.2.0"))]),
                vec![],
            ),
        ],
        globs: vec![GlobExpansion {
            pattern: "/ws/packages/*".to_string(),
            matches: vec!["/ws/packages/x".to_string()],
        }],
    };
    let mut rv = Resolver::new(snap, usize::MAX);
    let (ri, key) = rv.resolve("/ws").unwrap();
    let lines = print_tree(&rv.dep_resolvers[ri], &key);
    assert_eq!(lines.len(), 1);
    assert_eq!(lines[0].text, "ws@1.0.0");
    let members = rv.resolve_workspace_members("/ws").unwrap();
    assert_eq!(members.len(), 1);
    let member_lines = print_tree(&rv.dep_resolvers[members[0].0], &members[0].1);
    assert_eq!(member_lines[0].text, "x@0.2.0");
}

#[test]
fn test_globset() {
    let globs = vec!["/packages/*".to_string()];
    assert_eq!(
        dep_inspect::resolver::globs_match(&globs, &norm_for_glob("/packages/react-vite")),
        Some(true)
    );
    assert_eq!(
        dep_inspect::resolver::globs_match(
            &globs,
            &norm_for_glob("/packages/react-vite/node_modules"),
        ),
        Some(true)
    );
}

#[test]
fn test_globset_invalid_pattern() {
    let globs = vec!["/packages/[".to_string()];
    assert_eq!(dep_inspect::resolver::globs_match(&globs, "/packages/a"), None);
    let mixed = vec!["/packages/*".to_string(), "/apps/[".to_string()];
    assert_eq!(dep_inspect::resolver::globs_match(&mixed, "/packages/a"), None);
}

#[test]
fn test_line_tones() {
    let snap = Snapshot {
        dirs: vec![
            dir(
                "/app",
                mf(vec![
                    ("name", jstr("app")),
                    ("version", jstr("1.0.0")),
                    (
                        "dependencies",
                        jobj(vec![("a", jstr("^1.0.0")), ("b", jstr("^2.0.0")), ("c", jstr("*"))]),
                    ),
                ]),
                vec![],
            ),
            dir("/app/node_modules", ManifestFile::Absent, vec!["a", "b"]),
            dir(
                "/app/node_modules/a",
                mf(vec![("name", jstr("a")), ("version", jstr("1.2.3"))]),
                vec![],
            ),
            dir(
                "/app/node_modules/b",
                mf(vec![("name", jstr("b")), ("version", jstr("1.0.0"))]),
                vec![],
            ),
        ],
        globs: vec![],
    };
    let mut rv = Resolver::new(snap, usize::MAX);
    let (ri, key) = rv.resolve("/app").unwrap();
    let lines = print_tree(&rv.dep_resolvers[ri], &key);
    assert_eq!(lines.len(), 4);
    assert!(matches!(lines[0].tone, LineTone::Plain));
    assert_eq!(lines[1].text, "a@^1.0.0 : 1.2.3");
    assert!(matches!(lines[1].tone, LineTone::Satisfied));
    assert_eq!(lines[2].text, "b@^2.0.0 : 1.0.0 (version not satisfied)");
    assert!(matches!(lines[2].tone, LineTone::Unsatisfied));
    assert_eq!(lines[3].text, "c@* : [MISSING]");
    assert!(matches!(lines[3].tone, LineTone::Missing));
}

#[test]
fn test_resolve_invalid_manifest_owed() {
    let snap = Snapshot {
        dirs: vec![dir("/app", ManifestFile::Unreadable, vec![])],
        globs: vec![],
    };
    let mut rv = Resolver::new(snap, usize::MAX);
    match rv.resolve("/app") {
        Err(e) => assert_eq!(e, dep_inspect::error::Error::InvalidManifest),
        Ok(_) => panic!("expected an invalid-manifest error"),
    }

    let snap2 = Snapshot {
        dirs: vec![dir(
            "/app",
            mf(vec![("name", jstr("app")), ("version", jstr("not a version"))]),
            vec![],
        )],
        globs: vec![],
    };
    let mut rv2 = Resolver::new(snap2, usize::MAX);
    match rv2.resolve("/app") {
        Err(e) => assert_eq!(e, dep_inspect::error::Error::InvalidManifest),
        Ok(_) => panic!("expected an invalid-manifest error"),
    }
}

#[test]
fn test_resolve_invalid_workspace_glob() {
    let snap = Snapshot {
        dirs: vec![
            dir(
                "/ws",
                mf(vec![
                    ("name", jstr("ws")),
                    ("version", jstr("1.0.0")),
                    ("workspaces", JsonValue::Array(vec![jstr("[")])),
                ]),
                vec!["packages"],
            ),
            dir(
                "/ws/packages/x",
                mf(vec![("name", jstr("x")), ("version", jstr("0.1.0"))]),
                vec![],
            ),
        ],
        globs: vec![],
    };
    let mut rv = Resolver::new(snap, usize::MAX);
    match rv.resolve("/ws/packages/x") {
        Err(e) => assert_eq!(e, dep_inspect::error::Error::InvalidManifest),
        Ok(_) => panic!("expected the unbuildable glob set to fail resolution"),
    }
}
