use dep_inspect::extended_version_req::ExtendedVersionReq;

#[test]
fn parse_workspace_prefix() {
    let r = ExtendedVersionReq::parse("workspace:*");
    match &r {
        ExtendedVersionReq::Workspace(s) => assert_eq!(s.as_str(), "*"),
        _ => panic!("expected a workspace requirement"),
    }
    assert_eq!(r.to_text(), "workspace:*");
    assert_eq!(r.matches("1.2.3"), None);
}

#[test]
fn parse_path_prefix() {
    let r = ExtendedVersionReq::parse("path:../sibling");
    match &r {
        ExtendedVersionReq::Path(p) => assert_eq!(p.as_str(), "../sibling"),
        _ => panic!("expected a path requirement"),
    }
    assert_eq!(r.to_text(), "../sibling");
    assert_eq!(r.matches("1.2.3"), None);

    let f = ExtendedVersionReq::parse("file:./vendored");
    match &f {
        ExtendedVersionReq::Path(p) => assert_eq!(p.as_str(), "./vendored"),
        _ => panic!("expected a path requirement"),
    }
}

#[test]
fn parse_semver_range() {
    let r = ExtendedVersionReq::parse("^1.0.0");
    match &r {
        ExtendedVersionReq::SemVer(c) => assert_eq!(c.as_str(), "^1.0.0"),
        _ => panic!("expected a semantic-version range"),
    }
    assert_eq!(r.matches("1.2.3"), Some(true));
    assert_eq!(r.matches("0.9.0"), Some(false));
    assert_eq!(r.matches("2.0.0"), Some(false));
}

#[test]
fn parse_disjunction() {
    let r = ExtendedVersionReq::parse("not a real range || ^2.0.0");
    match &r {
        ExtendedVersionReq::Or(parts) => {
            assert_eq!(parts.len(), 2);
            match &parts[0] {
                ExtendedVersionReq::Unchecked(u) => assert_eq!(u.as_str(), "not a real range"),
                _ => panic!("expected an unchecked piece"),
            }
            match &parts[1] {
                ExtendedVersionReq::SemVer(c) => assert_eq!(c.as_str(), "^2.0.0"),
                _ => panic!("expected a range piece"),
            }
        },
        _ => panic!("expected a disjunction"),
    }
    assert_eq!(r.matches("2.1.0"), Some(true));
    assert_eq!(r.matches("1.0.0"), Some(false));
    assert_eq!(r.to_text(), "not a real range || ^2.0.0");
}

#[test]
fn parse_unchecked_fallthrough() {
    let r = ExtendedVersionReq::parse("latest-but-not-a-range");
    match &r {
        ExtendedVersionReq::Unchecked(u) => assert_eq!(u.as_str(), "latest-but-not-a-range"),
        _ => panic!("expected an unchecked requirement"),
    }
    assert_eq!(r.matches("1.0.0"), None);
}

#[test]
fn requirement_equality_is_structural() {
    let a = ExtendedVersionReq::parse("^1.0.0");
    let b = ExtendedVersionReq::parse("^1.0.0");
    let c = ExtendedVersionReq::parse("^2.0.0");
    assert!(a.req_eq(&b));
    assert!(!a.req_eq(&c));
    let w1 = ExtendedVersionReq::parse("workspace:*");
    let w2 = ExtendedVersionReq::parse("workspace:*");
    assert!(w1.req_eq(&w2));
    assert!(!w1.req_eq(&a));
}

#[test]
fn duplicate_preserves_text() {
    let a = ExtendedVersionReq::parse("not a range || workspace:x || ^1.2.0");
    let b = a.duplicate();
    assert_eq!(a.to_text(), b.to_text());
    assert!(a.req_eq(&b));
}

#[test]
fn reparse_disjunction_of_ranges() {
    let a = ExtendedVersionReq::parse("^1.0.0 || ^2.0.0");
    let b = ExtendedVersionReq::parse(&a.to_text());
    assert!(a.req_eq(&b));
    assert_eq!(b.to_text(), "^1.0.0 || ^2.0.0");
    match &b {
        ExtendedVersionReq::Or(parts) => assert_eq!(parts.len(), 2),
        _ => panic!("expected a disjunction"),
    }
}

#[test]
fn reparse_leading_workspace_disjunct_collapses() {
    let a = ExtendedVersionReq::parse("workspace:a || ^2.0.0");
    let b = ExtendedVersionReq::parse(&a.to_text());
    match &b {
        ExtendedVersionReq::Workspace(s) => assert_eq!(s.as_str(), "a || ^2.0.0"),
        _ => panic!("expected the workspace prefix to capture the whole string"),
    }
}
