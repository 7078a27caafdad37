//! Extended version requirements: semantic-version ranges plus the
//! `workspace:` and `path:`/`file:` escape hatches, disjunctions joined by
//! `" || "`, and raw strings retained verbatim.
//!
//! Range parsing and evaluation are delegated to the `semver` crate behind
//! trusted wrappers; everything else is verified against the grammar spelled
//! out by [`parse_rel`].

use vstd::prelude::*;
use vstd::string::StringExecFns;

use crate::strutil::{
    concat_str, contains_sub, find_sub, lemma_split_join_step, lemma_split_no_sep, prefix_of,
    split_on, split_str, starts_with, str_eq_str, sub_at, substring,
};

verus! {

broadcast use vstd::std_specs::vec::axiom_vec_index_decreases;

/// The canonical text of the range that `s` denotes, when `s` parses as a
/// semantic-version range; `None` otherwise.
pub uninterp spec fn semver_req_canon_of(s: Seq<char>) -> Option<Seq<char>>;

/// The canonical text of the version that `s` denotes, when `s` parses as a
/// semantic version; `None` otherwise.
pub uninterp spec fn semver_version_canon_of(s: Seq<char>) -> Option<Seq<char>>;

/// Whether the version written `ver` lies in the range written `req`;
/// `None` when either string does not parse.
pub uninterp spec fn semver_match_of(req: Seq<char>, ver: Seq<char>) -> Option<bool>;

/// Relies on `semver::VersionReq::parse` and its `Display`: whether `s` is a
/// valid range and, if so, the canonical text of that range. Both depend on
/// the characters of `s` alone. The canonical text round-trips — parsing it
/// again yields the same canonical text — and is comparator syntax (ops,
/// dot-separated numerals, alphanumeric-dash identifiers, `, ` between
/// comparators), so it never starts with one of this library's textual
/// escape prefixes and never holds a `|`; the parser likewise rejects any
/// input holding a `|`.
#[verifier::external_body]
pub(crate) fn parse_semver_req(s: &str) -> (r: Option<String>)
    ensures
        (r is Some) == (semver_req_canon_of(s@) is Some),
        r matches Some(c) ==> semver_req_canon_of(s@) == Some(c@),
        r matches Some(c) ==> semver_req_canon_of(c@) == Some(c@),
        r matches Some(c) ==> !prefix_of("workspace:"@, c@) && !prefix_of("path:"@, c@)
            && !prefix_of("file:"@, c@),
        r matches Some(c) ==> forall|i: int| 0 <= i < c@.len() ==> c@[i] != '|',
        (exists|i: int| 0 <= i < s@.len() && s@[i] == '|') ==> r is None,
{
    match semver::VersionReq::parse(s) {
        Ok(req) => Some(req.to_string()),
        Err(_) => None,
    }
}

/// Relies on `semver::Version::parse` and its `Display`: whether `s` is a
/// valid semantic version and, if so, its canonical text. Both depend on the
/// characters of `s` alone.
#[verifier::external_body]
pub(crate) fn parse_semver_version(s: &str) -> (r: Option<String>)
    ensures
        (r is Some) == (semver_version_canon_of(s@) is Some),
        r matches Some(c) ==> semver_version_canon_of(s@) == Some(c@),
{
    match semver::Version::parse(s) {
        Ok(v) => Some(v.to_string()),
        Err(_) => None,
    }
}

/// Relies on `semver::VersionReq::parse`, `semver::Version::parse` and
/// `semver::VersionReq::matches`: whether the version written `ver` lies in
/// the range written `req`, `None` when either fails to parse. A function of
/// the two strings alone.
#[verifier::external_body]
pub(crate) fn semver_match(req: &str, ver: &str) -> (r: Option<bool>)
    ensures
        r == semver_match_of(req@, ver@),
{
    match (semver::VersionReq::parse(req), semver::Version::parse(ver)) {
        (Ok(rq), Ok(v)) => Some(rq.matches(&v)),
        _ => None,
    }
}

/// Relies on `std::path::Path::exists`: whether `p` names an existing
/// filesystem path. The answer depends on the state of the disk, so nothing
/// is promised of it.
#[verifier::external_body]
pub(crate) fn fs_path_exists(p: &str) -> bool {
    std::path::Path::new(p).exists()
}

/// A parsed version requirement.
///
/// `SemVer` holds the canonical text of a semantic-version range, `Or` a
/// disjunction written with `" || "`, `Workspace` the suffix of a
/// `workspace:` reference, `Path` a filesystem path, and `Unchecked` any
/// other raw string, verbatim.
pub enum ExtendedVersionReq {
    SemVer(String),
    Or(Vec<ExtendedVersionReq>),
    Workspace(String),
    Path(String),
    Unchecked(String),
}

/// The mathematical shape of a requirement: the same structure over
/// character sequences.
pub enum ReqV {
    SemVer(Seq<char>),
    Or(Seq<ReqV>),
    Workspace(Seq<char>),
    Path(Seq<char>),
    Unchecked(Seq<char>),
}

/// The views of `parts[i..]`, in order.
pub open spec fn req_views(parts: Vec<ExtendedVersionReq>, i: int) -> Seq<ReqV>
    decreases parts, 0int, parts@.len() - i,
{
    if i < 0 || i >= parts@.len() {
        Seq::empty()
    } else {
        seq![req_view(parts[i])] + req_views(parts, i + 1)
    }
}

/// The view of a requirement.
pub open spec fn req_view(r: ExtendedVersionReq) -> ReqV
    decreases r, 1int, 0int,
{
    match r {
        ExtendedVersionReq::SemVer(c) => ReqV::SemVer(c@),
        ExtendedVersionReq::Workspace(s) => ReqV::Workspace(s@),
        ExtendedVersionReq::Path(p) => ReqV::Path(p@),
        ExtendedVersionReq::Unchecked(u) => ReqV::Unchecked(u@),
        ExtendedVersionReq::Or(parts) => ReqV::Or(req_views(parts, 0)),
    }
}

impl View for ExtendedVersionReq {
    type V = ReqV;

    open spec fn view(&self) -> ReqV {
        req_view(*self)
    }
}

proof fn lemma_req_views_from(parts: Vec<ExtendedVersionReq>, i: int)
    requires
        0 <= i <= parts@.len(),
    ensures
        req_views(parts, i).len() == parts@.len() - i,
        forall|j: int|
            i <= j < parts@.len() ==> #[trigger] req_views(parts, i)[j - i] == req_view(
                parts@[j],
            ),
    decreases parts@.len() - i,
{
    if i < parts@.len() {
        lemma_req_views_from(parts, i + 1);
        assert(req_views(parts, i) == seq![req_view(parts[i])] + req_views(parts, i + 1));
        assert forall|j: int|
            i <= j < parts@.len() implies #[trigger] req_views(parts, i)[j - i] == req_view(
            parts@[j],
        ) by {
            if j > i {
                assert(req_views(parts, i + 1)[j - (i + 1)] == req_view(parts@[j]));
                assert((seq![req_view(parts[i])] + req_views(parts, i + 1))[j - i] == req_views(
                    parts,
                    i + 1,
                )[j - i - 1]);
            } else {
                assert((seq![req_view(parts[i])] + req_views(parts, i + 1))[0] == req_view(
                    parts[i],
                ));
            }
        }
    }
}

/// The views of a whole vector of requirements, element by element.
pub proof fn lemma_req_views(parts: Vec<ExtendedVersionReq>)
    ensures
        req_views(parts, 0).len() == parts@.len(),
        forall|j: int|
            0 <= j < parts@.len() ==> #[trigger] req_views(parts, 0)[j] == req_view(parts@[j]),
{
    lemma_req_views_from(parts, 0);
    assert forall|j: int|
        0 <= j < parts@.len() implies #[trigger] req_views(parts, 0)[j] == req_view(
        parts@[j],
    ) by {
        assert(req_views(parts, 0)[j - 0] == req_view(parts@[j]));
    }
}

/// How a single piece (one free of the `" || "` separator) is parsed:
/// a `workspace:` prefix wins, then a `path:` or `file:` prefix, then a
/// semantic-version range; a bare string becomes `Path` or `Unchecked`
/// according to whether it exists on disk, which only the filesystem decides.
pub open spec fn parse_leaf_rel(raw: Seq<char>, r: ReqV) -> bool {
    if prefix_of("workspace:"@, raw) {
        r matches ReqV::Workspace(s) && s == raw.subrange(10, raw.len() as int)
    } else if prefix_of("path:"@, raw) || prefix_of("file:"@, raw) {
        r matches ReqV::Path(p) && p == raw.subrange(5, raw.len() as int)
    } else if semver_req_canon_of(raw) is Some {
        r matches ReqV::SemVer(c) && Some(c) == semver_req_canon_of(raw)
    } else {
        (r matches ReqV::Path(p) && p == raw) || (r matches ReqV::Unchecked(u) && u == raw)
    }
}

/// How a whole requirement string is parsed: as a single piece, except that
/// a string containing `" || "` (and not caught by an earlier rule) splits
/// on that exact separator into a disjunction of pieces.
pub open spec fn parse_rel(raw: Seq<char>, r: ReqV) -> bool {
    if !prefix_of("workspace:"@, raw) && !prefix_of("path:"@, raw) && !prefix_of("file:"@, raw)
        && semver_req_canon_of(raw) is None && contains_sub(raw, " || "@) {
        r matches ReqV::Or(parts) && {
            let pieces = split_on(raw, " || "@);
            &&& parts.len() == pieces.len()
            &&& forall|i: int| 0 <= i < pieces.len() ==> parse_leaf_rel(pieces[i], #[trigger] parts[i])
        }
    } else {
        parse_leaf_rel(raw, r)
    }
}

/// The tri-state match of a requirement against a version's canonical text:
/// decided for `SemVer` and `Or`, undecided (`None`) for `Workspace`,
/// `Path` and `Unchecked`.
pub open spec fn req_matches_spec(r: ReqV, ver: Seq<char>) -> Option<bool>
    decreases r,
{
    match r {
        ReqV::SemVer(c) => semver_match_of(c, ver),
        ReqV::Or(parts) => Some(
            exists|i: int|
                0 <= i < parts.len() && req_matches_spec(#[trigger] parts[i], ver) == Some(true),
        ),
        _ => None,
    }
}

/// Structural equality of requirements; `SemVer` compares canonical texts.
pub open spec fn req_eq_spec(a: ReqV, b: ReqV) -> bool
    decreases a,
{
    match a {
        ReqV::SemVer(x) => b matches ReqV::SemVer(y) && x == y,
        ReqV::Workspace(x) => b matches ReqV::Workspace(y) && x == y,
        ReqV::Path(x) => b matches ReqV::Path(y) && x == y,
        ReqV::Unchecked(x) => b matches ReqV::Unchecked(y) && x == y,
        ReqV::Or(x) => b matches ReqV::Or(y) && x.len() == y.len() && (forall|i: int|
            0 <= i < x.len() ==> req_eq_spec(#[trigger] x[i], y[i])),
    }
}

/// The textual form of a requirement: the exact round-trip of what was
/// parsed, except that a `SemVer` range shows its canonical text.
pub open spec fn req_text_spec(r: ReqV) -> Seq<char>
    decreases r, 1int, 0int,
{
    match r {
        ReqV::SemVer(c) => c,
        ReqV::Workspace(s) => "workspace:"@ + s,
        ReqV::Path(p) => p,
        ReqV::Unchecked(u) => u,
        ReqV::Or(parts) => or_text_spec(parts, 0),
    }
}

/// The texts of `parts[i..]`, joined with the `" || "` separator.
pub open spec fn or_text_spec(parts: Seq<ReqV>, i: int) -> Seq<char>
    decreases parts, 0int, parts.len() - i,
{
    if i < 0 || i >= parts.len() {
        Seq::empty()
    } else if i == parts.len() - 1 {
        req_text_spec(parts[i])
    } else {
        req_text_spec(parts[i]) + " || "@ + or_text_spec(parts, i + 1)
    }
}

/// Re-parsing a rendered requirement yields the requirement back, for the
/// forms whose text is unambiguous and environment-free: a `workspace:`
/// reference, and a canonical range (whose text re-parses to itself and
/// carries no escape prefix). A path or verbatim form re-parses through
/// the disk probe, and a disjunction re-splits its pieces, so neither
/// re-parse is a function of the text alone.
pub proof fn lemma_reparse_identity(rv: ReqV, r2: ReqV)
    requires
        parse_rel(req_text_spec(rv), r2),
        match rv {
            ReqV::Workspace(_) => true,
            ReqV::SemVer(c) => semver_req_canon_of(c) == Some(c) && !prefix_of(
                "workspace:"@,
                c,
            ) && !prefix_of("path:"@, c) && !prefix_of("file:"@, c),
            _ => false,
        },
    ensures
        r2 == rv,
{
    match rv {
        ReqV::Workspace(s) => {
            let t = "workspace:"@ + s;
            assert(req_text_spec(rv) == t);
            reveal_strlit("workspace:");
            assert(prefix_of("workspace:"@, t)) by {
                assert(t.subrange(0, 10) =~= "workspace:"@);
            }
            assert(t.subrange(10, t.len() as int) =~= s);
        },
        ReqV::SemVer(c) => {
            assert(req_text_spec(rv) == c);
        },
        _ => {},
    }
}

/// Re-parsing a rendered disjunction of plain disjuncts splits on the
/// separator and yields the disjunction back, piece by piece, provided the
/// first disjunct is a range (a disjunction whose text opens with
/// `workspace:`, `path:` or `file:` would be captured whole by that
/// prefix) and the joined text is not itself a valid range (which holds of
/// every actual parse, since the range parser rejects any string holding
/// a `|`).
pub proof fn lemma_or_reparse_identity(parts: Seq<ReqV>, r2: ReqV)
    requires
        parts.len() >= 2,
        forall|j: int| 0 <= j < parts.len() ==> plain_disjunct(#[trigger] parts[j]),
        parts[0] is SemVer,
        semver_req_canon_of(or_text_spec(parts, 0)) is None,
        parse_rel(or_text_spec(parts, 0), r2),
    ensures
        r2 == ReqV::Or(parts),
{
    let sep = " || "@;
    let t = or_text_spec(parts, 0);
    let t0 = req_text_spec(parts[0]);
    let rest = or_text_spec(parts, 1);
    reveal_strlit(" || ");
    assert(t == t0 + sep + rest);
    assert(sub_at(t, t0.len() as int, sep)) by {
        assert(t.subrange(t0.len() as int, t0.len() as int + 4) =~= sep);
    }
    assert(contains_sub(t, sep));
    let c = parts[0]->SemVer_0;
    assert(t0 == c);
    assert(!prefix_of("workspace:"@, t)) by {
        reveal_strlit("workspace:");
        if prefix_of("workspace:"@, t) {
            assert(forall|l: int| 0 <= l < 10 ==> t[l] == "workspace:"@[l]) by {
                assert(forall|l: int|
                    0 <= l < 10 ==> t.subrange(0, 10)[l] == "workspace:"@[l]);
            }
            if c.len() >= 10 {
                assert(c.subrange(0, 10) =~= t.subrange(0, 10));
                assert(prefix_of("workspace:"@, c));
            } else if c.len() <= 8 {
                assert(t[c.len() as int + 1] == sep[1]);
                assert(pipe_free("workspace:"@));
            } else {
                assert(t[9] == sep[0]);
                assert("workspace:"@[9] == ':');
            }
        }
    }
    assert(!prefix_of("path:"@, t)) by {
        reveal_strlit("path:");
        if prefix_of("path:"@, t) {
            assert(forall|l: int| 0 <= l < 5 ==> t[l] == "path:"@[l]) by {
                assert(forall|l: int| 0 <= l < 5 ==> t.subrange(0, 5)[l] == "path:"@[l]);
            }
            if c.len() >= 5 {
                assert(c.subrange(0, 5) =~= t.subrange(0, 5));
                assert(prefix_of("path:"@, c));
            } else if c.len() <= 3 {
                assert(t[c.len() as int + 1] == sep[1]);
                assert(pipe_free("path:"@));
            } else {
                assert(t[4] == sep[0]);
                assert("path:"@[4] == ':');
            }
        }
    }
    assert(!prefix_of("file:"@, t)) by {
        reveal_strlit("file:");
        if prefix_of("file:"@, t) {
            assert(forall|l: int| 0 <= l < 5 ==> t[l] == "file:"@[l]) by {
                assert(forall|l: int| 0 <= l < 5 ==> t.subrange(0, 5)[l] == "file:"@[l]);
            }
            if c.len() >= 5 {
                assert(c.subrange(0, 5) =~= t.subrange(0, 5));
                assert(prefix_of("file:"@, c));
            } else if c.len() <= 3 {
                assert(t[c.len() as int + 1] == sep[1]);
                assert(pipe_free("file:"@));
            } else {
                assert(t[4] == sep[0]);
                assert("file:"@[4] == ':');
            }
        }
    }
    lemma_or_split_from(parts, 0);
    match r2 {
        ReqV::Or(parts2) => {
            let pieces = split_on(t, sep);
            assert(parts2.len() == pieces.len());
            assert forall|j: int| 0 <= j < parts.len() implies parts2[j] == parts[j] by {
                assert(parse_leaf_rel(pieces[j], parts2[j]));
                assert(pieces[j - 0] == req_text_spec(parts[j]));
                lemma_leaf_reparse(parts[j], parts2[j]);
            }
            assert(parts2 =~= parts);
        },
        _ => {
            assert(false);
        },
    }
}

/// No character of `s` is a `|`, the separator's marker character.
pub open spec fn pipe_free(s: Seq<char>) -> bool {
    forall|i: int| 0 <= i < s.len() ==> s[i] != '|'
}

/// A disjunct whose rendered text is unambiguous, environment-free and
/// free of the separator character: a `workspace:` reference with a
/// pipe-free suffix, or a canonical pipe-free range carrying no escape
/// prefix.
pub open spec fn plain_disjunct(rv: ReqV) -> bool {
    match rv {
        ReqV::Workspace(s) => pipe_free(s),
        ReqV::SemVer(c) => semver_req_canon_of(c) == Some(c) && !prefix_of("workspace:"@, c)
            && !prefix_of("path:"@, c) && !prefix_of("file:"@, c) && pipe_free(c),
        _ => false,
    }
}

/// The text of a plain disjunct never holds a `|`.
proof fn lemma_disjunct_text_pipe_free(rv: ReqV)
    requires
        plain_disjunct(rv),
    ensures
        pipe_free(req_text_spec(rv)),
{
    match rv {
        ReqV::Workspace(su) => {
            let t = "workspace:"@ + su;
            reveal_strlit("workspace:");
            assert(pipe_free("workspace:"@));
            assert forall|i: int| 0 <= i < t.len() implies t[i] != '|' by {
                if i < 10 {
                    assert(t[i] == "workspace:"@[i]);
                } else {
                    assert(t[i] == su[i - 10]);
                }
            }
        },
        _ => {},
    }
}

/// Splitting the joined text of plain disjuncts on the separator recovers
/// each disjunct's text, in order.
proof fn lemma_or_split_from(parts: Seq<ReqV>, i: int)
    requires
        0 <= i < parts.len(),
        forall|j: int| 0 <= j < parts.len() ==> plain_disjunct(#[trigger] parts[j]),
    ensures
        split_on(or_text_spec(parts, i), " || "@).len() == parts.len() - i,
        forall|j: int|
            i <= j < parts.len() ==> split_on(or_text_spec(parts, i), " || "@)[j - i]
                == req_text_spec(#[trigger] parts[j]),
    decreases parts.len() - i,
{
    let sep = " || "@;
    reveal_strlit(" || ");
    let ti = req_text_spec(parts[i]);
    lemma_disjunct_text_pipe_free(parts[i]);
    if i == parts.len() - 1 {
        assert forall|k: int| !sub_at(ti, k, sep) by {
            if sub_at(ti, k, sep) {
                assert(ti.subrange(k, k + 4)[1] == sep[1]);
                assert(ti[k + 1] == '|');
            }
        }
        lemma_split_no_sep(ti, sep, Seq::empty());
        assert(Seq::<char>::empty() + ti =~= ti);
    } else {
        let rest = or_text_spec(parts, i + 1);
        let t = or_text_spec(parts, i);
        assert(t == ti + sep + rest);
        assert forall|k: int| 0 <= k < ti.len() implies !sub_at(ti + sep + rest, k, sep) by {
            if sub_at(ti + sep + rest, k, sep) {
                assert((ti + sep + rest).subrange(k, k + 4)[1] == sep[1]);
                assert((ti + sep + rest)[k + 1] == '|');
                if k + 1 < ti.len() {
                    assert(ti[k + 1] == '|');
                } else {
                    assert((ti + sep + rest)[k + 1] == sep[0]);
                }
            }
        }
        lemma_split_join_step(ti, sep, rest, Seq::empty());
        lemma_or_split_from(parts, i + 1);
        assert(Seq::<char>::empty() + ti =~= ti);
        assert forall|j: int|
            i <= j < parts.len() implies split_on(t, sep)[j - i] == req_text_spec(
            #[trigger] parts[j],
        ) by {
            if j > i {
                assert(split_on(t, sep)[j - i] == split_on(rest, sep)[j - i - 1]);
            }
        }
    }
}

/// Re-parsing one plain disjunct's text by the leaf grammar yields the
/// disjunct back.
proof fn lemma_leaf_reparse(rv: ReqV, r2: ReqV)
    requires
        plain_disjunct(rv),
        parse_leaf_rel(req_text_spec(rv), r2),
    ensures
        r2 == rv,
{
    match rv {
        ReqV::Workspace(su) => {
            let t = "workspace:"@ + su;
            reveal_strlit("workspace:");
            assert(prefix_of("workspace:"@, t)) by {
                assert(t.subrange(0, 10) =~= "workspace:"@);
            }
            assert(t.subrange(10, t.len() as int) =~= su);
        },
        ReqV::SemVer(_) => {},
        _ => {},
    }
}

impl ExtendedVersionReq {
    /// Parses one separator-free piece by the leaf grammar.
    fn parse_leaf(piece: &str) -> (r: Self)
        ensures
            parse_leaf_rel(piece@, r@),
    {
        let len: usize = piece.unicode_len();
        if starts_with(piece, "workspace:") {
            proof {
                reveal_strlit("workspace:");
            }
            return ExtendedVersionReq::Workspace(substring(piece, 10, len));
        }
        if starts_with(piece, "path:") {
            proof {
                reveal_strlit("path:");
            }
            return ExtendedVersionReq::Path(substring(piece, 5, len));
        }
        if starts_with(piece, "file:") {
            proof {
                reveal_strlit("file:");
            }
            return ExtendedVersionReq::Path(substring(piece, 5, len));
        }
        if let Some(c) = parse_semver_req(piece) {
            return ExtendedVersionReq::SemVer(c);
        }
        if fs_path_exists(piece) {
            ExtendedVersionReq::Path(String::from_str(piece))
        } else {
            ExtendedVersionReq::Unchecked(String::from_str(piece))
        }
    }

    /// Parses a requirement string. Parsing never fails: a string that no
    /// earlier rule claims is retained verbatim as `Unchecked`.
    #[verifier::loop_isolation(false)]
    pub fn parse(version_str: &str) -> (r: Self)
        ensures
            parse_rel(version_str@, r@),
    {
        if starts_with(version_str, "workspace:") || starts_with(version_str, "path:")
            || starts_with(version_str, "file:") {
            return Self::parse_leaf(version_str);
        }
        if let Some(c) = parse_semver_req(version_str) {
            return ExtendedVersionReq::SemVer(c);
        }
        match find_sub(version_str, " || ") {
            Some(at) => {
                proof {
                    reveal_strlit(" || ");
                    assert(sub_at(version_str@, at as int, " || "@));
                }
                let pieces = split_str(version_str, " || ");
                let ghost piece_views = split_on(version_str@, " || "@);
                let mut parts: Vec<ExtendedVersionReq> = Vec::new();
                let mut i: usize = 0;
                while i < pieces.len()
                    invariant
                        pieces@.map_values(|p: String| p@) == piece_views,
                        i <= pieces@.len(),
                        parts@.len() == i,
                        forall|j: int|
                            0 <= j < i ==> parse_leaf_rel(piece_views[j], #[trigger] req_view(
                                parts@[j],
                            )),
                    decreases pieces@.len() - i,
                {
                    let part = Self::parse_leaf(pieces[i].as_str());
                    proof {
                        assert(piece_views[i as int] == pieces@.map_values(|p: String| p@)[
                            i as int
                        ]);
                    }
                    parts.push(part);
                    i = i + 1;
                }
                let r = ExtendedVersionReq::Or(parts);
                proof {
                    lemma_req_views(parts);
                    assert(r@ matches ReqV::Or(ps) && ps.len() == piece_views.len());
                }
                r
            },
            None => Self::parse_leaf(version_str),
        }
    }

    /// Tri-state match against a version's canonical text: `Some` for
    /// `SemVer` and `Or` (a disjunction over the pieces), `None` otherwise.
    #[verifier::loop_isolation(false)]
    pub fn matches(&self, version: &str) -> (r: Option<bool>)
        ensures
            r == req_matches_spec(self@, version@),
        decreases self,
    {
        match self {
            ExtendedVersionReq::SemVer(c) => semver_match(c.as_str(), version),
            ExtendedVersionReq::Or(parts) => {
                proof {
                    lemma_req_views(*parts);
                }
                let ghost part_views = req_views(*parts, 0);
                let mut i: usize = 0;
                while i < parts.len()
                    invariant
                        i <= parts@.len(),
                        forall|j: int|
                            0 <= j < i ==> req_matches_spec(#[trigger] part_views[j], version@)
                                != Some(true),
                    decreases parts@.len() - i,
                {
                    if let Some(true) = parts[i].matches(version) {
                        proof {
                            assert(req_matches_spec(part_views[i as int], version@) == Some(
                                true,
                            ));
                        }
                        return Some(true);
                    }
                    i = i + 1;
                }
                Some(false)
            },
            _ => None,
        }
    }

    /// Structural equality; `SemVer` values compare by canonical text.
    #[verifier::loop_isolation(false)]
    pub fn req_eq(&self, other: &Self) -> (r: bool)
        ensures
            r == req_eq_spec(self@, other@),
        decreases self,
    {
        match self {
            ExtendedVersionReq::SemVer(a) => match other {
                ExtendedVersionReq::SemVer(b) => str_eq_str(a.as_str(), b.as_str()),
                _ => false,
            },
            ExtendedVersionReq::Workspace(a) => match other {
                ExtendedVersionReq::Workspace(b) => str_eq_str(a.as_str(), b.as_str()),
                _ => false,
            },
            ExtendedVersionReq::Path(a) => match other {
                ExtendedVersionReq::Path(b) => str_eq_str(a.as_str(), b.as_str()),
                _ => false,
            },
            ExtendedVersionReq::Unchecked(a) => match other {
                ExtendedVersionReq::Unchecked(b) => str_eq_str(a.as_str(), b.as_str()),
                _ => false,
            },
            ExtendedVersionReq::Or(x) => match other {
                ExtendedVersionReq::Or(y) => {
                    proof {
                        lemma_req_views(*x);
                        lemma_req_views(*y);
                    }
                    let ghost xv = req_views(*x, 0);
                    let ghost yv = req_views(*y, 0);
                    if x.len() != y.len() {
                        return false;
                    }
                    let mut i: usize = 0;
                    while i < x.len()
                        invariant
                            x@.len() == y@.len(),
                            i <= x@.len(),
                            forall|j: int| 0 <= j < i ==> req_eq_spec(#[trigger] xv[j], yv[j]),
                        decreases x@.len() - i,
                    {
                        if !x[i].req_eq(&y[i]) {
                            proof {
                                if req_eq_spec(self@, other@) {
                                    assert(req_eq_spec(#[trigger] xv[i as int], yv[i as int]));
                                }
                            }
                            return false;
                        }
                        i = i + 1;
                    }
                    true
                },
                _ => false,
            },
        }
    }

    /// The textual form: `workspace:<suffix>`, the path itself, the canonical
    /// range, the raw string, or pieces joined with `" || "`.
    #[verifier::loop_isolation(false)]
    pub fn to_text(&self) -> (r: String)
        ensures
            r@ == req_text_spec(self@),
        decreases self,
    {
        match self {
            ExtendedVersionReq::SemVer(c) => c.clone(),
            ExtendedVersionReq::Workspace(s) => concat_str("workspace:", s.as_str()),
            ExtendedVersionReq::Path(p) => p.clone(),
            ExtendedVersionReq::Unchecked(u) => u.clone(),
            ExtendedVersionReq::Or(parts) => {
                proof {
                    lemma_req_views(*parts);
                }
                let ghost pv = req_views(*parts, 0);
                if parts.len() == 0 {
                    return String::new();
                }
                let mut s = parts[0].to_text();
                let mut i: usize = 1;
                while i < parts.len()
                    invariant
                        1 <= i <= parts@.len(),
                        or_text_spec(pv, 0) == if i < parts@.len() {
                            s@ + " || "@ + or_text_spec(pv, i as int)
                        } else {
                            s@
                        },
                    decreases parts@.len() - i,
                {
                    let ghost s_old = s@;
                    s.append(" || ");
                    let t = parts[i].to_text();
                    s.append(t.as_str());
                    proof {
                        if i + 1 < parts@.len() {
                            assert(s_old + " || "@ + (t@ + " || "@ + or_text_spec(
                                pv,
                                i + 1 as int,
                            )) =~= s@ + " || "@ + or_text_spec(pv, i + 1 as int));
                        } else {
                            assert(s_old + " || "@ + t@ =~= s@);
                        }
                    }
                    i = i + 1;
                }
                s
            },
        }
    }

    /// A copy whose view equals this requirement's view.
    #[verifier::loop_isolation(false)]
    pub fn duplicate(&self) -> (r: Self)
        ensures
            r@ == self@,
        decreases self,
    {
        match self {
            ExtendedVersionReq::SemVer(c) => ExtendedVersionReq::SemVer(c.clone()),
            ExtendedVersionReq::Workspace(s) => ExtendedVersionReq::Workspace(s.clone()),
            ExtendedVersionReq::Path(p) => ExtendedVersionReq::Path(p.clone()),
            ExtendedVersionReq::Unchecked(u) => ExtendedVersionReq::Unchecked(u.clone()),
            ExtendedVersionReq::Or(parts) => {
                proof {
                    lemma_req_views(*parts);
                }
                let mut out: Vec<ExtendedVersionReq> = Vec::new();
                let mut i: usize = 0;
                while i < parts.len()
                    invariant
                        i <= parts@.len(),
                        out@.len() == i,
                        forall|j: int|
                            0 <= j < i ==> #[trigger] req_view(out@[j]) == req_view(parts@[j]),
                    decreases parts@.len() - i,
                {
                    let part = parts[i].duplicate();
                    out.push(part);
                    i = i + 1;
                }
                let r = ExtendedVersionReq::Or(out);
                proof {
                    lemma_req_views(out);
                    assert(req_views(out, 0) =~= req_views(*parts, 0));
                }
                r
            },
        }
    }
}

} // verus!
