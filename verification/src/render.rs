//! The tree view of a resolved graph: a pull-model walk that yields one
//! labelled line per node, children in name-sorted order, a separator
//! before dev dependencies, and a dedup marker on every revisit within one
//! render pass. The walk is a pure function of the resolver, so two
//! renders of the same graph are identical.

use vstd::prelude::*;
use vstd::string::StringExecFns;

use crate::dependency_resolver::{contains_key, resolver_wf, DependencyResolver};
use crate::diff::{
    ckey_eq, ChangedPackageEntry, ChangedPackageKey, DiffedDependency, DiffedPackage,
    DiffedPackageAndVersionReq, Differ,
};
use crate::extended_version_req::{req_eq_spec, req_matches_spec};
use crate::extended_version_req::{req_text_spec, req_view};
use crate::package::{key_satisfies_spec, opt_str_eq};
use crate::package::{
    entry_tone_spec, entry_version_text, key_eq_spec, version_mismatch_spec, Dependency, LineTone,
    Package, PackageEntry, PackageKey,
};
use crate::strutil::{lex_lt, str_lt};

verus! {

/// One rendered line: its depth below the root and its text, color
/// stripped.
pub struct TreeLine {
    pub depth: usize,
    pub text: String,
    pub tone: LineTone,
}

/// The mathematical form of a line.
pub struct LineV {
    pub depth: int,
    pub text: Seq<char>,
    pub tone: LineTone,
}

/// `ls` is exactly the rendering `sp`.
pub open spec fn lines_match(ls: Seq<TreeLine>, sp: Seq<LineV>) -> bool {
    &&& ls.len() == sp.len()
    &&& forall|i: int|
        0 <= i < ls.len() ==> (#[trigger] ls[i]).depth == sp[i].depth && ls[i].text@ == sp[i].text
            && ls[i].tone == sp[i].tone
}

/// The label of a node itself: its name, and its version when it has one.
pub open spec fn node_label_spec(p: Package) -> Seq<char> {
    match p.version {
        Some(v) => p.name@ + "@"@ + v@,
        None => p.name@,
    }
}

/// The label of one dependency line: name, requirement and version
/// position, a flag when the requirement is decidedly unsatisfied, and the
/// dedup marker on a revisit.
pub open spec fn dep_label_spec(d: Dependency, deduped: bool) -> Seq<char> {
    d.name@ + "@"@ + req_text_spec(req_view(d.version_req)) + " : "@ + entry_version_text(
        d.package,
    ) + (if version_mismatch_spec(d) {
        " (version not satisfied)"@
    } else {
        Seq::empty()
    }) + (if deduped {
        " [DEDUPED]"@
    } else {
        Seq::empty()
    })
}

/// Is `k` among the keys already visited in this render pass?
pub open spec fn vkey_in(visited: Seq<PackageKey>, k: PackageKey) -> bool {
    exists|i: int| 0 <= i < visited.len() && key_eq_spec(#[trigger] visited[i], k)
}

/// The index of the node bearing `k`.
pub open spec fn pkg_index_spec(r: DependencyResolver, k: PackageKey) -> int {
    choose|i: int| 0 <= i < r.packages@.len() && key_eq_spec((#[trigger] r.packages@[i]).0, k)
}

/// The node bearing `k`, when one is materialized.
pub open spec fn pkg_lookup(r: DependencyResolver, k: PackageKey) -> Option<Package> {
    if contains_key(r, k) {
        Some(r.packages@[pkg_index_spec(r, k)].1)
    } else {
        None
    }
}

/// With distinct keys, the index of a key is unique.
pub proof fn lemma_pkg_index_unique(r: DependencyResolver, k: PackageKey, i: int)
    requires
        resolver_wf(r),
        0 <= i < r.packages@.len(),
        key_eq_spec(r.packages@[i].0, k),
    ensures
        pkg_index_spec(r, k) == i,
        pkg_lookup(r, k) == Some(r.packages@[i].1),
{
    assert(contains_key(r, k));
    let j = pkg_index_spec(r, k);
    if j != i {
        assert(key_eq_spec(r.packages@[j].0, k));
        assert(key_eq_spec(r.packages@[i].0, r.packages@[j].0));
    }
}

/// The names of a dependency list, in declaration order.
pub open spec fn dep_names(ds: Seq<Dependency>) -> Seq<Seq<char>> {
    Seq::new(ds.len(), |i: int| ds[i].name@)
}

/// Inserts index `j` into an index list sorted by name, before the first
/// entry whose name is greater.
pub open spec fn insert_idx_spec(sorted: Seq<int>, names: Seq<Seq<char>>, j: int) -> Seq<int>
    decreases sorted.len(),
{
    if sorted.len() == 0 {
        seq![j]
    } else if lex_lt(names[j], names[sorted[0]]) {
        seq![j] + sorted
    } else {
        seq![sorted[0]] + insert_idx_spec(sorted.subrange(1, sorted.len() as int), names, j)
    }
}

/// The order in which the first `n` entries render: an insertion sort by
/// name, stable for equal names.
pub open spec fn sort_idx_spec(names: Seq<Seq<char>>, n: int) -> Seq<int>
    decreases n,
{
    if n <= 0 {
        Seq::empty()
    } else {
        insert_idx_spec(sort_idx_spec(names, n - 1), names, n - 1)
    }
}

proof fn lemma_insert_at(sorted: Seq<int>, names: Seq<Seq<char>>, j: int, p: int)
    requires
        0 <= p <= sorted.len(),
        forall|q: int| 0 <= q < p ==> !lex_lt(names[j], names[#[trigger] sorted[q]]),
        p < sorted.len() ==> lex_lt(names[j], names[sorted[p]]),
    ensures
        insert_idx_spec(sorted, names, j) == sorted.insert(p, j),
    decreases sorted.len(),
{
    if sorted.len() == 0 {
        assert(insert_idx_spec(sorted, names, j) =~= sorted.insert(0, j));
    } else if p == 0 {
        assert(insert_idx_spec(sorted, names, j) =~= sorted.insert(0, j));
    } else {
        assert(!lex_lt(names[j], names[sorted[0]]));
        let tail = sorted.subrange(1, sorted.len() as int);
        assert forall|q: int| 0 <= q < p - 1 implies !lex_lt(
            names[j],
            names[#[trigger] tail[q]],
        ) by {
            assert(tail[q] == sorted[q + 1]);
        }
        if p - 1 < tail.len() {
            assert(tail[p - 1] == sorted[p]);
        }
        lemma_insert_at(tail, names, j, p - 1);
        assert(insert_idx_spec(sorted, names, j) =~= sorted.insert(p, j));
    }
}

/// The name-sorted order of a dependency list, as indices.
#[verifier::loop_isolation(false)]
pub fn sorted_order(deps: &Vec<Dependency>) -> (r: Vec<usize>)
    ensures
        r@.map_values(|u: usize| u as int) == sort_idx_spec(
            dep_names(deps@),
            deps@.len() as int,
        ),
        forall|i: int| 0 <= i < r@.len() ==> (#[trigger] r@[i]) < deps@.len(),
    decreases deps@.len(),
{
    let ghost names = dep_names(deps@);
    let mut order: Vec<usize> = Vec::new();
    let mut j: usize = 0;
    proof {
        assert(order@.map_values(|u: usize| u as int) =~= sort_idx_spec(names, 0));
    }
    while j < deps.len()
        invariant
            j <= deps@.len(),
            order@.map_values(|u: usize| u as int) == sort_idx_spec(names, j as int),
            forall|i: int| 0 <= i < order@.len() ==> (#[trigger] order@[i]) < j,
        decreases deps@.len() - j,
    {
        let ghost sorted = order@.map_values(|u: usize| u as int);
        let mut p: usize = 0;
        while p < order.len() && !str_lt(deps[j].name.as_str(), deps[order[p]].name.as_str())
            invariant
                p <= order@.len(),
                forall|q: int| 0 <= q < p ==> !lex_lt(names[j as int], names[#[trigger] sorted[q]]),
            decreases order@.len() - p,
        {
            proof {
                assert(sorted[p as int] == order@[p as int] as int);
                assert(names[order@[p as int] as int] == deps@[order@[p as int] as int].name@);
            }
            p = p + 1;
        }
        proof {
            if p < order@.len() {
                assert(sorted[p as int] == order@[p as int] as int);
                assert(names[order@[p as int] as int] == deps@[order@[p as int] as int].name@);
            }
            lemma_insert_at(sorted, names, j as int, p as int);
        }
        order.insert(p, j);
        proof {
            assert(order@.map_values(|u: usize| u as int) =~= sorted.insert(
                p as int,
                j as int,
            ));
        }
        j = j + 1;
    }
    proof {
        assert(forall|i: int|
            0 <= i < order@.len() ==> (#[trigger] order@[i]) < deps@.len());
    }
    order
}

/// The lines of one dependency entry and the visited set after it: the
/// labelled line, then (on a first visit of a materialized node, fuel
/// permitting) the node's children one level deeper.
pub open spec fn render_entry_spec(
    r: DependencyResolver,
    d: Dependency,
    depth: int,
    visited: Seq<PackageKey>,
    fuel: nat,
) -> (Seq<LineV>, Seq<PackageKey>)
    decreases fuel, 0int, 0int,
{
    match d.package {
        PackageEntry::Resolved(k) => match pkg_lookup(r, k) {
            Some(p) => {
                if vkey_in(visited, k) {
                    (seq![LineV { depth, text: dep_label_spec(d, true), tone: entry_tone_spec(d.package, d.version_req) }], visited)
                } else {
                    let v1 = visited.push(k);
                    if fuel == 0 {
                        (seq![LineV { depth, text: dep_label_spec(d, false), tone: entry_tone_spec(d.package, d.version_req) }], v1)
                    } else {
                        let sub = render_children_spec(r, p, depth + 1, v1, (fuel - 1) as nat);
                        (
                            seq![LineV { depth, text: dep_label_spec(d, false), tone: entry_tone_spec(d.package, d.version_req) }] + sub.0,
                            sub.1,
                        )
                    }
                }
            },
            None => (seq![LineV { depth, text: dep_label_spec(d, false), tone: entry_tone_spec(d.package, d.version_req) }], visited),
        },
        _ => (seq![LineV { depth, text: dep_label_spec(d, false), tone: entry_tone_spec(d.package, d.version_req) }], visited),
    }
}

/// The lines of the listed entries, rendered in the given order with the
/// visited set threaded through.
pub open spec fn render_list_spec(
    r: DependencyResolver,
    ds: Seq<Dependency>,
    order: Seq<int>,
    oi: int,
    depth: int,
    visited: Seq<PackageKey>,
    fuel: nat,
) -> (Seq<LineV>, Seq<PackageKey>)
    decreases fuel, 1int, order.len() - oi,
{
    if oi < 0 || oi >= order.len() {
        (Seq::empty(), visited)
    } else if 0 <= order[oi] < ds.len() {
        let head = render_entry_spec(r, ds[order[oi]], depth, visited, fuel);
        let tail = render_list_spec(r, ds, order, oi + 1, depth, head.1, fuel);
        (head.0 + tail.0, tail.1)
    } else {
        render_list_spec(r, ds, order, oi + 1, depth, visited, fuel)
    }
}

/// The lines of a node's children: dependencies in name order, then, when
/// any dev dependencies exist, a separator and the dev dependencies in
/// name order.
pub open spec fn render_children_spec(
    r: DependencyResolver,
    p: Package,
    depth: int,
    visited: Seq<PackageKey>,
    fuel: nat,
) -> (Seq<LineV>, Seq<PackageKey>)
    decreases fuel, 2int, 0int,
{
    let order = sort_idx_spec(dep_names(p.dependencies@), p.dependencies@.len() as int);
    let deps = render_list_spec(r, p.dependencies@, order, 0, depth, visited, fuel);
    if p.dev_dependencies@.len() == 0 {
        deps
    } else {
        let dorder = sort_idx_spec(
            dep_names(p.dev_dependencies@),
            p.dev_dependencies@.len() as int,
        );
        let dev = render_list_spec(r, p.dev_dependencies@, dorder, 0, depth, deps.1, fuel);
        (
            deps.0 + seq![LineV { depth, text: "[DEV DEPENDENCIES]"@, tone: LineTone::Plain }] + dev.0,
            dev.1,
        )
    }
}

/// The fuel every render starts with: more than one level per node.
pub open spec fn render_fuel(r: DependencyResolver) -> nat {
    if r.packages@.len() < usize::MAX {
        r.packages@.len() as nat
    } else {
        (usize::MAX - 1) as nat
    }
}

/// The whole rendering of the tree rooted at `k`: the root's label, then
/// its children with the root already marked visited.
pub open spec fn render_tree_spec(r: DependencyResolver, k: PackageKey) -> Seq<LineV> {
    match pkg_lookup(r, k) {
        Some(p) => seq![LineV { depth: 0, text: node_label_spec(p), tone: LineTone::Plain }] + render_children_spec(
            r,
            p,
            1,
            seq![k],
            render_fuel(r),
        ).0,
        None => Seq::empty(),
    }
}

/// The views of rendered lines.
pub open spec fn line_views(ls: Seq<TreeLine>) -> Seq<LineV> {
    ls.map_values(|l: TreeLine| LineV { depth: l.depth as int, text: l.text@, tone: l.tone })
}

proof fn lemma_line_views_match(ls: Seq<TreeLine>, sp: Seq<LineV>)
    requires
        line_views(ls) == sp,
    ensures
        lines_match(ls, sp),
{
    assert forall|i: int|
        0 <= i < ls.len() implies (#[trigger] ls[i]).depth == sp[i].depth && ls[i].text@ == sp[
        i
    ].text by {
        assert(line_views(ls)[i] == LineV {
            depth: ls[i].depth as int,
            text: ls[i].text@,
            tone: ls[i].tone,
        });
    }
}

/// Builds a node's own label.
pub fn node_label(p: &Package) -> (r: String)
    ensures
        r@ == node_label_spec(*p),
{
    match &p.version {
        Some(v) => {
            let mut s = p.name.clone();
            s.append("@");
            s.append(v.as_str());
            proof {
                assert(s@ =~= node_label_spec(*p));
            }
            s
        },
        None => p.name.clone(),
    }
}

/// Builds one dependency line's label.
pub fn dep_label(d: &Dependency, deduped: bool) -> (r: String)
    ensures
        r@ == dep_label_spec(*d, deduped),
{
    let mut s = d.name.clone();
    s.append("@");
    let rt = d.version_req.to_text();
    s.append(rt.as_str());
    s.append(" : ");
    let vt = d.package.version_str();
    s.append(vt.as_str());
    if d.version_mis_match() {
        s.append(" (version not satisfied)");
    }
    if deduped {
        s.append(" [DEDUPED]");
    }
    proof {
        assert(s@ =~= dep_label_spec(*d, deduped));
    }
    s
}

/// Is `k` already visited?
#[verifier::loop_isolation(false)]
fn vkey_scan(visited: &Vec<PackageKey>, k: &PackageKey) -> (r: bool)
    ensures
        r == vkey_in(visited@, *k),
{
    let mut i: usize = 0;
    while i < visited.len()
        invariant
            i <= visited@.len(),
            forall|j: int| 0 <= j < i ==> !key_eq_spec(#[trigger] visited@[j], *k),
        decreases visited@.len() - i,
    {
        if visited[i].key_eq(k) {
            proof {
                assert(key_eq_spec(visited@[i as int], *k));
            }
            return true;
        }
        i = i + 1;
    }
    false
}

/// Renders one dependency entry: its line, and its children on a first
/// visit.
#[verifier::loop_isolation(false)]
fn render_entry(
    r: &DependencyResolver,
    d: &Dependency,
    depth: usize,
    visited: &mut Vec<PackageKey>,
    out: &mut Vec<TreeLine>,
    fuel: usize,
)
    requires
        resolver_wf(*r),
        depth + fuel <= usize::MAX,
    ensures
        ({
            let sp = render_entry_spec(*r, *d, depth as int, old(visited)@, fuel as nat);
            &&& final(visited)@ == sp.1
            &&& line_views(final(out)@) == line_views(old(out)@) + sp.0
        }),
    decreases fuel, 0int, 0int,
{
    let ghost out0 = out@;
    let ghost sp = render_entry_spec(*r, *d, depth as int, visited@, fuel as nat);
    match &d.package {
        PackageEntry::Resolved(k) => match r.get_package_index(k) {
            Some(pi) => {
                proof {
                    lemma_pkg_index_unique(*r, *k, pi as int);
                }
                if vkey_scan(visited, k) {
                    let line = TreeLine { depth, text: dep_label(d, true), tone: d.package.tone(&d.version_req) };
                    out.push(line);
                    proof {
                        assert(line_views(out@) =~= line_views(out0) + sp.0);
                    }
                } else {
                    visited.push(k.duplicate());
                    let line = TreeLine { depth, text: dep_label(d, false), tone: d.package.tone(&d.version_req) };
                    out.push(line);
                    if fuel > 0 {
                        let ghost out1 = out@;
                        render_children(r, &r.packages[pi].1, depth + 1, visited, out, fuel - 1);
                        proof {
                            assert(line_views(out1) =~= line_views(out0).push(sp.0[0]));
                            assert(line_views(out@) =~= line_views(out0) + sp.0);
                        }
                    } else {
                        proof {
                            assert(line_views(out@) =~= line_views(out0) + sp.0);
                        }
                    }
                }
            },
            None => {
                let line = TreeLine { depth, text: dep_label(d, false), tone: d.package.tone(&d.version_req) };
                out.push(line);
                proof {
                    assert(line_views(out@) =~= line_views(out0) + sp.0);
                }
            },
        },
        _ => {
            let line = TreeLine { depth, text: dep_label(d, false), tone: d.package.tone(&d.version_req) };
            out.push(line);
            proof {
                assert(line_views(out@) =~= line_views(out0) + sp.0);
            }
        },
    }
}

/// Renders the listed entries in the given order.
#[verifier::loop_isolation(false)]
fn render_list(
    r: &DependencyResolver,
    ds: &Vec<Dependency>,
    order: &Vec<usize>,
    depth: usize,
    visited: &mut Vec<PackageKey>,
    out: &mut Vec<TreeLine>,
    fuel: usize,
)
    requires
        resolver_wf(*r),
        depth + fuel <= usize::MAX,
        forall|i: int| 0 <= i < order@.len() ==> (#[trigger] order@[i]) < ds@.len(),
    ensures
        ({
            let sp = render_list_spec(
                *r,
                ds@,
                order@.map_values(|u: usize| u as int),
                0,
                depth as int,
                old(visited)@,
                fuel as nat,
            );
            &&& final(visited)@ == sp.1
            &&& line_views(final(out)@) == line_views(old(out)@) + sp.0
        }),
    decreases fuel, 1int, 0int,
{
    let ghost orderI = order@.map_values(|u: usize| u as int);
    let ghost out0 = out@;
    let ghost sp = render_list_spec(*r, ds@, orderI, 0, depth as int, visited@, fuel as nat);
    let mut oi: usize = 0;
    while oi < order.len()
        invariant
            oi <= order@.len(),
            ({
                let rest = render_list_spec(
                    *r,
                    ds@,
                    orderI,
                    oi as int,
                    depth as int,
                    visited@,
                    fuel as nat,
                );
                &&& sp.1 == rest.1
                &&& line_views(out0) + sp.0 == line_views(out@) + rest.0
            }),
        decreases order@.len() - oi,
    {
        let idx = order[oi];
        let ghost outb = out@;
        let ghost vb = visited@;
        render_entry(r, &ds[idx], depth, visited, out, fuel);
        proof {
            let head = render_entry_spec(*r, ds@[idx as int], depth as int, vb, fuel as nat);
            let rest_old = render_list_spec(
                *r,
                ds@,
                orderI,
                oi as int,
                depth as int,
                vb,
                fuel as nat,
            );
            let rest_new = render_list_spec(
                *r,
                ds@,
                orderI,
                oi + 1,
                depth as int,
                visited@,
                fuel as nat,
            );
            assert(orderI[oi as int] == idx as int);
            assert(rest_old.0 =~= head.0 + rest_new.0);
            assert(line_views(out0) + sp.0 =~= line_views(out@) + rest_new.0) by {
                assert((line_views(outb) + head.0) + rest_new.0 =~= line_views(outb) + (head.0
                    + rest_new.0));
            }
        }
        oi = oi + 1;
    }
    proof {
        let rest = render_list_spec(
            *r,
            ds@,
            orderI,
            order@.len() as int,
            depth as int,
            visited@,
            fuel as nat,
        );
        assert(rest.0 =~= Seq::<LineV>::empty());
        assert(line_views(out0) + sp.0 =~= line_views(out@));
        assert(line_views(out@) =~= line_views(out0) + sp.0);
    }
}

/// Renders a node's children: dependencies, then a separator and the dev
/// dependencies when any exist.
#[verifier::loop_isolation(false)]
fn render_children(
    r: &DependencyResolver,
    p: &Package,
    depth: usize,
    visited: &mut Vec<PackageKey>,
    out: &mut Vec<TreeLine>,
    fuel: usize,
)
    requires
        resolver_wf(*r),
        depth + fuel <= usize::MAX,
    ensures
        ({
            let sp = render_children_spec(*r, *p, depth as int, old(visited)@, fuel as nat);
            &&& final(visited)@ == sp.1
            &&& line_views(final(out)@) == line_views(old(out)@) + sp.0
        }),
    decreases fuel, 2int, 0int,
{
    let ghost out0 = out@;
    let ghost sp = render_children_spec(*r, *p, depth as int, visited@, fuel as nat);
    let order = sorted_order(&p.dependencies);
    render_list(r, &p.dependencies, &order, depth, visited, out, fuel);
    if p.dev_dependencies.len() > 0 {
        let ghost out1 = out@;
        out.push(TreeLine { depth, text: String::from_str("[DEV DEPENDENCIES]"), tone: LineTone::Plain });
        let ghost out2 = out@;
        let dorder = sorted_order(&p.dev_dependencies);
        render_list(r, &p.dev_dependencies, &dorder, depth, visited, out, fuel);
        proof {
            assert(line_views(out2) =~= line_views(out1).push(
                LineV { depth: depth as int, text: "[DEV DEPENDENCIES]"@, tone: LineTone::Plain },
            ));
            assert(line_views(out@) =~= line_views(out0) + sp.0);
        }
    } else {
        proof {
            assert(line_views(out@) =~= line_views(out0) + sp.0);
        }
    }
}

/// Renders the whole tree rooted at `key`: exactly [`render_tree_spec`],
/// a pure function of the resolver, so two renders of the same graph are
/// byte-identical.
pub fn print_tree(resolver: &DependencyResolver, key: &PackageKey) -> (r: Vec<TreeLine>)
    requires
        resolver_wf(*resolver),
    ensures
        lines_match(r@, render_tree_spec(*resolver, *key)),
{
    match resolver.get_package_index(key) {
        None => {
            let r: Vec<TreeLine> = Vec::new();
            proof {
                assert(render_tree_spec(*resolver, *key) =~= Seq::<LineV>::empty());
                assert(lines_match(r@, render_tree_spec(*resolver, *key)));
            }
            r
        },
        Some(pi) => {
            proof {
                lemma_pkg_index_unique(*resolver, *key, pi as int);
            }
            let mut out: Vec<TreeLine> = Vec::new();
            let root_line = TreeLine { depth: 0, text: node_label(&resolver.packages[pi].1), tone: LineTone::Plain };
            out.push(root_line);
            let ghost out1 = out@;
            let mut visited: Vec<PackageKey> = Vec::new();
            visited.push(key.duplicate());
            proof {
                assert(visited@ =~= seq![*key]);
            }
            let fuel: usize = if resolver.packages.len() < usize::MAX {
                resolver.packages.len()
            } else {
                usize::MAX - 1
            };
            render_children(resolver, &resolver.packages[pi].1, 1, &mut visited, &mut out, fuel);
            proof {
                let sub = render_children_spec(
                    *resolver,
                    resolver.packages@[pi as int].1,
                    1,
                    seq![*key],
                    render_fuel(*resolver),
                );
                assert(line_views(out1) =~= seq![
                    LineV {
                        depth: 0,
                        text: node_label_spec(resolver.packages@[pi as int].1),
                        tone: LineTone::Plain,
                    },
                ]);
                assert(line_views(out@) =~= render_tree_spec(*resolver, *key));
                lemma_line_views_match(out@, render_tree_spec(*resolver, *key));
            }
            out
        },
    }
}

/// The version-position text of one side of an aligned entry.
pub open spec fn centry_version_text(e: ChangedPackageEntry, left: bool) -> Seq<char> {
    match e {
        ChangedPackageEntry::Resolved(ck) => {
            let v = if left {
                ck.left.version
            } else {
                ck.right.version
            };
            match v {
                Some(t) => t@,
                None => "{no version}"@,
            }
        },
        ChangedPackageEntry::Missing => "[MISSING]"@,
        ChangedPackageEntry::Truncated => "[TRUNCATED]"@,
        ChangedPackageEntry::MismatchedResolution => "[MISMATCHED RESOLUTION]"@,
    }
}

/// Whether one side of an aligned entry satisfies the requirement of that
/// side; undecided for anything but a resolved side with a version.
pub open spec fn centry_satisfies_spec(
    e: ChangedPackageEntry,
    req: crate::extended_version_req::ExtendedVersionReq,
    left: bool,
) -> Option<bool> {
    match e {
        ChangedPackageEntry::Resolved(ck) => key_satisfies_spec(
            if left {
                ck.left
            } else {
                ck.right
            },
            req,
        ),
        _ => None,
    }
}

/// One side's version text together with its satisfaction flag.
pub open spec fn centry_side_text(
    e: ChangedPackageEntry,
    req: crate::extended_version_req::ExtendedVersionReq,
    left: bool,
) -> Seq<char> {
    centry_version_text(e, left) + (if centry_satisfies_spec(e, req, left) == Some(false) {
        " (version not satisfied)"@
    } else {
        Seq::empty()
    })
}

/// The tone of one diffed dependency line: a one-sided entry carries the
/// tone of that side; an aligned entry is toned only when its shared
/// state is a bracket literal, since a line showing two resolved sides at
/// once has no single satisfaction state.
pub open spec fn diff_dep_tone_spec(dd: DiffedDependency) -> LineTone {
    match dd.package {
        DiffedPackageAndVersionReq::Added { package, version_req } => entry_tone_spec(
            package,
            version_req,
        ),
        DiffedPackageAndVersionReq::Removed { package, version_req } => entry_tone_spec(
            package,
            version_req,
        ),
        DiffedPackageAndVersionReq::Changed { package, .. } => match package {
            ChangedPackageEntry::Missing => LineTone::Missing,
            ChangedPackageEntry::Truncated => LineTone::Truncated,
            _ => LineTone::Plain,
        },
    }
}

/// The tone of one diffed dependency line.
fn diff_dep_tone(dd: &DiffedDependency) -> (r: LineTone)
    ensures
        r == diff_dep_tone_spec(*dd),
{
    match &dd.package {
        DiffedPackageAndVersionReq::Added { package, version_req } => package.tone(version_req),
        DiffedPackageAndVersionReq::Removed { package, version_req } => package.tone(
            version_req,
        ),
        DiffedPackageAndVersionReq::Changed { package, .. } => match package {
            ChangedPackageEntry::Missing => LineTone::Missing,
            ChangedPackageEntry::Truncated => LineTone::Truncated,
            _ => LineTone::Plain,
        },
    }
}

/// The label of one diffed dependency line, color stripped: an
/// `[ADDED] `/`[REMOVED] ` prefix, the (possibly renamed) name, the
/// requirement (or both, when they differ), and the version position
/// (or both sides, when they differ).
pub open spec fn diff_dep_label_spec(dd: DiffedDependency, deduped: bool) -> Seq<char> {
    let prefix = match dd.package {
        DiffedPackageAndVersionReq::Added { .. } => "[ADDED] "@,
        DiffedPackageAndVersionReq::Removed { .. } => "[REMOVED] "@,
        _ => Seq::<char>::empty(),
    };
    let name = if dd.name_left@ == dd.name_right@ {
        dd.name_left@
    } else {
        "("@ + dd.name_left@ + " -> "@ + dd.name_right@ + ")"@
    };
    let req_text = match dd.package {
        DiffedPackageAndVersionReq::Changed { version_req_left, version_req_right, .. } => {
            if req_eq_spec(req_view(version_req_left), req_view(version_req_right)) {
                req_text_spec(req_view(version_req_left))
            } else {
                "("@ + req_text_spec(req_view(version_req_left)) + " -> "@ + req_text_spec(
                    req_view(version_req_right),
                ) + ")"@
            }
        },
        DiffedPackageAndVersionReq::Added { version_req, .. } => req_text_spec(
            req_view(version_req),
        ),
        DiffedPackageAndVersionReq::Removed { version_req, .. } => req_text_spec(
            req_view(version_req),
        ),
    };
    let version_text = match dd.package {
        DiffedPackageAndVersionReq::Changed {
            package,
            version_req_left,
            version_req_right,
        } => {
            let lt = centry_side_text(package, version_req_left, true);
            let rt = centry_side_text(package, version_req_right, false);
            if lt == rt {
                lt
            } else {
                lt + " -> "@ + rt
            }
        },
        DiffedPackageAndVersionReq::Added { package, version_req } => entry_version_text(
            package,
        ) + (if crate::package::entry_satisfies_spec(package, version_req) == Some(false) {
            " (version not satisfied)"@
        } else {
            Seq::empty()
        }),
        DiffedPackageAndVersionReq::Removed { package, version_req } => entry_version_text(
            package,
        ) + (if crate::package::entry_satisfies_spec(package, version_req) == Some(false) {
            " (version not satisfied)"@
        } else {
            Seq::empty()
        }),
    };
    prefix + name + "@"@ + req_text + " : "@ + version_text + (if deduped {
        " [DEDUPED]"@
    } else {
        Seq::empty()
    })
}

/// The version-position text of one side, with its satisfaction flag.
fn centry_side_str(
    e: &ChangedPackageEntry,
    req: &crate::extended_version_req::ExtendedVersionReq,
    left: bool,
) -> (r: String)
    ensures
        r@ == centry_side_text(*e, *req, left),
{
    let mut s: String = match e {
        ChangedPackageEntry::Resolved(ck) => {
            let v = if left {
                &ck.left.version
            } else {
                &ck.right.version
            };
            match v {
                Some(t) => t.clone(),
                None => String::from_str("{no version}"),
            }
        },
        ChangedPackageEntry::Missing => String::from_str("[MISSING]"),
        ChangedPackageEntry::Truncated => String::from_str("[TRUNCATED]"),
        ChangedPackageEntry::MismatchedResolution => String::from_str(
            "[MISMATCHED RESOLUTION]",
        ),
    };
    let sat: Option<bool> = match e {
        ChangedPackageEntry::Resolved(ck) => {
            if left {
                ck.left.satisfies(req)
            } else {
                ck.right.satisfies(req)
            }
        },
        _ => None,
    };
    if let Some(false) = sat {
        s.append(" (version not satisfied)");
    }
    proof {
        assert(s@ =~= centry_side_text(*e, *req, left));
    }
    s
}

/// Builds one diffed dependency line's label.
#[verifier::rlimit(100)]
pub fn diff_dep_label(dd: &DiffedDependency, deduped: bool) -> (r: String)
    ensures
        r@ == diff_dep_label_spec(*dd, deduped),
{
    let mut s: String = match &dd.package {
        DiffedPackageAndVersionReq::Added { .. } => String::from_str("[ADDED] "),
        DiffedPackageAndVersionReq::Removed { .. } => String::from_str("[REMOVED] "),
        _ => String::new(),
    };
    if crate::strutil::str_eq_str(dd.name_left.as_str(), dd.name_right.as_str()) {
        s.append(dd.name_left.as_str());
    } else {
        s.append("(");
        s.append(dd.name_left.as_str());
        s.append(" -> ");
        s.append(dd.name_right.as_str());
        s.append(")");
    }
    s.append("@");
    match &dd.package {
        DiffedPackageAndVersionReq::Changed { version_req_left, version_req_right, .. } => {
            if version_req_left.req_eq(version_req_right) {
                let t = version_req_left.to_text();
                s.append(t.as_str());
            } else {
                s.append("(");
                let tl = version_req_left.to_text();
                s.append(tl.as_str());
                s.append(" -> ");
                let tr = version_req_right.to_text();
                s.append(tr.as_str());
                s.append(")");
            }
        },
        DiffedPackageAndVersionReq::Added { version_req, .. } => {
            let t = version_req.to_text();
            s.append(t.as_str());
        },
        DiffedPackageAndVersionReq::Removed { version_req, .. } => {
            let t = version_req.to_text();
            s.append(t.as_str());
        },
    }
    s.append(" : ");
    match &dd.package {
        DiffedPackageAndVersionReq::Changed {
            package,
            version_req_left,
            version_req_right,
        } => {
            let lt = centry_side_str(package, version_req_left, true);
            let rt = centry_side_str(package, version_req_right, false);
            if crate::strutil::str_eq_str(lt.as_str(), rt.as_str()) {
                s.append(lt.as_str());
            } else {
                s.append(lt.as_str());
                s.append(" -> ");
                s.append(rt.as_str());
            }
        },
        DiffedPackageAndVersionReq::Added { package, version_req } => {
            let vt = package.version_str();
            s.append(vt.as_str());
            if let Some(false) = package.satisfies(version_req) {
                s.append(" (version not satisfied)");
            }
        },
        DiffedPackageAndVersionReq::Removed { package, version_req } => {
            let vt = package.version_str();
            s.append(vt.as_str());
            if let Some(false) = package.satisfies(version_req) {
                s.append(" (version not satisfied)");
            }
        },
    }
    if deduped {
        s.append(" [DEDUPED]");
    }
    proof {
        assert(s@ =~= diff_dep_label_spec(*dd, deduped));
    }
    s
}

/// The first memo entry for `ck`, scanning from `i`.
pub open spec fn dcache_from(
    diffed: Seq<(ChangedPackageKey, Option<DiffedPackage>)>,
    i: int,
    ck: ChangedPackageKey,
) -> Option<Option<DiffedPackage>>
    decreases diffed.len() - i,
{
    if i < 0 || i >= diffed.len() {
        None
    } else if ckey_eq(diffed[i].0, ck) {
        Some(diffed[i].1)
    } else {
        dcache_from(diffed, i + 1, ck)
    }
}

/// The diff node rendered for `ck`: the first memo hit that holds one.
pub open spec fn dlookup(d: Differ, ck: ChangedPackageKey) -> Option<DiffedPackage> {
    match dcache_from(d.diffed@, 0, ck) {
        Some(v) => v,
        None => None,
    }
}

/// Looks the pair up in the memo, first hit wins.
#[verifier::loop_isolation(false)]
fn dcache_get<'a>(d: &'a Differ, ck: &ChangedPackageKey) -> (r: Option<&'a DiffedPackage>)
    ensures
        match r {
            Some(dp) => dlookup(*d, *ck) == Some(*dp),
            None => dlookup(*d, *ck) is None,
        },
{
    let mut i: usize = 0;
    while i < d.diffed.len()
        invariant
            i <= d.diffed@.len(),
            dcache_from(d.diffed@, 0, *ck) == dcache_from(d.diffed@, i as int, *ck),
        decreases d.diffed@.len() - i,
    {
        if d.diffed[i].0.left.key_eq(&ck.left) && d.diffed[i].0.right.key_eq(&ck.right) {
            match &d.diffed[i].1 {
                Some(dp) => {
                    return Some(dp);
                },
                None => {
                    return None;
                },
            }
        }
        i = i + 1;
    }
    None
}

/// The paired key one diffed edge leads into, when it leads anywhere.
pub open spec fn dtarget(dd: DiffedDependency) -> Option<ChangedPackageKey> {
    match dd.package {
        DiffedPackageAndVersionReq::Changed { package: ChangedPackageEntry::Resolved(ck), .. }
            => Some(ck),
        _ => None,
    }
}

/// Is `ck` in the listed pairs?
pub open spec fn ck_in(s: Seq<ChangedPackageKey>, ck: ChangedPackageKey) -> bool {
    exists|i: int| 0 <= i < s.len() && ckey_eq(#[trigger] s[i], ck)
}

/// The exec pair-membership scan.
#[verifier::loop_isolation(false)]
fn ck_scan(s: &Vec<ChangedPackageKey>, ck: &ChangedPackageKey) -> (r: bool)
    ensures
        r == ck_in(s@, *ck),
{
    let mut i: usize = 0;
    while i < s.len()
        invariant
            i <= s@.len(),
            forall|j: int| 0 <= j < i ==> !ckey_eq(#[trigger] s@[j], *ck),
        decreases s@.len() - i,
    {
        if s[i].left.key_eq(&ck.left) && s[i].right.key_eq(&ck.right) {
            proof {
                assert(ckey_eq(s@[i as int], *ck));
            }
            return true;
        }
        i = i + 1;
    }
    false
}

/// The names the diffed edges sort under.
pub open spec fn ddep_names(ds: Seq<DiffedDependency>) -> Seq<Seq<char>> {
    Seq::new(ds.len(), |i: int| ds[i].name_left@)
}

/// The name-sorted order of a diffed edge list, as indices.
#[verifier::loop_isolation(false)]
pub fn sorted_diff_order(deps: &Vec<DiffedDependency>) -> (r: Vec<usize>)
    ensures
        r@.map_values(|u: usize| u as int) == sort_idx_spec(
            ddep_names(deps@),
            deps@.len() as int,
        ),
        forall|i: int| 0 <= i < r@.len() ==> (#[trigger] r@[i]) < deps@.len(),
{
    let ghost names = ddep_names(deps@);
    let mut order: Vec<usize> = Vec::new();
    let mut j: usize = 0;
    proof {
        assert(order@.map_values(|u: usize| u as int) =~= sort_idx_spec(names, 0));
    }
    while j < deps.len()
        invariant
            j <= deps@.len(),
            order@.map_values(|u: usize| u as int) == sort_idx_spec(names, j as int),
            forall|i: int| 0 <= i < order@.len() ==> (#[trigger] order@[i]) < j,
        decreases deps@.len() - j,
    {
        let ghost sorted = order@.map_values(|u: usize| u as int);
        let mut p: usize = 0;
        while p < order.len() && !str_lt(
            deps[j].name_left.as_str(),
            deps[order[p]].name_left.as_str(),
        )
            invariant
                p <= order@.len(),
                forall|q: int| 0 <= q < p ==> !lex_lt(names[j as int], names[#[trigger] sorted[q]]),
            decreases order@.len() - p,
        {
            proof {
                assert(sorted[p as int] == order@[p as int] as int);
                assert(names[order@[p as int] as int] == deps@[order@[p as int] as int]
                    .name_left@);
            }
            p = p + 1;
        }
        proof {
            if p < order@.len() {
                assert(sorted[p as int] == order@[p as int] as int);
                assert(names[order@[p as int] as int] == deps@[order@[p as int] as int]
                    .name_left@);
            }
            lemma_insert_at(sorted, names, j as int, p as int);
        }
        order.insert(p, j);
        proof {
            assert(order@.map_values(|u: usize| u as int) =~= sorted.insert(
                p as int,
                j as int,
            ));
        }
        j = j + 1;
    }
    order
}

/// Whether one diffed edge deserves a line: anything but an aligned
/// resolution is always shown; an aligned resolution is shown when its
/// identities differ or some descendant deserves a line, with pairs on
/// the current probe path treated as silent.
pub open spec fn should_display_spec(
    d: Differ,
    rendered: Seq<ChangedPackageKey>,
    dd: DiffedDependency,
    visiting: Seq<ChangedPackageKey>,
    fuel: nat,
) -> bool
    decreases fuel, 1int,
{
    match dtarget(dd) {
        None => true,
        Some(ck) => {
            if ck.left.name@ != ck.right.name@ || !opt_str_eq(ck.left.version, ck.right.version) {
                true
            } else {
                match dlookup(d, ck) {
                    None => false,
                    Some(node) => {
                        if ck_in(rendered, ck) {
                            false
                        } else if fuel == 0 {
                            false
                        } else {
                            any_child_displayed(
                                d,
                                rendered,
                                node.dependencies@ + node.dev_dependencies@,
                                0,
                                visiting.push(ck),
                                (fuel - 1) as nat,
                            )
                        }
                    },
                }
            }
        },
    }
}

/// Does any child from index `i` on deserve a line?
pub open spec fn any_child_displayed(
    d: Differ,
    rendered: Seq<ChangedPackageKey>,
    cs: Seq<DiffedDependency>,
    i: int,
    visiting: Seq<ChangedPackageKey>,
    fuel: nat,
) -> bool
    decreases fuel, 2int, cs.len() - i,
{
    if i < 0 || i >= cs.len() {
        false
    } else {
        let skip = match dtarget(cs[i]) {
            Some(ck) => ck_in(visiting, ck),
            None => false,
        };
        (!skip && should_display_spec(d, rendered, cs[i], visiting, fuel))
        || any_child_displayed(d, rendered, cs, i + 1, visiting, fuel)
    }
}

/// Decides [`should_display_spec`].
#[verifier::loop_isolation(false)]
pub fn should_display(
    d: &Differ,
    rendered: &Vec<ChangedPackageKey>,
    dd: &DiffedDependency,
    visiting: &mut Vec<ChangedPackageKey>,
    fuel: usize,
) -> (r: bool)
    ensures
        final(visiting)@ == old(visiting)@,
        r == should_display_spec(*d, rendered@, *dd, old(visiting)@, fuel as nat),
    decreases fuel, 1int,
{
    let ck: &ChangedPackageKey = match &dd.package {
        DiffedPackageAndVersionReq::Changed {
            package: ChangedPackageEntry::Resolved(ck),
            ..
        } => ck,
        _ => {
            return true;
        },
    };
    let ids_differ = !ck.left.name.eq(&ck.right.name) || !(match (
        &ck.left.version,
        &ck.right.version,
    ) {
        (Some(a), Some(b)) => crate::strutil::str_eq_str(a.as_str(), b.as_str()),
        (None, None) => true,
        _ => false,
    });
    if ids_differ {
        return true;
    }
    let node = match dcache_get(d, ck) {
        Some(n) => n,
        None => {
            return false;
        },
    };
    if ck_scan(rendered, ck) {
        return false;
    }
    if fuel == 0 {
        return false;
    }
    visiting.push(ChangedPackageKey { left: ck.left.duplicate(), right: ck.right.duplicate() });
    let ghost vis1 = visiting@;
    let mut found: bool = false;
    let ghost all = node.dependencies@ + node.dev_dependencies@;
    let mut i: usize = 0;
    while i < node.dependencies.len()
        invariant
            i <= node.dependencies@.len(),
            visiting@ == vis1,
            found == exists_prefix(*d, rendered@, all, i as int, vis1, (fuel - 1) as nat),
        decreases node.dependencies@.len() - i,
    {
        proof {
            assert(all[i as int] == node.dependencies@[i as int]);
        }
        let skip = match &node.dependencies[i].package {
            DiffedPackageAndVersionReq::Changed {
                package: ChangedPackageEntry::Resolved(cck),
                ..
            } => ck_scan(visiting, cck),
            _ => false,
        };
        if !skip {
            let sd = should_display(d, rendered, &node.dependencies[i], visiting, fuel - 1);
            found = found || sd;
        }
        i = i + 1;
    }
    let mut j: usize = 0;
    while j < node.dev_dependencies.len()
        invariant
            j <= node.dev_dependencies@.len(),
            visiting@ == vis1,
            found == exists_prefix(
                *d,
                rendered@,
                all,
                node.dependencies@.len() + j,
                vis1,
                (fuel - 1) as nat,
            ),
        decreases node.dev_dependencies@.len() - j,
    {
        proof {
            assert(all[node.dependencies@.len() + j] == node.dev_dependencies@[j as int]);
        }
        let skip = match &node.dev_dependencies[j].package {
            DiffedPackageAndVersionReq::Changed {
                package: ChangedPackageEntry::Resolved(cck),
                ..
            } => ck_scan(visiting, cck),
            _ => false,
        };
        if !skip {
            let sd = should_display(d, rendered, &node.dev_dependencies[j], visiting, fuel - 1);
            found = found || sd;
        }
        j = j + 1;
    }
    let _ = visiting.pop();
    proof {
        assert(visiting@ =~= old(visiting)@);
        lemma_exists_prefix_all(*d, rendered@, all, vis1, (fuel - 1) as nat);
    }
    found
}

/// The probed children up to `i` held a displayable one.
pub open spec fn exists_prefix(
    d: Differ,
    rendered: Seq<ChangedPackageKey>,
    cs: Seq<DiffedDependency>,
    upto: int,
    visiting: Seq<ChangedPackageKey>,
    fuel: nat,
) -> bool {
    exists|k: int|
        0 <= k < upto && k < cs.len() && {
            let skip = match dtarget(#[trigger] cs[k]) {
                Some(ck) => ck_in(visiting, ck),
                None => false,
            };
            !skip && should_display_spec(d, rendered, cs[k], visiting, fuel)
        }
}

/// Probing every child is the same as the recursive scan.
proof fn lemma_exists_prefix_all(
    d: Differ,
    rendered: Seq<ChangedPackageKey>,
    cs: Seq<DiffedDependency>,
    visiting: Seq<ChangedPackageKey>,
    fuel: nat,
)
    ensures
        exists_prefix(d, rendered, cs, cs.len() as int, visiting, fuel) == any_child_displayed(
            d,
            rendered,
            cs,
            0,
            visiting,
            fuel,
        ),
{
    lemma_exists_prefix_from(d, rendered, cs, 0, visiting, fuel);
}

proof fn lemma_exists_prefix_from(
    d: Differ,
    rendered: Seq<ChangedPackageKey>,
    cs: Seq<DiffedDependency>,
    i: int,
    visiting: Seq<ChangedPackageKey>,
    fuel: nat,
)
    requires
        0 <= i <= cs.len(),
    ensures
        any_child_displayed(d, rendered, cs, i, visiting, fuel) == exists|k: int|
            i <= k < cs.len() && {
                let skip = match dtarget(#[trigger] cs[k]) {
                    Some(ck) => ck_in(visiting, ck),
                    None => false,
                };
                !skip && should_display_spec(d, rendered, cs[k], visiting, fuel)
            },
    decreases cs.len() - i,
{
    if i < cs.len() {
        lemma_exists_prefix_from(d, rendered, cs, i + 1, visiting, fuel);
    }
}

/// The label of a diff node itself: the name, and the version or the
/// change of versions.
pub open spec fn dnode_label_spec(n: DiffedPackage) -> Seq<char> {
    let vl = match n.version_left {
        Some(v) => v@,
        None => "{no version}"@,
    };
    let vr = match n.version_right {
        Some(v) => v@,
        None => "{no version}"@,
    };
    n.name@ + "@"@ + (if opt_str_eq(n.version_left, n.version_right) {
        vl
    } else {
        "("@ + vl + " -> "@ + vr + ")"@
    })
}

/// Builds a diff node's own label.
pub fn dnode_label(n: &DiffedPackage) -> (r: String)
    ensures
        r@ == dnode_label_spec(*n),
{
    let mut s = n.name.clone();
    s.append("@");
    let same = match (&n.version_left, &n.version_right) {
        (Some(a), Some(b)) => crate::strutil::str_eq_str(a.as_str(), b.as_str()),
        (None, None) => true,
        _ => false,
    };
    let vl: String = match &n.version_left {
        Some(v) => v.clone(),
        None => String::from_str("{no version}"),
    };
    if same {
        s.append(vl.as_str());
    } else {
        let vr: String = match &n.version_right {
            Some(v) => v.clone(),
            None => String::from_str("{no version}"),
        };
        s.append("(");
        s.append(vl.as_str());
        s.append(" -> ");
        s.append(vr.as_str());
        s.append(")");
    }
    proof {
        assert(s@ =~= dnode_label_spec(*n));
    }
    s
}

/// The probe budget for display decisions.
pub open spec fn sd_fuel(d: Differ) -> nat {
    d.diffed@.len() as nat
}

/// The indices (in rendering order) of the edges that deserve a line,
/// judged against the rendered set as it stood when the parent expanded.
pub open spec fn kept_list(
    d: Differ,
    rendered: Seq<ChangedPackageKey>,
    ds: Seq<DiffedDependency>,
    order: Seq<int>,
    i: int,
) -> Seq<int>
    decreases order.len() - i,
{
    if i < 0 || i >= order.len() {
        Seq::empty()
    } else {
        let rest = kept_list(d, rendered, ds, order, i + 1);
        if 0 <= order[i] < ds.len() && should_display_spec(
            d,
            rendered,
            ds[order[i]],
            Seq::empty(),
            sd_fuel(d),
        ) {
            seq![order[i]] + rest
        } else {
            rest
        }
    }
}

/// The lines of one diffed edge and the rendered set after it.
pub open spec fn render_dentry_spec(
    d: Differ,
    dd: DiffedDependency,
    depth: int,
    rendered: Seq<ChangedPackageKey>,
    fuel: nat,
) -> (Seq<LineV>, Seq<ChangedPackageKey>)
    decreases fuel, 0int, 0int,
{
    match dtarget(dd) {
        None => (seq![LineV { depth, text: diff_dep_label_spec(dd, false), tone: diff_dep_tone_spec(dd) }], rendered),
        Some(ck) => match dlookup(d, ck) {
            None => (seq![LineV { depth, text: diff_dep_label_spec(dd, false), tone: diff_dep_tone_spec(dd) }], rendered),
            Some(node) => {
                if ck_in(rendered, ck) {
                    (seq![LineV { depth, text: diff_dep_label_spec(dd, true), tone: diff_dep_tone_spec(dd) }], rendered)
                } else {
                    let r1 = rendered.push(ck);
                    if fuel == 0 {
                        (seq![LineV { depth, text: diff_dep_label_spec(dd, false), tone: diff_dep_tone_spec(dd) }], r1)
                    } else {
                        let sub = render_dchildren_spec(d, node, depth + 1, r1, (fuel - 1) as nat);
                        (
                            seq![LineV { depth, text: diff_dep_label_spec(dd, false), tone: diff_dep_tone_spec(dd) }] + sub.0,
                            sub.1,
                        )
                    }
                }
            },
        },
    }
}

/// The lines of the kept edges, rendered in order.
pub open spec fn render_dlist_spec(
    d: Differ,
    ds: Seq<DiffedDependency>,
    kept: Seq<int>,
    ki: int,
    depth: int,
    rendered: Seq<ChangedPackageKey>,
    fuel: nat,
) -> (Seq<LineV>, Seq<ChangedPackageKey>)
    decreases fuel, 1int, kept.len() - ki,
{
    if ki < 0 || ki >= kept.len() {
        (Seq::empty(), rendered)
    } else if 0 <= kept[ki] < ds.len() {
        let head = render_dentry_spec(d, ds[kept[ki]], depth, rendered, fuel);
        let tail = render_dlist_spec(d, ds, kept, ki + 1, depth, head.1, fuel);
        (head.0 + tail.0, tail.1)
    } else {
        render_dlist_spec(d, ds, kept, ki + 1, depth, rendered, fuel)
    }
}

/// The lines of a diff node's children: the displayable dependencies in
/// name order, then, when any dev dependencies exist at all, a separator
/// and the displayable dev dependencies.
pub open spec fn render_dchildren_spec(
    d: Differ,
    node: DiffedPackage,
    depth: int,
    rendered: Seq<ChangedPackageKey>,
    fuel: nat,
) -> (Seq<LineV>, Seq<ChangedPackageKey>)
    decreases fuel, 2int, 0int,
{
    let order = sort_idx_spec(ddep_names(node.dependencies@), node.dependencies@.len() as int);
    let kept = kept_list(d, rendered, node.dependencies@, order, 0);
    let deps = render_dlist_spec(d, node.dependencies@, kept, 0, depth, rendered, fuel);
    if node.dev_dependencies@.len() == 0 {
        deps
    } else {
        let dorder = sort_idx_spec(
            ddep_names(node.dev_dependencies@),
            node.dev_dependencies@.len() as int,
        );
        let dkept = kept_list(d, rendered, node.dev_dependencies@, dorder, 0);
        let dev = render_dlist_spec(d, node.dev_dependencies@, dkept, 0, depth, deps.1, fuel);
        (
            deps.0 + seq![LineV { depth, text: "[DEV DEPENDENCIES]"@, tone: LineTone::Plain }] + dev.0,
            dev.1,
        )
    }
}

/// The whole rendering of a diff tree rooted at the pair `ck`.
pub open spec fn render_diff_tree_spec(d: Differ, ck: ChangedPackageKey) -> Seq<LineV> {
    match dlookup(d, ck) {
        Some(node) => seq![LineV { depth: 0, text: dnode_label_spec(node), tone: LineTone::Plain }]
            + render_dchildren_spec(
            d,
            node,
            1,
            seq![ck],
            drender_fuel(d),
        ).0,
        None => Seq::empty(),
    }
}

/// The fuel a whole diff render starts with.
pub open spec fn drender_fuel(d: Differ) -> nat {
    if d.diffed@.len() < usize::MAX {
        d.diffed@.len() as nat
    } else {
        (usize::MAX - 1) as nat
    }
}

/// Computes the kept indices for one edge list.
#[verifier::loop_isolation(false)]
fn kept_indices(
    d: &Differ,
    rendered: &Vec<ChangedPackageKey>,
    ds: &Vec<DiffedDependency>,
    order: &Vec<usize>,
) -> (r: Vec<usize>)
    requires
        forall|i: int| 0 <= i < order@.len() ==> (#[trigger] order@[i]) < ds@.len(),
    ensures
        r@.map_values(|u: usize| u as int) == kept_list(
            *d,
            rendered@,
            ds@,
            order@.map_values(|u: usize| u as int),
            0,
        ),
        forall|i: int| 0 <= i < r@.len() ==> (#[trigger] r@[i]) < ds@.len(),
{
    let ghost orderI = order@.map_values(|u: usize| u as int);
    let mut out: Vec<usize> = Vec::new();
    let mut i: usize = 0;
    let fuel = d.diffed.len();
    proof {
        assert(kept_list(*d, rendered@, ds@, orderI, 0) =~= out@.map_values(
            |u: usize| u as int,
        ) + kept_list(*d, rendered@, ds@, orderI, 0));
    }
    while i < order.len()
        invariant
            i <= order@.len(),
            kept_list(*d, rendered@, ds@, orderI, 0) == out@.map_values(|u: usize| u as int)
                + kept_list(*d, rendered@, ds@, orderI, i as int),
            forall|k: int| 0 <= k < out@.len() ==> (#[trigger] out@[k]) < ds@.len(),
        decreases order@.len() - i,
    {
        let idx = order[i];
        let mut visiting: Vec<ChangedPackageKey> = Vec::new();
        proof {
            assert(visiting@ =~= Seq::<ChangedPackageKey>::empty());
        }
        let keep = should_display(d, rendered, &ds[idx], &mut visiting, fuel);
        proof {
            assert(orderI[i as int] == idx as int);
        }
        if keep {
            out.push(idx);
            proof {
                assert(out@.map_values(|u: usize| u as int) =~= out@.subrange(
                    0,
                    out@.len() - 1,
                ).map_values(|u: usize| u as int).push(idx as int));
                assert(out@.subrange(0, out@.len() - 1).map_values(|u: usize| u as int).push(
                    idx as int,
                ) + kept_list(*d, rendered@, ds@, orderI, i + 1) =~= out@.subrange(
                    0,
                    out@.len() - 1,
                ).map_values(|u: usize| u as int) + (seq![idx as int] + kept_list(
                    *d,
                    rendered@,
                    ds@,
                    orderI,
                    i + 1,
                )));
            }
        }
        i = i + 1;
    }
    proof {
        assert(kept_list(*d, rendered@, ds@, orderI, order@.len() as int) =~= Seq::<
            int,
        >::empty());
        assert(kept_list(*d, rendered@, ds@, orderI, 0) =~= out@.map_values(
            |u: usize| u as int,
        ));
    }
    out
}

/// Renders one diffed edge.
#[verifier::loop_isolation(false)]
fn render_dentry(
    d: &Differ,
    dd: &DiffedDependency,
    depth: usize,
    rendered: &mut Vec<ChangedPackageKey>,
    out: &mut Vec<TreeLine>,
    fuel: usize,
)
    requires
        depth + fuel <= usize::MAX,
    ensures
        ({
            let sp = render_dentry_spec(*d, *dd, depth as int, old(rendered)@, fuel as nat);
            &&& final(rendered)@ == sp.1
            &&& line_views(final(out)@) == line_views(old(out)@) + sp.0
        }),
    decreases fuel, 0int, 0int,
{
    let ghost out0 = out@;
    let ghost sp = render_dentry_spec(*d, *dd, depth as int, rendered@, fuel as nat);
    let ck: &ChangedPackageKey = match &dd.package {
        DiffedPackageAndVersionReq::Changed {
            package: ChangedPackageEntry::Resolved(ck),
            ..
        } => ck,
        _ => {
            let line = TreeLine { depth, text: diff_dep_label(dd, false), tone: diff_dep_tone(dd) };
            out.push(line);
            proof {
                assert(line_views(out@) =~= line_views(out0) + sp.0);
            }
            return ;
        },
    };
    let node = match dcache_get(d, ck) {
        Some(n) => n,
        None => {
            let line = TreeLine { depth, text: diff_dep_label(dd, false), tone: diff_dep_tone(dd) };
            out.push(line);
            proof {
                assert(line_views(out@) =~= line_views(out0) + sp.0);
            }
            return ;
        },
    };
    if ck_scan(rendered, ck) {
        let line = TreeLine { depth, text: diff_dep_label(dd, true), tone: diff_dep_tone(dd) };
        out.push(line);
        proof {
            assert(line_views(out@) =~= line_views(out0) + sp.0);
        }
        return ;
    }
    rendered.push(
        ChangedPackageKey { left: ck.left.duplicate(), right: ck.right.duplicate() },
    );
    let line = TreeLine { depth, text: diff_dep_label(dd, false), tone: diff_dep_tone(dd) };
    out.push(line);
    if fuel > 0 {
        render_dchildren(d, node, depth + 1, rendered, out, fuel - 1);
        proof {
            assert(line_views(out@) =~= line_views(out0) + sp.0);
        }
    } else {
        proof {
            assert(line_views(out@) =~= line_views(out0) + sp.0);
        }
    }
}

/// Renders the kept edges of one list.
#[verifier::loop_isolation(false)]
fn render_dlist(
    d: &Differ,
    ds: &Vec<DiffedDependency>,
    kept: &Vec<usize>,
    depth: usize,
    rendered: &mut Vec<ChangedPackageKey>,
    out: &mut Vec<TreeLine>,
    fuel: usize,
)
    requires
        depth + fuel <= usize::MAX,
        forall|i: int| 0 <= i < kept@.len() ==> (#[trigger] kept@[i]) < ds@.len(),
    ensures
        ({
            let sp = render_dlist_spec(
                *d,
                ds@,
                kept@.map_values(|u: usize| u as int),
                0,
                depth as int,
                old(rendered)@,
                fuel as nat,
            );
            &&& final(rendered)@ == sp.1
            &&& line_views(final(out)@) == line_views(old(out)@) + sp.0
        }),
    decreases fuel, 1int, 0int,
{
    let ghost keptI = kept@.map_values(|u: usize| u as int);
    let ghost out0 = out@;
    let ghost sp = render_dlist_spec(*d, ds@, keptI, 0, depth as int, rendered@, fuel as nat);
    let mut ki: usize = 0;
    while ki < kept.len()
        invariant
            ki <= kept@.len(),
            ({
                let rest = render_dlist_spec(
                    *d,
                    ds@,
                    keptI,
                    ki as int,
                    depth as int,
                    rendered@,
                    fuel as nat,
                );
                &&& sp.1 == rest.1
                &&& line_views(out0) + sp.0 == line_views(out@) + rest.0
            }),
        decreases kept@.len() - ki,
    {
        let idx = kept[ki];
        let ghost outb = out@;
        let ghost rb = rendered@;
        render_dentry(d, &ds[idx], depth, rendered, out, fuel);
        proof {
            let head = render_dentry_spec(*d, ds@[idx as int], depth as int, rb, fuel as nat);
            let rest_new = render_dlist_spec(
                *d,
                ds@,
                keptI,
                ki + 1,
                depth as int,
                rendered@,
                fuel as nat,
            );
            assert(keptI[ki as int] == idx as int);
            assert(line_views(out0) + sp.0 =~= line_views(out@) + rest_new.0) by {
                assert((line_views(outb) + head.0) + rest_new.0 =~= line_views(outb) + (head.0
                    + rest_new.0));
            }
        }
        ki = ki + 1;
    }
    proof {
        let rest = render_dlist_spec(
            *d,
            ds@,
            keptI,
            kept@.len() as int,
            depth as int,
            rendered@,
            fuel as nat,
        );
        assert(rest.0 =~= Seq::<LineV>::empty());
        assert(line_views(out@) =~= line_views(out0) + sp.0);
    }
}

/// Renders a diff node's children.
#[verifier::loop_isolation(false)]
fn render_dchildren(
    d: &Differ,
    node: &DiffedPackage,
    depth: usize,
    rendered: &mut Vec<ChangedPackageKey>,
    out: &mut Vec<TreeLine>,
    fuel: usize,
)
    requires
        depth + fuel <= usize::MAX,
    ensures
        ({
            let sp = render_dchildren_spec(*d, *node, depth as int, old(rendered)@, fuel as nat);
            &&& final(rendered)@ == sp.1
            &&& line_views(final(out)@) == line_views(old(out)@) + sp.0
        }),
    decreases fuel, 2int, 0int,
{
    let ghost out0 = out@;
    let ghost sp = render_dchildren_spec(*d, *node, depth as int, rendered@, fuel as nat);
    let order = sorted_diff_order(&node.dependencies);
    let kept = kept_indices(d, rendered, &node.dependencies, &order);
    let dorder = sorted_diff_order(&node.dev_dependencies);
    let dkept = kept_indices(d, rendered, &node.dev_dependencies, &dorder);
    render_dlist(d, &node.dependencies, &kept, depth, rendered, out, fuel);
    if node.dev_dependencies.len() > 0 {
        let ghost out1 = out@;
        out.push(TreeLine { depth, text: String::from_str("[DEV DEPENDENCIES]"), tone: LineTone::Plain });
        let ghost out2 = out@;
        render_dlist(d, &node.dev_dependencies, &dkept, depth, rendered, out, fuel);
        proof {
            assert(line_views(out2) =~= line_views(out1).push(
                LineV { depth: depth as int, text: "[DEV DEPENDENCIES]"@, tone: LineTone::Plain },
            ));
            assert(line_views(out@) =~= line_views(out0) + sp.0);
        }
    } else {
        proof {
            assert(line_views(out@) =~= line_views(out0) + sp.0);
        }
    }
}

/// Renders the whole diff tree rooted at the pair `ck`: exactly
/// [`render_diff_tree_spec`], a pure function of the differ's memo.
pub fn print_diff_tree(d: &Differ, ck: &ChangedPackageKey) -> (r: Vec<TreeLine>)
    ensures
        lines_match(r@, render_diff_tree_spec(*d, *ck)),
{
    match dcache_get(d, ck) {
        None => {
            let r: Vec<TreeLine> = Vec::new();
            proof {
                assert(render_diff_tree_spec(*d, *ck) =~= Seq::<LineV>::empty());
                assert(lines_match(r@, render_diff_tree_spec(*d, *ck)));
            }
            r
        },
        Some(node) => {
            let mut out: Vec<TreeLine> = Vec::new();
            out.push(TreeLine { depth: 0, text: dnode_label(node), tone: LineTone::Plain });
            let ghost out1 = out@;
            let mut rendered: Vec<ChangedPackageKey> = Vec::new();
            rendered.push(
                ChangedPackageKey { left: ck.left.duplicate(), right: ck.right.duplicate() },
            );
            proof {
                assert(rendered@ =~= seq![*ck]);
            }
            let fuel: usize = if d.diffed.len() < usize::MAX {
                d.diffed.len()
            } else {
                usize::MAX - 1
            };
            render_dchildren(d, node, 1, &mut rendered, &mut out, fuel);
            proof {
                assert(line_views(out1) =~= seq![
                    LineV { depth: 0, text: dnode_label_spec(*node), tone: LineTone::Plain },
                ]);
                assert(fuel as nat == drender_fuel(*d));
                assert(line_views(out@) =~= render_diff_tree_spec(*d, *ck));
                lemma_line_views_match(out@, render_diff_tree_spec(*d, *ck));
            }
            out
        },
    }
}

/// A requirement that cannot be decided (`workspace:`, a path, or an
/// unchecked string) is never flagged as unsatisfied, so its line never
/// carries the red annotation.
pub proof fn lemma_undecided_reqs_never_flagged(d: Dependency, deduped: bool)
    requires
        req_view(d.version_req) is Workspace || req_view(d.version_req) is Path || req_view(
            d.version_req,
        ) is Unchecked,
    ensures
        !version_mismatch_spec(d),
        dep_label_spec(d, deduped) == d.name@ + "@"@ + req_text_spec(req_view(d.version_req))
            + " : "@ + entry_version_text(d.package) + (if deduped {
            " [DEDUPED]"@
        } else {
            Seq::<char>::empty()
        }),
{
    match d.package {
        PackageEntry::Resolved(k) => {
            assert(req_matches_spec(req_view(d.version_req), match k.version {
                Some(v) => v@,
                None => Seq::empty(),
            }) is None);
        },
        _ => {},
    }
    assert(dep_label_spec(d, deduped) =~= d.name@ + "@"@ + req_text_spec(
        req_view(d.version_req),
    ) + " : "@ + entry_version_text(d.package) + (if deduped {
        " [DEDUPED]"@
    } else {
        Seq::<char>::empty()
    }));
}

/// Two dependency edges agree in everything a rendering reads.
pub open spec fn dep_view_eq(a: Dependency, b: Dependency) -> bool {
    &&& a.name@ == b.name@
    &&& req_view(a.version_req) == req_view(b.version_req)
    &&& crate::package::entry_eq_spec(a.package, b.package)
}

proof fn lemma_insert_idx_len(sorted: Seq<int>, names: Seq<Seq<char>>, j: int)
    ensures
        insert_idx_spec(sorted, names, j).len() == sorted.len() + 1,
    decreases sorted.len(),
{
    if sorted.len() > 0 && !lex_lt(names[j], names[sorted[0]]) {
        lemma_insert_idx_len(sorted.subrange(1, sorted.len() as int), names, j);
    }
}

/// The sorted order covers every entry exactly once.
pub proof fn lemma_sort_idx_len(names: Seq<Seq<char>>, n: int)
    requires
        n >= 0,
    ensures
        sort_idx_spec(names, n).len() == n,
    decreases n,
{
    if n > 0 {
        lemma_sort_idx_len(names, n - 1);
        lemma_insert_idx_len(sort_idx_spec(names, n - 1), names, n - 1);
    }
}

/// The values of a dependency map in name-sorted order, as rendering
/// yields them.
#[verifier::loop_isolation(false)]
pub fn sorted_values(deps: &Vec<Dependency>) -> (r: Vec<Dependency>)
    ensures
        ({
            let order = sort_idx_spec(dep_names(deps@), deps@.len() as int);
            &&& r@.len() == deps@.len()
            &&& forall|i: int|
                0 <= i < r@.len() ==> 0 <= order[i] < deps@.len() && dep_view_eq(
                    #[trigger] r@[i],
                    deps@[order[i]],
                )
        }),
{
    let order = sorted_order(deps);
    proof {
        lemma_sort_idx_len(dep_names(deps@), deps@.len() as int);
    }
    let mut out: Vec<Dependency> = Vec::new();
    let mut i: usize = 0;
    while i < order.len()
        invariant
            i <= order@.len(),
            out@.len() == i,
            forall|j: int|
                0 <= j < i ==> dep_view_eq(
                    #[trigger] out@[j],
                    deps@[sort_idx_spec(dep_names(deps@), deps@.len() as int)[j]],
                ),
        decreases order@.len() - i,
    {
        let idx = order[i];
        let d = &deps[idx];
        let copy = Dependency {
            name: d.name.clone(),
            version_req: d.version_req.duplicate(),
            package: d.package.duplicate(),
        };
        proof {
            assert(order@.map_values(|u: usize| u as int)[i as int] == idx as int);
        }
        out.push(copy);
        i = i + 1;
    }
    out
}

/// The later visited set keeps every earlier entry in place.
pub open spec fn visited_grows(pre: Seq<PackageKey>, post: Seq<PackageKey>) -> bool {
    pre.len() <= post.len() && forall|w: int| 0 <= w < pre.len() ==> post[w] == pre[w]
}

proof fn lemma_visited_grows_trans(a: Seq<PackageKey>, b: Seq<PackageKey>, c: Seq<PackageKey>)
    requires
        visited_grows(a, b),
        visited_grows(b, c),
    ensures
        visited_grows(a, c),
{
}

/// Rendering an entry never forgets a visited key.
pub proof fn lemma_entry_keeps_visited(
    r: DependencyResolver,
    d: Dependency,
    depth: int,
    visited: Seq<PackageKey>,
    fuel: nat,
)
    ensures
        visited_grows(visited, render_entry_spec(r, d, depth, visited, fuel).1),
    decreases fuel, 0int, 0int,
{
    match d.package {
        PackageEntry::Resolved(k) => match pkg_lookup(r, k) {
            Some(p) => {
                if !vkey_in(visited, k) && fuel > 0 {
                    lemma_children_keep_visited(r, p, depth + 1, visited.push(k), (fuel - 1) as nat);
                    assert(visited_grows(visited, visited.push(k)));
                    lemma_visited_grows_trans(
                        visited,
                        visited.push(k),
                        render_children_spec(r, p, depth + 1, visited.push(k), (fuel - 1) as nat).1,
                    );
                }
            },
            None => {},
        },
        _ => {},
    }
}

proof fn lemma_list_keeps_visited(
    r: DependencyResolver,
    ds: Seq<Dependency>,
    order: Seq<int>,
    oi: int,
    depth: int,
    visited: Seq<PackageKey>,
    fuel: nat,
)
    ensures
        visited_grows(visited, render_list_spec(r, ds, order, oi, depth, visited, fuel).1),
    decreases fuel, 1int, order.len() - oi,
{
    if 0 <= oi < order.len() {
        if 0 <= order[oi] < ds.len() {
            lemma_entry_keeps_visited(r, ds[order[oi]], depth, visited, fuel);
            let v1 = render_entry_spec(r, ds[order[oi]], depth, visited, fuel).1;
            lemma_list_keeps_visited(r, ds, order, oi + 1, depth, v1, fuel);
            lemma_visited_grows_trans(
                visited,
                v1,
                render_list_spec(r, ds, order, oi + 1, depth, v1, fuel).1,
            );
        } else {
            lemma_list_keeps_visited(r, ds, order, oi + 1, depth, visited, fuel);
        }
    }
}

proof fn lemma_children_keep_visited(
    r: DependencyResolver,
    p: Package,
    depth: int,
    visited: Seq<PackageKey>,
    fuel: nat,
)
    ensures
        visited_grows(visited, render_children_spec(r, p, depth, visited, fuel).1),
    decreases fuel, 2int, 0int,
{
    let order = sort_idx_spec(dep_names(p.dependencies@), p.dependencies@.len() as int);
    lemma_list_keeps_visited(r, p.dependencies@, order, 0, depth, visited, fuel);
    if p.dev_dependencies@.len() > 0 {
        let v1 = render_list_spec(r, p.dependencies@, order, 0, depth, visited, fuel).1;
        let dorder = sort_idx_spec(
            dep_names(p.dev_dependencies@),
            p.dev_dependencies@.len() as int,
        );
        lemma_list_keeps_visited(r, p.dev_dependencies@, dorder, 0, depth, v1, fuel);
        lemma_visited_grows_trans(
            visited,
            v1,
            render_list_spec(r, p.dev_dependencies@, dorder, 0, depth, v1, fuel).1,
        );
    }
}

/// Once visited, always visited: a key a render pass has expanded stays in
/// the visited set for the rest of the pass, so it is never expanded a
/// second time — together with [`lemma_revisit_is_one_marked_line`], a
/// cycle contributes one expanded node per participant and one marked
/// closing line.
pub proof fn lemma_visited_stays(
    r: DependencyResolver,
    d: Dependency,
    depth: int,
    visited: Seq<PackageKey>,
    fuel: nat,
    k: PackageKey,
)
    requires
        vkey_in(visited, k),
    ensures
        vkey_in(render_entry_spec(r, d, depth, visited, fuel).1, k),
{
    lemma_entry_keeps_visited(r, d, depth, visited, fuel);
    let post = render_entry_spec(r, d, depth, visited, fuel).1;
    let w = choose|w: int| 0 <= w < visited.len() && key_eq_spec(#[trigger] visited[w], k);
    assert(key_eq_spec(post[w], k));
}

/// A revisit renders as exactly one line bearing the dedup marker, and
/// leaves the visited set alone: a cycle contributes one node per
/// participant, its closing arc a marked leaf.
pub proof fn lemma_revisit_is_one_marked_line(
    r: DependencyResolver,
    d: Dependency,
    depth: int,
    visited: Seq<PackageKey>,
    fuel: nat,
)
    requires
        d.package matches PackageEntry::Resolved(k) && pkg_lookup(r, k) is Some && vkey_in(
            visited,
            k,
        ),
    ensures
        render_entry_spec(r, d, depth, visited, fuel) == (
            seq![LineV { depth, text: dep_label_spec(d, true), tone: entry_tone_spec(d.package, d.version_req) }],
            visited,
        ),
{
}

} // verus!
