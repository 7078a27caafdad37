//! The differ: aligns two resolved graphs node by node, producing a diff
//! graph keyed by paired package keys, with unchanged subtrees pruned and
//! cycles cut by memoizing each pair before descending. Diffing a graph
//! against itself prunes everything.

use vstd::prelude::*;

use crate::dependency_resolver::{contains_key, node_ok, resolver_wf, DependencyResolver};
use crate::extended_version_req::{req_view, ExtendedVersionReq};
use crate::package::{key_eq_spec, opt_str_eq, Dependency, Package, PackageEntry, PackageKey};
use crate::render::lemma_pkg_index_unique;
use crate::strutil::str_eq_str;

verus! {

/// The identity of one aligned pair of nodes.
pub struct ChangedPackageKey {
    pub left: PackageKey,
    pub right: PackageKey,
}

/// Equality of paired keys, component-wise.
pub open spec fn ckey_eq(a: ChangedPackageKey, b: ChangedPackageKey) -> bool {
    key_eq_spec(a.left, b.left) && key_eq_spec(a.right, b.right)
}

/// What one aligned edge resolved to on both sides.
pub enum ChangedPackageEntry {
    /// Both sides resolved: the paired key of the aligned nodes.
    Resolved(ChangedPackageKey),
    /// Missing on both sides.
    Missing,
    /// Truncated on both sides.
    Truncated,
    /// Differently shaped outcomes on the two sides.
    MismatchedResolution,
}

/// One diffed dependency edge's payload.
pub enum DiffedPackageAndVersionReq {
    /// Present on both sides.
    Changed {
        package: ChangedPackageEntry,
        version_req_left: ExtendedVersionReq,
        version_req_right: ExtendedVersionReq,
    },
    /// Present only on the right side; the raw right entry.
    Added { package: PackageEntry, version_req: ExtendedVersionReq },
    /// Present only on the left side; the raw left entry.
    Removed { package: PackageEntry, version_req: ExtendedVersionReq },
}

/// One diffed dependency edge: the names on the two sides (equal unless
/// the pairing renamed it) and the payload.
pub struct DiffedDependency {
    pub name_left: String,
    pub name_right: String,
    pub package: DiffedPackageAndVersionReq,
}

/// One diff node: the aligned names and versions and the diffed edges.
/// A node exists only where something differs beneath or at the pair.
pub struct DiffedPackage {
    pub name: String,
    pub version_left: Option<String>,
    pub version_right: Option<String>,
    pub dependencies: Vec<DiffedDependency>,
    pub dev_dependencies: Vec<DiffedDependency>,
}

/// The differ: the memo of every pair aligned so far. A pair maps to
/// `None` while under construction and when nothing differs.
pub struct Differ {
    pub diffed: Vec<(ChangedPackageKey, Option<DiffedPackage>)>,
}

/// The memo holds an entry for this pair.
pub open spec fn cache_has(diffed: Seq<(ChangedPackageKey, Option<DiffedPackage>)>, ck: ChangedPackageKey) -> bool {
    exists|i: int| 0 <= i < diffed.len() && ckey_eq((#[trigger] diffed[i]).0, ck)
}

/// Every diagonal pair (both keys equal) in the memo maps to `None`.
pub open spec fn diag_ok(diffed: Seq<(ChangedPackageKey, Option<DiffedPackage>)>) -> bool {
    forall|i: int|
        0 <= i < diffed.len() ==> (key_eq_spec((#[trigger] diffed[i]).0.left, diffed[i].0.right)
            ==> diffed[i].1 is None)
}

/// An edge outcome that is present (neither missing nor truncated).
pub open spec fn entry_not_hole(e: PackageEntry) -> bool {
    !(e is Missing) && !(e is Truncated)
}

/// No edge anywhere in the graph is missing or truncated.
pub open spec fn fully_resolved(r: DependencyResolver) -> bool {
    &&& forall|i: int, j: int|
        0 <= i < r.packages@.len() && 0 <= j < (#[trigger] r.packages@[i]).1.dependencies@.len()
            ==> entry_not_hole((#[trigger] r.packages@[i].1.dependencies@[j]).package)
    &&& forall|i: int, j: int|
        0 <= i < r.packages@.len() && 0 <= j
            < (#[trigger] r.packages@[i]).1.dev_dependencies@.len() ==> entry_not_hole(
            (#[trigger] r.packages@[i].1.dev_dependencies@[j]).package,
        )
}

/// The mirror hypothesis for pruning: the two sides are the same resolver,
/// well-formed and without holes.
pub open spec fn same_side(ll: DependencyResolver, rr: DependencyResolver) -> bool {
    ll == rr && resolver_wf(ll) && fully_resolved(ll)
}

impl Differ {
    /// The memo entry for `ck`, if any.
    #[verifier::loop_isolation(false)]
    fn find_cache(&self, ck: &ChangedPackageKey) -> (r: Option<usize>)
        ensures
            match r {
                Some(i) => i < self.diffed@.len() && ckey_eq(self.diffed@[i as int].0, *ck),
                None => !cache_has(self.diffed@, *ck),
            },
    {
        let mut i: usize = 0;
        while i < self.diffed.len()
            invariant
                i <= self.diffed@.len(),
                forall|j: int| 0 <= j < i ==> !ckey_eq((#[trigger] self.diffed@[j]).0, *ck),
            decreases self.diffed@.len() - i,
        {
            if self.diffed[i].0.left.key_eq(&ck.left) && self.diffed[i].0.right.key_eq(
                &ck.right,
            ) {
                return Some(i);
            }
            i = i + 1;
        }
        None
    }

    /// The diff node cached for `ck`, when the pair changed.
    #[verifier::loop_isolation(false)]
    pub fn get_package<'a>(&'a self, ck: &ChangedPackageKey) -> (r: Option<&'a DiffedPackage>)
        ensures
            r matches Some(dp) ==> exists|i: int|
                0 <= i < self.diffed@.len() && ckey_eq((#[trigger] self.diffed@[i]).0, *ck)
                    && self.diffed@[i].1 == Some(*dp),
    {
        match self.find_cache(ck) {
            Some(i) => match &self.diffed[i].1 {
                Some(dp) => {
                    proof {
                        assert(ckey_eq(self.diffed@[i as int].0, *ck) && self.diffed@[
                            i as int
                        ].1 == Some(*dp));
                    }
                    Some(dp)
                },
                None => None,
            },
            None => None,
        }
    }

    /// Aligns the nodes at `li` and `ri`. Returns whether the pair
    /// changed; afterwards the memo holds the pair either way. Aligning a
    /// node of a hole-free graph with itself reports no change.
    #[verifier::loop_isolation(false)]
    fn diff_packages(
        &mut self,
        ll: &DependencyResolver,
        rr: &DependencyResolver,
        li: usize,
        ri: usize,
        fuel: usize,
    ) -> (changed: bool)
        requires
            resolver_wf(*ll),
            resolver_wf(*rr),
            li < ll.packages@.len(),
            ri < rr.packages@.len(),
        ensures
            final(self).diffed@.len() >= old(self).diffed@.len(),
            final(self).diffed@.subrange(0, old(self).diffed@.len() as int) == old(
                self,
            ).diffed@,
            memo_keys_distinct(old(self).diffed@) ==> memo_keys_distinct(final(self).diffed@),
            exists|i: int|
                0 <= i < final(self).diffed@.len() && ckey_eq(
                    (#[trigger] final(self).diffed@[i]).0,
                    ChangedPackageKey {
                        left: ll.packages@[li as int].0,
                        right: rr.packages@[ri as int].0,
                    },
                ) && (changed <==> final(self).diffed@[i].1 is Some),
            (changed && !cache_has(
                old(self).diffed@,
                ChangedPackageKey {
                    left: ll.packages@[li as int].0,
                    right: rr.packages@[ri as int].0,
                },
            )) ==> exists|i: int|
                0 <= i < final(self).diffed@.len() && ckey_eq(
                    (#[trigger] final(self).diffed@[i]).0,
                    ChangedPackageKey {
                        left: ll.packages@[li as int].0,
                        right: rr.packages@[ri as int].0,
                    },
                ) && node_aligns(
                    final(self).diffed@[i].1,
                    ll.packages@[li as int].1,
                    rr.packages@[ri as int].1,
                    final(self).diffed@,
                ),
            (same_side(*ll, *rr) && li == ri && diag_ok(old(self).diffed@)) ==> (!changed
                && diag_ok(final(self).diffed@)),
            cache_has(
                old(self).diffed@,
                ChangedPackageKey {
                    left: ll.packages@[li as int].0,
                    right: rr.packages@[ri as int].0,
                },
            ) ==> final(self).diffed@ == old(self).diffed@,
            (!cache_has(
                old(self).diffed@,
                ChangedPackageKey {
                    left: ll.packages@[li as int].0,
                    right: rr.packages@[ri as int].0,
                },
            ) && fuel > 0 && nodes_differ_shallow(
                ll.packages@[li as int].1,
                rr.packages@[ri as int].1,
            )) ==> changed,
        decreases fuel, 0int,
    {
        let ck = ChangedPackageKey {
            left: ll.packages[li].0.duplicate(),
            right: rr.packages[ri].0.duplicate(),
        };
        if let Some(ci) = self.find_cache(&ck) {
            let hit = self.diffed[ci].1.is_some();
            proof {
                if same_side(*ll, *rr) && li == ri && diag_ok(self.diffed@) {
                    assert(key_eq_spec(self.diffed@[ci as int].0.left, self.diffed@[
                        ci as int
                    ].0.right)) by {
                        crate::diff::lemma_diag_key(
                            self.diffed@[ci as int].0,
                            ck,
                            ll.packages@[li as int].0,
                        );
                    }
                }
                assert(self.diffed@.subrange(0, self.diffed@.len() as int) =~= self.diffed@);
            }
            return hit;
        }
        if fuel == 0 {
            let ghost pre0 = self.diffed@;
            let ghost ckv = ck;
            self.diffed.push((ck, None));
            proof {
                lemma_push_fresh_distinct(pre0, self.diffed@, ckv);
                assert(self.diffed@.subrange(0, old(self).diffed@.len() as int) =~= old(
                    self,
                ).diffed@);
                assert(ckey_eq(self.diffed@.last().0, ChangedPackageKey {
                    left: ll.packages@[li as int].0,
                    right: rr.packages@[ri as int].0,
                }));
            }
            return false;
        }
        let ghost pre = self.diffed@;
        let pi = self.diffed.len();
        let ghost diag = same_side(*ll, *rr) && li == ri && diag_ok(pre);
        let ghost ckv = ck;
        self.diffed.push(
            (
                ChangedPackageKey {
                    left: ck.left.duplicate(),
                    right: ck.right.duplicate(),
                },
                None,
            ),
        );
        proof {
            lemma_push_fresh_distinct(pre, self.diffed@, ckv);
        }
        let lp = &ll.packages[li].1;
        let rp = &rr.packages[ri].1;
        let ghost mid0 = self.diffed@;
        proof {
            if diag {
                assert(diag_ok(mid0));
                assert(node_ok(*ll, ll.packages@[li as int].1));
                assert(ll.packages@[li as int].1.dependencies@ == rr.packages@[
                    ri as int
                ].1.dependencies@);
                assert(ll.packages@[li as int].1.dev_dependencies@ == rr.packages@[
                    ri as int
                ].1.dev_dependencies@);
                assert(deps_not_holes(ll.packages@[li as int].1.dependencies@)) by {
                    assert forall|j: int|
                        0 <= j < ll.packages@[li as int].1.dependencies@.len() implies
                        entry_not_hole(
                        (#[trigger] ll.packages@[li as int].1.dependencies@[j]).package,
                    ) by {
                        assert(0 <= li < ll.packages@.len());
                    }
                }
                assert(deps_not_holes(ll.packages@[li as int].1.dev_dependencies@)) by {
                    assert forall|j: int|
                        0 <= j < ll.packages@[li as int].1.dev_dependencies@.len() implies
                        entry_not_hole(
                        (#[trigger] ll.packages@[li as int].1.dev_dependencies@[j]).package,
                    ) by {
                        assert(0 <= li < ll.packages@.len());
                    }
                }
            }
        }
        let dependencies = self.diff_dependencies(
            ll,
            rr,
            &lp.dependencies,
            &rp.dependencies,
            fuel - 1,
        );
        let ghost mid1 = self.diffed@;
        proof {
            assert(mid1.subrange(0, pre.len() as int) =~= pre);
        }
        let dev_dependencies = self.diff_dependencies(
            ll,
            rr,
            &lp.dev_dependencies,
            &rp.dev_dependencies,
            fuel - 1,
        );
        let ghost mid2 = self.diffed@;
        proof {
            assert(mid2.subrange(0, mid1.len() as int).subrange(0, pre.len() as int)
                =~= mid2.subrange(0, pre.len() as int));
            assert(mid2.subrange(0, pre.len() as int) =~= pre);
            assert(mid2[pi as int] == mid0[pi as int]) by {
                assert(mid1.subrange(0, mid0.len() as int)[pi as int] == mid1[pi as int]);
                assert(mid2.subrange(0, mid1.len() as int)[pi as int] == mid2[pi as int]);
            }
        }
        let names_eq = str_eq_str(lp.name.as_str(), rp.name.as_str());
        let versions_eq = match (&lp.version, &rp.version) {
            (Some(a), Some(b)) => str_eq_str(a.as_str(), b.as_str()),
            (None, None) => true,
            _ => false,
        };
        let changed = !(dependencies.len() == 0 && dev_dependencies.len() == 0 && names_eq
            && versions_eq);
        proof {
            if diag {
                assert(dependencies@.len() == 0);
                assert(dev_dependencies@.len() == 0);
                assert(names_eq);
                assert(versions_eq);
                assert(!changed);
            }
        }
        if changed {
            let (key_back, _) = self.diffed.remove(pi);
            let node = DiffedPackage {
                name: lp.name.clone(),
                version_left: match &lp.version {
                    Some(v) => Some(v.clone()),
                    None => None,
                },
                version_right: match &rp.version {
                    Some(v) => Some(v.clone()),
                    None => None,
                },
                dependencies,
                dev_dependencies,
            };
            self.diffed.insert(pi, (key_back, Some(node)));
            proof {
                assert(self.diffed@ =~= mid2.update(
                    pi as int,
                    (mid2[pi as int].0, self.diffed@[pi as int].1),
                ));
                assert(self.diffed@.subrange(0, pre.len() as int) =~= pre);
                assert(ckey_eq(self.diffed@[pi as int].0, ChangedPackageKey {
                    left: ll.packages@[li as int].0,
                    right: rr.packages@[ri as int].0,
                }));
                assert(self.diffed@[pi as int].1 is Some);
                assert(node_aligns(
                    self.diffed@[pi as int].1,
                    ll.packages@[li as int].1,
                    rr.packages@[ri as int].1,
                    self.diffed@,
                )) by {
                    let node = self.diffed@[pi as int].1.unwrap();
                    // the memo only settles entries from in-progress to
                    // changed; alignment facts carry over
                    assert forall|t: int|
                        0 <= t < mid1.len() implies (#[trigger] self.diffed@[t]).0 == mid1[
                        t
                    ].0 && (mid1[t].1 is Some ==> self.diffed@[t].1 == mid1[t].1) by {
                        if t != pi as int {
                            assert(self.diffed@[t] == mid2[t]);
                            assert(mid2.subrange(0, mid1.len() as int)[t] == mid2[t]);
                        } else {
                            assert(mid1[t].1 is None) by {
                                assert(mid1.subrange(0, mid0.len() as int)[t] == mid1[t]);
                            }
                        }
                    }
                    assert forall|t: int|
                        0 <= t < mid2.len() implies (#[trigger] self.diffed@[t]).0 == mid2[
                        t
                    ].0 && (mid2[t].1 is Some ==> self.diffed@[t].1 == mid2[t].1) by {
                        if t == pi as int {
                            assert(mid2[t].1 is None) by {
                                assert(mid2.subrange(0, mid1.len() as int)[t] == mid2[t]);
                                assert(mid1.subrange(0, mid0.len() as int)[t] == mid1[t]);
                            }
                        }
                    }
                    lemma_changed_aligned_grow(
                        node.dependencies@,
                        ll.packages@[li as int].1.dependencies@,
                        rr.packages@[ri as int].1.dependencies@,
                        mid1,
                        self.diffed@,
                    );
                    lemma_changed_aligned_grow(
                        node.dev_dependencies@,
                        ll.packages@[li as int].1.dev_dependencies@,
                        rr.packages@[ri as int].1.dev_dependencies@,
                        mid2,
                        self.diffed@,
                    );
                }
                assert forall|a: int, b: int|
                    0 <= a < b < self.diffed@.len() && memo_keys_distinct(mid2) implies !ckey_eq(
                    (#[trigger] self.diffed@[a]).0,
                    (#[trigger] self.diffed@[b]).0,
                ) by {
                    assert(self.diffed@[a].0 == mid2[a].0);
                    assert(self.diffed@[b].0 == mid2[b].0);
                }
            }
        } else {
            proof {
                assert(self.diffed@[pi as int].1 is None);
                assert(ckey_eq(self.diffed@[pi as int].0, ChangedPackageKey {
                    left: ll.packages@[li as int].0,
                    right: rr.packages@[ri as int].0,
                }));
                assert(self.diffed@.subrange(0, pre.len() as int) =~= pre);
            }
        }
        changed
    }

    /// Aligns two dependency maps: shared names pair up (and survive only
    /// when something beneath differs), left-only names are removals,
    /// right-only names are additions.
    #[verifier::loop_isolation(false)]
    fn diff_dependencies(
        &mut self,
        ll: &DependencyResolver,
        rr: &DependencyResolver,
        lds: &Vec<Dependency>,
        rds: &Vec<Dependency>,
        fuel: usize,
    ) -> (out: Vec<DiffedDependency>)
        requires
            resolver_wf(*ll),
            resolver_wf(*rr),
            dep_names_distinct(lds@),
            dep_names_distinct(rds@),
        ensures
            final(self).diffed@.len() >= old(self).diffed@.len(),
            final(self).diffed@.subrange(0, old(self).diffed@.len() as int) == old(
                self,
            ).diffed@,
            memo_keys_distinct(old(self).diffed@) ==> memo_keys_distinct(final(self).diffed@),
            (same_side(*ll, *rr) && lds@ == rds@ && deps_not_holes(lds@) && diag_ok(
                old(self).diffed@,
            )) ==> (out@.len() == 0 && diag_ok(final(self).diffed@)),
            forall|i: int|
                0 <= i < lds@.len() && !has_name(rds@, (#[trigger] lds@[i]).name@)
                    ==> out_has_removed(out@, lds@[i]),
            forall|j: int|
                0 <= j < rds@.len() && !has_name(lds@, (#[trigger] rds@[j]).name@)
                    ==> out_has_added(out@, rds@[j]),
            out_classified(out@, lds@, rds@),
            out_names_distinct(out@),
            changed_aligned(out@, lds@, rds@, final(self).diffed@),
            forall|t: int, ri: int|
                0 <= t < lds@.len() && 0 <= ri < rds@.len() && (#[trigger] lds@[t]).name@ == (
                #[trigger] rds@[ri]).name@ && !(lds@[t].package is Resolved && rds@[ri].package
                    is Resolved) ==> out_has_changed(out@, lds@[t].name@),
            memo_keys_distinct(old(self).diffed@) ==> forall|t: int, ri: int|
                0 <= t < lds@.len() && 0 <= ri < rds@.len() && (#[trigger] lds@[t]).name@ == (
                #[trigger] rds@[ri]).name@ ==> (lds@[t].package matches PackageEntry::Resolved(
                k1,
            ) ==> (rds@[ri].package matches PackageEntry::Resolved(k2) ==> ((contains_key(
                *ll,
                k1,
            ) && contains_key(*rr, k2)) ==> ((out_has_changed(out@, lds@[t].name@)
                <==> memo_some_for(final(self).diffed@, k1, k2)) && memo_entry_for(
                final(self).diffed@,
                k1,
                k2,
            ))))),
        decreases fuel, 3int,
    {
        let ghost pre = self.diffed@;
        let ghost diag = same_side(*ll, *rr) && lds@ == rds@ && deps_not_holes(lds@)
            && diag_ok(pre);
        let mut out: Vec<DiffedDependency> = Vec::new();
        let mut i: usize = 0;
        while i < lds.len()
            invariant
                i <= lds@.len(),
                self.diffed@.len() >= pre.len(),
                self.diffed@.subrange(0, pre.len() as int) == pre,
                memo_keys_distinct(pre) ==> memo_keys_distinct(self.diffed@),
                diag ==> (out@.len() == 0 && diag_ok(self.diffed@)),
                out_classified(out@, lds@, rds@),
                forall|k: int|
                    0 <= k < out@.len() ==> exists|t: int|
                        0 <= t < i && (#[trigger] out@[k]).name_left@ == lds@[t].name@,
                out_names_distinct(out@),
                changed_aligned(out@, lds@, rds@, self.diffed@),
                forall|t: int|
                    0 <= t < i && !has_name(rds@, (#[trigger] lds@[t]).name@)
                        ==> out_has_removed(out@, lds@[t]),
                forall|t: int, ri: int|
                    0 <= t < i && 0 <= ri < rds@.len() && (#[trigger] lds@[t]).name@ == (
                    #[trigger] rds@[ri]).name@ && !(lds@[t].package is Resolved && rds@[
                        ri
                    ].package is Resolved) ==> out_has_changed(out@, lds@[t].name@),
                memo_keys_distinct(pre) ==> forall|t: int, ri: int|
                    0 <= t < i && 0 <= ri < rds@.len() && (#[trigger] lds@[t]).name@ == (
                    #[trigger] rds@[ri]).name@ ==> (lds@[t].package
                        matches PackageEntry::Resolved(k1) ==> (rds@[ri].package
                        matches PackageEntry::Resolved(k2) ==> ((contains_key(*ll, k1)
                        && contains_key(*rr, k2)) ==> ((out_has_changed(out@, lds@[t].name@)
                        <==> memo_some_for(self.diffed@, k1, k2)) && memo_entry_for(
                        self.diffed@,
                        k1,
                        k2,
                    ))))),
            decreases lds@.len() - i,
        {
            let ghost loop_pre = self.diffed@;
            let ghost out_pre = out@;
            match find_dep(rds, lds[i].name.as_str()) {
                Some(ri) => {
                    proof {
                        if diag {
                            assert(rds@[ri as int] == lds@[i as int]) by {
                                assert(rds@[ri as int].name@ == lds@[i as int].name@);
                                if ri as int != i as int {
                                    assert(!(rds@[ri as int].name@ == rds@[i as int].name@));
                                }
                            }
                        }
                    }
                    let got = self.diff_dependency(ll, rr, &lds[i], &rds[ri], fuel);
                    proof {
                        // a name matched by index `ri` is matched by no other
                        assert forall|ri2: int|
                            0 <= ri2 < rds@.len() && (#[trigger] rds@[ri2]).name@ == lds@[
                            i as int
                        ].name@ implies ri2 == ri as int by {
                            if ri2 != ri as int {
                                if ri2 < ri as int {
                                    assert(!(rds@[ri2].name@ == rds@[ri as int].name@));
                                } else {
                                    assert(!(rds@[ri as int].name@ == rds@[ri2].name@));
                                }
                            }
                        }
                    }
                    match got {
                        Some(dd) => {
                            out.push(dd);
                            proof {
                                assert(has_name(lds@, out@[out@.len() - 1].name_left@)) by {
                                    assert((lds@[i as int]).name@ == out@[out@.len()
                                        - 1].name_left@);
                                }
                                assert(has_name(rds@, out@[out@.len() - 1].name_left@)) by {
                                    assert((rds@[ri as int]).name@ == out@[out@.len()
                                        - 1].name_left@);
                                }
                                assert(out_has_changed(out@, lds@[i as int].name@)) by {
                                    assert((out@[out@.len() - 1]).name_left@ == lds@[
                                        i as int
                                    ].name@ && out@[out@.len() - 1].package is Changed);
                                }
                                // the new record aligns the matched pair
                                assert((out@[out@.len() - 1]).package
                                    matches DiffedPackageAndVersionReq::Changed {
                                    package,
                                    version_req_left,
                                    version_req_right,
                                } ==> exists|i2: int, ri2: int|
                                    0 <= i2 < lds@.len() && 0 <= ri2 < rds@.len() && (
                                    #[trigger] lds@[i2]).name@ == out@[out@.len()
                                        - 1].name_left@ && (#[trigger] rds@[ri2]).name@ == out@[
                                        out@.len() - 1
                                    ].name_left@ && out@[out@.len() - 1].name_right@ == out@[
                                        out@.len() - 1
                                    ].name_left@ && req_view(version_req_left) == req_view(
                                        lds@[i2].version_req,
                                    ) && req_view(version_req_right) == req_view(
                                        rds@[ri2].version_req,
                                    ) && entry_aligned(
                                        package,
                                        lds@[i2].package,
                                        rds@[ri2].package,
                                        self.diffed@,
                                    )) by {
                                    match out@[out@.len() - 1].package {
                                        DiffedPackageAndVersionReq::Changed {
                                            package,
                                            version_req_left,
                                            version_req_right,
                                        } => {
                                            assert((i as int) < lds@.len() && (ri as int)
                                                < rds@.len() && lds@[i as int].name@ == out@[
                                                out@.len() - 1
                                            ].name_left@ && rds@[ri as int].name@ == out@[
                                                out@.len() - 1
                                            ].name_left@ && out@[out@.len() - 1].name_right@
                                                == out@[out@.len() - 1].name_left@ && req_view(
                                                version_req_left,
                                            ) == req_view(lds@[i as int].version_req)
                                                && req_view(version_req_right) == req_view(
                                                rds@[ri as int].version_req,
                                            ) && entry_aligned(
                                                package,
                                                lds@[i as int].package,
                                                rds@[ri as int].package,
                                                self.diffed@,
                                            ));
                                        },
                                        _ => {},
                                    }
                                }
                                if memo_keys_distinct(pre) {
                                    match lds@[i as int].package {
                                        PackageEntry::Resolved(k1) => match rds@[
                                            ri as int
                                        ].package {
                                            PackageEntry::Resolved(k2) => {
                                                if contains_key(*ll, k1) && contains_key(
                                                    *rr,
                                                    k2,
                                                ) {
                                                    assert(memo_some_for(
                                                        self.diffed@,
                                                        k1,
                                                        k2,
                                                    ));
                                                }
                                            },
                                            _ => {},
                                        },
                                        _ => {},
                                    }
                                }
                            }
                        },
                        None => {
                            proof {
                                if memo_keys_distinct(pre) {
                                    match lds@[i as int].package {
                                        PackageEntry::Resolved(k1) => match rds@[
                                            ri as int
                                        ].package {
                                            PackageEntry::Resolved(k2) => {
                                                if contains_key(*ll, k1) && contains_key(
                                                    *rr,
                                                    k2,
                                                ) {
                                                    assert(!memo_some_for(
                                                        self.diffed@,
                                                        k1,
                                                        k2,
                                                    ));
                                                }
                                            },
                                            _ => {},
                                        },
                                        _ => {},
                                    }
                                }
                            }
                        },
                    }
                },
                None => {
                    proof {
                        if diag {
                            assert(rds@[i as int].name@ == lds@[i as int].name@);
                        }
                    }
                    let entry = lds[i].package.duplicate();
                    let req = lds[i].version_req.duplicate();
                    out.push(
                        DiffedDependency {
                            name_left: lds[i].name.clone(),
                            name_right: lds[i].name.clone(),
                            package: DiffedPackageAndVersionReq::Removed {
                                package: entry,
                                version_req: req,
                            },
                        },
                    );
                    proof {
                        assert(out_has_removed(out@, lds@[i as int])) by {
                            assert((out@[out@.len() - 1]).name_left@ == lds@[i as int].name@);
                        }
                        assert(has_name(lds@, out@[out@.len() - 1].name_left@)) by {
                            assert((lds@[i as int]).name@ == out@[out@.len() - 1].name_left@);
                        }
                    }
                },
            }
            proof {
                assert(self.diffed@.subrange(0, pre.len() as int) =~= pre);
                assert(self.diffed@.subrange(0, loop_pre.len() as int) =~= loop_pre);
                lemma_marks_grow(out_pre, out@, lds@, rds@, i as int, true);
                lemma_changed_aligned_grow(out_pre, lds@, rds@, loop_pre, self.diffed@);
                // anything pushed this round bears the current name
                assert(forall|k: int|
                    out_pre.len() <= k < out@.len() ==> (#[trigger] out@[k]).name_left@
                        == lds@[i as int].name@);
                // names come from the processed prefix
                assert forall|k: int|
                    0 <= k < out@.len() implies exists|t: int|
                    0 <= t < i + 1 && (#[trigger] out@[k]).name_left@ == lds@[t].name@ by {
                    if k < out_pre.len() {
                        assert(out@[k] == out_pre[k]);
                        let t0 = choose|t0: int|
                            0 <= t0 < i && (#[trigger] out_pre[k]).name_left@ == lds@[
                                t0
                            ].name@;
                        assert(0 <= t0 < i + 1 && out@[k].name_left@ == lds@[t0].name@);
                    } else {
                        assert(out@[k].name_left@ == lds@[i as int].name@);
                    }
                }
                // one record per name
                assert(out_names_distinct(out@)) by {
                    assert forall|a: int, b: int|
                        0 <= a < b < out@.len() implies (#[trigger] out@[a]).name_left@ != (
                    #[trigger] out@[b]).name_left@ by {
                        if b >= out_pre.len() {
                            assert(out@[a] == out_pre[a]);
                            let t0 = choose|t0: int|
                                0 <= t0 < i && (#[trigger] out_pre[a]).name_left@ == lds@[
                                    t0
                                ].name@;
                            assert(lds@[t0].name@ != lds@[i as int].name@);
                        } else {
                            assert(out@[a] == out_pre[a] && out@[b] == out_pre[b]);
                        }
                    }
                }
                // every record is still aligned
                assert(changed_aligned(out@, lds@, rds@, self.diffed@)) by {
                    assert forall|k: int|
                        0 <= k < out@.len() implies ((#[trigger] out@[k]).package
                        matches DiffedPackageAndVersionReq::Changed {
                        package,
                        version_req_left,
                        version_req_right,
                    } ==> exists|i2: int, ri2: int|
                        0 <= i2 < lds@.len() && 0 <= ri2 < rds@.len() && (#[trigger] lds@[
                            i2
                        ]).name@ == out@[k].name_left@ && (#[trigger] rds@[ri2]).name@ == out@[
                            k
                        ].name_left@ && out@[k].name_right@ == out@[k].name_left@ && req_view(
                            version_req_left,
                        ) == req_view(lds@[i2].version_req) && req_view(version_req_right)
                            == req_view(rds@[ri2].version_req) && entry_aligned(
                            package,
                            lds@[i2].package,
                            rds@[ri2].package,
                            self.diffed@,
                        )) by {
                        if k < out_pre.len() {
                            assert(out@[k] == out_pre[k]);
                            assert(changed_aligned(out_pre, lds@, rds@, self.diffed@));
                        }
                    }
                }
                // a shared name whose sides are not both resolved is recorded
                assert forall|t: int, ri2: int|
                    0 <= t < i + 1 && 0 <= ri2 < rds@.len() && (#[trigger] lds@[t]).name@ == (
                #[trigger] rds@[ri2]).name@ && !(lds@[t].package is Resolved && rds@[
                    ri2
                ].package is Resolved) implies out_has_changed(out@, lds@[t].name@) by {
                    if t < i {
                        assert(out_has_changed(out_pre, lds@[t].name@));
                        let k0 = choose|k0: int|
                            0 <= k0 < out_pre.len() && (#[trigger] out_pre[k0]).name_left@
                                == lds@[t].name@ && out_pre[k0].package is Changed;
                        assert(out@[k0] == out_pre[k0]);
                    }
                }
                // the memo verdicts of processed pairs are settled
                if memo_keys_distinct(pre) {
                    assert forall|t: int, ri2: int|
                        0 <= t < i + 1 && 0 <= ri2 < rds@.len() && (#[trigger] lds@[t]).name@
                        == (#[trigger] rds@[ri2]).name@ implies (lds@[t].package
                        matches PackageEntry::Resolved(k1) ==> (rds@[ri2].package
                        matches PackageEntry::Resolved(k2) ==> ((contains_key(*ll, k1)
                        && contains_key(*rr, k2)) ==> ((out_has_changed(out@, lds@[t].name@)
                        <==> memo_some_for(self.diffed@, k1, k2)) && memo_entry_for(
                        self.diffed@,
                        k1,
                        k2,
                    ))))) by {
                        match lds@[t].package {
                            PackageEntry::Resolved(k1) => match rds@[ri2].package {
                                PackageEntry::Resolved(k2) => {
                                    if contains_key(*ll, k1) && contains_key(*rr, k2) {
                                        if t < i {
                                            lemma_memo_some_stable(
                                                loop_pre,
                                                self.diffed@,
                                                k1,
                                                k2,
                                            );
                                            if out_has_changed(out_pre, lds@[t].name@) {
                                                let k0 = choose|k0: int|
                                                    0 <= k0 < out_pre.len() && (
                                                    #[trigger] out_pre[k0]).name_left@ == lds@[
                                                        t
                                                    ].name@ && out_pre[k0].package is Changed;
                                                assert(out@[k0] == out_pre[k0]);
                                                assert(out_has_changed(out@, lds@[t].name@));
                                            } else if out_has_changed(out@, lds@[t].name@) {
                                                let k0 = choose|k0: int|
                                                    0 <= k0 < out@.len() && (#[trigger] out@[
                                                        k0
                                                    ]).name_left@ == lds@[t].name@ && out@[
                                                        k0
                                                    ].package is Changed;
                                                assert(k0 >= out_pre.len());
                                                assert(lds@[t].name@ == lds@[i as int].name@);
                                                assert(false);
                                            }
                                        } else {
                                            // the pair processed this round
                                            if out_has_changed(out@, lds@[t].name@)
                                                && !memo_some_for(self.diffed@, k1, k2) {
                                                let k0 = choose|k0: int|
                                                    0 <= k0 < out@.len() && (#[trigger] out@[
                                                        k0
                                                    ]).name_left@ == lds@[t].name@ && out@[
                                                        k0
                                                    ].package is Changed;
                                                if k0 < out_pre.len() {
                                                    let t0 = choose|t0: int|
                                                        0 <= t0 < i && (#[trigger] out_pre[
                                                            k0
                                                        ]).name_left@ == lds@[t0].name@;
                                                    assert(lds@[t0].name@ == lds@[
                                                        i as int
                                                    ].name@);
                                                    assert(false);
                                                }
                                            }
                                        }
                                    }
                                },
                                _ => {},
                            },
                            _ => {},
                        }
                    }
                }
            }
            i = i + 1;
        }
        let ghost mid_memo = self.diffed@;
        let mut j: usize = 0;
        while j < rds.len()
            invariant
                j <= rds@.len(),
                self.diffed@ == mid_memo,
                self.diffed@.len() >= pre.len(),
                self.diffed@.subrange(0, pre.len() as int) == pre,
                memo_keys_distinct(pre) ==> memo_keys_distinct(self.diffed@),
                diag ==> (out@.len() == 0 && diag_ok(self.diffed@)),
                out_classified(out@, lds@, rds@),
                forall|k: int|
                    0 <= k < out@.len() ==> ((exists|t: int|
                        0 <= t < lds@.len() && (#[trigger] out@[k]).name_left@ == lds@[
                            t
                        ].name@) || (exists|t: int|
                        0 <= t < j && (#[trigger] out@[k]).name_left@ == rds@[t].name@
                            && !has_name(lds@, rds@[t].name@))),
                out_names_distinct(out@),
                changed_aligned(out@, lds@, rds@, self.diffed@),
                forall|t: int|
                    0 <= t < lds@.len() && !has_name(rds@, (#[trigger] lds@[t]).name@)
                        ==> out_has_removed(out@, lds@[t]),
                forall|t: int|
                    0 <= t < j && !has_name(lds@, (#[trigger] rds@[t]).name@)
                        ==> out_has_added(out@, rds@[t]),
                forall|t: int, ri: int|
                    0 <= t < lds@.len() && 0 <= ri < rds@.len() && (#[trigger] lds@[t]).name@
                        == (#[trigger] rds@[ri]).name@ && !(lds@[t].package is Resolved && rds@[
                        ri
                    ].package is Resolved) ==> out_has_changed(out@, lds@[t].name@),
                memo_keys_distinct(pre) ==> forall|t: int, ri: int|
                    0 <= t < lds@.len() && 0 <= ri < rds@.len() && (#[trigger] lds@[t]).name@
                        == (#[trigger] rds@[ri]).name@ ==> (lds@[t].package
                        matches PackageEntry::Resolved(k1) ==> (rds@[ri].package
                        matches PackageEntry::Resolved(k2) ==> ((contains_key(*ll, k1)
                        && contains_key(*rr, k2)) ==> ((out_has_changed(out@, lds@[t].name@)
                        <==> memo_some_for(self.diffed@, k1, k2)) && memo_entry_for(
                        self.diffed@,
                        k1,
                        k2,
                    ))))),
            decreases rds@.len() - j,
        {
            let ghost out_pre = out@;
            match find_dep(lds, rds[j].name.as_str()) {
                Some(_) => {},
                None => {
                    proof {
                        if diag {
                            assert(lds@[j as int].name@ == rds@[j as int].name@);
                        }
                    }
                    let entry = rds[j].package.duplicate();
                    let req = rds[j].version_req.duplicate();
                    out.push(
                        DiffedDependency {
                            name_left: rds[j].name.clone(),
                            name_right: rds[j].name.clone(),
                            package: DiffedPackageAndVersionReq::Added {
                                package: entry,
                                version_req: req,
                            },
                        },
                    );
                    proof {
                        assert(out_has_added(out@, rds@[j as int])) by {
                            assert((out@[out@.len() - 1]).name_left@ == rds@[j as int].name@);
                        }
                        assert(has_name(rds@, out@[out@.len() - 1].name_left@)) by {
                            assert((rds@[j as int]).name@ == out@[out@.len() - 1].name_left@);
                        }
                        // an addition bears a right-only name, so names
                        // stay distinct and the shared-name facts stand
                        assert(out_names_distinct(out@)) by {
                            assert forall|a: int, b: int|
                                0 <= a < b < out@.len() implies (#[trigger] out@[a]).name_left@
                                != (#[trigger] out@[b]).name_left@ by {
                                if b == out@.len() - 1 {
                                    if exists|t: int|
                                        0 <= t < lds@.len() && (#[trigger] out_pre[a]).name_left@
                                            == lds@[t].name@ {
                                        let t0 = choose|t0: int|
                                            0 <= t0 < lds@.len() && (#[trigger] out_pre[
                                                a
                                            ]).name_left@ == lds@[t0].name@;
                                        if out@[a].name_left@ == out@[b].name_left@ {
                                            assert(has_name(lds@, rds@[j as int].name@));
                                        }
                                    } else {
                                        let t0 = choose|t0: int|
                                            0 <= t0 < j && (#[trigger] out_pre[a]).name_left@
                                                == rds@[t0].name@ && !has_name(
                                                lds@,
                                                rds@[t0].name@,
                                            );
                                        assert(rds@[t0].name@ != rds@[j as int].name@);
                                    }
                                } else {
                                    assert(out@[a] == out_pre[a] && out@[b] == out_pre[b]);
                                }
                            }
                        }
                        assert forall|k: int|
                            0 <= k < out@.len() implies ((#[trigger] out@[k]).package
                            matches DiffedPackageAndVersionReq::Changed {
                            package,
                            version_req_left,
                            version_req_right,
                        } ==> exists|i2: int, ri2: int|
                            0 <= i2 < lds@.len() && 0 <= ri2 < rds@.len() && (#[trigger] lds@[
                                i2
                            ]).name@ == out@[k].name_left@ && (#[trigger] rds@[ri2]).name@
                                == out@[k].name_left@ && out@[k].name_right@ == out@[
                                k
                            ].name_left@ && req_view(version_req_left) == req_view(
                                lds@[i2].version_req,
                            ) && req_view(version_req_right) == req_view(
                                rds@[ri2].version_req,
                            ) && entry_aligned(
                                package,
                                lds@[i2].package,
                                rds@[ri2].package,
                                self.diffed@,
                            )) by {
                            if k < out_pre.len() {
                                assert(out@[k] == out_pre[k]);
                                assert(changed_aligned(out_pre, lds@, rds@, self.diffed@));
                            }
                        }
                    }
                },
            }
            proof {
                lemma_marks_grow(out_pre, out@, lds@, rds@, lds@.len() as int, true);
                lemma_marks_grow(out_pre, out@, rds@, lds@, j as int, false);
                assert forall|t: int, ri: int|
                    0 <= t < lds@.len() && 0 <= ri < rds@.len() && (#[trigger] lds@[t]).name@
                        == (#[trigger] rds@[ri]).name@ && !(lds@[t].package is Resolved && rds@[
                        ri
                    ].package is Resolved) implies out_has_changed(out@, lds@[t].name@) by {
                    assert(out_has_changed(out_pre, lds@[t].name@));
                    let k0 = choose|k0: int|
                        0 <= k0 < out_pre.len() && (#[trigger] out_pre[k0]).name_left@ == lds@[
                            t
                        ].name@ && out_pre[k0].package is Changed;
                    assert(out@[k0] == out_pre[k0]);
                }
                if memo_keys_distinct(pre) {
                    assert forall|t: int, ri: int|
                        0 <= t < lds@.len() && 0 <= ri < rds@.len() && (#[trigger] lds@[
                            t
                        ]).name@ == (#[trigger] rds@[ri]).name@ implies (lds@[t].package
                        matches PackageEntry::Resolved(k1) ==> (rds@[ri].package
                        matches PackageEntry::Resolved(k2) ==> ((contains_key(*ll, k1)
                        && contains_key(*rr, k2)) ==> ((out_has_changed(out@, lds@[t].name@)
                        <==> memo_some_for(self.diffed@, k1, k2)) && memo_entry_for(
                        self.diffed@,
                        k1,
                        k2,
                    ))))) by {
                        match lds@[t].package {
                            PackageEntry::Resolved(k1) => match rds@[ri].package {
                                PackageEntry::Resolved(k2) => {
                                    if contains_key(*ll, k1) && contains_key(*rr, k2) {
                                        if out_has_changed(out_pre, lds@[t].name@) {
                                            let k0 = choose|k0: int|
                                                0 <= k0 < out_pre.len() && (#[trigger] out_pre[
                                                    k0
                                                ]).name_left@ == lds@[t].name@ && out_pre[
                                                    k0
                                                ].package is Changed;
                                            assert(out@[k0] == out_pre[k0]);
                                        } else if out_has_changed(out@, lds@[t].name@) {
                                            let k0 = choose|k0: int|
                                                0 <= k0 < out@.len() && (#[trigger] out@[
                                                    k0
                                                ]).name_left@ == lds@[t].name@ && out@[
                                                    k0
                                                ].package is Changed;
                                            assert(k0 == out@.len() - 1
                                                && out@.len() > out_pre.len());
                                            assert(has_name(lds@, out@[k0].name_left@));
                                            assert(false);
                                        }
                                    }
                                },
                                _ => {},
                            },
                            _ => {},
                        }
                    }
                }
            }
            j = j + 1;
        }
        out
    }

    /// Aligns one shared dependency edge; `None` when nothing beneath it
    /// differs.
    fn diff_dependency(
        &mut self,
        ll: &DependencyResolver,
        rr: &DependencyResolver,
        ld: &Dependency,
        rd: &Dependency,
        fuel: usize,
    ) -> (r: Option<DiffedDependency>)
        requires
            resolver_wf(*ll),
            resolver_wf(*rr),
        ensures
            final(self).diffed@.len() >= old(self).diffed@.len(),
            final(self).diffed@.subrange(0, old(self).diffed@.len() as int) == old(
                self,
            ).diffed@,
            memo_keys_distinct(old(self).diffed@) ==> memo_keys_distinct(final(self).diffed@),
            r matches Some(dd) ==> dd.name_left@ == ld.name@ && dd.name_right@ == rd.name@ && (
            dd.package matches DiffedPackageAndVersionReq::Changed {
                version_req_left,
                version_req_right,
                ..
            } && req_view(version_req_left) == req_view(ld.version_req) && req_view(
                version_req_right,
            ) == req_view(rd.version_req)),
            (same_side(*ll, *rr) && ld == rd && entry_not_hole(ld.package) && diag_ok(
                old(self).diffed@,
            )) ==> (r is None && diag_ok(final(self).diffed@)),
            r is None ==> (ld.package is Resolved && rd.package is Resolved),
            !entries_same_shape(ld.package, rd.package) ==> (r matches Some(dd) && dd.package
                matches DiffedPackageAndVersionReq::Changed {
                package: ChangedPackageEntry::MismatchedResolution,
                ..
            }),
            r matches Some(dd) ==> (dd.package matches DiffedPackageAndVersionReq::Changed {
                package,
                ..
            } ==> entry_aligned(package, ld.package, rd.package, final(self).diffed@)),
            ld.package matches PackageEntry::Resolved(k1) ==> (rd.package
                matches PackageEntry::Resolved(k2) ==> ((!contains_key(*ll, k1)
                || !contains_key(*rr, k2)) ==> r is None)),
            ld.package matches PackageEntry::Resolved(k1) ==> (rd.package
                matches PackageEntry::Resolved(k2) ==> ((memo_keys_distinct(old(self).diffed@)
                && contains_key(*ll, k1) && contains_key(*rr, k2)) ==> ((r is Some)
                <==> memo_some_for(final(self).diffed@, k1, k2)))),
            ld.package matches PackageEntry::Resolved(k1) ==> (rd.package
                matches PackageEntry::Resolved(k2) ==> ((contains_key(*ll, k1)
                && contains_key(*rr, k2)) ==> memo_entry_for(final(self).diffed@, k1, k2))),
        decreases fuel, 2int,
    {
        match self.diff_entries(ll, rr, &ld.package, &rd.package, fuel) {
            None => None,
            Some(ce) => Some(
                DiffedDependency {
                    name_left: ld.name.clone(),
                    name_right: rd.name.clone(),
                    package: DiffedPackageAndVersionReq::Changed {
                        package: ce,
                        version_req_left: ld.version_req.duplicate(),
                        version_req_right: rd.version_req.duplicate(),
                    },
                },
            ),
        }
    }

    /// Aligns two edge outcomes. Two resolutions recurse into the paired
    /// nodes and survive only when the pair changed; matching holes align
    /// as themselves; anything else is a mismatched resolution.
    fn diff_entries(
        &mut self,
        ll: &DependencyResolver,
        rr: &DependencyResolver,
        le: &PackageEntry,
        re: &PackageEntry,
        fuel: usize,
    ) -> (r: Option<ChangedPackageEntry>)
        requires
            resolver_wf(*ll),
            resolver_wf(*rr),
        ensures
            final(self).diffed@.len() >= old(self).diffed@.len(),
            final(self).diffed@.subrange(0, old(self).diffed@.len() as int) == old(
                self,
            ).diffed@,
            memo_keys_distinct(old(self).diffed@) ==> memo_keys_distinct(final(self).diffed@),
            (le is Missing && re is Missing) ==> r == Some(ChangedPackageEntry::Missing),
            (le is Truncated && re is Truncated) ==> r == Some(ChangedPackageEntry::Truncated),
            !entries_same_shape(*le, *re) ==> r == Some(
                ChangedPackageEntry::MismatchedResolution,
            ),
            r is None ==> (le is Resolved && re is Resolved),
            r matches Some(ce) ==> entry_aligned(ce, *le, *re, final(self).diffed@),
            *le matches PackageEntry::Resolved(k1) ==> (*re matches PackageEntry::Resolved(k2)
                ==> ((!contains_key(*ll, k1) || !contains_key(*rr, k2)) ==> r is None)),
            *le matches PackageEntry::Resolved(k1) ==> (*re matches PackageEntry::Resolved(k2)
                ==> ((memo_keys_distinct(old(self).diffed@) && contains_key(*ll, k1)
                && contains_key(*rr, k2)) ==> ((r is Some) <==> memo_some_for(
                final(self).diffed@,
                k1,
                k2,
            )))),
            *le matches PackageEntry::Resolved(k1) ==> (*re matches PackageEntry::Resolved(k2)
                ==> ((contains_key(*ll, k1) && contains_key(*rr, k2)) ==> memo_entry_for(
                final(self).diffed@,
                k1,
                k2,
            ))),
            (same_side(*ll, *rr) && le == re && entry_not_hole(*le) && diag_ok(
                old(self).diffed@,
            )) ==> (r is None && diag_ok(final(self).diffed@)),
        decreases fuel, 1int,
    {
        match (le, re) {
            (PackageEntry::Resolved(k1), PackageEntry::Resolved(k2)) => {
                match (ll.get_package_index(k1), rr.get_package_index(k2)) {
                    (Some(li), Some(ri)) => {
                        proof {
                            if same_side(*ll, *rr) && le == re {
                                lemma_pkg_index_unique(*ll, *k1, li as int);
                                lemma_pkg_index_unique(*rr, *k2, ri as int);
                            }
                        }
                        let ghost pre_memo = self.diffed@;
                        let changed = self.diff_packages(ll, rr, li, ri, fuel);
                        proof {
                            let e = choose|e: int|
                                0 <= e < self.diffed@.len() && ckey_eq(
                                    (#[trigger] self.diffed@[e]).0,
                                    ChangedPackageKey {
                                        left: ll.packages@[li as int].0,
                                        right: rr.packages@[ri as int].0,
                                    },
                                ) && (changed <==> self.diffed@[e].1 is Some);
                            lemma_keq_trans(self.diffed@[e].0.left, ll.packages@[li as int].0, *k1);
                            lemma_keq_trans(
                                self.diffed@[e].0.right,
                                rr.packages@[ri as int].0,
                                *k2,
                            );
                            if changed {
                                assert(memo_some_for(self.diffed@, *k1, *k2));
                            } else if memo_keys_distinct(pre_memo) {
                                if memo_some_for(self.diffed@, *k1, *k2) {
                                    let w = choose|w: int|
                                        0 <= w < self.diffed@.len() && key_eq_spec(
                                            (#[trigger] self.diffed@[w]).0.left,
                                            *k1,
                                        ) && key_eq_spec(self.diffed@[w].0.right, *k2)
                                            && self.diffed@[w].1 is Some;
                                    if w != e {
                                        lemma_keq_sym(self.diffed@[e].0.left, *k1);
                                        lemma_keq_sym(self.diffed@[e].0.right, *k2);
                                        lemma_keq_trans(
                                            self.diffed@[w].0.left,
                                            *k1,
                                            self.diffed@[e].0.left,
                                        );
                                        lemma_keq_trans(
                                            self.diffed@[w].0.right,
                                            *k2,
                                            self.diffed@[e].0.right,
                                        );
                                        assert(ckey_eq(self.diffed@[w].0, self.diffed@[e].0));
                                        lemma_unique_pair(*self, w, e);
                                    }
                                    assert(false);
                                }
                            }
                        }
                        if changed {
                            let ck = ChangedPackageKey {
                                left: ll.packages[li].0.duplicate(),
                                right: rr.packages[ri].0.duplicate(),
                            };
                            proof {
                                lemma_keq_sym(ck.left, ll.packages@[li as int].0);
                                lemma_keq_trans(ck.left, ll.packages@[li as int].0, *k1);
                                lemma_keq_trans(ck.right, rr.packages@[ri as int].0, *k2);
                            }
                            Some(ChangedPackageEntry::Resolved(ck))
                        } else {
                            None
                        }
                    },
                    _ => {
                        proof {
                            assert(self.diffed@.subrange(0, self.diffed@.len() as int)
                                =~= self.diffed@);
                        }
                        None
                    },
                }
            },
            (PackageEntry::Missing, PackageEntry::Missing) => Some(ChangedPackageEntry::Missing),
            (PackageEntry::Truncated, PackageEntry::Truncated) => Some(
                ChangedPackageEntry::Truncated,
            ),
            _ => Some(ChangedPackageEntry::MismatchedResolution),
        }
    }

    /// Diffs two resolved roots. Returns the differ's memo and, when
    /// anything differs, the index of the root pair's diff node in it.
    /// Diffing a hole-free graph against itself yields no diff at all.
    pub fn diff(
        left: &DependencyResolver,
        right: &DependencyResolver,
        lk: &PackageKey,
        rk: &PackageKey,
    ) -> (r: (Differ, Option<usize>))
        requires
            resolver_wf(*left),
            resolver_wf(*right),
        ensures
            r.1 matches Some(i) ==> i < r.0.diffed@.len() && r.0.diffed@[i as int].1 is Some
                && key_eq_spec(r.0.diffed@[i as int].0.left, *lk) && key_eq_spec(
                r.0.diffed@[i as int].0.right,
                *rk,
            ),
            r.1 matches Some(i) ==> match (
                crate::render::pkg_lookup(*left, *lk),
                crate::render::pkg_lookup(*right, *rk),
            ) {
                (Some(lp), Some(rp)) => node_aligns(
                    r.0.diffed@[i as int].1,
                    lp,
                    rp,
                    r.0.diffed@,
                ),
                _ => false,
            },
            r.1 is None ==> match (
                crate::render::pkg_lookup(*left, *lk),
                crate::render::pkg_lookup(*right, *rk),
            ) {
                (Some(lp), Some(rp)) => !nodes_differ_shallow(lp, rp),
                _ => true,
            },
            (same_side(*left, *right) && key_eq_spec(*lk, *rk)) ==> r.1 is None,
            (crate::render::pkg_lookup(*left, *lk) matches Some(lp)
                && crate::render::pkg_lookup(*right, *rk) matches Some(rp)
                && nodes_differ_shallow(lp, rp)) ==> r.1 is Some,
    {
        let mut differ = Differ { diffed: Vec::new() };
        proof {
            assert(memo_keys_distinct(differ.diffed@));
        }
        let (li, ri) = match (left.get_package_index(lk), right.get_package_index(rk)) {
            (Some(li), Some(ri)) => (li, ri),
            _ => {
                proof {
                    assert(!(crate::render::pkg_lookup(*left, *lk) is Some
                        && crate::render::pkg_lookup(*right, *rk) is Some));
                }
                return (differ, None);
            },
        };
        proof {
            lemma_pkg_index_unique(*left, *lk, li as int);
            lemma_pkg_index_unique(*right, *rk, ri as int);
            if same_side(*left, *right) && key_eq_spec(*lk, *rk) {
                assert(key_eq_spec(*rk, *lk)) by {
                    assert(key_eq_spec(*lk, *rk));
                }
                lemma_pkg_index_unique(*right, *lk, ri as int);
            }
        }
        let fuel = diff_fuel(left, right);
        let changed = differ.diff_packages(left, right, li, ri, fuel);
        if changed {
            let ck = ChangedPackageKey {
                left: left.packages[li].0.duplicate(),
                right: right.packages[ri].0.duplicate(),
            };
            match differ.find_cache(&ck) {
                Some(ci) => {
                    if differ.diffed[ci].1.is_some() {
                        proof {
                            lemma_key_pair_trans(
                                differ.diffed@[ci as int].0,
                                ck,
                                left.packages@[li as int].0,
                                right.packages@[ri as int].0,
                                *lk,
                                *rk,
                            );
                            let w = choose|w: int|
                                0 <= w < differ.diffed@.len() && ckey_eq(
                                    (#[trigger] differ.diffed@[w]).0,
                                    ChangedPackageKey {
                                        left: left.packages@[li as int].0,
                                        right: right.packages@[ri as int].0,
                                    },
                                ) && node_aligns(
                                    differ.diffed@[w].1,
                                    left.packages@[li as int].1,
                                    right.packages@[ri as int].1,
                                    differ.diffed@,
                                );
                            if w != ci {
                                lemma_ckey_trans_back(
                                    differ.diffed@[w].0,
                                    differ.diffed@[ci as int].0,
                                    ChangedPackageKey {
                                        left: left.packages@[li as int].0,
                                        right: right.packages@[ri as int].0,
                                    },
                                );
                                lemma_unique_pair(differ, w, ci as int);
                            }
                        }
                        (differ, Some(ci))
                    } else {
                        proof {
                            let w = choose|w: int|
                                0 <= w < differ.diffed@.len() && ckey_eq(
                                    (#[trigger] differ.diffed@[w]).0,
                                    ChangedPackageKey {
                                        left: left.packages@[li as int].0,
                                        right: right.packages@[ri as int].0,
                                    },
                                ) && (differ.diffed@[w].1 is Some);
                            if w != ci {
                                lemma_ckey_trans_back(
                                    differ.diffed@[w].0,
                                    differ.diffed@[ci as int].0,
                                    ChangedPackageKey {
                                        left: left.packages@[li as int].0,
                                        right: right.packages@[ri as int].0,
                                    },
                                );
                                lemma_unique_pair(differ, w, ci as int);
                            }
                            assert(false);
                        }
                        (differ, None)
                    }
                },
                None => {
                    proof {
                        assert(cache_has(differ.diffed@, ChangedPackageKey {
                            left: left.packages@[li as int].0,
                            right: right.packages@[ri as int].0,
                        }));
                        assert(false);
                    }
                    (differ, None)
                },
            }
        } else {
            (differ, None)
        }
    }
}

/// Some entry bears this name.
pub open spec fn has_name(ds: Seq<Dependency>, n: Seq<char>) -> bool {
    exists|i: int| 0 <= i < ds.len() && (#[trigger] ds[i]).name@ == n
}

/// The diff records this left-only edge as removed, with its raw entry.
pub open spec fn out_has_removed(out: Seq<DiffedDependency>, ld: Dependency) -> bool {
    exists|k: int|
        0 <= k < out.len() && (#[trigger] out[k]).name_left@ == ld.name@ && (out[k].package
            matches DiffedPackageAndVersionReq::Removed { package, version_req }
            && crate::package::entry_eq_spec(package, ld.package) && req_view(version_req)
            == req_view(ld.version_req))
}

/// The diff records this right-only edge as added, with its raw entry.
pub open spec fn out_has_added(out: Seq<DiffedDependency>, rd: Dependency) -> bool {
    exists|k: int|
        0 <= k < out.len() && (#[trigger] out[k]).name_left@ == rd.name@ && (out[k].package
            matches DiffedPackageAndVersionReq::Added { package, version_req }
            && crate::package::entry_eq_spec(package, rd.package) && req_view(version_req)
            == req_view(rd.version_req))
}

/// One diffed map records exactly the differences of its two sides:
/// one-sided edges as their marks, shared edges at most once each, every
/// record classified by where its name lives and aligned with the pair it
/// came from.
pub open spec fn map_aligns(
    out: Seq<DiffedDependency>,
    lds: Seq<Dependency>,
    rds: Seq<Dependency>,
    diffed: Seq<(ChangedPackageKey, Option<DiffedPackage>)>,
) -> bool {
    &&& forall|i: int|
        0 <= i < lds.len() && !has_name(rds, (#[trigger] lds[i]).name@) ==> out_has_removed(
            out,
            lds[i],
        )
    &&& forall|j: int|
        0 <= j < rds.len() && !has_name(lds, (#[trigger] rds[j]).name@) ==> out_has_added(
            out,
            rds[j],
        )
    &&& out_classified(out, lds, rds)
    &&& out_names_distinct(out)
    &&& changed_aligned(out, lds, rds, diffed)
    &&& forall|t: int, ri: int|
        0 <= t < lds.len() && 0 <= ri < rds.len() && (#[trigger] lds[t]).name@ == (
        #[trigger] rds[ri]).name@ && !(lds[t].package is Resolved && rds[ri].package
            is Resolved) ==> out_has_changed(out, lds[t].name@)
}

/// A cached diff node aligns the two resolved nodes it came from: their
/// name and versions, with both diffed maps recording exactly the
/// differences of the corresponding declaration maps.
pub open spec fn node_aligns(
    cached: Option<DiffedPackage>,
    lp: Package,
    rp: Package,
    diffed: Seq<(ChangedPackageKey, Option<DiffedPackage>)>,
) -> bool {
    cached matches Some(n) && {
        &&& n.name@ == lp.name@
        &&& crate::package::opt_str_eq(n.version_left, lp.version)
        &&& crate::package::opt_str_eq(n.version_right, rp.version)
        &&& map_aligns(n.dependencies@, lp.dependencies@, rp.dependencies@, diffed)
        &&& map_aligns(n.dev_dependencies@, lp.dev_dependencies@, rp.dev_dependencies@, diffed)
    }
}

/// Recorded additions and removals survive appending more entries.
proof fn lemma_marks_grow(
    pre: Seq<DiffedDependency>,
    post: Seq<DiffedDependency>,
    ds: Seq<Dependency>,
    other: Seq<Dependency>,
    upto: int,
    removed: bool,
)
    requires
        pre.len() <= post.len(),
        forall|k: int| 0 <= k < pre.len() ==> post[k] == pre[k],
        forall|t: int|
            0 <= t < upto && t < ds.len() && !has_name(other, (#[trigger] ds[t]).name@) ==> (if removed {
                out_has_removed(pre, ds[t])
            } else {
                out_has_added(pre, ds[t])
            }),
    ensures
        forall|t: int|
            0 <= t < upto && t < ds.len() && !has_name(other, (#[trigger] ds[t]).name@) ==> (if removed {
                out_has_removed(post, ds[t])
            } else {
                out_has_added(post, ds[t])
            }),
{
    assert forall|t: int|
        0 <= t < upto && t < ds.len() && !has_name(other, (#[trigger] ds[t]).name@) implies (
    if removed {
        out_has_removed(post, ds[t])
    } else {
        out_has_added(post, ds[t])
    }) by {
        if removed {
            let k = choose|k: int|
                0 <= k < pre.len() && (#[trigger] pre[k]).name_left@ == ds[t].name@ && (pre[
                    k
                ].package matches DiffedPackageAndVersionReq::Removed { package, version_req }
                    && crate::package::entry_eq_spec(package, ds[t].package) && req_view(
                    version_req,
                ) == req_view(ds[t].version_req));
            assert(post[k] == pre[k]);
        } else {
            let k = choose|k: int|
                0 <= k < pre.len() && (#[trigger] pre[k]).name_left@ == ds[t].name@ && (pre[
                    k
                ].package matches DiffedPackageAndVersionReq::Added { package, version_req }
                    && crate::package::entry_eq_spec(package, ds[t].package) && req_view(
                    version_req,
                ) == req_view(ds[t].version_req));
            assert(post[k] == pre[k]);
        }
    }
}

/// The two nodes differ on their face: name, version, or an edge present
/// on one side only.
pub open spec fn nodes_differ_shallow(lp: Package, rp: Package) -> bool {
    ||| lp.name@ != rp.name@
    ||| !opt_str_eq(lp.version, rp.version)
    ||| exists|i: int|
        0 <= i < lp.dependencies@.len() && !has_name(
            rp.dependencies@,
            (#[trigger] lp.dependencies@[i]).name@,
        )
    ||| exists|j: int|
        0 <= j < rp.dependencies@.len() && !has_name(
            lp.dependencies@,
            (#[trigger] rp.dependencies@[j]).name@,
        )
    ||| exists|i: int|
        0 <= i < lp.dev_dependencies@.len() && !has_name(
            rp.dev_dependencies@,
            (#[trigger] lp.dev_dependencies@[i]).name@,
        )
    ||| exists|j: int|
        0 <= j < rp.dev_dependencies@.len() && !has_name(
            lp.dev_dependencies@,
            (#[trigger] rp.dev_dependencies@[j]).name@,
        )
}

/// Both edges resolved, both missing, or both truncated.
pub open spec fn entries_same_shape(le: PackageEntry, re_: PackageEntry) -> bool {
    ||| (le is Resolved && re_ is Resolved)
    ||| (le is Missing && re_ is Missing)
    ||| (le is Truncated && re_ is Truncated)
}

/// The memo holds an entry (settled or not) for the pair of these keys.
pub open spec fn memo_entry_for(
    diffed: Seq<(ChangedPackageKey, Option<DiffedPackage>)>,
    k1: PackageKey,
    k2: PackageKey,
) -> bool {
    exists|w: int|
        0 <= w < diffed.len() && key_eq_spec((#[trigger] diffed[w]).0.left, k1) && key_eq_spec(
            diffed[w].0.right,
            k2,
        )
}

/// Once the memo holds the pair, growing it never changes whether the
/// pair is recorded as changed: the pair's entry is unique and later
/// frames only append other pairs.
proof fn lemma_memo_some_stable(
    pre: Seq<(ChangedPackageKey, Option<DiffedPackage>)>,
    post: Seq<(ChangedPackageKey, Option<DiffedPackage>)>,
    k1: PackageKey,
    k2: PackageKey,
)
    requires
        pre.len() <= post.len(),
        forall|t: int| 0 <= t < pre.len() ==> post[t] == pre[t],
        memo_keys_distinct(post),
        memo_entry_for(pre, k1, k2),
    ensures
        memo_some_for(post, k1, k2) == memo_some_for(pre, k1, k2),
        memo_entry_for(post, k1, k2),
{
    let e = choose|e: int|
        0 <= e < pre.len() && key_eq_spec((#[trigger] pre[e]).0.left, k1) && key_eq_spec(
            pre[e].0.right,
            k2,
        );
    assert(post[e] == pre[e]);
    if memo_some_for(pre, k1, k2) {
        let w = choose|w: int|
            0 <= w < pre.len() && key_eq_spec((#[trigger] pre[w]).0.left, k1) && key_eq_spec(
                pre[w].0.right,
                k2,
            ) && pre[w].1 is Some;
        assert(post[w] == pre[w]);
        assert(memo_some_for(post, k1, k2));
    } else {
        if memo_some_for(post, k1, k2) {
            let w = choose|w: int|
                0 <= w < post.len() && key_eq_spec(
                    (#[trigger] post[w]).0.left,
                    k1,
                ) && key_eq_spec(post[w].0.right, k2) && post[w].1 is Some;
            if w < pre.len() {
                assert(false);
            } else {
                if w != e {
                    lemma_keq_sym(post[e].0.left, k1);
                    lemma_keq_sym(post[e].0.right, k2);
                    lemma_keq_trans(post[w].0.left, k1, post[e].0.left);
                    lemma_keq_trans(post[w].0.right, k2, post[e].0.right);
                    assert(ckey_eq(post[w].0, post[e].0));
                    if e < w {
                        assert(!ckey_eq(post[e].0, post[w].0));
                        lemma_ckey_sym(post[w].0, post[e].0);
                    }
                    assert(false);
                }
                assert(false);
            }
        }
    }
}

/// The memo holds a changed (non-`None`) node for the pair of these keys.
pub open spec fn memo_some_for(
    diffed: Seq<(ChangedPackageKey, Option<DiffedPackage>)>,
    k1: PackageKey,
    k2: PackageKey,
) -> bool {
    exists|w: int|
        0 <= w < diffed.len() && key_eq_spec((#[trigger] diffed[w]).0.left, k1) && key_eq_spec(
            diffed[w].0.right,
            k2,
        ) && diffed[w].1 is Some
}

/// The aligned inner entry of one shared edge: matching holes align to
/// themselves, mismatched shapes to the mismatch marker, and a resolved
/// pair to its paired key, which the memo records as changed.
pub open spec fn entry_aligned(
    ce: ChangedPackageEntry,
    le: PackageEntry,
    re_: PackageEntry,
    diffed: Seq<(ChangedPackageKey, Option<DiffedPackage>)>,
) -> bool {
    &&& (le is Missing && re_ is Missing ==> ce is Missing)
    &&& (le is Truncated && re_ is Truncated ==> ce is Truncated)
    &&& (le matches PackageEntry::Resolved(k1) ==> (re_ matches PackageEntry::Resolved(k2)
        ==> (ce matches ChangedPackageEntry::Resolved(ck) && key_eq_spec(ck.left, k1)
        && key_eq_spec(ck.right, k2) && memo_some_for(diffed, k1, k2))))
    &&& (!entries_same_shape(le, re_) ==> ce is MismatchedResolution)
}

/// Every `Changed` record pairs one left entry with the right entry of the
/// same name, carrying both raw requirements verbatim and the aligned
/// inner entry.
pub open spec fn changed_aligned(
    out: Seq<DiffedDependency>,
    lds: Seq<Dependency>,
    rds: Seq<Dependency>,
    diffed: Seq<(ChangedPackageKey, Option<DiffedPackage>)>,
) -> bool {
    forall|k: int|
        0 <= k < out.len() ==> ((#[trigger] out[k]).package
            matches DiffedPackageAndVersionReq::Changed {
            package,
            version_req_left,
            version_req_right,
        } ==> exists|i: int, ri: int|
            0 <= i < lds.len() && 0 <= ri < rds.len() && (#[trigger] lds[i]).name@ == out[
                k
            ].name_left@ && (#[trigger] rds[ri]).name@ == out[k].name_left@ && out[
                k
            ].name_right@ == out[k].name_left@ && req_view(version_req_left) == req_view(
                lds[i].version_req,
            ) && req_view(version_req_right) == req_view(rds[ri].version_req)
                && entry_aligned(package, lds[i].package, rds[ri].package, diffed))
}

/// Alignment facts survive growing the memo: the changed verdicts they
/// cite are already settled entries.
proof fn lemma_changed_aligned_grow(
    out: Seq<DiffedDependency>,
    lds: Seq<Dependency>,
    rds: Seq<Dependency>,
    pre_m: Seq<(ChangedPackageKey, Option<DiffedPackage>)>,
    post_m: Seq<(ChangedPackageKey, Option<DiffedPackage>)>,
)
    requires
        pre_m.len() <= post_m.len(),
        forall|t: int|
            0 <= t < pre_m.len() ==> (#[trigger] post_m[t]).0 == pre_m[t].0 && (pre_m[t].1
                is Some ==> post_m[t].1 == pre_m[t].1),
        changed_aligned(out, lds, rds, pre_m),
    ensures
        changed_aligned(out, lds, rds, post_m),
{
    assert forall|k: int|
        0 <= k < out.len() implies ((#[trigger] out[k]).package
        matches DiffedPackageAndVersionReq::Changed {
        package,
        version_req_left,
        version_req_right,
    } ==> exists|i2: int, ri2: int|
        0 <= i2 < lds.len() && 0 <= ri2 < rds.len() && (#[trigger] lds[i2]).name@ == out[
            k
        ].name_left@ && (#[trigger] rds[ri2]).name@ == out[k].name_left@ && out[k].name_right@
            == out[k].name_left@ && req_view(version_req_left) == req_view(
            lds[i2].version_req,
        ) && req_view(version_req_right) == req_view(rds[ri2].version_req) && entry_aligned(
            package,
            lds[i2].package,
            rds[ri2].package,
            post_m,
        )) by {
        match out[k].package {
            DiffedPackageAndVersionReq::Changed { package, version_req_left, version_req_right } => {
                let (i2, ri2) = choose|i2: int, ri2: int|
                    0 <= i2 < lds.len() && 0 <= ri2 < rds.len() && (#[trigger] lds[i2]).name@
                        == out[k].name_left@ && (#[trigger] rds[ri2]).name@ == out[
                        k
                    ].name_left@ && out[k].name_right@ == out[k].name_left@ && req_view(
                        version_req_left,
                    ) == req_view(lds[i2].version_req) && req_view(version_req_right)
                        == req_view(rds[ri2].version_req) && entry_aligned(
                        package,
                        lds[i2].package,
                        rds[ri2].package,
                        pre_m,
                    );
                assert(entry_aligned(package, lds[i2].package, rds[ri2].package, post_m)) by {
                    match lds[i2].package {
                        PackageEntry::Resolved(k1) => {
                            match rds[ri2].package {
                                PackageEntry::Resolved(k2) => {
                                    let w = choose|w: int|
                                        0 <= w < pre_m.len() && key_eq_spec(
                                            (#[trigger] pre_m[w]).0.left,
                                            k1,
                                        ) && key_eq_spec(pre_m[w].0.right, k2) && pre_m[w].1
                                            is Some;
                                    assert(post_m[w].0 == pre_m[w].0 && post_m[w].1 == pre_m[
                                        w
                                    ].1);
                                    assert(memo_some_for(post_m, k1, k2));
                                },
                                _ => {},
                            }
                        },
                        _ => {},
                    }
                }
            },
            _ => {},
        }
    }
}

/// Entry names are pairwise distinct: one record per name.
pub open spec fn out_names_distinct(out: Seq<DiffedDependency>) -> bool {
    forall|i: int, j: int|
        0 <= i < j < out.len() ==> (#[trigger] out[i]).name_left@ != (#[trigger] out[
            j
        ]).name_left@
}

/// Some `Changed` record bears this name.
pub open spec fn out_has_changed(out: Seq<DiffedDependency>, n: Seq<char>) -> bool {
    exists|k: int|
        0 <= k < out.len() && (#[trigger] out[k]).name_left@ == n && out[k].package is Changed
}

proof fn lemma_keq_sym(a: PackageKey, b: PackageKey)
    requires
        key_eq_spec(a, b),
    ensures
        key_eq_spec(b, a),
{
}

proof fn lemma_keq_trans(a: PackageKey, b: PackageKey, c: PackageKey)
    requires
        key_eq_spec(a, b),
        key_eq_spec(b, c),
    ensures
        key_eq_spec(a, c),
{
}

/// Every diff entry is classified by where its name lives: removals are
/// left-only names, additions right-only, changed entries shared.
pub open spec fn out_classified(
    out: Seq<DiffedDependency>,
    lds: Seq<Dependency>,
    rds: Seq<Dependency>,
) -> bool {
    forall|k: int|
        0 <= k < out.len() ==> match (#[trigger] out[k]).package {
            DiffedPackageAndVersionReq::Removed { .. } => has_name(lds, out[k].name_left@)
                && !has_name(rds, out[k].name_left@),
            DiffedPackageAndVersionReq::Added { .. } => has_name(rds, out[k].name_left@)
                && !has_name(lds, out[k].name_left@),
            DiffedPackageAndVersionReq::Changed { .. } => has_name(lds, out[k].name_left@)
                && has_name(rds, out[k].name_left@),
        }
}

/// Names in one dependency list are distinct.
pub open spec fn dep_names_distinct(ds: Seq<Dependency>) -> bool {
    forall|i: int, j: int|
        0 <= i < j < ds.len() ==> (#[trigger] ds[i]).name@ != (#[trigger] ds[j]).name@
}

/// No entry in the list is a hole.
pub open spec fn deps_not_holes(ds: Seq<Dependency>) -> bool {
    forall|i: int| 0 <= i < ds.len() ==> entry_not_hole((#[trigger] ds[i]).package)
}

/// The recursion budget for one diff: enough to give every pair of nodes
/// its own level.
fn diff_fuel(left: &DependencyResolver, right: &DependencyResolver) -> (r: usize)
    ensures
        r >= 1,
{
    let a = left.packages.len();
    let b = right.packages.len();
    let prod: usize = if a == 0 || b == 0 {
        1
    } else if a <= usize::MAX / b {
        proof {
            vstd::arithmetic::div_mod::lemma_fundamental_div_mod(usize::MAX as int, b as int);
            vstd::arithmetic::mul::lemma_mul_inequality(
                a as int,
                usize::MAX as int / b as int,
                b as int,
            );
        }
        a * b
    } else {
        usize::MAX
    };
    if prod < usize::MAX {
        prod + 1
    } else {
        usize::MAX
    }
}

/// The first dependency named `name`, if any.
#[verifier::loop_isolation(false)]
fn find_dep(ds: &Vec<Dependency>, name: &str) -> (r: Option<usize>)
    ensures
        match r {
            Some(i) => i < ds@.len() && ds@[i as int].name@ == name@ && (forall|j: int|
                0 <= j < i ==> (#[trigger] ds@[j]).name@ != name@),
            None => forall|j: int| 0 <= j < ds@.len() ==> (#[trigger] ds@[j]).name@ != name@,
        },
{
    let mut i: usize = 0;
    while i < ds.len()
        invariant
            i <= ds@.len(),
            forall|j: int| 0 <= j < i ==> (#[trigger] ds@[j]).name@ != name@,
        decreases ds@.len() - i,
    {
        if str_eq_str(ds[i].name.as_str(), name) {
            return Some(i);
        }
        i = i + 1;
    }
    None
}

/// Appending a pair the memo does not hold keeps its pairs distinct.
proof fn lemma_push_fresh_distinct(
    pre: Seq<(ChangedPackageKey, Option<DiffedPackage>)>,
    post: Seq<(ChangedPackageKey, Option<DiffedPackage>)>,
    ck: ChangedPackageKey,
)
    requires
        !cache_has(pre, ck),
        post.len() == pre.len() + 1,
        forall|k: int| 0 <= k < pre.len() ==> post[k] == pre[k],
        ckey_eq(post[post.len() - 1].0, ck),
        ckey_eq(ck, post[post.len() - 1].0),
    ensures
        memo_keys_distinct(pre) ==> memo_keys_distinct(post),
{
    if memo_keys_distinct(pre) {
        assert forall|a: int, b: int|
            0 <= a < b < post.len() implies !ckey_eq(
            (#[trigger] post[a]).0,
            (#[trigger] post[b]).0,
        ) by {
            if b == post.len() - 1 {
                if ckey_eq(post[a].0, post[b].0) {
                    assert(ckey_eq(post[a].0, ck)) by {
                        lemma_ckey_trans(post[a].0, post[b].0, ck);
                    }
                    assert(cache_has(pre, ck));
                }
            }
        }
    }
}

/// Two pairs equal to the same pair are equal to each other.
proof fn lemma_ckey_trans_back(a: ChangedPackageKey, b: ChangedPackageKey, c: ChangedPackageKey)
    requires
        ckey_eq(a, c),
        ckey_eq(b, c),
    ensures
        ckey_eq(a, b),
{
}

/// Pair equality chains through a middle pair.
proof fn lemma_ckey_trans(a: ChangedPackageKey, m: ChangedPackageKey, c: ChangedPackageKey)
    requires
        ckey_eq(a, m),
        ckey_eq(m, c),
    ensures
        ckey_eq(a, c),
{
}

/// The memo never holds two entries for equal pairs, so two entries equal
/// to the same pair are the same entry.
proof fn lemma_unique_pair(d: Differ, a: int, b: int)
    requires
        0 <= a < d.diffed@.len(),
        0 <= b < d.diffed@.len(),
        memo_keys_distinct(d.diffed@),
        ckey_eq(d.diffed@[a].0, d.diffed@[b].0),
    ensures
        a == b,
{
    if a < b {
        assert(!ckey_eq(d.diffed@[a].0, d.diffed@[b].0));
    } else if b < a {
        assert(!ckey_eq(d.diffed@[b].0, d.diffed@[a].0));
        lemma_ckey_sym(d.diffed@[a].0, d.diffed@[b].0);
    }
}

/// Pair equality is symmetric.
proof fn lemma_ckey_sym(a: ChangedPackageKey, b: ChangedPackageKey)
    requires
        ckey_eq(a, b),
    ensures
        ckey_eq(b, a),
{
}

/// No two memo entries bear equal pairs.
pub open spec fn memo_keys_distinct(diffed: Seq<(ChangedPackageKey, Option<DiffedPackage>)>) -> bool {
    forall|i: int, j: int|
        0 <= i < j < diffed.len() ==> !ckey_eq(
            (#[trigger] diffed[i]).0,
            (#[trigger] diffed[j]).0,
        )
}

/// A memo key equal to the root pair names the two roots.
proof fn lemma_key_pair_trans(
    a: ChangedPackageKey,
    b: ChangedPackageKey,
    al: PackageKey,
    ar: PackageKey,
    lk: PackageKey,
    rk: PackageKey,
)
    requires
        ckey_eq(a, b),
        key_eq_spec(b.left, al),
        key_eq_spec(b.right, ar),
        key_eq_spec(al, lk),
        key_eq_spec(ar, rk),
    ensures
        key_eq_spec(a.left, lk),
        key_eq_spec(a.right, rk),
{
}

/// Two paired keys equal to the same diagonal pair are diagonal.
proof fn lemma_diag_key(a: ChangedPackageKey, b: ChangedPackageKey, k: PackageKey)
    requires
        ckey_eq(a, b),
        key_eq_spec(b.left, k),
        key_eq_spec(b.right, k),
    ensures
        key_eq_spec(a.left, a.right),
{
}

} // verus!
