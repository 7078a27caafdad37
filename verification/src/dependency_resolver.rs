//! The memoized recursive resolver: walks a manifest's dependency maps
//! through installation scopes and produces the shared, possibly cyclic
//! resolved graph, one node per package key. Cycles are cut by the
//! `visiting` stack and depth by the `current_depth` counter.

use vstd::prelude::*;

use crate::error::Error;
use crate::extended_version_req::{req_view, ExtendedVersionReq};
use crate::node_modules::{
    arena_extends, arena_wf, dir_scope_of, lemma_dir_scope_stable, lemma_scope_lookup_stable,
    lemma_scope_lookup_wf, scope_lookup, ScopeArena,
};
use crate::package::{
    is_ws_sentinel, key_eq_spec, opt_str_eq, Dependency, Package, PackageEntry, PackageKey,
};
use crate::package_data::{manifest_wf, PackageJsonData};
use crate::snapshot::{snapshot_wf, Snapshot};
use crate::strutil::path_join;

verus! {

/// The resolver: its root scope, depth cap, node arena and bookkeeping.
pub struct DependencyResolver {
    /// The scope dependency names of the root are looked up in.
    pub root_node_modules: usize,
    /// No dependencies are resolved more than this many levels deep.
    pub max_depth: usize,
    /// One resolved node per package key, in insertion order.
    pub packages: Vec<(PackageKey, Package)>,
    /// The keys whose resolution is in progress, innermost last.
    pub visiting: Vec<PackageKey>,
    /// The recursion depth of the resolution in progress.
    pub current_depth: usize,
}

/// The key under which a manifest resolves.
pub open spec fn data_key(m: PackageJsonData) -> PackageKey {
    PackageKey { name: m.name, version: m.version, scope_id: m.parent_id }
}

/// Some node in the arena bears this key.
pub open spec fn contains_key(r: DependencyResolver, k: PackageKey) -> bool {
    exists|i: int| 0 <= i < r.packages@.len() && key_eq_spec((#[trigger] r.packages@[i]).0, k)
}

/// This key's resolution is in progress.
pub open spec fn is_visiting(r: DependencyResolver, k: PackageKey) -> bool {
    exists|i: int| 0 <= i < r.visiting@.len() && key_eq_spec(#[trigger] r.visiting@[i], k)
}

/// A dependency entry refers only to a materialized node, a node on the
/// visiting stack, or the workspace sentinel.
pub open spec fn entry_ok(r: DependencyResolver, e: PackageEntry) -> bool {
    match e {
        PackageEntry::Resolved(k) => contains_key(r, k) || is_visiting(r, k) || is_ws_sentinel(
            k,
        ),
        _ => true,
    }
}

/// One edge list is sound: entries refer into the resolver, and names are
/// distinct.
pub open spec fn edges_ok(r: DependencyResolver, ds: Seq<Dependency>) -> bool {
    &&& forall|i: int| 0 <= i < ds.len() ==> entry_ok(r, (#[trigger] ds[i]).package)
    &&& forall|i: int, j: int|
        0 <= i < j < ds.len() ==> (#[trigger] ds[i]).name@ != (#[trigger] ds[j]).name@
}

/// Any edge truncated?
pub open spec fn has_truncated(ds: Seq<Dependency>) -> bool {
    exists|i: int| 0 <= i < ds.len() && (#[trigger] ds[i]).package is Truncated
}

/// A sound node: its edges refer into the resolver, it was created within
/// the depth cap, and only a node created exactly at the cap carries a
/// truncated edge.
pub open spec fn node_ok(r: DependencyResolver, p: Package) -> bool {
    &&& edges_ok(r, p.dependencies@)
    &&& edges_ok(r, p.dev_dependencies@)
    &&& 0 <= p.depth@ <= r.max_depth
    &&& (has_truncated(p.dependencies@) || has_truncated(p.dev_dependencies@)) ==> p.depth@
        == r.max_depth
}

/// The resolver's invariant: keys are distinct, every node is sound, no
/// key is both materialized and in progress, and the depth counter cannot
/// overflow.
pub open spec fn resolver_wf(r: DependencyResolver) -> bool {
    &&& r.max_depth < usize::MAX
    &&& forall|i: int, j: int|
        0 <= i < j < r.packages@.len() ==> !key_eq_spec(
            (#[trigger] r.packages@[i]).0,
            (#[trigger] r.packages@[j]).0,
        )
    &&& forall|i: int| 0 <= i < r.packages@.len() ==> node_ok(r, (#[trigger] r.packages@[i]).1)
    &&& forall|i: int|
        0 <= i < r.packages@.len() ==> !is_visiting(r, (#[trigger] r.packages@[i]).0)
}

/// A resolver at rest: nothing in progress.
pub open spec fn at_rest(r: DependencyResolver) -> bool {
    r.visiting@.len() == 0 && r.current_depth == 0
}

/// The scope a package's dependencies are looked up in: the scope built
/// from its own installed-packages directory when the snapshot has one,
/// else the enclosing scope.
pub open spec fn sub_scope_of(
    scopes: ScopeArena,
    snap: Snapshot,
    install_path: Seq<char>,
    enclosing: int,
) -> int {
    if crate::snapshot::dir_exists(snap, install_path + seq!['/'] + "node_modules"@) {
        match dir_scope_of(scopes, install_path + seq!['/'] + "node_modules"@) {
            Some(s) => s,
            None => enclosing,
        }
    } else {
        enclosing
    }
}

/// Each edge follows the scope lookup of its name: an unresolvable name is
/// missing; a `workspace:` requirement short-circuits to the sentinel; any
/// other resolvable name yields the found manifest's own key, or is cut at
/// the depth cap.
pub open spec fn edges_follow_scope(
    ds: Seq<Dependency>,
    ms: Seq<(String, ExtendedVersionReq)>,
    scopes: ScopeArena,
    sub: int,
) -> bool {
    ds.len() == ms.len() && forall|i: int|
        0 <= i < ms.len() ==> match scope_lookup(scopes, sub, (#[trigger] ms[i]).0@) {
            Some(m) => {
                if ms[i].1 is Workspace {
                    ds[i].package matches PackageEntry::Resolved(k) && is_ws_sentinel(k)
                        && k.name@ == ms[i].0@
                } else {
                    (ds[i].package matches PackageEntry::Resolved(k) && key_eq_spec(
                        k,
                        data_key(m),
                    )) || ds[i].package is Truncated
                }
            },
            None => ds[i].package is Missing,
        }
}

/// Resolved edges agree with a manifest's declarations: same names and
/// requirements in order, and a `workspace:` requirement resolves at most
/// to the sentinel.
pub open spec fn deps_match(ds: Seq<Dependency>, ms: Seq<(String, ExtendedVersionReq)>) -> bool {
    &&& ds.len() == ms.len()
    &&& forall|i: int|
        0 <= i < ms.len() ==> {
            &&& (#[trigger] ds[i]).name@ == ms[i].0@
            &&& req_view(ds[i].version_req) == req_view(ms[i].1)
            &&& (ms[i].1 is Workspace ==> (ds[i].package matches PackageEntry::Resolved(k)
                ==> is_ws_sentinel(k) && k.name@ == ms[i].0@))
        }
}

impl DependencyResolver {
    /// A fresh resolver over the given root scope.
    pub fn new(root_node_modules: usize, max_depth: usize) -> (r: DependencyResolver)
        ensures
            resolver_wf(r),
            at_rest(r),
            r.root_node_modules == root_node_modules,
            max_depth < usize::MAX ==> r.max_depth == max_depth,
            max_depth == usize::MAX ==> r.max_depth == usize::MAX - 1,
            r.packages@.len() == 0,
    {
        let capped = if max_depth == usize::MAX {
            usize::MAX - 1
        } else {
            max_depth
        };
        DependencyResolver {
            root_node_modules,
            max_depth: capped,
            packages: Vec::new(),
            visiting: Vec::new(),
            current_depth: 0,
        }
    }

    /// The index of the node bearing `key`, if one is materialized.
    #[verifier::loop_isolation(false)]
    pub fn get_package_index(&self, key: &PackageKey) -> (r: Option<usize>)
        ensures
            match r {
                Some(i) => i < self.packages@.len() && key_eq_spec(
                    self.packages@[i as int].0,
                    *key,
                ),
                None => !contains_key(*self, *key),
            },
    {
        let mut i: usize = 0;
        while i < self.packages.len()
            invariant
                i <= self.packages@.len(),
                forall|j: int|
                    0 <= j < i ==> !key_eq_spec((#[trigger] self.packages@[j]).0, *key),
            decreases self.packages@.len() - i,
        {
            if self.packages[i].0.key_eq(key) {
                return Some(i);
            }
            i = i + 1;
        }
        None
    }

    /// The node bearing `key`, if one is materialized.
    pub fn get_package<'a>(&'a self, key: &PackageKey) -> (r: Option<&'a Package>)
        ensures
            match r {
                Some(p) => exists|i: int|
                    0 <= i < self.packages@.len() && key_eq_spec(
                        (#[trigger] self.packages@[i]).0,
                        *key,
                    ) && self.packages@[i].1 == *p,
                None => !contains_key(*self, *key),
            },
    {
        match self.get_package_index(key) {
            Some(i) => {
                proof {
                    assert(key_eq_spec(self.packages@[i as int].0, *key) && self.packages@[
                        i as int
                    ].1 == self.packages@[i as int].1);
                }
                Some(&self.packages[i].1)
            },
            None => None,
        }
    }

    /// Is this key on the visiting stack?
    #[verifier::loop_isolation(false)]
    fn visiting_has(&self, key: &PackageKey) -> (r: bool)
        ensures
            r == is_visiting(*self, *key),
    {
        let mut i: usize = 0;
        while i < self.visiting.len()
            invariant
                i <= self.visiting@.len(),
                forall|j: int| 0 <= j < i ==> !key_eq_spec(#[trigger] self.visiting@[j], *key),
            decreases self.visiting@.len() - i,
        {
            if self.visiting[i].key_eq(key) {
                proof {
                    assert(key_eq_spec(self.visiting@[i as int], *key));
                }
                return true;
            }
            i = i + 1;
        }
        false
    }

    /// Resolves one manifest to an entry. A key already materialized or in
    /// progress resolves to itself at once; past the depth cap the edge is
    /// truncated; otherwise the manifest's dependencies are resolved
    /// through its own nested scope (when it has one) and the node is
    /// materialized.
    #[verifier::loop_isolation(false)]
    pub fn resolve_package(
        &mut self,
        snap: &Snapshot,
        scopes: &mut ScopeArena,
        package_data: &PackageJsonData,
        node_modules: usize,
    ) -> (r: PackageEntry)
        requires
            snapshot_wf(*snap),
            arena_wf(*old(scopes)),
            node_modules < old(scopes).scopes@.len(),
            manifest_wf(*package_data),
            resolver_wf(*old(self)),
            old(self).current_depth <= old(self).max_depth + 1,
        ensures
            arena_extends(*final(scopes), *old(scopes)),
            arena_wf(*final(scopes)),
            resolver_wf(*final(self)),
            final(self).max_depth == old(self).max_depth,
            final(self).root_node_modules == old(self).root_node_modules,
            final(self).current_depth == old(self).current_depth,
            final(self).visiting@ == old(self).visiting@,
            final(self).packages@.len() >= old(self).packages@.len(),
            final(self).packages@.subrange(0, old(self).packages@.len() as int) == old(
                self,
            ).packages@,
            !(r is Missing),
            (r is Truncated) <==> (old(self).current_depth > old(self).max_depth
                && !contains_key(*old(self), data_key(*package_data)) && !is_visiting(
                *old(self),
                data_key(*package_data),
            )),
            (contains_key(*old(self), data_key(*package_data)) || is_visiting(
                *old(self),
                data_key(*package_data),
            ) || old(self).current_depth > old(self).max_depth) ==> (final(self).packages@
                == old(self).packages@ && final(scopes).scopes@ == old(scopes).scopes@),
            r matches PackageEntry::Resolved(k) ==> key_eq_spec(k, data_key(*package_data)) && (
            contains_key(*final(self), k) || is_visiting(*final(self), k)),
            (r matches PackageEntry::Resolved(k) && !contains_key(
                *old(self),
                data_key(*package_data),
            ) && !is_visiting(*old(self), data_key(*package_data))) ==> {
                &&& final(self).packages@.len() > old(self).packages@.len()
                &&& key_eq_spec(final(self).packages@.last().0, data_key(*package_data))
                &&& final(self).packages@.last().1.name@ == package_data.name@
                &&& opt_str_eq(final(self).packages@.last().1.version, package_data.version)
                &&& deps_match(
                    final(self).packages@.last().1.dependencies@,
                    package_data.dependencies@,
                )
                &&& deps_match(
                    final(self).packages@.last().1.dev_dependencies@,
                    package_data.dev_dependencies@,
                )
                &&& final(self).packages@.last().1.depth@ == old(self).current_depth
                &&& edges_follow_scope(
                    final(self).packages@.last().1.dependencies@,
                    package_data.dependencies@,
                    *final(scopes),
                    sub_scope_of(
                        *final(scopes),
                        *snap,
                        package_data.install_path@,
                        node_modules as int,
                    ),
                )
                &&& edges_follow_scope(
                    final(self).packages@.last().1.dev_dependencies@,
                    package_data.dev_dependencies@,
                    *final(scopes),
                    sub_scope_of(
                        *final(scopes),
                        *snap,
                        package_data.install_path@,
                        node_modules as int,
                    ),
                )
            },
        decreases self.max_depth + 1 - self.current_depth, 0int,
    {
        let key = PackageKey::from_data(package_data);
        let ghost pre = *self;
        if let Some(_) = self.get_package_index(&key) {
            proof {
                assert(contains_key(*self, key));
                assert(contains_key(*self, data_key(*package_data)));
            }
            return PackageEntry::Resolved(key);
        }
        if self.visiting_has(&key) {
            proof {
                assert(is_visiting(*self, data_key(*package_data)));
            }
            return PackageEntry::Resolved(key);
        }
        proof {
            assert(!contains_key(*self, data_key(*package_data)));
            assert(!is_visiting(*self, data_key(*package_data)));
        }
        if self.current_depth > self.max_depth {
            return PackageEntry::Truncated;
        }
        let ghost entry_depth = self.current_depth as int;

        self.visiting.push(key.duplicate());
        self.current_depth = self.current_depth + 1;
        proof {
            lemma_wf_after_push(pre, *self, key);
        }

        let nm_path = path_join(package_data.install_path.as_str(), "node_modules");
        let ghost nm_seq = package_data.install_path@ + seq!['/'] + "node_modules"@;
        let ghost had_dir = crate::snapshot::dir_exists(*snap, nm_seq);
        let sub_scope: usize = match snap.find_dir(nm_path.as_str()) {
            Some(_) => scopes.create_child(snap, node_modules, package_data.install_path.as_str()),
            None => node_modules,
        };
        let ghost scopes_cc = *scopes;
        proof {
            if had_dir {
                assert(Some(sub_scope as int) == dir_scope_of(scopes_cc, nm_seq));
            }
        }

        let ghost mid0 = *self;
        let resolved_dependencies = self.resolve_deps(
            snap,
            scopes,
            &package_data.dependencies,
            sub_scope,
        );
        let ghost mid1 = *self;
        let ghost scopes_mid1 = *scopes;
        let resolved_dev_dependencies = self.resolve_deps(
            snap,
            scopes,
            &package_data.dev_dependencies,
            sub_scope,
        );
        let ghost mid2 = *self;

        self.current_depth = self.current_depth - 1;
        let ghost before_pop = *self;
        self.visiting.pop();
        proof {
            assert(self.visiting@ =~= pre.visiting@);
        }
        let node = Package {
            name: package_data.name.clone(),
            version: match &package_data.version {
                Some(v) => Some(v.clone()),
                None => None,
            },
            dependencies: resolved_dependencies,
            dev_dependencies: resolved_dev_dependencies,
            depth: Ghost(entry_depth),
        };
        let key2 = key.duplicate();
        self.packages.push((key2, node));
        proof {
            let post = *self;
            // the first edge list stays sound across the second resolution
            lemma_entries_grow(mid1, before_pop, post.packages@.last().1.dependencies@);
            // the key was fresh throughout: it sat on the visiting stack
            assert(!contains_key(before_pop, key2)) by {
                if contains_key(before_pop, key2) {
                    let i = choose|i: int|
                        0 <= i < before_pop.packages@.len() && key_eq_spec(
                            (#[trigger] before_pop.packages@[i]).0,
                            key2,
                        );
                    assert(key_eq_spec(before_pop.visiting@.last(), before_pop.packages@[i].0))
                        by {
                        lemma_key_eq_trans_via(
                            before_pop.packages@[i].0,
                            key2,
                            before_pop.visiting@.last(),
                        );
                        lemma_key_eq_sym(before_pop.packages@[i].0, before_pop.visiting@.last());
                    }
                    assert(is_visiting(before_pop, before_pop.packages@[i].0));
                }
            }
            // only a node at the cap carries truncated edges
            assert((has_truncated(post.packages@.last().1.dependencies@) || has_truncated(
                post.packages@.last().1.dev_dependencies@,
            )) ==> entry_depth == self.max_depth as int) by {
                if has_truncated(post.packages@.last().1.dependencies@) {
                    let i = choose|i: int|
                        0 <= i < post.packages@.last().1.dependencies@.len() && (
                        #[trigger] post.packages@.last().1.dependencies@[i]).package
                            is Truncated;
                }
                if has_truncated(post.packages@.last().1.dev_dependencies@) {
                    let i = choose|i: int|
                        0 <= i < post.packages@.last().1.dev_dependencies@.len() && (
                        #[trigger] post.packages@.last().1.dev_dependencies@[i]).package
                            is Truncated;
                }
            }
            // the key appears nowhere below the top of the stack
            assert forall|w: int|
                0 <= w < before_pop.visiting@.len() - 1 implies !key_eq_spec(
                #[trigger] before_pop.visiting@[w],
                key2,
            ) by {
                assert(before_pop.visiting@[w] == pre.visiting@[w]);
                if key_eq_spec(pre.visiting@[w], key2) {
                    lemma_key_eq_trans_via(key, key2, key2);
                    assert(key_eq_spec(pre.visiting@[w], key));
                    assert(is_visiting(pre, key));
                }
            }
            lemma_wf_after_insert(before_pop, post, key2);
            assert(self.packages@.subrange(0, pre.packages@.len() as int) =~= pre.packages@);
            // the nested scope chosen at entry is still the one the final
            // arena names, and early lookups still answer the same
            if had_dir {
                lemma_dir_scope_stable(scopes_cc, *scopes, nm_seq);
                assert(sub_scope as int == sub_scope_of(
                    *scopes,
                    *snap,
                    package_data.install_path@,
                    node_modules as int,
                ));
            } else {
                assert(sub_scope as int == sub_scope_of(
                    *scopes,
                    *snap,
                    package_data.install_path@,
                    node_modules as int,
                ));
            }
            assert forall|i: int|
                0 <= i < package_data.dependencies@.len() implies scope_lookup(
                *scopes,
                sub_scope as int,
                (#[trigger] package_data.dependencies@[i]).0@,
            ) == scope_lookup(
                scopes_mid1,
                sub_scope as int,
                package_data.dependencies@[i].0@,
            ) by {
                lemma_scope_lookup_stable(
                    scopes_mid1,
                    *scopes,
                    sub_scope as int,
                    package_data.dependencies@[i].0@,
                );
            }
            assert(edges_follow_scope(
                post.packages@.last().1.dependencies@,
                package_data.dependencies@,
                *scopes,
                sub_scope as int,
            ));
            assert(edges_follow_scope(
                post.packages@.last().1.dev_dependencies@,
                package_data.dev_dependencies@,
                *scopes,
                sub_scope as int,
            ));
            assert(key_eq_spec(post.packages@.last().0, data_key(*package_data)));
            assert(contains_key(post, key)) by {
                assert(key_eq_spec(post.packages@[post.packages@.len() - 1].0, key));
            }
        }
                PackageEntry::Resolved(key)
    }

    /// Resolves one declared dependency map through the given scope:
    /// a name the scope resolves recurses (or, for a `workspace:`
    /// requirement, short-circuits to the sentinel); a name it does not is
    /// a missing entry.
    #[verifier::loop_isolation(false)]
    fn resolve_deps(
        &mut self,
        snap: &Snapshot,
        scopes: &mut ScopeArena,
        deps: &Vec<(String, ExtendedVersionReq)>,
        node_modules: usize,
    ) -> (r: Vec<Dependency>)
        requires
            snapshot_wf(*snap),
            arena_wf(*old(scopes)),
            node_modules < old(scopes).scopes@.len(),
            crate::package_data::dep_keys_distinct(deps@),
            resolver_wf(*old(self)),
            old(self).current_depth <= old(self).max_depth + 1,
        ensures
            arena_extends(*final(scopes), *old(scopes)),
            arena_wf(*final(scopes)),
            resolver_wf(*final(self)),
            final(self).max_depth == old(self).max_depth,
            final(self).root_node_modules == old(self).root_node_modules,
            final(self).current_depth == old(self).current_depth,
            final(self).visiting@ == old(self).visiting@,
            final(self).packages@.len() >= old(self).packages@.len(),
            final(self).packages@.subrange(0, old(self).packages@.len() as int) == old(
                self,
            ).packages@,
            deps_match(r@, deps@),
            edges_ok(*final(self), r@),
            forall|i: int|
                0 <= i < r@.len() ==> ((#[trigger] r@[i]).package is Truncated ==> old(
                    self,
                ).current_depth > old(self).max_depth),
            edges_follow_scope(r@, deps@, *final(scopes), node_modules as int),
        decreases self.max_depth + 1 - self.current_depth, 1int,
    {
        let mut out: Vec<Dependency> = Vec::new();
        let mut i: usize = 0;
        while i < deps.len()
            invariant
                i <= deps@.len(),
                out@.len() == i,
                arena_extends(*scopes, *old(scopes)),
                arena_wf(*scopes),
                resolver_wf(*self),
                self.max_depth == old(self).max_depth,
                self.root_node_modules == old(self).root_node_modules,
                self.current_depth == old(self).current_depth,
                self.visiting@ == old(self).visiting@,
                self.packages@.len() >= old(self).packages@.len(),
                self.packages@.subrange(0, old(self).packages@.len() as int) == old(
                    self,
                ).packages@,
                forall|j: int|
                    0 <= j < i ==> {
                        &&& (#[trigger] out@[j]).name@ == deps@[j].0@
                        &&& req_view(out@[j].version_req) == req_view(deps@[j].1)
                        &&& (deps@[j].1 is Workspace ==> (out@[j].package
                            matches PackageEntry::Resolved(k) ==> is_ws_sentinel(k) && k.name@
                            == deps@[j].0@))
                        &&& entry_ok(*self, out@[j].package)
                        &&& (out@[j].package is Truncated ==> old(self).current_depth > old(
                            self,
                        ).max_depth)
                        &&& match scope_lookup(*scopes, node_modules as int, deps@[j].0@) {
                            Some(m) => {
                                if deps@[j].1 is Workspace {
                                    out@[j].package matches PackageEntry::Resolved(k)
                                        && is_ws_sentinel(k) && k.name@ == deps@[j].0@
                                } else {
                                    (out@[j].package matches PackageEntry::Resolved(k)
                                        && key_eq_spec(k, data_key(m))) || out@[j].package
                                        is Truncated
                                }
                            },
                            None => out@[j].package is Missing,
                        }
                    },
            decreases deps@.len() - i,
        {
            let dep_name = deps[i].0.clone();
            let found: Option<PackageJsonData> = match scopes.get_package(
                node_modules,
                deps[i].0.as_str(),
            ) {
                Some(m) => {
                    proof {
                        lemma_scope_lookup_wf(*scopes, node_modules as int, deps@[i as int].0@);
                    }
                    Some(m.duplicate_core())
                },
                None => None,
            };
            let ghost scopes_before = *scopes;
            let ghost self_before = *self;
            let entry: PackageEntry = match found {
                Some(data) => {
                    if let ExtendedVersionReq::Workspace(_) = &deps[i].1 {
                        PackageEntry::Resolved(
                            PackageKey { name: deps[i].0.clone(), version: None, scope_id: 0 },
                        )
                    } else {
                        self.resolve_package(snap, scopes, &data, node_modules)
                    }
                },
                None => PackageEntry::Missing,
            };
            let req_copy = deps[i].1.duplicate();
            let ghost prev = out@;
            out.push(Dependency { name: dep_name, version_req: req_copy, package: entry });
            proof {
                assert(self.packages@.subrange(0, self_before.packages@.len() as int)
                    =~= self_before.packages@);
                lemma_entries_grow(self_before, *self, prev);
                assert forall|j: int| 0 <= j < prev.len() implies scope_lookup(
                    *scopes,
                    node_modules as int,
                    deps@[j].0@,
                ) == scope_lookup(scopes_before, node_modules as int, deps@[j].0@) by {
                    lemma_scope_lookup_stable(
                        scopes_before,
                        *scopes,
                        node_modules as int,
                        deps@[j].0@,
                    );
                }
                assert(forall|j: int| 0 <= j < prev.len() ==> out@[j] == prev[j]);
                lemma_scope_lookup_stable(
                    scopes_before,
                    *scopes,
                    node_modules as int,
                    deps@[i as int].0@,
                );
                assert(self.packages@.subrange(0, old(self).packages@.len() as int) =~= old(
                    self,
                ).packages@);
            }
            i = i + 1;
        }
        proof {
            assert(edges_ok(*self, out@)) by {
                assert(forall|a: int, b: int|
                    0 <= a < b < out@.len() ==> (#[trigger] out@[a]).name@ != (#[trigger] out@[
                        b
                    ]).name@);
            }
        }
        out
    }
}

impl DependencyResolver {
    /// Unwraps an entry that must name a materialized node; a missing or
    /// truncated root, or a dangling key, is a fatal error.
    pub fn unwrap_entry<'a>(&'a self, entry: &PackageEntry) -> (r: Result<&'a Package, Error>)
        ensures
            r matches Ok(p) ==> (*entry matches PackageEntry::Resolved(k) && exists|i: int|
                0 <= i < self.packages@.len() && key_eq_spec((#[trigger] self.packages@[i]).0, k)
                    && self.packages@[i].1 == *p),
            r matches Err(e) ==> e == Error::BadRootEntry,
            (*entry matches PackageEntry::Resolved(k) && contains_key(*self, k)) ==> r is Ok,
    {
        match entry {
            PackageEntry::Resolved(key) => match self.get_package(key) {
                Some(p) => Ok(p),
                None => Err(Error::BadRootEntry),
            },
            PackageEntry::Missing => Err(Error::BadRootEntry),
            PackageEntry::Truncated => Err(Error::BadRootEntry),
        }
    }

    /// Resolves a root manifest on a resolver at rest. The stack and the
    /// depth counter are empty again afterwards, and the root's node is
    /// materialized under its key.
    pub fn resolve_root_package(
        &mut self,
        snap: &Snapshot,
        scopes: &mut ScopeArena,
        package_data: &PackageJsonData,
    ) -> (r: Result<PackageKey, Error>)
        requires
            snapshot_wf(*snap),
            arena_wf(*old(scopes)),
            old(self).root_node_modules < old(scopes).scopes@.len(),
            manifest_wf(*package_data),
            resolver_wf(*old(self)),
            at_rest(*old(self)),
        ensures
            arena_extends(*final(scopes), *old(scopes)),
            arena_wf(*final(scopes)),
            resolver_wf(*final(self)),
            at_rest(*final(self)),
            final(self).max_depth == old(self).max_depth,
            final(self).root_node_modules == old(self).root_node_modules,
            final(self).packages@.len() >= old(self).packages@.len(),
            final(self).packages@.subrange(0, old(self).packages@.len() as int) == old(
                self,
            ).packages@,
            r matches Ok(k) ==> key_eq_spec(k, data_key(*package_data)) && contains_key(
                *final(self),
                k,
            ),
            r is Ok,
            contains_key(*old(self), data_key(*package_data)) ==> (final(self).packages@
                == old(self).packages@ && final(scopes).scopes@ == old(scopes).scopes@),
            !contains_key(*old(self), data_key(*package_data)) ==> {
                &&& final(self).packages@.len() > old(self).packages@.len()
                &&& key_eq_spec(final(self).packages@.last().0, data_key(*package_data))
                &&& final(self).packages@.last().1.name@ == package_data.name@
                &&& opt_str_eq(final(self).packages@.last().1.version, package_data.version)
                &&& deps_match(
                    final(self).packages@.last().1.dependencies@,
                    package_data.dependencies@,
                )
                &&& deps_match(
                    final(self).packages@.last().1.dev_dependencies@,
                    package_data.dev_dependencies@,
                )
                &&& edges_follow_scope(
                    final(self).packages@.last().1.dependencies@,
                    package_data.dependencies@,
                    *final(scopes),
                    sub_scope_of(
                        *final(scopes),
                        *snap,
                        package_data.install_path@,
                        old(self).root_node_modules as int,
                    ),
                )
                &&& edges_follow_scope(
                    final(self).packages@.last().1.dev_dependencies@,
                    package_data.dev_dependencies@,
                    *final(scopes),
                    sub_scope_of(
                        *final(scopes),
                        *snap,
                        package_data.install_path@,
                        old(self).root_node_modules as int,
                    ),
                )
            },
    {
        let root_scope = self.root_node_modules;
        let entry = self.resolve_package(snap, scopes, package_data, root_scope);
        match entry {
            PackageEntry::Resolved(key) => {
                proof {
                    if !contains_key(*self, key) {
                        assert(is_visiting(*self, key));
                        let w = choose|w: int|
                            0 <= w < self.visiting@.len() && key_eq_spec(
                                #[trigger] self.visiting@[w],
                                key,
                            );
                    }
                }
                Ok(key)
            },
            PackageEntry::Missing => Err(Error::BadRootEntry),
            PackageEntry::Truncated => Err(Error::BadRootEntry),
        }
    }
}

/// Node arenas only grow: what one resolution step materialized, later
/// steps keep, unchanged and at the same index.
pub open spec fn pkg_prefix_preserved(pre: DependencyResolver, post: DependencyResolver) -> bool {
    &&& post.packages@.len() >= pre.packages@.len()
    &&& post.packages@.subrange(0, pre.packages@.len() as int) == pre.packages@
}

/// A key once materialized stays materialized.
pub proof fn lemma_contains_key_preserved(
    pre: DependencyResolver,
    post: DependencyResolver,
    k: PackageKey,
)
    requires
        pkg_prefix_preserved(pre, post),
        contains_key(pre, k),
    ensures
        contains_key(post, k),
{
    let i = choose|i: int|
        0 <= i < pre.packages@.len() && key_eq_spec((#[trigger] pre.packages@[i]).0, k);
    assert(post.packages@.subrange(0, pre.packages@.len() as int)[i] == pre.packages@[i]);
    assert(key_eq_spec(post.packages@[i].0, k));
}

/// In a resolver at rest, the graph is closed: every resolved reference in
/// any node's edges leads to a materialized node, except the workspace
/// sentinel, and node keys are unique. (The sentinel deliberately has no
/// node: a `workspace:` reference renders as a leaf.)
pub proof fn lemma_graph_closed(r: DependencyResolver)
    requires
        resolver_wf(r),
        at_rest(r),
    ensures
        forall|i: int, j: int|
            0 <= i < r.packages@.len() && 0 <= j < (#[trigger] r.packages@[i]).1.dependencies@
                .len() ==> ((#[trigger] r.packages@[i].1.dependencies@[j]).package
                matches PackageEntry::Resolved(k) ==> is_ws_sentinel(k) || contains_key(r, k)),
        forall|i: int, j: int|
            0 <= i < r.packages@.len() && 0 <= j
                < (#[trigger] r.packages@[i]).1.dev_dependencies@.len() ==> ((
            #[trigger] r.packages@[i].1.dev_dependencies@[j]).package
                matches PackageEntry::Resolved(k) ==> is_ws_sentinel(k) || contains_key(r, k)),
        forall|i: int, j: int|
            0 <= i < j < r.packages@.len() ==> !key_eq_spec(
                (#[trigger] r.packages@[i]).0,
                (#[trigger] r.packages@[j]).0,
            ),
{
    assert forall|i: int, j: int|
        0 <= i < r.packages@.len() && 0 <= j < (#[trigger] r.packages@[i]).1.dependencies@
            .len() implies ((#[trigger] r.packages@[i].1.dependencies@[j]).package
        matches PackageEntry::Resolved(k) ==> is_ws_sentinel(k) || contains_key(r, k)) by {
        assert(node_ok(r, r.packages@[i].1));
        assert(entry_ok(r, r.packages@[i].1.dependencies@[j].package));
        match r.packages@[i].1.dependencies@[j].package {
            PackageEntry::Resolved(k) => {
                if is_visiting(r, k) {
                    let w = choose|w: int|
                        0 <= w < r.visiting@.len() && key_eq_spec(#[trigger] r.visiting@[w], k);
                }
            },
            _ => {},
        }
    }
    assert forall|i: int, j: int|
        0 <= i < r.packages@.len() && 0 <= j < (#[trigger] r.packages@[i]).1.dev_dependencies@
            .len() implies ((#[trigger] r.packages@[i].1.dev_dependencies@[j]).package
        matches PackageEntry::Resolved(k) ==> is_ws_sentinel(k) || contains_key(r, k)) by {
        assert(node_ok(r, r.packages@[i].1));
        assert(entry_ok(r, r.packages@[i].1.dev_dependencies@[j].package));
        match r.packages@[i].1.dev_dependencies@[j].package {
            PackageEntry::Resolved(k) => {
                if is_visiting(r, k) {
                    let w = choose|w: int|
                        0 <= w < r.visiting@.len() && key_eq_spec(#[trigger] r.visiting@[w], k);
                }
            },
            _ => {},
        }
    }
}

/// A manifest installed under a `node_modules` directory contributes no
/// dev dependencies to its resolved node.
pub proof fn lemma_dev_deps_dropped(m: PackageJsonData, p: Package)
    requires
        manifest_wf(m),
        crate::strutil::contains_sub(m.install_path@, "node_modules"@),
        deps_match(p.dev_dependencies@, m.dev_dependencies@),
    ensures
        p.dev_dependencies@.len() == 0,
{
}

/// Truncation respects the depth cap: every node sits within the cap, and
/// only a node created exactly at the cap carries a truncated edge.
pub proof fn lemma_truncation_at_cap(r: DependencyResolver, i: int)
    requires
        resolver_wf(r),
        0 <= i < r.packages@.len(),
    ensures
        0 <= r.packages@[i].1.depth@ <= r.max_depth,
        (has_truncated(r.packages@[i].1.dependencies@) || has_truncated(
            r.packages@[i].1.dev_dependencies@,
        )) ==> r.packages@[i].1.depth@ == r.max_depth,
{
    assert(node_ok(r, r.packages@[i].1));
}

/// Growth lemma: an entry that was sound stays sound when nodes are
/// appended and the visiting stack keeps its elements (possibly gaining
/// more on top).
proof fn lemma_entry_ok_grow(pre: DependencyResolver, post: DependencyResolver, e: PackageEntry)
    requires
        pre.packages@.len() <= post.packages@.len(),
        post.packages@.subrange(0, pre.packages@.len() as int) == pre.packages@,
        pre.visiting@.len() <= post.visiting@.len(),
        forall|w: int| 0 <= w < pre.visiting@.len() ==> post.visiting@[w] == pre.visiting@[w],
        entry_ok(pre, e),
    ensures
        entry_ok(post, e),
{
    match e {
        PackageEntry::Resolved(k) => {
            if contains_key(pre, k) {
                let i = choose|i: int|
                    0 <= i < pre.packages@.len() && key_eq_spec(
                        (#[trigger] pre.packages@[i]).0,
                        k,
                    );
                assert(post.packages@.subrange(0, pre.packages@.len() as int)[i]
                    == pre.packages@[i]);
                assert(key_eq_spec(post.packages@[i].0, k));
            } else if is_visiting(pre, k) {
                let w = choose|w: int|
                    0 <= w < pre.visiting@.len() && key_eq_spec(#[trigger] pre.visiting@[w], k);
                assert(key_eq_spec(post.visiting@[w], k));
            }
        },
        _ => {},
    }
}

/// Growth lemma lifted to whole edge lists.
proof fn lemma_entries_grow(pre: DependencyResolver, post: DependencyResolver, ds: Seq<Dependency>)
    requires
        pre.packages@.len() <= post.packages@.len(),
        post.packages@.subrange(0, pre.packages@.len() as int) == pre.packages@,
        pre.visiting@.len() <= post.visiting@.len(),
        forall|w: int| 0 <= w < pre.visiting@.len() ==> post.visiting@[w] == pre.visiting@[w],
        forall|i: int| 0 <= i < ds.len() ==> entry_ok(pre, (#[trigger] ds[i]).package),
    ensures
        forall|i: int| 0 <= i < ds.len() ==> entry_ok(post, (#[trigger] ds[i]).package),
{
    assert forall|i: int|
        0 <= i < ds.len() implies entry_ok(post, (#[trigger] ds[i]).package) by {
        lemma_entry_ok_grow(pre, post, ds[i].package);
    }
}

/// Growth lemma lifted to whole nodes.
proof fn lemma_node_ok_grow(pre: DependencyResolver, post: DependencyResolver, p: Package)
    requires
        node_ok(pre, p),
        pre.packages@.len() <= post.packages@.len(),
        post.packages@.subrange(0, pre.packages@.len() as int) == pre.packages@,
        pre.visiting@.len() <= post.visiting@.len(),
        forall|w: int| 0 <= w < pre.visiting@.len() ==> post.visiting@[w] == pre.visiting@[w],
        post.max_depth == pre.max_depth,
    ensures
        node_ok(post, p),
{
    lemma_entries_grow(pre, post, p.dependencies@);
    lemma_entries_grow(pre, post, p.dev_dependencies@);
}

/// Key equality is symmetric.
proof fn lemma_key_eq_sym(a: PackageKey, b: PackageKey)
    requires
        key_eq_spec(a, b),
    ensures
        key_eq_spec(b, a),
{
}

/// Pushing a fresh key onto the visiting stack preserves the invariant.
proof fn lemma_wf_after_push(pre: DependencyResolver, post: DependencyResolver, key: PackageKey)
    requires
        resolver_wf(pre),
        !contains_key(pre, key),
        post.packages@ == pre.packages@,
        post.visiting@ == pre.visiting@.push(key),
        post.max_depth == pre.max_depth,
    ensures
        resolver_wf(post),
{
    assert(post.packages@.subrange(0, pre.packages@.len() as int) =~= pre.packages@);
    assert forall|i: int|
        0 <= i < post.packages@.len() implies node_ok(post, (#[trigger] post.packages@[i]).1) by {
        assert(node_ok(pre, pre.packages@[i].1));
        lemma_node_ok_grow(pre, post, pre.packages@[i].1);
    }
    assert forall|i: int|
        0 <= i < post.packages@.len() implies !is_visiting(
        post,
        (#[trigger] post.packages@[i]).0,
    ) by {
        if is_visiting(post, post.packages@[i].0) {
            let w = choose|w: int|
                0 <= w < post.visiting@.len() && key_eq_spec(
                    #[trigger] post.visiting@[w],
                    post.packages@[i].0,
                );
            if w < pre.visiting@.len() {
                assert(key_eq_spec(pre.visiting@[w], pre.packages@[i].0));
                assert(is_visiting(pre, pre.packages@[i].0));
            } else {
                lemma_key_eq_sym(key, post.packages@[i].0);
                assert(key_eq_spec(pre.packages@[i].0, key));
                assert(contains_key(pre, key));
            }
        }
    }
}

/// Popping the key just resolved and inserting its node preserves the
/// invariant.
proof fn lemma_wf_after_insert(
    before_pop: DependencyResolver,
    post: DependencyResolver,
    key: PackageKey,
)
    requires
        resolver_wf(before_pop),
        before_pop.visiting@.len() > 0,
        key_eq_spec(before_pop.visiting@.last(), key),
        key_eq_spec(key, before_pop.visiting@.last()),
        post.visiting@ == before_pop.visiting@.drop_last(),
        post.packages@ == before_pop.packages@.push((key, post.packages@.last().1)),
        post.max_depth == before_pop.max_depth,
        !contains_key(before_pop, key),
        edges_ok(before_pop, post.packages@.last().1.dependencies@),
        edges_ok(before_pop, post.packages@.last().1.dev_dependencies@),
        0 <= post.packages@.last().1.depth@ <= post.max_depth,
        (has_truncated(post.packages@.last().1.dependencies@) || has_truncated(
            post.packages@.last().1.dev_dependencies@,
        )) ==> post.packages@.last().1.depth@ == post.max_depth,
        forall|w: int|
            0 <= w < before_pop.visiting@.len() - 1 ==> !key_eq_spec(
                #[trigger] before_pop.visiting@[w],
                key,
            ),
    ensures
        resolver_wf(post),
{
    let n = before_pop.packages@.len() as int;
    assert(post.packages@.subrange(0, n) =~= before_pop.packages@);
    assert forall|i: int, j: int|
        0 <= i < j < post.packages@.len() implies !key_eq_spec(
        (#[trigger] post.packages@[i]).0,
        (#[trigger] post.packages@[j]).0,
    ) by {
        if j == n {
            if key_eq_spec(post.packages@[i].0, key) {
                assert(contains_key(before_pop, key));
            }
        }
    }
    assert forall|i: int|
        0 <= i < post.packages@.len() implies node_ok(post, (#[trigger] post.packages@[i]).1) by {
        if i < n {
            assert(node_ok(before_pop, before_pop.packages@[i].1));
            lemma_node_transfer(before_pop, post, key, before_pop.packages@[i].1);
        } else {
            lemma_node_transfer(before_pop, post, key, post.packages@[i].1);
        }
    }
    assert forall|i: int|
        0 <= i < post.packages@.len() implies !is_visiting(
        post,
        (#[trigger] post.packages@[i]).0,
    ) by {
        if is_visiting(post, post.packages@[i].0) {
            let w = choose|w: int|
                0 <= w < post.visiting@.len() && key_eq_spec(
                    #[trigger] post.visiting@[w],
                    post.packages@[i].0,
                );
            assert(before_pop.visiting@[w] == post.visiting@[w]);
            if i < n {
                assert(is_visiting(before_pop, before_pop.packages@[i].0));
            } else {
                // a remaining stack key equal to the inserted key would
                // contradict the stack holding it only at the top
                lemma_key_eq_trans_via(before_pop.visiting@[w], post.packages@[i].0, key);
            }
        }
    }
}

/// A node whose edges were sound before the pop-and-insert stays sound:
/// references to the resolved key now reach the materialized node, the
/// rest are untouched.
proof fn lemma_node_transfer(
    before_pop: DependencyResolver,
    post: DependencyResolver,
    key: PackageKey,
    p: Package,
)
    requires
        before_pop.visiting@.len() > 0,
        key_eq_spec(before_pop.visiting@.last(), key),
        post.visiting@ == before_pop.visiting@.drop_last(),
        post.packages@ == before_pop.packages@.push((key, post.packages@.last().1)),
        post.max_depth == before_pop.max_depth,
        edges_ok(before_pop, p.dependencies@),
        edges_ok(before_pop, p.dev_dependencies@),
        0 <= p.depth@ <= before_pop.max_depth,
        (has_truncated(p.dependencies@) || has_truncated(p.dev_dependencies@)) ==> p.depth@
            == before_pop.max_depth,
    ensures
        node_ok(post, p),
{
    assert forall|i: int|
        0 <= i < p.dependencies@.len() implies entry_ok(
        post,
        (#[trigger] p.dependencies@[i]).package,
    ) by {
        lemma_entry_transfer_one(before_pop, post, key, p.dependencies@[i].package);
    }
    assert forall|i: int|
        0 <= i < p.dev_dependencies@.len() implies entry_ok(
        post,
        (#[trigger] p.dev_dependencies@[i]).package,
    ) by {
        lemma_entry_transfer_one(before_pop, post, key, p.dev_dependencies@[i].package);
    }
}

proof fn lemma_entry_transfer_one(
    before_pop: DependencyResolver,
    post: DependencyResolver,
    key: PackageKey,
    e: PackageEntry,
)
    requires
        before_pop.visiting@.len() > 0,
        key_eq_spec(before_pop.visiting@.last(), key),
        post.visiting@ == before_pop.visiting@.drop_last(),
        post.packages@ == before_pop.packages@.push((key, post.packages@.last().1)),
        entry_ok(before_pop, e),
    ensures
        entry_ok(post, e),
{
    let n = before_pop.packages@.len() as int;
    assert(post.packages@.subrange(0, n) =~= before_pop.packages@);
    match e {
        PackageEntry::Resolved(k) => {
            if contains_key(before_pop, k) {
                let i = choose|i: int|
                    0 <= i < before_pop.packages@.len() && key_eq_spec(
                        (#[trigger] before_pop.packages@[i]).0,
                        k,
                    );
                assert(key_eq_spec(post.packages@[i].0, k));
            } else if is_visiting(before_pop, k) {
                let w = choose|w: int|
                    0 <= w < before_pop.visiting@.len() && key_eq_spec(
                        #[trigger] before_pop.visiting@[w],
                        k,
                    );
                if w == before_pop.visiting@.len() - 1 {
                    lemma_key_eq_trans_via(key, before_pop.visiting@[w], k);
                    assert(key_eq_spec(post.packages@[n].0, k));
                } else {
                    assert(key_eq_spec(post.visiting@[w], k));
                }
            }
        },
        _ => {},
    }
}

/// Key equality runs through a shared middle key.
proof fn lemma_key_eq_trans_via(a: PackageKey, m: PackageKey, k: PackageKey)
    requires
        key_eq_spec(m, a) || key_eq_spec(a, m),
        key_eq_spec(m, k),
    ensures
        key_eq_spec(a, k),
{
}

} // verus!
