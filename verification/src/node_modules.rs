//! Installation scopes: one `node_modules`-style directory of installed
//! packages. Scopes live in an arena; a scope's identity is its arena
//! index, which doubles as the process-wide monotonic scope id. Synthetic
//! ids (for package roots and workspace member groups) are drawn from the
//! same arena so that every id is unique, and index zero is reserved for
//! the workspace reference sentinel, so no real scope ever bears it.

use vstd::prelude::*;
use vstd::string::StringExecFns;

use crate::json::JsonValue;
use crate::package_data::{
    loaded_matches, loads_plainly, manifest_file_spec, manifest_wf, name_of_json,
    PackageJsonData,
};
use crate::snapshot::{dir_spec, snapshot_wf, ManifestFile, Snapshot};
use crate::strutil::{path_join, prefix_of, starts_with, str_eq_str};

verus! {

/// One installation scope: the packages installed in one directory, with an
/// optional parent scope for name-lookup inheritance.
pub struct NodeModules {
    /// The enclosing scope, searched when a name is not found locally.
    pub parent: Option<usize>,
    /// The directory this scope was built from; `None` for a synthetic id.
    pub dir: Option<String>,
    /// Package name to manifest, in discovery order, one entry per name.
    pub packages: Vec<(String, PackageJsonData)>,
}

/// The arena of all scopes created during one command.
pub struct ScopeArena {
    pub scopes: Vec<NodeModules>,
}

/// `post` holds every scope of `pre`, unchanged, at the same index.
pub open spec fn arena_extends(post: ScopeArena, pre: ScopeArena) -> bool {
    &&& pre.scopes@.len() <= post.scopes@.len()
    &&& forall|i: int| 0 <= i < pre.scopes@.len() ==> post.scopes@[i] == pre.scopes@[i]
}

/// Every entry the step added is a synthetic id: it names no directory.
pub open spec fn new_entries_synthetic(post: ScopeArena, pre: ScopeArena) -> bool {
    forall|j: int|
        pre.scopes@.len() <= j < post.scopes@.len() ==> (#[trigger] post.scopes@[j]).dir is None
}

/// `p` is one of the package directories the installed-packages directory
/// `nm_path` offers: a direct subdirectory, or, for an `@`-prefixed
/// subdirectory, one of its own subdirectories.
pub open spec fn is_candidate(snap: Snapshot, nm_path: Seq<char>, p: Seq<char>) -> bool {
    match dir_spec(snap, nm_path) {
        None => false,
        Some(rec) => exists|e: int|
            0 <= e < rec.entries@.len() && {
                let name = (#[trigger] rec.entries@[e])@;
                if prefix_of("@"@, name) {
                    match dir_spec(snap, nm_path + seq!['/'] + name) {
                        None => false,
                        Some(sub) => exists|f: int|
                            0 <= f < sub.entries@.len() && p == nm_path + seq!['/'] + name + seq![
                                '/',
                            ] + (#[trigger] sub.entries@[f])@,
                    }
                } else {
                    p == nm_path + seq!['/'] + name
                }
            },
    }
}

/// A gathered entry records the manifest decoded at `path`: keyed by the
/// declared (or placeholder) name, with the loaded fields.
pub open spec fn entry_matches_loaded(
    key: String,
    m: PackageJsonData,
    v: JsonValue,
    path: Seq<char>,
) -> bool {
    &&& key@ == name_of_json(v)
    &&& loaded_matches(m, v, path)
}

/// A scope's contents against the snapshot: every entry is the manifest
/// loaded from one of the directory's candidates (the first occurrence of
/// each name winning), and every candidate that loads unconditionally is
/// represented under its declared name.
pub open spec fn scope_contents_ok(
    pkgs: Seq<(String, PackageJsonData)>,
    snap: Snapshot,
    nm_path: Seq<char>,
) -> bool {
    &&& gathered_sound(pkgs, snap, nm_path)
    &&& forall|p: Seq<char>|
        is_candidate(snap, nm_path, p) ==> #[trigger] candidate_covered(pkgs, snap, p)
}

impl ScopeArena {
    /// An arena holding only the reserved sentinel slot, so every id drawn
    /// later is nonzero.
    pub fn new() -> (r: ScopeArena)
        ensures
            r.scopes@.len() == 1,
            arena_wf(r),
            r.scopes@[0].packages@.len() == 0,
            r.scopes@[0].parent is None,
            r.scopes@[0].dir is None,
    {
        let mut scopes: Vec<NodeModules> = Vec::new();
        scopes.push(NodeModules { parent: None, dir: None, packages: Vec::new() });
        ScopeArena { scopes }
    }

    /// The first scope built from `dir`, if any.
    #[verifier::loop_isolation(false)]
    fn find_dir_scope(&self, dir: &str) -> (r: Option<usize>)
        ensures
            match r {
                Some(i) => i < self.scopes@.len() && Some(i as int) == dir_scope_of(
                    *self,
                    dir@,
                ),
                None => dir_scope_of(*self, dir@) is None,
            },
    {
        let mut i: usize = 0;
        while i < self.scopes.len()
            invariant
                i <= self.scopes@.len(),
                dir_scope_of(*self, dir@) == dir_scope_from(self.scopes@, i as int, dir@),
            decreases self.scopes@.len() - i,
        {
            match &self.scopes[i].dir {
                Some(d) => {
                    if str_eq_str(d.as_str(), dir) {
                        return Some(i);
                    }
                },
                None => {},
            }
            i = i + 1;
        }
        None
    }

    /// Draws a fresh synthetic id: a new empty scope entry whose index is
    /// the id.
    pub fn alloc_misc(&mut self) -> (id: usize)
        ensures
            id == old(self).scopes@.len(),
            final(self).scopes@.len() == old(self).scopes@.len() + 1,
            arena_extends(*final(self), *old(self)),
            new_entries_synthetic(*final(self), *old(self)),
            arena_wf(*old(self)) ==> arena_wf(*final(self)),
            final(self).scopes@[id as int].packages@.len() == 0,
            final(self).scopes@[id as int].parent is None,
            final(self).scopes@[id as int].dir is None,
    {
        let id = self.scopes.len();
        self.scopes.push(
            NodeModules { parent: None, dir: None, packages: Vec::new() },
        );
        id
    }

    /// Builds the scope for the installed-packages directory `nm_path`:
    /// every direct child with a readable manifest, and the children of
    /// `@`-prefixed subdirectories one level deeper. Unreadable manifests
    /// are skipped. The new scope's index is its id, and every gathered
    /// manifest is stamped with it.
    #[verifier::loop_isolation(false)]
    pub fn from_folder(&mut self, snap: &Snapshot, nm_path: &str, parent: Option<usize>) -> (id:
        usize)
        requires
            snapshot_wf(*snap),
            arena_wf(*old(self)),
            old(self).parent_ok(parent),
        ensures
            arena_extends(*final(self), *old(self)),
            arena_wf(*final(self)),
            id == final(self).scopes@.len() - 1,
            old(self).scopes@.len() <= id,
            forall|j: int|
                old(self).scopes@.len() <= j < id ==> (#[trigger] final(self).scopes@[j]).dir
                    is None,
            scope_built(final(self).scopes@[id as int], *snap, nm_path@, parent, id as int),
    {
        let mut packages: Vec<(String, PackageJsonData)> = Vec::new();
        let fuel = snap.dirs.len();
        match snap.find_dir(nm_path) {
            None => {
                proof {
                    assert(forall|p: Seq<char>| !is_candidate(*snap, nm_path@, p));
                    assert forall|p: Seq<char>|
                        is_candidate(*snap, nm_path@, p) implies #[trigger] candidate_covered(
                        packages@,
                        *snap,
                        p,
                    ) by {}
                }
            },
            Some(rec) => {
                let ghost entries = rec.entries@;
                let mut i: usize = 0;
                while i < rec.entries.len()
                    invariant
                        dir_spec(*snap, nm_path@) matches Some(r2) && r2.entries@ == entries,
                        i <= entries.len(),
                        arena_extends(*self, *old(self)),
                        new_entries_synthetic(*self, *old(self)),
                        arena_wf(*self),
                        gathered_ok(packages@),
                        gathered_sound(packages@, *snap, nm_path@),
                        forall|e: int|
                            0 <= e < i ==> entry_covered(packages@, *snap, nm_path@, entries, e),
                    decreases entries.len() - i,
                {
                    let name = &rec.entries[i];
                    if starts_with(name.as_str(), "@") {
                        let sub_path = path_join(nm_path, name.as_str());
                        match snap.find_dir(sub_path.as_str()) {
                            None => {
                                proof {
                                    assert(entry_covered(
                                        packages@,
                                        *snap,
                                        nm_path@,
                                        entries,
                                        i as int,
                                    ));
                                }
                            },
                            Some(sub) => {
                                let ghost sub_entries = sub.entries@;
                                let mut j: usize = 0;
                                while j < sub.entries.len()
                                    invariant
                                        dir_spec(*snap, nm_path@) matches Some(r2) && r2.entries@
                                            == entries,
                                        0 <= i < entries.len(),
                                        prefix_of("@"@, entries[i as int]@),
                                        sub_path@ == nm_path@ + seq!['/'] + entries[i as int]@,
                                        dir_spec(*snap, sub_path@) matches Some(s2)
                                            && s2.entries@ == sub_entries,
                                        j <= sub_entries.len(),
                                        arena_extends(*self, *old(self)),
                                        new_entries_synthetic(*self, *old(self)),
                                        arena_wf(*self),
                                        gathered_ok(packages@),
                                        gathered_sound(packages@, *snap, nm_path@),
                                        forall|e: int|
                                            0 <= e < i ==> entry_covered(
                                                packages@,
                                                *snap,
                                                nm_path@,
                                                entries,
                                                e,
                                            ),
                                        forall|f: int|
                                            0 <= f < j ==> candidate_covered(
                                                packages@,
                                                *snap,
                                                sub_path@ + seq!['/'] + (#[trigger] sub_entries[
                                                    f
                                                ])@,
                                            ),
                                    decreases sub_entries.len() - j,
                                {
                                    let pkg_path = path_join(
                                        sub_path.as_str(),
                                        sub.entries[j].as_str(),
                                    );
                                    let ghost pkgs_before = packages@;
                                    proof {
                                        assert(is_candidate(*snap, nm_path@, pkg_path@)) by {
                                            assert(prefix_of("@"@, entries[i as int]@));
                                        }
                                    }
                                    Self::gather_one(
                                        self,
                                        snap,
                                        pkg_path.as_str(),
                                        fuel,
                                        &mut packages,
                                        Ghost(nm_path@),
                                    );
                                    proof {
                                        lemma_covered_grow(pkgs_before, packages@, *snap, nm_path@);
                                        assert forall|e: int|
                                            0 <= e < i implies entry_covered(
                                            packages@,
                                            *snap,
                                            nm_path@,
                                            entries,
                                            e,
                                        ) by {
                                            assert(entry_covered(
                                                pkgs_before,
                                                *snap,
                                                nm_path@,
                                                entries,
                                                e,
                                            ));
                                        }
                                        assert forall|f: int|
                                            0 <= f < j + 1 implies candidate_covered(
                                            packages@,
                                            *snap,
                                            sub_path@ + seq!['/'] + (#[trigger] sub_entries[f])@,
                                        ) by {
                                            if f < j {
                                                assert(candidate_covered(
                                                    pkgs_before,
                                                    *snap,
                                                    sub_path@ + seq!['/'] + sub_entries[f]@,
                                                ));
                                            } else {
                                                assert(pkg_path@ == sub_path@ + seq!['/']
                                                    + sub_entries[f]@);
                                            }
                                        }
                                    }
                                    j = j + 1;
                                }
                                proof {
                                    assert(entry_covered(
                                        packages@,
                                        *snap,
                                        nm_path@,
                                        entries,
                                        i as int,
                                    ));
                                }
                            },
                        }
                    } else {
                        let pkg_path = path_join(nm_path, name.as_str());
                        let ghost pkgs_before = packages@;
                        proof {
                            assert(is_candidate(*snap, nm_path@, pkg_path@));
                        }
                        Self::gather_one(
                            self,
                            snap,
                            pkg_path.as_str(),
                            fuel,
                            &mut packages,
                            Ghost(nm_path@),
                        );
                        proof {
                            lemma_covered_grow(pkgs_before, packages@, *snap, nm_path@);
                            assert forall|e: int|
                                0 <= e < i implies entry_covered(
                                packages@,
                                *snap,
                                nm_path@,
                                entries,
                                e,
                            ) by {
                                assert(entry_covered(pkgs_before, *snap, nm_path@, entries, e));
                            }
                            assert(entry_covered(packages@, *snap, nm_path@, entries, i as int));
                        }
                    }
                    i = i + 1;
                }
                proof {
                    assert forall|p: Seq<char>|
                        is_candidate(*snap, nm_path@, p) implies #[trigger] candidate_covered(
                        packages@,
                        *snap,
                        p,
                    ) by {
                        let e = choose|e: int|
                            0 <= e < entries.len() && {
                                let name = (#[trigger] entries[e])@;
                                if prefix_of("@"@, name) {
                                    match dir_spec(*snap, nm_path@ + seq!['/'] + name) {
                                        None => false,
                                        Some(sub) => exists|f: int|
                                            0 <= f < sub.entries@.len() && p == nm_path@ + seq![
                                                '/',
                                            ] + name + seq!['/'] + (#[trigger] sub.entries@[f])@,
                                    }
                                } else {
                                    p == nm_path@ + seq!['/'] + name
                                }
                            };
                        assert(entry_covered(packages@, *snap, nm_path@, entries, e));
                        let name = entries[e]@;
                        if prefix_of("@"@, name) {
                            match dir_spec(*snap, nm_path@ + seq!['/'] + name) {
                                None => {},
                                Some(sub) => {
                                    let f = choose|f: int|
                                        0 <= f < sub.entries@.len() && p == nm_path@ + seq!['/']
                                            + name + seq!['/'] + (#[trigger] sub.entries@[f])@;
                                    assert(candidate_covered(packages@, *snap, p));
                                },
                            }
                        }
                    }
                }
            },
        }
        let ghost gathered = packages@;
        let id = self.scopes.len();
        let mut k: usize = 0;
        while k < packages.len()
            invariant
                id == self.scopes@.len(),
                k <= packages@.len(),
                arena_extends(*self, *old(self)),
                new_entries_synthetic(*self, *old(self)),
                arena_wf(*self),
                gathered_ok(packages@),
                packages@.len() == gathered.len(),
                forall|t: int|
                    0 <= t < packages@.len() ==> (#[trigger] packages@[t]).0 == gathered[t].0 && (
                    packages@[t]).1 == gathered[t].1 || ((packages@[t]).0 == gathered[t].0
                        && restamped(packages@[t].1, gathered[t].1, id as int)),
                forall|t: int|
                    0 <= t < k ==> (#[trigger] packages@[t]).1.parent_id == id,
            decreases packages@.len() - k,
        {
            let (pname, mut m) = packages.remove(k);
            m.parent_id = id;
            proof {
                assert(manifest_wf(m));
            }
            packages.insert(k, (pname, m));
            k = k + 1;
        }
        proof {
            lemma_contents_after_restamp(gathered, packages@, *snap, nm_path@, id as int);
        }
        self.scopes.push(
            NodeModules { parent, dir: Some(String::from_str(nm_path)), packages },
        );
        id
    }

    /// Loads one candidate package directory into the gathered list; the
    /// first manifest under each name wins, and anything unreadable is
    /// skipped.
    fn gather_one(
        &mut self,
        snap: &Snapshot,
        pkg_path: &str,
        fuel: usize,
        packages: &mut Vec<(String, PackageJsonData)>,
        nm_path: Ghost<Seq<char>>,
    )
        requires
            snapshot_wf(*snap),
            arena_wf(*old(self)),
            gathered_ok(old(packages)@),
            gathered_sound(old(packages)@, *snap, nm_path@),
            is_candidate(*snap, nm_path@, pkg_path@),
        ensures
            arena_extends(*final(self), *old(self)),
            new_entries_synthetic(*final(self), *old(self)),
            arena_wf(*final(self)),
            gathered_ok(final(packages)@),
            gathered_sound(final(packages)@, *snap, nm_path@),
            old(packages)@.len() <= final(packages)@.len(),
            forall|t: int|
                0 <= t < old(packages)@.len() ==> final(packages)@[t] == old(packages)@[t],
            candidate_covered(final(packages)@, *snap, pkg_path@),
    {
        match PackageJsonData::from_folder_with_id(snap, self, pkg_path, 0, fuel) {
            Ok(Some(m)) => {
                let mut seen: bool = false;
                let mut t: usize = 0;
                while t < packages.len()
                    invariant
                        t <= packages@.len(),
                        seen ==> exists|u: int|
                            0 <= u < packages@.len() && (#[trigger] packages@[u]).0@ == m.name@,
                        !seen ==> forall|u: int|
                            0 <= u < t ==> (#[trigger] packages@[u]).0@ != m.name@,
                    decreases packages@.len() - t,
                {
                    if str_eq_str(packages[t].0.as_str(), m.name.as_str()) {
                        seen = true;
                        proof {
                            assert((packages@[t as int]).0@ == m.name@);
                        }
                    }
                    t = t + 1;
                }
                proof {
                    if seen && loads_plainly(*snap, pkg_path@) {
                        assert(candidate_covered(packages@, *snap, pkg_path@));
                    }
                }
                if !seen {
                    let key = m.name.clone();
                    packages.push((key, m));
                    proof {
                        assert(candidate_covered(packages@, *snap, pkg_path@)) by {
                            if loads_plainly(*snap, pkg_path@) {
                                assert((packages@[packages@.len() - 1]).0@ == m.name@);
                            }
                        }
                        assert(gathered_sound(packages@, *snap, nm_path@)) by {
                            assert forall|k: int|
                                0 <= k < packages@.len() implies entry_sound(
                                #[trigger] packages@[k],
                                *snap,
                                nm_path@,
                            ) by {
                                if k == packages@.len() - 1 {
                                    assert(is_candidate(*snap, nm_path@, pkg_path@) && (
                                    manifest_file_spec(*snap, pkg_path@)
                                        matches ManifestFile::Json(v) && entry_matches_loaded(
                                        packages@[k].0,
                                        packages@[k].1,
                                        v,
                                        pkg_path@,
                                    )));
                                }
                            }
                        }
                    }
                }
            },
            _ => {
                proof {
                    if loads_plainly(*snap, pkg_path@) {
                        assert(false);
                    }
                }
            },
        }
    }

    /// Builds the scope for `install_path/node_modules` with `parent_scope`
    /// as its parent, or returns the scope previously built from that
    /// directory.
    pub fn create_child(
        &mut self,
        snap: &Snapshot,
        parent_scope: usize,
        install_path: &str,
    ) -> (id: usize)
        requires
            snapshot_wf(*snap),
            arena_wf(*old(self)),
            parent_scope < old(self).scopes@.len(),
        ensures
            arena_extends(*final(self), *old(self)),
            arena_wf(*final(self)),
            id < final(self).scopes@.len(),
            Some(id as int) == dir_scope_of(
                *final(self),
                install_path@ + seq!['/'] + "node_modules"@,
            ),
            dir_scope_of(*old(self), install_path@ + seq!['/'] + "node_modules"@) matches Some(
                existing,
            ) ==> id as int == existing && final(self).scopes@ == old(self).scopes@,
            dir_scope_of(*old(self), install_path@ + seq!['/'] + "node_modules"@) is None
                ==> scope_built(
                final(self).scopes@[id as int],
                *snap,
                install_path@ + seq!['/'] + "node_modules"@,
                Some(parent_scope),
                id as int,
            ),
    {
        let nm = path_join(install_path, "node_modules");
        match self.find_dir_scope(nm.as_str()) {
            Some(existing) => existing,
            None => {
                let id = self.from_folder(snap, nm.as_str(), Some(parent_scope));
                proof {
                    lemma_dir_scope_first_after_push(
                        *old(self),
                        *self,
                        nm@,
                        id as int,
                    );
                }
                id
            },
        }
    }

    /// Looks a package name up in a scope, then in its parents.
    #[verifier::loop_isolation(false)]
    pub fn get_package<'a>(&'a self, scope: usize, name: &str) -> (r: Option<
        &'a PackageJsonData,
    >)
        requires
            arena_wf(*self),
            scope < self.scopes@.len(),
        ensures
            match r {
                Some(m) => scope_lookup(*self, scope as int, name@) == Some(*m),
                None => scope_lookup(*self, scope as int, name@) is None,
            },
    {
        let mut cur: usize = scope;
        loop
            invariant
                cur < self.scopes@.len(),
                scope_lookup(*self, scope as int, name@) == scope_lookup(
                    *self,
                    cur as int,
                    name@,
                ),
            decreases cur,
        {
            let pkgs = &self.scopes[cur].packages;
            let mut j: usize = 0;
            while j < pkgs.len()
                invariant
                    j <= pkgs@.len(),
                    pkgs_lookup_from(pkgs@, 0, name@) == pkgs_lookup_from(
                        pkgs@,
                        j as int,
                        name@,
                    ),
                decreases pkgs@.len() - j,
            {
                if str_eq_str(pkgs[j].0.as_str(), name) {
                    return Some(&pkgs[j].1);
                }
                j = j + 1;
            }
            match &self.scopes[cur].parent {
                Some(p) => {
                    cur = *p;
                },
                None => {
                    return None;
                },
            }
        }
    }

    /// A valid parent reference.
    pub open spec fn parent_ok(&self, parent: Option<usize>) -> bool {
        match parent {
            Some(p) => p < self.scopes@.len(),
            None => true,
        }
    }
}

/// Only the scope id differs: the restamp that fixes ownership.
pub open spec fn restamped(post: PackageJsonData, pre: PackageJsonData, id: int) -> bool {
    post == PackageJsonData { parent_id: post.parent_id, ..pre } && post.parent_id == id
}

/// One gathered entry is the manifest loaded from some candidate.
pub open spec fn entry_sound(
    e: (String, PackageJsonData),
    snap: Snapshot,
    nm_path: Seq<char>,
) -> bool {
    exists|p: Seq<char>|
        #[trigger] is_candidate(snap, nm_path, p) && (manifest_file_spec(snap, p)
            matches ManifestFile::Json(v) && entry_matches_loaded(e.0, e.1, v, p))
}

/// Every gathered entry is the manifest loaded from some candidate.
pub open spec fn gathered_sound(
    pkgs: Seq<(String, PackageJsonData)>,
    snap: Snapshot,
    nm_path: Seq<char>,
) -> bool {
    forall|k: int| 0 <= k < pkgs.len() ==> entry_sound(#[trigger] pkgs[k], snap, nm_path)
}

/// If the candidate at `p` loads unconditionally, some gathered entry
/// bears its declared name.
pub open spec fn candidate_covered(
    pkgs: Seq<(String, PackageJsonData)>,
    snap: Snapshot,
    p: Seq<char>,
) -> bool {
    loads_plainly(snap, p) ==> (manifest_file_spec(snap, p) matches ManifestFile::Json(v)
        && exists|k: int| 0 <= k < pkgs.len() && (#[trigger] pkgs[k]).0@ == name_of_json(v))
}

/// All candidates arising from entry `e` of the directory listing are
/// covered.
pub open spec fn entry_covered(
    pkgs: Seq<(String, PackageJsonData)>,
    snap: Snapshot,
    nm_path: Seq<char>,
    entries: Seq<String>,
    e: int,
) -> bool {
    0 <= e < entries.len() ==> {
        let name = entries[e]@;
        if prefix_of("@"@, name) {
            match dir_spec(snap, nm_path + seq!['/'] + name) {
                None => true,
                Some(sub) => forall|f: int|
                    0 <= f < sub.entries@.len() ==> candidate_covered(
                        pkgs,
                        snap,
                        nm_path + seq!['/'] + name + seq!['/'] + (#[trigger] sub.entries@[f])@,
                    ),
            }
        } else {
            candidate_covered(pkgs, snap, nm_path + seq!['/'] + name)
        }
    }
}

/// Coverage facts survive appending entries.
proof fn lemma_covered_grow(
    pre: Seq<(String, PackageJsonData)>,
    post: Seq<(String, PackageJsonData)>,
    snap: Snapshot,
    nm_path: Seq<char>,
)
    requires
        pre.len() <= post.len(),
        forall|t: int| 0 <= t < pre.len() ==> post[t] == pre[t],
    ensures
        forall|p: Seq<char>|
            #[trigger] candidate_covered(pre, snap, p) ==> candidate_covered(post, snap, p),
        forall|entries: Seq<String>, e: int|
            #[trigger] entry_covered(pre, snap, nm_path, entries, e) ==> entry_covered(
                post,
                snap,
                nm_path,
                entries,
                e,
            ),
{
    assert forall|p: Seq<char>|
        #[trigger] candidate_covered(pre, snap, p) implies candidate_covered(post, snap, p) by {
        if loads_plainly(snap, p) {
            match manifest_file_spec(snap, p) {
                ManifestFile::Json(v) => {
                    let k = choose|k: int|
                        0 <= k < pre.len() && (#[trigger] pre[k]).0@ == name_of_json(v);
                    assert(post[k].0@ == name_of_json(v));
                },
                _ => {},
            }
        }
    }
    assert forall|entries: Seq<String>, e: int|
        #[trigger] entry_covered(pre, snap, nm_path, entries, e) implies entry_covered(
        post,
        snap,
        nm_path,
        entries,
        e,
    ) by {
        if 0 <= e < entries.len() {
            let name = entries[e]@;
            if prefix_of("@"@, name) {
                match dir_spec(snap, nm_path + seq!['/'] + name) {
                    None => {},
                    Some(sub) => {
                        assert forall|f: int|
                            0 <= f < sub.entries@.len() implies candidate_covered(
                            post,
                            snap,
                            nm_path + seq!['/'] + name + seq!['/'] + (#[trigger] sub.entries@[
                                f
                            ])@,
                        ) by {
                            assert(candidate_covered(
                                pre,
                                snap,
                                nm_path + seq!['/'] + name + seq!['/'] + sub.entries@[f]@,
                            ));
                        }
                    },
                }
            } else {
                assert(candidate_covered(pre, snap, nm_path + seq!['/'] + name));
            }
        }
    }
}

/// Restamping ownership ids changes no name and no loaded field, so the
/// contents facts carry over.
proof fn lemma_contents_after_restamp(
    pre: Seq<(String, PackageJsonData)>,
    post: Seq<(String, PackageJsonData)>,
    snap: Snapshot,
    nm_path: Seq<char>,
    id: int,
)
    requires
        post.len() == pre.len(),
        forall|t: int|
            0 <= t < post.len() ==> (#[trigger] post[t]).0 == pre[t].0 && (post[t]).1 == pre[t].1
                || ((post[t]).0 == pre[t].0 && restamped(post[t].1, pre[t].1, id)),
        gathered_sound(pre, snap, nm_path),
        forall|p: Seq<char>| is_candidate(snap, nm_path, p) ==> #[trigger] candidate_covered(
            pre,
            snap,
            p,
        ),
    ensures
        gathered_sound(post, snap, nm_path),
        forall|p: Seq<char>| is_candidate(snap, nm_path, p) ==> #[trigger] candidate_covered(
            post,
            snap,
            p,
        ),
{
    assert forall|k: int|
        0 <= k < post.len() implies entry_sound(#[trigger] post[k], snap, nm_path) by {
        assert(entry_sound(pre[k], snap, nm_path));
        let p = choose|p: Seq<char>|
            #[trigger] is_candidate(snap, nm_path, p) && (manifest_file_spec(snap, p)
                matches ManifestFile::Json(v) && entry_matches_loaded(
                (pre[k]).0,
                pre[k].1,
                v,
                p,
            ));
        match manifest_file_spec(snap, p) {
            ManifestFile::Json(v) => {
                assert(post[k].0 == pre[k].0 && (post[k].1 == pre[k].1 || restamped(
                    post[k].1,
                    pre[k].1,
                    id,
                )));
                assert(loaded_matches(post[k].1, v, p)) by {
                    assert(loaded_matches(pre[k].1, v, p));
                    if post[k].1 != pre[k].1 {
                        assert(post[k].1.name == pre[k].1.name);
                        assert(post[k].1.install_path == pre[k].1.install_path);
                        assert(post[k].1.version == pre[k].1.version);
                        assert(post[k].1.dependencies == pre[k].1.dependencies);
                        assert(post[k].1.dev_dependencies == pre[k].1.dev_dependencies);
                        assert(post[k].1.workspace_data == pre[k].1.workspace_data);
                    }
                }
                assert(is_candidate(snap, nm_path, p) && (manifest_file_spec(snap, p)
                    matches ManifestFile::Json(v2) && entry_matches_loaded(
                    post[k].0,
                    post[k].1,
                    v2,
                    p,
                )));
            },
            _ => {},
        }
    }
    assert forall|p: Seq<char>|
        is_candidate(snap, nm_path, p) implies #[trigger] candidate_covered(post, snap, p) by {
        assert(candidate_covered(pre, snap, p));
        if loads_plainly(snap, p) {
            match manifest_file_spec(snap, p) {
                ManifestFile::Json(v) => {
                    let k = choose|k: int|
                        0 <= k < pre.len() && (#[trigger] pre[k]).0@ == name_of_json(v);
                    assert(post[k].0@ == name_of_json(v));
                },
                _ => {},
            }
        }
    }
}

/// Every scope's parent was created before it (so parent chains descend),
/// and every scope's contents are well-formed manifests keyed by name.
pub open spec fn arena_wf(a: ScopeArena) -> bool {
    forall|i: int|
        0 <= i < a.scopes@.len() ==> {
            &&& match (#[trigger] a.scopes@[i]).parent {
                Some(p) => (p as int) < i,
                None => true,
            }
            &&& gathered_ok(a.scopes@[i].packages@)
        }
}

proof fn lemma_pkgs_lookup_wf(pkgs: Seq<(String, PackageJsonData)>, i: int, name: Seq<char>)
    requires
        gathered_ok(pkgs),
        pkgs_lookup_from(pkgs, i, name) is Some,
    ensures
        manifest_wf(pkgs_lookup_from(pkgs, i, name).unwrap()),
        pkgs_lookup_from(pkgs, i, name).unwrap().name@ == name,
    decreases pkgs.len() - i,
{
    if 0 <= i < pkgs.len() && pkgs[i].0@ != name {
        lemma_pkgs_lookup_wf(pkgs, i + 1, name);
    }
}

/// Whatever a scope chain resolves is a well-formed manifest bearing the
/// name that was looked up.
pub proof fn lemma_scope_lookup_wf(a: ScopeArena, s: int, name: Seq<char>)
    requires
        arena_wf(a),
        0 <= s < a.scopes@.len(),
        scope_lookup(a, s, name) is Some,
    ensures
        manifest_wf(scope_lookup(a, s, name).unwrap()),
        scope_lookup(a, s, name).unwrap().name@ == name,
    decreases s,
{
    match pkgs_lookup_from(a.scopes@[s].packages@, 0, name) {
        Some(_) => {
            lemma_pkgs_lookup_wf(a.scopes@[s].packages@, 0, name);
        },
        None => {
            match a.scopes@[s].parent {
                Some(p) => {
                    lemma_scope_lookup_wf(a, p as int, name);
                },
                None => {},
            }
        },
    }
}

/// Gathered scope entries: distinct names, each a well-formed manifest
/// keyed by its own name.
pub open spec fn gathered_ok(pkgs: Seq<(String, PackageJsonData)>) -> bool {
    &&& forall|i: int, j: int|
        0 <= i < j < pkgs.len() ==> (#[trigger] pkgs[i]).0@ != (#[trigger] pkgs[j]).0@
    &&& forall|i: int|
        0 <= i < pkgs.len() ==> manifest_wf((#[trigger] pkgs[i]).1) && pkgs[i].0@
            == pkgs[i].1.name@
}

/// A freshly built scope: its directory, parent, ownership stamp, and
/// contents against the snapshot.
pub open spec fn scope_built(
    s: NodeModules,
    snap: Snapshot,
    dir: Seq<char>,
    parent: Option<usize>,
    id: int,
) -> bool {
    &&& s.dir matches Some(d) && d@ == dir
    &&& s.parent == parent
    &&& gathered_ok(s.packages@)
    &&& forall|i: int| 0 <= i < s.packages@.len() ==> (#[trigger] s.packages@[i]).1.parent_id == id
    &&& scope_contents_ok(s.packages@, snap, dir)
}

/// The first entry named `name` in a scope's package list, from index `i`.
pub open spec fn pkgs_lookup_from(
    pkgs: Seq<(String, PackageJsonData)>,
    i: int,
    name: Seq<char>,
) -> Option<PackageJsonData>
    decreases pkgs.len() - i,
{
    if i < 0 || i >= pkgs.len() {
        None
    } else if pkgs[i].0@ == name {
        Some(pkgs[i].1)
    } else {
        pkgs_lookup_from(pkgs, i + 1, name)
    }
}

/// Name lookup through a scope and its ancestors.
pub open spec fn scope_lookup(a: ScopeArena, s: int, name: Seq<char>) -> Option<PackageJsonData>
    decreases s,
    when 0 <= s < a.scopes@.len() && arena_wf(a)
{
    match pkgs_lookup_from(a.scopes@[s].packages@, 0, name) {
        Some(m) => Some(m),
        None => match a.scopes@[s].parent {
            Some(p) => scope_lookup(a, p as int, name),
            None => None,
        },
    }
}

/// Appending scopes never changes what an existing scope resolves.
pub proof fn lemma_scope_lookup_stable(pre: ScopeArena, post: ScopeArena, s: int, name: Seq<char>)
    requires
        arena_extends(post, pre),
        arena_wf(pre),
        arena_wf(post),
        0 <= s < pre.scopes@.len(),
    ensures
        scope_lookup(post, s, name) == scope_lookup(pre, s, name),
    decreases s,
{
    assert(post.scopes@[s] == pre.scopes@[s]);
    match pkgs_lookup_from(pre.scopes@[s].packages@, 0, name) {
        Some(_) => {},
        None => {
            match pre.scopes@[s].parent {
                Some(p) => {
                    lemma_scope_lookup_stable(pre, post, p as int, name);
                },
                None => {},
            }
        },
    }
}

/// The first scope whose directory is `dir`, scanning from `i`.
pub open spec fn dir_scope_from(scopes: Seq<NodeModules>, i: int, dir: Seq<char>) -> Option<int>
    decreases scopes.len() - i,
{
    if i < 0 || i >= scopes.len() {
        None
    } else if scopes[i].dir matches Some(d) && d@ == dir {
        Some(i)
    } else {
        dir_scope_from(scopes, i + 1, dir)
    }
}

/// The scope the arena holds for `dir`, first build winning.
pub open spec fn dir_scope_of(a: ScopeArena, dir: Seq<char>) -> Option<int> {
    dir_scope_from(a.scopes@, 0, dir)
}

proof fn lemma_dir_scope_from_push(
    pre: Seq<NodeModules>,
    post: Seq<NodeModules>,
    i: int,
    dir: Seq<char>,
)
    requires
        0 <= i <= pre.len(),
        pre.len() < post.len(),
        forall|t: int| 0 <= t < pre.len() ==> post[t] == pre[t],
        dir_scope_from(pre, i, dir) is None,
        forall|t: int|
            pre.len() <= t < post.len() - 1 ==> !((#[trigger] post[t]).dir matches Some(d) && d@
                == dir),
        (post[post.len() - 1].dir matches Some(d) && d@ == dir),
    ensures
        dir_scope_from(post, i, dir) == Some(post.len() - 1),
    decreases post.len() - i,
{
    if i < pre.len() {
        assert(post[i] == pre[i]);
        assert(!(pre[i].dir matches Some(d) && d@ == dir)) by {
            if pre[i].dir matches Some(d) && d@ == dir {
                assert(dir_scope_from(pre, i, dir) == Some(i));
            }
        }
        lemma_dir_scope_from_push(pre, post, i + 1, dir);
    } else if i < post.len() - 1 {
        lemma_dir_scope_skip(post, i, dir);
    }
}

proof fn lemma_dir_scope_skip(post: Seq<NodeModules>, i: int, dir: Seq<char>)
    requires
        0 <= i <= post.len() - 1,
        forall|t: int|
            i <= t < post.len() - 1 ==> !((#[trigger] post[t]).dir matches Some(d) && d@ == dir),
        (post[post.len() - 1].dir matches Some(d) && d@ == dir),
    ensures
        dir_scope_from(post, i, dir) == Some(post.len() - 1),
    decreases post.len() - i,
{
    if i < post.len() - 1 {
        lemma_dir_scope_skip(post, i + 1, dir);
    }
}

/// After building a fresh scope for `dir` (with only synthetic ids created
/// in between), that scope is the first for `dir`.
proof fn lemma_dir_scope_first_after_push(
    pre: ScopeArena,
    post: ScopeArena,
    dir: Seq<char>,
    id: int,
)
    requires
        arena_extends(post, pre),
        dir_scope_of(pre, dir) is None,
        id == post.scopes@.len() - 1,
        pre.scopes@.len() <= id,
        forall|j: int|
            pre.scopes@.len() <= j < id ==> (#[trigger] post.scopes@[j]).dir is None,
        (post.scopes@[id].dir matches Some(d) && d@ == dir),
    ensures
        dir_scope_of(post, dir) == Some(id),
{
    lemma_dir_scope_from_push(pre.scopes@, post.scopes@, 0, dir);
}

/// A scope once recorded for a directory stays that directory's scope.
pub proof fn lemma_dir_scope_stable(pre: ScopeArena, post: ScopeArena, dir: Seq<char>)
    requires
        arena_extends(post, pre),
        dir_scope_of(pre, dir) is Some,
    ensures
        dir_scope_of(post, dir) == dir_scope_of(pre, dir),
{
    lemma_dir_scope_from_stable(pre.scopes@, post.scopes@, 0, dir);
}

proof fn lemma_dir_scope_from_stable(
    pre: Seq<NodeModules>,
    post: Seq<NodeModules>,
    i: int,
    dir: Seq<char>,
)
    requires
        0 <= i,
        pre.len() <= post.len(),
        forall|t: int| 0 <= t < pre.len() ==> post[t] == pre[t],
        dir_scope_from(pre, i, dir) is Some,
    ensures
        dir_scope_from(post, i, dir) == dir_scope_from(pre, i, dir),
    decreases pre.len() - i,
{
    if i < pre.len() {
        if !(pre[i].dir matches Some(d) && d@ == dir) {
            lemma_dir_scope_from_stable(pre, post, i + 1, dir);
        }
    }
}

} // verus!
