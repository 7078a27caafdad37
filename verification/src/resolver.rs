//! The root dispatcher: given a user path, walks upward to find an
//! enclosing workspace root (matching the workspace globs against the
//! path), reuses or builds the right resolver, and resolves the package.
//! Glob matching is delegated to the `globset` crate behind trusted
//! wrappers.

use vstd::prelude::*;
use vstd::string::StringExecFns;

use crate::dependency_resolver::{
    at_rest, contains_key, lemma_contains_key_preserved, pkg_prefix_preserved, resolver_wf,
    DependencyResolver,
};
use crate::error::Error;
use crate::node_modules::{arena_wf, ScopeArena};
use crate::package::PackageKey;
use crate::package_data::{
    base_fields_err, get_workspace_globs, globs_spec, loaded_matches, manifest_file_spec,
    manifest_wf, name_of_json, read_package_json, some_member_dirty, version_rel, ws_field_err,
    PackageJsonData,
};
use crate::snapshot::dir_exists;
use crate::strutil::parent_path;
use crate::snapshot::{snapshot_wf, Snapshot};
use crate::strutil::{path_join, path_parent, str_eq_str, trim_end_slashes, trim_trailing_slashes};
use crate::snapshot::ManifestFile;

verus! {

#[verifier::external_type_specification]
#[verifier::external_body]
pub struct ExGlobSetBuilder(globset::GlobSetBuilder);

#[verifier::external_type_specification]
#[verifier::external_body]
pub struct ExGlobSet(globset::GlobSet);

/// The patterns a builder has accumulated, in order.
pub uninterp spec fn builder_patterns(b: globset::GlobSetBuilder) -> Seq<Seq<char>>;

/// The patterns a built set matches against.
pub uninterp spec fn globset_patterns(s: globset::GlobSet) -> Seq<Seq<char>>;

/// Whether `pat` is a syntactically valid glob, a function of the pattern
/// alone. (globset's escape handling is fixed when the crate is compiled,
/// so this and the matcher below are constants of one build, not across
/// platforms.)
pub uninterp spec fn glob_valid_of(pat: Seq<char>) -> bool;

/// Whether any of `pats` matches `path`, a function of the patterns and
/// the path alone, under the same fixed build options.
pub uninterp spec fn globset_match_of(pats: Seq<Seq<char>>, path: Seq<char>) -> bool;

/// Whether a set over these (individually valid) patterns compiles, a
/// function of the patterns alone under the same fixed build options.
pub uninterp spec fn globset_buildable_of(pats: Seq<Seq<char>>) -> bool;

/// Relies on `globset::GlobSetBuilder::new`: a builder holding no
/// patterns.
#[verifier::external_body]
fn globset_builder_new() -> (b: globset::GlobSetBuilder)
    ensures
        builder_patterns(b) == Seq::<Seq<char>>::empty(),
{
    globset::GlobSetBuilder::new()
}

/// Relies on `globset::Glob::new` and `globset::GlobSetBuilder::add`:
/// parses one pattern, succeeding exactly when it is a valid glob, and
/// appends it to the builder.
#[verifier::external_body]
fn globset_builder_add(b: &mut globset::GlobSetBuilder, pat: &str) -> (ok: bool)
    ensures
        ok == glob_valid_of(pat@),
        ok ==> builder_patterns(*final(b)) == builder_patterns(*old(b)).push(pat@),
        !ok ==> builder_patterns(*final(b)) == builder_patterns(*old(b)),
{
    match globset::Glob::new(pat) {
        Ok(g) => {
            b.add(g);
            true
        },
        Err(_) => false,
    }
}

/// Relies on `globset::GlobSetBuilder::build`: the matcher for exactly the
/// accumulated patterns; success is a function of those patterns alone.
#[verifier::external_body]
fn globset_builder_build(b: &globset::GlobSetBuilder) -> (r: Option<globset::GlobSet>)
    ensures
        (r is Some) == globset_buildable_of(builder_patterns(*b)),
        r matches Some(s) ==> globset_patterns(s) == builder_patterns(*b),
{
    b.build().ok()
}

/// Relies on `globset::GlobSet::is_match`: whether any pattern in the set
/// matches `path`, a function of the patterns and the path alone.
#[verifier::external_body]
fn globset_is_match(s: &globset::GlobSet, path: &str) -> (r: bool)
    ensures
        r == globset_match_of(globset_patterns(*s), path@),
{
    s.is_match(path)
}

/// Normalizes a path for glob matching by dropping trailing separators.
pub fn norm_for_glob(path: &str) -> (r: String)
    ensures
        r@ == trim_trailing_slashes(path@),
{
    trim_end_slashes(path)
}

/// Every normalized pattern is a valid glob and the set over them
/// compiles.
pub open spec fn globs_ok(globs: Seq<Seq<char>>) -> bool {
    &&& forall|i: int|
        0 <= i < globs.len() ==> glob_valid_of(trim_trailing_slashes(#[trigger] globs[i]))
    &&& globset_buildable_of(globs.map_values(|g: Seq<char>| trim_trailing_slashes(g)))
}

/// Builds a matcher over the normalized patterns, succeeding exactly when
/// every pattern is a valid glob and the set compiles.
#[verifier::loop_isolation(false)]
fn build_globset_from_globs(globs: &Vec<String>) -> (r: Option<globset::GlobSet>)
    ensures
        (r is Some) == globs_ok(globs@.map_values(|g: String| g@)),
        r matches Some(s) ==> globset_patterns(s) == globs@.map_values(
            |g: String| trim_trailing_slashes(g@),
        ),
{
    let mut b = globset_builder_new();
    let mut i: usize = 0;
    proof {
        assert(globs@.subrange(0, 0).map_values(|g: String| trim_trailing_slashes(g@)) =~= Seq::<
            Seq<char>,
        >::empty());
    }
    while i < globs.len()
        invariant
            i <= globs@.len(),
            builder_patterns(b) == globs@.subrange(0, i as int).map_values(
                |g: String| trim_trailing_slashes(g@),
            ),
            forall|t: int|
                0 <= t < i ==> glob_valid_of(trim_trailing_slashes((#[trigger] globs@[t])@)),
        decreases globs@.len() - i,
    {
        let normed = norm_for_glob(globs[i].as_str());
        if !globset_builder_add(&mut b, normed.as_str()) {
            proof {
                assert(!globs_ok(globs@.map_values(|g: String| g@))) by {
                    let gv = globs@.map_values(|g: String| g@);
                    assert(gv[i as int] == globs@[i as int]@);
                    assert(!glob_valid_of(trim_trailing_slashes(gv[i as int])));
                }
            }
            return None;
        }
        proof {
            assert(globs@.subrange(0, i + 1).map_values(
                |g: String| trim_trailing_slashes(g@),
            ) =~= globs@.subrange(0, i as int).map_values(
                |g: String| trim_trailing_slashes(g@),
            ).push(trim_trailing_slashes(globs@[i as int]@)));
        }
        i = i + 1;
    }
    proof {
        assert(globs@.subrange(0, globs@.len() as int) =~= globs@);
        let gv = globs@.map_values(|g: String| g@);
        assert(gv.map_values(|g: Seq<char>| trim_trailing_slashes(g)) =~= globs@.map_values(
            |g: String| trim_trailing_slashes(g@),
        ));
        assert(forall|t: int|
            0 <= t < gv.len() ==> glob_valid_of(trim_trailing_slashes(#[trigger] gv[t])));
    }
    globset_builder_build(&b)
}

/// Whether the normalized path lies in the glob set built from the
/// normalized patterns; undecided exactly when a pattern is not a valid
/// glob or the set does not compile.
pub fn globs_match(globs: &Vec<String>, path: &str) -> (r: Option<bool>)
    ensures
        (r is Some) == globs_ok(globs@.map_values(|g: String| g@)),
        r matches Some(b) ==> b == globset_match_of(
            globs@.map_values(|g: String| trim_trailing_slashes(g@)),
            trim_trailing_slashes(path@),
        ),
{
    match build_globset_from_globs(globs) {
        Some(gs) => {
            let normed = norm_for_glob(path);
            let m = globset_is_match(&gs, normed.as_str());
            proof {
                assert(globset_patterns(gs) == globs@.map_values(
                    |g: String| trim_trailing_slashes(g@),
                ));
            }
            Some(m)
        },
        None => None,
    }
}

/// This directory's manifest declares a non-empty workspace glob list.
pub open spec fn ws_decl_at(snap: Snapshot, dir: Seq<char>) -> bool {
    manifest_file_spec(snap, dir) matches ManifestFile::Json(v) && !ws_field_err(v)
        && globs_spec(v, dir).len() > 0
}

/// Some directory at or above `dir` declares workspaces.
pub open spec fn decl_above(snap: Snapshot, dir: Seq<char>) -> bool
    decreases dir.len(),
{
    ||| ws_decl_at(snap, dir)
    ||| match parent_path(dir) {
        Some(p) => if p.len() < dir.len() {
            decl_above(snap, p)
        } else {
            false
        },
        None => false,
    }
}

/// The declaration at `dir` is one the dispatcher cannot honour: a field
/// is malformed, a glob is not a valid pattern or the set does not
/// compile, or a matched member directory holds a package that does not
/// load with everything settled.
pub open spec fn dirty_decl_at(snap: Snapshot, dir: Seq<char>) -> bool {
    ws_decl_at(snap, dir) && (manifest_file_spec(snap, dir) matches ManifestFile::Json(v) && (
    base_fields_err(v, dir) || !globs_ok(globs_spec(v, dir)) || some_member_dirty(
        snap,
        globs_spec(v, dir),
    )))
}

/// Some directory at or above `dir` holds a workspace declaration the
/// dispatcher cannot honour.
pub open spec fn dirty_decl_above(snap: Snapshot, dir: Seq<char>) -> bool
    decreases dir.len(),
{
    ||| dirty_decl_at(snap, dir)
    ||| match parent_path(dir) {
        Some(p) => if p.len() < dir.len() {
            dirty_decl_above(snap, p)
        } else {
            false
        },
        None => false,
    }
}

/// The manifest at `dir` cannot be loaded as a package root: it did not
/// decode, a field is malformed, or a declared member is dirty.
pub open spec fn manifest_blocked(snap: Snapshot, dir: Seq<char>) -> bool {
    ||| manifest_file_spec(snap, dir) is Unreadable
    ||| (manifest_file_spec(snap, dir) matches ManifestFile::Json(v) && (base_fields_err(v, dir)
        || some_member_dirty(snap, globs_spec(v, dir))))
}

/// A root is already cached under this directory.
pub open spec fn cache_hit(r: Resolver, dir: Seq<char>) -> bool {
    exists|i: int|
        0 <= i < r.workspace_roots@.len() && (#[trigger] r.workspace_roots@[i]).0@ == dir
}

/// This directory is an enclosing workspace root for `path` on its own
/// terms: it declares workspaces and either is `path` itself or its glob
/// set matches `path`, trailing separators trimmed.
pub open spec fn fresh_hit(snap: Snapshot, dir: Seq<char>, path: Seq<char>) -> bool {
    &&& ws_decl_at(snap, dir)
    &&& (dir == path || (manifest_file_spec(snap, dir) matches ManifestFile::Json(v)
        && globset_match_of(
        globs_spec(v, dir).map_values(|g: Seq<char>| trim_trailing_slashes(g)),
        trim_trailing_slashes(path),
    )))
}

/// The upward walk stops at this directory.
pub open spec fn root_hit(r: Resolver, dir: Seq<char>, path: Seq<char>) -> bool {
    cache_hit(r, dir) || fresh_hit(r.snap, dir, path)
}

/// The nearest directory at or above `dir` where the walk for `path`
/// stops, if any.
pub open spec fn search_from(r: Resolver, dir: Seq<char>, path: Seq<char>) -> Option<Seq<char>>
    decreases dir.len(),
{
    if root_hit(r, dir, path) {
        Some(dir)
    } else {
        match parent_path(dir) {
            Some(p) => if p.len() < dir.len() {
                search_from(r, p, path)
            } else {
                None
            },
            None => None,
        }
    }
}

/// The first cached root under this directory name.
pub open spec fn root_index_from(
    roots: Seq<(String, WorkspaceRoot)>,
    i: int,
    dir: Seq<char>,
) -> Option<int>
    decreases roots.len() - i,
{
    if i < 0 || i >= roots.len() {
        None
    } else if roots[i].0@ == dir {
        Some(i)
    } else {
        root_index_from(roots, i + 1, dir)
    }
}

/// The cached root the dispatcher answers for this directory.
pub open spec fn root_index_of(r: Resolver, dir: Seq<char>) -> Option<int> {
    root_index_from(r.workspace_roots@, 0, dir)
}

/// The copied member list mirrors the cached root's members key for key.
pub open spec fn ms_matches_root(ms: Seq<PackageJsonData>, root: WorkspaceRoot) -> bool {
    &&& ms.len() == (match root.data.workspace_data {
        Some(w) => w.workspace_packages@.len() as int,
        None => 0int,
    })
    &&& forall|j: int|
        0 <= j < ms.len() ==> (root.data.workspace_data matches Some(w)
            && crate::package::key_eq_spec(
            crate::dependency_resolver::data_key(#[trigger] ms[j]),
            crate::dependency_resolver::data_key(w.workspace_packages@[j]),
        ))
}

/// A stopped walk implies a workspace declaration at or above the start:
/// cached roots declare workspaces (the dispatcher only caches such), and
/// fresh stops declare them by definition.
proof fn lemma_search_decl(r: Resolver, cur: Seq<char>, path: Seq<char>)
    requires
        dispatcher_wf(r),
        search_from(r, cur, path) is Some,
    ensures
        decl_above(r.snap, cur),
    decreases cur.len(),
{
    if root_hit(r, cur, path) {
        if cache_hit(r, cur) {
            let i = choose|i: int|
                0 <= i < r.workspace_roots@.len() && (#[trigger] r.workspace_roots@[i]).0@
                    == cur;
            assert(ws_decl_at(r.snap, cur));
        }
    } else {
        match parent_path(cur) {
            Some(p) => {
                if p.len() < cur.len() {
                    lemma_search_decl(r, p, path);
                }
            },
            None => {},
        }
    }
}

/// One cached workspace root: its manifest (with expanded members) and the
/// index of its resolver.
pub struct WorkspaceRoot {
    pub data: PackageJsonData,
    pub dep_resolver: usize,
}

/// The dispatcher: the filesystem snapshot, the scope arena, the cached
/// workspace roots and every resolver built so far.
pub struct Resolver {
    pub snap: Snapshot,
    pub scopes: ScopeArena,
    pub workspace_roots: Vec<(String, WorkspaceRoot)>,
    pub dep_resolvers: Vec<DependencyResolver>,
    pub max_depth: usize,
}

/// The dispatcher's invariant: a well-formed snapshot and arena, every
/// resolver at rest over a valid scope, and every cached root well-formed.
pub open spec fn dispatcher_wf(r: Resolver) -> bool {
    &&& snapshot_wf(r.snap)
    &&& arena_wf(r.scopes)
    &&& forall|i: int|
        0 <= i < r.dep_resolvers@.len() ==> resolver_wf(#[trigger] r.dep_resolvers@[i]) && at_rest(
            r.dep_resolvers@[i],
        ) && r.dep_resolvers@[i].root_node_modules < r.scopes.scopes@.len()
    &&& forall|i: int|
        0 <= i < r.workspace_roots@.len() ==> (#[trigger] r.workspace_roots@[i]).1.dep_resolver
            < r.dep_resolvers@.len() && manifest_wf(r.workspace_roots@[i].1.data)
            && ws_decl_at(r.snap, r.workspace_roots@[i].0@) && (manifest_file_spec(
            r.snap,
            r.workspace_roots@[i].0@,
        ) matches ManifestFile::Json(v) && loaded_matches(
            r.workspace_roots@[i].1.data,
            v,
            r.workspace_roots@[i].0@,
        ))
}

impl Resolver {
    /// A dispatcher over one snapshot of the filesystem.
    pub fn new(snap: Snapshot, max_depth: usize) -> (r: Resolver)
        requires
            snapshot_wf(snap),
        ensures
            dispatcher_wf(r),
            r.max_depth == max_depth,
    {
        Resolver {
            snap,
            scopes: ScopeArena::new(),
            workspace_roots: Vec::new(),
            dep_resolvers: Vec::new(),
            max_depth,
        }
    }

    /// The cached workspace root at `path` (a canonical path), if any.
    #[verifier::loop_isolation(false)]
    pub fn get_workspace_root<'a>(&'a self, path: &str) -> (r: Option<&'a WorkspaceRoot>)
        requires
            dispatcher_wf(*self),
        ensures
            r matches Some(w) ==> w.dep_resolver < self.dep_resolvers@.len() && manifest_wf(
                w.data,
            ),
    {
        let mut i: usize = 0;
        while i < self.workspace_roots.len()
            invariant
                i <= self.workspace_roots@.len(),
            decreases self.workspace_roots@.len() - i,
        {
            if str_eq_str(self.workspace_roots[i].0.as_str(), path) {
                proof {
                    assert((self.workspace_roots@[i as int]).1.dep_resolver
                        < self.dep_resolvers@.len());
                }
                return Some(&self.workspace_roots[i].1);
            }
            i = i + 1;
        }
        None
    }

    /// Walks upward from `path` looking for an enclosing workspace root:
    /// a manifest that declares workspaces and either sits at `path`
    /// itself or whose glob set matches `path`. Found roots are cached
    /// together with a resolver over their installed packages.
    #[verifier::loop_isolation(false)]
    fn search_workspace_root_from(&mut self, path: &str) -> (r: Result<Option<usize>, Error>)
        requires
            dispatcher_wf(*old(self)),
        ensures
            dispatcher_wf(*final(self)),
            final(self).max_depth == old(self).max_depth,
            final(self).snap == old(self).snap,
            final(self).workspace_roots@.len() >= old(self).workspace_roots@.len(),
            final(self).workspace_roots@.subrange(0, old(self).workspace_roots@.len() as int)
                == old(self).workspace_roots@,
            final(self).dep_resolvers@.subrange(0, old(self).dep_resolvers@.len() as int)
                == old(self).dep_resolvers@,
            r matches Err(e) ==> e == Error::InvalidManifest && decl_above(
                old(self).snap,
                path@,
            ) && dirty_decl_above(old(self).snap, path@),
            (r matches Ok(o) && o is None) ==> search_from(*old(self), path@, path@) is None
                && *final(self) == *old(self),
            r matches Ok(o) ==> match o {
                Some(i) => i < final(self).workspace_roots@.len() && (search_from(
                    *old(self),
                    path@,
                    path@,
                ) matches Some(d) && final(self).workspace_roots@[i as int].0@ == d),
                None => true,
            },
    {
        let mut cur: String = String::from_str(path);
        loop
            invariant
                *self == *old(self),
                dispatcher_wf(*self),
                search_from(*old(self), path@, path@) == search_from(*old(self), cur@, path@),
                decl_above(old(self).snap, cur@) ==> decl_above(old(self).snap, path@),
                dirty_decl_above(old(self).snap, cur@) ==> dirty_decl_above(
                    old(self).snap,
                    path@,
                ),
            decreases cur@.len(),
        {
            let ghost decl_here = ws_decl_at(self.snap, cur@);
            let mut found_globs: Option<Vec<String>> = None;
            match read_package_json(&self.snap, cur.as_str()) {
                Err(_) => {
                    // an unreadable manifest on the way up is not this
                    // package's manifest; keep walking
                    proof {
                        assert(!decl_here);
                    }
                },
                Ok(None) => {
                    proof {
                        assert(!decl_here);
                    }
                },
                Ok(Some(v)) => {
                    match get_workspace_globs(v, cur.as_str()) {
                        Ok(Some(globs)) => {
                            proof {
                                assert(decl_here);
                            }
                            found_globs = Some(globs);
                        },
                        Ok(None) => {
                            proof {
                                assert(!decl_here);
                            }
                        },
                        Err(_) => {
                            // malformed workspace declarations above us do
                            // not block resolution of the package itself
                            proof {
                                assert(!decl_here);
                            }
                        },
                    }
                },
            }
            let ghost globs_view = match &found_globs {
                Some(g) => g@.map_values(|x: String| x@),
                None => Seq::empty(),
            };
            proof {
                assert((found_globs is Some) == decl_here);
                if found_globs is Some {
                    assert(manifest_file_spec(self.snap, cur@) matches ManifestFile::Json(v2)
                        && globs_view == globs_spec(v2, cur@));
                }
            }
            if let Some(existing) = self.find_root_index(cur.as_str()) {
                proof {
                    assert(cache_hit(*self, cur@));
                    assert(search_from(*old(self), cur@, path@) == Some(cur@));
                    assert(self.workspace_roots@.subrange(
                        0,
                        old(self).workspace_roots@.len() as int,
                    ) =~= old(self).workspace_roots@);
                    assert(self.dep_resolvers@.subrange(
                        0,
                        old(self).dep_resolvers@.len() as int,
                    ) =~= old(self).dep_resolvers@);
                }
                return Ok(Some(existing));
            }
            if let Some(globs) = found_globs {
                let is_here = str_eq_str(cur.as_str(), path);
                let matched: bool = if is_here {
                    true
                } else {
                    match build_globset_from_globs(&globs) {
                        Some(gs) => {
                            let normed = norm_for_glob(path);
                            let m = globset_is_match(&gs, normed.as_str());
                            proof {
                                assert(globs@.map_values(
                                    |g: String| trim_trailing_slashes(g@),
                                ) =~= globs_view.map_values(
                                    |g: Seq<char>| trim_trailing_slashes(g),
                                ));
                            }
                            m
                        },
                        None => {
                            proof {
                                assert(decl_above(old(self).snap, cur@));
                                assert(!globs_ok(globs_view));
                                assert(dirty_decl_at(old(self).snap, cur@));
                                assert(dirty_decl_above(old(self).snap, cur@));
                                assert(self.workspace_roots@.subrange(
                                    0,
                                    old(self).workspace_roots@.len() as int,
                                ) =~= old(self).workspace_roots@);
                                assert(self.dep_resolvers@.subrange(
                                    0,
                                    old(self).dep_resolvers@.len() as int,
                                ) =~= old(self).dep_resolvers@);
                            }
                            return Err(Error::InvalidManifest);
                        },
                    }
                };
                if matched {
                    proof {
                        assert(fresh_hit(old(self).snap, cur@, path@));
                        assert(search_from(*old(self), cur@, path@) == Some(cur@));
                    }
                    let ghost pre_push = *self;
                    let data = match PackageJsonData::new_root(
                        &self.snap,
                        &mut self.scopes,
                        cur.as_str(),
                    ) {
                        Ok(Some(d)) => d,
                        Ok(None) => {
                            proof {
                                assert(false);
                            }
                            return Err(Error::InvalidManifest);
                        },
                        Err(e) => {
                            proof {
                                assert(decl_above(old(self).snap, cur@));
                                assert(!(manifest_file_spec(old(self).snap, cur@) is Unreadable));
                                assert(dirty_decl_at(old(self).snap, cur@));
                                assert(dirty_decl_above(old(self).snap, cur@));
                                assert(self.workspace_roots@.subrange(
                                    0,
                                    old(self).workspace_roots@.len() as int,
                                ) =~= old(self).workspace_roots@);
                                assert(self.dep_resolvers@.subrange(
                                    0,
                                    old(self).dep_resolvers@.len() as int,
                                ) =~= old(self).dep_resolvers@);
                            }
                            return Err(e);
                        },
                    };
                    let nm = path_join(cur.as_str(), "node_modules");
                    let scope = self.scopes.from_folder(&self.snap, nm.as_str(), None);
                    let dr = DependencyResolver::new(scope, self.max_depth);
                    let ri = self.dep_resolvers.len();
                    self.dep_resolvers.push(dr);
                    let wi = self.workspace_roots.len();
                    self.workspace_roots.push(
                        (cur, WorkspaceRoot { data, dep_resolver: ri }),
                    );
                    proof {
                        assert(self.workspace_roots@.subrange(
                            0,
                            old(self).workspace_roots@.len() as int,
                        ) =~= old(self).workspace_roots@);
                        assert(self.dep_resolvers@.subrange(
                            0,
                            old(self).dep_resolvers@.len() as int,
                        ) =~= old(self).dep_resolvers@);
                        assert forall|t: int|
                            0 <= t < self.dep_resolvers@.len() implies resolver_wf(
                            #[trigger] self.dep_resolvers@[t],
                        ) && at_rest(self.dep_resolvers@[t]) && self.dep_resolvers@[
                            t
                        ].root_node_modules < self.scopes.scopes@.len() by {
                            if t < old(self).dep_resolvers@.len() {
                                assert(self.dep_resolvers@[t] == old(self).dep_resolvers@[t]);
                            }
                        }
                        assert forall|t: int|
                            0 <= t < self.workspace_roots@.len() implies (
                        #[trigger] self.workspace_roots@[t]).1.dep_resolver
                            < self.dep_resolvers@.len() && manifest_wf(
                            self.workspace_roots@[t].1.data,
                        ) && ws_decl_at(self.snap, self.workspace_roots@[t].0@) && (
                        manifest_file_spec(self.snap, self.workspace_roots@[t].0@)
                            matches ManifestFile::Json(v) && loaded_matches(
                            self.workspace_roots@[t].1.data,
                            v,
                            self.workspace_roots@[t].0@,
                        )) by {
                            if t < old(self).workspace_roots@.len() {
                                assert(self.workspace_roots@[t] == old(
                                    self,
                                ).workspace_roots@[t]);
                            }
                        }
                        assert(dispatcher_wf(*self));
                    }
                    return Ok(Some(wi));
                }
            }
            proof {
                assert(!root_hit(*old(self), cur@, path@));
            }
            match path_parent(cur.as_str()) {
                Some(p) => {
                    proof {
                        assert(search_from(*old(self), cur@, path@) == search_from(
                            *old(self),
                            p@,
                            path@,
                        ));
                        if decl_above(old(self).snap, p@) {
                            assert(decl_above(old(self).snap, cur@));
                        }
                        if dirty_decl_above(old(self).snap, p@) {
                            assert(dirty_decl_above(old(self).snap, cur@));
                        }
                    }
                    cur = p;
                },
                None => {
                    proof {
                        assert(search_from(*old(self), cur@, path@) is None);
                        assert(self.workspace_roots@.subrange(
                            0,
                            old(self).workspace_roots@.len() as int,
                        ) =~= old(self).workspace_roots@);
                        assert(self.dep_resolvers@.subrange(
                            0,
                            old(self).dep_resolvers@.len() as int,
                        ) =~= old(self).dep_resolvers@);
                    }
                    return Ok(None);
                },
            }
        }
    }

    /// The index of the cached workspace root at `path`, if any.
    #[verifier::loop_isolation(false)]
    fn find_root_index(&self, path: &str) -> (r: Option<usize>)
        ensures
            match r {
                Some(i) => i < self.workspace_roots@.len() && self.workspace_roots@[
                    i as int
                ].0@ == path@ && Some(i as int) == root_index_of(*self, path@),
                None => !cache_hit(*self, path@) && root_index_of(*self, path@) is None,
            },
    {
        let mut i: usize = 0;
        while i < self.workspace_roots.len()
            invariant
                i <= self.workspace_roots@.len(),
                root_index_of(*self, path@) == root_index_from(
                    self.workspace_roots@,
                    i as int,
                    path@,
                ),
                forall|j: int|
                    0 <= j < i ==> (#[trigger] self.workspace_roots@[j]).0@ != path@,
            decreases self.workspace_roots@.len() - i,
        {
            if str_eq_str(self.workspace_roots[i].0.as_str(), path) {
                return Some(i);
            }
            i = i + 1;
        }
        None
    }

    /// Resolves the package at `path` (a canonical path): through its
    /// enclosing workspace root when one exists, else standalone over its
    /// own installed packages. Returns the resolver index and the root
    /// package's key.
    pub fn resolve(&mut self, path: &str) -> (r: Result<(usize, PackageKey), Error>)
        requires
            dispatcher_wf(*old(self)),
        ensures
            dispatcher_wf(*final(self)),
            final(self).max_depth == old(self).max_depth,
            final(self).snap == old(self).snap,
            r matches Ok(out) ==> out.0 < final(self).dep_resolvers@.len() && contains_key(
                final(self).dep_resolvers@[out.0 as int],
                out.1,
            ),
            r matches Err(e) ==> (e == Error::InvalidManifest || e == Error::MissingManifest
                || e == Error::MissingNodeModules),
            (r matches Err(e) && e == Error::InvalidManifest) ==> (dirty_decl_above(
                old(self).snap,
                path@,
            ) || manifest_blocked(old(self).snap, path@)),
            (r matches Err(e) && e == Error::MissingManifest) ==> match search_from(*old(self), path@, path@) {
                None => manifest_file_spec(old(self).snap, path@) is Absent,
                Some(d) => exists|i: int|
                    0 <= i < final(self).workspace_roots@.len() && (#[trigger] final(self)
                        .workspace_roots@[i]).0@ == d && final(self).workspace_roots@[
                        i
                    ].1.data.install_path@ != path@ && (final(self).workspace_roots@[
                        i
                    ].1.data.workspace_data matches Some(w) ==> forall|k: int|
                        0 <= k < w.workspace_packages@.len() ==> (#[trigger] w
                            .workspace_packages@[k]).install_path@ != path@),
            },
            (r matches Err(e) && e == Error::MissingNodeModules) ==> search_from(
                *old(self),
                path@,
                path@,
            ) is None && !dir_exists(
                old(self).snap,
                path@ + seq!['/'] + "node_modules"@,
            ),
            (!decl_above(old(self).snap, path@) && manifest_file_spec(
                old(self).snap,
                path@,
            ) is Absent) ==> (r matches Err(e) && e == Error::MissingManifest),
            (!decl_above(old(self).snap, path@) && (manifest_file_spec(old(self).snap, path@)
                matches ManifestFile::Json(v) && !base_fields_err(v, path@)) && dir_exists(
                old(self).snap,
                path@ + seq!['/'] + "node_modules"@,
            )) ==> r is Ok,
            (!decl_above(old(self).snap, path@) && (manifest_file_spec(old(self).snap, path@)
                matches ManifestFile::Json(v) && !base_fields_err(v, path@)) && !dir_exists(
                old(self).snap,
                path@ + seq!['/'] + "node_modules"@,
            )) ==> (r matches Err(e) && e == Error::MissingNodeModules),
            (!decl_above(old(self).snap, path@) && (manifest_file_spec(old(self).snap, path@)
                matches ManifestFile::Json(v) && base_fields_err(v, path@))) ==> (r matches Err(
                e,
            ) && e == Error::InvalidManifest),
            (!decl_above(old(self).snap, path@) && manifest_file_spec(old(self).snap, path@)
                is Unreadable) ==> (r matches Err(e) && e == Error::InvalidManifest),
            search_from(*old(self), path@, path@) is None ==> (r matches Ok(out) ==> (
            manifest_file_spec(old(self).snap, path@) matches ManifestFile::Json(v) && out.1
                .name@ == name_of_json(v) && version_rel(v, out.1.version))),
            search_from(*old(self), path@, path@) matches Some(d) ==> (r matches Ok(out)
                ==> exists|i: int|
                0 <= i < final(self).workspace_roots@.len() && (#[trigger] final(self)
                    .workspace_roots@[i]).0@ == d && out.0 == final(self).workspace_roots@[
                    i
                ].1.dep_resolver && {
                    let root = final(self).workspace_roots@[i].1.data;
                    ||| (root.install_path@ == path@ && crate::package::key_eq_spec(
                        out.1,
                        crate::dependency_resolver::data_key(root),
                    ))
                    ||| (root.workspace_data matches Some(w) && exists|k: int|
                        0 <= k < w.workspace_packages@.len() && (#[trigger] w
                            .workspace_packages@[k]).install_path@ == path@
                            && crate::package::key_eq_spec(
                            out.1,
                            crate::dependency_resolver::data_key(w.workspace_packages@[k]),
                        ))
                }),
    {
        let ws = match self.search_workspace_root_from(path) {
            Ok(w) => w,
            Err(e) => {
                return Err(e);
            },
        };
        match ws {
            Some(wi) => {
                proof {
                    lemma_search_decl(*old(self), path@, path@);
                    assert(manifest_wf((self.workspace_roots@[wi as int]).1.data));
                }
                let data: PackageJsonData = match self.workspace_roots[wi].1.data
                    .get_data_from_path(path) {
                    Some(m) => {
                        proof {
                            let root = (self.workspace_roots@[wi as int]).1.data;
                            if *m != root {
                                match root.workspace_data {
                                    Some(w) => {
                                        let k = choose|k: int|
                                            0 <= k < w.workspace_packages@.len()
                                                && #[trigger] w.workspace_packages@[k] == *m;
                                        assert(manifest_wf(w.workspace_packages[k]));
                                    },
                                    None => {},
                                }
                            }
                        }
                        let copy = m.duplicate_core();
                        proof {
                            assert(m.install_path@ == path@);
                            assert(crate::package::key_eq_spec(
                                crate::dependency_resolver::data_key(copy),
                                crate::dependency_resolver::data_key(*m),
                            ));
                            assert(exists|m_spec: PackageJsonData|
                                (m_spec == self.workspace_roots@[wi as int].1.data || (
                                self.workspace_roots@[wi as int].1.data.workspace_data
                                    matches Some(w) && exists|k: int|
                                    0 <= k < w.workspace_packages@.len() && #[trigger] w
                                        .workspace_packages@[k] == m_spec))
                                    && m_spec.install_path@ == path@
                                    && crate::package::key_eq_spec(
                                    crate::dependency_resolver::data_key(copy),
                                    crate::dependency_resolver::data_key(m_spec),
                                )) by {
                                assert((*m == self.workspace_roots@[wi as int].1.data || (
                                self.workspace_roots@[wi as int].1.data.workspace_data
                                    matches Some(w) && exists|k: int|
                                    0 <= k < w.workspace_packages@.len() && #[trigger] w
                                        .workspace_packages@[k] == *m))
                                    && m.install_path@ == path@
                                    && crate::package::key_eq_spec(
                                    crate::dependency_resolver::data_key(copy),
                                    crate::dependency_resolver::data_key(*m),
                                ));
                            }
                        }
                        copy
                    },
                    None => {
                        proof {
                            assert(0 <= wi < self.workspace_roots@.len() && (
                            self.workspace_roots@[wi as int]).0@ == search_from(
                                *old(self),
                                path@,
                                path@,
                            ).unwrap());
                        }
                        return Err(Error::MissingManifest);
                    },
                };
                let ghost m_spec = choose|m_spec: PackageJsonData|
                    (m_spec == self.workspace_roots@[wi as int].1.data || (
                    self.workspace_roots@[wi as int].1.data.workspace_data matches Some(w)
                        && exists|k: int|
                        0 <= k < w.workspace_packages@.len() && #[trigger] w
                            .workspace_packages@[k] == m_spec)) && m_spec.install_path@
                        == path@ && crate::package::key_eq_spec(
                        crate::dependency_resolver::data_key(data),
                        crate::dependency_resolver::data_key(m_spec),
                    );
                let ri = self.workspace_roots[wi].1.dep_resolver;
                let ghost wr_pre = self.workspace_roots@;
                let out = self.resolve_with(ri, &data);
                proof {
                    assert(out is Ok);
                    assert(self.workspace_roots@ == wr_pre);
                    match &out {
                        Ok(o) => {
                            assert(crate::package::key_eq_spec(
                                o.1,
                                crate::dependency_resolver::data_key(m_spec),
                            ));
                        },
                        Err(_) => {},
                    }
                }
                out
            },
            None => {
                let ghost had_json = manifest_file_spec(old(self).snap, path@)
                    matches ManifestFile::Json(v) && !base_fields_err(v, path@);
                proof {
                    if !decl_above(old(self).snap, path@) && had_json {
                        assert(!ws_decl_at(old(self).snap, path@));
                    }
                }
                let data = match PackageJsonData::new_root(&self.snap, &mut self.scopes, path) {
                    Ok(Some(d)) => d,
                    Ok(None) => {
                        return Err(Error::MissingManifest);
                    },
                    Err(e) => {
                        proof {
                            if !decl_above(old(self).snap, path@) && had_json {
                                assert(crate::package_data::loads_plainly(
                                    old(self).snap,
                                    path@,
                                ));
                                assert(false);
                            }
                        }
                        return Err(e);
                    },
                };
                let nm = path_join(path, "node_modules");
                if self.snap.find_dir(nm.as_str()).is_none() {
                    return Err(Error::MissingNodeModules);
                }
                let scope = self.scopes.from_folder(&self.snap, nm.as_str(), None);
                let ri = self.dep_resolvers.len();
                self.dep_resolvers.push(DependencyResolver::new(scope, self.max_depth));
                let out = self.resolve_with(ri, &data);
                proof {
                    assert(out is Ok);
                    match &out {
                        Ok(o) => {
                            assert(o.1.name@ == data.name@);
                            match manifest_file_spec(old(self).snap, path@) {
                                ManifestFile::Json(v) => {
                                    assert(version_rel(v, o.1.version)) by {
                                        assert(version_rel(v, data.version));
                                        assert(crate::package::opt_str_eq(
                                            o.1.version,
                                            data.version,
                                        ));
                                    }
                                },
                                _ => {},
                            }
                        },
                        Err(_) => {},
                    }
                }
                out
            },
        }
    }

    /// Resolves one manifest through the resolver at `ri`.
    fn resolve_with(&mut self, ri: usize, data: &PackageJsonData) -> (r: Result<
        (usize, PackageKey),
        Error,
    >)
        requires
            dispatcher_wf(*old(self)),
            ri < old(self).dep_resolvers@.len(),
            manifest_wf(*data),
        ensures
            dispatcher_wf(*final(self)),
            final(self).max_depth == old(self).max_depth,
            final(self).snap == old(self).snap,
            final(self).dep_resolvers@.len() == old(self).dep_resolvers@.len(),
            final(self).workspace_roots@ == old(self).workspace_roots@,
            forall|i: int|
                0 <= i < old(self).dep_resolvers@.len() ==> pkg_prefix_preserved(
                    old(self).dep_resolvers@[i],
                    #[trigger] final(self).dep_resolvers@[i],
                ),
            r matches Ok(out) ==> out.0 < final(self).dep_resolvers@.len() && contains_key(
                final(self).dep_resolvers@[out.0 as int],
                out.1,
            ),
            r is Ok,
            r matches Ok(out) ==> out.0 == ri && crate::package::key_eq_spec(
                out.1,
                crate::dependency_resolver::data_key(*data),
            ),
    {
        let ghost pre_drs = self.dep_resolvers@;
        let mut dr = self.dep_resolvers.remove(ri);
        let key = match dr.resolve_root_package(&self.snap, &mut self.scopes, data) {
            Ok(k) => k,
            Err(e) => {
                proof {
                    assert(false);
                }
                self.dep_resolvers.insert(ri, dr);
                proof {
                    assert(self.dep_resolvers@ =~= pre_drs);
                    assert forall|i: int|
                        0 <= i < pre_drs.len() implies pkg_prefix_preserved(
                        pre_drs[i],
                        #[trigger] self.dep_resolvers@[i],
                    ) by {
                        assert(self.dep_resolvers@[i].packages@.subrange(
                            0,
                            pre_drs[i].packages@.len() as int,
                        ) =~= pre_drs[i].packages@);
                    }
                }
                return Err(e);
            },
        };
        self.dep_resolvers.insert(ri, dr);
        proof {
            assert(self.dep_resolvers@ =~= pre_drs.update(ri as int, self.dep_resolvers@[
                ri as int
            ]));
            assert forall|i: int|
                0 <= i < self.dep_resolvers@.len() implies resolver_wf(
                #[trigger] self.dep_resolvers@[i],
            ) && at_rest(self.dep_resolvers@[i]) && self.dep_resolvers@[i].root_node_modules
                < self.scopes.scopes@.len() by {
                if i != ri {
                    assert(self.dep_resolvers@[i] == pre_drs[i]);
                }
            }
            assert forall|i: int|
                0 <= i < pre_drs.len() implies pkg_prefix_preserved(
                pre_drs[i],
                #[trigger] self.dep_resolvers@[i],
            ) by {
                if i != ri {
                    assert(self.dep_resolvers@[i] == pre_drs[i]);
                }
                assert(self.dep_resolvers@[i].packages@.subrange(
                    0,
                    pre_drs[i].packages@.len() as int,
                ) =~= pre_drs[i].packages@);
            }
        }
        Ok((ri, key))
    }

    /// Resolves every member of the workspace rooted at `path` (a
    /// canonical path) through the shared resolver.
    #[verifier::loop_isolation(false)]
    pub fn resolve_workspace_members(&mut self, path: &str) -> (r: Result<
        Vec<(usize, PackageKey)>,
        Error,
    >)
        requires
            dispatcher_wf(*old(self)),
        ensures
            dispatcher_wf(*final(self)),
            final(self).max_depth == old(self).max_depth,
            final(self).snap == old(self).snap,
            r matches Ok(out) ==> forall|i: int|
                0 <= i < out@.len() ==> (#[trigger] out@[i]).0 < final(self)
                    .dep_resolvers@.len() && contains_key(
                    final(self).dep_resolvers@[out@[i].0 as int],
                    out@[i].1,
                ),
            (r is Err) <==> root_index_of(*old(self), path@) is None,
            r matches Err(e) ==> e == Error::MissingManifest,
            r matches Ok(out) ==> (root_index_of(*old(self), path@) matches Some(wi) && {
                let root = old(self).workspace_roots@[wi].1;
                &&& out@.len() == (match root.data.workspace_data {
                    Some(w) => w.workspace_packages@.len() as int,
                    None => 0int,
                })
                &&& forall|j: int|
                    0 <= j < out@.len() ==> (#[trigger] out@[j]).0 == root.dep_resolver && (
                    root.data.workspace_data matches Some(w) && crate::package::key_eq_spec(
                        out@[j].1,
                        crate::dependency_resolver::data_key(w.workspace_packages@[j]),
                    ))
            }),
    {
        let wi = match self.find_root_index(path) {
            Some(i) => i,
            None => {
                return Err(Error::MissingManifest);
            },
        };
        let ghost root_spec = self.workspace_roots@[wi as int].1;
        let ri = self.workspace_roots[wi].1.dep_resolver;
        let members: Vec<PackageJsonData> = {
            let mut ms: Vec<PackageJsonData> = Vec::new();
            match &self.workspace_roots[wi].1.data.workspace_data {
                Some(w) => {
                    let mut i: usize = 0;
                    while i < w.workspace_packages.len()
                        invariant
                            i <= w.workspace_packages@.len(),
                            ms@.len() == i,
                            forall|j: int|
                                0 <= j < w.workspace_packages@.len() ==> manifest_wf(
                                    #[trigger] w.workspace_packages@[j],
                                ),
                            forall|j: int| 0 <= j < i ==> manifest_wf(#[trigger] ms@[j]),
                            forall|j: int|
                                0 <= j < i ==> crate::package::key_eq_spec(
                                    crate::dependency_resolver::data_key(#[trigger] ms@[j]),
                                    crate::dependency_resolver::data_key(
                                        w.workspace_packages@[j],
                                    ),
                                ),
                        decreases w.workspace_packages@.len() - i,
                    {
                        ms.push(w.workspace_packages[i].duplicate_core());
                        i = i + 1;
                    }
                },
                None => {},
            }
            ms
        };
        proof {
            assert(ms_matches_root(members@, root_spec));
        }
        let mut out: Vec<(usize, PackageKey)> = Vec::new();
        let mut i: usize = 0;
        while i < members.len()
            invariant
                i <= members@.len(),
                out@.len() == i,
                ri == root_spec.dep_resolver,
                ms_matches_root(members@, root_spec),
                dispatcher_wf(*self),
                self.max_depth == old(self).max_depth,
                self.snap == old(self).snap,
                ri < self.dep_resolvers@.len(),
                forall|j: int| 0 <= j < members@.len() ==> manifest_wf(#[trigger] members@[j]),
                forall|j: int|
                    0 <= j < out@.len() ==> (#[trigger] out@[j]).0 < self.dep_resolvers@.len()
                        && contains_key(self.dep_resolvers@[out@[j].0 as int], out@[j].1),
                forall|j: int|
                    0 <= j < out@.len() ==> (#[trigger] out@[j]).0 == ri
                        && crate::package::key_eq_spec(
                        out@[j].1,
                        crate::dependency_resolver::data_key(members@[j]),
                    ),
            decreases members@.len() - i,
        {
            let ghost drs_before = self.dep_resolvers@;
            let ghost out_before = out@;
            match self.resolve_with(ri, &members[i]) {
                Ok(ok) => {
                    out.push(ok);
                    proof {
                        assert(crate::package::key_eq_spec(
                            out@[out@.len() - 1].1,
                            crate::dependency_resolver::data_key(members@[i as int]),
                        ));
                        assert forall|j: int|
                            0 <= j < out@.len() implies (#[trigger] out@[j]).0
                            < self.dep_resolvers@.len() && contains_key(
                            self.dep_resolvers@[out@[j].0 as int],
                            out@[j].1,
                        ) by {
                            if j < out@.len() - 1 {
                                assert(out@[j] == out_before[j]);
                                lemma_contains_key_preserved(
                                    drs_before[out@[j].0 as int],
                                    self.dep_resolvers@[out@[j].0 as int],
                                    out@[j].1,
                                );
                            }
                        }
                    }
                },
                Err(e) => {
                    proof {
                        assert(false);
                    }
                    return Err(e);
                },
            }
            i = i + 1;
        }
        proof {
            assert(root_index_of(*old(self), path@) == Some(wi as int));
            assert forall|j: int|
                0 <= j < out@.len() implies (#[trigger] out@[j]).0 == root_spec.dep_resolver
                && (root_spec.data.workspace_data matches Some(w)
                && crate::package::key_eq_spec(
                out@[j].1,
                crate::dependency_resolver::data_key(w.workspace_packages@[j]),
            )) by {
                assert(crate::package::key_eq_spec(
                    out@[j].1,
                    crate::dependency_resolver::data_key(members@[j]),
                ));
            }
        }
        Ok(out)
    }
}

} // verus!
