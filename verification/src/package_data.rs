//! Manifest records: reading one package's manifest out of a decoded JSON
//! value, including dependency maps, the placeholder name, the forced-empty
//! dev dependencies of installed copies, and workspace member expansion.

use vstd::prelude::*;
use vstd::string::StringExecFns;

use crate::error::Error;
use crate::extended_version_req::{
    parse_rel, parse_semver_version, req_view, semver_version_canon_of, ExtendedVersionReq, ReqV,
};
use crate::json::{json_as_str, json_field, json_get, json_wf, lemma_json_field_wf, JsonValue};
use crate::node_modules::{arena_extends, arena_wf, new_entries_synthetic, ScopeArena};
use crate::snapshot::{dir_spec, lemma_dir_manifest_wf, snapshot_wf, ManifestFile, Snapshot};
use crate::strutil::{contains_str, contains_sub, path_join, str_eq_str};

verus! {

broadcast use vstd::std_specs::vec::axiom_vec_index_decreases;

/// One package's manifest record, immutable after load.
pub struct PackageJsonData {
    /// The declared name, or the placeholder `{no name}`.
    pub name: String,
    /// The canonical text of the declared version, absent for workspace
    /// members that omit one.
    pub version: Option<String>,
    /// The canonical path of the package directory.
    pub install_path: String,
    /// The id of the installation scope this manifest was gathered through.
    pub parent_id: usize,
    /// Declared dependencies: name to requirement, in manifest order.
    pub dependencies: Vec<(String, ExtendedVersionReq)>,
    /// Declared dev dependencies; always empty for a package installed
    /// under a `node_modules` directory.
    pub dev_dependencies: Vec<(String, ExtendedVersionReq)>,
    /// Present only for a workspace root: its expanded members.
    pub workspace_data: Option<WorkspaceData>,
}

/// The expanded members of one workspace root, sharing one synthetic
/// scope id.
pub struct WorkspaceData {
    pub workspace_packages: Vec<PackageJsonData>,
}

/// The name a manifest declares, or the placeholder.
pub open spec fn name_of_json(json: JsonValue) -> Seq<char> {
    match json_field(json, "name"@) {
        Some(f) => match json_as_str(f) {
            Some(s) => s,
            None => "{no name}"@,
        },
        None => "{no name}"@,
    }
}

/// A `version` field that is present but not a string, or does not parse.
pub open spec fn version_field_err(json: JsonValue) -> bool {
    match json_field(json, "version"@) {
        Some(f) => match json_as_str(f) {
            Some(s) => semver_version_canon_of(s) is None,
            None => true,
        },
        None => false,
    }
}

/// `v` holds the canonical text of the declared version, if one is
/// declared.
pub open spec fn version_rel(json: JsonValue, v: Option<String>) -> bool {
    match json_field(json, "version"@) {
        None => v is None,
        Some(f) => match json_as_str(f) {
            Some(s) => v matches Some(c) && semver_version_canon_of(s) == Some(c@),
            None => false,
        },
    }
}

/// A dependency map value that is not an object of strings.
pub open spec fn deps_val_err(v: JsonValue) -> bool {
    match v {
        JsonValue::Object(fs) => exists|i: int|
            0 <= i < fs@.len() && json_as_str((#[trigger] fs@[i]).1) is None,
        _ => true,
    }
}

/// A dependency field that is present and not an object of strings.
pub open spec fn deps_err(json: JsonValue, key: Seq<char>) -> bool {
    match json_field(json, key) {
        Some(v) => deps_val_err(v),
        None => false,
    }
}

/// The fields of a declared dependency object, or nothing.
pub open spec fn deps_of_json(json: JsonValue, key: Seq<char>) -> Seq<(String, JsonValue)> {
    match json_field(json, key) {
        Some(JsonValue::Object(fs)) => fs@,
        _ => Seq::empty(),
    }
}

/// `deps` records, in order, each declared dependency with a requirement
/// parsed from its string.
pub open spec fn deps_rel(
    fields: Seq<(String, JsonValue)>,
    deps: Seq<(String, ExtendedVersionReq)>,
) -> bool {
    &&& deps.len() == fields.len()
    &&& forall|i: int|
        0 <= i < fields.len() ==> {
            &&& (#[trigger] deps[i]).0@ == fields[i].0@
            &&& match json_as_str(fields[i].1) {
                Some(s) => parse_rel(s, req_view(deps[i].1)),
                None => false,
            }
        }
}

/// No two entries share a name.
pub open spec fn dep_keys_distinct(s: Seq<(String, ExtendedVersionReq)>) -> bool {
    forall|i: int, j: int|
        0 <= i < j < s.len() ==> (#[trigger] s[i]).0@ != (#[trigger] s[j]).0@
}

/// A `workspaces` field that is present and not an array of strings.
pub open spec fn ws_field_err(json: JsonValue) -> bool {
    match json_field(json, "workspaces"@) {
        Some(f) => match f {
            JsonValue::Array(items) => exists|i: int|
                0 <= i < items@.len() && json_as_str(#[trigger] items@[i]) is None,
            _ => true,
        },
        None => false,
    }
}

/// The workspace glob patterns from `items[i..]`: every string entry other
/// than `"."`, prefixed with the install path and a separator.
pub open spec fn globs_from(items: Seq<JsonValue>, i: int, ip: Seq<char>) -> Seq<Seq<char>>
    decreases items.len() - i,
{
    if i < 0 || i >= items.len() {
        Seq::empty()
    } else {
        let rest = globs_from(items, i + 1, ip);
        match json_as_str(items[i]) {
            Some(s) => if s != "."@ {
                seq![ip + seq!['/'] + s] + rest
            } else {
                rest
            },
            None => rest,
        }
    }
}

/// The workspace glob patterns a manifest declares.
pub open spec fn globs_spec(json: JsonValue, ip: Seq<char>) -> Seq<Seq<char>> {
    match json_field(json, "workspaces"@) {
        Some(JsonValue::Array(items)) => globs_from(items@, 0, ip),
        _ => Seq::empty(),
    }
}

/// Any field of the wrong shape: these make a manifest invalid. A malformed
/// `devDependencies` field is ignored for a package installed under
/// `node_modules`, whose dev dependencies are discarded anyway.
pub open spec fn base_fields_err(json: JsonValue, ip: Seq<char>) -> bool {
    ||| version_field_err(json)
    ||| deps_err(json, "dependencies"@)
    ||| (!contains_sub(ip, "node_modules"@) && deps_err(json, "devDependencies"@))
    ||| ws_field_err(json)
}

/// Well-formedness of a loaded manifest: dependency names are distinct, an
/// installed copy has no dev dependencies, and workspace members are
/// well-formed in turn.
pub open spec fn manifest_wf(m: PackageJsonData) -> bool
    decreases m,
{
    &&& dep_keys_distinct(m.dependencies@)
    &&& dep_keys_distinct(m.dev_dependencies@)
    &&& (contains_sub(m.install_path@, "node_modules"@) ==> m.dev_dependencies@.len() == 0)
    &&& match m.workspace_data {
        Some(w) => forall|k: int|
            0 <= k < w.workspace_packages@.len() ==> manifest_wf(
                #[trigger] w.workspace_packages[k],
            ),
        None => true,
    }
}

/// `m` records the manifest decoded from `v` at `path`: every field the
/// loader fixes, independent of the scope id it was stamped with.
pub open spec fn loaded_matches(m: PackageJsonData, v: JsonValue, path: Seq<char>) -> bool {
    &&& m.name@ == name_of_json(v)
    &&& m.install_path@ == path
    &&& version_rel(v, m.version)
    &&& deps_rel(deps_of_json(v, "dependencies"@), m.dependencies@)
    &&& if contains_sub(path, "node_modules"@) {
        m.dev_dependencies@.len() == 0
    } else {
        deps_rel(deps_of_json(v, "devDependencies"@), m.dev_dependencies@)
    }
    &&& manifest_wf(m)
}

/// `p` is one of the directories the workspace globs matched.
pub open spec fn match_path(snap: Snapshot, globs: Seq<String>, p: Seq<char>) -> bool {
    exists|g: int, t: int|
        0 <= g < globs.len() && 0 <= t < crate::snapshot::glob_matches_spec(
            snap,
            (#[trigger] globs[g])@,
        ).len() && p == (#[trigger] crate::snapshot::glob_matches_spec(snap, globs[g]@)[t])@
}

/// The directory at `p` loads with nothing left open: a decoded manifest,
/// no malformed field, no workspace declaration.
pub open spec fn loads_plainly(snap: Snapshot, p: Seq<char>) -> bool {
    manifest_file_spec(snap, p) matches ManifestFile::Json(v) && !base_fields_err(v, p)
        && globs_spec(v, p).len() == 0
}

/// `p` is one of the directories the glob patterns matched.
pub open spec fn match_path_of(snap: Snapshot, globs: Seq<Seq<char>>, p: Seq<char>) -> bool {
    exists|g: int, t: int|
        0 <= g < globs.len() && 0 <= t < crate::snapshot::glob_matches_spec(
            snap,
            #[trigger] globs[g],
        ).len() && p == (#[trigger] crate::snapshot::glob_matches_spec(snap, globs[g])[t])@
}

/// Some matched directory is a package that does not load with everything
/// settled: expanding the members must fail there.
pub open spec fn some_member_dirty(snap: Snapshot, globs: Seq<Seq<char>>) -> bool {
    exists|p: Seq<char>|
        #[trigger] match_path_of(snap, globs, p) && !(manifest_file_spec(snap, p) is Absent)
            && !loads_plainly(snap, p)
}

/// What stands in place of the manifest file of `dir`.
pub open spec fn manifest_file_spec(snap: Snapshot, dir: Seq<char>) -> ManifestFile {
    match dir_spec(snap, dir) {
        None => ManifestFile::Absent,
        Some(d) => d.manifest,
    }
}

/// Reads the decoded manifest of `dir` from the snapshot. A directory
/// without a manifest is not a package (`None`, no error); one whose
/// manifest did not decode is invalid.
pub fn read_package_json<'a>(snap: &'a Snapshot, dir: &str) -> (r: Result<
    Option<&'a JsonValue>,
    Error,
>)
    requires
        snapshot_wf(*snap),
    ensures
        match r {
            Ok(None) => manifest_file_spec(*snap, dir@) is Absent,
            Ok(Some(v)) => manifest_file_spec(*snap, dir@) == ManifestFile::Json(*v) && json_wf(
                *v,
            ),
            Err(e) => e == Error::InvalidManifest && manifest_file_spec(*snap, dir@)
                is Unreadable,
        },
{
    match snap.find_dir(dir) {
        None => Ok(None),
        Some(d) => {
            proof {
                lemma_dir_manifest_wf(*snap, dir@);
            }
            match &d.manifest {
                ManifestFile::Absent => Ok(None),
                ManifestFile::Unreadable => Err(Error::InvalidManifest),
                ManifestFile::Json(v) => Ok(Some(v)),
            }
        },
    }
}

/// Reads one dependency map: an object whose values are requirement
/// strings, each parsed.
#[verifier::loop_isolation(false)]
pub fn deps_from_value(deps: &JsonValue) -> (r: Result<Vec<(String, ExtendedVersionReq)>, Error>)
    requires
        json_wf(*deps),
    ensures
        (r is Err) == deps_val_err(*deps),
        r matches Err(e) ==> e == Error::InvalidManifest,
        r matches Ok(d) ==> *deps matches JsonValue::Object(fs) && deps_rel(fs@, d@)
            && dep_keys_distinct(d@),
{
    match deps {
        JsonValue::Object(fields) => {
            let mut out: Vec<(String, ExtendedVersionReq)> = Vec::new();
            let mut i: usize = 0;
            while i < fields.len()
                invariant
                    i <= fields@.len(),
                    out@.len() == i,
                    forall|j: int| 0 <= j < i ==> json_as_str((#[trigger] fields@[j]).1) is Some,
                    forall|j: int|
                        0 <= j < i ==> {
                            &&& (#[trigger] out@[j]).0@ == fields@[j].0@
                            &&& match json_as_str(fields@[j].1) {
                                Some(s) => parse_rel(s, req_view(out@[j].1)),
                                None => false,
                            }
                        },
                decreases fields@.len() - i,
            {
                match &fields[i].1 {
                    JsonValue::String(s) => {
                        let req = ExtendedVersionReq::parse(s.as_str());
                        out.push((fields[i].0.clone(), req));
                    },
                    _ => {
                        proof {
                            assert(json_as_str(fields@[i as int].1) is None);
                        }
                        return Err(Error::InvalidManifest);
                    },
                }
                i = i + 1;
            }
            proof {
                assert(dep_keys_distinct(out@));
            }
            Ok(out)
        },
        _ => Err(Error::InvalidManifest),
    }
}

/// Reads the workspace glob list: entries equal to `.` are dropped, the
/// rest are prefixed with the install path; an empty result is no
/// workspace at all.
#[verifier::loop_isolation(false)]
pub fn get_workspace_globs(value: &JsonValue, install_path: &str) -> (r: Result<
    Option<Vec<String>>,
    Error,
>)
    ensures
        (r is Err) == ws_field_err(*value),
        r matches Err(e) ==> e == Error::InvalidManifest,
        r matches Ok(g) ==> match g {
            Some(globs) => globs@.map_values(|s: String| s@) == globs_spec(
                *value,
                install_path@,
            ) && globs@.len() > 0,
            None => globs_spec(*value, install_path@).len() == 0,
        },
{
    match json_get(value, "workspaces") {
        None => Ok(None),
        Some(f) => match f {
            JsonValue::Array(items) => {
                let ghost ip = install_path@;
                let mut out: Vec<String> = Vec::new();
                let mut i: usize = 0;
                proof {
                    assert(out@.map_values(|s: String| s@) + globs_from(items@, 0, ip)
                        =~= globs_from(items@, 0, ip));
                }
                while i < items.len()
                    invariant
                        i <= items@.len(),
                        globs_from(items@, 0, ip) == out@.map_values(|s: String| s@)
                            + globs_from(items@, i as int, ip),
                        forall|j: int| 0 <= j < i ==> json_as_str(#[trigger] items@[j]) is Some,
                    decreases items@.len() - i,
                {
                    match &items[i] {
                        JsonValue::String(s) => {
                            if !str_eq_str(s.as_str(), ".") {
                                let glob = path_join(install_path, s.as_str());
                                out.push(glob);
                                proof {
                                    assert(out@.map_values(|s: String| s@) =~= out@.subrange(
                                        0,
                                        out@.len() - 1,
                                    ).map_values(|s: String| s@).push(ip + seq!['/'] + s@));
                                    assert(out@.map_values(|s: String| s@) + globs_from(
                                        items@,
                                        i + 1,
                                        ip,
                                    ) =~= out@.subrange(0, out@.len() - 1).map_values(
                                        |s: String| s@,
                                    ) + (seq![ip + seq!['/'] + s@] + globs_from(
                                        items@,
                                        i + 1,
                                        ip,
                                    )));
                                }
                            }
                        },
                        _ => {
                            proof {
                                assert(json_as_str(items@[i as int]) is None);
                            }
                            return Err(Error::InvalidManifest);
                        },
                    }
                    i = i + 1;
                }
                proof {
                    assert(globs_from(items@, items@.len() as int, ip) =~= Seq::<
                        Seq<char>,
                    >::empty());
                    assert(globs_from(items@, 0, ip) =~= out@.map_values(|s: String| s@));
                }
                if out.len() == 0 {
                    Ok(None)
                } else {
                    Ok(Some(out))
                }
            },
            _ => Err(Error::InvalidManifest),
        },
    }
}

impl PackageJsonData {
    /// Builds the record for one manifest value. Member expansion descends
    /// through at most `ws_fuel` nested workspace declarations; the process
    /// boundary supplies more fuel than any directory forest can use.
    #[verifier::loop_isolation(false)]
    pub fn from_value(
        dep_json: &JsonValue,
        node_modules_id: usize,
        install_path: &str,
        snap: &Snapshot,
        scopes: &mut ScopeArena,
        ws_fuel: usize,
    ) -> (r: Result<PackageJsonData, Error>)
        requires
            json_wf(*dep_json),
            snapshot_wf(*snap),
        ensures
            arena_extends(*final(scopes), *old(scopes)),
            new_entries_synthetic(*final(scopes), *old(scopes)),
            arena_wf(*old(scopes)) ==> arena_wf(*final(scopes)),
            r matches Err(e) ==> e == Error::InvalidManifest,
            base_fields_err(*dep_json, install_path@) ==> r is Err,
            r is Err ==> base_fields_err(*dep_json, install_path@) || some_member_dirty(
                *snap,
                globs_spec(*dep_json, install_path@),
            ),
            !base_fields_err(*dep_json, install_path@) && globs_spec(
                *dep_json,
                install_path@,
            ).len() == 0 ==> r is Ok,
            r matches Ok(m) ==> {
                &&& !base_fields_err(*dep_json, install_path@)
                &&& m.name@ == name_of_json(*dep_json)
                &&& version_rel(*dep_json, m.version)
                &&& m.install_path@ == install_path@
                &&& m.parent_id == node_modules_id
                &&& deps_rel(deps_of_json(*dep_json, "dependencies"@), m.dependencies@)
                &&& if contains_sub(install_path@, "node_modules"@) {
                    m.dev_dependencies@.len() == 0
                } else {
                    deps_rel(deps_of_json(*dep_json, "devDependencies"@), m.dev_dependencies@)
                }
                &&& manifest_wf(m)
                &&& ((m.workspace_data is Some) <==> (globs_spec(
                    *dep_json,
                    install_path@,
                ).len() > 0 && ws_fuel > 0))
            },
        decreases ws_fuel, 0int,
    {
        let name = match json_get(dep_json, "name") {
            Some(f) => match f {
                JsonValue::String(s) => s.clone(),
                _ => String::from_str("{no name}"),
            },
            None => String::from_str("{no name}"),
        };
        let version = match json_get(dep_json, "version") {
            None => None,
            Some(f) => match f {
                JsonValue::String(s) => match parse_semver_version(s.as_str()) {
                    Some(c) => Some(c),
                    None => {
                        return Err(Error::InvalidManifest);
                    },
                },
                _ => {
                    return Err(Error::InvalidManifest);
                },
            },
        };
        let dependencies = match json_get(dep_json, "dependencies") {
            Some(f) => {
                proof {
                    lemma_json_field_wf(*dep_json, "dependencies"@);
                }
                match deps_from_value(f) {
                    Ok(d) => d,
                    Err(e) => {
                        return Err(e);
                    },
                }
            },
            None => Vec::new(),
        };
        let in_node_modules = contains_str(install_path, "node_modules");
        let dev_dependencies = if in_node_modules {
            Vec::new()
        } else {
            match json_get(dep_json, "devDependencies") {
                Some(f) => {
                    proof {
                        lemma_json_field_wf(*dep_json, "devDependencies"@);
                    }
                    match deps_from_value(f) {
                        Ok(d) => d,
                        Err(e) => {
                            return Err(e);
                        },
                    }
                },
                None => Vec::new(),
            }
        };
        let globs_opt = match get_workspace_globs(dep_json, install_path) {
            Ok(g) => g,
            Err(e) => {
                return Err(e);
            },
        };
        let workspace_data = match globs_opt {
            Some(globs) => {
                if ws_fuel > 0 {
                    match WorkspaceData::from_globs(&globs, snap, scopes, ws_fuel - 1) {
                        Ok(w) => Some(w),
                        Err(e) => {
                            return Err(e);
                        },
                    }
                } else {
                    None
                }
            },
            None => None,
        };
        Ok(
            PackageJsonData {
                name,
                version,
                install_path: String::from_str(install_path),
                parent_id: node_modules_id,
                dependencies,
                dev_dependencies,
                workspace_data,
            },
        )
    }

    /// Loads the manifest of one directory, stamping it with the given
    /// scope id. A directory without a manifest yields `None`.
    pub fn from_folder_with_id(
        snap: &Snapshot,
        scopes: &mut ScopeArena,
        folder: &str,
        node_modules_id: usize,
        ws_fuel: usize,
    ) -> (r: Result<Option<PackageJsonData>, Error>)
        requires
            snapshot_wf(*snap),
        ensures
            arena_extends(*final(scopes), *old(scopes)),
            new_entries_synthetic(*final(scopes), *old(scopes)),
            arena_wf(*old(scopes)) ==> arena_wf(*final(scopes)),
            r matches Err(e) ==> e == Error::InvalidManifest,
            (r matches Ok(m) && m is None) <==> manifest_file_spec(*snap, folder@) is Absent,
            r matches Ok(m) ==> match m {
                Some(p) => {
                    &&& manifest_file_spec(*snap, folder@) matches ManifestFile::Json(v)
                        && loaded_matches(p, v, folder@) && ((p.workspace_data is Some) <==> (
                    globs_spec(v, folder@).len() > 0 && ws_fuel > 0))
                    &&& p.parent_id == node_modules_id
                },
                None => true,
            },
            (manifest_file_spec(*snap, folder@) matches ManifestFile::Json(v)
                && base_fields_err(v, folder@)) ==> r is Err,
            (manifest_file_spec(*snap, folder@) matches ManifestFile::Json(v)
                && !base_fields_err(v, folder@) && globs_spec(v, folder@).len() == 0) ==> (r
                matches Ok(m) && m is Some),
            r is Err ==> (manifest_file_spec(*snap, folder@) is Unreadable || (
            manifest_file_spec(*snap, folder@) matches ManifestFile::Json(v) && (base_fields_err(
                v,
                folder@,
            ) || some_member_dirty(*snap, globs_spec(v, folder@))))),
        decreases ws_fuel, 1int,
    {
        match read_package_json(snap, folder) {
            Err(e) => Err(e),
            Ok(None) => Ok(None),
            Ok(Some(v)) => match Self::from_value(
                v,
                node_modules_id,
                folder,
                snap,
                scopes,
                ws_fuel,
            ) {
                Ok(m) => Ok(Some(m)),
                Err(e) => Err(e),
            },
        }
    }

    /// Loads a package root's manifest, drawing a fresh synthetic scope id
    /// for it.
    pub fn new_root(snap: &Snapshot, scopes: &mut ScopeArena, folder: &str) -> (r: Result<
        Option<PackageJsonData>,
        Error,
    >)
        requires
            snapshot_wf(*snap),
        ensures
            arena_extends(*final(scopes), *old(scopes)),
            new_entries_synthetic(*final(scopes), *old(scopes)),
            arena_wf(*old(scopes)) ==> arena_wf(*final(scopes)),
            r matches Err(e) ==> e == Error::InvalidManifest,
            (r matches Ok(m) && m is None) <==> manifest_file_spec(*snap, folder@) is Absent,
            r matches Ok(m) ==> match m {
                Some(p) => {
                    &&& manifest_file_spec(*snap, folder@) matches ManifestFile::Json(v)
                        && loaded_matches(p, v, folder@) && ((p.workspace_data is Some) ==>
                    globs_spec(v, folder@).len() > 0)
                    &&& p.parent_id == old(scopes).scopes@.len()
                },
                None => true,
            },
            (manifest_file_spec(*snap, folder@) matches ManifestFile::Json(v)
                && base_fields_err(v, folder@)) ==> r is Err,
            loads_plainly(*snap, folder@) ==> (r matches Ok(m) && m is Some),
            r is Err ==> (manifest_file_spec(*snap, folder@) is Unreadable || (
            manifest_file_spec(*snap, folder@) matches ManifestFile::Json(v) && (base_fields_err(
                v,
                folder@,
            ) || some_member_dirty(*snap, globs_spec(v, folder@))))),
    {
        let id = scopes.alloc_misc();
        let fuel = snap.dirs.len();
        Self::from_folder_with_id(snap, scopes, folder, id, fuel)
    }

    /// A copy carrying everything resolution reads: the identity fields
    /// and both dependency maps, but not the expanded workspace members.
    #[verifier::loop_isolation(false)]
    pub fn duplicate_core(&self) -> (r: PackageJsonData)
        ensures
            r.name@ == self.name@,
            crate::package::opt_str_eq(r.version, self.version),
            r.install_path@ == self.install_path@,
            r.parent_id == self.parent_id,
            deps_views_eq(r.dependencies@, self.dependencies@),
            deps_views_eq(r.dev_dependencies@, self.dev_dependencies@),
            r.workspace_data is None,
            manifest_wf(*self) ==> manifest_wf(r),
    {
        PackageJsonData {
            name: self.name.clone(),
            version: match &self.version {
                Some(v) => Some(v.clone()),
                None => None,
            },
            install_path: self.install_path.clone(),
            parent_id: self.parent_id,
            dependencies: duplicate_deps(&self.dependencies),
            dev_dependencies: duplicate_deps(&self.dev_dependencies),
            workspace_data: None,
        }
    }

    /// The path of this package's own installed-packages directory, when
    /// the snapshot holds one.
    pub fn get_node_modules_path(&self, snap: &Snapshot) -> (r: Option<String>)
        ensures
            match r {
                Some(p) => p@ == self.install_path@ + seq!['/'] + "node_modules"@
                    && crate::snapshot::dir_exists(*snap, p@),
                None => !crate::snapshot::dir_exists(
                    *snap,
                    self.install_path@ + seq!['/'] + "node_modules"@,
                ),
            },
    {
        let nm = path_join(self.install_path.as_str(), "node_modules");
        match snap.find_dir(nm.as_str()) {
            Some(_) => Some(nm),
            None => None,
        }
    }

    /// Builds (or finds empty) the scope over this package's own installed
    /// packages; nothing when it has no such directory.
    pub fn get_node_modules(&self, snap: &Snapshot, scopes: &mut ScopeArena) -> (r: Option<
        usize,
    >)
        requires
            snapshot_wf(*snap),
            arena_wf(*old(scopes)),
        ensures
            crate::node_modules::arena_extends(*final(scopes), *old(scopes)),
            arena_wf(*final(scopes)),
            r matches Some(id) ==> id < final(scopes).scopes@.len(),
            (r is Some) == crate::snapshot::dir_exists(
                *snap,
                self.install_path@ + seq!['/'] + "node_modules"@,
            ),
    {
        match self.get_node_modules_path(snap) {
            Some(nm) => Some(scopes.from_folder(snap, nm.as_str(), None)),
            None => None,
        }
    }

    /// Does this manifest declare a workspace?
    pub fn is_workspace_root(&self) -> (r: bool)
        ensures
            r == (self.workspace_data is Some),
    {
        self.workspace_data.is_some()
    }

    /// This manifest, or the workspace member installed at `path`
    /// (a canonical path).
    pub fn get_data_from_path<'a>(&'a self, path: &str) -> (r: Option<&'a PackageJsonData>)
        ensures
            match r {
                Some(m) => m.install_path@ == path@ && (*m == *self || (self.workspace_data
                    matches Some(w) && exists|k: int|
                    0 <= k < w.workspace_packages@.len() && #[trigger] w.workspace_packages@[k]
                        == *m)),
                None => self.install_path@ != path@ && (self.workspace_data matches Some(w)
                    ==> forall|k: int|
                    0 <= k < w.workspace_packages@.len() ==> (#[trigger] w.workspace_packages@[
                        k
                    ]).install_path@ != path@),
            },
    {
        if str_eq_str(self.install_path.as_str(), path) {
            Some(self)
        } else {
            match &self.workspace_data {
                Some(w) => w.get_member_data_from_path(path),
                None => None,
            }
        }
    }
}

/// Requirement-map copies agree name by name and view by view.
pub open spec fn deps_views_eq(
    a: Seq<(String, ExtendedVersionReq)>,
    b: Seq<(String, ExtendedVersionReq)>,
) -> bool {
    &&& a.len() == b.len()
    &&& forall|i: int|
        0 <= i < a.len() ==> (#[trigger] a[i]).0@ == b[i].0@ && req_view(a[i].1) == req_view(
            b[i].1,
        )
}

/// A copy of one requirement map, name by name.
#[verifier::loop_isolation(false)]
fn duplicate_deps(deps: &Vec<(String, ExtendedVersionReq)>) -> (r: Vec<
    (String, ExtendedVersionReq),
>)
    ensures
        deps_views_eq(r@, deps@),
{
    let mut out: Vec<(String, ExtendedVersionReq)> = Vec::new();
    let mut i: usize = 0;
    while i < deps.len()
        invariant
            i <= deps@.len(),
            out@.len() == i,
            forall|j: int|
                0 <= j < i ==> (#[trigger] out@[j]).0@ == deps@[j].0@ && req_view(out@[j].1)
                    == req_view(deps@[j].1),
        decreases deps@.len() - i,
    {
        let name = deps[i].0.clone();
        let req = deps[i].1.duplicate();
        out.push((name, req));
        i = i + 1;
    }
    out
}

/// Loads every member manifest matched by the workspace globs, all stamped
/// with the shared synthetic id.
#[verifier::loop_isolation(false)]
fn get_workspace_packages(
    globs: &Vec<String>,
    parent_id: usize,
    snap: &Snapshot,
    scopes: &mut ScopeArena,
    ws_fuel: usize,
) -> (r: Result<Vec<PackageJsonData>, Error>)
    requires
        snapshot_wf(*snap),
    ensures
        arena_extends(*final(scopes), *old(scopes)),
        new_entries_synthetic(*final(scopes), *old(scopes)),
        arena_wf(*old(scopes)) ==> arena_wf(*final(scopes)),
        r matches Err(e) ==> e == Error::InvalidManifest,
        r matches Ok(ms) ==> forall|k: int|
            0 <= k < ms@.len() ==> (#[trigger] ms@[k]).parent_id == parent_id && manifest_wf(
                ms@[k],
            ),
        r matches Ok(ms) ==> members_sound(*snap, globs@, ms@),
        r matches Ok(ms) ==> forall|p: Seq<char>|
            #[trigger] match_path(*snap, globs@, p) && loads_plainly(*snap, p) ==> exists|k: int|
                0 <= k < ms@.len() && (#[trigger] ms@[k]).install_path@ == p,
        r is Err ==> some_member_dirty(*snap, globs@.map_values(|g: String| g@)),
    decreases ws_fuel, 2int,
{
    let mut workspace_packages: Vec<PackageJsonData> = Vec::new();
    let mut gi: usize = 0;
    while gi < globs.len()
        invariant
            gi <= globs@.len(),
            arena_extends(*scopes, *old(scopes)),
            new_entries_synthetic(*scopes, *old(scopes)),
            arena_wf(*old(scopes)) ==> arena_wf(*scopes),
            forall|k: int|
                0 <= k < workspace_packages@.len() ==> (#[trigger] workspace_packages@[
                    k
                ]).parent_id == parent_id && manifest_wf(workspace_packages@[k]),
            members_sound(*snap, globs@, workspace_packages@),
            forall|g: int, t: int|
                0 <= g < gi && 0 <= t < crate::snapshot::glob_matches_spec(
                    *snap,
                    (#[trigger] globs@[g])@,
                ).len() ==> member_covered(
                    *snap,
                    workspace_packages@,
                    (#[trigger] crate::snapshot::glob_matches_spec(*snap, globs@[g]@)[t])@,
                ),
        decreases globs@.len() - gi,
    {
        let folders = snap.glob_matches(globs[gi].as_str());
        let ghost folder_views = crate::snapshot::glob_matches_spec(*snap, globs@[gi as int]@);
        proof {
            assert(folders@.map_values(|p: String| p@) == folder_views.map_values(
                |p: String| p@,
            ));
        }
        let mut fi: usize = 0;
        while fi < folders.len()
            invariant
                0 <= gi < globs@.len(),
                fi <= folders@.len(),
                folders@.map_values(|p: String| p@) == folder_views.map_values(
                    |p: String| p@,
                ),
                arena_extends(*scopes, *old(scopes)),
                new_entries_synthetic(*scopes, *old(scopes)),
                arena_wf(*old(scopes)) ==> arena_wf(*scopes),
                forall|k: int|
                    0 <= k < workspace_packages@.len() ==> (#[trigger] workspace_packages@[
                        k
                    ]).parent_id == parent_id && manifest_wf(workspace_packages@[k]),
                members_sound(*snap, globs@, workspace_packages@),
                forall|g: int, t: int|
                    0 <= g < gi && 0 <= t < crate::snapshot::glob_matches_spec(
                        *snap,
                        (#[trigger] globs@[g])@,
                    ).len() ==> member_covered(
                        *snap,
                        workspace_packages@,
                        (#[trigger] crate::snapshot::glob_matches_spec(*snap, globs@[g]@)[t])@,
                    ),
                forall|t: int|
                    0 <= t < fi ==> member_covered(
                        *snap,
                        workspace_packages@,
                        (#[trigger] folder_views[t])@,
                    ),
            decreases folders@.len() - fi,
        {
            let ghost ms_before = workspace_packages@;
            proof {
                assert(folders@[fi as int]@ == folder_views[fi as int]@) by {
                    assert(folders@.map_values(|p: String| p@)[fi as int] == folder_views
                        .map_values(|p: String| p@)[fi as int]);
                }
            }
            match PackageJsonData::from_folder_with_id(
                snap,
                scopes,
                folders[fi].as_str(),
                parent_id,
                ws_fuel,
            ) {
                Ok(Some(p)) => {
                    proof {
                        assert(match_path(*snap, globs@, folders@[fi as int]@)) by {
                            assert(0 <= gi < globs@.len() && 0 <= fi < folder_views.len()
                                && folders@[fi as int]@ == (folder_views[fi as int])@);
                        }
                    }
                    workspace_packages.push(p);
                    proof {
                        lemma_members_grow(ms_before, workspace_packages@, *snap, globs@);
                        assert(members_sound(*snap, globs@, workspace_packages@)) by {
                            assert forall|k: int|
                                0 <= k < workspace_packages@.len() implies exists|p2: Seq<char>|
                                #[trigger] match_path(*snap, globs@, p2) && (manifest_file_spec(
                                    *snap,
                                    p2,
                                ) matches ManifestFile::Json(v) && loaded_matches(
                                    (#[trigger] workspace_packages@[k]),
                                    v,
                                    p2,
                                )) by {
                                if k < workspace_packages@.len() - 1 {
                                    assert(members_sound(*snap, globs@, ms_before));
                                    assert(workspace_packages@[k] == ms_before[k]);
                                } else {
                                    assert(match_path(*snap, globs@, folders@[fi as int]@));
                                }
                            }
                        }
                    }
                },
                Ok(None) => {
                    proof {
                        assert(!loads_plainly(*snap, folders@[fi as int]@));
                    }
                },
                Err(e) => {
                    proof {
                        let gv = globs@.map_values(|g: String| g@);
                        let bad = folders@[fi as int]@;
                        assert(match_path_of(*snap, gv, bad)) by {
                            assert(gv[gi as int] == globs@[gi as int]@);
                            assert(bad == (crate::snapshot::glob_matches_spec(
                                *snap,
                                gv[gi as int],
                            )[fi as int])@);
                        }
                        assert(!(manifest_file_spec(*snap, bad) is Absent));
                        assert(!loads_plainly(*snap, bad));
                        assert(some_member_dirty(*snap, gv));
                    }
                    return Err(e);
                },
            }
            proof {
                lemma_members_grow(ms_before, workspace_packages@, *snap, globs@);
                assert(member_covered(*snap, workspace_packages@, (folder_views[fi as int])@))
                    by {
                    if loads_plainly(*snap, folder_views[fi as int]@) {
                        assert(workspace_packages@[workspace_packages@.len() - 1].install_path@
                            == folder_views[fi as int]@);
                    }
                }
            }
            fi = fi + 1;
        }
        gi = gi + 1;
    }
    Ok(workspace_packages)
}

/// Every member is the manifest loaded from one of the matched
/// directories.
pub open spec fn members_sound(
    snap: Snapshot,
    globs: Seq<String>,
    ms: Seq<PackageJsonData>,
) -> bool {
    forall|k: int|
        0 <= k < ms.len() ==> exists|p: Seq<char>|
            #[trigger] match_path(snap, globs, p) && (manifest_file_spec(snap, p)
                matches ManifestFile::Json(v) && loaded_matches(#[trigger] ms[k], v, p))
}

/// If the matched directory at `p` loads with nothing left open, some
/// member sits at it.
pub open spec fn member_covered(snap: Snapshot, ms: Seq<PackageJsonData>, p: Seq<char>) -> bool {
    loads_plainly(snap, p) ==> exists|k: int|
        0 <= k < ms.len() && (#[trigger] ms[k]).install_path@ == p
}

/// Member facts survive appending more members.
proof fn lemma_members_grow(
    pre: Seq<PackageJsonData>,
    post: Seq<PackageJsonData>,
    snap: Snapshot,
    globs: Seq<String>,
)
    requires
        pre.len() <= post.len(),
        forall|t: int| 0 <= t < pre.len() ==> post[t] == pre[t],
    ensures
        forall|p: Seq<char>|
            #[trigger] member_covered(snap, pre, p) ==> member_covered(snap, post, p),
{
    assert forall|p: Seq<char>|
        #[trigger] member_covered(snap, pre, p) implies member_covered(snap, post, p) by {
        if loads_plainly(snap, p) {
            let k = choose|k: int| 0 <= k < pre.len() && (#[trigger] pre[k]).install_path@ == p;
            assert(post[k].install_path@ == p);
        }
    }
}

impl WorkspaceData {
    /// Expands workspace globs into the member manifests, all sharing one
    /// fresh synthetic scope id.
    pub fn from_globs(
        globs: &Vec<String>,
        snap: &Snapshot,
        scopes: &mut ScopeArena,
        ws_fuel: usize,
    ) -> (r: Result<WorkspaceData, Error>)
        requires
            snapshot_wf(*snap),
        ensures
            arena_extends(*final(scopes), *old(scopes)),
            new_entries_synthetic(*final(scopes), *old(scopes)),
            arena_wf(*old(scopes)) ==> arena_wf(*final(scopes)),
            r matches Err(e) ==> e == Error::InvalidManifest,
            r matches Ok(w) ==> forall|k: int|
                0 <= k < w.workspace_packages@.len() ==> (#[trigger] w.workspace_packages@[
                    k
                ]).parent_id == old(scopes).scopes@.len() && manifest_wf(
                    w.workspace_packages@[k],
                ),
            r matches Ok(w) ==> members_sound(*snap, globs@, w.workspace_packages@),
            r matches Ok(w) ==> forall|p: Seq<char>|
                #[trigger] match_path(*snap, globs@, p) && loads_plainly(*snap, p) ==> exists|
                    k: int,
                |
                    0 <= k < w.workspace_packages@.len() && (#[trigger] w.workspace_packages@[
                        k
                    ]).install_path@ == p,
            r is Err ==> some_member_dirty(*snap, globs@.map_values(|g: String| g@)),
        decreases ws_fuel, 3int,
    {
        let id = scopes.alloc_misc();
        match get_workspace_packages(globs, id, snap, scopes, ws_fuel) {
            Ok(workspace_packages) => Ok(WorkspaceData { workspace_packages }),
            Err(e) => Err(e),
        }
    }

    /// The member installed at `path` (a canonical path), if any.
    #[verifier::loop_isolation(false)]
    pub fn get_member_data_from_path<'a>(&'a self, path: &str) -> (r: Option<
        &'a PackageJsonData,
    >)
        ensures
            match r {
                Some(m) => m.install_path@ == path@ && exists|k: int|
                    0 <= k < self.workspace_packages@.len() && #[trigger] self
                        .workspace_packages@[k] == *m,
                None => forall|k: int|
                    0 <= k < self.workspace_packages@.len() ==> (#[trigger] self
                        .workspace_packages@[k]).install_path@ != path@,
            },
    {
        let mut i: usize = 0;
        while i < self.workspace_packages.len()
            invariant
                i <= self.workspace_packages@.len(),
                forall|k: int|
                    0 <= k < i ==> (#[trigger] self.workspace_packages@[k]).install_path@
                        != path@,
            decreases self.workspace_packages@.len() - i,
        {
            if str_eq_str(self.workspace_packages[i].install_path.as_str(), path) {
                return Some(&self.workspace_packages[i]);
            }
            i = i + 1;
        }
        None
    }
}

} // verus!
