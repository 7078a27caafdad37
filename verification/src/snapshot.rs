//! A plain-value snapshot of the part of the filesystem that resolution
//! reads: for each directory of interest its decoded manifest and the names
//! of its subdirectories, and for each workspace glob pattern the
//! directories it matched. The process boundary walks the disk once and
//! hands the snapshot in; every path recorded is canonical.

use vstd::prelude::*;

use crate::json::{json_wf, JsonValue};
use crate::strutil::str_eq_str;

verus! {

/// What was found in place of a directory's manifest file.
pub enum ManifestFile {
    /// No manifest file in this directory.
    Absent,
    /// A manifest file that did not decode as JSON.
    Unreadable,
    /// The decoded manifest.
    Json(JsonValue),
}

/// One directory: its canonical path, its manifest file, and the names of
/// its subdirectories.
pub struct DirRecord {
    pub path: String,
    pub manifest: ManifestFile,
    pub entries: Vec<String>,
}

/// One workspace glob pattern and the canonical paths of the directories it
/// matched, in the order the walk produced them.
pub struct GlobExpansion {
    pub pattern: String,
    pub matches: Vec<String>,
}

/// The snapshot handed to the library. A directory with no record does not
/// exist as far as resolution is concerned.
pub struct Snapshot {
    pub dirs: Vec<DirRecord>,
    pub globs: Vec<GlobExpansion>,
}

/// Every manifest in the snapshot is well-formed JSON.
pub open spec fn snapshot_wf(snap: Snapshot) -> bool {
    forall|i: int|
        0 <= i < snap.dirs@.len() ==> match (#[trigger] snap.dirs@[i]).manifest {
            ManifestFile::Json(v) => json_wf(v),
            _ => true,
        }
}

/// The index of the first directory record for `path`, scanning from `i`.
pub open spec fn dir_index_from(dirs: Seq<DirRecord>, i: int, path: Seq<char>) -> Option<int>
    decreases dirs.len() - i,
{
    if i < 0 || i >= dirs.len() {
        None
    } else if dirs[i].path@ == path {
        Some(i)
    } else {
        dir_index_from(dirs, i + 1, path)
    }
}

proof fn lemma_dir_index_from(dirs: Seq<DirRecord>, i: int, path: Seq<char>)
    requires
        0 <= i,
    ensures
        match dir_index_from(dirs, i, path) {
            Some(j) => i <= j < dirs.len() && dirs[j].path@ == path,
            None => true,
        },
    decreases dirs.len() - i,
{
    if i < dirs.len() && dirs[i].path@ != path {
        lemma_dir_index_from(dirs, i + 1, path);
    }
}

/// A recorded directory's manifest is well-formed when the snapshot is.
pub proof fn lemma_dir_manifest_wf(snap: Snapshot, path: Seq<char>)
    requires
        snapshot_wf(snap),
        dir_spec(snap, path) is Some,
    ensures
        match dir_spec(snap, path).unwrap().manifest {
            ManifestFile::Json(v) => json_wf(v),
            _ => true,
        },
{
    lemma_dir_index_from(snap.dirs@, 0, path);
}

/// The record for `path`, if the snapshot holds one.
pub open spec fn dir_spec(snap: Snapshot, path: Seq<char>) -> Option<DirRecord> {
    match dir_index_from(snap.dirs@, 0, path) {
        Some(i) => Some(snap.dirs@[i]),
        None => None,
    }
}

/// Does the snapshot hold a record for `path`?
pub open spec fn dir_exists(snap: Snapshot, path: Seq<char>) -> bool {
    dir_spec(snap, path) is Some
}

/// The matches of the first expansion recorded for `pattern`, scanning from
/// `i`.
pub open spec fn glob_matches_from(globs: Seq<GlobExpansion>, i: int, pattern: Seq<char>) -> Seq<
    String,
>
    decreases globs.len() - i,
{
    if i < 0 || i >= globs.len() {
        Seq::empty()
    } else if globs[i].pattern@ == pattern {
        globs[i].matches@
    } else {
        glob_matches_from(globs, i + 1, pattern)
    }
}

/// The directories that `pattern` matched; a pattern with no recorded
/// expansion matched nothing.
pub open spec fn glob_matches_spec(snap: Snapshot, pattern: Seq<char>) -> Seq<String> {
    glob_matches_from(snap.globs@, 0, pattern)
}

impl Snapshot {
    /// A snapshot with no directories and no glob expansions.
    pub fn new() -> (r: Snapshot)
        ensures
            r.dirs@.len() == 0,
            r.globs@.len() == 0,
    {
        Snapshot { dirs: Vec::new(), globs: Vec::new() }
    }

    /// The record for `path`, if any.
    #[verifier::loop_isolation(false)]
    pub fn find_dir(&self, path: &str) -> (r: Option<&DirRecord>)
        ensures
            match r {
                Some(d) => dir_spec(*self, path@) == Some(*d),
                None => dir_spec(*self, path@) is None,
            },
    {
        let mut i: usize = 0;
        while i < self.dirs.len()
            invariant
                i <= self.dirs@.len(),
                dir_index_from(self.dirs@, 0, path@) == dir_index_from(
                    self.dirs@,
                    i as int,
                    path@,
                ),
            decreases self.dirs@.len() - i,
        {
            if str_eq_str(self.dirs[i].path.as_str(), path) {
                return Some(&self.dirs[i]);
            }
            i = i + 1;
        }
        None
    }

    /// The directories matched by `pattern`.
    #[verifier::loop_isolation(false)]
    pub fn glob_matches(&self, pattern: &str) -> (r: Vec<String>)
        ensures
            r@.map_values(|p: String| p@) == glob_matches_spec(*self, pattern@).map_values(
                |p: String| p@,
            ),
    {
        let mut i: usize = 0;
        while i < self.globs.len()
            invariant
                i <= self.globs@.len(),
                glob_matches_spec(*self, pattern@) == glob_matches_from(
                    self.globs@,
                    i as int,
                    pattern@,
                ),
            decreases self.globs@.len() - i,
        {
            if str_eq_str(self.globs[i].pattern.as_str(), pattern) {
                let mut out: Vec<String> = Vec::new();
                let ms = &self.globs[i].matches;
                let mut j: usize = 0;
                while j < ms.len()
                    invariant
                        j <= ms@.len(),
                        out@.len() == j,
                        forall|k: int| 0 <= k < j ==> (#[trigger] out@[k])@ == ms@[k]@,
                    decreases ms@.len() - j,
                {
                    out.push(ms[j].clone());
                    j = j + 1;
                }
                proof {
                    assert(out@.map_values(|p: String| p@) =~= ms@.map_values(|p: String| p@));
                }
                return out;
            }
            i = i + 1;
        }
        let out: Vec<String> = Vec::new();
        proof {
            assert(out@.map_values(|p: String| p@) =~= Seq::<String>::empty().map_values(
                |p: String| p@,
            ));
        }
        out
    }
}

} // verus!
