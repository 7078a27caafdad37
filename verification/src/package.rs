//! Resolved-graph data: package keys, per-edge entries, dependencies and
//! resolved package nodes. Inter-node references are package keys; the
//! owning resolver's arena maps keys to nodes.

use vstd::prelude::*;
use vstd::string::StringExecFns;

use crate::extended_version_req::{req_matches_spec, ExtendedVersionReq};
use crate::package_data::PackageJsonData;
use crate::strutil::str_eq_str;

verus! {

/// The identity of a resolved package: name, optional canonical version,
/// and the id of the installation scope it was found through. The scope id
/// keeps two installs of the same name and version apart when they sit
/// under different scopes.
pub struct PackageKey {
    pub name: String,
    pub version: Option<String>,
    pub scope_id: usize,
}

/// Equality of two optional version texts.
pub open spec fn opt_str_eq(a: Option<String>, b: Option<String>) -> bool {
    match a {
        Some(x) => b matches Some(y) && x@ == y@,
        None => b is None,
    }
}

/// Equality of package keys: all three parts agree.
pub open spec fn key_eq_spec(a: PackageKey, b: PackageKey) -> bool {
    a.name@ == b.name@ && a.scope_id == b.scope_id && opt_str_eq(a.version, b.version)
}

/// The sentinel key that a `workspace:` reference resolves to: no version,
/// scope id zero, never materialized as a node.
pub open spec fn is_ws_sentinel(k: PackageKey) -> bool {
    k.version is None && k.scope_id == 0
}

/// How a key matches a requirement: by its version's canonical text, or
/// not at all when it has no version.
pub open spec fn key_satisfies_spec(k: PackageKey, req: ExtendedVersionReq) -> Option<bool> {
    match k.version {
        Some(v) => req_matches_spec(req@, v@),
        None => None,
    }
}

impl PackageKey {
    /// The identity under which a manifest resolves.
    pub fn from_data(m: &PackageJsonData) -> (r: PackageKey)
        ensures
            r.name@ == m.name@,
            opt_str_eq(r.version, m.version),
            r.scope_id == m.parent_id,
    {
        PackageKey {
            name: m.name.clone(),
            version: match &m.version {
                Some(v) => Some(v.clone()),
                None => None,
            },
            scope_id: m.parent_id,
        }
    }

    /// Field-wise equality.
    pub fn key_eq(&self, other: &PackageKey) -> (r: bool)
        ensures
            r == key_eq_spec(*self, *other),
    {
        if self.scope_id != other.scope_id {
            return false;
        }
        if !str_eq_str(self.name.as_str(), other.name.as_str()) {
            return false;
        }
        match (&self.version, &other.version) {
            (Some(a), Some(b)) => str_eq_str(a.as_str(), b.as_str()),
            (None, None) => true,
            _ => false,
        }
    }

    /// A copy equal to this key.
    pub fn duplicate(&self) -> (r: PackageKey)
        ensures
            r == *self,
            key_eq_spec(r, *self),
    {
        PackageKey {
            name: self.name.clone(),
            version: match &self.version {
                Some(v) => Some(v.clone()),
                None => None,
            },
            scope_id: self.scope_id,
        }
    }

    /// Whether this key's version satisfies `req`, when it can be decided.
    pub fn satisfies(&self, req: &ExtendedVersionReq) -> (r: Option<bool>)
        ensures
            r == key_satisfies_spec(*self, *req),
    {
        match &self.version {
            Some(v) => req.matches(v.as_str()),
            None => None,
        }
    }

    /// The version text, or nothing.
    pub fn version_str(&self) -> (r: String)
        ensures
            match self.version {
                Some(v) => r@ == v@,
                None => r@ == Seq::<char>::empty(),
            },
    {
        match &self.version {
            Some(v) => v.clone(),
            None => String::new(),
        }
    }
}

/// The outcome of resolving one dependency edge.
pub enum PackageEntry {
    /// Installed: the key of the resolved node.
    Resolved(PackageKey),
    /// Declared but not installed anywhere in scope.
    Missing,
    /// Not descended into because the depth cap was reached.
    Truncated,
}

/// How an entry matches a requirement: only a resolved entry with a
/// version can be decided.
pub open spec fn entry_satisfies_spec(e: PackageEntry, req: ExtendedVersionReq) -> Option<
    bool,
> {
    match e {
        PackageEntry::Resolved(k) => key_satisfies_spec(k, req),
        _ => None,
    }
}

/// The text a rendered line shows in the version position.
pub open spec fn entry_version_text(e: PackageEntry) -> Seq<char> {
    match e {
        PackageEntry::Resolved(k) => match k.version {
            Some(v) => v@,
            None => Seq::empty(),
        },
        PackageEntry::Missing => "[MISSING]"@,
        PackageEntry::Truncated => "[TRUNCATED]"@,
    }
}

/// The display state of a rendered line's version position. The text never
/// carries color; a caller may map each state to one (a satisfied version
/// green, an unsatisfied one red, a missing entry red, a truncated one
/// yellow) or ignore it.
pub enum LineTone {
    /// A plain label, a separator, an undecidable requirement, or a line
    /// showing two sides at once.
    Plain,
    /// The resolved version decidedly satisfies the requirement.
    Satisfied,
    /// The resolved version decidedly fails the requirement.
    Unsatisfied,
    /// The dependency is declared but not installed.
    Missing,
    /// Resolution stopped at the depth cap.
    Truncated,
}

/// The tone of one entry's version position under its requirement.
pub open spec fn entry_tone_spec(e: PackageEntry, req: ExtendedVersionReq) -> LineTone {
    match e {
        PackageEntry::Missing => LineTone::Missing,
        PackageEntry::Truncated => LineTone::Truncated,
        PackageEntry::Resolved(_) => match entry_satisfies_spec(e, req) {
            Some(b) => if b {
                LineTone::Satisfied
            } else {
                LineTone::Unsatisfied
            },
            None => LineTone::Plain,
        },
    }
}

impl PackageEntry {
    /// Whether the resolved version satisfies `req`; `None` for missing or
    /// truncated entries and for undecidable requirements.
    pub fn satisfies(&self, req: &ExtendedVersionReq) -> (r: Option<bool>)
        ensures
            r == entry_satisfies_spec(*self, *req),
    {
        match self {
            PackageEntry::Resolved(k) => k.satisfies(req),
            _ => None,
        }
    }

    /// The tone of this entry's version position under `req`.
    pub fn tone(&self, req: &ExtendedVersionReq) -> (r: LineTone)
        ensures
            r == entry_tone_spec(*self, *req),
    {
        match self {
            PackageEntry::Missing => LineTone::Missing,
            PackageEntry::Truncated => LineTone::Truncated,
            PackageEntry::Resolved(_) => match self.satisfies(req) {
                Some(true) => LineTone::Satisfied,
                Some(false) => LineTone::Unsatisfied,
                None => LineTone::Plain,
            },
        }
    }

    /// The version position of this entry's rendered line.
    pub fn version_str(&self) -> (r: String)
        ensures
            r@ == entry_version_text(*self),
    {
        match self {
            PackageEntry::Resolved(k) => k.version_str(),
            PackageEntry::Missing => String::from_str("[MISSING]"),
            PackageEntry::Truncated => String::from_str("[TRUNCATED]"),
        }
    }

    /// A copy equal in view to this entry.
    pub fn duplicate(&self) -> (r: PackageEntry)
        ensures
            entry_eq_spec(r, *self),
    {
        match self {
            PackageEntry::Resolved(k) => PackageEntry::Resolved(k.duplicate()),
            PackageEntry::Missing => PackageEntry::Missing,
            PackageEntry::Truncated => PackageEntry::Truncated,
        }
    }
}

/// Equality of entries, comparing resolved keys field-wise.
pub open spec fn entry_eq_spec(a: PackageEntry, b: PackageEntry) -> bool {
    match a {
        PackageEntry::Resolved(x) => b matches PackageEntry::Resolved(y) && key_eq_spec(x, y),
        PackageEntry::Missing => b is Missing,
        PackageEntry::Truncated => b is Truncated,
    }
}

/// One resolved dependency edge: the declared name and requirement, and
/// the entry it resolved to.
pub struct Dependency {
    pub name: String,
    pub version_req: ExtendedVersionReq,
    pub package: PackageEntry,
}

/// A dependency line is flagged only when its requirement is decidedly not
/// satisfied.
pub open spec fn version_mismatch_spec(d: Dependency) -> bool {
    entry_satisfies_spec(d.package, d.version_req) == Some(false)
}

impl Dependency {
    /// Decidedly unsatisfied?
    pub fn version_mis_match(&self) -> (r: bool)
        ensures
            r == version_mismatch_spec(*self),
    {
        match self.package.satisfies(&self.version_req) {
            Some(false) => true,
            _ => false,
        }
    }
}

/// One resolved package node: its identity's name and version and its
/// resolved dependency edges, in declaration order. Nodes are immutable
/// once inserted in the resolver's arena.
pub struct Package {
    pub name: String,
    pub version: Option<String>,
    pub dependencies: Vec<Dependency>,
    pub dev_dependencies: Vec<Dependency>,
    /// The depth at which the node was created, for the depth-cap
    /// invariant.
    pub depth: Ghost<int>,
}

} // verus!
