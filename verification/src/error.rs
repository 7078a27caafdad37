//! The fatal error kinds of the library. Recoverable conditions (a missing
//! dependency, truncation at the depth cap) are represented in the graph
//! itself, not here.

use vstd::prelude::*;
use vstd::string::StringExecFns;

verus! {

/// A fatal error: the command aborts without producing a tree.
#[derive(Clone, Copy, Debug, PartialEq, Eq, Structural)]
pub enum Error {
    /// No manifest at a user-supplied root.
    MissingManifest,
    /// A manifest that could not be decoded, or one with a field of the
    /// wrong shape.
    InvalidManifest,
    /// No installed-packages directory where the resolver requires one.
    MissingNodeModules,
    /// The root package resolved to a missing or truncated entry.
    BadRootEntry,
}

impl Error {
    /// A short description of the error.
    pub fn message(&self) -> (r: String)
        ensures
            self matches Error::MissingManifest ==> r@ == "no package manifest at this path"@,
            self matches Error::InvalidManifest ==> r@ == "invalid package manifest"@,
            self matches Error::MissingNodeModules ==> r@
                == "no installed packages directory found"@,
            self matches Error::BadRootEntry ==> r@
                == "root package is missing or truncated"@,
    {
        match self {
            Error::MissingManifest => String::from_str("no package manifest at this path"),
            Error::InvalidManifest => String::from_str("invalid package manifest"),
            Error::MissingNodeModules => String::from_str(
                "no installed packages directory found",
            ),
            Error::BadRootEntry => String::from_str("root package is missing or truncated"),
        }
    }
}

} // verus!
