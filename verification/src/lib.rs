//! A dependency inspector for packages installed under the conventional
//! nested-directory scheme (`node_modules`-style folders).
//!
//! The library resolves the installed dependency graph of a package root,
//! diffs two resolved graphs, and prepares both for rendering as a tree.
//! All filesystem contents are handed in as a plain [`snapshot::Snapshot`]
//! value, so the resolution, diffing and rendering logic is verified;
//! version-range evaluation and glob matching are delegated to outside
//! crates behind narrow trusted wrappers.

pub mod dependency_resolver;
pub mod diff;
pub mod error;
pub mod extended_version_req;
pub mod json;
pub mod node_modules;
pub mod package;
pub mod package_data;
pub mod render;
pub mod resolver;
pub mod snapshot;
pub mod strutil;
