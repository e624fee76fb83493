//! Reduction of a workspace build recipe — a snapshot of a multi-package
//! workspace's manifests and lock file — to the subset of workspace packages
//! transitively reachable from the workspace's member list.
//!
//! The dependency-graph construction, the reachability closure and the
//! pruning of manifests and lock-file entries are verified; reading a
//! manifest's text is delegated to the `toml_edit` crate behind trusted
//! wrappers.

pub mod graph;
pub mod recipe;
pub mod reduce;
pub mod toml_ops;
