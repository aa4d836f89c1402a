//! A project organizer that keeps opaque project directories under a stable
//! storage root and projects a navigable view of them as a forest of symlinks.
//! The view locations are computed from declarative path templates (schemas)
//! filled in with per-project multi-valued attributes (tags).
//!
//! This crate holds the verified core: schema parsing and serialization, the
//! cartesian expansion of tag combinations, view-path construction with
//! deterministic collision resolution, and the teardown/rebuild planner that
//! regenerates the whole symlink forest from a snapshot of the view tree.
//! All filesystem access stays outside; the library computes over plain
//! values and returns plans for a thin driver to execute.

use vstd::prelude::*;

pub mod diag;
pub mod environment;
pub mod expand;
pub mod fstree;
pub mod paths;
pub mod project;
pub mod schema;
pub mod text;
pub mod weave;

verus! {

/// The name of the reserved management directory under the base directory.
pub const SPIDERMAN_DIR_NAME: &'static str = ".spiderman";

} // verus!
