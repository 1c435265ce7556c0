//! Repository activity statistics: identity resolution (mailmap), a 7x24
//! commit-time heatmap, file-tree snapshots with extension histograms, and a
//! per-author accumulator whose merge operation forms a commutative monoid.
//!
//! The version-control backend (commit enumeration, diffs, blame, tree
//! reads) is an external collaborator: callers convert its data to the plain
//! types of this crate and feed them in.

pub mod countmap;
pub mod engine;
pub mod files;
pub mod heatmap;
pub mod histogram;
pub mod mailmap;
pub mod personal;
pub mod snapshot;
pub mod time;
pub mod tree;
