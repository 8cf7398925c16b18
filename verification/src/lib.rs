//! Discovery of version-control repository roots in a directory tree, and a
//! small list of known projects with access metadata.
//!
//! The traversal is a verified work-list state machine: the caller performs
//! the filesystem reads and feeds the observations in, while the decisions
//! (marker detection, containment pruning, accumulation and ordering of the
//! result) are made and proved here.

pub mod path;
pub mod scanner;
pub mod store;
