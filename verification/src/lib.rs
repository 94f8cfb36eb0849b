//! The write path of a content-addressed version-control store: tracking the
//! blobs a new commit needs, validating them at finalize time, resolving
//! parent commits without re-walking shared ancestry, computing the legacy
//! changed-file lists, and detecting case collisions.

pub mod casecheck;
pub mod changeset;
pub mod casefold;
pub mod diff;
pub mod entry;
pub mod errors;
pub mod filemeta;
pub mod handle;
pub mod hash;
pub mod histpack;
pub mod laws;
pub mod metadiff;
pub mod orchestrate;
pub mod order;
pub mod parents;
pub mod resolve;
pub mod path;
pub mod tree;
pub mod upload;
