//! Verified core of a tool that vendors a subtree of an upstream
//! version-controlled repository into a local repository, remembers the
//! provenance of the copy, and reconciles local edits against newer upstream
//! revisions.
//!
//! The library holds the decision logic: deriving mirror cache paths,
//! planning tree extractions, encoding and decoding provenance records, and
//! gating the all-or-nothing copy-out of a synchronization session. The
//! surrounding process performs the repository and filesystem operations the
//! plans describe.

pub mod bytepath;
pub mod errors;
pub mod mirror;
pub mod session;
pub mod store;
pub mod tree;
