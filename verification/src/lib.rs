//! Dependency-closure source-directory resolution.
//!
//! Given a root package's own source files and the pinned dependency graph
//! recorded in its lockfile, this library determines which source location
//! each graph node resolves to, plans exactly one update per distinct source,
//! and reduces every enumerated file to a deduplicated, canonically ordered
//! set of parent directories, ready to be handed to an external indexing
//! tool. Loading manifests, performing network or filesystem I/O and invoking
//! the indexer are left to the surrounding program.

pub mod paths;
pub mod order;
pub mod collect;
pub mod sources;
pub mod walk;
