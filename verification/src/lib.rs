//! Management of stacks of dependent git branches.
//!
//! The crate models the part of a branch-stacking tool that has real
//! algorithmic content: an in-memory view of commit ancestry, an index of
//! local branches keyed by commit id, classification queries over that index
//! (all branches, descendants of a base, dependents of a base toward a head,
//! the direct base-to-head window, protected branches, and the protected base
//! below a head), and the per-commit graph nodes that traversal passes build
//! and merge.  Layered repository configuration is modelled as well; reading
//! and writing the underlying git data is left to unverified callers, which
//! hand the library plain values.

pub mod config;
pub mod git;
pub mod graph;
pub mod text;
