//! Batch filename-rewriting library.
//!
//! The library computes, for each filename, the outcome of a pipeline of
//! textual transformations: type-descriptor extraction, space normalization,
//! pattern search-and-replace, and bracket-tag relocation.  The descriptor is
//! held aside while the other transforms run and is reattached at the end.
//! All functions here are pure: directory enumeration and the rename syscall
//! live with the caller, which hands in names and receives planned renames.

pub mod descriptor;
pub mod laws;
pub mod pipeline;
pub mod tags;
pub mod text;

use vstd::prelude::*;

verus! {

/// Explicit no-op used by configuration branches that ask for no action.
pub fn do_nothing() {
}

} // verus!
