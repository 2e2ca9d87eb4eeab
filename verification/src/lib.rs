//! Duplicate-file detection: files are bucketed by size, sampled, hashed and
//! grouped by digest; each group of duplicates is then ordered so that one
//! member stays in place and the others are reported or moved away.
//!
//! Everything in this crate is pure: it decides what is compared, what is a
//! duplicate and what is moved where. Reading files, walking directories and
//! passing messages between threads is left to the caller.

use vstd::prelude::*;

pub mod folder_scanner;

verus! {

/// The action that the operator selects for the duplicates that were found.
#[derive(Clone, Copy, Debug, PartialEq, Eq, Structural)]
pub enum Action {
    /// Move every duplicate but one into a quarantine folder.
    Move,
    /// List the duplicates and touch nothing.
    Report,
    /// Remove the duplicates. Not supported.
    Delete,
}

} // verus!
