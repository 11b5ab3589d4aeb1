//! What can be wrong with the store's files.

use vstd::prelude::*;

verus! {

/// Why the store cannot go on with the files that it finds.
#[derive(Debug, Clone, Copy, PartialEq, Eq, Structural)]
pub enum StoreError {
    /// A line of a table or of the log is not JSON.
    BadJson,
    /// A line of a table or of the log lacks a member, or has one of another kind.
    BadRecord,
    /// A line of the manifest stands before the first level, or has no key range or no name.
    BadManifest,
    /// The number of a table is too large, or written in digits of another script.
    BadNumber,
    /// The manifest and the store do not have the levels that are needed.
    NoLevel,
    /// There is no next number for a table.
    OutOfNumbers,
}

} // verus!
