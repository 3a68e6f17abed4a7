//! Errors of index extraction.

use vstd::prelude::*;

verus! {

/// Why extraction of an index failed.
pub enum VindexError {
    /// An input could not be read as what it should hold.
    Parse(String),
}

} // verus!
