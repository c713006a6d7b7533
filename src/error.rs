//! The ways an operation on the store can fail.
use vstd::prelude::*;

verus! {

/// Why a store operation was refused.
#[derive(Debug, Clone, Copy, PartialEq, Eq, Structural)]
pub enum StoreError {
    /// A key was empty, or a key or value held whitespace, which the line
    /// format cannot represent.
    Validation,
    /// An offset did not lead to a decodable record of the expected key.
    Corruption,
}

} // verus!
