use vstd::prelude::*;

verus! {

/// Why a byte region could not be decoded.
#[derive(Clone, Copy, Debug, PartialEq, Eq, Structural)]
pub enum StoreError {
    /// The input ended before the value was complete.
    Truncated,
    /// The bytes are complete but describe a value out of range.
    InvalidData,
    /// No block of the store holds the document asked for.
    DocNotFound,
}

} // verus!
