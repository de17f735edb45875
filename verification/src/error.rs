//! Failure taxonomy of delta application and container parsing.

use vstd::prelude::*;

verus! {

/// Why applying or unpacking a delta failed.
#[derive(Clone, Copy, PartialEq, Eq, Structural, Debug)]
pub enum DeltaError {
    /// An underlying stream operation failed (a compressed channel could not
    /// be inflated).
    IoFailure,
    /// A control triple would write past the declared output length, or the
    /// stream ends before the expected bytes.
    InvalidPatchData,
    /// Container framing magic bytes do not match the expected constant.
    HeaderMismatch,
}

} // verus!
