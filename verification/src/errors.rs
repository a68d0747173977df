//! Error kinds of the fragment layer and of selector construction.

use vstd::prelude::*;

verus! {

/// Errors of the fragment layer. Local recovery is always a buffer clear;
/// the error is surfaced to the link reader.
#[derive(Clone, Copy, Debug, PartialEq, Eq, Structural)]
pub enum FragError {
    /// A fragment arrived whose sequence number is not the expected one.
    OutOfSequence { expected: u64, received: u64 },
    /// Accepting the fragment would push the accumulated length past the
    /// buffer's byte capacity.
    Overflow { capacity: usize },
    /// A resync or construction value does not fit the counter's resolution.
    ResyncOutOfRange { sn: u64, resolution: u64 },
    /// A counter cannot be made with a resolution below two.
    InvalidResolution { resolution: u64 },
}

/// Construction-time errors of selectors and of sequence-number ranges.
#[derive(Clone, Copy, Debug, PartialEq, Eq, Structural)]
pub enum SelectorError {
    /// The key-expression part of a selector string is not a valid key expression.
    InvalidSelector,
    /// A `_sn` parameter does not parse as `<start?>..<end?>` over decimal `u64`.
    InvalidSeqNumRange,
}

} // verus!
