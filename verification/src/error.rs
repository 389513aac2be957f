//! The failures that the library reports.

use vstd::prelude::*;

verus! {

/// The failures that the library reports.
#[derive(Clone, Copy, Debug, PartialEq, Eq, Structural)]
pub enum NcdError {
    /// The compressed form of an input does not fit the scratch buffer of
    /// the compressor slot that measured it. Growing the buffers and
    /// measuring again recovers from it.
    CompressionOverflow,
    /// Both compared sequences have compressed size zero, so the distance
    /// has no denominator.
    DegenerateInput,
    /// A seed or a corpus is shorter than the context window.
    ContextTooShort,
    /// The compressor slot of the calling worker is on lease, or the pool
    /// has no slot at all.
    ResourcePoolExhausted,
}

} // verus!
