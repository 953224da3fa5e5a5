//! The codec's failure kinds.

use vstd::prelude::*;

verus! {

/// What can go wrong while decoding a compressed artifact.  Malformed
/// input becomes one of these values; the codec never panics on it.
#[derive(Clone, Copy, Debug, PartialEq, Eq, Structural)]
pub enum CodecError {
    /// The bit source ran out at a point where more bits were required.
    TruncatedStream,
    /// The tree header is one the encoder never emits: a single leaf,
    /// whose empty code could not delimit the payload.
    MalformedTree,
    /// The declared payload bits end mid-descent inside the tree.
    PayloadOverrun,
}

} // verus!
