//! The conditions under which a transform gives up.

use vstd::prelude::*;

verus! {

/// Why a transform rejected its input.
#[derive(Debug, Clone, Copy, PartialEq, Eq, Structural)]
pub enum CodecError {
    /// The input does not end on a block boundary.
    IncompleteBlock,
    /// A text and its key token differ in length.
    LengthMismatch,
    /// A symbol to encode has no entry in the code table.
    UnknownSymbol,
    /// The encoded stream ends in the middle of a code.
    TruncatedStream,
}

} // verus!
