use vstd::prelude::*;

verus! {

/// Why a decode or an element access was refused.
#[derive(Clone, Copy, Debug, PartialEq, Eq, Structural)]
pub enum CodecError {
    /// The buffer is malformed, truncated, over a limit, or holds bytes
    /// beyond the end of the encoded value.
    CorruptEncoding,
    /// The requested index is not below the length of the sequence.
    IndexOutOfRange,
}

} // verus!
