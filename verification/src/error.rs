use vstd::prelude::*;

verus! {

/// Why a byte stream could not be decoded.
#[derive(Clone, Copy, Debug, PartialEq, Eq, Structural)]
pub enum PackError {
    /// The input ends in the middle of an integer, a header or an instruction.
    TruncatedInput,
    /// An entry's type tag, or an object's kind name, is not one of the known ones.
    UnknownTypeTag,
    /// A delta names a base that has not been decoded.
    UnresolvedBaseReference,
    /// A copy instruction reaches outside the base buffer.
    OutOfRangeCopy,
    /// A declared length differs from the length found.
    LengthMismatch { expected: u128, actual: u128 },
    /// A compressed payload is not a complete zlib stream.
    DecompressionFailure,
    /// An encoded integer does not fit in 128 bits.
    Overflow,
    /// An object header is not a kind name, a space, a decimal length and a zero byte.
    MalformedHeader,
    /// A delta instruction byte is zero.
    InvalidInstruction,
    /// A stored object does not hash to the identity it is stored under.
    HashMismatch,
}

} // verus!
