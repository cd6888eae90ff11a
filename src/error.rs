//! Errors raised while reading untrusted byte streams.

use vstd::prelude::*;

verus! {

/// Why a byte stream could not be decoded.
#[derive(Debug, Clone, Copy, PartialEq, Eq, Structural)]
pub enum DecodeError {
    /// The stream ended before a structurally required byte was read.
    TruncatedInput,
    /// A varint does not fit in 64 bits.
    Overflow,
    /// The version or codec of a CID is not a valid varint.
    MalformedCid,
    /// The leading byte of an item, or a tag, is not one this codec knows.
    UnknownCborTag,
    /// A length header uses a form this codec does not accept.
    UnexpectedCborCode,
    /// A text string is not valid UTF-8.
    InvalidUtf8,
    /// A tag-42 payload has the wrong inner type byte, a zero length, or
    /// lacks the reserved leading zero byte.
    LinkFraming,
}

/// A decoding result whose position is seen as an integer.
pub open spec fn at_int<T>(r: Result<(T, usize), DecodeError>) -> Result<(T, int), DecodeError> {
    match r {
        Ok((v, p)) => Ok((v, p as int)),
        Err(e) => Err(e),
    }
}

} // verus!
