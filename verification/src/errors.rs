//! Decode failures. Encoding has no failure modes on well-formed values;
//! decoding aborts the whole record or message on the first fault.

use vstd::prelude::*;

verus! {

/// Why a decode gave up.
#[derive(Clone, Copy, Debug, PartialEq, Eq, Structural)]
pub enum DecodeError {
    /// A label's declared length runs past the buffer, a label byte is not
    /// plain text, or a compression pointer is itself cut off or targets a
    /// malformed name.
    MalformedName,
    /// A fixed-width field read (header fields, type, class, time to live,
    /// data length) or the data payload runs past the end of the buffer.
    TruncatedBuffer,
    /// A compression pointer hop beyond the allowed budget: a pointer found
    /// inside a pointer target.
    InvalidPointerChain,
}

} // verus!
