//! Consistent Overhead Byte Stuffing (COBS) framing with zero as the fixed
//! delimiter.
//!
//! The library holds the codec's logic as verified, I/O-free state machines:
//!
//! - [`format`]: the COBS format as a specification (`cobs_encode`) and the
//!   laws that hold of it.
//! - [`seekable`]: slice-backed readers and writers with checked seeking.
//! - [`encode`]: one-shot encoding of a slice and the incremental encoder's
//!   decisions (which byte goes to which destination offset).
//! - [`decode`]: the decoding state machine, the incremental decoder's
//!   decisions and one-shot decoding into a slice.
//! - [`error`]: the error types shared by all of them.
//!
//! Asynchronous I/O drivers that perform the actions these state machines
//! ask for live outside the library.
use vstd::prelude::*;

pub mod decode;
pub mod encode;
pub mod error;
pub mod format;
pub mod seekable;

pub use decode::DecodeProgress;
pub use error::{CompletionError, DecodeError, EncodeError, SeekableError};

verus! {

/// The most additional bytes an undelimited encoding of `source_len`
/// payload bytes needs: `1` for empty input, otherwise `ceil(source_len / 254)`.
pub open spec fn spec_max_encoding_overhead(source_len: int) -> int {
    if source_len == 0 {
        1
    } else {
        (source_len + 253) / 254
    }
}

/// Returns the maximum additional bytes needed for an undelimited encoding.
///
/// Returns `1` for empty input; otherwise returns `source_len.div_ceil(254)`.
/// The result excludes leading and trailing frame delimiters, and is an upper
/// bound across payloads of the given length.
pub fn max_encoding_overhead(source_len: usize) -> (overhead: usize)
    ensures
        overhead == spec_max_encoding_overhead(source_len as int),
{
    if source_len == 0 {
        return 1;
    }
    let whole: usize = source_len / 254;
    if source_len % 254 == 0 {
        whole
    } else {
        whole + 1
    }
}

/// Returns the maximum encoded body length for `source_len` payload bytes:
/// `source_len + max_encoding_overhead(source_len)`, excluding delimiters.
///
/// The sum must fit in `usize` (the unchecked addition would overflow
/// otherwise).
pub fn max_encoding_length(source_len: usize) -> (len: usize)
    requires
        source_len + spec_max_encoding_overhead(source_len as int) <= usize::MAX,
    ensures
        len == source_len + spec_max_encoding_overhead(source_len as int),
{
    source_len + max_encoding_overhead(source_len)
}

} // verus!
