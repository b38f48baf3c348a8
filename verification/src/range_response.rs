//! The bytes of a ranged HTTP read, from whatever the server sent back.
//!
//! A read asks for `[start, end)` of a file. A server may ignore the range
//! and send the whole file (status 200), or send from `start` to the end of
//! the file; the requested bytes are cut out of either.

use vstd::prelude::*;
use crate::codec::copy_range;

verus! {

/// Why a ranged read gave no usable bytes.
#[derive(Debug, Clone, Copy, PartialEq, Eq, Structural)]
pub enum RangeError {
    /// The whole file came back, but it ends before `end`.
    FileTooSmall { len: usize, start: u32, end: u32 },
    /// Fewer bytes came back than the range holds.
    Short { expected: usize, got: usize, status: u16 },
}

/// The requested bytes, given the status and the bytes of the response.
pub open spec fn range_bytes(status: u16, bytes: Seq<u8>, start: u32, end: u32) -> Result<
    Seq<u8>,
    RangeError,
> {
    let n = bytes.len();
    let expected = end - start;
    if status == 200 && n > expected {
        if n >= end {
            Ok(bytes.subrange(start as int, end as int))
        } else {
            Err(RangeError::FileTooSmall { len: n as usize, start, end })
        }
    } else if n > expected {
        Ok(bytes.take(expected))
    } else if n < expected {
        Err(RangeError::Short { expected: expected as usize, got: n as usize, status })
    } else {
        Ok(bytes)
    }
}

/// Cut the requested range `[start, end)` out of a response: the full file
/// of a status-200 reply is sliced, a longer reply is truncated, and a
/// shorter one is an error.
pub fn normalize_range_response(status: u16, bytes: Vec<u8>, start: u32, end: u32) -> (r: Result<
    Vec<u8>,
    RangeError,
>)
    requires
        start <= end,
    ensures
        match (r, range_bytes(status, bytes@, start, end)) {
            (Ok(v), Ok(s)) => v@ == s,
            (Err(e), Err(f)) => e == f,
            _ => false,
        },
{
    let expected: usize = (end - start) as usize;
    let n = bytes.len();
    if status == 200 && n > expected {
        if n >= end as usize {
            let out = copy_range(bytes.as_slice(), start as usize, end as usize);
            return Ok(out);
        }
        return Err(RangeError::FileTooSmall { len: n, start, end });
    }
    if n > expected {
        let out = copy_range(bytes.as_slice(), 0, expected);
        proof {
            assert(out@ =~= bytes@.take(expected as int));
        }
        return Ok(out);
    }
    if n < expected {
        return Err(RangeError::Short { expected, got: n, status });
    }
    Ok(bytes)
}

} // verus!
