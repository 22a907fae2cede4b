//! Positions in a stream over memory.

use vstd::prelude::*;

pub mod laws;

verus! {

pub const S_OK: u32 = 0x0000_0000;

pub const E_INVALIDARG: u32 = 0x8007_0057;

pub const STG_E_INVALIDPOINTER: u32 = 0x8003_0009;

pub const STREAM_SEEK_SET: u32 = 0;

pub const STREAM_SEEK_CUR: u32 = 1;

pub const STREAM_SEEK_END: u32 = 2;

/// How many bytes are left; none where the position is behind the end.
pub fn available(current: usize, end: usize) -> (n: usize)
    ensures
        n == if end > current {
            end - current
        } else {
            0
        },
{
    if end > current {
        end - current
    } else {
        0
    }
}

/// How many bytes a read gives.
pub fn read_length(current: usize, end: usize, requested: u32) -> (n: usize)
    ensures
        n == if current + requested <= end {
            requested as int
        } else if current < end {
            end - current
        } else {
            0
        },
{
    let left: usize = available(current, end);
    if left < requested as usize {
        left
    } else {
        requested as usize
    }
}

/// Where a seek leads; `None` where its origin is not known. From the end, an offset counts
/// backwards.
pub open spec fn target(start: int, current: int, end: int, offset: int, origin: u32) -> Option<int> {
    if origin == STREAM_SEEK_SET {
        Some(start + offset)
    } else if origin == STREAM_SEEK_CUR {
        Some(current + offset)
    } else if origin == STREAM_SEEK_END {
        Some(end - offset)
    } else {
        None
    }
}

/// The new position of a seek. It has to stay in the stream.
pub fn seek_position(start: usize, current: usize, end: usize, relative_offset: i64, origin: u32)
    -> (r: Result<usize, u32>)
    ensures
        match target(start as int, current as int, end as int, relative_offset as int, origin) {
            None => r == Err::<usize, u32>(E_INVALIDARG),
            Some(at) => r == if start <= at <= end {
                Ok::<usize, u32>(at as usize)
            } else {
                Err(STG_E_INVALIDPOINTER)
            },
        },
{
    let at: i128 = if origin == STREAM_SEEK_SET {
        start as i128 + relative_offset as i128
    } else if origin == STREAM_SEEK_CUR {
        current as i128 + relative_offset as i128
    } else if origin == STREAM_SEEK_END {
        end as i128 - relative_offset as i128
    } else {
        return Err(E_INVALIDARG);
    };
    if at < start as i128 || at > end as i128 {
        return Err(STG_E_INVALIDPOINTER);
    }
    Ok(at as usize)
}

} // verus!
