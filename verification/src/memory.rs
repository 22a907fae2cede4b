//! Comparing memory.

use vstd::prelude::*;

use crate::bytes::{get_u32, le32};

pub mod laws;

verus! {

/// How many of the 32-bit values from `i` on equal `value`, up to the first that does not. Bytes
/// behind the last whole value do not count.
pub open spec fn equal_words(source: Seq<u8>, value: u32, i: int) -> int
    decreases source.len() - i,
{
    if i < 0 || i + 4 > source.len() || le32(source, i) != value {
        0
    } else {
        1 + equal_words(source, value, i + 4)
    }
}

/// How many bytes at the start hold 32-bit values that equal `value`.
pub fn compare_memory_ulong(source: &[u8], value: u32) -> (matched: usize)
    ensures
        matched == 4 * equal_words(source@, value, 0),
        matched <= source@.len(),
{
    assert(source.len() <= usize::MAX);
    let mut at: usize = 0;
    while source.len() - at >= 4
        invariant
            at <= source@.len() <= usize::MAX,
            4 * equal_words(source@, value, 0) == at + 4 * equal_words(source@, value, at as int),
        decreases source@.len() - at,
    {
        if get_u32(source, at) != value {
            return at;
        }
        at += 4;
    }
    at
}

} // verus!
