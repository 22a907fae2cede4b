//! Where seeks lead.

use vstd::prelude::*;

use super::target;

verus! {

/// A seek from the start leads as far behind it as the offset says, one from the current position as
/// far behind that, and one from the end as far in front of it. Other origins lead nowhere.
pub proof fn seeks_measure_from_their_origin(start: int, current: int, end: int, offset: int, origin: u32)
    ensures
        target(start, current, end, offset, 0) matches Some(at) && at - start == offset,
        target(start, current, end, offset, 1) matches Some(at) && at - current == offset,
        target(start, current, end, offset, 2) matches Some(at) && end - at == offset,
        origin > 2 ==> target(start, current, end, offset, origin) is None,
{
}

/// From the same place, a seek by an offset and one back by it lead to where they began.
pub proof fn seeks_can_be_undone(start: int, current: int, end: int, offset: int)
    ensures
        target(start, target(start, current, end, offset, 1)->Some_0, end, -offset, 1) == Some(current),
        target(start, current, end, end - start, 2) == Some(start),
        target(start, current, end, end - start, 0) == Some(end),
{
}

} // verus!
