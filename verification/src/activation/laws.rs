//! What the flags of frames say.

use vstd::prelude::*;

use super::{heap_flags, releases};

verus! {

proof fn lemma_flags(flags: u32)
    by (bit_vector)
    ensures
        flags & 1 != 0 <==> flags % 2 == 1,
        flags & 8 != 0 <==> flags / 8 % 2 == 1,
{
}

/// A frame on the heap has bit three. Where its release is asked for by bit zero of the activation, it
/// has bits zero and one as well.
pub proof fn heap_frames_are_marked(activate_flags: u32)
    ensures
        activate_flags % 2 == 0 ==> heap_flags(activate_flags) == 8,
        activate_flags % 2 == 1 ==> heap_flags(activate_flags) == 8 + 2 + 1,
        releases(heap_flags(activate_flags)) == 1,
{
    lemma_flags(activate_flags);
    lemma_flags(8);
    lemma_flags(11);
}

/// The release of a frame gives a reference back where bit zero or bit three says so.
pub proof fn marked_frames_are_released(flags: u32)
    ensures
        releases(flags) == if flags % 2 == 1 || flags / 8 % 2 == 1 {
            1int
        } else {
            0
        },
{
    lemma_flags(flags);
}

} // verus!
