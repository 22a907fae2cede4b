//! The operations of unwind codes.

use vstd::prelude::*;

verus! {

/// A nonvolatile register was pushed. One slot.
pub const PUSH_NONVOL: u8 = 0;

/// A large stack allocation. Two slots, or three when the operand has 32 bits.
pub const ALLOC_LARGE: u8 = 1;

/// A small stack allocation. One slot.
pub const ALLOC_SMALL: u8 = 2;

/// The frame pointer was established. One slot.
pub const SET_FPREG: u8 = 3;

/// A nonvolatile register was saved at a 16-bit scaled offset. Two slots.
pub const SAVE_NONVOL: u8 = 4;

/// A nonvolatile register was saved at a 32-bit offset. Three slots.
pub const SAVE_NONVOL_FAR: u8 = 5;

/// An XMM register was saved at a 16-bit scaled offset. Two slots.
pub const SAVE_XMM128: u8 = 8;

/// An XMM register was saved at a 32-bit offset. Three slots.
pub const SAVE_XMM128_FAR: u8 = 9;

/// A machine frame was pushed. One slot.
pub const PUSH_MACHFRAME: u8 = 10;

} // verus!
