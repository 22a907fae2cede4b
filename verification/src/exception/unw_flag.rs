//! The flags of unwind information.

use vstd::prelude::*;

verus! {

/// No language handler.
pub const NHANDLER: u8 = 0x0;

/// An exception filter is present.
pub const EHANDLER: u8 = 0x1;

/// A termination handler is present.
pub const UHANDLER: u8 = 0x2;

/// The unwind information continues with that of another function.
pub const CHAININFO: u8 = 0x4;

} // verus!
