//! The indices of data directories.

use vstd::prelude::*;

verus! {

pub const EXPORT: usize = 0;

pub const IMPORT: usize = 1;

pub const RESOURCE: usize = 2;

/// The function table.
pub const EXCEPTION: usize = 3;

pub const BASERELOC: usize = 5;

pub const TLS: usize = 9;

pub const IAT: usize = 12;

} // verus!
