//! The records of a heap walk.

use vstd::prelude::*;

verus! {

pub const RTL_HEAP_BUSY: u16 = 0x0001;

pub const RTL_HEAP_SEGMENT: u16 = 0x0002;

pub const RTL_HEAP_SETTABLE_VALUE: u16 = 0x0010;

pub const RTL_HEAP_SETTABLE_FLAGS: u16 = 0x00e0;

/// What a walk tells of a block.
#[derive(Clone, Copy, Debug, PartialEq, Eq)]
pub struct RtlHeapWalkBlock {
    pub settable: usize,
    pub tag_index: u16,
    pub allocator_back_trace_index: u16,
    pub reserved: [u32; 2],
}

/// What a walk tells of a segment.
#[derive(Clone, Copy, Debug, PartialEq, Eq, Structural)]
pub struct RtlHeapWalkSegment {
    pub committed_size: usize,
    pub uncommitted_size: usize,
    /// The address of the first entry.
    pub first_entry: usize,
    /// The address behind the last entry.
    pub last_entry: usize,
}

/// What a walk tells of a block or a segment.
#[derive(Clone, Copy, Debug, PartialEq, Eq)]
pub enum RtlHeapWalkDetails {
    Block(RtlHeapWalkBlock),
    Segment(RtlHeapWalkSegment),
}

/// One row of a heap walk.
#[derive(Clone, Copy, Debug, PartialEq, Eq)]
pub struct RtlHeapWalkEntry {
    /// The address of the data.
    pub data_address: usize,
    pub data_size: usize,
    pub overhead_bytes: u8,
    pub segment_index: u8,
    pub flags: u16,
    pub details: RtlHeapWalkDetails,
}

} // verus!
