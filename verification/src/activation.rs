//! Activation-context data, stack frames, and the rules for activating and deactivating them.

use vstd::prelude::*;

use crate::guid::Guid;
use crate::{NtStatus, STATUS_INVALID_PARAMETER};

pub mod laws;

verus! {

pub const FRAME_FLAG_RELEASE_ON_DEACTIVATION: u32 = 0x01;

pub const FRAME_FLAG_NO_DEACTIVATE: u32 = 0x02;

pub const FRAME_FLAG_HEAP_ALLOCATED: u32 = 0x08;

pub const FRAME_FLAG_NOT_REALLY_ACTIVATED: u32 = 0x10;

pub const FRAME_FLAG_ACTIVATED: u32 = 0x20;

pub const FRAME_FLAG_DEACTIVATED: u32 = 0x40;

pub const DEACTIVATE_FLAG_FORCE_EARLY: u32 = 0x01;

pub const ACTIVATE_EX_FLAG_RELEASE_ON_STACK_DEALLOCATION: u32 = 0x01;

pub const CALLER_FRAME_FORMAT_WHISTLER: u32 = 1;

pub const STATUS_SXS_CANT_GEN_ACTCTX: NtStatus = 0xC015_0002;

pub const STATUS_SXS_INVALID_ACTCTXDATA_FORMAT: NtStatus = 0xC015_0003;

pub const STATUS_SXS_EARLY_DEACTIVATION: NtStatus = 0xC015_000F;

pub const STATUS_SXS_INVALID_DEACTIVATION: NtStatus = 0xC015_0010;

pub const STATUS_BUFFER_TOO_SMALL: NtStatus = 0xC000_0023;

pub const INVALID_COOKIE: usize = usize::MAX;

pub const COMPATIBILITY_ELEMENT_TYPE_OS: u32 = 1;

pub const COMPATIBILITY_ELEMENT_TYPE_MAX_VERSION_TESTED: u32 = 3;

pub const RUN_LEVEL_UNSPECIFIED: u32 = 0;

pub const RUN_LEVEL_AS_INVOKER: u32 = 1;

pub const RUN_LEVEL_HIGHEST_AVAILABLE: u32 = 2;

pub const RUN_LEVEL_REQUIRE_ADMIN: u32 = 3;

/// The largest manifest that is read.
pub const MAX_MANIFEST_BYTES: usize = 0x0100_0000;

/// One file of an assembly that a DLL name may be redirected to.
#[derive(Clone, Debug, PartialEq, Eq)]
pub struct DllRedirect {
    /// The DLL name that is redirected.
    pub name: Vec<u16>,
    /// The path to load from, where the manifest gives one.
    pub load_from: Option<Vec<u16>>,
}

impl DllRedirect {
    /// The load path as text.
    pub open spec fn path(self) -> Option<Seq<u16>> {
        match self.load_from {
            Some(path) => Some(path@),
            None => None,
        }
    }
}

/// One compatibility statement of a manifest.
#[derive(Clone, Copy, Debug, PartialEq, Eq)]
pub struct CompatibilityElement {
    /// The identifier of a supported system.
    pub id: Guid,
    /// What the element states.
    pub kind: u32,
    /// The highest version that was tested, four 16-bit parts.
    pub max_version_tested: u64,
}

/// One frame of an activation-context stack.
#[derive(Clone, Copy, Debug, Default, PartialEq, Eq, Structural)]
pub struct ActivationContextStackFrame {
    pub previous: u64,
    pub activation_context: u64,
    pub flags: u32,
    pub padding: u32,
}

/// The activation-context stack of a thread.
#[derive(Clone, Copy, Debug, Default, PartialEq, Eq, Structural)]
pub struct ActivationContextStack {
    pub active_frame: u64,
    pub frame_list_cache_flink: u64,
    pub frame_list_cache_blink: u64,
    pub flags: u32,
    pub next_cookie_sequence_number: u32,
    pub stack_id: u32,
    pub padding: u32,
}

impl ActivationContextStack {
    pub const SIZE: usize = 40;

    /// An empty stack at `address`: its frame list cache points at itself, and cookies count from
    /// one.
    pub fn new(address: u64) -> (stack: Self)
        requires
            address + 8 <= u64::MAX,
        ensures
            stack == (ActivationContextStack {
                active_frame: 0,
                frame_list_cache_flink: (address + 8) as u64,
                frame_list_cache_blink: (address + 8) as u64,
                flags: 0,
                next_cookie_sequence_number: 1,
                stack_id: 1,
                padding: 0,
            }),
    {
        ActivationContextStack {
            active_frame: 0,
            frame_list_cache_flink: address + 8,
            frame_list_cache_blink: address + 8,
            flags: 0,
            next_cookie_sequence_number: 1,
            stack_id: 1,
            padding: 0,
        }
    }
}

impl ActivationContextStackFrame {
    pub const SIZE: usize = 24;
}

/// A frame whose storage the caller holds.
#[derive(Clone, Copy, Debug, Default, PartialEq, Eq, Structural)]
pub struct CallerAllocatedFrameBasic {
    pub size: u64,
    pub format: u32,
    pub padding: u32,
    pub frame: ActivationContextStackFrame,
}

/// A frame whose storage the caller holds, with room for more.
#[derive(Clone, Copy, Debug, Default, PartialEq, Eq)]
pub struct CallerAllocatedFrameExtended {
    pub basic: CallerAllocatedFrameBasic,
    pub extra: [u64; 4],
}

impl CallerAllocatedFrameBasic {
    pub const SIZE: usize = 40;
}

impl CallerAllocatedFrameExtended {
    pub const SIZE: usize = 72;
}

/// Whether the flags of a frame hold a flag.
pub open spec fn has_flag(flags: u32, flag: u32) -> bool {
    flags & flag != 0
}

/// The flags of a frame on the heap, given the flags of the activation.
pub open spec fn heap_flags(activate_flags: u32) -> u32 {
    if has_flag(activate_flags, ACTIVATE_EX_FLAG_RELEASE_ON_STACK_DEALLOCATION) {
        (FRAME_FLAG_HEAP_ALLOCATED + FRAME_FLAG_NO_DEACTIVATE
            + FRAME_FLAG_RELEASE_ON_DEACTIVATION) as u32
    } else {
        FRAME_FLAG_HEAP_ALLOCATED
    }
}

/// How many references the release of a frame gives back.
pub open spec fn releases(flags: u32) -> int {
    if has_flag(flags, FRAME_FLAG_HEAP_ALLOCATED) || has_flag(
        flags,
        FRAME_FLAG_RELEASE_ON_DEACTIVATION,
    ) {
        1
    } else {
        0
    }
}

/// Every frame on the heap gives back exactly one reference, however it was activated.
pub proof fn heap_frames_release_once(activate_flags: u32)
    ensures
        releases(heap_flags(activate_flags)) == 1,
{
    assert(0x0bu32 & 0x08 != 0) by (bit_vector);
    assert(0x08u32 & 0x08 != 0) by (bit_vector);
}

/// The flags of a frame on the heap, given the flags of the activation.
pub fn heap_frame_flags(activate_flags: u32) -> (flags: u32)
    ensures
        flags == heap_flags(activate_flags),
{
    assert(0x08u32 | (0x02u32 | 0x01u32) == 0x0b) by (bit_vector);
    assert(0x08u32 | 0 == 0x08) by (bit_vector);
    FRAME_FLAG_HEAP_ALLOCATED | if activate_flags & ACTIVATE_EX_FLAG_RELEASE_ON_STACK_DEALLOCATION
        != 0 {
        FRAME_FLAG_NO_DEACTIVATE | FRAME_FLAG_RELEASE_ON_DEACTIVATION
    } else {
        0
    }
}

/// How many references the release of a frame gives back.
pub fn release_count(flags: u32) -> (count: usize)
    ensures
        count == releases(flags),
{
    assert((flags & (0x08u32 | 0x01u32) != 0) == (flags & 0x08 != 0 || flags & 0x01 != 0))
        by (bit_vector);
    if flags & (FRAME_FLAG_HEAP_ALLOCATED | FRAME_FLAG_RELEASE_ON_DEACTIVATION) != 0 {
        1
    } else {
        0
    }
}

/// Whether a frame may be deactivated: unknown flags are refused, then frames that are not live on
/// the heap, then frames under others unless `DEACTIVATE_FLAG_FORCE_EARLY` is given.
pub fn validate_deactivation(
    frame_found: bool,
    frame_is_top: bool,
    frame_is_heap_allocated: bool,
    flags: u32,
) -> (r: Result<(), NtStatus>)
    ensures
        r == if flags > DEACTIVATE_FLAG_FORCE_EARLY {
            Err(STATUS_INVALID_PARAMETER)
        } else if !frame_found || !frame_is_heap_allocated {
            Err(STATUS_SXS_INVALID_DEACTIVATION)
        } else if !frame_is_top && flags == 0 {
            Err(STATUS_SXS_EARLY_DEACTIVATION)
        } else {
            Ok::<(), NtStatus>(())
        },
{
    assert((flags & !1u32 != 0) == (flags > 1)) by (bit_vector);
    assert(flags <= 1 ==> (flags & 1 == 0) == (flags == 0)) by (bit_vector);
    if flags & !DEACTIVATE_FLAG_FORCE_EARLY != 0 {
        return Err(STATUS_INVALID_PARAMETER);
    }
    if !frame_found || !frame_is_heap_allocated {
        return Err(STATUS_SXS_INVALID_DEACTIVATION);
    }
    if !frame_is_top && flags & DEACTIVATE_FLAG_FORCE_EARLY == 0 {
        return Err(STATUS_SXS_EARLY_DEACTIVATION);
    }
    Ok(())
}

/// Whether an activation may go on.
pub fn validate_activate_ex(flags: u32, teb_present: bool, context: usize) -> (r: Result<
    (),
    NtStatus,
>)
    ensures
        r == if flags > ACTIVATE_EX_FLAG_RELEASE_ON_STACK_DEALLOCATION || !teb_present || context
            == usize::MAX {
            Err(STATUS_INVALID_PARAMETER)
        } else {
            Ok::<(), NtStatus>(())
        },
{
    assert((flags & !1u32 != 0) == (flags > 1)) by (bit_vector);
    if flags & !ACTIVATE_EX_FLAG_RELEASE_ON_STACK_DEALLOCATION != 0 || !teb_present || context
        == usize::MAX {
        return Err(STATUS_INVALID_PARAMETER);
    }
    Ok(())
}

/// Whether a caller's frame is large enough and of the known format.
pub fn validate_caller_frame(size: usize, format: u32) -> (ok: bool)
    ensures
        ok == (size >= 40 && format == CALLER_FRAME_FORMAT_WHISTLER),
{
    size >= CallerAllocatedFrameBasic::SIZE && format == CALLER_FRAME_FORMAT_WHISTLER
}

/// Whether a caller's frame is active.
pub fn caller_frame_can_deactivate(flags: u32) -> (ok: bool)
    ensures
        ok == (has_flag(flags, FRAME_FLAG_ACTIVATED) && !has_flag(flags, FRAME_FLAG_DEACTIVATED)),
{
    flags & FRAME_FLAG_ACTIVATED != 0 && flags & FRAME_FLAG_DEACTIVATED == 0
}

} // verus!
