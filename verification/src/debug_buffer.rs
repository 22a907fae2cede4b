//! Debug information buffers: their allocation policy, heap records, and the modules of another
//! process.

use vstd::prelude::*;

use crate::bytes::{
    flat, get_u16, get_u32, get_u64, le16, le16_bytes, le32, le32_bytes, le64, lemma_flat_push,
    push_bytes, push_u16, push_zeros, put_u32, zero_bytes,
};
use crate::heap::{
    RtlHeapWalkDetails, RtlHeapWalkEntry, RTL_HEAP_BUSY, RTL_HEAP_SEGMENT, RTL_HEAP_SETTABLE_FLAGS,
    RTL_HEAP_SETTABLE_VALUE,
};
use crate::NtStatus;

pub mod laws;

verus! {

pub const DEBUG_INFORMATION_SIZE: usize = 0xd0;

pub const DEFAULT_VIEW_SIZE: usize = 0x40_0000;

pub const PAGE_SIZE: usize = 0x1000;

pub const QUERY_MODULES: u32 = 0x01;

pub const QUERY_HEAPS: u32 = 0x04;

pub const QUERY_HEAP_TAGS: u32 = 0x08;

pub const QUERY_HEAP_BLOCKS: u32 = 0x10;

pub const SUPPORTED_QUERY_MASK: u32 = 0x15;

pub const RTL_PROCESS_MODULES_HEADER_SIZE: usize = 0x08;

pub const RTL_PROCESS_MODULE_INFORMATION_SIZE: usize = 0x128;

pub const REMOTE_MODULE_LIMIT: usize = 4096;

pub const HIGHEST_USER_ADDRESS: u64 = 0x0000_07ff_fffe_ffff;

pub const PEB_LDR_OFFSET: u64 = 0x18;

pub const LDR_IN_LOAD_ORDER_LIST_OFFSET: u64 = 0x10;

pub const LDR_ENTRY_SIZE: usize = 0x98;

pub const LDR_DLL_BASE_OFFSET: usize = 0x30;

pub const LDR_SIZE_OF_IMAGE_OFFSET: usize = 0x40;

pub const LDR_FULL_DLL_NAME_OFFSET: usize = 0x48;

pub const LDR_FLAGS_OFFSET: usize = 0x68;

pub const LDR_LOAD_COUNT_OFFSET: usize = 0x6c;

/// What can be wrong with the loader list of another process.
#[derive(Copy, Clone, Debug, Eq, PartialEq, Structural)]
pub enum RemoteModuleLayoutError {
    InvalidAddress,
    InvalidList,
    InvalidModule,
    InvalidUnicodeString,
    ModuleLimitExceeded,
    RequiredSizeOverflow,
    SnapshotChanged,
}

/// Why the modules of another process could not be told: a read failed, the list is malformed, or
/// the buffer is too small.
#[derive(Copy, Clone, Debug, Eq, PartialEq, Structural)]
pub enum RemoteModuleSnapshotError {
    Read(NtStatus),
    Malformed(RemoteModuleLayoutError),
    BufferTooSmall { required: usize },
}

/// How many modules there are, and how many bytes they take.
#[derive(Copy, Clone, Debug, Eq, PartialEq, Structural)]
pub struct RemoteModuleSnapshot {
    pub module_count: u32,
    pub required_size: usize,
}

// ---------------------------------------------------------------------------------------------
// The memory of another process
// ---------------------------------------------------------------------------------------------

/// What reads of another process's memory give.
pub type Memory = spec_fn(u64, usize) -> Result<Seq<u8>, NtStatus>;

/// Whether a function reads as many bytes as it is asked for.
pub open spec fn reads_fully<R: FnMut(u64, usize) -> Result<Vec<u8>, NtStatus>>(reader: R) -> bool {
    &&& forall|a: u64, n: usize| #[trigger] call_requires(reader, (a, n))
    &&& forall|a: u64, n: usize, v: Vec<u8>| #[trigger]
        call_ensures(reader, (a, n), Ok::<Vec<u8>, NtStatus>(v)) ==> v@.len() == n
}

/// Whether all reads of a function are those of a memory.
pub open spec fn reads_from<R: FnMut(u64, usize) -> Result<Vec<u8>, NtStatus>>(
    reader: R,
    m: Memory,
) -> bool {
    forall|a: u64, n: usize, r: Result<Vec<u8>, NtStatus>| #[trigger]
        call_ensures(reader, (a, n), r) ==> m(a, n) == match r {
            Ok(v) => Ok::<Seq<u8>, NtStatus>(v@),
            Err(status) => Err(status),
        }
}

/// Whether a run of bytes lies in user memory.
pub open spec fn range_ok(address: int, length: int) -> bool {
    address != 0 && length != 0 && address + length - 1 <= HIGHEST_USER_ADDRESS
}

/// Whether a run of bytes lies in user memory at a multiple of `alignment`.
pub open spec fn pointer_ok(address: int, length: int, alignment: int) -> bool {
    address % alignment == 0 && range_ok(address, length)
}

/// The bytes at an address.
pub open spec fn bytes_at(m: Memory, address: u64, length: int) -> Result<
    Seq<u8>,
    RemoteModuleSnapshotError,
> {
    if !range_ok(address as int, length) {
        Err(RemoteModuleSnapshotError::Malformed(RemoteModuleLayoutError::InvalidAddress))
    } else {
        match m(address, length as usize) {
            Ok(bytes) => Ok(bytes),
            Err(status) => Err(RemoteModuleSnapshotError::Read(status)),
        }
    }
}

/// The bytes of a read.
pub open spec fn read_result(r: Result<Vec<u8>, RemoteModuleSnapshotError>) -> Result<
    Seq<u8>,
    RemoteModuleSnapshotError,
> {
    match r {
        Ok(v) => Ok(v@),
        Err(e) => Err(e),
    }
}

fn checked_remote_range(address: u64, length: usize) -> (ok: bool)
    ensures
        ok == range_ok(address as int, length as int),
{
    address != 0 && length != 0 && address as u128 + length as u128 - 1
        <= HIGHEST_USER_ADDRESS as u128
}

fn checked_remote_pointer(address: u64, length: usize, alignment: u64) -> (ok: bool)
    requires
        alignment > 0,
    ensures
        ok == pointer_ok(address as int, length as int, alignment as int),
{
    address % alignment == 0 && checked_remote_range(address, length)
}

fn remote_read<R: FnMut(u64, usize) -> Result<Vec<u8>, NtStatus>>(
    reader: &mut R,
    address: u64,
    length: usize,
) -> (r: Result<Vec<u8>, RemoteModuleSnapshotError>)
    requires
        reads_fully(*old(reader)),
    ensures
        *final(reader) == *old(reader),
        forall|m: Memory| #[trigger]
            reads_from(*old(reader), m) ==> read_result(r) == bytes_at(m, address, length as int),
        r matches Ok(v) ==> v@.len() == length && range_ok(address as int, length as int),
{
    if !checked_remote_range(address, length) {
        return Err(
            RemoteModuleSnapshotError::Malformed(RemoteModuleLayoutError::InvalidAddress),
        );
    }
    match reader(address, length) {
        Ok(v) => Ok(v),
        Err(status) => Err(RemoteModuleSnapshotError::Read(status)),
    }
}

// ---------------------------------------------------------------------------------------------
// Module names
// ---------------------------------------------------------------------------------------------

/// The code units of a name from byte `at` on, read in pieces of at most 64 bytes.
pub open spec fn name_units_from(m: Memory, buffer: u64, length: int, at: int) -> Result<
    Seq<u16>,
    RemoteModuleSnapshotError,
>
    decreases length - at,
{
    if at >= length {
        Ok(Seq::empty())
    } else {
        let piece = if length - at < 64 {
            length - at
        } else {
            64
        };
        match bytes_at(m, (buffer + at) as u64, piece) {
            Ok(bytes) => match name_units_from(m, buffer, length, at + piece) {
                Ok(rest) => Ok(crate::bytes::wide_at(bytes, 0, piece / 2) + rest),
                Err(e) => Err(e),
            },
            Err(e) => Err(e),
        }
    }
}

/// A code unit as an ASCII character; a question mark where it is none.
pub open spec fn narrowed(unit: u16) -> u8 {
    if unit <= 0x7f {
        unit as u8
    } else {
        0x3f
    }
}

/// The path that is stored of a name: its first 255 units.
pub open spec fn stored_path(units: Seq<u16>) -> Seq<u8> {
    Seq::new(
        if units.len() < 255 {
            units.len()
        } else {
            255
        },
        |i: int| narrowed(units[i]),
    )
}

/// Where the file name starts in a stored path: behind the last separator.
pub open spec fn file_offset(path: Seq<u8>) -> int
    decreases path.len(),
{
    if path.len() == 0 {
        0
    } else if path.last() == 0x5c || path.last() == 0x2f {
        path.len() as int
    } else {
        file_offset(path.drop_last())
    }
}

/// Whether the description of a name makes sense.
pub open spec fn name_ok(entry: Seq<u8>) -> bool {
    let length = le16(entry, 0x48);
    let maximum = le16(entry, 0x4a);
    let buffer = le64(entry, 0x50);
    &&& length % 2 == 0
    &&& maximum % 2 == 0
    &&& length <= maximum
    &&& maximum != 0 ==> pointer_ok(buffer as int, maximum as int, 2)
    &&& maximum == 0 && buffer != 0 ==> pointer_ok(buffer as int, 1, 2)
}

/// The path that is stored for a loader entry.
pub open spec fn path_of(m: Memory, entry: Seq<u8>) -> Result<
    Seq<u8>,
    RemoteModuleSnapshotError,
> {
    if !name_ok(entry) {
        Err(RemoteModuleSnapshotError::Malformed(RemoteModuleLayoutError::InvalidUnicodeString))
    } else {
        match name_units_from(m, le64(entry, 0x50), le16(entry, 0x48) as int, 0) {
            Ok(units) => Ok(stored_path(units)),
            Err(e) => Err(e),
        }
    }
}

/// Read the name that a loader entry describes.
fn validate_and_copy_remote_name<R: FnMut(u64, usize) -> Result<Vec<u8>, NtStatus>>(
    reader: &mut R,
    entry: &Vec<u8>,
) -> (r: Result<Vec<u8>, RemoteModuleSnapshotError>)
    requires
        reads_fully(*old(reader)),
        entry@.len() == LDR_ENTRY_SIZE,
    ensures
        *final(reader) == *old(reader),
        forall|m: Memory| #[trigger]
            reads_from(*old(reader), m) ==> read_result(r) == path_of(m, entry@),
        r matches Ok(path) ==> path@.len() <= 255,
{
    let length: usize = get_u16(entry, LDR_FULL_DLL_NAME_OFFSET) as usize;
    let maximum: usize = get_u16(entry, LDR_FULL_DLL_NAME_OFFSET + 2) as usize;
    let buffer: u64 = get_u64(entry, LDR_FULL_DLL_NAME_OFFSET + 8);
    if length % 2 != 0 || maximum % 2 != 0 || length > maximum || (maximum != 0
        && !checked_remote_pointer(buffer, maximum, 2)) || (maximum == 0 && buffer != 0
        && !checked_remote_pointer(buffer, 1, 2)) {
        return Err(
            RemoteModuleSnapshotError::Malformed(RemoteModuleLayoutError::InvalidUnicodeString),
        );
    }
    let mut path: Vec<u8> = Vec::new();
    let mut at: usize = 0;
    let ghost mut units: Seq<u16> = Seq::empty();
    assert(path@ =~= stored_path(units));
    proof {
        assert forall|m: Memory| #[trigger] reads_from(*reader, m) implies match name_units_from(
            m,
            buffer,
            length as int,
            0,
        ) {
            Ok(rest) => rest == units + rest,
            Err(_) => true,
        } by {
            if let Ok(rest) = name_units_from(m, buffer, length as int, 0) {
                assert(rest =~= units + rest);
            }
        }
    }
    while at < length
        invariant
            *reader == *old(reader),
            reads_fully(*reader),
            at <= length <= 0xffff,
            length % 2 == 0,
            at % 2 == 0,
            at < length ==> range_ok(buffer as int, length as int),
            path@ == stored_path(units),
            forall|m: Memory| #[trigger]
                reads_from(*reader, m) ==> match name_units_from(
                    m,
                    buffer,
                    length as int,
                    at as int,
                ) {
                    Ok(rest) => name_units_from(m, buffer, length as int, 0) == Ok::<
                        Seq<u16>,
                        RemoteModuleSnapshotError,
                    >(units + rest),
                    Err(e) => name_units_from(m, buffer, length as int, 0) == Err::<
                        Seq<u16>,
                        RemoteModuleSnapshotError,
                    >(e),
                },
            name_ok(entry@),
            length == le16(entry@, 0x48),
            buffer == le64(entry@, 0x50),
        decreases length - at,
    {
        let piece: usize = if length - at < 64 {
            length - at
        } else {
            64
        };
        let bytes = match remote_read(reader, buffer + at as u64, piece) {
            Ok(bytes) => bytes,
            Err(e) => {
                return Err(e);
            },
        };
        let ghost before = units;
        let ghost more = crate::bytes::wide_at(bytes@, 0, piece as int / 2);
        let mut pair: usize = 0;
        assert(before + more.take(0) =~= before);
        while pair < piece / 2
            invariant
                pair <= piece / 2,
                bytes@.len() == piece <= 64,
                more == crate::bytes::wide_at(bytes@, 0, piece as int / 2),
                path@ == stored_path(before + more.take(pair as int)),
            decreases piece - pair,
        {
            let unit: u16 = get_u16(&bytes, pair * 2);
            let ghost so_far = before + more.take(pair as int);
            let ghost next = before + more.take(pair + 1);
            assert(next =~= so_far.push(unit));
            if path.len() < 255 {
                path.push(
                    if unit <= 0x7f {
                        unit as u8
                    } else {
                        0x3f
                    },
                );
            }
            assert(path@ =~= stored_path(next));
            pair += 1;
        }
        assert(more.take(pair as int) =~= more);
        let ghost past = at as int;
        at += piece;
        proof {
            units = before + more;
            assert forall|m: Memory| #[trigger] reads_from(*reader, m) implies match name_units_from(
                m,
                buffer,
                length as int,
                at as int,
            ) {
                Ok(rest) => name_units_from(m, buffer, length as int, 0) == Ok::<
                    Seq<u16>,
                    RemoteModuleSnapshotError,
                >(units + rest),
                Err(e) => name_units_from(m, buffer, length as int, 0) == Err::<
                    Seq<u16>,
                    RemoteModuleSnapshotError,
                >(e),
            } by {
                assert(name_units_from(m, buffer, length as int, past) == match name_units_from(
                    m,
                    buffer,
                    length as int,
                    at as int,
                ) {
                    Ok(rest) => Ok(more + rest),
                    Err(e) => Err(e),
                });
                if let Ok(rest) = name_units_from(m, buffer, length as int, at as int) {
                    assert(before + (more + rest) =~= units + rest);
                }
            }
        }
    }
    proof {
        assert forall|m: Memory| #[trigger] reads_from(*reader, m) implies Ok::<
            Seq<u8>,
            RemoteModuleSnapshotError,
        >(path@) == path_of(m, entry@) by {
            assert(units + Seq::empty() =~= units);
        }
    }
    Ok(path)
}

/// Where the file name starts in a stored path.
fn offset_to_file_name(path: &Vec<u8>) -> (offset: u16)
    requires
        path@.len() <= 255,
    ensures
        offset == file_offset(path@),
{
    let mut end: usize = path.len();
    assert(path@.take(end as int) =~= path@);
    while end > 0 && path[end - 1] != 0x5c && path[end - 1] != 0x2f
        invariant
            end <= path@.len() <= 255,
            file_offset(path@) == file_offset(path@.take(end as int)),
        decreases end,
    {
        assert(path@.take(end as int).drop_last() =~= path@.take(end - 1));
        end -= 1;
    }
    end as u16
}

// ---------------------------------------------------------------------------------------------
// Modules
// ---------------------------------------------------------------------------------------------

/// The record of a module: image base, image size, flags, load index, load count, where the file
/// name starts, and the path.
pub open spec fn row_bytes(entry: Seq<u8>, index: u16, path: Seq<u8>) -> Seq<u8> {
    zero_bytes(16) + entry.subrange(0x30, 0x38) + entry.subrange(0x40, 0x44) + entry.subrange(
        0x68,
        0x6c,
    ) + le16_bytes(index) + zero_bytes(2) + entry.subrange(0x6c, 0x6e) + le16_bytes(
        file_offset(path) as u16,
    ) + path + zero_bytes(256 - path.len())
}

/// The record of the module that a loader entry describes.
pub open spec fn row_of(m: Memory, entry: Seq<u8>, index: int) -> Result<
    Seq<u8>,
    RemoteModuleSnapshotError,
> {
    let size = le32(entry, 0x40);
    if size == 0 || !pointer_ok(le64(entry, 0x30) as int, size as int, 0x1000) {
        Err(RemoteModuleSnapshotError::Malformed(RemoteModuleLayoutError::InvalidModule))
    } else {
        match path_of(m, entry) {
            Ok(path) => Ok(row_bytes(entry, index as u16, path)),
            Err(e) => Err(e),
        }
    }
}

/// The record of the module whose loader entry is at `current` and has to follow `previous`, and
/// where the next entry is.
pub open spec fn entry_at(m: Memory, head: u64, current: u64, previous: u64, count: int) -> Result<
    (Seq<u8>, u64),
    RemoteModuleSnapshotError,
> {
    match bytes_at(m, current, LDR_ENTRY_SIZE as int) {
        Ok(entry) => {
            let next = le64(entry, 0);
            if le64(entry, 8) != previous || (next != head && !pointer_ok(
                next as int,
                LDR_ENTRY_SIZE as int,
                8,
            )) {
                Err(RemoteModuleSnapshotError::Malformed(RemoteModuleLayoutError::InvalidList))
            } else {
                match row_of(m, entry, count) {
                    Ok(row) => Ok((row, next)),
                    Err(e) => Err(e),
                }
            }
        },
        Err(e) => Err(e),
    }
}

/// The records of the modules from the loader entry at `current` on, which has to follow
/// `previous`. The list ends at its head, and its last entry is the one that the head names.
pub open spec fn rows_from(
    m: Memory,
    head: u64,
    last: u64,
    current: u64,
    previous: u64,
    count: int,
) -> Result<Seq<Seq<u8>>, RemoteModuleSnapshotError>
    decreases REMOTE_MODULE_LIMIT - count,
{
    if count >= REMOTE_MODULE_LIMIT {
        Err(RemoteModuleSnapshotError::Malformed(RemoteModuleLayoutError::ModuleLimitExceeded))
    } else {
        match entry_at(m, head, current, previous, count) {
            Ok((row, next)) => if next != head {
                prefixed(seq![row], rows_from(m, head, last, next, current, count + 1))
            } else if current == last {
                Ok(seq![row])
            } else {
                Err(RemoteModuleSnapshotError::Malformed(RemoteModuleLayoutError::InvalidList))
            },
            Err(e) => Err(e),
        }
    }
}

/// Where a loader list is: its head, its first and its last entry.
#[derive(Copy, Clone, Debug, Eq, PartialEq, Structural)]
pub struct LoaderList {
    pub head: u64,
    pub first: u64,
    pub last: u64,
}

/// The loader list whose head is at `head`; `None` where it is empty.
pub open spec fn list_at(m: Memory, head: u64) -> Result<
    Option<LoaderList>,
    RemoteModuleSnapshotError,
> {
    if !pointer_ok(head as int, 16, 8) {
        Err(RemoteModuleSnapshotError::Malformed(RemoteModuleLayoutError::InvalidAddress))
    } else {
        match bytes_at(m, head, 16) {
            Ok(links) => {
                let first = le64(links, 0);
                let last = le64(links, 8);
                if first == head && last == head {
                    Ok(None)
                } else if first == head || last == head || !pointer_ok(
                    first as int,
                    LDR_ENTRY_SIZE as int,
                    8,
                ) || !pointer_ok(last as int, LDR_ENTRY_SIZE as int, 8) {
                    Err(RemoteModuleSnapshotError::Malformed(RemoteModuleLayoutError::InvalidList))
                } else {
                    Ok(Some(LoaderList { head, first, last }))
                }
            },
            Err(e) => Err(e),
        }
    }
}

/// The loader list of the process whose environment block is at `peb`.
pub open spec fn list_of(m: Memory, peb: u64) -> Result<
    Option<LoaderList>,
    RemoteModuleSnapshotError,
> {
    if !pointer_ok(peb as int, 0x20, 8) {
        Err(RemoteModuleSnapshotError::Malformed(RemoteModuleLayoutError::InvalidAddress))
    } else {
        match bytes_at(m, (peb + PEB_LDR_OFFSET) as u64, 8) {
            Ok(bytes) => {
                let ldr = le64(bytes, 0);
                if !pointer_ok(ldr as int, 0x20, 8) {
                    Err(
                        RemoteModuleSnapshotError::Malformed(
                            RemoteModuleLayoutError::InvalidAddress,
                        ),
                    )
                } else {
                    list_at(m, (ldr + LDR_IN_LOAD_ORDER_LIST_OFFSET) as u64)
                }
            },
            Err(e) => Err(e),
        }
    }
}

/// The records of the modules of the process whose environment block is at `peb`.
pub open spec fn module_rows(m: Memory, peb: u64) -> Result<
    Seq<Seq<u8>>,
    RemoteModuleSnapshotError,
> {
    match list_of(m, peb) {
        Ok(Some(list)) => rows_from(m, list.head, list.last, list.first, list.head, 0),
        Ok(None) => Ok(Seq::empty()),
        Err(e) => Err(e),
    }
}

/// How many bytes `count` modules take.
pub open spec fn modules_size(count: int) -> int {
    RTL_PROCESS_MODULES_HEADER_SIZE + count * RTL_PROCESS_MODULE_INFORMATION_SIZE
}

/// The modules as a snapshot: their number, padding, and their records.
pub open spec fn snapshot_bytes(rows: Seq<Seq<u8>>) -> Seq<u8> {
    le32_bytes(rows.len() as u32) + zero_bytes(4) + flat(rows)
}

/// Append the bytes `s[from..to]`.
fn push_range(out: &mut Vec<u8>, s: &Vec<u8>, from: usize, to: usize)
    requires
        from <= to <= s@.len(),
    ensures
        final(out)@ == old(out)@ + s@.subrange(from as int, to as int),
{
    push_bytes(out, vstd::slice::slice_subrange(s.as_slice(), from, to));
}

/// The record of the module that a loader entry describes.
fn encode_remote_module_row<R: FnMut(u64, usize) -> Result<Vec<u8>, NtStatus>>(
    reader: &mut R,
    entry: &Vec<u8>,
    load_index: u16,
) -> (r: Result<Vec<u8>, RemoteModuleSnapshotError>)
    requires
        reads_fully(*old(reader)),
        entry@.len() == LDR_ENTRY_SIZE,
    ensures
        *final(reader) == *old(reader),
        forall|m: Memory| #[trigger]
            reads_from(*old(reader), m) ==> read_result(r) == row_of(m, entry@, load_index as int),
        r matches Ok(row) ==> row@.len() == RTL_PROCESS_MODULE_INFORMATION_SIZE,
{
    let image_base: u64 = get_u64(entry, LDR_DLL_BASE_OFFSET);
    let image_size: u32 = get_u32(entry, LDR_SIZE_OF_IMAGE_OFFSET);
    if image_size == 0 || !checked_remote_pointer(image_base, image_size as usize, 0x1000) {
        return Err(RemoteModuleSnapshotError::Malformed(RemoteModuleLayoutError::InvalidModule));
    }
    let path = match validate_and_copy_remote_name(reader, entry) {
        Ok(path) => path,
        Err(e) => {
            return Err(e);
        },
    };
    let offset: u16 = offset_to_file_name(&path);
    let mut row: Vec<u8> = Vec::new();
    push_zeros(&mut row, 16);
    push_range(&mut row, entry, LDR_DLL_BASE_OFFSET, LDR_DLL_BASE_OFFSET + 8);
    push_range(&mut row, entry, LDR_SIZE_OF_IMAGE_OFFSET, LDR_SIZE_OF_IMAGE_OFFSET + 4);
    push_range(&mut row, entry, LDR_FLAGS_OFFSET, LDR_FLAGS_OFFSET + 4);
    push_u16(&mut row, load_index);
    push_zeros(&mut row, 2);
    push_range(&mut row, entry, LDR_LOAD_COUNT_OFFSET, LDR_LOAD_COUNT_OFFSET + 2);
    push_u16(&mut row, offset);
    push_bytes(&mut row, &path);
    push_zeros(&mut row, 256 - path.len());
    assert(row@ =~= row_bytes(entry@, load_index, path@));
    Ok(row)
}

/// Overwrite the bytes at `at`.
fn put_bytes(out: &mut [u8], at: usize, bytes: &Vec<u8>)
    requires
        at + bytes@.len() <= old(out)@.len(),
    ensures
        final(out)@ == old(out)@.take(at as int) + bytes@ + old(out)@.skip(at + bytes@.len()),
{
    assert(out.len() <= usize::MAX);
    let mut i: usize = 0;
    while i < bytes.len()
        invariant
            i <= bytes@.len(),
            out@.len() == old(out)@.len() <= usize::MAX,
            at + bytes@.len() <= out@.len(),
            forall|j: int|
                0 <= j < out@.len() ==> #[trigger] out@[j] == if at <= j < at + i {
                    bytes@[j - at]
                } else {
                    old(out)@[j]
                },
        decreases bytes@.len() - i,
    {
        out[at + i] = bytes[i];
        i += 1;
    }
    assert(out@ =~= old(out)@.take(at as int) + bytes@ + old(out)@.skip(at + bytes@.len()));
}

/// The outcome of reading an entry.
pub open spec fn entry_result(r: Result<(Vec<u8>, u64), RemoteModuleSnapshotError>) -> Result<
    (Seq<u8>, u64),
    RemoteModuleSnapshotError,
> {
    match r {
        Ok((row, next)) => Ok((row@, next)),
        Err(e) => Err(e),
    }
}

/// The record of the module whose loader entry is at `current`, and where the next entry is. An
/// entry that does not fit means that the list has changed.
fn read_entry<R: FnMut(u64, usize) -> Result<Vec<u8>, NtStatus>>(
    reader: &mut R,
    head: u64,
    current: u64,
    previous: u64,
    count: u16,
    fits: bool,
) -> (r: Result<(Vec<u8>, u64), RemoteModuleSnapshotError>)
    requires
        reads_fully(*old(reader)),
    ensures
        *final(reader) == *old(reader),
        fits ==> forall|m: Memory| #[trigger]
            reads_from(*old(reader), m) ==> entry_result(r) == entry_at(
                m,
                head,
                current,
                previous,
                count as int,
            ),
        !fits ==> r is Err,
        r matches Ok((row, next)) ==> row@.len() == RTL_PROCESS_MODULE_INFORMATION_SIZE,
{
    let entry = match remote_read(reader, current, LDR_ENTRY_SIZE) {
        Ok(entry) => entry,
        Err(e) => {
            return Err(e);
        },
    };
    let next: u64 = get_u64(&entry, 0);
    let before: u64 = get_u64(&entry, 8);
    if before != previous || (next != head && !checked_remote_pointer(next, LDR_ENTRY_SIZE, 8)) {
        return Err(RemoteModuleSnapshotError::Malformed(RemoteModuleLayoutError::InvalidList));
    }
    if !fits {
        return Err(RemoteModuleSnapshotError::Malformed(RemoteModuleLayoutError::SnapshotChanged));
    }
    match encode_remote_module_row(reader, &entry, count) {
        Ok(row) => Ok((row, next)),
        Err(e) => Err(e),
    }
}

/// Records in front of others.
pub open spec fn prefixed(
    done: Seq<Seq<u8>>,
    rest: Result<Seq<Seq<u8>>, RemoteModuleSnapshotError>,
) -> Result<Seq<Seq<u8>>, RemoteModuleSnapshotError> {
    match rest {
        Ok(rest) => Ok(done + rest),
        Err(e) => Err(e),
    }
}

/// Whether the walk that started at `first` has the records `done` and goes on at `current`.
#[verifier::opaque]
spec fn walked<R: FnMut(u64, usize) -> Result<Vec<u8>, NtStatus>>(
    reader: R,
    head: u64,
    first: u64,
    last: u64,
    done: Seq<Seq<u8>>,
    current: u64,
    previous: u64,
) -> bool {
    forall|m: Memory| #[trigger]
        reads_from(reader, m) ==> rows_from(m, head, last, first, head, 0) == prefixed(
            done,
            rows_from(m, head, last, current, previous, done.len() as int),
        )
}

/// Whether the walk that started at `first` has the outcome `rows` in every memory that is read.
#[verifier::opaque]
spec fn outcome<R: FnMut(u64, usize) -> Result<Vec<u8>, NtStatus>>(
    reader: R,
    head: u64,
    first: u64,
    last: u64,
    rows: Result<Seq<Seq<u8>>, RemoteModuleSnapshotError>,
) -> bool {
    forall|m: Memory| #[trigger]
        reads_from(reader, m) ==> rows_from(m, head, last, first, head, 0) == rows
}

proof fn lemma_walk_starts<R: FnMut(u64, usize) -> Result<Vec<u8>, NtStatus>>(
    reader: R,
    head: u64,
    first: u64,
    last: u64,
)
    ensures
        walked(reader, head, first, last, Seq::empty(), first, head),
{
    reveal(walked);
    assert forall|m: Memory| #[trigger] reads_from(reader, m) implies rows_from(
        m,
        head,
        last,
        first,
        head,
        0,
    ) == prefixed(Seq::empty(), rows_from(m, head, last, first, head, 0)) by {
        if let Ok(rest) = rows_from(m, head, last, first, head, 0) {
            assert(Seq::empty() + rest =~= rest);
        }
    }
}

/// What reading one more entry means for a walk.
proof fn lemma_walk_goes_on<R: FnMut(u64, usize) -> Result<Vec<u8>, NtStatus>>(
    reader: R,
    head: u64,
    first: u64,
    last: u64,
    done: Seq<Seq<u8>>,
    current: u64,
    previous: u64,
    entry: Result<(Seq<u8>, u64), RemoteModuleSnapshotError>,
)
    requires
        walked(reader, head, first, last, done, current, previous),
        done.len() < REMOTE_MODULE_LIMIT,
        forall|m: Memory| #[trigger]
            reads_from(reader, m) ==> entry == entry_at(
                m,
                head,
                current,
                previous,
                done.len() as int,
            ),
    ensures
        match entry {
            Ok((row, next)) => if next != head {
                walked(reader, head, first, last, done.push(row), next, current)
            } else if current == last {
                outcome(
                    reader,
                    head,
                    first,
                    last,
                    Ok::<Seq<Seq<u8>>, RemoteModuleSnapshotError>(done.push(row)),
                )
            } else {
                outcome(
                    reader,
                    head,
                    first,
                    last,
                    Err::<Seq<Seq<u8>>, RemoteModuleSnapshotError>(
                        RemoteModuleSnapshotError::Malformed(RemoteModuleLayoutError::InvalidList),
                    ),
                )
            },
            Err(e) => outcome(
                reader,
                head,
                first,
                last,
                Err::<Seq<Seq<u8>>, RemoteModuleSnapshotError>(e),
            ),
        },
{
    reveal(walked);
    reveal(outcome);
    if let Ok((row, next)) = entry {
        let longer = done.push(row);
        if next != head {
            assert forall|m: Memory| #[trigger] reads_from(reader, m) implies rows_from(
                m,
                head,
                last,
                first,
                head,
                0,
            ) == prefixed(
                longer,
                rows_from(m, head, last, next, current, longer.len() as int),
            ) by {
                if let Ok(rest) = rows_from(m, head, last, next, current, longer.len() as int) {
                    assert(done + (seq![row] + rest) =~= longer + rest);
                }
            }
        } else if current == last {
            assert(done + seq![row] =~= longer);
        }
    }
}

/// A walk that reaches the limit fails.
proof fn lemma_walk_limit<R: FnMut(u64, usize) -> Result<Vec<u8>, NtStatus>>(
    reader: R,
    head: u64,
    first: u64,
    last: u64,
    done: Seq<Seq<u8>>,
    current: u64,
    previous: u64,
)
    requires
        walked(reader, head, first, last, done, current, previous),
        done.len() >= REMOTE_MODULE_LIMIT,
    ensures
        outcome(
            reader,
            head,
            first,
            last,
            Err::<Seq<Seq<u8>>, RemoteModuleSnapshotError>(
                RemoteModuleSnapshotError::Malformed(RemoteModuleLayoutError::ModuleLimitExceeded),
            ),
        ),
{
    reveal(walked);
    reveal(outcome);
}

/// A walk that is not over has at least one more record, if it succeeds.
proof fn lemma_walk_has_more<R: FnMut(u64, usize) -> Result<Vec<u8>, NtStatus>>(
    reader: R,
    head: u64,
    first: u64,
    last: u64,
    done: Seq<Seq<u8>>,
    current: u64,
    previous: u64,
)
    requires
        walked(reader, head, first, last, done, current, previous),
    ensures
        forall|m: Memory| #[trigger]
            reads_from(reader, m) ==> match rows_from(m, head, last, first, head, 0) {
                Ok(rows) => rows.len() > done.len(),
                Err(_) => true,
            },
{
    reveal(walked);
    assert forall|m: Memory| #[trigger] reads_from(reader, m) implies match rows_from(
        m,
        head,
        last,
        first,
        head,
        0,
    ) {
        Ok(rows) => rows.len() > done.len(),
        Err(_) => true,
    } by {
        assert(rows_from(m, head, last, first, head, 0) == prefixed(
            done,
            rows_from(m, head, last, current, previous, done.len() as int),
        ));
    }
}

/// Whether a walk counted the records that it met.
pub open spec fn counted(
    rows: Result<Seq<Seq<u8>>, RemoteModuleSnapshotError>,
    r: Result<usize, RemoteModuleSnapshotError>,
) -> bool {
    match rows {
        Ok(rows) => r matches Ok(count) && count == rows.len(),
        Err(e) => r == Err::<usize, RemoteModuleSnapshotError>(e),
    }
}

/// Whether a walk has written all records behind the header, where they fit in `room` bytes.
pub open spec fn written(
    rows: Result<Seq<Seq<u8>>, RemoteModuleSnapshotError>,
    room: int,
    r: Result<usize, RemoteModuleSnapshotError>,
    before: Seq<u8>,
    after: Seq<u8>,
) -> bool {
    match rows {
        Ok(rows) => modules_size(rows.len() as int) <= room ==> {
            &&& r matches Ok(count) && count == rows.len()
            &&& after == before.take(8) + flat(rows) + before.skip(modules_size(rows.len() as int))
        },
        Err(_) => true,
    }
}

/// Count the modules of the loader list whose head is at `head`, whose first entry is at `first`
/// and whose last is at `last`.
fn count_list<R: FnMut(u64, usize) -> Result<Vec<u8>, NtStatus>>(
    reader: &mut R,
    head: u64,
    first: u64,
    last: u64,
) -> (r: Result<usize, RemoteModuleSnapshotError>)
    requires
        reads_fully(*old(reader)),
    ensures
        *final(reader) == *old(reader),
        r matches Ok(count) ==> count <= REMOTE_MODULE_LIMIT,
        forall|m: Memory| #[trigger]
            reads_from(*old(reader), m) ==> counted(rows_from(m, head, last, first, head, 0), r),
{
    let mut current: u64 = first;
    let mut previous: u64 = head;
    let mut count: usize = 0;
    let ghost mut done: Seq<Seq<u8>> = Seq::empty();
    proof {
        lemma_walk_starts(*reader, head, first, last);
    }
    while count < REMOTE_MODULE_LIMIT
        invariant
            *reader == *old(reader),
            reads_fully(*reader),
            count <= REMOTE_MODULE_LIMIT,
            done.len() == count,
            walked(*reader, head, first, last, done, current, previous),
        decreases REMOTE_MODULE_LIMIT - count,
    {
        let entry = read_entry(reader, head, current, previous, count as u16, true);
        proof {
            lemma_walk_goes_on(
                *reader,
                head,
                first,
                last,
                done,
                current,
                previous,
                entry_result(entry),
            );
        }
        reveal(outcome);
        match entry {
            Ok((row, next)) => {
                count += 1;
                if next == head {
                    if current != last {
                        return Err(
                            RemoteModuleSnapshotError::Malformed(
                                RemoteModuleLayoutError::InvalidList,
                            ),
                        );
                    }
                    return Ok(count);
                }
                proof {
                    done = done.push(row@);
                }
                previous = current;
                current = next;
            },
            Err(e) => {
                return Err(e);
            },
        }
    }
    proof {
        lemma_walk_limit(*reader, head, first, last, done, current, previous);
        reveal(outcome);
    }
    Err(RemoteModuleSnapshotError::Malformed(RemoteModuleLayoutError::ModuleLimitExceeded))
}

/// Write the records of the modules of a loader list to `output` behind the header. A record that
/// does not fit in `room` bytes means that the list has changed.
fn write_list<R: FnMut(u64, usize) -> Result<Vec<u8>, NtStatus>>(
    reader: &mut R,
    head: u64,
    first: u64,
    last: u64,
    output: &mut [u8],
    room: usize,
) -> (r: Result<usize, RemoteModuleSnapshotError>)
    requires
        reads_fully(*old(reader)),
        8 <= room <= old(output)@.len(),
    ensures
        *final(reader) == *old(reader),
        final(output)@.len() == old(output)@.len(),
        r matches Ok(count) ==> count <= REMOTE_MODULE_LIMIT,
        forall|m: Memory| #[trigger]
            reads_from(*old(reader), m) ==> written(
                rows_from(m, head, last, first, head, 0),
                room as int,
                r,
                old(output)@,
                final(output)@,
            ),
{
    assert(output.len() <= usize::MAX);
    let mut current: u64 = first;
    let mut previous: u64 = head;
    let mut count: usize = 0;
    let ghost mut done: Seq<Seq<u8>> = Seq::empty();
    let ghost orig = output@;
    proof {
        lemma_walk_starts(*reader, head, first, last);
    }
    assert(output@ =~= orig.take(8) + flat(done) + orig.skip(8));
    while count < REMOTE_MODULE_LIMIT
        invariant
            *reader == *old(reader),
            reads_fully(*reader),
            orig == old(output)@,
            8 <= room <= output@.len() == orig.len() <= usize::MAX,
            count <= REMOTE_MODULE_LIMIT,
            done.len() == count,
            modules_size(count as int) <= room,
            flat(done).len() == count * RTL_PROCESS_MODULE_INFORMATION_SIZE,
            output@ == orig.take(8) + flat(done) + orig.skip(modules_size(count as int)),
            walked(*reader, head, first, last, done, current, previous),
        decreases REMOTE_MODULE_LIMIT - count,
    {
        let start: usize = RTL_PROCESS_MODULES_HEADER_SIZE + count
            * RTL_PROCESS_MODULE_INFORMATION_SIZE;
        let fits: bool = room - start >= RTL_PROCESS_MODULE_INFORMATION_SIZE;
        let entry = read_entry(reader, head, current, previous, count as u16, fits);
        proof {
            if fits {
                lemma_walk_goes_on(
                    *reader,
                    head,
                    first,
                    last,
                    done,
                    current,
                    previous,
                    entry_result(entry),
                );
            } else {
                lemma_walk_has_more(*reader, head, first, last, done, current, previous);
            }
        }
        reveal(outcome);
        match entry {
            Ok((row, next)) => {
                let ghost was = done;
                proof {
                    lemma_flat_push(was, row@);
                    done = was.push(row@);
                }
                put_bytes(output, start, &row);
                count += 1;
                assert(output@ =~= orig.take(8) + flat(done) + orig.skip(
                    modules_size(count as int),
                ));
                if next == head {
                    if current != last {
                        return Err(
                            RemoteModuleSnapshotError::Malformed(
                                RemoteModuleLayoutError::InvalidList,
                            ),
                        );
                    }
                    return Ok(count);
                }
                previous = current;
                current = next;
            },
            Err(e) => {
                return Err(e);
            },
        }
    }
    proof {
        lemma_walk_limit(*reader, head, first, last, done, current, previous);
        reveal(outcome);
    }
    Err(RemoteModuleSnapshotError::Malformed(RemoteModuleLayoutError::ModuleLimitExceeded))
}

/// Find the loader list of the process whose environment block is at `peb`.
fn find_list<R: FnMut(u64, usize) -> Result<Vec<u8>, NtStatus>>(reader: &mut R, peb: u64) -> (r:
    Result<Option<LoaderList>, RemoteModuleSnapshotError>)
    requires
        reads_fully(*old(reader)),
    ensures
        *final(reader) == *old(reader),
        forall|m: Memory| #[trigger] reads_from(*old(reader), m) ==> r == list_of(m, peb),
{
    if !checked_remote_pointer(peb, 0x20, 8) {
        return Err(RemoteModuleSnapshotError::Malformed(RemoteModuleLayoutError::InvalidAddress));
    }
    let bytes = match remote_read(reader, peb + PEB_LDR_OFFSET, 8) {
        Ok(bytes) => bytes,
        Err(e) => {
            return Err(e);
        },
    };
    let ldr: u64 = get_u64(&bytes, 0);
    if !checked_remote_pointer(ldr, 0x20, 8) {
        return Err(RemoteModuleSnapshotError::Malformed(RemoteModuleLayoutError::InvalidAddress));
    }
    let head: u64 = ldr + LDR_IN_LOAD_ORDER_LIST_OFFSET;
    if !checked_remote_pointer(head, 16, 8) {
        return Err(RemoteModuleSnapshotError::Malformed(RemoteModuleLayoutError::InvalidAddress));
    }
    let links = match remote_read(reader, head, 16) {
        Ok(links) => links,
        Err(e) => {
            return Err(e);
        },
    };
    let first: u64 = get_u64(&links, 0);
    let last: u64 = get_u64(&links, 8);
    if first == head && last == head {
        return Ok(None);
    }
    if first == head || last == head || !checked_remote_pointer(first, LDR_ENTRY_SIZE, 8)
        || !checked_remote_pointer(last, LDR_ENTRY_SIZE, 8) {
        return Err(RemoteModuleSnapshotError::Malformed(RemoteModuleLayoutError::InvalidList));
    }
    Ok(Some(LoaderList { head, first, last }))
}

/// Count the modules of a process.
fn count_modules<R: FnMut(u64, usize) -> Result<Vec<u8>, NtStatus>>(reader: &mut R, peb: u64) -> (r:
    Result<usize, RemoteModuleSnapshotError>)
    requires
        reads_fully(*old(reader)),
    ensures
        *final(reader) == *old(reader),
        r matches Ok(count) ==> count <= REMOTE_MODULE_LIMIT,
        forall|m: Memory| #[trigger]
            reads_from(*old(reader), m) ==> counted(module_rows(m, peb), r),
{
    match find_list(reader, peb) {
        Ok(Some(list)) => count_list(reader, list.head, list.first, list.last),
        Ok(None) => Ok(0),
        Err(e) => Err(e),
    }
}

/// Write the records of the modules of a process.
fn write_modules<R: FnMut(u64, usize) -> Result<Vec<u8>, NtStatus>>(
    reader: &mut R,
    peb: u64,
    output: &mut [u8],
    room: usize,
) -> (r: Result<usize, RemoteModuleSnapshotError>)
    requires
        reads_fully(*old(reader)),
        8 <= room <= old(output)@.len(),
    ensures
        *final(reader) == *old(reader),
        final(output)@.len() == old(output)@.len(),
        r matches Ok(count) ==> count <= REMOTE_MODULE_LIMIT,
        forall|m: Memory| #[trigger]
            reads_from(*old(reader), m) ==> written(
                module_rows(m, peb),
                room as int,
                r,
                old(output)@,
                final(output)@,
            ),
{
    match find_list(reader, peb) {
        Ok(Some(list)) => write_list(reader, list.head, list.first, list.last, output, room),
        Ok(None) => {
            assert(output@ =~= output@.take(8) + flat(Seq::empty()) + output@.skip(8));
            Ok(0)
        },
        Err(e) => Err(e),
    }
}

/// Clear the first `n` bytes.
fn clear_bytes(out: &mut [u8], n: usize)
    requires
        n <= old(out)@.len(),
    ensures
        final(out)@ == zero_bytes(n as int) + old(out)@.skip(n as int),
{
    let mut i: usize = 0;
    while i < n
        invariant
            i <= n <= out@.len(),
            out@.len() == old(out)@.len(),
            forall|j: int|
                0 <= j < out@.len() ==> #[trigger] out@[j] == if j < i {
                    0
                } else {
                    old(out)@[j]
                },
        decreases n - i,
    {
        out[i] = 0;
        i += 1;
    }
    assert(out@ =~= zero_bytes(n as int) + old(out)@.skip(n as int));
}

/// The snapshot of a number of modules.
pub open spec fn snapshot_of(count: int) -> RemoteModuleSnapshot {
    RemoteModuleSnapshot {
        module_count: count as u32,
        required_size: modules_size(count) as usize,
    }
}

/// The result of a query without a buffer, given the records of the modules.
pub open spec fn sizing_result(rows: Result<Seq<Seq<u8>>, RemoteModuleSnapshotError>) -> Result<
    RemoteModuleSnapshot,
    RemoteModuleSnapshotError,
> {
    match rows {
        Ok(rows) => Ok(snapshot_of(rows.len() as int)),
        Err(e) => Err(e),
    }
}

/// The result of a query with a buffer of `room` bytes, given the records of the modules.
pub open spec fn query_result(
    rows: Result<Seq<Seq<u8>>, RemoteModuleSnapshotError>,
    room: int,
) -> Result<RemoteModuleSnapshot, RemoteModuleSnapshotError> {
    match rows {
        Ok(rows) => {
            let required = modules_size(rows.len() as int);
            if room < required {
                Err(RemoteModuleSnapshotError::BufferTooSmall { required: required as usize })
            } else {
                Ok(snapshot_of(rows.len() as int))
            }
        },
        Err(e) => Err(e),
    }
}

/// What a query leaves in a buffer, given the records of the modules.
pub open spec fn query_output(
    rows: Result<Seq<Seq<u8>>, RemoteModuleSnapshotError>,
    before: Seq<u8>,
) -> Seq<u8> {
    match rows {
        Ok(rows) => if before.len() < modules_size(rows.len() as int) {
            before
        } else {
            snapshot_bytes(rows) + before.skip(modules_size(rows.len() as int))
        },
        Err(_) => before,
    }
}

/// Tell how many modules a process has.
fn size_modules<R: FnMut(u64, usize) -> Result<Vec<u8>, NtStatus>>(reader: &mut R, peb: u64) -> (r:
    Result<RemoteModuleSnapshot, RemoteModuleSnapshotError>)
    requires
        reads_fully(*old(reader)),
    ensures
        *final(reader) == *old(reader),
        r matches Ok(snapshot) ==> snapshot.module_count <= REMOTE_MODULE_LIMIT && snapshot
            == snapshot_of(snapshot.module_count as int),
        forall|m: Memory| #[trigger]
            reads_from(*old(reader), m) ==> r == sizing_result(module_rows(m, peb)),
        r matches Ok(snapshot) ==> forall|m: Memory| #[trigger]
            reads_from(*old(reader), m) ==> module_rows(m, peb) is Ok && module_rows(
                m,
                peb,
            )->Ok_0.len() == snapshot.module_count,
{
    match count_modules(reader, peb) {
        Ok(count) => Ok(
            RemoteModuleSnapshot {
                module_count: count as u32,
                required_size: RTL_PROCESS_MODULES_HEADER_SIZE + count
                    * RTL_PROCESS_MODULE_INFORMATION_SIZE,
            },
        ),
        Err(e) => Err(e),
    }
}

/// Tell the modules of a process in a buffer: one walk finds how much room they need, a second one
/// writes them. Nothing is promised of the buffer where the second walk fails, as it can when the
/// memory changes between the two.
fn encode_modules<R: FnMut(u64, usize) -> Result<Vec<u8>, NtStatus>>(
    reader: &mut R,
    peb: u64,
    output: &mut [u8],
) -> (r: Result<RemoteModuleSnapshot, RemoteModuleSnapshotError>)
    requires
        reads_fully(*old(reader)),
    ensures
        *final(reader) == *old(reader),
        final(output)@.len() == old(output)@.len(),
        r matches Ok(snapshot) ==> snapshot.module_count <= REMOTE_MODULE_LIMIT && snapshot
            == snapshot_of(snapshot.module_count as int) && snapshot.required_size
            <= final(output)@.len(),
        forall|m: Memory| #[trigger]
            reads_from(*old(reader), m) ==> r == query_result(
                module_rows(m, peb),
                old(output)@.len() as int,
            ) && final(output)@ == query_output(module_rows(m, peb), old(output)@),
{
    let planned = match size_modules(reader, peb) {
        Ok(planned) => planned,
        Err(e) => {
            return Err(e);
        },
    };
    let required: usize = planned.required_size;
    if output.len() < required {
        return Err(RemoteModuleSnapshotError::BufferTooSmall { required });
    }
    clear_bytes(output, required);
    let ghost cleared = output@;
    let count: usize = match write_modules(reader, peb, output, required) {
        Ok(count) => count,
        Err(e) => {
            return Err(e);
        },
    };
    if count as u32 != planned.module_count {
        return Err(RemoteModuleSnapshotError::Malformed(RemoteModuleLayoutError::SnapshotChanged));
    }
    put_u32(output, 0, count as u32);
    proof {
        assert forall|m: Memory| #[trigger] reads_from(*reader, m) implies output@ == query_output(
            module_rows(m, peb),
            old(output)@,
        ) by {
            if let Ok(rows) = module_rows(m, peb) {
                let body = cleared.take(8) + flat(rows) + cleared.skip(required as int);
                assert(flat(rows).len() == required - 8);
                assert(body.subrange(4, body.len() as int) =~= zero_bytes(4) + flat(rows)
                    + cleared.skip(required as int));
                assert(cleared.skip(required as int) =~= old(output)@.skip(required as int));
                assert(output@ =~= snapshot_bytes(rows) + old(output)@.skip(required as int));
            }
        }
    }
    Ok(planned)
}

/// Tell the modules of the process whose environment block is at `peb_address`, as its loader list
/// names them. `reader` reads the process's memory; where that memory stands still, the result and
/// the buffer are exactly those of the list. Without a buffer only the size is told.
pub fn query_remote_process_modules<R: FnMut(u64, usize) -> Result<Vec<u8>, NtStatus>>(
    peb_address: u64,
    output: Option<&mut [u8]>,
    reader: R,
) -> (r: Result<RemoteModuleSnapshot, RemoteModuleSnapshotError>)
    requires
        reads_fully(reader),
    ensures
        r matches Ok(snapshot) ==> snapshot.module_count <= REMOTE_MODULE_LIMIT && snapshot
            == snapshot_of(snapshot.module_count as int),
        output is None ==> forall|m: Memory| #[trigger]
            reads_from(reader, m) ==> r == sizing_result(module_rows(m, peb_address)),
        output matches Some(buffer) ==> {
            &&& final(buffer)@.len() == buffer@.len()
            &&& forall|m: Memory| #[trigger]
                reads_from(reader, m) ==> r == query_result(
                    module_rows(m, peb_address),
                    buffer@.len() as int,
                ) && final(buffer)@ == query_output(module_rows(m, peb_address), buffer@)
        },
{
    let mut reader2: R = reader;
    match output {
        Some(buffer) => encode_modules(&mut reader2, peb_address, buffer),
        None => size_modules(&mut reader2, peb_address),
    }
}

// ---------------------------------------------------------------------------------------------
// Heap records
// ---------------------------------------------------------------------------------------------

/// The header in front of heap records.
#[derive(Copy, Clone, Debug, PartialEq, Eq, Structural)]
pub struct RtlProcessHeaps {
    pub number_of_heaps: u32,
    pub _padding: u32,
}

/// What a heap record tells of a block.
#[derive(Copy, Clone, Debug, PartialEq, Eq, Structural)]
pub struct RtlHeapEntryBlock {
    pub settable: usize,
    pub tag: u32,
    pub _padding: u32,
}

/// What a heap record tells of a segment.
#[derive(Copy, Clone, Debug, PartialEq, Eq, Structural)]
pub struct RtlHeapEntrySegment {
    pub committed_size: usize,
    /// The address of the first block.
    pub first_block: usize,
}

/// What a heap record tells of a block or a segment.
#[derive(Copy, Clone, Debug, PartialEq, Eq, Structural)]
pub enum RtlHeapEntryDetails {
    Block(RtlHeapEntryBlock),
    Segment(RtlHeapEntrySegment),
}

/// A heap record.
#[derive(Copy, Clone, Debug, PartialEq, Eq, Structural)]
pub struct RtlHeapEntry {
    pub size: usize,
    pub flags: u16,
    pub allocator_back_trace_index: u16,
    pub _padding: u32,
    pub details: RtlHeapEntryDetails,
}

/// The summary of a heap. Pointers are addresses.
#[derive(Copy, Clone, Debug, PartialEq, Eq)]
pub struct RtlHeapInformation {
    pub base_address: usize,
    pub flags: u32,
    pub entry_overhead: u16,
    pub creator_back_trace_index: u16,
    pub bytes_allocated: usize,
    pub bytes_committed: usize,
    pub number_of_tags: u32,
    pub number_of_entries: u32,
    pub number_of_pseudo_tags: u32,
    pub pseudo_tag_granularity: u32,
    pub reserved: [u32; 5],
    pub _padding: u32,
    pub tags: usize,
    pub entries: usize,
}

/// The bytes of the header in front of heap summaries.
pub const RTL_PROCESS_HEAPS_SIZE: usize = 0x08;

/// The bytes of a heap summary.
pub const RTL_HEAP_INFORMATION_SIZE: usize = 0x58;

/// The bytes of a heap record.
pub const RTL_HEAP_ENTRY_SIZE: usize = 0x20;

/// Where the parts of a heap snapshot are.
#[derive(Copy, Clone, Debug, Eq, PartialEq, Structural)]
pub struct HeapSnapshotPlan {
    pub heap_information_offset: usize,
    pub entries_offset: usize,
    pub total_size: usize,
}

/// Lay out a heap snapshot: the header, the summaries, the records. `None` where it is too large.
pub fn plan_heap_snapshot(number_of_heaps: usize, number_of_entries: usize) -> (r: Option<
    HeapSnapshotPlan,
>)
    ensures
        ({
            let entries = 0x08 + number_of_heaps * 0x58;
            let total = entries + number_of_entries * 0x20;
            r == if total <= usize::MAX {
                Some(
                    HeapSnapshotPlan {
                        heap_information_offset: 0x08,
                        entries_offset: entries as usize,
                        total_size: total as usize,
                    },
                )
            } else {
                None
            }
        }),
{
    let heaps: usize = match number_of_heaps.checked_mul(RTL_HEAP_INFORMATION_SIZE) {
        Some(heaps) => heaps,
        None => {
            return None;
        },
    };
    let entries_offset: usize = match RTL_PROCESS_HEAPS_SIZE.checked_add(heaps) {
        Some(offset) => offset,
        None => {
            return None;
        },
    };
    let entries: usize = match number_of_entries.checked_mul(RTL_HEAP_ENTRY_SIZE) {
        Some(entries) => entries,
        None => {
            return None;
        },
    };
    match entries_offset.checked_add(entries) {
        Some(total_size) => Some(
            HeapSnapshotPlan {
                heap_information_offset: RTL_PROCESS_HEAPS_SIZE,
                entries_offset,
                total_size,
            },
        ),
        None => None,
    }
}

/// Whether the flags of a block are known ones.
pub open spec fn block_flags_ok(flags: u16) -> bool {
    flags & !0x00f1u16 == 0
}

/// Whether a row of a heap walk tells of what its flags say.
pub open spec fn walk_row_ok(entry: RtlHeapWalkEntry) -> bool {
    if entry.flags == RTL_HEAP_SEGMENT {
        entry.details is Segment
    } else {
        block_flags_ok(entry.flags) ==> entry.details is Block
    }
}

/// The heap record of a row of a heap walk. `None` where its flags are unknown or its size is too
/// large.
pub open spec fn heap_record(entry: RtlHeapWalkEntry) -> Option<RtlHeapEntry> {
    match entry.details {
        RtlHeapWalkDetails::Segment(segment) if entry.flags == RTL_HEAP_SEGMENT => if segment.committed_size
            + segment.uncommitted_size <= usize::MAX {
            Some(
                RtlHeapEntry {
                    size: (segment.committed_size + segment.uncommitted_size) as usize,
                    flags: RTL_HEAP_SEGMENT,
                    allocator_back_trace_index: 0,
                    _padding: 0,
                    details: RtlHeapEntryDetails::Segment(
                        RtlHeapEntrySegment {
                            committed_size: segment.committed_size,
                            first_block: segment.first_entry,
                        },
                    ),
                },
            )
        } else {
            None
        },
        RtlHeapWalkDetails::Block(block) => if block_flags_ok(entry.flags) && entry.data_size
            + entry.overhead_bytes <= usize::MAX {
            Some(
                RtlHeapEntry {
                    size: (entry.data_size + entry.overhead_bytes) as usize,
                    flags: entry.flags,
                    allocator_back_trace_index: block.allocator_back_trace_index,
                    _padding: 0,
                    details: RtlHeapEntryDetails::Block(
                        RtlHeapEntryBlock {
                            settable: block.settable,
                            tag: block.tag_index as u32,
                            _padding: 0,
                        },
                    ),
                },
            )
        } else {
            None
        },
        _ => None,
    }
}

/// The heap record of a row of a heap walk.
pub fn heap_entry_from_walk(entry: &RtlHeapWalkEntry) -> (r: Option<RtlHeapEntry>)
    requires
        walk_row_ok(*entry),
    ensures
        r == heap_record(*entry),
{
    let known: u16 = RTL_HEAP_BUSY | RTL_HEAP_SETTABLE_VALUE | RTL_HEAP_SETTABLE_FLAGS;
    assert(0x0001u16 | 0x0010u16 | 0x00e0u16 == 0x00f1) by (bit_vector);
    match entry.details {
        RtlHeapWalkDetails::Segment(segment) => {
            if entry.flags != RTL_HEAP_SEGMENT {
                return None;
            }
            match segment.committed_size.checked_add(segment.uncommitted_size) {
                Some(size) => Some(
                    RtlHeapEntry {
                        size,
                        flags: RTL_HEAP_SEGMENT,
                        allocator_back_trace_index: 0,
                        _padding: 0,
                        details: RtlHeapEntryDetails::Segment(
                            RtlHeapEntrySegment {
                                committed_size: segment.committed_size,
                                first_block: segment.first_entry,
                            },
                        ),
                    },
                ),
                None => None,
            }
        },
        RtlHeapWalkDetails::Block(block) => {
            if entry.flags & !known != 0 {
                return None;
            }
            match entry.data_size.checked_add(entry.overhead_bytes as usize) {
                Some(size) => Some(
                    RtlHeapEntry {
                        size,
                        flags: entry.flags,
                        allocator_back_trace_index: block.allocator_back_trace_index,
                        _padding: 0,
                        details: RtlHeapEntryDetails::Block(
                            RtlHeapEntryBlock {
                                settable: block.settable,
                                tag: block.tag_index as u32,
                                _padding: 0,
                            },
                        ),
                    },
                ),
                None => None,
            }
        },
    }
}

// ---------------------------------------------------------------------------------------------
// The buffer
// ---------------------------------------------------------------------------------------------

/// The header of a debug buffer. Handles and pointers are addresses.
#[derive(Copy, Clone, Debug, PartialEq, Eq)]
pub struct DebugInformation {
    pub section_handle_client: usize,
    pub view_base_client: usize,
    pub view_base_target: usize,
    pub view_base_delta: u32,
    pub _padding0: u32,
    pub event_pair_client: usize,
    pub event_pair_target: usize,
    pub target_process_id: usize,
    pub target_thread_handle: usize,
    pub flags: u32,
    pub _padding1: u32,
    pub offset_free: usize,
    pub commit_size: usize,
    pub view_size: usize,
    pub modules: usize,
    pub back_traces: usize,
    pub heaps: usize,
    pub locks: usize,
    pub specific_heap: usize,
    pub target_process_handle: usize,
    pub verifier_options: usize,
    pub process_heap: usize,
    pub critical_section_handle: usize,
    pub critical_section_owner_thread: usize,
    pub reserved: [usize; 4],
}

/// How a buffer grows.
#[derive(Copy, Clone, Debug, Eq, PartialEq, Structural)]
pub struct CommitPlan {
    /// Where the new bytes are.
    pub result_offset: usize,
    /// Where memory is committed.
    pub commit_offset: usize,
    /// How much memory is committed.
    pub commit_size: usize,
    pub new_commit_size: usize,
    pub new_offset_free: usize,
}

/// `n` rounded up to whole pages.
pub open spec fn up_to_page(n: int) -> int {
    (n + 0xfff) / 0x1000 * 0x1000
}

fn align_page(value: usize) -> (r: Option<usize>)
    ensures
        r == if value + 0xfff <= usize::MAX {
            Some(up_to_page(value as int) as usize)
        } else {
            None
        },
        r matches Some(pages) ==> pages == up_to_page(value as int) && pages >= value,
{
    match value.checked_add(PAGE_SIZE - 1) {
        Some(sum) => Some(sum / PAGE_SIZE * PAGE_SIZE),
        None => None,
    }
}

/// How much address space a buffer of a size takes; the default one where none is asked for.
pub fn reservation_size(requested: u32) -> (r: Option<usize>)
    ensures
        ({
            let size = if requested == 0 {
                DEFAULT_VIEW_SIZE as int
            } else {
                requested as int
            };
            r == if size + 0xfff <= usize::MAX {
                Some(up_to_page(size) as usize)
            } else {
                None
            }
        }),
{
    align_page(
        if requested == 0 {
            DEFAULT_VIEW_SIZE
        } else {
            requested as usize
        },
    )
}

/// The header of a fresh buffer: its first page is committed, and free behind the header.
pub fn initial_information(base: usize, view_size: usize) -> (info: DebugInformation)
    ensures
        info.view_base_client == base,
        info.view_size == view_size,
        info.offset_free == DEBUG_INFORMATION_SIZE,
        info.commit_size == PAGE_SIZE,
        info.reserved@ == seq![0usize, 0, 0, 0],
        info == (DebugInformation {
            view_base_client: info.view_base_client,
            view_size: info.view_size,
            offset_free: info.offset_free,
            commit_size: info.commit_size,
            reserved: info.reserved,
            section_handle_client: 0,
            view_base_target: 0,
            view_base_delta: 0,
            _padding0: 0,
            event_pair_client: 0,
            event_pair_target: 0,
            target_process_id: 0,
            target_thread_handle: 0,
            flags: 0,
            _padding1: 0,
            modules: 0,
            back_traces: 0,
            heaps: 0,
            locks: 0,
            specific_heap: 0,
            target_process_handle: 0,
            verifier_options: 0,
            process_heap: 0,
            critical_section_handle: 0,
            critical_section_owner_thread: 0,
        }),
{
    let reserved: [usize; 4] = [0, 0, 0, 0];
    assert(reserved@ =~= seq![0usize, 0, 0, 0]);
    DebugInformation {
        section_handle_client: 0,
        view_base_client: base,
        view_base_target: 0,
        view_base_delta: 0,
        _padding0: 0,
        event_pair_client: 0,
        event_pair_target: 0,
        target_process_id: 0,
        target_thread_handle: 0,
        flags: 0,
        _padding1: 0,
        offset_free: DEBUG_INFORMATION_SIZE,
        commit_size: PAGE_SIZE,
        view_size,
        modules: 0,
        back_traces: 0,
        heaps: 0,
        locks: 0,
        specific_heap: 0,
        target_process_handle: 0,
        verifier_options: 0,
        process_heap: 0,
        critical_section_handle: 0,
        critical_section_owner_thread: 0,
        reserved,
    }
}

/// How a buffer grows by `size` bytes. `None` where it does not fit in its view, or where the sizes
/// contradict each other.
pub open spec fn commit_plan(
    offset_free: usize,
    commit_size: usize,
    view_size: usize,
    size: usize,
) -> Option<CommitPlan> {
    let end = offset_free + size;
    let pages = up_to_page(end);
    if end > view_size || offset_free > commit_size || commit_size > view_size {
        None
    } else if end <= commit_size {
        Some(
            CommitPlan {
                result_offset: offset_free,
                commit_offset: commit_size,
                commit_size: 0,
                new_commit_size: commit_size,
                new_offset_free: end as usize,
            },
        )
    } else if end + 0xfff > usize::MAX {
        None
    } else {
        let grown = if pages < view_size {
            pages
        } else {
            view_size as int
        };
        Some(
            CommitPlan {
                result_offset: offset_free,
                commit_offset: commit_size,
                commit_size: (grown - commit_size) as usize,
                new_commit_size: grown as usize,
                new_offset_free: end as usize,
            },
        )
    }
}

/// Plan how a buffer grows by `size` bytes.
pub fn plan_commit(offset_free: usize, commit_size: usize, view_size: usize, size: usize) -> (r:
    Option<CommitPlan>)
    ensures
        r == commit_plan(offset_free, commit_size, view_size, size),
{
    let end: usize = match offset_free.checked_add(size) {
        Some(end) => end,
        None => {
            return None;
        },
    };
    if end > view_size || offset_free > commit_size || commit_size > view_size {
        return None;
    }
    let new_commit_size: usize = if end > commit_size {
        match align_page(end) {
            Some(pages) => if pages < view_size {
                pages
            } else {
                view_size
            },
            None => {
                return None;
            },
        }
    } else {
        commit_size
    };
    Some(
        CommitPlan {
            result_offset: offset_free,
            commit_offset: commit_size,
            commit_size: new_commit_size - commit_size,
            new_commit_size,
            new_offset_free: end,
        },
    )
}

/// A plan commits what the buffer then uses, within its view, and can be followed by another one:
/// what is handed out lies between the old and the new free offset.
pub proof fn plans_stay_in_view(
    offset_free: usize,
    commit_size: usize,
    view_size: usize,
    size: usize,
)
    ensures
        commit_plan(offset_free, commit_size, view_size, size) matches Some(plan) ==> {
            &&& plan.result_offset == offset_free
            &&& plan.result_offset + size == plan.new_offset_free
            &&& plan.new_offset_free <= plan.new_commit_size <= view_size
            &&& plan.commit_offset + plan.commit_size == plan.new_commit_size
        },
{
}

} // verus!
