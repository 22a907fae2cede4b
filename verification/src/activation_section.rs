//! Activation-context section construction, validation and lookup.
//!
//! A string section starts with an 11-word header, then one 6-word index row per entry, then the
//! payloads of the entries. A GUID section has a 10-word header and 7-word index rows.

use vstd::prelude::*;

use crate::bytes::{
    flat, get_u16, get_u32, le16, le32, le32_bytes, lemma_flat_fixed, lemma_flat_piece, put_u32,
    up4, wide_at, wide_bytes,
};
use crate::guid::Guid;
use crate::strings::{upcase_all, upcase_char, x65599, x65599_step};
use crate::NtStatus;

pub mod clr;
pub mod dll;
pub mod laws;
pub mod window;

pub use clr::{
    build_clr_surrogate_section, find_clr_surrogate, ClrSurrogateAssembly, ClrSurrogateMatch,
};
pub use dll::{
    build_dll_redirection_section, build_dll_redirection_section_for_assemblies,
    decode_dll_redirection, find_dll_redirection, validate_dll_redirection_section,
    DllRedirectAssembly, DllRedirectionData, DllRedirectionMatch, DllRedirectionSection,
};
pub use window::{
    build_window_class_redirection_section, find_window_class_redirection,
    validate_window_class_redirection_section, WindowClassAssembly, WindowClassRedirectionMatch,
    WindowClassRedirectionSection,
};

verus! {

/// Tag of a string-keyed section.
pub const STRSECTION_MAGIC: u32 = 0x6448_7353;

/// Tag of a GUID-keyed section.
pub const GUIDSECTION_MAGIC: u32 = 0x6448_7347;

/// The redirected path already holds the file name.
pub const DLL_REDIRECTION_PATH_INCLUDES_BASE_NAME: u32 = 0x01;

/// The redirected path does not start at the assembly root.
pub const DLL_REDIRECTION_PATH_OMITS_ASSEMBLY_ROOT: u32 = 0x02;

/// The redirected path holds environment references.
pub const DLL_REDIRECTION_PATH_EXPAND: u32 = 0x04;

/// The DLL is a system DLL redirected by default.
pub const DLL_REDIRECTION_PATH_SYSTEM_DEFAULT_REDIRECTED_SYSTEM32_DLL: u32 = 0x08;

/// The section would not fit its 32-bit offsets.
pub const STATUS_NO_MEMORY: NtStatus = 0xC000_0017;

/// The section or the data to put into it is malformed.
pub const STATUS_SXS_INVALID_ACTCTXDATA_FORMAT: NtStatus = 0xC015_0003;

/// Size of a string-section header.
pub const HEADER_SIZE: usize = 44;

/// Size of a string-section index row.
pub const INDEX_SIZE: usize = 24;

/// Size of the fixed part of a DLL redirection.
pub const REDIRECTION_SIZE: usize = 20;

/// Size of a path-segment row.
pub const PATH_SEGMENT_SIZE: usize = 8;

/// Size of the fixed part of a window-class redirection.
pub const WINDOW_CLASS_REDIRECTION_SIZE: usize = 24;

/// Size of a GUID-section header.
pub const GUID_HEADER_SIZE: usize = 40;

/// Size of a GUID-section index row.
pub const GUID_INDEX_SIZE: usize = 28;

/// Size of the fixed part of a CLR surrogate.
pub const CLR_SURROGATE_SIZE: usize = 40;

/// Whether the text of `length` bytes at `at` lies in the section and holds no NUL.
pub open spec fn text_ok(s: Seq<u8>, at: int, length: int) -> bool {
    &&& length % 2 == 0
    &&& at + length <= s.len()
    &&& !wide_at(s, at, length / 2).contains(0)
}

/// Whether a nonempty text stands at `at`, followed by a NUL.
pub open spec fn counted_text_ok(s: Seq<u8>, at: int, length: int) -> bool {
    &&& length > 0
    &&& text_ok(s, at, length)
    &&& at + length + 2 <= s.len()
    &&& le16(s, at + length) == 0
}

/// The case-insensitive key of the text at `at`.
pub open spec fn key_at(s: Seq<u8>, at: int, length: int) -> Seq<u16> {
    upcase_all(wide_at(s, at, length / 2))
}

/// Where index row `i` of a string section starts.
pub open spec fn row_at(i: int) -> int {
    44 + 24 * i
}

/// Sum of `lens`.
pub open spec fn sum_of(lens: Seq<int>) -> int
    decreases lens.len(),
{
    if lens.len() == 0 {
        0
    } else {
        sum_of(lens.drop_last()) + lens.last()
    }
}

proof fn lemma_sum_nonneg(lens: Seq<int>)
    requires
        forall|k: int| 0 <= k < lens.len() ==> 0 <= #[trigger] lens[k],
    ensures
        0 <= sum_of(lens),
    decreases lens.len(),
{
    if lens.len() > 0 {
        let front = lens.drop_last();
        assert forall|k: int| 0 <= k < front.len() implies 0 <= #[trigger] front[k] by {
            assert(front[k] == lens[k]);
        }
        lemma_sum_nonneg(front);
    }
}

proof fn lemma_sum_take(lens: Seq<int>, k: int)
    requires
        0 <= k < lens.len(),
        forall|k: int| 0 <= k < lens.len() ==> 0 <= #[trigger] lens[k],
    ensures
        0 <= sum_of(lens.take(k)),
        sum_of(lens.take(k + 1)) == sum_of(lens.take(k)) + lens[k],
        sum_of(lens.take(k + 1)) <= sum_of(lens),
    decreases lens.len(),
{
    assert(lens.take(k + 1).drop_last() =~= lens.take(k));
    lemma_sum_nonneg(lens.take(k));
    if k + 1 < lens.len() {
        let front = lens.drop_last();
        assert forall|j: int| 0 <= j < front.len() implies 0 <= #[trigger] front[j] by {
            assert(front[j] == lens[j]);
        }
        lemma_sum_take(front, k);
        assert(front.take(k + 1) =~= lens.take(k + 1));
        assert(lens[lens.len() - 1] >= 0);
    } else {
        assert(lens.take(k + 1) =~= lens);
    }
}

proof fn lemma_flat_sum(parts: Seq<Seq<u8>>, lens: Seq<int>, k: int)
    requires
        parts.len() == lens.len(),
        0 <= k <= parts.len(),
        forall|k: int| 0 <= k < parts.len() ==> (#[trigger] parts[k]).len() == lens[k],
    ensures
        flat(parts.take(k)).len() == sum_of(lens.take(k)),
    decreases k,
{
    if k > 0 {
        lemma_flat_sum(parts, lens, k - 1);
        assert(parts.take(k).drop_last() =~= parts.take(k - 1));
        assert(lens.take(k).drop_last() =~= lens.take(k - 1));
        assert(parts[k - 1].len() == lens[k - 1]);
    }
}

/// How long a section is, and where its header stands.
proof fn lemma_layout(
    header: Seq<u8>,
    rows: Seq<Seq<u8>>,
    row_size: int,
    payloads: Seq<Seq<u8>>,
    lens: Seq<int>,
)
    requires
        rows.len() == payloads.len() == lens.len(),
        forall|k: int| 0 <= k < rows.len() ==> (#[trigger] rows[k]).len() == row_size,
        forall|k: int| 0 <= k < payloads.len() ==> (#[trigger] payloads[k]).len() == lens[k],
    ensures
        (header + flat(rows) + flat(payloads)).len() == header.len() + row_size * rows.len()
            + sum_of(lens),
        (header + flat(rows) + flat(payloads)).subrange(0, header.len() as int) == header,
{
    let s = header + flat(rows) + flat(payloads);
    let n = rows.len() as int;
    lemma_flat_fixed(rows, row_size);
    lemma_flat_sum(payloads, lens, n);
    assert(payloads.take(n) =~= payloads);
    assert(lens.take(n) =~= lens);
    assert(s.subrange(0, header.len() as int) =~= header);
}

/// Where row `k` and payload `k` of a section stand.
proof fn lemma_layout_entry(
    header: Seq<u8>,
    rows: Seq<Seq<u8>>,
    row_size: int,
    payloads: Seq<Seq<u8>>,
    lens: Seq<int>,
    k: int,
)
    requires
        rows.len() == payloads.len() == lens.len(),
        forall|k: int| 0 <= k < rows.len() ==> (#[trigger] rows[k]).len() == row_size,
        forall|k: int| 0 <= k < payloads.len() ==> (#[trigger] payloads[k]).len() == lens[k],
        0 <= k < rows.len(),
    ensures
        0 <= row_size * k,
        row_size * k + row_size <= row_size * rows.len(),
        (header + flat(rows) + flat(payloads)).subrange(
            header.len() + row_size * k,
            header.len() + row_size * k + row_size,
        ) == rows[k],
        0 <= sum_of(lens.take(k)),
        sum_of(lens.take(k)) + lens[k] <= sum_of(lens),
        (header + flat(rows) + flat(payloads)).subrange(
            header.len() + row_size * rows.len() + sum_of(lens.take(k)),
            header.len() + row_size * rows.len() + sum_of(lens.take(k)) + lens[k],
        ) == payloads[k],
{
    let s = header + flat(rows) + flat(payloads);
    let n = rows.len() as int;
    lemma_flat_fixed(rows, row_size);
    lemma_flat_sum(payloads, lens, n);
    assert(payloads.take(n) =~= payloads);
    assert(lens.take(n) =~= lens);
    assert forall|k: int| 0 <= k < lens.len() implies 0 <= #[trigger] lens[k] by {
        assert(payloads[k].len() == lens[k]);
    }
    assert(rows[k].len() == row_size);
    assert(payloads[k].len() == lens[k]);
    assert(0 <= row_size * k && row_size * k + row_size <= row_size * n) by (nonlinear_arith)
        requires
            0 <= row_size,
            0 <= k < n,
    ;
    lemma_flat_piece(rows, k);
    lemma_flat_fixed(rows.take(k), row_size);
    let at = header.len() + row_size * k;
    assert(s.subrange(at, at + row_size) =~= flat(rows).subrange(
        row_size * k,
        row_size * k + row_size,
    ));
    let o = sum_of(lens.take(k));
    let base = header.len() + row_size * n;
    lemma_flat_piece(payloads, k);
    lemma_flat_sum(payloads, lens, k);
    lemma_sum_take(lens, k);
    assert(s.subrange(base + o, base + o + lens[k]) =~= flat(payloads).subrange(o, o + lens[k]));
}

/// The 32-bit value at `offset`.
pub fn read_u32(section: &[u8], offset: usize) -> (r: Result<u32, NtStatus>)
    ensures
        r == (if offset + 4 <= section@.len() {
            Ok::<u32, NtStatus>(le32(section@, offset as int))
        } else {
            Err(STATUS_SXS_INVALID_ACTCTXDATA_FORMAT)
        }),
{
    if section.len() >= 4 && offset <= section.len() - 4 {
        Ok(get_u32(section, offset))
    } else {
        Err(STATUS_SXS_INVALID_ACTCTXDATA_FORMAT)
    }
}

/// The 16-bit value at `offset`.
pub fn read_u16(section: &[u8], offset: usize) -> (r: Result<u16, NtStatus>)
    ensures
        r == (if offset + 2 <= section@.len() {
            Ok::<u16, NtStatus>(le16(section@, offset as int))
        } else {
            Err(STATUS_SXS_INVALID_ACTCTXDATA_FORMAT)
        }),
{
    if section.len() >= 2 && offset <= section.len() - 2 {
        Ok(get_u16(section, offset))
    } else {
        Err(STATUS_SXS_INVALID_ACTCTXDATA_FORMAT)
    }
}

/// The 32-bit value at `offset`, as a size.
pub fn read_offset(section: &[u8], offset: usize) -> (r: Result<usize, NtStatus>)
    ensures
        r == (if offset + 4 <= section@.len() {
            Ok::<usize, NtStatus>(le32(section@, offset as int) as usize)
        } else {
            Err(STATUS_SXS_INVALID_ACTCTXDATA_FORMAT)
        }),
{
    match read_u32(section, offset) {
        Ok(v) => Ok(v as usize),
        Err(e) => Err(e),
    }
}

/// Overwrite the 32-bit value at `offset`.
pub fn write_u32(section: &mut [u8], offset: usize, value: u32) -> (r: Result<(), NtStatus>)
    ensures
        offset + 4 <= old(section)@.len() ==> r is Ok && final(section)@ == old(section)@.subrange(
            0,
            offset as int,
        ) + le32_bytes(value) + old(section)@.subrange(offset + 4, old(section)@.len() as int),
        offset + 4 > old(section)@.len() ==> r == Err::<(), NtStatus>(STATUS_NO_MEMORY)
            && final(section)@ == old(section)@,
{
    if section.len() >= 4 && offset <= section.len() - 4 {
        put_u32(section, offset, value);
        Ok(())
    } else {
        Err(STATUS_NO_MEMORY)
    }
}

/// Overwrite the text at `offset`.
pub fn write_utf16(section: &mut [u8], offset: usize, value: &[u16]) -> (r: Result<(), NtStatus>)
    ensures
        offset + 2 * value@.len() <= old(section)@.len() ==> r is Ok && final(section)@ == old(
            section,
        )@.subrange(0, offset as int) + wide_bytes(value@) + old(section)@.subrange(
            offset + 2 * value@.len(),
            old(section)@.len() as int,
        ),
        offset + 2 * value@.len() > old(section)@.len() ==> r == Err::<(), NtStatus>(
            STATUS_NO_MEMORY,
        ) && final(section)@ == old(section)@,
{
    if offset > section.len() || value.len() > (section.len() - offset) / 2 {
        return Err(STATUS_NO_MEMORY);
    }
    reveal(wide_bytes);
    let end: usize = section.len();
    let mut i: usize = 0;
    while i < value.len()
        invariant
            end == section@.len(),
            i <= value@.len(),
            section@.len() == old(section)@.len(),
            offset + 2 * value@.len() <= section@.len(),
            forall|j: int|
                0 <= j < section@.len() ==> #[trigger] section@[j] == if offset <= j < offset + 2
                    * i {
                    wide_bytes(value@)[j - offset]
                } else {
                    old(section)@[j]
                },
        decreases value@.len() - i,
    {
        reveal(wide_bytes);
        section[offset + 2 * i] = (value[i] % 0x100) as u8;
        section[offset + 2 * i + 1] = (value[i] / 0x100) as u8;
        i += 1;
    }
    assert(section@ =~= old(section)@.subrange(0, offset as int) + wide_bytes(value@) + old(
        section,
    )@.subrange(offset + 2 * value@.len(), old(section)@.len() as int));
    Ok(())
}

/// The byte length of `units` code units.
pub fn utf16_bytes_len(units: usize) -> (r: Result<usize, NtStatus>)
    ensures
        match r {
            Ok(n) => n == 2 * units,
            Err(e) => e == STATUS_NO_MEMORY && 2 * units > usize::MAX,
        },
{
    if units <= usize::MAX / 2 {
        Ok(2 * units)
    } else {
        Err(STATUS_NO_MEMORY)
    }
}

/// Round up to a multiple of four.
pub fn align4(value: usize) -> (r: Option<usize>)
    ensures
        match r {
            Some(n) => n == up4(value as int),
            None => value + 3 > usize::MAX,
        },
{
    if value <= usize::MAX - 3 {
        Some((value + 3) / 4 * 4)
    } else {
        None
    }
}

/// A section size as a 32-bit value.
pub fn checked_section_size(value: usize) -> (r: Result<u32, NtStatus>)
    ensures
        match r {
            Ok(n) => n == value,
            Err(e) => e == STATUS_NO_MEMORY && value > u32::MAX,
        },
{
    if value <= 0xffff_ffff {
        Ok(value as u32)
    } else {
        Err(STATUS_NO_MEMORY)
    }
}

/// The GUID at `offset`.
pub fn read_guid(section: &[u8], offset: usize) -> (r: Result<Guid, NtStatus>)
    ensures
        match r {
            Ok(guid) => offset + 16 <= section@.len() && guid.windows_bytes() == section@.subrange(
                offset as int,
                offset + 16,
            ),
            Err(e) => e == STATUS_SXS_INVALID_ACTCTXDATA_FORMAT && offset + 16 > section@.len(),
        },
{
    if section.len() < 16 || offset > section.len() - 16 {
        return Err(STATUS_SXS_INVALID_ACTCTXDATA_FORMAT);
    }
    let end: usize = section.len();
    let mut bytes: [u8; 16] = [0u8; 16];
    let mut i: usize = 0;
    while i < 16
        invariant
            i <= 16,
            end == section@.len(),
            offset + 16 <= end,
            forall|j: int| 0 <= j < i ==> bytes@[j] == section@[offset + j],
        decreases 16 - i,
    {
        bytes[i] = section[offset + i];
        i += 1;
    }
    let guid = Guid::from_windows_bytes(bytes);
    assert(bytes@ =~= section@.subrange(offset as int, offset + 16));
    Ok(guid)
}

/// Whether the text of `length` bytes at `offset` holds a NUL.
fn holds_nul(section: &[u8], offset: usize, length: usize) -> (found: bool)
    requires
        length % 2 == 0,
        offset + length <= section@.len(),
    ensures
        found == wide_at(section@, offset as int, length as int / 2).contains(0),
{
    let ghost text = wide_at(section@, offset as int, length as int / 2);
    let end: usize = section.len();
    let mut i: usize = 0;
    while i < length / 2
        invariant
            end == section@.len(),
            i <= length / 2,
            length % 2 == 0,
            offset + length <= section@.len(),
            text == wide_at(section@, offset as int, length as int / 2),
            forall|j: int| 0 <= j < i ==> text[j] != 0,
        decreases length / 2 - i,
    {
        if get_u16(section, offset + 2 * i) == 0 {
            assert(text[i as int] == 0);
            return true;
        }
        i += 1;
    }
    false
}

/// Check that the text of `length` bytes at `offset` lies in the section and holds no NUL.
fn check_text(section: &[u8], offset: u64, length: u64) -> (ok: bool)
    requires
        offset <= u64::MAX / 4,
        length <= u64::MAX / 4,
    ensures
        ok == text_ok(section@, offset as int, length as int),
{
    length % 2 == 0 && offset + length <= section.len() as u64 && !holds_nul(
        section,
        offset as usize,
        length as usize,
    )
}

/// Check that a nonempty NUL-terminated text stands at `offset`.
fn check_counted_text(section: &[u8], offset: u64, length: u64) -> (ok: bool)
    requires
        offset <= u64::MAX / 4,
        length <= u64::MAX / 8,
    ensures
        ok == counted_text_ok(section@, offset as int, length as int),
{
    length > 0 && check_text(section, offset, length) && offset + length + 2 <= section.len() as u64
        && get_u16(section, (offset + length) as usize) == 0
}

/// Hash the text at `offset` the way keys are hashed.
fn hash_section_name(section: &[u8], offset: usize, length: usize) -> (hash: u32)
    requires
        length % 2 == 0,
        offset + length <= section@.len(),
    ensures
        hash == x65599(key_at(section@, offset as int, length as int)),
{
    let ghost key = key_at(section@, offset as int, length as int);
    let end: usize = section.len();
    let mut hash: u32 = 0;
    let mut i: usize = 0;
    while i < length / 2
        invariant
            end == section@.len(),
            i <= length / 2,
            length % 2 == 0,
            offset + length <= section@.len(),
            key == key_at(section@, offset as int, length as int),
            hash == x65599(key.take(i as int)),
        decreases length / 2 - i,
    {
        hash = x65599_step(hash, upcase_char(get_u16(section, offset + 2 * i)));
        assert(key.take(i + 1).drop_last() =~= key.take(i as int));
        i += 1;
    }
    assert(key.take(i as int) =~= key);
    hash
}

/// Whether the text at `offset` equals `name` when case does not count.
fn section_name_eq(section: &[u8], offset: usize, length: usize, name: &[u16]) -> (equal: bool)
    requires
        length % 2 == 0,
        offset + length <= section@.len(),
    ensures
        equal == (key_at(section@, offset as int, length as int) == upcase_all(name@)),
{
    let ghost key = key_at(section@, offset as int, length as int);
    if name.len() != length / 2 {
        assert(key.len() != upcase_all(name@).len());
        return false;
    }
    let end: usize = section.len();
    let mut i: usize = 0;
    while i < name.len()
        invariant
            end == section@.len(),
            i <= name@.len(),
            name@.len() == length / 2,
            length % 2 == 0,
            offset + length <= section@.len(),
            key == key_at(section@, offset as int, length as int),
            forall|j: int| 0 <= j < i ==> key[j] == upcase_all(name@)[j],
        decreases name@.len() - i,
    {
        if upcase_char(get_u16(section, offset + 2 * i)) != upcase_char(name[i]) {
            assert(key[i as int] != upcase_all(name@)[i as int]);
            return false;
        }
        i += 1;
    }
    assert(key =~= upcase_all(name@));
    true
}

} // verus!
