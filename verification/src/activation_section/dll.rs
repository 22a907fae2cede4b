//! DLL-redirection string sections.

use vstd::prelude::*;

use super::{
    check_counted_text, check_text, counted_text_ok, hash_section_name, key_at, row_at,
    section_name_eq, text_ok, DLL_REDIRECTION_PATH_EXPAND, DLL_REDIRECTION_PATH_INCLUDES_BASE_NAME,
    DLL_REDIRECTION_PATH_OMITS_ASSEMBLY_ROOT, STATUS_NO_MEMORY,
    STATUS_SXS_INVALID_ACTCTXDATA_FORMAT, STRSECTION_MAGIC,
};
use crate::activation::DllRedirect;
use crate::bytes::{
    flat, get_u16, get_u32, has_unit, le16, le32, lemma_flat_fixed, lemma_flat_piece,
    lemma_sub_le16, lemma_sub_le32, lemma_sub_sub, lemma_sub_wide, lemma_wide_bytes,
    lemma_wide_bytes_len, lemma_words, lemma_words_len,
    push_bytes, push_wide, push_words, push_zeros, up4, wide_at, wide_bytes, words, zero_bytes,
};
use crate::strings::{
    hash_unicode_string, upcase_all, x65599, HASH_STRING_ALGORITHM_X65599,
};
use crate::NtStatus;

verus! {

/// What a validated section says of itself.
#[derive(Clone, Copy, Debug, PartialEq, Eq)]
pub struct DllRedirectionSection {
    pub count: u32,
    pub index_offset: u32,
    pub length: u32,
}

/// Where the entry of a name was found.
#[derive(Clone, Copy, Debug, PartialEq, Eq)]
pub struct DllRedirectionMatch {
    pub index_offset: u32,
    pub name_offset: u32,
    pub name_length: u32,
    pub data_offset: u32,
    pub data_length: u32,
    pub assembly_roster_index: u32,
}

/// A decoded redirection.
#[derive(Clone, Debug, PartialEq, Eq)]
pub struct DllRedirectionData {
    pub flags: u32,
    pub path_segments: Vec<Vec<u16>>,
}

/// The redirections of one assembly of the roster.
#[derive(Clone, Copy, Debug, PartialEq, Eq)]
pub struct DllRedirectAssembly<'a> {
    pub redirects: &'a [DllRedirect],
}

/// One redirection together with the one-based roster position of its assembly.
struct RedirectRef<'a> {
    redirect: &'a DllRedirect,
    roster: u64,
}

/// One entry of a section: a name, the path to load from, and the assembly it belongs to.
pub struct DllEntry {
    pub name: Seq<u16>,
    pub path: Option<Seq<u16>>,
    pub roster: int,
}

// ---------------------------------------------------------------------------------------------
// Section contents
// ---------------------------------------------------------------------------------------------

/// Whether bit `flag` of `flags` is set; `flag` is a power of two.
pub open spec fn has_flag(flags: u32, flag: u32) -> bool {
    flags / flag % 2 == 1
}

/// Byte length of path segment `j`.
pub open spec fn segment_length(s: Seq<u8>, segments: int, j: int) -> int {
    le32(s, segments + 8 * j) as int
}

/// Byte offset of path segment `j`.
pub open spec fn segment_offset(s: Seq<u8>, segments: int, j: int) -> int {
    le32(s, segments + 8 * j + 4) as int
}

/// Sum of the lengths of the first `n` path segments, each rounded up to four when `padded`.
pub open spec fn segment_total(s: Seq<u8>, segments: int, n: int, padded: bool) -> int
    decreases n,
{
    if n <= 0 {
        0
    } else {
        let length = segment_length(s, segments, n - 1);
        segment_total(s, segments, n - 1, padded) + if padded {
            up4(length)
        } else {
            length
        }
    }
}

/// Whether the `n` path segments at `segments` are readable text.
pub open spec fn segments_ok(s: Seq<u8>, segments: int, n: int) -> bool {
    forall|j: int|
        0 <= j < n ==> text_ok(
            s,
            #[trigger] segment_offset(s, segments, j),
            segment_length(s, segments, j),
        )
}

/// Whether the `n` path segments at `segments` lie in the section together with their padding.
pub open spec fn segments_padded_in(s: Seq<u8>, segments: int, n: int) -> bool {
    forall|j: int|
        0 <= j < n ==> (#[trigger] segment_offset(s, segments, j)) + up4(
            segment_length(s, segments, j),
        ) <= s.len()
}

/// Whether a well-formed redirection stands at `d`.
pub open spec fn redirection_ok(s: Seq<u8>, d: int) -> bool {
    let size = le32(s, d);
    let flags = le32(s, d + 4);
    let total = le32(s, d + 8);
    let n = le32(s, d + 12);
    let segments = le32(s, d + 16) as int;
    let omits = has_flag(flags, DLL_REDIRECTION_PATH_OMITS_ASSEMBLY_ROOT);
    let includes = has_flag(flags, DLL_REDIRECTION_PATH_INCLUDES_BASE_NAME);
    let expand = has_flag(flags, DLL_REDIRECTION_PATH_EXPAND);
    &&& flags < 16
    &&& !(omits && expand)
    &&& if n == 0 {
        size == 20 && omits && !includes && total == 0 && segments == 0
    } else {
        &&& size == 20 + 8 * n
        &&& d + size <= s.len()
        &&& segments + 8 * n <= s.len()
        &&& segments_ok(s, segments, n as int)
        &&& total == segment_total(s, segments, n as int, false) || total == segment_total(
            s,
            segments,
            n as int,
            true,
        )
        &&& total == segment_total(s, segments, n as int, true) ==> segments_padded_in(
            s,
            segments,
            n as int,
        )
    }
}

/// Whether entry `i` is well formed.
pub open spec fn dll_entry_ok(s: Seq<u8>, i: int) -> bool {
    let r = row_at(i);
    &&& counted_text_ok(s, le32(s, r + 4) as int, le32(s, r + 8) as int)
    &&& le32(s, r) == x65599(key_at(s, le32(s, r + 4) as int, le32(s, r + 8) as int))
    &&& le32(s, r + 12) + 20 <= s.len()
    &&& le32(s, r + 16) == 20
    &&& le32(s, r + 20) != 0
    &&& redirection_ok(s, le32(s, r + 12) as int)
}

/// Whether the header of a section is well formed and its index rows fit.
pub open spec fn dll_header_ok(s: Seq<u8>) -> bool {
    &&& 44 <= s.len() <= u32::MAX
    &&& le32(s, 0) == STRSECTION_MAGIC
    &&& le32(s, 4) == 44
    &&& le32(s, 36) == 0
    &&& le32(s, 40) == 0
    &&& le32(s, 24) == 44
    &&& row_at(le32(s, 20) as int) <= s.len()
}

/// Whether a section is well formed.
pub open spec fn dll_section_ok(s: Seq<u8>) -> bool {
    &&& dll_header_ok(s)
    &&& forall|i: int| 0 <= i < le32(s, 20) ==> #[trigger] dll_entry_ok(s, i)
}

/// The key of entry `i`.
pub open spec fn dll_key(s: Seq<u8>, i: int) -> Seq<u16> {
    key_at(s, le32(s, row_at(i) + 4) as int, le32(s, row_at(i) + 8) as int)
}

/// Whether entry `i` is the first of the section whose name is `name` when case does not count.
pub open spec fn dll_first_match(s: Seq<u8>, name: Seq<u16>, i: int) -> bool {
    &&& 0 <= i < le32(s, 20)
    &&& dll_key(s, i) == upcase_all(name)
    &&& forall|j: int| 0 <= j < i ==> #[trigger] dll_key(s, j) != upcase_all(name)
}

/// What a lookup reports of entry `i`.
pub open spec fn dll_match_of(s: Seq<u8>, i: int) -> DllRedirectionMatch {
    DllRedirectionMatch {
        index_offset: row_at(i) as u32,
        name_offset: le32(s, row_at(i) + 4),
        name_length: le32(s, row_at(i) + 8),
        data_offset: le32(s, row_at(i) + 12),
        data_length: le32(s, le32(s, row_at(i) + 12) as int),
        assembly_roster_index: le32(s, row_at(i) + 20),
    }
}

/// Whether path segment `j` can be read.
pub open spec fn segment_readable(s: Seq<u8>, segments: int, j: int) -> bool {
    &&& segments + 8 * j + 8 <= s.len()
    &&& segment_length(s, segments, j) < 2 || segment_offset(s, segments, j) + segment_length(
        s,
        segments,
        j,
    ) / 2 * 2 <= s.len()
}

/// Whether `matched` names a redirection of a well-formed section that can be read.
pub open spec fn dll_decodable(s: Seq<u8>, matched: DllRedirectionMatch) -> bool {
    let d = matched.data_offset as int;
    &&& dll_section_ok(s)
    &&& d + 20 <= s.len()
    &&& le32(s, d) == matched.data_length
    &&& forall|j: int|
        0 <= j < le32(s, d + 12) ==> #[trigger] segment_readable(s, le32(s, d + 16) as int, j)
}

// ---------------------------------------------------------------------------------------------
// Construction
// ---------------------------------------------------------------------------------------------

/// The entry of one redirection.
pub open spec fn entry_of(redirect: DllRedirect, roster: int) -> DllEntry {
    DllEntry { name: redirect.name@, path: redirect.path(), roster }
}

/// The entries of a roster in order; roster positions start at one and empty assemblies keep
/// theirs.
pub open spec fn dll_entries(assemblies: Seq<DllRedirectAssembly<'_>>) -> Seq<DllEntry>
    decreases assemblies.len(),
{
    if assemblies.len() == 0 {
        Seq::empty()
    } else {
        dll_entries(assemblies.drop_last()) + Seq::new(
            assemblies.last().redirects@.len(),
            |i: int| entry_of(assemblies.last().redirects@[i], assemblies.len() as int),
        )
    }
}

/// Whether an entry can be stored: a nonempty name, and no NUL in name or path.
pub open spec fn storable(e: DllEntry) -> bool {
    &&& e.name.len() > 0
    &&& !e.name.contains(0)
    &&& e.path matches Some(path) ==> !path.contains(0)
}

/// Bytes that the name of an entry takes, with its NUL and padding.
pub open spec fn name_storage(e: DllEntry) -> int {
    up4(2 * e.name.len() as int + 2)
}

/// Bytes that the payload of an entry takes.
pub open spec fn payload_len(e: DllEntry) -> int {
    name_storage(e) + match e.path {
        None => 20,
        Some(path) => 28 + up4(2 * path.len() as int),
    }
}

/// Bytes that the payloads of `es` take.
pub open spec fn payload_sum(es: Seq<DllEntry>) -> int
    decreases es.len(),
{
    if es.len() == 0 {
        0
    } else {
        payload_sum(es.drop_last()) + payload_len(es.last())
    }
}

/// Where the payload of entry `k` starts.
pub open spec fn payload_at(es: Seq<DllEntry>, k: int) -> int {
    row_at(es.len() as int) + payload_sum(es.take(k))
}

/// The flags of a redirection that loads from `path`.
pub open spec fn path_flags(path: Seq<u16>) -> u32 {
    ((if path.contains(0x25) {
        DLL_REDIRECTION_PATH_EXPAND as int
    } else {
        0
    }) + if path.len() > 0 && path.last() != 0x5c && path.last() != 0x2f {
        DLL_REDIRECTION_PATH_INCLUDES_BASE_NAME as int
    } else {
        0
    }) as u32
}

/// The redirection stored at `d` for an entry that loads from `path`.
pub open spec fn redirection_bytes(path: Option<Seq<u16>>, d: int) -> Seq<u8> {
    match path {
        None => words(seq![20u32, DLL_REDIRECTION_PATH_OMITS_ASSEMBLY_ROOT, 0, 0, 0]),
        Some(path) => words(
            seq![
                28u32,
                path_flags(path),
                up4(2 * path.len() as int) as u32,
                1,
                (d + 20) as u32,
                (2 * path.len()) as u32,
                (d + 28) as u32,
            ],
        ) + wide_bytes(path) + zero_bytes(up4(2 * path.len() as int) - 2 * path.len()),
    }
}

/// The payload of an entry stored at `at`.
pub open spec fn payload_bytes(e: DllEntry, at: int) -> Seq<u8> {
    wide_bytes(e.name) + zero_bytes(name_storage(e) - 2 * e.name.len()) + redirection_bytes(
        e.path,
        at + name_storage(e),
    )
}

/// The index row of an entry whose payload is stored at `at`.
pub open spec fn row_bytes(e: DllEntry, at: int) -> Seq<u8> {
    words(
        seq![
            x65599(upcase_all(e.name)) as u32,
            at as u32,
            (2 * e.name.len()) as u32,
            (at + name_storage(e)) as u32,
            20,
            e.roster as u32,
        ],
    )
}

/// The index rows of a section.
pub open spec fn dll_rows(es: Seq<DllEntry>) -> Seq<Seq<u8>> {
    Seq::new(es.len(), |k: int| row_bytes(es[k], payload_at(es, k)))
}

/// The payloads of a section.
pub open spec fn dll_payloads(es: Seq<DllEntry>) -> Seq<Seq<u8>> {
    Seq::new(es.len(), |k: int| payload_bytes(es[k], payload_at(es, k)))
}

/// The header of a string section with `count` entries.
pub open spec fn string_header(count: int) -> Seq<u8> {
    words(seq![STRSECTION_MAGIC, 44, 0, 0, 0, count as u32, 44, 0, 0, 0, 0])
}

/// The section that holds the entries `es`.
pub open spec fn dll_section(es: Seq<DllEntry>) -> Seq<u8> {
    string_header(es.len() as int) + flat(dll_rows(es)) + flat(dll_payloads(es))
}

/// The size that `es` take behind `base` bytes, or why they cannot be stored. Entries are looked
/// at in order: one that cannot be stored stops the count, and so does a size out of range.
pub open spec fn dll_size(base: int, es: Seq<DllEntry>) -> Result<int, NtStatus>
    decreases es.len(),
{
    if es.len() == 0 {
        if base > usize::MAX {
            Err(STATUS_NO_MEMORY)
        } else {
            Ok(base)
        }
    } else {
        match dll_size(base, es.drop_last()) {
            Err(e) => Err(e),
            Ok(size) => if !storable(es.last()) {
                Err(STATUS_SXS_INVALID_ACTCTXDATA_FORMAT)
            } else if size + payload_len(es.last()) > usize::MAX {
                Err(STATUS_NO_MEMORY)
            } else {
                Ok(size + payload_len(es.last()))
            },
        }
    }
}

/// What building a section for `assemblies` assemblies with the entries `es` gives.
pub open spec fn dll_build(assemblies: int, es: Seq<DllEntry>) -> Result<Seq<u8>, NtStatus> {
    if es.len() > u32::MAX {
        Err(STATUS_NO_MEMORY)
    } else {
        match dll_size(row_at(es.len() as int), es) {
            Err(e) => Err(e),
            Ok(size) => if size > u32::MAX || assemblies > u32::MAX {
                Err(STATUS_NO_MEMORY)
            } else {
                Ok(dll_section(es))
            },
        }
    }
}

// ---------------------------------------------------------------------------------------------
// Lemmas
// ---------------------------------------------------------------------------------------------

proof fn lemma_dll_size(base: int, es: Seq<DllEntry>)
    ensures
        dll_size(base, es) matches Ok(size) ==> size == base + payload_sum(es) && forall|k: int|
            0 <= k < es.len() ==> storable(#[trigger] es[k]),
    decreases es.len(),
{
    if es.len() > 0 {
        lemma_dll_size(base, es.drop_last());
        assert forall|k: int| 0 <= k < es.len() && dll_size(base, es) is Ok implies storable(
            #[trigger] es[k],
        ) by {
            if k < es.len() - 1 {
                assert(es.drop_last()[k] == es[k]);
            }
        }
    }
}

/// An error met on a prefix of the entries is the error met on all of them.
proof fn lemma_dll_size_error(base: int, es: Seq<DllEntry>, k: int)
    requires
        0 <= k <= es.len(),
        dll_size(base, es.take(k)) is Err,
    ensures
        dll_size(base, es) == dll_size(base, es.take(k)),
    decreases es.len(),
{
    if k < es.len() {
        assert(es.drop_last().take(k) =~= es.take(k));
        lemma_dll_size_error(base, es.drop_last(), k);
    } else {
        assert(es.take(k) =~= es);
    }
}

proof fn lemma_payload_sum_nonneg(es: Seq<DllEntry>)
    ensures
        0 <= payload_sum(es),
    decreases es.len(),
{
    if es.len() > 0 {
        lemma_payload_sum_nonneg(es.drop_last());
    }
}

proof fn lemma_payload_sum(es: Seq<DllEntry>, k: int)
    requires
        0 <= k < es.len(),
    ensures
        0 <= payload_sum(es.take(k)),
        payload_sum(es.take(k + 1)) == payload_sum(es.take(k)) + payload_len(es[k]),
        payload_sum(es.take(k + 1)) <= payload_sum(es),
    decreases es.len(),
{
    assert(es.take(k + 1).drop_last() =~= es.take(k));
    lemma_payload_sum_nonneg(es.take(k));
    if k + 1 < es.len() {
        lemma_payload_sum(es.drop_last(), k);
        assert(es.drop_last().take(k + 1) =~= es.take(k + 1));
    } else {
        assert(es.take(k + 1) =~= es);
    }
}

proof fn lemma_payload_len(e: DllEntry, at: int)
    ensures
        payload_bytes(e, at).len() == payload_len(e),
        row_bytes(e, at).len() == 24,
{
    broadcast use lemma_words_len, lemma_wide_bytes_len;

}

proof fn lemma_payload_flat(es: Seq<DllEntry>, k: int)
    requires
        0 <= k <= es.len(),
    ensures
        flat(dll_payloads(es).take(k)).len() == payload_sum(es.take(k)),
    decreases k,
{
    if k > 0 {
        lemma_payload_flat(es, k - 1);
        assert(dll_payloads(es).take(k).drop_last() =~= dll_payloads(es).take(k - 1));
        lemma_payload_len(es[k - 1], payload_at(es, k - 1));
        assert(es.take(k).drop_last() =~= es.take(k - 1));
    }
}

proof fn lemma_rows_flat(es: Seq<DllEntry>, k: int)
    requires
        0 <= k <= es.len(),
    ensures
        flat(dll_rows(es).take(k)).len() == 24 * k,
{
    let rows = dll_rows(es).take(k);
    assert forall|j: int| 0 <= j < rows.len() implies (#[trigger] rows[j]).len() == 24 by {
        lemma_payload_len(es[j], payload_at(es, j));
    }
    lemma_flat_fixed(rows, 24);
}

/// Where the header, the rows and the payloads of a built section stand.
proof fn lemma_dll_layout(es: Seq<DllEntry>)
    ensures
        dll_section(es).len() == row_at(es.len() as int) + payload_sum(es),
        dll_section(es).subrange(0, 44) == string_header(es.len() as int),
        forall|k: int|
            0 <= k < es.len() ==> {
                &&& 0 <= #[trigger] row_at(k) && row_at(k) + 24 <= row_at(es.len() as int)
                &&& dll_section(es).subrange(row_at(k), row_at(k) + 24) == row_bytes(
                    es[k],
                    payload_at(es, k),
                )
            },
        forall|k: int|
            0 <= k < es.len() ==> {
                &&& row_at(es.len() as int) <= #[trigger] payload_at(es, k)
                &&& payload_at(es, k) + payload_len(es[k]) <= dll_section(es).len()
                &&& dll_section(es).subrange(
                    payload_at(es, k),
                    payload_at(es, k) + payload_len(es[k]),
                ) == payload_bytes(es[k], payload_at(es, k))
            },
{
    broadcast use lemma_words_len;
    let s = dll_section(es);
    let rows = dll_rows(es);
    let payloads = dll_payloads(es);
    let n = es.len() as int;
    lemma_rows_flat(es, n);
    assert(rows.take(n) =~= rows);
    lemma_payload_flat(es, n);
    assert(payloads.take(n) =~= payloads);
    assert(es.take(n) =~= es);
    assert(s.subrange(0, 44) =~= string_header(n));
    assert forall|k: int| 0 <= k < n implies {
        &&& 0 <= #[trigger] row_at(k) && row_at(k) + 24 <= row_at(n)
        &&& s.subrange(row_at(k), row_at(k) + 24) == row_bytes(es[k], payload_at(es, k))
    } by {
        lemma_flat_piece(rows, k);
        lemma_rows_flat(es, k);
        lemma_rows_flat(es, k + 1);
        assert(s.subrange(row_at(k), row_at(k) + 24) =~= flat(rows).subrange(24 * k, 24 * k + 24));
    }
    assert forall|k: int| 0 <= k < n implies {
        &&& row_at(n) <= #[trigger] payload_at(es, k)
        &&& payload_at(es, k) + payload_len(es[k]) <= s.len()
        &&& s.subrange(payload_at(es, k), payload_at(es, k) + payload_len(es[k])) == payload_bytes(
            es[k],
            payload_at(es, k),
        )
    } by {
        lemma_flat_piece(payloads, k);
        lemma_payload_flat(es, k);
        lemma_payload_flat(es, k + 1);
        lemma_payload_sum(es, k);
        let at = payload_sum(es.take(k));
        assert(s.subrange(row_at(n) + at, row_at(n) + at + payload_len(es[k])) =~= flat(
            payloads,
        ).subrange(at, at + payload_len(es[k])));
    }
}

proof fn lemma_header_words(s: Seq<u8>, count: int)
    requires
        44 <= s.len(),
        s.subrange(0, 44) == string_header(count),
        0 <= count <= u32::MAX,
    ensures
        le32(s, 0) == STRSECTION_MAGIC,
        le32(s, 4) == 44,
        le32(s, 20) == count,
        le32(s, 24) == 44,
        le32(s, 36) == 0,
        le32(s, 40) == 0,
{
    let ws = seq![STRSECTION_MAGIC, 44, 0, 0, 0, count as u32, 44, 0, 0, 0, 0];
    lemma_words(ws, 0);
    lemma_words(ws, 1);
    lemma_words(ws, 5);
    lemma_words(ws, 6);
    lemma_words(ws, 9);
    lemma_words(ws, 10);
    lemma_sub_le32(s, 0, string_header(count), 0);
    lemma_sub_le32(s, 0, string_header(count), 4);
    lemma_sub_le32(s, 0, string_header(count), 20);
    lemma_sub_le32(s, 0, string_header(count), 24);
    lemma_sub_le32(s, 0, string_header(count), 36);
    lemma_sub_le32(s, 0, string_header(count), 40);
}

/// The words of an index row as they read in the section.
proof fn lemma_row_words(s: Seq<u8>, r: int, e: DllEntry, at: int)
    requires
        0 <= r,
        r + 24 <= s.len(),
        s.subrange(r, r + 24) == row_bytes(e, at),
        0 <= at,
        at + name_storage(e) <= u32::MAX,
        0 <= e.roster <= u32::MAX,
    ensures
        le32(s, r) == x65599(upcase_all(e.name)) as u32,
        le32(s, r + 4) == at,
        le32(s, r + 8) == 2 * e.name.len(),
        le32(s, r + 12) == at + name_storage(e),
        le32(s, r + 16) == 20,
        le32(s, r + 20) == e.roster,
{
    let ws = seq![
        x65599(upcase_all(e.name)) as u32,
        at as u32,
        (2 * e.name.len()) as u32,
        (at + name_storage(e)) as u32,
        20,
        e.roster as u32,
    ];
    let row = row_bytes(e, at);
    lemma_words(ws, 0);
    lemma_words(ws, 1);
    lemma_words(ws, 2);
    lemma_words(ws, 3);
    lemma_words(ws, 4);
    lemma_words(ws, 5);
    lemma_sub_le32(s, r, row, 0);
    lemma_sub_le32(s, r, row, 4);
    lemma_sub_le32(s, r, row, 8);
    lemma_sub_le32(s, r, row, 12);
    lemma_sub_le32(s, r, row, 16);
    lemma_sub_le32(s, r, row, 20);
}

proof fn lemma_x65599_bound(w: Seq<u16>)
    ensures
        0 <= x65599(w) <= u32::MAX,
    decreases w.len(),
{
    if w.len() > 0 {
        lemma_x65599_bound(w.drop_last());
    }
}

/// The name of a payload as it reads in the section.
proof fn lemma_payload_name(s: Seq<u8>, at: int, e: DllEntry)
    requires
        0 <= at,
        at + payload_len(e) <= s.len(),
        s.subrange(at, at + payload_len(e)) == payload_bytes(e, at),
        storable(e),
    ensures
        counted_text_ok(s, at, 2 * e.name.len() as int),
        wide_at(s, at, e.name.len() as int) == e.name,
        s.subrange(at + name_storage(e), at + payload_len(e)) == redirection_bytes(
            e.path,
            at + name_storage(e),
        ),
{
    broadcast use lemma_words_len, lemma_wide_bytes_len;
    let p = payload_bytes(e, at);
    let n = e.name.len() as int;
    lemma_payload_len(e, at);
    assert(p.subrange(0, 2 * n) =~= wide_bytes(e.name));
    lemma_wide_bytes(e.name);
    lemma_sub_wide(p, 0, wide_bytes(e.name), 0, n);
    lemma_sub_wide(s, at, p, 0, n);
    assert(p[2 * n] == 0 && p[2 * n + 1] == 0);
    assert(le16(p, 2 * n) == 0) by {
        reveal(le16);
    }
    lemma_sub_le16(s, at, p, 2 * n);
    let red = redirection_bytes(e.path, at + name_storage(e));
    assert(p.subrange(name_storage(e), name_storage(e) + red.len()) =~= red);
    lemma_sub_sub(s, at, p, name_storage(e), red);
}

/// The redirection of a payload as it reads in the section.
proof fn lemma_redirection_ok(s: Seq<u8>, d: int, path: Option<Seq<u16>>)
    requires
        0 <= d,
        d + redirection_bytes(path, d).len() <= s.len(),
        s.len() <= u32::MAX,
        s.subrange(d, d + redirection_bytes(path, d).len()) == redirection_bytes(path, d),
        path matches Some(p) ==> !p.contains(0),
    ensures
        redirection_ok(s, d),
        path is None ==> le32(s, d) == 20 && le32(s, d + 4)
            == DLL_REDIRECTION_PATH_OMITS_ASSEMBLY_ROOT && le32(s, d + 12) == 0,
        path matches Some(p) ==> {
            &&& le32(s, d) == 28
            &&& le32(s, d + 4) == path_flags(p)
            &&& le32(s, d + 12) == 1
            &&& le32(s, d + 16) == d + 20
            &&& segment_length(s, d + 20, 0) == 2 * p.len()
            &&& segment_offset(s, d + 20, 0) == d + 28
            &&& wide_at(s, d + 28, p.len() as int) == p
        },
{
    broadcast use lemma_words_len, lemma_wide_bytes_len;
    let red = redirection_bytes(path, d);
    match path {
        None => {
            let ws = seq![20u32, DLL_REDIRECTION_PATH_OMITS_ASSEMBLY_ROOT, 0, 0, 0];
            lemma_words(ws, 0);
            lemma_words(ws, 1);
            lemma_words(ws, 2);
            lemma_words(ws, 3);
            lemma_words(ws, 4);
            lemma_sub_le32(s, d, red, 0);
            lemma_sub_le32(s, d, red, 4);
            lemma_sub_le32(s, d, red, 8);
            lemma_sub_le32(s, d, red, 12);
            lemma_sub_le32(s, d, red, 16);
        },
        Some(p) => {
            let storage = up4(2 * p.len() as int);
            let ws = seq![
                28u32,
                path_flags(p),
                storage as u32,
                1,
                (d + 20) as u32,
                (2 * p.len()) as u32,
                (d + 28) as u32,
            ];
            let head = words(ws);
            assert(red.subrange(0, 28) =~= head);
            assert(red.subrange(28, 28 + 2 * p.len() as int) =~= wide_bytes(p));
            lemma_words(ws, 0);
            lemma_words(ws, 1);
            lemma_words(ws, 2);
            lemma_words(ws, 3);
            lemma_words(ws, 4);
            lemma_words(ws, 5);
            lemma_words(ws, 6);
            lemma_sub_sub(s, d, red, 0, head);
            lemma_sub_le32(s, d, head, 0);
            lemma_sub_le32(s, d, head, 4);
            lemma_sub_le32(s, d, head, 8);
            lemma_sub_le32(s, d, head, 12);
            lemma_sub_le32(s, d, head, 16);
            lemma_sub_le32(s, d, head, 20);
            lemma_sub_le32(s, d, head, 24);
            lemma_wide_bytes(p);
            lemma_sub_sub(s, d, red, 28, wide_bytes(p));
            lemma_sub_wide(s, d + 28, wide_bytes(p), 0, p.len() as int);
            reveal_with_fuel(segment_total, 2);
            assert(segment_offset(s, d + 20, 0) == d + 28);
            assert(segment_length(s, d + 20, 0) == 2 * p.len());
        },
    }
}

/// Whether entry `k` of a section reads as `e`: its key, roster position, flags and path.
pub open spec fn dll_entry_reads_as(s: Seq<u8>, k: int, e: DllEntry) -> bool {
    let d = dll_match_of(s, k).data_offset as int;
    let segments = le32(s, d + 16) as int;
    &&& dll_key(s, k) == upcase_all(e.name)
    &&& dll_match_of(s, k).assembly_roster_index == e.roster
    &&& match e.path {
        None => le32(s, d + 4) == DLL_REDIRECTION_PATH_OMITS_ASSEMBLY_ROOT && le32(s, d + 12) == 0,
        Some(path) => {
            &&& le32(s, d + 4) == path_flags(path)
            &&& le32(s, d + 12) == 1
            &&& wide_at(s, segment_offset(s, segments, 0), segment_length(s, segments, 0) / 2)
                == path
        },
    }
}

/// A section that was built is well formed, and each of its entries reads back as it was given.
pub proof fn built_dll_section_reads_back(assemblies: int, es: Seq<DllEntry>)
    requires
        dll_build(assemblies, es) is Ok,
        forall|k: int| 0 <= k < es.len() ==> 1 <= (#[trigger] es[k]).roster <= assemblies,
    ensures
        dll_section_ok(dll_section(es)),
        le32(dll_section(es), 20) == es.len(),
        dll_section(es).len() == row_at(es.len() as int) + payload_sum(es),
        forall|k: int|
            0 <= k < es.len() ==> #[trigger] dll_entry_reads_as(dll_section(es), k, es[k]),
{
    let s = dll_section(es);
    let n = es.len() as int;
    lemma_dll_size(row_at(n), es);
    lemma_dll_layout(es);
    lemma_header_words(s, n);
    assert forall|k: int| 0 <= k < n implies #[trigger] dll_entry_ok(s, k) && dll_entry_reads_as(
        s,
        k,
        es[k],
    ) by {
        let e = es[k];
        let at = payload_at(es, k);
        let r = row_at(k);
        assert(storable(e));
        lemma_row_words(s, r, e, at);
        lemma_payload_name(s, at, e);
        lemma_payload_len(e, at);
        lemma_redirection_ok(s, at + name_storage(e), e.path);
        lemma_x65599_bound(upcase_all(e.name));
        assert((2 * e.name.len() as int) / 2 == e.name.len());
    }
    assert forall|k: int| 0 <= k < n implies #[trigger] dll_entry_reads_as(s, k, es[k]) by {
        assert(dll_entry_ok(s, k));
    }
}

proof fn lemma_entries_rosters(assemblies: Seq<DllRedirectAssembly<'_>>)
    ensures
        forall|k: int|
            0 <= k < dll_entries(assemblies).len() ==> 1 <= (#[trigger] dll_entries(
                assemblies,
            )[k]).roster <= assemblies.len(),
    decreases assemblies.len(),
{
    if assemblies.len() > 0 {
        lemma_entries_rosters(assemblies.drop_last());
    }
}

/// Looking a name up in a section built from a roster finds the first entry of that name, in
/// assembly order.
pub proof fn built_dll_section_finds_first(
    assemblies: Seq<DllRedirectAssembly<'_>>,
    name: Seq<u16>,
    k: int,
)
    requires
        dll_build(assemblies.len() as int, dll_entries(assemblies)) is Ok,
        0 <= k < dll_entries(assemblies).len(),
        upcase_all(dll_entries(assemblies)[k].name) == upcase_all(name),
        forall|j: int|
            0 <= j < k ==> upcase_all(#[trigger] dll_entries(assemblies)[j].name) != upcase_all(
                name,
            ),
    ensures
        dll_first_match(dll_section(dll_entries(assemblies)), name, k),
{
    let es = dll_entries(assemblies);
    let s = dll_section(es);
    lemma_entries_rosters(assemblies);
    built_dll_section_reads_back(assemblies.len() as int, es);
    assert(dll_entry_reads_as(s, k, es[k]));
    assert forall|j: int| 0 <= j < k implies #[trigger] dll_key(s, j) != upcase_all(name) by {
        assert(dll_entry_reads_as(s, j, es[j]));
        assert(upcase_all(es[j].name) != upcase_all(name));
    }
}

// ---------------------------------------------------------------------------------------------
// Building
// ---------------------------------------------------------------------------------------------

/// Build the section of a single assembly.
pub fn build_dll_redirection_section(redirects: &[DllRedirect]) -> (r: Result<Vec<u8>, NtStatus>)
    ensures
        match r {
            Ok(section) => dll_build(
                1,
                dll_entries(seq![DllRedirectAssembly { redirects }]),
            ) == Ok::<Seq<u8>, NtStatus>(section@),
            Err(e) => dll_build(1, dll_entries(seq![DllRedirectAssembly { redirects }])) == Err::<
                Seq<u8>,
                NtStatus,
            >(e),
        },
{
    let mut one: Vec<DllRedirectAssembly<'_>> = Vec::new();
    one.push(DllRedirectAssembly { redirects });
    assert(one@ =~= seq![DllRedirectAssembly { redirects }]);
    build_dll_redirection_section_for_assemblies(one.as_slice())
}

/// List the redirections of a roster in order.
fn collect_redirects<'a>(assemblies: &'a [DllRedirectAssembly<'a>]) -> (out: Vec<RedirectRef<'a>>)
    ensures
        out@.len() == dll_entries(assemblies@).len(),
        forall|k: int|
            0 <= k < out@.len() ==> entry_of(*(#[trigger] out@[k]).redirect, out@[k].roster as int)
                == dll_entries(assemblies@)[k],
{
    let mut out: Vec<RedirectRef<'a>> = Vec::new();
    let n: usize = assemblies.len();
    let mut a: usize = 0;
    while a < n
        invariant
            n == assemblies@.len(),
            a <= assemblies@.len(),
            out@.len() == dll_entries(assemblies@.take(a as int)).len(),
            forall|k: int|
                0 <= k < out@.len() ==> entry_of(
                    *(#[trigger] out@[k]).redirect,
                    out@[k].roster as int,
                ) == dll_entries(assemblies@.take(a as int))[k],
        decreases assemblies@.len() - a,
    {
        let redirects = assemblies[a].redirects;
        let ghost before = dll_entries(assemblies@.take(a as int));
        let ghost after = dll_entries(assemblies@.take(a + 1));
        assert(assemblies@.take(a + 1).drop_last() =~= assemblies@.take(a as int));
        let mut i: usize = 0;
        while i < redirects.len()
            invariant
                n == assemblies@.len(),
                a < n,
                redirects@ == assemblies@[a as int].redirects@,
                after == before + Seq::new(
                    redirects@.len(),
                    |i: int| entry_of(redirects@[i], a + 1),
                ),
                i <= redirects@.len(),
                out@.len() == before.len() + i,
                forall|k: int|
                    0 <= k < out@.len() ==> entry_of(
                        *(#[trigger] out@[k]).redirect,
                        out@[k].roster as int,
                    ) == after[k],
            decreases redirects@.len() - i,
        {
            out.push(RedirectRef { redirect: &redirects[i], roster: a as u64 + 1 });
            i += 1;
        }
        a += 1;
    }
    assert(assemblies@.take(a as int) =~= assemblies@);
    out
}

/// The bytes that a redirection takes, where it can be stored.
fn measure(redirect: &DllRedirect) -> (size: Option<u128>)
    ensures
        match size {
            Some(n) => storable(entry_of(*redirect, 0)) && n == payload_len(
                entry_of(*redirect, 0),
            ) && n <= 0x8_0000_0000_0000_0000,
            None => !storable(entry_of(*redirect, 0)),
        },
{
    if redirect.name.len() == 0 || has_unit(redirect.name.as_slice(), 0) {
        return None;
    }
    let name: u128 = (2 * redirect.name.len() as u128 + 5) / 4 * 4;
    match &redirect.load_from {
        None => Some(name + 20),
        Some(path) => {
            if has_unit(path.as_slice(), 0) {
                return None;
            }
            Some(name + 28 + (2 * path.len() as u128 + 3) / 4 * 4)
        },
    }
}

/// The flags of a redirection that loads from `path`.
fn flags_for(path: &[u16]) -> (flags: u32)
    ensures
        flags == path_flags(path@),
{
    let mut flags: u32 = 0;
    if has_unit(path, 0x25) {
        flags = DLL_REDIRECTION_PATH_EXPAND;
    }
    if path.len() > 0 && path[path.len() - 1] != 0x5c && path[path.len() - 1] != 0x2f {
        flags = flags + DLL_REDIRECTION_PATH_INCLUDES_BASE_NAME;
    }
    flags
}

/// Append the payload of a redirection that will be stored at `at`.
fn push_payload(out: &mut Vec<u8>, redirect: &DllRedirect, at: u32)
    requires
        at + payload_len(entry_of(*redirect, 0)) <= u32::MAX,
    ensures
        final(out)@ == old(out)@ + payload_bytes(entry_of(*redirect, 0), at as int),
{
    let ghost e = entry_of(*redirect, 0);
    let name_bytes: usize = 2 * redirect.name.len();
    let storage: usize = (name_bytes + 5) / 4 * 4;
    push_wide(out, redirect.name.as_slice());
    push_zeros(out, storage - name_bytes);
    let data: u32 = at + storage as u32;
    match &redirect.load_from {
        None => {
            let ws: [u32; 5] = [20, DLL_REDIRECTION_PATH_OMITS_ASSEMBLY_ROOT, 0, 0, 0];
            push_words(out, &ws);
            assert(ws@ =~= seq![20u32, DLL_REDIRECTION_PATH_OMITS_ASSEMBLY_ROOT, 0, 0, 0]);
        },
        Some(path) => {
            let path_bytes: usize = 2 * path.len();
            let path_storage: usize = (path_bytes + 3) / 4 * 4;
            let ws: [u32; 7] = [
                28,
                flags_for(path.as_slice()),
                path_storage as u32,
                1,
                data + 20,
                path_bytes as u32,
                data + 28,
            ];
            push_words(out, &ws);
            push_wide(out, path.as_slice());
            push_zeros(out, path_storage - path_bytes);
            assert(ws@ =~= seq![
                28u32,
                path_flags(path@),
                up4(2 * path@.len() as int) as u32,
                1,
                (data + 20) as u32,
                (2 * path@.len()) as u32,
                (data + 28) as u32,
            ]);
        },
    }
    assert(out@ =~= old(out)@ + payload_bytes(e, at as int));
}

/// Append the index row of a redirection whose payload is stored at `at`.
fn push_row(out: &mut Vec<u8>, redirect: &DllRedirect, roster: u32, at: u32)
    requires
        at + payload_len(entry_of(*redirect, 0)) <= u32::MAX,
    ensures
        final(out)@ == old(out)@ + row_bytes(entry_of(*redirect, roster as int), at as int),
{
    let name_bytes: usize = 2 * redirect.name.len();
    let storage: usize = (name_bytes + 5) / 4 * 4;
    let hash: u32 = match hash_unicode_string(
        redirect.name.as_slice(),
        true,
        HASH_STRING_ALGORITHM_X65599,
    ) {
        Some(hash) => hash,
        None => 0,
    };
    let ws: [u32; 6] = [hash, at, name_bytes as u32, at + storage as u32, 20, roster];
    push_words(out, &ws);
    assert(ws@ =~= seq![
        x65599(upcase_all(redirect.name@)) as u32,
        at as u32,
        (2 * redirect.name@.len()) as u32,
        (at + storage) as u32,
        20,
        roster as u32,
    ]);
}

/// Build the section of an assembly roster. Roster positions start at one, and empty assemblies
/// keep theirs.
pub fn build_dll_redirection_section_for_assemblies(assemblies: &[DllRedirectAssembly<'_>]) -> (r:
    Result<Vec<u8>, NtStatus>)
    ensures
        match r {
            Ok(section) => dll_build(assemblies@.len() as int, dll_entries(assemblies@)) == Ok::<
                Seq<u8>,
                NtStatus,
            >(section@),
            Err(e) => dll_build(assemblies@.len() as int, dll_entries(assemblies@)) == Err::<
                Seq<u8>,
                NtStatus,
            >(e),
        },
{
    let entries = collect_redirects(assemblies);
    let ghost es = dll_entries(assemblies@);
    if entries.len() > 0xffff_ffff {
        return Err(STATUS_NO_MEMORY);
    }
    let base: u128 = 44 + 24 * entries.len() as u128;
    let ghost base_int = row_at(es.len() as int);
    assert(es.take(0) =~= Seq::empty());
    if base > usize::MAX as u128 {
        proof {
            lemma_dll_size_error(base_int, es, 0);
        }
        return Err(STATUS_NO_MEMORY);
    }
    let mut total: u128 = base;
    let mut k: usize = 0;
    while k < entries.len()
        invariant
            k <= entries@.len(),
            entries@.len() == es.len(),
            es == dll_entries(assemblies@),
            es.len() <= u32::MAX,
            base_int == row_at(es.len() as int),
            forall|k: int|
                0 <= k < entries@.len() ==> entry_of(
                    *(#[trigger] entries@[k]).redirect,
                    entries@[k].roster as int,
                ) == es[k],
            total <= usize::MAX,
            dll_size(base_int, es.take(k as int)) == Ok::<int, NtStatus>(total as int),
        decreases entries@.len() - k,
    {
        assert(es.take(k + 1).drop_last() =~= es.take(k as int));
        let ghost e = entry_of(*entries@[k as int].redirect, entries@[k as int].roster as int);
        assert(e == es[k as int] && es.take(k + 1).last() == e);
        assert(payload_len(entry_of(*entries@[k as int].redirect, 0)) == payload_len(e));
        match measure(entries[k].redirect) {
            Some(size) => {
                total = total + size;
            },
            None => {
                proof {
                    lemma_dll_size_error(base_int, es, k + 1);
                }
                return Err(STATUS_SXS_INVALID_ACTCTXDATA_FORMAT);
            },
        }
        if total > usize::MAX as u128 {
            proof {
                lemma_dll_size_error(base_int, es, k + 1);
            }
            return Err(STATUS_NO_MEMORY);
        }
        k += 1;
    }
    assert(es.take(k as int) =~= es);
    if total > 0xffff_ffff || assemblies.len() > 0xffff_ffff {
        return Err(STATUS_NO_MEMORY);
    }
    proof {
        lemma_dll_size(base_int, es);
        lemma_entries_rosters(assemblies@);
    }
    let header: [u32; 11] = [
        STRSECTION_MAGIC,
        44,
        0,
        0,
        0,
        entries.len() as u32,
        44,
        0,
        0,
        0,
        0,
    ];
    let mut section: Vec<u8> = Vec::new();
    push_words(&mut section, &header);
    assert(header@ =~= seq![
        STRSECTION_MAGIC,
        44,
        0,
        0,
        0,
        es.len() as int as u32,
        44,
        0,
        0,
        0,
        0,
    ]);
    assert(section@ =~= string_header(es.len() as int));
    let mut payloads: Vec<u8> = Vec::new();
    assert(dll_rows(es).take(0) =~= Seq::empty());
    assert(dll_payloads(es).take(0) =~= Seq::empty());
    assert(section@ =~= string_header(es.len() as int) + flat(dll_rows(es).take(0)));
    let mut k: usize = 0;
    while k < entries.len()
        invariant
            k <= entries@.len(),
            entries@.len() == es.len(),
            es == dll_entries(assemblies@),
            assemblies@.len() <= u32::MAX,
            base == row_at(es.len() as int),
            base + payload_sum(es) <= u32::MAX,
            forall|k: int|
                0 <= k < entries@.len() ==> entry_of(
                    *(#[trigger] entries@[k]).redirect,
                    entries@[k].roster as int,
                ) == es[k],
            forall|k: int| 0 <= k < es.len() ==> 1 <= (#[trigger] es[k]).roster <= assemblies@.len(),
            section@ == string_header(es.len() as int) + flat(dll_rows(es).take(k as int)),
            payloads@ == flat(dll_payloads(es).take(k as int)),
        decreases entries@.len() - k,
    {
        proof {
            lemma_payload_sum(es, k as int);
            lemma_payload_flat(es, k as int);
            assert(es[k as int].roster <= u32::MAX);
            assert(dll_rows(es).take(k + 1).drop_last() =~= dll_rows(es).take(k as int));
            assert(dll_payloads(es).take(k + 1).drop_last() =~= dll_payloads(es).take(k as int));
        }
        let entry = &entries[k];
        assert(entry_of(*entry.redirect, entry.roster as int) == es[k as int]);
        let at: u32 = (base + payloads.len() as u128) as u32;
        assert(at == payload_at(es, k as int));
        push_row(&mut section, entry.redirect, entry.roster as u32, at);
        push_payload(&mut payloads, entry.redirect, at);
        assert(payload_bytes(entry_of(*entry.redirect, 0), at as int) == payload_bytes(
            es[k as int],
            at as int,
        ));
        assert(section@ =~= string_header(es.len() as int) + flat(dll_rows(es).take(k + 1)));
        k += 1;
    }
    assert(dll_rows(es).take(k as int) =~= dll_rows(es));
    assert(dll_payloads(es).take(k as int) =~= dll_payloads(es));
    push_bytes(&mut section, payloads.as_slice());
    Ok(section)
}

// ---------------------------------------------------------------------------------------------
// Validation and lookup
// ---------------------------------------------------------------------------------------------

/// Whether bit `flag` of `flags` is set.
fn test_flag(flags: u32, flag: u32) -> (set: bool)
    requires
        flag > 0,
    ensures
        set == has_flag(flags, flag),
{
    flags / flag % 2 == 1
}

/// Check the `n` path segments at `segments` against the stated total.
fn check_segments(section: &[u8], segments: u32, n: u32, total: u32) -> (ok: bool)
    requires
        section@.len() <= u32::MAX,
        segments + 8 * n <= section@.len(),
    ensures
        ok == {
            &&& segments_ok(section@, segments as int, n as int)
            &&& total == segment_total(section@, segments as int, n as int, false) || total
                == segment_total(section@, segments as int, n as int, true)
            &&& total == segment_total(section@, segments as int, n as int, true)
                ==> segments_padded_in(section@, segments as int, n as int)
        },
{
    let mut raw: u64 = 0;
    let mut padded: u64 = 0;
    let mut padded_in: bool = true;
    let mut j: u32 = 0;
    while j < n
        invariant
            j <= n,
            section@.len() <= u32::MAX,
            segments + 8 * n <= section@.len(),
            raw == segment_total(section@, segments as int, j as int, false),
            padded == segment_total(section@, segments as int, j as int, true),
            raw <= padded <= j * 0x1_0000_0003,
            segments_ok(section@, segments as int, j as int),
            padded_in == segments_padded_in(section@, segments as int, j as int),
        decreases n - j,
    {
        let row: usize = segments as usize + 8 * j as usize;
        let length: u64 = get_u32(section, row) as u64;
        let offset: u64 = get_u32(section, row + 4) as u64;
        assert(segment_offset(section@, segments as int, j as int) == offset);
        if !check_text(section, offset, length) {
            return false;
        }
        let storage: u64 = (length + 3) / 4 * 4;
        padded_in = padded_in && offset + storage <= section.len() as u64;
        raw = raw + length;
        padded = padded + storage;
        j += 1;
    }
    (total as u64 == raw || total as u64 == padded) && (total as u64 != padded || padded_in)
}

/// Check the redirection at `d`.
fn check_redirection(section: &[u8], d: usize) -> (ok: bool)
    requires
        section@.len() <= u32::MAX,
        d + 20 <= section@.len(),
    ensures
        ok == redirection_ok(section@, d as int),
{
    let size: u32 = get_u32(section, d);
    let flags: u32 = get_u32(section, d + 4);
    let total: u32 = get_u32(section, d + 8);
    let n: u32 = get_u32(section, d + 12);
    let segments: u32 = get_u32(section, d + 16);
    let omits: bool = test_flag(flags, DLL_REDIRECTION_PATH_OMITS_ASSEMBLY_ROOT);
    let includes: bool = test_flag(flags, DLL_REDIRECTION_PATH_INCLUDES_BASE_NAME);
    let expand: bool = test_flag(flags, DLL_REDIRECTION_PATH_EXPAND);
    if flags >= 16 || (omits && expand) {
        return false;
    }
    if n == 0 {
        return size == 20 && omits && !includes && total == 0 && segments == 0;
    }
    if size as u64 != 20 + 8 * n as u64 || d as u64 + size as u64 > section.len() as u64
        || segments as u64 + 8 * n as u64 > section.len() as u64 {
        return false;
    }
    check_segments(section, segments, n, total)
}

/// Check entry `i`.
fn check_entry(section: &[u8], i: u32) -> (ok: bool)
    requires
        section@.len() <= u32::MAX,
        row_at(i + 1) <= section@.len(),
    ensures
        ok == dll_entry_ok(section@, i as int),
{
    let r: usize = 44 + 24 * i as usize;
    let hash: u32 = get_u32(section, r);
    let name_offset: u64 = get_u32(section, r + 4) as u64;
    let name_length: u64 = get_u32(section, r + 8) as u64;
    let data_offset: u64 = get_u32(section, r + 12) as u64;
    if get_u32(section, r + 16) != 20 || get_u32(section, r + 20) == 0 || data_offset + 20
        > section.len() as u64 || !check_counted_text(section, name_offset, name_length) {
        return false;
    }
    hash == hash_section_name(section, name_offset as usize, name_length as usize)
        && check_redirection(section, data_offset as usize)
}

/// Validate a complete section before any lookup result is exposed.
pub fn validate_dll_redirection_section(section: &[u8]) -> (r: Result<
    DllRedirectionSection,
    NtStatus,
>)
    ensures
        r == (if dll_section_ok(section@) {
            Ok::<DllRedirectionSection, NtStatus>(
                DllRedirectionSection {
                    count: le32(section@, 20),
                    index_offset: 44,
                    length: section@.len() as u32,
                },
            )
        } else {
            Err(STATUS_SXS_INVALID_ACTCTXDATA_FORMAT)
        }),
{
    if section.len() > 0xffff_ffff || section.len() < 44 || get_u32(section, 0) != STRSECTION_MAGIC
        || get_u32(section, 4) != 44 || get_u32(section, 36) != 0 || get_u32(section, 40) != 0
        || get_u32(section, 24) != 44 {
        return Err(STATUS_SXS_INVALID_ACTCTXDATA_FORMAT);
    }
    let count: u32 = get_u32(section, 20);
    if 44 + 24 * count as u64 > section.len() as u64 {
        return Err(STATUS_SXS_INVALID_ACTCTXDATA_FORMAT);
    }
    let mut i: u32 = 0;
    while i < count
        invariant
            i <= count,
            count == le32(section@, 20),
            dll_header_ok(section@),
            forall|j: int| 0 <= j < i ==> #[trigger] dll_entry_ok(section@, j),
        decreases count - i,
    {
        if !check_entry(section, i) {
            return Err(STATUS_SXS_INVALID_ACTCTXDATA_FORMAT);
        }
        i += 1;
    }
    Ok(DllRedirectionSection { count, index_offset: 44, length: section.len() as u32 })
}

/// Find the first entry named `name`, where case does not count.
pub fn find_dll_redirection(section: &[u8], name: &[u16]) -> (r: Result<
    Option<DllRedirectionMatch>,
    NtStatus,
>)
    ensures
        match r {
            Err(e) => e == STATUS_SXS_INVALID_ACTCTXDATA_FORMAT && !dll_section_ok(section@),
            Ok(None) => dll_section_ok(section@) && forall|i: int|
                !#[trigger] dll_first_match(section@, name@, i),
            Ok(Some(m)) => dll_section_ok(section@) && exists|i: int|
                #[trigger] dll_first_match(section@, name@, i) && m == dll_match_of(section@, i),
        },
{
    let metadata = match validate_dll_redirection_section(section) {
        Ok(metadata) => metadata,
        Err(e) => return Err(e),
    };
    let hash: u32 = match hash_unicode_string(name, true, HASH_STRING_ALGORITHM_X65599) {
        Some(hash) => hash,
        None => return Err(STATUS_SXS_INVALID_ACTCTXDATA_FORMAT),
    };
    let mut i: u32 = 0;
    while i < metadata.count
        invariant
            i <= metadata.count,
            metadata.count == le32(section@, 20),
            dll_section_ok(section@),
            hash == x65599(upcase_all(name@)),
            forall|j: int| 0 <= j < i ==> #[trigger] dll_key(section@, j) != upcase_all(name@),
        decreases metadata.count - i,
    {
        assert(dll_entry_ok(section@, i as int));
        let r: usize = 44 + 24 * i as usize;
        if get_u32(section, r) == hash {
            let name_offset: u32 = get_u32(section, r + 4);
            let name_length: u32 = get_u32(section, r + 8);
            if section_name_eq(section, name_offset as usize, name_length as usize, name) {
                let data_offset: u32 = get_u32(section, r + 12);
                let found = DllRedirectionMatch {
                    index_offset: r as u32,
                    name_offset,
                    name_length,
                    data_offset,
                    data_length: get_u32(section, data_offset as usize),
                    assembly_roster_index: get_u32(section, r + 20),
                };
                assert(dll_first_match(section@, name@, i as int));
                assert(found == dll_match_of(section@, i as int));
                return Ok(Some(found));
            }
        }
        assert(dll_key(section@, i as int) != upcase_all(name@));
        i += 1;
    }
    Ok(None)
}

/// Read the text of `units` code units at `offset`.
fn read_text(section: &[u8], offset: usize, units: usize) -> (text: Vec<u16>)
    requires
        units == 0 || offset + 2 * units <= section@.len(),
    ensures
        text@ == wide_at(section@, offset as int, units as int),
{
    let end: usize = section.len();
    let mut text: Vec<u16> = Vec::new();
    let mut i: usize = 0;
    while i < units
        invariant
            end == section@.len(),
            i <= units,
            units == 0 || offset + 2 * units <= section@.len(),
            text@ == wide_at(section@, offset as int, i as int),
        decreases units - i,
    {
        text.push(get_u16(section, offset + 2 * i));
        i += 1;
        assert(text@ =~= wide_at(section@, offset as int, i as int));
    }
    assert(text@ =~= wide_at(section@, offset as int, units as int));
    text
}

/// Decode the redirection that a lookup reported.
pub fn decode_dll_redirection(section: &[u8], matched: DllRedirectionMatch) -> (r: Result<
    DllRedirectionData,
    NtStatus,
>)
    ensures
        match r {
            Err(e) => e == STATUS_SXS_INVALID_ACTCTXDATA_FORMAT && !dll_decodable(section@, matched),
            Ok(data) => {
                let d = matched.data_offset as int;
                let segments = le32(section@, d + 16) as int;
                &&& dll_decodable(section@, matched)
                &&& data.flags == le32(section@, d + 4)
                &&& data.path_segments@.len() == le32(section@, d + 12)
                &&& forall|j: int|
                    0 <= j < data.path_segments@.len() ==> (#[trigger] data.path_segments@[j])@
                        == wide_at(
                        section@,
                        segment_offset(section@, segments, j),
                        segment_length(section@, segments, j) / 2,
                    )
            },
        },
{
    if validate_dll_redirection_section(section).is_err() {
        return Err(STATUS_SXS_INVALID_ACTCTXDATA_FORMAT);
    }
    if matched.data_offset as u64 + 20 > section.len() as u64 {
        return Err(STATUS_SXS_INVALID_ACTCTXDATA_FORMAT);
    }
    let d: usize = matched.data_offset as usize;
    if get_u32(section, d) != matched.data_length {
        return Err(STATUS_SXS_INVALID_ACTCTXDATA_FORMAT);
    }
    let flags: u32 = get_u32(section, d + 4);
    let n: u32 = get_u32(section, d + 12);
    let segments: u64 = get_u32(section, d + 16) as u64;
    let mut path_segments: Vec<Vec<u16>> = Vec::new();
    let mut j: u32 = 0;
    while j < n
        invariant
            j <= n,
            d == matched.data_offset,
            n == le32(section@, d + 12),
            segments == le32(section@, d + 16),
            segments <= u32::MAX,
            path_segments@.len() == j,
            forall|i: int|
                0 <= i < j ==> #[trigger] segment_readable(section@, segments as int, i),
            forall|i: int|
                0 <= i < j ==> (#[trigger] path_segments@[i])@ == wide_at(
                    section@,
                    segment_offset(section@, segments as int, i),
                    segment_length(section@, segments as int, i) / 2,
                ),
        decreases n - j,
    {
        let row: u64 = segments + 8 * j as u64;
        if row + 8 > section.len() as u64 {
            assert(!segment_readable(section@, segments as int, j as int));
            return Err(STATUS_SXS_INVALID_ACTCTXDATA_FORMAT);
        }
        let length: u32 = get_u32(section, row as usize);
        let offset: u32 = get_u32(section, row as usize + 4);
        let units: u32 = length / 2;
        if units > 0 && offset as u64 + 2 * units as u64 > section.len() as u64 {
            assert(!segment_readable(section@, segments as int, j as int));
            return Err(STATUS_SXS_INVALID_ACTCTXDATA_FORMAT);
        }
        assert(segment_readable(section@, segments as int, j as int));
        path_segments.push(read_text(section, offset as usize, units as usize));
        j += 1;
    }
    Ok(DllRedirectionData { flags, path_segments })
}

} // verus!
