//! CLR-surrogate GUID sections.

use vstd::prelude::*;

use super::{
    check_counted_text, counted_text_ok, lemma_layout, lemma_layout_entry, lemma_sum_take,
    read_guid, sum_of, GUIDSECTION_MAGIC, STATUS_NO_MEMORY, STATUS_SXS_INVALID_ACTCTXDATA_FORMAT,
};
use crate::activation_manifest::ManifestClrSurrogate;
use crate::bytes::{
    flat, get_u32, has_unit, le16, le32, lemma_sub_le32, lemma_sub_sub, lemma_sub_wide,
    lemma_wide_bytes, lemma_wide_bytes_len, lemma_words, lemma_words_len, push_bytes, push_wide,
    push_words, push_zeros, up4, wide_at, wide_bytes, words, zero_bytes,
};
use crate::guid::Guid;
use crate::NtStatus;

verus! {

/// The surrogates of one assembly of the roster.
#[derive(Clone, Copy, Debug, PartialEq, Eq)]
pub struct ClrSurrogateAssembly<'a> {
    pub surrogates: &'a [ManifestClrSurrogate],
}

/// Where the entry of a class identifier was found.
#[derive(Clone, Copy, Debug, PartialEq, Eq)]
pub struct ClrSurrogateMatch {
    pub data_offset: u32,
    /// Length of the payload without its padding.
    pub data_length: u32,
    pub assembly_roster_index: u32,
}

/// One surrogate together with the one-based roster position of its assembly.
struct SurrogateRef<'a> {
    surrogate: &'a ManifestClrSurrogate,
    roster: u64,
}

/// One entry of a section: a class identifier, its name and runtime version, and its assembly.
pub struct SurrogateEntry {
    pub clsid: Seq<u8>,
    pub name: Seq<u16>,
    pub version: Option<Seq<u16>>,
    pub roster: int,
}

// ---------------------------------------------------------------------------------------------
// Section contents
// ---------------------------------------------------------------------------------------------

/// Where index row `i` of a GUID section starts.
pub open spec fn guid_row_at(i: int) -> int {
    40 + 28 * i
}

/// The sixteen bytes of the GUID at `at`.
pub open spec fn guid_at(s: Seq<u8>, at: int) -> Seq<u8> {
    s.subrange(at, at + 16)
}

/// Where the entry behind entry `i - 1` has to start: entries stand one behind the other.
pub open spec fn surrogate_start(s: Seq<u8>, i: int) -> int {
    if i == 0 {
        guid_row_at(le32(s, 20) as int)
    } else {
        le32(s, guid_row_at(i - 1) + 16) + le32(s, guid_row_at(i - 1) + 20)
    }
}

/// Bytes that a runtime version of `length` bytes takes, with its NUL; none when it is empty.
pub open spec fn version_storage(length: int) -> int {
    if length == 0 {
        0
    } else {
        length + 2
    }
}

/// Length of the payload at `d` without its padding.
pub open spec fn surrogate_length(s: Seq<u8>, d: int) -> int {
    40 + version_storage(le32(s, d + 28) as int) + le32(s, d + 36) + 2
}

/// Whether a well-formed surrogate of `stored` bytes stands at `d` for the identifier `clsid`. A
/// surrogate without a version may have room for an empty one.
pub open spec fn surrogate_ok(s: Seq<u8>, d: int, stored: int, clsid: Seq<u8>) -> bool {
    let version_length = le32(s, d + 28) as int;
    let name_at = 40 + version_storage(version_length);
    &&& 40 <= stored
    &&& stored % 4 == 0
    &&& d + stored <= s.len()
    &&& le32(s, d) == 40
    &&& le32(s, d + 4) == 0
    &&& guid_at(s, d + 8) == clsid
    &&& if version_length == 0 {
        le32(s, d + 24) == 0
    } else {
        le32(s, d + 24) == 40 && counted_text_ok(s, d + 40, version_length)
    }
    &&& le32(s, d + 32) == name_at
    &&& counted_text_ok(s, d + name_at, le32(s, d + 36) as int)
    &&& stored == up4(surrogate_length(s, d)) || (version_length == 0 && stored == up4(
        surrogate_length(s, d) + 2,
    ))
}

/// Whether entry `i` is well formed.
pub open spec fn surrogate_entry_ok(s: Seq<u8>, i: int) -> bool {
    let r = guid_row_at(i);
    &&& le32(s, r + 16) == surrogate_start(s, i)
    &&& le32(s, r + 24) != 0
    &&& surrogate_ok(s, le32(s, r + 16) as int, le32(s, r + 20) as int, guid_at(s, r))
}

/// Whether the header of a section is well formed and its index rows fit.
pub open spec fn surrogate_header_ok(s: Seq<u8>) -> bool {
    &&& 40 <= s.len()
    &&& le32(s, 0) == GUIDSECTION_MAGIC
    &&& le32(s, 4) == 40
    &&& le32(s, 8) == 0
    &&& le32(s, 12) == 0
    &&& le32(s, 16) == 0
    &&& le32(s, 24) == 40
    &&& le32(s, 28) == 0
    &&& le32(s, 32) == 0
    &&& le32(s, 36) == 0
    &&& guid_row_at(le32(s, 20) as int) <= s.len()
}

/// Whether entry `i` is the first of the section with the identifier `clsid`.
pub open spec fn surrogate_first_match(s: Seq<u8>, clsid: Seq<u8>, i: int) -> bool {
    &&& 0 <= i < le32(s, 20)
    &&& guid_at(s, guid_row_at(i)) == clsid
    &&& forall|j: int| 0 <= j < i ==> guid_at(s, #[trigger] guid_row_at(j)) != clsid
}

/// Whether a section is well formed and a lookup of `clsid` can be reported: the length of the
/// entry that is found fits 32 bits.
pub open spec fn surrogate_section_ok(s: Seq<u8>, clsid: Seq<u8>) -> bool {
    &&& surrogate_header_ok(s)
    &&& forall|i: int| 0 <= i < le32(s, 20) ==> #[trigger] surrogate_entry_ok(s, i)
    &&& surrogate_start(s, le32(s, 20) as int) == s.len()
    &&& forall|i: int| #[trigger]
        surrogate_first_match(s, clsid, i) ==> surrogate_length(
            s,
            le32(s, guid_row_at(i) + 16) as int,
        ) <= u32::MAX
}

/// What a lookup reports of entry `i`.
pub open spec fn surrogate_match_of(s: Seq<u8>, i: int) -> ClrSurrogateMatch {
    let d = le32(s, guid_row_at(i) + 16);
    ClrSurrogateMatch {
        data_offset: d,
        data_length: surrogate_length(s, d as int) as u32,
        assembly_roster_index: le32(s, guid_row_at(i) + 24),
    }
}

// ---------------------------------------------------------------------------------------------
// Construction
// ---------------------------------------------------------------------------------------------

/// The runtime version of a surrogate.
pub open spec fn version_of(surrogate: ManifestClrSurrogate) -> Option<Seq<u16>> {
    match surrogate.runtime_version {
        Some(version) => Some(version@),
        None => None,
    }
}

/// The entry of one surrogate.
pub open spec fn surrogate_entry_of(surrogate: ManifestClrSurrogate, roster: int) -> SurrogateEntry {
    SurrogateEntry {
        clsid: surrogate.clsid.windows_bytes(),
        name: surrogate.name@,
        version: version_of(surrogate),
        roster,
    }
}

/// The entries of a roster in order; roster positions start at one and empty assemblies keep
/// theirs.
pub open spec fn surrogate_entries(assemblies: Seq<ClrSurrogateAssembly<'_>>) -> Seq<SurrogateEntry>
    decreases assemblies.len(),
{
    if assemblies.len() == 0 {
        Seq::empty()
    } else {
        surrogate_entries(assemblies.drop_last()) + Seq::new(
            assemblies.last().surrogates@.len(),
            |i: int| surrogate_entry_of(assemblies.last().surrogates@[i], assemblies.len() as int),
        )
    }
}

/// Whether an entry can be stored: a nonempty name, and no NUL in name or version.
pub open spec fn surrogate_storable(e: SurrogateEntry) -> bool {
    &&& e.name.len() > 0
    &&& !e.name.contains(0)
    &&& e.version matches Some(version) ==> !version.contains(0)
}

/// The stored version of an entry: empty where it has none.
pub open spec fn stored_version(e: SurrogateEntry) -> Seq<u16> {
    match e.version {
        Some(version) => version,
        None => Seq::empty(),
    }
}

/// Length of the payload of an entry without its padding.
pub open spec fn surrogate_data_length(e: SurrogateEntry) -> int {
    40 + version_storage(2 * stored_version(e).len() as int) + 2 * e.name.len() + 2
}

/// Bytes that the payload of an entry takes. An empty version takes the room of its NUL.
pub open spec fn surrogate_len(e: SurrogateEntry) -> int {
    up4(
        surrogate_data_length(e) + if e.version matches Some(version) && version.len() == 0 {
            2int
        } else {
            0
        },
    )
}

/// Bytes that the payload of each entry takes.
pub open spec fn surrogate_lens(es: Seq<SurrogateEntry>) -> Seq<int> {
    Seq::new(es.len(), |k: int| surrogate_len(es[k]))
}

/// Where the payload of entry `k` starts.
pub open spec fn surrogate_at(es: Seq<SurrogateEntry>, k: int) -> int {
    guid_row_at(es.len() as int) + sum_of(surrogate_lens(es).take(k))
}

/// The version text of an entry as it is stored, with its NUL.
pub open spec fn version_bytes(e: SurrogateEntry) -> Seq<u8> {
    if stored_version(e).len() == 0 {
        Seq::empty()
    } else {
        wide_bytes(stored_version(e)) + zero_bytes(2)
    }
}

/// The words behind the identifier of a payload.
pub open spec fn surrogate_words(e: SurrogateEntry) -> Seq<u32> {
    let version_length = 2 * stored_version(e).len() as int;
    seq![
        (if version_length == 0 {
            0int
        } else {
            40
        }) as u32,
        version_length as u32,
        (40 + version_storage(version_length)) as u32,
        (2 * e.name.len()) as u32,
    ]
}

/// The payload of an entry.
pub open spec fn surrogate_payload_bytes(e: SurrogateEntry) -> Seq<u8> {
    words(seq![40u32, 0]) + e.clsid + words(surrogate_words(e)) + version_bytes(e) + wide_bytes(
        e.name,
    ) + zero_bytes(2 + surrogate_len(e) - surrogate_data_length(e))
}

/// The index row of an entry whose payload is stored at `at`.
pub open spec fn surrogate_row_bytes(e: SurrogateEntry, at: int) -> Seq<u8> {
    e.clsid + words(seq![at as u32, surrogate_len(e) as u32, e.roster as u32])
}

/// The index rows of a section.
pub open spec fn surrogate_rows(es: Seq<SurrogateEntry>) -> Seq<Seq<u8>> {
    Seq::new(es.len(), |k: int| surrogate_row_bytes(es[k], surrogate_at(es, k)))
}

/// The payloads of a section.
pub open spec fn surrogate_payloads(es: Seq<SurrogateEntry>) -> Seq<Seq<u8>> {
    Seq::new(es.len(), |k: int| surrogate_payload_bytes(es[k]))
}

/// The header of a GUID section with `count` entries.
pub open spec fn guid_header(count: int) -> Seq<u8> {
    words(seq![GUIDSECTION_MAGIC, 40, 0, 0, 0, count as u32, 40, 0, 0, 0])
}

/// The section that holds the entries `es`.
pub open spec fn surrogate_section(es: Seq<SurrogateEntry>) -> Seq<u8> {
    guid_header(es.len() as int) + flat(surrogate_rows(es)) + flat(surrogate_payloads(es))
}

/// The size that `es` take behind `base` bytes, or why they cannot be stored. Entries are looked
/// at in order: one that cannot be stored stops the count, and so does a size out of range.
pub open spec fn surrogate_size(base: int, es: Seq<SurrogateEntry>) -> Result<int, NtStatus>
    decreases es.len(),
{
    if es.len() == 0 {
        if base > usize::MAX {
            Err(STATUS_NO_MEMORY)
        } else {
            Ok(base)
        }
    } else {
        match surrogate_size(base, es.drop_last()) {
            Err(e) => Err(e),
            Ok(size) => if !surrogate_storable(es.last()) {
                Err(STATUS_SXS_INVALID_ACTCTXDATA_FORMAT)
            } else if size + surrogate_len(es.last()) > usize::MAX {
                Err(STATUS_NO_MEMORY)
            } else {
                Ok(size + surrogate_len(es.last()))
            },
        }
    }
}

/// What building a section for `assemblies` assemblies with the entries `es` gives.
pub open spec fn surrogate_build(assemblies: int, es: Seq<SurrogateEntry>) -> Result<
    Seq<u8>,
    NtStatus,
> {
    match surrogate_size(guid_row_at(es.len() as int), es) {
        Err(e) => Err(e),
        Ok(size) => if size > u32::MAX || assemblies > u32::MAX {
            Err(STATUS_NO_MEMORY)
        } else {
            Ok(surrogate_section(es))
        },
    }
}

// ---------------------------------------------------------------------------------------------
// Lemmas
// ---------------------------------------------------------------------------------------------

proof fn lemma_surrogate_size(base: int, es: Seq<SurrogateEntry>)
    ensures
        surrogate_size(base, es) matches Ok(size) ==> size == base + sum_of(surrogate_lens(es))
            && forall|k: int| 0 <= k < es.len() ==> surrogate_storable(#[trigger] es[k]),
    decreases es.len(),
{
    if es.len() > 0 {
        lemma_surrogate_size(base, es.drop_last());
        assert(surrogate_lens(es).drop_last() =~= surrogate_lens(es.drop_last()));
        assert forall|k: int|
            0 <= k < es.len() && surrogate_size(base, es) is Ok implies surrogate_storable(
            #[trigger] es[k],
        ) by {
            if k < es.len() - 1 {
                assert(es.drop_last()[k] == es[k]);
            }
        }
    }
}

/// An error met on a prefix of the entries is the error met on all of them.
proof fn lemma_surrogate_size_error(base: int, es: Seq<SurrogateEntry>, k: int)
    requires
        0 <= k <= es.len(),
        surrogate_size(base, es.take(k)) is Err,
    ensures
        surrogate_size(base, es) == surrogate_size(base, es.take(k)),
    decreases es.len(),
{
    if k < es.len() {
        assert(es.drop_last().take(k) =~= es.take(k));
        lemma_surrogate_size_error(base, es.drop_last(), k);
    } else {
        assert(es.take(k) =~= es);
    }
}

proof fn lemma_surrogate_piece_len(e: SurrogateEntry, at: int)
    requires
        e.clsid.len() == 16,
    ensures
        surrogate_payload_bytes(e).len() == surrogate_len(e),
        surrogate_row_bytes(e, at).len() == 28,
{
    broadcast use lemma_words_len, lemma_wide_bytes_len;

}

proof fn lemma_surrogate_pieces(es: Seq<SurrogateEntry>)
    requires
        forall|k: int| 0 <= k < es.len() ==> (#[trigger] es[k]).clsid.len() == 16,
    ensures
        forall|k: int| 0 <= k < es.len() ==> (#[trigger] surrogate_rows(es)[k]).len() == 28,
        forall|k: int|
            0 <= k < es.len() ==> (#[trigger] surrogate_payloads(es)[k]).len() == surrogate_lens(
                es,
            )[k],
        guid_header(es.len() as int).len() == 40,
        forall|k: int| 0 <= k < es.len() ==> 0 <= #[trigger] surrogate_lens(es)[k],
{
    broadcast use lemma_words_len;

    assert forall|k: int| 0 <= k < es.len() implies (#[trigger] surrogate_rows(es)[k]).len()
        == 28 by {
        assert(es[k].clsid.len() == 16);
        lemma_surrogate_piece_len(es[k], surrogate_at(es, k));
    }
    assert forall|k: int| 0 <= k < es.len() implies (#[trigger] surrogate_payloads(es)[k]).len()
        == surrogate_lens(es)[k] by {
        assert(es[k].clsid.len() == 16);
        lemma_surrogate_piece_len(es[k], 0);
    }
}

proof fn lemma_surrogate_header_words(s: Seq<u8>, count: int)
    requires
        40 <= s.len(),
        s.subrange(0, 40) == guid_header(count),
        0 <= count <= u32::MAX,
    ensures
        le32(s, 20) == count,
        guid_row_at(count) <= s.len() ==> surrogate_header_ok(s),
{
    broadcast use lemma_words_len;

    let ws = seq![GUIDSECTION_MAGIC, 40, 0, 0, 0, count as u32, 40, 0, 0, 0];
    let header = guid_header(count);
    lemma_words(ws, 0);
    lemma_words(ws, 1);
    lemma_words(ws, 2);
    lemma_words(ws, 3);
    lemma_words(ws, 4);
    lemma_words(ws, 5);
    lemma_words(ws, 6);
    lemma_words(ws, 7);
    lemma_words(ws, 8);
    lemma_words(ws, 9);
    lemma_sub_le32(s, 0, header, 0);
    lemma_sub_le32(s, 0, header, 4);
    lemma_sub_le32(s, 0, header, 8);
    lemma_sub_le32(s, 0, header, 12);
    lemma_sub_le32(s, 0, header, 16);
    lemma_sub_le32(s, 0, header, 20);
    lemma_sub_le32(s, 0, header, 24);
    lemma_sub_le32(s, 0, header, 28);
    lemma_sub_le32(s, 0, header, 32);
    lemma_sub_le32(s, 0, header, 36);
}

/// An index row as it reads in the section.
proof fn lemma_surrogate_row(s: Seq<u8>, r: int, e: SurrogateEntry, at: int)
    requires
        0 <= r,
        r + 28 <= s.len(),
        s.subrange(r, r + 28) == surrogate_row_bytes(e, at),
        e.clsid.len() == 16,
        0 <= at,
        at + surrogate_len(e) <= u32::MAX,
        0 <= e.roster <= u32::MAX,
    ensures
        guid_at(s, r) == e.clsid,
        le32(s, r + 16) == at,
        le32(s, r + 20) == surrogate_len(e),
        le32(s, r + 24) == e.roster,
{
    broadcast use lemma_words_len;

    let row = surrogate_row_bytes(e, at);
    let ws = seq![at as u32, surrogate_len(e) as u32, e.roster as u32];
    assert(row.subrange(0, 16) =~= e.clsid);
    assert(row.subrange(16, 28) =~= words(ws));
    lemma_sub_sub(s, r, row, 0, e.clsid);
    lemma_sub_sub(s, r, row, 16, words(ws));
    lemma_words(ws, 0);
    lemma_words(ws, 1);
    lemma_words(ws, 2);
    lemma_sub_le32(s, r + 16, words(ws), 0);
    lemma_sub_le32(s, r + 16, words(ws), 4);
    lemma_sub_le32(s, r + 16, words(ws), 8);
}

/// A text that stands in the section, followed by two zero bytes.
proof fn lemma_surrogate_text(s: Seq<u8>, at: int, text: Seq<u16>)
    requires
        0 <= at,
        at + 2 * text.len() + 2 <= s.len(),
        s.subrange(at, at + 2 * text.len()) == wide_bytes(text),
        s[at + 2 * text.len()] == 0,
        s[at + 2 * text.len() + 1] == 0,
        text.len() > 0,
        !text.contains(0),
    ensures
        counted_text_ok(s, at, 2 * text.len() as int),
        wide_at(s, at, text.len() as int) == text,
{
    broadcast use lemma_wide_bytes_len;

    lemma_wide_bytes(text);
    lemma_sub_wide(s, at, wide_bytes(text), 0, text.len() as int);
    assert(le16(s, at + 2 * text.len()) == 0) by {
        reveal(le16);
    }
    assert((2 * text.len() as int) / 2 == text.len());
}

/// The payload of an entry as it reads in the section.
proof fn lemma_surrogate_payload(s: Seq<u8>, d: int, e: SurrogateEntry)
    requires
        0 <= d,
        d + surrogate_len(e) <= s.len(),
        s.len() <= u32::MAX,
        s.subrange(d, d + surrogate_len(e)) == surrogate_payload_bytes(e),
        e.clsid.len() == 16,
        surrogate_storable(e),
    ensures
        surrogate_ok(s, d, surrogate_len(e), e.clsid),
        surrogate_length(s, d) == surrogate_data_length(e),
        le32(s, d + 28) == 2 * stored_version(e).len(),
        le32(s, d + 36) == 2 * e.name.len(),
        wide_at(s, d + 40, stored_version(e).len() as int) == stored_version(e),
        wide_at(
            s,
            d + 40 + version_storage(2 * stored_version(e).len() as int),
            e.name.len() as int,
        ) == e.name,
{
    broadcast use lemma_words_len, lemma_wide_bytes_len;

    let p = surrogate_payload_bytes(e);
    let version = stored_version(e);
    let v = 2 * version.len() as int;
    let n = 2 * e.name.len() as int;
    let name_at = 40 + version_storage(v);
    let whole = s.subrange(d, d + surrogate_len(e));
    lemma_surrogate_piece_len(e, 0);
    let first = seq![40u32, 0];
    let second = surrogate_words(e);
    assert(p.subrange(0, 8) =~= words(first));
    assert(p.subrange(8, 24) =~= e.clsid);
    assert(p.subrange(24, 40) =~= words(second));
    lemma_sub_sub(s, d, p, 0, words(first));
    lemma_sub_sub(s, d, p, 8, e.clsid);
    lemma_sub_sub(s, d, p, 24, words(second));
    lemma_words(first, 0);
    lemma_words(first, 1);
    lemma_sub_le32(s, d, words(first), 0);
    lemma_sub_le32(s, d, words(first), 4);
    lemma_words(second, 0);
    lemma_words(second, 1);
    lemma_words(second, 2);
    lemma_words(second, 3);
    lemma_sub_le32(s, d + 24, words(second), 0);
    lemma_sub_le32(s, d + 24, words(second), 4);
    lemma_sub_le32(s, d + 24, words(second), 8);
    lemma_sub_le32(s, d + 24, words(second), 12);
    if version.len() > 0 {
        assert(p.subrange(40, 40 + v) =~= wide_bytes(version));
        lemma_sub_sub(s, d, p, 40, wide_bytes(version));
        assert(whole[40 + v] == 0 && whole[40 + v + 1] == 0);
        lemma_surrogate_text(s, d + 40, version);
    } else {
        assert(wide_at(s, d + 40, 0) =~= version);
    }
    assert(p.subrange(name_at, name_at + n) =~= wide_bytes(e.name));
    lemma_sub_sub(s, d, p, name_at, wide_bytes(e.name));
    assert(whole[name_at + n] == 0 && whole[name_at + n + 1] == 0);
    lemma_surrogate_text(s, d + name_at, e.name);
}

/// Whether entry `k` of a section reads as `e`: its identifier, roster position, version and name.
pub open spec fn surrogate_entry_reads_as(s: Seq<u8>, k: int, e: SurrogateEntry) -> bool {
    let m = surrogate_match_of(s, k);
    let d = m.data_offset as int;
    &&& guid_at(s, guid_row_at(k)) == e.clsid
    &&& m.assembly_roster_index == e.roster
    &&& m.data_length == surrogate_data_length(e)
    &&& wide_at(s, d + 40, le32(s, d + 28) as int / 2) == stored_version(e)
    &&& wide_at(s, d + le32(s, d + 32), le32(s, d + 36) as int / 2) == e.name
}

/// A section that was built is well formed, and each of its entries reads back as it was given.
pub proof fn built_surrogate_section_reads_back(
    assemblies: int,
    es: Seq<SurrogateEntry>,
    clsid: Seq<u8>,
)
    requires
        surrogate_build(assemblies, es) is Ok,
        forall|k: int|
            0 <= k < es.len() ==> 1 <= (#[trigger] es[k]).roster <= assemblies
                && es[k].clsid.len() == 16,
    ensures
        surrogate_section_ok(surrogate_section(es), clsid),
        le32(surrogate_section(es), 20) == es.len(),
        forall|k: int|
            0 <= k < es.len() ==> #[trigger] surrogate_entry_reads_as(
                surrogate_section(es),
                k,
                es[k],
            ),
{
    let s = surrogate_section(es);
    let n = es.len() as int;
    let lens = surrogate_lens(es);
    let header = guid_header(n);
    lemma_surrogate_size(guid_row_at(n), es);
    lemma_surrogate_pieces(es);
    lemma_layout(header, surrogate_rows(es), 28, surrogate_payloads(es), lens);
    if n > 0 {
        lemma_layout_entry(header, surrogate_rows(es), 28, surrogate_payloads(es), lens, n - 1);
    }
    lemma_surrogate_header_words(s, n);
    assert forall|k: int| 0 <= k < n implies #[trigger] surrogate_entry_ok(s, k)
        && surrogate_entry_reads_as(s, k, es[k]) && surrogate_start(s, k + 1) == surrogate_at(es, k)
        + surrogate_len(es[k]) && surrogate_length(s, le32(s, guid_row_at(k) + 16) as int)
        <= u32::MAX by {
        let e = es[k];
        let at = surrogate_at(es, k);
        assert(surrogate_storable(e));
        lemma_layout_entry(header, surrogate_rows(es), 28, surrogate_payloads(es), lens, k);
        lemma_surrogate_row(s, guid_row_at(k), e, at);
        lemma_surrogate_payload(s, at, e);
        assert((2 * e.name.len() as int) / 2 == e.name.len());
        assert((2 * stored_version(e).len() as int) / 2 == stored_version(e).len());
        if k > 0 {
            let f = es[k - 1];
            let before = surrogate_at(es, k - 1);
            assert(surrogate_storable(f));
            lemma_layout_entry(header, surrogate_rows(es), 28, surrogate_payloads(es), lens, k - 1);
            lemma_surrogate_row(s, guid_row_at(k - 1), f, before);
            lemma_sum_take(lens, k - 1);
        } else {
            assert(lens.take(0) =~= Seq::empty());
        }
    }
    assert forall|k: int| 0 <= k < n implies #[trigger] surrogate_entry_reads_as(s, k, es[k]) by {
        assert(surrogate_entry_ok(s, k));
    }
    assert forall|i: int| #[trigger]
        surrogate_first_match(s, clsid, i) implies surrogate_length(
        s,
        le32(s, guid_row_at(i) + 16) as int,
    ) <= u32::MAX by {
        assert(surrogate_entry_ok(s, i));
    }
    if n > 0 {
        assert(surrogate_entry_ok(s, n - 1));
        lemma_sum_take(lens, n - 1);
        assert(lens.take(n) =~= lens);
    }
}

proof fn lemma_surrogate_entries(assemblies: Seq<ClrSurrogateAssembly<'_>>)
    ensures
        forall|k: int|
            0 <= k < surrogate_entries(assemblies).len() ==> {
                &&& 1 <= (#[trigger] surrogate_entries(assemblies)[k]).roster <= assemblies.len()
                &&& surrogate_entries(assemblies)[k].clsid.len() == 16
            },
    decreases assemblies.len(),
{
    if assemblies.len() > 0 {
        lemma_surrogate_entries(assemblies.drop_last());
    }
}

/// Looking an identifier up in a section built from a roster finds its first entry, in assembly
/// order.
pub proof fn built_surrogate_section_finds_first(
    assemblies: Seq<ClrSurrogateAssembly<'_>>,
    clsid: Seq<u8>,
    k: int,
)
    requires
        surrogate_build(assemblies.len() as int, surrogate_entries(assemblies)) is Ok,
        0 <= k < surrogate_entries(assemblies).len(),
        surrogate_entries(assemblies)[k].clsid == clsid,
        forall|j: int| 0 <= j < k ==> (#[trigger] surrogate_entries(assemblies)[j]).clsid != clsid,
    ensures
        surrogate_first_match(surrogate_section(surrogate_entries(assemblies)), clsid, k),
{
    let es = surrogate_entries(assemblies);
    let s = surrogate_section(es);
    lemma_surrogate_entries(assemblies);
    built_surrogate_section_reads_back(assemblies.len() as int, es, clsid);
    assert(surrogate_entry_reads_as(s, k, es[k]));
    assert forall|j: int| 0 <= j < k implies guid_at(s, #[trigger] guid_row_at(j)) != clsid by {
        assert(surrogate_entry_reads_as(s, j, es[j]));
        assert(es[j].clsid != clsid);
    }
}

// ---------------------------------------------------------------------------------------------
// Building
// ---------------------------------------------------------------------------------------------

/// List the surrogates of a roster in order.
fn collect_surrogates<'a>(assemblies: &'a [ClrSurrogateAssembly<'a>]) -> (out: Vec<
    SurrogateRef<'a>,
>)
    ensures
        out@.len() == surrogate_entries(assemblies@).len(),
        forall|k: int|
            0 <= k < out@.len() ==> surrogate_entry_of(
                *(#[trigger] out@[k]).surrogate,
                out@[k].roster as int,
            ) == surrogate_entries(assemblies@)[k],
{
    let mut out: Vec<SurrogateRef<'a>> = Vec::new();
    let n: usize = assemblies.len();
    let mut a: usize = 0;
    while a < n
        invariant
            n == assemblies@.len(),
            a <= assemblies@.len(),
            out@.len() == surrogate_entries(assemblies@.take(a as int)).len(),
            forall|k: int|
                0 <= k < out@.len() ==> surrogate_entry_of(
                    *(#[trigger] out@[k]).surrogate,
                    out@[k].roster as int,
                ) == surrogate_entries(assemblies@.take(a as int))[k],
        decreases assemblies@.len() - a,
    {
        let surrogates = assemblies[a].surrogates;
        let ghost before = surrogate_entries(assemblies@.take(a as int));
        let ghost after = surrogate_entries(assemblies@.take(a + 1));
        assert(assemblies@.take(a + 1).drop_last() =~= assemblies@.take(a as int));
        let mut i: usize = 0;
        while i < surrogates.len()
            invariant
                n == assemblies@.len(),
                a < n,
                surrogates@ == assemblies@[a as int].surrogates@,
                after == before + Seq::new(
                    surrogates@.len(),
                    |i: int| surrogate_entry_of(surrogates@[i], a + 1),
                ),
                i <= surrogates@.len(),
                out@.len() == before.len() + i,
                forall|k: int|
                    0 <= k < out@.len() ==> surrogate_entry_of(
                        *(#[trigger] out@[k]).surrogate,
                        out@[k].roster as int,
                    ) == after[k],
            decreases surrogates@.len() - i,
        {
            out.push(SurrogateRef { surrogate: &surrogates[i], roster: a as u64 + 1 });
            i += 1;
        }
        a += 1;
    }
    assert(assemblies@.take(a as int) =~= assemblies@);
    out
}

/// Whether a surrogate can be stored.
fn validate_clr_surrogate(surrogate: &ManifestClrSurrogate) -> (ok: bool)
    ensures
        ok == surrogate_storable(surrogate_entry_of(*surrogate, 0)),
{
    if surrogate.name.len() == 0 || has_unit(surrogate.name.as_slice(), 0) {
        return false;
    }
    match &surrogate.runtime_version {
        Some(version) => !has_unit(version.as_slice(), 0),
        None => true,
    }
}

/// Length of the payload of a surrogate without its padding.
fn clr_surrogate_data_length(surrogate: &ManifestClrSurrogate) -> (length: u128)
    ensures
        length == surrogate_data_length(surrogate_entry_of(*surrogate, 0)),
        length <= 4 * usize::MAX + 44,
{
    let version: u128 = match &surrogate.runtime_version {
        Some(version) => 2 * version.len() as u128,
        None => 0,
    };
    let storage: u128 = if version == 0 {
        0
    } else {
        version + 2
    };
    40 + storage + 2 * surrogate.name.len() as u128 + 2
}

/// Bytes that the payload of a surrogate takes.
fn clr_surrogate_storage_size(surrogate: &ManifestClrSurrogate) -> (size: u128)
    ensures
        size == surrogate_len(surrogate_entry_of(*surrogate, 0)),
        size <= 4 * usize::MAX + 52,
{
    let room: u128 = match &surrogate.runtime_version {
        Some(version) => if version.len() == 0 {
            2
        } else {
            0
        },
        None => 0,
    };
    (clr_surrogate_data_length(surrogate) + room + 3) / 4 * 4
}

/// Append the payload of a surrogate.
fn push_surrogate_payload(out: &mut Vec<u8>, surrogate: &ManifestClrSurrogate)
    requires
        surrogate_len(surrogate_entry_of(*surrogate, 0)) <= u32::MAX,
    ensures
        final(out)@ == old(out)@ + surrogate_payload_bytes(surrogate_entry_of(*surrogate, 0)),
{
    let ghost e = surrogate_entry_of(*surrogate, 0);
    let ghost start = out@;
    let size: usize = clr_surrogate_storage_size(surrogate) as usize;
    let length: usize = clr_surrogate_data_length(surrogate) as usize;
    let version: usize = match &surrogate.runtime_version {
        Some(version) => 2 * version.len(),
        None => 0,
    };
    let first: [u32; 2] = [40, 0];
    push_words(out, &first);
    assert(first@ =~= seq![40u32, 0]);
    let clsid = surrogate.clsid.to_windows_bytes();
    push_bytes(out, &clsid);
    let ghost a = words(first@) + e.clsid;
    assert(out@ =~= start + a);
    let second: [u32; 4] = [
        if version == 0 {
            0
        } else {
            40
        },
        version as u32,
        40 + if version == 0 {
            0
        } else {
            version as u32 + 2
        },
        2 * surrogate.name.len() as u32,
    ];
    assert(second@ =~= surrogate_words(e));
    push_words(out, &second);
    let ghost b = a + words(second@);
    assert(out@ =~= start + b);
    match &surrogate.runtime_version {
        Some(version) => {
            if version.len() > 0 {
                push_wide(out, version.as_slice());
                push_zeros(out, 2);
            }
        },
        None => {},
    }
    let ghost c = b + version_bytes(e);
    assert(out@ =~= start + c);
    push_wide(out, surrogate.name.as_slice());
    push_zeros(out, 2 + size - length);
    assert(out@ =~= start + (c + wide_bytes(e.name) + zero_bytes(2 + size - length)));
}

/// Append the index row of a surrogate whose payload is stored at `at`.
fn push_surrogate_row(out: &mut Vec<u8>, surrogate: &ManifestClrSurrogate, roster: u32, at: u32)
    requires
        surrogate_len(surrogate_entry_of(*surrogate, 0)) <= u32::MAX,
    ensures
        final(out)@ == old(out)@ + surrogate_row_bytes(
            surrogate_entry_of(*surrogate, roster as int),
            at as int,
        ),
{
    let size: u32 = clr_surrogate_storage_size(surrogate) as u32;
    let clsid = surrogate.clsid.to_windows_bytes();
    push_bytes(out, &clsid);
    let ws: [u32; 3] = [at, size, roster];
    push_words(out, &ws);
    assert(ws@ =~= seq![at as u32, size as u32, roster as u32]);
    assert(out@ =~= old(out)@ + surrogate_row_bytes(
        surrogate_entry_of(*surrogate, roster as int),
        at as int,
    ));
}

/// Build the section of an assembly roster, in assembly and declaration order.
pub fn build_clr_surrogate_section(assemblies: &[ClrSurrogateAssembly<'_>]) -> (r: Result<
    Vec<u8>,
    NtStatus,
>)
    ensures
        match r {
            Ok(section) => surrogate_build(
                assemblies@.len() as int,
                surrogate_entries(assemblies@),
            ) == Ok::<Seq<u8>, NtStatus>(section@),
            Err(e) => surrogate_build(assemblies@.len() as int, surrogate_entries(assemblies@))
                == Err::<Seq<u8>, NtStatus>(e),
        },
{
    let entries = collect_surrogates(assemblies);
    let ghost es = surrogate_entries(assemblies@);
    let base: u128 = 40 + 28 * entries.len() as u128;
    let ghost base_int = guid_row_at(es.len() as int);
    assert(es.take(0) =~= Seq::empty());
    if base > usize::MAX as u128 {
        proof {
            lemma_surrogate_size_error(base_int, es, 0);
        }
        return Err(STATUS_NO_MEMORY);
    }
    let mut total: u128 = base;
    let mut k: usize = 0;
    while k < entries.len()
        invariant
            k <= entries@.len(),
            entries@.len() == es.len(),
            es == surrogate_entries(assemblies@),
            base_int == guid_row_at(es.len() as int),
            forall|k: int|
                0 <= k < entries@.len() ==> surrogate_entry_of(
                    *(#[trigger] entries@[k]).surrogate,
                    entries@[k].roster as int,
                ) == es[k],
            total <= usize::MAX,
            surrogate_size(base_int, es.take(k as int)) == Ok::<int, NtStatus>(total as int),
        decreases entries@.len() - k,
    {
        assert(es.take(k + 1).drop_last() =~= es.take(k as int));
        let surrogate = entries[k].surrogate;
        let ghost e = surrogate_entry_of(*surrogate, entries@[k as int].roster as int);
        assert(e == es[k as int]);
        assert(surrogate_len(e) == surrogate_len(surrogate_entry_of(*surrogate, 0)));
        if !validate_clr_surrogate(surrogate) {
            proof {
                lemma_surrogate_size_error(base_int, es, k + 1);
            }
            return Err(STATUS_SXS_INVALID_ACTCTXDATA_FORMAT);
        }
        total = total + clr_surrogate_storage_size(surrogate);
        if total > usize::MAX as u128 {
            proof {
                lemma_surrogate_size_error(base_int, es, k + 1);
            }
            return Err(STATUS_NO_MEMORY);
        }
        k += 1;
    }
    assert(es.take(k as int) =~= es);
    if total > 0xffff_ffff || assemblies.len() > 0xffff_ffff {
        return Err(STATUS_NO_MEMORY);
    }
    proof {
        lemma_surrogate_size(base_int, es);
        lemma_surrogate_entries(assemblies@);
        lemma_surrogate_pieces(es);
        lemma_layout(
            guid_header(es.len() as int),
            surrogate_rows(es),
            28,
            surrogate_payloads(es),
            surrogate_lens(es),
        );
        if es.len() > 0 {
            lemma_sum_take(surrogate_lens(es), es.len() - 1);
        }
    }
    let header: [u32; 10] = [
        GUIDSECTION_MAGIC,
        40,
        0,
        0,
        0,
        entries.len() as u32,
        40,
        0,
        0,
        0,
    ];
    let mut section: Vec<u8> = Vec::new();
    push_words(&mut section, &header);
    assert(header@ =~= seq![
        GUIDSECTION_MAGIC,
        40,
        0,
        0,
        0,
        es.len() as int as u32,
        40,
        0,
        0,
        0,
    ]);
    let mut payloads: Vec<u8> = Vec::new();
    assert(surrogate_rows(es).take(0) =~= Seq::empty());
    assert(surrogate_payloads(es).take(0) =~= Seq::empty());
    assert(surrogate_lens(es).take(0) =~= Seq::empty());
    assert(section@ =~= guid_header(es.len() as int) + flat(surrogate_rows(es).take(0)));
    let mut k: usize = 0;
    while k < entries.len()
        invariant
            k <= entries@.len(),
            entries@.len() == es.len(),
            assemblies@.len() <= u32::MAX,
            base == guid_row_at(es.len() as int),
            base + sum_of(surrogate_lens(es)) <= u32::MAX,
            forall|k: int|
                0 <= k < entries@.len() ==> surrogate_entry_of(
                    *(#[trigger] entries@[k]).surrogate,
                    entries@[k].roster as int,
                ) == es[k],
            forall|k: int|
                0 <= k < es.len() ==> {
                    &&& 1 <= (#[trigger] es[k]).roster <= assemblies@.len()
                    &&& es[k].clsid.len() == 16
                },
            forall|k: int| 0 <= k < es.len() ==> 0 <= #[trigger] surrogate_lens(es)[k],
            forall|k: int|
                0 <= k < es.len() ==> (#[trigger] surrogate_payloads(es)[k]).len()
                    == surrogate_lens(es)[k],
            section@ == guid_header(es.len() as int) + flat(surrogate_rows(es).take(k as int)),
            payloads@ == flat(surrogate_payloads(es).take(k as int)),
            payloads@.len() == sum_of(surrogate_lens(es).take(k as int)),
        decreases entries@.len() - k,
    {
        proof {
            lemma_sum_take(surrogate_lens(es), k as int);
            assert(es[k as int].roster <= u32::MAX);
            assert(surrogate_rows(es).take(k + 1).drop_last() =~= surrogate_rows(es).take(
                k as int,
            ));
            assert(surrogate_payloads(es).take(k + 1).drop_last() =~= surrogate_payloads(es).take(
                k as int,
            ));
            assert(surrogate_payloads(es)[k as int].len() == surrogate_lens(es)[k as int]);
        }
        let entry = &entries[k];
        assert(surrogate_entry_of(*entry.surrogate, entry.roster as int) == es[k as int]);
        assert(surrogate_len(surrogate_entry_of(*entry.surrogate, 0)) == surrogate_len(
            es[k as int],
        ));
        let at: u32 = (base + payloads.len() as u128) as u32;
        push_surrogate_row(&mut section, entry.surrogate, entry.roster as u32, at);
        push_surrogate_payload(&mut payloads, entry.surrogate);
        assert(surrogate_payload_bytes(surrogate_entry_of(*entry.surrogate, 0))
            == surrogate_payload_bytes(es[k as int]));
        assert(section@ =~= guid_header(es.len() as int) + flat(surrogate_rows(es).take(k + 1)));
        k += 1;
    }
    assert(surrogate_rows(es).take(k as int) =~= surrogate_rows(es));
    assert(surrogate_payloads(es).take(k as int) =~= surrogate_payloads(es));
    push_bytes(&mut section, payloads.as_slice());
    Ok(section)
}

// ---------------------------------------------------------------------------------------------
// Lookup
// ---------------------------------------------------------------------------------------------

/// Check the surrogate of `stored` bytes at `d`. The length of a well-formed one is returned.
fn check_surrogate(section: &[u8], d: u32, stored: u32, clsid: &Guid) -> (length: Option<u64>)
    ensures
        match length {
            Some(n) => surrogate_ok(section@, d as int, stored as int, clsid.windows_bytes()) && n
                == surrogate_length(section@, d as int),
            None => !surrogate_ok(section@, d as int, stored as int, clsid.windows_bytes()),
        },
{
    if stored < 40 || stored % 4 != 0 || d as u64 + stored as u64 > section.len() as u64 {
        return None;
    }
    let at: usize = d as usize;
    if get_u32(section, at) != 40 || get_u32(section, at + 4) != 0 {
        return None;
    }
    let found: Guid = match read_guid(section, at + 8) {
        Ok(guid) => guid,
        Err(_) => return None,
    };
    proof {
        lemma_guid_same(found, *clsid);
    }
    if !found.equals(clsid) {
        return None;
    }
    let version_offset: u32 = get_u32(section, at + 24);
    let version_length: u64 = get_u32(section, at + 28) as u64;
    let name_offset: u64 = get_u32(section, at + 32) as u64;
    let name_length: u64 = get_u32(section, at + 36) as u64;
    let storage: u64 = if version_length == 0 {
        if version_offset != 0 {
            return None;
        }
        0
    } else {
        if version_offset != 40 || !check_counted_text(section, d as u64 + 40, version_length) {
            return None;
        }
        version_length + 2
    };
    if name_offset != 40 + storage || !check_counted_text(
        section,
        d as u64 + name_offset,
        name_length,
    ) {
        return None;
    }
    let length: u64 = name_offset + name_length + 2;
    if stored as u64 != (length + 3) / 4 * 4 && !(version_length == 0 && stored as u64 == (length
        + 5) / 4 * 4) {
        return None;
    }
    Some(length)
}

/// Two identifiers have the same bytes exactly when they have the same fields.
proof fn lemma_guid_same(a: Guid, b: Guid)
    ensures
        a.same(b) <==> a.windows_bytes() == b.windows_bytes(),
{
    crate::guid::windows_bytes_round_trip(a);
    crate::guid::windows_bytes_round_trip(b);
}

/// Find the first entry of the identifier `clsid` in a well-formed section.
pub fn find_clr_surrogate(section: &[u8], clsid: &Guid) -> (r: Result<
    Option<ClrSurrogateMatch>,
    NtStatus,
>)
    ensures
        match r {
            Err(e) => e == STATUS_SXS_INVALID_ACTCTXDATA_FORMAT && !surrogate_section_ok(
                section@,
                clsid.windows_bytes(),
            ),
            Ok(None) => surrogate_section_ok(section@, clsid.windows_bytes()) && forall|i: int|
                !#[trigger] surrogate_first_match(section@, clsid.windows_bytes(), i),
            Ok(Some(m)) => surrogate_section_ok(section@, clsid.windows_bytes()) && exists|i: int|
                #[trigger] surrogate_first_match(section@, clsid.windows_bytes(), i) && m
                    == surrogate_match_of(section@, i),
        },
{
    let ghost s = section@;
    let ghost id = clsid.windows_bytes();
    if section.len() < 40 || get_u32(section, 0) != GUIDSECTION_MAGIC || get_u32(section, 4) != 40
        || get_u32(section, 8) != 0 || get_u32(section, 12) != 0 || get_u32(section, 16) != 0
        || get_u32(section, 28) != 0 || get_u32(section, 32) != 0 || get_u32(section, 36) != 0
        || get_u32(section, 24) != 40 {
        return Err(STATUS_SXS_INVALID_ACTCTXDATA_FORMAT);
    }
    let count: u32 = get_u32(section, 20);
    if 40 + 28 * count as u64 > section.len() as u64 {
        return Err(STATUS_SXS_INVALID_ACTCTXDATA_FORMAT);
    }
    let end: usize = section.len();
    let mut expected: u64 = 40 + 28 * count as u64;
    let mut found: Option<ClrSurrogateMatch> = None;
    let mut i: u32 = 0;
    while i < count
        invariant
            i <= count,
            end == section@.len(),
            s == section@,
            id == clsid.windows_bytes(),
            count == le32(s, 20),
            surrogate_header_ok(s),
            expected == surrogate_start(s, i as int),
            forall|j: int| 0 <= j < i ==> #[trigger] surrogate_entry_ok(s, j),
            match found {
                None => forall|j: int|
                    0 <= j < i ==> guid_at(s, #[trigger] guid_row_at(j)) != id,
                Some(m) => exists|j: int|
                    #![trigger surrogate_first_match(s, id, j)]
                    0 <= j < i && surrogate_first_match(s, id, j) && m == surrogate_match_of(s, j)
                        && surrogate_length(s, le32(s, guid_row_at(j) + 16) as int) <= u32::MAX,
            },
        decreases count - i,
    {
        let r: usize = 40 + 28 * i as usize;
        let row_guid: Guid = match read_guid(section, r) {
            Ok(guid) => guid,
            Err(_) => return Err(STATUS_SXS_INVALID_ACTCTXDATA_FORMAT),
        };
        let d: u32 = get_u32(section, r + 16);
        let stored: u32 = get_u32(section, r + 20);
        let roster: u32 = get_u32(section, r + 24);
        if d as u64 != expected || roster == 0 {
            assert(!surrogate_entry_ok(s, i as int));
            return Err(STATUS_SXS_INVALID_ACTCTXDATA_FORMAT);
        }
        let length: u64 = match check_surrogate(section, d, stored, &row_guid) {
            Some(length) => length,
            None => {
                assert(!surrogate_entry_ok(s, i as int));
                return Err(STATUS_SXS_INVALID_ACTCTXDATA_FORMAT);
            },
        };
        assert(surrogate_entry_ok(s, i as int));
        proof {
            lemma_guid_same(row_guid, *clsid);
        }
        if found.is_none() && row_guid.equals(clsid) {
            assert(surrogate_first_match(s, id, i as int));
            if length > 0xffff_ffff {
                return Err(STATUS_SXS_INVALID_ACTCTXDATA_FORMAT);
            }
            found =
            Some(
                ClrSurrogateMatch {
                    data_offset: d,
                    data_length: length as u32,
                    assembly_roster_index: roster,
                },
            );
            assert(found == Some(surrogate_match_of(s, i as int)));
        }
        expected = d as u64 + stored as u64;
        i += 1;
    }
    if expected != section.len() as u64 {
        return Err(STATUS_SXS_INVALID_ACTCTXDATA_FORMAT);
    }
    proof {
        assert forall|i: int| #[trigger] surrogate_first_match(s, id, i) implies surrogate_length(
            s,
            le32(s, guid_row_at(i) + 16) as int,
        ) <= u32::MAX by {
            match found {
                None => {
                    assert(guid_at(s, guid_row_at(i)) == id);
                },
                Some(m) => {
                    let j = choose|j: int|
                        #![trigger surrogate_first_match(s, id, j)]
                        0 <= j < count && surrogate_first_match(s, id, j) && m
                            == surrogate_match_of(s, j) && surrogate_length(
                            s,
                            le32(s, guid_row_at(j) + 16) as int,
                        ) <= u32::MAX;
                    assert(guid_at(s, guid_row_at(j)) == id);
                    assert(guid_at(s, guid_row_at(i)) == id);
                    assert(i == j);
                },
            }
        }
    }
    Ok(found)
}

} // verus!
