//! Window-class redirection string sections.

use vstd::prelude::*;

use super::dll::string_header;
use super::{
    check_counted_text, counted_text_ok, hash_section_name, key_at, lemma_layout,
    lemma_layout_entry, lemma_sum_take, row_at, section_name_eq, sum_of, STATUS_NO_MEMORY,
    STATUS_SXS_INVALID_ACTCTXDATA_FORMAT, STRSECTION_MAGIC,
};
use crate::activation::DllRedirect;
use crate::activation_manifest::ManifestWindowClass;
use crate::bytes::{
    flat, get_u16, get_u32, has_unit, le16, le32, lemma_sub_le32, lemma_sub_sub,
    lemma_sub_wide, lemma_wide_bytes, lemma_wide_bytes_len, lemma_words, lemma_words_len,
    push_bytes, push_units, push_wide, push_words, push_zeros, same_units, up4, wide_at,
    wide_bytes, words, zero_bytes,
};
use crate::decimal::{
    decimal, decimal_round_trip, decimal_u16_digits, is_digit, is_version, parse_canonical_version,
    push_decimal_u16, version_text,
};
use crate::strings::{hash_unicode_string, upcase_all, x65599, HASH_STRING_ALGORITHM_X65599};
use crate::NtStatus;

verus! {

/// The window classes of one assembly of the roster.
#[derive(Clone, Copy, Debug, PartialEq, Eq)]
pub struct WindowClassAssembly<'a> {
    pub version: [u16; 4],
    pub files: &'a [DllRedirect],
    pub classes: &'a [ManifestWindowClass],
}

/// What a validated section says of itself.
#[derive(Clone, Copy, Debug, PartialEq, Eq)]
pub struct WindowClassRedirectionSection {
    pub count: u32,
    pub index_offset: u32,
    pub length: u32,
}

/// Where the entry of a class was found.
#[derive(Clone, Copy, Debug, PartialEq, Eq)]
pub struct WindowClassRedirectionMatch {
    pub index_offset: u32,
    pub name_offset: u32,
    pub name_length: u32,
    pub data_offset: u32,
    pub data_length: u32,
    pub versioned_name_offset: u32,
    pub versioned_name_length: u32,
    pub module_offset: u32,
    pub module_length: u32,
    pub assembly_roster_index: u32,
}

/// One class together with its assembly.
struct WindowClassSectionEntry<'a> {
    name: &'a [u16],
    module: Option<&'a [u16]>,
    version: [u16; 4],
    versioned: bool,
    roster: u64,
}

/// One entry of a section: the class, the module that registers it, and its assembly. A class
/// that names no file of its assembly has no module.
pub struct ClassEntry {
    pub name: Seq<u16>,
    pub module: Option<Seq<u16>>,
    pub version: Seq<u16>,
    pub versioned: bool,
    pub roster: int,
}

// ---------------------------------------------------------------------------------------------
// Section contents
// ---------------------------------------------------------------------------------------------

/// Whether `redirected` is `original`, or `original` behind a version and an exclamation mark.
pub open spec fn class_name_ok(original: Seq<u16>, redirected: Seq<u16>) -> bool {
    let bang = redirected.len() - original.len() - 1;
    redirected == original || {
        &&& bang >= 0
        &&& redirected[bang] == 0x21
        &&& redirected.subrange(bang + 1, redirected.len() as int) == original
        &&& is_version(redirected.take(bang))
    }
}

/// Where the entry behind the one with its data at `d` has to start.
pub open spec fn class_end(s: Seq<u8>, d: int) -> int {
    d + 24 + up4(le32(s, d + 8) + le32(s, d + 16) + 4)
}

/// Where entry `i` has to start: entries stand one behind the other.
pub open spec fn class_start(s: Seq<u8>, i: int) -> int {
    if i == 0 {
        row_at(le32(s, 20) as int)
    } else {
        class_end(s, le32(s, row_at(i - 1) + 12) as int)
    }
}

/// Whether a well-formed class redirection stands at `d` for a class named `name`.
pub open spec fn class_data_ok(s: Seq<u8>, d: int, name: Seq<u16>) -> bool {
    let redirected_length = le32(s, d + 8) as int;
    let module_at = d + 24 + redirected_length + 2;
    &&& d + 24 <= s.len()
    &&& class_end(s, d) <= s.len()
    &&& le32(s, d) == 24
    &&& le32(s, d + 4) == 0
    &&& le32(s, d + 12) == 24
    &&& le32(s, d + 20) == module_at
    &&& counted_text_ok(s, d + 24, redirected_length)
    &&& counted_text_ok(s, module_at, le32(s, d + 16) as int)
    &&& class_name_ok(name, wide_at(s, d + 24, redirected_length / 2))
}

/// Whether entry `i` is well formed for a roster of `assemblies` assemblies.
pub open spec fn class_entry_ok(s: Seq<u8>, assemblies: int, i: int) -> bool {
    let r = row_at(i);
    let name_at = le32(s, r + 4) as int;
    let name_length = le32(s, r + 8) as int;
    let d = le32(s, r + 12) as int;
    &&& name_at == class_start(s, i)
    &&& counted_text_ok(s, name_at, name_length)
    &&& le32(s, r) == x65599(key_at(s, name_at, name_length))
    &&& 1 <= le32(s, r + 20) <= assemblies
    &&& d == name_at + up4(name_length + 2)
    &&& class_data_ok(s, d, wide_at(s, name_at, name_length / 2))
    &&& le32(s, r + 16) == 24 + le32(s, d + 8) + le32(s, d + 16) + 4
}

/// Whether the header of a section is well formed and its index rows fit.
pub open spec fn class_header_ok(s: Seq<u8>) -> bool {
    &&& 44 <= s.len() <= u32::MAX
    &&& le32(s, 0) == STRSECTION_MAGIC
    &&& le32(s, 4) == 44
    &&& le32(s, 8) == 0
    &&& le32(s, 12) == 0
    &&& le32(s, 16) == 0
    &&& le32(s, 24) == 44
    &&& le32(s, 28) == 0
    &&& le32(s, 32) == 0
    &&& le32(s, 36) == 0
    &&& le32(s, 40) == 0
    &&& row_at(le32(s, 20) as int) <= s.len()
}

/// Whether a section is well formed for a roster of `assemblies` assemblies.
pub open spec fn class_section_ok(s: Seq<u8>, assemblies: int) -> bool {
    &&& class_header_ok(s)
    &&& forall|i: int| 0 <= i < le32(s, 20) ==> #[trigger] class_entry_ok(s, assemblies, i)
    &&& class_start(s, le32(s, 20) as int) == s.len()
}

/// The key of entry `i`.
pub open spec fn class_key(s: Seq<u8>, i: int) -> Seq<u16> {
    key_at(s, le32(s, row_at(i) + 4) as int, le32(s, row_at(i) + 8) as int)
}

/// Whether entry `i` is the first of the section whose class is `name` when case does not count.
pub open spec fn class_first_match(s: Seq<u8>, name: Seq<u16>, i: int) -> bool {
    &&& 0 <= i < le32(s, 20)
    &&& class_key(s, i) == upcase_all(name)
    &&& forall|j: int| 0 <= j < i ==> #[trigger] class_key(s, j) != upcase_all(name)
}

/// What a lookup reports of entry `i`.
pub open spec fn class_match_of(s: Seq<u8>, i: int) -> WindowClassRedirectionMatch {
    let r = row_at(i);
    let d = le32(s, r + 12);
    WindowClassRedirectionMatch {
        index_offset: r as u32,
        name_offset: le32(s, r + 4),
        name_length: le32(s, r + 8),
        data_offset: d,
        data_length: le32(s, r + 16),
        versioned_name_offset: (d + 24) as u32,
        versioned_name_length: le32(s, d + 8),
        module_offset: le32(s, d + 20),
        module_length: le32(s, d + 16),
        assembly_roster_index: le32(s, r + 20),
    }
}

// ---------------------------------------------------------------------------------------------
// Construction
// ---------------------------------------------------------------------------------------------

/// The entry of class `i` of an assembly.
pub open spec fn class_entry_of(assembly: WindowClassAssembly<'_>, i: int, roster: int) -> ClassEntry {
    let class = assembly.classes@[i];
    ClassEntry {
        name: class.name@,
        module: if class.file_index < assembly.files@.len() {
            Some(assembly.files@[class.file_index as int].name@)
        } else {
            None
        },
        version: assembly.version@,
        versioned: class.versioned,
        roster,
    }
}

/// The entries of a roster in order; roster positions start at one and empty assemblies keep
/// theirs.
pub open spec fn class_entries(assemblies: Seq<WindowClassAssembly<'_>>) -> Seq<ClassEntry>
    decreases assemblies.len(),
{
    if assemblies.len() == 0 {
        Seq::empty()
    } else {
        class_entries(assemblies.drop_last()) + Seq::new(
            assemblies.last().classes@.len(),
            |i: int| class_entry_of(assemblies.last(), i, assemblies.len() as int),
        )
    }
}

/// Whether an entry can be stored: nonempty names without NUL, and a module.
pub open spec fn class_storable(e: ClassEntry) -> bool {
    &&& e.name.len() > 0
    &&& !e.name.contains(0)
    &&& e.module matches Some(module) && module.len() > 0 && !module.contains(0)
}

/// The class name as it is registered: behind the assembly version where the class is versioned.
pub open spec fn class_redirected(e: ClassEntry) -> Seq<u16> {
    if e.versioned {
        version_text(
            e.version[0] as int,
            e.version[1] as int,
            e.version[2] as int,
            e.version[3] as int,
        ) + seq![0x21u16] + e.name
    } else {
        e.name
    }
}

/// The module of an entry that has one.
pub open spec fn class_module(e: ClassEntry) -> Seq<u16> {
    match e.module {
        Some(module) => module,
        None => Seq::empty(),
    }
}

/// Bytes that the two strings of an entry take, with their NULs.
pub open spec fn class_strings(e: ClassEntry) -> int {
    2 * class_redirected(e).len() + 2 * class_module(e).len() as int + 4
}

/// Bytes that the class name of an entry takes, with its NUL and padding.
pub open spec fn class_name_storage(e: ClassEntry) -> int {
    up4(2 * e.name.len() as int + 2)
}

/// Bytes that the payload of an entry takes.
pub open spec fn class_len(e: ClassEntry) -> int {
    class_name_storage(e) + 24 + up4(class_strings(e))
}

/// Bytes that the payload of each entry takes.
pub open spec fn class_lens(es: Seq<ClassEntry>) -> Seq<int> {
    Seq::new(es.len(), |k: int| class_len(es[k]))
}

/// Where the payload of entry `k` starts.
pub open spec fn class_at(es: Seq<ClassEntry>, k: int) -> int {
    row_at(es.len() as int) + sum_of(class_lens(es).take(k))
}

/// The redirection stored at `d` for an entry.
pub open spec fn class_data_bytes(e: ClassEntry, d: int) -> Seq<u8> {
    let redirected = class_redirected(e);
    let module = class_module(e);
    words(
        seq![
            24u32,
            0,
            (2 * redirected.len()) as u32,
            24,
            (2 * module.len()) as u32,
            (d + 24 + 2 * redirected.len() + 2) as u32,
        ],
    ) + wide_bytes(redirected) + zero_bytes(2) + wide_bytes(module) + zero_bytes(
        2 + up4(class_strings(e)) - class_strings(e),
    )
}

/// The payload of an entry stored at `at`.
pub open spec fn class_payload_bytes(e: ClassEntry, at: int) -> Seq<u8> {
    wide_bytes(e.name) + zero_bytes(class_name_storage(e) - 2 * e.name.len()) + class_data_bytes(
        e,
        at + class_name_storage(e),
    )
}

/// The index row of an entry whose payload is stored at `at`.
pub open spec fn class_row_bytes(e: ClassEntry, at: int) -> Seq<u8> {
    words(
        seq![
            x65599(upcase_all(e.name)) as u32,
            at as u32,
            (2 * e.name.len()) as u32,
            (at + class_name_storage(e)) as u32,
            (24 + class_strings(e)) as u32,
            e.roster as u32,
        ],
    )
}

/// The index rows of a section.
pub open spec fn class_rows(es: Seq<ClassEntry>) -> Seq<Seq<u8>> {
    Seq::new(es.len(), |k: int| class_row_bytes(es[k], class_at(es, k)))
}

/// The payloads of a section.
pub open spec fn class_payloads(es: Seq<ClassEntry>) -> Seq<Seq<u8>> {
    Seq::new(es.len(), |k: int| class_payload_bytes(es[k], class_at(es, k)))
}

/// The section that holds the entries `es`.
pub open spec fn class_section(es: Seq<ClassEntry>) -> Seq<u8> {
    string_header(es.len() as int) + flat(class_rows(es)) + flat(class_payloads(es))
}

/// The size that `es` take behind `base` bytes, or why they cannot be stored. Entries are looked
/// at in order: one that cannot be stored stops the count, and so does a size out of range.
pub open spec fn class_size(base: int, es: Seq<ClassEntry>) -> Result<int, NtStatus>
    decreases es.len(),
{
    if es.len() == 0 {
        if base > usize::MAX {
            Err(STATUS_NO_MEMORY)
        } else {
            Ok(base)
        }
    } else {
        match class_size(base, es.drop_last()) {
            Err(e) => Err(e),
            Ok(size) => if !class_storable(es.last()) {
                Err(STATUS_SXS_INVALID_ACTCTXDATA_FORMAT)
            } else if size + class_len(es.last()) > usize::MAX {
                Err(STATUS_NO_MEMORY)
            } else {
                Ok(size + class_len(es.last()))
            },
        }
    }
}

/// What building a section for `assemblies` assemblies with the entries `es` gives.
pub open spec fn class_build(assemblies: int, es: Seq<ClassEntry>) -> Result<Seq<u8>, NtStatus> {
    if assemblies > u32::MAX || es.len() > u32::MAX {
        Err(STATUS_NO_MEMORY)
    } else {
        match class_size(row_at(es.len() as int), es) {
            Err(e) => Err(e),
            Ok(size) => if size > u32::MAX {
                Err(STATUS_NO_MEMORY)
            } else {
                Ok(class_section(es))
            },
        }
    }
}

// ---------------------------------------------------------------------------------------------
// Lemmas
// ---------------------------------------------------------------------------------------------

proof fn lemma_class_size(base: int, es: Seq<ClassEntry>)
    ensures
        class_size(base, es) matches Ok(size) ==> size == base + sum_of(class_lens(es)) && forall|
            k: int,
        |
            0 <= k < es.len() ==> class_storable(#[trigger] es[k]),
    decreases es.len(),
{
    if es.len() > 0 {
        lemma_class_size(base, es.drop_last());
        assert(class_lens(es).drop_last() =~= class_lens(es.drop_last()));
        assert forall|k: int| 0 <= k < es.len() && class_size(base, es) is Ok implies class_storable(
            #[trigger] es[k],
        ) by {
            if k < es.len() - 1 {
                assert(es.drop_last()[k] == es[k]);
            }
        }
    }
}

/// An error met on a prefix of the entries is the error met on all of them.
proof fn lemma_class_size_error(base: int, es: Seq<ClassEntry>, k: int)
    requires
        0 <= k <= es.len(),
        class_size(base, es.take(k)) is Err,
    ensures
        class_size(base, es) == class_size(base, es.take(k)),
    decreases es.len(),
{
    if k < es.len() {
        assert(es.drop_last().take(k) =~= es.take(k));
        lemma_class_size_error(base, es.drop_last(), k);
    } else {
        assert(es.take(k) =~= es);
    }
}

proof fn lemma_class_piece_len(e: ClassEntry, at: int)
    ensures
        class_payload_bytes(e, at).len() == class_len(e),
        class_row_bytes(e, at).len() == 24,
        string_header(at).len() == 44,
{
    broadcast use lemma_words_len, lemma_wide_bytes_len;

}

proof fn lemma_class_pieces(es: Seq<ClassEntry>)
    ensures
        forall|k: int| 0 <= k < es.len() ==> (#[trigger] class_rows(es)[k]).len() == 24,
        forall|k: int|
            0 <= k < es.len() ==> (#[trigger] class_payloads(es)[k]).len() == class_lens(es)[k],
        string_header(es.len() as int).len() == 44,
        forall|k: int| 0 <= k < es.len() ==> 0 <= #[trigger] class_lens(es)[k],
{
    broadcast use lemma_words_len;

    assert forall|k: int| 0 <= k < es.len() implies (#[trigger] class_rows(es)[k]).len() == 24 by {
        lemma_class_piece_len(es[k], class_at(es, k));
    }
    assert forall|k: int| 0 <= k < es.len() implies (#[trigger] class_payloads(es)[k]).len()
        == class_lens(es)[k] by {
        lemma_class_piece_len(es[k], class_at(es, k));
    }
}

proof fn lemma_class_header_words(s: Seq<u8>, count: int)
    requires
        44 <= s.len(),
        s.subrange(0, 44) == string_header(count),
        0 <= count <= u32::MAX,
    ensures
        le32(s, 20) == count,
        s.len() <= u32::MAX && row_at(count) <= s.len() ==> class_header_ok(s),
{
    broadcast use lemma_words_len;

    let ws = seq![STRSECTION_MAGIC, 44, 0, 0, 0, count as u32, 44, 0, 0, 0, 0];
    let header = string_header(count);
    lemma_words(ws, 0);
    lemma_words(ws, 1);
    lemma_words(ws, 2);
    lemma_words(ws, 3);
    lemma_words(ws, 4);
    lemma_words(ws, 5);
    lemma_words(ws, 6);
    lemma_words(ws, 7);
    lemma_words(ws, 8);
    lemma_words(ws, 9);
    lemma_words(ws, 10);
    lemma_sub_le32(s, 0, header, 0);
    lemma_sub_le32(s, 0, header, 4);
    lemma_sub_le32(s, 0, header, 8);
    lemma_sub_le32(s, 0, header, 12);
    lemma_sub_le32(s, 0, header, 16);
    lemma_sub_le32(s, 0, header, 20);
    lemma_sub_le32(s, 0, header, 24);
    lemma_sub_le32(s, 0, header, 28);
    lemma_sub_le32(s, 0, header, 32);
    lemma_sub_le32(s, 0, header, 36);
    lemma_sub_le32(s, 0, header, 40);
}

/// The words of an index row as they read in the section.
proof fn lemma_class_row_words(s: Seq<u8>, r: int, e: ClassEntry, at: int)
    requires
        0 <= r,
        r + 24 <= s.len(),
        s.subrange(r, r + 24) == class_row_bytes(e, at),
        0 <= at,
        at + class_len(e) <= u32::MAX,
        0 <= e.roster <= u32::MAX,
    ensures
        le32(s, r) == x65599(upcase_all(e.name)) as u32,
        le32(s, r + 4) == at,
        le32(s, r + 8) == 2 * e.name.len(),
        le32(s, r + 12) == at + class_name_storage(e),
        le32(s, r + 16) == 24 + class_strings(e),
        le32(s, r + 20) == e.roster,
{
    broadcast use lemma_words_len;

    let ws = seq![
        x65599(upcase_all(e.name)) as u32,
        at as u32,
        (2 * e.name.len()) as u32,
        (at + class_name_storage(e)) as u32,
        (24 + class_strings(e)) as u32,
        e.roster as u32,
    ];
    let row = class_row_bytes(e, at);
    lemma_words(ws, 0);
    lemma_words(ws, 1);
    lemma_words(ws, 2);
    lemma_words(ws, 3);
    lemma_words(ws, 4);
    lemma_words(ws, 5);
    lemma_sub_le32(s, r, row, 0);
    lemma_sub_le32(s, r, row, 4);
    lemma_sub_le32(s, r, row, 8);
    lemma_sub_le32(s, r, row, 12);
    lemma_sub_le32(s, r, row, 16);
    lemma_sub_le32(s, r, row, 20);
}

proof fn lemma_key_hash_bound(w: Seq<u16>)
    ensures
        0 <= x65599(w) <= u32::MAX,
    decreases w.len(),
{
    if w.len() > 0 {
        lemma_key_hash_bound(w.drop_last());
    }
}

/// A text that stands in a piece of the section, followed by two zero bytes.
proof fn lemma_text_in(s: Seq<u8>, at: int, text: Seq<u16>)
    requires
        0 <= at,
        at + 2 * text.len() + 2 <= s.len(),
        s.subrange(at, at + 2 * text.len()) == wide_bytes(text),
        s[at + 2 * text.len()] == 0,
        s[at + 2 * text.len() + 1] == 0,
        text.len() > 0,
        !text.contains(0),
    ensures
        counted_text_ok(s, at, 2 * text.len() as int),
        wide_at(s, at, text.len() as int) == text,
{
    broadcast use lemma_wide_bytes_len;

    lemma_wide_bytes(text);
    lemma_sub_wide(s, at, wide_bytes(text), 0, text.len() as int);
    assert(le16(s, at + 2 * text.len()) == 0) by {
        reveal(le16);
    }
    assert((2 * text.len() as int) / 2 == text.len());
}

/// A registered class name belongs to its class, and holds no NUL.
proof fn lemma_class_redirected(e: ClassEntry)
    requires
        class_storable(e),
        e.version.len() == 4,
    ensures
        class_name_ok(e.name, class_redirected(e)),
        class_redirected(e).len() > 0,
        !class_redirected(e).contains(0),
{
    let red = class_redirected(e);
    if e.versioned {
        let (a, b, c, d) = (e.version[0], e.version[1], e.version[2], e.version[3]);
        let version = version_text(a as int, b as int, c as int, d as int);
        let bang = version.len() as int;
        decimal_round_trip(a as int);
        decimal_round_trip(b as int);
        decimal_round_trip(c as int);
        decimal_round_trip(d as int);
        assert(red.take(bang) =~= version);
        assert(is_version(version));
        assert(red.subrange(bang + 1, red.len() as int) =~= e.name);
        assert(red.len() - e.name.len() - 1 == bang);
        assert forall|i: int| 0 <= i < version.len() implies #[trigger] version[i] != 0 by {
            let la = decimal(a as int).len() as int;
            let lb = la + 1 + decimal(b as int).len() as int;
            let lc = lb + 1 + decimal(c as int).len() as int;
            if i < la {
                assert(is_digit(decimal(a as int)[i]));
            } else if i == la {
            } else if i < lb {
                assert(is_digit(decimal(b as int)[i - la - 1]));
            } else if i == lb {
            } else if i < lc {
                assert(is_digit(decimal(c as int)[i - lb - 1]));
            } else if i == lc {
            } else {
                assert(is_digit(decimal(d as int)[i - lc - 1]));
            }
        }
        assert forall|i: int| 0 <= i < red.len() implies red[i] != 0 by {
            if i < bang {
                assert(red[i] == version[i]);
            } else if i > bang {
                assert(red[i] == e.name[i - bang - 1]);
                assert(e.name.contains(e.name[i - bang - 1]));
            }
        }
    }
}

/// The payload of an entry as it reads in the section.
#[verifier::spinoff_prover]
#[verifier::rlimit(60)]
proof fn lemma_class_payload(s: Seq<u8>, at: int, e: ClassEntry)
    requires
        0 <= at,
        at + class_len(e) <= s.len(),
        s.len() <= u32::MAX,
        s.subrange(at, at + class_len(e)) == class_payload_bytes(e, at),
        class_storable(e),
        e.version.len() == 4,
    ensures
        counted_text_ok(s, at, 2 * e.name.len() as int),
        wide_at(s, at, e.name.len() as int) == e.name,
        le32(s, at + class_name_storage(e) + 8) == 2 * class_redirected(e).len(),
        le32(s, at + class_name_storage(e) + 16) == 2 * class_module(e).len(),
        le32(s, at + class_name_storage(e) + 20) == at + class_name_storage(e) + 24 + 2
            * class_redirected(e).len() + 2,
        class_data_ok(s, at + class_name_storage(e), e.name),
        class_end(s, at + class_name_storage(e)) == at + class_len(e),
        wide_at(s, at + class_name_storage(e) + 24, class_redirected(e).len() as int)
            == class_redirected(e),
        wide_at(
            s,
            at + class_name_storage(e) + 24 + 2 * class_redirected(e).len() + 2,
            class_module(e).len() as int,
        ) == class_module(e),
{
    broadcast use lemma_words_len, lemma_wide_bytes_len;

    let p = class_payload_bytes(e, at);
    let d = at + class_name_storage(e);
    let red = class_redirected(e);
    let module = class_module(e);
    let n = 2 * e.name.len() as int;
    let r = 2 * red.len() as int;
    let m = 2 * module.len() as int;
    let whole = s.subrange(at, at + class_len(e));
    lemma_class_piece_len(e, at);
    lemma_class_redirected(e);
    assert(p.subrange(0, n) =~= wide_bytes(e.name));
    lemma_sub_sub(s, at, p, 0, wide_bytes(e.name));
    assert(whole[n] == 0 && whole[n + 1] == 0);
    lemma_text_in(s, at, e.name);
    let data = class_data_bytes(e, d);
    assert(p.subrange(class_name_storage(e), class_name_storage(e) + data.len()) =~= data);
    lemma_sub_sub(s, at, p, class_name_storage(e), data);
    let ws = seq![24u32, 0, r as u32, 24, m as u32, (d + 24 + r + 2) as u32];
    let head = words(ws);
    assert(data.subrange(0, 24) =~= head);
    lemma_sub_sub(s, d, data, 0, head);
    lemma_words(ws, 0);
    lemma_words(ws, 1);
    lemma_words(ws, 2);
    lemma_words(ws, 3);
    lemma_words(ws, 4);
    lemma_words(ws, 5);
    lemma_sub_le32(s, d, head, 0);
    lemma_sub_le32(s, d, head, 4);
    lemma_sub_le32(s, d, head, 8);
    lemma_sub_le32(s, d, head, 12);
    lemma_sub_le32(s, d, head, 16);
    lemma_sub_le32(s, d, head, 20);
    let tail = s.subrange(d, d + data.len());
    assert(data.subrange(24, 24 + r) =~= wide_bytes(red));
    lemma_sub_sub(s, d, data, 24, wide_bytes(red));
    assert(tail[24 + r] == 0 && tail[24 + r + 1] == 0);
    lemma_text_in(s, d + 24, red);
    assert(data.subrange(24 + r + 2, 24 + r + 2 + m) =~= wide_bytes(module));
    lemma_sub_sub(s, d, data, 24 + r + 2, wide_bytes(module));
    assert(tail[24 + r + 2 + m] == 0 && tail[24 + r + 2 + m + 1] == 0);
    lemma_text_in(s, d + 24 + r + 2, module);
    assert(r / 2 == red.len());
}

/// Whether entry `k` of a section reads as `e`: its key, roster position, registered name and
/// module.
pub open spec fn class_entry_reads_as(s: Seq<u8>, k: int, e: ClassEntry) -> bool {
    let m = class_match_of(s, k);
    &&& class_key(s, k) == upcase_all(e.name)
    &&& m.assembly_roster_index == e.roster
    &&& wide_at(s, m.versioned_name_offset as int, m.versioned_name_length as int / 2)
        == class_redirected(e)
    &&& e.module == Some(wide_at(s, m.module_offset as int, m.module_length as int / 2))
}

/// A section that was built is well formed, and each of its entries reads back as it was given.
pub proof fn built_class_section_reads_back(assemblies: int, es: Seq<ClassEntry>)
    requires
        class_build(assemblies, es) is Ok,
        forall|k: int|
            0 <= k < es.len() ==> 1 <= (#[trigger] es[k]).roster <= assemblies
                && es[k].version.len() == 4,
    ensures
        class_section_ok(class_section(es), assemblies),
        le32(class_section(es), 20) == es.len(),
        forall|k: int|
            0 <= k < es.len() ==> #[trigger] class_entry_reads_as(class_section(es), k, es[k]),
{
    let s = class_section(es);
    let n = es.len() as int;
    let lens = class_lens(es);
    lemma_class_size(row_at(n), es);
    lemma_class_pieces(es);
    lemma_layout(string_header(n), class_rows(es), 24, class_payloads(es), lens);
    if n > 0 {
        lemma_layout_entry(string_header(n), class_rows(es), 24, class_payloads(es), lens, n - 1);
    }
    lemma_class_header_words(s, n);
    assert forall|k: int| 0 <= k < n implies #[trigger] class_entry_ok(s, assemblies, k)
        && class_entry_reads_as(s, k, es[k]) && class_start(s, k + 1) == class_at(es, k) + class_len(
        es[k],
    ) by {
        let e = es[k];
        let at = class_at(es, k);
        assert(class_storable(e));
        lemma_layout_entry(string_header(n), class_rows(es), 24, class_payloads(es), lens, k);
        lemma_class_row_words(s, row_at(k), e, at);
        lemma_class_payload(s, at, e);
        lemma_key_hash_bound(upcase_all(e.name));
        assert((2 * e.name.len() as int) / 2 == e.name.len());
        assert((2 * class_redirected(e).len() as int) / 2 == class_redirected(e).len());
        assert((2 * class_module(e).len() as int) / 2 == class_module(e).len());
        if k > 0 {
            let f = es[k - 1];
            let before = class_at(es, k - 1);
            assert(class_storable(f));
            lemma_layout_entry(
                string_header(n),
                class_rows(es),
                24,
                class_payloads(es),
                lens,
                k - 1,
            );
            lemma_class_row_words(s, row_at(k - 1), f, before);
            lemma_class_payload(s, before, f);
            lemma_sum_take(lens, k - 1);
        } else {
            assert(lens.take(0) =~= Seq::empty());
        }
    }
    assert forall|k: int| 0 <= k < n implies #[trigger] class_entry_reads_as(s, k, es[k]) by {
        assert(class_entry_ok(s, assemblies, k));
    }
    if n > 0 {
        assert(class_entry_ok(s, assemblies, n - 1));
        lemma_sum_take(lens, n - 1);
        assert(lens.take(n) =~= lens);
    }
}

proof fn lemma_class_entries(assemblies: Seq<WindowClassAssembly<'_>>)
    ensures
        forall|k: int|
            0 <= k < class_entries(assemblies).len() ==> {
                &&& 1 <= (#[trigger] class_entries(assemblies)[k]).roster <= assemblies.len()
                &&& class_entries(assemblies)[k].version.len() == 4
            },
    decreases assemblies.len(),
{
    if assemblies.len() > 0 {
        lemma_class_entries(assemblies.drop_last());
    }
}

/// Looking a class up in a section built from a roster finds the first entry of that class, in
/// assembly order.
pub proof fn built_class_section_finds_first(
    assemblies: Seq<WindowClassAssembly<'_>>,
    name: Seq<u16>,
    k: int,
)
    requires
        class_build(assemblies.len() as int, class_entries(assemblies)) is Ok,
        0 <= k < class_entries(assemblies).len(),
        upcase_all(class_entries(assemblies)[k].name) == upcase_all(name),
        forall|j: int|
            0 <= j < k ==> upcase_all(#[trigger] class_entries(assemblies)[j].name) != upcase_all(
                name,
            ),
    ensures
        class_first_match(class_section(class_entries(assemblies)), name, k),
{
    let es = class_entries(assemblies);
    let s = class_section(es);
    lemma_class_entries(assemblies);
    built_class_section_reads_back(assemblies.len() as int, es);
    assert(class_entry_reads_as(s, k, es[k]));
    assert forall|j: int| 0 <= j < k implies #[trigger] class_key(s, j) != upcase_all(name) by {
        assert(class_entry_reads_as(s, j, es[j]));
        assert(upcase_all(es[j].name) != upcase_all(name));
    }
}

// ---------------------------------------------------------------------------------------------
// Building
// ---------------------------------------------------------------------------------------------

impl<'a> WindowClassSectionEntry<'a> {
    spec fn model(self) -> ClassEntry {
        ClassEntry {
            name: self.name@,
            module: match self.module {
                Some(module) => Some(module@),
                None => None,
            },
            version: self.version@,
            versioned: self.versioned,
            roster: self.roster as int,
        }
    }
}

/// List the classes of a roster in order.
fn collect_classes<'a>(assemblies: &'a [WindowClassAssembly<'a>]) -> (out: Vec<
    WindowClassSectionEntry<'a>,
>)
    ensures
        out@.len() == class_entries(assemblies@).len(),
        forall|k: int|
            0 <= k < out@.len() ==> (#[trigger] out@[k]).model() == class_entries(assemblies@)[k],
{
    let mut out: Vec<WindowClassSectionEntry<'a>> = Vec::new();
    let n: usize = assemblies.len();
    let mut a: usize = 0;
    while a < n
        invariant
            n == assemblies@.len(),
            a <= assemblies@.len(),
            out@.len() == class_entries(assemblies@.take(a as int)).len(),
            forall|k: int|
                0 <= k < out@.len() ==> (#[trigger] out@[k]).model() == class_entries(
                    assemblies@.take(a as int),
                )[k],
        decreases assemblies@.len() - a,
    {
        let assembly = &assemblies[a];
        let classes = assembly.classes;
        let ghost before = class_entries(assemblies@.take(a as int));
        let ghost after = class_entries(assemblies@.take(a + 1));
        assert(assemblies@.take(a + 1).drop_last() =~= assemblies@.take(a as int));
        let mut i: usize = 0;
        while i < classes.len()
            invariant
                n == assemblies@.len(),
                a < n,
                *assembly == assemblies@[a as int],
                classes@ == assembly.classes@,
                after == before + Seq::new(
                    classes@.len(),
                    |i: int| class_entry_of(*assembly, i, a + 1),
                ),
                i <= classes@.len(),
                out@.len() == before.len() + i,
                forall|k: int| 0 <= k < out@.len() ==> (#[trigger] out@[k]).model() == after[k],
            decreases classes@.len() - i,
        {
            let class = &classes[i];
            let module: Option<&'a [u16]> = if class.file_index < assembly.files.len() {
                Some(assembly.files[class.file_index].name.as_slice())
            } else {
                None
            };
            let entry = WindowClassSectionEntry {
                name: class.name.as_slice(),
                module,
                version: assembly.version,
                versioned: class.versioned,
                roster: a as u64 + 1,
            };
            assert(entry.model() == class_entry_of(*assembly, i as int, a + 1));
            out.push(entry);
            i += 1;
        }
        a += 1;
    }
    assert(assemblies@.take(a as int) =~= assemblies@);
    out
}

/// The length of the registered class name.
fn redirected_class_units(entry: &WindowClassSectionEntry<'_>) -> (units: u128)
    ensures
        units == class_redirected(entry.model()).len(),
        units <= usize::MAX + 24,
{
    if !entry.versioned {
        return entry.name.len() as u128;
    }
    let a: usize = decimal_u16_digits(entry.version[0]);
    let b: usize = decimal_u16_digits(entry.version[1]);
    let c: usize = decimal_u16_digits(entry.version[2]);
    let d: usize = decimal_u16_digits(entry.version[3]);
    (a + b + c + d + 4) as u128 + entry.name.len() as u128
}

/// The registered class name.
fn build_redirected_class_name(entry: &WindowClassSectionEntry<'_>) -> (out: Vec<u16>)
    ensures
        out@ == class_redirected(entry.model()),
{
    let mut out: Vec<u16> = Vec::new();
    if entry.versioned {
        push_decimal_u16(&mut out, entry.version[0]);
        out.push(0x2e);
        push_decimal_u16(&mut out, entry.version[1]);
        out.push(0x2e);
        push_decimal_u16(&mut out, entry.version[2]);
        out.push(0x2e);
        push_decimal_u16(&mut out, entry.version[3]);
        out.push(0x21);
    }
    push_units(&mut out, entry.name);
    assert(out@ =~= class_redirected(entry.model()));
    out
}

/// The bytes that an entry takes, where it can be stored.
fn measure_class(entry: &WindowClassSectionEntry<'_>) -> (size: Option<u128>)
    ensures
        match size {
            Some(n) => class_storable(entry.model()) && n == class_len(entry.model()) && n
                <= 0x10_0000_0000_0000_0000,
            None => !class_storable(entry.model()),
        },
{
    let module: &[u16] = match entry.module {
        Some(module) => module,
        None => return None,
    };
    if entry.name.len() == 0 || has_unit(entry.name, 0) || module.len() == 0 || has_unit(module, 0)
    {
        return None;
    }
    let name: u128 = (2 * entry.name.len() as u128 + 5) / 4 * 4;
    let strings: u128 = 2 * redirected_class_units(entry) + 2 * module.len() as u128 + 4;
    Some(name + 24 + (strings + 3) / 4 * 4)
}

/// Append the redirection of an entry that will be stored at `d`.
fn push_class_data(out: &mut Vec<u8>, entry: &WindowClassSectionEntry<'_>, module: &[u16], d: u32)
    requires
        entry.module matches Some(m) && m@ == module@,
        d + 24 + up4(class_strings(entry.model())) <= u32::MAX,
    ensures
        final(out)@ == old(out)@ + class_data_bytes(entry.model(), d as int),
{
    let ghost e = entry.model();
    let ghost start = out@;
    let redirected = build_redirected_class_name(entry);
    let red_bytes: usize = 2 * redirected.len();
    let module_bytes: usize = 2 * module.len();
    let strings: usize = red_bytes + module_bytes + 4;
    let storage: usize = (strings + 3) / 4 * 4;
    let ws: [u32; 6] = [
        24,
        0,
        red_bytes as u32,
        24,
        module_bytes as u32,
        d + 24 + red_bytes as u32 + 2,
    ];
    assert(ws@ =~= seq![
        24u32,
        0,
        (2 * class_redirected(e).len()) as u32,
        24,
        (2 * class_module(e).len()) as u32,
        (d + 24 + 2 * class_redirected(e).len() + 2) as u32,
    ]);
    push_words(out, &ws);
    let ghost a = words(ws@);
    push_wide(out, redirected.as_slice());
    let ghost b = a + wide_bytes(redirected@);
    assert(out@ =~= start + b);
    push_zeros(out, 2);
    let ghost c = b + zero_bytes(2);
    assert(out@ =~= start + c);
    push_wide(out, module);
    let ghost f = c + wide_bytes(module@);
    assert(out@ =~= start + f);
    push_zeros(out, 2 + storage - strings);
    assert(out@ =~= start + (f + zero_bytes(2 + storage - strings)));
}

/// Append the payload of an entry that will be stored at `at`.
fn push_class_payload(out: &mut Vec<u8>, entry: &WindowClassSectionEntry<'_>, at: u32)
    requires
        class_storable(entry.model()),
        at + class_len(entry.model()) <= u32::MAX,
    ensures
        final(out)@ == old(out)@ + class_payload_bytes(entry.model(), at as int),
{
    let ghost start = out@;
    let module: &[u16] = match entry.module {
        Some(module) => module,
        None => return,
    };
    let name_bytes: usize = 2 * entry.name.len();
    let storage: usize = (name_bytes + 5) / 4 * 4;
    push_wide(out, entry.name);
    push_zeros(out, storage - name_bytes);
    let ghost head = wide_bytes(entry.name@) + zero_bytes(storage - name_bytes);
    assert(out@ =~= start + head);
    push_class_data(out, entry, module, at + storage as u32);
    assert(out@ =~= start + (head + class_data_bytes(entry.model(), at + storage)));
}

/// Append the index row of an entry whose payload is stored at `at`.
fn push_class_row(out: &mut Vec<u8>, entry: &WindowClassSectionEntry<'_>, at: u32)
    requires
        class_storable(entry.model()),
        at + class_len(entry.model()) <= u32::MAX,
        entry.roster <= u32::MAX,
    ensures
        final(out)@ == old(out)@ + class_row_bytes(entry.model(), at as int),
{
    let module_units: usize = match entry.module {
        Some(module) => module.len(),
        None => 0,
    };
    let name_bytes: usize = 2 * entry.name.len();
    let storage: usize = (name_bytes + 5) / 4 * 4;
    let strings: u128 = 2 * redirected_class_units(entry) + 2 * module_units as u128 + 4;
    let hash: u32 = match hash_unicode_string(entry.name, true, HASH_STRING_ALGORITHM_X65599) {
        Some(hash) => hash,
        None => 0,
    };
    let ws: [u32; 6] = [
        hash,
        at,
        name_bytes as u32,
        at + storage as u32,
        (24 + strings) as u32,
        entry.roster as u32,
    ];
    push_words(out, &ws);
    assert(ws@ =~= seq![
        x65599(upcase_all(entry.name@)) as u32,
        at as u32,
        (2 * entry.name@.len()) as u32,
        (at + storage) as u32,
        (24 + class_strings(entry.model())) as u32,
        entry.roster as u32,
    ]);
}

/// Build the section of an assembly roster, in assembly and declaration order.
pub fn build_window_class_redirection_section(assemblies: &[WindowClassAssembly<'_>]) -> (r: Result<
    Vec<u8>,
    NtStatus,
>)
    ensures
        match r {
            Ok(section) => class_build(assemblies@.len() as int, class_entries(assemblies@))
                == Ok::<Seq<u8>, NtStatus>(section@),
            Err(e) => class_build(assemblies@.len() as int, class_entries(assemblies@)) == Err::<
                Seq<u8>,
                NtStatus,
            >(e),
        },
{
    let entries = collect_classes(assemblies);
    let ghost es = class_entries(assemblies@);
    if assemblies.len() > 0xffff_ffff || entries.len() > 0xffff_ffff {
        return Err(STATUS_NO_MEMORY);
    }
    let base: u128 = 44 + 24 * entries.len() as u128;
    let ghost base_int = row_at(es.len() as int);
    assert(es.take(0) =~= Seq::empty());
    if base > usize::MAX as u128 {
        proof {
            lemma_class_size_error(base_int, es, 0);
        }
        return Err(STATUS_NO_MEMORY);
    }
    let mut total: u128 = base;
    let mut k: usize = 0;
    while k < entries.len()
        invariant
            k <= entries@.len(),
            entries@.len() == es.len(),
            es.len() <= u32::MAX,
            forall|k: int| 0 <= k < entries@.len() ==> (#[trigger] entries@[k]).model() == es[k],
            total <= usize::MAX,
            class_size(base_int, es.take(k as int)) == Ok::<int, NtStatus>(total as int),
            assemblies@.len() <= u32::MAX,
            es == class_entries(assemblies@),
            base_int == row_at(es.len() as int),
        decreases entries@.len() - k,
    {
        assert(es.take(k + 1).drop_last() =~= es.take(k as int));
        assert(entries@[k as int].model() == es[k as int]);
        match measure_class(&entries[k]) {
            Some(size) => {
                total = total + size;
            },
            None => {
                proof {
                    lemma_class_size_error(base_int, es, k + 1);
                }
                return Err(STATUS_SXS_INVALID_ACTCTXDATA_FORMAT);
            },
        }
        if total > usize::MAX as u128 {
            proof {
                lemma_class_size_error(base_int, es, k + 1);
            }
            return Err(STATUS_NO_MEMORY);
        }
        k += 1;
    }
    assert(es.take(k as int) =~= es);
    if total > 0xffff_ffff {
        return Err(STATUS_NO_MEMORY);
    }
    proof {
        lemma_class_size(base_int, es);
        lemma_class_entries(assemblies@);
        lemma_class_pieces(es);
    }
    let header: [u32; 11] = [
        STRSECTION_MAGIC,
        44,
        0,
        0,
        0,
        entries.len() as u32,
        44,
        0,
        0,
        0,
        0,
    ];
    let mut section: Vec<u8> = Vec::new();
    push_words(&mut section, &header);
    assert(header@ =~= seq![
        STRSECTION_MAGIC,
        44,
        0,
        0,
        0,
        es.len() as int as u32,
        44,
        0,
        0,
        0,
        0,
    ]);
    let mut payloads: Vec<u8> = Vec::new();
    assert(class_rows(es).take(0) =~= Seq::empty());
    assert(class_payloads(es).take(0) =~= Seq::empty());
    assert(class_lens(es).take(0) =~= Seq::empty());
    assert(section@ =~= string_header(es.len() as int) + flat(class_rows(es).take(0)));
    let mut k: usize = 0;
    while k < entries.len()
        invariant
            k <= entries@.len(),
            entries@.len() == es.len(),
            assemblies@.len() <= u32::MAX,
            base == row_at(es.len() as int),
            base + sum_of(class_lens(es)) <= u32::MAX,
            forall|k: int| 0 <= k < entries@.len() ==> (#[trigger] entries@[k]).model() == es[k],
            forall|k: int| 0 <= k < es.len() ==> class_storable(#[trigger] es[k]),
            forall|k: int|
                0 <= k < es.len() ==> {
                    &&& 1 <= (#[trigger] es[k]).roster <= assemblies@.len()
                    &&& es[k].version.len() == 4
                },
            forall|k: int| 0 <= k < es.len() ==> 0 <= #[trigger] class_lens(es)[k],
            forall|k: int|
                0 <= k < es.len() ==> (#[trigger] class_payloads(es)[k]).len() == class_lens(es)[k],
            section@ == string_header(es.len() as int) + flat(class_rows(es).take(k as int)),
            payloads@ == flat(class_payloads(es).take(k as int)),
            payloads@.len() == sum_of(class_lens(es).take(k as int)),
        decreases entries@.len() - k,
    {
        proof {
            lemma_sum_take(class_lens(es), k as int);
            assert(es[k as int].roster <= u32::MAX);
            assert(class_rows(es).take(k + 1).drop_last() =~= class_rows(es).take(k as int));
            assert(class_payloads(es).take(k + 1).drop_last() =~= class_payloads(es).take(k as int));
            assert(class_payloads(es)[k as int].len() == class_lens(es)[k as int]);
        }
        let entry = &entries[k];
        assert(entry.model() == es[k as int]);
        let at: u32 = (base + payloads.len() as u128) as u32;
        push_class_row(&mut section, entry, at);
        push_class_payload(&mut payloads, entry, at);
        assert(section@ =~= string_header(es.len() as int) + flat(class_rows(es).take(k + 1)));
        k += 1;
    }
    assert(class_rows(es).take(k as int) =~= class_rows(es));
    assert(class_payloads(es).take(k as int) =~= class_payloads(es));
    push_bytes(&mut section, payloads.as_slice());
    Ok(section)
}

// ---------------------------------------------------------------------------------------------
// Validation and lookup
// ---------------------------------------------------------------------------------------------

/// Read the text of `units` code units at `offset`.
fn read_text(section: &[u8], offset: usize, units: usize) -> (text: Vec<u16>)
    requires
        offset + 2 * units <= section@.len(),
    ensures
        text@ == wide_at(section@, offset as int, units as int),
{
    let end: usize = section.len();
    let mut text: Vec<u16> = Vec::new();
    let mut i: usize = 0;
    while i < units
        invariant
            end == section@.len(),
            i <= units,
            offset + 2 * units <= section@.len(),
            text@ == wide_at(section@, offset as int, i as int),
        decreases units - i,
    {
        text.push(get_u16(section, offset + 2 * i));
        i += 1;
        assert(text@ =~= wide_at(section@, offset as int, i as int));
    }
    text
}

/// Whether `redirected` belongs to the class `original`.
fn redirected_class_name_is_valid(original: &[u16], redirected: &[u16]) -> (ok: bool)
    ensures
        ok == class_name_ok(original@, redirected@),
{
    if same_units(original, redirected) {
        return true;
    }
    if redirected.len() <= original.len() {
        return false;
    }
    let bang: usize = redirected.len() - original.len() - 1;
    if redirected[bang] != 0x21 {
        return false;
    }
    let suffix = vstd::slice::slice_subrange(redirected, bang + 1, redirected.len());
    if !same_units(suffix, original) {
        return false;
    }
    let prefix = vstd::slice::slice_subrange(redirected, 0, bang);
    assert(prefix@ =~= redirected@.take(bang as int));
    parse_canonical_version(prefix)
}

/// Check the class redirection at `d` for a class named `name`.
fn check_class_data(section: &[u8], d: u64, name: &[u16]) -> (ok: bool)
    requires
        section@.len() <= u32::MAX,
        d <= 0x4_0000_0000,
    ensures
        ok == class_data_ok(section@, d as int, name@),
{
    if d + 24 > section.len() as u64 {
        return false;
    }
    let at: usize = d as usize;
    let redirected_length: u64 = get_u32(section, at + 8) as u64;
    let module_length: u64 = get_u32(section, at + 16) as u64;
    let end: u64 = d + 24 + (redirected_length + module_length + 7) / 4 * 4;
    let module_at: u64 = d + 24 + redirected_length + 2;
    if end > section.len() as u64 || get_u32(section, at) != 24 || get_u32(section, at + 4) != 0
        || get_u32(section, at + 12) != 24 || get_u32(section, at + 20) as u64 != module_at {
        return false;
    }
    if !check_counted_text(section, d + 24, redirected_length) || !check_counted_text(
        section,
        module_at,
        module_length,
    ) {
        return false;
    }
    let redirected = read_text(section, (d + 24) as usize, (redirected_length / 2) as usize);
    redirected_class_name_is_valid(name, redirected.as_slice())
}

/// Check entry `i`.
fn check_class_entry(section: &[u8], assembly_count: u32, i: u32, expected: u64) -> (ok: bool)
    requires
        class_header_ok(section@),
        i < le32(section@, 20),
        expected == class_start(section@, i as int),
    ensures
        ok == class_entry_ok(section@, assembly_count as int, i as int),
{
    let r: usize = 44 + 24 * i as usize;
    let hash: u32 = get_u32(section, r);
    let name_offset: u64 = get_u32(section, r + 4) as u64;
    let name_length: u64 = get_u32(section, r + 8) as u64;
    let d: u64 = get_u32(section, r + 12) as u64;
    let data_length: u64 = get_u32(section, r + 16) as u64;
    let roster: u32 = get_u32(section, r + 20);
    if name_offset != expected || roster == 0 || roster > assembly_count || d != name_offset + (
    name_length + 5) / 4 * 4 || !check_counted_text(section, name_offset, name_length) {
        return false;
    }
    if hash != hash_section_name(section, name_offset as usize, name_length as usize) {
        return false;
    }
    let name = read_text(section, name_offset as usize, (name_length / 2) as usize);
    if !check_class_data(section, d, name.as_slice()) {
        return false;
    }
    data_length == 24 + get_u32(section, d as usize + 8) as u64 + get_u32(
        section,
        d as usize + 16,
    ) as u64 + 4
}

/// Validate a complete section before any lookup result is exposed. `assembly_count` bounds the
/// roster positions; padding is not looked at.
pub fn validate_window_class_redirection_section(section: &[u8], assembly_count: u32) -> (r: Result<
    WindowClassRedirectionSection,
    NtStatus,
>)
    ensures
        r == (if class_section_ok(section@, assembly_count as int) {
            Ok::<WindowClassRedirectionSection, NtStatus>(
                WindowClassRedirectionSection {
                    count: le32(section@, 20),
                    index_offset: 44,
                    length: section@.len() as u32,
                },
            )
        } else {
            Err(STATUS_SXS_INVALID_ACTCTXDATA_FORMAT)
        }),
{
    if section.len() > 0xffff_ffff || section.len() < 44 || get_u32(section, 0) != STRSECTION_MAGIC
        || get_u32(section, 4) != 44 || get_u32(section, 8) != 0 || get_u32(section, 12) != 0
        || get_u32(section, 16) != 0 || get_u32(section, 24) != 44 || get_u32(section, 28) != 0
        || get_u32(section, 32) != 0 || get_u32(section, 36) != 0 || get_u32(section, 40) != 0 {
        return Err(STATUS_SXS_INVALID_ACTCTXDATA_FORMAT);
    }
    let count: u32 = get_u32(section, 20);
    if 44 + 24 * count as u64 > section.len() as u64 {
        return Err(STATUS_SXS_INVALID_ACTCTXDATA_FORMAT);
    }
    let mut expected: u64 = 44 + 24 * count as u64;
    let mut i: u32 = 0;
    while i < count
        invariant
            i <= count,
            count == le32(section@, 20),
            class_header_ok(section@),
            expected == class_start(section@, i as int),
            forall|j: int|
                0 <= j < i ==> #[trigger] class_entry_ok(section@, assembly_count as int, j),
        decreases count - i,
    {
        if !check_class_entry(section, assembly_count, i, expected) {
            return Err(STATUS_SXS_INVALID_ACTCTXDATA_FORMAT);
        }
        assert(class_entry_ok(section@, assembly_count as int, i as int));
        let d: usize = get_u32(section, 44 + 24 * i as usize + 12) as usize;
        expected = d as u64 + 24 + (get_u32(section, d + 8) as u64 + get_u32(section, d + 16) as u64
            + 7) / 4 * 4;
        i += 1;
    }
    if expected != section.len() as u64 {
        return Err(STATUS_SXS_INVALID_ACTCTXDATA_FORMAT);
    }
    Ok(WindowClassRedirectionSection { count, index_offset: 44, length: section.len() as u32 })
}

/// Find the first entry of the class `name`, where case does not count.
pub fn find_window_class_redirection(section: &[u8], assembly_count: u32, name: &[u16]) -> (r:
    Result<Option<WindowClassRedirectionMatch>, NtStatus>)
    ensures
        match r {
            Err(e) => e == STATUS_SXS_INVALID_ACTCTXDATA_FORMAT && !class_section_ok(
                section@,
                assembly_count as int,
            ),
            Ok(None) => class_section_ok(section@, assembly_count as int) && forall|i: int|
                !#[trigger] class_first_match(section@, name@, i),
            Ok(Some(m)) => class_section_ok(section@, assembly_count as int) && exists|i: int|
                #[trigger] class_first_match(section@, name@, i) && m == class_match_of(section@, i),
        },
{
    let metadata = match validate_window_class_redirection_section(section, assembly_count) {
        Ok(metadata) => metadata,
        Err(e) => return Err(e),
    };
    let hash: u32 = match hash_unicode_string(name, true, HASH_STRING_ALGORITHM_X65599) {
        Some(hash) => hash,
        None => return Err(STATUS_SXS_INVALID_ACTCTXDATA_FORMAT),
    };
    let mut i: u32 = 0;
    while i < metadata.count
        invariant
            i <= metadata.count,
            metadata.count == le32(section@, 20),
            class_section_ok(section@, assembly_count as int),
            hash == x65599(upcase_all(name@)),
            forall|j: int| 0 <= j < i ==> #[trigger] class_key(section@, j) != upcase_all(name@),
        decreases metadata.count - i,
    {
        assert(class_entry_ok(section@, assembly_count as int, i as int));
        let r: usize = 44 + 24 * i as usize;
        if get_u32(section, r) == hash {
            let name_offset: u32 = get_u32(section, r + 4);
            let name_length: u32 = get_u32(section, r + 8);
            if section_name_eq(section, name_offset as usize, name_length as usize, name) {
                let d: u32 = get_u32(section, r + 12);
                let found = WindowClassRedirectionMatch {
                    index_offset: r as u32,
                    name_offset,
                    name_length,
                    data_offset: d,
                    data_length: get_u32(section, r + 16),
                    versioned_name_offset: d + 24,
                    versioned_name_length: get_u32(section, d as usize + 8),
                    module_offset: get_u32(section, d as usize + 20),
                    module_length: get_u32(section, d as usize + 16),
                    assembly_roster_index: get_u32(section, r + 20),
                };
                assert(class_first_match(section@, name@, i as int));
                assert(found == class_match_of(section@, i as int));
                return Ok(Some(found));
            }
        }
        assert(class_key(section@, i as int) != upcase_all(name@));
        i += 1;
    }
    Ok(None)
}

} // verus!
