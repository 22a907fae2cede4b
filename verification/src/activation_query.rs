//! The packed answers to queries about an activation context.
//!
//! Fields that hold pointers hold offsets from the start of the answer: whoever hands it out adds
//! the address of the buffer to those that are not zero.

use vstd::prelude::*;

use crate::activation::STATUS_BUFFER_TOO_SMALL;
use crate::bytes::{
    flat, flat_offset, has_unit, le16_bytes, le32, le32_bytes, le64, lemma_flat_fixed,
    lemma_flat_piece, lemma_flat_push, lemma_sub_le32, lemma_sub_wide, lemma_wide_bytes,
    lemma_words, lemma_words_len, push_bytes, push_u16, push_u32, push_wide, push_words,
    push_zeros, wide_at, wide_bytes, words, zero_bytes,
};
use crate::{NtStatus, STATUS_INVALID_PARAMETER};

pub mod laws;

verus! {

pub const STATUS_NO_MEMORY: NtStatus = 0xC000_0017;

pub const ACTIVATION_CONTEXT_PATH_TYPE_NONE: u32 = 1;

pub const ACTIVATION_CONTEXT_PATH_TYPE_WIN32_FILE: u32 = 2;

pub const ACTIVATION_CONTEXT_PATH_TYPE_URL: u32 = 3;

pub const ACTIVATION_CONTEXT_PATH_TYPE_ASSEMBLYREF: u32 = 4;

pub const ACTIVATION_CONTEXT_SECTION_DLL_REDIRECTION: u32 = 2;

pub const ACTIVATION_CONTEXT_SECTION_WINDOW_CLASS_REDIRECTION: u32 = 3;

pub const ACTIVATION_CONTEXT_SECTION_COM_SERVER_REDIRECTION: u32 = 4;

pub const ACTIVATION_CONTEXT_SECTION_COM_INTERFACE_REDIRECTION: u32 = 5;

pub const ACTIVATION_CONTEXT_SECTION_COM_TYPE_LIBRARY_REDIRECTION: u32 = 6;

pub const ACTIVATION_CONTEXT_SECTION_CLR_SURROGATES: u32 = 9;

pub const ACTCTX_RUN_LEVEL_UNSPECIFIED: u32 = 0;

pub const ACTCTX_RUN_LEVEL_AS_INVOKER: u32 = 1;

pub const ACTCTX_RUN_LEVEL_HIGHEST_AVAILABLE: u32 = 2;

pub const ACTCTX_RUN_LEVEL_REQUIRE_ADMIN: u32 = 3;

pub const ACTCTX_COMPATIBILITY_ELEMENT_TYPE_UNKNOWN: u32 = 0;

pub const ACTCTX_COMPATIBILITY_ELEMENT_TYPE_OS: u32 = 1;

pub const ACTCTX_COMPATIBILITY_ELEMENT_TYPE_MITIGATION: u32 = 2;

pub const ACTCTX_COMPATIBILITY_ELEMENT_TYPE_MAXVERSIONTESTED: u32 = 3;

/// Where the pointers of the detailed information stand.
pub const DETAILED_INFORMATION_POINTER_FIELDS: [usize; 3] = [0x28, 0x30, 0x38];

/// Where the pointers of the detailed information on an assembly stand.
pub const ASSEMBLY_DETAILED_INFORMATION_POINTER_FIELDS: [usize; 4] = [0x40, 0x48, 0x50, 0x58];

/// Where the pointers of the detailed information on a file stand.
pub const ASSEMBLY_FILE_DETAILED_INFORMATION_POINTER_FIELDS: [usize; 2] = [0x10, 0x18];

/// The fixed size of the detailed information.
pub const DETAILED_SIZE: usize = 0x40;

/// The fixed size of the detailed information on an assembly.
pub const ASSEMBLY_DETAILED_SIZE: usize = 0x68;

/// The fixed size of the detailed information on a file.
pub const FILE_DETAILED_SIZE: usize = 0x20;

/// The size of the run level information.
pub const RUN_LEVEL_SIZE: usize = 0x0c;

/// The size of what stands before the compatibility elements.
pub const COMPATIBILITY_HEADER_SIZE: usize = 8;

/// The size of a compatibility element.
pub const COMPATIBILITY_ELEMENT_SIZE: usize = 0x20;

/// The fixed part of the detailed information on a context.
#[derive(Clone, Copy, Debug, Default, PartialEq, Eq)]
pub struct ActivationContextDetailedInformation64 {
    pub flags: u32,
    pub format_version: u32,
    pub assembly_count: u32,
    pub root_manifest_path_type: u32,
    pub root_manifest_path_chars: u32,
    pub root_configuration_path_type: u32,
    pub root_configuration_path_chars: u32,
    pub application_directory_path_type: u32,
    pub application_directory_path_chars: u32,
    pub padding: u32,
    pub root_manifest_path: u64,
    pub root_configuration_path: u64,
    pub application_directory_path: u64,
}

/// The fixed part of the detailed information on an assembly.
#[derive(Clone, Copy, Debug, Default, PartialEq, Eq)]
pub struct ActivationContextAssemblyDetailedInformation64 {
    pub flags: u32,
    pub encoded_assembly_identity_length: u32,
    pub manifest_path_type: u32,
    pub manifest_path_length: u32,
    pub manifest_last_write_time: i64,
    pub policy_path_type: u32,
    pub policy_path_length: u32,
    pub policy_last_write_time: i64,
    pub metadata_satellite_roster_index: u32,
    pub manifest_version_major: u32,
    pub manifest_version_minor: u32,
    pub policy_version_major: u32,
    pub policy_version_minor: u32,
    pub assembly_directory_name_length: u32,
    pub encoded_assembly_identity: u64,
    pub manifest_path: u64,
    pub policy_path: u64,
    pub assembly_directory_name: u64,
    pub file_count: u32,
    pub padding: u32,
}

/// Which file a query is about. Both indices start at zero.
#[derive(Clone, Copy, Debug, Default, PartialEq, Eq)]
pub struct ActivationContextQueryIndex {
    pub assembly_index: u32,
    pub file_index_in_assembly: u32,
}

/// The fixed part of the detailed information on a file.
#[derive(Clone, Copy, Debug, Default, PartialEq, Eq)]
pub struct AssemblyFileDetailedInformation64 {
    pub flags: u32,
    pub filename_length: u32,
    pub path_length: u32,
    pub padding: u32,
    pub file_name: u64,
    pub file_path: u64,
}

/// The run level information.
#[derive(Clone, Copy, Debug, Default, PartialEq, Eq)]
pub struct ActivationContextRunLevelInformation {
    pub flags: u32,
    pub run_level: u32,
    pub ui_access: u32,
}

/// A GUID by its fields.
#[derive(Clone, Copy, Debug, Default, PartialEq, Eq)]
pub struct CompatibilityGuid {
    pub data1: u32,
    pub data2: u16,
    pub data3: u16,
    pub data4: [u8; 8],
}

/// What a manifest says on compatibility.
#[derive(Clone, Copy, Debug, Default, PartialEq, Eq)]
pub struct CompatibilityContextElement {
    pub id: CompatibilityGuid,
    pub element_type: u32,
    pub padding: u32,
    pub max_version_tested: u64,
}

/// What stands before the compatibility elements.
#[derive(Clone, Copy, Debug, Default, PartialEq, Eq)]
pub struct ActivationContextCompatibilityInformationHeader {
    pub element_count: u32,
    pub padding: u32,
}

/// What the detailed information on a context says.
#[derive(Clone, Copy, Debug, PartialEq, Eq)]
pub struct DetailedQuery<'a> {
    pub format_version: u32,
    pub assembly_count: u32,
    pub root_manifest_path_type: u32,
    pub root_manifest_path: Option<&'a [u16]>,
    pub root_configuration_path_type: u32,
    pub root_configuration_path: Option<&'a [u16]>,
    pub application_directory_path_type: u32,
    pub application_directory_path: Option<&'a [u16]>,
}

/// What the detailed information on an assembly says.
#[derive(Clone, Copy, Debug, PartialEq, Eq)]
pub struct AssemblyDetailedQuery<'a> {
    pub encoded_assembly_identity: Option<&'a [u16]>,
    pub manifest_path_type: u32,
    pub manifest_path: Option<&'a [u16]>,
    pub assembly_directory_name: Option<&'a [u16]>,
    pub file_count: u32,
}

/// What the detailed information on a file says.
#[derive(Clone, Copy, Debug, PartialEq, Eq)]
pub struct FileDetailedQuery<'a> {
    pub file_name: Option<&'a [u16]>,
}

/// What the run level information says.
#[derive(Clone, Copy, Debug, Default, PartialEq, Eq)]
pub struct RunLevelQuery {
    pub run_level: u32,
    pub ui_access: bool,
}

/// A text, if there is one.
pub open spec fn text(v: Option<&[u16]>) -> Option<Seq<u16>> {
    match v {
        Some(w) => Some(w@),
        None => None,
    }
}

/// Texts, as far as there are any.
pub open spec fn texts(vs: Seq<Option<&[u16]>>) -> Seq<Option<Seq<u16>>> {
    vs.map_values(|v: Option<&[u16]>| text(v))
}

impl<'a> DetailedQuery<'a> {
    /// The texts, in the order in which they are stored.
    pub open spec fn texts(self) -> Seq<Option<Seq<u16>>> {
        seq![
            text(self.root_manifest_path),
            text(self.root_configuration_path),
            text(self.application_directory_path),
        ]
    }
}

impl<'a> AssemblyDetailedQuery<'a> {
    /// The texts, in the order in which they are stored.
    pub open spec fn texts(self) -> Seq<Option<Seq<u16>>> {
        seq![
            text(self.encoded_assembly_identity),
            text(self.manifest_path),
            text(self.assembly_directory_name),
        ]
    }
}

impl<'a> FileDetailedQuery<'a> {
    /// The text that is stored.
    pub open spec fn texts(self) -> Seq<Option<Seq<u16>>> {
        seq![text(self.file_name)]
    }
}

/// How many code units a text has.
pub open spec fn unit_count(v: Option<Seq<u16>>) -> int {
    match v {
        Some(w) => w.len() as int,
        None => 0,
    }
}

/// How many bytes a text takes with its terminator.
pub open spec fn stored_len(v: Option<Seq<u16>>) -> int {
    match v {
        Some(w) => 2 * (w.len() as int + 1),
        None => 0,
    }
}

/// The bytes of a text with its terminator.
pub open spec fn stored(v: Option<Seq<u16>>) -> Seq<u8> {
    match v {
        Some(w) => wide_bytes(w.push(0)),
        None => Seq::empty(),
    }
}

/// The bytes of texts, one behind the other.
pub open spec fn stored_all(vs: Seq<Option<Seq<u16>>>) -> Seq<u8> {
    flat(vs.map_values(|v: Option<Seq<u16>>| stored(v)))
}

/// Where text `k` is stored, if the first one is stored at `base`.
pub open spec fn place(vs: Seq<Option<Seq<u16>>>, base: int, k: int) -> int
    decreases k,
{
    if k <= 0 {
        base
    } else {
        place(vs, base, k - 1) + stored_len(vs[k - 1])
    }
}

/// What the pointer of text `k` holds.
pub open spec fn pointer(vs: Seq<Option<Seq<u16>>>, base: int, k: int) -> int {
    if vs[k] is Some {
        place(vs, base, k)
    } else {
        0
    }
}

/// The low half of a pointer.
pub open spec fn low(p: int) -> u32 {
    (p % 0x1_0000_0000) as u32
}

/// The high half of a pointer.
pub open spec fn high(p: int) -> u32 {
    (p / 0x1_0000_0000) as u32
}

/// The size of `base` bytes and the first `k` texts. Texts with a zero in them, or of too many code
/// units, are refused.
pub open spec fn size_of(base: usize, vs: Seq<Option<Seq<u16>>>, k: int) -> Result<usize, NtStatus>
    decreases k,
{
    if k <= 0 {
        Ok(base)
    } else {
        match (size_of(base, vs, k - 1), vs[k - 1]) {
            (Err(e), _) => Err(e),
            (Ok(n), None) => Ok(n),
            (Ok(n), Some(w)) => if w.contains(0) || w.len() > u32::MAX {
                Err(STATUS_INVALID_PARAMETER)
            } else if n + 2 * (w.len() + 1) > usize::MAX {
                Err(STATUS_NO_MEMORY)
            } else {
                Ok((n + 2 * (w.len() + 1)) as usize)
            },
        }
    }
}

/// Whether the length of a text in bytes is a 32-bit number.
pub open spec fn has_byte_count(v: Option<Seq<u16>>) -> bool {
    2 * unit_count(v) <= u32::MAX
}

/// The size of the detailed information on a context.
pub open spec fn detailed_size(q: DetailedQuery<'_>) -> Result<usize, NtStatus> {
    size_of(DETAILED_SIZE, q.texts(), 3)
}

/// The size of the detailed information on an assembly.
pub open spec fn assembly_detailed_size(q: AssemblyDetailedQuery<'_>) -> Result<usize, NtStatus> {
    if exists|k: int| 0 <= k < 3 && !has_byte_count(#[trigger] q.texts()[k]) {
        Err(STATUS_NO_MEMORY)
    } else {
        size_of(ASSEMBLY_DETAILED_SIZE, q.texts(), 3)
    }
}

/// The size of the detailed information on a file.
pub open spec fn file_detailed_size(q: FileDetailedQuery<'_>) -> Result<usize, NtStatus> {
    size_of(FILE_DETAILED_SIZE, q.texts(), 1)
}

/// The size of the compatibility information.
pub open spec fn compatibility_size(count: int) -> Result<usize, NtStatus> {
    let size = COMPATIBILITY_HEADER_SIZE + count * COMPATIBILITY_ELEMENT_SIZE;
    if count > u32::MAX || size > usize::MAX {
        Err(STATUS_NO_MEMORY)
    } else {
        Ok(size as usize)
    }
}

/// The fixed part of the detailed information on a context.
pub open spec fn detailed_words(q: DetailedQuery<'_>) -> Seq<u32> {
    let vs = q.texts();
    seq![
        0u32,
        q.format_version,
        q.assembly_count,
        q.root_manifest_path_type,
        unit_count(vs[0]) as u32,
        q.root_configuration_path_type,
        unit_count(vs[1]) as u32,
        q.application_directory_path_type,
        unit_count(vs[2]) as u32,
        0,
        low(pointer(vs, 0x40, 0)),
        high(pointer(vs, 0x40, 0)),
        low(pointer(vs, 0x40, 1)),
        high(pointer(vs, 0x40, 1)),
        low(pointer(vs, 0x40, 2)),
        high(pointer(vs, 0x40, 2)),
    ]
}

/// The detailed information on a context.
pub open spec fn detailed_bytes(q: DetailedQuery<'_>) -> Seq<u8> {
    words(detailed_words(q)) + stored_all(q.texts())
}

/// The fixed part of the detailed information on an assembly.
pub open spec fn assembly_detailed_words(q: AssemblyDetailedQuery<'_>) -> Seq<u32> {
    let vs = q.texts();
    seq![
        0u32,
        (2 * unit_count(vs[0])) as u32,
        q.manifest_path_type,
        (2 * unit_count(vs[1])) as u32,
        0,
        0,
        ACTIVATION_CONTEXT_PATH_TYPE_NONE,
        0,
        0,
        0,
        0,
        1,
        0,
        0,
        0,
        (2 * unit_count(vs[2])) as u32,
        low(pointer(vs, 0x68, 0)),
        high(pointer(vs, 0x68, 0)),
        low(pointer(vs, 0x68, 1)),
        high(pointer(vs, 0x68, 1)),
        0,
        0,
        low(pointer(vs, 0x68, 2)),
        high(pointer(vs, 0x68, 2)),
        q.file_count,
        0,
    ]
}

/// The detailed information on an assembly. Times are zero, the version of the manifest is 1.0, and
/// there is no policy.
pub open spec fn assembly_detailed_bytes(q: AssemblyDetailedQuery<'_>) -> Seq<u8> {
    words(assembly_detailed_words(q)) + stored_all(q.texts())
}

/// The fixed part of the detailed information on a file.
pub open spec fn file_detailed_words(q: FileDetailedQuery<'_>) -> Seq<u32> {
    let vs = q.texts();
    seq![
        ACTIVATION_CONTEXT_SECTION_DLL_REDIRECTION,
        (2 * unit_count(vs[0])) as u32,
        0,
        0,
        low(pointer(vs, 0x20, 0)),
        high(pointer(vs, 0x20, 0)),
        0,
        0,
    ]
}

/// The detailed information on a file.
pub open spec fn file_detailed_bytes(q: FileDetailedQuery<'_>) -> Seq<u8> {
    words(file_detailed_words(q)) + stored_all(q.texts())
}

/// The run level information.
pub open spec fn runlevel_bytes(q: RunLevelQuery) -> Seq<u8> {
    words(
        seq![
            0u32,
            q.run_level,
            if q.ui_access {
                1
            } else {
                0
            },
        ],
    )
}

/// A compatibility element.
pub open spec fn element_bytes(e: CompatibilityContextElement) -> Seq<u8> {
    le32_bytes(e.id.data1) + le16_bytes(e.id.data2) + le16_bytes(e.id.data3) + e.id.data4@ + words(
        seq![
            e.element_type,
            0,
            low(e.max_version_tested as int),
            high(e.max_version_tested as int),
        ],
    )
}

/// The compatibility information.
pub open spec fn compatibility_bytes(es: Seq<CompatibilityContextElement>) -> Seq<u8> {
    words(seq![es.len() as u32, 0]) + flat(
        es.map_values(|e: CompatibilityContextElement| element_bytes(e)),
    )
}

/// What a buffer holds once an answer was written to its start.
pub open spec fn overwritten(buffer: Seq<u8>, answer: Seq<u8>) -> Seq<u8> {
    answer + buffer.skip(answer.len() as int)
}

/// Convert an index into the assembly roster that starts at one.
pub fn validate_roster_index(roster_index: u32, assembly_count: u32) -> (r: Result<usize, NtStatus>)
    ensures
        r == if roster_index == 0 || roster_index > assembly_count {
            Err::<usize, NtStatus>(STATUS_INVALID_PARAMETER)
        } else {
            Ok((roster_index - 1) as usize)
        },
{
    if roster_index == 0 || roster_index > assembly_count {
        return Err(STATUS_INVALID_PARAMETER);
    }
    Ok((roster_index - 1) as usize)
}

/// Check the indices of an assembly and of a file in it.
pub fn validate_file_query_index(
    index: ActivationContextQueryIndex,
    assembly_file_counts: &[usize],
) -> (r: Result<(usize, usize), NtStatus>)
    ensures
        r == if index.assembly_index < assembly_file_counts@.len() && index.file_index_in_assembly
            < assembly_file_counts@[index.assembly_index as int] {
            Ok::<(usize, usize), NtStatus>(
                (index.assembly_index as usize, index.file_index_in_assembly as usize),
            )
        } else {
            Err(STATUS_INVALID_PARAMETER)
        },
{
    let assembly_index: usize = index.assembly_index as usize;
    if assembly_index >= assembly_file_counts.len() {
        return Err(STATUS_INVALID_PARAMETER);
    }
    let file_index: usize = index.file_index_in_assembly as usize;
    if file_index >= assembly_file_counts[assembly_index] {
        return Err(STATUS_INVALID_PARAMETER);
    }
    Ok((assembly_index, file_index))
}

/// The size of `base` bytes and of texts with their terminators.
pub fn checked_required_size(base: usize, strings: &[Option<&[u16]>]) -> (r: Result<
    usize,
    NtStatus,
>)
    ensures
        r == size_of(base, texts(strings@), strings@.len() as int),
{
    let ghost vs = texts(strings@);
    let mut required: usize = base;
    let mut i: usize = 0;
    while i < strings.len()
        invariant
            i <= strings@.len(),
            vs == texts(strings@),
            size_of(base, vs, i as int) == Ok::<usize, NtStatus>(required),
        decreases strings@.len() - i,
    {
        let ghost next = size_of(base, vs, i + 1);
        assert(vs[i as int] == text(strings@[i as int]));
        match strings[i] {
            Some(value) => {
                if has_unit(value, 0) || value.len() as u64 > u32::MAX as u64 {
                    proof {
                        lemma_errors_stay(base, vs, i + 1, vs.len() as int);
                    }
                    return Err(STATUS_INVALID_PARAMETER);
                }
                if value.len() as u128 * 2 + 2 + required as u128 > usize::MAX as u128 {
                    proof {
                        lemma_errors_stay(base, vs, i + 1, vs.len() as int);
                    }
                    return Err(STATUS_NO_MEMORY);
                }
                required = required + 2 * (value.len() + 1);
            },
            None => {},
        }
        i += 1;
        assert(next == Ok::<usize, NtStatus>(required));
    }
    Ok(required)
}

proof fn lemma_errors_stay(base: usize, vs: Seq<Option<Seq<u16>>>, k: int, n: int)
    requires
        0 <= k <= n,
        size_of(base, vs, k) is Err,
    ensures
        size_of(base, vs, n) == size_of(base, vs, k),
    decreases n - k,
{
    if k < n {
        lemma_errors_stay(base, vs, k, n - 1);
    }
}

/// A size that is granted is where the next text would stand, and every text before it is short.
proof fn lemma_granted(base: usize, vs: Seq<Option<Seq<u16>>>, k: int)
    requires
        0 <= k <= vs.len(),
        size_of(base, vs, k) is Ok,
    ensures
        size_of(base, vs, k)->Ok_0 == place(vs, base as int, k),
        forall|j: int|
            0 <= j <= k ==> base <= #[trigger] place(vs, base as int, j) <= place(
                vs,
                base as int,
                k,
            ),
        forall|j: int| 0 <= j < k ==> unit_count(#[trigger] vs[j]) <= u32::MAX,
    decreases k,
{
    if k > 0 {
        lemma_granted(base, vs, k - 1);
    }
}

proof fn lemma_stored_all(vs: Seq<Option<Seq<u16>>>, base: int, k: int)
    requires
        0 <= k <= vs.len(),
    ensures
        base + flat_offset(vs.map_values(|v: Option<Seq<u16>>| stored(v)), k) == place(vs, base, k),
    decreases k,
{
    let parts = vs.map_values(|v: Option<Seq<u16>>| stored(v));
    if k > 0 {
        lemma_stored_all(vs, base, k - 1);
        lemma_flat_piece(parts, k - 1);
        assert(parts[k - 1] == stored(vs[k - 1]));
        match vs[k - 1] {
            Some(w) => lemma_wide_bytes(w.push(0)),
            None => {},
        }
    }
}

/// A text that was stored behind a header reads back from where its pointer points, with its
/// terminator.
pub proof fn stored_text_reads_back(header: Seq<u8>, vs: Seq<Option<Seq<u16>>>, k: int)
    requires
        0 <= k < vs.len(),
        vs[k] is Some,
    ensures
        wide_at(
            header + stored_all(vs),
            pointer(vs, header.len() as int, k),
            vs[k]->Some_0.len() as int + 1,
        ) == vs[k]->Some_0.push(0),
{
    let parts = vs.map_values(|v: Option<Seq<u16>>| stored(v));
    let w = vs[k]->Some_0.push(0);
    lemma_stored_all(vs, header.len() as int, k);
    lemma_flat_piece(parts, k);
    assert(parts[k] == wide_bytes(w));
    lemma_wide_bytes(w);
    let all = header + stored_all(vs);
    let at = header.len() + flat_offset(parts, k);
    assert(all.subrange(at, at + wide_bytes(w).len()) =~= flat(parts).subrange(
        flat_offset(parts, k),
        flat_offset(parts, k + 1),
    ));
    lemma_sub_wide(all, at, wide_bytes(w), 0, w.len() as int);
}

proof fn lemma_word(ws: Seq<u32>, tail: Seq<u8>, k: int)
    requires
        0 <= k < ws.len(),
    ensures
        le32(words(ws) + tail, 4 * k) == ws[k],
{
    lemma_words(ws, k);
    let all = words(ws) + tail;
    assert(all.subrange(0, 0 + words(ws).len() as int) =~= words(ws));
    lemma_sub_le32(all, 0, words(ws), 4 * k);
}

proof fn lemma_halves(p: int)
    requires
        0 <= p <= u64::MAX,
    ensures
        low(p) + 0x1_0000_0000 * high(p) == p,
{
}

/// In the detailed information on a context, the counts are those of the texts, and a text that is
/// there reads back from where its pointer points. The pointer of a text that is not there is zero.
pub proof fn detailed_texts_read_back(q: DetailedQuery<'_>, k: int)
    requires
        0 <= k < 3,
        detailed_size(q) is Ok,
    ensures
        detailed_bytes(q).len() == detailed_size(q)->Ok_0,
        le32(detailed_bytes(q), 0x10 + 8 * k) == unit_count(q.texts()[k]),
        q.texts()[k] is None ==> le64(detailed_bytes(q), 0x28 + 8 * k) == 0,
        q.texts()[k] matches Some(w) ==> wide_at(
            detailed_bytes(q),
            le64(detailed_bytes(q), 0x28 + 8 * k) as int,
            w.len() as int + 1,
        ) == w.push(0),
{
    let vs = q.texts();
    let ws = detailed_words(q);
    lemma_granted(DETAILED_SIZE, vs, 3);
    lemma_words_len(ws);
    lemma_word(ws, stored_all(vs), 4 + 2 * k);
    lemma_word(ws, stored_all(vs), 10 + 2 * k);
    lemma_word(ws, stored_all(vs), 11 + 2 * k);
    assert(0x28 + 8 * k + 4 == 4 * (11 + 2 * k));
    let _ = place(vs, 0x40, k);
    lemma_halves(pointer(vs, 0x40, k));
    lemma_stored_all(vs, 0x40, 3);
    let parts = vs.map_values(|v: Option<Seq<u16>>| stored(v));
    assert(parts.take(3) =~= parts);
    assert(detailed_bytes(q) == words(ws) + stored_all(vs));
    if vs[k] is Some {
        stored_text_reads_back(words(ws), vs, k);
    }
}

/// The pointer word and the length word of text `k` of an assembly.
pub open spec fn assembly_pointer_field(k: int) -> int {
    if k == 0 {
        0x40
    } else if k == 1 {
        0x48
    } else {
        0x58
    }
}

/// The length word of text `k` of an assembly.
pub open spec fn assembly_length_field(k: int) -> int {
    if k == 0 {
        0x04
    } else if k == 1 {
        0x0c
    } else {
        0x3c
    }
}

/// In the detailed information on an assembly, the lengths are those of the texts in bytes, and a
/// text that is there reads back from where its pointer points. The pointer of a text that is not
/// there is zero.
pub proof fn assembly_texts_read_back(q: AssemblyDetailedQuery<'_>, k: int)
    requires
        0 <= k < 3,
        assembly_detailed_size(q) is Ok,
    ensures
        assembly_detailed_bytes(q).len() == assembly_detailed_size(q)->Ok_0,
        le32(assembly_detailed_bytes(q), assembly_length_field(k)) == 2 * unit_count(q.texts()[k]),
        q.texts()[k] is None ==> le64(assembly_detailed_bytes(q), assembly_pointer_field(k)) == 0,
        q.texts()[k] matches Some(w) ==> wide_at(
            assembly_detailed_bytes(q),
            le64(assembly_detailed_bytes(q), assembly_pointer_field(k)) as int,
            w.len() as int + 1,
        ) == w.push(0),
{
    let vs = q.texts();
    let ws = assembly_detailed_words(q);
    assert(has_byte_count(vs[k]));
    lemma_granted(ASSEMBLY_DETAILED_SIZE, vs, 3);
    lemma_words_len(ws);
    let field = assembly_pointer_field(k) / 4;
    lemma_word(ws, stored_all(vs), assembly_length_field(k) / 4);
    lemma_word(ws, stored_all(vs), field);
    lemma_word(ws, stored_all(vs), field + 1);
    assert(4 * field + 4 == 4 * (field + 1));
    let _ = place(vs, 0x68, k);
    lemma_halves(pointer(vs, 0x68, k));
    lemma_stored_all(vs, 0x68, 3);
    let parts = vs.map_values(|v: Option<Seq<u16>>| stored(v));
    assert(parts.take(3) =~= parts);
    assert(assembly_detailed_bytes(q) == words(ws) + stored_all(vs));
    if vs[k] is Some {
        stored_text_reads_back(words(ws), vs, k);
    }
}

/// The required size of the detailed information on a context.
pub fn detailed_required_size(query: &DetailedQuery<'_>) -> (r: Result<usize, NtStatus>)
    ensures
        r == detailed_size(*query),
{
    let strings: [Option<&[u16]>; 3] = [
        query.root_manifest_path,
        query.root_configuration_path,
        query.application_directory_path,
    ];
    assert(texts(strings@) =~= query.texts());
    checked_required_size(DETAILED_SIZE, &strings)
}

/// Whether the length of a text in bytes is a 32-bit number.
fn byte_count_fits(value: Option<&[u16]>) -> (fits: bool)
    ensures
        fits == has_byte_count(text(value)),
{
    match value {
        Some(w) => w.len() as u128 * 2 <= u32::MAX as u128,
        None => true,
    }
}

/// The required size of the detailed information on an assembly.
pub fn assembly_detailed_required_size(query: &AssemblyDetailedQuery<'_>) -> (r: Result<
    usize,
    NtStatus,
>)
    ensures
        r == assembly_detailed_size(*query),
{
    let strings: [Option<&[u16]>; 3] = [
        query.encoded_assembly_identity,
        query.manifest_path,
        query.assembly_directory_name,
    ];
    assert(texts(strings@) =~= query.texts());
    let ghost vs = query.texts();
    if !byte_count_fits(query.encoded_assembly_identity) {
        assert(!has_byte_count(vs[0]));
        return Err(STATUS_NO_MEMORY);
    }
    if !byte_count_fits(query.manifest_path) {
        assert(!has_byte_count(vs[1]));
        return Err(STATUS_NO_MEMORY);
    }
    if !byte_count_fits(query.assembly_directory_name) {
        assert(!has_byte_count(vs[2]));
        return Err(STATUS_NO_MEMORY);
    }
    assert(forall|k: int| 0 <= k < 3 ==> has_byte_count(#[trigger] vs[k]));
    checked_required_size(ASSEMBLY_DETAILED_SIZE, &strings)
}

/// The required size of the detailed information on a file.
pub fn file_detailed_required_size(query: &FileDetailedQuery<'_>) -> (r: Result<usize, NtStatus>)
    ensures
        r == file_detailed_size(*query),
{
    let strings: [Option<&[u16]>; 1] = [query.file_name];
    assert(texts(strings@) =~= query.texts());
    checked_required_size(FILE_DETAILED_SIZE, &strings)
}

/// The size of the run level information.
pub fn runlevel_required_size() -> (size: usize)
    ensures
        size == RUN_LEVEL_SIZE,
{
    RUN_LEVEL_SIZE
}

/// The required size of the compatibility information.
pub fn compatibility_required_size(elements: &[CompatibilityContextElement]) -> (r: Result<
    usize,
    NtStatus,
>)
    ensures
        r == compatibility_size(elements@.len() as int),
{
    if elements.len() as u64 > u32::MAX as u64 {
        return Err(STATUS_NO_MEMORY);
    }
    let size: u64 = 8 + elements.len() as u64 * 0x20;
    if size > usize::MAX as u64 {
        return Err(STATUS_NO_MEMORY);
    }
    Ok(size as usize)
}

/// How many code units a text has.
fn count_units(value: Option<&[u16]>) -> (count: usize)
    ensures
        count == unit_count(text(value)),
{
    match value {
        Some(w) => w.len(),
        None => 0,
    }
}

/// Where the text behind one that is stored at `at` is stored.
fn place_behind(at: usize, value: Option<&[u16]>) -> (next: usize)
    requires
        at + stored_len(text(value)) <= usize::MAX,
    ensures
        next == at + stored_len(text(value)),
{
    match value {
        Some(w) => at + 2 * (w.len() + 1),
        None => at,
    }
}

/// The pointer to a text that is stored at `at`.
fn pointer_to(at: usize, value: Option<&[u16]>) -> (p: u64)
    ensures
        p == if value is Some {
            at as u64
        } else {
            0
        },
{
    match value {
        Some(_) => at as u64,
        None => 0,
    }
}

/// The low half of a pointer.
fn low_half(p: u64) -> (half: u32)
    ensures
        half == low(p as int),
{
    (p % 0x1_0000_0000) as u32
}

/// The high half of a pointer.
fn high_half(p: u64) -> (half: u32)
    ensures
        half == high(p as int),
{
    (p / 0x1_0000_0000) as u32
}

/// Append a text with its terminator.
fn push_text(out: &mut Vec<u8>, value: Option<&[u16]>)
    ensures
        final(out)@ == old(out)@ + stored(text(value)),
{
    match value {
        Some(w) => {
            push_wide(out, w);
            push_u16(out, 0);
            assert(wide_bytes(w@) + le16_bytes(0) =~= wide_bytes(w@.push(0))) by {
                reveal(wide_bytes);
                let a = wide_bytes(w@) + le16_bytes(0);
                let b = wide_bytes(w@.push(0));
                assert forall|i: int| 0 <= i < b.len() implies a[i] == b[i] by {
                    if i < 2 * w@.len() {
                        assert(w@.push(0)[i / 2] == w@[i / 2]);
                    }
                }
            }
            assert(out@ =~= old(out)@ + (wide_bytes(w@) + le16_bytes(0)));
        },
        None => {
            assert(out@ =~= old(out)@ + stored(text(value)));
        },
    }
}

/// Append texts with their terminators.
fn push_texts(out: &mut Vec<u8>, values: &[Option<&[u16]>])
    ensures
        final(out)@ == old(out)@ + stored_all(texts(values@)),
{
    let ghost parts = texts(values@).map_values(|v: Option<Seq<u16>>| stored(v));
    let mut i: usize = 0;
    assert(parts.take(0) =~= Seq::<Seq<u8>>::empty());
    assert(out@ =~= old(out)@ + flat(parts.take(0)));
    while i < values.len()
        invariant
            i <= values@.len(),
            parts == texts(values@).map_values(|v: Option<Seq<u16>>| stored(v)),
            out@ == old(out)@ + flat(parts.take(i as int)),
        decreases values@.len() - i,
    {
        push_text(out, values[i]);
        proof {
            assert(parts[i as int] == stored(text(values@[i as int])));
            lemma_flat_push(parts.take(i as int), parts[i as int]);
            assert(parts.take(i as int).push(parts[i as int]) =~= parts.take(i + 1));
            assert(out@ =~= old(out)@ + flat(parts.take(i + 1)));
        }
        i += 1;
    }
    assert(parts.take(i as int) =~= parts);
}

/// Write an answer to the start of a buffer.
fn overwrite(buffer: &mut [u8], answer: &[u8])
    requires
        answer@.len() <= old(buffer)@.len(),
    ensures
        final(buffer)@ == overwritten(old(buffer)@, answer@),
{
    let mut i: usize = 0;
    while i < answer.len()
        invariant
            i <= answer@.len() <= buffer@.len(),
            buffer@.len() == old(buffer)@.len(),
            forall|j: int|
                0 <= j < buffer@.len() ==> #[trigger] buffer@[j] == if j < i {
                    answer@[j]
                } else {
                    old(buffer)@[j]
                },
        decreases answer@.len() - i,
    {
        buffer[i] = answer[i];
        i += 1;
    }
    assert(buffer@ =~= overwritten(old(buffer)@, answer@));
}

/// Pack the detailed information on a context.
pub fn pack_detailed(query: &DetailedQuery<'_>) -> (r: Result<Vec<u8>, NtStatus>)
    ensures
        match detailed_size(*query) {
            Ok(_) => r is Ok && r->Ok_0@ == detailed_bytes(*query),
            Err(e) => r == Err::<Vec<u8>, NtStatus>(e),
        },
{
    match detailed_required_size(query) {
        Err(e) => {
            return Err(e);
        },
        Ok(_) => {},
    }
    let ghost vs = query.texts();
    let strings: [Option<&[u16]>; 3] = [
        query.root_manifest_path,
        query.root_configuration_path,
        query.application_directory_path,
    ];
    proof {
        assert(texts(strings@) =~= vs);
        lemma_granted(DETAILED_SIZE, vs, 3);
        reveal_with_fuel(place, 4);
        let _ = (vs[0], vs[1], vs[2], place(vs, 0x40, 1), place(vs, 0x40, 2));
    }
    let first: usize = DETAILED_SIZE;
    let second: usize = place_behind(first, query.root_manifest_path);
    let third: usize = place_behind(second, query.root_configuration_path);
    let manifest: u64 = pointer_to(first, query.root_manifest_path);
    let configuration: u64 = pointer_to(second, query.root_configuration_path);
    let directory: u64 = pointer_to(third, query.application_directory_path);
    let ws: [u32; 16] = [
        0,
        query.format_version,
        query.assembly_count,
        query.root_manifest_path_type,
        count_units(query.root_manifest_path) as u32,
        query.root_configuration_path_type,
        count_units(query.root_configuration_path) as u32,
        query.application_directory_path_type,
        count_units(query.application_directory_path) as u32,
        0,
        low_half(manifest),
        high_half(manifest),
        low_half(configuration),
        high_half(configuration),
        low_half(directory),
        high_half(directory),
    ];
    assert(ws@ =~= detailed_words(*query));
    let mut out: Vec<u8> = Vec::new();
    push_words(&mut out, &ws);
    push_texts(&mut out, &strings);
    assert(out@ =~= detailed_bytes(*query));
    Ok(out)
}

/// Pack the detailed information on an assembly.
pub fn pack_assembly_detailed(query: &AssemblyDetailedQuery<'_>) -> (r: Result<Vec<u8>, NtStatus>)
    ensures
        match assembly_detailed_size(*query) {
            Ok(_) => r is Ok && r->Ok_0@ == assembly_detailed_bytes(*query),
            Err(e) => r == Err::<Vec<u8>, NtStatus>(e),
        },
{
    match assembly_detailed_required_size(query) {
        Err(e) => {
            return Err(e);
        },
        Ok(_) => {},
    }
    let ghost vs = query.texts();
    let strings: [Option<&[u16]>; 3] = [
        query.encoded_assembly_identity,
        query.manifest_path,
        query.assembly_directory_name,
    ];
    proof {
        assert(texts(strings@) =~= vs);
        lemma_granted(ASSEMBLY_DETAILED_SIZE, vs, 3);
        reveal_with_fuel(place, 4);
        assert(has_byte_count(vs[0]) && has_byte_count(vs[1]) && has_byte_count(vs[2]));
        let _ = (place(vs, 0x68, 1), place(vs, 0x68, 2));
    }
    let first: usize = ASSEMBLY_DETAILED_SIZE;
    let second: usize = place_behind(first, query.encoded_assembly_identity);
    let third: usize = place_behind(second, query.manifest_path);
    let identity: u64 = pointer_to(first, query.encoded_assembly_identity);
    let manifest: u64 = pointer_to(second, query.manifest_path);
    let directory: u64 = pointer_to(third, query.assembly_directory_name);
    let ws: [u32; 26] = [
        0,
        2 * count_units(query.encoded_assembly_identity) as u32,
        query.manifest_path_type,
        2 * count_units(query.manifest_path) as u32,
        0,
        0,
        ACTIVATION_CONTEXT_PATH_TYPE_NONE,
        0,
        0,
        0,
        0,
        1,
        0,
        0,
        0,
        2 * count_units(query.assembly_directory_name) as u32,
        low_half(identity),
        high_half(identity),
        low_half(manifest),
        high_half(manifest),
        0,
        0,
        low_half(directory),
        high_half(directory),
        query.file_count,
        0,
    ];
    assert(ws@ =~= assembly_detailed_words(*query));
    let mut out: Vec<u8> = Vec::new();
    push_words(&mut out, &ws);
    push_texts(&mut out, &strings);
    assert(out@ =~= assembly_detailed_bytes(*query));
    Ok(out)
}

/// Pack the detailed information on a file. The length of its name in bytes has to be a 32-bit
/// number.
pub fn pack_file_detailed(query: &FileDetailedQuery<'_>) -> (r: Result<Vec<u8>, NtStatus>)
    ensures
        match file_detailed_size(*query) {
            Ok(_) => if has_byte_count(text(query.file_name)) {
                r is Ok && r->Ok_0@ == file_detailed_bytes(*query)
            } else {
                r == Err::<Vec<u8>, NtStatus>(STATUS_NO_MEMORY)
            },
            Err(e) => r == Err::<Vec<u8>, NtStatus>(e),
        },
{
    match file_detailed_required_size(query) {
        Err(e) => {
            return Err(e);
        },
        Ok(_) => {},
    }
    if !byte_count_fits(query.file_name) {
        return Err(STATUS_NO_MEMORY);
    }
    let strings: [Option<&[u16]>; 1] = [query.file_name];
    assert(texts(strings@) =~= query.texts());
    let name: u64 = pointer_to(FILE_DETAILED_SIZE, query.file_name);
    let ws: [u32; 8] = [
        ACTIVATION_CONTEXT_SECTION_DLL_REDIRECTION,
        2 * count_units(query.file_name) as u32,
        0,
        0,
        low_half(name),
        high_half(name),
        0,
        0,
    ];
    assert(ws@ =~= file_detailed_words(*query));
    let mut out: Vec<u8> = Vec::new();
    push_words(&mut out, &ws);
    push_texts(&mut out, &strings);
    assert(out@ =~= file_detailed_bytes(*query));
    Ok(out)
}

/// Pack the run level information.
pub fn pack_runlevel(query: RunLevelQuery) -> (r: Result<Vec<u8>, NtStatus>)
    ensures
        r is Ok,
        r->Ok_0@ == runlevel_bytes(query),
        r->Ok_0@.len() == RUN_LEVEL_SIZE,
{
    let access: u32 = if query.ui_access {
        1
    } else {
        0
    };
    let ws: [u32; 3] = [0, query.run_level, access];
    let mut out: Vec<u8> = Vec::new();
    push_words(&mut out, &ws);
    assert(ws@ =~= seq![
        0u32,
        query.run_level,
        if query.ui_access {
            1
        } else {
            0
        },
    ]);
    assert(out@ =~= runlevel_bytes(query));
    Ok(out)
}

/// Append a compatibility element.
fn push_element(out: &mut Vec<u8>, element: &CompatibilityContextElement)
    ensures
        final(out)@ == old(out)@ + element_bytes(*element),
{
    push_u32(out, element.id.data1);
    push_u16(out, element.id.data2);
    push_u16(out, element.id.data3);
    push_bytes(out, &element.id.data4);
    let ws: [u32; 4] = [
        element.element_type,
        0,
        low_half(element.max_version_tested),
        high_half(element.max_version_tested),
    ];
    push_words(out, &ws);
    assert(ws@ =~= seq![
        element.element_type,
        0,
        low(element.max_version_tested as int),
        high(element.max_version_tested as int),
    ]);
    assert(out@ =~= old(out)@ + element_bytes(*element));
}

/// A compatibility element takes its size.
proof fn lemma_element_size(e: CompatibilityContextElement)
    ensures
        element_bytes(e).len() == COMPATIBILITY_ELEMENT_SIZE,
{
    lemma_words_len(
        seq![
            e.element_type,
            0,
            low(e.max_version_tested as int),
            high(e.max_version_tested as int),
        ],
    );
}

/// The compatibility information takes the size that is asked for it, and element `k` stands at a
/// fixed place.
pub proof fn elements_stand_in_order(es: Seq<CompatibilityContextElement>, k: int)
    requires
        0 <= k < es.len(),
    ensures
        compatibility_bytes(es).len() == 8 + 0x20 * es.len(),
        compatibility_bytes(es).subrange(8 + 0x20 * k, 8 + 0x20 * (k + 1)) == element_bytes(es[k]),
{
    let parts = es.map_values(|e: CompatibilityContextElement| element_bytes(e));
    lemma_compatibility_len(es);
    assert forall|i: int| 0 <= i < parts.len() implies (#[trigger] parts[i]).len() == 0x20 by {
        lemma_element_size(es[i]);
    }
    lemma_flat_fixed(parts.take(k), 0x20);
    lemma_flat_piece(parts, k);
    lemma_words_len(seq![es.len() as u32, 0]);
    assert(compatibility_bytes(es).subrange(8 + 0x20 * k, 8 + 0x20 * (k + 1)) =~= flat(
        parts,
    ).subrange(flat_offset(parts, k), flat_offset(parts, k + 1)));
}

proof fn lemma_compatibility_len(es: Seq<CompatibilityContextElement>)
    ensures
        compatibility_bytes(es).len() == 8 + 0x20 * es.len(),
{
    let parts = es.map_values(|e: CompatibilityContextElement| element_bytes(e));
    assert forall|i: int| 0 <= i < parts.len() implies (#[trigger] parts[i]).len() == 0x20 by {
        lemma_element_size(es[i]);
    }
    lemma_flat_fixed(parts, 0x20);
    lemma_words_len(seq![es.len() as u32, 0]);
}

/// Pack the compatibility information.
pub fn pack_compatibility(elements: &[CompatibilityContextElement]) -> (r: Result<
    Vec<u8>,
    NtStatus,
>)
    ensures
        match compatibility_size(elements@.len() as int) {
            Ok(n) => r is Ok && r->Ok_0@ == compatibility_bytes(elements@) && r->Ok_0@.len() == n,
            Err(e) => r == Err::<Vec<u8>, NtStatus>(e),
        },
{
    match compatibility_required_size(elements) {
        Err(e) => {
            return Err(e);
        },
        Ok(_) => {},
    }
    let ghost parts = elements@.map_values(
        |e: CompatibilityContextElement| element_bytes(e),
    );
    let ws: [u32; 2] = [elements.len() as u32, 0];
    let mut out: Vec<u8> = Vec::new();
    push_words(&mut out, &ws);
    let mut i: usize = 0;
    proof {
        assert(ws@ =~= seq![elements@.len() as u32, 0]);
        assert(parts.take(0) =~= Seq::<Seq<u8>>::empty());
        assert(out@ =~= words(ws@) + flat(parts.take(0)));
        lemma_compatibility_len(elements@);
    }
    while i < elements.len()
        invariant
            i <= elements@.len(),
            parts == elements@.map_values(|e: CompatibilityContextElement| element_bytes(e)),
            out@ == words(ws@) + flat(parts.take(i as int)),
        decreases elements@.len() - i,
    {
        push_element(&mut out, &elements[i]);
        proof {
            assert(parts[i as int] == element_bytes(elements@[i as int]));
            lemma_flat_push(parts.take(i as int), parts[i as int]);
            assert(parts.take(i as int).push(parts[i as int]) =~= parts.take(i + 1));
            assert(out@ =~= words(ws@) + flat(parts.take(i + 1)));
        }
        i += 1;
    }
    assert(parts.take(i as int) =~= parts);
    Ok(out)
}

/// Pack the detailed information on a context into a buffer. A buffer that is too short is left
/// alone.
pub fn pack_detailed_into(query: &DetailedQuery<'_>, buffer: &mut [u8]) -> (r: Result<
    usize,
    NtStatus,
>)
    ensures
        match detailed_size(*query) {
            Ok(n) => if old(buffer)@.len() < n {
                r == Err::<usize, NtStatus>(STATUS_BUFFER_TOO_SMALL) && final(buffer)@ == old(
                    buffer,
                )@
            } else {
                r == Ok::<usize, NtStatus>(n) && final(buffer)@ == overwritten(
                    old(buffer)@,
                    detailed_bytes(*query),
                )
            },
            Err(e) => r == Err::<usize, NtStatus>(e) && final(buffer)@ == old(buffer)@,
        },
{
    let required: usize = match detailed_required_size(query) {
        Ok(required) => required,
        Err(e) => {
            return Err(e);
        },
    };
    if buffer.len() < required {
        return Err(STATUS_BUFFER_TOO_SMALL);
    }
    proof {
        detailed_texts_read_back(*query, 0);
    }
    match pack_detailed(query) {
        Ok(answer) => {
            overwrite(buffer, answer.as_slice());
            Ok(required)
        },
        Err(e) => Err(e),
    }
}

/// Pack the detailed information on an assembly into a buffer. A buffer that is too short is left
/// alone.
pub fn pack_assembly_detailed_into(query: &AssemblyDetailedQuery<'_>, buffer: &mut [u8]) -> (r:
    Result<usize, NtStatus>)
    ensures
        match assembly_detailed_size(*query) {
            Ok(n) => if old(buffer)@.len() < n {
                r == Err::<usize, NtStatus>(STATUS_BUFFER_TOO_SMALL) && final(buffer)@ == old(
                    buffer,
                )@
            } else {
                r == Ok::<usize, NtStatus>(n) && final(buffer)@ == overwritten(
                    old(buffer)@,
                    assembly_detailed_bytes(*query),
                )
            },
            Err(e) => r == Err::<usize, NtStatus>(e) && final(buffer)@ == old(buffer)@,
        },
{
    let required: usize = match assembly_detailed_required_size(query) {
        Ok(required) => required,
        Err(e) => {
            return Err(e);
        },
    };
    if buffer.len() < required {
        return Err(STATUS_BUFFER_TOO_SMALL);
    }
    proof {
        assembly_texts_read_back(*query, 0);
    }
    match pack_assembly_detailed(query) {
        Ok(answer) => {
            overwrite(buffer, answer.as_slice());
            Ok(required)
        },
        Err(e) => Err(e),
    }
}

/// What is left in a buffer when the length of a file's name in bytes is no 32-bit number.
pub open spec fn unfinished_file(size: int) -> Seq<u8> {
    le32_bytes(ACTIVATION_CONTEXT_SECTION_DLL_REDIRECTION) + zero_bytes(size - 4)
}

/// In the detailed information on a file, the length is that of its name in bytes, and a name that
/// is there reads back from where its pointer points. The pointer of a name that is not there is
/// zero.
pub proof fn file_name_reads_back(q: FileDetailedQuery<'_>)
    requires
        file_detailed_size(q) is Ok,
        has_byte_count(text(q.file_name)),
    ensures
        file_detailed_bytes(q).len() == file_detailed_size(q)->Ok_0,
        le32(file_detailed_bytes(q), 4) == 2 * unit_count(text(q.file_name)),
        q.file_name is None ==> le64(file_detailed_bytes(q), 0x10) == 0,
        text(q.file_name) matches Some(w) ==> wide_at(
            file_detailed_bytes(q),
            le64(file_detailed_bytes(q), 0x10) as int,
            w.len() as int + 1,
        ) == w.push(0),
{
    let vs = q.texts();
    let ws = file_detailed_words(q);
    lemma_granted(FILE_DETAILED_SIZE, vs, 1);
    lemma_words_len(ws);
    lemma_word(ws, stored_all(vs), 1);
    lemma_word(ws, stored_all(vs), 4);
    lemma_word(ws, stored_all(vs), 5);
    let _ = place(vs, 0x20, 0);
    lemma_halves(pointer(vs, 0x20, 0));
    lemma_stored_all(vs, 0x20, 1);
    let parts = vs.map_values(|v: Option<Seq<u16>>| stored(v));
    assert(parts.take(1) =~= parts);
    if vs[0] is Some {
        stored_text_reads_back(words(ws), vs, 0);
    }
}

/// Pack the detailed information on a file into a buffer. A buffer that is too short is left alone.
pub fn pack_file_detailed_into(query: &FileDetailedQuery<'_>, buffer: &mut [u8]) -> (r: Result<
    usize,
    NtStatus,
>)
    ensures
        match file_detailed_size(*query) {
            Ok(n) => if old(buffer)@.len() < n {
                r == Err::<usize, NtStatus>(STATUS_BUFFER_TOO_SMALL) && final(buffer)@ == old(
                    buffer,
                )@
            } else if has_byte_count(text(query.file_name)) {
                r == Ok::<usize, NtStatus>(n) && final(buffer)@ == overwritten(
                    old(buffer)@,
                    file_detailed_bytes(*query),
                )
            } else {
                r == Err::<usize, NtStatus>(STATUS_NO_MEMORY) && final(buffer)@ == overwritten(
                    old(buffer)@,
                    unfinished_file(n as int),
                )
            },
            Err(e) => r == Err::<usize, NtStatus>(e) && final(buffer)@ == old(buffer)@,
        },
{
    let required: usize = match file_detailed_required_size(query) {
        Ok(required) => required,
        Err(e) => {
            return Err(e);
        },
    };
    if buffer.len() < required {
        return Err(STATUS_BUFFER_TOO_SMALL);
    }
    proof {
        lemma_granted(FILE_DETAILED_SIZE, query.texts(), 1);
        assert(place(query.texts(), 0x20, 0) == 0x20);
    }
    match pack_file_detailed(query) {
        Ok(answer) => {
            proof {
                file_name_reads_back(*query);
            }
            overwrite(buffer, answer.as_slice());
            Ok(required)
        },
        Err(e) => {
            let mut unfinished: Vec<u8> = Vec::new();
            push_u32(&mut unfinished, ACTIVATION_CONTEXT_SECTION_DLL_REDIRECTION);
            push_zeros(&mut unfinished, required - 4);
            assert(unfinished@ =~= unfinished_file(required as int));
            overwrite(buffer, unfinished.as_slice());
            Err(e)
        },
    }
}

/// Pack the run level information into a buffer. A buffer that is too short is left alone.
pub fn pack_runlevel_into(query: RunLevelQuery, buffer: &mut [u8]) -> (r: Result<usize, NtStatus>)
    ensures
        if old(buffer)@.len() < RUN_LEVEL_SIZE {
            r == Err::<usize, NtStatus>(STATUS_BUFFER_TOO_SMALL) && final(buffer)@ == old(buffer)@
        } else {
            r == Ok::<usize, NtStatus>(RUN_LEVEL_SIZE) && final(buffer)@ == overwritten(
                old(buffer)@,
                runlevel_bytes(query),
            )
        },
{
    let required: usize = runlevel_required_size();
    if buffer.len() < required {
        return Err(STATUS_BUFFER_TOO_SMALL);
    }
    match pack_runlevel(query) {
        Ok(answer) => {
            overwrite(buffer, answer.as_slice());
            Ok(required)
        },
        Err(e) => Err(e),
    }
}

/// Pack the compatibility information into a buffer. A buffer that is too short is left alone.
pub fn pack_compatibility_into(elements: &[CompatibilityContextElement], buffer: &mut [u8]) -> (r:
    Result<usize, NtStatus>)
    ensures
        match compatibility_size(elements@.len() as int) {
            Ok(n) => if old(buffer)@.len() < n {
                r == Err::<usize, NtStatus>(STATUS_BUFFER_TOO_SMALL) && final(buffer)@ == old(
                    buffer,
                )@
            } else {
                r == Ok::<usize, NtStatus>(n) && final(buffer)@ == overwritten(
                    old(buffer)@,
                    compatibility_bytes(elements@),
                )
            },
            Err(e) => r == Err::<usize, NtStatus>(e) && final(buffer)@ == old(buffer)@,
        },
{
    let required: usize = match compatibility_required_size(elements) {
        Ok(required) => required,
        Err(e) => {
            return Err(e);
        },
    };
    if buffer.len() < required {
        return Err(STATUS_BUFFER_TOO_SMALL);
    }
    match pack_compatibility(elements) {
        Ok(answer) => {
            overwrite(buffer, answer.as_slice());
            Ok(required)
        },
        Err(e) => Err(e),
    }
}

} // verus!
