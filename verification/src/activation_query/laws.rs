//! Where the numbers of answers stand.

use vstd::prelude::*;

use super::{
    assembly_detailed_bytes, assembly_detailed_words, compatibility_size, detailed_bytes, detailed_words, element_bytes,
    file_detailed_bytes, file_detailed_words, lemma_word, runlevel_bytes, size_of, stored_all, text,
    AssemblyDetailedQuery, CompatibilityContextElement, DetailedQuery, FileDetailedQuery,
    RunLevelQuery,
};
use crate::bytes::{le16, le16_bytes, le32, le32_bytes, le64, lemma_words, words};
use crate::NtStatus;

verus! {

/// In the detailed information on a context, the version, the number of assemblies and the types of
/// the three paths stand at fixed places, and the texts are the paths in this order.
pub proof fn context_numbers_read_back(q: DetailedQuery<'_>)
    ensures
        le32(detailed_bytes(q), 0x00) == 0,
        le32(detailed_bytes(q), 0x04) == q.format_version,
        le32(detailed_bytes(q), 0x08) == q.assembly_count,
        le32(detailed_bytes(q), 0x0c) == q.root_manifest_path_type,
        le32(detailed_bytes(q), 0x14) == q.root_configuration_path_type,
        le32(detailed_bytes(q), 0x1c) == q.application_directory_path_type,
        q.texts() == seq![
            text(q.root_manifest_path),
            text(q.root_configuration_path),
            text(q.application_directory_path),
        ],
{
    let ws = detailed_words(q);
    let tail = stored_all(q.texts());
    lemma_word(ws, tail, 0);
    lemma_word(ws, tail, 1);
    lemma_word(ws, tail, 2);
    lemma_word(ws, tail, 3);
    lemma_word(ws, tail, 5);
    lemma_word(ws, tail, 7);
    assert(q.texts() =~= seq![
        text(q.root_manifest_path),
        text(q.root_configuration_path),
        text(q.application_directory_path),
    ]);
}

/// In the detailed information on an assembly, the type of the path and the number of files stand at
/// fixed places, the version of the manifest is 1.0, there is no policy, and the texts are the
/// identity, the path and the directory in this order.
pub proof fn assembly_numbers_read_back(q: AssemblyDetailedQuery<'_>)
    ensures
        le32(assembly_detailed_bytes(q), 0x00) == 0,
        le32(assembly_detailed_bytes(q), 0x08) == q.manifest_path_type,
        le32(assembly_detailed_bytes(q), 0x18) == 1,
        le32(assembly_detailed_bytes(q), 0x1c) == 0,
        le32(assembly_detailed_bytes(q), 0x2c) == 1,
        le32(assembly_detailed_bytes(q), 0x30) == 0,
        le32(assembly_detailed_bytes(q), 0x60) == q.file_count,
        q.texts() == seq![
            text(q.encoded_assembly_identity),
            text(q.manifest_path),
            text(q.assembly_directory_name),
        ],
{
    let ws = assembly_detailed_words(q);
    let tail = stored_all(q.texts());
    lemma_word(ws, tail, 0);
    lemma_word(ws, tail, 2);
    lemma_word(ws, tail, 6);
    lemma_word(ws, tail, 7);
    lemma_word(ws, tail, 11);
    lemma_word(ws, tail, 12);
    lemma_word(ws, tail, 24);
    assert(q.texts() =~= seq![
        text(q.encoded_assembly_identity),
        text(q.manifest_path),
        text(q.assembly_directory_name),
    ]);
}

/// In the detailed information on a file, the first number tells a redirected file, and there is no
/// path.
pub proof fn file_numbers_read_back(q: FileDetailedQuery<'_>)
    ensures
        le32(file_detailed_bytes(q), 0x00) == 2,
        le32(file_detailed_bytes(q), 0x08) == 0,
        le32(file_detailed_bytes(q), 0x18) == 0,
        le32(file_detailed_bytes(q), 0x1c) == 0,
{
    let ws = file_detailed_words(q);
    let tail = stored_all(q.texts());
    lemma_word(ws, tail, 0);
    lemma_word(ws, tail, 2);
    lemma_word(ws, tail, 6);
    lemma_word(ws, tail, 7);
}

/// The run level stands behind four bytes of zeros, and one behind it where the user interface may be
/// reached.
pub proof fn run_levels_read_back(q: RunLevelQuery)
    ensures
        runlevel_bytes(q).len() == 12,
        le32(runlevel_bytes(q), 0) == 0,
        le32(runlevel_bytes(q), 4) == q.run_level,
        le32(runlevel_bytes(q), 8) == (if q.ui_access {
            1u32
        } else {
            0
        }),
{
    let ws = seq![
        0u32,
        q.run_level,
        if q.ui_access {
            1
        } else {
            0
        },
    ];
    lemma_words(ws, 0);
    lemma_words(ws, 1);
    lemma_words(ws, 2);
    lemma_word(ws, Seq::empty(), 0);
    lemma_word(ws, Seq::empty(), 1);
    lemma_word(ws, Seq::empty(), 2);
    assert(words(ws) + Seq::<u8>::empty() =~= words(ws));
    super::lemma_words_len(ws);
}

/// A compatibility element holds its identifier, its type and the version that was tested.
#[verifier::rlimit(40)]
pub proof fn elements_read_back(e: CompatibilityContextElement, i: int)
    requires
        0 <= i < 8,
    ensures
        element_bytes(e).len() == 0x20,
        le32(element_bytes(e), 0) == e.id.data1,
        le16(element_bytes(e), 4) == e.id.data2,
        le16(element_bytes(e), 6) == e.id.data3,
        element_bytes(e)[8 + i] == e.id.data4@[i],
        le32(element_bytes(e), 0x10) == e.element_type,
        le32(element_bytes(e), 0x14) == 0,
        le64(element_bytes(e), 0x18) == e.max_version_tested,
{
    reveal(le16);
    reveal(le32);
    let ws = seq![
        e.element_type,
        0,
        super::low(e.max_version_tested as int),
        super::high(e.max_version_tested as int),
    ];
    super::lemma_words_len(ws);
    lemma_word(ws, Seq::empty(), 0);
    lemma_word(ws, Seq::empty(), 1);
    lemma_word(ws, Seq::empty(), 2);
    lemma_word(ws, Seq::empty(), 3);
    assert(words(ws) + Seq::<u8>::empty() =~= words(ws));
    let all = element_bytes(e);
    let w = words(ws);
    assert(all.len() == 0x20);
    assert(all[0] == le32_bytes(e.id.data1)[0] && all[1] == le32_bytes(e.id.data1)[1] && all[2]
        == le32_bytes(e.id.data1)[2] && all[3] == le32_bytes(e.id.data1)[3]);
    assert(all[4] == le16_bytes(e.id.data2)[0] && all[5] == le16_bytes(e.id.data2)[1]);
    assert(all[6] == le16_bytes(e.id.data3)[0] && all[7] == le16_bytes(e.id.data3)[1]);
    assert(all[0x10] == w[0] && all[0x11] == w[1] && all[0x12] == w[2] && all[0x13] == w[3]);
    assert(all[0x14] == w[4] && all[0x15] == w[5] && all[0x16] == w[6] && all[0x17] == w[7]);
    assert(all[0x18] == w[8] && all[0x19] == w[9] && all[0x1a] == w[10] && all[0x1b] == w[11]);
    assert(all[0x1c] == w[12] && all[0x1d] == w[13] && all[0x1e] == w[14] && all[0x1f] == w[15]);
}

/// A text with a zero in it is refused, whatever stands in front of it.
pub proof fn texts_with_zeros_are_refused(base: usize, vs: Seq<Option<Seq<u16>>>, k: int, n: int)
    requires
        0 <= k < n <= vs.len(),
        vs[k] matches Some(w) && w.contains(0),
        forall|i: int|
            0 <= i < k ==> (#[trigger] vs[i] matches Some(w) ==> w.len() <= u32::MAX),
        size_of(base, vs, k) is Ok,
    ensures
        size_of(base, vs, n) == Err::<usize, NtStatus>(0xC000_000D),
    decreases n,
{
    if n > k + 1 {
        texts_with_zeros_are_refused(base, vs, k, n - 1);
    }
}

/// The size of an answer grows with each text by its bytes and those of its terminator.
pub proof fn sizes_count_terminators(base: usize, vs: Seq<Option<Seq<u16>>>, k: int)
    requires
        0 < k <= vs.len(),
        size_of(base, vs, k) is Ok,
    ensures
        size_of(base, vs, k - 1) is Ok,
        size_of(base, vs, k)->Ok_0 == size_of(base, vs, k - 1)->Ok_0 + (match vs[k - 1] {
            Some(w) => 2 * w.len() + 2,
            None => 0,
        }),
        size_of(base, vs, 0) == Ok::<usize, NtStatus>(base),
{
}

/// The compatibility information takes eight bytes and thirty-two for each element.
pub proof fn elements_take_thirty_two_bytes(count: int)
    requires
        0 <= count,
        8 + 32 * count <= u32::MAX,
    ensures
        compatibility_size(count) == Ok::<usize, NtStatus>((8 + 32 * count) as usize),
{
}

} // verus!
