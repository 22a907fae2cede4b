//! What is stored of the modules of a process.

use vstd::prelude::*;

use super::{
    block_flags_ok, commit_plan, entry_at, file_offset, heap_record, list_at, list_of, module_rows,
    modules_size, name_units_from, narrowed, pointer_ok, prefixed, query_output, query_result,
    range_ok, row_bytes, row_of, rows_from, sizing_result, snapshot_bytes, stored_path, LoaderList,
    Memory,
};
use crate::bytes::{flat, le16, le16_bytes, le32, le32_bytes, le64, wide_at, zero_bytes};

verus! {

/// Whether a memory holds the bytes that `content` gives for addresses.
pub open spec fn holds(m: Memory, content: spec_fn(int) -> u8) -> bool {
    forall|a: u64, n: usize| #[trigger]
        m(a, n) == Ok::<Seq<u8>, crate::NtStatus>(Seq::new(n as nat, |i: int| content(a + i)))
}

/// A name is read as the 16-bit units that stand in memory, low bytes first.
pub proof fn names_are_read(
    m: Memory,
    content: spec_fn(int) -> u8,
    buffer: u64,
    length: int,
    at: int,
)
    requires
        holds(m, content),
        0 <= at <= length,
        at % 2 == 0,
        length % 2 == 0,
        buffer != 0,
        buffer + length <= 0x7ff_fffe_ffff,
    ensures
        name_units_from(m, buffer, length, at) matches Ok(units) && units.len() == (length - at) / 2
            && forall|i: int|
            0 <= i < units.len() ==> #[trigger] units[i] == content(buffer + at + 2 * i) + 0x100
                * content(buffer + at + 2 * i + 1),
    decreases length - at,
{
    if at < length {
        let piece = if length - at < 64 {
            length - at
        } else {
            64
        };
        names_are_read(m, content, buffer, length, at + piece);
        let a = (buffer + at) as u64;
        let bytes = m(a, piece as usize)->Ok_0;
        assert(bytes =~= Seq::new(piece as nat, |i: int| content(a + i)));
        let here = wide_at(bytes, 0, piece / 2);
        let rest = name_units_from(m, buffer, length, at + piece)->Ok_0;
        let units = name_units_from(m, buffer, length, at)->Ok_0;
        assert(units == here + rest);
        reveal(le16);
        assert forall|i: int| 0 <= i < units.len() implies #[trigger] units[i] == content(
            buffer + at + 2 * i,
        ) + 0x100 * content(buffer + at + 2 * i + 1) by {
            if i < piece / 2 {
                assert(here[i] == le16(bytes, 2 * i));
                assert(bytes[2 * i] == content(buffer + at + 2 * i));
                assert(bytes[2 * i + 1] == content(buffer + at + 2 * i + 1));
            } else {
                let j = i - piece / 2;
                assert(units[i] == rest[j]);
                assert(at + piece + 2 * j == at + 2 * i);
            }
        }
    }
}

/// Of a name, the first 255 units are stored: ASCII as it is, and a question mark for the rest.
pub proof fn paths_are_narrowed(units: Seq<u16>, i: int)
    ensures
        stored_path(units).len() == if units.len() <= 255 {
            units.len() as int
        } else {
            255
        },
        0 <= i < stored_path(units).len() ==> stored_path(units)[i] == if units[i] < 128 {
            units[i] as int
        } else {
            "?"@[0] as int
        },
{
    reveal_strlit("?");
    if 0 <= i < units.len() {
        let _ = narrowed(units[i]);
    }
}

/// The file name starts behind the last slash or backslash.
pub proof fn file_names_follow_the_last_separator(directory: Seq<u8>, file: Seq<u8>)
    requires
        !file.contains(0x5c) && !file.contains(0x2f),
        directory.len() > 0 ==> directory.last() == 0x5c || directory.last() == 0x2f,
    ensures
        file_offset(directory + file) == directory.len(),
    decreases file.len(),
{
    let path = directory + file;
    if file.len() > 0 {
        let front = file.drop_last();
        assert(path.last() == file.last());
        assert(file.contains(file.last()));
        assert forall|i: int| 0 <= i < front.len() implies front[i] != 0x5c && front[i] != 0x2f by {
            assert(file.contains(file[i]));
        }
        assert(path.drop_last() =~= directory + front);
        file_names_follow_the_last_separator(directory, front);
    } else {
        assert(path =~= directory);
    }
}

proof fn lemma_offset(path: Seq<u8>)
    ensures
        0 <= file_offset(path) <= path.len(),
    decreases path.len(),
{
    if path.len() > 0 {
        lemma_offset(path.drop_last());
    }
}

/// A record has 296 bytes: the image base, size, flags and load count of the loader entry, the place
/// in the list, where the file name starts, and the path with zeros behind it.
#[verifier::rlimit(40)]
pub proof fn records_hold_the_entry(entry: Seq<u8>, index: u16, path: Seq<u8>)
    requires
        entry.len() == 0x98,
        path.len() <= 255,
    ensures
        ({
            let row = row_bytes(entry, index, path);
            &&& row.len() == 296
            &&& le64(row, 16) == le64(entry, 0x30)
            &&& le32(row, 24) == le32(entry, 0x40)
            &&& le32(row, 28) == le32(entry, 0x68)
            &&& le16(row, 32) == index
            &&& le16(row, 36) == le16(entry, 0x6c)
            &&& le16(row, 38) == file_offset(path)
            &&& row.subrange(40, (40 + path.len()) as int) == path
            &&& forall|i: int| 40 + path.len() <= i < 296 ==> #[trigger] row[i] == 0
        }),
{
    let row = row_bytes(entry, index, path);
    lemma_offset(path);
    reveal(le16);
    reveal(le32);
    assert(row.len() == 296);
    assert(row[16] == entry[0x30] && row[17] == entry[0x31] && row[18] == entry[0x32] && row[19]
        == entry[0x33]);
    assert(row[20] == entry[0x34] && row[21] == entry[0x35] && row[22] == entry[0x36] && row[23]
        == entry[0x37]);
    assert(row[24] == entry[0x40] && row[25] == entry[0x41] && row[26] == entry[0x42] && row[27]
        == entry[0x43]);
    assert(row[28] == entry[0x68] && row[29] == entry[0x69] && row[30] == entry[0x6a] && row[31]
        == entry[0x6b]);
    assert(row[32] == le16_bytes(index)[0] && row[33] == le16_bytes(index)[1]);
    assert(row[36] == entry[0x6c] && row[37] == entry[0x6d]);
    let offset = file_offset(path) as u16;
    assert(row[38] == le16_bytes(offset)[0] && row[39] == le16_bytes(offset)[1]);
    assert(row.subrange(40, (40 + path.len()) as int) =~= path);
    assert forall|i: int| 40 + path.len() <= i < 296 implies #[trigger] row[i] == 0 by {
        assert(row[i] == zero_bytes(256 - path.len())[i - 40 - path.len()]);
    }
}

/// Where the entry `k` of a ring of loader entries is; the head is in front of them and behind them.
pub open spec fn ring_place(head: u64, places: Seq<u64>, k: int) -> u64 {
    if 0 <= k < places.len() {
        places[k]
    } else {
        head
    }
}

/// Whether loader entries stand in a ring: each names the next one in its first eight bytes and the
/// one before in the next eight.
pub open spec fn ring_stands(
    m: Memory,
    head: u64,
    places: Seq<u64>,
    entries: Seq<Seq<u8>>,
    rows: Seq<Seq<u8>>,
) -> bool {
    &&& entries.len() == places.len() == rows.len()
    &&& forall|k: int|
        0 <= k < places.len() ==> {
            &&& pointer_ok(places[k] as int, 0x98, 8)
            &&& places[k] != head
            &&& m(places[k], 0x98) == Ok::<Seq<u8>, crate::NtStatus>(#[trigger] entries[k])
            &&& le64(entries[k], 0) == ring_place(head, places, k + 1)
            &&& le64(entries[k], 8) == ring_place(head, places, k - 1)
            &&& row_of(m, entries[k], k) == Ok::<
                Seq<u8>,
                super::RemoteModuleSnapshotError,
            >(rows[k])
        }
}

/// The modules of a process are those of the ring, in its order.
pub proof fn rings_are_walked(
    m: Memory,
    head: u64,
    places: Seq<u64>,
    entries: Seq<Seq<u8>>,
    rows: Seq<Seq<u8>>,
    k: int,
)
    requires
        ring_stands(m, head, places, entries, rows),
        0 <= k < places.len() <= 4096,
    ensures
        rows_from(
            m,
            head,
            places.last(),
            places[k],
            ring_place(head, places, k - 1),
            k,
        ) == Ok::<Seq<Seq<u8>>, super::RemoteModuleSnapshotError>(rows.skip(k)),
    decreases places.len() - k,
{
    let here = places[k];
    let entry = entries[k];
    assert(pointer_ok(here as int, 0x98, 8));
    assert(entry_at(m, head, here, ring_place(head, places, k - 1), k) == Ok::<
        (Seq<u8>, u64),
        super::RemoteModuleSnapshotError,
    >((rows[k], ring_place(head, places, k + 1)))) by {
        if k + 1 < places.len() {
            let next = entries[k + 1];
            assert(pointer_ok(places[k + 1] as int, 0x98, 8));
        }
    }
    if k + 1 < places.len() {
        let next = entries[k + 1];
        assert(places[k + 1] != head);
        rings_are_walked(m, head, places, entries, rows, k + 1);
        assert(seq![rows[k]] + rows.skip(k + 1) =~= rows.skip(k));
        let _ = prefixed(seq![rows[k]], Ok(rows.skip(k + 1)));
    } else {
        assert(seq![rows[k]] =~= rows.skip(k));
    }
}

/// Whether the environment block of a process leads to the head of a ring: 0x18 bytes behind its start
/// is the address of the loader data, and the head is 0x10 bytes behind the start of those.
pub open spec fn leads_to_head(m: Memory, peb: u64, head: u64) -> bool {
    &&& pointer_ok(peb as int, 0x20, 8)
    &&& pointer_ok(head - 0x10, 0x20, 8)
    &&& m((peb + 0x18) as u64, 8) matches Ok(block)
    &&& le64(block, 0) == head - 0x10
}

proof fn lemma_head(m: Memory, peb: u64, head: u64)
    requires
        leads_to_head(m, peb, head),
    ensures
        list_of(m, peb) == list_at(m, head),
        pointer_ok(head as int, 16, 8),
{
    let block = m((peb + 0x18) as u64, 8)->Ok_0;
    let ldr = le64(block, 0);
    assert((ldr + 0x10) as u64 == head);
}

/// The modules of a process are those of the ring that its environment block leads to. The head of
/// the ring names the first and the last entry.
pub proof fn processes_are_walked(
    m: Memory,
    peb: u64,
    head: u64,
    links: Seq<u8>,
    places: Seq<u64>,
    entries: Seq<Seq<u8>>,
    rows: Seq<Seq<u8>>,
)
    requires
        leads_to_head(m, peb, head),
        m(head, 16) == Ok::<Seq<u8>, crate::NtStatus>(links),
        0 < places.len() <= 4096,
        le64(links, 0) == places[0],
        le64(links, 8) == places.last(),
        ring_stands(m, head, places, entries, rows),
    ensures
        module_rows(m, peb) == Ok::<Seq<Seq<u8>>, super::RemoteModuleSnapshotError>(rows),
{
    lemma_head(m, peb, head);
    let (first, last) = (places[0], places.last());
    assert(pointer_ok(first as int, 0x98, 8) && first != head) by {
        let entry = entries[0];
    }
    assert(pointer_ok(last as int, 0x98, 8) && last != head) by {
        let entry = entries[places.len() - 1];
    }
    assert(list_at(m, head) == Ok::<Option<LoaderList>, super::RemoteModuleSnapshotError>(
        Some(LoaderList { head, first, last }),
    ));
    rings_are_walked(m, head, places, entries, rows, 0);
    assert(rows.skip(0) =~= rows);
}

/// A process without modules has a ring of its head alone.
pub proof fn empty_rings_have_no_modules(m: Memory, peb: u64, head: u64, links: Seq<u8>)
    requires
        leads_to_head(m, peb, head),
        m(head, 16) == Ok::<Seq<u8>, crate::NtStatus>(links),
        le64(links, 0) == head,
        le64(links, 8) == head,
    ensures
        module_rows(m, peb) == Ok::<Seq<Seq<u8>>, super::RemoteModuleSnapshotError>(Seq::empty()),
{
    lemma_head(m, peb, head);
}

/// A query with a buffer that is too small says how many bytes are needed and leaves it alone; else it
/// fills the start of the buffer and leaves the rest alone.
pub proof fn queries_fill_buffers(rows: Seq<Seq<u8>>, before: Seq<u8>)
    requires
        rows.len() <= 4096,
    ensures
        ({
            let all = Ok::<Seq<Seq<u8>>, super::RemoteModuleSnapshotError>(rows);
            let needed = 8 + 296 * rows.len();
            let after = query_output(all, before);
            &&& before.len() < needed ==> after == before && query_result(all, before.len() as int)
                == Err::<super::RemoteModuleSnapshot, super::RemoteModuleSnapshotError>(
                super::RemoteModuleSnapshotError::BufferTooSmall { required: needed as usize },
            )
            &&& before.len() >= needed ==> after == snapshot_bytes(rows) + before.skip(
                needed as int,
            ) && (query_result(all, before.len() as int) matches Ok(told) && told.module_count
                == rows.len() && told.required_size == needed)
            &&& sizing_result(all) matches Ok(told) && told.module_count == rows.len()
                && told.required_size == needed
        }),
{
}

/// A block of a heap takes its data and its overhead, and a segment what is committed and what is
/// not.
pub proof fn heap_records_hold_sizes(entry: super::RtlHeapWalkEntry)
    ensures
        heap_record(entry) matches Some(record) ==> record.flags == entry.flags && match entry.details {
            super::RtlHeapWalkDetails::Block(block) => record.size == entry.data_size
                + entry.overhead_bytes,
            super::RtlHeapWalkDetails::Segment(segment) => record.size == segment.committed_size
                + segment.uncommitted_size,
        },
{
}

/// A run of bytes is in order where it has an address and a length, and its last byte is not above
/// the highest address of user memory.
pub proof fn runs_stay_in_user_memory(address: int, length: int)
    requires
        0 <= address,
        0 <= length,
    ensures
        range_ok(address, length) <==> 0 < address && 0 < length && address + length
            <= 0x7ff_ffff_0000,
{
}

/// A snapshot has eight bytes that start with the number of modules, and 296 bytes for each.
pub proof fn snapshots_hold_all_records(rows: Seq<Seq<u8>>, k: int)
    requires
        rows.len() <= u32::MAX,
        forall|i: int| 0 <= i < rows.len() ==> (#[trigger] rows[i]).len() == 296,
        0 <= k < rows.len(),
    ensures
        snapshot_bytes(rows).len() == modules_size(rows.len() as int) == 8 + 296 * rows.len(),
        le32(snapshot_bytes(rows), 0) == rows.len(),
        snapshot_bytes(rows).subrange(8 + 296 * k, 8 + 296 * (k + 1)) == rows[k],
{
    lemma_flat_rows(rows, k);
    reveal(le32);
    let all = snapshot_bytes(rows);
    let head = le32_bytes(rows.len() as u32);
    assert(all[0] == head[0] && all[1] == head[1] && all[2] == head[2] && all[3] == head[3]);
    assert(all.subrange(8 + 296 * k, 8 + 296 * (k + 1)) =~= flat(rows).subrange(
        296 * k,
        296 * (k + 1),
    ));
}

proof fn lemma_flat_rows(rows: Seq<Seq<u8>>, k: int)
    requires
        forall|i: int| 0 <= i < rows.len() ==> (#[trigger] rows[i]).len() == 296,
        0 <= k < rows.len(),
    ensures
        flat(rows).len() == 296 * rows.len(),
        flat(rows).subrange(296 * k, 296 * (k + 1)) == rows[k],
    decreases rows.len(),
{
    let front = rows.drop_last();
    let n = front.len() as int;
    assert(rows[n].len() == 296);
    if k < n {
        assert forall|i: int| 0 <= i < front.len() implies (#[trigger] front[i]).len() == 296 by {
            assert(rows[i].len() == 296);
        }
        lemma_flat_rows(front, k);
        assert(flat(rows).subrange(296 * k, 296 * (k + 1)) =~= flat(front).subrange(
            296 * k,
            296 * (k + 1),
        ));
    } else {
        if n > 0 {
            assert forall|i: int| 0 <= i < front.len() implies (#[trigger] front[i]).len()
                == 296 by {
                assert(rows[i].len() == 296);
            }
            lemma_flat_rows(front, 0);
        } else {
            assert(flat(front).len() == 0);
        }
        assert(flat(rows).subrange(296 * k, 296 * (k + 1)) =~= rows[k]);
    }
}

/// A buffer that grows hands out the bytes behind those in use, commits whole pages or up to the end
/// of its view, and commits nothing where there is enough already.
pub proof fn buffers_grow_by_pages(
    offset_free: usize,
    commit_size: usize,
    view_size: usize,
    size: usize,
)
    requires
        offset_free <= commit_size <= view_size,
        offset_free + size <= view_size,
        offset_free + size + 0x1000 <= usize::MAX,
    ensures
        commit_plan(offset_free, commit_size, view_size, size) matches Some(plan) && {
            &&& plan.result_offset == offset_free
            &&& plan.new_offset_free == offset_free + size
            &&& plan.commit_offset == commit_size
            &&& plan.new_commit_size == plan.commit_offset + plan.commit_size
            &&& plan.new_offset_free <= plan.new_commit_size <= view_size
            &&& plan.commit_size == 0 <==> offset_free + size <= commit_size
            &&& plan.commit_size > 0 ==> (plan.new_commit_size % 0x1000 == 0
                || plan.new_commit_size == view_size) && plan.new_commit_size
                < plan.new_offset_free + 0x1000
        },
{
}

proof fn lemma_block_bits(k: u16)
    by (bit_vector)
    requires
        k < 16,
    ensures
        (1u16 << k) & !0x00f1u16 == 0 <==> (k == 0 || (4 <= k && k <= 7)),
{
}

proof fn lemma_block_both(a: u16, b: u16)
    by (bit_vector)
    ensures
        (a | b) & !0x00f1u16 == 0 <==> (a & !0x00f1u16 == 0 && b & !0x00f1u16 == 0),
        0u16 & !0x00f1u16 == 0,
{
}

/// The flags of a block are bit zero and bits four to seven, in any union.
pub proof fn block_flags_are_known(k: u16, a: u16, b: u16)
    requires
        k < 16,
    ensures
        block_flags_ok(0),
        block_flags_ok(1u16 << k) <==> k == 0 || 4 <= k <= 7,
        block_flags_ok(a | b) <==> block_flags_ok(a) && block_flags_ok(b),
{
    lemma_block_bits(k);
    lemma_block_both(a, b);
}

} // verus!
