//! Which registrations and rows an address is looked up in.

use vstd::prelude::*;

use super::{
    callback_table, covering_row, fixed_table, highest_end, looked_up_from, looked_up_in,
    lowest_start, through_terminator, DynamicLookup, Rows, TableModel,
};
use crate::activation_manifest::xml::first_unit;

verus! {

/// No row starts below the lowest start or ends above the highest end, and some row has each.
pub proof fn bounds_are_those_of_rows(rows: Rows, table: u64, n: nat)
    requires
        n <= u32::MAX,
    ensures
        forall|k: u32|
            k < n ==> lowest_start(rows, table, n) <= (#[trigger] rows(table, k)).begin && rows(
                table,
                k,
            ).end <= highest_end(rows, table, n),
        n > 0 ==> exists|k: u32|
            k < n && (#[trigger] rows(table, k)).begin == lowest_start(rows, table, n),
        n > 0 && highest_end(rows, table, n) > 0 ==> exists|k: u32|
            k < n && (#[trigger] rows(table, k)).end == highest_end(rows, table, n),
    decreases n,
{
    if n > 0 {
        let m = (n - 1) as nat;
        bounds_are_those_of_rows(rows, table, m);
        let last = rows(table, m as u32);
        assert forall|k: u32| k < n implies lowest_start(rows, table, n) <= (#[trigger] rows(
            table,
            k,
        )).begin && rows(table, k).end <= highest_end(rows, table, n) by {
            if k == m {
                assert(k == m as u32);
            }
        }
        if last.begin < lowest_start(rows, table, m) {
            assert(rows(table, m as u32).begin == lowest_start(rows, table, n));
        } else {
            assert(m > 0);
            let k = choose|k: u32|
                k < m && (#[trigger] rows(table, k)).begin == lowest_start(rows, table, m);
            assert(rows(table, k).begin == lowest_start(rows, table, n));
        }
        if last.end > highest_end(rows, table, m) {
            assert(rows(table, m as u32).end == highest_end(rows, table, n));
        } else if highest_end(rows, table, m) > 0 && m > 0 {
            let k = choose|k: u32|
                k < m && (#[trigger] rows(table, k)).end == highest_end(rows, table, m);
            assert(rows(table, k).end == highest_end(rows, table, n));
        }
    }
}

proof fn lemma_covering_row(rows: Rows, table: u64, count: u32, offset: u64, i: int)
    requires
        0 <= i <= count,
    ensures
        match covering_row(rows, table, count, offset, i) {
            Some(k) => i <= k < count && rows(table, k).begin <= offset < rows(table, k).end
                && forall|j: u32|
                i <= j < k ==> !((#[trigger] rows(table, j)).begin <= offset < rows(table, j).end),
            None => forall|j: u32|
                i <= j < count ==> !((#[trigger] rows(table, j)).begin <= offset < rows(
                    table,
                    j,
                ).end),
        },
    decreases count - i,
{
    if i < count && !(rows(table, i as u32).begin <= offset < rows(table, i as u32).end) {
        lemma_covering_row(rows, table, count, offset, i + 1);
        assert forall|j: u32| i <= j && (i < j ==> !(rows(table, j).begin <= offset < rows(
            table,
            j,
        ).end)) implies !((#[trigger] rows(table, j)).begin <= offset < rows(table, j).end) by {
            if j == i {
                assert(j == i as u32);
            }
        }
    }
}

/// An address that a row of a registered table covers is found in the first row that covers it,
/// relative to the base of the table.
pub proof fn covered_addresses_are_found(
    rows: Rows,
    table: u64,
    count: u32,
    base: u64,
    k: u32,
    offset: u64,
)
    requires
        k < count,
        rows(table, k).begin <= offset < rows(table, k).end,
        base + highest_end(rows, table, count as nat) <= u64::MAX,
    ensures
        looked_up_in(rows, fixed_table(rows, table, count, base), (base + offset) as u64) matches
            DynamicLookup::Row { function_table, index, row, image_base } && {
            &&& function_table == table
            &&& image_base == base
            &&& index <= k
            &&& row == rows(table, index)
            &&& row.begin <= offset < row.end
        },
{
    bounds_are_those_of_rows(rows, table, count as nat);
    assert(lowest_start(rows, table, count as nat) <= rows(table, k).begin);
    lemma_covering_row(rows, table, count, offset, 0);
    let pc = (base + offset) as u64;
    assert((pc - base) % 0x1_0000_0000_0000_0000 == offset);
}

/// An address that no row covers is not found.
pub proof fn uncovered_addresses_are_not_found(
    rows: Rows,
    table: u64,
    count: u32,
    base: u64,
    offset: u64,
)
    requires
        base + offset <= u64::MAX,
        forall|k: u32|
            k < count ==> !((#[trigger] rows(table, k)).begin <= offset < rows(table, k).end),
    ensures
        looked_up_in(rows, fixed_table(rows, table, count, base), (base + offset) as u64)
            == DynamicLookup::Miss,
{
    lemma_covering_row(rows, table, count, offset, 0);
    let pc = (base + offset) as u64;
    assert((pc - base) % 0x1_0000_0000_0000_0000 == offset);
}

/// A callback answers for the addresses of its range and no others, with its context and its base.
pub proof fn callbacks_answer_for_their_range(
    rows: Rows,
    identifier: u64,
    base: u64,
    length: u32,
    callback: u64,
    context: u64,
    dll: Option<Seq<u16>>,
    pc: u64,
)
    requires
        base + length <= u64::MAX,
    ensures
        looked_up_in(
            rows,
            callback_table(identifier, base, length, Some(callback), context, dll),
            pc,
        ) == if base <= pc && pc - base < length {
            DynamicLookup::Callback { callback, context, image_base: base }
        } else {
            DynamicLookup::Miss
        },
{
}

/// The first registration that knows an address decides; where none does, nothing is found.
pub proof fn first_registrations_decide(rows: Rows, tables: Seq<TableModel>, pc: u64, i: int)
    requires
        0 <= i <= tables.len(),
    ensures
        looked_up_from(rows, tables, pc, i) is Miss <==> forall|k: int|
            i <= k < tables.len() ==> looked_up_in(rows, #[trigger] tables[k], pc) is Miss,
        !(looked_up_from(rows, tables, pc, i) is Miss) ==> exists|k: int|
            i <= k < tables.len() && looked_up_in(rows, #[trigger] tables[k], pc) == looked_up_from(
                rows,
                tables,
                pc,
                i,
            ) && forall|j: int|
                i <= j < k ==> looked_up_in(rows, #[trigger] tables[j], pc) is Miss,
    decreases tables.len() - i,
{
    if i < tables.len() {
        first_registrations_decide(rows, tables, pc, i + 1);
        if looked_up_in(rows, tables[i], pc) is Miss {
            if !(looked_up_from(rows, tables, pc, i) is Miss) {
                let k = choose|k: int|
                    i + 1 <= k < tables.len() && looked_up_in(rows, #[trigger] tables[k], pc)
                        == looked_up_from(rows, tables, pc, i + 1) && forall|j: int|
                        i + 1 <= j < k ==> looked_up_in(rows, #[trigger] tables[j], pc) is Miss;
                assert(looked_up_in(rows, tables[k], pc) == looked_up_from(rows, tables, pc, i));
                assert forall|j: int| i <= j < k implies looked_up_in(
                    rows,
                    #[trigger] tables[j],
                    pc,
                ) is Miss by {}
            }
        } else {
            assert(looked_up_in(rows, tables[i], pc) == looked_up_from(rows, tables, pc, i));
        }
    }
}

proof fn lemma_first_zero(s: Seq<u16>, i: int, k: int)
    requires
        0 <= i <= k < s.len(),
        s[k] == 0,
        forall|j: int| i <= j < k ==> #[trigger] s[j] != 0,
    ensures
        first_unit(s, i, 0) == Some(k),
    decreases k - i,
{
    if i < k {
        lemma_first_zero(s, i + 1, k);
    }
}

/// Of a name, what is up to its first zero is kept, the zero too.
pub proof fn names_are_kept_through_their_zero(name: Seq<u16>, rest: Seq<u16>)
    requires
        !name.contains(0),
    ensures
        through_terminator(name + seq![0u16] + rest) == name + seq![0u16],
{
    let s = name + seq![0u16] + rest;
    assert forall|j: int| 0 <= j < name.len() implies #[trigger] s[j] != 0 by {
        assert(s[j] == name[j]);
        assert(name.contains(name[j]));
    }
    lemma_first_zero(s, 0, name.len() as int);
    assert(s.take((name.len() + 1) as int) =~= name + seq![0u16]);
}

} // verus!
