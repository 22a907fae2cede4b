//! Registrations of function tables that are made while a process runs.
//!
//! A registration names a table by its address, or a callback by an identifier. The rows of a table
//! stay with whoever registered it: they are read when an address is looked up.

use vstd::prelude::*;

use crate::activation_manifest::xml::{find_unit, first_unit};
use crate::bytes::copy_units;
use crate::exception::RuntimeFunction;

pub mod laws;

verus! {

/// The kind of a table whose rows are in no order.
pub const RF_UNSORTED: u32 = 1;

/// The kind of a table that a callback stands for.
pub const RF_CALLBACK: u32 = 2;

/// A registration. Pointers are addresses.
#[derive(Clone, Debug, PartialEq, Eq)]
pub struct DynamicFunctionTable {
    /// The address of the table, or the identifier of the callback.
    pub function_table: u64,
    pub timestamp: i64,
    /// Where the functions start.
    pub minimum_address: u64,
    /// Where the functions end.
    pub maximum_address: u64,
    /// What the rows are relative to.
    pub base_address: u64,
    /// The address of the callback.
    pub callback: Option<u64>,
    /// What the callback is handed.
    pub context: u64,
    /// The name of a module that can stand in for the callback in other processes.
    pub out_of_process_callback_dll: Option<Vec<u16>>,
    pub table_type: u32,
    pub entry_count: u32,
}

/// A registration, its name as text.
#[verifier::ext_equal]
pub struct TableModel {
    pub function_table: u64,
    pub timestamp: i64,
    pub minimum_address: u64,
    pub maximum_address: u64,
    pub base_address: u64,
    pub callback: Option<u64>,
    pub context: u64,
    pub dll: Option<Seq<u16>>,
    pub table_type: u32,
    pub entry_count: u32,
}

impl View for DynamicFunctionTable {
    type V = TableModel;

    open spec fn view(&self) -> TableModel {
        TableModel {
            function_table: self.function_table,
            timestamp: self.timestamp,
            minimum_address: self.minimum_address,
            maximum_address: self.maximum_address,
            base_address: self.base_address,
            callback: self.callback,
            context: self.context,
            dll: match self.out_of_process_callback_dll {
                Some(dll) => Some(dll@),
                None => None,
            },
            table_type: self.table_type,
            entry_count: self.entry_count,
        }
    }
}

/// All registrations, in the order in which they were made.
pub struct DynamicFunctionTables {
    tables: Vec<DynamicFunctionTable>,
}

impl View for DynamicFunctionTables {
    type V = Seq<TableModel>;

    closed spec fn view(&self) -> Seq<TableModel> {
        table_models(self.tables@)
    }
}

/// The models of registrations.
pub open spec fn table_models(tables: Seq<DynamicFunctionTable>) -> Seq<TableModel> {
    tables.map_values(|t: DynamicFunctionTable| t@)
}

/// What a lookup finds.
#[derive(Clone, Copy, Debug, PartialEq, Eq, Structural)]
pub enum DynamicLookup {
    /// Nothing.
    Miss,
    /// A row of a table.
    Row { function_table: u64, index: u32, row: RuntimeFunction, image_base: u64 },
    /// A callback, which has to be asked for the row.
    Callback { callback: u64, context: u64, image_base: u64 },
}

/// The rows of tables, by the address of the table and the index of the row.
pub type Rows = spec_fn(u64, u32) -> RuntimeFunction;

/// Whether a function can read every row.
pub open spec fn reads_all<R: Fn(u64, u32) -> RuntimeFunction>(read: R) -> bool {
    forall|table: u64, index: u32| #[trigger] call_requires(read, (table, index))
}

/// Whether a function reads the rows `rows`.
pub open spec fn reads<R: Fn(u64, u32) -> RuntimeFunction>(read: R, rows: Rows) -> bool {
    forall|table: u64, index: u32, row: RuntimeFunction| #[trigger]
        call_ensures(read, (table, index), row) ==> row == rows(table, index)
}

/// A sum of addresses, which wraps around.
pub open spec fn address_sum(a: u64, b: u64) -> u64 {
    ((a + b) % 0x1_0000_0000_0000_0000) as u64
}

/// The lowest start of the first `n` rows; the highest number where there are none.
pub open spec fn lowest_start(rows: Rows, table: u64, n: nat) -> u64
    decreases n,
{
    if n == 0 {
        u64::MAX
    } else {
        let before = lowest_start(rows, table, (n - 1) as nat);
        let start = rows(table, (n - 1) as u32).begin as u64;
        if start < before {
            start
        } else {
            before
        }
    }
}

/// The highest end of the first `n` rows; zero where there are none.
pub open spec fn highest_end(rows: Rows, table: u64, n: nat) -> u64
    decreases n,
{
    if n == 0 {
        0
    } else {
        let before = highest_end(rows, table, (n - 1) as nat);
        let end = rows(table, (n - 1) as u32).end as u64;
        if end > before {
            end
        } else {
            before
        }
    }
}

/// Rows that nothing is known of.
pub open spec fn no_rows() -> Rows {
    |table: u64, index: u32| RuntimeFunction { begin: 0, end: 0, unwind_info: 0 }
}

/// The registration of a table.
pub open spec fn fixed_table(rows: Rows, table: u64, count: u32, base: u64) -> TableModel {
    TableModel {
        function_table: table,
        timestamp: 0,
        minimum_address: address_sum(base, lowest_start(rows, table, count as nat)),
        maximum_address: address_sum(base, highest_end(rows, table, count as nat)),
        base_address: base,
        callback: None,
        context: 0,
        dll: None,
        table_type: RF_UNSORTED,
        entry_count: count,
    }
}

/// A name up to and with its terminator.
pub open spec fn through_terminator(name: Seq<u16>) -> Seq<u16> {
    match first_unit(name, 0, 0) {
        Some(end) => name.take(end + 1),
        None => name,
    }
}

/// The registration of a callback.
pub open spec fn callback_table(
    identifier: u64,
    base: u64,
    length: u32,
    callback: Option<u64>,
    context: u64,
    dll: Option<Seq<u16>>,
) -> TableModel {
    TableModel {
        function_table: identifier,
        timestamp: 0,
        minimum_address: base,
        maximum_address: address_sum(base, length as u64),
        base_address: base,
        callback,
        context,
        dll: match dll {
            Some(name) => Some(through_terminator(name)),
            None => None,
        },
        table_type: RF_CALLBACK,
        entry_count: 0,
    }
}

/// The first row at or behind `i` that covers an offset.
pub open spec fn covering_row(rows: Rows, table: u64, count: u32, offset: u64, i: int) -> Option<u32>
    decreases count - i,
{
    if i >= count {
        None
    } else if rows(table, i as u32).begin <= offset < rows(table, i as u32).end {
        Some(i as u32)
    } else {
        covering_row(rows, table, count, offset, i + 1)
    }
}

/// What a registration says of an address.
pub open spec fn looked_up_in(rows: Rows, t: TableModel, pc: u64) -> DynamicLookup {
    if !(t.minimum_address <= pc < t.maximum_address) {
        DynamicLookup::Miss
    } else if t.table_type == RF_CALLBACK && t.callback is Some {
        DynamicLookup::Callback {
            callback: t.callback->Some_0,
            context: t.context,
            image_base: t.base_address,
        }
    } else {
        let offset = ((pc - t.base_address) % 0x1_0000_0000_0000_0000) as u64;
        match covering_row(rows, t.function_table, t.entry_count, offset, 0) {
            Some(index) => DynamicLookup::Row {
                function_table: t.function_table,
                index,
                row: rows(t.function_table, index),
                image_base: t.base_address,
            },
            None => DynamicLookup::Miss,
        }
    }
}

/// What the registrations from `i` on say of an address: the first one that knows it decides.
pub open spec fn looked_up_from(rows: Rows, tables: Seq<TableModel>, pc: u64, i: int) -> DynamicLookup
    decreases tables.len() - i,
{
    if i >= tables.len() {
        DynamicLookup::Miss
    } else {
        let here = looked_up_in(rows, tables[i], pc);
        if here is Miss {
            looked_up_from(rows, tables, pc, i + 1)
        } else {
            here
        }
    }
}

/// The first registration at or behind `i` with an address or identifier.
pub open spec fn first_named(tables: Seq<TableModel>, table: u64, i: int) -> Option<int>
    decreases tables.len() - i,
{
    if i >= tables.len() {
        None
    } else if tables[i].function_table == table {
        Some(i)
    } else {
        first_named(tables, table, i + 1)
    }
}

/// The registrations without the first one of an address or identifier.
pub open spec fn without(tables: Seq<TableModel>, table: u64) -> Seq<TableModel> {
    match first_named(tables, table, 0) {
        Some(i) => tables.remove(i),
        None => tables,
    }
}

proof fn lemma_first_named(tables: Seq<TableModel>, table: u64, i: int)
    requires
        0 <= i <= tables.len(),
    ensures
        match first_named(tables, table, i) {
            Some(k) => i <= k < tables.len() && tables[k].function_table == table && forall|j: int|
                i <= j < k ==> (#[trigger] tables[j]).function_table != table,
            None => forall|j: int|
                i <= j < tables.len() ==> (#[trigger] tables[j]).function_table != table,
        },
    decreases tables.len() - i,
{
    if i < tables.len() && tables[i].function_table != table {
        lemma_first_named(tables, table, i + 1);
    }
}

/// A deletion undoes a registration, where nothing of the same address or identifier was
/// registered before.
pub proof fn deletion_undoes_registration(tables: Seq<TableModel>, t: TableModel)
    requires
        first_named(tables, t.function_table, 0) is None,
    ensures
        without(tables.push(t), t.function_table) == tables,
{
    let more = tables.push(t);
    lemma_first_named(tables, t.function_table, 0);
    lemma_first_named(more, t.function_table, 0);
    if let Some(k) = first_named(more, t.function_table, 0) {
        if k < tables.len() {
            assert(more[k] == tables[k]);
        }
        assert(more.remove(k) =~= tables);
    } else {
        assert(more[tables.len() as int].function_table == t.function_table);
    }
}

/// A callback that is null hides nothing: what is registered behind it is still found.
pub proof fn null_callbacks_hide_nothing(
    rows: Rows,
    tables: Seq<TableModel>,
    identifier: u64,
    base: u64,
    length: u32,
    context: u64,
    dll: Option<Seq<u16>>,
    pc: u64,
)
    ensures
        looked_up_from(
            rows,
            seq![callback_table(identifier, base, length, None, context, dll)] + tables,
            pc,
            0,
        ) == looked_up_from(rows, tables, pc, 0),
{
    let t = callback_table(identifier, base, length, None, context, dll);
    let all = seq![t] + tables;
    assert(all[0] == t);
    assert(looked_up_in(rows, t, pc) is Miss);
    lemma_shifted(rows, t, tables, pc, 0);
}

proof fn lemma_shifted(rows: Rows, t: TableModel, tables: Seq<TableModel>, pc: u64, i: int)
    requires
        0 <= i <= tables.len(),
    ensures
        looked_up_from(rows, seq![t] + tables, pc, i + 1) == looked_up_from(rows, tables, pc, i),
    decreases tables.len() - i,
{
    if i < tables.len() {
        assert((seq![t] + tables)[i + 1] == tables[i]);
        lemma_shifted(rows, t, tables, pc, i + 1);
    }
}

/// Look an address up in a registration.
fn lookup_in<R: Fn(u64, u32) -> RuntimeFunction>(t: &DynamicFunctionTable, pc: u64, read: &R) -> (r:
    DynamicLookup)
    requires
        reads_all(*read),
    ensures
        forall|rows: Rows| #[trigger] reads(*read, rows) ==> r == looked_up_in(rows, t@, pc),
{
    if pc < t.minimum_address || pc >= t.maximum_address {
        return DynamicLookup::Miss;
    }
    if t.table_type == RF_CALLBACK {
        match t.callback {
            Some(callback) => {
                return DynamicLookup::Callback {
                    callback,
                    context: t.context,
                    image_base: t.base_address,
                };
            },
            None => {},
        }
    }
    let offset: u64 = pc.wrapping_sub(t.base_address);
    assert(offset == (pc - t.base_address) % 0x1_0000_0000_0000_0000);
    let mut index: u32 = 0;
    while index < t.entry_count
        invariant
            index <= t.entry_count,
            reads_all(*read),
            t.minimum_address <= pc < t.maximum_address,
            !(t.table_type == RF_CALLBACK && t.callback is Some),
            offset == (pc - t.base_address) % 0x1_0000_0000_0000_0000,
            forall|rows: Rows| #[trigger]
                reads(*read, rows) ==> covering_row(
                    rows,
                    t.function_table,
                    t.entry_count,
                    offset,
                    0,
                ) == covering_row(rows, t.function_table, t.entry_count, offset, index as int),
        decreases t.entry_count - index,
    {
        let row = read(t.function_table, index);
        if offset >= row.begin as u64 && offset < row.end as u64 {
            return DynamicLookup::Row {
                function_table: t.function_table,
                index,
                row,
                image_base: t.base_address,
            };
        }
        index += 1;
    }
    DynamicLookup::Miss
}

/// Whether a number identifies a callback: its two low bits are set.
pub fn is_callback_identifier(table_identifier: u64) -> (r: bool)
    ensures
        r == (table_identifier % 4 == 3),
{
    table_identifier % 4 == 3
}

impl DynamicFunctionTables {
    /// No registrations.
    pub fn new() -> (tables: Self)
        ensures
            tables@ == Seq::<TableModel>::empty(),
    {
        let tables = DynamicFunctionTables { tables: Vec::new() };
        assert(tables@ =~= Seq::empty());
        tables
    }

    /// The registrations, in the order in which they were made.
    pub fn list_head(&self) -> (list: &Vec<DynamicFunctionTable>)
        ensures
            table_models(list@) == self@,
    {
        &self.tables
    }

    /// Register a table of `entry_count` rows. `read` reads its rows.
    pub fn add<R: Fn(u64, u32) -> RuntimeFunction>(
        &mut self,
        function_table: u64,
        entry_count: u32,
        base_address: u64,
        read: R,
    ) -> (added: bool)
        requires
            reads_all(read),
        ensures
            added,
            final(self)@.len() == old(self)@.len() + 1,
            final(self)@.drop_last() == old(self)@,
            final(self)@.last() == (TableModel {
                minimum_address: final(self)@.last().minimum_address,
                maximum_address: final(self)@.last().maximum_address,
                ..fixed_table(no_rows(), function_table, entry_count, base_address)
            }),
            entry_count == 0 ==> final(self)@.last() == fixed_table(
                no_rows(),
                function_table,
                0,
                base_address,
            ),
            forall|rows: Rows| #[trigger]
                reads(read, rows) ==> final(self)@ == old(self)@.push(
                    fixed_table(rows, function_table, entry_count, base_address),
                ),
    {
        let mut minimum: u64 = u64::MAX;
        let mut maximum: u64 = 0;
        let mut index: u32 = 0;
        while index < entry_count
            invariant
                index <= entry_count,
                reads_all(read),
                index == 0 ==> minimum == u64::MAX && maximum == 0,
                forall|rows: Rows| #[trigger]
                    reads(read, rows) ==> minimum == lowest_start(
                        rows,
                        function_table,
                        index as nat,
                    ) && maximum == highest_end(rows, function_table, index as nat),
            decreases entry_count - index,
        {
            let row = read(function_table, index);
            if (row.begin as u64) < minimum {
                minimum = row.begin as u64;
            }
            if row.end as u64 > maximum {
                maximum = row.end as u64;
            }
            index += 1;
        }
        let table = DynamicFunctionTable {
            function_table,
            timestamp: 0,
            minimum_address: base_address.wrapping_add(minimum),
            maximum_address: base_address.wrapping_add(maximum),
            base_address,
            callback: None,
            context: 0,
            out_of_process_callback_dll: None,
            table_type: RF_UNSORTED,
            entry_count,
        };
        self.tables.push(table);
        assert(self@ =~= old(self)@.push(table@));
        true
    }

    /// Register a callback for `[base_address, base_address + length)`. The two low bits of its
    /// identifier have to be set. A name is copied up to its terminator, which it must have.
    pub fn install_callback(
        &mut self,
        table_identifier: u64,
        base_address: u64,
        length: u32,
        callback: Option<u64>,
        context: u64,
        out_of_process_dll: Option<&[u16]>,
    ) -> (installed: bool)
        requires
            table_identifier % 4 == 3 ==> (out_of_process_dll matches Some(name)
                ==> name@.contains(0)),
        ensures
            installed == (table_identifier % 4 == 3),
            final(self)@ == if installed {
                old(self)@.push(
                    callback_table(
                        table_identifier,
                        base_address,
                        length,
                        callback,
                        context,
                        match out_of_process_dll {
                            Some(name) => Some(name@),
                            None => None,
                        },
                    ),
                )
            } else {
                old(self)@
            },
    {
        if !is_callback_identifier(table_identifier) {
            return false;
        }
        let dll: Option<Vec<u16>> = match out_of_process_dll {
            Some(name) => {
                assert(name.len() <= usize::MAX);
                let end: usize = match find_unit(name, 0, 0) {
                    Some(end) => end + 1,
                    None => name.len(),
                };
                let part = vstd::slice::slice_subrange(name, 0, end);
                assert(part@ =~= through_terminator(name@));
                Some(copy_units(part))
            },
            None => None,
        };
        let table = DynamicFunctionTable {
            function_table: table_identifier,
            timestamp: 0,
            minimum_address: base_address,
            maximum_address: base_address.wrapping_add(length as u64),
            base_address,
            callback,
            context,
            out_of_process_callback_dll: dll,
            table_type: RF_CALLBACK,
            entry_count: 0,
        };
        self.tables.push(table);
        assert(self@ =~= old(self)@.push(table@));
        true
    }

    /// Delete the first registration of an address or identifier.
    pub fn delete(&mut self, function_table: u64) -> (deleted: bool)
        ensures
            deleted == first_named(old(self)@, function_table, 0) is Some,
            final(self)@ == without(old(self)@, function_table),
    {
        let ghost models = self@;
        let mut i: usize = 0;
        while i < self.tables.len()
            invariant
                i <= self.tables@.len(),
                models == self@,
                models == old(self)@,
                first_named(models, function_table, 0) == first_named(
                    models,
                    function_table,
                    i as int,
                ),
            decreases self.tables@.len() - i,
        {
            assert(models[i as int] == self.tables@[i as int]@);
            if self.tables[i].function_table == function_table {
                self.tables.remove(i);
                assert(self@ =~= models.remove(i as int));
                return true;
            }
            i += 1;
        }
        false
    }

    /// Look an address up: in the first registration that covers it with a row or a callback.
    pub fn lookup<R: Fn(u64, u32) -> RuntimeFunction>(&self, control_pc: u64, read: R) -> (r:
        DynamicLookup)
        requires
            reads_all(read),
        ensures
            forall|rows: Rows| #[trigger]
                reads(read, rows) ==> r == looked_up_from(rows, self@, control_pc, 0),
    {
        let mut i: usize = 0;
        while i < self.tables.len()
            invariant
                i <= self.tables@.len(),
                reads_all(read),
                forall|rows: Rows| #[trigger]
                    reads(read, rows) ==> looked_up_from(rows, self@, control_pc, 0)
                        == looked_up_from(rows, self@, control_pc, i as int),
            decreases self.tables@.len() - i,
        {
            assert(self@[i as int] == self.tables@[i as int]@);
            let here = lookup_in(&self.tables[i], control_pc, &read);
            match here {
                DynamicLookup::Miss => {},
                _ => {
                    return here;
                },
            }
            i += 1;
        }
        DynamicLookup::Miss
    }
}

impl Default for DynamicFunctionTables {
    fn default() -> (tables: Self)
        ensures
            tables@ == Seq::<TableModel>::empty(),
    {
        Self::new()
    }
}

} // verus!
