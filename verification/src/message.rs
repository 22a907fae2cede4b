//! Message tables and message formatting.

use vstd::prelude::*;

use crate::activation_manifest::xml::{find_unit, first_unit};
use crate::bytes::{get_u16, get_u32, le16, le32};
use crate::decimal::{all_digits, digits_value, is_digit, parse_digits};

pub mod laws;

verus! {

pub const STATUS_SUCCESS: u32 = 0x0000_0000;

pub const STATUS_MESSAGE_NOT_FOUND: u32 = 0xC000_0109;

pub const STATUS_RESOURCE_DATA_NOT_FOUND: u32 = 0xC000_0089;

pub const STATUS_INVALID_PARAMETER: u32 = 0xC000_000D;

pub const STATUS_BUFFER_OVERFLOW: u32 = 0x8000_0005;

pub const MESSAGE_RESOURCE_DATA_HEADER: usize = 4;

pub const MESSAGE_RESOURCE_BLOCK_SIZE: usize = 12;

pub const MESSAGE_RESOURCE_ENTRY_HEADER: usize = 4;

/// How many inserts a message may have.
pub const MAX_INSERTS: usize = 200;

/// The units of an insert's format, its percent sign and terminator among them.
pub const INSERT_FORMAT_UNITS: usize = 32;

// ---------------------------------------------------------------------------------------------
// Message tables
// ---------------------------------------------------------------------------------------------

/// Where the entry `skip` entries behind the one at `at` is. Each entry starts with its length.
pub open spec fn entry_behind(table: Seq<u8>, at: int, skip: nat) -> Result<int, u32>
    decreases skip,
{
    if skip == 0 {
        Ok(at)
    } else if at + 2 > table.len() || le16(table, at) < MESSAGE_RESOURCE_ENTRY_HEADER || at + le16(
        table,
        at,
    ) >= table.len() {
        Err(STATUS_RESOURCE_DATA_NOT_FOUND)
    } else {
        entry_behind(table, at + le16(table, at), (skip - 1) as nat)
    }
}

/// Whether a whole entry stands at `at`.
pub open spec fn entry_ok(table: Seq<u8>, at: int) -> bool {
    at + 2 <= table.len() && le16(table, at) >= MESSAGE_RESOURCE_ENTRY_HEADER && at + le16(
        table,
        at,
    ) <= table.len()
}

/// Where the blocks of a table end.
pub open spec fn blocks_end(table: Seq<u8>) -> int {
    MESSAGE_RESOURCE_DATA_HEADER + le32(table, 0) * MESSAGE_RESOURCE_BLOCK_SIZE
}

/// The entry of a message in a block: `low`, and where the entry of the message `low` is.
pub open spec fn entry_in_block(table: Seq<u8>, low: u32, entries: int, message_id: u32) -> Result<
    int,
    u32,
> {
    if entries < blocks_end(table) || entries >= table.len() {
        Err(STATUS_RESOURCE_DATA_NOT_FOUND)
    } else {
        match entry_behind(table, entries, (message_id - low) as nat) {
            Ok(at) => if entry_ok(table, at) {
                Ok(at)
            } else {
                Err(STATUS_RESOURCE_DATA_NOT_FOUND)
            },
            Err(status) => Err(status),
        }
    }
}

/// The entry of a message in the blocks from `i` on. Blocks stand in ascending order, so a message
/// below a block is in none.
pub open spec fn entry_from(table: Seq<u8>, i: int, message_id: u32) -> Result<int, u32>
    decreases le32(table, 0) - i,
{
    if i >= le32(table, 0) {
        Err(STATUS_MESSAGE_NOT_FOUND)
    } else {
        let block = MESSAGE_RESOURCE_DATA_HEADER + i * MESSAGE_RESOURCE_BLOCK_SIZE;
        if message_id < le32(table, block) {
            Err(STATUS_MESSAGE_NOT_FOUND)
        } else if message_id > le32(table, block + 4) {
            entry_from(table, i + 1, message_id)
        } else {
            entry_in_block(table, le32(table, block), le32(table, block + 8) as int, message_id)
        }
    }
}

/// The entry of a message.
pub open spec fn message_entry(table: Seq<u8>, message_id: u32) -> Result<int, u32> {
    if table.len() < 4 || blocks_end(table) > table.len() {
        Err(STATUS_RESOURCE_DATA_NOT_FOUND)
    } else {
        entry_from(table, 0, message_id)
    }
}

/// An entry that is found is a whole one inside the table, behind its blocks.
pub proof fn found_entries_are_whole(table: Seq<u8>, message_id: u32)
    ensures
        message_entry(table, message_id) matches Ok(at) ==> entry_ok(table, at) && blocks_end(table)
            <= at,
{
    if table.len() >= 4 && blocks_end(table) <= table.len() {
        lemma_entry_from(table, 0, message_id);
    }
}

/// The lowest message of block `k`. A table starts with the number of its blocks in four bytes; a
/// block has twelve: its lowest and its highest message, and where its first entry stands.
pub open spec fn block_low(table: Seq<u8>, k: int) -> u32 {
    le32(table, 4 + 12 * k)
}

/// The highest message of block `k`.
pub open spec fn block_high(table: Seq<u8>, k: int) -> u32 {
    le32(table, 8 + 12 * k)
}

/// Whether the blocks of a table lie inside it, in ascending order, and none shares a message with
/// another.
pub open spec fn blocks_ascend(table: Seq<u8>) -> bool {
    &&& 4 + 12 * le32(table, 0) <= table.len()
    &&& forall|k: int|
        0 <= k < le32(table, 0) ==> #[trigger] block_low(table, k) <= block_high(table, k)
    &&& forall|j: int, k: int|
        0 <= j < k < le32(table, 0) ==> #[trigger] block_high(table, j) < #[trigger] block_low(
            table,
            k,
        )
}

/// Whether entries stand at the places `places`, whole and one behind the other: each is as long as
/// its first two bytes say, with at least four bytes.
pub open spec fn entries_stand(table: Seq<u8>, places: Seq<int>) -> bool {
    &&& places.len() > 0
    &&& forall|j: int|
        0 <= j < places.len() ==> 0 <= #[trigger] places[j] && places[j] + 2 <= table.len()
            && le16(table, places[j]) >= 4 && places[j] + le16(table, places[j]) <= table.len()
    &&& forall|j: int, k: int|
        #![trigger places[j], places[k]]
        0 <= j && k == j + 1 && k < places.len() ==> places[k] == places[j] + le16(table, places[j])
}

proof fn lemma_skips(table: Seq<u8>, places: Seq<int>, j: int)
    requires
        entries_stand(table, places),
        0 <= j < places.len(),
    ensures
        entry_behind(table, places[j], (places.len() - 1 - j) as nat) == Ok::<int, u32>(
            places.last(),
        ),
    decreases places.len() - j,
{
    if j < places.len() - 1 {
        assert(places[j + 1] == places[j] + le16(table, places[j]));
        lemma_skips(table, places, j + 1);
    }
}

proof fn lemma_passes_blocks(table: Seq<u8>, i: int, k: int, message_id: u32)
    requires
        blocks_ascend(table),
        0 <= i <= k <= le32(table, 0),
        forall|j: int| i <= j < k ==> message_id > #[trigger] block_high(table, j),
    ensures
        entry_from(table, i, message_id) == entry_from(table, k, message_id),
    decreases k - i,
{
    if i < k {
        assert(message_id > block_high(table, i));
        assert(block_low(table, i) <= block_high(table, i));
        lemma_passes_blocks(table, i + 1, k, message_id);
    }
}

/// Every message that a block covers is found: `id` in block `k` is the entry as many places behind
/// the first entry of the block as `id` is behind the lowest message.
pub proof fn covered_messages_are_found(table: Seq<u8>, k: int, id: u32, places: Seq<int>)
    requires
        table.len() >= 4,
        blocks_ascend(table),
        0 <= k < le32(table, 0),
        block_low(table, k) <= id <= block_high(table, k),
        entries_stand(table, places),
        places.len() == id - block_low(table, k) + 1,
        places[0] == le32(table, 12 + 12 * k),
        places[0] >= 4 + 12 * le32(table, 0),
    ensures
        message_entry(table, id) == Ok::<int, u32>(places.last()),
{
    assert forall|j: int| 0 <= j < k implies id > #[trigger] block_high(table, j) by {
        assert(block_high(table, j) < block_low(table, k));
    }
    lemma_passes_blocks(table, 0, k, id);
    lemma_skips(table, places, 0);
    assert(places[places.len() - 1] == places.last());
}

/// A message is not found if and only if no block covers it.
pub proof fn uncovered_messages_are_not_found(table: Seq<u8>, id: u32)
    requires
        table.len() >= 4,
        blocks_ascend(table),
    ensures
        message_entry(table, id) == Err::<int, u32>(0xC000_0109) <==> forall|k: int|
            0 <= k < le32(table, 0) ==> !(#[trigger] block_low(table, k) <= id && id <= block_high(
                table,
                k,
            )),
{
    lemma_uncovered(table, 0, id);
}

proof fn lemma_uncovered(table: Seq<u8>, i: int, id: u32)
    requires
        blocks_ascend(table),
        0 <= i <= le32(table, 0),
        forall|j: int| 0 <= j < i ==> id > #[trigger] block_high(table, j),
    ensures
        entry_from(table, i, id) == Err::<int, u32>(0xC000_0109) <==> forall|k: int|
            0 <= k < le32(table, 0) ==> !(#[trigger] block_low(table, k) <= id && id <= block_high(
                table,
                k,
            )),
    decreases le32(table, 0) - i,
{
    if i < le32(table, 0) {
        let low = block_low(table, i);
        let high = block_high(table, i);
        if id < low {
            assert forall|k: int| 0 <= k < le32(table, 0) implies !(#[trigger] block_low(table, k)
                <= id && id <= block_high(table, k)) by {
                if k < i {
                    assert(id > block_high(table, k));
                } else if k > i {
                    assert(block_high(table, i) < block_low(table, k));
                }
            }
        } else if id > high {
            lemma_uncovered(table, i + 1, id);
        } else {
            lemma_behind_status(
                table,
                le32(table, 12 + 12 * i) as int,
                (id - low) as nat,
            );
        }
    } else {
        assert forall|k: int| 0 <= k < le32(table, 0) implies !(#[trigger] block_low(table, k)
            <= id && id <= block_high(table, k)) by {
            assert(id > block_high(table, k));
        }
    }
}

proof fn lemma_behind_status(table: Seq<u8>, at: int, skip: nat)
    ensures
        entry_behind(table, at, skip) matches Err(status) ==> status == 0xC000_0089,
    decreases skip,
{
    if skip > 0 {
        lemma_behind_status(table, at + le16(table, at), (skip - 1) as nat);
    }
}

proof fn lemma_entry_from(table: Seq<u8>, i: int, message_id: u32)
    ensures
        entry_from(table, i, message_id) matches Ok(at) ==> entry_ok(table, at) && blocks_end(table)
            <= at,
    decreases le32(table, 0) - i,
{
    if i < le32(table, 0) {
        let block = MESSAGE_RESOURCE_DATA_HEADER + i * MESSAGE_RESOURCE_BLOCK_SIZE;
        if message_id > le32(table, block + 4) {
            lemma_entry_from(table, i + 1, message_id);
        } else if message_id >= le32(table, block) {
            lemma_entry_behind(
                table,
                le32(table, block + 8) as int,
                (message_id - le32(table, block)) as nat,
            );
        }
    }
}

proof fn lemma_entry_behind(table: Seq<u8>, at: int, skip: nat)
    ensures
        entry_behind(table, at, skip) matches Ok(end) ==> at <= end,
    decreases skip,
{
    if skip > 0 {
        lemma_entry_behind(table, at + le16(table, at), (skip - 1) as nat);
    }
}

fn entry_in_message_block(table: &[u8], end: usize, low: u32, entries: usize, message_id: u32) -> (r:
    Result<usize, u32>)
    requires
        end == blocks_end(table@),
        low <= message_id,
    ensures
        match r {
            Ok(at) => entry_in_block(table@, low, entries as int, message_id) == Ok::<int, u32>(
                at as int,
            ),
            Err(status) => entry_in_block(table@, low, entries as int, message_id) == Err::<
                int,
                u32,
            >(status),
        },
{
    let total: usize = table.len();
    if entries < end || entries >= total {
        return Err(STATUS_RESOURCE_DATA_NOT_FOUND);
    }
    let mut entry: usize = entries;
    let mut left: u32 = message_id - low;
    while left > 0
        invariant
            entry < total == table@.len() <= usize::MAX,
            left <= message_id - low,
            entry_behind(table@, entries as int, (message_id - low) as nat) == entry_behind(
                table@,
                entry as int,
                left as nat,
            ),
            end == blocks_end(table@),
            end <= entries < total,
        decreases left,
    {
        if total - entry < 2 {
            return Err(STATUS_RESOURCE_DATA_NOT_FOUND);
        }
        let length: usize = get_u16(table, entry) as usize;
        if length < MESSAGE_RESOURCE_ENTRY_HEADER || total - entry <= length {
            return Err(STATUS_RESOURCE_DATA_NOT_FOUND);
        }
        entry += length;
        left -= 1;
    }
    if total - entry < 2 {
        return Err(STATUS_RESOURCE_DATA_NOT_FOUND);
    }
    let length: usize = get_u16(table, entry) as usize;
    if length < MESSAGE_RESOURCE_ENTRY_HEADER || total - entry < length {
        return Err(STATUS_RESOURCE_DATA_NOT_FOUND);
    }
    Ok(entry)
}

/// Find the entry of a message in a message table: where it is.
pub fn find_message_entry(table: &[u8], message_id: u32) -> (r: Result<usize, u32>)
    ensures
        match r {
            Ok(at) => message_entry(table@, message_id) == Ok::<int, u32>(at as int),
            Err(status) => message_entry(table@, message_id) == Err::<int, u32>(status),
        },
{
    let total: usize = table.len();
    if total < 4 {
        return Err(STATUS_RESOURCE_DATA_NOT_FOUND);
    }
    let count: u32 = get_u32(table, 0);
    let end: u128 = MESSAGE_RESOURCE_DATA_HEADER as u128 + count as u128
        * MESSAGE_RESOURCE_BLOCK_SIZE as u128;
    if end > total as u128 {
        return Err(STATUS_RESOURCE_DATA_NOT_FOUND);
    }
    let end: usize = end as usize;
    let mut i: u32 = 0;
    while i < count
        invariant
            i <= count == le32(table@, 0),
            end == blocks_end(table@),
            end <= total == table@.len(),
            4 <= total,
            entry_from(table@, 0, message_id) == entry_from(table@, i as int, message_id),
        decreases count - i,
    {
        assert(i * 12 + 12 <= count * 12) by (nonlinear_arith)
            requires
                i < count,
        ;
        let block: usize = MESSAGE_RESOURCE_DATA_HEADER + i as usize * MESSAGE_RESOURCE_BLOCK_SIZE;
        let low: u32 = get_u32(table, block);
        let high: u32 = get_u32(table, block + 4);
        let entries: u32 = get_u32(table, block + 8);
        if message_id < low {
            return Err(STATUS_MESSAGE_NOT_FOUND);
        }
        if message_id <= high {
            return entry_in_message_block(table, end, low, entries as usize, message_id);
        }
        i += 1;
    }
    Err(STATUS_MESSAGE_NOT_FOUND)
}

// ---------------------------------------------------------------------------------------------
// Formatting: what it works with
// ---------------------------------------------------------------------------------------------

/// A source of pointer-sized argument slots.
///
/// An impl defines `slot` along with `next_slot`: the body that stands in for it says that there is
/// no slot, which is true only of a source without any.
pub trait MessageArguments {
    /// The slot that is `i` slots ahead; `None` where there is none.
    open spec fn slot(&self, i: int) -> Option<u64> {
        None
    }

    fn next_slot(&mut self) -> (r: Option<u64>)
        ensures
            r == old(self).slot(0),
            forall|i: int| 0 <= i ==> #[trigger] final(self).slot(i) == old(self).slot(i + 1),
    ;
}

/// A source without slots.
pub struct NoArguments;

impl MessageArguments for NoArguments {
    open spec fn slot(&self, i: int) -> Option<u64> {
        None
    }

    fn next_slot(&mut self) -> (r: Option<u64>) {
        None
    }
}

/// How a message is formatted.
#[derive(Clone, Copy, Debug, Default, PartialEq, Eq)]
pub struct FormatMessageOptions {
    /// The width that lines are wrapped at. Zero keeps the line breaks of the message; the largest
    /// number only takes them out.
    pub maximum_width: u32,
    /// Whether inserts are left as they are.
    pub ignore_inserts: bool,
    /// Whether text arguments are narrow ones.
    pub arguments_are_ansi: bool,
    /// Whether all arguments stand in an array.
    pub arguments_are_an_array: bool,
}

/// The slots that formatting takes from.
pub type Slots = spec_fn(int) -> Option<u64>;

/// The text of an insert, given its format, whether text arguments are narrow, and its values.
pub type Rendering = spec_fn(Seq<u16>, bool, u64, u64, u64) -> Seq<u16>;

/// Whether a function can render every insert.
pub open spec fn renders_all<F: FnMut(&[u16], bool, u64, u64, u64) -> Vec<u16>>(render: F) -> bool {
    forall|format: &[u16], ansi: bool, a: u64, b: u64, c: u64| #[trigger]
        call_requires(render, (format, ansi, a, b, c))
}

/// Whether a function renders inserts in the way `m`.
pub open spec fn renders<F: FnMut(&[u16], bool, u64, u64, u64) -> Vec<u16>>(
    render: F,
    m: Rendering,
) -> bool {
    forall|format: &[u16], ansi: bool, a: u64, b: u64, c: u64, text: Vec<u16>| #[trigger]
        call_ensures(render, (format, ansi, a, b, c), text) ==> text@ == m(format@, ansi, a, b, c)
}

/// Whether formatting a message asks for the text of an insert.
pub open spec fn asks_for_text(message: Seq<u16>, options: FormatMessageOptions) -> bool {
    !options.ignore_inserts && exists|i: int|
        0 <= i < message.len() - 1 && #[trigger] message[i] == 0x25 && 0x31 <= message[i + 1]
            <= 0x39
}

/// Whether a message is formatted in the way `m`: a function renders inserts so, or no text is asked
/// for.
pub open spec fn shows<F: FnMut(&[u16], bool, u64, u64, u64) -> Vec<u16>>(
    render: F,
    message: Seq<u16>,
    options: FormatMessageOptions,
    m: Rendering,
) -> bool {
    asks_for_text(message, options) ==> renders(render, m)
}

/// How far formatting has come.
#[verifier::ext_equal]
pub struct FormatState {
    /// The next unit of the message.
    pub source: int,
    pub output: Seq<u16>,
    /// Where the next unit goes.
    pub position: int,
    /// How wide the line is.
    pub column: int,
    /// Where the line can be broken.
    pub last_space: Option<int>,
    /// The slots that inserts refer to.
    pub cache: Seq<u64>,
    /// How many slots were taken.
    pub taken: int,
}

/// One step of formatting: it goes on, the message ends, or it fails.
pub enum Step {
    Next(FormatState),
    Stop(FormatState),
    Fail(FormatState, u32),
}

// ---------------------------------------------------------------------------------------------
// Formatting: writing
// ---------------------------------------------------------------------------------------------

/// Units over those at `at`.
pub open spec fn with_units(output: Seq<u16>, at: int, units: Seq<u16>) -> Seq<u16> {
    Seq::new(
        output.len(),
        |i: int|
            if at <= i < at + units.len() {
                units[i - at]
            } else {
                output[i]
            },
    )
}

/// The state with units appended, where one more unit fits behind them.
pub open spec fn reserved(st: FormatState, units: Seq<u16>) -> Option<FormatState> {
    if st.position + units.len() >= st.output.len() {
        None
    } else {
        Some(
            FormatState {
                output: with_units(st.output, st.position, units),
                position: st.position + units.len(),
                ..st
            },
        )
    }
}

/// How many units of an insert fit in front of a terminator.
pub open spec fn fitting(st: FormatState, text: Seq<u16>) -> int {
    let room = st.output.len() - st.position - 1;
    if text.len() <= room || text.len() == 0 {
        text.len() as int
    } else if room > 0 {
        room
    } else {
        0
    }
}

/// The output with what fits of an insert and a terminator.
pub open spec fn insert_output(st: FormatState, text: Seq<u16>) -> Seq<u16> {
    let n = fitting(st, text);
    with_units(with_units(st.output, st.position, text.take(n)), st.position + n, seq![0u16])
}

/// The state with an insert appended. What does not fit is cut off, and formatting fails.
pub open spec fn inserted(st: FormatState, text: Seq<u16>) -> Step {
    let n = fitting(st, text);
    if n == text.len() {
        Step::Next(
            FormatState { output: insert_output(st, text), position: st.position + n, ..st },
        )
    } else {
        Step::Fail(
            FormatState { output: insert_output(st, text), ..st },
            STATUS_BUFFER_OVERFLOW,
        )
    }
}

fn put_units(output: &mut [u16], at: usize, units: &[u16], n: usize)
    requires
        n <= units@.len(),
        at + n <= old(output)@.len(),
    ensures
        final(output)@ == with_units(old(output)@, at as int, units@.take(n as int)),
{
    assert(output.len() <= usize::MAX);
    let mut i: usize = 0;
    while i < n
        invariant
            i <= n <= units@.len(),
            output@.len() == old(output)@.len() <= usize::MAX,
            at + n <= output@.len(),
            forall|j: int|
                0 <= j < output@.len() ==> #[trigger] output@[j] == if at <= j < at + i {
                    units@[j - at]
                } else {
                    old(output)@[j]
                },
        decreases n - i,
    {
        output[at + i] = units[i];
        i += 1;
    }
    assert(output@ =~= with_units(old(output)@, at as int, units@.take(n as int)));
}

// ---------------------------------------------------------------------------------------------
// Formatting: inserts
// ---------------------------------------------------------------------------------------------

/// An insert of a message: its number, its format, how many values the format takes besides, and
/// the place behind it.
#[verifier::ext_equal]
pub struct InsertModel {
    pub number: int,
    pub format: Seq<u16>,
    pub stars: int,
    pub next: int,
}

/// Where the digits at `at` end.
pub open spec fn digits_end(message: Seq<u16>, at: int) -> int
    decreases message.len() - at,
{
    if 0 <= at < message.len() && is_digit(message[at]) {
        digits_end(message, at + 1)
    } else {
        at
    }
}

/// How many asterisks units hold.
pub open spec fn stars_in(units: Seq<u16>) -> int
    decreases units.len(),
{
    if units.len() == 0 {
        0
    } else {
        stars_in(units.drop_last()) + if units.last() == 0x2a {
            1int
        } else {
            0
        }
    }
}

/// The insert whose number starts at `at`: one to three digits, then perhaps a format between
/// exclamation marks, of at most 30 units with at most two asterisks.
pub open spec fn insert_at(message: Seq<u16>, at: int) -> Option<InsertModel> {
    let end = digits_end(message, at);
    let number = digits_value(message.subrange(at, end));
    if end - at > 3 || number < 1 {
        None
    } else if end < message.len() && message[end] == 0x21 {
        match first_unit(message, end + 1, 0x21) {
            Some(close) => {
                let format = message.subrange(end + 1, close);
                if format.len() > INSERT_FORMAT_UNITS - 2 || stars_in(format) > 2 {
                    None
                } else {
                    Some(
                        InsertModel {
                            number,
                            format: seq![0x25u16] + format,
                            stars: stars_in(format),
                            next: close + 1,
                        },
                    )
                }
            },
            None => None,
        }
    } else {
        Some(InsertModel { number, format: seq![0x25u16, 0x73u16], stars: 0, next: end })
    }
}

/// The first `n` slots from `from` on.
pub open spec fn slots_from(slots: Slots, from: int, n: int) -> Seq<u64> {
    Seq::new(n as nat, |i: int| slots(from + i)->Some_0)
}

/// Whether there are `n` slots from `from` on.
pub open spec fn has_slots(slots: Slots, from: int, n: int) -> bool {
    forall|i: int| 0 <= i < n ==> (#[trigger] slots(from + i)) is Some
}

/// How many slots have to be taken before the insert with a number is known.
pub open spec fn slots_wanted(cache: Seq<u64>, number: int) -> int {
    if number > cache.len() {
        number - cache.len()
    } else {
        0
    }
}

/// How many of `n` slots from `from` on are asked for: the first that is missing is the last.
pub open spec fn asked(slots: Slots, from: int, n: int) -> int
    decreases n,
{
    if n <= 0 {
        0
    } else if slots(from) is None {
        1
    } else {
        1 + asked(slots, from + 1, n - 1)
    }
}

proof fn lemma_asked(slots: Slots, from: int, k: int, n: int)
    requires
        0 <= k < n,
        has_slots(slots, from, k),
        slots(from + k) is None,
    ensures
        asked(slots, from, n) == k + 1,
    decreases k,
{
    if k > 0 {
        assert(slots(from + 0) is Some);
        assert forall|i: int| 0 <= i < k - 1 implies (#[trigger] slots(from + 1 + i)) is Some by {
            assert(slots(from + (i + 1)) is Some);
        }
        lemma_asked(slots, from + 1, k - 1, n - 1);
    }
}

/// How many slots are asked for before an insert fails.
pub open spec fn slots_asked(st: FormatState, slots: Slots, insert: InsertModel) -> int {
    if insert.number - 1 + insert.stars >= MAX_INSERTS {
        0
    } else {
        asked(slots, st.taken, slots_wanted(st.cache, insert.number) + insert.stars)
    }
}

/// The values of an insert, and the state with the slots taken. Slots up to the insert's are kept;
/// of those that its format takes besides, the second one is kept, and the first one where the
/// arguments are an array.
pub open spec fn insert_values(
    st: FormatState,
    slots: Slots,
    insert: InsertModel,
    array: bool,
) -> Option<((u64, u64, u64), FormatState)> {
    let wanted = slots_wanted(st.cache, insert.number);
    let next = st.taken + wanted;
    let cache = st.cache + slots_from(slots, st.taken, wanted);
    if insert.number - 1 + insert.stars >= MAX_INSERTS || !has_slots(
        slots,
        st.taken,
        wanted + insert.stars,
    ) {
        None
    } else {
        let first = if insert.stars >= 1 {
            slots(next)->Some_0
        } else {
            0
        };
        let second = if insert.stars >= 2 {
            slots(next + 1)->Some_0
        } else {
            0
        };
        let kept = if insert.stars >= 1 && array {
            cache.push(first)
        } else {
            cache
        };
        Some(
            (
                (cache[insert.number - 1], first, second),
                FormatState {
                    cache: if insert.stars >= 2 {
                        kept.push(second)
                    } else {
                        kept
                    },
                    taken: next + insert.stars,
                    ..st
                },
            ),
        )
    }
}

/// An insert of a message.
struct Insert {
    number: usize,
    format: Vec<u16>,
    stars: usize,
    next: usize,
}

impl View for Insert {
    type V = InsertModel;

    closed spec fn view(&self) -> InsertModel {
        InsertModel {
            number: self.number as int,
            format: self.format@,
            stars: self.stars as int,
            next: self.next as int,
        }
    }
}

proof fn lemma_digits_end(message: Seq<u16>, at: int)
    requires
        0 <= at <= message.len(),
    ensures
        at <= digits_end(message, at) <= message.len(),
        all_digits(message.subrange(at, digits_end(message, at))),
    decreases message.len() - at,
{
    if at < message.len() && is_digit(message[at]) {
        lemma_digits_end(message, at + 1);
        let run = message.subrange(at, digits_end(message, at));
        assert forall|i: int| 0 <= i < run.len() implies is_digit(#[trigger] run[i]) by {
            if i > 0 {
                assert(run[i] == message.subrange(at + 1, digits_end(message, at + 1))[i - 1]);
            }
        }
    }
}

fn count_stars(units: &[u16]) -> (n: usize)
    ensures
        n == stars_in(units@),
{
    let mut n: usize = 0;
    let mut i: usize = 0;
    while i < units.len()
        invariant
            i <= units@.len(),
            n <= i,
            n == stars_in(units@.take(i as int)),
        decreases units@.len() - i,
    {
        assert(units@.take(i + 1).drop_last() =~= units@.take(i as int));
        if units[i] == 0x2a {
            n += 1;
        }
        i += 1;
    }
    assert(units@.take(i as int) =~= units@);
    n
}

/// Read the insert whose number starts at `at`.
fn parse_insert(message: &[u16], at: usize) -> (r: Option<Insert>)
    requires
        at <= message@.len(),
    ensures
        match r {
            Some(insert) => insert_at(message@, at as int) == Some(insert@) && at <= insert.next
                <= message@.len() && 1 <= insert.number <= 999 && insert.stars <= 2,
            None => insert_at(message@, at as int) is None,
        },
{
    assert(message.len() <= usize::MAX);
    let total: usize = message.len();
    let mut end: usize = at;
    while end < total && message[end] >= 0x30 && message[end] <= 0x39
        invariant
            at <= end <= total == message@.len(),
            digits_end(message@, at as int) == digits_end(message@, end as int),
        decreases total - end,
    {
        end += 1;
    }
    proof {
        lemma_digits_end(message@, at as int);
    }
    if end - at > 3 {
        return None;
    }
    let number: usize = match parse_digits(vstd::slice::slice_subrange(message, at, end), 999) {
        Some(number) => number as usize,
        None => {
            proof {
                let run = message@.subrange(at as int, end as int);
                lemma_three_digits(run);
            }
            return None;
        },
    };
    if number < 1 {
        return None;
    }
    if end < total && message[end] == 0x21 {
        match find_unit(message, end + 1, 0x21) {
            Some(close) => {
                let body = vstd::slice::slice_subrange(message, end + 1, close);
                let stars: usize = count_stars(body);
                if body.len() > INSERT_FORMAT_UNITS - 2 || stars > 2 {
                    return None;
                }
                let mut format: Vec<u16> = Vec::new();
                format.push(0x25);
                crate::bytes::push_units(&mut format, body);
                assert(format@ =~= seq![0x25u16] + body@);
                Some(Insert { number, format, stars, next: close + 1 })
            },
            None => None,
        }
    } else {
        let mut format: Vec<u16> = Vec::new();
        format.push(0x25);
        format.push(0x73);
        assert(format@ =~= seq![0x25u16, 0x73u16]);
        Some(Insert { number, format, stars: 0, next: end })
    }
}

/// At most three digits make a number of at most 999.
proof fn lemma_three_digits(run: Seq<u16>)
    requires
        run.len() <= 3,
        all_digits(run),
    ensures
        digits_value(run) <= 999,
{
    reveal_with_fuel(digits_value, 4);
    assert(forall|i: int| 0 <= i < run.len() ==> is_digit(#[trigger] run[i]));
    if run.len() >= 1 {
        let a = run.drop_last();
        assert(run.last() == run[run.len() - 1]);
        if run.len() >= 2 {
            let b = a.drop_last();
            assert(a.last() == run[run.len() - 2]);
            if run.len() >= 3 {
                assert(b.last() == run[run.len() - 3]);
            }
        }
    }
}

/// Take the values of an insert. Nothing is promised of the cache where that fails.
fn take_values<A: MessageArguments>(
    arguments: &mut A,
    cache: &mut Vec<u64>,
    insert: &Insert,
    array: bool,
    Ghost(st): Ghost<FormatState>,
    Ghost(slots): Ghost<Slots>,
) -> (r: Option<(u64, u64, u64)>)
    requires
        1 <= insert.number <= 999,
        insert.stars <= 2,
        old(cache)@ == st.cache,
        forall|i: int| 0 <= i ==> #[trigger] old(arguments).slot(i) == slots(st.taken + i),
    ensures
        match insert_values(st, slots, insert@, array) {
            Some((values, after)) => {
                &&& r == Some(values)
                &&& final(cache)@ == after.cache
                &&& forall|i: int|
                    0 <= i ==> #[trigger] final(arguments).slot(i) == slots(after.taken + i)
            },
            None => {
                &&& r is None
                &&& forall|i: int|
                    0 <= i ==> #[trigger] final(arguments).slot(i) == slots(
                        st.taken + slots_asked(st, slots, insert@) + i,
                    )
            },
        },
{
    let number: usize = insert.number;
    let stars: usize = insert.stars;
    if number - 1 + stars >= MAX_INSERTS {
        return None;
    }
    let ghost wanted = slots_wanted(st.cache, number as int);
    let ghost mut got: int = 0;
    assert(cache@ =~= st.cache + slots_from(slots, st.taken, 0));
    while cache.len() < number
        invariant
            insert.number == number,
            insert.stars == stars,
            number - 1 + stars < MAX_INSERTS,
            wanted == slots_wanted(st.cache, number as int),
            0 <= got <= wanted,
            cache@.len() == st.cache.len() + got,
            cache@ == st.cache + slots_from(slots, st.taken, got),
            has_slots(slots, st.taken, got),
            forall|i: int| 0 <= i ==> #[trigger] arguments.slot(i) == slots(st.taken + got + i),
        decreases number - cache@.len(),
    {
        assert(arguments.slot(0) == slots(st.taken + got + 0));
        let ghost source = *arguments;
        match arguments.next_slot() {
            Some(value) => {
                cache.push(value);
                proof {
                    assert(slots(st.taken + got) == Some(value));
                    got = got + 1;
                    assert(cache@ =~= st.cache + slots_from(slots, st.taken, got));
                    assert forall|i: int| 0 <= i implies #[trigger] arguments.slot(i) == slots(
                        st.taken + got + i,
                    ) by {
                        assert(st.taken + (got - 1) + (i + 1) == st.taken + got + i);
                    }
                }
            },
            None => {
                proof {
                    assert(slots(st.taken + got) is None);
                    lemma_asked(slots, st.taken, got, wanted + stars);
                    assert forall|i: int| 0 <= i implies #[trigger] arguments.slot(i) == slots(
                        st.taken + (got + 1) + i,
                    ) by {
                        assert(source.slot(i + 1) == slots(st.taken + got + (i + 1)));
                    }
                }
                return None;
            },
        }
    }
    assert(got == wanted);
    let value: u64 = cache[number - 1];
    let ghost next = st.taken + wanted;
    assert(arguments.slot(0) == slots(next + 0));
    let mut first: u64 = 0;
    let mut second: u64 = 0;
    if stars >= 1 {
        let ghost source = *arguments;
        first = match arguments.next_slot() {
            Some(value) => value,
            None => {
                proof {
                    assert(slots(st.taken + wanted) is None);
                    lemma_asked(slots, st.taken, wanted, wanted + stars);
                    assert forall|i: int| 0 <= i implies #[trigger] arguments.slot(i) == slots(
                        st.taken + (wanted + 1) + i,
                    ) by {
                        assert(source.slot(i + 1) == slots(st.taken + wanted + (i + 1)));
                    }
                }
                return None;
            },
        };
        if array {
            cache.push(first);
        }
    }
    let ghost shift: int = if stars >= 1 {
        1
    } else {
        0
    };
    proof {
        assert forall|i: int| 0 <= i implies #[trigger] arguments.slot(i) == slots(
            next + shift + i,
        ) by {
            assert(next + (i + shift) == next + shift + i);
        }
    }
    if stars >= 2 {
        assert(arguments.slot(0) == slots(next + 1 + 0));
        let ghost source = *arguments;
        second = match arguments.next_slot() {
            Some(value) => value,
            None => {
                proof {
                    assert(slots(st.taken + (wanted + 1)) is None);
                    assert(has_slots(slots, st.taken, wanted + 1));
                    lemma_asked(slots, st.taken, wanted + 1, wanted + stars);
                    assert forall|i: int| 0 <= i implies #[trigger] arguments.slot(i) == slots(
                        st.taken + (wanted + 2) + i,
                    ) by {
                        assert(source.slot(i + 1) == slots(next + 1 + (i + 1)));
                    }
                }
                return None;
            },
        };
        cache.push(second);
    }
    proof {
        assert forall|i: int| 0 <= i < wanted + stars implies (#[trigger] slots(st.taken + i))
            is Some by {
            if i == wanted {
            } else if i == wanted + 1 {
            }
        }
        assert forall|i: int| 0 <= i implies #[trigger] arguments.slot(i) == slots(
            next + stars + i,
        ) by {
            assert(next + 1 + (i + 1) == next + 2 + i);
        }
    }
    Some((value, first, second))
}

// ---------------------------------------------------------------------------------------------
// Formatting: steps
// ---------------------------------------------------------------------------------------------

/// A width, which does not grow beyond the largest number.
pub open spec fn capped(n: int) -> int {
    if n > usize::MAX {
        usize::MAX as int
    } else {
        n
    }
}

/// The step that appends units, where one more unit fits behind them.
pub open spec fn append(st: FormatState, units: Seq<u16>) -> Step {
    match reserved(st, units) {
        Some(after) => Step::Next(after),
        None => Step::Fail(st, STATUS_BUFFER_OVERFLOW),
    }
}

/// A step with what was appended since `before` added to the width.
pub open spec fn widened(step: Step, before: int) -> Step {
    match step {
        Step::Next(st) => Step::Next(
            FormatState { column: capped(st.column + (st.position - before)), ..st },
        ),
        other => other,
    }
}

/// A step that starts a new line.
pub open spec fn restarted(step: Step) -> Step {
    match step {
        Step::Next(st) => Step::Next(FormatState { column: 0, last_space: None, ..st }),
        other => other,
    }
}

/// The width after a tabulator.
pub open spec fn tab_stop(column: int) -> int {
    if column % 8 == 0 {
        capped(column + 8)
    } else {
        capped((column + 7) / 8 * 8)
    }
}

/// The step for an insert, with the state behind it.
pub open spec fn insert_step(
    message: Seq<u16>,
    options: FormatMessageOptions,
    m: Rendering,
    slots: Slots,
    st: FormatState,
) -> Step {
    match insert_at(message, st.source + 1) {
        Some(insert) => {
            let behind = FormatState { source: insert.next, ..st };
            if options.ignore_inserts {
                inserted(behind, message.subrange(st.source, insert.next))
            } else {
                match insert_values(behind, slots, insert, options.arguments_are_an_array) {
                    Some(((a, b, c), after)) => inserted(
                        after,
                        m(insert.format, options.arguments_are_ansi, a, b, c),
                    ),
                    None => Step::Fail(
                        FormatState { taken: st.taken + slots_asked(st, slots, insert), ..st },
                        STATUS_INVALID_PARAMETER,
                    ),
                }
            }
        },
        None => Step::Fail(st, STATUS_INVALID_PARAMETER),
    }
}

/// The step for a percent sign with `control` behind it.
pub open spec fn control_step(options: FormatMessageOptions, control: u16, st: FormatState) -> Step {
    let behind = FormatState { source: st.source + 2, ..st };
    let spaced = FormatState { last_space: Some(st.position), ..behind };
    if control == 0x30 {
        Step::Stop(behind)
    } else if control == 0x72 {
        restarted(append(behind, seq![0x0du16]))
    } else if control == 0x6e {
        restarted(append(behind, seq![0x0du16, 0x0au16]))
    } else if control == 0x74 {
        widened(
            append(FormatState { column: tab_stop(st.column), ..spaced }, seq![0x09u16]),
            st.position,
        )
    } else if control == 0x62 {
        widened(append(spaced, seq![0x20u16]), st.position)
    } else if options.ignore_inserts {
        widened(append(behind, seq![0x25u16, control]), st.position)
    } else {
        widened(append(behind, seq![control]), st.position)
    }
}

/// Whether a unit breaks a line.
pub open spec fn is_break(unit: u16) -> bool {
    unit == 0x0d || unit == 0x0a
}

/// The step for a unit that is no percent sign. A pair of different line breaks counts as one; a
/// line break is kept, or is a space where lines are wrapped.
pub open spec fn text_step(message: Seq<u16>, options: FormatMessageOptions, st: FormatState) -> Step {
    let unit = message[st.source];
    let next = st.source + 1;
    let broken = is_break(unit);
    let behind = FormatState {
        source: if broken && next < message.len() && is_break(message[next]) && message[next]
            != unit {
            next + 1
        } else {
            next
        },
        ..st
    };
    if broken && options.maximum_width == 0 {
        restarted(append(behind, seq![0x0du16, 0x0au16]))
    } else if st.position >= st.output.len() {
        Step::Fail(st, STATUS_BUFFER_OVERFLOW)
    } else {
        Step::Next(
            FormatState {
                output: with_units(
                    st.output,
                    st.position,
                    seq![
                        if broken {
                            0x20u16
                        } else {
                            unit
                        },
                    ],
                ),
                position: st.position + 1,
                column: capped(st.column + 1),
                last_space: if broken || unit == 0x20 {
                    Some(st.position)
                } else {
                    st.last_space
                },
                ..behind
            },
        )
    }
}

/// Whether a unit is a space or a tabulator.
pub open spec fn is_blank(unit: u16) -> bool {
    unit == 0x20 || unit == 0x09
}

/// Where the blanks at `at` end, in front of `stop`.
pub open spec fn blanks_end(output: Seq<u16>, at: int, stop: int) -> int
    decreases stop - at,
{
    if at < stop && is_blank(output[at]) {
        blanks_end(output, at + 1, stop)
    } else {
        at
    }
}

/// Where the blanks in front of `at` start.
pub open spec fn blanks_start(output: Seq<u16>, at: int) -> int
    decreases at,
{
    if at > 0 && is_blank(output[at - 1]) {
        blanks_start(output, at - 1)
    } else {
        at
    }
}

/// The step that breaks a line: at its last space, where it has one, else at its end. The blanks
/// around the break go.
pub open spec fn wrap(st: FormatState) -> Step {
    match st.last_space {
        Some(space) => {
            let suffix = blanks_end(st.output, space, st.position);
            let end = blanks_start(st.output, space);
            let word = st.output.subrange(suffix, st.position);
            if end + 2 + word.len() >= st.output.len() {
                Step::Fail(st, STATUS_BUFFER_OVERFLOW)
            } else {
                Step::Next(
                    FormatState {
                        output: with_units(st.output, end, seq![0x0du16, 0x0au16] + word),
                        position: end + 2 + word.len(),
                        column: word.len() as int,
                        last_space: None,
                        ..st
                    },
                )
            }
        },
        None => match append(st, seq![0x0du16, 0x0au16]) {
            Step::Next(after) => Step::Next(FormatState { column: 0, ..after }),
            other => other,
        },
    }
}

/// A step, and a line break behind it where the line is too wide.
pub open spec fn wrapped(options: FormatMessageOptions, step: Step) -> Step {
    match step {
        Step::Next(st) => if options.maximum_width != 0 && options.maximum_width != u32::MAX
            && st.column >= options.maximum_width {
            wrap(st)
        } else {
            step
        },
        other => other,
    }
}

/// The step without the line break behind it.
pub open spec fn token_step(
    message: Seq<u16>,
    options: FormatMessageOptions,
    m: Rendering,
    slots: Slots,
    st: FormatState,
) -> Step {
    if message[st.source] != 0x25 {
        text_step(message, options, st)
    } else if st.source + 1 >= message.len() {
        Step::Fail(st, STATUS_INVALID_PARAMETER)
    } else {
        let control = message[st.source + 1];
        if 0x31 <= control <= 0x39 {
            widened(insert_step(message, options, m, slots, st), st.position)
        } else {
            control_step(options, control, st)
        }
    }
}

/// One step of formatting.
pub open spec fn format_step(
    message: Seq<u16>,
    options: FormatMessageOptions,
    m: Rendering,
    slots: Slots,
    st: FormatState,
) -> Step {
    wrapped(options, token_step(message, options, m, slots, st))
}

/// What is left in the output, the number of bytes or the failure, and how many slots were taken.
pub type Formatted = (Seq<u16>, Result<int, u32>, int);

/// The end of formatting: a terminator, which counts.
pub open spec fn format_end(st: FormatState) -> Formatted {
    if st.position >= st.output.len() {
        (st.output, Err(STATUS_BUFFER_OVERFLOW), st.taken)
    } else {
        (
            with_units(st.output, st.position, seq![0u16]),
            if 2 * (st.position + 1) > usize::MAX {
                Err(STATUS_BUFFER_OVERFLOW)
            } else {
                Ok(2 * (st.position + 1))
            },
            st.taken,
        )
    }
}

/// Formatting from a state on.
pub open spec fn format_from(
    message: Seq<u16>,
    options: FormatMessageOptions,
    m: Rendering,
    slots: Slots,
    st: FormatState,
) -> Formatted
    decreases message.len() - st.source,
{
    if st.source >= message.len() {
        format_end(st)
    } else {
        match format_step(message, options, m, slots, st) {
            Step::Next(after) => if st.source < after.source <= message.len() {
                format_from(message, options, m, slots, after)
            } else {
                (after.output, Err(STATUS_INVALID_PARAMETER), after.taken)
            },
            Step::Stop(after) => format_end(after),
            Step::Fail(after, status) => (after.output, Err(status), after.taken),
        }
    }
}

/// The start of formatting.
pub open spec fn format_start(output: Seq<u16>) -> FormatState {
    FormatState {
        source: 0,
        output,
        position: 0,
        column: 0,
        last_space: None,
        cache: Seq::empty(),
        taken: 0,
    }
}

/// A message formatted into an output.
pub open spec fn formatted(
    message: Seq<u16>,
    options: FormatMessageOptions,
    m: Rendering,
    slots: Slots,
    output: Seq<u16>,
) -> Formatted {
    format_from(message, options, m, slots, format_start(output))
}

/// How far formatting has come.
struct Formatter {
    source: usize,
    position: usize,
    column: usize,
    last_space: Option<usize>,
    cache: Vec<u64>,
}

impl Formatter {
    /// The state with an output and a number of taken slots.
    spec fn state(self, output: Seq<u16>, taken: int) -> FormatState {
        FormatState {
            source: self.source as int,
            output,
            position: self.position as int,
            column: self.column as int,
            last_space: match self.last_space {
                Some(space) => Some(space as int),
                None => None,
            },
            cache: self.cache@,
            taken,
        }
    }

    /// Append units, where one more unit fits behind them.
    fn append(&mut self, output: &mut [u16], units: &[u16], Ghost(taken): Ghost<int>) -> (ok: bool)
        requires
            old(self).position <= old(output)@.len(),
        ensures
            final(output)@.len() == old(output)@.len(),
            match reserved(old(self).state(old(output)@, taken), units@) {
                Some(after) => ok && final(self).state(final(output)@, taken) == after,
                None => !ok && *final(self) == *old(self) && final(output)@ == old(output)@,
            },
    {
        if output.len() - self.position <= units.len() {
            return false;
        }
        put_units(output, self.position, units, units.len());
        assert(units@.take(units@.len() as int) =~= units@);
        self.position = self.position + units.len();
        assert(self.state(output@, taken) =~= reserved(
            old(self).state(old(output)@, taken),
            units@,
        )->Some_0);
        true
    }

    /// Append an insert.
    fn append_insert(&mut self, output: &mut [u16], text: &[u16], Ghost(taken): Ghost<int>) -> (ok:
        bool)
        requires
            old(self).position <= old(output)@.len(),
        ensures
            final(output)@.len() == old(output)@.len(),
            match inserted(old(self).state(old(output)@, taken), text@) {
                Step::Next(after) => ok && final(self).state(final(output)@, taken) == after,
                Step::Fail(after, status) => !ok && final(output)@ == after.output && status
                    == STATUS_BUFFER_OVERFLOW && *final(self) == *old(self),
                Step::Stop(_) => false,
            },
    {
        let ghost st = self.state(output@, taken);
        let room: usize = output.len() - self.position;
        let n: usize = if text.len() == 0 || text.len() < room {
            text.len()
        } else if room > 0 {
            room - 1
        } else {
            0
        };
        assert(n == fitting(st, text@));
        put_units(output, self.position, text, n);
        let ghost cut = output@;
        if n < room {
            output[self.position + n] = 0;
        }
        assert(output@ =~= with_units(cut, self.position + n, seq![0u16]));
        if n < text.len() {
            return false;
        }
        self.position = self.position + n;
        assert(self.state(output@, taken) =~= FormatState {
            output: insert_output(st, text@),
            position: st.position + n,
            ..st
        });
        true
    }

    /// Break the line.
    fn wrap_line(&mut self, output: &mut [u16], Ghost(taken): Ghost<int>) -> (ok: bool)
        requires
            old(self).position <= old(output)@.len(),
            old(self).last_space matches Some(space) ==> space < old(self).position,
        ensures
            final(output)@.len() == old(output)@.len(),
            match wrap(old(self).state(old(output)@, taken)) {
                Step::Next(after) => ok && final(self).state(final(output)@, taken) == after
                    && final(self).position < final(output)@.len() && final(self).last_space is None,
                Step::Fail(after, status) => !ok && final(output)@ == after.output && status
                    == STATUS_BUFFER_OVERFLOW,
                Step::Stop(_) => false,
            },
    {
        let ghost st = self.state(output@, taken);
        assert(output.len() <= usize::MAX);
        match self.last_space {
            Some(space) => {
                let mut suffix: usize = space;
                while suffix < self.position && (output[suffix] == 0x20 || output[suffix] == 0x09)
                    invariant
                        space <= suffix <= self.position <= output@.len(),
                        blanks_end(output@, space as int, self.position as int) == blanks_end(
                            output@,
                            suffix as int,
                            self.position as int,
                        ),
                    decreases self.position - suffix,
                {
                    suffix += 1;
                }
                let mut end: usize = space;
                while end > 0 && (output[end - 1] == 0x20 || output[end - 1] == 0x09)
                    invariant
                        end <= space < output@.len(),
                        blanks_start(output@, space as int) == blanks_start(output@, end as int),
                    decreases end,
                {
                    end -= 1;
                }
                let length: usize = self.position - suffix;
                if output.len() - end < 2 || output.len() - end - 2 <= length {
                    return false;
                }
                let word = crate::bytes::copy_units(
                    vstd::slice::slice_subrange(&*output, suffix, self.position),
                );
                put_units(output, end + 2, &word, length);
                output[end] = 0x0d;
                output[end + 1] = 0x0a;
                assert(word@.take(length as int) =~= word@);
                assert(output@ =~= with_units(
                    st.output,
                    end as int,
                    seq![0x0du16, 0x0au16] + word@,
                ));
                self.position = end + 2 + length;
                self.column = length;
                self.last_space = None;
                assert(self.state(output@, taken) =~= wrap(st)->Next_0);
                true
            },
            None => {
                let units: [u16; 2] = [0x0d, 0x0a];
                assert(units@ =~= seq![0x0du16, 0x0au16]);
                if !self.append(output, &units, Ghost(taken)) {
                    return false;
                }
                self.column = 0;
                true
            },
        }
    }

    /// Append units and add them to the width.
    fn append_wide(&mut self, output: &mut [u16], units: &[u16], Ghost(taken): Ghost<int>) -> (r:
        Taken)
        requires
            old(self).position <= old(output)@.len(),
        ensures
            final(output)@.len() == old(output)@.len(),
            agrees(
                widened(
                    append(old(self).state(old(output)@, taken), units@),
                    old(self).position as int,
                ),
                r,
                final(self).state(final(output)@, taken),
            ),
    {
        let before: usize = self.position;
        if !self.append(output, units, Ghost(taken)) {
            return Taken::Fail(STATUS_BUFFER_OVERFLOW);
        }
        self.column = self.column.saturating_add(self.position - before);
        Taken::Next
    }

    /// Append units and start a new line.
    fn append_break(&mut self, output: &mut [u16], units: &[u16], Ghost(taken): Ghost<int>) -> (r:
        Taken)
        requires
            old(self).position <= old(output)@.len(),
        ensures
            final(output)@.len() == old(output)@.len(),
            agrees(
                restarted(append(old(self).state(old(output)@, taken), units@)),
                r,
                final(self).state(final(output)@, taken),
            ),
    {
        if !self.append(output, units, Ghost(taken)) {
            return Taken::Fail(STATUS_BUFFER_OVERFLOW);
        }
        self.column = 0;
        self.last_space = None;
        Taken::Next
    }

    /// Take a percent sign with `control` behind it.
    fn take_control(
        &mut self,
        options: FormatMessageOptions,
        control: u16,
        output: &mut [u16],
        Ghost(taken): Ghost<int>,
    ) -> (r: Taken)
        requires
            old(self).position <= old(output)@.len(),
            old(self).source + 2 <= usize::MAX,
        ensures
            final(output)@.len() == old(output)@.len(),
            agrees(
                control_step(options, control, old(self).state(old(output)@, taken)),
                r,
                final(self).state(final(output)@, taken),
            ),
    {
        let ghost st = self.state(output@, taken);
        self.source = self.source + 2;
        if control == 0x30 {
            assert(self.state(output@, taken) =~= FormatState { source: st.source + 2, ..st });
            Taken::Stop
        } else if control == 0x72 {
            let units: [u16; 1] = [0x0d];
            assert(units@ =~= seq![0x0du16]);
            self.append_break(output, &units, Ghost(taken))
        } else if control == 0x6e {
            let units: [u16; 2] = [0x0d, 0x0a];
            assert(units@ =~= seq![0x0du16, 0x0au16]);
            self.append_break(output, &units, Ghost(taken))
        } else if control == 0x74 {
            let units: [u16; 1] = [0x09];
            assert(units@ =~= seq![0x09u16]);
            let rest: usize = self.column % 8;
            self.column = self.column.saturating_add(8 - rest);
            self.last_space = Some(self.position);
            self.append_wide(output, &units, Ghost(taken))
        } else if control == 0x62 {
            let units: [u16; 1] = [0x20];
            assert(units@ =~= seq![0x20u16]);
            self.last_space = Some(self.position);
            self.append_wide(output, &units, Ghost(taken))
        } else if options.ignore_inserts {
            let units: [u16; 2] = [0x25, control];
            assert(units@ =~= seq![0x25u16, control]);
            self.append_wide(output, &units, Ghost(taken))
        } else {
            let units: [u16; 1] = [control];
            assert(units@ =~= seq![control]);
            self.append_wide(output, &units, Ghost(taken))
        }
    }

    /// Take a unit that is no percent sign.
    fn take_text(
        &mut self,
        message: &[u16],
        options: FormatMessageOptions,
        output: &mut [u16],
        Ghost(taken): Ghost<int>,
    ) -> (r: Taken)
        requires
            old(self).position <= old(output)@.len(),
            old(self).source < message@.len(),
        ensures
            final(output)@.len() == old(output)@.len(),
            agrees(
                text_step(message@, options, old(self).state(old(output)@, taken)),
                r,
                final(self).state(final(output)@, taken),
            ),
    {
        assert(message.len() <= usize::MAX);
        assert(output.len() <= usize::MAX);
        let ghost st = self.state(output@, taken);
        let unit: u16 = message[self.source];
        let broken: bool = unit == 0x0d || unit == 0x0a;
        let mut next: usize = self.source + 1;
        if broken && next < message.len() {
            let other: u16 = message[next];
            if (other == 0x0d || other == 0x0a) && other != unit {
                next += 1;
            }
        }
        if broken && options.maximum_width == 0 {
            let units: [u16; 2] = [0x0d, 0x0a];
            assert(units@ =~= seq![0x0du16, 0x0au16]);
            self.source = next;
            return self.append_break(output, &units, Ghost(taken));
        }
        if self.position >= output.len() {
            return Taken::Fail(STATUS_BUFFER_OVERFLOW);
        }
        let shown: u16 = if broken {
            0x20
        } else {
            unit
        };
        output[self.position] = shown;
        assert(output@ =~= with_units(st.output, st.position, seq![shown]));
        if shown == 0x20 {
            self.last_space = Some(self.position);
        }
        self.source = next;
        self.position = self.position + 1;
        self.column = self.column.saturating_add(1);
        assert(self.state(output@, taken) =~= text_step(message@, options, st)->Next_0);
        Taken::Next
    }
}

/// How a step went.
enum Taken {
    Next,
    Stop,
    Fail(u32),
}

/// Whether a step went as it should, given the state behind it. Of the state behind a failure only
/// the output and the slots that were taken count.
spec fn agrees(step: Step, taken: Taken, after: FormatState) -> bool {
    match (step, taken) {
        (Step::Next(st), Taken::Next) => st == after,
        (Step::Stop(st), Taken::Stop) => st == after,
        (Step::Fail(st, status), Taken::Fail(found)) => st.output == after.output && st.taken
            == after.taken && status == found,
        _ => false,
    }
}

/// Whether the places of a state are inside the message and the output.
pub open spec fn state_ok(message: Seq<u16>, st: FormatState) -> bool {
    &&& 0 <= st.source <= message.len()
    &&& 0 <= st.position <= st.output.len()
    &&& 0 <= st.column
    &&& 0 <= st.taken
    &&& st.last_space matches Some(space) ==> 0 <= space < st.position
}

proof fn lemma_insert_end(message: Seq<u16>, at: int)
    requires
        0 <= at < message.len(),
        is_digit(message[at]),
    ensures
        insert_at(message, at) matches Some(insert) ==> at < insert.next <= message.len()
            && insert.number >= 1 && 0 <= insert.stars,
{
    lemma_digits_end(message, at);
    lemma_digits_end(message, at + 1);
    let end = digits_end(message, at);
    lemma_first_unit(message, end + 1, 0x21);
    if let Some(close) = first_unit(message, end + 1, 0x21) {
        lemma_stars(message.subrange(end + 1, close));
    }
}

proof fn lemma_stars(units: Seq<u16>)
    ensures
        0 <= stars_in(units) <= units.len(),
    decreases units.len(),
{
    if units.len() > 0 {
        lemma_stars(units.drop_last());
    }
}

proof fn lemma_first_unit(s: Seq<u16>, at: int, unit: u16)
    requires
        0 <= at,
    ensures
        first_unit(s, at, unit) matches Some(i) ==> at <= i < s.len(),
    decreases s.len() - at,
{
    if at < s.len() && s[at] != unit {
        lemma_first_unit(s, at + 1, unit);
    }
}

proof fn lemma_blanks(output: Seq<u16>, space: int, stop: int)
    requires
        0 <= space <= stop,
    ensures
        space <= blanks_end(output, space, stop) <= stop,
    decreases stop - space,
{
    if space < stop && is_blank(output[space]) {
        lemma_blanks(output, space + 1, stop);
    }
}

proof fn lemma_blanks_start(output: Seq<u16>, at: int)
    requires
        0 <= at,
    ensures
        0 <= blanks_start(output, at) <= at,
    decreases at,
{
    if at > 0 && is_blank(output[at - 1]) {
        lemma_blanks_start(output, at - 1);
    }
}

proof fn lemma_token_forward(
    message: Seq<u16>,
    options: FormatMessageOptions,
    m: Rendering,
    slots: Slots,
    st: FormatState,
)
    requires
        state_ok(message, st),
        st.source < message.len(),
    ensures
        match token_step(message, options, m, slots, st) {
            Step::Next(after) => state_ok(message, after) && st.source < after.source
                && after.output.len() == st.output.len(),
            Step::Stop(after) => state_ok(message, after) && after.output.len() == st.output.len(),
            Step::Fail(after, status) => after.output.len() == st.output.len() && (status
                == STATUS_INVALID_PARAMETER || status == STATUS_BUFFER_OVERFLOW),
        },
{
    if message[st.source] == 0x25 && st.source + 1 < message.len() {
        let control = message[st.source + 1];
        if 0x31 <= control <= 0x39 {
            lemma_insert_end(message, st.source + 1);
        }
    }
}

/// Every step of formatting goes forward in the message, and keeps to the output.
pub proof fn steps_go_forward(
    message: Seq<u16>,
    options: FormatMessageOptions,
    m: Rendering,
    slots: Slots,
    st: FormatState,
)
    requires
        state_ok(message, st),
        st.source < message.len(),
    ensures
        match format_step(message, options, m, slots, st) {
            Step::Next(after) => state_ok(message, after) && st.source < after.source
                && after.output.len() == st.output.len(),
            Step::Stop(after) => state_ok(message, after) && after.output.len() == st.output.len(),
            Step::Fail(after, status) => after.output.len() == st.output.len() && (status
                == STATUS_INVALID_PARAMETER || status == STATUS_BUFFER_OVERFLOW),
        },
{
    lemma_token_forward(message, options, m, slots, st);
    let step = token_step(message, options, m, slots, st);
    if let Step::Next(after) = step {
        assert(state_ok(message, after));
        if let Some(space) = after.last_space {
            lemma_blanks(after.output, space, after.position);
            lemma_blanks_start(after.output, space);
        }
    }
}

impl Formatter {
    /// Take an insert.
    fn take_insert<
        A: MessageArguments,
        F: FnMut(&[u16], bool, u64, u64, u64) -> Vec<u16>,
    >(
        &mut self,
        message: &[u16],
        options: FormatMessageOptions,
        arguments: &mut A,
        output: &mut [u16],
        render: &mut F,
        Ghost(taken): Ghost<int>,
        Ghost(slots): Ghost<Slots>,
    ) -> (r: (Taken, Ghost<int>))
        requires
            renders_all(*old(render)),
            old(self).position <= old(output)@.len(),
            old(self).source + 1 < message@.len(),
            message@[old(self).source as int] == 0x25,
            0x31 <= message@[old(self).source + 1] <= 0x39,
            forall|i: int| 0 <= i ==> #[trigger] old(arguments).slot(i) == slots(taken + i),
        ensures
            *final(render) == *old(render),
            final(output)@.len() == old(output)@.len(),
            forall|i: int| 0 <= i ==> #[trigger] final(arguments).slot(i) == slots(r.1@ + i),
            r.0 !is Stop,
            forall|m: Rendering| #[trigger]
                shows(*old(render), message@, options, m) ==> agrees(
                    widened(
                        insert_step(
                            message@,
                            options,
                            m,
                            slots,
                            old(self).state(old(output)@, taken),
                        ),
                        old(self).position as int,
                    ),
                    r.0,
                    final(self).state(final(output)@, r.1@),
                ),
            exists|m: Rendering|
                agrees(
                    widened(
                        #[trigger] insert_step(
                            message@,
                            options,
                            m,
                            slots,
                            old(self).state(old(output)@, taken),
                        ),
                        old(self).position as int,
                    ),
                    r.0,
                    final(self).state(final(output)@, r.1@),
                ),
    {
        assert(message.len() <= usize::MAX);
        let ghost st = self.state(output@, taken);
        let ghost blank: Rendering = |f: Seq<u16>, n: bool, a: u64, b: u64, c: u64| Seq::empty();
        let ghost step = insert_step(message@, options, blank, slots, st);
        let before: usize = self.position;
        let start: usize = self.source;
        let insert = match parse_insert(message, start + 1) {
            Some(insert) => insert,
            None => {
                return (Taken::Fail(STATUS_INVALID_PARAMETER), Ghost(taken));
            },
        };
        if options.ignore_inserts {
            self.source = insert.next;
            let text = vstd::slice::slice_subrange(message, start, insert.next);
            if !self.append_insert(output, text, Ghost(taken)) {
                return (Taken::Fail(STATUS_BUFFER_OVERFLOW), Ghost(taken));
            }
            self.column = self.column.saturating_add(self.position - before);
            return (Taken::Next, Ghost(taken));
        }
        let ghost behind = FormatState { source: insert@.next, ..st };
        let values = match take_values(
            arguments,
            &mut self.cache,
            &insert,
            options.arguments_are_an_array,
            Ghost(behind),
            Ghost(slots),
        ) {
            Some(values) => values,
            None => {
                return (
                    Taken::Fail(STATUS_INVALID_PARAMETER),
                    Ghost(taken + slots_asked(behind, slots, insert@)),
                );
            },
        };
        let ghost after = insert_values(
            behind,
            slots,
            insert@,
            options.arguments_are_an_array,
        )->Some_0.1;
        self.source = insert.next;
        assert(self.state(output@, after.taken) =~= after);
        let text = render(
            insert.format.as_slice(),
            options.arguments_are_ansi,
            values.0,
            values.1,
            values.2,
        );
        let ghost shown: Rendering = |f: Seq<u16>, n: bool, a: u64, b: u64, c: u64| text@;
        let ghost step = insert_step(message@, options, shown, slots, st);
        if !self.append_insert(output, &text, Ghost(after.taken)) {
            return (Taken::Fail(STATUS_BUFFER_OVERFLOW), Ghost(after.taken));
        }
        self.column = self.column.saturating_add(self.position - before);
        (Taken::Next, Ghost(after.taken))
    }
}

/// Whether formatting that goes on from `st` ends as formatting from the start does, in every way
/// in which inserts are rendered.
#[verifier::opaque]
spec fn on_the_way<F: FnMut(&[u16], bool, u64, u64, u64) -> Vec<u16>>(
    render: F,
    message: Seq<u16>,
    options: FormatMessageOptions,
    slots: Slots,
    output: Seq<u16>,
    st: FormatState,
) -> bool {
    forall|m: Rendering| #[trigger]
        shows(render, message, options, m) ==> formatted(message, options, m, slots, output) == format_from(
            message,
            options,
            m,
            slots,
            st,
        )
}

/// Whether formatting from the start ends in a way.
#[verifier::opaque]
spec fn ends_as<F: FnMut(&[u16], bool, u64, u64, u64) -> Vec<u16>>(
    render: F,
    message: Seq<u16>,
    options: FormatMessageOptions,
    slots: Slots,
    output: Seq<u16>,
    end: Formatted,
) -> bool {
    forall|m: Rendering| #[trigger]
        shows(render, message, options, m) ==> formatted(message, options, m, slots, output) == end
}

/// What one step means for the way.
proof fn lemma_way<F: FnMut(&[u16], bool, u64, u64, u64) -> Vec<u16>>(
    render: F,
    message: Seq<u16>,
    options: FormatMessageOptions,
    slots: Slots,
    output: Seq<u16>,
    st: FormatState,
    taken: Taken,
    after: FormatState,
)
    requires
        on_the_way(render, message, options, slots, output, st),
        state_ok(message, st),
        st.source < message.len(),
        forall|m: Rendering| #[trigger]
            shows(render, message, options, m) ==> agrees(
                format_step(message, options, m, slots, st),
                taken,
                after,
            ),
    ensures
        match taken {
            Taken::Next => on_the_way(render, message, options, slots, output, after),
            Taken::Stop => ends_as(render, message, options, slots, output, format_end(after)),
            Taken::Fail(status) => ends_as(
                render,
                message,
                options,
                slots,
                output,
                (after.output, Err::<int, u32>(status), after.taken),
            ),
        },
{
    reveal(on_the_way);
    reveal(ends_as);
    assert forall|m: Rendering| #[trigger] shows(render, message, options, m) implies match taken {
        Taken::Next => formatted(message, options, m, slots, output) == format_from(
            message,
            options,
            m,
            slots,
            after,
        ),
        Taken::Stop => formatted(message, options, m, slots, output) == format_end(after),
        Taken::Fail(status) => formatted(message, options, m, slots, output) == (
            after.output,
            Err::<int, u32>(status),
            after.taken,
        ),
    } by {
        steps_go_forward(message, options, m, slots, st);
        assert(agrees(format_step(message, options, m, slots, st), taken, after));
    }
}

/// What a token that was taken leaves.
proof fn lemma_token(
    message: Seq<u16>,
    options: FormatMessageOptions,
    slots: Slots,
    st: FormatState,
    went: Taken,
    mid: FormatState,
)
    requires
        state_ok(message, st),
        st.source < message.len(),
        mid.output.len() == st.output.len(),
        exists|m: Rendering| agrees(#[trigger] token_step(message, options, m, slots, st), went, mid),
    ensures
        went is Next ==> state_ok(message, mid) && st.source < mid.source,
        went is Stop ==> state_ok(message, mid),
        went matches Taken::Fail(status) ==> status == STATUS_INVALID_PARAMETER || status
            == STATUS_BUFFER_OVERFLOW,
{
    let m = choose|m: Rendering| agrees(
        #[trigger] token_step(message, options, m, slots, st),
        went,
        mid,
    );
    lemma_token_forward(message, options, m, slots, st);
}

impl Formatter {
    /// Take one step.
    fn step<
        A: MessageArguments,
        F: FnMut(&[u16], bool, u64, u64, u64) -> Vec<u16>,
    >(
        &mut self,
        message: &[u16],
        options: FormatMessageOptions,
        arguments: &mut A,
        output: &mut [u16],
        render: &mut F,
        Ghost(taken): Ghost<int>,
        Ghost(slots): Ghost<Slots>,
    ) -> (r: (Taken, Ghost<int>))
        requires
            renders_all(*old(render)),
            state_ok(message@, old(self).state(old(output)@, taken)),
            old(self).source < message@.len(),
            forall|i: int| 0 <= i ==> #[trigger] old(arguments).slot(i) == slots(taken + i),
        ensures
            *final(render) == *old(render),
            final(output)@.len() == old(output)@.len(),
            forall|i: int| 0 <= i ==> #[trigger] final(arguments).slot(i) == slots(r.1@ + i),
            forall|m: Rendering| #[trigger]
                shows(*old(render), message@, options, m) ==> agrees(
                    format_step(message@, options, m, slots, old(self).state(old(output)@, taken)),
                    r.0,
                    final(self).state(final(output)@, r.1@),
                ),
            r.0 is Next ==> state_ok(message@, final(self).state(final(output)@, r.1@))
                && final(self).source > old(self).source,
            r.0 is Stop ==> final(self).position <= final(output)@.len(),
            r.0 matches Taken::Fail(status) ==> status == STATUS_INVALID_PARAMETER || status
                == STATUS_BUFFER_OVERFLOW,
    {
        assert(message.len() <= usize::MAX);
        let ghost st = self.state(output@, taken);
        let start: usize = self.source;
        let (went, now): (Taken, Ghost<int>) = if message[start] != 0x25 {
            (self.take_text(message, options, output, Ghost(taken)), Ghost(taken))
        } else if message.len() - start < 2 {
            (Taken::Fail(STATUS_INVALID_PARAMETER), Ghost(taken))
        } else {
            let control: u16 = message[start + 1];
            if 0x31 <= control && control <= 0x39 {
                self.take_insert(
                    message,
                    options,
                    arguments,
                    output,
                    render,
                    Ghost(taken),
                    Ghost(slots),
                )
            } else {
                (self.take_control(options, control, output, Ghost(taken)), Ghost(taken))
            }
        };
        let ghost mid = self.state(output@, now@);
        let ghost blank: Rendering = |f: Seq<u16>, n: bool, a: u64, b: u64, c: u64| Seq::empty();
        proof {
            let control = message@[start + 1];
            if message@[start as int] == 0x25 && start + 1 < message@.len() && 0x31 <= control
                <= 0x39 {
                let m = choose|m: Rendering|
                    agrees(
                        widened(
                            #[trigger] insert_step(message@, options, m, slots, st),
                            st.position,
                        ),
                        went,
                        mid,
                    );
                assert(agrees(token_step(message@, options, m, slots, st), went, mid));
            } else {
                assert(agrees(token_step(message@, options, blank, slots, st), went, mid));
            }
            lemma_token(message@, options, slots, st, went, mid);
        }
        match went {
            Taken::Next => {
                if options.maximum_width != 0 && options.maximum_width != u32::MAX && self.column
                    >= options.maximum_width as usize {
                    if !self.wrap_line(output, Ghost(now@)) {
                        return (Taken::Fail(STATUS_BUFFER_OVERFLOW), now);
                    }
                }
                (Taken::Next, now)
            },
            other => (other, now),
        }
    }
}

/// Whether a result is the number of bytes or the failure of formatting.
pub open spec fn same_result(r: Result<usize, u32>, end: Result<int, u32>) -> bool {
    match (r, end) {
        (Ok(n), Ok(m)) => n == m,
        (Err(a), Err(b)) => a == b,
        _ => false,
    }
}

/// Write the terminator.
fn finish(output: &mut [u16], position: usize, Ghost(st): Ghost<FormatState>) -> (r: Result<
    usize,
    u32,
>)
    requires
        st.output == old(output)@,
        st.position == position,
    ensures
        final(output)@ == format_end(st).0,
        same_result(r, format_end(st).1),
{
    assert(output.len() <= usize::MAX);
    if position >= output.len() {
        return Err(STATUS_BUFFER_OVERFLOW);
    }
    output[position] = 0;
    assert(output@ =~= with_units(st.output, st.position, seq![0u16]));
    match (position + 1).checked_mul(2) {
        Some(bytes) => Ok(bytes),
        None => Err(STATUS_BUFFER_OVERFLOW),
    }
}

fn format_with<A: MessageArguments, F: FnMut(&[u16], bool, u64, u64, u64) -> Vec<u16>>(
    message: &[u16],
    options: FormatMessageOptions,
    arguments: &mut A,
    output: &mut [u16],
    render: &mut F,
    Ghost(slots): Ghost<Slots>,
) -> (r: Result<usize, u32>)
    requires
        renders_all(*old(render)),
        forall|i: int| 0 <= i ==> #[trigger] old(arguments).slot(i) == slots(i),
    ensures
        final(output)@.len() == old(output)@.len(),
        r matches Ok(bytes) ==> 2 <= bytes <= 2 * final(output)@.len(),
        r matches Err(status) ==> status == STATUS_INVALID_PARAMETER || status
            == STATUS_BUFFER_OVERFLOW,
        forall|m: Rendering| #[trigger]
            shows(*old(render), message@, options, m) ==> final(output)@ == formatted(
                message@,
                options,
                m,
                slots,
                old(output)@,
            ).0 && same_result(r, formatted(message@, options, m, slots, old(output)@).1) && (
            forall|i: int|
                0 <= i ==> #[trigger] final(arguments).slot(i) == slots(
                    formatted(message@, options, m, slots, old(output)@).2 + i,
                )),
{
    let ghost orig = output@;
    let mut formatter = Formatter {
        source: 0,
        position: 0,
        column: 0,
        last_space: None,
        cache: Vec::new(),
    };
    let mut taken: Ghost<int> = Ghost(0);
    assert(formatter.state(output@, taken@) =~= format_start(orig));
    proof {
        reveal(on_the_way);
    }
    while formatter.source < message.len()
        invariant
            *render == *old(render),
            renders_all(*render),
            orig == old(output)@,
            output@.len() == orig.len(),
            state_ok(message@, formatter.state(output@, taken@)),
            forall|i: int| 0 <= i ==> #[trigger] arguments.slot(i) == slots(taken@ + i),
            on_the_way(
                *render,
                message@,
                options,
                slots,
                orig,
                formatter.state(output@, taken@),
            ),
        decreases message@.len() - formatter.source,
    {
        let ghost st = formatter.state(output@, taken@);
        let (went, now) = formatter.step(
            message,
            options,
            arguments,
            output,
            render,
            Ghost(taken@),
            Ghost(slots),
        );
        let ghost after = formatter.state(output@, now@);
        proof {
            lemma_way(*render, message@, options, slots, orig, st, went, after);
            reveal(ends_as);
        }
        match went {
            Taken::Next => {
                taken = now;
            },
            Taken::Stop => {
                return finish(output, formatter.position, Ghost(after));
            },
            Taken::Fail(status) => {
                return Err(status);
            },
        }
    }
    proof {
        reveal(on_the_way);
    }
    finish(output, formatter.position, Ghost(formatter.state(output@, taken@)))
}

/// The slots of arguments that may be absent.
pub open spec fn slots_of<A: MessageArguments>(arguments: Option<&mut A>) -> Slots {
    match arguments {
        Some(arguments) => |i: int| arguments.slot(i),
        None => |i: int| None,
    }
}

/// Format a message into `output`, and return the number of bytes that were written with the
/// terminator. `render` gives the text of an insert from its format, whether text arguments are
/// narrow, its value, and the values that asterisks in the format take. Where it does that the same
/// way each time, or is not asked, output and result are exactly those of the message, and just the slots that its
/// inserts ask for are taken.
pub fn format_message<A: MessageArguments, F: FnMut(&[u16], bool, u64, u64, u64) -> Vec<u16>>(
    message: &[u16],
    options: FormatMessageOptions,
    arguments: Option<&mut A>,
    output: &mut [u16],
    render: F,
) -> (r: Result<usize, u32>)
    requires
        renders_all(render),
    ensures
        final(output)@.len() == old(output)@.len(),
        r matches Ok(bytes) ==> 2 <= bytes <= 2 * final(output)@.len(),
        r matches Err(status) ==> status == STATUS_INVALID_PARAMETER || status
            == STATUS_BUFFER_OVERFLOW,
        forall|m: Rendering| #[trigger]
            shows(render, message@, options, m) ==> final(output)@ == formatted(
                message@,
                options,
                m,
                slots_of(arguments),
                old(output)@,
            ).0 && same_result(
                r,
                formatted(message@, options, m, slots_of(arguments), old(output)@).1,
            ) && (arguments matches Some(source) ==> forall|i: int|
                0 <= i ==> #[trigger] final(source).slot(i) == slots_of(arguments)(
                    formatted(message@, options, m, slots_of(arguments), old(output)@).2 + i,
                )),
{
    let mut render2: F = render;
    let ghost slots = slots_of(arguments);
    match arguments {
        Some(arguments) => format_with(
            message,
            options,
            arguments,
            output,
            &mut render2,
            Ghost(slots),
        ),
        None => {
            let mut none = NoArguments;
            format_with(message, options, &mut none, output, &mut render2, Ghost(slots))
        },
    }
}

} // verus!
