//! What messages are written as, and what formatting makes of them.

use vstd::prelude::*;

use super::{
    blanks_end, blanks_start, digits_end, format_from, format_start, format_step, formatted,
    has_slots, insert_at, insert_values, inserted, is_blank, slots_from, slots_wanted, stars_in,
    tab_stop, text_step, token_step, with_units, wrap, wrapped, FormatMessageOptions, FormatState,
    InsertModel, Rendering, Slots, Step,
};
use crate::activation_manifest::xml::first_unit;
use crate::decimal::{digits_value, is_digit};

verus! {

/// A piece of a message.
pub enum Piece {
    /// A unit that stands for itself.
    Unit(u16),
    /// A line break of two different units, or of one.
    Pair(bool),
    Lone(bool),
    /// A percent sign and `r`, `n`, `t` or `b`.
    Return,
    Line,
    Tab,
    Blank,
    /// A percent sign and another unit.
    Escape(u16),
    /// A percent sign and a number, and a format between exclamation marks.
    Insert { digits: Seq<u16>, format: Option<Seq<u16>> },
}

/// A carriage return or a line feed.
pub open spec fn break_unit(feed: bool) -> u16 {
    if feed {
        0x0a
    } else {
        0x0d
    }
}

/// The units of a piece.
pub open spec fn piece_text(p: Piece) -> Seq<u16> {
    match p {
        Piece::Unit(u) => seq![u],
        Piece::Pair(feed) => seq![break_unit(feed), break_unit(!feed)],
        Piece::Lone(feed) => seq![break_unit(feed)],
        Piece::Return => seq![0x25u16, 0x72],
        Piece::Line => seq![0x25u16, 0x6e],
        Piece::Tab => seq![0x25u16, 0x74],
        Piece::Blank => seq![0x25u16, 0x62],
        Piece::Escape(u) => seq![0x25u16, u],
        Piece::Insert { digits, format } => seq![0x25u16] + digits + (match format {
            Some(f) => seq![0x21u16] + f + seq![0x21u16],
            None => Seq::empty(),
        }),
    }
}

/// The units of a message, and what is behind it.
pub open spec fn written(pieces: Seq<Piece>, tail: Seq<u16>) -> Seq<u16>
    decreases pieces.len(),
{
    if pieces.len() == 0 {
        tail
    } else {
        piece_text(pieces[0]) + written(pieces.skip(1), tail)
    }
}

/// The number that one to three digits give.
pub open spec fn number_of(digits: Seq<u16>) -> int {
    if digits.len() == 1 {
        digits[0] - 0x30
    } else if digits.len() == 2 {
        10 * (digits[0] - 0x30) + (digits[1] - 0x30)
    } else {
        100 * (digits[0] - 0x30) + 10 * (digits[1] - 0x30) + (digits[2] - 0x30)
    }
}

/// How many asterisks a format has.
pub open spec fn star_count(format: Option<Seq<u16>>) -> int {
    match format {
        Some(f) => f.filter(|u: u16| u == 0x2a).len() as int,
        None => 0,
    }
}

/// Whether a unit is at the start of a text.
pub open spec fn starts(text: Seq<u16>, u: u16) -> bool {
    text.len() > 0 && text[0] == u
}

/// Whether a piece can stand in front of a text.
pub open spec fn piece_ok(p: Piece, rest: Seq<u16>) -> bool {
    match p {
        Piece::Unit(u) => u != 0x25 && u != 0x0d && u != 0x0a,
        Piece::Lone(feed) => !starts(rest, break_unit(!feed)),
        Piece::Escape(u) => !(0x30 <= u <= 0x39) && u != 0x72 && u != 0x6e && u != 0x74 && u != 0x62,
        Piece::Insert { digits, format } => {
            &&& 1 <= digits.len() <= 3
            &&& 0x31 <= digits[0] <= 0x39
            &&& forall|i: int| 0 <= i < digits.len() ==> 0x30 <= #[trigger] digits[i] <= 0x39
            &&& match format {
                Some(f) => f.len() <= 30 && !f.contains(0x21) && star_count(format) <= 2,
                None => !starts(rest, 0x21) && !(rest.len() > 0 && 0x30 <= rest[0] <= 0x39),
            }
        },
        _ => true,
    }
}

/// Whether pieces can stand one behind the other.
pub open spec fn pieces_ok(pieces: Seq<Piece>, tail: Seq<u16>) -> bool
    decreases pieces.len(),
{
    pieces.len() > 0 ==> {
        &&& piece_ok(pieces[0], written(pieces.skip(1), tail))
        &&& pieces_ok(pieces.skip(1), tail)
    }
}

/// How many slots are in use behind a piece: those up to the insert's number, and one for each
/// asterisk.
pub open spec fn used_behind(p: Piece, options: FormatMessageOptions, used: int) -> int {
    match p {
        Piece::Insert { digits, format } => if options.ignore_inserts {
            used
        } else {
            (if number_of(digits) > used {
                number_of(digits)
            } else {
                used
            }) + star_count(format)
        },
        _ => used,
    }
}

/// What a piece is formatted as when `used` slots are in use.
pub open spec fn shown(
    p: Piece,
    options: FormatMessageOptions,
    m: Rendering,
    slots: Slots,
    used: int,
) -> Seq<u16> {
    match p {
        Piece::Unit(u) => seq![u],
        Piece::Pair(_) | Piece::Lone(_) => if options.maximum_width == 0 {
            seq![0x0du16, 0x0a]
        } else {
            seq![0x20u16]
        },
        Piece::Return => seq![0x0du16],
        Piece::Line => seq![0x0du16, 0x0a],
        Piece::Tab => seq![0x09u16],
        Piece::Blank => seq![0x20u16],
        Piece::Escape(u) => if options.ignore_inserts {
            seq![0x25u16, u]
        } else {
            seq![u]
        },
        Piece::Insert { digits, format } => if options.ignore_inserts {
            piece_text(p)
        } else {
            let behind = used_behind(p, options, used);
            let stars = star_count(format);
            m(
                seq![0x25u16] + (match format {
                    Some(f) => f,
                    None => seq![0x73u16],
                }),
                options.arguments_are_ansi,
                slots(number_of(digits) - 1)->Some_0,
                if stars >= 1 {
                    slots(behind - stars)->Some_0
                } else {
                    0
                },
                if stars >= 2 {
                    slots(behind - 1)->Some_0
                } else {
                    0
                },
            )
        },
    }
}

/// What pieces are formatted as.
pub open spec fn all_shown(
    pieces: Seq<Piece>,
    options: FormatMessageOptions,
    m: Rendering,
    slots: Slots,
    used: int,
) -> Seq<u16>
    decreases pieces.len(),
{
    if pieces.len() == 0 {
        Seq::empty()
    } else {
        shown(pieces[0], options, m, slots, used) + all_shown(
            pieces.skip(1),
            options,
            m,
            slots,
            used_behind(pieces[0], options, used),
        )
    }
}

/// How many slots pieces use.
pub open spec fn all_used(pieces: Seq<Piece>, options: FormatMessageOptions, used: int) -> int
    decreases pieces.len(),
{
    if pieces.len() == 0 {
        used
    } else {
        all_used(pieces.skip(1), options, used_behind(pieces[0], options, used))
    }
}

/// Whether every insert has its slots: there are as many as it uses, no more than two hundred, and
/// formats with asterisks stand only where arguments are an array.
pub open spec fn slots_ok(
    pieces: Seq<Piece>,
    options: FormatMessageOptions,
    slots: Slots,
    used: int,
) -> bool
    decreases pieces.len(),
{
    pieces.len() > 0 ==> {
        &&& match pieces[0] {
            Piece::Insert { digits, format } => !options.ignore_inserts ==> {
                &&& number_of(digits) + star_count(format) <= 200
                &&& star_count(format) == 0 || options.arguments_are_an_array
                &&& forall|i: int|
                    0 <= i < used_behind(pieces[0], options, used) ==> (#[trigger] slots(i)) is Some
            },
            _ => true,
        }
        &&& slots_ok(pieces.skip(1), options, slots, used_behind(pieces[0], options, used))
    }
}

// ---------------------------------------------------------------------------------------------
// Inserts
// ---------------------------------------------------------------------------------------------

proof fn lemma_stars(f: Seq<u16>)
    ensures
        stars_in(f) == star_count(Some(f)),
    decreases f.len(),
{
    reveal(Seq::filter);
    if f.len() > 0 {
        lemma_stars(f.drop_last());
    }
}

proof fn lemma_closes(s: Seq<u16>, at: int, end: int)
    requires
        0 <= at <= end < s.len(),
        forall|i: int| at <= i < end ==> #[trigger] s[i] != 0x21,
        s[end] == 0x21,
    ensures
        first_unit(s, at, 0x21) == Some(end),
    decreases end - at,
{
    if at < end {
        lemma_closes(s, at + 1, end);
    }
}

proof fn lemma_digits_end(message: Seq<u16>, at: int, end: int)
    requires
        0 <= at <= end <= message.len(),
        forall|i: int| at <= i < end ==> is_digit(#[trigger] message[i]),
        end < message.len() ==> !is_digit(message[end]),
    ensures
        digits_end(message, at) == end,
    decreases end - at,
{
    if at < end {
        lemma_digits_end(message, at + 1, end);
    }
}

proof fn lemma_number(digits: Seq<u16>)
    requires
        1 <= digits.len() <= 3,
    ensures
        digits_value(digits) == number_of(digits),
{
    reveal_with_fuel(digits_value, 4);
    let a = digits.drop_last();
    let b = a.drop_last();
    assert(digits.len() >= 2 ==> a.last() == digits[digits.len() - 2]);
    assert(digits.len() >= 3 ==> b.last() == digits[digits.len() - 3]);
}

/// An insert that is written in a message is read back: its number, its format behind a percent sign
/// (`s` where it has none), its asterisks, and where it ends.
pub proof fn inserts_read_back(
    message: Seq<u16>,
    at: int,
    digits: Seq<u16>,
    format: Option<Seq<u16>>,
    rest: Seq<u16>,
)
    requires
        0 <= at < message.len(),
        piece_ok((Piece::Insert { digits, format }), rest),
        message.skip(at) == piece_text((Piece::Insert { digits, format })) + rest,
    ensures
        insert_at(message, at + 1) == Some(
            (InsertModel {
                number: number_of(digits),
                format: seq![0x25u16] + (match format {
                    Some(f) => f,
                    None => seq![0x73u16],
                }),
                stars: star_count(format),
                next: at + piece_text((Piece::Insert { digits, format })).len(),
            }),
        ),
{
    let piece = Piece::Insert { digits, format };
    let text = piece_text(piece);
    let all = text + rest;
    assert forall|i: int| 0 <= i < all.len() implies message[at + i] == #[trigger] all[i] by {
        assert(message.skip(at)[i] == message[at + i]);
    }
    let end = at + 1 + digits.len();
    assert(message.len() == at + all.len());
    assert forall|i: int| at + 1 <= i < end implies message[i] == digits[i - at - 1] by {
        assert(message[at + (i - at)] == all[i - at]);
    }
    assert(message.subrange(at + 1, end) =~= digits);
    assert(end < message.len() ==> !is_digit(message[end])) by {
        if end < message.len() {
            assert(message[at + (end - at)] == all[end - at]);
            if format is None {
                assert(all[end - at] == rest[0]);
            }
        }
    }
    lemma_digits_end(message, at + 1, end);
    lemma_number(digits);
    match format {
        Some(f) => {
            lemma_stars(f);
            let close = end + 1 + f.len();
            assert(message[at + (end - at)] == all[end - at]);
            assert(message[at + (close - at)] == all[close - at]);
            assert forall|i: int| end + 1 <= i < close implies #[trigger] message[i] != 0x21
                && message[i] == f[i - end - 1] by {
                assert(message[at + (i - at)] == all[i - at]);
                assert(f.contains(f[i - end - 1]));
            }
            lemma_closes(message, end + 1, close);
            assert(message.subrange(end + 1, close) =~= f);
        },
        None => {
            assert(seq![0x25u16] + seq![0x73u16] =~= seq![0x25u16, 0x73u16]);
            if end < message.len() {
                assert(message[at + (end - at)] == all[end - at]);
                assert(all[end - at] == rest[0]);
            }
        },
    }
}

/// Whether the slots that are known are the first ones.
pub open spec fn slots_known(st: FormatState, slots: Slots, used: int) -> bool {
    st.taken == used && st.cache == slots_from(slots, 0, used) && 0 <= used
}

proof fn lemma_values(
    st: FormatState,
    slots: Slots,
    insert: InsertModel,
    array: bool,
    used: int,
)
    requires
        slots_known(st, slots, used),
        1 <= insert.number,
        0 <= insert.stars <= 2,
        insert.stars == 0 || array,
        insert.number + insert.stars <= 200,
        forall|i: int|
            0 <= i < (if insert.number > used {
                insert.number
            } else {
                used
            }) + insert.stars ==> (#[trigger] slots(i)) is Some,
    ensures
        ({
            let top = if insert.number > used {
                insert.number
            } else {
                used
            };
            &&& insert_values(st, slots, insert, array) matches Some(((a, b, c), after))
            &&& a == slots(insert.number - 1)->Some_0
            &&& b == (if insert.stars >= 1 {
                slots(top)->Some_0
            } else {
                0
            })
            &&& c == (if insert.stars >= 2 {
                slots(top + 1)->Some_0
            } else {
                0
            })
            &&& slots_known(after, slots, top + insert.stars)
            &&& after == FormatState { cache: after.cache, taken: after.taken, ..st }
        }),
{
    let wanted = slots_wanted(st.cache, insert.number);
    let cache = st.cache + slots_from(slots, st.taken, wanted);
    let top = used + wanted;
    assert(cache =~= slots_from(slots, 0, top));
    assert(has_slots(slots, st.taken, wanted + insert.stars)) by {
        assert forall|i: int| 0 <= i < wanted + insert.stars implies (#[trigger] slots(
            st.taken + i,
        )) is Some by {}
    }
    if insert.stars == 1 {
        assert(cache.push(slots(top)->Some_0) =~= slots_from(slots, 0, top + 1));
    }
    if insert.stars == 2 {
        assert(cache.push(slots(top)->Some_0).push(slots(top + 1)->Some_0) =~= slots_from(
            slots,
            0,
            top + 2,
        ));
    }
}

/// Where arguments come one by one, the values of asterisks are taken behind those up to the number of
/// the insert. The first of them is not kept for later inserts, the second is.
pub proof fn asterisks_take_further_slots(
    st: FormatState,
    slots: Slots,
    insert: InsertModel,
    used: int,
)
    requires
        slots_known(st, slots, used),
        1 <= insert.number,
        1 <= insert.stars <= 2,
        insert.number + insert.stars <= 200,
        forall|i: int|
            0 <= i < (if insert.number > used {
                insert.number
            } else {
                used
            }) + insert.stars ==> (#[trigger] slots(i)) is Some,
    ensures
        ({
            let top = if insert.number > used {
                insert.number
            } else {
                used
            };
            &&& insert_values(st, slots, insert, false) matches Some(((a, b, c), after))
            &&& a == slots(insert.number - 1)->Some_0
            &&& b == slots(top)->Some_0
            &&& c == (if insert.stars == 2 {
                slots(top + 1)->Some_0
            } else {
                0
            })
            &&& after.taken == top + insert.stars
            &&& after.cache == slots_from(slots, 0, top) + (if insert.stars == 2 {
                seq![slots(top + 1)->Some_0]
            } else {
                Seq::empty()
            })
        }),
{
    let wanted = slots_wanted(st.cache, insert.number);
    let cache = st.cache + slots_from(slots, st.taken, wanted);
    let top = used + wanted;
    assert(cache =~= slots_from(slots, 0, top));
    assert(has_slots(slots, st.taken, wanted + insert.stars)) by {
        assert forall|i: int| 0 <= i < wanted + insert.stars implies (#[trigger] slots(
            st.taken + i,
        )) is Some by {}
    }
    if insert.stars == 2 {
        let second = slots(top + 1)->Some_0;
        assert(cache.push(second) =~= cache + seq![second]);
    } else {
        assert(cache + Seq::<u64>::empty() =~= cache);
    }
}

/// An insert whose slots are missing, or that would use more than two hundred, is refused.
pub proof fn inserts_without_slots_are_refused(
    st: FormatState,
    slots: Slots,
    insert: InsertModel,
    array: bool,
    used: int,
    missing: int,
)
    requires
        slots_known(st, slots, used),
        1 <= insert.number,
        0 <= insert.stars <= 2,
        insert.number + insert.stars > 200 || (used <= missing < (if insert.number > used {
            insert.number
        } else {
            used
        }) + insert.stars && slots(missing) is None),
    ensures
        insert_values(st, slots, insert, array) is None,
{
    if insert.number + insert.stars <= 200 {
        assert(slots(st.taken + (missing - used)) is None);
    }
}

// ---------------------------------------------------------------------------------------------
// Whole messages
// ---------------------------------------------------------------------------------------------

/// Whether a state is one piece further than another: the piece is read, what it is shown as is
/// written, and its slots are known. What is behind the place for the next unit may be a zero.
spec fn stepped(
    before: FormatState,
    after: FormatState,
    p: Piece,
    text: Seq<u16>,
    slots: Slots,
    used: int,
) -> bool {
    &&& after.source == before.source + piece_text(p).len()
    &&& after.position == before.position + text.len()
    &&& after.output.len() == before.output.len()
    &&& forall|i: int|
        0 <= i < before.output.len() && i != after.position ==> #[trigger] after.output[i]
            == with_units(before.output, before.position, text)[i]
    &&& slots_known(after, slots, used)
}

proof fn lemma_piece(
    message: Seq<u16>,
    options: FormatMessageOptions,
    m: Rendering,
    slots: Slots,
    st: FormatState,
    p: Piece,
    rest: Seq<u16>,
    used: int,
)
    requires
        0 <= st.source < message.len(),
        0 <= st.position,
        message.skip(st.source) == piece_text(p) + rest,
        piece_ok(p, rest),
        options.maximum_width == 0 || options.maximum_width == u32::MAX,
        slots_known(st, slots, used),
        slots_ok(seq![p], options, slots, used),
        st.position + shown(p, options, m, slots, used).len() < st.output.len(),
    ensures
        format_step(message, options, m, slots, st) matches Step::Next(after) && stepped(
            st,
            after,
            p,
            shown(p, options, m, slots, used),
            slots,
            used_behind(p, options, used),
        ),
{
    let all = piece_text(p) + rest;
    let at = st.source;
    assert forall|i: int| 0 <= i < all.len() implies message[at + i] == #[trigger] all[i] by {
        assert(message.skip(at)[i] == message[at + i]);
    }
    assert(message.len() == at + all.len());
    assert(message[at + 0] == all[0]);
    if piece_text(p).len() >= 2 {
        assert(message[at + 1] == all[1]);
    } else if rest.len() > 0 {
        assert(message[at + 1] == all[1] && all[1] == rest[0]);
    }
    if let Piece::Insert { digits, format } = p {
        inserts_read_back(message, at, digits, format, rest);
        let insert = insert_at(message, at + 1)->Some_0;
        let behind = FormatState { source: insert.next, ..st };
        assert(all[1] == digits[0]);
        reveal_with_fuel(slots_ok, 2);
        assert(seq![p][0] == p);
        if options.ignore_inserts {
            assert(message.subrange(at, insert.next) =~= piece_text(p)) by {
                assert forall|i: int| 0 <= i < piece_text(p).len() implies message.subrange(
                    at,
                    insert.next,
                )[i] == piece_text(p)[i] by {
                    assert(message[at + i] == all[i]);
                }
            }
            assert(piece_text(p).take(piece_text(p).len() as int) =~= piece_text(p));
        } else {
            if format is Some {
                lemma_stars(format->Some_0);
            }
            lemma_values(behind, slots, insert, options.arguments_are_an_array, used);
            let text = shown(p, options, m, slots, used);
            assert(text.take(text.len() as int) =~= text);
        }
    }
}

/// Whether a text ends a message: it is empty, or starts with a percent sign and a zero.
pub open spec fn ends_message(tail: Seq<u16>) -> bool {
    tail.len() == 0 || (tail.len() >= 2 && tail[0] == 0x25 && tail[1] == 0x30)
}

proof fn lemma_end(
    message: Seq<u16>,
    options: FormatMessageOptions,
    m: Rendering,
    slots: Slots,
    st: FormatState,
)
    requires
        0 <= st.source <= message.len(),
        0 <= st.position < st.output.len(),
        2 * st.output.len() <= usize::MAX,
        ends_message(message.skip(st.source)),
    ensures
        format_from(message, options, m, slots, st) == (
            with_units(st.output, st.position, seq![0u16]),
            Ok::<int, u32>(2 * (st.position + 1)),
            st.taken,
        ),
{
    let tail = message.skip(st.source);
    if tail.len() > 0 {
        assert(message[st.source] == tail[0]);
        assert(message[st.source + 1] == tail[1]);
    }
}

proof fn lemma_first_slots_ok(
    pieces: Seq<Piece>,
    options: FormatMessageOptions,
    slots: Slots,
    used: int,
)
    requires
        pieces.len() > 0,
        slots_ok(pieces, options, slots, used),
    ensures
        slots_ok(seq![pieces[0]], options, slots, used),
{
    reveal_with_fuel(slots_ok, 2);
    assert(seq![pieces[0]].skip(1) =~= Seq::<Piece>::empty());
}

proof fn lemma_piece_not_empty(p: Piece)
    ensures
        piece_text(p).len() > 0,
{
}

proof fn lemma_rest(message: Seq<u16>, at: int, text: Seq<u16>, rest: Seq<u16>)
    requires
        0 <= at <= message.len(),
        message.skip(at) == text + rest,
    ensures
        message.len() == at + text.len() + rest.len(),
        message.skip(at + text.len()) == rest,
{
    assert(message.skip(at).skip(text.len() as int) =~= rest);
    assert(message.skip(at).skip(text.len() as int) =~= message.skip(at + text.len()));
}

proof fn lemma_written_twice(
    before: Seq<u16>,
    position: int,
    head: Seq<u16>,
    after: Seq<u16>,
    more: Seq<u16>,
)
    requires
        0 <= position,
        position + head.len() + more.len() < before.len(),
        after.len() == before.len(),
        forall|i: int|
            0 <= i < before.len() && i != position + head.len() ==> #[trigger] after[i]
                == with_units(before, position, head)[i],
    ensures
        with_units(after, position + head.len(), more + seq![0u16]) == with_units(
            before,
            position,
            head + more + seq![0u16],
        ),
{
    let left = with_units(after, position + head.len(), more + seq![0u16]);
    let right = with_units(before, position, head + more + seq![0u16]);
    assert forall|i: int| 0 <= i < before.len() implies left[i] == right[i] by {
        let _ = after[i];
    }
    assert(left =~= right);
}

proof fn lemma_formatted(
    pieces: Seq<Piece>,
    tail: Seq<u16>,
    message: Seq<u16>,
    options: FormatMessageOptions,
    m: Rendering,
    slots: Slots,
    st: FormatState,
    used: int,
)
    requires
        0 <= st.source <= message.len(),
        0 <= st.position,
        message.skip(st.source) == written(pieces, tail),
        pieces_ok(pieces, tail),
        ends_message(tail),
        options.maximum_width == 0 || options.maximum_width == u32::MAX,
        slots_known(st, slots, used),
        slots_ok(pieces, options, slots, used),
        st.position + all_shown(pieces, options, m, slots, used).len() < st.output.len(),
        2 * st.output.len() <= usize::MAX,
    ensures
        format_from(message, options, m, slots, st) == (
            with_units(
                st.output,
                st.position,
                all_shown(pieces, options, m, slots, used) + seq![0u16],
            ),
            Ok::<int, u32>(
                2 * (st.position + all_shown(pieces, options, m, slots, used).len() + 1),
            ),
            all_used(pieces, options, used),
        ),
    decreases pieces.len(),
{
    let text = all_shown(pieces, options, m, slots, used);
    if pieces.len() == 0 {
        lemma_end(message, options, m, slots, st);
        assert(text + seq![0u16] =~= seq![0u16]);
    } else {
        let p = pieces[0];
        let rest = written(pieces.skip(1), tail);
        let head = shown(p, options, m, slots, used);
        let behind = used_behind(p, options, used);
        let more = all_shown(pieces.skip(1), options, m, slots, behind);
        lemma_piece_not_empty(p);
        lemma_first_slots_ok(pieces, options, slots, used);
        lemma_rest(message, st.source, piece_text(p), rest);
        assert(text == head + more);
        lemma_piece(message, options, m, slots, st, p, rest, used);
        let after = format_step(message, options, m, slots, st)->Next_0;
        lemma_formatted(pieces.skip(1), tail, message, options, m, slots, after, behind);
        lemma_written_twice(st.output, st.position, head, after.output, more);
    }
}

/// A message is formatted as its pieces are shown, with a zero behind them; the bytes up to there are
/// counted, and what is behind them is as it was. A percent sign and a zero end a message.
pub proof fn messages_are_formatted(
    pieces: Seq<Piece>,
    tail: Seq<u16>,
    options: FormatMessageOptions,
    m: Rendering,
    slots: Slots,
    output: Seq<u16>,
)
    requires
        pieces_ok(pieces, tail),
        ends_message(tail),
        options.maximum_width == 0 || options.maximum_width == u32::MAX,
        slots_ok(pieces, options, slots, 0),
        all_shown(pieces, options, m, slots, 0).len() < output.len(),
        2 * output.len() <= usize::MAX,
    ensures
        formatted(written(pieces, tail), options, m, slots, output) == ({
            let text = all_shown(pieces, options, m, slots, 0) + seq![0u16];
            (
                text + output.skip(text.len() as int),
                Ok::<int, u32>(2 * text.len() as int),
                all_used(pieces, options, 0),
            )
        }),
{
    let st = format_start(output);
    let message = written(pieces, tail);
    assert(message.skip(0) =~= message);
    assert(st.cache =~= slots_from(slots, 0, 0));
    lemma_formatted(pieces, tail, message, options, m, slots, st, 0);
    let text = all_shown(pieces, options, m, slots, 0) + seq![0u16];
    assert(with_units(output, 0, text) =~= text + output.skip(text.len() as int));
}

/// A text without percent signs and line breaks that does not fit in front of a terminator is
/// refused.
pub proof fn long_texts_are_refused(
    text: Seq<u16>,
    options: FormatMessageOptions,
    m: Rendering,
    slots: Slots,
    st: FormatState,
)
    requires
        forall|i: int|
            0 <= i < text.len() ==> #[trigger] text[i] != 0x25 && text[i] != 0x0d && text[i] != 0x0a,
        0 <= st.source <= text.len(),
        0 <= st.position,
        options.maximum_width == 0 || options.maximum_width == u32::MAX,
        st.position + (text.len() - st.source) >= st.output.len(),
    ensures
        format_from(text, options, m, slots, st).1 == Err::<int, u32>(0x8000_0005),
    decreases text.len() - st.source,
{
    if st.source < text.len() {
        assert(text[st.source] != 0x25);
        if let Step::Next(after) = format_step(text, options, m, slots, st) {
            long_texts_are_refused(text, options, m, slots, after);
        }
    }
}

// ---------------------------------------------------------------------------------------------
// Lines
// ---------------------------------------------------------------------------------------------

proof fn lemma_blanks_end(output: Seq<u16>, at: int, end: int, stop: int)
    requires
        0 <= at <= end <= stop <= output.len(),
        forall|i: int| at <= i < end ==> is_blank(#[trigger] output[i]),
        end < stop ==> !is_blank(output[end]),
    ensures
        blanks_end(output, at, stop) == end,
    decreases end - at,
{
    if at < end {
        lemma_blanks_end(output, at + 1, end, stop);
    }
}

proof fn lemma_blanks_start(output: Seq<u16>, start: int, at: int)
    requires
        0 <= start <= at <= output.len(),
        forall|i: int| start <= i < at ==> is_blank(#[trigger] output[i]),
        start > 0 ==> !is_blank(output[start - 1]),
    ensures
        blanks_start(output, at) == start,
    decreases at - start,
{
    if start < at {
        lemma_blanks_start(output, start, at - 1);
    }
}

/// Whether all units are spaces or tabulators.
pub open spec fn all_blank(units: Seq<u16>) -> bool {
    forall|i: int| 0 <= i < units.len() ==> #[trigger] units[i] == 0x20 || units[i] == 0x09
}

/// A line is broken at its last blanks: they make place for a line break, and what was behind them
/// is the new line.
pub proof fn lines_break_at_blanks(st: FormatState, line: Seq<u16>, blanks: Seq<u16>, word: Seq<u16>)
    requires
        0 <= st.position <= st.output.len(),
        st.output.take(st.position) == line + blanks + word,
        all_blank(blanks),
        line.len() > 0 ==> line.last() != 0x20 && line.last() != 0x09,
        word.len() > 0 ==> word[0] != 0x20 && word[0] != 0x09,
        st.last_space matches Some(space) && line.len() <= space < line.len() + blanks.len(),
        line.len() + 2 + word.len() < st.output.len(),
    ensures
        wrap(st) matches Step::Next(after) && {
            &&& after.output.len() == st.output.len()
            &&& after.position == line.len() + 2 + word.len()
            &&& after.output.take(after.position) == line + seq![0x0du16, 0x0a] + word
            &&& after.column == word.len()
            &&& after.last_space is None
            &&& after.source == st.source
        },
{
    let space = st.last_space->Some_0;
    let all = line + blanks + word;
    assert forall|i: int| 0 <= i < all.len() implies st.output[i] == #[trigger] all[i] by {
        assert(st.output.take(st.position)[i] == st.output[i]);
    }
    let (a, b) = (line.len() as int, (line.len() + blanks.len()) as int);
    assert forall|i: int| a <= i < b implies is_blank(#[trigger] st.output[i]) by {
        assert(st.output[i] == all[i] && all[i] == blanks[i - a]);
    }
    if b < st.position {
        assert(st.output[b] == all[b] && all[b] == word[0]);
    }
    if a > 0 {
        assert(st.output[a - 1] == all[a - 1] && all[a - 1] == line.last());
    }
    lemma_blanks_end(st.output, space, b, st.position);
    lemma_blanks_start(st.output, a, space);
    assert(st.output.subrange(b, st.position) =~= word) by {
        assert forall|i: int| 0 <= i < word.len() implies st.output.subrange(b, st.position)[i]
            == word[i] by {
            assert(st.output[b + i] == all[b + i]);
        }
    }
    let after = wrap(st)->Next_0;
    assert(after.output.take(after.position) =~= line + seq![0x0du16, 0x0a] + word) by {
        assert forall|i: int| 0 <= i < a implies after.output[i] == line[i] by {
            assert(st.output[i] == all[i]);
        }
    }
}

/// A line without a blank is broken at its end.
pub proof fn lines_without_blanks_break_at_their_end(st: FormatState, line: Seq<u16>)
    requires
        0 <= st.position,
        st.position + 2 < st.output.len(),
        st.output.take(st.position) == line,
        st.last_space is None,
    ensures
        wrap(st) matches Step::Next(after) && {
            &&& after.position == line.len() + 2
            &&& after.output.take(after.position) == line + seq![0x0du16, 0x0a]
            &&& after.column == 0
            &&& after.source == st.source
        },
{
    let after = wrap(st)->Next_0;
    assert(after.output.take(after.position) =~= line + seq![0x0du16, 0x0a]) by {
        assert forall|i: int| 0 <= i < line.len() implies after.output[i] == line[i] by {
            assert(st.output.take(st.position)[i] == line[i]);
        }
    }
}

/// An insert that does not fit in front of a terminator is cut off there, and formatting fails.
pub proof fn long_inserts_are_cut_off(st: FormatState, text: Seq<u16>, room: int)
    requires
        0 <= st.position,
        0 <= room,
        st.output.len() == st.position + room + 1,
        text.len() > room,
    ensures
        inserted(st, text) matches Step::Fail(after, status) && {
            &&& status == 0x8000_0005
            &&& after.output == st.output.take(st.position) + text.take(room) + seq![0u16]
        },
{
    let after = inserted(st, text)->Fail_0;
    assert(after.output =~= st.output.take(st.position) + text.take(room) + seq![0u16]);
}

/// Where the line is, and where it can be broken, behind a piece: a line break starts a new line, a
/// blank and a tabulator can be broken at, and everything makes the line wider by what is shown, a
/// tabulator from the next column that eight divides on.
pub open spec fn line_behind(
    p: Piece,
    options: FormatMessageOptions,
    before: FormatState,
    shown: int,
) -> (int, Option<int>) {
    match p {
        Piece::Return | Piece::Line => (0, None),
        Piece::Pair(_) | Piece::Lone(_) => if options.maximum_width == 0 {
            (0, None)
        } else {
            (before.column + 1, Some(before.position))
        },
        Piece::Tab => (before.column / 8 * 8 + 9, Some(before.position)),
        Piece::Blank => (before.column + 1, Some(before.position)),
        Piece::Unit(u) => (
            before.column + 1,
            if u == 0x20 {
                Some(before.position)
            } else {
                before.last_space
            },
        ),
        _ => (before.column + shown, before.last_space),
    }
}

/// The width of a line and the place where it can be broken follow the pieces.
pub proof fn lines_follow_the_pieces(
    message: Seq<u16>,
    options: FormatMessageOptions,
    m: Rendering,
    slots: Slots,
    st: FormatState,
    p: Piece,
    rest: Seq<u16>,
    used: int,
)
    requires
        0 <= st.source < message.len(),
        0 <= st.position,
        0 <= st.column,
        st.column + shown(p, options, m, slots, used).len() + 9 <= usize::MAX,
        message.skip(st.source) == piece_text(p) + rest,
        piece_ok(p, rest),
        slots_known(st, slots, used),
        slots_ok(seq![p], options, slots, used),
        st.position + shown(p, options, m, slots, used).len() < st.output.len(),
    ensures
        token_step(message, options, m, slots, st) matches Step::Next(after) && (
            after.column,
            after.last_space,
        ) == line_behind(p, options, st, shown(p, options, m, slots, used).len() as int),
{
    let all = piece_text(p) + rest;
    let at = st.source;
    assert forall|i: int| 0 <= i < all.len() implies message[at + i] == #[trigger] all[i] by {
        assert(message.skip(at)[i] == message[at + i]);
    }
    assert(message.len() == at + all.len());
    assert(message[at + 0] == all[0]);
    if piece_text(p).len() >= 2 {
        assert(message[at + 1] == all[1]);
    } else if rest.len() > 0 {
        assert(message[at + 1] == all[1] && all[1] == rest[0]);
    }
    if let Piece::Insert { digits, format } = p {
        inserts_read_back(message, at, digits, format, rest);
        let insert = insert_at(message, at + 1)->Some_0;
        let behind = FormatState { source: insert.next, ..st };
        assert(all[1] == digits[0]);
        reveal_with_fuel(slots_ok, 2);
        assert(seq![p][0] == p);
        if options.ignore_inserts {
            assert(message.subrange(at, insert.next) =~= piece_text(p)) by {
                assert forall|i: int| 0 <= i < piece_text(p).len() implies message.subrange(
                    at,
                    insert.next,
                )[i] == piece_text(p)[i] by {
                    assert(message[at + i] == all[i]);
                }
            }
        } else {
            if format is Some {
                lemma_stars(format->Some_0);
            }
            lemma_values(behind, slots, insert, options.arguments_are_an_array, used);
        }
    }
}

/// A number of more than three digits, a format of more than thirty units or with more than two
/// asterisks, and one that is not closed make an insert that is refused.
pub proof fn odd_inserts_are_refused(message: Seq<u16>, at: int, end: int, close: int)
    requires
        0 <= at < end < close <= message.len(),
        forall|i: int| at <= i < end ==> 0x30 <= #[trigger] message[i] <= 0x39,
        !(0x30 <= message[end] <= 0x39),
        end - at > 3 || (message[end] == 0x21 && forall|i: int|
            end < i < close ==> #[trigger] message[i] != 0x21),
        end - at > 3 || close == message.len() || (message[close] == 0x21 && (close - end - 1 > 30
            || star_count(Some(message.subrange(end + 1, close))) > 2)),
    ensures
        insert_at(message, at) is None,
{
    lemma_digits_end(message, at, end);
    if end - at <= 3 {
        if close < message.len() {
            lemma_closes(message, end + 1, close);
            lemma_stars(message.subrange(end + 1, close));
        } else {
            lemma_not_closed(message, end + 1);
        }
    }
}

proof fn lemma_not_closed(s: Seq<u16>, at: int)
    requires
        0 <= at,
        forall|i: int| at <= i < s.len() ==> #[trigger] s[i] != 0x21,
    ensures
        first_unit(s, at, 0x21) is None,
    decreases s.len() - at,
{
    if at < s.len() {
        lemma_not_closed(s, at + 1);
    }
}

/// A line is broken only when it is as wide as the width, and the widths zero and 2^32 - 1 break
/// none.
pub proof fn narrow_lines_are_not_broken(options: FormatMessageOptions, st: FormatState)
    ensures
        st.column < options.maximum_width || options.maximum_width == 0 || options.maximum_width
            == 0xffff_ffff ==> wrapped(options, Step::Next(st)) == Step::Next(st),
        st.column >= options.maximum_width && 0 < options.maximum_width < 0xffff_ffff ==> wrapped(
            options,
            Step::Next(st),
        ) == wrap(st),
{
}

/// Each unit of a text makes its line wider by one, and the last space is where it can be broken.
pub proof fn units_widen_lines(message: Seq<u16>, options: FormatMessageOptions, st: FormatState)
    requires
        0 <= st.source < message.len(),
        0 <= st.position < st.output.len(),
        0 <= st.column < usize::MAX,
        message[st.source] != 0x0d && message[st.source] != 0x0a,
    ensures
        text_step(message, options, st) matches Step::Next(after) && {
            &&& after.source == st.source + 1
            &&& after.position == st.position + 1
            &&& after.output[st.position] == message[st.source]
            &&& after.column == st.column + 1
            &&& after.last_space == if message[st.source] == 0x20 {
                Some(st.position)
            } else {
                st.last_space
            }
        },
{
}

/// A tabulator leads to the next column that eight divides.
pub proof fn tabulators_lead_to_multiples_of_eight(column: int)
    requires
        0 <= column,
        column + 8 <= usize::MAX,
    ensures
        tab_stop(column) % 8 == 0,
        column < tab_stop(column) <= column + 8,
{
}

} // verus!
