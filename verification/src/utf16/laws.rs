//! What code units stand for.

use vstd::prelude::*;

use super::{decoded, encoded, is_pair, pair_value};
use crate::activation_manifest::xml::utf16_of;

verus! {

/// A character below 2^16 is one unit with its number. Others are two: the first of the units from
/// 0xd800 on with the high ten bits of what is above 2^16, the second of those from 0xdc00 on with
/// the low ten bits.
pub proof fn characters_are_one_unit_or_two(c: char)
    ensures
        (c as int) < 0x1_0000 ==> utf16_of(c as int) == seq![c as u16],
        (c as int) >= 0x1_0000 ==> {
            let units = utf16_of(c as int);
            &&& units.len() == 2
            &&& 0 <= units[0] - 0xd800 < 1024
            &&& 0 <= units[1] - 0xdc00 < 1024
            &&& (units[0] - 0xd800) * 1024 + (units[1] - 0xdc00) + 0x1_0000 == c as int
        },
{
}

/// A text is encoded character by character.
pub proof fn texts_are_encoded_in_order(a: Seq<char>, c: char)
    ensures
        encoded(seq![c] + a) == utf16_of(c as int) + encoded(a),
        encoded(Seq::<char>::empty()) == Seq::<u16>::empty(),
{
    let s = seq![c] + a;
    assert(s[0] == c);
    assert(s.skip(1) =~= a);
}

/// A surrogate that has no partner stands for the replacement character, and what is behind it is
/// read on its own.
pub proof fn lone_surrogates_are_replaced(u: u16, rest: Seq<u16>)
    requires
        0xd800 <= u <= 0xdfff,
        u <= 0xdbff ==> rest.len() == 0 || !(0xdc00 <= rest[0] <= 0xdfff),
    ensures
        decoded(seq![u] + rest) == seq![0xfffdu32 as char] + decoded(rest),
{
    let w = seq![u] + rest;
    assert(w[0] == u);
    assert(w.skip(1) =~= rest);
    assert(rest.len() > 0 ==> w[1] == rest[0]);
    assert(!is_pair(w));
}

/// Two halves stand for the character whose number they hold.
pub proof fn halves_stand_for_one_character(high: u16, low: u16, rest: Seq<u16>)
    requires
        0xd800 <= high <= 0xdbff,
        0xdc00 <= low <= 0xdfff,
    ensures
        decoded(seq![high, low] + rest) == seq![
            (0x1_0000 + (high - 0xd800) * 1024 + (low - 0xdc00)) as char,
        ] + decoded(rest),
{
    let w = seq![high, low] + rest;
    assert(w[0] == high && w[1] == low);
    assert(w.skip(2) =~= rest);
    assert(is_pair(w));
    assert(pair_value(high, low) == 0x1_0000 + (high - 0xd800) * 1024 + (low - 0xdc00));
}

} // verus!
