//! Which bytes and units are characters.

use vstd::prelude::*;

use super::encoding::{utf16_scalar, utf8_of, utf8_scalar, xml_text_from};
use super::xml::is_xml_char;

verus! {

proof fn lemma_digits(a: int, b: int, c: int, d: int)
    requires
        0 <= a <= 4,
        0 <= b < 0x40,
        0 <= c < 0x40,
        0 <= d < 0x40,
    ensures
        ({
            let v = a * 0x4_0000 + b * 0x1000 + c * 0x40 + d;
            &&& v / 0x4_0000 == a
            &&& v / 0x1000 % 0x40 == b
            &&& v / 0x40 % 0x40 == c
            &&& v % 0x40 == d
        }),
{
    let v = a * 0x4_0000 + b * 0x1000 + c * 0x40 + d;
    assert(v / 0x40 == a * 0x1000 + b * 0x40 + c);
    assert(v / 0x1000 == a * 0x40 + b);
}

proof fn lemma_three(s: Seq<u8>, at: int)
    requires
        0 <= at,
        at + 3 <= s.len(),
        0xe0 <= s[at] <= 0xef,
        0x80 <= s[at + 1] <= 0xbf,
        0x80 <= s[at + 2] <= 0xbf,
        utf8_scalar(s, at) is Some,
    ensures
        s.subrange(at, at + 3) == utf8_of(utf8_scalar(s, at)->Some_0.0),
{
    let (a, b, c) = (s[at] - 0xe0, s[at + 1] - 0x80, s[at + 2] - 0x80);
    let v = utf8_scalar(s, at)->Some_0.0;
    assert(v == a * 0x1000 + b * 0x40 + c);
    assert(v / 0x1000 == a && v / 0x40 % 0x40 == b && v % 0x40 == c) by {
        assert(v / 0x40 == a * 0x40 + b);
    }
    assert(s.subrange(at, at + 3) =~= utf8_of(v));
}

proof fn lemma_four(s: Seq<u8>, at: int)
    requires
        0 <= at,
        at + 4 <= s.len(),
        0xf0 <= s[at] <= 0xf4,
        0x80 <= s[at + 1] <= 0xbf,
        0x80 <= s[at + 2] <= 0xbf,
        0x80 <= s[at + 3] <= 0xbf,
        utf8_scalar(s, at) is Some,
    ensures
        s.subrange(at, at + 4) == utf8_of(utf8_scalar(s, at)->Some_0.0),
{
    let (a, b, c, d) = (s[at] - 0xf0, s[at + 1] - 0x80, s[at + 2] - 0x80, s[at + 3] - 0x80);
    let v = utf8_scalar(s, at)->Some_0.0;
    assert(v == a * 0x4_0000 + b * 0x1000 + c * 0x40 + d);
    lemma_digits(a, b, c, d);
    assert(s.subrange(at, at + 4) =~= utf8_of(v));
}

/// A character has one form in UTF-8: what is read as a character are the bytes that it is written as.
/// Longer forms, surrogates and numbers above the last character are not read.
pub proof fn characters_have_one_form(s: Seq<u8>, at: int)
    requires
        0 <= at < s.len(),
    ensures
        utf8_scalar(s, at) matches Some((v, next)) ==> {
            &&& at < next <= s.len()
            &&& s.subrange(at, next) == utf8_of(v)
            &&& 0 <= v < 0xd800 || 0xe000 <= v <= 0x10_ffff
        },
{
    if let Some((v, next)) = utf8_scalar(s, at) {
        if s[at] < 0x80 {
            assert(s.subrange(at, at + 1) =~= utf8_of(v));
        } else if s[at] <= 0xdf {
            let (a, b) = (s[at] - 0xc0, s[at + 1] - 0x80);
            assert(v == a * 0x40 + b);
            assert(v / 0x40 == a && v % 0x40 == b);
            assert(s.subrange(at, at + 2) =~= utf8_of(v));
        } else if s[at] <= 0xef {
            lemma_three(s, at);
        } else {
            lemma_four(s, at);
        }
    }
}

/// A surrogate is read only with its partner behind it.
pub proof fn surrogates_need_partners(w: Seq<u16>, at: int)
    requires
        0 <= at < w.len(),
    ensures
        0xdc00 <= w[at] <= 0xdfff ==> utf16_scalar(w, at) is None,
        0xd800 <= w[at] <= 0xdbff ==> (utf16_scalar(w, at) is Some <==> at + 1 < w.len() && 0xdc00
            <= w[at + 1] <= 0xdfff),
        w[at] < 0xd800 || w[at] > 0xdfff ==> utf16_scalar(w, at) == Some((w[at] as int, at + 1)),
        utf16_scalar(w, at) matches Some((v, next)) ==> next == at + 2 ==> v - 0x1_0000 == (w[at]
            - 0xd800) * 1024 + (w[at + 1] - 0xdc00),
{
}

/// Of the characters below a space, a text may hold the tabulator, the line feed and the carriage
/// return; of the others, all but surrogates and the last two of the first 2^16.
pub proof fn texts_hold_printable_characters(v: int)
    requires
        0 <= v <= 0x10_ffff,
    ensures
        v < 32 ==> (is_xml_char(v) <==> v == 9 || v == 10 || v == 13),
        v >= 32 ==> (is_xml_char(v) <==> !(0xd800 <= v <= 0xdfff) && v != 0xfffe && v != 0xffff),
{
}

/// A text that holds a character that it may not hold is refused, wherever the character stands.
pub proof fn odd_characters_are_refused(front: Seq<u16>, unit: u16, rest: Seq<u16>)
    requires
        forall|i: int|
            0 <= i < front.len() ==> !(0xd800 <= #[trigger] front[i] <= 0xdfff) && is_xml_char(
                front[i] as int,
            ),
        !is_xml_char(unit as int),
        !(0xd800 <= unit <= 0xdbff),
    ensures
        !xml_text_from(front + seq![unit] + rest, 0),
{
    lemma_refused(front + seq![unit] + rest, 0, front.len() as int);
}

proof fn lemma_refused(w: Seq<u16>, at: int, k: int)
    requires
        0 <= at <= k < w.len(),
        forall|i: int| at <= i < k ==> !(0xd800 <= #[trigger] w[i] <= 0xdfff),
        !is_xml_char(w[k] as int),
        !(0xd800 <= w[k] <= 0xdbff),
    ensures
        !xml_text_from(w, at),
    decreases k - at,
{
    if at < k {
        assert(!(0xd800 <= w[at] <= 0xdfff));
        lemma_refused(w, at + 1, k);
    }
}

} // verus!
