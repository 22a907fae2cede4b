//! Text as characters and as UTF-16 code units.

use vstd::prelude::*;

use crate::activation_manifest::xml::{push_utf16, utf16_of};

pub mod laws;

verus! {

/// The text of UTF-16 code units. A surrogate that has no partner becomes the replacement
/// character.
pub open spec fn decoded(w: Seq<u16>) -> Seq<char>
    decreases w.len(),
{
    if w.len() == 0 {
        Seq::empty()
    } else if w[0] < 0xd800 || w[0] >= 0xe000 {
        seq![w[0] as char] + decoded(w.skip(1))
    } else if is_pair(w) {
        seq![pair_value(w[0], w[1]) as char] + decoded(w.skip(2))
    } else {
        seq![0xfffdu32 as char] + decoded(w.skip(1))
    }
}

/// Whether code units start with the two halves of a character.
pub open spec fn is_pair(w: Seq<u16>) -> bool {
    w.len() >= 2 && 0xd800 <= w[0] < 0xdc00 && 0xdc00 <= w[1] < 0xe000
}

/// The character of two halves.
pub open spec fn pair_value(high: u16, low: u16) -> int {
    0x1_0000 + (high - 0xd800) * 0x400 + (low - 0xdc00)
}

/// The UTF-16 code units of a text.
pub open spec fn encoded(s: Seq<char>) -> Seq<u16>
    decreases s.len(),
{
    if s.len() == 0 {
        Seq::empty()
    } else {
        utf16_of(s[0] as int) + encoded(s.skip(1))
    }
}

/// The numbers that characters have.
pub(crate) proof fn lemma_char(c: char)
    ensures
        0 <= c as int <= 0x10_ffff,
        (c as int) < 0xd800 || 0xe000 <= c as int,
{
}

/// Decoding what was encoded gives the text back.
pub proof fn decoding_undoes_encoding(s: Seq<char>)
    ensures
        decoded(encoded(s)) == s,
    decreases s.len(),
{
    if s.len() > 0 {
        decoding_undoes_encoding(s.skip(1));
        let w = encoded(s);
        let rest = encoded(s.skip(1));
        let v = s[0] as int;
        lemma_char(s[0]);
        if v <= 0xffff {
            assert(w[0] as int == v);
            assert(w.skip(1) =~= rest);
        } else {
            let high = (v - 0x1_0000) / 0x400;
            let low = (v - 0x1_0000) % 0x400;
            assert(w[0] as int == 0xd800 + high && w[1] as int == 0xdc00 + low);
            assert(pair_value(w[0], w[1]) == v);
            assert(w.skip(2) =~= rest);
        }
        assert(seq![s[0]] + s.skip(1) =~= s);
    }
}

/// No code unit of a text is zero unless one of its characters is.
pub proof fn zeros_are_kept(s: Seq<char>)
    ensures
        encoded(s).contains(0) ==> s.contains('\0'),
    decreases s.len(),
{
    if s.len() > 0 {
        zeros_are_kept(s.skip(1));
        let head = utf16_of(s[0] as int);
        let rest = encoded(s.skip(1));
        if encoded(s).contains(0) {
            let i = choose|i: int| 0 <= i < encoded(s).len() && encoded(s)[i] == 0;
            lemma_char(s[0]);
            if i < head.len() {
                assert(s[0] == '\0');
            } else {
                assert(rest[i - head.len()] == 0);
                let j = choose|j: int| 0 <= j < s.skip(1).len() && s.skip(1)[j] == '\0';
                assert(s[j + 1] == '\0');
            }
        }
    }
}

/// Encoding goes through a text part by part.
pub proof fn encoding_is_piecewise(a: Seq<char>, b: Seq<char>)
    ensures
        encoded(a + b) == encoded(a) + encoded(b),
    decreases a.len(),
{
    if a.len() == 0 {
        assert(a + b =~= b);
        assert(encoded(a) + encoded(b) =~= encoded(b));
    } else {
        encoding_is_piecewise(a.skip(1), b);
        assert((a + b).skip(1) =~= a.skip(1) + b);
        assert(encoded(a + b) =~= encoded(a) + encoded(b));
    }
}

/// `char::from_u32`: a number is a character unless it is too large or a surrogate.
pub assume_specification[ char::from_u32 ](i: u32) -> (r: Option<char>)
    ensures
        r == if i < 0xd800 || 0xe000 <= i <= 0x10_ffff {
            Some(i as char)
        } else {
            None
        },
;

/// `String::push`: the character is appended.
pub assume_specification[ String::push ](s: &mut String, c: char)
    ensures
        final(s)@ == old(s)@.push(c),
;

/// A character of a given number; the replacement character where there is none.
fn to_char(value: u32) -> (c: char)
    ensures
        c == if value < 0xd800 || 0xe000 <= value <= 0x10_ffff {
            value as char
        } else {
            0xfffdu32 as char
        },
{
    match char::from_u32(value) {
        Some(c) => c,
        None => '\u{fffd}',
    }
}

/// The characters of a text.
pub fn chars_of(text: &str) -> (out: Vec<char>)
    ensures
        out@ == text@,
{
    let mut out: Vec<char> = Vec::new();
    for c in it: text.chars()
        invariant
            out@ == it.seq().take(it.index() as int),
            it.seq() == text@,
    {
        out.push(c);
        assert(out@ =~= it.seq().take(it.index() + 1));
    }
    assert(out@ =~= text@);
    out
}

/// The text of characters.
pub fn string_of(chars: &[char]) -> (out: String)
    ensures
        out@ == chars@,
{
    let mut out: String = String::new();
    let mut i: usize = 0;
    assert(out@ =~= chars@.take(0));
    while i < chars.len()
        invariant
            i <= chars@.len(),
            out@ == chars@.take(i as int),
        decreases chars@.len() - i,
    {
        out.push(chars[i]);
        i += 1;
        assert(out@ =~= chars@.take(i as int));
    }
    assert(chars@.take(i as int) =~= chars@);
    out
}

/// Append characters.
pub fn push_chars(out: &mut Vec<char>, chars: &[char])
    ensures
        final(out)@ == old(out)@ + chars@,
{
    let mut i: usize = 0;
    assert(out@ =~= old(out)@ + chars@.take(0));
    while i < chars.len()
        invariant
            i <= chars@.len(),
            out@ == old(out)@ + chars@.take(i as int),
        decreases chars@.len() - i,
    {
        out.push(chars[i]);
        i += 1;
        assert(out@ =~= old(out)@ + chars@.take(i as int));
    }
    assert(chars@.take(i as int) =~= chars@);
}

/// The text of UTF-16 code units.
pub fn decode(w: &[u16]) -> (out: Vec<char>)
    ensures
        out@ == decoded(w@),
{
    let mut out: Vec<char> = Vec::new();
    let mut i: usize = 0;
    assert(w@.skip(0) =~= w@);
    assert(decoded(w@) =~= out@ + decoded(w@.skip(0)));
    while i < w.len()
        invariant
            i <= w@.len(),
            decoded(w@) == out@ + decoded(w@.skip(i as int)),
        decreases w@.len() - i,
    {
        let ghost rest = w@.skip(i as int);
        let ghost before = out@;
        let unit: u16 = w[i];
        if 0xd800 <= unit && unit < 0xdc00 && i + 1 < w.len() && 0xdc00 <= w[i + 1] && w[i + 1]
            < 0xe000 {
            let value: u32 = 0x1_0000 + (unit as u32 - 0xd800) * 0x400 + (w[i + 1] as u32 - 0xdc00);
            out.push(to_char(value));
            assert(rest.skip(2) =~= w@.skip(i + 2));
            i += 2;
        } else {
            out.push(to_char(unit as u32));
            assert(rest.skip(1) =~= w@.skip(i + 1));
            i += 1;
        }
        assert(decoded(w@) =~= out@ + decoded(w@.skip(i as int))) by {
            assert(before + decoded(rest) =~= out@ + decoded(w@.skip(i as int)));
        }
    }
    assert(out@ =~= decoded(w@));
    out
}

/// Append the UTF-16 code units of a text.
pub fn push_encoded(out: &mut Vec<u16>, chars: &[char])
    ensures
        final(out)@ == old(out)@ + encoded(chars@),
{
    let mut i: usize = 0;
    assert(chars@.skip(0) =~= chars@);
    while i < chars.len()
        invariant
            i <= chars@.len(),
            old(out)@ + encoded(chars@) == out@ + encoded(chars@.skip(i as int)),
        decreases chars@.len() - i,
    {
        let ghost rest = chars@.skip(i as int);
        let ghost before = out@;
        let c: char = chars[i];
        proof {
            lemma_char(c);
        }
        push_utf16(out, c as u32);
        i += 1;
        assert(rest.skip(1) =~= chars@.skip(i as int));
        assert(before + encoded(rest) =~= out@ + encoded(chars@.skip(i as int)));
    }
    assert(out@ + encoded(chars@.skip(i as int)) =~= out@);
}

} // verus!
