//! The character encodings of assembly manifests.

use vstd::prelude::*;

use super::xml::{is_xml_char, is_xml_character, push_utf16, utf16_of};
use crate::utf16::{encoded, lemma_char};

verus! {

// ---------------------------------------------------------------------------------------------
// UTF-8
// ---------------------------------------------------------------------------------------------

/// Whether the byte at `at` continues a UTF-8 sequence.
pub open spec fn continues(s: Seq<u8>, at: int) -> bool {
    at < s.len() && 0x80 <= s[at] <= 0xbf
}

/// The code point of the well-formed UTF-8 sequence at `at`, and the place behind it. Overlong
/// forms, surrogates and values above the last code point are not well-formed.
pub open spec fn utf8_scalar(s: Seq<u8>, at: int) -> Option<(int, int)> {
    let b = s[at];
    if b < 0x80 {
        Some((b as int, at + 1))
    } else if 0xc2 <= b <= 0xdf && continues(s, at + 1) {
        Some(((b - 0xc0) * 0x40 + (s[at + 1] - 0x80), at + 2))
    } else if 0xe0 <= b <= 0xef && continues(s, at + 1) && continues(s, at + 2) {
        let v = (b - 0xe0) * 0x1000 + (s[at + 1] - 0x80) * 0x40 + (s[at + 2] - 0x80);
        if v >= 0x800 && !(0xd800 <= v <= 0xdfff) {
            Some((v, at + 3))
        } else {
            None
        }
    } else if 0xf0 <= b <= 0xf4 && continues(s, at + 1) && continues(s, at + 2) && continues(
        s,
        at + 3,
    ) {
        let v = (b - 0xf0) * 0x4_0000 + (s[at + 1] - 0x80) * 0x1000 + (s[at + 2] - 0x80) * 0x40 + (
        s[at + 3] - 0x80);
        if 0x1_0000 <= v <= 0x10_ffff {
            Some((v, at + 4))
        } else {
            None
        }
    } else {
        None
    }
}

/// The UTF-16 code units of the UTF-8 text from `at` on.
pub open spec fn utf8_units(s: Seq<u8>, at: int) -> Option<Seq<u16>>
    decreases s.len() - at,
{
    if at >= s.len() {
        Some(Seq::empty())
    } else {
        match utf8_scalar(s, at) {
            Some((v, next)) => if at < next <= s.len() {
                match utf8_units(s, next) {
                    Some(rest) => Some(utf16_of(v) + rest),
                    None => None,
                }
            } else {
                None
            },
            None => None,
        }
    }
}

fn is_continuation(s: &[u8], at: usize) -> (yes: bool)
    ensures
        yes == continues(s@, at as int),
{
    at < s.len() && 0x80 <= s[at] && s[at] <= 0xbf
}

/// The code point at `at`, and the place behind it.
fn decode_scalar(s: &[u8], at: usize) -> (r: Option<(u32, usize)>)
    requires
        at < s@.len(),
    ensures
        match r {
            Some((v, next)) => utf8_scalar(s@, at as int) == Some((v as int, next as int)) && at
                < next <= s@.len() && v <= 0x10_ffff,
            None => utf8_scalar(s@, at as int) is None,
        },
{
    assert(s.len() <= usize::MAX);
    let b: u32 = s[at] as u32;
    if b < 0x80 {
        return Some((b, at + 1));
    }
    if !is_continuation(s, at + 1) {
        return None;
    }
    let c1: u32 = s[at + 1] as u32 - 0x80;
    if 0xc2 <= b && b <= 0xdf {
        return Some(((b - 0xc0) * 0x40 + c1, at + 2));
    }
    if b < 0xe0 || !is_continuation(s, at + 2) {
        return None;
    }
    let c2: u32 = s[at + 2] as u32 - 0x80;
    if b <= 0xef {
        let v: u32 = (b - 0xe0) * 0x1000 + c1 * 0x40 + c2;
        if v >= 0x800 && !(0xd800 <= v && v <= 0xdfff) {
            return Some((v, at + 3));
        }
        return None;
    }
    if b > 0xf4 || !is_continuation(s, at + 3) {
        return None;
    }
    let c3: u32 = s[at + 3] as u32 - 0x80;
    let v: u32 = (b - 0xf0) * 0x4_0000 + c1 * 0x1000 + c2 * 0x40 + c3;
    if 0x1_0000 <= v && v <= 0x10_ffff {
        Some((v, at + 4))
    } else {
        None
    }
}

/// The UTF-16 code units of the UTF-8 text from `start` on.
fn decode_utf8(s: &[u8], start: usize) -> (r: Option<Vec<u16>>)
    requires
        start <= s@.len(),
    ensures
        match r {
            Some(units) => utf8_units(s@, start as int) == Some(units@),
            None => utf8_units(s@, start as int) is None,
        },
{
    let mut output: Vec<u16> = Vec::new();
    let mut at: usize = start;
    proof {
        if let Some(rest) = utf8_units(s@, start as int) {
            assert(output@ + rest =~= rest);
        }
    }
    while at < s.len()
        invariant
            start <= at <= s@.len(),
            match utf8_units(s@, at as int) {
                Some(rest) => utf8_units(s@, start as int) == Some(output@ + rest),
                None => utf8_units(s@, start as int) is None,
            },
        decreases s@.len() - at,
    {
        match decode_scalar(s, at) {
            Some((scalar, next)) => {
                let ghost before = output@;
                push_utf16(&mut output, scalar);
                at = next;
                proof {
                    if let Some(rest) = utf8_units(s@, at as int) {
                        assert(before + (utf16_of(scalar as int) + rest) =~= output@ + rest);
                    }
                }
            },
            None => {
                return None;
            },
        }
    }
    assert(output@ + Seq::empty() =~= output@);
    Some(output)
}

// ---------------------------------------------------------------------------------------------
// UTF-16
// ---------------------------------------------------------------------------------------------

/// The code units of UTF-16 text of either byte order from `at` on.
pub open spec fn utf16_units(s: Seq<u8>, at: int, big_endian: bool) -> Seq<u16> {
    Seq::new(
        ((s.len() - at) / 2) as nat,
        |i: int|
            {
                let first = s[at + 2 * i] as int;
                let second = s[at + 2 * i + 1] as int;
                if big_endian {
                    (first * 0x100 + second) as u16
                } else {
                    (first + second * 0x100) as u16
                }
            },
    )
}

/// The code units of UTF-16 text of either byte order from `start` on.
fn decode_utf16(s: &[u8], start: usize, big_endian: bool) -> (units: Vec<u16>)
    requires
        start <= s@.len(),
    ensures
        units@ == utf16_units(s@, start as int, big_endian),
{
    let mut output: Vec<u16> = Vec::new();
    let count: usize = (s.len() - start) / 2;
    let mut i: usize = 0;
    while i < count
        invariant
            i <= count,
            output@.len() == i,
            start <= s@.len() <= usize::MAX,
            count == (s@.len() - start) / 2,
            forall|j: int|
                0 <= j < i ==> #[trigger] output@[j] == utf16_units(s@, start as int, big_endian)[j],
        decreases count - i,
    {
        let first: u16 = s[start + 2 * i] as u16;
        let second: u16 = s[start + 2 * i + 1] as u16;
        output.push(
            if big_endian {
                first * 0x100 + second
            } else {
                first + second * 0x100
            },
        );
        i += 1;
    }
    assert(output@ =~= utf16_units(s@, start as int, big_endian));
    output
}

/// The code point at `at`, and the place behind it; `None` for a surrogate without its partner.
pub open spec fn utf16_scalar(w: Seq<u16>, at: int) -> Option<(int, int)> {
    if 0xd800 <= w[at] <= 0xdbff {
        if at + 1 < w.len() && 0xdc00 <= w[at + 1] <= 0xdfff {
            Some((0x1_0000 + (w[at] - 0xd800) * 0x400 + (w[at + 1] - 0xdc00), at + 2))
        } else {
            None
        }
    } else if 0xdc00 <= w[at] <= 0xdfff {
        None
    } else {
        Some((w[at] as int, at + 1))
    }
}

/// Whether the code units from `at` on are code points that may stand in XML.
pub open spec fn xml_text_from(w: Seq<u16>, at: int) -> bool
    decreases w.len() - at,
{
    at >= w.len() || match utf16_scalar(w, at) {
        Some((v, next)) => is_xml_char(v) && at < next <= w.len() && xml_text_from(w, next),
        None => false,
    }
}

/// Whether all code units are code points that may stand in XML.
fn validate_xml_characters(input: &[u16]) -> (ok: bool)
    ensures
        ok == xml_text_from(input@, 0),
{
    let mut index: usize = 0;
    while index < input.len()
        invariant
            index <= input@.len(),
            xml_text_from(input@, 0) == xml_text_from(input@, index as int),
        decreases input@.len() - index,
    {
        let unit: u32 = input[index] as u32;
        let (scalar, next): (u32, usize) = if 0xd800 <= unit && unit <= 0xdbff {
            if input.len() - index < 2 {
                return false;
            }
            let low: u32 = input[index + 1] as u32;
            if low < 0xdc00 || low > 0xdfff {
                return false;
            }
            (0x1_0000 + (unit - 0xd800) * 0x400 + (low - 0xdc00), index + 2)
        } else if 0xdc00 <= unit && unit <= 0xdfff {
            return false;
        } else {
            (unit, index + 1)
        };
        if !is_xml_character(scalar) {
            return false;
        }
        index = next;
    }
    true
}

// ---------------------------------------------------------------------------------------------
// Detection
// ---------------------------------------------------------------------------------------------

/// The encodings that a manifest may have.
#[derive(Clone, Copy, Debug, PartialEq, Eq, Structural)]
pub enum Encoding {
    Utf8,
    Utf16Le,
    Utf16Be,
}

/// The encoding of a manifest, and how many bytes its mark takes: a byte order mark decides, else
/// a zero among the first two bytes.
pub open spec fn encoding_of(s: Seq<u8>) -> (Encoding, int) {
    if s.len() >= 3 && s[0] == 0xef && s[1] == 0xbb && s[2] == 0xbf {
        (Encoding::Utf8, 3)
    } else if s.len() >= 2 && s[0] == 0xff && s[1] == 0xfe {
        (Encoding::Utf16Le, 2)
    } else if s.len() >= 2 && s[0] == 0xfe && s[1] == 0xff {
        (Encoding::Utf16Be, 2)
    } else if s.len() >= 2 && s[0] == 0 && s[1] != 0 {
        (Encoding::Utf16Be, 0)
    } else if s.len() >= 2 && s[0] != 0 && s[1] == 0 {
        (Encoding::Utf16Le, 0)
    } else {
        (Encoding::Utf8, 0)
    }
}

/// The code units of a manifest, before their characters are looked at.
pub open spec fn manifest_units(s: Seq<u8>) -> Option<Seq<u16>> {
    let (encoding, mark) = encoding_of(s);
    match encoding {
        Encoding::Utf8 => utf8_units(s, mark),
        _ => if (s.len() - mark) % 2 == 0 {
            Some(utf16_units(s, mark, encoding == Encoding::Utf16Be))
        } else {
            None
        },
    }
}

/// The text of a manifest.
pub open spec fn manifest_text(s: Seq<u8>) -> Option<Seq<u16>> {
    match manifest_units(s) {
        Some(units) => if xml_text_from(units, 0) {
            Some(units)
        } else {
            None
        },
        None => None,
    }
}

/// The text of a manifest.
pub fn decode_manifest(bytes: &[u8]) -> (r: Option<Vec<u16>>)
    ensures
        match r {
            Some(text) => manifest_text(bytes@) == Some(text@),
            None => manifest_text(bytes@) is None,
        },
{
    let n: usize = bytes.len();
    let (encoding, mark): (Encoding, usize) = if n >= 3 && bytes[0] == 0xef && bytes[1] == 0xbb
        && bytes[2] == 0xbf {
        (Encoding::Utf8, 3)
    } else if n >= 2 && bytes[0] == 0xff && bytes[1] == 0xfe {
        (Encoding::Utf16Le, 2)
    } else if n >= 2 && bytes[0] == 0xfe && bytes[1] == 0xff {
        (Encoding::Utf16Be, 2)
    } else if n >= 2 && bytes[0] == 0 && bytes[1] != 0 {
        (Encoding::Utf16Be, 0)
    } else if n >= 2 && bytes[0] != 0 && bytes[1] == 0 {
        (Encoding::Utf16Le, 0)
    } else {
        (Encoding::Utf8, 0)
    };
    let output: Vec<u16> = match encoding {
        Encoding::Utf8 => match decode_utf8(bytes, mark) {
            Some(output) => output,
            None => {
                return None;
            },
        },
        _ => {
            if (n - mark) % 2 != 0 {
                return None;
            }
            decode_utf16(bytes, mark, encoding == Encoding::Utf16Be)
        },
    };
    if !validate_xml_characters(&output) {
        return None;
    }
    Some(output)
}

// ---------------------------------------------------------------------------------------------
// Encoding
// ---------------------------------------------------------------------------------------------

/// The UTF-8 bytes of a code point.
pub open spec fn utf8_of(v: int) -> Seq<u8> {
    if v < 0x80 {
        seq![v as u8]
    } else if v < 0x800 {
        seq![(0xc0 + v / 0x40) as u8, (0x80 + v % 0x40) as u8]
    } else if v < 0x1_0000 {
        seq![(0xe0 + v / 0x1000) as u8, (0x80 + v / 0x40 % 0x40) as u8, (0x80 + v % 0x40) as u8]
    } else {
        seq![
            (0xf0 + v / 0x4_0000) as u8,
            (0x80 + v / 0x1000 % 0x40) as u8,
            (0x80 + v / 0x40 % 0x40) as u8,
            (0x80 + v % 0x40) as u8,
        ]
    }
}

/// The UTF-8 bytes of a text.
pub open spec fn utf8_bytes(text: Seq<char>) -> Seq<u8>
    decreases text.len(),
{
    if text.len() == 0 {
        Seq::empty()
    } else {
        utf8_of(text[0] as int) + utf8_bytes(text.skip(1))
    }
}

/// The bytes of UTF-16 code units in either byte order.
pub open spec fn utf16_bytes(units: Seq<u16>, big_endian: bool) -> Seq<u8> {
    Seq::new(
        2 * units.len(),
        |i: int|
            if (i % 2 == 0) == big_endian {
                (units[i / 2] / 0x100) as u8
            } else {
                (units[i / 2] % 0x100) as u8
            },
    )
}

/// The byte order mark of an encoding.
pub open spec fn mark_of(encoding: Encoding) -> Seq<u8> {
    match encoding {
        Encoding::Utf8 => seq![0xefu8, 0xbb, 0xbf],
        Encoding::Utf16Le => seq![0xffu8, 0xfe],
        Encoding::Utf16Be => seq![0xfeu8, 0xff],
    }
}

/// The bytes of a text in an encoding, with or without a byte order mark.
pub open spec fn bytes_of(text: Seq<char>, encoding: Encoding, marked: bool) -> Seq<u8> {
    (if marked {
        mark_of(encoding)
    } else {
        Seq::empty()
    }) + match encoding {
        Encoding::Utf8 => utf8_bytes(text),
        _ => utf16_bytes(encoded(text), encoding == Encoding::Utf16Be),
    }
}

/// A code point reads back from its UTF-8 bytes.
proof fn lemma_utf8_scalar(s: Seq<u8>, at: int, c: char)
    requires
        0 <= at,
        at + utf8_of(c as int).len() <= s.len(),
        s.subrange(at, at + utf8_of(c as int).len()) == utf8_of(c as int),
    ensures
        utf8_scalar(s, at) == Some((c as int, at + utf8_of(c as int).len())),
        utf8_of(c as int).len() >= 1,
        s[at] == 0 ==> c == '\0',
{
    lemma_char(c);
    let v = c as int;
    let b = utf8_of(v);
    let piece = s.subrange(at, at + b.len());
    assert(s[at] == piece[0]);
    if v >= 0x80 {
        assert(s[at + 1] == piece[1]);
        if v >= 0x800 {
            assert(s[at + 2] == piece[2]);
            if v >= 0x1_0000 {
                assert(s[at + 3] == piece[3]);
            }
        }
    }
}

/// A text reads back from its UTF-8 bytes, as UTF-16.
proof fn lemma_utf8_reads_back(prefix: Seq<u8>, text: Seq<char>)
    ensures
        utf8_units(prefix + utf8_bytes(text), prefix.len() as int) == Some(encoded(text)),
    decreases text.len(),
{
    let s = prefix + utf8_bytes(text);
    if text.len() > 0 {
        let b = utf8_of(text[0] as int);
        let at = prefix.len() as int;
        assert(s.subrange(at, at + b.len()) =~= b);
        lemma_utf8_scalar(s, at, text[0]);
        lemma_utf8_reads_back(prefix + b, text.skip(1));
        assert((prefix + b) + utf8_bytes(text.skip(1)) =~= s);
    }
}

/// Code units read back from their bytes.
proof fn lemma_utf16_reads_back(prefix: Seq<u8>, units: Seq<u16>, big_endian: bool)
    ensures
        utf16_units(prefix + utf16_bytes(units, big_endian), prefix.len() as int, big_endian) == units,
{
    let bytes = utf16_bytes(units, big_endian);
    let s = prefix + bytes;
    let at = prefix.len() as int;
    let read = utf16_units(s, at, big_endian);
    assert forall|i: int| 0 <= i < units.len() implies read[i] == units[i] by {
        assert(s[at + 2 * i] == bytes[2 * i]);
        assert(s[at + 2 * i + 1] == bytes[2 * i + 1]);
        assert((2 * i) / 2 == i && (2 * i + 1) / 2 == i);
    }
    assert(read =~= units);
}

/// A text that starts with a less-than sign and holds no zero is recognised in each encoding, with
/// and without a byte order mark, and reads back as its code units.
pub proof fn texts_read_back(text: Seq<char>, encoding: Encoding, marked: bool)
    requires
        text.len() > 0,
        text[0] == '<',
        !text.contains('\0'),
    ensures
        manifest_units(bytes_of(text, encoding, marked)) == Some(encoded(text)),
{
    let s = bytes_of(text, encoding, marked);
    let prefix = if marked {
        mark_of(encoding)
    } else {
        Seq::empty()
    };
    let n = prefix.len() as int;
    let rest = text.skip(1);
    match encoding {
        Encoding::Utf8 => {
            lemma_utf8_reads_back(prefix, text);
            let body = utf8_bytes(text);
            assert(body[0] == 0x3c);
            assert(s[n] == body[0]);
            if !marked && s.len() >= 2 {
                let next = utf8_bytes(rest);
                assert(s[1] == next[0]);
                assert(rest.len() > 0);
                let b = utf8_of(rest[0] as int);
                assert(next.subrange(0, b.len() as int) =~= b);
                lemma_utf8_scalar(next, 0, rest[0]);
                assert(text[1] != '\0') by {
                    assert(text.contains(text[1]));
                }
            }
        },
        _ => {
            let big_endian = encoding == Encoding::Utf16Be;
            let units = encoded(text);
            lemma_utf16_reads_back(prefix, units, big_endian);
            assert(units[0] == 0x3c);
            let body = utf16_bytes(units, big_endian);
            assert(s[n] == body[0] && s[n + 1] == body[1]);
            assert((s.len() - n) % 2 == 0);
        },
    }
}

} // verus!
