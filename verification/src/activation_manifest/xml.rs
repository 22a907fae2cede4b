//! The XML subset of assembly manifests, over UTF-16 code units.

use vstd::prelude::*;

use crate::bytes::{copy_units, same_units};
use crate::decimal::{all_digits, digits_value, parse_digits};
use crate::guid::{hex_value, parse_hex_digits};

verus! {

// ---------------------------------------------------------------------------------------------
// Characters and words
// ---------------------------------------------------------------------------------------------

/// Whether code units spell a text.
pub open spec fn spells(w: Seq<u16>, text: Seq<char>) -> bool {
    w.len() == text.len() && forall|i: int| 0 <= i < w.len() ==> w[i] as int == #[trigger] text[i] as int
}

/// Whether code units spell a text when the case of ASCII letters does not count.
pub open spec fn spells_ci(w: Seq<u16>, text: Seq<char>) -> bool {
    w.len() == text.len() && forall|i: int| 0 <= i < w.len() ==> #[trigger] same_ci(w[i], text[i])
}

/// Whether a unit is a character when the case of ASCII letters does not count.
pub open spec fn same_ci(u: u16, c: char) -> bool {
    u <= 0x7f && ascii_lower(u as int) == ascii_lower(c as int)
}

/// The lower-case form of an ASCII letter.
pub open spec fn ascii_lower(c: int) -> int {
    if 0x41 <= c <= 0x5a {
        c + 0x20
    } else {
        c
    }
}

/// Whether a text occurs at `at`.
pub open spec fn occurs(s: Seq<u16>, at: int, text: Seq<char>) -> bool {
    &&& 0 <= at
    &&& at + text.len() <= s.len()
    &&& spells(s.subrange(at, at + text.len()), text)
}

/// The first occurrence of a text at or behind `at`.
pub open spec fn first_occurrence(s: Seq<u16>, at: int, text: Seq<char>) -> Option<int>
    decreases s.len() - at,
{
    if at + text.len() > s.len() || at >= s.len() {
        None
    } else if occurs(s, at, text) {
        Some(at)
    } else {
        first_occurrence(s, at + 1, text)
    }
}

/// The first place at or behind `at` that holds `unit`.
pub open spec fn first_unit(s: Seq<u16>, at: int, unit: u16) -> Option<int>
    decreases s.len() - at,
{
    if at >= s.len() {
        None
    } else if s[at] == unit {
        Some(at)
    } else {
        first_unit(s, at + 1, unit)
    }
}

/// Whether a code point may stand in XML.
pub open spec fn is_xml_char(v: int) -> bool {
    v == 0x09 || v == 0x0a || v == 0x0d || 0x20 <= v <= 0xd7ff || 0xe000 <= v <= 0xfffd || 0x1_0000
        <= v <= 0x10_ffff
}

/// Whether a unit is white space.
pub open spec fn is_space(u: u16) -> bool {
    u == 0x09 || u == 0x0a || u == 0x0d || u == 0x20
}

/// Whether a unit may start a name.
pub open spec fn starts_name(u: u16) -> bool {
    u == 0x3a || u == 0x5f || 0x41 <= u <= 0x5a || 0x61 <= u <= 0x7a || u >= 0x80
}

/// Whether a unit may continue a name.
pub open spec fn continues_name(u: u16) -> bool {
    starts_name(u) || u == 0x2d || u == 0x2e || 0x30 <= u <= 0x39
}

/// Where the white space at `at` ends.
pub open spec fn space_end(s: Seq<u16>, at: int) -> int
    decreases s.len() - at,
{
    if 0 <= at < s.len() && is_space(s[at]) {
        space_end(s, at + 1)
    } else {
        at
    }
}

/// Where the units at `at` that continue a name end.
pub open spec fn run_end(s: Seq<u16>, at: int) -> int
    decreases s.len() - at,
{
    if 0 <= at < s.len() && continues_name(s[at]) {
        run_end(s, at + 1)
    } else {
        at
    }
}

/// Where the name at `at` ends.
pub open spec fn name_end(s: Seq<u16>, at: int) -> Option<int> {
    if 0 <= at < s.len() && starts_name(s[at]) {
        Some(run_end(s, at + 1))
    } else {
        None
    }
}

/// Where the last colon of a name is, or -1.
pub open spec fn last_colon(w: Seq<u16>) -> int
    decreases w.len(),
{
    if w.len() == 0 {
        -1
    } else if w.last() == 0x3a {
        w.len() - 1
    } else {
        last_colon(w.drop_last())
    }
}

/// A name without its prefix.
pub open spec fn local_part(w: Seq<u16>) -> Seq<u16> {
    w.subrange(last_colon(w) + 1, w.len() as int)
}

// ---------------------------------------------------------------------------------------------
// Escaped text
// ---------------------------------------------------------------------------------------------

/// The code point of a numeric reference, given what stands behind the number sign.
pub open spec fn reference_number(body: Seq<u16>) -> Option<int> {
    if body.len() > 0 && (body[0] == 0x78 || body[0] == 0x58) {
        let digits = body.subrange(1, body.len() as int);
        if digits.len() == 0 {
            None
        } else {
            hex_value(digits)
        }
    } else if body.len() > 0 && all_digits(body) {
        Some(digits_value(body))
    } else {
        None
    }
}

/// The code point of a reference, given what stands between the ampersand and the semicolon.
pub open spec fn reference_value(body: Seq<u16>) -> Option<int> {
    if spells(body, "lt"@) {
        Some(0x3c)
    } else if spells(body, "gt"@) {
        Some(0x3e)
    } else if spells(body, "amp"@) {
        Some(0x26)
    } else if spells(body, "apos"@) {
        Some(0x27)
    } else if spells(body, "quot"@) {
        Some(0x22)
    } else if body.len() > 0 && body[0] == 0x23 {
        reference_number(body.subrange(1, body.len() as int))
    } else {
        None
    }
}

/// The code point of the reference at `at`, and the place behind it.
pub open spec fn reference(s: Seq<u16>, at: int) -> Option<(int, int)> {
    match first_unit(s, at + 1, 0x3b) {
        Some(end) => match reference_value(s.subrange(at + 1, end)) {
            Some(v) => if is_xml_char(v) {
                Some((v, end + 1))
            } else {
                None
            },
            None => None,
        },
        None => None,
    }
}

/// The UTF-16 code units of a code point.
pub open spec fn utf16_of(v: int) -> Seq<u16> {
    if v <= 0xffff {
        seq![v as u16]
    } else {
        seq![(0xd800 + (v - 0x1_0000) / 0x400) as u16, (0xdc00 + (v - 0x1_0000) % 0x400) as u16]
    }
}

/// The text from `at` on with its references replaced; `None` if one makes no sense.
pub open spec fn unescaped_from(s: Seq<u16>, at: int) -> Option<Seq<u16>>
    decreases s.len() - at,
{
    if at >= s.len() {
        Some(Seq::empty())
    } else if s[at] != 0x26 {
        match unescaped_from(s, at + 1) {
            Some(rest) => Some(seq![s[at]] + rest),
            None => None,
        }
    } else {
        match reference(s, at) {
            Some((v, next)) => if at < next <= s.len() {
                match unescaped_from(s, next) {
                    Some(rest) => Some(utf16_of(v) + rest),
                    None => None,
                }
            } else {
                None
            },
            None => None,
        }
    }
}

/// A text with its references replaced.
pub open spec fn unescaped(s: Seq<u16>) -> Option<Seq<u16>> {
    unescaped_from(s, 0)
}

/// Whether a text may stand between markup or in an attribute.
pub open spec fn escaped_text_ok(s: Seq<u16>) -> bool {
    first_occurrence(s, 0, "]]>"@) is None && unescaped(s) is Some
}

// ---------------------------------------------------------------------------------------------
// Markup
// ---------------------------------------------------------------------------------------------

/// An attribute: its qualified name and its value.
#[verifier::ext_equal]
pub struct AttributeModel {
    pub name: Seq<u16>,
    pub value: Seq<u16>,
}

/// A start tag: its qualified name, its attributes, and whether it closes itself.
#[verifier::ext_equal]
pub struct TagModel {
    pub name: Seq<u16>,
    pub attributes: Seq<AttributeModel>,
    pub self_closing: bool,
}

/// Where the value that starts at `at` ends at its quote; it holds no start of markup.
pub open spec fn quote_end(s: Seq<u16>, at: int, quote: u16) -> Option<int>
    decreases s.len() - at,
{
    if at >= s.len() {
        None
    } else if s[at] == quote {
        Some(at)
    } else if s[at] == 0x3c {
        None
    } else {
        quote_end(s, at + 1, quote)
    }
}

/// The attribute at `at`, and the place behind it.
pub open spec fn attribute_at(s: Seq<u16>, at: int) -> Option<(AttributeModel, int)> {
    match name_end(s, at) {
        None => None,
        Some(end) => {
            let equals = space_end(s, end);
            let open = space_end(s, equals + 1);
            if equals >= s.len() || s[equals] != 0x3d || open >= s.len() || (s[open] != 0x27
                && s[open] != 0x22) {
                None
            } else {
                match quote_end(s, open + 1, s[open]) {
                    None => None,
                    Some(close) => {
                        let raw = s.subrange(open + 1, close);
                        match unescaped(raw) {
                            Some(value) => if first_occurrence(raw, 0, "]]>"@) is None {
                                Some((AttributeModel { name: s.subrange(at, end), value }, close + 1))
                            } else {
                                None
                            },
                            None => None,
                        }
                    },
                }
            }
        },
    }
}

/// Whether no two attributes have the same name.
pub open spec fn names_differ(attributes: Seq<AttributeModel>) -> bool {
    forall|i: int, j: int|
        0 <= i < j < attributes.len() ==> (#[trigger] attributes[i]).name != (
        #[trigger] attributes[j]).name
}

/// The rest of a start tag from `at` on, behind the attributes `before`: all attributes, whether
/// the tag closes itself, and the place behind it.
pub open spec fn tag_rest(s: Seq<u16>, at: int, before: Seq<AttributeModel>) -> Option<
    (Seq<AttributeModel>, bool, int),
>
    decreases s.len() - at,
{
    let next = space_end(s, at);
    if next >= s.len() {
        None
    } else if s[next] == 0x3e {
        if names_differ(before) {
            Some((before, false, next + 1))
        } else {
            None
        }
    } else if s[next] == 0x2f {
        if names_differ(before) && next + 1 < s.len() && s[next + 1] == 0x3e {
            Some((before, true, next + 2))
        } else {
            None
        }
    } else if next > at {
        match attribute_at(s, next) {
            Some((attribute, end)) => if at < end <= s.len() {
                tag_rest(s, end, before.push(attribute))
            } else {
                None
            },
            None => None,
        }
    } else {
        None
    }
}

/// The start tag at `at`, and the place behind it.
pub open spec fn start_tag(s: Seq<u16>, at: int) -> Option<(TagModel, int)> {
    if 0 <= at < s.len() && s[at] == 0x3c {
        match name_end(s, at + 1) {
            Some(end) => match tag_rest(s, end, Seq::empty()) {
                Some((attributes, self_closing, next)) => Some(
                    (TagModel { name: s.subrange(at + 1, end), attributes, self_closing }, next),
                ),
                None => None,
            },
            None => None,
        }
    } else {
        None
    }
}

/// The name of the end tag at `at`, and the place behind it.
pub open spec fn end_tag(s: Seq<u16>, at: int) -> Option<(Seq<u16>, int)> {
    match name_end(s, at + 2) {
        Some(end) => {
            let close = space_end(s, end);
            if close < s.len() && s[close] == 0x3e {
                Some((s.subrange(at + 2, end), close + 1))
            } else {
                None
            }
        },
        None => None,
    }
}

/// The place behind the comment at `at`. No two hyphens stand inside.
pub open spec fn comment_end(s: Seq<u16>, at: int) -> Option<int> {
    match first_occurrence(s, at + 4, "-->"@) {
        Some(end) => match first_occurrence(s, at + 4, "--"@) {
            Some(bad) => if bad < end {
                None
            } else {
                Some(end + 3)
            },
            None => Some(end + 3),
        },
        None => None,
    }
}

/// The place behind the character data at `at`.
pub open spec fn cdata_end(s: Seq<u16>, at: int) -> Option<int> {
    match first_occurrence(s, at + 9, "]]>"@) {
        Some(end) => Some(end + 3),
        None => None,
    }
}

/// The place behind the processing instruction at `at`.
pub open spec fn instruction_end(s: Seq<u16>, at: int) -> Option<int> {
    match first_occurrence(s, at + 2, "?>"@) {
        Some(end) => Some(end + 2),
        None => None,
    }
}

/// The place behind the white space, comments and processing instructions at `at`.
pub open spec fn misc_end(s: Seq<u16>, at: int) -> Option<int>
    decreases s.len() - at,
{
    let next = space_end(s, at);
    let end = if occurs(s, next, "<!--"@) {
        comment_end(s, next)
    } else if occurs(s, next, "<?"@) {
        instruction_end(s, next)
    } else {
        Some(next)
    };
    if !occurs(s, next, "<!--"@) && !occurs(s, next, "<?"@) {
        Some(next)
    } else {
        match end {
            Some(end) => if at < end <= s.len() {
                misc_end(s, end)
            } else {
                None
            },
            None => None,
        }
    }
}

/// What stands in the content of an element.
pub enum ContentModel {
    /// A comment, character data or a processing instruction.
    Skipped,
    /// An end tag.
    End(Seq<u16>),
    /// A start tag.
    Start(TagModel),
}

/// The next markup at or behind `at`, and the place behind it. The text in front of it has to make
/// sense.
pub open spec fn content_at(s: Seq<u16>, at: int) -> Option<(ContentModel, int)> {
    match first_unit(s, at, 0x3c) {
        None => None,
        Some(open) => if !escaped_text_ok(s.subrange(at, open)) {
            None
        } else if occurs(s, open, "<!--"@) {
            match comment_end(s, open) {
                Some(end) => Some((ContentModel::Skipped, end)),
                None => None,
            }
        } else if occurs(s, open, "<![CDATA["@) {
            match cdata_end(s, open) {
                Some(end) => Some((ContentModel::Skipped, end)),
                None => None,
            }
        } else if occurs(s, open, "<?"@) {
            match instruction_end(s, open) {
                Some(end) => Some((ContentModel::Skipped, end)),
                None => None,
            }
        } else if occurs(s, open, "</"@) {
            match end_tag(s, open) {
                Some((name, end)) => Some((ContentModel::End(name), end)),
                None => None,
            }
        } else if occurs(s, open, "<!"@) {
            None
        } else {
            match start_tag(s, open) {
                Some((tag, end)) => Some((ContentModel::Start(tag), end)),
                None => None,
            }
        },
    }
}

// ---------------------------------------------------------------------------------------------
// Reading
// ---------------------------------------------------------------------------------------------

/// Whether code units spell a text.
pub fn ascii_slice_eq(input: &[u16], expected: &str) -> (equal: bool)
    ensures
        equal == spells(input@, expected@),
{
    let length: usize = expected.unicode_len();
    if input.len() != length {
        return false;
    }
    let mut i: usize = 0;
    while i < length
        invariant
            i <= length == input@.len() == expected@.len(),
            forall|j: int| 0 <= j < i ==> input@[j] as int == #[trigger] expected@[j] as int,
        decreases length - i,
    {
        if input[i] as u32 != expected.get_char(i) as u32 {
            assert(input@[i as int] as int != expected@[i as int] as int);
            return false;
        }
        i += 1;
    }
    true
}

/// Whether code units spell a text when the case of ASCII letters does not count.
pub fn ascii_slice_eq_ci(input: &[u16], expected: &str) -> (equal: bool)
    ensures
        equal == spells_ci(input@, expected@),
{
    let length: usize = expected.unicode_len();
    if input.len() != length {
        return false;
    }
    let mut i: usize = 0;
    while i < length
        invariant
            i <= length == input@.len() == expected@.len(),
            forall|j: int| 0 <= j < i ==> #[trigger] same_ci(input@[j], expected@[j]),
        decreases length - i,
    {
        let a: u32 = input[i] as u32;
        let b: u32 = expected.get_char(i) as u32;
        let a_lower: u32 = if 0x41 <= a && a <= 0x5a {
            a + 0x20
        } else {
            a
        };
        let b_lower: u32 = if 0x41 <= b && b <= 0x5a {
            b + 0x20
        } else {
            b
        };
        if a > 0x7f || a_lower != b_lower {
            assert(!same_ci(input@[i as int], expected@[i as int]));
            return false;
        }
        i += 1;
    }
    true
}

/// Whether a text occurs at `start`.
pub fn ascii_eq_at(input: &[u16], start: usize, expected: &str) -> (equal: bool)
    requires
        start <= input@.len(),
    ensures
        equal == occurs(input@, start as int, expected@),
{
    let length: usize = expected.unicode_len();
    if input.len() - start < length {
        return false;
    }
    ascii_slice_eq(vstd::slice::slice_subrange(input, start, start + length), expected)
}

/// The first occurrence of a text at or behind `start`.
pub fn find_ascii(input: &[u16], start: usize, needle: &str) -> (r: Option<usize>)
    ensures
        match r {
            Some(i) => first_occurrence(input@, start as int, needle@) == Some(i as int) && start
                <= i && i + needle@.len() <= input@.len(),
            None => first_occurrence(input@, start as int, needle@) is None,
        },
{
    let length: usize = needle.unicode_len();
    let total: usize = input.len();
    let mut at: usize = start;
    while at < total && total - at >= length
        invariant
            length == needle@.len(),
            total == input@.len(),
            start <= at,
            first_occurrence(input@, start as int, needle@) == first_occurrence(
                input@,
                at as int,
                needle@,
            ),
        decreases total - at,
    {
        if ascii_eq_at(input, at, needle) {
            return Some(at);
        }
        at += 1;
    }
    None
}

/// The first place at or behind `start` that holds `unit`.
pub fn find_unit(input: &[u16], start: usize, unit: u16) -> (r: Option<usize>)
    ensures
        match r {
            Some(i) => first_unit(input@, start as int, unit) == Some(i as int) && start <= i
                < input@.len(),
            None => first_unit(input@, start as int, unit) is None,
        },
{
    let mut at: usize = start;
    while at < input.len()
        invariant
            start <= at,
            first_unit(input@, start as int, unit) == first_unit(input@, at as int, unit),
        decreases input@.len() - at,
    {
        if input[at] == unit {
            return Some(at);
        }
        at += 1;
    }
    None
}

/// Whether a code point may stand in XML.
pub fn is_xml_character(value: u32) -> (yes: bool)
    ensures
        yes == is_xml_char(value as int),
{
    value == 0x09 || value == 0x0a || value == 0x0d || (0x20 <= value && value <= 0xd7ff) || (
    0xe000 <= value && value <= 0xfffd) || (0x1_0000 <= value && value <= 0x10_ffff)
}

fn is_whitespace(u: u16) -> (yes: bool)
    ensures
        yes == is_space(u),
{
    u == 0x09 || u == 0x0a || u == 0x0d || u == 0x20
}

fn is_name_start(u: u16) -> (yes: bool)
    ensures
        yes == starts_name(u),
{
    u == 0x3a || u == 0x5f || (0x41 <= u && u <= 0x5a) || (0x61 <= u && u <= 0x7a) || u >= 0x80
}

fn is_name_continue(u: u16) -> (yes: bool)
    ensures
        yes == continues_name(u),
{
    is_name_start(u) || u == 0x2d || u == 0x2e || (0x30 <= u && u <= 0x39)
}

/// Where the white space at `at` ends.
pub fn skip_whitespace(input: &[u16], at: usize) -> (end: usize)
    requires
        at <= input@.len(),
    ensures
        end == space_end(input@, at as int),
        at <= end <= input@.len(),
{
    let mut end: usize = at;
    while end < input.len() && is_whitespace(input[end])
        invariant
            at <= end <= input@.len(),
            space_end(input@, at as int) == space_end(input@, end as int),
        decreases input@.len() - end,
    {
        end += 1;
    }
    end
}

/// Where the name at `at` ends.
fn parse_name(input: &[u16], at: usize) -> (r: Option<usize>)
    ensures
        match r {
            Some(end) => name_end(input@, at as int) == Some(end as int) && at < end
                <= input@.len(),
            None => name_end(input@, at as int) is None,
        },
{
    if at >= input.len() || !is_name_start(input[at]) {
        return None;
    }
    let mut end: usize = at + 1;
    while end < input.len() && is_name_continue(input[end])
        invariant
            at < end <= input@.len(),
            run_end(input@, at + 1) == run_end(input@, end as int),
        decreases input@.len() - end,
    {
        end += 1;
    }
    Some(end)
}

/// Whether the local part of a name spells a text.
pub fn local_eq(name: &[u16], expected: &str) -> (equal: bool)
    ensures
        equal == spells(local_part(name@), expected@),
{
    let length: usize = name.len();
    let mut start: usize = length;
    assert(name@.take(length as int) =~= name@);
    while start > 0 && name[start - 1] != 0x3a
        invariant
            start <= length == name@.len(),
            last_colon(name@) == last_colon(name@.take(start as int)),
        decreases start,
    {
        assert(name@.take(start as int).drop_last() =~= name@.take(start - 1));
        start -= 1;
    }
    assert(last_colon(name@) == start - 1);
    let part = vstd::slice::slice_subrange(name, start, length);
    assert(part@ =~= local_part(name@));
    ascii_slice_eq(part, expected)
}

/// The code point of a numeric reference, given what stands behind the number sign.
fn parse_reference_number(body: &[u16]) -> (r: Option<u32>)
    ensures
        match r {
            Some(v) => reference_number(body@) == Some(v as int),
            None => match reference_number(body@) {
                Some(v) => v > 0x10_ffff,
                None => true,
            },
        },
{
    if body.len() > 0 && (body[0] == 0x78 || body[0] == 0x58) {
        let digits = vstd::slice::slice_subrange(body, 1, body.len());
        if digits.len() == 0 {
            return None;
        }
        parse_hex_digits(digits, 0x10_ffff)
    } else if body.len() > 0 {
        parse_digits(body, 0x10_ffff)
    } else {
        None
    }
}

/// The code point of the reference at `start`, and the place behind it.
fn parse_entity(input: &[u16], start: usize) -> (r: Option<(u32, usize)>)
    requires
        start < input@.len(),
    ensures
        match r {
            Some((v, next)) => reference(input@, start as int) == Some((v as int, next as int))
                && start < next <= input@.len() && is_xml_char(v as int),
            None => reference(input@, start as int) is None,
        },
{
    assert(input.len() <= usize::MAX);
    let semicolon: usize = match find_unit(input, start + 1, 0x3b) {
        Some(at) => at,
        None => {
            return None;
        },
    };
    let body = vstd::slice::slice_subrange(input, start + 1, semicolon);
    let scalar: u32 = if ascii_slice_eq(body, "lt") {
        0x3c
    } else if ascii_slice_eq(body, "gt") {
        0x3e
    } else if ascii_slice_eq(body, "amp") {
        0x26
    } else if ascii_slice_eq(body, "apos") {
        0x27
    } else if ascii_slice_eq(body, "quot") {
        0x22
    } else if body.len() > 0 && body[0] == 0x23 {
        match parse_reference_number(vstd::slice::slice_subrange(body, 1, body.len())) {
            Some(v) => v,
            None => {
                return None;
            },
        }
    } else {
        return None;
    };
    if !is_xml_character(scalar) {
        return None;
    }
    Some((scalar, semicolon + 1))
}

/// Append the UTF-16 code units of a code point.
pub fn push_utf16(output: &mut Vec<u16>, scalar: u32)
    requires
        scalar <= 0x10_ffff,
    ensures
        final(output)@ == old(output)@ + utf16_of(scalar as int),
{
    if scalar <= 0xffff {
        output.push(scalar as u16);
    } else {
        let rest: u32 = scalar - 0x1_0000;
        output.push(0xd800 + (rest / 0x400) as u16);
        output.push(0xdc00 + (rest % 0x400) as u16);
    }
    assert(output@ =~= old(output)@ + utf16_of(scalar as int));
}

/// A text with its references replaced.
fn decode_attribute_value(input: &[u16]) -> (r: Option<Vec<u16>>)
    ensures
        match r {
            Some(v) => unescaped(input@) == Some(v@),
            None => unescaped(input@) is None,
        },
{
    let mut output: Vec<u16> = Vec::new();
    let mut position: usize = 0;
    proof {
        if let Some(rest) = unescaped_from(input@, 0) {
            assert(output@ + rest =~= rest);
        }
    }
    while position < input.len()
        invariant
            position <= input@.len(),
            match unescaped_from(input@, position as int) {
                Some(rest) => unescaped(input@) == Some(output@ + rest),
                None => unescaped(input@) is None,
            },
        decreases input@.len() - position,
    {
        let ghost before = output@;
        let ghost at = position as int;
        if input[position] != 0x26 {
            output.push(input[position]);
            position += 1;
            proof {
                if let Some(rest) = unescaped_from(input@, at + 1) {
                    assert(before + (seq![input@[at]] + rest) =~= output@ + rest);
                }
            }
        } else {
            match parse_entity(input, position) {
                Some((scalar, next)) => {
                    push_utf16(&mut output, scalar);
                    position = next;
                    proof {
                        if let Some(rest) = unescaped_from(input@, position as int) {
                            assert(before + (utf16_of(scalar as int) + rest) =~= output@ + rest);
                        }
                    }
                },
                None => {
                    return None;
                },
            }
        }
    }
    assert(output@ + Seq::empty() =~= output@);
    Some(output)
}

/// Whether a text may stand between markup or in an attribute.
fn validate_escaped_text(input: &[u16]) -> (ok: bool)
    ensures
        ok == escaped_text_ok(input@),
{
    if find_ascii(input, 0, "]]>").is_some() {
        return false;
    }
    let mut position: usize = 0;
    while position < input.len()
        invariant
            position <= input@.len(),
            unescaped_from(input@, position as int) is Some <==> unescaped(input@) is Some,
        decreases input@.len() - position,
    {
        if input[position] == 0x26 {
            match parse_entity(input, position) {
                Some((_, next)) => {
                    position = next;
                },
                None => {
                    return false;
                },
            }
        } else {
            position += 1;
        }
    }
    true
}

/// An attribute of a tag.
pub struct Attribute {
    pub name: Vec<u16>,
    pub value: Vec<u16>,
}

impl View for Attribute {
    type V = AttributeModel;

    open spec fn view(&self) -> AttributeModel {
        AttributeModel { name: self.name@, value: self.value@ }
    }
}

/// A start tag.
pub struct Tag {
    pub name: Vec<u16>,
    pub attributes: Vec<Attribute>,
    pub self_closing: bool,
}

/// The models of attributes.
pub open spec fn attribute_models(attributes: Seq<Attribute>) -> Seq<AttributeModel> {
    attributes.map_values(|a: Attribute| a@)
}

impl View for Tag {
    type V = TagModel;

    open spec fn view(&self) -> TagModel {
        TagModel {
            name: self.name@,
            attributes: attribute_models(self.attributes@),
            self_closing: self.self_closing,
        }
    }
}

/// The attribute at `at`, and the place behind it.
#[verifier::loop_isolation(false)]
fn parse_attribute(input: &[u16], at: usize) -> (r: Option<(Attribute, usize)>)
    requires
        at <= input@.len(),
    ensures
        match r {
            Some((a, end)) => attribute_at(input@, at as int) == Some((a@, end as int)) && at < end
                <= input@.len(),
            None => attribute_at(input@, at as int) is None,
        },
{
    let name_end: usize = match parse_name(input, at) {
        Some(end) => end,
        None => {
            return None;
        },
    };
    let equals: usize = skip_whitespace(input, name_end);
    if equals >= input.len() || input[equals] != 0x3d {
        return None;
    }
    let open: usize = skip_whitespace(input, equals + 1);
    if open >= input.len() || (input[open] != 0x27 && input[open] != 0x22) {
        return None;
    }
    let quote: u16 = input[open];
    let mut close: usize = open + 1;
    while close < input.len() && input[close] != quote
        invariant
            open < close <= input@.len(),
            quote_end(input@, open + 1, quote) == quote_end(input@, close as int, quote),
        decreases input@.len() - close,
    {
        if input[close] == 0x3c {
            return None;
        }
        close += 1;
    }
    if close >= input.len() {
        return None;
    }
    let raw = vstd::slice::slice_subrange(input, open + 1, close);
    if find_ascii(raw, 0, "]]>").is_some() {
        return None;
    }
    match decode_attribute_value(raw) {
        Some(value) => {
            let name = copy_units(vstd::slice::slice_subrange(input, at, name_end));
            Some((Attribute { name, value }, close + 1))
        },
        None => None,
    }
}

/// Whether no two attributes have the same name.
fn ensure_unique_attributes(attributes: &Vec<Attribute>) -> (ok: bool)
    ensures
        ok == names_differ(attribute_models(attributes@)),
{
    let ghost models = attribute_models(attributes@);
    let mut j: usize = 0;
    while j < attributes.len()
        invariant
            j <= attributes@.len(),
            models == attribute_models(attributes@),
            forall|a: int, b: int|
                0 <= a < b < j ==> (#[trigger] models[a]).name != (#[trigger] models[b]).name,
        decreases attributes@.len() - j,
    {
        let mut i: usize = 0;
        while i < j
            invariant
                i <= j < attributes@.len(),
                models == attribute_models(attributes@),
                forall|a: int| 0 <= a < i ==> (#[trigger] models[a]).name != models[j as int].name,
            decreases j - i,
        {
            if same_units(&attributes[i].name, &attributes[j].name) {
                assert(models[i as int].name == models[j as int].name);
                return false;
            }
            assert(models[i as int].name != models[j as int].name);
            i += 1;
        }
        j += 1;
    }
    true
}

/// The start tag at `at`, and the place behind it.
pub fn parse_start_tag(input: &[u16], at: usize) -> (r: Option<(Tag, usize)>)
    ensures
        match r {
            Some((t, end)) => start_tag(input@, at as int) == Some((t@, end as int)) && at < end
                <= input@.len(),
            None => start_tag(input@, at as int) is None,
        },
{
    if at >= input.len() || input[at] != 0x3c {
        return None;
    }
    let stop: usize = match parse_name(input, at + 1) {
        Some(end) => end,
        None => {
            return None;
        },
    };
    let mut attributes: Vec<Attribute> = Vec::new();
    let mut position: usize = stop;
    assert(attribute_models(attributes@) =~= Seq::empty());
    loop
        invariant
            at < stop <= position <= input@.len(),
            input@[at as int] == 0x3c,
            name_end(input@, at + 1) == Some(stop as int),
            tag_rest(input@, stop as int, Seq::empty()) == tag_rest(
                input@,
                position as int,
                attribute_models(attributes@),
            ),
        decreases input@.len() - position,
    {
        let next: usize = skip_whitespace(input, position);
        if next >= input.len() {
            return None;
        }
        let self_closing: bool = input[next] == 0x2f;
        if input[next] == 0x3e || self_closing {
            if !ensure_unique_attributes(&attributes) {
                return None;
            }
            if self_closing && (next + 1 >= input.len() || input[next + 1] != 0x3e) {
                return None;
            }
            let name = copy_units(vstd::slice::slice_subrange(input, at + 1, stop));
            let end: usize = if self_closing {
                next + 2
            } else {
                next + 1
            };
            return Some((Tag { name, attributes, self_closing }, end));
        }
        if next == position {
            return None;
        }
        match parse_attribute(input, next) {
            Some((attribute, end)) => {
                let ghost before = attributes@;
                attributes.push(attribute);
                assert(attribute_models(attributes@) =~= attribute_models(before).push(attribute@));
                position = end;
            },
            None => {
                return None;
            },
        }
    }
}

/// The place behind the comment at `at`.
fn skip_comment(input: &[u16], at: usize) -> (r: Option<usize>)
    requires
        at + 4 <= input@.len(),
    ensures
        match r {
            Some(end) => comment_end(input@, at as int) == Some(end as int) && at < end
                <= input@.len(),
            None => comment_end(input@, at as int) is None,
        },
{
    assert(input.len() <= usize::MAX);
    proof {
        reveal_strlit("-->");
    }
    let end: usize = match find_ascii(input, at + 4, "-->") {
        Some(end) => end,
        None => {
            return None;
        },
    };
    match find_ascii(input, at + 4, "--") {
        Some(bad) => if bad < end {
            return None;
        },
        None => {},
    }
    Some(end + 3)
}

/// The place behind the character data at `at`.
fn skip_cdata(input: &[u16], at: usize) -> (r: Option<usize>)
    requires
        at + 9 <= input@.len(),
    ensures
        match r {
            Some(end) => cdata_end(input@, at as int) == Some(end as int) && at < end
                <= input@.len(),
            None => cdata_end(input@, at as int) is None,
        },
{
    assert(input.len() <= usize::MAX);
    proof {
        reveal_strlit("]]>");
    }
    match find_ascii(input, at + 9, "]]>") {
        Some(end) => Some(end + 3),
        None => None,
    }
}

/// The place behind the processing instruction at `at`.
fn skip_processing_instruction(input: &[u16], at: usize) -> (r: Option<usize>)
    requires
        at + 2 <= input@.len(),
    ensures
        match r {
            Some(end) => instruction_end(input@, at as int) == Some(end as int) && at < end
                <= input@.len(),
            None => instruction_end(input@, at as int) is None,
        },
{
    assert(input.len() <= usize::MAX);
    proof {
        reveal_strlit("?>");
    }
    match find_ascii(input, at + 2, "?>") {
        Some(end) => Some(end + 2),
        None => None,
    }
}

/// The name of the end tag at `at`, and the place behind it.
fn parse_end_tag(input: &[u16], at: usize) -> (r: Option<(Vec<u16>, usize)>)
    requires
        at + 2 <= input@.len(),
    ensures
        match r {
            Some((name, end)) => end_tag(input@, at as int) == Some((name@, end as int)) && at < end
                <= input@.len(),
            None => end_tag(input@, at as int) is None,
        },
{
    assert(input.len() <= usize::MAX);
    match parse_name(input, at + 2) {
        Some(end) => {
            let close: usize = skip_whitespace(input, end);
            if close < input.len() && input[close] == 0x3e {
                let name = copy_units(vstd::slice::slice_subrange(input, at + 2, end));
                Some((name, close + 1))
            } else {
                None
            }
        },
        None => None,
    }
}

/// The place behind the white space, comments and processing instructions at `at`.
pub fn skip_document_misc(input: &[u16], at: usize) -> (r: Option<usize>)
    requires
        at <= input@.len(),
    ensures
        match r {
            Some(end) => misc_end(input@, at as int) == Some(end as int) && at <= end
                <= input@.len(),
            None => misc_end(input@, at as int) is None,
        },
{
    proof {
        reveal_strlit("<!--");
        reveal_strlit("<?");
    }
    let mut position: usize = at;
    loop
        invariant
            at <= position <= input@.len(),
            "<!--"@.len() == 4,
            "<?"@.len() == 2,
            misc_end(input@, at as int) == misc_end(input@, position as int),
        decreases input@.len() - position,
    {
        let next: usize = skip_whitespace(input, position);
        let end: Option<usize> = if ascii_eq_at(input, next, "<!--") {
            skip_comment(input, next)
        } else if ascii_eq_at(input, next, "<?") {
            skip_processing_instruction(input, next)
        } else {
            return Some(next);
        };
        match end {
            Some(end) => {
                position = end;
            },
            None => {
                return None;
            },
        }
    }
}

/// What stands in the content of an element.
pub enum Content {
    /// A comment, character data or a processing instruction.
    Skipped,
    /// An end tag.
    End(Vec<u16>),
    /// A start tag.
    Start(Tag),
}

impl View for Content {
    type V = ContentModel;

    open spec fn view(&self) -> ContentModel {
        match self {
            Content::Skipped => ContentModel::Skipped,
            Content::End(name) => ContentModel::End(name@),
            Content::Start(tag) => ContentModel::Start(tag@),
        }
    }
}

/// The next markup at or behind `at`, and the place behind it.
pub fn parse_content(input: &[u16], at: usize) -> (r: Option<(Content, usize)>)
    requires
        at <= input@.len(),
    ensures
        match r {
            Some((c, end)) => content_at(input@, at as int) == Some((c@, end as int)) && at < end
                <= input@.len(),
            None => content_at(input@, at as int) is None,
        },
{
    proof {
        reveal_strlit("<!--");
        reveal_strlit("<![CDATA[");
        reveal_strlit("<?");
        reveal_strlit("</");
    }
    let open: usize = match find_unit(input, at, 0x3c) {
        Some(open) => open,
        None => {
            return None;
        },
    };
    if !validate_escaped_text(vstd::slice::slice_subrange(input, at, open)) {
        return None;
    }
    if ascii_eq_at(input, open, "<!--") {
        match skip_comment(input, open) {
            Some(end) => Some((Content::Skipped, end)),
            None => None,
        }
    } else if ascii_eq_at(input, open, "<![CDATA[") {
        match skip_cdata(input, open) {
            Some(end) => Some((Content::Skipped, end)),
            None => None,
        }
    } else if ascii_eq_at(input, open, "<?") {
        match skip_processing_instruction(input, open) {
            Some(end) => Some((Content::Skipped, end)),
            None => None,
        }
    } else if ascii_eq_at(input, open, "</") {
        match parse_end_tag(input, open) {
            Some((name, end)) => Some((Content::End(name), end)),
            None => None,
        }
    } else if ascii_eq_at(input, open, "<!") {
        None
    } else {
        match parse_start_tag(input, open) {
            Some((tag, end)) => Some((Content::Start(tag), end)),
            None => None,
        }
    }
}

} // verus!
