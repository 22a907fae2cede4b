//! Conversion between code pages of one byte and UTF-16.

use vstd::prelude::*;

pub mod laws;

verus! {

/// A code page: the code unit of each byte, and the byte for code units that it does not have.
#[derive(Clone)]
pub struct CodePage {
    widen: [u16; 256],
    default_char: u8,
}

/// The first byte at or behind `i` that stands for a code unit.
pub open spec fn first_byte_for(table: Seq<u16>, c: u16, i: int) -> Option<int>
    decreases table.len() - i,
{
    if i >= table.len() {
        None
    } else if table[i] == c {
        Some(i)
    } else {
        first_byte_for(table, c, i + 1)
    }
}

/// The byte of a code unit. ASCII stands for itself on every code page.
pub open spec fn narrowed(table: Seq<u16>, default_char: u8, c: u16) -> u8 {
    if c < 0x80 {
        c as u8
    } else {
        match first_byte_for(table, c, 0) {
            Some(b) => b as u8,
            None => default_char,
        }
    }
}

/// The table on which each byte stands for itself.
pub open spec fn latin1_table() -> Seq<u16> {
    Seq::new(256, |i: int| i as u16)
}

proof fn lemma_latin1_finds(c: u16, i: int)
    requires
        0 <= i <= c < 256,
    ensures
        first_byte_for(latin1_table(), c, i) == Some(c as int),
    decreases c - i,
{
    if i < c {
        lemma_latin1_finds(c, i + 1);
    }
}

/// On the table on which each byte stands for itself, bytes come back from the code units that they
/// are widened to.
pub proof fn latin1_round_trips(b: u8, default_char: u8)
    ensures
        narrowed(latin1_table(), default_char, latin1_table()[b as int]) == b,
{
    lemma_latin1_finds(b as u16, 0);
}

impl CodePage {
    /// The code unit of each byte.
    pub closed spec fn table(self) -> Seq<u16> {
        self.widen@
    }

    /// The byte for code units that the page does not have.
    pub closed spec fn substitute(self) -> u8 {
        self.default_char
    }

    /// The code page on which each byte stands for itself.
    pub fn latin1() -> (page: CodePage)
        ensures
            page.table() == latin1_table(),
            page.substitute() == 0x3f,
    {
        let mut widen: [u16; 256] = [0; 256];
        let mut i: usize = 0;
        while i < 256
            invariant
                i <= 256,
                forall|j: int| 0 <= j < i ==> #[trigger] widen@[j] == j,
            decreases 256 - i,
        {
            widen[i] = i as u16;
            i += 1;
        }
        assert(widen@ =~= latin1_table());
        CodePage { widen, default_char: 0x3f }
    }

    /// A code page of a table.
    pub fn from_widen(widen: [u16; 256], default_char: u8) -> (page: Self)
        ensures
            page.table() == widen@,
            page.substitute() == default_char,
    {
        CodePage { widen, default_char }
    }

    /// The code unit of a byte.
    pub fn widen_byte(&self, b: u8) -> (c: u16)
        ensures
            c == self.table()[b as int],
    {
        self.widen[b as usize]
    }

    /// The byte of a code unit.
    pub fn narrow_unit(&self, c: u16) -> (b: u8)
        ensures
            b == narrowed(self.table(), self.substitute(), c),
    {
        if c < 0x80 {
            return c as u8;
        }
        let mut i: usize = 0;
        while i < 256
            invariant
                i <= 256,
                c >= 0x80,
                first_byte_for(self.widen@, c, 0) == first_byte_for(self.widen@, c, i as int),
            decreases 256 - i,
        {
            if self.widen[i] == c {
                return i as u8;
            }
            i += 1;
        }
        self.default_char
    }
}

/// Bytes as code units.
pub fn multi_byte_to_unicode(cp: &CodePage, src: &[u8]) -> (out: Vec<u16>)
    ensures
        out@ == src@.map_values(|b: u8| cp.table()[b as int]),
{
    let mut out: Vec<u16> = Vec::new();
    let mut i: usize = 0;
    while i < src.len()
        invariant
            i <= src@.len(),
            out@.len() == i,
            forall|j: int| 0 <= j < i ==> #[trigger] out@[j] == cp.table()[src@[j] as int],
        decreases src@.len() - i,
    {
        out.push(cp.widen_byte(src[i]));
        i += 1;
    }
    assert(out@ =~= src@.map_values(|b: u8| cp.table()[b as int]));
    out
}

/// Code units as bytes.
pub fn unicode_to_multi_byte(cp: &CodePage, src: &[u16]) -> (out: Vec<u8>)
    ensures
        out@ == src@.map_values(|c: u16| narrowed(cp.table(), cp.substitute(), c)),
{
    let mut out: Vec<u8> = Vec::new();
    let mut i: usize = 0;
    while i < src.len()
        invariant
            i <= src@.len(),
            out@.len() == i,
            forall|j: int|
                0 <= j < i ==> #[trigger] out@[j] == narrowed(
                    cp.table(),
                    cp.substitute(),
                    src@[j],
                ),
        decreases src@.len() - i,
    {
        out.push(cp.narrow_unit(src[i]));
        i += 1;
    }
    assert(out@ =~= src@.map_values(|c: u16| narrowed(cp.table(), cp.substitute(), c)));
    out
}

/// How many bytes code units take.
pub fn unicode_to_multi_byte_size(src: &[u16]) -> (n: usize)
    ensures
        n == src@.len(),
{
    src.len()
}

/// How many bytes code units take with a terminator.
pub fn unicode_string_to_ansi_size(src: &[u16]) -> (n: usize)
    requires
        src@.len() < usize::MAX,
    ensures
        n == src@.len() + 1,
{
    unicode_to_multi_byte_size(src) + 1
}

/// How many bytes the code units of bytes take with a terminator.
pub fn ansi_string_to_unicode_size(src: &[u8]) -> (n: usize)
    requires
        2 * (src@.len() + 1) <= usize::MAX,
    ensures
        n == 2 * (src@.len() + 1),
{
    (src.len() + 1) * 2
}

/// The code unit of a byte that stands for itself.
pub fn ansi_char_to_unicode_char(b: u8) -> (c: u16)
    ensures
        c == b,
{
    CodePage::latin1().widen_byte(b)
}

} // verus!
