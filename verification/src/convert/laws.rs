//! What narrowing comes to.

use vstd::prelude::*;

use super::{first_byte_for, narrowed};

verus! {

proof fn lemma_first_byte_for(table: Seq<u16>, c: u16, i: int)
    requires
        0 <= i,
    ensures
        match first_byte_for(table, c, i) {
            Some(b) => i <= b < table.len() && table[b] == c && forall|j: int|
                i <= j < b ==> #[trigger] table[j] != c,
            None => forall|j: int| i <= j < table.len() ==> #[trigger] table[j] != c,
        },
    decreases table.len() - i,
{
    if i < table.len() && table[i] != c {
        lemma_first_byte_for(table, c, i + 1);
    }
}

/// A unit beyond ASCII that the page has is narrowed to the first byte that stands for it; one that
/// the page does not have, to the default. ASCII is narrowed to itself.
pub proof fn narrowing_finds_the_byte(table: Seq<u16>, default_char: u8, c: u16, b: int)
    requires
        table.len() == 256,
        0 <= b < 256,
    ensures
        c < 0x80 ==> narrowed(table, default_char, c) == c,
        c >= 0x80 && table[b] == c ==> narrowed(table, default_char, c) <= b && table[narrowed(
            table,
            default_char,
            c,
        ) as int] == c,
        c >= 0x80 && !table.contains(c) ==> narrowed(table, default_char, c) == default_char,
{
    lemma_first_byte_for(table, c, 0);
    if let Some(k) = first_byte_for(table, c, 0) {
        assert(table[k] == c);
    }
}

} // verus!
