//! Which section an address belongs to.

use vstd::prelude::*;

use super::{covering_from, covers, looked_at};
use crate::pe::PeSection;

verus! {

proof fn lemma_covering(sections: Seq<PeSection>, i: int, rva: u32)
    requires
        0 <= i <= sections.len(),
    ensures
        match covering_from(sections, i, rva) {
            Some(k) => i <= k < sections.len() && covers(sections[k], rva) && forall|j: int|
                i <= j < k ==> !covers(#[trigger] sections[j], rva),
            None => forall|j: int| i <= j < sections.len() ==> !covers(#[trigger] sections[j], rva),
        },
    decreases sections.len() - i,
{
    if i < sections.len() && !covers(sections[i], rva) {
        lemma_covering(sections, i + 1, rva);
    }
}

/// The first byte of a section and the last byte of its data or of its space belong to it; the byte
/// in front of it and the byte behind both do not.
pub proof fn sections_cover_data_and_space(s: PeSection, rva: u32)
    ensures
        covers(s, rva) <==> (s.virtual_address <= rva && (rva - s.virtual_address < s.virtual_size
            || rva - s.virtual_address < s.size_of_raw_data)),
{
}

/// A section that covers an address is found, unless one before it covers the address too.
pub proof fn first_sections_are_found(sections: Seq<PeSection>, rva: u32, k: int)
    requires
        0 <= k < sections.len(),
        sections[k].virtual_address <= rva,
        rva - sections[k].virtual_address < sections[k].virtual_size || rva
            - sections[k].virtual_address < sections[k].size_of_raw_data,
    ensures
        covering_from(sections, 0, rva) matches Some(i) && i <= k && covers(sections[i], rva),
        looked_at(sections, rva) <= k + 1,
{
    lemma_covering(sections, 0, rva);
    assert(covers(sections[k], rva));
}

} // verus!
