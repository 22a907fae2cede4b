//! What flags and lists of languages come to.

use vstd::prelude::*;

use super::{as_number, flags_ok, language_list, PreferredUiLanguageKind};
use crate::activation_manifest::wide;

verus! {

/// Whether bit `k` can be used as a flag: two to five by everyone, six for a thread, ten for the
/// system.
pub open spec fn usable_bit(kind: PreferredUiLanguageKind, k: u32) -> bool {
    2 <= k <= 5 || (k == 6 && kind == PreferredUiLanguageKind::Thread) || (k == 10 && kind
        == PreferredUiLanguageKind::System)
}

proof fn lemma_bits(k: u32)
    by (bit_vector)
    requires
        k < 32,
    ensures
        (1u32 << k) & !0x43cu32 == 0 <==> (2 <= k && k <= 5 || k == 10),
        (1u32 << k) & !0x7cu32 == 0 <==> (2 <= k && k <= 6),
        (1u32 << k) & !0x3cu32 == 0 <==> (2 <= k && k <= 5),
        !((1u32 << k) & 4 != 0 && (1u32 << k) & 8 != 0),
{
}

proof fn lemma_both(a: u32, b: u32, allowed: u32)
    by (bit_vector)
    ensures
        (a | b) & !allowed == 0 <==> (a & !allowed == 0 && b & !allowed == 0),
        (a | b) & 4 != 0 <==> (a & 4 != 0 || b & 4 != 0),
        (a | b) & 8 != 0 <==> (a & 8 != 0 || b & 8 != 0),
        0u32 & !allowed == 0,
        0u32 & 4 == 0,
        0u32 & 8 == 0,
{
}

/// A single flag is in order just when its bit can be used.
pub proof fn single_flags_are_judged(kind: PreferredUiLanguageKind, k: u32)
    requires
        k < 32,
    ensures
        flags_ok(kind, 1u32 << k) == usable_bit(kind, k),
{
    lemma_bits(k);
}

/// Flags are in order together just when each is, and they do not ask for numbers and for names.
pub proof fn flags_are_judged_one_by_one(kind: PreferredUiLanguageKind, a: u32, b: u32)
    ensures
        flags_ok(kind, 0),
        flags_ok(kind, a | b) <==> flags_ok(kind, a) && flags_ok(kind, b) && !((a | b) & 4 != 0 && (
        a | b) & 8 != 0),
{
    lemma_both(a, b, super::allowed_flags(kind));
    lemma_both(a, b, 0);
}

/// The list holds the number or the name of English of the United States, and two zeros: the number
/// where it is asked for, or where a thread asks for neither.
pub proof fn lists_hold_english(kind: PreferredUiLanguageKind, flags: u32)
    ensures
        flags & 4 != 0 ==> language_list(kind, flags) == seq![0x30u16, 0x34, 0x30, 0x39, 0, 0],
        flags & 4 == 0 && flags & 8 != 0 ==> language_list(kind, flags) == seq![
            0x65u16,
            0x6e,
            0x2d,
            0x55,
            0x53,
            0,
            0,
        ],
        flags & 4 == 0 && flags & 8 == 0 ==> language_list(kind, flags) == (if kind
            == PreferredUiLanguageKind::Thread {
            seq![0x30u16, 0x34, 0x30, 0x39, 0, 0]
        } else {
            seq![0x65u16, 0x6e, 0x2d, 0x55, 0x53, 0, 0]
        }),
{
    reveal_strlit("0409");
    reveal_strlit("en-US");
    assert(wide("0409"@) + seq![0u16, 0] =~= seq![0x30u16, 0x34, 0x30, 0x39, 0, 0]);
    assert(wide("en-US"@) + seq![0u16, 0] =~= seq![0x65u16, 0x6e, 0x2d, 0x55, 0x53, 0, 0]);
    let _ = as_number(kind, flags);
}

} // verus!
