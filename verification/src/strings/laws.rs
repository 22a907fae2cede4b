//! What case mapping and hashing come to.

use vstd::arithmetic::power::pow;
use vstd::prelude::*;

use super::{fold_case, upcase, upcase_all, x65599};

verus! {

/// The `k`-th letter of the alphabet is mapped to the `k`-th capital.
pub proof fn letters_become_capitals(k: int)
    requires
        0 <= k < 26,
    ensures
        upcase("abcdefghijklmnopqrstuvwxyz"@[k] as u16) == "ABCDEFGHIJKLMNOPQRSTUVWXYZ"@[k] as u16,
        upcase("ABCDEFGHIJKLMNOPQRSTUVWXYZ"@[k] as u16) == "ABCDEFGHIJKLMNOPQRSTUVWXYZ"@[k] as u16,
{
    reveal_strlit("abcdefghijklmnopqrstuvwxyz");
    reveal_strlit("ABCDEFGHIJKLMNOPQRSTUVWXYZ");
}

/// The letters of Latin-1 stand in two rows of thirty-two: those of the second are mapped to those
/// of the first. The twenty-fourth of a row is a sign and the last of the second has its capital
/// elsewhere.
pub proof fn accented_letters_become_capitals(k: int)
    requires
        0 <= k < 32,
    ensures
        k != 23 && k != 31 ==> upcase((0xe0 + k) as u16) == 0xc0 + k,
        k == 23 ==> upcase((0xe0 + k) as u16) == 0xf7,
        k == 31 ==> upcase((0xe0 + k) as u16) == 0x178,
        upcase((0xc0 + k) as u16) == 0xc0 + k,
{
}

/// No two units that are mapped have the same capital, and everything else stays.
pub proof fn capitals_have_one_letter(a: u16, b: u16)
    ensures
        upcase(a) == upcase(b) && upcase(a) != a && upcase(b) != b ==> a == b,
        upcase(a) != a ==> 0x61 <= a <= 0x7a || 0xe0 <= a <= 0xff,
{
}

/// Names are equal without regard to case just when they have as many units and each two units have
/// the same capital.
pub proof fn folding_goes_unit_by_unit(a: Seq<u16>, b: Seq<u16>)
    ensures
        fold_case(a, true) == fold_case(b, true) <==> a.len() == b.len() && forall|i: int|
            0 <= i < a.len() ==> upcase(#[trigger] a[i]) == upcase(b[i]),
        fold_case(a, false) == a,
{
    if fold_case(a, true) == fold_case(b, true) {
        assert(upcase_all(a).len() == upcase_all(b).len());
        assert forall|i: int| 0 <= i < a.len() implies upcase(#[trigger] a[i]) == upcase(b[i]) by {
            assert(upcase_all(a)[i] == upcase_all(b)[i]);
        }
    }
    if a.len() == b.len() && forall|i: int|
        0 <= i < a.len() ==> upcase(#[trigger] a[i]) == upcase(b[i]) {
        assert(upcase_all(a) =~= upcase_all(b));
    }
}

/// The units of a name as the digits of a number to the base 65599, the highest first.
pub open spec fn weighed(w: Seq<u16>) -> int
    decreases w.len(),
{
    if w.len() == 0 {
        0
    } else {
        w[0] * pow(65599, (w.len() - 1) as nat) + weighed(w.skip(1))
    }
}

proof fn lemma_weighed(w: Seq<u16>)
    requires
        w.len() > 0,
    ensures
        weighed(w) == weighed(w.drop_last()) * 65599 + w.last(),
    decreases w.len(),
{
    reveal(pow);
    let front = w.drop_last();
    if w.len() == 1 {
        assert(w.skip(1) =~= Seq::<u16>::empty());
        assert(front =~= Seq::<u16>::empty());
        assert(pow(65599, 0) == 1);
    } else {
        lemma_weighed(w.skip(1));
        assert(w.skip(1).drop_last() =~= front.skip(1));
        let n = (w.len() - 2) as nat;
        assert(pow(65599, n + 1) == 65599 * pow(65599, n));
        let (d, p, r) = (w[0] as int, pow(65599, n), weighed(front.skip(1)));
        assert(d * (65599 * p) + r * 65599 == (d * p + r) * 65599) by (nonlinear_arith);
    }
}

/// The hash of a name is that number modulo 2^32.
pub proof fn hashes_are_weighed_sums(w: Seq<u16>)
    ensures
        x65599(w) == weighed(w) % 0x1_0000_0000,
    decreases w.len(),
{
    if w.len() > 0 {
        lemma_weighed(w);
        hashes_are_weighed_sums(w.drop_last());
        let a = weighed(w.drop_last());
        let m = 0x1_0000_0000int;
        let u = w.last() as int;
        vstd::arithmetic::div_mod::lemma_fundamental_div_mod(a, m);
        let q = a / m;
        assert((a % m) * 65599 + u == m * (-(q * 65599)) + (a * 65599 + u)) by (nonlinear_arith)
            requires
                a == m * q + a % m,
        ;
        vstd::arithmetic::div_mod::lemma_mod_multiples_vanish(-(q * 65599), a * 65599 + u, m);
    }
}

} // verus!
