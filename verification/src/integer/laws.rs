//! What digits, wrapping, division and shifts come to.

use vstd::prelude::*;

use super::{
    base_ok, digit, digit_value, digits, lemma_quotient_is_less, magnitude, number_text, quotient,
    remainder, shift_bits, unsigned, wrapped,
};

verus! {

/// The digit of a value is the character at that place of `0123456789ABCDEF`, and has the value.
pub proof fn digits_are_in_a_row(d: int)
    requires
        0 <= d < 16,
    ensures
        digit(d) == "0123456789ABCDEF"@[d] as int,
        digit_value("0123456789ABCDEF"@[d] as int) == d,
{
    reveal_strlit("0123456789ABCDEF");
}

/// Numbers are written to the bases two, eight, ten and sixteen.
pub proof fn four_bases_are_in_use(base: u32)
    ensures
        base_ok(base) <==> seq![2u32, 8, 10, 16].contains(base),
{
    let bases = seq![2u32, 8, 10, 16];
    assert(bases[0] == 2 && bases[1] == 8 && bases[2] == 10 && bases[3] == 16);
}

proof fn lemma_digits_begin(value: nat, base: nat)
    requires
        2 <= base <= 16,
        value > 0,
    ensures
        digits(value, base).len() > 0,
        digits(value, base)[0] != 0x30,
        forall|i: int|
            0 <= i < digits(value, base).len() ==> exists|d: int|
                0 <= d < base && #[trigger] digits(value, base)[i] == #[trigger] digit(d),
    decreases value,
{
    lemma_quotient_is_less(value, base);
    let front = digits(value / base, base);
    let d = (value % base) as int;
    assert(0 <= d < base) by (nonlinear_arith)
        requires
            d == value % base,
            base >= 2,
    ;
    assert(digits(value, base) == front.push(digit(d)));
    if value / base > 0 {
        lemma_digits_begin(value / base, base);
        assert(digits(value, base)[0] == front[0]);
    } else {
        assert(front =~= Seq::<int>::empty());
        assert(value % base == value) by (nonlinear_arith)
            requires
                value / base == 0,
                base >= 2,
        ;
    }
    assert forall|i: int| 0 <= i < digits(value, base).len() implies exists|e: int|
        0 <= e < base && #[trigger] digits(value, base)[i] == #[trigger] digit(e) by {
        if i < front.len() {
            assert(digits(value, base)[i] == front[i]);
            assert(value / base > 0);
            let e = choose|e: int| 0 <= e < base && front[i] == #[trigger] digit(e);
            assert(digits(value, base)[i] == digit(e));
        } else {
            assert(digits(value, base)[i] == digit(d));
        }
    }
}

/// A number is written with digits below the base only, and without zeros in front unless it is zero.
pub proof fn numbers_have_no_zeros_in_front(value: nat, base: nat)
    requires
        2 <= base <= 16,
    ensures
        number_text(value, base).len() > 0,
        number_text(value, base)[0] == 0x30 <==> value == 0,
        value == 0 ==> number_text(value, base).len() == 1,
        forall|i: int|
            0 <= i < number_text(value, base).len() ==> exists|d: int|
                0 <= d < base && #[trigger] number_text(value, base)[i] == #[trigger] digit(d),
{
    if value > 0 {
        lemma_digits_begin(value, base);
    } else {
        assert(number_text(value, base)[0] == digit(0));
    }
}

/// A wrapped number differs from the number by a multiple of 2^64; a number that fits is not changed.
pub proof fn wrapping_goes_round(v: int)
    ensures
        (wrapped(v) - v) % 0x1_0000_0000_0000_0000 == 0,
        i64::MIN <= v <= i64::MAX ==> wrapped(v) == v,
{
}

/// A division rounds towards zero: the quotient is not beyond the dividend, what is left has the sign
/// of the dividend, and together they make up the dividend.
pub proof fn divisions_round_to_zero(a: int, b: int)
    requires
        b != 0,
    ensures
        quotient(a, b) * b + remainder(a, b) == a,
        -magnitude(b) < remainder(a, b) < magnitude(b),
        a >= 0 ==> remainder(a, b) >= 0,
        a <= 0 ==> remainder(a, b) <= 0,
        magnitude(b) == b || magnitude(b) == -b,
        magnitude(b) > 0,
{
    super::division_is_whole(a, b);
    let (m, n) = (magnitude(a), magnitude(b));
    assert(m % n >= 0) by (nonlinear_arith)
        requires
            m >= 0,
            n > 0,
    ;
    if a == 0 {
        assert(0int % n == 0) by (nonlinear_arith)
            requires
                n > 0,
        ;
    }
}

/// A shift goes by the low six bits of its count.
pub proof fn shifts_go_by_six_bits(shift_count: i8)
    ensures
        shift_bits(shift_count) < 64,
        (shift_count - shift_bits(shift_count)) % 64 == 0,
{
}

/// The bits of a number, read as a number without a sign, wrap to the number.
pub proof fn unsigned_numbers_wrap_back(v: i64)
    ensures
        0 <= unsigned(v) < 0x1_0000_0000_0000_0000,
        wrapped(unsigned(v)) == v,
{
}

} // verus!
