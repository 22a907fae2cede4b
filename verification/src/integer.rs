//! Formatting and arithmetic of integers.

use vstd::arithmetic::power2::pow2;
use vstd::prelude::*;

use crate::bytes::{le16_bytes, le32, le32_bytes, lemma_le32_of};

pub mod laws;

verus! {

// ---------------------------------------------------------------------------------------------
// Text
// ---------------------------------------------------------------------------------------------

/// Whether numbers can be written in a base.
pub open spec fn base_ok(base: u32) -> bool {
    base == 2 || base == 8 || base == 10 || base == 16
}

/// The digit of a value below sixteen.
pub open spec fn digit(d: int) -> int {
    if d < 10 {
        0x30 + d
    } else {
        0x41 + d - 10
    }
}

/// The value of a digit.
pub open spec fn digit_value(c: int) -> int {
    if c < 0x41 {
        c - 0x30
    } else {
        c - 0x41 + 10
    }
}

/// The digits of a number, the highest first; none for zero.
pub open spec fn digits(value: nat, base: nat) -> Seq<int>
    decreases value,
{
    if value == 0 || base < 2 {
        Seq::empty()
    } else {
        proof {
            lemma_quotient_is_less(value, base);
        }
        digits(value / base, base).push(digit((value % base) as int))
    }
}

/// A quotient is less than the number that was divided.
pub proof fn lemma_quotient_is_less(value: nat, base: nat)
    requires
        value > 0,
        base >= 2,
    ensures
        value / base < value,
{
    vstd::arithmetic::div_mod::lemma_div_decreases(value as int, base as int);
}

/// The digits of a number, with one for zero.
pub open spec fn number_text(value: nat, base: nat) -> Seq<int> {
    if value == 0 {
        seq![0x30int]
    } else {
        digits(value, base)
    }
}

/// The value of digits.
pub open spec fn value_of(text: Seq<int>, base: nat) -> int
    decreases text.len(),
{
    if text.len() == 0 {
        0
    } else {
        value_of(text.drop_last(), base) * base + digit_value(text.last())
    }
}

/// The digits of a number have its value.
pub proof fn digits_have_the_value(value: nat, base: nat)
    requires
        2 <= base <= 16,
    ensures
        value_of(number_text(value, base), base) == value,
{
    if value == 0 {
        assert(seq![0x30int].drop_last() =~= Seq::empty());
        assert(value_of(Seq::<int>::empty(), base) * base == 0) by (nonlinear_arith)
            requires
                value_of(Seq::<int>::empty(), base) == 0,
        ;
    } else {
        lemma_digits_value(value, base);
    }
}

proof fn lemma_digits_value(value: nat, base: nat)
    requires
        2 <= base <= 16,
    ensures
        value_of(digits(value, base), base) == value,
    decreases value,
{
    if value > 0 {
        lemma_quotient_is_less(value, base);
        lemma_digits_value(value / base, base);
        let all = digits(value, base);
        assert(all.drop_last() =~= digits(value / base, base));
        vstd::arithmetic::div_mod::lemma_fundamental_div_mod(value as int, base as int);
        vstd::arithmetic::div_mod::lemma_mod_bound(value as int, base as int);
        assert(digit_value(all.last()) == value % base);
        assert((value / base) * base == base * (value / base)) by (nonlinear_arith);
    }
}

/// Bytes as numbers.
pub open spec fn byte_numbers(s: Seq<u8>) -> Seq<int> {
    s.map_values(|b: u8| b as int)
}

/// Code units as numbers.
pub open spec fn unit_numbers(s: Seq<u16>) -> Seq<int> {
    s.map_values(|u: u16| u as int)
}

fn unsigned_to_char(value: u64, base: u32) -> (r: Option<Vec<u8>>)
    ensures
        match r {
            Some(text) => base_ok(base) && byte_numbers(text@) == number_text(
                value as nat,
                base as nat,
            ),
            None => !base_ok(base),
        },
{
    if base != 2 && base != 8 && base != 10 && base != 16 {
        return None;
    }
    let mut low_first: Vec<u8> = Vec::new();
    let mut v: u64 = value;
    let b: u64 = base as u64;
    let ghost text = digits(value as nat, b as nat);
    let ghost mut tail: Seq<int> = Seq::empty();
    assert(digits(v as nat, b as nat) + tail =~= text);
    while v > 0
        invariant
            b == 2 || b == 8 || b == 10 || b == 16,
            text == digits(v as nat, b as nat) + tail,
            tail.len() == low_first@.len(),
            forall|j: int|
                0 <= j < tail.len() ==> tail[j] == (#[trigger] low_first@[tail.len() - 1 - j]) as int,
        decreases v,
    {
        let d: u8 = (v % b) as u8;
        let c: u8 = if d < 10 {
            0x30 + d
        } else {
            0x41 + (d - 10)
        };
        proof {
            lemma_quotient_is_less(v as nat, b as nat);
            let next = seq![c as int] + tail;
            assert(digits(v as nat, b as nat) + tail =~= digits((v / b) as nat, b as nat) + next);
            assert forall|j: int| 0 <= j < next.len() implies next[j] == (
            #[trigger] low_first@.push(c)[next.len() - 1 - j]) as int by {
                if j > 0 {
                    assert(next[j] == tail[j - 1]);
                    assert(low_first@.push(c)[next.len() - 1 - j] == low_first@[tail.len() - 1 - (j
                        - 1)]);
                }
            }
            tail = next;
        }
        low_first.push(c);
        v = v / b;
    }
    let mut out: Vec<u8> = Vec::new();
    if value == 0 {
        out.push(0x30);
        assert(byte_numbers(out@) =~= seq![0x30int]);
        return Some(out);
    }
    let mut i: usize = low_first.len();
    assert(text =~= tail);
    while i > 0
        invariant
            i <= low_first@.len(),
            out@.len() == low_first@.len() - i,
            forall|j: int|
                0 <= j < out@.len() ==> #[trigger] out@[j] == low_first@[low_first@.len() - 1 - j],
        decreases i,
    {
        i -= 1;
        out.push(low_first[i]);
    }
    assert(byte_numbers(out@) =~= tail) by {
        assert forall|j: int| 0 <= j < tail.len() implies byte_numbers(out@)[j] == tail[j] by {
            assert(out@[j] == low_first@[low_first@.len() - 1 - j]);
            let _ = low_first@[tail.len() - 1 - j];
        }
    }
    Some(out)
}

/// A number as text.
pub fn integer_to_char(value: u32, base: u32) -> (r: Option<Vec<u8>>)
    ensures
        match r {
            Some(text) => base_ok(base) && byte_numbers(text@) == number_text(
                value as nat,
                base as nat,
            ),
            None => !base_ok(base),
        },
{
    unsigned_to_char(value as u64, base)
}

/// A number as text.
pub fn large_integer_to_char(value: u64, base: u32) -> (r: Option<Vec<u8>>)
    ensures
        match r {
            Some(text) => base_ok(base) && byte_numbers(text@) == number_text(
                value as nat,
                base as nat,
            ),
            None => !base_ok(base),
        },
{
    unsigned_to_char(value, base)
}

/// A number as UTF-16 text.
pub fn int64_to_unicode(value: u64, base: u32) -> (r: Option<Vec<u16>>)
    ensures
        match r {
            Some(text) => base_ok(base) && unit_numbers(text@) == number_text(
                value as nat,
                base as nat,
            ),
            None => !base_ok(base),
        },
{
    match unsigned_to_char(value, base) {
        Some(text) => {
            let out: Vec<u16> = widen(text.as_slice());
            assert(unit_numbers(out@) =~= byte_numbers(text@));
            Some(out)
        },
        None => None,
    }
}

/// Bytes as code units.
pub open spec fn widened(s: Seq<u8>) -> Seq<u16> {
    s.map_values(|b: u8| b as u16)
}

fn widen(s: &[u8]) -> (out: Vec<u16>)
    ensures
        out@ == widened(s@),
{
    let mut out: Vec<u16> = Vec::new();
    let mut i: usize = 0;
    while i < s.len()
        invariant
            i <= s@.len(),
            out@ == widened(s@).take(i as int),
        decreases s@.len() - i,
    {
        out.push(s[i] as u16);
        i += 1;
        assert(out@ =~= widened(s@).take(i as int));
    }
    assert(out@ =~= widened(s@));
    out
}

/// Read a number: by `parse`, which reads one from code units.
pub fn char_to_integer<F: FnOnce(&[u16], u32) -> Option<u32>>(s: &[u8], base: u32, parse: F) -> (r:
    Option<u32>)
    requires
        forall|w: &[u16]| #[trigger] w@ == widened(s@) ==> call_requires(parse, (w, base)),
    ensures
        exists|w: &[u16]| #[trigger] w@ == widened(s@) && call_ensures(parse, (w, base), r),
{
    let wide: Vec<u16> = widen(s);
    let w: &[u16] = wide.as_slice();
    assert(w@ == widened(s@));
    let r: Option<u32> = parse(w, base);
    r
}

// ---------------------------------------------------------------------------------------------
// Byte order
// ---------------------------------------------------------------------------------------------

/// The eight bytes of a 64-bit value, low byte first.
pub open spec fn le64_bytes(v: u64) -> Seq<u8> {
    le32_bytes((v % 0x1_0000_0000) as u32) + le32_bytes((v / 0x1_0000_0000) as u32)
}

/// The bytes of a value in the other order.
pub fn ushort_byte_swap(value: u16) -> (r: u16)
    ensures
        le16_bytes(r) == le16_bytes(value).reverse(),
{
    let r: u16 = value % 0x100 * 0x100 + value / 0x100;
    assert(le16_bytes(r) =~= le16_bytes(value).reverse());
    r
}

proof fn lemma_swapped(r: u32, bytes: Seq<u8>)
    requires
        bytes.len() == 4,
        r == bytes[0] + 0x100 * bytes[1] + 0x1_0000 * bytes[2] + 0x100_0000 * bytes[3],
    ensures
        le32_bytes(r) == bytes,
{
    reveal(le32);
    lemma_le32_of(bytes, 0);
    assert(bytes.subrange(0, 4) =~= bytes);
}

/// The bytes of a value in the other order.
pub fn ulong_byte_swap(value: u32) -> (r: u32)
    ensures
        le32_bytes(r) == le32_bytes(value).reverse(),
{
    let (a, b, c, d): (u32, u32, u32, u32) = (
        value % 0x100,
        value / 0x100 % 0x100,
        value / 0x1_0000 % 0x100,
        value / 0x100_0000,
    );
    let r: u32 = d + 0x100 * c + 0x1_0000 * b + 0x100_0000 * a;
    proof {
        let bytes = seq![d as u8, c as u8, b as u8, a as u8];
        lemma_swapped(r, bytes);
        assert(le32_bytes(value).reverse() =~= bytes);
    }
    r
}

proof fn lemma_reversed_halves(a: Seq<u8>, b: Seq<u8>)
    ensures
        (a + b).reverse() == b.reverse() + a.reverse(),
{
    assert((a + b).reverse() =~= b.reverse() + a.reverse());
}

proof fn lemma_halves(v: u64, low: u32, high: u32)
    requires
        v == low + 0x1_0000_0000 * high,
    ensures
        le64_bytes(v) == le32_bytes(low) + le32_bytes(high),
{
    assert(v % 0x1_0000_0000 == low && v / 0x1_0000_0000 == high);
}

/// The bytes of a value in the other order.
pub fn ulonglong_byte_swap(value: u64) -> (r: u64)
    ensures
        le64_bytes(r) == le64_bytes(value).reverse(),
{
    let low: u32 = (value % 0x1_0000_0000) as u32;
    let high: u32 = (value / 0x1_0000_0000) as u32;
    let new_high: u32 = ulong_byte_swap(low);
    let new_low: u32 = ulong_byte_swap(high);
    let r: u64 = new_low as u64 + 0x1_0000_0000 * new_high as u64;
    proof {
        lemma_halves(r, new_low, new_high);
        lemma_reversed_halves(le32_bytes(low), le32_bytes(high));
    }
    r
}

// ---------------------------------------------------------------------------------------------
// Arithmetic
// ---------------------------------------------------------------------------------------------

/// A number as a signed 64-bit value, which wraps around.
pub open spec fn wrapped(v: int) -> i64 {
    let m = v % 0x1_0000_0000_0000_0000;
    if m >= 0x8000_0000_0000_0000 {
        (m - 0x1_0000_0000_0000_0000) as i64
    } else {
        m as i64
    }
}

/// The absolute value of a number.
pub open spec fn magnitude(v: int) -> int {
    if v < 0 {
        -v
    } else {
        v
    }
}

/// A quotient, rounded towards zero.
pub open spec fn quotient(a: int, b: int) -> int {
    if (a < 0) == (b < 0) {
        magnitude(a) / magnitude(b)
    } else {
        -(magnitude(a) / magnitude(b))
    }
}

/// What is left of a division: it has the sign of the dividend.
pub open spec fn remainder(a: int, b: int) -> int {
    if a < 0 {
        -(magnitude(a) % magnitude(b))
    } else {
        magnitude(a) % magnitude(b)
    }
}

/// A quotient and a remainder make up the dividend.
pub proof fn division_is_whole(a: int, b: int)
    requires
        b != 0,
    ensures
        quotient(a, b) * b + remainder(a, b) == a,
        magnitude(remainder(a, b)) < magnitude(b),
{
    let (m, n) = (magnitude(a), magnitude(b));
    vstd::arithmetic::div_mod::lemma_fundamental_div_mod(m, n);
    vstd::arithmetic::div_mod::lemma_mod_bound(m, n);
    let q = m / n;
    assert(n * q == q * n) by (nonlinear_arith);
    assert((-q) * b == q * (-b)) by (nonlinear_arith);
    assert((-q) * b == -(q * b)) by (nonlinear_arith);
}

/// A sum, which wraps around.
pub fn large_integer_add(a: i64, b: i64) -> (r: i64)
    ensures
        r == wrapped(a + b),
{
    a.wrapping_add(b)
}

/// A difference, which wraps around.
pub fn large_integer_subtract(a: i64, b: i64) -> (r: i64)
    ensures
        r == wrapped(a - b),
{
    a.wrapping_sub(b)
}

/// The absolute value of a number.
fn magnitude_of(v: i64) -> (m: u64)
    ensures
        m == magnitude(v as int),
{
    if v < 0 {
        (-(v as i128)) as u64
    } else {
        v as u64
    }
}

/// A number of a given sign, which wraps around.
fn with_sign(m: u64, negative: bool) -> (r: i64)
    requires
        m <= 0x8000_0000_0000_0000,
    ensures
        r == wrapped(
            if negative {
                -m
            } else {
                m as int
            },
        ),
{
    if negative {
        (-(m as i128)) as i64
    } else if m == 0x8000_0000_0000_0000 {
        i64::MIN
    } else {
        m as i64
    }
}

/// A quotient and what is left. The one quotient that is too large wraps around.
pub fn large_integer_divide(dividend: i64, divisor: i64) -> (r: Option<(i64, i64)>)
    ensures
        r == if divisor == 0 {
            None
        } else {
            Some(
                (
                    wrapped(quotient(dividend as int, divisor as int)),
                    remainder(dividend as int, divisor as int) as i64,
                ),
            )
        },
{
    if divisor == 0 {
        return None;
    }
    let m: u64 = magnitude_of(dividend);
    let n: u64 = magnitude_of(divisor);
    let q: u64 = m / n;
    let rest: u64 = m % n;
    proof {
        vstd::arithmetic::div_mod::lemma_div_is_ordered_by_denominator(m as int, 1, n as int);
        vstd::arithmetic::div_mod::lemma_div_basics(m as int);
        vstd::arithmetic::div_mod::lemma_mod_decreases(m as nat, n as nat);
    }
    let signed: i64 = with_sign(q, (dividend < 0) != (divisor < 0));
    let left: i64 = with_sign(rest, dividend < 0);
    assert(rest < 0x8000_0000_0000_0000) by {
        vstd::arithmetic::div_mod::lemma_mod_bound(m as int, n as int);
    }
    Some((signed, left))
}

/// The bits that a shift moves by: its count modulo the width.
pub open spec fn shift_bits(shift_count: i8) -> u32 {
    (shift_count as int % 64) as u32
}

fn large_integer_shift_count(shift_count: i8) -> (bits: u32)
    ensures
        bits == shift_bits(shift_count),
        bits < 64,
{
    let positive: u32 = (shift_count as i32 + 128) as u32;
    positive % 64
}

/// Shift bits to the left.
pub fn large_integer_shift_left(value: i64, shift_count: i8) -> (r: i64)
    ensures
        r == ((value as u64) << shift_bits(shift_count)) as i64,
{
    ((value as u64) << large_integer_shift_count(shift_count)) as i64
}

/// Shift bits to the right; zeros come in.
pub fn large_integer_shift_right(value: i64, shift_count: i8) -> (r: i64)
    ensures
        r == ((value as u64) >> shift_bits(shift_count)) as i64,
{
    ((value as u64) >> large_integer_shift_count(shift_count)) as i64
}

/// Shift bits to the right; copies of the sign come in.
pub fn large_integer_arithmetic_shift(value: i64, shift_count: i8) -> (r: i64)
    ensures
        r == value >> shift_bits(shift_count),
{
    value >> large_integer_shift_count(shift_count)
}

/// The product of two signed numbers.
pub fn enlarged_integer_multiply(a: i32, b: i32) -> (r: i64)
    ensures
        r == a * b,
{
    proof {
        assert(-0x4000_0000_0000_0000 <= a * b <= 0x4000_0000_0000_0000) by (nonlinear_arith)
            requires
                -0x8000_0000 <= a <= 0x7fff_ffff,
                -0x8000_0000 <= b <= 0x7fff_ffff,
        ;
    }
    a as i64 * b as i64
}

/// The product of two numbers.
pub fn enlarged_unsigned_multiply(a: u32, b: u32) -> (r: u64)
    ensures
        r == a * b,
{
    proof {
        assert(0 <= a * b <= 0xffff_ffff * 0xffff_ffff) by (nonlinear_arith)
            requires
                0 <= a <= 0xffff_ffff,
                0 <= b <= 0xffff_ffff,
        ;
    }
    a as u64 * b as u64
}

/// The low half of a quotient, and what is left.
pub fn enlarged_unsigned_divide(dividend: u64, divisor: u32) -> (r: Option<(u32, u32)>)
    ensures
        r == if divisor == 0 {
            None
        } else {
            Some(
                (
                    (dividend as int / divisor as int % 0x1_0000_0000) as u32,
                    (dividend as int % divisor as int) as u32,
                ),
            )
        },
{
    if divisor == 0 {
        return None;
    }
    let q: u64 = dividend / divisor as u64;
    let rest: u64 = dividend % divisor as u64;
    proof {
        vstd::arithmetic::div_mod::lemma_mod_bound(dividend as int, divisor as int);
    }
    Some(((q % 0x1_0000_0000) as u32, rest as u32))
}

/// A product, which wraps around.
pub fn extended_integer_multiply(a: i64, b: i32) -> (r: i64)
    ensures
        r == wrapped(a * b),
{
    a.wrapping_mul(b as i64)
}

/// A quotient, and the low half of what is left.
pub fn extended_large_integer_divide(dividend: i64, divisor: u32) -> (r: Option<(i64, u32)>)
    ensures
        r == if divisor == 0 {
            None
        } else {
            Some(
                (
                    quotient(dividend as int, divisor as int) as i64,
                    (remainder(dividend as int, divisor as int) % 0x1_0000_0000) as u32,
                ),
            )
        },
{
    if divisor == 0 {
        return None;
    }
    let m: u64 = magnitude_of(dividend);
    let q: u64 = m / divisor as u64;
    let rest: u64 = m % divisor as u64;
    proof {
        vstd::arithmetic::div_mod::lemma_mod_bound(m as int, divisor as int);
        vstd::arithmetic::div_mod::lemma_div_is_ordered_by_denominator(m as int, 1, divisor as int);
        vstd::arithmetic::div_mod::lemma_div_basics(m as int);
    }
    let signed: i64 = if dividend < 0 {
        (-(q as i128)) as i64
    } else {
        q as i64
    };
    let left: u32 = if dividend < 0 && rest > 0 {
        (0x1_0000_0000 - rest) as u32
    } else {
        rest as u32
    };
    Some((signed, left))
}

/// A signed value as an unsigned one of the same bits.
pub open spec fn unsigned(v: i64) -> int {
    if v < 0 {
        v + 0x1_0000_0000_0000_0000
    } else {
        v as int
    }
}

/// Divide by multiplying: the product with the magic divisor, without its low sixty-four bits and
/// those that the shift takes away. The sign of the dividend is applied afterwards.
pub fn extended_magic_divide(dividend: i64, magic_divisor: i64, shift_count: i8) -> (r: i64)
    ensures
        ({
            let q = magnitude(dividend as int) * unsigned(magic_divisor) / pow2(
                (64 + shift_bits(shift_count)) as nat,
            ) as int;
            r == if dividend >= 0 {
                q
            } else {
                -q
            }
        }),
{
    let m: u128 = magnitude_of(dividend) as u128;
    let magic: u128 = if magic_divisor < 0 {
        (magic_divisor as i128 + 0x1_0000_0000_0000_0000) as u128
    } else {
        magic_divisor as u128
    };
    let shift: u32 = 64 + large_integer_shift_count(shift_count);
    proof {
        assert(0 <= m * magic < 0x8000_0000_0000_0000 * 0x1_0000_0000_0000_0000) by (nonlinear_arith)
            requires
                0 <= m <= 0x8000_0000_0000_0000,
                0 <= magic < 0x1_0000_0000_0000_0000,
        ;
    }
    let product: u128 = m * magic;
    let q: u128 = product >> shift;
    proof {
        vstd::bits::lemma_u128_shr_is_div(product, shift as u128);
        vstd::arithmetic::power2::lemma_pow2_adds(64, (shift - 64) as nat);
        vstd::arithmetic::power2::lemma2_to64();
        vstd::arithmetic::power2::lemma_pow2_pos((shift - 64) as nat);
        assert(pow2(shift as nat) >= 0x1_0000_0000_0000_0000) by (nonlinear_arith)
            requires
                pow2(shift as nat) == pow2(64) * pow2((shift - 64) as nat),
                pow2(64) == 0x1_0000_0000_0000_0000,
                pow2((shift - 64) as nat) >= 1,
        ;
        vstd::arithmetic::div_mod::lemma_div_is_ordered_by_denominator(
            product as int,
            0x1_0000_0000_0000_0000,
            pow2(shift as nat) as int,
        );
        assert(product as int / 0x1_0000_0000_0000_0000 < 0x8000_0000_0000_0000);
        vstd::arithmetic::div_mod::lemma_div_pos_is_pos(product as int, pow2(shift as nat) as int);
    }
    let signed: i64 = q as i64;
    if dividend >= 0 {
        signed
    } else {
        -signed
    }
}

} // verus!
