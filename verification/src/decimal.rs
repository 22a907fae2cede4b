//! Decimal text of small numbers and of four-part versions.

use vstd::prelude::*;

verus! {

/// The decimal digits of `v`, without leading zeros.
pub open spec fn decimal(v: int) -> Seq<u16>
    decreases v,
{
    if v < 10 {
        seq![(0x30 + v) as u16]
    } else {
        decimal(v / 10).push((0x30 + v % 10) as u16)
    }
}

/// Whether a unit is a decimal digit.
pub open spec fn is_digit(unit: u16) -> bool {
    0x30 <= unit <= 0x39
}

/// Whether every unit is a decimal digit.
pub open spec fn all_digits(w: Seq<u16>) -> bool {
    forall|i: int| 0 <= i < w.len() ==> is_digit(#[trigger] w[i])
}

/// The number written by a run of digits.
pub open spec fn digits_value(w: Seq<u16>) -> int
    decreases w.len(),
{
    if w.len() == 0 {
        0
    } else {
        digits_value(w.drop_last()) * 10 + (w.last() - 0x30)
    }
}

/// The text `a.b.c.d` of a version.
pub open spec fn version_text(a: int, b: int, c: int, d: int) -> Seq<u16> {
    decimal(a) + seq![0x2eu16] + decimal(b) + seq![0x2eu16] + decimal(c) + seq![0x2eu16]
        + decimal(d)
}

/// Whether `w` is the text of a version with 16-bit parts.
pub open spec fn is_version(w: Seq<u16>) -> bool {
    exists|a: u16, b: u16, c: u16, d: u16|
        #[trigger] version_text(a as int, b as int, c as int, d as int) == w
}

/// Decimal text is made of digits, has no leading zero, and is read back.
pub proof fn decimal_round_trip(v: int)
    requires
        0 <= v,
    ensures
        all_digits(decimal(v)),
        decimal(v).len() > 0,
        decimal(v).len() > 1 ==> decimal(v)[0] != 0x30,
        digits_value(decimal(v)) == v,
        v > 0 ==> decimal(v)[0] != 0x30,
    decreases v,
{
    if v >= 10 {
        decimal_round_trip(v / 10);
        assert(decimal(v).drop_last() =~= decimal(v / 10));
        assert(decimal(v)[0] == decimal(v / 10)[0]);
    } else {
        reveal_with_fuel(digits_value, 2);
        assert(decimal(v).drop_last() =~= Seq::empty());
    }
}

/// A run of digits is at least zero, and positive when it starts with another digit than zero.
proof fn lemma_digits_value_bounds(w: Seq<u16>)
    requires
        all_digits(w),
    ensures
        0 <= digits_value(w),
        w.len() > 0 && w[0] != 0x30 ==> 0 < digits_value(w),
    decreases w.len(),
{
    if w.len() > 0 {
        assert(is_digit(w.last()));
        let front = w.drop_last();
        assert forall|i: int| 0 <= i < front.len() implies is_digit(#[trigger] front[i]) by {
            assert(is_digit(w[i]));
        }
        lemma_digits_value_bounds(front);
    }
}

/// Digits without a leading zero are the decimal text of their value.
pub proof fn canonical_digits(w: Seq<u16>)
    requires
        all_digits(w),
        w.len() > 0,
        w.len() > 1 ==> w[0] != 0x30,
    ensures
        decimal(digits_value(w)) == w,
    decreases w.len(),
{
    let front = w.drop_last();
    assert(is_digit(w[w.len() - 1]));
    if w.len() == 1 {
        assert(digits_value(front) == 0);
        assert(decimal(digits_value(w)) =~= w);
    } else {
        assert forall|i: int| 0 <= i < front.len() implies is_digit(#[trigger] front[i]) by {
            assert(is_digit(w[i]));
        }
        canonical_digits(front);
        lemma_digits_value_bounds(front);
        assert(decimal(digits_value(w)) =~= w);
    }
}

/// A longer run of digits has a value at least as large.
pub proof fn lemma_digits_value_grows(w: Seq<u16>, k: int)
    requires
        all_digits(w),
        0 <= k <= w.len(),
    ensures
        digits_value(w.take(k)) <= digits_value(w),
    decreases w.len(),
{
    if k < w.len() {
        let front = w.drop_last();
        assert forall|i: int| 0 <= i < front.len() implies is_digit(#[trigger] front[i]) by {
            assert(is_digit(w[i]));
        }
        lemma_digits_value_grows(front, k);
        lemma_digits_value_bounds(front);
        assert(front.take(k) =~= w.take(k));
        assert(is_digit(w[w.len() - 1]));
    } else {
        assert(w.take(k) =~= w);
    }
}

/// The number of decimal digits of `value`.
pub fn decimal_u16_digits(value: u16) -> (digits: usize)
    ensures
        digits == decimal(value as int).len(),
        1 <= digits <= 5,
{
    reveal_with_fuel(decimal, 6);
    if value < 10 {
        1
    } else if value < 100 {
        2
    } else if value < 1000 {
        3
    } else if value < 10000 {
        4
    } else {
        5
    }
}

/// Append the decimal text of `value`.
pub fn push_decimal_u16(output: &mut Vec<u16>, value: u16)
    ensures
        final(output)@ == old(output)@ + decimal(value as int),
    decreases value,
{
    if value < 10 {
        output.push(0x30 + value);
    } else {
        push_decimal_u16(output, value / 10);
        output.push(0x30 + value % 10);
    }
    assert(output@ =~= old(output)@ + decimal(value as int));
}

/// How long the run of digits at the start of `w[at..]` is.
pub open spec fn digit_run(w: Seq<u16>, at: int) -> int
    decreases w.len() - at,
{
    if 0 <= at < w.len() && is_digit(w[at]) {
        1 + digit_run(w, at + 1)
    } else {
        0
    }
}

proof fn lemma_digit_run(w: Seq<u16>, at: int)
    requires
        0 <= at <= w.len(),
    ensures
        0 <= digit_run(w, at) <= w.len() - at,
        all_digits(w.subrange(at, at + digit_run(w, at))),
        at + digit_run(w, at) < w.len() ==> !is_digit(w[at + digit_run(w, at)]),
    decreases w.len() - at,
{
    if at < w.len() && is_digit(w[at]) {
        lemma_digit_run(w, at + 1);
        let run = w.subrange(at, at + digit_run(w, at));
        let rest = w.subrange(at + 1, at + 1 + digit_run(w, at + 1));
        assert forall|i: int| 0 <= i < run.len() implies is_digit(#[trigger] run[i]) by {
            if i > 0 {
                assert(is_digit(rest[i - 1]));
            }
        }
    }
}

proof fn lemma_digit_run_exact(w: Seq<u16>, at: int, n: int)
    requires
        0 <= at,
        0 <= n,
        at + n <= w.len(),
        all_digits(w.subrange(at, at + n)),
        at + n < w.len() ==> !is_digit(w[at + n]),
    ensures
        digit_run(w, at) == n,
    decreases n,
{
    if n > 0 {
        assert(is_digit(w.subrange(at, at + n)[0]));
        let rest = w.subrange(at + 1, at + n);
        assert forall|i: int| 0 <= i < rest.len() implies is_digit(#[trigger] rest[i]) by {
            assert(is_digit(w.subrange(at, at + n)[i + 1]));
        }
        lemma_digit_run_exact(w, at + 1, n - 1);
    }
}

/// The canonical 16-bit number written at `at`, with the place behind it.
pub open spec fn number_at(w: Seq<u16>, at: int) -> Option<(u16, int)> {
    let end = at + digit_run(w, at);
    let run = w.subrange(at, end);
    if run.len() == 0 || (run.len() > 1 && run[0] == 0x30) || digits_value(run) > u16::MAX {
        None
    } else {
        Some((digits_value(run) as u16, end))
    }
}

proof fn lemma_number_at(w: Seq<u16>, at: int, v: u16)
    requires
        0 <= at,
        at + decimal(v as int).len() <= w.len(),
        w.subrange(at, at + decimal(v as int).len()) == decimal(v as int),
        at + decimal(v as int).len() < w.len() ==> !is_digit(w[at + decimal(v as int).len()]),
    ensures
        number_at(w, at) == Some((v, at + decimal(v as int).len() as int)),
{
    decimal_round_trip(v as int);
    lemma_digit_run_exact(w, at, decimal(v as int).len() as int);
}

proof fn lemma_number_at_text(w: Seq<u16>, at: int)
    requires
        0 <= at <= w.len(),
        number_at(w, at) is Some,
    ensures
        number_at(w, at) matches Some((v, end)) && at < end <= w.len() && w.subrange(at, end)
            == decimal(v as int),
{
    lemma_digit_run(w, at);
    let run = w.subrange(at, at + digit_run(w, at));
    canonical_digits(run);
    lemma_digits_value_bounds(run);
}

/// Read the canonical 16-bit number at `at`.
fn parse_number(w: &[u16], at: usize) -> (r: Option<(u16, usize)>)
    requires
        at <= w@.len(),
    ensures
        match r {
            Some((v, end)) => number_at(w@, at as int) == Some((v, end as int)),
            None => number_at(w@, at as int) is None,
        },
{
    let mut end: usize = at;
    let mut value: u32 = 0;
    let ghost stop = at + digit_run(w@, at as int);
    proof {
        lemma_digit_run(w@, at as int);
    }
    assert(w@.subrange(at as int, at as int) =~= Seq::empty());
    while end < w.len() && 0x30 <= w[end] && w[end] <= 0x39
        invariant
            at <= end <= stop <= w@.len(),
            stop == end + digit_run(w@, end as int),
            all_digits(w@.subrange(at as int, stop)),
            value <= 0x1_0000,
            value == if digits_value(w@.subrange(at as int, end as int)) > u16::MAX {
                0x1_0000
            } else {
                digits_value(w@.subrange(at as int, end as int))
            },
        decreases w@.len() - end,
    {
        proof {
            let now = w@.subrange(at as int, end as int);
            let next = w@.subrange(at as int, end + 1);
            assert(next.drop_last() =~= now);
            assert forall|i: int| 0 <= i < now.len() implies is_digit(#[trigger] now[i]) by {
                assert(now[i] == w@.subrange(at as int, stop)[i]);
            }
            lemma_digits_value_bounds(now);
            lemma_digit_run(w@, end + 1);
        }
        let next: u32 = value * 10 + (w[end] - 0x30) as u32;
        value = if next > 0xffff {
            0x1_0000
        } else {
            next
        };
        end += 1;
    }
    assert(end == stop);
    if end == at || value > 0xffff || (end - at > 1 && w[at] == 0x30) {
        return None;
    }
    Some((value as u16, end))
}

/// Whether `w` is the text of a version with 16-bit parts.
pub fn parse_canonical_version(w: &[u16]) -> (ok: bool)
    ensures
        ok == is_version(w@),
{
    let ghost s = w@;
    proof {
        assert forall|a: u16, b: u16, c: u16, d: u16|
            #[trigger] version_text(a as int, b as int, c as int, d as int) == s implies {
            let ea = decimal(a as int).len() as int;
            let eb = ea + 1 + decimal(b as int).len() as int;
            let ec = eb + 1 + decimal(c as int).len() as int;
            let ed = ec + 1 + decimal(d as int).len() as int;
            &&& number_at(s, 0) == Some((a, ea))
            &&& number_at(s, ea + 1) == Some((b, eb))
            &&& number_at(s, eb + 1) == Some((c, ec))
            &&& number_at(s, ec + 1) == Some((d, ed))
            &&& s[ea] == 0x2e && s[eb] == 0x2e && s[ec] == 0x2e
            &&& ed == s.len()
        } by {
            let ea = decimal(a as int).len() as int;
            let eb = ea + 1 + decimal(b as int).len() as int;
            let ec = eb + 1 + decimal(c as int).len() as int;
            let ed = ec + 1 + decimal(d as int).len() as int;
            assert(s.subrange(0, ea) =~= decimal(a as int));
            assert(s.subrange(ea + 1, eb) =~= decimal(b as int));
            assert(s.subrange(eb + 1, ec) =~= decimal(c as int));
            assert(s.subrange(ec + 1, ed) =~= decimal(d as int));
            lemma_number_at(s, 0, a);
            lemma_number_at(s, ea + 1, b);
            lemma_number_at(s, eb + 1, c);
            lemma_number_at(s, ec + 1, d);
        }
    }
    let (a, ea) = match parse_number(w, 0) {
        Some(r) => r,
        None => return false,
    };
    proof {
        lemma_number_at_text(s, 0);
    }
    if ea >= w.len() || w[ea] != 0x2e {
        return false;
    }
    let (b, eb) = match parse_number(w, ea + 1) {
        Some(r) => r,
        None => return false,
    };
    proof {
        lemma_number_at_text(s, ea + 1);
    }
    if eb >= w.len() || w[eb] != 0x2e {
        return false;
    }
    let (c, ec) = match parse_number(w, eb + 1) {
        Some(r) => r,
        None => return false,
    };
    proof {
        lemma_number_at_text(s, eb + 1);
    }
    if ec >= w.len() || w[ec] != 0x2e {
        return false;
    }
    let (d, ed) = match parse_number(w, ec + 1) {
        Some(r) => r,
        None => return false,
    };
    proof {
        lemma_number_at_text(s, ec + 1);
        if ed == s.len() {
            assert(version_text(a as int, b as int, c as int, d as int) =~= s) by {
                assert(s =~= s.subrange(0, ea as int) + seq![s[ea as int]] + s.subrange(
                    ea + 1,
                    eb as int,
                ) + seq![s[eb as int]] + s.subrange(eb + 1, ec as int) + seq![s[ec as int]]
                    + s.subrange(ec + 1, ed as int));
            }
        }
    }
    ed == w.len()
}

/// The number written by digits, where it is at most `limit`.
pub fn parse_digits(w: &[u16], limit: u32) -> (r: Option<u32>)
    ensures
        match r {
            Some(v) => all_digits(w@) && digits_value(w@) == v && v <= limit,
            None => !all_digits(w@) || digits_value(w@) > limit,
        },
{
    let mut value: u64 = 0;
    let mut i: usize = 0;
    while i < w.len()
        invariant
            i <= w@.len(),
            all_digits(w@.take(i as int)),
            value == digits_value(w@.take(i as int)),
            value <= limit,
        decreases w@.len() - i,
    {
        assert(w@.take(i + 1).drop_last() =~= w@.take(i as int));
        if w[i] < 0x30 || w[i] > 0x39 {
            assert(!is_digit(w@[i as int]));
            return None;
        }
        proof {
            assert forall|j: int| 0 <= j < i + 1 implies is_digit(#[trigger] w@.take(i + 1)[j]) by {
                if j < i {
                    assert(is_digit(w@.take(i as int)[j]));
                }
            }
        }
        value = value * 10 + (w[i] - 0x30) as u64;
        i += 1;
        if value > limit as u64 {
            proof {
                if all_digits(w@) {
                    lemma_digits_value_grows(w@, i as int);
                }
            }
            return None;
        }
    }
    assert(w@.take(i as int) =~= w@);
    Some(value as u32)
}

} // verus!
