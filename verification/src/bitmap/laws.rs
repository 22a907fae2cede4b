//! What searches and counts in a bitmap come to.

use vstd::prelude::*;

use super::{
    bit_count, clear_runs, collected, fitting_run, found, keep_larger, last_bit, lemma_first_bit,
    lemma_smallest, longest_run, range_is, run_before, run_from, smallest_run, BitmapRun,
};

verus! {

/// A search gives the first place from `from` on at which the bits fit. It finds nothing only where
/// they fit nowhere.
pub proof fn first_fits_are_found(bits: Seq<bool>, value: bool, count: int, from: int)
    requires
        0 <= from <= bits.len(),
        count > 0,
    ensures
        match fitting_run(bits, value, count, from) {
            Some(at) => from <= at && range_is(bits, at, count, value) && forall|s: int|
                from <= s < at ==> !(#[trigger] range_is(bits, s, count, value)),
            None => forall|s: int| from <= s ==> !(#[trigger] range_is(bits, s, count, value)),
        },
    decreases bits.len() - from,
{
    lemma_first_bit(bits, value, from);
    let (start, end) = run_from(bits, value, from);
    lemma_first_bit(bits, !value, start);
    if start >= bits.len() {
        assert forall|s: int| from <= s implies !(#[trigger] range_is(bits, s, count, value)) by {
            if s < bits.len() {
                assert(bits[s] != value);
            }
        }
    } else {
        assert(start < end);
        assert forall|s: int| from <= s < start implies !(#[trigger] range_is(
            bits,
            s,
            count,
            value,
        )) by {
            assert(bits[s] != value);
        }
        if end - start >= count {
            assert forall|i: int| start <= i < start + count implies #[trigger] bits[i] == value by {
            }
            assert(range_is(bits, start, count, value));
        } else {
            first_fits_are_found(bits, value, count, end);
            assert forall|s: int| start <= s < end implies !(#[trigger] range_is(
                bits,
                s,
                count,
                value,
            )) by {
                if range_is(bits, s, count, value) {
                    assert(bits[end] != value);
                }
            }
        }
    }
}

/// A search with a hint takes the first place at or behind the hint, else the first place at all;
/// it says 2^32 - 1 only where there is no place.
pub proof fn hints_come_first(bits: Seq<bool>, value: bool, count: int, hint: int, s: int)
    requires
        bits.len() <= u32::MAX,
        count > 0,
        0 <= hint,
        0 <= s,
        range_is(bits, s, count, value),
    ensures
        found(bits, value, count, hint) < bits.len(),
        range_is(bits, found(bits, value, count, hint) as int, count, value),
        hint <= s ==> hint <= found(bits, value, count, hint) <= s,
        s < found(bits, value, count, hint) ==> s < hint <= found(bits, value, count, hint),
{
    first_fits_are_found(bits, value, count, 0);
    if hint < bits.len() {
        first_fits_are_found(bits, value, count, hint);
    }
}

/// Where the bits fit nowhere, a search says 2^32 - 1.
pub proof fn nothing_is_found(bits: Seq<bool>, value: bool, count: int, hint: int)
    requires
        count > 0,
        0 <= hint,
        forall|s: int| 0 <= s ==> !(#[trigger] range_is(bits, s, count, value)),
    ensures
        found(bits, value, count, hint) == 0xffff_ffff,
{
    first_fits_are_found(bits, value, count, 0);
    if hint < bits.len() {
        first_fits_are_found(bits, value, count, hint);
    }
}

/// Whether a run holds a bit.
pub open spec fn holds(run: BitmapRun, i: int) -> bool {
    run.starting_index <= i < run.starting_index + run.number_of_bits
}

/// The runs of clear bits hold all clear bits from `from` on and no others. None is empty, they stand
/// in order, and a bit that is set is between each two of them.
pub proof fn clear_runs_are_exact(bits: Seq<bool>, from: int)
    requires
        0 <= from <= bits.len() <= u32::MAX,
    ensures
        forall|k: int, i: int|
            #![trigger holds(clear_runs(bits, from)[k], i)]
            0 <= k < clear_runs(bits, from).len() && holds(clear_runs(bits, from)[k], i) ==> from
                <= i < bits.len() && !bits[i],
        forall|i: int|
            from <= i < bits.len() && !(#[trigger] bits[i]) ==> exists|k: int|
                0 <= k < clear_runs(bits, from).len() && #[trigger] holds(
                    clear_runs(bits, from)[k],
                    i,
                ),
        forall|k: int|
            0 <= k < clear_runs(bits, from).len() ==> (#[trigger] clear_runs(
                bits,
                from,
            )[k]).number_of_bits > 0 && from <= clear_runs(bits, from)[k].starting_index,
        forall|j: int, k: int|
            0 <= j < k < clear_runs(bits, from).len() ==> (#[trigger] clear_runs(
                bits,
                from,
            )[j]).starting_index + clear_runs(bits, from)[j].number_of_bits < (
            #[trigger] clear_runs(bits, from)[k]).starting_index,
    decreases bits.len() - from,
{
    lemma_first_bit(bits, false, from);
    let (start, end) = run_from(bits, false, from);
    lemma_first_bit(bits, true, start);
    let runs = clear_runs(bits, from);
    if start < bits.len() {
        let rest = clear_runs(bits, end);
        clear_runs_are_exact(bits, end);
        assert(runs[0].starting_index == start && runs[0].number_of_bits == end - start);
        assert forall|k: int| 0 < k < runs.len() implies #[trigger] runs[k] == rest[k - 1] by {
        }
        assert forall|k: int| 0 <= k < rest.len() implies #[trigger] rest[k] == runs[k + 1] by {
        }
        assert forall|i: int| from <= i < bits.len() && !(#[trigger] bits[i]) implies exists|k: int|
            0 <= k < runs.len() && #[trigger] holds(runs[k], i) by {
            if i < end {
                assert(holds(runs[0], i));
            } else {
                let k = choose|k: int| 0 <= k < rest.len() && #[trigger] holds(rest[k], i);
                assert(holds(runs[k + 1], i));
            }
        }
        assert forall|k: int, i: int|
            0 <= k < runs.len() && #[trigger] holds(runs[k], i) implies from <= i < bits.len()
            && !bits[i] by {
            if k > 0 {
                assert(holds(rest[k - 1], i));
            }
        }
        assert forall|j: int, k: int| 0 <= j < k < runs.len() implies (
        #[trigger] runs[j]).starting_index + runs[j].number_of_bits < (
        #[trigger] runs[k]).starting_index by {
            let r = rest[k - 1];
            if j == 0 {
                assert(holds(r, r.starting_index as int));
                assert(!bits[r.starting_index as int]);
                assert(end < bits.len() ==> bits[end]);
            } else {
                assert(rest[j - 1] == runs[j]);
            }
        }
    }
}

/// The longest of the runs is one of them, none has more bits, and those before it have fewer.
pub proof fn longest_runs_come_first(runs: Seq<BitmapRun>, k: int)
    requires
        0 < k <= runs.len(),
        runs[0].number_of_bits > 0,
    ensures
        forall|j: int|
            0 <= j < k ==> (#[trigger] runs[j]).number_of_bits <= longest_run(
                runs,
                k,
            ).number_of_bits,
        exists|m: int|
            0 <= m < k && #[trigger] runs[m] == longest_run(runs, k) && forall|j: int|
                0 <= j < m ==> (#[trigger] runs[j]).number_of_bits < longest_run(
                    runs,
                    k,
                ).number_of_bits,
    decreases k,
{
    reveal_with_fuel(longest_run, 2);
    if k > 1 {
        longest_runs_come_first(runs, k - 1);
        let before = longest_run(runs, k - 1);
        let m = choose|m: int|
            0 <= m < k - 1 && #[trigger] runs[m] == before && forall|j: int|
                0 <= j < m ==> (#[trigger] runs[j]).number_of_bits < before.number_of_bits;
        if runs[k - 1].number_of_bits > before.number_of_bits {
            assert(runs[k - 1] == longest_run(runs, k));
        } else {
            assert(runs[m] == longest_run(runs, k));
        }
    } else {
        assert(runs[0] == longest_run(runs, k));
    }
}

proof fn lemma_last_bit(bits: Seq<bool>, value: bool, to: int)
    requires
        -1 <= to <= bits.len(),
    ensures
        -1 <= last_bit(bits, value, to) < bits.len(),
        last_bit(bits, value, to) < to || to <= 0,
        last_bit(bits, value, to) >= 0 ==> bits[last_bit(bits, value, to)] == value,
        forall|i: int| last_bit(bits, value, to) < i < to ==> #[trigger] bits[i] != value,
    decreases to,
{
    if to > 0 && bits[to - 1] != value {
        lemma_last_bit(bits, value, to - 1);
    }
}

/// The run that is found backwards has clear bits only, ends with the last clear bit at or before the
/// place it starts from, and has a bit that is set, or nothing, in front of it.
pub proof fn runs_before_are_the_last_ones(bits: Seq<bool>, from: int)
    requires
        0 <= from,
    ensures
        ({
            let (start, end) = run_before(bits, from);
            &&& 0 <= start <= end <= bits.len()
            &&& end <= from + 1
            &&& forall|i: int| start <= i < end ==> !(#[trigger] bits[i])
            &&& forall|i: int| end <= i <= from && i < bits.len() ==> #[trigger] bits[i]
            &&& 0 < start < end ==> bits[start - 1]
            &&& start == end ==> end == 0
        }),
{
    let to = if from < bits.len() {
        from + 1
    } else {
        bits.len() as int
    };
    lemma_last_bit(bits, false, to);
    let last = last_bit(bits, false, to);
    lemma_last_bit(bits, true, last);
}

/// A run that is not longer than any that is kept does not displace one, and a longer one displaces one
/// that no other is shorter than.
pub proof fn longer_runs_displace_the_shortest(kept: Seq<BitmapRun>, run: BitmapRun)
    requires
        kept.len() > 0,
    ensures
        (forall|i: int|
            0 <= i < kept.len() ==> run.number_of_bits <= (#[trigger] kept[i]).number_of_bits)
            ==> keep_larger(kept, run) == kept,
        keep_larger(kept, run) != kept ==> exists|k: int|
            0 <= k < kept.len() && keep_larger(kept, run) == #[trigger] kept.update(k, run)
                && kept[k].number_of_bits < run.number_of_bits && forall|i: int|
                0 <= i < kept.len() ==> kept[k].number_of_bits <= (
                #[trigger] kept[i]).number_of_bits,
{
    let k = smallest_run(kept, kept.len() as int);
    lemma_smallest(kept, kept.len() as int);
    if run.number_of_bits > kept[k].number_of_bits {
        assert(keep_larger(kept, run) == kept.update(k, run));
    }
}

/// An array gets all runs where it has place for them, else the longest where those are asked for,
/// else the first.
pub proof fn arrays_are_filled(runs: Seq<BitmapRun>, n: int)
    requires
        0 <= n,
    ensures
        collected(runs, n, true).len() == collected(runs, n, false).len() == (if runs.len() <= n {
            runs.len() as int
        } else {
            n
        }),
        collected(runs, n, false) == runs.take(collected(runs, n, false).len() as int),
        runs.len() <= n ==> collected(runs, n, true) == runs,
{
    assert(runs.take(runs.len() as int) =~= runs);
    if runs.len() > n && n > 0 {
        super::longest_runs_are_kept(runs, n, runs.len() as int, 0);
    }
}

/// Counting gives the number of places that have the value.
pub proof fn counts_are_sizes(bits: Seq<bool>, value: bool, n: int)
    requires
        0 <= n <= bits.len(),
    ensures
        bit_count(bits, value, n) == bits.take(n).filter(|b: bool| b == value).len(),
    decreases n,
{
    reveal(Seq::filter);
    if n > 0 {
        counts_are_sizes(bits, value, n - 1);
        assert(bits.take(n).drop_last() =~= bits.take(n - 1));
        assert(bits.take(n).last() == bits[n - 1]);
    } else {
        assert(bits.take(n).len() == 0);
    }
}

} // verus!
