//! Bitmaps, and runs of equal bits in them.

use vstd::prelude::*;

pub mod laws;

verus! {

/// What a search gives that finds nothing.
pub const BITMAP_NONE: u32 = 0xffff_ffff;

/// A run of equal bits.
#[derive(Clone, Copy, Debug, Default, PartialEq, Eq)]
pub struct BitmapRun {
    pub starting_index: u32,
    pub number_of_bits: u32,
}

/// A bitmap, held in words of thirty-two bits.
pub struct BitMap {
    size: u32,
    words: Vec<u32>,
}

/// Whether a bit of a word is set.
pub open spec fn word_bit(word: u32, i: u32) -> bool {
    (word >> i) & 1 == 1
}

/// The first bit at or behind `from` of a given value; the number of bits where there is none.
pub open spec fn first_bit(bits: Seq<bool>, value: bool, from: int) -> int
    decreases bits.len() - from,
{
    if from >= bits.len() || bits[from] == value {
        from
    } else {
        first_bit(bits, value, from + 1)
    }
}

/// The first run of a given value that is at or behind `from`: where it starts and where it ends.
pub open spec fn run_from(bits: Seq<bool>, value: bool, from: int) -> (int, int) {
    let start = first_bit(bits, value, from);
    (start, first_bit(bits, !value, start))
}

/// The start of the first run behind `from` that has at least `count` bits.
pub open spec fn fitting_run(bits: Seq<bool>, value: bool, count: int, from: int) -> Option<int>
    decreases bits.len() - from,
{
    let (start, end) = run_from(bits, value, from);
    if start >= bits.len() || start < from || end <= start || end > bits.len() {
        None
    } else if end - start >= count {
        Some(start)
    } else {
        fitting_run(bits, value, count, end)
    }
}

/// What a search with a hint finds: behind the hint if possible, else from the start on.
pub open spec fn found(bits: Seq<bool>, value: bool, count: int, hint: int) -> u32 {
    let from = if hint < bits.len() {
        hint
    } else {
        0
    };
    match fitting_run(bits, value, count, from) {
        Some(at) => at as u32,
        None => match fitting_run(bits, value, count, 0) {
            Some(at) => at as u32,
            None => BITMAP_NONE,
        },
    }
}

/// The bits with `count` of them from `start` on given a value.
pub open spec fn with_range(bits: Seq<bool>, start: int, count: int, value: bool) -> Seq<bool> {
    Seq::new(
        bits.len(),
        |i: int|
            if start <= i < start + count {
                value
            } else {
                bits[i]
            },
    )
}

/// Whether a range lies in the bitmap, has bits, and all of them have a value.
pub open spec fn range_is(bits: Seq<bool>, start: int, count: int, value: bool) -> bool {
    count > 0 && start + count <= bits.len() && forall|i: int|
        start <= i < start + count ==> #[trigger] bits[i] == value
}

/// How many of the first `n` bits have a value.
pub open spec fn bit_count(bits: Seq<bool>, value: bool, n: int) -> int
    decreases n,
{
    if n <= 0 {
        0
    } else {
        bit_count(bits, value, n - 1) + if bits[n - 1] == value {
            1int
        } else {
            0
        }
    }
}

/// The runs of clear bits that are at or behind `from`.
pub open spec fn clear_runs(bits: Seq<bool>, from: int) -> Seq<BitmapRun>
    decreases bits.len() - from,
{
    let (start, end) = run_from(bits, false, from);
    if start >= bits.len() || start < from || end <= start || end > bits.len() {
        Seq::empty()
    } else {
        seq![
            BitmapRun { starting_index: start as u32, number_of_bits: (end - start) as u32 },
        ] + clear_runs(bits, end)
    }
}

/// The first of the first `k` runs that has the fewest bits.
pub open spec fn smallest_run(runs: Seq<BitmapRun>, k: int) -> int
    decreases k,
{
    if k <= 1 {
        0
    } else {
        let before = smallest_run(runs, k - 1);
        if runs[k - 1].number_of_bits < runs[before].number_of_bits {
            k - 1
        } else {
            before
        }
    }
}

/// What is kept of runs once one more was seen: it takes the place of the smallest if it is larger.
pub open spec fn keep_larger(kept: Seq<BitmapRun>, run: BitmapRun) -> Seq<BitmapRun> {
    let smallest = smallest_run(kept, kept.len() as int);
    if run.number_of_bits > kept[smallest].number_of_bits {
        kept.update(smallest, run)
    } else {
        kept
    }
}

/// What is kept of the first `n` runs once the others were seen, up to `k`.
pub open spec fn kept_runs(runs: Seq<BitmapRun>, n: int, k: int) -> Seq<BitmapRun>
    decreases k - n,
{
    if k <= n {
        runs.take(n)
    } else {
        keep_larger(kept_runs(runs, n, k - 1), runs[k - 1])
    }
}

/// The runs that an array of `n` entries gets.
pub open spec fn collected(runs: Seq<BitmapRun>, n: int, longest: bool) -> Seq<BitmapRun> {
    if runs.len() <= n {
        runs
    } else if longest && n > 0 {
        kept_runs(runs, n, runs.len() as int)
    } else {
        runs.take(n)
    }
}

/// The first of the first `k` runs that has the most bits.
pub open spec fn longest_run(runs: Seq<BitmapRun>, k: int) -> BitmapRun
    decreases k,
{
    if k <= 0 {
        BitmapRun { starting_index: 0, number_of_bits: 0 }
    } else {
        let before = longest_run(runs, k - 1);
        if runs[k - 1].number_of_bits > before.number_of_bits {
            runs[k - 1]
        } else {
            before
        }
    }
}

// ---------------------------------------------------------------------------------------------
// Laws
// ---------------------------------------------------------------------------------------------

proof fn lemma_first_bit(bits: Seq<bool>, value: bool, from: int)
    requires
        0 <= from <= bits.len(),
    ensures
        from <= first_bit(bits, value, from) <= bits.len(),
        forall|i: int| from <= i < first_bit(bits, value, from) ==> #[trigger] bits[i] != value,
        first_bit(bits, value, from) < bits.len() ==> bits[first_bit(bits, value, from)] == value,
    decreases bits.len() - from,
{
    if from < bits.len() && bits[from] != value {
        lemma_first_bit(bits, value, from + 1);
    }
}

proof fn lemma_run(bits: Seq<bool>, value: bool, from: int)
    requires
        0 <= from <= bits.len(),
    ensures
        ({
            let (start, end) = run_from(bits, value, from);
            &&& from <= start <= end <= bits.len()
            &&& start < bits.len() ==> start < end
            &&& forall|i: int| start <= i < end ==> #[trigger] bits[i] == value
        }),
{
    lemma_first_bit(bits, value, from);
    lemma_first_bit(bits, !value, first_bit(bits, value, from));
}

/// What a search finds lies in the bitmap, and has as many bits of the value as were asked for.
pub proof fn fitting_runs_fit(bits: Seq<bool>, value: bool, count: int, from: int)
    requires
        0 <= from <= bits.len(),
        count > 0,
        fitting_run(bits, value, count, from) is Some,
    ensures
        from <= fitting_run(bits, value, count, from)->Some_0,
        range_is(bits, fitting_run(bits, value, count, from)->Some_0, count, value),
    decreases bits.len() - from,
{
    lemma_run(bits, value, from);
    let (start, end) = run_from(bits, value, from);
    if end - start < count {
        fitting_runs_fit(bits, value, count, end);
    }
}

/// A run that a search finds and sets is set afterwards, and every other bit is as it was.
pub proof fn found_runs_are_taken(bits: Seq<bool>, count: int, from: int, i: int)
    requires
        0 <= from <= bits.len(),
        count > 0,
        fitting_run(bits, false, count, from) is Some,
        0 <= i < bits.len(),
    ensures
        ({
            let at = fitting_run(bits, false, count, from)->Some_0;
            let after = with_range(bits, at, count, true);
            &&& range_is(after, at, count, true)
            &&& !(at <= i < at + count) ==> after[i] == bits[i]
        }),
{
    fitting_runs_fit(bits, false, count, from);
}

/// Every bit is set or clear.
pub proof fn bits_are_counted_once(bits: Seq<bool>, n: int)
    requires
        0 <= n <= bits.len(),
    ensures
        bit_count(bits, true, n) + bit_count(bits, false, n) == n,
        0 <= bit_count(bits, true, n),
        0 <= bit_count(bits, false, n),
    decreases n,
{
    if n > 0 {
        bits_are_counted_once(bits, n - 1);
    }
}

proof fn lemma_smallest(runs: Seq<BitmapRun>, k: int)
    requires
        0 < k <= runs.len(),
    ensures
        0 <= smallest_run(runs, k) < k,
        forall|i: int|
            0 <= i < k ==> runs[smallest_run(runs, k)].number_of_bits <= (
            #[trigger] runs[i]).number_of_bits,
    decreases k,
{
    if k > 1 {
        lemma_smallest(runs, k - 1);
    }
}

/// Where an array is too small for all runs, no run that is left out has more bits than one that is
/// kept.
pub proof fn longest_runs_are_kept(runs: Seq<BitmapRun>, n: int, k: int, i: int)
    requires
        0 < n <= k <= runs.len(),
        0 <= i < k,
    ensures
        kept_runs(runs, n, k).len() == n,
        kept_runs(runs, n, k).contains(runs[i]) || forall|j: int|
            0 <= j < n ==> runs[i].number_of_bits <= (
            #[trigger] kept_runs(runs, n, k)[j]).number_of_bits,
    decreases k - n,
{
    if k == n {
        assert(runs.take(n)[i] == runs[i]);
    } else {
        let before = kept_runs(runs, n, k - 1);
        let after = kept_runs(runs, n, k);
        let new = runs[k - 1];
        longest_runs_are_kept(runs, n, k - 1, if i < k - 1 {
            i
        } else {
            0
        });
        lemma_smallest(before, n);
        let s = smallest_run(before, n);
        if i == k - 1 {
            if new.number_of_bits > before[s].number_of_bits {
                assert(after[s] == new);
            }
        } else if new.number_of_bits > before[s].number_of_bits {
            if before.contains(runs[i]) {
                let j = choose|j: int| 0 <= j < before.len() && before[j] == runs[i];
                if j != s {
                    assert(after[j] == runs[i]);
                }
            }
            assert forall|j: int| 0 <= j < n && !after.contains(runs[i]) implies
                runs[i].number_of_bits <= (#[trigger] after[j]).number_of_bits by {
                let _ = before[j];
            }
        }
    }
}

proof fn lemma_word_bits(word: u32, i: u32, j: u32)
    by (bit_vector)
    requires
        i < 32,
        j < 32,
    ensures
        ((word | (1u32 << i)) >> j) & 1 == (if i == j {
            1
        } else {
            (word >> j) & 1
        }),
        ((word & !(1u32 << i)) >> j) & 1 == (if i == j {
            0
        } else {
            (word >> j) & 1
        }),
        (0u32 >> i) & 1 == 0,
{
}

// ---------------------------------------------------------------------------------------------
// Operations
// ---------------------------------------------------------------------------------------------

impl View for BitMap {
    type V = Seq<bool>;

    closed spec fn view(&self) -> Seq<bool> {
        Seq::new(
            self.size as nat,
            |i: int| word_bit(self.words@[i / 32], (i % 32) as u32),
        )
    }
}

impl BitMap {
    #[verifier::type_invariant]
    spec fn words_cover(self) -> bool {
        self.words@.len() == (self.size + 31) / 32
    }

    /// A bitmap of `size` bits, all clear.
    pub fn new(size: u32) -> (b: Self)
        ensures
            b@ == Seq::new(size as nat, |i: int| false),
    {
        let count: u32 = size / 32 + if size % 32 == 0 {
            0
        } else {
            1
        };
        let mut words: Vec<u32> = Vec::new();
        let mut i: u32 = 0;
        while i < count
            invariant
                i <= count,
                words@.len() == i,
                forall|j: int| 0 <= j < i ==> #[trigger] words@[j] == 0,
            decreases count - i,
        {
            words.push(0);
            i += 1;
        }
        let b = BitMap { size, words };
        assert(b@ =~= Seq::new(size as nat, |i: int| false)) by {
            assert forall|j: int| 0 <= j < size implies !(#[trigger] b@[j]) by {
                lemma_word_bits(0, (j % 32) as u32, 0);
            }
        }
        b
    }

    /// Whether a bit is set. Bits behind the end are not.
    pub fn test(&self, i: u32) -> (set: bool)
        ensures
            set == (i < self@.len() && self@[i as int]),
    {
        proof {
            use_type_invariant(self);
        }
        if i >= self.size {
            return false;
        }
        (self.words[(i / 32) as usize] >> (i % 32)) & 1 == 1
    }

    /// Give a bit a value. Bits behind the end are left alone.
    fn assign(&mut self, i: u32, value: bool)
        ensures
            final(self)@ == with_range(old(self)@, i as int, 1, value),
    {
        proof {
            use_type_invariant(&*self);
        }
        if i < self.size {
            let at: usize = (i / 32) as usize;
            let word: u32 = self.words[at];
            let new: u32 = if value {
                word | (1u32 << (i % 32))
            } else {
                word & !(1u32 << (i % 32))
            };
            self.words[at] = new;
            proof {
                assert forall|j: int| 0 <= j < self.size implies #[trigger] self@[j] == with_range(
                    old(self)@,
                    i as int,
                    1,
                    value,
                )[j] by {
                    lemma_word_bits(word, i % 32, (j % 32) as u32);
                    assert(j == 32 * (j / 32) + j % 32);
                    assert(i == 32 * (i / 32) + i % 32);
                    let _ = old(self)@[j];
                }
            }
        }
        assert(self@ =~= with_range(old(self)@, i as int, 1, value));
    }

    /// Give a range of bits a value. Bits behind the end are left alone.
    fn assign_range(&mut self, start: u32, count: u32, value: bool)
        ensures
            final(self)@ == with_range(old(self)@, start as int, count as int, value),
    {
        let ghost before = self@;
        let size: u32 = self.size;
        let end: u32 = if start as u64 + count as u64 > size as u64 {
            size
        } else {
            start + count
        };
        let mut i: u32 = start;
        assert(self@ =~= with_range(before, start as int, 0, value));
        while i < end
            invariant
                start <= i,
                i <= end || i == start,
                end <= size == before.len(),
                self@ == with_range(before, start as int, i - start, value),
            decreases end - i,
        {
            self.assign(i, value);
            i += 1;
            assert(self@ =~= with_range(before, start as int, i - start, value));
        }
        assert(self@ =~= with_range(before, start as int, count as int, value));
    }

    /// Whether all bits of a range are set. An empty range is not.
    pub fn are_bits_set(&self, start: u32, count: u32) -> (yes: bool)
        ensures
            yes == range_is(self@, start as int, count as int, true),
    {
        self.range_has(start, count, true)
    }

    /// Whether all bits of a range are clear. An empty range is not.
    pub fn are_bits_clear(&self, start: u32, count: u32) -> (yes: bool)
        ensures
            yes == range_is(self@, start as int, count as int, false),
    {
        self.range_has(start, count, false)
    }

    fn range_has(&self, start: u32, count: u32, value: bool) -> (yes: bool)
        ensures
            yes == range_is(self@, start as int, count as int, value),
    {
        if count == 0 || start as u64 + count as u64 > self.size as u64 {
            return false;
        }
        let mut i: u32 = start;
        let end: u32 = start + count;
        while i < end
            invariant
                start <= i <= end == start + count,
                end <= self@.len(),
                forall|j: int| start <= j < i ==> #[trigger] self@[j] == value,
            decreases end - i,
        {
            if self.test(i) != value {
                assert(self@[i as int] != value);
                return false;
            }
            i += 1;
        }
        true
    }

    /// Set a bit.
    pub fn set(&mut self, i: u32)
        ensures
            final(self)@ == with_range(old(self)@, i as int, 1, true),
    {
        self.assign(i, true)
    }

    /// Clear a bit.
    pub fn clear(&mut self, i: u32)
        ensures
            final(self)@ == with_range(old(self)@, i as int, 1, false),
    {
        self.assign(i, false)
    }

    /// Set a range of bits.
    pub fn set_range(&mut self, start: u32, count: u32)
        ensures
            final(self)@ == with_range(old(self)@, start as int, count as int, true),
    {
        self.assign_range(start, count, true)
    }

    /// Clear a range of bits.
    pub fn clear_range(&mut self, start: u32, count: u32)
        ensures
            final(self)@ == with_range(old(self)@, start as int, count as int, false),
    {
        self.assign_range(start, count, false)
    }

    fn first_of(&self, value: bool, from: u32) -> (at: u32)
        requires
            from <= self@.len(),
        ensures
            at == first_bit(self@, value, from as int),
            from <= at <= self@.len(),
    {
        let mut i: u32 = from;
        while i < self.size && self.test(i) != value
            invariant
                from <= i <= self@.len() == self.size,
                first_bit(self@, value, from as int) == first_bit(self@, value, i as int),
            decreases self.size - i,
        {
            i += 1;
        }
        i
    }

    fn find_fitting(&self, value: bool, count: u32, from: u32) -> (r: Option<u32>)
        requires
            from <= self@.len(),
        ensures
            match r {
                Some(at) => fitting_run(self@, value, count as int, from as int) == Some(at as int)
                    && at < self@.len(),
                None => fitting_run(self@, value, count as int, from as int) is None,
            },
    {
        let mut i: u32 = from;
        loop
            invariant
                i <= self@.len() == self.size,
                fitting_run(self@, value, count as int, from as int) == fitting_run(
                    self@,
                    value,
                    count as int,
                    i as int,
                ),
            decreases self@.len() - i,
        {
            proof {
                lemma_run(self@, value, i as int);
            }
            let start: u32 = self.first_of(value, i);
            if start >= self.size {
                return None;
            }
            let end: u32 = self.first_of(!value, start);
            if end - start >= count {
                return Some(start);
            }
            i = end;
        }
    }

    fn find_with_hint(&self, value: bool, count: u32, hint: u32) -> (at: u32)
        ensures
            at == found(self@, value, count as int, hint as int),
            at == BITMAP_NONE || at < self@.len(),
    {
        let from: u32 = if hint < self.size {
            hint
        } else {
            0
        };
        match self.find_fitting(value, count, from) {
            Some(at) => at,
            None => match self.find_fitting(value, count, 0) {
                Some(at) => at,
                None => BITMAP_NONE,
            },
        }
    }

    /// Find clear bits.
    pub fn find_clear(&self, count: u32, hint: u32) -> (at: u32)
        ensures
            at == found(self@, false, count as int, hint as int),
    {
        self.find_with_hint(false, count, hint)
    }

    /// Find set bits.
    pub fn find_set(&self, count: u32, hint: u32) -> (at: u32)
        ensures
            at == found(self@, true, count as int, hint as int),
    {
        self.find_with_hint(true, count, hint)
    }

    /// Find clear bits and set them.
    pub fn find_clear_and_set(&mut self, count: u32, hint: u32) -> (at: u32)
        ensures
            at == found(old(self)@, false, count as int, hint as int),
            final(self)@ == if at == BITMAP_NONE {
                old(self)@
            } else {
                with_range(old(self)@, at as int, count as int, true)
            },
    {
        let at: u32 = self.find_with_hint(false, count, hint);
        if at != BITMAP_NONE {
            self.assign_range(at, count, true);
        }
        at
    }

    /// Find set bits and clear them.
    pub fn find_set_and_clear(&mut self, count: u32, hint: u32) -> (at: u32)
        ensures
            at == found(old(self)@, true, count as int, hint as int),
            final(self)@ == if at == BITMAP_NONE {
                old(self)@
            } else {
                with_range(old(self)@, at as int, count as int, false)
            },
    {
        let at: u32 = self.find_with_hint(true, count, hint);
        if at != BITMAP_NONE {
            self.assign_range(at, count, false);
        }
        at
    }

    /// The first run at or behind `from`; of no bits where there is none.
    fn run_behind(&self, value: bool, from: u32) -> (run: BitmapRun)
        ensures
            ({
                let (start, end) = run_from(self@, value, from as int);
                if from < self@.len() && start < self@.len() {
                    run.starting_index == start && run.number_of_bits == end - start && start < end
                        <= self@.len() && from <= start
                } else {
                    run.number_of_bits == 0
                }
            }),
    {
        if from >= self.size {
            return BitmapRun { starting_index: 0, number_of_bits: 0 };
        }
        proof {
            lemma_run(self@, value, from as int);
        }
        let start: u32 = self.first_of(value, from);
        if start >= self.size {
            return BitmapRun { starting_index: 0, number_of_bits: 0 };
        }
        let end: u32 = self.first_of(!value, start);
        BitmapRun { starting_index: start, number_of_bits: end - start }
    }

    /// The first run of clear bits at or behind `from`: its length, and where it starts. Without
    /// one, the length is zero and `start` stays as it is.
    pub fn find_next_forward_clear(&self, from: u32, start: &mut u32) -> (bits: u32)
        ensures
            ({
                let (first, end) = run_from(self@, false, from as int);
                if from < self@.len() && first < self@.len() {
                    bits == end - first && *final(start) == first
                } else {
                    bits == 0 && *final(start) == *old(start)
                }
            }),
    {
        let run: BitmapRun = self.run_behind(false, from);
        if run.number_of_bits != 0 {
            *start = run.starting_index;
        }
        run.number_of_bits
    }

    /// The first run of set bits at or behind `from`: its length, and where it starts. Without one,
    /// the length is zero and `start` stays as it is.
    pub fn find_next_forward_set(&self, from: u32, start: &mut u32) -> (bits: u32)
        ensures
            ({
                let (first, end) = run_from(self@, true, from as int);
                if from < self@.len() && first < self@.len() {
                    bits == end - first && *final(start) == first
                } else {
                    bits == 0 && *final(start) == *old(start)
                }
            }),
    {
        let run: BitmapRun = self.run_behind(true, from);
        if run.number_of_bits != 0 {
            *start = run.starting_index;
        }
        run.number_of_bits
    }

    /// The first run of clear bits.
    pub fn find_first_clear_run(&self, start: &mut u32) -> (bits: u32)
        ensures
            ({
                let (first, end) = run_from(self@, false, 0);
                if first < self@.len() {
                    bits == end - first && *final(start) == first
                } else {
                    bits == 0 && *final(start) == *old(start)
                }
            }),
    {
        self.find_next_forward_clear(0, start)
    }
}

/// The last bit before `to` that has a value; -1 where there is none.
pub open spec fn last_bit(bits: Seq<bool>, value: bool, to: int) -> int
    decreases to,
{
    if to <= 0 {
        -1
    } else if bits[to - 1] == value {
        to - 1
    } else {
        last_bit(bits, value, to - 1)
    }
}

/// The last run of clear bits that has a bit at or before `from`, cut off behind `from`: where it
/// starts and where it ends.
pub open spec fn run_before(bits: Seq<bool>, from: int) -> (int, int) {
    let to = if from < bits.len() {
        from + 1
    } else {
        bits.len() as int
    };
    let last = last_bit(bits, false, to);
    (last_bit(bits, true, last) + 1, last + 1)
}

impl BitMap {
    /// The last bit before `to` that has a value; its index plus one, or zero.
    fn last_of(&self, value: bool, to: u32) -> (at: u32)
        requires
            to <= self@.len(),
        ensures
            at == last_bit(self@, value, to as int) + 1,
            at <= to,
    {
        let mut i: u32 = to;
        while i > 0 && self.test(i - 1) != value
            invariant
                i <= to <= self@.len(),
                last_bit(self@, value, to as int) == last_bit(self@, value, i as int),
            decreases i,
        {
            i -= 1;
        }
        i
    }

    /// The last run of clear bits at or before `from`: its length, and where it starts. Without
    /// one, the length is zero and `start` stays as it is.
    pub fn find_last_backward_clear(&self, from: u32, start: &mut u32) -> (bits: u32)
        ensures
            ({
                let (first, end) = run_before(self@, from as int);
                if end > 0 {
                    bits == end - first && *final(start) == first
                } else {
                    bits == 0 && *final(start) == *old(start)
                }
            }),
    {
        let to: u32 = if from < self.size {
            from + 1
        } else {
            self.size
        };
        let end: u32 = self.last_of(false, to);
        if end == 0 {
            return 0;
        }
        let first: u32 = self.last_of(true, end - 1);
        *start = first;
        end - first
    }

    /// Collect runs of clear bits: the first ones, or the longest ones once the array is full.
    pub fn find_clear_runs(&self, runs: &mut [BitmapRun], locate_longest: bool) -> (count: u32)
        requires
            old(runs)@.len() <= u32::MAX,
        ensures
            ({
                let all = collected(
                    clear_runs(self@, 0),
                    old(runs)@.len() as int,
                    locate_longest,
                );
                &&& count == all.len()
                &&& final(runs)@ == all + old(runs)@.skip(all.len() as int)
            }),
    {
        let capacity: u32 = runs.len() as u32;
        let ghost all = clear_runs(self@, 0);
        let ghost before = runs@;
        let mut count: u32 = 0;
        let mut from: u32 = 0;
        assert(all.take(0) + clear_runs(self@, 0) =~= all);
        assert(runs@ =~= all.take(0) + before.skip(0));
        while count < capacity
            invariant
                count <= capacity == before.len(),
                from <= self@.len(),
                all == clear_runs(self@, 0),
                count <= all.len(),
                all == all.take(count as int) + clear_runs(self@, from as int),
                runs@ == all.take(count as int) + before.skip(count as int),
                capacity == old(runs)@.len(),
                before == old(runs)@,
            decreases capacity - count,
        {
            let run: BitmapRun = self.run_behind(false, from);
            if run.number_of_bits == 0 {
                assert(clear_runs(self@, from as int) =~= Seq::empty());
                assert(all.take(count as int) =~= all);
                assert(runs@ =~= all + before.skip(all.len() as int));
                return count;
            }
            proof {
                let rest = clear_runs(self@, from as int);
                assert(rest[0] == run);
                assert(all[count as int] == run);
                let end = run.starting_index + run.number_of_bits;
                assert(rest =~= seq![run] + clear_runs(self@, end));
                assert(all =~= all.take(count + 1) + clear_runs(self@, end));
            }
            runs[count as usize] = run;
            from = run.starting_index + run.number_of_bits;
            count += 1;
            assert(runs@ =~= all.take(count as int) + before.skip(count as int));
        }
        assert(before.skip(count as int) =~= Seq::empty());
        assert(runs@ =~= all.take(count as int));
        if locate_longest && count > 0 {
            self.keep_longest(runs, from);
            proof {
                longest_runs_are_kept(all, capacity as int, all.len() as int, 0);
            }
            assert(collected(all, capacity as int, true) =~= kept_runs(
                all,
                capacity as int,
                all.len() as int,
            )) by {
                if all.len() <= capacity {
                    assert(all.take(capacity as int) =~= all);
                }
            }
        } else {
            assert(collected(all, capacity as int, locate_longest) =~= all.take(capacity as int));
        }
        assert(runs@ =~= collected(all, capacity as int, locate_longest) + before.skip(
            capacity as int,
        ));
        count
    }

    /// Keep the longest of the runs that an array holds and of those from `from` on.
    fn keep_longest(&self, runs: &mut [BitmapRun], from: u32)
        requires
            0 < old(runs)@.len() <= clear_runs(self@, 0).len(),
            old(runs)@.len() <= u32::MAX,
            from <= self@.len(),
            old(runs)@ == clear_runs(self@, 0).take(old(runs)@.len() as int),
            clear_runs(self@, 0) == clear_runs(self@, 0).take(old(runs)@.len() as int) + clear_runs(
                self@,
                from as int,
            ),
        ensures
            final(runs)@ == kept_runs(
                clear_runs(self@, 0),
                old(runs)@.len() as int,
                clear_runs(self@, 0).len() as int,
            ),
    {
        let ghost all = clear_runs(self@, 0);
        let ghost n = runs@.len() as int;
        let ghost mut k: int = n;
        let mut at: u32 = from;
        loop
            invariant
                at <= self@.len(),
                n == runs@.len() == old(runs)@.len(),
                0 < n <= k <= all.len(),
                n <= u32::MAX,
                all == clear_runs(self@, 0),
                all == all.take(k) + clear_runs(self@, at as int),
                runs@ == kept_runs(all, n, k),
            decreases self@.len() - at,
        {
            let run: BitmapRun = self.run_behind(false, at);
            if run.number_of_bits == 0 {
                assert(clear_runs(self@, at as int) =~= Seq::empty());
                assert(all.take(k) =~= all);
                return ;
            }
            proof {
                let rest = clear_runs(self@, at as int);
                assert(rest[0] == run);
                assert(all[k] == run);
                let end = run.starting_index + run.number_of_bits;
                assert(rest =~= seq![run] + clear_runs(self@, end));
                assert(all =~= all.take(k + 1) + clear_runs(self@, end));
                k = k + 1;
            }
            let smallest: usize = smallest_run_index(runs);
            if run.number_of_bits > runs[smallest].number_of_bits {
                runs[smallest] = run;
            }
            at = run.starting_index + run.number_of_bits;
        }
    }

    /// The longest run of clear bits, and of several the first: its length, and where it starts.
    /// Without one, the length is zero and `start` stays as it is.
    pub fn find_longest_clear_run(&self, start: &mut u32) -> (bits: u32)
        ensures
            ({
                let all = clear_runs(self@, 0);
                let best = longest_run(all, all.len() as int);
                &&& bits == best.number_of_bits
                &&& *final(start) == if bits > 0 {
                    best.starting_index
                } else {
                    *old(start)
                }
            }),
    {
        let ghost all = clear_runs(self@, 0);
        let ghost mut k: int = 0;
        let mut at: u32 = 0;
        let mut best: BitmapRun = BitmapRun { starting_index: 0, number_of_bits: 0 };
        assert(all =~= all.take(0) + clear_runs(self@, 0));
        loop
            invariant
                at <= self@.len(),
                0 <= k <= all.len(),
                all == clear_runs(self@, 0),
                all == all.take(k) + clear_runs(self@, at as int),
                best == longest_run(all, k),
                *start == *old(start),
            decreases self@.len() - at,
        {
            let run: BitmapRun = self.run_behind(false, at);
            if run.number_of_bits == 0 {
                assert(clear_runs(self@, at as int) =~= Seq::empty());
                assert(all.take(k) =~= all);
                if best.number_of_bits != 0 {
                    *start = best.starting_index;
                }
                return best.number_of_bits;
            }
            proof {
                let rest = clear_runs(self@, at as int);
                assert(rest[0] == run);
                assert(all[k] == run);
                let end = run.starting_index + run.number_of_bits;
                assert(rest =~= seq![run] + clear_runs(self@, end));
                assert(all =~= all.take(k + 1) + clear_runs(self@, end));
                k = k + 1;
            }
            if run.number_of_bits > best.number_of_bits {
                best = run;
            }
            at = run.starting_index + run.number_of_bits;
        }
    }

    fn count_bits(&self, value: bool) -> (n: u32)
        ensures
            n == bit_count(self@, value, self@.len() as int),
    {
        let mut n: u32 = 0;
        let mut i: u32 = 0;
        while i < self.size
            invariant
                i <= self.size == self@.len(),
                n <= i,
                n == bit_count(self@, value, i as int),
            decreases self.size - i,
        {
            if self.test(i) == value {
                n += 1;
            }
            i += 1;
        }
        n
    }

    /// How many bits are set.
    pub fn count_set(&self) -> (n: u32)
        ensures
            n == bit_count(self@, true, self@.len() as int),
    {
        self.count_bits(true)
    }

    /// How many bits are clear.
    pub fn count_clear(&self) -> (n: u32)
        ensures
            n == bit_count(self@, false, self@.len() as int),
    {
        self.count_bits(false)
    }

    /// The number of bits in whole words.
    pub fn len_bits(&self) -> (n: u32)
        requires
            (self@.len() + 31) / 32 * 32 <= u32::MAX,
        ensures
            n == (self@.len() + 31) / 32 * 32,
    {
        proof {
            use_type_invariant(self);
        }
        self.words.len() as u32 * 32
    }
}

/// The first run that has the fewest bits.
fn smallest_run_index(runs: &[BitmapRun]) -> (smallest: usize)
    requires
        runs@.len() > 0,
    ensures
        smallest == smallest_run(runs@, runs@.len() as int),
        smallest < runs@.len(),
{
    let mut smallest: usize = 0;
    let mut i: usize = 1;
    while i < runs.len()
        invariant
            0 < i <= runs@.len(),
            smallest < i,
            smallest == smallest_run(runs@, i as int),
        decreases runs@.len() - i,
    {
        if runs[i].number_of_bits < runs[smallest].number_of_bits {
            smallest = i;
        }
        i += 1;
    }
    smallest
}

} // verus!
