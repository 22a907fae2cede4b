//! Bookkeeping of fiber-local storage: which slots are taken, their callbacks and values.
//!
//! Nothing here calls a callback. A free is planned first and finished later, so that whoever runs
//! the callbacks can come back to these functions from within them.

use vstd::prelude::*;

verus! {

/// How many slots there are.
pub const SLOT_COUNT: usize = 128;

/// The first slot that is handed out.
pub const FIRST_USER_SLOT: u32 = 1;

/// One bit for each slot.
pub type AllocationWords = [u32; 4];

/// The callback of each slot; zero where there is none.
pub type CallbackSlots = [u64; 128];

/// The value of each slot.
pub type ValueSlots = [u64; 128];

/// Why an operation on a slot failed.
#[derive(Clone, Copy, Debug, PartialEq, Eq, Structural)]
pub enum FlsError {
    InvalidIndex,
    NotAllocated,
    NoSlots,
    NoData,
}

/// A slot that was taken and has to be committed or given back.
#[derive(Debug, PartialEq, Eq)]
pub struct Reservation {
    index: u32,
}

/// A slot whose callback has still to run.
#[derive(Debug, PartialEq, Eq)]
pub struct FreePlan {
    pub index: u32,
    pub callback: u64,
}

/// A callback and what it is called with.
#[derive(Clone, Copy, Debug, PartialEq, Eq)]
pub struct CallbackAction {
    pub index: u32,
    pub callback: u64,
    pub value: u64,
}

/// Whether bit `i` of a word is set.
pub open spec fn bit_set(word: u32, i: u32) -> bool {
    (word >> i) & 1 == 1
}

/// Whether a slot is taken.
pub open spec fn taken(words: Seq<u32>, slot: int) -> bool {
    0 <= slot < 128 && bit_set(words[slot / 32], (slot % 32) as u32)
}

/// The slots once one was taken.
pub open spec fn with_slot(words: Seq<u32>, slot: int) -> Seq<u32> {
    words.update(slot / 32, words[slot / 32] | (1u32 << ((slot % 32) as u32)))
}

/// The slots once one was given back.
pub open spec fn without_slot(words: Seq<u32>, slot: int) -> Seq<u32> {
    words.update(slot / 32, words[slot / 32] & !(1u32 << ((slot % 32) as u32)))
}

/// The first slot at or behind `slot` that is not taken.
pub open spec fn first_free(words: Seq<u32>, slot: int) -> Option<int>
    decreases 128 - slot,
{
    if slot >= 128 {
        None
    } else if !taken(words, slot) {
        Some(slot)
    } else {
        first_free(words, slot + 1)
    }
}

/// Whether a slot can be handed out.
pub open spec fn is_user_slot(index: u32) -> bool {
    1 <= index < 128
}

/// Whether a callback has to run.
pub open spec fn action_for(index: u32, callback: u64, value: u64) -> Option<CallbackAction> {
    if callback != 0 && value != 0 {
        Some(CallbackAction { index, callback, value })
    } else {
        None
    }
}

proof fn lemma_set_bit(word: u32, i: u32, j: u32)
    by (bit_vector)
    requires
        i < 32,
        j < 32,
    ensures
        ((word | (1u32 << i)) >> j) & 1 == (if i == j {
            1
        } else {
            (word >> j) & 1
        }),
        ((word & !(1u32 << i)) >> j) & 1 == (if i == j {
            0
        } else {
            (word >> j) & 1
        }),
{
}

proof fn lemma_undo_bit(word: u32, i: u32)
    by (bit_vector)
    requires
        i < 32,
        (word >> i) & 1 != 1,
    ensures
        (word | (1u32 << i)) & !(1u32 << i) == word,
{
}

proof fn lemma_mask(word: u32, i: u32)
    by (bit_vector)
    requires
        i < 32,
    ensures
        (word & (1u32 << i) != 0) == ((word >> i) & 1 == 1),
{
}

/// Taking a slot or giving it back changes no other slot.
pub proof fn slots_are_independent(words: Seq<u32>, slot: int, other: int)
    requires
        words.len() == 4,
        0 <= slot < 128,
    ensures
        taken(with_slot(words, slot), other) == ((0 <= other < 128 && other == slot) || taken(
            words,
            other,
        )),
        taken(without_slot(words, slot), other) == (other != slot && taken(words, other)),
{
    if 0 <= other < 128 {
        lemma_set_bit(words[slot / 32], (slot % 32) as u32, (other % 32) as u32);
        assert(slot == 32 * (slot / 32) + slot % 32);
        assert(other == 32 * (other / 32) + other % 32);
    }
}

/// Giving a slot back undoes its reservation.
pub proof fn rollback_undoes_reservation(words: Seq<u32>, slot: int)
    requires
        words.len() == 4,
        first_free(words, FIRST_USER_SLOT as int) == Some(slot),
    ensures
        is_user_slot(slot as u32),
        without_slot(with_slot(words, slot), slot) == words,
{
    lemma_first_free(words, 1);
    lemma_undo_bit(words[slot / 32], (slot % 32) as u32);
    assert(without_slot(with_slot(words, slot), slot) =~= words);
}

/// A callback runs just where there is one and the slot has a value, and it is called with that value.
pub proof fn callbacks_run_for_values(index: u32, callback: u64, value: u64)
    ensures
        action_for(index, callback, value) is Some <==> callback > 0 && value > 0,
        action_for(index, callback, value) matches Some(action) ==> action.index == index
            && action.callback == callback && action.value == value,
{
}

proof fn lemma_first_free(words: Seq<u32>, from: int)
    requires
        0 <= from,
    ensures
        match first_free(words, from) {
            Some(slot) => from <= slot < 128 && !taken(words, slot) && forall|j: int|
                from <= j < slot ==> #[trigger] taken(words, j),
            None => forall|j: int| from <= j < 128 ==> #[trigger] taken(words, j),
        },
    decreases 128 - from,
{
    if from < 128 && taken(words, from) {
        lemma_first_free(words, from + 1);
    }
}

impl Reservation {
    #[verifier::type_invariant]
    spec fn in_range(self) -> bool {
        is_user_slot(self.index)
    }

    /// The slot.
    pub closed spec fn slot(self) -> u32 {
        self.index
    }

    /// The slot.
    pub fn index(&self) -> (index: u32)
        ensures
            index == self.slot(),
            is_user_slot(index),
    {
        proof {
            use_type_invariant(self);
        }
        self.index
    }
}

/// Give all slots back, and take slot zero, which is never handed out.
pub fn initialize_words(words: &mut AllocationWords)
    ensures
        final(words)@ == seq![1u32, 0, 0, 0],
{
    *words = [1, 0, 0, 0];
    assert(words@ =~= seq![1u32, 0, 0, 0]);
}

/// Of the slots that were just initialized, only slot zero is taken.
pub proof fn only_slot_zero_starts_taken(slot: int)
    ensures
        taken(seq![1u32, 0, 0, 0], slot) == (slot == 0),
{
    if 0 <= slot < 128 {
        let i = (slot % 32) as u32;
        assert(slot == 32 * (slot / 32) + slot % 32);
        assert((1u32 >> i) & 1 == (if i == 0 {
            1u32
        } else {
            0
        }) && (0u32 >> i) & 1 == 0) by (bit_vector)
            requires
                i < 32,
        ;
    }
}

/// Whether a slot is taken.
pub fn is_allocated(words: &AllocationWords, index: u32) -> (yes: bool)
    ensures
        yes == taken(words@, index as int),
{
    if index >= 128 {
        return false;
    }
    let word: u32 = words[(index / 32) as usize];
    proof {
        lemma_mask(word, index % 32);
    }
    word & (1u32 << (index % 32)) != 0
}

/// Take the first slot that is free.
pub fn reserve(words: &mut AllocationWords) -> (r: Result<Reservation, FlsError>)
    ensures
        match first_free(old(words)@, FIRST_USER_SLOT as int) {
            Some(slot) => r is Ok && r->Ok_0.slot() == slot && final(words)@ == with_slot(
                old(words)@,
                slot,
            ),
            None => r == Err::<Reservation, FlsError>(FlsError::NoSlots) && final(words)@ == old(
                words,
            )@,
        },
{
    let mut index: u32 = FIRST_USER_SLOT;
    while index < 128
        invariant
            1 <= index <= 128,
            words@ == old(words)@,
            words@.len() == 4,
            first_free(words@, 1) == first_free(words@, index as int),
        decreases 128 - index,
    {
        if !is_allocated(words, index) {
            let at: usize = (index / 32) as usize;
            let word: u32 = words[at];
            words[at] = word | (1u32 << (index % 32));
            assert(words@ =~= with_slot(old(words)@, index as int));
            return Ok(Reservation { index });
        }
        index += 1;
    }
    Err(FlsError::NoSlots)
}

/// Give a slot back that was reserved.
pub fn rollback_reservation(words: &mut AllocationWords, reservation: Reservation)
    ensures
        final(words)@ == without_slot(old(words)@, reservation.slot() as int),
{
    proof {
        use_type_invariant(&reservation);
    }
    let at: usize = (reservation.index / 32) as usize;
    let word: u32 = words[at];
    words[at] = word & !(1u32 << (reservation.index % 32));
    assert(words@ =~= without_slot(old(words)@, reservation.index as int));
}

/// Commit a slot that was reserved: it has a callback now, and no value. The highest slot in use
/// is only ever raised.
pub fn commit_reservation(
    reservation: Reservation,
    callbacks: &mut CallbackSlots,
    current_values: &mut ValueSlots,
    callback: u64,
    high_index: &mut u32,
)
    ensures
        final(callbacks)@ == old(callbacks)@.update(reservation.slot() as int, callback),
        final(current_values)@ == old(current_values)@.update(reservation.slot() as int, 0),
        *final(high_index) == if reservation.slot() > *old(high_index) {
            reservation.slot()
        } else {
            *old(high_index)
        },
{
    proof {
        use_type_invariant(&reservation);
    }
    let index: usize = reservation.index as usize;
    current_values[index] = 0;
    callbacks[index] = callback;
    if reservation.index > *high_index {
        *high_index = reservation.index;
    }
}

/// Give a slot back before its callbacks run. Its callback stays in place until [`finish_free`].
pub fn begin_free(words: &mut AllocationWords, callbacks: &CallbackSlots, index: u32) -> (r: Result<
    FreePlan,
    FlsError,
>)
    ensures
        if !is_user_slot(index) {
            r == Err::<FreePlan, FlsError>(FlsError::InvalidIndex) && final(words)@ == old(words)@
        } else if !taken(old(words)@, index as int) {
            r == Err::<FreePlan, FlsError>(FlsError::NotAllocated) && final(words)@ == old(words)@
        } else {
            r == Ok::<FreePlan, FlsError>(
                FreePlan { index, callback: callbacks@[index as int] },
            ) && final(words)@ == without_slot(old(words)@, index as int)
        },
{
    if index < FIRST_USER_SLOT || index >= 128 {
        return Err(FlsError::InvalidIndex);
    }
    if !is_allocated(words, index) {
        return Err(FlsError::NotAllocated);
    }
    let at: usize = (index / 32) as usize;
    let word: u32 = words[at];
    words[at] = word & !(1u32 << (index % 32));
    assert(words@ =~= without_slot(old(words)@, index as int));
    Ok(FreePlan { index, callback: callbacks[index as usize] })
}

/// The callback that has to run for the values of one thread, if any.
pub fn callback_action(plan: &FreePlan, values: &ValueSlots) -> (action: Option<CallbackAction>)
    requires
        plan.index < 128,
    ensures
        action == action_for(plan.index, plan.callback, values@[plan.index as int]),
{
    let value: u64 = values[plan.index as usize];
    if plan.callback != 0 && value != 0 {
        Some(CallbackAction { index: plan.index, callback: plan.callback, value })
    } else {
        None
    }
}

/// Clear the value of a slot.
pub fn clear_value(values: &mut ValueSlots, index: u32) -> (r: Result<(), FlsError>)
    ensures
        if is_user_slot(index) {
            r == Ok::<(), FlsError>(()) && final(values)@ == old(values)@.update(index as int, 0)
        } else {
            r == Err::<(), FlsError>(FlsError::InvalidIndex) && final(values)@ == old(values)@
        },
{
    set_value(values, index, 0)
}

/// Take the callback of a slot away once it has run.
pub fn finish_free(callbacks: &mut CallbackSlots, plan: FreePlan)
    requires
        plan.index < 128,
    ensures
        final(callbacks)@ == old(callbacks)@.update(plan.index as int, 0),
{
    callbacks[plan.index as usize] = 0;
}

/// The value of a slot. Slots that are not taken have values too.
pub fn get_value(values: Option<&ValueSlots>, index: u32) -> (r: Result<u64, FlsError>)
    ensures
        r == if !is_user_slot(index) {
            Err::<u64, FlsError>(FlsError::InvalidIndex)
        } else {
            match values {
                Some(slots) => Ok(slots@[index as int]),
                None => Err(FlsError::NoData),
            }
        },
{
    if index < FIRST_USER_SLOT || index >= 128 {
        return Err(FlsError::InvalidIndex);
    }
    match values {
        Some(slots) => Ok(slots[index as usize]),
        None => Err(FlsError::NoData),
    }
}

/// Set the value of a slot, taken or not.
pub fn set_value(values: &mut ValueSlots, index: u32, value: u64) -> (r: Result<(), FlsError>)
    ensures
        if is_user_slot(index) {
            r == Ok::<(), FlsError>(()) && final(values)@ == old(values)@.update(index as int, value)
        } else {
            r == Err::<(), FlsError>(FlsError::InvalidIndex) && final(values)@ == old(values)@
        },
{
    if index < FIRST_USER_SLOT || index >= 128 {
        return Err(FlsError::InvalidIndex);
    }
    values[index as usize] = value;
    Ok(())
}

/// The callback that has to run for a slot when a thread ends, if any.
pub fn rundown_action(callbacks: &CallbackSlots, values: &ValueSlots, high_index: u32, index: u32)
    -> (action: Option<CallbackAction>)
    ensures
        action == if is_user_slot(index) && index <= high_index {
            action_for(index, callbacks@[index as int], values@[index as int])
        } else {
            None
        },
{
    if index < FIRST_USER_SLOT || index >= 128 || index > high_index {
        return None;
    }
    let callback: u64 = callbacks[index as usize];
    let value: u64 = values[index as usize];
    if callback != 0 && value != 0 {
        Some(CallbackAction { index, callback, value })
    } else {
        None
    }
}

} // verus!
