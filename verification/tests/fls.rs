use nt_ntdll::fls::{AllocationWords, FlsError, SLOT_COUNT, begin_free, callback_action, clear_value, commit_reservation, finish_free, get_value, initialize_words, is_allocated, reserve, rollback_reservation, rundown_action, set_value};

fn initialized_words() -> AllocationWords {
    let mut words = [u32::MAX; 4];
    initialize_words(&mut words);
    words
}

#[test]
fn initialization_reserves_only_slot_zero() {
    let words = initialized_words();
    assert!(is_allocated(&words, 0));
    assert!((1..128).all(|index| !is_allocated(&words, index)));
    assert!(!is_allocated(&words, 128));
}

#[test]
fn reserve_is_first_fit_reuses_and_exhausts() {
    let mut words = initialized_words();
    let reservations: std::vec::Vec<_> = (1..128)
        .map(|expected| {
            let reservation = reserve(&mut words).unwrap();
            assert_eq!(reservation.index(), expected);
            reservation
        })
        .collect();
    assert_eq!(reserve(&mut words), Err(FlsError::NoSlots));
    rollback_reservation(&mut words, reservations.into_iter().nth(41).unwrap());
    assert_eq!(reserve(&mut words).unwrap().index(), 42);
}

#[test]
fn rollback_only_releases_the_reserved_bit() {
    let mut words = initialized_words();
    let first = reserve(&mut words).unwrap();
    let second = reserve(&mut words).unwrap();
    rollback_reservation(&mut words, first);
    assert!(!is_allocated(&words, 1));
    assert!(is_allocated(&words, 2));
    assert_eq!(second.index(), 2);
}

#[test]
fn rollback_does_not_publish_partially_allocated_state() {
    let mut words = initialized_words();
    let mut callbacks = [0; SLOT_COUNT];
    let mut values = [0; SLOT_COUNT];
    callbacks[1] = 0x1111;
    values[1] = 0x2222;
    let high_index = 60;
    let reservation = reserve(&mut words).unwrap();

    rollback_reservation(&mut words, reservation);

    assert!(!is_allocated(&words, 1));
    assert_eq!(callbacks[1], 0x1111);
    assert_eq!(values[1], 0x2222);
    assert_eq!(high_index, 60);
}

#[test]
fn commit_clears_current_value_and_only_raises_high_index() {
    let mut words = initialized_words();
    let reservation = reserve(&mut words).unwrap();
    let mut callbacks = [0; SLOT_COUNT];
    let mut values = [0; SLOT_COUNT];
    values[1] = 0xaaaa;
    let mut high_index = 70;
    commit_reservation(
        reservation,
        &mut callbacks,
        &mut values,
        0x1234,
        &mut high_index,
    );
    assert_eq!(callbacks[1], 0x1234);
    assert_eq!(values[1], 0);
    assert_eq!(high_index, 70);
}

#[test]
fn invalid_and_unallocated_free_leave_state_unchanged() {
    let mut words = initialized_words();
    let callbacks = [0x1234; SLOT_COUNT];
    let original = words;
    assert_eq!(
        begin_free(&mut words, &callbacks, 0),
        Err(FlsError::InvalidIndex)
    );
    assert_eq!(
        begin_free(&mut words, &callbacks, 128),
        Err(FlsError::InvalidIndex)
    );
    assert_eq!(
        begin_free(&mut words, &callbacks, 7),
        Err(FlsError::NotAllocated)
    );
    assert_eq!(words, original);
}

#[test]
fn free_keeps_callback_visible_until_values_are_processed() {
    let mut words = initialized_words();
    let reservation = reserve(&mut words).unwrap();
    let mut callbacks = [0; SLOT_COUNT];
    let mut current_values = [0; SLOT_COUNT];
    let mut high_index = 0;
    commit_reservation(
        reservation,
        &mut callbacks,
        &mut current_values,
        0x1000,
        &mut high_index,
    );
    let mut other_values = [0; SLOT_COUNT];
    other_values[1] = 0x2000;

    let plan = begin_free(&mut words, &callbacks, 1).unwrap();
    assert_eq!(callbacks[1], 0x1000);
    assert_eq!(callback_action(&plan, &current_values), None);
    assert_eq!(callback_action(&plan, &other_values).unwrap().value, 0x2000);
    clear_value(&mut other_values, 1).unwrap();
    finish_free(&mut callbacks, plan);
    assert_eq!(other_values[1], 0);
    assert_eq!(callbacks[1], 0);
}

#[test]
fn get_and_set_accept_valid_unallocated_slots() {
    let mut values = [0; SLOT_COUNT];
    set_value(&mut values, 127, 0xfeed).unwrap();
    assert_eq!(get_value(Some(&values), 127), Ok(0xfeed));
    assert_eq!(get_value(None, 127), Err(FlsError::NoData));
    assert_eq!(set_value(&mut values, 0, 1), Err(FlsError::InvalidIndex));
    assert_eq!(get_value(Some(&values), 128), Err(FlsError::InvalidIndex));
}

#[test]
fn rundown_is_bounded_and_skips_null_callback_or_value() {
    let mut callbacks = [0; SLOT_COUNT];
    let mut values = [0; SLOT_COUNT];
    callbacks[2] = 0x20;
    values[2] = 0x200;
    callbacks[3] = 0x30;
    callbacks[4] = 0x40;
    values[4] = 0x400;
    assert_eq!(rundown_action(&callbacks, &values, 3, 1), None);
    assert_eq!(
        rundown_action(&callbacks, &values, 3, 2).unwrap().value,
        0x200
    );
    assert_eq!(rundown_action(&callbacks, &values, 3, 3), None);
    assert_eq!(rundown_action(&callbacks, &values, 3, 4), None);
    assert_eq!(rundown_action(&callbacks, &values, 200, 128), None);
}

#[test]
fn free_reentrancy_can_reserve_the_same_slot_before_finish() {
    let mut words = initialized_words();
    let old = reserve(&mut words).unwrap();
    let mut callbacks = [0; SLOT_COUNT];
    let mut values = [0; SLOT_COUNT];
    let mut high_index = 0;
    commit_reservation(old, &mut callbacks, &mut values, 0x1111, &mut high_index);
    let plan = begin_free(&mut words, &callbacks, 1).unwrap();
    values[1] = 0x2222;
    assert_eq!(callback_action(&plan, &values).unwrap().value, 0x2222);

    let replacement = reserve(&mut words).unwrap();
    assert_eq!(replacement.index(), 1);
    assert_eq!(plan.callback, 0x1111);
    commit_reservation(
        replacement,
        &mut callbacks,
        &mut values,
        0x3333,
        &mut high_index,
    );
    set_value(&mut values, 1, 0x4444).unwrap();

    clear_value(&mut values, 1).unwrap();
    finish_free(&mut callbacks, plan);
    assert_eq!(callbacks[1], 0);
    assert_eq!(values[1], 0);
}

#[test]
fn giving_a_slot_back_restores_the_words() {
    let mut words = initialized_words();
    for _ in 0..40 {
        reserve(&mut words).unwrap();
    }
    let before = words;
    let reservation = reserve(&mut words).unwrap();
    assert_eq!(reservation.index(), 41);
    assert_ne!(words, before);
    rollback_reservation(&mut words, reservation);
    assert_eq!(words, before);
}

#[test]
fn clearing_a_value_needs_a_slot_that_can_be_handed_out() {
    let mut values = [7; SLOT_COUNT];
    assert_eq!(clear_value(&mut values, 0), Err(FlsError::InvalidIndex));
    assert_eq!(clear_value(&mut values, 128), Err(FlsError::InvalidIndex));
    assert_eq!(clear_value(&mut values, 127), Ok(()));
    assert_eq!(values[127], 0);
    assert_eq!(values[126], 7);
}
