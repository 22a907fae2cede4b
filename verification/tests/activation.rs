use nt_ntdll::activation::{ACTIVATE_EX_FLAG_RELEASE_ON_STACK_DEALLOCATION, ActivationContextStack, CallerAllocatedFrameBasic, DEACTIVATE_FLAG_FORCE_EARLY, FRAME_FLAG_ACTIVATED, FRAME_FLAG_DEACTIVATED, FRAME_FLAG_NO_DEACTIVATE, FRAME_FLAG_RELEASE_ON_DEACTIVATION, STATUS_SXS_EARLY_DEACTIVATION, STATUS_SXS_INVALID_DEACTIVATION, caller_frame_can_deactivate, heap_frame_flags, release_count, validate_activate_ex, validate_caller_frame, validate_deactivation};

#[test]
fn stack_initializes_empty_cache_and_sequence() {
    let stack = ActivationContextStack::new(0x1000);
    assert_eq!(stack.active_frame, 0);
    assert_eq!(stack.frame_list_cache_flink, 0x1008);
    assert_eq!(stack.frame_list_cache_blink, 0x1008);
    assert_eq!(stack.next_cookie_sequence_number, 1);
    assert_eq!(stack.stack_id, 1);
}

#[test]
fn deactivation_requires_a_live_cookie_and_top_order() {
    assert_eq!(
        validate_deactivation(false, false, false, 0),
        Err(STATUS_SXS_INVALID_DEACTIVATION)
    );
    assert_eq!(
        validate_deactivation(true, false, true, 0),
        Err(STATUS_SXS_EARLY_DEACTIVATION)
    );
    assert_eq!(
        validate_deactivation(true, false, true, DEACTIVATE_FLAG_FORCE_EARLY),
        Ok(())
    );
    assert_eq!(validate_deactivation(true, true, true, 0), Ok(()));
    assert_eq!(
        validate_deactivation(true, true, false, 0),
        Err(STATUS_SXS_INVALID_DEACTIVATION)
    );
    assert_eq!(
        validate_deactivation(true, true, true, 2),
        Err(nt_ntdll::STATUS_INVALID_PARAMETER)
    );
}

#[test]
fn heap_frame_ownership_tracks_transferred_references() {
    let ordinary = heap_frame_flags(0);
    assert_eq!(release_count(ordinary), 1);

    let transferred = heap_frame_flags(ACTIVATE_EX_FLAG_RELEASE_ON_STACK_DEALLOCATION);
    assert_ne!(transferred & FRAME_FLAG_RELEASE_ON_DEACTIVATION, 0);
    assert_ne!(transferred & FRAME_FLAG_NO_DEACTIVATE, 0);
    assert_eq!(release_count(transferred), 1);
    assert_eq!(release_count(FRAME_FLAG_ACTIVATED), 0);
}

#[test]
fn activation_and_caller_frame_validation_rejects_invalid_native_inputs() {
    assert_eq!(validate_activate_ex(0, true, 1), Ok(()));
    assert_eq!(
        validate_activate_ex(2, true, 1),
        Err(nt_ntdll::STATUS_INVALID_PARAMETER)
    );
    assert_eq!(
        validate_activate_ex(0, false, 1),
        Err(nt_ntdll::STATUS_INVALID_PARAMETER)
    );
    assert_eq!(
        validate_activate_ex(0, true, usize::MAX),
        Err(nt_ntdll::STATUS_INVALID_PARAMETER)
    );

    assert!(validate_caller_frame(CallerAllocatedFrameBasic::SIZE, 1));
    assert!(!validate_caller_frame(
        CallerAllocatedFrameBasic::SIZE - 1,
        1
    ));
    assert!(!validate_caller_frame(CallerAllocatedFrameBasic::SIZE, 0));
    assert!(caller_frame_can_deactivate(FRAME_FLAG_ACTIVATED));
    assert!(!caller_frame_can_deactivate(
        FRAME_FLAG_ACTIVATED | FRAME_FLAG_DEACTIVATED
    ));
}
