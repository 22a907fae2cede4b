use nt_ntdll::memstream::{available, E_INVALIDARG, STG_E_INVALIDPOINTER, STREAM_SEEK_CUR, STREAM_SEEK_END, STREAM_SEEK_SET, read_length, seek_position};

#[test]
fn read_length_is_clamped_to_available_bytes() {
    assert_eq!(read_length(10, 20, 64), 10);
    assert_eq!(read_length(10, 20, 4), 4);
    assert_eq!(read_length(20, 10, 4), 0);
}

#[test]
fn seek_position_matches_reactos_origins() {
    assert_eq!(seek_position(100, 120, 200, 10, STREAM_SEEK_SET), Ok(110));
    assert_eq!(seek_position(100, 120, 200, 10, STREAM_SEEK_CUR), Ok(130));
    assert_eq!(seek_position(100, 120, 200, 10, STREAM_SEEK_END), Ok(190));
    assert_eq!(
        seek_position(100, 120, 200, -5, STREAM_SEEK_END),
        Err(STG_E_INVALIDPOINTER)
    );
}

#[test]
fn seek_rejects_bad_origin_and_out_of_range_positions() {
    assert_eq!(seek_position(100, 120, 200, 0, 99), Err(E_INVALIDARG));
    assert_eq!(
        seek_position(100, 120, 200, -1, STREAM_SEEK_SET),
        Err(STG_E_INVALIDPOINTER)
    );
    assert_eq!(
        seek_position(100, 120, 200, 81, STREAM_SEEK_CUR),
        Err(STG_E_INVALIDPOINTER)
    );
}

#[test]
fn positions_reach_both_ends() {
    assert_eq!(available(5, 9), 4);
    assert_eq!(available(9, 5), 0);
    assert_eq!(seek_position(100, 120, 200, 0, STREAM_SEEK_END), Ok(200));
    assert_eq!(seek_position(100, 120, 200, 100, STREAM_SEEK_END), Ok(100));
    assert_eq!(seek_position(100, 120, 200, -20, STREAM_SEEK_CUR), Ok(100));
    assert_eq!(
        seek_position(100, 120, 200, i64::MIN, STREAM_SEEK_END),
        Err(STG_E_INVALIDPOINTER)
    );
}
