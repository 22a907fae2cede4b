use nt_ntdll::memory::{compare_memory_ulong};

#[test]
fn compare_memory_ulong_counts_equal_complete_words() {
    let bytes = [
        0x44, 0x33, 0x22, 0x11, 0x44, 0x33, 0x22, 0x11, 0x99, 0x33, 0x22, 0x11,
    ];
    assert_eq!(compare_memory_ulong(&bytes, 0x1122_3344), 8);
}

#[test]
fn compare_memory_ulong_ignores_trailing_partial_word() {
    let bytes = [0xEF, 0xBE, 0xAD, 0xDE, 0xEF, 0xBE];
    assert_eq!(compare_memory_ulong(&bytes, 0xDEAD_BEEF), 4);
}

#[test]
fn compare_memory_ulong_takes_whole_words_only() {
    assert_eq!(compare_memory_ulong(&[], 0), 0);
    assert_eq!(compare_memory_ulong(&[0, 0, 0], 0), 0);
    assert_eq!(compare_memory_ulong(&[1, 0, 0, 0, 1, 0, 0, 0], 1), 8);
    assert_eq!(compare_memory_ulong(&[2, 0, 0, 0, 1, 0, 0, 0], 1), 0);
}
