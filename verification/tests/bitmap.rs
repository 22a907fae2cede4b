use nt_ntdll::bitmap::{BITMAP_NONE, BitMap, BitmapRun};

fn contains_run(runs: &[BitmapRun], starting_index: u32, number_of_bits: u32) -> bool {
    runs.iter()
        .any(|run| run.starting_index == starting_index && run.number_of_bits == number_of_bits)
}

#[test]
fn owned_bitmap_alloc_free() {
    let mut b = BitMap::new(64);
    assert_eq!(b.find_clear_and_set(1, 0), 0);
    assert_eq!(b.find_clear_and_set(1, 0), 1);
    assert_eq!(b.count_set(), 2);
    assert!(b.are_bits_set(0, 2));
    assert!(b.are_bits_clear(2, 10));
    b.clear(0);
    assert_eq!(b.find_clear_and_set(1, 0), 0); // reuses freed slot
}

#[test]
fn ranges() {
    let mut b = BitMap::new(128);
    b.set_range(10, 20);
    assert_eq!(b.count_set(), 20);
    assert!(b.are_bits_set(10, 20));
    b.clear_range(10, 5);
    assert_eq!(b.count_set(), 15);
}

#[test]
fn find_and_count_clear_set_runs() {
    let mut b = BitMap::new(32);
    b.set_range(8, 4);
    b.set_range(20, 3);
    assert_eq!(b.count_set(), 7);
    assert_eq!(b.count_clear(), 25);
    assert_eq!(b.find_set(4, 0), 8);
    assert_eq!(b.find_clear(8, 16), 23);
    assert_eq!(b.find_set_and_clear(3, 16), 20);
    assert!(b.are_bits_clear(20, 3));
}

#[test]
fn forward_and_backward_clear_runs() {
    let mut b = BitMap::new(32);
    b.set_range(0, 32);
    b.clear_range(3, 4);
    b.clear_range(12, 2);

    let mut start = u32::MAX;
    assert_eq!(b.find_first_clear_run(&mut start), 4);
    assert_eq!(start, 3);
    assert_eq!(b.find_next_forward_clear(7, &mut start), 2);
    assert_eq!(start, 12);
    assert_eq!(b.find_next_forward_set(7, &mut start), 5);
    assert_eq!(start, 7);
    assert_eq!(b.find_last_backward_clear(31, &mut start), 2);
    assert_eq!(start, 12);
    assert_eq!(b.find_last_backward_clear(11, &mut start), 4);
    assert_eq!(start, 3);
}

#[test]
fn clear_run_collection_matches_winetest_shape() {
    let mut b = BitMap::new(2048);
    b.set_range(0, 2048);
    b.clear_range(7, 19);
    b.clear_range(101, 3);
    b.clear_range(1877, 33);

    let mut runs = [BitmapRun::default(); 4];
    let count = b.find_clear_runs(&mut runs[..2], false);
    assert_eq!(count, 2);
    assert!(contains_run(&runs[..2], 7, 19));
    assert!(contains_run(&runs[..2], 101, 3));
    assert_eq!(runs[2], BitmapRun::default());

    runs = [BitmapRun::default(); 4];
    let count = b.find_clear_runs(&mut runs[..2], true);
    assert_eq!(count, 2);
    assert!(contains_run(&runs[..2], 7, 19));
    assert!(contains_run(&runs[..2], 1877, 33));
    assert_eq!(runs[2], BitmapRun::default());

    runs = [BitmapRun::default(); 4];
    let count = b.find_clear_runs(&mut runs[..3], true);
    assert_eq!(count, 3);
    assert_eq!(
        runs[..3].iter().map(|r| r.number_of_bits).sum::<u32>(),
        19 + 3 + 33
    );
    assert_eq!(runs[3], BitmapRun::default());

    let mut start = 0;
    assert_eq!(b.find_longest_clear_run(&mut start), 33);
    assert_eq!(start, 1877);

    b.set_range(0, 2048);
    assert_eq!(b.find_clear_runs(&mut runs, true), 0);
    assert_eq!(b.find_longest_clear_run(&mut start), 0);
}

#[test]
fn bits_behind_the_end_are_never_set() {
    let mut b = BitMap::new(40);
    b.set_range(38, 10);
    b.set(40);
    assert_eq!(b.count_set(), 2);
    assert_eq!(b.count_clear(), 38);
    assert!(b.test(39));
    assert!(!b.test(40));
    assert!(!b.are_bits_set(38, 3));
    assert!(!b.are_bits_clear(0, 41));
    assert!(!b.are_bits_set(0, 0));
    assert!(!b.are_bits_clear(0, 0));
    assert_eq!(b.len_bits(), 64);
}

#[test]
fn a_search_that_finds_nothing_says_so() {
    let mut b = BitMap::new(16);
    b.set_range(4, 8);
    assert_eq!(b.find_clear(5, 0), BITMAP_NONE);
    assert_eq!(b.find_clear_and_set(5, 0), BITMAP_NONE);
    assert_eq!(b.count_set(), 8);
    assert_eq!(b.find_clear(4, 1), 12);
    assert_eq!(b.find_clear(4, 13), 0);
    assert_eq!(b.find_clear(4, 99), 0);
    assert_eq!(b.find_set_and_clear(9, 0), BITMAP_NONE);
    assert_eq!(b.find_set_and_clear(8, 0), 4);
    assert_eq!(b.count_clear(), 16);
}

#[test]
fn a_missing_run_leaves_the_start_alone() {
    let b = BitMap::new(8);
    let mut start = 77;
    assert_eq!(b.find_next_forward_set(0, &mut start), 0);
    assert_eq!(b.find_next_forward_clear(8, &mut start), 0);
    assert_eq!(start, 77);
    assert_eq!(b.find_last_backward_clear(3, &mut start), 4);
    assert_eq!(start, 0);
    assert_eq!(BitMap::new(0).find_last_backward_clear(0, &mut start), 0);
}
