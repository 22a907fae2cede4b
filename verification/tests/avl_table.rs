use nt_ntdll::avl_table::{
    delete_element_generic_table_avl, enumerate_generic_table_avl,
    enumerate_generic_table_like_a_directory, enumerate_generic_table_without_splaying_avl,
    find_avl_table_node_or_parent, get_element_generic_table_avl, initialize_generic_table_avl,
    insert_element_generic_table_avl, insert_element_generic_table_full_avl,
    is_generic_table_empty_avl, lookup_element_generic_table_avl,
    lookup_element_generic_table_full_avl, lookup_first_matching_element_generic_table_avl,
    number_generic_table_elements_avl, RtlAvlTable,
    TableSearchResult, GENERIC_EQUAL, GENERIC_GREATER_THAN, GENERIC_LESS_THAN, STATUS_NO_MATCH,
    STATUS_NO_MORE_MATCHES, STATUS_SUCCESS, TABLE_ENTRY_USER_DATA_OFFSET,
};

fn value(bytes: &[u8]) -> i32 {
    i32::from_le_bytes(bytes.try_into().unwrap())
}

type Comparison = fn(&[u8], &[u8]) -> u32;

fn compare_i32(first: &[u8], second: &[u8]) -> u32 {
    let a = value(first);
    let b = value(second);
    let (ak, bk) = if a < 0 { (-a, b / 10) } else { (a, b) };
    if ak < bk {
        GENERIC_LESS_THAN
    } else if ak > bk {
        GENERIC_GREATER_THAN
    } else {
        GENERIC_EQUAL
    }
}

fn table() -> RtlAvlTable<Comparison> {
    let mut table = RtlAvlTable::<Comparison>::zeroed();
    initialize_generic_table_avl(&mut table, Some(compare_i32 as Comparison));
    table
}

fn insert(table: &mut RtlAvlTable<Comparison>, value: i32) -> (u64, bool) {
    insert_element_generic_table_avl(table, &value.to_le_bytes(), |_| true).unwrap()
}

fn data(table: &RtlAvlTable<Comparison>, node: Option<u64>) -> i32 {
    value(table.user_data_for_node(node.unwrap()).unwrap())
}

#[test]
fn avl_table_insert_lookup_duplicate_and_delete() {
    let mut table = table();
    assert!(is_generic_table_empty_avl(&table));

    for value in [20i32, 10, 30] {
        let (_, inserted) = insert(&mut table, value);
        assert!(inserted);
    }
    assert_eq!(number_generic_table_elements_avl(&table), 3);
    assert_eq!(table.depth_of_tree, 2);

    let key = 10i32.to_le_bytes();
    let found = lookup_element_generic_table_avl(&table, &key);
    assert!(found.is_some());
    assert_eq!(data(&table, found), 10);

    let (dup, inserted) = insert(&mut table, 10);
    assert!(!inserted);
    assert_eq!(data(&table, Some(dup)), 10);
    assert_eq!(number_generic_table_elements_avl(&table), 3);

    assert!(delete_element_generic_table_avl(&mut table, &key));
    assert_eq!(number_generic_table_elements_avl(&table), 2);
    assert!(lookup_element_generic_table_avl(&table, &key).is_none());
    assert!(!delete_element_generic_table_avl(&mut table, &key));
}

#[test]
fn enumeration_and_get_element_are_collation_ordered() {
    let mut table = table();
    for value in [2i32, 1, 3] {
        insert(&mut table, value);
    }

    let first = enumerate_generic_table_avl(&mut table, true);
    assert_eq!(data(&table, first), 1);
    let second = enumerate_generic_table_avl(&mut table, false);
    assert_eq!(data(&table, second), 2);
    let third = enumerate_generic_table_avl(&mut table, false);
    assert_eq!(data(&table, third), 3);
    assert!(enumerate_generic_table_avl(&mut table, false).is_none());

    let element = get_element_generic_table_avl(&mut table, 0);
    assert_eq!(data(&table, element), 1);
    let element = get_element_generic_table_avl(&mut table, 2);
    assert_eq!(data(&table, element), 3);
    assert!(get_element_generic_table_avl(&mut table, 3).is_none());

    let mut restart = None;
    let no_splay_first = enumerate_generic_table_without_splaying_avl(&table, &mut restart);
    assert_eq!(data(&table, no_splay_first), 1);
    let no_splay_second = enumerate_generic_table_without_splaying_avl(&table, &mut restart);
    assert_eq!(data(&table, no_splay_second), 2);
}

#[test]
fn full_lookup_feeds_full_insert() {
    let mut table = table();
    insert(&mut table, 10);

    let missing = 5i32.to_le_bytes();
    let (found, node_or_parent, result) = lookup_element_generic_table_full_avl(&table, &missing);
    assert!(found.is_none());
    assert_eq!(result, TableSearchResult::TableInsertAsLeft);
    assert_eq!(
        find_avl_table_node_or_parent(&table, &missing),
        (result, node_or_parent)
    );

    let (added, inserted) = insert_element_generic_table_full_avl(
        &mut table,
        &missing,
        |_| true,
        node_or_parent,
        result,
    )
    .unwrap();
    assert!(inserted);
    assert_eq!(data(&table, Some(added)), 5);
}

#[test]
fn lookup_first_matching_walks_to_leftmost_equal_match() {
    let mut table = table();
    for value in [20i32, 11, 10, 12, 30] {
        insert(&mut table, value);
    }

    let key = (-1i32).to_le_bytes();
    let mut restart = None;
    let first = lookup_first_matching_element_generic_table_avl(&table, &key, &mut restart);
    assert_eq!(data(&table, first), 10);
    assert_eq!(data(&table, restart), 10);
}

fn even_match(user_data: &[u8]) -> u32 {
    if value(user_data) % 2 == 0 {
        STATUS_SUCCESS
    } else {
        STATUS_NO_MATCH
    }
}

#[test]
fn like_a_directory_filters_and_recovers_after_delete() {
    let mut table = table();
    for value in [1i32, 2, 3, 4] {
        insert(&mut table, value);
    }

    let mut restart = None;
    let mut delete_count = 0u32;
    let first_even = enumerate_generic_table_like_a_directory(
        &table,
        Some(&even_match),
        0,
        &mut restart,
        &mut delete_count,
        &1i32.to_le_bytes(),
    );
    assert_eq!(data(&table, first_even), 2);

    let delete = 2i32.to_le_bytes();
    assert!(delete_element_generic_table_avl(&mut table, &delete));
    let next_even = enumerate_generic_table_like_a_directory(
        &table,
        Some(&even_match),
        1,
        &mut restart,
        &mut delete_count,
        &delete,
    );
    assert_eq!(data(&table, next_even), 4);
    assert_eq!(delete_count, table.delete_count);
}

#[test]
fn a_match_routine_can_end_a_directory() {
    let mut table = table();
    insert(&mut table, 1);
    let mut restart = None;
    let mut delete_count = 0u32;
    assert!(enumerate_generic_table_like_a_directory(
        &table,
        Some(&|_: &[u8]| STATUS_NO_MORE_MATCHES),
        0,
        &mut restart,
        &mut delete_count,
        &1i32.to_le_bytes(),
    )
    .is_none());
}

#[test]
fn storage_is_asked_for_with_room_for_the_links() {
    let mut table = table();
    assert_eq!(
        insert_element_generic_table_avl(&mut table, &7i32.to_le_bytes(), |size| {
            assert_eq!(size as usize, TABLE_ENTRY_USER_DATA_OFFSET + 4);
            false
        }),
        None
    );
    assert!(is_generic_table_empty_avl(&table));
}

#[test]
fn many_elements_stay_in_order_through_insertions_and_deletions() {
    let mut table = table();
    let mut expected = Vec::new();
    for step in 0..200i32 {
        let value = step * 73 % 200 + 1;
        insert(&mut table, value);
        expected.push(value);
    }
    for step in 0..100i32 {
        let value = step * 37 % 200 + 1;
        assert!(delete_element_generic_table_avl(&mut table, &value.to_le_bytes()));
        expected.retain(|other| *other != value);
    }
    expected.sort();
    let mut seen = Vec::new();
    let mut restart = None;
    while let Some(node) = enumerate_generic_table_without_splaying_avl(&table, &mut restart) {
        seen.push(data(&table, Some(node)));
    }
    assert_eq!(seen, expected);
    assert_eq!(number_generic_table_elements_avl(&table), 100);
}
