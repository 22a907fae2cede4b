use nt_ntdll::generic_table::{
    delete_element_generic_table, enumerate_generic_table,
    enumerate_generic_table_without_splaying, find_generic_table_node_or_parent,
    get_element_generic_table, initialize_generic_table, insert_element_generic_table,
    insert_element_generic_table_full, is_generic_table_empty, lookup_element_generic_table,
    lookup_element_generic_table_full, number_generic_table_elements, RtlGenericTable,
    TableSearchResult, GENERIC_EQUAL, GENERIC_GREATER_THAN, GENERIC_LESS_THAN,
    TABLE_ENTRY_USER_DATA_OFFSET,
};

fn value(bytes: &[u8]) -> i32 {
    i32::from_le_bytes(bytes.try_into().unwrap())
}

type Comparison = fn(&[u8], &[u8]) -> u32;

fn compare_i32(first: &[u8], second: &[u8]) -> u32 {
    let a = value(first);
    let b = value(second);
    if a < b {
        GENERIC_LESS_THAN
    } else if a > b {
        GENERIC_GREATER_THAN
    } else {
        GENERIC_EQUAL
    }
}

fn table() -> RtlGenericTable<Comparison> {
    let mut table = RtlGenericTable::<Comparison>::zeroed();
    initialize_generic_table(&mut table, Some(compare_i32 as Comparison));
    table
}

fn insert(table: &mut RtlGenericTable<Comparison>, value: i32) -> (u64, bool) {
    insert_element_generic_table(table, &value.to_le_bytes(), |_| true).unwrap()
}

fn data(table: &RtlGenericTable<Comparison>, node: Option<u64>) -> i32 {
    value(table.user_data_for_node(node.unwrap()).unwrap())
}

#[test]
fn generic_table_insert_lookup_duplicate_and_delete() {
    let mut table = table();
    assert!(is_generic_table_empty(&table));

    for value in [20i32, 10, 30] {
        let (_, inserted) = insert(&mut table, value);
        assert!(inserted);
    }
    assert_eq!(number_generic_table_elements(&table), 3);

    let key = 10i32.to_le_bytes();
    let found = lookup_element_generic_table(&mut table, &key);
    assert!(found.is_some());
    assert_eq!(data(&table, found), 10);

    let (dup, inserted) = insert(&mut table, 10);
    assert!(!inserted);
    assert_eq!(data(&table, Some(dup)), 10);
    assert_eq!(number_generic_table_elements(&table), 3);

    assert!(delete_element_generic_table(&mut table, &key));
    assert_eq!(number_generic_table_elements(&table), 2);
    assert!(lookup_element_generic_table(&mut table, &key).is_none());
}

#[test]
fn enumeration_and_get_element_use_insertion_order() {
    let mut table = table();
    for value in [2i32, 1, 3] {
        insert(&mut table, value);
    }

    let first_sorted = enumerate_generic_table(&mut table, true);
    assert_eq!(data(&table, first_sorted), 1);
    let second_sorted = enumerate_generic_table(&mut table, false);
    assert_eq!(data(&table, second_sorted), 2);

    let first_inserted = get_element_generic_table(&mut table, 0);
    assert_eq!(data(&table, first_inserted), 2);
    let third_inserted = get_element_generic_table(&mut table, 2);
    assert_eq!(data(&table, third_inserted), 3);

    let mut restart = None;
    let no_splay_first = enumerate_generic_table_without_splaying(&table, &mut restart);
    assert_eq!(data(&table, no_splay_first), 1);
    let no_splay_second = enumerate_generic_table_without_splaying(&table, &mut restart);
    assert_eq!(data(&table, no_splay_second), 2);
}

#[test]
fn a_search_ends_beside_the_place_of_a_missing_element() {
    let mut table = table();
    assert_eq!(
        find_generic_table_node_or_parent(&table, &5i32.to_le_bytes()),
        (TableSearchResult::TableEmptyTree, None)
    );
    let (ten, _) = insert(&mut table, 10);
    let (found, parent, result) =
        lookup_element_generic_table_full(&mut table, &5i32.to_le_bytes());
    assert_eq!((found, parent), (None, Some(ten)));
    assert_eq!(result, TableSearchResult::TableInsertAsLeft);
    let (five, inserted) = insert_element_generic_table_full(
        &mut table,
        &5i32.to_le_bytes(),
        |size| {
            assert_eq!(size as usize, TABLE_ENTRY_USER_DATA_OFFSET + 4);
            true
        },
        parent,
        result,
    )
    .unwrap();
    assert!(inserted);
    let mut restart = None;
    assert_eq!(
        enumerate_generic_table_without_splaying(&table, &mut restart),
        Some(five)
    );
    assert_eq!(
        insert_element_generic_table(&mut table, &6i32.to_le_bytes(), |_| false),
        None
    );
    assert_eq!(number_generic_table_elements(&table), 2);
}

#[test]
fn a_search_starts_at_the_element_that_was_touched_last() {
    let mut table = table();
    let (ten, _) = insert(&mut table, 10);
    let (twenty, _) = insert(&mut table, 20);
    assert_eq!(table.table_root.as_ref().map(|root| root.id), Some(twenty));
    assert_eq!(
        find_generic_table_node_or_parent(&table, &15i32.to_le_bytes()),
        (TableSearchResult::TableInsertAsRight, Some(ten))
    );
    assert_eq!(
        lookup_element_generic_table(&mut table, &10i32.to_le_bytes()),
        Some(ten)
    );
    assert_eq!(table.table_root.as_ref().map(|root| root.id), Some(ten));
    assert_eq!(
        find_generic_table_node_or_parent(&table, &15i32.to_le_bytes()),
        (TableSearchResult::TableInsertAsLeft, Some(twenty))
    );
}

fn compare_roughly(first: &[u8], second: &[u8]) -> u32 {
    let a = value(first);
    let b = value(second);
    if a + 5 < b {
        GENERIC_LESS_THAN
    } else if a > b + 5 {
        GENERIC_GREATER_THAN
    } else {
        GENERIC_EQUAL
    }
}

#[test]
fn of_equal_elements_the_root_is_found() {
    let mut table = RtlGenericTable::<Comparison>::zeroed();
    initialize_generic_table(&mut table, Some(compare_roughly as Comparison));
    let (zero, _) = insert(&mut table, 0);
    let (ten, _) = insert(&mut table, 10);
    assert_eq!(
        find_generic_table_node_or_parent(&table, &5i32.to_le_bytes()),
        (TableSearchResult::TableFoundNode, Some(ten))
    );
    lookup_element_generic_table(&mut table, &0i32.to_le_bytes());
    assert_eq!(
        find_generic_table_node_or_parent(&table, &5i32.to_le_bytes()),
        (TableSearchResult::TableFoundNode, Some(zero))
    );
}

#[test]
fn touching_and_deleting_keep_the_order() {
    let mut table = table();
    for value in [40i32, 10, 60, 20, 50, 30, 70] {
        insert(&mut table, value);
    }
    for key in [10i32, 70, 30, 50] {
        let found = lookup_element_generic_table(&mut table, &key.to_le_bytes());
        assert_eq!(data(&table, found), key);
        assert_eq!(table.table_root.as_ref().map(|root| root.id), found);
    }
    assert!(!delete_element_generic_table(&mut table, &55i32.to_le_bytes()));
    assert!(delete_element_generic_table(&mut table, &50i32.to_le_bytes()));
    assert!(delete_element_generic_table(&mut table, &10i32.to_le_bytes()));
    let mut sorted = Vec::new();
    let mut node = enumerate_generic_table(&mut table, true);
    while node.is_some() {
        sorted.push(data(&table, node));
        node = enumerate_generic_table(&mut table, false);
    }
    assert_eq!(sorted, vec![20, 30, 40, 60, 70]);
    let came: Vec<i32> = (0..5)
        .map(|index| {
            let node = get_element_generic_table(&mut table, index);
            data(&table, node)
        })
        .collect();
    assert_eq!(came, vec![40, 60, 20, 30, 70]);
}
