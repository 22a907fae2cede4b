//! Tables of raw elements that are kept in two orders: that of a comparison, and that in which the
//! elements came.
//!
//! The comparison's order is that of a binary tree. The element that was last touched is the root of
//! the tree: searches start there, and enumeration goes on from there. How the other elements hang
//! below the root follows from the splaying alone.

use vstd::prelude::*;

use crate::avl_table::{
    attach, compares, deletion_keeps_elements_sorted, distinct, element_after, equals, find_node,
    holds, in_order, insertion_keeps_elements_sorted, lemma_equals, lemma_found_equals,
    lemma_insert_distinct, lemma_place, lemma_place_none, lemma_placed, lemma_remove_distinct,
    lemma_search_ends_inside, lemma_sorted_place, new_place, occurs, orders, place_of, placed,
    search, search_finds_what_occurs, search_tree, shape, sorted_by, sorted_elements_collate,
    successor_in_table, BalancedLinks, Tree,
};
use crate::bytes::push_bytes;
use crate::splay::{delete, root_of, splay};

pub use crate::avl_table::{
    TableSearchResult, GENERIC_EQUAL, GENERIC_GREATER_THAN, GENERIC_LESS_THAN,
};

verus! {

/// The bytes of an element in front of its place in the list of insertions.
pub const TABLE_ENTRY_LIST_OFFSET: usize = 0x18;

/// The bytes in front of an element's data.
pub const TABLE_ENTRY_USER_DATA_OFFSET: usize = 0x28;

/// A table.
pub struct RtlGenericTable<C> {
    /// The tree. Its root is the element that was last touched.
    pub table_root: Tree,
    /// The node numbers in the order in which the elements came.
    pub insert_order_list: Vec<u64>,
    /// The element that was last got by its index.
    pub ordered_pointer: Option<u64>,
    /// One more than that index, or zero.
    pub which_ordered_element: u32,
    pub compare_routine: Option<C>,
    /// The next node number.
    pub next_node: u64,
}

impl<C: Fn(&[u8], &[u8]) -> u32> RtlGenericTable<C> {
    /// The elements in the order of the comparison.
    pub open spec fn items(self) -> Seq<(u64, Seq<u8>)> {
        in_order(shape(self.table_root))
    }

    /// The element that was last touched.
    pub open spec fn root(self) -> Option<u64> {
        root_of(self.table_root)
    }

    /// Whether a table is in order: node numbers are distinct and were handed out, and the list of
    /// insertions names each element once.
    pub open spec fn well_formed(self) -> bool {
        &&& distinct(self.items())
        &&& forall|i: int| 0 <= i < self.items().len() ==> (#[trigger] self.items()[i]).0
            < self.next_node
        &&& self.items().len() <= u32::MAX
        &&& self.insert_order_list@.no_duplicates()
        &&& self.insert_order_list@.len() == self.items().len()
        &&& forall|id: u64| #[trigger]
            self.insert_order_list@.contains(id) <==> holds(self.items(), id)
        &&& self.compare_routine matches Some(c) ==> compares(c)
    }

    /// Where the search for a key ends. A table without a comparison counts as empty.
    pub open spec fn looked_up(self, key: Seq<u8>) -> (TableSearchResult, Option<u64>) {
        match self.compare_routine {
            Some(c) => search(shape(self.table_root), c, key),
            None => (TableSearchResult::TableEmptyTree, None),
        }
    }

    /// An empty table without a comparison.
    pub fn zeroed() -> (table: Self)
        ensures
            table.well_formed(),
            table.table_root is None,
            table.insert_order_list@ == Seq::<u64>::empty(),
            table.ordered_pointer is None,
            table.which_ordered_element == 0,
            table.compare_routine is None,
            table.next_node == 0,
    {
        let table = RtlGenericTable {
            table_root: None,
            insert_order_list: Vec::new(),
            ordered_pointer: None,
            which_ordered_element: 0,
            compare_routine: None,
            next_node: 0,
        };
        assert(table.items() =~= Seq::empty());
        table
    }

    /// The data of an element.
    pub fn user_data_for_node(&self, id: u64) -> (r: Option<&Vec<u8>>)
        requires
            self.well_formed(),
        ensures
            match r {
                Some(data) => place_of(self.items(), id) matches Some(p) && data@
                    == self.items()[p].1,
                None => place_of(self.items(), id) is None,
            },
    {
        let ghost items = self.items();
        proof {
            lemma_place_none(items, id);
        }
        match find_node(&self.table_root, id) {
            Some(n) => {
                proof {
                    let p = choose|p: int|
                        0 <= p < items.len() && #[trigger] items[p] == (n.id, n.data@);
                    lemma_place(items, p);
                }
                Some(&n.data)
            },
            None => None,
        }
    }
}

/// Make a table empty, with a comparison.
pub fn initialize_generic_table<C: Fn(&[u8], &[u8]) -> u32>(
    table: &mut RtlGenericTable<C>,
    compare: Option<C>,
)
    requires
        compare matches Some(c) ==> compares(c),
    ensures
        final(table).well_formed(),
        final(table).table_root is None,
        final(table).insert_order_list@ == Seq::<u64>::empty(),
        final(table).ordered_pointer is None,
        final(table).which_ordered_element == 0,
        final(table).compare_routine == compare,
        final(table).next_node == 0,
{
    *table = RtlGenericTable::zeroed();
    table.compare_routine = compare;
}

proof fn lemma_nothing(t: Tree)
    ensures
        t is None <==> in_order(shape(t)).len() == 0,
{
    if t is None {
        assert(in_order(shape(t)) =~= Seq::empty());
    }
}

/// Whether a table is empty.
pub fn is_generic_table_empty<C: Fn(&[u8], &[u8]) -> u32>(table: &RtlGenericTable<C>) -> (empty: bool)
    requires
        table.well_formed(),
    ensures
        empty == (table.items().len() == 0),
{
    proof {
        lemma_nothing(table.table_root);
    }
    table.table_root.is_none()
}

/// How many elements a table has.
pub fn number_generic_table_elements<C: Fn(&[u8], &[u8]) -> u32>(table: &RtlGenericTable<C>) -> (n: u32)
    requires
        table.well_formed(),
    ensures
        n == table.items().len(),
{
    table.insert_order_list.len() as u32
}

/// Search for a key, from the root on.
pub fn find_generic_table_node_or_parent<C: Fn(&[u8], &[u8]) -> u32>(
    table: &RtlGenericTable<C>,
    buffer: &[u8],
) -> (r: (TableSearchResult, Option<u64>))
    requires
        table.well_formed(),
    ensures
        r == table.looked_up(buffer@),
{
    match &table.compare_routine {
        Some(c) => search_tree(&table.table_root, c, buffer),
        None => (TableSearchResult::TableEmptyTree, None),
    }
}

/// Whether a table is another one with the element `id` brought to the root.
pub open spec fn touched<C: Fn(&[u8], &[u8]) -> u32>(
    before: RtlGenericTable<C>,
    id: u64,
    after: RtlGenericTable<C>,
) -> bool {
    &&& after.items() == before.items()
    &&& after.root() == Some(id)
    &&& after == (RtlGenericTable { table_root: after.table_root, ..before })
}

/// Whether a table is another one with a new element where a search ended, as its root.
pub open spec fn grown<C: Fn(&[u8], &[u8]) -> u32>(
    before: RtlGenericTable<C>,
    found: (TableSearchResult, Option<u64>),
    data: Seq<u8>,
    after: RtlGenericTable<C>,
) -> bool {
    &&& after.items() == before.items().insert(
        new_place(before.items(), found),
        (before.next_node, data),
    )
    &&& after.root() == Some(before.next_node)
    &&& after.insert_order_list@ == before.insert_order_list@.push(before.next_node)
    &&& after.next_node == before.next_node + 1
    &&& after.compare_routine == before.compare_routine
    &&& after.ordered_pointer == before.ordered_pointer
    &&& after.which_ordered_element == before.which_ordered_element
}

/// The bytes that an element of a size takes.
pub open spec fn element_size(length: int) -> int {
    length + TABLE_ENTRY_USER_DATA_OFFSET
}

/// What an insertion does: an element that is there becomes the root; else storage is asked for,
/// and where it is granted the element is new.
pub open spec fn insertion<C: Fn(&[u8], &[u8]) -> u32, F: FnOnce(u32) -> bool>(
    before: RtlGenericTable<C>,
    data: Seq<u8>,
    allocate: F,
    found: (TableSearchResult, Option<u64>),
    r: Option<(u64, bool)>,
    after: RtlGenericTable<C>,
) -> bool {
    if found.0 == TableSearchResult::TableFoundNode {
        r == Some((found.1->Some_0, false)) && touched(before, found.1->Some_0, after)
    } else if element_size(data.len() as int) > u32::MAX {
        r is None && after == before
    } else if r is Some {
        call_ensures(allocate, (element_size(data.len() as int) as u32,), true) && r == Some(
            (before.next_node, true),
        ) && grown(before, found, data, after)
    } else {
        call_ensures(allocate, (element_size(data.len() as int) as u32,), false) && after == before
    }
}

proof fn lemma_next_is_new<C: Fn(&[u8], &[u8]) -> u32>(table: RtlGenericTable<C>)
    requires
        table.well_formed(),
    ensures
        !holds(table.items(), table.next_node),
{
    let items = table.items();
    if holds(items, table.next_node) {
        let i = choose|i: int|
            0 <= i < items.len() && (#[trigger] items[i]).0 == table.next_node;
        assert(table.items()[i].0 < table.next_node);
    }
}

/// Insert an element where a search for it ended. `allocate` says whether storage of a size is
/// granted; it is not asked where the element is there already.
pub fn insert_element_generic_table_full<C: Fn(&[u8], &[u8]) -> u32, F: FnOnce(u32) -> bool>(
    table: &mut RtlGenericTable<C>,
    buffer: &[u8],
    allocate: F,
    node_or_parent: Option<u64>,
    search_result: TableSearchResult,
) -> (r: Option<(u64, bool)>)
    requires
        old(table).well_formed(),
        old(table).compare_routine is Some || old(table).items().len() == 0,
        old(table).looked_up(buffer@) == (search_result, node_or_parent),
        old(table).items().len() < u32::MAX,
        old(table).next_node < u64::MAX,
        forall|size: u32| #[trigger] call_requires(allocate, (size,)),
    ensures
        final(table).well_formed(),
        insertion(
            *old(table),
            buffer@,
            allocate,
            (search_result, node_or_parent),
            r,
            *final(table),
        ),
{
    let ghost items = table.items();
    let ghost t = shape(table.table_root);
    let ghost c = table.compare_routine->Some_0;
    proof {
        lemma_nothing(table.table_root);
        lemma_search_ends_inside(t, c, buffer@);
    }
    if search_result == TableSearchResult::TableFoundNode {
        return match node_or_parent {
            Some(id) => {
                splay(&mut table.table_root, id);
                Some((id, false))
            },
            None => None,
        };
    }
    if buffer.len() as u64 > 0xffff_ffd7 {
        return None;
    }
    let total: u32 = buffer.len() as u32 + TABLE_ENTRY_USER_DATA_OFFSET as u32;
    if !allocate(total) {
        return None;
    }
    let id: u64 = table.next_node;
    let mut data: Vec<u8> = Vec::new();
    push_bytes(&mut data, buffer);
    assert(data@ =~= buffer@);
    let ghost new = (id, data@);
    let ghost q = new_place(items, (search_result, node_or_parent));
    proof {
        lemma_next_is_new(*table);
        reveal_with_fuel(shape, 2);
        if table.compare_routine is Some {
            lemma_placed(t, c, buffer@, id, data@);
        } else {
            reveal_with_fuel(in_order, 3);
            assert(in_order(placed(t, (search_result, node_or_parent), id, data@)) =~= items.insert(
                0,
                new,
            ));
        }
        lemma_insert_distinct(items, q, new);
        assert(!table.insert_order_list@.contains(id));
    }
    let leaf = Box::new(BalancedLinks { id, data, left_child: None, right_child: None });
    match node_or_parent {
        None => {
            table.table_root = Some(leaf);
        },
        Some(parent) => {
            let on_left: bool = search_result == TableSearchResult::TableInsertAsLeft;
            let _ = attach(&mut table.table_root, parent, on_left, leaf);
        },
    }
    assert(table.items() == items.insert(q, new));
    let ghost order = table.insert_order_list@;
    table.insert_order_list.push(id);
    table.next_node = id + 1;
    assert(table.items()[q].0 == id);
    splay(&mut table.table_root, id);
    proof {
        let after = table.items();
        assert forall|i: int| 0 <= i < after.len() implies (#[trigger] after[i]).0
            < table.next_node by {
            assert(holds(after, after[i].0));
            if after[i].0 != id {
                assert(holds(items, after[i].0));
                let k = choose|k: int| 0 <= k < items.len() && (#[trigger] items[k]).0
                    == after[i].0;
            }
        }
        let list = table.insert_order_list@;
        assert(list.no_duplicates()) by {
            assert forall|i: int, j: int| 0 <= i < j < list.len() implies list[i] != list[j] by {
                if j == order.len() {
                    assert(order.contains(list[i]));
                } else {
                    assert(order[i] != order[j]);
                }
            }
        }
        assert forall|k: u64| #[trigger] list.contains(k) <==> holds(after, k) by {
            if list.contains(k) {
                let i = choose|i: int| 0 <= i < list.len() && list[i] == k;
                if i < order.len() {
                    assert(order[i] == k);
                    assert(order.contains(k));
                }
            }
            if order.contains(k) {
                let i = choose|i: int| 0 <= i < order.len() && order[i] == k;
                assert(list[i] == k);
            }
            assert(list[order.len() as int] == id);
        }
    }
    Some((id, true))
}

/// Insert an element, or find it where it is there already: its node, and whether it is new.
pub fn insert_element_generic_table<C: Fn(&[u8], &[u8]) -> u32, F: FnOnce(u32) -> bool>(
    table: &mut RtlGenericTable<C>,
    buffer: &[u8],
    allocate: F,
) -> (r: Option<(u64, bool)>)
    requires
        old(table).well_formed(),
        old(table).compare_routine is Some || old(table).items().len() == 0,
        old(table).items().len() < u32::MAX,
        old(table).next_node < u64::MAX,
        forall|size: u32| #[trigger] call_requires(allocate, (size,)),
    ensures
        final(table).well_formed(),
        insertion(
            *old(table),
            buffer@,
            allocate,
            old(table).looked_up(buffer@),
            r,
            *final(table),
        ),
{
    let (result, parent) = find_generic_table_node_or_parent(table, buffer);
    insert_element_generic_table_full(table, buffer, allocate, parent, result)
}

/// Find an element, which becomes the root: its node, where the search ended, and how.
pub fn lookup_element_generic_table_full<C: Fn(&[u8], &[u8]) -> u32>(
    table: &mut RtlGenericTable<C>,
    buffer: &[u8],
) -> (r: (Option<u64>, Option<u64>, TableSearchResult))
    requires
        old(table).well_formed(),
    ensures
        final(table).well_formed(),
        (r.2, r.1) == old(table).looked_up(buffer@),
        r.0 == if r.2 == TableSearchResult::TableFoundNode {
            r.1
        } else {
            None
        },
        match r.0 {
            Some(id) => touched(*old(table), id, *final(table)),
            None => *final(table) == *old(table),
        },
{
    let (result, parent) = find_generic_table_node_or_parent(table, buffer);
    if result == TableSearchResult::TableFoundNode {
        proof {
            lemma_search_ends_inside(
                shape(table.table_root),
                table.compare_routine->Some_0,
                buffer@,
            );
        }
        if let Some(id) = parent {
            splay(&mut table.table_root, id);
        }
        (parent, parent, result)
    } else {
        (None, parent, result)
    }
}

/// Find an element, which becomes the root.
pub fn lookup_element_generic_table<C: Fn(&[u8], &[u8]) -> u32>(
    table: &mut RtlGenericTable<C>,
    buffer: &[u8],
) -> (r: Option<u64>)
    requires
        old(table).well_formed(),
    ensures
        final(table).well_formed(),
        r == if old(table).looked_up(buffer@).0 == TableSearchResult::TableFoundNode {
            old(table).looked_up(buffer@).1
        } else {
            None
        },
        match r {
            Some(id) => touched(*old(table), id, *final(table)),
            None => *final(table) == *old(table),
        },
{
    lookup_element_generic_table_full(table, buffer).0
}

/// Whether a table is another one without the element `id`. What is left keeps both orders; which
/// element is the root is not said.
pub open spec fn shrunk<C: Fn(&[u8], &[u8]) -> u32>(
    before: RtlGenericTable<C>,
    id: u64,
    after: RtlGenericTable<C>,
) -> bool {
    &&& place_of(before.items(), id) matches Some(p) && after.items() == before.items().remove(p)
    &&& after.insert_order_list@ == before.insert_order_list@.remove(
        before.insert_order_list@.index_of(id),
    )
    &&& after.ordered_pointer is None
    &&& after.which_ordered_element == 0
    &&& after.compare_routine == before.compare_routine
    &&& after.next_node == before.next_node
}

/// Delete an element. What is left keeps both orders.
pub fn delete_element_generic_table<C: Fn(&[u8], &[u8]) -> u32>(
    table: &mut RtlGenericTable<C>,
    buffer: &[u8],
) -> (deleted: bool)
    requires
        old(table).well_formed(),
    ensures
        final(table).well_formed(),
        deleted == (old(table).looked_up(buffer@).0 == TableSearchResult::TableFoundNode),
        !deleted ==> *final(table) == *old(table),
        deleted ==> shrunk(*old(table), old(table).looked_up(buffer@).1->Some_0, *final(table)),
{
    let (result, found) = find_generic_table_node_or_parent(table, buffer);
    if result != TableSearchResult::TableFoundNode {
        return false;
    }
    let ghost items = table.items();
    let ghost order = table.insert_order_list@;
    proof {
        lemma_search_ends_inside(shape(table.table_root), table.compare_routine->Some_0, buffer@);
    }
    let id: u64 = match found {
        Some(id) => id,
        None => {
            return false;
        },
    };
    assert(order.contains(id));
    let mut k: usize = 0;
    while table.insert_order_list[k] != id
        invariant
            table.insert_order_list@ == order,
            order.contains(id),
            k < order.len(),
            forall|i: int| 0 <= i < k ==> order[i] != id,
            order.len() <= u32::MAX,
        decreases order.len() - k,
    {
        proof {
            let q = choose|q: int| 0 <= q < order.len() && order[q] == id;
            assert(q > k);
        }
        k += 1;
    }
    proof {
        assert(order.index_of(id) == k) by {
            assert(order[k as int] == id);
            let q = order.index_of(id);
            assert(0 <= q < order.len() && order[q] == id);
        }
    }
    delete(&mut table.table_root, id);
    table.insert_order_list.remove(k);
    table.which_ordered_element = 0;
    table.ordered_pointer = None;
    proof {
        let after = table.items();
        let p = place_of(items, id)->Some_0;
        lemma_place_none(items, id);
        lemma_remove_distinct(items, p);
        assert forall|i: int| 0 <= i < after.len() implies (#[trigger] after[i]).0
            < table.next_node by {
            let j = if i < p {
                i
            } else {
                i + 1
            };
            assert(after[i] == items[j]);
        }
        let list = table.insert_order_list@;
        assert(list =~= order.remove(k as int));
        assert(list.no_duplicates()) by {
            assert forall|i: int, j: int| 0 <= i < j < list.len() implies list[i] != list[j] by {
                let a = if i < k {
                    i
                } else {
                    i + 1
                };
                let b = if j < k {
                    j
                } else {
                    j + 1
                };
                assert(list[i] == order[a] && list[j] == order[b]);
            }
        }
        assert forall|n: u64| #[trigger] list.contains(n) <==> holds(after, n) by {
            if list.contains(n) {
                let i = choose|i: int| 0 <= i < list.len() && list[i] == n;
                let a = if i < k {
                    i
                } else {
                    i + 1
                };
                assert(order[a] == n && a != k);
                assert(order.contains(n));
                assert(n != id) by {
                    assert(order[a] != order[k as int]);
                }
                assert(holds(items, n));
                assert(holds(after, n));
            }
            if holds(after, n) {
                assert(n != id) by {
                    if n == id {
                        let i = choose|i: int| 0 <= i < after.len() && (#[trigger] after[i]).0 == n;
                        let j = if i < p {
                            i
                        } else {
                            i + 1
                        };
                        assert(after[i] == items[j] && items[j].0 != items[p].0);
                    }
                }
                assert(holds(items, n));
                assert(order.contains(n));
                let i = choose|i: int| 0 <= i < order.len() && order[i] == n;
                if i < k {
                    assert(list[i] == n);
                } else {
                    assert(list[i - 1] == n);
                }
            }
        }
    }
    true
}

/// The next element in the order of the comparison from the restart key on. At the end the key
/// stays where it is.
pub fn enumerate_generic_table_without_splaying<C: Fn(&[u8], &[u8]) -> u32>(
    table: &RtlGenericTable<C>,
    restart_key: &mut Option<u64>,
) -> (r: Option<u64>)
    requires
        table.well_formed(),
        *old(restart_key) matches Some(id) ==> holds(table.items(), id),
    ensures
        r == element_after(table.items(), *old(restart_key)),
        *final(restart_key) == if r is Some {
            r
        } else {
            *old(restart_key)
        },
        *final(restart_key) matches Some(id) ==> holds(table.items(), id),
{
    let next = successor_in_table(&table.table_root, *restart_key);
    if next.is_some() {
        *restart_key = next;
    }
    next
}

/// The next element in the order of the comparison behind the root, or the first one; it becomes
/// the root.
pub fn enumerate_generic_table<C: Fn(&[u8], &[u8]) -> u32>(
    table: &mut RtlGenericTable<C>,
    restart: bool,
) -> (r: Option<u64>)
    requires
        old(table).well_formed(),
    ensures
        final(table).well_formed(),
        r == element_after(
            old(table).items(),
            if restart {
                None
            } else {
                old(table).root()
            },
        ),
        match r {
            Some(id) => touched(*old(table), id, *final(table)),
            None => *final(table) == *old(table),
        },
{
    let key: Option<u64> = match &table.table_root {
        Some(n) => {
            proof {
                let a = in_order(shape(n.left_child));
                assert(table.items()[a.len() as int].0 == n.id);
            }
            if restart {
                None
            } else {
                Some(n.id)
            }
        },
        None => None,
    };
    let next = successor_in_table(&table.table_root, key);
    if let Some(id) = next {
        splay(&mut table.table_root, id);
    }
    next
}

/// The element at an index, in the order in which the elements came.
pub fn get_element_generic_table<C: Fn(&[u8], &[u8]) -> u32>(
    table: &mut RtlGenericTable<C>,
    index: u32,
) -> (r: Option<u64>)
    requires
        old(table).well_formed(),
    ensures
        final(table).well_formed(),
        r == if index < old(table).insert_order_list@.len() {
            Some(old(table).insert_order_list@[index as int])
        } else {
            None
        },
        *final(table) == if r is Some {
            RtlGenericTable {
                ordered_pointer: r,
                which_ordered_element: (index + 1) as u32,
                ..*old(table)
            }
        } else {
            *old(table)
        },
{
    if index as usize >= table.insert_order_list.len() {
        return None;
    }
    let id: u64 = table.insert_order_list[index as usize];
    table.ordered_pointer = Some(id);
    table.which_ordered_element = index + 1;
    Some(id)
}

// ---------------------------------------------------------------------------------------------
// Laws
// ---------------------------------------------------------------------------------------------

/// A key that equals the data of the root is found there, whatever other elements equal it.
pub proof fn the_root_is_found_first<C: Fn(&[u8], &[u8]) -> u32>(
    table: RtlGenericTable<C>,
    key: Seq<u8>,
)
    requires
        table.well_formed(),
        table.compare_routine matches Some(c) && table.root() matches Some(id) && (place_of(
            table.items(),
            id,
        ) matches Some(p) && equals(c, key, table.items()[p].1)),
    ensures
        table.looked_up(key) == (TableSearchResult::TableFoundNode, table.root()),
{
    let n = table.table_root->Some_0;
    let a = in_order(shape(n.left_child));
    assert(table.items()[a.len() as int] == (n.id, n.data@));
    lemma_place(table.items(), a.len() as int);
}

/// A lookup right after an insertion gives the element that the insertion gave, which is the root.
/// Where that element was there already no element changes; where it is new the table has one more
/// element, which holds the data that was inserted.
pub proof fn inserted_elements_are_found<C: Fn(&[u8], &[u8]) -> u32, F: FnOnce(u32) -> bool>(
    before: RtlGenericTable<C>,
    data: Seq<u8>,
    allocate: F,
    r: Option<(u64, bool)>,
    after: RtlGenericTable<C>,
)
    requires
        before.well_formed(),
        after.well_formed(),
        before.compare_routine matches Some(c) && equals(c, data, data),
        insertion(before, data, allocate, before.looked_up(data), r, after),
        r is Some,
    ensures
        after.looked_up(data) == (TableSearchResult::TableFoundNode, Some(r->Some_0.0)),
        after.root() == Some(r->Some_0.0),
        !r->Some_0.1 ==> after.items() == before.items(),
        r->Some_0.1 ==> {
            &&& after.items().len() == before.items().len() + 1
            &&& place_of(after.items(), r->Some_0.0) matches Some(p) && after.items()[p].1 == data
        },
{
    let t = shape(before.table_root);
    let c = before.compare_routine->Some_0;
    if r->Some_0.1 {
        lemma_next_is_new(before);
        lemma_placed(t, c, data, before.next_node, data);
        let q = new_place(before.items(), search(t, c, data));
        assert(after.items()[q] == (before.next_node, data));
        lemma_place(after.items(), q);
    } else {
        lemma_found_equals(t, c, data);
    }
    the_root_is_found_first(after, data);
}

/// A sorted table stays sorted under insertion. The element is new if and only if none was found
/// that equals it. Every other key is then found if and only if it was found before.
pub proof fn sorted_tables_insert_once<C: Fn(&[u8], &[u8]) -> u32, F: FnOnce(u32) -> bool>(
    before: RtlGenericTable<C>,
    data: Seq<u8>,
    allocate: F,
    r: Option<(u64, bool)>,
    after: RtlGenericTable<C>,
)
    requires
        before.well_formed(),
        after.well_formed(),
        before.compare_routine matches Some(c) && orders(c) && sorted_by(before.items(), c),
        insertion(before, data, allocate, before.looked_up(data), r, after),
        r is Some,
    ensures
        sorted_by(after.items(), before.compare_routine->Some_0),
        r->Some_0.1 <==> !occurs(before.items(), before.compare_routine->Some_0, data),
        after.looked_up(data) == (TableSearchResult::TableFoundNode, Some(r->Some_0.0)),
        forall|key: Seq<u8>|
            (#[trigger] after.looked_up(key)).0 == TableSearchResult::TableFoundNode
                <==> before.looked_up(key).0 == TableSearchResult::TableFoundNode || equals(
                before.compare_routine->Some_0,
                key,
                data,
            ),
{
    let c = before.compare_routine->Some_0;
    let t = shape(before.table_root);
    let items = before.items();
    assert(equals(c, data, data));
    inserted_elements_are_found(before, data, allocate, r, after);
    sorted_elements_collate(items, c, data);
    search_finds_what_occurs(t, c, data);
    if r->Some_0.1 {
        lemma_sorted_place(t, c, data);
        insertion_keeps_elements_sorted(
            items,
            c,
            new_place(items, search(t, c, data)),
            before.next_node,
            data,
        );
    } else {
        lemma_found_equals(t, c, data);
    }
    assert forall|key: Seq<u8>|
        (#[trigger] after.looked_up(key)).0 == TableSearchResult::TableFoundNode
            <==> before.looked_up(key).0 == TableSearchResult::TableFoundNode || equals(
            c,
            key,
            data,
        ) by {
        sorted_elements_collate(items, c, key);
        sorted_elements_collate(after.items(), c, key);
        search_finds_what_occurs(t, c, key);
        search_finds_what_occurs(shape(after.table_root), c, key);
        if !r->Some_0.1 && equals(c, key, data) {
            let p = place_of(items, r->Some_0.0)->Some_0;
            lemma_equals(c, key, data, items[p].1);
        }
    }
}

/// A sorted table stays sorted under deletion. What was deleted is not found any more, and every key
/// that does not equal it is found if and only if it was found before.
pub proof fn sorted_tables_delete_once<C: Fn(&[u8], &[u8]) -> u32>(
    before: RtlGenericTable<C>,
    key: Seq<u8>,
    after: RtlGenericTable<C>,
)
    requires
        before.well_formed(),
        before.compare_routine matches Some(c) && orders(c) && sorted_by(before.items(), c),
        before.looked_up(key).0 == TableSearchResult::TableFoundNode,
        shrunk(before, before.looked_up(key).1->Some_0, after),
    ensures
        sorted_by(after.items(), before.compare_routine->Some_0),
        after.items().len() == before.items().len() - 1,
        after.looked_up(key).0 != TableSearchResult::TableFoundNode,
        forall|other: Seq<u8>|
            (#[trigger] after.looked_up(other)).0 == TableSearchResult::TableFoundNode
                <==> before.looked_up(other).0 == TableSearchResult::TableFoundNode && !equals(
                before.compare_routine->Some_0,
                other,
                key,
            ),
{
    let c = before.compare_routine->Some_0;
    let t = shape(before.table_root);
    let items = before.items();
    lemma_found_equals(t, c, key);
    let p = place_of(items, search(t, c, key).1->Some_0)->Some_0;
    deletion_keeps_elements_sorted(items, c, p, key);
    assert forall|other: Seq<u8>|
        (#[trigger] after.looked_up(other)).0 == TableSearchResult::TableFoundNode
            <==> before.looked_up(other).0 == TableSearchResult::TableFoundNode && !equals(
            c,
            other,
            key,
        ) by {
        sorted_elements_collate(items, c, other);
        sorted_elements_collate(after.items(), c, other);
        search_finds_what_occurs(t, c, other);
        search_finds_what_occurs(shape(after.table_root), c, other);
    }
    assert(equals(c, key, key));
    assert(after.looked_up(key).0 != TableSearchResult::TableFoundNode);
}

/// Bringing an element to the root does not change what a sorted table finds.
pub proof fn touching_changes_no_lookup<C: Fn(&[u8], &[u8]) -> u32>(
    before: RtlGenericTable<C>,
    id: u64,
    after: RtlGenericTable<C>,
    key: Seq<u8>,
)
    requires
        before.well_formed(),
        before.compare_routine matches Some(c) && orders(c) && sorted_by(before.items(), c),
        touched(before, id, after),
    ensures
        after.looked_up(key).0 == TableSearchResult::TableFoundNode <==> before.looked_up(key).0
            == TableSearchResult::TableFoundNode,
        before.looked_up(key).0 == TableSearchResult::TableFoundNode ==> after.looked_up(key)
            == before.looked_up(key),
{
    let c = before.compare_routine->Some_0;
    let items = before.items();
    sorted_elements_collate(items, c, key);
    search_finds_what_occurs(shape(before.table_root), c, key);
    search_finds_what_occurs(shape(after.table_root), c, key);
    if before.looked_up(key).0 == TableSearchResult::TableFoundNode {
        lemma_found_equals(shape(before.table_root), c, key);
        lemma_found_equals(shape(after.table_root), c, key);
        let found = before.looked_up(key).1->Some_0;
        let other = after.looked_up(key).1->Some_0;
        lemma_place_none(items, found);
        lemma_place_none(items, other);
        let p = place_of(items, found)->Some_0;
        let q = place_of(items, other)->Some_0;
        assert(equals(c, key, items[p].1) && equals(c, key, items[q].1));
        lemma_search_ends_inside(shape(before.table_root), c, key);
        lemma_search_ends_inside(shape(after.table_root), c, key);
    }
}

} // verus!
