//! Ordered tables of raw elements, kept in a binary tree.
//!
//! The caller supplies the comparison. Elements are told apart by node numbers, which stay with an
//! element as long as it is in the table.

use vstd::prelude::*;

use crate::bytes::{push_bytes};

pub mod laws;

verus! {

pub const STATUS_SUCCESS: u32 = 0x0000_0000;

pub const STATUS_NO_MATCH: u32 = 0xC000_0272;

pub const STATUS_NO_MORE_MATCHES: u32 = 0xC000_0273;

/// Where a search ended.
#[derive(Copy, Clone, Debug, PartialEq, Eq, Structural)]
pub enum TableSearchResult {
    /// The table is empty.
    TableEmptyTree,
    /// The element is in the table.
    TableFoundNode,
    /// The element belongs below the node on the left.
    TableInsertAsLeft,
    /// The element belongs below the node on the right.
    TableInsertAsRight,
}

pub const GENERIC_LESS_THAN: u32 = 0;

pub const GENERIC_GREATER_THAN: u32 = 1;

pub const GENERIC_EQUAL: u32 = 2;

/// The bytes in front of an element's data.
pub const TABLE_ENTRY_USER_DATA_OFFSET: usize = 0x20;

/// Whether a comparison can say `r` of a key and the data of an element.
pub open spec fn can_say<C: Fn(&[u8], &[u8]) -> u32>(c: C, key: Seq<u8>, data: Seq<u8>, r: u32) -> bool {
    exists|k: &[u8], d: &[u8]| k@ == key && d@ == data && #[trigger] call_ensures(c, (k, d), r)
}

/// What a comparison says of a key and the data of an element.
pub open spec fn outcome<C: Fn(&[u8], &[u8]) -> u32>(c: C, key: Seq<u8>, data: Seq<u8>) -> u32 {
    choose|r: u32| can_say(c, key, data, r)
}

/// Whether a comparison can be made of any key and any data, and always says the same of the same
/// bytes.
pub open spec fn compares<C: Fn(&[u8], &[u8]) -> u32>(c: C) -> bool {
    &&& forall|k: &[u8], d: &[u8]| #[trigger] call_requires(c, (k, d))
    &&& forall|key: Seq<u8>, data: Seq<u8>, r: u32, other: u32|
        #![trigger can_say(c, key, data, r), can_say(c, key, data, other)]
        can_say(c, key, data, r) && can_say(c, key, data, other) ==> r == other
}

/// Compare a key with the data of an element.
pub fn compare<C: Fn(&[u8], &[u8]) -> u32>(c: &C, key: &[u8], data: &[u8]) -> (r: u32)
    requires
        compares(*c),
    ensures
        r == outcome(*c, key@, data@),
{
    let r: u32 = c(key, data);
    assert(can_say(*c, key@, data@, r));
    r
}

/// Whether a test can say `r` of the data of an element.
pub open spec fn can_judge<M: Fn(&[u8]) -> u32>(m: M, data: Seq<u8>, r: u32) -> bool {
    exists|d: &[u8]| d@ == data && #[trigger] call_ensures(m, (d,), r)
}

/// What a test says of the data of an element.
pub open spec fn judgement<M: Fn(&[u8]) -> u32>(m: M, data: Seq<u8>) -> u32 {
    choose|r: u32| can_judge(m, data, r)
}

/// Whether a test can be made of any data, and always says the same of the same bytes.
pub open spec fn judges<M: Fn(&[u8]) -> u32>(m: M) -> bool {
    &&& forall|d: &[u8]| #[trigger] call_requires(m, (d,))
    &&& forall|data: Seq<u8>, r: u32, other: u32|
        #![trigger can_judge(m, data, r), can_judge(m, data, other)]
        can_judge(m, data, r) && can_judge(m, data, other) ==> r == other
}

fn judge<M: Fn(&[u8]) -> u32>(m: &M, data: &[u8]) -> (r: u32)
    requires
        judges(*m),
    ensures
        r == judgement(*m, data@),
{
    let r: u32 = m(data);
    assert(can_judge(*m, data@, r));
    r
}

/// A node of the tree.
pub struct BalancedLinks {
    /// The node number.
    pub id: u64,
    /// The data of the element.
    pub data: Vec<u8>,
    pub left_child: Option<Box<BalancedLinks>>,
    pub right_child: Option<Box<BalancedLinks>>,
}

/// A tree, which may be empty.
pub type Tree = Option<Box<BalancedLinks>>;

/// A table.
pub struct RtlAvlTable<C> {
    /// The tree.
    pub balanced_root: Tree,
    /// The element that was last got by its index.
    pub ordered_pointer: Option<u64>,
    /// One more than that index, or zero.
    pub which_ordered_element: u32,
    pub number_generic_table_elements: u32,
    pub depth_of_tree: u32,
    /// The element that enumeration gave last.
    pub restart_key: Option<u64>,
    /// How many elements were deleted.
    pub delete_count: u32,
    pub compare_routine: Option<C>,
    /// The next node number.
    pub next_node: u64,
}

// ---------------------------------------------------------------------------------------------
// Trees
// ---------------------------------------------------------------------------------------------

/// The shape of a tree.
pub enum Shape {
    Empty,
    Node { id: u64, data: Seq<u8>, left: Box<Shape>, right: Box<Shape> },
}

/// The shape of a tree.
pub open spec fn shape(t: Tree) -> Shape
    decreases t,
{
    match t {
        None => Shape::Empty,
        Some(n) => Shape::Node {
            id: n.id,
            data: n.data@,
            left: Box::new(shape(n.left_child)),
            right: Box::new(shape(n.right_child)),
        },
    }
}

/// The elements of a tree in order: their node numbers and data.
pub open spec fn in_order(t: Shape) -> Seq<(u64, Seq<u8>)>
    decreases t,
{
    match t {
        Shape::Empty => Seq::empty(),
        Shape::Node { id, data, left, right } => in_order(*left) + seq![(id, data)] + in_order(
            *right,
        ),
    }
}

/// How deep a tree is.
pub open spec fn height(t: Shape) -> nat
    decreases t,
{
    match t {
        Shape::Empty => 0,
        Shape::Node { left, right, .. } => 1 + if height(*left) > height(*right) {
            height(*left)
        } else {
            height(*right)
        },
    }
}

/// Where the search for a key ends, and at which node.
pub open spec fn search<C: Fn(&[u8], &[u8]) -> u32>(t: Shape, c: C, key: Seq<u8>) -> (
    TableSearchResult,
    Option<u64>,
)
    decreases t,
{
    match t {
        Shape::Empty => (TableSearchResult::TableEmptyTree, None),
        Shape::Node { id, data, left, right } => {
            let r = outcome(c, key, data);
            if r == GENERIC_LESS_THAN {
                if *left is Empty {
                    (TableSearchResult::TableInsertAsLeft, Some(id))
                } else {
                    search(*left, c, key)
                }
            } else if r == GENERIC_GREATER_THAN {
                if *right is Empty {
                    (TableSearchResult::TableInsertAsRight, Some(id))
                } else {
                    search(*right, c, key)
                }
            } else {
                (TableSearchResult::TableFoundNode, Some(id))
            }
        },
    }
}

/// A node.
pub open spec fn node(id: u64, data: Seq<u8>, left: Shape, right: Shape) -> Shape {
    Shape::Node { id, data, left: Box::new(left), right: Box::new(right) }
}

/// The tree with a node without children put below the node `parent`.
pub open spec fn attached(t: Shape, parent: u64, on_left: bool, id: u64, data: Seq<u8>) -> Shape
    decreases t,
{
    match t {
        Shape::Empty => Shape::Empty,
        Shape::Node { id: here, data: held, left, right } => if here == parent {
            let new = node(id, data, Shape::Empty, Shape::Empty);
            if on_left {
                node(here, held, new, *right)
            } else {
                node(here, held, *left, new)
            }
        } else {
            node(
                here,
                held,
                attached(*left, parent, on_left, id, data),
                attached(*right, parent, on_left, id, data),
            )
        },
    }
}

/// The tree without its first node.
pub open spec fn without_first(t: Shape) -> Shape
    decreases t,
{
    match t {
        Shape::Empty => Shape::Empty,
        Shape::Node { id, data, left, right } => if *left is Empty {
            *right
        } else {
            node(id, data, without_first(*left), *right)
        },
    }
}

/// The tree without its root: the first node of the right subtree takes its place, where both
/// subtrees hold nodes.
pub open spec fn without_root(left: Shape, right: Shape) -> Shape {
    if left is Empty {
        right
    } else if right is Empty {
        left
    } else {
        node(in_order(right)[0].0, in_order(right)[0].1, left, without_first(right))
    }
}

/// The tree without the node that the search for a key finds.
pub open spec fn without_found<C: Fn(&[u8], &[u8]) -> u32>(t: Shape, c: C, key: Seq<u8>) -> Shape
    decreases t,
{
    match t {
        Shape::Empty => Shape::Empty,
        Shape::Node { id, data, left, right } => {
            let r = outcome(c, key, data);
            if r == GENERIC_LESS_THAN {
                node(id, data, without_found(*left, c, key), *right)
            } else if r == GENERIC_GREATER_THAN {
                node(id, data, *left, without_found(*right, c, key))
            } else {
                without_root(*left, *right)
            }
        },
    }
}

/// Whether no node number occurs twice.
pub open spec fn distinct(items: Seq<(u64, Seq<u8>)>) -> bool {
    forall|i: int, j: int|
        0 <= i < j < items.len() ==> (#[trigger] items[i]).0 != (#[trigger] items[j]).0
}

/// The place of a node number among elements.
pub open spec fn place_of(items: Seq<(u64, Seq<u8>)>, id: u64) -> Option<int>
    decreases items.len(),
{
    if items.len() == 0 {
        None
    } else if items.last().0 == id {
        Some(items.len() - 1)
    } else {
        place_of(items.drop_last(), id)
    }
}

/// Whether a node number occurs.
pub open spec fn holds(items: Seq<(u64, Seq<u8>)>, id: u64) -> bool {
    exists|i: int| 0 <= i < items.len() && (#[trigger] items[i]).0 == id
}

/// The element behind a node, or the first one where no node is given.
pub open spec fn element_after(items: Seq<(u64, Seq<u8>)>, node: Option<u64>) -> Option<u64> {
    let next = match node {
        None => 0,
        Some(id) => match place_of(items, id) {
            Some(p) => p + 1,
            None => items.len() as int,
        },
    };
    if next < items.len() {
        Some(items[next].0)
    } else {
        None
    }
}

// ---------------------------------------------------------------------------------------------
// Facts about trees
// ---------------------------------------------------------------------------------------------

proof fn lemma_height(t: Shape)
    ensures
        height(t) <= in_order(t).len(),
    decreases t,
{
    if let Shape::Node { left, right, .. } = t {
        lemma_height(*left);
        lemma_height(*right);
    }
}

pub proof fn lemma_place(items: Seq<(u64, Seq<u8>)>, p: int)
    requires
        distinct(items),
        0 <= p < items.len(),
    ensures
        place_of(items, items[p].0) == Some(p),
    decreases items.len(),
{
    if p < items.len() - 1 {
        assert(distinct(items.drop_last())) by {
            assert forall|i: int, j: int| 0 <= i < j < items.drop_last().len() implies (
            #[trigger] items.drop_last()[i]).0 != (#[trigger] items.drop_last()[j]).0 by {
                assert(items[i].0 != items[j].0);
            }
        }
        assert(items[p].0 != items[items.len() - 1].0);
        lemma_place(items.drop_last(), p);
        assert(items.drop_last()[p] == items[p]);
    }
}

pub proof fn lemma_place_none(items: Seq<(u64, Seq<u8>)>, id: u64)
    ensures
        match place_of(items, id) {
            Some(p) => 0 <= p < items.len() && items[p].0 == id,
            None => !holds(items, id),
        },
    decreases items.len(),
{
    if items.len() > 0 {
        lemma_place_none(items.drop_last(), id);
        if items.last().0 != id && holds(items, id) {
            let i = choose|i: int| 0 <= i < items.len() && (#[trigger] items[i]).0 == id;
            assert(items.drop_last()[i].0 == id);
        }
    }
}

pub(crate) proof fn lemma_distinct_parts(a: Seq<(u64, Seq<u8>)>, e: (u64, Seq<u8>), b: Seq<(u64, Seq<u8>)>)
    requires
        distinct(a + seq![e] + b),
    ensures
        distinct(a),
        distinct(b),
        !holds(a, e.0),
        !holds(b, e.0),
        forall|id: u64| holds(a, id) ==> !#[trigger] holds(b, id),
        forall|id: u64|
            #[trigger] holds(a + seq![e] + b, id) <==> holds(a, id) || e.0 == id || holds(b, id),
{
    let all = a + seq![e] + b;
    assert forall|i: int, j: int| 0 <= i < j < a.len() implies (#[trigger] a[i]).0 != (
    #[trigger] a[j]).0 by {
        assert(all[i] == a[i] && all[j] == a[j]);
    }
    assert forall|i: int, j: int| 0 <= i < j < b.len() implies (#[trigger] b[i]).0 != (
    #[trigger] b[j]).0 by {
        assert(all[a.len() + 1 + i] == b[i] && all[a.len() + 1 + j] == b[j]);
    }
    assert(all[a.len() as int] == e);
    if holds(a, e.0) {
        let i = choose|i: int| 0 <= i < a.len() && (#[trigger] a[i]).0 == e.0;
        assert(all[i] == a[i]);
    }
    if holds(b, e.0) {
        let i = choose|i: int| 0 <= i < b.len() && (#[trigger] b[i]).0 == e.0;
        assert(all[a.len() + 1 + i] == b[i]);
    }
    assert forall|id: u64| holds(a, id) implies !#[trigger] holds(b, id) by {
        if holds(b, id) {
            let i = choose|i: int| 0 <= i < a.len() && (#[trigger] a[i]).0 == id;
            let j = choose|j: int| 0 <= j < b.len() && (#[trigger] b[j]).0 == id;
            assert(all[i] == a[i] && all[a.len() + 1 + j] == b[j]);
        }
    }
    assert forall|id: u64| #[trigger]
        holds(all, id) <==> holds(a, id) || e.0 == id || holds(b, id) by {
        if holds(all, id) {
            let i = choose|i: int| 0 <= i < all.len() && (#[trigger] all[i]).0 == id;
            if i < a.len() {
                assert(a[i].0 == id);
            } else if i > a.len() {
                assert(b[i - a.len() - 1].0 == id);
            }
        }
        if holds(a, id) {
            let i = choose|i: int| 0 <= i < a.len() && (#[trigger] a[i]).0 == id;
            assert(all[i].0 == id);
        }
        if holds(b, id) {
            let i = choose|i: int| 0 <= i < b.len() && (#[trigger] b[i]).0 == id;
            assert(all[a.len() + 1 + i].0 == id);
        }
    }
}

/// A search ends at a node of the tree.
pub(crate) proof fn lemma_search_ends_inside<C: Fn(&[u8], &[u8]) -> u32>(t: Shape, c: C, key: Seq<u8>)
    ensures
        t is Empty <==> search(t, c, key).0 == TableSearchResult::TableEmptyTree,
        match search(t, c, key).1 {
            Some(id) => holds(in_order(t), id),
            None => t is Empty,
        },
    decreases t,
{
    if let Shape::Node { id: here, data, left, right } = t {
        lemma_search_ends_inside(*left, c, key);
        lemma_search_ends_inside(*right, c, key);
        let a = in_order(*left);
        let b = in_order(*right);
        let all = in_order(t);
        assert(all[a.len() as int].0 == here);
        let r = outcome(c, key, data);
        if r == GENERIC_LESS_THAN && !(*left is Empty) {
            let id = search(*left, c, key).1->Some_0;
            let i = choose|i: int| 0 <= i < a.len() && (#[trigger] a[i]).0 == id;
            assert(all[i].0 == id);
        } else if r == GENERIC_GREATER_THAN && !(*right is Empty) {
            let id = search(*right, c, key).1->Some_0;
            let i = choose|i: int| 0 <= i < b.len() && (#[trigger] b[i]).0 == id;
            assert(all[a.len() + 1 + i].0 == id);
        }
    }
}

/// A node number that does not occur attaches nothing.
proof fn lemma_attached_nowhere(t: Shape, parent: u64, on_left: bool, id: u64, data: Seq<u8>)
    requires
        !holds(in_order(t), parent),
    ensures
        attached(t, parent, on_left, id, data) == t,
    decreases t,
{
    if let Shape::Node { id: here, left, right, .. } = t {
        let a = in_order(*left);
        let b = in_order(*right);
        let all = in_order(t);
        assert(all[a.len() as int].0 == here);
        assert(!holds(a, parent)) by {
            if holds(a, parent) {
                let i = choose|i: int| 0 <= i < a.len() && (#[trigger] a[i]).0 == parent;
                assert(all[i].0 == parent);
            }
        }
        assert(!holds(b, parent)) by {
            if holds(b, parent) {
                let i = choose|i: int| 0 <= i < b.len() && (#[trigger] b[i]).0 == parent;
                assert(all[a.len() + 1 + i].0 == parent);
            }
        }
        lemma_attached_nowhere(*left, parent, on_left, id, data);
        lemma_attached_nowhere(*right, parent, on_left, id, data);
    }
}

/// Whether the node `parent` has no child on a side.
pub open spec fn side_free(t: Shape, parent: u64, on_left: bool) -> bool
    decreases t,
{
    match t {
        Shape::Empty => true,
        Shape::Node { id, left, right, .. } => if id == parent {
            if on_left {
                *left is Empty
            } else {
                *right is Empty
            }
        } else {
            side_free(*left, parent, on_left) && side_free(*right, parent, on_left)
        },
    }
}

/// The place right in front of a node, or right behind it.
pub open spec fn place_beside(items: Seq<(u64, Seq<u8>)>, parent: u64, on_left: bool) -> int {
    let p = place_of(items, parent)->Some_0;
    if on_left {
        p
    } else {
        p + 1
    }
}

/// An element that is attached below a node stands right beside that node; all others keep their
/// order.
pub proof fn attached_elements_stand_beside(
    t: Shape,
    parent: u64,
    on_left: bool,
    id: u64,
    data: Seq<u8>,
)
    requires
        distinct(in_order(t)),
        holds(in_order(t), parent),
        side_free(t, parent, on_left),
    ensures
        in_order(attached(t, parent, on_left, id, data)) == in_order(t).insert(
            place_beside(in_order(t), parent, on_left),
            (id, data),
        ),
        0 <= place_beside(in_order(t), parent, on_left) <= in_order(t).len(),
    decreases t,
{
    if let Shape::Node { id: here, data: held, left, right } = t {
        let a = in_order(*left);
        let b = in_order(*right);
        let e = (here, held);
        let all = in_order(t);
        let new = (id, data);
        lemma_distinct_parts(a, e, b);
        let after = in_order(attached(t, parent, on_left, id, data));
        if here == parent {
            assert(all[a.len() as int] == e);
            lemma_place(all, a.len() as int);
            let leaf = node(id, data, Shape::Empty, Shape::Empty);
            reveal_with_fuel(in_order, 3);
            assert(in_order(leaf) =~= seq![new]);
            if on_left {
                assert(a =~= Seq::empty());
                assert(after =~= all.insert(0, new));
            } else {
                assert(b =~= Seq::empty());
                assert(after =~= all.insert((a.len() + 1) as int, new));
            }
        } else if holds(a, parent) {
            attached_elements_stand_beside(*left, parent, on_left, id, data);
            lemma_attached_nowhere(*right, parent, on_left, id, data);
            lemma_place_none(a, parent);
            let p = place_of(a, parent)->Some_0;
            assert(all[p] == a[p]);
            lemma_place(all, p);
            let q = place_beside(a, parent, on_left);
            assert(after =~= a.insert(q, new) + seq![e] + b);
            assert(after =~= all.insert(q, new));
        } else {
            assert(holds(b, parent));
            attached_elements_stand_beside(*right, parent, on_left, id, data);
            lemma_attached_nowhere(*left, parent, on_left, id, data);
            lemma_place_none(b, parent);
            let p = place_of(b, parent)->Some_0;
            assert(all[a.len() + 1 + p] == b[p]);
            lemma_place(all, a.len() + 1 + p);
            let q = place_beside(b, parent, on_left);
            assert(after =~= a + seq![e] + b.insert(q, new));
            assert(after =~= all.insert(a.len() + 1 + q, new));
        }
    }
}

/// The side that a search ends on is free.
pub(crate) proof fn lemma_search_side_free<C: Fn(&[u8], &[u8]) -> u32>(t: Shape, c: C, key: Seq<u8>)
    requires
        distinct(in_order(t)),
    ensures
        search(t, c, key).0 == TableSearchResult::TableInsertAsLeft ==> side_free(
            t,
            search(t, c, key).1->Some_0,
            true,
        ),
        search(t, c, key).0 == TableSearchResult::TableInsertAsRight ==> side_free(
            t,
            search(t, c, key).1->Some_0,
            false,
        ),
    decreases t,
{
    if let Shape::Node { id: here, data, left, right } = t {
        let a = in_order(*left);
        let b = in_order(*right);
        lemma_distinct_parts(a, (here, data), b);
        lemma_search_side_free(*left, c, key);
        lemma_search_side_free(*right, c, key);
        lemma_search_ends_inside(*left, c, key);
        lemma_search_ends_inside(*right, c, key);
        let r = outcome(c, key, data);
        if r == GENERIC_LESS_THAN && !(*left is Empty) {
            let id = search(*left, c, key).1->Some_0;
            lemma_side_free_elsewhere(*right, id, true);
            lemma_side_free_elsewhere(*right, id, false);
        } else if r == GENERIC_GREATER_THAN && !(*right is Empty) {
            let id = search(*right, c, key).1->Some_0;
            assert(!holds(a, id));
            lemma_side_free_elsewhere(*left, id, true);
            lemma_side_free_elsewhere(*left, id, false);
        }
    }
}

proof fn lemma_side_free_elsewhere(t: Shape, parent: u64, on_left: bool)
    requires
        !holds(in_order(t), parent),
    ensures
        side_free(t, parent, on_left),
    decreases t,
{
    if let Shape::Node { id: here, left, right, .. } = t {
        let a = in_order(*left);
        let b = in_order(*right);
        let all = in_order(t);
        assert(all[a.len() as int].0 == here);
        assert(!holds(a, parent)) by {
            if holds(a, parent) {
                let i = choose|i: int| 0 <= i < a.len() && (#[trigger] a[i]).0 == parent;
                assert(all[i].0 == parent);
            }
        }
        assert(!holds(b, parent)) by {
            if holds(b, parent) {
                let i = choose|i: int| 0 <= i < b.len() && (#[trigger] b[i]).0 == parent;
                assert(all[a.len() + 1 + i].0 == parent);
            }
        }
        lemma_side_free_elsewhere(*left, parent, on_left);
        lemma_side_free_elsewhere(*right, parent, on_left);
    }
}

proof fn lemma_without_first(t: Shape)
    requires
        !(t is Empty),
    ensures
        in_order(without_first(t)) == in_order(t).skip(1),
        in_order(t).len() > 0,
    decreases t,
{
    if let Shape::Node { id, data, left, right } = t {
        if *left is Empty {
            assert(in_order(*left) =~= Seq::empty());
            assert(in_order(*right) =~= in_order(t).skip(1));
        } else {
            lemma_without_first(*left);
            assert(in_order(without_first(t)) =~= in_order(t).skip(1));
        }
    }
}

/// Deletion takes out exactly the element that the search finds; all others keep their order.
pub proof fn deletion_takes_out_one<C: Fn(&[u8], &[u8]) -> u32>(t: Shape, c: C, key: Seq<u8>)
    requires
        distinct(in_order(t)),
        search(t, c, key).0 == TableSearchResult::TableFoundNode,
    ensures
        place_of(in_order(t), search(t, c, key).1->Some_0) matches Some(p) && 0 <= p < in_order(
            t,
        ).len() && in_order(without_found(t, c, key)) == in_order(t).remove(p),
    decreases t,
{
    if let Shape::Node { id: here, data, left, right } = t {
        let a = in_order(*left);
        let b = in_order(*right);
        let e = (here, data);
        let all = in_order(t);
        lemma_distinct_parts(a, e, b);
        let after = in_order(without_found(t, c, key));
        let r = outcome(c, key, data);
        if r == GENERIC_LESS_THAN {
            deletion_takes_out_one(*left, c, key);
            let p = place_of(a, search(*left, c, key).1->Some_0)->Some_0;
            lemma_place_none(a, search(*left, c, key).1->Some_0);
            assert(all[p] == a[p]);
            lemma_place(all, p);
            assert(after =~= all.remove(p));
        } else if r == GENERIC_GREATER_THAN {
            deletion_takes_out_one(*right, c, key);
            let p = place_of(b, search(*right, c, key).1->Some_0)->Some_0;
            lemma_place_none(b, search(*right, c, key).1->Some_0);
            assert(all[a.len() + 1 + p] == b[p]);
            lemma_place(all, a.len() + 1 + p);
            assert(after =~= all.remove(a.len() + 1 + p));
        } else {
            assert(all[a.len() as int] == e);
            lemma_place(all, a.len() as int);
            if *left is Empty {
                assert(a =~= Seq::empty());
                assert(after =~= all.remove(0));
            } else if *right is Empty {
                assert(b =~= Seq::empty());
                assert(after =~= all.remove(a.len() as int));
            } else {
                lemma_without_first(*right);
                assert(after =~= all.remove(a.len() as int));
            }
        }
    }
}

// ---------------------------------------------------------------------------------------------
// Working on trees
// ---------------------------------------------------------------------------------------------

pub(crate) fn search_tree<C: Fn(&[u8], &[u8]) -> u32>(t: &Tree, c: &C, key: &[u8]) -> (r: (
    TableSearchResult,
    Option<u64>,
))
    requires
        compares(*c),
    ensures
        r == search(shape(*t), *c, key@),
{
    let mut current: &Tree = t;
    loop
        invariant
            compares(*c),
            search(shape(*t), *c, key@) == search(shape(*current), *c, key@),
        decreases *current,
    {
        match current {
            None => {
                return (TableSearchResult::TableEmptyTree, None);
            },
            Some(n) => {
                let r: u32 = compare(c, key, n.data.as_slice());
                if r == GENERIC_LESS_THAN {
                    if n.left_child.is_none() {
                        return (TableSearchResult::TableInsertAsLeft, Some(n.id));
                    }
                    current = &n.left_child;
                } else if r == GENERIC_GREATER_THAN {
                    if n.right_child.is_none() {
                        return (TableSearchResult::TableInsertAsRight, Some(n.id));
                    }
                    current = &n.right_child;
                } else {
                    return (TableSearchResult::TableFoundNode, Some(n.id));
                }
            },
        }
    }
}

fn compute_depth(t: &Tree) -> (depth: u32)
    requires
        in_order(shape(*t)).len() <= u32::MAX,
    ensures
        depth == height(shape(*t)),
    decreases t,
{
    proof {
        lemma_height(shape(*t));
    }
    match t {
        None => 0,
        Some(n) => {
            let left: u32 = compute_depth(&n.left_child);
            let right: u32 = compute_depth(&n.right_child);
            if left > right {
                left + 1
            } else {
                right + 1
            }
        },
    }
}

/// Put a node without children below the node `parent`; give it back where there is none.
pub(crate) fn attach(t: &mut Tree, parent: u64, on_left: bool, leaf: Box<BalancedLinks>) -> (r: Option<
    Box<BalancedLinks>,
>)
    requires
        distinct(in_order(shape(*old(t)))),
        leaf.left_child is None,
        leaf.right_child is None,
    ensures
        match r {
            None => shape(*final(t)) == attached(
                shape(*old(t)),
                parent,
                on_left,
                leaf.id,
                leaf.data@,
            ) && holds(in_order(shape(*old(t))), parent),
            Some(back) => *final(t) == *old(t) && back == leaf && !holds(
                in_order(shape(*old(t))),
                parent,
            ),
        },
    decreases *old(t),
{
    let ghost before = shape(*t);
    match t.take() {
        None => {
            assert(in_order(before) =~= Seq::empty());
            Some(leaf)
        },
        Some(mut n) => {
            let ghost (a, e, b) = (
                in_order(shape(n.left_child)),
                (n.id, n.data@),
                in_order(shape(n.right_child)),
            );
            proof {
                lemma_distinct_parts(a, e, b);
                assert(in_order(before) == a + seq![e] + b);
                assert((a + seq![e] + b)[a.len() as int] == e);
            }
            if n.id == parent {
                proof {
                    reveal_with_fuel(shape, 2);
                }
                if on_left {
                    n.left_child = Some(leaf);
                } else {
                    n.right_child = Some(leaf);
                }
                *t = Some(n);
                None
            } else {
                match attach(&mut n.left_child, parent, on_left, leaf) {
                    None => {
                        proof {
                            lemma_attached_nowhere(
                                shape(n.right_child),
                                parent,
                                on_left,
                                leaf.id,
                                leaf.data@,
                            );
                        }
                        *t = Some(n);
                        None
                    },
                    Some(leaf) => {
                        proof {
                            lemma_attached_nowhere(
                                shape(n.left_child),
                                parent,
                                on_left,
                                leaf.id,
                                leaf.data@,
                            );
                        }
                        let rest = attach(&mut n.right_child, parent, on_left, leaf);
                        *t = Some(n);
                        rest
                    },
                }
            }
        },
    }
}

/// Take the first node out of a tree.
fn take_first(t: &mut Tree) -> (first: Box<BalancedLinks>)
    requires
        *old(t) is Some,
    ensures
        shape(*final(t)) == without_first(shape(*old(t))),
        (first.id, first.data@) == in_order(shape(*old(t)))[0],
    decreases *old(t),
{
    let mut n = t.take().unwrap();
    if n.left_child.is_none() {
        let right = n.right_child.take();
        *t = right;
        assert(in_order(Shape::Empty) =~= Seq::empty());
        n
    } else {
        let ghost left = shape(n.left_child);
        proof {
            lemma_without_first(left);
        }
        let first = take_first(&mut n.left_child);
        *t = Some(n);
        first
    }
}

/// Take the node that the search for a key finds out of a tree.
fn remove_found<C: Fn(&[u8], &[u8]) -> u32>(t: &mut Tree, c: &C, key: &[u8])
    requires
        compares(*c),
        search(shape(*old(t)), *c, key@).0 == TableSearchResult::TableFoundNode,
    ensures
        shape(*final(t)) == without_found(shape(*old(t)), *c, key@),
    decreases *old(t),
{
    match t.take() {
        None => {},
        Some(mut n) => {
            let ghost (left, right) = (shape(n.left_child), shape(n.right_child));
            let r: u32 = compare(c, key, n.data.as_slice());
            if r == GENERIC_LESS_THAN {
                remove_found(&mut n.left_child, c, key);
                *t = Some(n);
            } else if r == GENERIC_GREATER_THAN {
                remove_found(&mut n.right_child, c, key);
                *t = Some(n);
            } else if n.left_child.is_none() {
                *t = n.right_child.take();
            } else if n.right_child.is_none() {
                *t = n.left_child.take();
            } else {
                let mut heir = take_first(&mut n.right_child);
                heir.left_child = n.left_child.take();
                heir.right_child = n.right_child.take();
                assert(shape(heir.left_child) == left);
                assert(shape(heir.right_child) == without_first(right));
                *t = Some(heir);
            }
        },
    }
}

/// The first node of a tree.
fn leftmost(t: &Tree) -> (r: Option<&BalancedLinks>)
    ensures
        match r {
            Some(n) => in_order(shape(*t)).len() > 0 && (n.id, n.data@) == in_order(shape(*t))[0],
            None => *t is None,
        },
    decreases t,
{
    match t {
        None => None,
        Some(n) => {
            proof {
                if n.left_child is Some {
                    lemma_without_first(shape(n.left_child));
                }
            }
            match leftmost(&n.left_child) {
                Some(first) => Some(first),
                None => {
                    assert(in_order(shape(n.left_child)) =~= Seq::empty());
                    Some(&**n)
                },
            }
        },
    }
}

/// What stands behind a node.
enum Behind<'a> {
    /// The node is not there.
    Absent,
    /// Nothing.
    Nothing,
    /// Another node.
    Next(&'a BalancedLinks),
}

/// What stands behind the node `id`.
fn next_after<'a>(t: &'a Tree, id: u64) -> (r: Behind<'a>)
    requires
        distinct(in_order(shape(*t))),
    ensures
        match r {
            Behind::Absent => !holds(in_order(shape(*t)), id),
            Behind::Nothing => in_order(shape(*t)).len() > 0 && in_order(shape(*t)).last().0 == id,
            Behind::Next(n) => exists|p: int|
                0 <= p < in_order(shape(*t)).len() - 1 && (#[trigger] in_order(shape(*t))[p]).0
                    == id && in_order(shape(*t))[p + 1] == (n.id, n.data@),
        },
    decreases t,
{
    match t {
        None => {
            assert(in_order(shape(*t)) =~= Seq::empty());
            Behind::Absent
        },
        Some(n) => {
            let ghost (a, e, b) = (
                in_order(shape(n.left_child)),
                (n.id, n.data@),
                in_order(shape(n.right_child)),
            );
            let ghost all = in_order(shape(*t));
            proof {
                lemma_distinct_parts(a, e, b);
                assert(all == a + seq![e] + b);
                assert(all[a.len() as int] == e);
            }
            match next_after(&n.left_child, id) {
                Behind::Next(next) => {
                    proof {
                        let p = choose|p: int|
                            0 <= p < a.len() - 1 && (#[trigger] a[p]).0 == id && a[p + 1] == (
                                next.id,
                                next.data@,
                            );
                        assert(all[p] == a[p] && all[p + 1] == a[p + 1]);
                    }
                    Behind::Next(next)
                },
                Behind::Nothing => {
                    proof {
                        let p = a.len() - 1;
                        assert(all[p] == a[p] && all[p + 1] == e);
                    }
                    Behind::Next(&**n)
                },
                Behind::Absent => {
                    if n.id == id {
                        match leftmost(&n.right_child) {
                            Some(next) => {
                                proof {
                                    let p = a.len() as int;
                                    assert(all[p] == e && all[p + 1] == b[0]);
                                }
                                Behind::Next(next)
                            },
                            None => {
                                assert(b =~= Seq::empty());
                                Behind::Nothing
                            },
                        }
                    } else {
                        match next_after(&n.right_child, id) {
                            Behind::Next(next) => {
                                proof {
                                    let p = choose|p: int|
                                        0 <= p < b.len() - 1 && (#[trigger] b[p]).0 == id && b[p
                                            + 1] == (next.id, next.data@);
                                    let q = a.len() + 1 + p;
                                    assert(all[q] == b[p] && all[q + 1] == b[p + 1]);
                                }
                                Behind::Next(next)
                            },
                            other => other,
                        }
                    }
                },
            }
        },
    }
}

/// The node `id`.
pub(crate) fn find_node<'a>(t: &'a Tree, id: u64) -> (r: Option<&'a BalancedLinks>)
    requires
        distinct(in_order(shape(*t))),
    ensures
        match r {
            Some(n) => exists|p: int|
                0 <= p < in_order(shape(*t)).len() && #[trigger] in_order(shape(*t))[p] == (
                    n.id,
                    n.data@,
                ) && n.id == id,
            None => !holds(in_order(shape(*t)), id),
        },
    decreases t,
{
    match t {
        None => {
            assert(in_order(shape(*t)) =~= Seq::empty());
            None
        },
        Some(n) => {
            let ghost (a, e, b) = (
                in_order(shape(n.left_child)),
                (n.id, n.data@),
                in_order(shape(n.right_child)),
            );
            let ghost all = in_order(shape(*t));
            proof {
                lemma_distinct_parts(a, e, b);
                assert(all == a + seq![e] + b);
                assert(all[a.len() as int] == e);
            }
            if n.id == id {
                return Some(&**n);
            }
            match find_node(&n.left_child, id) {
                Some(found) => {
                    proof {
                        let p = choose|p: int|
                            0 <= p < a.len() && #[trigger] a[p] == (found.id, found.data@);
                        assert(all[p] == a[p]);
                    }
                    Some(found)
                },
                None => match find_node(&n.right_child, id) {
                    Some(found) => {
                        proof {
                            let p = choose|p: int|
                                0 <= p < b.len() && #[trigger] b[p] == (found.id, found.data@);
                            assert(all[a.len() + 1 + p] == b[p]);
                        }
                        Some(found)
                    },
                    None => None,
                },
            }
        },
    }
}

/// The node numbers of a tree in order.
fn push_ids(t: &Tree, out: &mut Vec<u64>)
    ensures
        final(out)@ == old(out)@ + ids(in_order(shape(*t))),
    decreases t,
{
    match t {
        None => {
            assert(out@ =~= old(out)@ + ids(in_order(shape(*t))));
        },
        Some(n) => {
            push_ids(&n.left_child, out);
            out.push(n.id);
            push_ids(&n.right_child, out);
            assert(out@ =~= old(out)@ + ids(in_order(shape(*t))));
        },
    }
}

/// The node numbers of elements.
pub open spec fn ids(items: Seq<(u64, Seq<u8>)>) -> Seq<u64> {
    items.map_values(|e: (u64, Seq<u8>)| e.0)
}

// ---------------------------------------------------------------------------------------------
// Tables
// ---------------------------------------------------------------------------------------------

impl<C: Fn(&[u8], &[u8]) -> u32> RtlAvlTable<C> {
    /// The elements in order.
    pub open spec fn items(self) -> Seq<(u64, Seq<u8>)> {
        in_order(shape(self.balanced_root))
    }

    /// Whether a table is in order: node numbers are distinct and were handed out, the counts are
    /// those of the tree, and enumeration restarts at an element.
    pub open spec fn well_formed(self) -> bool {
        &&& distinct(self.items())
        &&& forall|i: int| 0 <= i < self.items().len() ==> (#[trigger] self.items()[i]).0
            < self.next_node
        &&& self.number_generic_table_elements == self.items().len()
        &&& self.depth_of_tree == height(shape(self.balanced_root))
        &&& self.restart_key matches Some(id) ==> holds(self.items(), id)
        &&& self.compare_routine matches Some(c) ==> compares(c)
    }

    /// Where the search for a key ends. A table without a comparison counts as empty.
    pub open spec fn looked_up(self, key: Seq<u8>) -> (TableSearchResult, Option<u64>) {
        match self.compare_routine {
            Some(c) => search(shape(self.balanced_root), c, key),
            None => (TableSearchResult::TableEmptyTree, None),
        }
    }

    /// An empty table without a comparison.
    pub fn zeroed() -> (table: Self)
        ensures
            table.well_formed(),
            table.items() == Seq::<(u64, Seq<u8>)>::empty(),
            table.compare_routine is None,
            table.restart_key is None,
            table.delete_count == 0,
            table.next_node == 0,
    {
        RtlAvlTable {
            balanced_root: None,
            ordered_pointer: None,
            which_ordered_element: 0,
            number_generic_table_elements: 0,
            depth_of_tree: 0,
            restart_key: None,
            delete_count: 0,
            compare_routine: None,
            next_node: 0,
        }
    }

    /// The data of an element.
    pub fn user_data_for_node(&self, id: u64) -> (r: Option<&Vec<u8>>)
        requires
            self.well_formed(),
        ensures
            match r {
                Some(data) => place_of(self.items(), id) matches Some(p) && data@
                    == self.items()[p].1,
                None => place_of(self.items(), id) is None,
            },
    {
        proof {
            lemma_place_none(self.items(), id);
        }
        match find_node(&self.balanced_root, id) {
            Some(n) => {
                proof {
                    let p = choose|p: int|
                        0 <= p < self.items().len() && #[trigger] self.items()[p] == (
                            n.id,
                            n.data@,
                        );
                    lemma_place(self.items(), p);
                }
                Some(&n.data)
            },
            None => None,
        }
    }
}

/// Make a table empty, with a comparison.
pub fn initialize_generic_table_avl<C: Fn(&[u8], &[u8]) -> u32>(
    table: &mut RtlAvlTable<C>,
    compare: Option<C>,
)
    requires
        compare matches Some(c) ==> compares(c),
    ensures
        final(table).well_formed(),
        final(table).items() == Seq::<(u64, Seq<u8>)>::empty(),
        final(table).compare_routine == compare,
        final(table).restart_key is None,
        final(table).delete_count == 0,
        final(table).next_node == 0,
{
    *table = RtlAvlTable::zeroed();
    table.compare_routine = compare;
}

/// Search for a key.
pub fn find_avl_table_node_or_parent<C: Fn(&[u8], &[u8]) -> u32>(table: &RtlAvlTable<C>, buffer: &[u8]) -> (r:
    (TableSearchResult, Option<u64>))
    requires
        table.well_formed(),
    ensures
        r == table.looked_up(buffer@),
{
    match &table.compare_routine {
        Some(c) => search_tree(&table.balanced_root, c, buffer),
        None => (TableSearchResult::TableEmptyTree, None),
    }
}

/// Whether a table is empty.
pub fn is_generic_table_empty_avl<C: Fn(&[u8], &[u8]) -> u32>(table: &RtlAvlTable<C>) -> (empty: bool)
    requires
        table.well_formed(),
    ensures
        empty == (table.items().len() == 0),
{
    table.number_generic_table_elements == 0
}

/// How many elements a table has.
pub fn number_generic_table_elements_avl<C: Fn(&[u8], &[u8]) -> u32>(table: &RtlAvlTable<C>) -> (n: u32)
    requires
        table.well_formed(),
    ensures
        n == table.items().len(),
{
    table.number_generic_table_elements
}

/// The tree with a new node where a search ended.
pub open spec fn placed(
    t: Shape,
    found: (TableSearchResult, Option<u64>),
    id: u64,
    data: Seq<u8>,
) -> Shape {
    match found.0 {
        TableSearchResult::TableEmptyTree => node(id, data, Shape::Empty, Shape::Empty),
        TableSearchResult::TableInsertAsLeft => attached(t, found.1->Some_0, true, id, data),
        TableSearchResult::TableInsertAsRight => attached(t, found.1->Some_0, false, id, data),
        TableSearchResult::TableFoundNode => t,
    }
}

/// The place where an element goes when a search for it ended there.
pub open spec fn new_place(
    items: Seq<(u64, Seq<u8>)>,
    found: (TableSearchResult, Option<u64>),
) -> int {
    match found.0 {
        TableSearchResult::TableInsertAsLeft => place_beside(items, found.1->Some_0, true),
        TableSearchResult::TableInsertAsRight => place_beside(items, found.1->Some_0, false),
        _ => 0,
    }
}

/// Whether a table is another one with a new element where a search ended.
pub open spec fn grown<C: Fn(&[u8], &[u8]) -> u32>(
    before: RtlAvlTable<C>,
    found: (TableSearchResult, Option<u64>),
    data: Seq<u8>,
    after: RtlAvlTable<C>,
) -> bool {
    &&& shape(after.balanced_root) == placed(
        shape(before.balanced_root),
        found,
        before.next_node,
        data,
    )
    &&& after.next_node == before.next_node + 1
    &&& after.compare_routine == before.compare_routine
    &&& after.restart_key == before.restart_key
    &&& after.delete_count == before.delete_count
    &&& after.ordered_pointer is None
    &&& after.which_ordered_element == 0
}

/// The bytes that an element of a size takes.
pub open spec fn entry_size(length: int) -> int {
    length + TABLE_ENTRY_USER_DATA_OFFSET
}

/// What an insertion does: an element that is there is given back; else storage is asked for, and
/// where it is granted the element is new.
pub open spec fn insertion<C: Fn(&[u8], &[u8]) -> u32, F: FnOnce(u32) -> bool>(
    before: RtlAvlTable<C>,
    data: Seq<u8>,
    allocate: F,
    found: (TableSearchResult, Option<u64>),
    r: Option<(u64, bool)>,
    after: RtlAvlTable<C>,
) -> bool {
    if found.0 == TableSearchResult::TableFoundNode {
        r == Some((found.1->Some_0, false)) && after == before
    } else if entry_size(data.len() as int) > u32::MAX {
        r is None && after == before
    } else {
        if r is Some {
            call_ensures(allocate, (entry_size(data.len() as int) as u32,), true) && r == Some(
                (before.next_node, true),
            ) && grown(before, found, data, after)
        } else {
            call_ensures(allocate, (entry_size(data.len() as int) as u32,), false) && after
                == before
        }
    }
}

/// The elements after an insertion: one more, beside the node where the search ended.
pub(crate) proof fn lemma_placed<C: Fn(&[u8], &[u8]) -> u32>(
    t: Shape,
    c: C,
    key: Seq<u8>,
    id: u64,
    data: Seq<u8>,
)
    requires
        distinct(in_order(t)),
        !holds(in_order(t), id),
        search(t, c, key).0 != TableSearchResult::TableFoundNode,
    ensures
        0 <= new_place(in_order(t), search(t, c, key)) <= in_order(t).len(),
        in_order(placed(t, search(t, c, key), id, data)) == in_order(t).insert(
            new_place(in_order(t), search(t, c, key)),
            (id, data),
        ),
        distinct(in_order(placed(t, search(t, c, key), id, data))),
        forall|k: u64| #[trigger]
            holds(in_order(placed(t, search(t, c, key), id, data)), k) <==> holds(in_order(t), k)
                || k == id,
{
    let found = search(t, c, key);
    let items = in_order(t);
    let new = (id, data);
    lemma_search_ends_inside(t, c, key);
    lemma_search_side_free(t, c, key);
    if t is Empty {
        reveal_with_fuel(in_order, 3);
        assert(items =~= Seq::empty());
        assert(in_order(placed(t, found, id, data)) =~= items.insert(0, new));
    } else {
        let on_left = found.0 == TableSearchResult::TableInsertAsLeft;
        attached_elements_stand_beside(t, found.1->Some_0, on_left, id, data);
    }
    lemma_insert_distinct(items, new_place(items, found), new);
}

pub proof fn lemma_insert_distinct(items: Seq<(u64, Seq<u8>)>, q: int, new: (u64, Seq<u8>))
    requires
        distinct(items),
        0 <= q <= items.len(),
        !holds(items, new.0),
    ensures
        distinct(items.insert(q, new)),
        items.insert(q, new).len() == items.len() + 1,
        forall|k: u64| #[trigger]
            holds(items.insert(q, new), k) <==> holds(items, k) || k == new.0,
{
    let after = items.insert(q, new);
    assert forall|i: int, j: int| 0 <= i < j < after.len() implies (#[trigger] after[i]).0 != (
    #[trigger] after[j]).0 by {
        if i == q {
            assert(after[j] == items[j - 1]);
        } else if j == q {
            assert(after[i] == items[i]);
        } else {
            let a = if i < q {
                i
            } else {
                i - 1
            };
            let b = if j < q {
                j
            } else {
                j - 1
            };
            assert(after[i] == items[a] && after[j] == items[b]);
        }
    }
    assert forall|k: u64| #[trigger] holds(after, k) <==> holds(items, k) || k == new.0 by {
        if holds(after, k) {
            let i = choose|i: int| 0 <= i < after.len() && (#[trigger] after[i]).0 == k;
            if i < q {
                assert(items[i].0 == k);
            } else if i > q {
                assert(items[i - 1].0 == k);
            }
        }
        if holds(items, k) {
            let i = choose|i: int| 0 <= i < items.len() && (#[trigger] items[i]).0 == k;
            if i < q {
                assert(after[i].0 == k);
            } else {
                assert(after[i + 1].0 == k);
            }
        }
        if k == new.0 {
            assert(after[q].0 == k);
        }
    }
}

/// Insert an element where a search for it ended. `allocate` says whether storage of a size is
/// granted; it is not asked where the element is there already.
pub fn insert_element_generic_table_full_avl<C: Fn(&[u8], &[u8]) -> u32, F: FnOnce(u32) -> bool>(
    table: &mut RtlAvlTable<C>,
    buffer: &[u8],
    allocate: F,
    node_or_parent: Option<u64>,
    search_result: TableSearchResult,
) -> (r: Option<(u64, bool)>)
    requires
        old(table).well_formed(),
        old(table).compare_routine is Some || old(table).items().len() == 0,
        old(table).looked_up(buffer@) == (search_result, node_or_parent),
        old(table).items().len() < u32::MAX,
        old(table).next_node < u64::MAX,
        forall|size: u32| #[trigger] call_requires(allocate, (size,)),
    ensures
        final(table).well_formed(),
        insertion(
            *old(table),
            buffer@,
            allocate,
            (search_result, node_or_parent),
            r,
            *final(table),
        ),
{
    let ghost before = *table;
    let ghost c = table.compare_routine->Some_0;
    let ghost t = shape(table.balanced_root);
    proof {
        reveal_with_fuel(in_order, 2);
        assert(in_order(t).len() == 0 ==> t is Empty);
        lemma_search_ends_inside(t, c, buffer@);
    }
    if search_result == TableSearchResult::TableFoundNode {
        return match node_or_parent {
            Some(id) => Some((id, false)),
            None => None,
        };
    }
    if buffer.len() as u64 > 0xffff_ffdf {
        return None;
    }
    let total: u32 = buffer.len() as u32 + TABLE_ENTRY_USER_DATA_OFFSET as u32;
    if !allocate(total) {
        return None;
    }
    let id: u64 = table.next_node;
    let mut data: Vec<u8> = Vec::new();
    push_bytes(&mut data, buffer);
    assert(data@ =~= buffer@);
    proof {
        assert(!holds(in_order(t), id)) by {
            if holds(in_order(t), id) {
                let i = choose|i: int|
                    0 <= i < in_order(t).len() && (#[trigger] in_order(t)[i]).0 == id;
            }
        }
        lemma_placed(t, c, buffer@, id, data@);
        reveal_with_fuel(shape, 2);
    }
    let leaf = Box::new(BalancedLinks { id, data, left_child: None, right_child: None });
    match node_or_parent {
        None => {
            table.balanced_root = Some(leaf);
        },
        Some(parent) => {
            let on_left: bool = search_result == TableSearchResult::TableInsertAsLeft;
            let _ = attach(&mut table.balanced_root, parent, on_left, leaf);
        },
    }
    assert(shape(table.balanced_root) == placed(t, (search_result, node_or_parent), id, buffer@));
    table.number_generic_table_elements = table.number_generic_table_elements + 1;
    table.depth_of_tree = compute_depth(&table.balanced_root);
    table.ordered_pointer = None;
    table.which_ordered_element = 0;
    table.next_node = id + 1;
    proof {
        let items = table.items();
        assert forall|i: int| 0 <= i < items.len() implies (#[trigger] items[i]).0
            < table.next_node by {
            assert(holds(items, items[i].0));
            if items[i].0 != id {
                assert(holds(before.items(), items[i].0));
            }
        }
        if let Some(key) = table.restart_key {
            assert(holds(before.items(), key));
            assert(holds(items, key));
        }
    }
    Some((id, true))
}

/// Insert an element, or find it where it is there already: its node, and whether it is new.
pub fn insert_element_generic_table_avl<C: Fn(&[u8], &[u8]) -> u32, F: FnOnce(u32) -> bool>(
    table: &mut RtlAvlTable<C>,
    buffer: &[u8],
    allocate: F,
) -> (r: Option<(u64, bool)>)
    requires
        old(table).well_formed(),
        old(table).compare_routine is Some || old(table).items().len() == 0,
        old(table).items().len() < u32::MAX,
        old(table).next_node < u64::MAX,
        forall|size: u32| #[trigger] call_requires(allocate, (size,)),
    ensures
        final(table).well_formed(),
        insertion(
            *old(table),
            buffer@,
            allocate,
            old(table).looked_up(buffer@),
            r,
            *final(table),
        ),
{
    let (result, parent) = find_avl_table_node_or_parent(table, buffer);
    insert_element_generic_table_full_avl(table, buffer, allocate, parent, result)
}

/// Find an element: its node, where the search ended, and how.
pub fn lookup_element_generic_table_full_avl<C: Fn(&[u8], &[u8]) -> u32>(
    table: &RtlAvlTable<C>,
    buffer: &[u8],
) -> (r: (Option<u64>, Option<u64>, TableSearchResult))
    requires
        table.well_formed(),
    ensures
        (r.2, r.1) == table.looked_up(buffer@),
        r.0 == if r.2 == TableSearchResult::TableFoundNode {
            r.1
        } else {
            None
        },
{
    let (result, parent) = find_avl_table_node_or_parent(table, buffer);
    if result == TableSearchResult::TableFoundNode {
        (parent, parent, result)
    } else {
        (None, parent, result)
    }
}

/// Find an element.
pub fn lookup_element_generic_table_avl<C: Fn(&[u8], &[u8]) -> u32>(
    table: &RtlAvlTable<C>,
    buffer: &[u8],
) -> (r: Option<u64>)
    requires
        table.well_formed(),
    ensures
        r == if table.looked_up(buffer@).0 == TableSearchResult::TableFoundNode {
            table.looked_up(buffer@).1
        } else {
            None
        },
{
    lookup_element_generic_table_full_avl(table, buffer).0
}

/// The element in front of a node.
pub open spec fn element_before(items: Seq<(u64, Seq<u8>)>, id: u64) -> Option<u64> {
    match place_of(items, id) {
        Some(p) => if p > 0 {
            Some(items[p - 1].0)
        } else {
            None
        },
        None => None,
    }
}

/// The node in front of the node `id`.
fn real_predecessor(t: &Tree, id: u64) -> (r: Option<u64>)
    requires
        distinct(in_order(shape(*t))),
        holds(in_order(shape(*t)), id),
    ensures
        r == element_before(in_order(shape(*t)), id),
{
    let ghost items = in_order(shape(*t));
    let mut order: Vec<u64> = Vec::new();
    push_ids(t, &mut order);
    assert(order@ =~= ids(items));
    let mut i: usize = 0;
    proof {
        lemma_place_none(items, id);
    }
    let ghost p = place_of(items, id)->Some_0;
    assert(order@[p] == id);
    while i < order.len() && order[i] != id
        invariant
            i <= order@.len(),
            0 <= p < order@.len(),
            order@[p] == id,
            forall|k: int| 0 <= k < i ==> #[trigger] order@[k] != id,
        decreases order@.len() - i,
    {
        i += 1;
    }
    proof {
        assert(items[i as int].0 == id);
        lemma_place(items, i as int);
    }
    if i > 0 {
        assert(order@[i - 1] == items[i - 1].0);
        Some(order[i - 1])
    } else {
        None
    }
}

/// Delete an element. Enumeration that stood at it goes back to the element in front.
pub fn delete_element_generic_table_avl<C: Fn(&[u8], &[u8]) -> u32>(
    table: &mut RtlAvlTable<C>,
    buffer: &[u8],
) -> (deleted: bool)
    requires
        old(table).well_formed(),
    ensures
        final(table).well_formed(),
        deleted == (old(table).looked_up(buffer@).0 == TableSearchResult::TableFoundNode),
        !deleted ==> *final(table) == *old(table),
        deleted ==> {
            let id = old(table).looked_up(buffer@).1->Some_0;
            &&& shape(final(table).balanced_root) == without_found(
                shape(old(table).balanced_root),
                old(table).compare_routine->Some_0,
                buffer@,
            )
            &&& final(table).restart_key == if old(table).restart_key == Some(id) {
                element_before(old(table).items(), id)
            } else {
                old(table).restart_key
            }
            &&& final(table).delete_count == (old(table).delete_count + 1) % 0x1_0000_0000
            &&& final(table).compare_routine == old(table).compare_routine
            &&& final(table).next_node == old(table).next_node
            &&& final(table).ordered_pointer is None
            &&& final(table).which_ordered_element == 0
        },
{
    let (result, found) = find_avl_table_node_or_parent(table, buffer);
    if result != TableSearchResult::TableFoundNode {
        return false;
    }
    let ghost t = shape(table.balanced_root);
    let ghost c = table.compare_routine->Some_0;
    let ghost items = table.items();
    proof {
        lemma_search_ends_inside(t, c, buffer@);
        deletion_takes_out_one(t, c, buffer@);
    }
    let id: u64 = match found {
        Some(id) => id,
        None => {
            return false;
        },
    };
    let ghost p = place_of(items, id)->Some_0;
    let restarts_here: bool = match table.restart_key {
        Some(key) => key == id,
        None => false,
    };
    if restarts_here {
        table.restart_key = real_predecessor(&table.balanced_root, id);
    }
    table.delete_count = table.delete_count.wrapping_add(1);
    match &table.compare_routine {
        Some(c) => {
            remove_found(&mut table.balanced_root, c, buffer);
        },
        None => {},
    }
    proof {
        lemma_remove_distinct(items, p);
        lemma_place_none(items, id);
    }
    table.depth_of_tree = compute_depth(&table.balanced_root);
    table.number_generic_table_elements = table.number_generic_table_elements - 1;
    table.ordered_pointer = None;
    table.which_ordered_element = 0;
    proof {
        let after = table.items();
        assert(after == items.remove(p));
        assert forall|i: int| 0 <= i < after.len() implies (#[trigger] after[i]).0
            < table.next_node by {
            let k = if i < p {
                i
            } else {
                i + 1
            };
            assert(after[i] == items[k]);
        }
        if let Some(key) = table.restart_key {
            if restarts_here {
                assert(items[p - 1].0 == key);
                assert(after[p - 1].0 == key);
            } else {
                assert(holds(items, key));
                assert(holds(after, key));
            }
        }
    }
    true
}

pub proof fn lemma_remove_distinct(items: Seq<(u64, Seq<u8>)>, p: int)
    requires
        distinct(items),
        0 <= p < items.len(),
    ensures
        distinct(items.remove(p)),
        forall|k: u64| k != items[p].0 ==> (#[trigger] holds(items.remove(p), k) <==> holds(items, k)),
{
    let after = items.remove(p);
    assert forall|i: int, j: int| 0 <= i < j < after.len() implies (#[trigger] after[i]).0 != (
    #[trigger] after[j]).0 by {
        let a = if i < p {
            i
        } else {
            i + 1
        };
        let b = if j < p {
            j
        } else {
            j + 1
        };
        assert(after[i] == items[a] && after[j] == items[b]);
    }
    assert forall|k: u64| k != items[p].0 implies (#[trigger] holds(after, k) <==> holds(
        items,
        k,
    )) by {
        if holds(after, k) {
            let i = choose|i: int| 0 <= i < after.len() && (#[trigger] after[i]).0 == k;
            if i < p {
                assert(items[i].0 == k);
            } else {
                assert(items[i + 1].0 == k);
            }
        }
        if holds(items, k) {
            let i = choose|i: int| 0 <= i < items.len() && (#[trigger] items[i]).0 == k;
            if i < p {
                assert(after[i].0 == k);
            } else {
                assert(after[i - 1].0 == k);
            }
        }
    }
}

// ---------------------------------------------------------------------------------------------
// Enumeration
// ---------------------------------------------------------------------------------------------

/// The node behind a node, or the first one where none is given.
pub(crate) fn successor_in_table(t: &Tree, node: Option<u64>) -> (r: Option<u64>)
    requires
        distinct(in_order(shape(*t))),
        node matches Some(id) ==> holds(in_order(shape(*t)), id),
    ensures
        r == element_after(in_order(shape(*t)), node),
        r matches Some(id) ==> holds(in_order(shape(*t)), id),
{
    let ghost items = in_order(shape(*t));
    match node {
        None => match leftmost(t) {
            Some(n) => {
                assert(items[0].0 == n.id);
                Some(n.id)
            },
            None => {
                assert(items =~= Seq::empty());
                None
            },
        },
        Some(id) => match next_after(t, id) {
            Behind::Next(n) => {
                proof {
                    let p = choose|p: int|
                        0 <= p < items.len() - 1 && (#[trigger] items[p]).0 == id && items[p + 1]
                            == (n.id, n.data@);
                    lemma_place(items, p);
                    assert(items[p + 1].0 == n.id);
                }
                Some(n.id)
            },
            _ => {
                proof {
                    lemma_place(items, items.len() - 1);
                }
                None
            },
        },
    }
}

/// The next element, from the restart key on. At the end the key stays where it is.
pub fn enumerate_generic_table_without_splaying_avl<C: Fn(&[u8], &[u8]) -> u32>(
    table: &RtlAvlTable<C>,
    restart_key: &mut Option<u64>,
) -> (r: Option<u64>)
    requires
        table.well_formed(),
        *old(restart_key) matches Some(id) ==> holds(table.items(), id),
    ensures
        r == element_after(table.items(), *old(restart_key)),
        *final(restart_key) == if r is Some {
            r
        } else {
            *old(restart_key)
        },
        *final(restart_key) matches Some(id) ==> holds(table.items(), id),
{
    let next = successor_in_table(&table.balanced_root, *restart_key);
    if next.is_some() {
        *restart_key = next;
    }
    next
}

/// The next element of the table's own enumeration, which `restart` starts anew.
pub fn enumerate_generic_table_avl<C: Fn(&[u8], &[u8]) -> u32>(
    table: &mut RtlAvlTable<C>,
    restart: bool,
) -> (r: Option<u64>)
    requires
        old(table).well_formed(),
    ensures
        final(table).well_formed(),
        ({
            let key = if restart {
                None
            } else {
                old(table).restart_key
            };
            &&& r == element_after(old(table).items(), key)
            &&& *final(table) == (RtlAvlTable {
                restart_key: if r is Some {
                    r
                } else {
                    key
                },
                ..*old(table)
            })
        }),
{
    let mut key: Option<u64> = if restart {
        None
    } else {
        table.restart_key
    };
    let next = enumerate_generic_table_without_splaying_avl(table, &mut key);
    table.restart_key = key;
    next
}

/// Enumeration gives the elements in order: after the first `k` elements it gives the next one.
pub proof fn enumeration_follows_order(items: Seq<(u64, Seq<u8>)>, k: int)
    requires
        distinct(items),
        0 <= k < items.len(),
    ensures
        k == 0 ==> element_after(items, None) == Some(items[0].0),
        k > 0 ==> element_after(items, Some(items[k - 1].0)) == Some(items[k].0),
        element_after(items, Some(items.last().0)) is None,
{
    if k > 0 {
        lemma_place(items, k - 1);
    }
    lemma_place(items, items.len() - 1);
}

/// The first place from `p` backwards such that all elements from there to `p` equal a key.
pub open spec fn first_equal<C: Fn(&[u8], &[u8]) -> u32>(
    items: Seq<(u64, Seq<u8>)>,
    c: C,
    key: Seq<u8>,
    p: int,
) -> int
    decreases p,
{
    if p > 0 && outcome(c, key, items[p - 1].1) == GENERIC_EQUAL {
        first_equal(items, c, key, p - 1)
    } else {
        p
    }
}

/// The elements of a tree: node numbers and data.
fn push_elements<'a>(t: &'a Tree, out: &mut Vec<&'a BalancedLinks>)
    ensures
        elements(final(out)@) == elements(old(out)@) + in_order(shape(*t)),
    decreases t,
{
    match t {
        None => {
            assert(elements(out@) =~= elements(old(out)@) + in_order(shape(*t)));
        },
        Some(n) => {
            push_elements(&n.left_child, out);
            let ghost mid = out@;
            out.push(&**n);
            assert(elements(out@) =~= elements(mid).push((n.id, n.data@)));
            push_elements(&n.right_child, out);
            assert(elements(out@) =~= elements(old(out)@) + in_order(shape(*t)));
        },
    }
}

/// The elements that nodes hold.
spec fn elements(nodes: Seq<&BalancedLinks>) -> Seq<(u64, Seq<u8>)> {
    nodes.map_values(|n: &BalancedLinks| (n.id, n.data@))
}

/// Where the element `id` is among nodes.
fn place_among(nodes: &Vec<&BalancedLinks>, id: u64) -> (p: usize)
    requires
        distinct(elements(nodes@)),
        holds(elements(nodes@), id),
    ensures
        p < nodes@.len(),
        place_of(elements(nodes@), id) == Some(p as int),
{
    let ghost items = elements(nodes@);
    let mut i: usize = 0;
    let ghost q = choose|q: int| 0 <= q < items.len() && (#[trigger] items[q]).0 == id;
    assert(nodes@[q].id == id);
    let total: usize = nodes.len();
    while nodes[i].id != id
        invariant
            i <= q < nodes@.len() == total,
            nodes@[q].id == id,
        decreases q - i,
    {
        i += 1;
    }
    proof {
        assert(items[i as int].0 == id);
        lemma_place(items, i as int);
    }
    i
}

/// Find the first of the elements in a row that equal a key.
pub fn lookup_first_matching_element_generic_table_avl<C: Fn(&[u8], &[u8]) -> u32>(
    table: &RtlAvlTable<C>,
    buffer: &[u8],
    restart_key: &mut Option<u64>,
) -> (r: Option<u64>)
    requires
        table.well_formed(),
    ensures
        *final(restart_key) == r,
        ({
            let found = table.looked_up(buffer@);
            if found.0 == TableSearchResult::TableFoundNode {
                place_of(table.items(), found.1->Some_0) matches Some(p) && r == Some(
                    table.items()[first_equal(
                        table.items(),
                        table.compare_routine->Some_0,
                        buffer@,
                        p,
                    )].0,
                )
            } else {
                r is None
            }
        }),
{
    *restart_key = None;
    let (result, found) = find_avl_table_node_or_parent(table, buffer);
    if result != TableSearchResult::TableFoundNode {
        return None;
    }
    proof {
        lemma_search_ends_inside(
            shape(table.balanced_root),
            table.compare_routine->Some_0,
            buffer@,
        );
    }
    match (&table.compare_routine, found) {
        (Some(c), Some(id)) => {
            let mut nodes: Vec<&BalancedLinks> = Vec::new();
            push_elements(&table.balanced_root, &mut nodes);
            let ghost items = table.items();
            assert(elements(nodes@) =~= items);
            let start: usize = place_among(&nodes, id);
            let mut p: usize = start;
            while p > 0 && compare(c, buffer, nodes[p - 1].data.as_slice()) == GENERIC_EQUAL
                invariant
                    compares(*c),
                    p <= start < nodes@.len(),
                    elements(nodes@) == items,
                    first_equal(items, *c, buffer@, start as int) == first_equal(
                        items,
                        *c,
                        buffer@,
                        p as int,
                    ),
                decreases p,
            {
                assert(elements(nodes@)[p - 1] == items[p - 1]);
                p -= 1;
            }
            assert(p > 0 ==> elements(nodes@)[p - 1] == items[p - 1]);
            assert(elements(nodes@)[p as int] == items[p as int]);
            *restart_key = Some(nodes[p].id);
            Some(nodes[p].id)
        },
        _ => None,
    }
}

/// The element at an index, in order.
pub fn get_element_generic_table_avl<C: Fn(&[u8], &[u8]) -> u32>(
    table: &mut RtlAvlTable<C>,
    index: u32,
) -> (r: Option<u64>)
    requires
        old(table).well_formed(),
    ensures
        final(table).well_formed(),
        r == if index < old(table).items().len() {
            Some(old(table).items()[index as int].0)
        } else {
            None
        },
        *final(table) == if r is Some {
            RtlAvlTable {
                ordered_pointer: r,
                which_ordered_element: (index + 1) as u32,
                ..*old(table)
            }
        } else {
            *old(table)
        },
{
    if index >= table.number_generic_table_elements {
        return None;
    }
    let mut order: Vec<u64> = Vec::new();
    push_ids(&table.balanced_root, &mut order);
    assert(order@ =~= ids(table.items()));
    let id: u64 = order[index as usize];
    table.ordered_pointer = Some(id);
    table.which_ordered_element = index + 1;
    Some(id)
}

/// What a directory-like enumeration finds from the place `p` on: the first element that is not
/// passed over, and whether it is wanted.
pub open spec fn first_judged<M: Fn(&[u8]) -> u32>(
    items: Seq<(u64, Seq<u8>)>,
    m: Option<M>,
    p: int,
) -> Option<(u64, bool)>
    decreases items.len() - p,
{
    if p >= items.len() {
        None
    } else {
        let verdict = match m {
            Some(m) => judgement(m, items[p].1),
            None => STATUS_SUCCESS,
        };
        if verdict == STATUS_NO_MATCH {
            first_judged(items, m, p + 1)
        } else {
            Some((items[p].0, verdict == STATUS_SUCCESS))
        }
    }
}

/// The place of a node, or the end.
pub open spec fn place_or_end(items: Seq<(u64, Seq<u8>)>, id: u64) -> int {
    match place_of(items, id) {
        Some(p) => p,
        None => items.len() as int,
    }
}

/// Where a directory-like enumeration starts: at the restart key while nothing was deleted since,
/// else where the search for a key ends. `next` goes one further, unless the search found only the
/// place where the key would be.
pub open spec fn directory_start<C: Fn(&[u8], &[u8]) -> u32>(
    table: RtlAvlTable<C>,
    key: Seq<u8>,
    next: bool,
    restart: Option<u64>,
    delete_count: u32,
) -> int {
    let items = table.items();
    match restart {
        Some(id) if delete_count == table.delete_count => place_or_end(items, id) + if next {
            1int
        } else {
            0
        },
        _ => match table.looked_up(key) {
            (TableSearchResult::TableFoundNode, Some(id)) => place_or_end(items, id) + if next {
                1int
            } else {
                0
            },
            (TableSearchResult::TableInsertAsRight, Some(id)) => place_or_end(items, id) + 1,
            (TableSearchResult::TableInsertAsLeft, Some(id)) => place_or_end(items, id),
            _ => items.len() as int,
        },
    }
}

/// Enumerate like a directory: the next element that `match_function` wants. The restart key and
/// delete count are brought up to date; deletions since the last call only mean that the place is
/// searched for again.
pub fn enumerate_generic_table_like_a_directory<C: Fn(&[u8], &[u8]) -> u32, M: Fn(&[u8]) -> u32>(
    table: &RtlAvlTable<C>,
    match_function: Option<&M>,
    next_flag: u32,
    restart_key: &mut Option<u64>,
    delete_count: &mut u32,
    buffer: &[u8],
) -> (r: Option<u64>)
    requires
        table.well_formed(),
        *old(delete_count) == table.delete_count ==> (*old(restart_key) matches Some(id) ==> holds(
            table.items(),
            id,
        )),
        match_function matches Some(m) ==> judges(*m),
    ensures
        *final(delete_count) == table.delete_count,
        ({
            let judged = first_judged(
                table.items(),
                owned(match_function),
                directory_start(
                    *table,
                    buffer@,
                    next_flag != 0,
                    *old(restart_key),
                    *old(delete_count),
                ),
            );
            match judged {
                Some((id, wanted)) => *final(restart_key) == Some(id) && r == if wanted {
                    Some(id)
                } else {
                    None
                },
                None => *final(restart_key) is None && r is None,
            }
        }),
{
    let ghost items = table.items();
    let ghost start = directory_start(
        *table,
        buffer@,
        next_flag != 0,
        *restart_key,
        *delete_count,
    );
    let kept: Option<u64> = if *delete_count == table.delete_count {
        *restart_key
    } else {
        None
    };
    *restart_key = None;
    *delete_count = table.delete_count;
    let mut nodes: Vec<&BalancedLinks> = Vec::new();
    push_elements(&table.balanced_root, &mut nodes);
    assert(elements(nodes@) =~= items);
    let total: usize = nodes.len();
    let mut p: usize = match kept {
        Some(id) => {
            let at: usize = place_among(&nodes, id);
            if next_flag != 0 {
                at + 1
            } else {
                at
            }
        },
        None => {
            let (result, found) = find_avl_table_node_or_parent(table, buffer);
            proof {
                if table.compare_routine is Some {
                    lemma_search_ends_inside(
                        shape(table.balanced_root),
                        table.compare_routine->Some_0,
                        buffer@,
                    );
                }
            }
            match found {
                Some(id) => {
                    let at: usize = place_among(&nodes, id);
                    if result == TableSearchResult::TableInsertAsRight || (result
                        == TableSearchResult::TableFoundNode && next_flag != 0) {
                        at + 1
                    } else {
                        at
                    }
                },
                None => total,
            }
        },
    };
    assert(p == start || (p >= items.len() && start >= items.len()));
    assert(first_judged(items, owned(match_function), start) == first_judged(
        items,
        owned(match_function),
        p as int,
    ));
    while p < total
        invariant
            match_function matches Some(m) ==> judges(*m),
            total == nodes@.len(),
            elements(nodes@) == items,
            items == table.items(),
            start == directory_start(
                *table,
                buffer@,
                next_flag != 0,
                *old(restart_key),
                *old(delete_count),
            ),
            *restart_key is None,
            *delete_count == table.delete_count,
            first_judged(items, owned(match_function), start) == first_judged(
                items,
                owned(match_function),
                p as int,
            ),
        decreases total - p,
    {
        assert(elements(nodes@)[p as int] == items[p as int]);
        let n: &BalancedLinks = nodes[p];
        let verdict: u32 = match match_function {
            Some(m) => judge(m, n.data.as_slice()),
            None => STATUS_SUCCESS,
        };
        if verdict != STATUS_NO_MATCH {
            *restart_key = Some(n.id);
            return if verdict == STATUS_SUCCESS {
                Some(n.id)
            } else {
                None
            };
        }
        p += 1;
    }
    None
}

/// A borrowed value that may be absent.
pub open spec fn owned<M>(m: Option<&M>) -> Option<M> {
    match m {
        Some(m) => Some(*m),
        None => None,
    }
}

// ---------------------------------------------------------------------------------------------
// Collation
// ---------------------------------------------------------------------------------------------

/// Whether a comparison fits the order of the elements: those that a key is greater than come
/// first, those that it is less than come last.
pub open spec fn collates<C: Fn(&[u8], &[u8]) -> u32>(
    items: Seq<(u64, Seq<u8>)>,
    c: C,
    key: Seq<u8>,
) -> bool {
    &&& forall|i: int, j: int|
        0 <= i <= j < items.len() && outcome(c, key, (#[trigger] items[i]).1) == GENERIC_LESS_THAN
            ==> outcome(c, key, (#[trigger] items[j]).1) == GENERIC_LESS_THAN
    &&& forall|i: int, j: int|
        0 <= i <= j < items.len() && outcome(c, key, (#[trigger] items[j]).1)
            == GENERIC_GREATER_THAN ==> outcome(c, key, (#[trigger] items[i]).1)
            == GENERIC_GREATER_THAN
}

/// Whether some element equals a key.
pub open spec fn occurs<C: Fn(&[u8], &[u8]) -> u32>(items: Seq<(u64, Seq<u8>)>, c: C, key: Seq<u8>) -> bool {
    exists|i: int|
        0 <= i < items.len() && outcome(c, key, (#[trigger] items[i]).1) != GENERIC_LESS_THAN
            && outcome(c, key, items[i].1) != GENERIC_GREATER_THAN
}

proof fn lemma_collates_parts<C: Fn(&[u8], &[u8]) -> u32>(
    a: Seq<(u64, Seq<u8>)>,
    e: (u64, Seq<u8>),
    b: Seq<(u64, Seq<u8>)>,
    c: C,
    key: Seq<u8>,
)
    requires
        collates(a + seq![e] + b, c, key),
    ensures
        collates(a, c, key),
        collates(b, c, key),
        outcome(c, key, e.1) == GENERIC_LESS_THAN ==> forall|i: int|
            0 <= i < b.len() ==> outcome(c, key, (#[trigger] b[i]).1) == GENERIC_LESS_THAN,
        outcome(c, key, e.1) == GENERIC_GREATER_THAN ==> forall|i: int|
            0 <= i < a.len() ==> outcome(c, key, (#[trigger] a[i]).1) == GENERIC_GREATER_THAN,
{
    let all = a + seq![e] + b;
    let n = a.len() as int;
    assert(all[n] == e);
    assert forall|i: int, j: int|
        0 <= i <= j < a.len() && outcome(c, key, (#[trigger] a[i]).1)
            == GENERIC_LESS_THAN implies outcome(c, key, (#[trigger] a[j]).1)
        == GENERIC_LESS_THAN by {
        assert(a[i] == all[i] && a[j] == all[j]);
    }
    assert forall|i: int, j: int|
        0 <= i <= j < a.len() && outcome(c, key, (#[trigger] a[j]).1)
            == GENERIC_GREATER_THAN implies outcome(c, key, (#[trigger] a[i]).1)
        == GENERIC_GREATER_THAN by {
        assert(a[i] == all[i] && a[j] == all[j]);
    }
    assert forall|i: int, j: int|
        0 <= i <= j < b.len() && outcome(c, key, (#[trigger] b[i]).1)
            == GENERIC_LESS_THAN implies outcome(c, key, (#[trigger] b[j]).1)
        == GENERIC_LESS_THAN by {
        assert(b[i] == all[n + 1 + i] && b[j] == all[n + 1 + j]);
    }
    assert forall|i: int, j: int|
        0 <= i <= j < b.len() && outcome(c, key, (#[trigger] b[j]).1)
            == GENERIC_GREATER_THAN implies outcome(c, key, (#[trigger] b[i]).1)
        == GENERIC_GREATER_THAN by {
        assert(b[i] == all[n + 1 + i] && b[j] == all[n + 1 + j]);
    }
    if outcome(c, key, e.1) == GENERIC_LESS_THAN {
        assert forall|i: int| 0 <= i < b.len() implies outcome(c, key, (#[trigger] b[i]).1)
            == GENERIC_LESS_THAN by {
            assert(b[i] == all[n + 1 + i]);
        }
    }
    if outcome(c, key, e.1) == GENERIC_GREATER_THAN {
        assert forall|i: int| 0 <= i < a.len() implies outcome(c, key, (#[trigger] a[i]).1)
            == GENERIC_GREATER_THAN by {
            assert(a[i] == all[i]);
        }
    }
}

/// The place where the search for a key ends.
pub open spec fn search_place<C: Fn(&[u8], &[u8]) -> u32>(t: Shape, c: C, key: Seq<u8>) -> int
    decreases t,
{
    match t {
        Shape::Empty => 0,
        Shape::Node { data, left, right, .. } => if outcome(c, key, data) == GENERIC_LESS_THAN {
            search_place(*left, c, key)
        } else {
            in_order(*left).len() + 1 + search_place(*right, c, key)
        },
    }
}

/// Whether a place parts the elements that a key is greater than from those that it is less than.
pub open spec fn parts<C: Fn(&[u8], &[u8]) -> u32>(
    items: Seq<(u64, Seq<u8>)>,
    c: C,
    key: Seq<u8>,
    q: int,
) -> bool {
    &&& 0 <= q <= items.len()
    &&& forall|i: int|
        0 <= i < q ==> outcome(c, key, (#[trigger] items[i]).1) == GENERIC_GREATER_THAN
    &&& forall|i: int|
        q <= i < items.len() ==> outcome(c, key, (#[trigger] items[i]).1) == GENERIC_LESS_THAN
}

proof fn lemma_search_place<C: Fn(&[u8], &[u8]) -> u32>(t: Shape, c: C, key: Seq<u8>)
    requires
        distinct(in_order(t)),
        collates(in_order(t), c, key),
        search(t, c, key).0 != TableSearchResult::TableFoundNode,
    ensures
        parts(in_order(t), c, key, search_place(t, c, key)),
        t is Empty || search_place(t, c, key) == place_beside(
            in_order(t),
            search(t, c, key).1->Some_0,
            search(t, c, key).0 == TableSearchResult::TableInsertAsLeft,
        ),
    decreases t,
{
    if let Shape::Node { id, data, left, right } = t {
        let a = in_order(*left);
        let b = in_order(*right);
        let e = (id, data);
        let all = in_order(t);
        let n = a.len() as int;
        assert(all[n] == e);
        lemma_collates_parts(a, e, b, c, key);
        lemma_distinct_parts(a, e, b);
        let r = outcome(c, key, data);
        let q = search_place(t, c, key);
        if r == GENERIC_LESS_THAN {
            if *left is Empty {
                assert(a =~= Seq::empty());
                assert(search_place(*left, c, key) == 0);
                lemma_place(all, 0);
            } else {
                lemma_search_place(*left, c, key);
                lemma_search_ends_inside(*left, c, key);
                let at = search(*left, c, key).1->Some_0;
                lemma_place_none(a, at);
                let p = place_of(a, at)->Some_0;
                assert(all[p] == a[p]);
                lemma_place(all, p);
            }
        } else {
            if *right is Empty {
                assert(b =~= Seq::empty());
                assert(search_place(*right, c, key) == 0);
                lemma_place(all, n);
            } else {
                lemma_search_place(*right, c, key);
                lemma_search_ends_inside(*right, c, key);
                let at = search(*right, c, key).1->Some_0;
                lemma_place_none(b, at);
                let p = place_of(b, at)->Some_0;
                assert(all[n + 1 + p] == b[p]);
                lemma_place(all, n + 1 + p);
            }
        }
        assert forall|i: int| 0 <= i < q implies outcome(c, key, (#[trigger] all[i]).1)
            == GENERIC_GREATER_THAN by {
            if i < n {
                assert(all[i] == a[i]);
            } else if i > n {
                assert(all[i] == b[i - n - 1]);
            }
        }
        assert forall|i: int| q <= i < all.len() implies outcome(c, key, (#[trigger] all[i]).1)
            == GENERIC_LESS_THAN by {
            if i < n {
                assert(all[i] == a[i]);
            } else if i > n {
                assert(all[i] == b[i - n - 1]);
            }
        }
    } else {
        assert(in_order(t) =~= Seq::empty());
    }
}

/// Where the comparison fits the order of the elements, a new element goes behind all that it is
/// greater than and in front of all that it is less than, so the order is kept.
pub proof fn insertion_keeps_collation<C: Fn(&[u8], &[u8]) -> u32>(
    t: Shape,
    c: C,
    id: u64,
    data: Seq<u8>,
)
    requires
        distinct(in_order(t)),
        collates(in_order(t), c, data),
        search(t, c, data).0 != TableSearchResult::TableFoundNode,
    ensures
        parts(in_order(t), c, data, search_place(t, c, data)),
        in_order(placed(t, search(t, c, data), id, data)) == in_order(t).insert(
            search_place(t, c, data),
            (id, data),
        ),
{
    lemma_search_place(t, c, data);
    lemma_search_ends_inside(t, c, data);
    lemma_search_side_free(t, c, data);
    let found = search(t, c, data);
    if t is Empty {
        reveal_with_fuel(in_order, 3);
        assert(in_order(placed(t, found, id, data)) =~= in_order(t).insert(0, (id, data)));
    } else {
        let on_left = found.0 == TableSearchResult::TableInsertAsLeft;
        attached_elements_stand_beside(t, found.1->Some_0, on_left, id, data);
    }
}

/// Where the comparison fits the order of the elements, a search finds a key if and only if some
/// element equals it.
pub proof fn search_finds_what_occurs<C: Fn(&[u8], &[u8]) -> u32>(t: Shape, c: C, key: Seq<u8>)
    requires
        collates(in_order(t), c, key),
    ensures
        search(t, c, key).0 == TableSearchResult::TableFoundNode <==> occurs(in_order(t), c, key),
    decreases t,
{
    if let Shape::Node { id, data, left, right } = t {
        let a = in_order(*left);
        let b = in_order(*right);
        let all = in_order(t);
        let n = a.len() as int;
        assert(all[n] == (id, data));
        assert forall|i: int| 0 <= i < a.len() implies a[i] == #[trigger] all[i] by {}
        assert forall|i: int| 0 <= i < b.len() implies #[trigger] b[i] == all[n + 1 + i] by {}
        lemma_collates_parts(a, (id, data), b, c, key);
        search_finds_what_occurs(*left, c, key);
        search_finds_what_occurs(*right, c, key);
        let r = outcome(c, key, data);
        if occurs(all, c, key) {
            let i = choose|i: int|
                0 <= i < all.len() && outcome(c, key, (#[trigger] all[i]).1) != GENERIC_LESS_THAN
                    && outcome(c, key, all[i].1) != GENERIC_GREATER_THAN;
            if r == GENERIC_LESS_THAN {
                if i >= n {
                    assert(outcome(c, key, all[n].1) == GENERIC_LESS_THAN);
                }
                assert(a[i] == all[i]);
                assert(occurs(a, c, key));
                if *left is Empty {
                    assert(a =~= Seq::empty());
                }
            } else if r == GENERIC_GREATER_THAN {
                if i <= n {
                    assert(outcome(c, key, all[n].1) == GENERIC_GREATER_THAN);
                }
                assert(b[i - n - 1] == all[i]);
                assert(occurs(b, c, key));
                if *right is Empty {
                    assert(b =~= Seq::empty());
                }
            }
        }
        if occurs(a, c, key) {
            let i = choose|i: int|
                0 <= i < a.len() && outcome(c, key, (#[trigger] a[i]).1) != GENERIC_LESS_THAN
                    && outcome(c, key, a[i].1) != GENERIC_GREATER_THAN;
            assert(all[i] == a[i]);
        }
        if occurs(b, c, key) {
            let i = choose|i: int|
                0 <= i < b.len() && outcome(c, key, (#[trigger] b[i]).1) != GENERIC_LESS_THAN
                    && outcome(c, key, b[i].1) != GENERIC_GREATER_THAN;
            assert(all[n + 1 + i] == b[i]);
        }
        if r != GENERIC_LESS_THAN && r != GENERIC_GREATER_THAN {
            assert(outcome(c, key, all[n].1) == r);
        }
    }
}

/// Whether a comparison finds no difference between a key and some data.
pub open spec fn equals<C: Fn(&[u8], &[u8]) -> u32>(c: C, key: Seq<u8>, data: Seq<u8>) -> bool {
    outcome(c, key, data) != GENERIC_LESS_THAN && outcome(c, key, data) != GENERIC_GREATER_THAN
}

/// The search for an element that was put where its search ended goes the same way, and one step
/// further.
proof fn lemma_search_placed<C: Fn(&[u8], &[u8]) -> u32>(t: Shape, c: C, id: u64, data: Seq<u8>)
    requires
        distinct(in_order(t)),
        search(t, c, data).0 != TableSearchResult::TableFoundNode,
        equals(c, data, data),
    ensures
        search(placed(t, search(t, c, data), id, data), c, data) == (
            TableSearchResult::TableFoundNode,
            Some(id),
        ),
    decreases t,
{
    reveal_with_fuel(search, 2);
    if let Shape::Node { id: here, data: held, left, right } = t {
        let a = in_order(*left);
        let b = in_order(*right);
        lemma_distinct_parts(a, (here, held), b);
        assert(in_order(t)[a.len() as int] == (here, held));
        let found = search(t, c, data);
        if outcome(c, data, held) == GENERIC_LESS_THAN {
            if !(*left is Empty) {
                lemma_search_placed(*left, c, id, data);
                lemma_search_ends_inside(*left, c, data);
                let parent = found.1->Some_0;
                let i = choose|i: int| 0 <= i < a.len() && (#[trigger] a[i]).0 == parent;
                assert(in_order(t)[i] == a[i]);
                assert(parent != here);
            }
        } else {
            if !(*right is Empty) {
                lemma_search_placed(*right, c, id, data);
                lemma_search_ends_inside(*right, c, data);
                let parent = found.1->Some_0;
                let i = choose|i: int| 0 <= i < b.len() && (#[trigger] b[i]).0 == parent;
                assert(in_order(t)[a.len() + 1 + i] == b[i]);
                assert(parent != here);
            }
        }
    }
}

/// A lookup right after an insertion gives the element that the insertion gave. Where that element
/// was there already the table is as it was; where it is new the table has one more element, which
/// holds the data that was inserted.
pub proof fn inserted_elements_are_found<C: Fn(&[u8], &[u8]) -> u32, F: FnOnce(u32) -> bool>(
    before: RtlAvlTable<C>,
    data: Seq<u8>,
    allocate: F,
    r: Option<(u64, bool)>,
    after: RtlAvlTable<C>,
)
    requires
        before.well_formed(),
        before.compare_routine matches Some(c) && equals(c, data, data),
        insertion(before, data, allocate, before.looked_up(data), r, after),
        r is Some,
    ensures
        after.looked_up(data) == (TableSearchResult::TableFoundNode, Some(r->Some_0.0)),
        !r->Some_0.1 ==> after == before,
        r->Some_0.1 ==> {
            &&& after.items().len() == before.items().len() + 1
            &&& place_of(after.items(), r->Some_0.0) matches Some(p) && after.items()[p].1 == data
        },
{
    let t = shape(before.balanced_root);
    let c = before.compare_routine->Some_0;
    let found = search(t, c, data);
    let id = before.next_node;
    lemma_search_ends_inside(t, c, data);
    if found.0 != TableSearchResult::TableFoundNode {
        assert(!holds(in_order(t), id)) by {
            if holds(in_order(t), id) {
                let i = choose|i: int|
                    0 <= i < in_order(t).len() && (#[trigger] in_order(t)[i]).0 == id;
                assert(before.items()[i].0 < before.next_node);
            }
        }
        lemma_search_placed(t, c, id, data);
        lemma_placed(t, c, data, id, data);
        let items = in_order(placed(t, found, id, data));
        let q = new_place(in_order(t), found);
        assert(items[q] == (id, data));
        lemma_place(items, q);
    }
}

/// Whether at most one element equals a key.
pub open spec fn occurs_once<C: Fn(&[u8], &[u8]) -> u32>(
    items: Seq<(u64, Seq<u8>)>,
    c: C,
    key: Seq<u8>,
) -> bool {
    forall|i: int, j: int|
        0 <= i < j < items.len() && equals(c, key, (#[trigger] items[i]).1) ==> !equals(
            c,
            key,
            (#[trigger] items[j]).1,
        )
}

/// What is left of elements in which one element equals a key, once it was taken out.
pub proof fn lemma_taken_out<C: Fn(&[u8], &[u8]) -> u32>(
    items: Seq<(u64, Seq<u8>)>,
    c: C,
    key: Seq<u8>,
    p: int,
)
    requires
        collates(items, c, key),
        occurs_once(items, c, key),
        0 <= p < items.len(),
        equals(c, key, items[p].1),
    ensures
        collates(items.remove(p), c, key),
        !occurs(items.remove(p), c, key),
{
    let left = items.remove(p);
    assert forall|i: int| 0 <= i < left.len() implies #[trigger] left[i] == items[if i < p {
        i
    } else {
        i + 1
    }] by {}
    assert forall|i: int| 0 <= i < left.len() implies !equals(c, key, (#[trigger] left[i]).1) by {
        if i < p {
            assert(left[i] == items[i]);
            assert(equals(c, key, items[i].1) ==> !equals(c, key, items[p].1));
        } else {
            assert(left[i] == items[i + 1]);
        }
    }
}

pub(crate) proof fn lemma_found_equals<C: Fn(&[u8], &[u8]) -> u32>(t: Shape, c: C, key: Seq<u8>)
    requires
        distinct(in_order(t)),
        search(t, c, key).0 == TableSearchResult::TableFoundNode,
    ensures
        place_of(in_order(t), search(t, c, key).1->Some_0) matches Some(p) && 0 <= p < in_order(
            t,
        ).len() && equals(c, key, in_order(t)[p].1),
    decreases t,
{
    if let Shape::Node { id: here, data, left, right } = t {
        let a = in_order(*left);
        let b = in_order(*right);
        let all = in_order(t);
        let n = a.len() as int;
        lemma_distinct_parts(a, (here, data), b);
        assert(all[n] == (here, data));
        if outcome(c, key, data) == GENERIC_LESS_THAN {
            lemma_found_equals(*left, c, key);
            lemma_place_none(a, search(*left, c, key).1->Some_0);
            let p = place_of(a, search(*left, c, key).1->Some_0)->Some_0;
            assert(all[p] == a[p]);
            lemma_place(all, p);
        } else if outcome(c, key, data) == GENERIC_GREATER_THAN {
            lemma_found_equals(*right, c, key);
            lemma_place_none(b, search(*right, c, key).1->Some_0);
            let p = place_of(b, search(*right, c, key).1->Some_0)->Some_0;
            assert(all[n + 1 + p] == b[p]);
            lemma_place(all, n + 1 + p);
        } else {
            lemma_place(all, n);
        }
    }
}

/// A key that was deleted is not found any more, where the comparison fits the order of the elements
/// and only one of them equals the key.
pub proof fn deleted_elements_are_gone<C: Fn(&[u8], &[u8]) -> u32>(t: Shape, c: C, key: Seq<u8>)
    requires
        distinct(in_order(t)),
        collates(in_order(t), c, key),
        occurs_once(in_order(t), c, key),
        search(t, c, key).0 == TableSearchResult::TableFoundNode,
    ensures
        search(without_found(t, c, key), c, key).0 != TableSearchResult::TableFoundNode,
{
    lemma_found_equals(t, c, key);
    deletion_takes_out_one(t, c, key);
    let p = place_of(in_order(t), search(t, c, key).1->Some_0)->Some_0;
    lemma_taken_out(in_order(t), c, key, p);
    search_finds_what_occurs(without_found(t, c, key), c, key);
}

// ---------------------------------------------------------------------------------------------
// Comparisons that order all data
// ---------------------------------------------------------------------------------------------

/// Whether a comparison orders all data: data equals itself, two comparisons of the same data say the
/// same either way round, and what is less than something is less than all that is not below that.
pub open spec fn orders<C: Fn(&[u8], &[u8]) -> u32>(c: C) -> bool {
    &&& forall|a: Seq<u8>| #[trigger] equals(c, a, a)
    &&& forall|a: Seq<u8>, b: Seq<u8>|
        #![trigger outcome(c, a, b)]
        outcome(c, a, b) == GENERIC_GREATER_THAN <==> outcome(c, b, a) == GENERIC_LESS_THAN
    &&& forall|a: Seq<u8>, b: Seq<u8>, d: Seq<u8>|
        #![trigger outcome(c, a, b), outcome(c, b, d)]
        outcome(c, a, b) == GENERIC_LESS_THAN && outcome(c, b, d) != GENERIC_GREATER_THAN
            ==> outcome(c, a, d) == GENERIC_LESS_THAN
    &&& forall|a: Seq<u8>, b: Seq<u8>, d: Seq<u8>|
        #![trigger outcome(c, a, b), outcome(c, b, d)]
        outcome(c, a, b) != GENERIC_GREATER_THAN && outcome(c, b, d) == GENERIC_LESS_THAN
            ==> outcome(c, a, d) == GENERIC_LESS_THAN
}

/// Whether each element is less than all behind it.
pub open spec fn sorted_by<C: Fn(&[u8], &[u8]) -> u32>(items: Seq<(u64, Seq<u8>)>, c: C) -> bool {
    forall|i: int, j: int|
        0 <= i < j < items.len() ==> outcome(c, (#[trigger] items[i]).1, (#[trigger] items[j]).1)
            == GENERIC_LESS_THAN
}

/// What equals data that a key equals, equals the key.
pub(crate) proof fn lemma_equals<C: Fn(&[u8], &[u8]) -> u32>(c: C, a: Seq<u8>, b: Seq<u8>, d: Seq<u8>)
    requires
        orders(c),
        equals(c, a, b),
        equals(c, b, d),
    ensures
        equals(c, b, a),
        equals(c, a, d),
{
    assert(equals(c, b, a)) by {
        assert(outcome(c, a, b) == GENERIC_GREATER_THAN <==> outcome(c, b, a) == GENERIC_LESS_THAN);
        assert(outcome(c, b, a) == GENERIC_GREATER_THAN <==> outcome(c, a, b) == GENERIC_LESS_THAN);
    }
    if outcome(c, a, d) == GENERIC_LESS_THAN {
        assert(outcome(c, b, d) == GENERIC_LESS_THAN);
    }
    if outcome(c, a, d) == GENERIC_GREATER_THAN {
        assert(outcome(c, d, a) == GENERIC_LESS_THAN);
        assert(outcome(c, d, b) == GENERIC_LESS_THAN);
    }
}

/// Sorted elements fit the comparison for every key, and at most one of them equals it.
pub proof fn sorted_elements_collate<C: Fn(&[u8], &[u8]) -> u32>(
    items: Seq<(u64, Seq<u8>)>,
    c: C,
    key: Seq<u8>,
)
    requires
        orders(c),
        sorted_by(items, c),
    ensures
        collates(items, c, key),
        occurs_once(items, c, key),
{
    assert forall|i: int, j: int|
        0 <= i <= j < items.len() && outcome(c, key, (#[trigger] items[j]).1)
            == GENERIC_GREATER_THAN implies outcome(c, key, (#[trigger] items[i]).1)
        == GENERIC_GREATER_THAN by {
        if i < j {
            assert(outcome(c, items[j].1, key) == GENERIC_LESS_THAN);
            assert(outcome(c, items[i].1, items[j].1) == GENERIC_LESS_THAN);
            assert(outcome(c, items[i].1, key) == GENERIC_LESS_THAN);
        }
    }
    assert forall|i: int, j: int|
        0 <= i < j < items.len() && equals(c, key, (#[trigger] items[i]).1) implies !equals(
        c,
        key,
        (#[trigger] items[j]).1,
    ) by {
        assert(outcome(c, items[i].1, items[j].1) == GENERIC_LESS_THAN);
    }
}

/// An element that is put where a key parts sorted elements keeps them sorted.
pub proof fn insertion_keeps_elements_sorted<C: Fn(&[u8], &[u8]) -> u32>(
    items: Seq<(u64, Seq<u8>)>,
    c: C,
    q: int,
    id: u64,
    data: Seq<u8>,
)
    requires
        orders(c),
        sorted_by(items, c),
        parts(items, c, data, q),
    ensures
        sorted_by(items.insert(q, (id, data)), c),
        forall|key: Seq<u8>| #[trigger]
            occurs(items.insert(q, (id, data)), c, key) <==> occurs(items, c, key) || equals(
                c,
                key,
                data,
            ),
{
    let after = items.insert(q, (id, data));
    assert forall|i: int, j: int| 0 <= i < j < after.len() implies outcome(
        c,
        (#[trigger] after[i]).1,
        (#[trigger] after[j]).1,
    ) == GENERIC_LESS_THAN by {
        if i == q {
            assert(after[j] == items[j - 1]);
        } else if j == q {
            assert(after[i] == items[i]);
            assert(outcome(c, data, items[i].1) == GENERIC_GREATER_THAN);
        } else {
            let a = if i < q {
                i
            } else {
                i - 1
            };
            let b = if j < q {
                j
            } else {
                j - 1
            };
            assert(after[i] == items[a] && after[j] == items[b]);
        }
    }
    assert(after[q] == (id, data));
    assert forall|key: Seq<u8>| #[trigger]
        occurs(after, c, key) <==> occurs(items, c, key) || equals(c, key, data) by {
        if occurs(after, c, key) {
            let i = choose|i: int|
                0 <= i < after.len() && outcome(c, key, (#[trigger] after[i]).1)
                    != GENERIC_LESS_THAN && outcome(c, key, after[i].1) != GENERIC_GREATER_THAN;
            if i < q {
                assert(after[i] == items[i]);
            } else if i > q {
                assert(after[i] == items[i - 1]);
            }
        }
        if occurs(items, c, key) {
            let i = choose|i: int|
                0 <= i < items.len() && outcome(c, key, (#[trigger] items[i]).1)
                    != GENERIC_LESS_THAN && outcome(c, key, items[i].1) != GENERIC_GREATER_THAN;
            if i < q {
                assert(after[i] == items[i]);
            } else {
                assert(after[i + 1] == items[i]);
            }
        }
    }
}

/// Sorted elements stay sorted when one of them is taken out, and then all occur that occurred but
/// what equals a key that this one equals.
pub proof fn deletion_keeps_elements_sorted<C: Fn(&[u8], &[u8]) -> u32>(
    items: Seq<(u64, Seq<u8>)>,
    c: C,
    p: int,
    key: Seq<u8>,
)
    requires
        orders(c),
        sorted_by(items, c),
        0 <= p < items.len(),
        equals(c, key, items[p].1),
    ensures
        sorted_by(items.remove(p), c),
        forall|other: Seq<u8>| #[trigger]
            occurs(items.remove(p), c, other) <==> occurs(items, c, other) && !equals(
                c,
                other,
                key,
            ),
{
    let after = items.remove(p);
    assert forall|i: int| 0 <= i < after.len() implies #[trigger] after[i] == items[if i < p {
        i
    } else {
        i + 1
    }] by {}
    assert forall|i: int, j: int| 0 <= i < j < after.len() implies outcome(
        c,
        (#[trigger] after[i]).1,
        (#[trigger] after[j]).1,
    ) == GENERIC_LESS_THAN by {
        let a = if i < p {
            i
        } else {
            i + 1
        };
        let b = if j < p {
            j
        } else {
            j + 1
        };
        assert(after[i] == items[a] && after[j] == items[b]);
    }
    assert forall|other: Seq<u8>| #[trigger]
        occurs(after, c, other) <==> occurs(items, c, other) && !equals(c, other, key) by {
        sorted_elements_collate(items, c, other);
        if occurs(after, c, other) {
            let i = choose|i: int|
                0 <= i < after.len() && outcome(c, other, (#[trigger] after[i]).1)
                    != GENERIC_LESS_THAN && outcome(c, other, after[i].1) != GENERIC_GREATER_THAN;
            let j = if i < p {
                i
            } else {
                i + 1
            };
            assert(after[i] == items[j]);
            if equals(c, other, key) {
                lemma_equals(c, other, key, items[p].1);
                assert(equals(c, other, items[j].1) && equals(c, other, items[p].1));
            }
        }
        if occurs(items, c, other) && !equals(c, other, key) {
            let j = choose|j: int|
                0 <= j < items.len() && outcome(c, other, (#[trigger] items[j]).1)
                    != GENERIC_LESS_THAN && outcome(c, other, items[j].1) != GENERIC_GREATER_THAN;
            if j == p {
                assert(equals(c, items[p].1, items[p].1));
                lemma_equals(c, key, items[p].1, items[p].1);
                lemma_equals(c, other, items[p].1, key);
            }
            if j < p {
                assert(after[j] == items[j]);
            } else {
                assert(after[j - 1] == items[j]);
            }
        }
    }
}

/// In a sorted tree the place where the search for a missing key ends parts the elements.
pub(crate) proof fn lemma_sorted_place<C: Fn(&[u8], &[u8]) -> u32>(t: Shape, c: C, key: Seq<u8>)
    requires
        distinct(in_order(t)),
        orders(c),
        sorted_by(in_order(t), c),
        search(t, c, key).0 != TableSearchResult::TableFoundNode,
    ensures
        parts(in_order(t), c, key, new_place(in_order(t), search(t, c, key))),
{
    sorted_elements_collate(in_order(t), c, key);
    lemma_search_place(t, c, key);
    lemma_search_ends_inside(t, c, key);
}

/// A sorted table stays sorted under insertion. The element is new if and only if none was found
/// that equals it; then it holds the data that was inserted, and else the table is as it was. A
/// lookup of the data then gives the element, and every other key is found if and only if it was
/// found before.
pub proof fn sorted_tables_insert_once<C: Fn(&[u8], &[u8]) -> u32, F: FnOnce(u32) -> bool>(
    before: RtlAvlTable<C>,
    data: Seq<u8>,
    allocate: F,
    r: Option<(u64, bool)>,
    after: RtlAvlTable<C>,
)
    requires
        before.well_formed(),
        before.compare_routine matches Some(c) && orders(c) && sorted_by(before.items(), c),
        insertion(before, data, allocate, before.looked_up(data), r, after),
        r is Some,
    ensures
        sorted_by(after.items(), before.compare_routine->Some_0),
        r->Some_0.1 <==> !occurs(before.items(), before.compare_routine->Some_0, data),
        r->Some_0.1 ==> {
            &&& after.items().len() == before.items().len() + 1
            &&& place_of(after.items(), r->Some_0.0) matches Some(p) && after.items()[p].1 == data
        },
        !r->Some_0.1 ==> {
            &&& after == before
            &&& place_of(before.items(), r->Some_0.0) matches Some(p) && equals(
                before.compare_routine->Some_0,
                data,
                before.items()[p].1,
            )
        },
        after.looked_up(data) == (TableSearchResult::TableFoundNode, Some(r->Some_0.0)),
        forall|key: Seq<u8>|
            (#[trigger] after.looked_up(key)).0 == TableSearchResult::TableFoundNode
                <==> before.looked_up(key).0 == TableSearchResult::TableFoundNode || equals(
                before.compare_routine->Some_0,
                key,
                data,
            ),
{
    let c = before.compare_routine->Some_0;
    let t = shape(before.balanced_root);
    let items = before.items();
    assert(equals(c, data, data));
    inserted_elements_are_found(before, data, allocate, r, after);
    sorted_elements_collate(items, c, data);
    search_finds_what_occurs(t, c, data);
    if r->Some_0.1 {
        let id = before.next_node;
        assert(!holds(items, id)) by {
            if holds(items, id) {
                let i = choose|i: int| 0 <= i < items.len() && (#[trigger] items[i]).0 == id;
                assert(before.items()[i].0 < before.next_node);
            }
        }
        lemma_placed(t, c, data, id, data);
        lemma_sorted_place(t, c, data);
        insertion_keeps_elements_sorted(items, c, new_place(items, search(t, c, data)), id, data);
    } else {
        lemma_found_equals(t, c, data);
    }
    assert forall|key: Seq<u8>|
        (#[trigger] after.looked_up(key)).0 == TableSearchResult::TableFoundNode
            <==> before.looked_up(key).0 == TableSearchResult::TableFoundNode || equals(
            c,
            key,
            data,
        ) by {
        sorted_elements_collate(items, c, key);
        sorted_elements_collate(after.items(), c, key);
        search_finds_what_occurs(t, c, key);
        search_finds_what_occurs(shape(after.balanced_root), c, key);
        if !r->Some_0.1 && equals(c, key, data) {
            let p = place_of(items, r->Some_0.0)->Some_0;
            lemma_equals(c, key, data, items[p].1);
        }
    }
}

/// A sorted table stays sorted under deletion. What was deleted is not found any more, and every key
/// that does not equal it is found if and only if it was found before.
pub proof fn sorted_tables_delete_once<C: Fn(&[u8], &[u8]) -> u32>(
    before: RtlAvlTable<C>,
    key: Seq<u8>,
    after: RtlAvlTable<C>,
)
    requires
        before.well_formed(),
        before.compare_routine matches Some(c) && orders(c) && sorted_by(before.items(), c)
            && shape(after.balanced_root) == without_found(shape(before.balanced_root), c, key),
        before.looked_up(key).0 == TableSearchResult::TableFoundNode,
        after.compare_routine == before.compare_routine,
    ensures
        sorted_by(after.items(), before.compare_routine->Some_0),
        after.items().len() == before.items().len() - 1,
        after.looked_up(key).0 != TableSearchResult::TableFoundNode,
        forall|other: Seq<u8>|
            (#[trigger] after.looked_up(other)).0 == TableSearchResult::TableFoundNode
                <==> before.looked_up(other).0 == TableSearchResult::TableFoundNode && !equals(
                before.compare_routine->Some_0,
                other,
                key,
            ),
{
    let c = before.compare_routine->Some_0;
    let t = shape(before.balanced_root);
    let items = before.items();
    lemma_found_equals(t, c, key);
    deletion_takes_out_one(t, c, key);
    let p = place_of(items, search(t, c, key).1->Some_0)->Some_0;
    deletion_keeps_elements_sorted(items, c, p, key);
    assert forall|other: Seq<u8>|
        (#[trigger] after.looked_up(other)).0 == TableSearchResult::TableFoundNode
            <==> before.looked_up(other).0 == TableSearchResult::TableFoundNode && !equals(
            c,
            other,
            key,
        ) by {
        sorted_elements_collate(items, c, other);
        sorted_elements_collate(after.items(), c, other);
        search_finds_what_occurs(t, c, other);
        search_finds_what_occurs(shape(after.balanced_root), c, other);
    }
    assert(equals(c, key, key));
    assert(after.looked_up(key).0 != TableSearchResult::TableFoundNode);
}

} // verus!
