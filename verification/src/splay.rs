//! Binary trees whose nodes can be brought to the root.

use vstd::prelude::*;

use crate::avl_table::{
    distinct, holds, in_order, lemma_distinct_parts, lemma_place, lemma_place_none, place_of, shape,
    BalancedLinks, Tree,
};

verus! {

/// The node at the root of a tree.
pub open spec fn root_of(t: Tree) -> Option<u64> {
    match t {
        Some(n) => Some(n.id),
        None => None,
    }
}

/// Turn a node and its left child: the child comes up, and the order stays.
fn rotate_right(n: Box<BalancedLinks>) -> (r: Box<BalancedLinks>)
    requires
        n.left_child is Some,
    ensures
        in_order(shape(Some(r))) == in_order(shape(Some(n))),
        r.id == n.left_child->Some_0.id,
        r.left_child == n.left_child->Some_0.left_child,
{
    let ghost whole = n;
    let mut top = n;
    let mut up = top.left_child.take().unwrap();
    let ghost child = up;
    top.left_child = up.right_child.take();
    up.right_child = Some(top);
    proof {
        reveal_with_fuel(shape, 3);
        reveal_with_fuel(in_order, 3);
        let a = in_order(shape(child.left_child));
        let b = in_order(shape(child.right_child));
        let c = in_order(shape(whole.right_child));
        let low = seq![(child.id, child.data@)];
        let high = seq![(whole.id, whole.data@)];
        assert(in_order(shape(Some(whole))) =~= (a + low + b) + high + c);
        assert(in_order(shape(Some(up))) =~= a + low + (b + high + c));
        assert((a + low + b) + high + c =~= a + low + (b + high + c));
    }
    up
}

/// Turn a node and its right child: the child comes up, and the order stays.
fn rotate_left(n: Box<BalancedLinks>) -> (r: Box<BalancedLinks>)
    requires
        n.right_child is Some,
    ensures
        in_order(shape(Some(r))) == in_order(shape(Some(n))),
        r.id == n.right_child->Some_0.id,
        r.right_child == n.right_child->Some_0.right_child,
{
    let ghost whole = n;
    let mut top = n;
    let mut up = top.right_child.take().unwrap();
    let ghost child = up;
    top.right_child = up.left_child.take();
    up.left_child = Some(top);
    proof {
        reveal_with_fuel(shape, 3);
        reveal_with_fuel(in_order, 3);
        let a = in_order(shape(whole.left_child));
        let b = in_order(shape(child.left_child));
        let c = in_order(shape(child.right_child));
        let low = seq![(whole.id, whole.data@)];
        let high = seq![(child.id, child.data@)];
        assert(in_order(shape(Some(whole))) =~= a + low + (b + high + c));
        assert(in_order(shape(Some(up))) =~= (a + low + b) + high + c);
        assert((a + low + b) + high + c =~= a + low + (b + high + c));
    }
    up
}

/// How near a node has come to the root.
enum Lifted {
    /// It is not in the tree.
    Absent,
    /// It is the root.
    Root,
    /// It is the left child of the root.
    Left,
    /// It is the right child of the root.
    Right,
}

/// Whether the node `id` is where `r` says.
spec fn stands(t: Tree, id: u64, r: Lifted) -> bool {
    match r {
        Lifted::Absent => !holds(in_order(shape(t)), id),
        Lifted::Root => root_of(t) == Some(id),
        Lifted::Left => t is Some && root_of(t->Some_0.left_child) == Some(id),
        Lifted::Right => t is Some && root_of(t->Some_0.right_child) == Some(id),
    }
}

proof fn lemma_holds_parts(n: Box<BalancedLinks>, id: u64)
    ensures
        holds(in_order(shape(Some(n))), id) <==> holds(in_order(shape(n.left_child)), id) || n.id
            == id || holds(in_order(shape(n.right_child)), id),
{
    let a = in_order(shape(n.left_child));
    let b = in_order(shape(n.right_child));
    let all = in_order(shape(Some(n)));
    let k = a.len() as int;
    assert(all == a + seq![(n.id, n.data@)] + b);
    assert(all[k].0 == n.id);
    if holds(all, id) {
        let i = choose|i: int| 0 <= i < all.len() && (#[trigger] all[i]).0 == id;
        if i < k {
            assert(a[i].0 == id);
        } else if i > k {
            assert(b[i - k - 1].0 == id);
        }
    }
    if holds(a, id) {
        let i = choose|i: int| 0 <= i < a.len() && (#[trigger] a[i]).0 == id;
        assert(all[i].0 == id);
    }
    if holds(b, id) {
        let i = choose|i: int| 0 <= i < b.len() && (#[trigger] b[i]).0 == id;
        assert(all[k + 1 + i].0 == id);
    }
}

/// Bring the node `id` up by pairs of rotations, until it is the root or a child of it.
fn lift(t: &mut Tree, id: u64) -> (r: Lifted)
    ensures
        in_order(shape(*final(t))) == in_order(shape(*old(t))),
        stands(*final(t), id, r),
    decreases *old(t),
{
    match t.take() {
        None => {
            assert(in_order(shape(*t)) =~= Seq::empty());
            Lifted::Absent
        },
        Some(mut n) => {
            let ghost whole = n;
            proof {
                lemma_holds_parts(whole, id);
            }
            if n.id == id {
                *t = Some(n);
                return Lifted::Root;
            }
            match lift(&mut n.left_child, id) {
                Lifted::Root => {
                    *t = Some(n);
                    Lifted::Left
                },
                Lifted::Left => {
                    let middle = rotate_right(n);
                    *t = Some(rotate_right(middle));
                    Lifted::Root
                },
                Lifted::Right => {
                    let child = n.left_child.take().unwrap();
                    n.left_child = Some(rotate_left(child));
                    *t = Some(rotate_right(n));
                    Lifted::Root
                },
                Lifted::Absent => match lift(&mut n.right_child, id) {
                    Lifted::Root => {
                        *t = Some(n);
                        Lifted::Right
                    },
                    Lifted::Right => {
                        let middle = rotate_left(n);
                        *t = Some(rotate_left(middle));
                        Lifted::Root
                    },
                    Lifted::Left => {
                        let child = n.right_child.take().unwrap();
                        n.right_child = Some(rotate_right(child));
                        *t = Some(rotate_left(n));
                        Lifted::Root
                    },
                    Lifted::Absent => {
                        proof {
                            lemma_holds_parts(n, id);
                        }
                        *t = Some(n);
                        Lifted::Absent
                    },
                },
            }
        },
    }
}

/// Make the node `id` the root. The order of the nodes stays.
pub fn splay(t: &mut Tree, id: u64)
    requires
        holds(in_order(shape(*old(t))), id),
    ensures
        in_order(shape(*final(t))) == in_order(shape(*old(t))),
        root_of(*final(t)) == Some(id),
{
    match lift(t, id) {
        Lifted::Left => {
            let n = t.take().unwrap();
            *t = Some(rotate_right(n));
        },
        Lifted::Right => {
            let n = t.take().unwrap();
            *t = Some(rotate_left(n));
        },
        _ => {},
    }
}

/// Take the last node out of a tree: the node, and the one that it hung below.
fn take_last(t: &mut Tree) -> (r: (Box<BalancedLinks>, Option<u64>))
    requires
        *old(t) is Some,
    ensures
        in_order(shape(*old(t))).len() > 0,
        in_order(shape(*final(t))) == in_order(shape(*old(t))).drop_last(),
        (r.0.id, r.0.data@) == in_order(shape(*old(t))).last(),
        r.1 matches Some(parent) ==> holds(in_order(shape(*final(t))), parent),
    decreases *old(t),
{
    let ghost all = in_order(shape(*t));
    let mut n = t.take().unwrap();
    let ghost whole = n;
    let ghost a = in_order(shape(n.left_child));
    let ghost b = in_order(shape(n.right_child));
    assert(all == a + seq![(n.id, n.data@)] + b);
    if n.right_child.is_none() {
        assert(b =~= Seq::empty());
        let left = n.left_child.take();
        *t = left;
        assert(all.drop_last() =~= a);
        (n, None)
    } else {
        let (last, parent) = take_last(&mut n.right_child);
        proof {
            assert(in_order(shape(Some(n))) =~= all.drop_last());
            assert(all.last() == b.last());
            lemma_holds_parts(n, n.id);
            if let Some(p) = parent {
                lemma_holds_parts(n, p);
            }
        }
        let below: u64 = match parent {
            Some(parent) => parent,
            None => n.id,
        };
        *t = Some(n);
        (last, Some(below))
    }
}

/// What became of a node that was to be taken out.
enum Taken {
    /// It is not in the tree.
    Absent,
    /// It was the root, and a child took its place.
    Root,
    /// The tree changed below a node.
    Below(u64),
}

/// Take the node `id` out of a tree. Where it has two children the node in front of it takes its
/// place.
fn take_out(t: &mut Tree, id: u64) -> (r: Taken)
    requires
        distinct(in_order(shape(*old(t)))),
    ensures
        match r {
            Taken::Absent => *final(t) == *old(t) && !holds(in_order(shape(*old(t))), id),
            _ => place_of(in_order(shape(*old(t))), id) matches Some(p) && 0 <= p < in_order(
                shape(*old(t)),
            ).len() && in_order(shape(*final(t))) == in_order(shape(*old(t))).remove(p),
        },
        r matches Taken::Below(parent) ==> holds(in_order(shape(*final(t))), parent),
    decreases *old(t),
{
    let ghost all = in_order(shape(*t));
    match t.take() {
        None => {
            assert(all =~= Seq::empty());
            Taken::Absent
        },
        Some(mut n) => {
            let ghost whole = n;
            let ghost a = in_order(shape(n.left_child));
            let ghost b = in_order(shape(n.right_child));
            let ghost e = (n.id, n.data@);
            let ghost k = a.len() as int;
            proof {
                assert(all == a + seq![e] + b);
                lemma_distinct_parts(a, e, b);
                assert(all[k] == e);
                lemma_holds_parts(whole, id);
            }
            if n.id == id {
                proof {
                    lemma_place(all, k);
                }
                if n.left_child.is_none() {
                    *t = n.right_child.take();
                    assert(a =~= Seq::empty());
                    assert(b =~= all.remove(k));
                    return Taken::Root;
                }
                if n.right_child.is_none() {
                    *t = n.left_child.take();
                    assert(b =~= Seq::empty());
                    assert(a =~= all.remove(k));
                    return Taken::Root;
                }
                let (mut heir, parent) = take_last(&mut n.left_child);
                heir.left_child = n.left_child.take();
                heir.right_child = n.right_child.take();
                proof {
                    assert(in_order(shape(heir.left_child)) == a.drop_last());
                    assert(in_order(shape(heir.right_child)) == b);
                    assert(in_order(shape(Some(heir))) =~= all.remove(k));
                    lemma_holds_parts(heir, heir.id);
                    if let Some(p) = parent {
                        lemma_holds_parts(heir, p);
                    }
                }
                let below: u64 = match parent {
                    Some(parent) => parent,
                    None => heir.id,
                };
                *t = Some(heir);
                return Taken::Below(below);
            }
            match take_out(&mut n.left_child, id) {
                Taken::Absent => {},
                taken => {
                    proof {
                        let p = place_of(a, id)->Some_0;
                        lemma_place_none(a, id);
                        assert(all[p] == a[p]);
                        lemma_place(all, p);
                        assert(in_order(shape(Some(n))) =~= all.remove(p));
                        lemma_holds_parts(n, n.id);
                        if let Taken::Below(q) = taken {
                            lemma_holds_parts(n, q);
                        }
                    }
                    let below: u64 = match taken {
                        Taken::Below(parent) => parent,
                        _ => n.id,
                    };
                    *t = Some(n);
                    return Taken::Below(below);
                },
            }
            match take_out(&mut n.right_child, id) {
                Taken::Absent => {
                    *t = Some(n);
                    Taken::Absent
                },
                taken => {
                    proof {
                        let p = place_of(b, id)->Some_0;
                        lemma_place_none(b, id);
                        assert(all[k + 1 + p] == b[p]);
                        lemma_place(all, k + 1 + p);
                        assert(in_order(shape(Some(n))) =~= all.remove(k + 1 + p));
                        lemma_holds_parts(n, n.id);
                        if let Taken::Below(q) = taken {
                            lemma_holds_parts(n, q);
                        }
                    }
                    let below: u64 = match taken {
                        Taken::Below(parent) => parent,
                        _ => n.id,
                    };
                    *t = Some(n);
                    Taken::Below(below)
                },
            }
        },
    }
}

/// Delete the node `id`; all others keep their order. Where the tree changed below a node, that node
/// becomes the root. Which node is the root afterwards is left open.
pub fn delete(t: &mut Tree, id: u64)
    requires
        distinct(in_order(shape(*old(t)))),
        holds(in_order(shape(*old(t))), id),
    ensures
        place_of(in_order(shape(*old(t))), id) matches Some(p) && 0 <= p < in_order(
            shape(*old(t)),
        ).len() && in_order(shape(*final(t))) == in_order(shape(*old(t))).remove(p),
{
    match take_out(t, id) {
        Taken::Below(parent) => {
            splay(t, parent);
        },
        _ => {},
    }
}

} // verus!
