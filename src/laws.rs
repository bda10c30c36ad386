//! Laws that hold of every tree that the operations build.
use vstd::prelude::*;

use crate::model::{
    contents, in_order, is_bst, lemma_bst_sub, lemma_contents_in_order, lemma_in_order_ascending,
    lemma_insert, lemma_remove, lemma_remove_contents, lemma_remove_max, lemma_remove_min,
    level_order, post_order, pre_order, size, strictly_ascending, tree_from_seq, tree_insert,
    tree_max, tree_min, tree_remove, tree_remove_max, tree_remove_min, tree_remove_root,
};
use crate::node::Link;
use crate::order::{lemma_total_order, lt, total_order};
use crate::{BinarySearchTree, IterativeBST, RecursiveBST};

verus! {

/// A change that a tree's operations make.
pub enum Op<T> {
    Insert(T),
    Remove(T),
    RemoveMin,
    RemoveMax,
}

/// The tree after one change.
pub open spec fn apply_op<T: Ord>(t: Link<T>, op: Op<T>) -> Link<T> {
    match op {
        Op::Insert(v) => tree_insert(t, v),
        Op::Remove(v) => tree_remove(t, v),
        Op::RemoveMin => tree_remove_min(t),
        Op::RemoveMax => tree_remove_max(t),
    }
}

/// The tree after the changes of `ops`, in order.
pub open spec fn replay<T: Ord>(t: Link<T>, ops: Seq<Op<T>>) -> Link<T>
    decreases ops.len(),
{
    if ops.len() == 0 {
        t
    } else {
        apply_op(replay(t, ops.drop_last()), ops.last())
    }
}

/// Any sequence of changes, made to an empty tree, leaves a search tree whose
/// in-order walk is strictly ascending.
pub proof fn lemma_replay_ordered<T: Ord>(ops: Seq<Op<T>>)
    requires
        total_order::<T>(),
    ensures
        is_bst(replay(None, ops)),
        strictly_ascending(in_order(replay(None, ops))),
    decreases ops.len(),
{
    if ops.len() > 0 {
        lemma_replay_ordered(ops.drop_last());
        let t = replay(None, ops.drop_last());
        match ops.last() {
            Op::Insert(v) => lemma_insert(t, v),
            Op::Remove(v) => lemma_remove(t, v),
            Op::RemoveMin => if t is Some {
                lemma_bst_sub(t);
            },
            Op::RemoveMax => if t is Some {
                lemma_bst_sub(t);
            },
        }
    }
    lemma_in_order_ascending(replay(None, ops));
}

/// A well-formed tree of either strategy walks in strictly ascending order.
pub proof fn lemma_ordered<T: Ord, B: BinarySearchTree<T>>(b: &B)
    requires
        total_order::<T>(),
        b.wf(),
    ensures
        strictly_ascending(in_order(b.tree())),
{
    b.lemma_wf();
    lemma_in_order_ascending(b.tree());
}

/// In a search tree the leftmost value is the least and the rightmost the greatest.
pub proof fn lemma_min_max<T: Ord>(t: Link<T>)
    requires
        total_order::<T>(),
        is_bst(t),
        t is Some,
    ensures
        contents(t).contains(tree_min(t)),
        contents(t).contains(tree_max(t)),
        forall|x: T| #[trigger] contents(t).contains(x) ==> x == tree_min(t) || lt(tree_min(t), x),
        forall|x: T| #[trigger] contents(t).contains(x) ==> x == tree_max(t) || lt(x, tree_max(t)),
{
    lemma_remove_min(t);
    lemma_remove_max(t);
    lemma_in_order_ascending(t);
    lemma_contents_in_order(t);
    let s = in_order(t);
    assert(s[0] == tree_min(t));
    assert(s[s.len() - 1] == tree_max(t));
    assert forall|x: T| #[trigger] contents(t).contains(x) implies x == tree_min(t) || lt(
        tree_min(t),
        x,
    ) by {
        let i = choose|i: int| 0 <= i < s.len() && s[i] == x;
        if i > 0 {
            assert(lt(s[0], s[i]));
        }
    }
    assert forall|x: T| #[trigger] contents(t).contains(x) implies x == tree_max(t) || lt(
        x,
        tree_max(t),
    ) by {
        let i = choose|i: int| 0 <= i < s.len() && s[i] == x;
        if i < s.len() - 1 {
            assert(lt(s[i], s[s.len() - 1]));
        }
    }
}

/// Inserting a value a second time changes nothing: the tree, so its size and
/// what it holds, stay as the first insertion left them.
pub proof fn lemma_insert_twice<T: Ord>(t: Link<T>, v: T)
    requires
        total_order::<T>(),
        is_bst(t),
    ensures
        tree_insert(tree_insert(t, v), v) == tree_insert(t, v),
        contents(tree_insert(t, v)).contains(v),
{
    lemma_insert(t, v);
    lemma_insert(tree_insert(t, v), v);
}

/// Removing a value from a search tree keeps it ordered, takes the value out of
/// what it holds, shrinks it by one where the value was there, and leaves its
/// in-order walk with just that value dropped.
pub proof fn lemma_remove_law<T: Ord>(t: Link<T>, v: T)
    requires
        total_order::<T>(),
        is_bst(t),
    ensures
        is_bst(tree_remove(t, v)),
        !contents(tree_remove(t, v)).contains(v),
        contents(tree_remove(t, v)) == contents(t).remove(v),
        contents(t).contains(v) ==> size(tree_remove(t, v)) + 1 == size(t),
        !contents(t).contains(v) ==> tree_remove(t, v) == t,
        in_order(tree_remove(t, v)) == in_order(t).filter(|x: T| x != v),
{
    lemma_remove(t, v);
    lemma_remove_contents(t, v);
}

/// The three shapes of removal at the node that holds the value: a leaf leaves
/// an empty slot, a node with one child is replaced by that child, and a node
/// with two children takes the least value greater than the removed one, with
/// its children's values otherwise kept.
pub proof fn lemma_remove_shapes<T: Ord>(t: Link<T>)
    requires
        total_order::<T>(),
        is_bst(t),
        t is Some,
    ensures
        ({
            let n = t->0;
            let r = tree_remove(t, n.value);
            &&& (n.left is None && n.right is None ==> r is None)
            &&& (n.left is Some && n.right is None ==> r == n.left)
            &&& (n.left is None && n.right is Some ==> r == n.right)
            &&& (n.left is Some && n.right is Some ==> {
                let m = r->0.value;
                &&& r is Some
                &&& r->0.left == n.left
                &&& contents(t).contains(m)
                &&& lt(n.value, m)
                &&& forall|x: T| #[trigger] contents(t).contains(x) && lt(n.value, x) ==> x == m
                    || lt(m, x)
            })
        }),
{
    lemma_total_order::<T>();
    let n = t->0;
    assert(tree_remove(t, n.value) == tree_remove_root(t));
    if n.left is Some && n.right is Some {
        let right = n.right;
        lemma_remove_min(right);
        lemma_in_order_ascending(right);
        lemma_contents_in_order(right);
        lemma_contents_in_order(n.left);
        let m = tree_min(right);
        assert(tree_remove(t, n.value) == tree_remove_root(t));
        assert(in_order(right)[0] == m);
        assert(in_order(right).contains(m));
        assert(contents(right).contains(m));
        assert(contents(t) == contents(n.left).union(contents(right)).insert(n.value));
        assert forall|x: T| #[trigger] contents(t).contains(x) && lt(n.value, x) implies x == m
            || lt(m, x) by {
            if contents(n.left).contains(x) {
                assert(lt(x, n.value));
            } else if x != n.value {
                assert(contents(right).contains(x));
                let s = in_order(right);
                let i = choose|i: int| 0 <= i < s.len() && s[i] == x;
                if i > 0 {
                    assert(lt(s[0], s[i]));
                }
            }
        }
    }
}

/// Building a tree from a sequence and reading it in ascending order sorts the
/// sequence with repeated values dropped: the walk is strictly ascending, holds
/// just the sequence's values, and is the only sequence that does both.
pub proof fn lemma_round_trip<T: Ord>(s: Seq<T>)
    requires
        total_order::<T>(),
    ensures
        strictly_ascending(in_order(tree_from_seq(s))),
        in_order(tree_from_seq(s)).to_set() == s.to_set(),
        forall|u: Seq<T>|
            strictly_ascending(u) && #[trigger] u.to_set() == s.to_set() ==> u == in_order(
                tree_from_seq(s),
            ),
{
    lemma_from_seq(s);
    let w = in_order(tree_from_seq(s));
    lemma_contents_in_order(tree_from_seq(s));
    assert(w.to_set() =~= s.to_set());
    assert forall|u: Seq<T>| strictly_ascending(u) && #[trigger] u.to_set() == s.to_set() implies u
        == w by {
        lemma_ascending_unique(u, w);
    }
}

/// What a tree built from a sequence holds, and that it is a search tree.
proof fn lemma_from_seq<T: Ord>(s: Seq<T>)
    requires
        total_order::<T>(),
    ensures
        is_bst(tree_from_seq(s)),
        strictly_ascending(in_order(tree_from_seq(s))),
        contents(tree_from_seq(s)) == s.to_set(),
    decreases s.len(),
{
    if s.len() == 0 {
        assert(contents::<T>(None) =~= s.to_set());
    } else {
        lemma_from_seq(s.drop_last());
        lemma_insert(tree_from_seq(s.drop_last()), s.last());
        assert(s.drop_last().push(s.last()) =~= s);
        Seq::lemma_to_set_insert_commutes(s.drop_last(), s.last());
        lemma_in_order_ascending(tree_from_seq(s));
    }
}

/// Two strictly ascending sequences with the same values are the same sequence.
proof fn lemma_ascending_unique<T: Ord>(a: Seq<T>, b: Seq<T>)
    requires
        total_order::<T>(),
        strictly_ascending(a),
        strictly_ascending(b),
        a.to_set() == b.to_set(),
    ensures
        a == b,
    decreases a.len(),
{
    lemma_total_order::<T>();
    if a.len() == 0 {
        if b.len() > 0 {
            assert(b.to_set().contains(b[0]));
        }
        assert(a =~= b);
    } else {
        assert(a.to_set().contains(a[0]));
        assert(b.len() > 0);
        assert(b.to_set().contains(b[0]));
        let i = choose|i: int| 0 <= i < a.len() && a[i] == b[0];
        let j = choose|j: int| 0 <= j < b.len() && b[j] == a[0];
        if j > 0 {
            assert(lt(b[0], b[j]));
            if i > 0 {
                assert(lt(a[0], a[i]));
            }
        }
        assert(a[0] == b[0]);
        let a1 = a.drop_first();
        let b1 = b.drop_first();
        assert forall|x: T| a1.to_set().contains(x) <==> b1.to_set().contains(x) by {
            if a1.to_set().contains(x) {
                let k = choose|k: int| 0 <= k < a1.len() && a1[k] == x;
                assert(a[k + 1] == x);
                assert(lt(a[0], a[k + 1]));
                assert(a.to_set().contains(x));
                let l = choose|l: int| 0 <= l < b.len() && b[l] == x;
                assert(l != 0);
                assert(b1[l - 1] == x);
            }
            if b1.to_set().contains(x) {
                let k = choose|k: int| 0 <= k < b1.len() && b1[k] == x;
                assert(b[k + 1] == x);
                assert(lt(b[0], b[k + 1]));
                assert(b.to_set().contains(x));
                let l = choose|l: int| 0 <= l < a.len() && a[l] == x;
                assert(l != 0);
                assert(a1[l - 1] == x);
            }
        }
        assert(a1.to_set() =~= b1.to_set());
        lemma_ascending_unique(a1, b1);
        assert(a.len() == b.len());
        assert forall|k: int| 0 <= k < a.len() implies a[k] == b[k] by {
            if k > 0 {
                assert(a[k] == a1[k - 1]);
                assert(b[k] == b1[k - 1]);
            }
        }
        assert(a =~= b);
    }
}

/// Trees of the two strategies whose shapes agree walk alike in all four
/// orders, and they still agree after the same changes: the operations of both
/// are stated by the same functions of the shape.
pub proof fn lemma_strategies_agree<T: Ord>(
    a: &IterativeBST<T>,
    b: &RecursiveBST<T>,
    ops: Seq<Op<T>>,
)
    requires
        a.tree() == b.tree(),
    ensures
        pre_order(a.tree()) == pre_order(b.tree()),
        in_order(a.tree()) == in_order(b.tree()),
        post_order(a.tree()) == post_order(b.tree()),
        level_order(a.tree()) == level_order(b.tree()),
        replay(a.tree(), ops) == replay(b.tree(), ops),
{
}

} // verus!
