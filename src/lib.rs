//! Unbalanced binary search trees in two strategies, a loop-based one and a
//! recursive one, sharing a verified node algebra.
//!
//! Both strategies meet the same contracts, stated over the shape of the tree
//! (`model`), so that a sequence of operations gives the same results on either.
use std::vec::IntoIter;
use vstd::prelude::*;
use vstd::std_specs::iter::IteratorSpec;

pub mod iterative;
pub mod laws;
pub mod model;
pub mod node;
pub mod order;
pub mod recursive;

pub use iterative::IterativeBST;
pub use recursive::RecursiveBST;


use crate::model::{
    contents, height, in_order, is_bst, level_order, post_order, pre_order, size, tree_insert,
    tree_max, tree_min, tree_remove, tree_remove_max, tree_remove_min, tree_replace,
};
use crate::node::Link;
use crate::order::total_order;

verus! {

/// An ordered container of distinct values kept in an unbalanced binary search tree.
///
/// Each operation is stated over `tree()`, the shape of the tree. Where `T`'s
/// `Ord` is not a lawful total order, the structure stays sound but what the
/// operations that compare values do is not stated.
pub trait BinarySearchTree<T: Ord>: Sized {
    /// The nodes of the tree.
    spec fn tree(&self) -> Link<T>;

    /// The kept count matches the nodes, and, for a lawful order, the nodes are ordered.
    spec fn wf(&self) -> bool;

    /// What well-formedness gives.
    proof fn lemma_wf(&self)
        requires
            self.wf(),
        ensures
            total_order::<T>() ==> is_bst(self.tree()),
    ;

    /// The number of values.
    fn size(&self) -> (r: usize)
        requires
            self.wf(),
        ensures
            r == size(self.tree()),
    ;

    /// Whether the tree holds no value.
    fn is_empty(&self) -> (r: bool)
        requires
            self.wf(),
        ensures
            r == (self.tree() is None),
            r == (size(self.tree()) == 0),
    ;

    /// Whether the tree holds a value.
    fn is_not_empty(&self) -> (r: bool)
        requires
            self.wf(),
        ensures
            r == (self.tree() is Some),
            r == (size(self.tree()) != 0),
    ;

    /// Adds `value` unless it is already present.
    fn insert(&mut self, value: T)
        requires
            old(self).wf(),
            size(old(self).tree()) < usize::MAX,
        ensures
            final(self).wf(),
            size(final(self).tree()) <= size(old(self).tree()) + 1,
            total_order::<T>() ==> final(self).tree() == tree_insert(old(self).tree(), value),
    ;

    /// Whether `value` is present.
    fn contains(&self, value: &T) -> (r: bool)
        requires
            self.wf(),
            total_order::<T>(),
        ensures
            r == contents(self.tree()).contains(*value),
    ;

    /// Removes `value` where it is present.
    fn remove(&mut self, value: &T)
        requires
            old(self).wf(),
            total_order::<T>(),
        ensures
            final(self).wf(),
            final(self).tree() == tree_remove(old(self).tree(), *value),
    ;

    /// The stored value equal to `value`, if any.
    fn retrieve(&self, value: &T) -> (r: Option<&T>)
        requires
            self.wf(),
            total_order::<T>(),
        ensures
            r is Some <==> contents(self.tree()).contains(*value),
            r matches Some(x) ==> *x == *value,
    ;

    /// The stored value equal to `value`, for change in place. A change must keep
    /// the value between its neighbours for the tree to stay ordered.
    fn retrieve_as_mut(&mut self, value: &T) -> (r: Option<&mut T>)
        requires
            old(self).wf(),
            total_order::<T>(),
        ensures
            r is Some <==> contents(old(self).tree()).contains(*value),
            r matches Some(m) ==> *m == *value && final(self).tree() == tree_replace(
                old(self).tree(),
                *value,
                *final(m),
            ),
            r is None ==> final(self).tree() == old(self).tree(),
            final(self).wf() <==> (total_order::<T>() ==> is_bst(final(self).tree())),
    ;

    /// Edges on the longest path from the root to a leaf; `None` for an empty tree.
    fn height(&self) -> (r: Option<isize>)
        requires
            self.wf(),
            size(self.tree()) <= isize::MAX,
        ensures
            r == (if self.tree() is None {
                None
            } else {
                Some(height(self.tree()) as isize)
            }),
    ;

    /// The leftmost value, which is the least one.
    fn min(&self) -> (r: Option<&T>)
        ensures
            r is Some <==> self.tree() is Some,
            r matches Some(x) ==> *x == tree_min(self.tree()),
    ;

    /// The rightmost value, which is the greatest one.
    fn max(&self) -> (r: Option<&T>)
        ensures
            r is Some <==> self.tree() is Some,
            r matches Some(x) ==> *x == tree_max(self.tree()),
    ;

    /// Takes out the least value.
    fn remove_min(&mut self) -> (r: Option<T>)
        requires
            old(self).wf(),
        ensures
            final(self).wf(),
            final(self).tree() == tree_remove_min(old(self).tree()),
            r == (if old(self).tree() is Some {
                Some(tree_min(old(self).tree()))
            } else {
                None
            }),
    ;

    /// Takes out the greatest value.
    fn remove_max(&mut self) -> (r: Option<T>)
        requires
            old(self).wf(),
        ensures
            final(self).wf(),
            final(self).tree() == tree_remove_max(old(self).tree()),
            r == (if old(self).tree() is Some {
                Some(tree_max(old(self).tree()))
            } else {
                None
            }),
    ;

    /// The values in ascending order.
    fn asc_order_vec(&self) -> (r: Vec<&T>)
        ensures
            r@ == in_order(self.tree()).as_ref(),
    ;

    /// The values in pre-order.
    fn pre_order_vec(&self) -> (r: Vec<&T>)
        ensures
            r@ == pre_order(self.tree()).as_ref(),
    ;

    /// The values in in-order.
    fn in_order_vec(&self) -> (r: Vec<&T>)
        ensures
            r@ == in_order(self.tree()).as_ref(),
    ;

    /// The values in post-order.
    fn post_order_vec(&self) -> (r: Vec<&T>)
        ensures
            r@ == post_order(self.tree()).as_ref(),
    ;

    /// The values in level order.
    fn level_order_vec(&self) -> (r: Vec<&T>)
        requires
            size(self.tree()) <= isize::MAX,
        ensures
            r@ == level_order(self.tree()).as_ref(),
    ;

    /// A cursor over the values in ascending order.
    fn asc_order_iter(&self) -> (r: IntoIter<&T>)
        ensures
            r.remaining() == in_order(self.tree()).as_ref(),
    ;

    /// A cursor over the values in pre-order.
    fn pre_order_iter(&self) -> (r: IntoIter<&T>)
        ensures
            r.remaining() == pre_order(self.tree()).as_ref(),
    ;

    /// A cursor over the values in in-order.
    fn in_order_iter(&self) -> (r: IntoIter<&T>)
        ensures
            r.remaining() == in_order(self.tree()).as_ref(),
    ;

    /// A cursor over the values in post-order.
    fn post_order_iter(&self) -> (r: IntoIter<&T>)
        ensures
            r.remaining() == post_order(self.tree()).as_ref(),
    ;

    /// A cursor over the values in level order.
    fn level_order_iter(&self) -> (r: IntoIter<&T>)
        requires
            size(self.tree()) <= isize::MAX,
        ensures
            r.remaining() == level_order(self.tree()).as_ref(),
    ;

    /// Consumes the tree into a cursor over its values in ascending order.
    fn into_asc_order_iter(self) -> (r: IntoIter<T>)
        ensures
            r.remaining() == in_order(self.tree()),
    ;

    /// Consumes the tree into a cursor over its values in pre-order.
    fn into_pre_order_iter(self) -> (r: IntoIter<T>)
        ensures
            r.remaining() == pre_order(self.tree()),
    ;

    /// Consumes the tree into a cursor over its values in in-order.
    fn into_in_order_iter(self) -> (r: IntoIter<T>)
        ensures
            r.remaining() == in_order(self.tree()),
    ;

    /// Consumes the tree into a cursor over its values in post-order.
    fn into_post_order_iter(self) -> (r: IntoIter<T>)
        ensures
            r.remaining() == post_order(self.tree()),
    ;

    /// Consumes the tree into a cursor over its values in level order.
    fn into_level_order_iter(self) -> (r: IntoIter<T>)
        requires
            size(self.tree()) <= isize::MAX,
        ensures
            r.remaining() == level_order(self.tree()),
    ;
}

} // verus!
