//! The tree whose node algorithms call themselves on subtrees.
use std::vec::IntoIter;
use vstd::prelude::*;
use vstd::std_specs::cmp::PartialEqSpecImpl;
use vstd::std_specs::convert::FromSpecImpl;

use crate::model::{
    height, in_order, is_bst, lemma_bst_sub, lemma_empty, lemma_height_size, lemma_insert,
    lemma_leaf, lemma_remove, lemma_remove_max, lemma_remove_min, lemma_replace_size, level_order,
    post_order, pre_order, size, tree_from_seq, tree_replace,
};
use crate::node::{clone_of, Link, Node};
use crate::order::{exact_clone, lemma_total_order, total_order};
use crate::BinarySearchTree;

verus! {

/// A binary search tree whose operations recurse down the links, as deep as the tree is high.
#[derive(Debug)]
pub struct RecursiveBST<T> {
    root: Link<T>,
    size: usize,
}

impl<T: Ord> RecursiveBST<T> {
    /// An empty tree.
    pub fn new() -> (r: RecursiveBST<T>)
        ensures
            r.wf(),
            r.tree() is None,
    {
        RecursiveBST { root: None, size: 0 }
    }
}

impl<T: Ord + Clone> Clone for RecursiveBST<T> {
    /// A copy with the same shape, each value cloned.
    fn clone(&self) -> (r: Self)
        ensures
            clone_of(self.tree(), r.tree()),
            self.wf() ==> size(r.tree()) == size(self.tree()),
    {
        RecursiveBST { root: Node::clone_link(&self.root), size: self.size }
    }
}

impl<T: Ord> Default for RecursiveBST<T> {
    fn default() -> (r: RecursiveBST<T>)
        ensures
            r.wf(),
            r.tree() is None,
    {
        RecursiveBST::new()
    }
}

impl<T: Ord> PartialEq for RecursiveBST<T> {
    /// Two trees are equal when they hold the same values, whatever their shapes.
    fn eq(&self, other: &Self) -> (r: bool) {
        let a = self.asc_order_vec();
        let b = other.asc_order_vec();
        if a.len() != b.len() {
            return false;
        }
        let mut i: usize = 0;
        while i < a.len()
            invariant
                a@ == in_order(self.tree()).as_ref(),
                b@ == in_order(other.tree()).as_ref(),
                a.len() == b.len(),
                0 <= i <= a.len(),
                total_order::<T>() ==> forall|j: int| 0 <= j < i ==> a@[j] == b@[j],
            decreases a.len() - i,
        {
            proof {
                if total_order::<T>() {
                    lemma_total_order::<T>();
                }
            }
            if a[i] != b[i] {
                return false;
            }
            i = i + 1;
        }
        proof {
            if total_order::<T>() {
                assert(in_order(self.tree()) =~= in_order(other.tree())) by {
                    assert forall|j: int| 0 <= j < a.len() implies in_order(self.tree())[j]
                        == in_order(other.tree())[j] by {
                        assert(a@[j] == b@[j]);
                    }
                }
            }
        }
        true
    }
}

impl<T: Ord> PartialEqSpecImpl for RecursiveBST<T> {
    open spec fn obeys_eq_spec() -> bool {
        total_order::<T>()
    }

    open spec fn eq_spec(&self, other: &Self) -> bool {
        in_order(self.tree()) == in_order(other.tree())
    }
}

impl<T: Ord> From<Vec<T>> for RecursiveBST<T> {
    /// Inserts the values in their order; repeated values are dropped.
    fn from(vec: Vec<T>) -> (r: Self) {
        let mut bst = RecursiveBST::new();
        let ghost values = vec@;
        proof {
            assert(values.len() == vec.len());
        }
        for value in it: vec
            invariant
                it.seq() == values,
                bst.wf(),
                size(bst.tree()) <= it.index(),
                values.len() <= usize::MAX,
                total_order::<T>() ==> bst.tree() == tree_from_seq(values.take(it.index() as int)),
        {
            proof {
                assert(values.take(it.index() + 1).drop_last() =~= values.take(it.index() as int));
            }
            bst.insert(value);
        }
        proof {
            assert(values.take(values.len() as int) =~= values);
        }
        bst
    }
}

impl<T: Ord> FromSpecImpl<Vec<T>> for RecursiveBST<T> {
    open spec fn obeys_from_spec() -> bool {
        total_order::<T>()
    }

    closed spec fn from_spec(v: Vec<T>) -> Self {
        RecursiveBST { root: tree_from_seq(v@), size: size(tree_from_seq(v@)) as usize }
    }
}

impl<'a, T: Ord + Clone> From<&'a [T]> for RecursiveBST<T> {
    /// Inserts clones of the values in their order; repeated values are dropped.
    fn from(slice: &'a [T]) -> (r: Self) {
        let mut bst = RecursiveBST::new();
        let mut i: usize = 0;
        while i < slice.len()
            invariant
                bst.wf(),
                i <= slice@.len(),
                size(bst.tree()) <= i,
                total_order::<T>() && exact_clone::<T>() ==> bst.tree() == tree_from_seq(
                    slice@.take(i as int),
                ),
            decreases slice.len() - i,
        {
            let value = slice[i].clone();
            proof {
                assert(slice@.take(i + 1).drop_last() =~= slice@.take(i as int));
                assert(cloned(slice@[i as int], value));
            }
            bst.insert(value);
            i = i + 1;
        }
        proof {
            assert(slice@.take(slice@.len() as int) =~= slice@);
        }
        bst
    }
}

impl<'a, T: Ord + Clone> FromSpecImpl<&'a [T]> for RecursiveBST<T> {
    open spec fn obeys_from_spec() -> bool {
        total_order::<T>() && exact_clone::<T>()
    }

    closed spec fn from_spec(v: &'a [T]) -> Self {
        RecursiveBST { root: tree_from_seq(v@), size: size(tree_from_seq(v@)) as usize }
    }
}

impl<T: Ord> BinarySearchTree<T> for RecursiveBST<T> {
    closed spec fn tree(&self) -> Link<T> {
        self.root
    }

    closed spec fn wf(&self) -> bool {
        &&& self.size == size(self.root)
        &&& total_order::<T>() ==> is_bst(self.root)
    }

    proof fn lemma_wf(&self) {
    }

    fn size(&self) -> (r: usize) {
        self.size
    }

    fn is_empty(&self) -> (r: bool) {
        proof {
            lemma_empty::<T>();
            lemma_height_size(self.root);
        }
        self.size == 0
    }

    fn is_not_empty(&self) -> (r: bool) {
        proof {
            lemma_empty::<T>();
            lemma_height_size(self.root);
        }
        self.size != 0
    }

    fn insert(&mut self, value: T) {
        proof {
            if total_order::<T>() {
                lemma_insert(self.root, value);
            }
        }
        match self.root {
            None => {
                self.root = Some(Box::new(Node::new(value)));
                self.size = self.size + 1;
                proof {
                    lemma_leaf(value);
                }
            },
            Some(ref mut node) => {
                if node.recursive_insert(value).is_ok() {
                    self.size = self.size + 1;
                }
            },
        }
    }

    fn contains(&self, value: &T) -> (r: bool) {
        proof {
            lemma_empty::<T>();
        }
        match self.root {
            None => false,
            Some(ref node) => node.recursive_contains(value),
        }
    }

    fn remove(&mut self, value: &T) {
        proof {
            lemma_remove(self.root, *value);
        }
        if Node::recursive_remove(&mut self.root, value).is_ok() {
            self.size = self.size - 1;
        }
    }

    fn retrieve(&self, value: &T) -> (r: Option<&T>) {
        proof {
            lemma_empty::<T>();
        }
        match self.root {
            None => None,
            Some(ref node) => node.recursive_retrieve(value),
        }
    }

    fn retrieve_as_mut(&mut self, value: &T) -> (r: Option<&mut T>) {
        proof {
            assert forall|w: T| #[trigger] size(tree_replace(self.root, *value, w)) == size(self.root) by {
                lemma_replace_size(self.root, *value, w);
            }
        }
        proof {
            lemma_empty::<T>();
        }
        match self.root {
            None => None,
            Some(ref mut node) => node.recursive_retrieve_as_mut(value),
        }
    }

    fn height(&self) -> (r: Option<isize>) {
        proof {
            lemma_height_size(self.root);
        }
        match self.root {
            None => None,
            Some(_) => Some(Node::recursive_height(&self.root)),
        }
    }

    fn min(&self) -> (r: Option<&T>) {
        match self.root {
            None => None,
            Some(ref node) => node.recursive_min(),
        }
    }

    fn max(&self) -> (r: Option<&T>) {
        match self.root {
            None => None,
            Some(ref node) => node.recursive_max(),
        }
    }

    fn remove_min(&mut self) -> (r: Option<T>) {
        proof {
            if self.root is Some {
                lemma_remove_min(self.root);
                if total_order::<T>() {
                    lemma_bst_sub(self.root);
                }
            }
        }
        let removed_min = match self.root {
            None => None,
            Some(_) => Node::recursive_remove_min(&mut self.root),
        };
        if removed_min.is_some() {
            self.size = self.size - 1;
        }
        removed_min
    }

    fn remove_max(&mut self) -> (r: Option<T>) {
        proof {
            if self.root is Some {
                lemma_remove_max(self.root);
                if total_order::<T>() {
                    lemma_bst_sub(self.root);
                }
            }
        }
        let removed_max = match self.root {
            None => None,
            Some(_) => Node::recursive_remove_max(&mut self.root),
        };
        if removed_max.is_some() {
            self.size = self.size - 1;
        }
        removed_max
    }

    fn asc_order_vec(&self) -> (r: Vec<&T>) {
        let mut elements: Vec<&T> = Vec::new();
        Node::recursive_in_order_vec(&self.root, &mut elements);
        proof {
            assert(elements@ =~= Seq::<&T>::empty() + in_order(self.root).as_ref());
        }
        elements
    }

    fn pre_order_vec(&self) -> (r: Vec<&T>) {
        let mut elements: Vec<&T> = Vec::new();
        Node::recursive_pre_order_vec(&self.root, &mut elements);
        proof {
            assert(elements@ =~= Seq::<&T>::empty() + pre_order(self.root).as_ref());
        }
        elements
    }

    fn in_order_vec(&self) -> (r: Vec<&T>) {
        let mut elements: Vec<&T> = Vec::new();
        Node::recursive_in_order_vec(&self.root, &mut elements);
        proof {
            assert(elements@ =~= Seq::<&T>::empty() + in_order(self.root).as_ref());
        }
        elements
    }

    fn post_order_vec(&self) -> (r: Vec<&T>) {
        let mut elements: Vec<&T> = Vec::new();
        Node::recursive_post_order_vec(&self.root, &mut elements);
        proof {
            assert(elements@ =~= Seq::<&T>::empty() + post_order(self.root).as_ref());
        }
        elements
    }

    fn level_order_vec(&self) -> (r: Vec<&T>) {
        proof {
            lemma_height_size(self.root);
        }
        let mut elements: Vec<&T> = Vec::new();
        Node::recursive_level_order_vec(&self.root, &mut elements);
        proof {
            assert(elements@ =~= Seq::<&T>::empty() + level_order(self.root).as_ref());
        }
        elements
    }

    fn asc_order_iter(&self) -> (r: IntoIter<&T>) {
        self.asc_order_vec().into_iter()
    }

    fn pre_order_iter(&self) -> (r: IntoIter<&T>) {
        self.pre_order_vec().into_iter()
    }

    fn in_order_iter(&self) -> (r: IntoIter<&T>) {
        self.in_order_vec().into_iter()
    }

    fn post_order_iter(&self) -> (r: IntoIter<&T>) {
        self.post_order_vec().into_iter()
    }

    fn level_order_iter(&self) -> (r: IntoIter<&T>) {
        self.level_order_vec().into_iter()
    }

    fn into_asc_order_iter(self) -> (r: IntoIter<T>) {
        self.into_in_order_iter()
    }

    fn into_pre_order_iter(self) -> (r: IntoIter<T>) {
        let mut elements: Vec<T> = Vec::new();
        Node::recursive_consume_pre_order_vec(self.root, &mut elements);
        proof {
            assert(elements@ =~= Seq::<T>::empty() + pre_order(self.root));
        }
        elements.into_iter()
    }

    fn into_in_order_iter(self) -> (r: IntoIter<T>) {
        let mut elements: Vec<T> = Vec::new();
        Node::recursive_consume_in_order_vec(self.root, &mut elements);
        proof {
            assert(elements@ =~= Seq::<T>::empty() + in_order(self.root));
        }
        elements.into_iter()
    }

    fn into_post_order_iter(self) -> (r: IntoIter<T>) {
        let mut elements: Vec<T> = Vec::new();
        Node::recursive_consume_post_order_vec(self.root, &mut elements);
        proof {
            assert(elements@ =~= Seq::<T>::empty() + post_order(self.root));
        }
        elements.into_iter()
    }

    fn into_level_order_iter(self) -> (r: IntoIter<T>) {
        let mut elements: Vec<T> = Vec::new();
        Node::recursive_consume_level_order_vec(self.root, &mut elements);
        proof {
            assert(elements@ =~= Seq::<T>::empty() + level_order(self.root));
        }
        elements.into_iter()
    }
}

} // verus!
