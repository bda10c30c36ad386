//! Nodes, their links, and the structural algorithms over them, each in a
//! loop-based and a recursive form.
use core::cmp::Ordering;
use std::collections::VecDeque;
use vstd::prelude::*;

use crate::model::{
    contents, forest_children, forest_height, forest_level, forest_level_order, height, in_order,
    is_bst, leaf, lemma_empty, lemma_forest_children_height, lemma_forest_height_nonnegative,
    lemma_forest_level_order, lemma_height_lower, lemma_leaf, lemma_level_order_as_forest,
    lemma_link_nodes_level, lemma_mirror_pre_order, lemma_stack_empty, lemma_stack_push, level,
    level_order, levels_upto, link, link_nodes, mirror_pre_order, post_order, pre_order, size,
    stack_in_order, stack_mirror_pre_order, stack_pre_order, tree_insert, tree_max, tree_min,
    tree_remove, tree_remove_max, tree_remove_min, tree_remove_root, tree_replace,
};
use crate::order::{lemma_total_order, total_order};

verus! {

/// One element of a tree with its two subtrees.
#[derive(Debug)]
pub struct Node<T> {
    pub value: T,
    pub left: Link<T>,
    pub right: Link<T>,
}

/// The exclusive owner of a subtree, or no subtree.
pub type Link<T> = Option<Box<Node<T>>>;

/// `u` has the shape of `t`, and each of its values is a clone of the value in
/// the same place of `t`.
pub open spec fn clone_of<T: Clone>(t: Link<T>, u: Link<T>) -> bool
    decreases t,
{
    match (t, u) {
        (None, None) => true,
        (Some(a), Some(b)) => {
            &&& cloned(a.value, b.value)
            &&& clone_of(a.left, b.left)
            &&& clone_of(a.right, b.right)
        },
        _ => false,
    }
}

/// The nodes of a queue of borrowed subtrees.
pub open spec fn borrowed_row<T>(q: Seq<&Box<Node<T>>>) -> Seq<Node<T>> {
    q.map_values(|b: &Box<Node<T>>| **b)
}

/// The nodes of a queue of owned subtrees.
pub open spec fn owned_row<T>(q: Seq<Box<Node<T>>>) -> Seq<Node<T>> {
    q.map_values(|b: Box<Node<T>>| *b)
}

impl<T: Clone> Node<T> {
    /// A copy of a subtree, node for node.
    pub(crate) fn clone_link(root: &Link<T>) -> (r: Link<T>)
        ensures
            clone_of(*root, r),
            size(r) == size(*root),
        decreases *root,
    {
        match root {
            None => None,
            Some(n) => {
                let value = n.value.clone();
                let left = Node::clone_link(&n.left);
                let right = Node::clone_link(&n.right);
                Some(Box::new(Node { value, left, right }))
            },
        }
    }
}

impl<T: Ord> Node<T> {
    /// A node without children.
    pub(crate) fn new(value: T) -> (r: Node<T>)
        ensures
            r == (Node { value, left: None, right: None }),
    {
        Node { value, left: None, right: None }
    }

    /// Whether the subtree holds `value`, searched in a loop.
    pub(crate) fn iterative_contains(root: &Link<T>, value: &T) -> (r: bool)
        requires
            total_order::<T>(),
            is_bst(*root),
        ensures
            r == contents(*root).contains(*value),
    {
        let mut cur = root;
        loop
            invariant
                total_order::<T>(),
                is_bst(*cur),
                contents(*root).contains(*value) == contents(*cur).contains(*value),
            decreases *cur,
        {
            proof { lemma_total_order::<T>(); }
            match cur {
                None => return false,
                Some(current) => match value.cmp(&current.value) {
                    Ordering::Equal => return true,
                    Ordering::Less => {
                        proof { assert(!contents(current.right).contains(*value)); }
                        cur = &current.left;
                    },
                    Ordering::Greater => {
                        proof { assert(!contents(current.left).contains(*value)); }
                        cur = &current.right;
                    },
                },
            }
        }
    }

    /// The value equal to `value`, for change in place, searched in a loop.
    pub(crate) fn iterative_retrieve_as_mut<'a>(root: &'a mut Link<T>, value: &T) -> (r: Option<
        &'a mut T,
    >)
        requires
            total_order::<T>(),
            is_bst(*old(root)),
        ensures
            r is Some <==> contents(*old(root)).contains(*value),
            r matches Some(m) ==> *m == *value && *final(root) == tree_replace(
                *old(root),
                *value,
                *final(m),
            ),
            r is None ==> *final(root) == *old(root),
    {
        let mut cur = root;
        loop
            invariant
                total_order::<T>(),
                is_bst(*cur),
                forall|w: T|
                    *final(cur) == tree_replace(*cur, *value, w) ==> *final(root)
                        == #[trigger] tree_replace(*old(root), *value, w),
                *final(cur) == *cur ==> *final(root) == *old(root),
                contents(*old(root)).contains(*value) == contents(*cur).contains(*value),
            decreases *cur,
        {
            proof { lemma_total_order::<T>(); }
            match cur {
                None => return None,
                Some(node) => match value.cmp(&node.value) {
                    Ordering::Equal => return Some(&mut node.value),
                    Ordering::Less => {
                        proof { assert(!contents(node.right).contains(*value)); }
                        cur = &mut node.left;
                    },
                    Ordering::Greater => {
                        proof { assert(!contents(node.left).contains(*value)); }
                        cur = &mut node.right;
                    },
                },
            }
        }
    }

    /// The value equal to `value`, for change in place, searched by recursion.
    pub(crate) fn recursive_retrieve_as_mut(&mut self, value: &T) -> (r: Option<&mut T>)
        requires
            total_order::<T>(),
            is_bst(link(*old(self))),
        ensures
            r is Some <==> contents(link(*old(self))).contains(*value),
            r matches Some(m) ==> *m == *value && link(*final(self)) == tree_replace(
                link(*old(self)),
                *value,
                *final(m),
            ),
            r is None ==> *final(self) == *old(self),
        decreases *old(self),
    {
        proof {
            lemma_total_order::<T>();
            lemma_empty::<T>();
        }
        match value.cmp(&self.value) {
            Ordering::Equal => Some(&mut self.value),
            Ordering::Less => {
                proof { assert(!contents(self.right).contains(*value)); }
                match self.left {
                    None => None,
                    Some(ref mut node) => node.recursive_retrieve_as_mut(value),
                }
            },
            Ordering::Greater => {
                proof { assert(!contents(self.left).contains(*value)); }
                match self.right {
                    None => None,
                    Some(ref mut node) => node.recursive_retrieve_as_mut(value),
                }
            },
        }
    }

    /// Whether the subtree holds `value`, searched by recursion.
    pub(crate) fn recursive_contains(&self, value: &T) -> (r: bool)
        requires
            total_order::<T>(),
            is_bst(link(*self)),
        ensures
            r == contents(link(*self)).contains(*value),
        decreases *self,
    {
        proof {
            lemma_total_order::<T>();
            lemma_empty::<T>();
        }
        match value.cmp(&self.value) {
            Ordering::Equal => true,
            Ordering::Less => {
                proof { assert(!contents(self.right).contains(*value)); }
                match self.left {
                    None => false,
                    Some(ref node) => node.recursive_contains(value),
                }
            },
            Ordering::Greater => {
                proof { assert(!contents(self.left).contains(*value)); }
                match self.right {
                    None => false,
                    Some(ref node) => node.recursive_contains(value),
                }
            },
        }
    }

    /// The value equal to `value`, searched in a loop.
    pub(crate) fn iterative_retrieve<'a>(root: &'a Link<T>, value: &T) -> (r: Option<&'a T>)
        requires
            total_order::<T>(),
            is_bst(*root),
        ensures
            r is Some <==> contents(*root).contains(*value),
            r matches Some(x) ==> *x == *value,
    {
        let mut cur = root;
        loop
            invariant
                total_order::<T>(),
                is_bst(*cur),
                contents(*root).contains(*value) == contents(*cur).contains(*value),
            decreases *cur,
        {
            proof { lemma_total_order::<T>(); }
            match cur {
                None => return None,
                Some(current) => match value.cmp(&current.value) {
                    Ordering::Equal => return Some(&current.value),
                    Ordering::Less => {
                        proof { assert(!contents(current.right).contains(*value)); }
                        cur = &current.left;
                    },
                    Ordering::Greater => {
                        proof { assert(!contents(current.left).contains(*value)); }
                        cur = &current.right;
                    },
                },
            }
        }
    }

    /// The value equal to `value`, searched by recursion.
    pub(crate) fn recursive_retrieve(&self, value: &T) -> (r: Option<&T>)
        requires
            total_order::<T>(),
            is_bst(link(*self)),
        ensures
            r is Some <==> contents(link(*self)).contains(*value),
            r matches Some(x) ==> *x == *value,
        decreases *self,
    {
        proof {
            lemma_total_order::<T>();
            lemma_empty::<T>();
        }
        match value.cmp(&self.value) {
            Ordering::Equal => Some(&self.value),
            Ordering::Less => {
                proof { assert(!contents(self.right).contains(*value)); }
                match self.left {
                    None => None,
                    Some(ref node) => node.recursive_retrieve(value),
                }
            },
            Ordering::Greater => {
                proof { assert(!contents(self.left).contains(*value)); }
                match self.right {
                    None => None,
                    Some(ref node) => node.recursive_retrieve(value),
                }
            },
        }
    }

    /// Adds `value` at the empty slot that the search for it reaches, walking the slots
    /// in a loop; `Err` where the value is already present.
    pub(crate) fn iterative_insert(root: &mut Link<T>, value: T) -> (r: Result<(), ()>)
        requires
            total_order::<T>() ==> is_bst(*old(root)),
        ensures
            r is Ok ==> size(*final(root)) == size(*old(root)) + 1,
            r is Err ==> *final(root) == *old(root),
            total_order::<T>() ==> *final(root) == tree_insert(*old(root), value),
            total_order::<T>() ==> (r is Ok <==> !contents(*old(root)).contains(value)),
    {
        let mut cur = root;
        loop
            invariant
                total_order::<T>() ==> is_bst(*cur),
                size(*final(cur)) == size(*cur) + 1 ==> size(*final(root)) == size(*old(root)) + 1,
                *final(cur) == *cur ==> *final(root) == *old(root),
                total_order::<T>() ==> (*final(cur) == tree_insert(*cur, value) ==> *final(root)
                    == tree_insert(*old(root), value)),
                total_order::<T>() ==> (contents(*old(root)).contains(value) == contents(
                    *cur,
                ).contains(value)),
            decreases *cur,
        {
            proof {
                if total_order::<T>() {
                    lemma_total_order::<T>();
                }
            }
            match cur {
                None => {
                    *cur = Some(Box::new(Node::new(value)));
                    return Ok(());
                },
                Some(node) => match value.cmp(&node.value) {
                    Ordering::Equal => return Err(()),
                    Ordering::Less => {
                        proof {
                            if total_order::<T>() {
                                assert(!contents(node.right).contains(value));
                            }
                        }
                        cur = &mut node.left;
                    },
                    Ordering::Greater => {
                        proof {
                            if total_order::<T>() {
                                assert(!contents(node.left).contains(value));
                            }
                        }
                        cur = &mut node.right;
                    },
                },
            }
        }
    }

    /// Adds `value` below this node by recursion; `Err` where it is already present.
    pub(crate) fn recursive_insert(&mut self, value: T) -> (r: Result<(), ()>)
        requires
            total_order::<T>() ==> is_bst(Some(Box::new(*old(self)))),
        ensures
            r is Ok ==> size(Some(Box::new(*final(self)))) == size(Some(Box::new(*old(self)))) + 1,
            r is Err ==> *final(self) == *old(self),
            total_order::<T>() ==> Some(Box::new(*final(self))) == tree_insert(
                Some(Box::new(*old(self))),
                value,
            ),
            total_order::<T>() ==> (r is Ok <==> !contents(Some(Box::new(*old(self)))).contains(
                value,
            )),
        decreases *old(self),
    {
        proof {
            if total_order::<T>() {
                lemma_total_order::<T>();
            }
        }
        match value.cmp(&self.value) {
            Ordering::Equal => Err(()),
            Ordering::Less => match self.left {
                None => {
                    self.left = Some(Box::new(Node::new(value)));
                    proof {
                        lemma_leaf(value);
                        assert(tree_insert(old(self).left, value) == leaf(value));
                        assert(contents(old(self).left) == Set::<T>::empty());
                        if total_order::<T>() {
                            assert(!contents(self.right).contains(value));
                        }
                    }
                    Ok(())
                },
                Some(ref mut node) => {
                    proof {
                        if total_order::<T>() {
                            assert(!contents(self.right).contains(value));
                        }
                    }
                    node.recursive_insert(value)
                },
            },
            Ordering::Greater => match self.right {
                None => {
                    self.right = Some(Box::new(Node::new(value)));
                    proof {
                        lemma_leaf(value);
                        assert(tree_insert(old(self).right, value) == leaf(value));
                        assert(contents(old(self).right) == Set::<T>::empty());
                        if total_order::<T>() {
                            assert(!contents(self.left).contains(value));
                        }
                    }
                    Ok(())
                },
                Some(ref mut node) => {
                    proof {
                        if total_order::<T>() {
                            assert(!contents(self.left).contains(value));
                        }
                    }
                    node.recursive_insert(value)
                },
            },
        }
    }

    /// The leftmost value, found in a loop.
    pub(crate) fn iterative_min(root: &Link<T>) -> (r: Option<&T>)
        ensures
            r is Some <==> *root is Some,
            r matches Some(x) ==> *x == tree_min(*root),
    {
        let mut cur = root;
        loop
            invariant
                *cur is Some ==> tree_min(*cur) == tree_min(*root),
                *cur is None ==> *root is None,
                *cur is Some ==> *root is Some,
                *cur is Some ==> *root is Some,
            decreases *cur,
        {
            match cur {
                None => return None,
                Some(current) => {
                    if current.left.is_none() {
                        return Some(&current.value);
                    }
                    cur = &current.left;
                },
            }
        }
    }

    /// The leftmost value, found by recursion.
    pub(crate) fn recursive_min(&self) -> (r: Option<&T>)
        ensures
            r matches Some(x) && *x == tree_min(link(*self)),
        decreases *self,
    {
        match &self.left {
            None => Some(&self.value),
            Some(node) => node.recursive_min(),
        }
    }

    /// The rightmost value, found in a loop.
    pub(crate) fn iterative_max(root: &Link<T>) -> (r: Option<&T>)
        ensures
            r is Some <==> *root is Some,
            r matches Some(x) ==> *x == tree_max(*root),
    {
        let mut cur = root;
        loop
            invariant
                *cur is Some ==> tree_max(*cur) == tree_max(*root),
                *cur is None ==> *root is None,
                *cur is Some ==> *root is Some,
                *cur is Some ==> *root is Some,
            decreases *cur,
        {
            match cur {
                None => return None,
                Some(current) => {
                    if current.right.is_none() {
                        return Some(&current.value);
                    }
                    cur = &current.right;
                },
            }
        }
    }

    /// The rightmost value, found by recursion.
    pub(crate) fn recursive_max(&self) -> (r: Option<&T>)
        ensures
            r matches Some(x) && *x == tree_max(link(*self)),
        decreases *self,
    {
        match &self.right {
            None => Some(&self.value),
            Some(node) => node.recursive_max(),
        }
    }

    /// Takes out the leftmost node, whose right subtree takes its slot, in a loop.
    pub(crate) fn iterative_remove_min(root: &mut Link<T>) -> (r: Option<T>)
        ensures
            *final(root) == tree_remove_min(*old(root)),
            r == (if *old(root) is Some { Some(tree_min(*old(root))) } else { None::<T> }),
    {
        if root.is_none() {
            return None;
        }
        let mut cur = root;
        loop
            invariant
                *cur is Some,
                *old(root) is Some,
                tree_min(*cur) == tree_min(*old(root)),
                *final(cur) == tree_remove_min(*cur) ==> *final(root) == tree_remove_min(*old(root)),
            decreases *cur,
        {
            let go_left = match cur {
                Some(node) => node.left.is_some(),
                None => false,
            };
            if go_left {
                match cur {
                    Some(node) => cur = &mut node.left,
                    None => {},
                }
            } else {
                let ghost before = *cur;
                let node = cur.take().unwrap();
                let Node { value, left: _, right } = *node;
                *cur = right;
                proof { assert(tree_min(before) == value); }
                return Some(value);
            }
        }
    }

    /// Takes out the leftmost node, whose right subtree takes its slot, by recursion.
    pub(crate) fn recursive_remove_min(root: &mut Link<T>) -> (r: Option<T>)
        requires
            *old(root) is Some,
        ensures
            *final(root) == tree_remove_min(*old(root)),
            r == Some(tree_min(*old(root))),
        decreases *old(root),
    {
        let go_left = match root {
            Some(node) => node.left.is_some(),
            None => false,
        };
        if go_left {
            match root {
                Some(node) => Node::recursive_remove_min(&mut node.left),
                None => None,
            }
        } else {
            let node = root.take().unwrap();
            let Node { value, left: _, right } = *node;
            *root = right;
            Some(value)
        }
    }

    /// Takes out the rightmost node, whose left subtree takes its slot, in a loop.
    pub(crate) fn iterative_remove_max(root: &mut Link<T>) -> (r: Option<T>)
        ensures
            *final(root) == tree_remove_max(*old(root)),
            r == (if *old(root) is Some { Some(tree_max(*old(root))) } else { None::<T> }),
    {
        if root.is_none() {
            return None;
        }
        let mut cur = root;
        loop
            invariant
                *cur is Some,
                *old(root) is Some,
                tree_max(*cur) == tree_max(*old(root)),
                *final(cur) == tree_remove_max(*cur) ==> *final(root) == tree_remove_max(*old(root)),
            decreases *cur,
        {
            let go_right = match cur {
                Some(node) => node.right.is_some(),
                None => false,
            };
            if go_right {
                match cur {
                    Some(node) => cur = &mut node.right,
                    None => {},
                }
            } else {
                let ghost before = *cur;
                let node = cur.take().unwrap();
                let Node { value, left, right: _ } = *node;
                *cur = left;
                proof { assert(tree_max(before) == value); }
                return Some(value);
            }
        }
    }

    /// Takes out the rightmost node, whose left subtree takes its slot, by recursion.
    pub(crate) fn recursive_remove_max(root: &mut Link<T>) -> (r: Option<T>)
        requires
            *old(root) is Some,
        ensures
            *final(root) == tree_remove_max(*old(root)),
            r == Some(tree_max(*old(root))),
        decreases *old(root),
    {
        let go_right = match root {
            Some(node) => node.right.is_some(),
            None => false,
        };
        if go_right {
            match root {
                Some(node) => Node::recursive_remove_max(&mut node.right),
                None => None,
            }
        } else {
            let node = root.take().unwrap();
            let Node { value, left, right: _ } = *node;
            *root = left;
            Some(value)
        }
    }
    /// Removes `value`, searched in a loop; `Err` where it is not present.
    pub(crate) fn iterative_remove(root: &mut Link<T>, value: &T) -> (r: Result<(), ()>)
        requires
            total_order::<T>(),
            is_bst(*old(root)),
        ensures
            *final(root) == tree_remove(*old(root), *value),
            r is Ok <==> contents(*old(root)).contains(*value),
    {
        let mut cur = root;
        loop
            invariant
                total_order::<T>(),
                is_bst(*cur),
                *final(cur) == tree_remove(*cur, *value) ==> *final(root) == tree_remove(
                    *old(root),
                    *value,
                ),
                contents(*old(root)).contains(*value) == contents(*cur).contains(*value),
            decreases *cur,
        {
            proof {
                lemma_total_order::<T>();
                lemma_empty::<T>();
            }
            let order = match cur {
                None => return Err(()),
                Some(current) => value.cmp(&current.value),
            };
            match order {
                Ordering::Less => match cur {
                    Some(current) => {
                        proof { assert(!contents(current.right).contains(*value)); }
                        cur = &mut current.left;
                    },
                    None => {},
                },
                Ordering::Greater => match cur {
                    Some(current) => {
                        proof { assert(!contents(current.left).contains(*value)); }
                        cur = &mut current.right;
                    },
                    None => {},
                },
                Ordering::Equal => {
                    Node::unlink(cur);
                    return Ok(());
                },
            }
        }
    }

    /// Removes the root value of a subtree.
    fn unlink(root: &mut Link<T>)
        requires
            *old(root) is Some,
        ensures
            *final(root) == tree_remove_root(*old(root)),
    {
        match root {
            None => {},
            Some(current) => {
                if current.left.is_none() {
                    let right = current.right.take();
                    *root = right;
                } else if current.right.is_none() {
                    let left = current.left.take();
                    *root = left;
                } else {
                    let successor = Node::iterative_remove_min(&mut current.right);
                    current.value = successor.unwrap();
                }
            },
        }
    }

    /// Removes `value`, searched by recursion; `Err` where it is not present.
    pub(crate) fn recursive_remove(root: &mut Link<T>, value: &T) -> (r: Result<(), ()>)
        requires
            total_order::<T>(),
            is_bst(*old(root)),
        ensures
            *final(root) == tree_remove(*old(root), *value),
            r is Ok <==> contents(*old(root)).contains(*value),
        decreases *old(root),
    {
        proof {
            lemma_total_order::<T>();
            lemma_empty::<T>();
        }
        match root {
            None => Err(()),
            Some(node) => match value.cmp(&node.value) {
                Ordering::Less => {
                    proof { assert(!contents(node.right).contains(*value)); }
                    Node::recursive_remove(&mut node.left, value)
                },
                Ordering::Greater => {
                    proof { assert(!contents(node.left).contains(*value)); }
                    Node::recursive_remove(&mut node.right, value)
                },
                Ordering::Equal => {
                    if node.left.is_none() {
                        let right = node.right.take();
                        *root = right;
                    } else if node.right.is_none() {
                        let left = node.left.take();
                        *root = left;
                    } else {
                        node.value = Node::recursive_remove_min(&mut node.right).unwrap();
                    }
                    Ok(())
                },
            },
        }
    }
    /// Appends the subtree in pre-order, by recursion.
    pub(crate) fn recursive_pre_order_vec<'a>(node: &'a Link<T>, elements: &mut Vec<&'a T>)
        ensures
            final(elements)@ == old(elements)@ + pre_order(*node).as_ref(),
        decreases *node,
    {
        if let Some(n) = node {
            elements.push(&n.value);
            Node::recursive_pre_order_vec(&n.left, elements);
            Node::recursive_pre_order_vec(&n.right, elements);
            proof {
                assert(elements@ =~= old(elements)@ + pre_order(*node).as_ref());
            }
        } else {
            proof {
                lemma_empty::<T>();
                assert(elements@ =~= old(elements)@ + pre_order(*node).as_ref());
            }
        }
    }

    /// Moves the subtree's values out in pre-order, by recursion.
    pub(crate) fn recursive_consume_pre_order_vec(node: Link<T>, elements: &mut Vec<T>)
        ensures
            final(elements)@ == old(elements)@ + pre_order(node),
        decreases node,
    {
        if let Some(n) = node {
            let Node { value, left, right } = *n;
            elements.push(value);
            Node::recursive_consume_pre_order_vec(left, elements);
            Node::recursive_consume_pre_order_vec(right, elements);
            proof {
                assert(elements@ =~= old(elements)@ + pre_order(node));
            }
        } else {
            proof {
                lemma_empty::<T>();
                assert(elements@ =~= old(elements)@ + pre_order(node));
            }
        }
    }

    /// Appends the subtree in in-order, by recursion.
    pub(crate) fn recursive_in_order_vec<'a>(node: &'a Link<T>, elements: &mut Vec<&'a T>)
        ensures
            final(elements)@ == old(elements)@ + in_order(*node).as_ref(),
        decreases *node,
    {
        if let Some(n) = node {
            Node::recursive_in_order_vec(&n.left, elements);
            elements.push(&n.value);
            Node::recursive_in_order_vec(&n.right, elements);
            proof {
                assert(elements@ =~= old(elements)@ + in_order(*node).as_ref());
            }
        } else {
            proof {
                lemma_empty::<T>();
                assert(elements@ =~= old(elements)@ + in_order(*node).as_ref());
            }
        }
    }

    /// Moves the subtree's values out in in-order, by recursion.
    pub(crate) fn recursive_consume_in_order_vec(node: Link<T>, elements: &mut Vec<T>)
        ensures
            final(elements)@ == old(elements)@ + in_order(node),
        decreases node,
    {
        if let Some(n) = node {
            let Node { value, left, right } = *n;
            Node::recursive_consume_in_order_vec(left, elements);
            elements.push(value);
            Node::recursive_consume_in_order_vec(right, elements);
            proof {
                assert(elements@ =~= old(elements)@ + in_order(node));
            }
        } else {
            proof {
                lemma_empty::<T>();
                assert(elements@ =~= old(elements)@ + in_order(node));
            }
        }
    }

    /// Appends the subtree in post-order, by recursion.
    pub(crate) fn recursive_post_order_vec<'a>(node: &'a Link<T>, elements: &mut Vec<&'a T>)
        ensures
            final(elements)@ == old(elements)@ + post_order(*node).as_ref(),
        decreases *node,
    {
        if let Some(n) = node {
            Node::recursive_post_order_vec(&n.left, elements);
            Node::recursive_post_order_vec(&n.right, elements);
            elements.push(&n.value);
            proof {
                assert(elements@ =~= old(elements)@ + post_order(*node).as_ref());
            }
        } else {
            proof {
                lemma_empty::<T>();
                assert(elements@ =~= old(elements)@ + post_order(*node).as_ref());
            }
        }
    }

    /// Moves the subtree's values out in post-order, by recursion.
    pub(crate) fn recursive_consume_post_order_vec(node: Link<T>, elements: &mut Vec<T>)
        ensures
            final(elements)@ == old(elements)@ + post_order(node),
        decreases node,
    {
        if let Some(n) = node {
            let Node { value, left, right } = *n;
            Node::recursive_consume_post_order_vec(left, elements);
            Node::recursive_consume_post_order_vec(right, elements);
            elements.push(value);
            proof {
                assert(elements@ =~= old(elements)@ + post_order(node));
            }
        } else {
            proof {
                lemma_empty::<T>();
                assert(elements@ =~= old(elements)@ + post_order(node));
            }
        }
    }
    /// The subtree in level order, one level of a queue at a time.
    pub(crate) fn iterative_level_order_vec(root: &Link<T>) -> (r: Vec<&T>)
        ensures
            r@ == level_order(*root).as_ref(),
    {
        let mut elements: Vec<&T> = Vec::new();
        let mut current: VecDeque<&Box<Node<T>>> = VecDeque::new();
        if let Some(n) = root {
            current.push_back(n);
        }
        proof {
            lemma_level_order_as_forest(*root);
            assert(borrowed_row(current@) =~= link_nodes(*root));
        }
        while current.len() > 0
            invariant
                elements@ + forest_level_order(borrowed_row(current@)).as_ref() == level_order(
                    *root,
                ).as_ref(),
            decreases forest_height(borrowed_row(current@)) + 1,
        {
            let ghost row = borrowed_row(current@);
            let ghost start = elements@;
            let ghost mut i: int = 0;
            let mut next: VecDeque<&Box<Node<T>>> = VecDeque::new();
            proof {
                assert(row.take(0) =~= Seq::<Node<T>>::empty());
                assert(start + forest_level(row.take(0), 1).as_ref() =~= start);
            }
            while current.len() > 0
                invariant
                    0 <= i <= row.len(),
                    borrowed_row(current@) == row.skip(i),
                    elements@ == start + forest_level(row.take(i), 1).as_ref(),
                    borrowed_row(next@) == forest_children(row.take(i)),
                decreases current.len(),
            {
                let ghost queue = current@;
                proof {
                    assert(borrowed_row(queue).len() == queue.len());
                    assert(row.skip(i)[0] == row[i]);
                    assert(borrowed_row(queue)[0] == *queue[0]);
                }
                let n = current.pop_front().unwrap();
                proof {
                    assert(row[i] == **n);
                    assert(row.take(i + 1).drop_last() =~= row.take(i));
                    assert(level(link(**n), 1) == seq![n.value]);
                }
                elements.push(&n.value);
                if let Some(l) = &n.left {
                    next.push_back(l);
                }
                if let Some(r) = &n.right {
                    next.push_back(r);
                }
                proof {
                    assert(borrowed_row(current@) =~= borrowed_row(queue).skip(1));
                    i = i + 1;
                    assert(borrowed_row(current@) =~= row.skip(i));
                    assert(elements@ =~= start + forest_level(row.take(i), 1).as_ref());
                    assert(borrowed_row(next@) =~= forest_children(row.take(i)));
                }
            }
            proof {
                assert(row.take(i) =~= row);
                lemma_forest_level_order(row);
                lemma_forest_children_height(row);
                assert(elements@ + forest_level_order(forest_children(row)).as_ref() =~= start
                    + forest_level_order(row).as_ref());
            }
            current = next;
        }
        proof {
            lemma_forest_level_order(borrowed_row(current@));
            assert(elements@ =~= elements@ + forest_level_order(borrowed_row(current@)).as_ref());
        }
        elements
    }
    /// Moves the subtree's values out in level order, one level of a queue at a time.
    pub(crate) fn iterative_consume_level_order_vec(root: Link<T>) -> (r: Vec<T>)
        ensures
            r@ == level_order(root),
    {
        let mut elements: Vec<T> = Vec::new();
        let mut current: VecDeque<Box<Node<T>>> = VecDeque::new();
        proof {
            lemma_level_order_as_forest(root);
        }
        if let Some(n) = root {
            current.push_back(n);
        }
        proof {
            assert(owned_row(current@) =~= link_nodes(root));
        }
        while current.len() > 0
            invariant
                elements@ + forest_level_order(owned_row(current@)) == level_order(root),
            decreases forest_height(owned_row(current@)) + 1,
        {
            let ghost row = owned_row(current@);
            let ghost start = elements@;
            let ghost mut i: int = 0;
            let mut next: VecDeque<Box<Node<T>>> = VecDeque::new();
            proof {
                assert(row.take(0) =~= Seq::<Node<T>>::empty());
                assert(start + forest_level(row.take(0), 1) =~= start);
            }
            while current.len() > 0
                invariant
                    0 <= i <= row.len(),
                    owned_row(current@) == row.skip(i),
                    elements@ == start + forest_level(row.take(i), 1),
                    owned_row(next@) == forest_children(row.take(i)),
                decreases current.len(),
            {
                let ghost queue = current@;
                proof {
                    assert(owned_row(queue).len() == queue.len());
                    assert(row.skip(i)[0] == row[i]);
                    assert(owned_row(queue)[0] == *queue[0]);
                }
                let n = current.pop_front().unwrap();
                let ghost node = *n;
                proof {
                    assert(row[i] == node);
                    assert(row.take(i + 1).drop_last() =~= row.take(i));
                    assert(level(link(node), 1) == seq![node.value]);
                }
                let Node { value, left, right } = *n;
                elements.push(value);
                if let Some(l) = left {
                    next.push_back(l);
                }
                if let Some(r) = right {
                    next.push_back(r);
                }
                proof {
                    assert(owned_row(current@) =~= owned_row(queue).skip(1));
                    i = i + 1;
                    assert(owned_row(current@) =~= row.skip(i));
                    assert(elements@ =~= start + forest_level(row.take(i), 1));
                    assert(owned_row(next@) =~= forest_children(row.take(i)));
                }
            }
            proof {
                assert(row.take(i) =~= row);
                lemma_forest_level_order(row);
                lemma_forest_children_height(row);
                assert(elements@ + forest_level_order(forest_children(row)) =~= start
                    + forest_level_order(row));
            }
            current = next;
        }
        proof {
            lemma_forest_level_order(owned_row(current@));
            assert(elements@ =~= elements@ + forest_level_order(owned_row(current@)));
        }
        elements
    }

    /// The height, by counting the levels of a breadth-first walk.
    pub(crate) fn iterative_height(root: &Link<T>) -> (r: isize)
        requires
            height(*root) < isize::MAX,
        ensures
            r == height(*root),
    {
        let mut levels: isize = -1;
        let mut current: VecDeque<&Box<Node<T>>> = VecDeque::new();
        if let Some(n) = root {
            current.push_back(n);
        }
        proof {
            assert(borrowed_row(current@) =~= link_nodes(*root));
            lemma_link_nodes_level(*root, 1);
        }
        while current.len() > 0
            invariant
                height(*root) < isize::MAX,
                height(*root) == levels + 1 + forest_height(borrowed_row(current@)),
                levels >= -1,
            decreases forest_height(borrowed_row(current@)) + 1,
        {
            let ghost row = borrowed_row(current@);
            let ghost mut i: int = 0;
            let mut next: VecDeque<&Box<Node<T>>> = VecDeque::new();
            proof {
                assert(row.take(0) =~= Seq::<Node<T>>::empty());
                assert(row.len() > 0);
                lemma_forest_height_nonnegative(row);
            }
            while current.len() > 0
                invariant
                    0 <= i <= row.len(),
                    borrowed_row(current@) == row.skip(i),
                    borrowed_row(next@) == forest_children(row.take(i)),
                decreases current.len(),
            {
                let ghost queue = current@;
                proof {
                    assert(borrowed_row(queue).len() == queue.len());
                    assert(row.skip(i)[0] == row[i]);
                    assert(borrowed_row(queue)[0] == *queue[0]);
                }
                let n = current.pop_front().unwrap();
                proof {
                    assert(row[i] == **n);
                    assert(row.take(i + 1).drop_last() =~= row.take(i));
                }
                if let Some(l) = &n.left {
                    next.push_back(l);
                }
                if let Some(r) = &n.right {
                    next.push_back(r);
                }
                proof {
                    assert(borrowed_row(current@) =~= borrowed_row(queue).skip(1));
                    i = i + 1;
                    assert(borrowed_row(current@) =~= row.skip(i));
                    assert(borrowed_row(next@) =~= forest_children(row.take(i)));
                }
            }
            proof {
                assert(row.take(i) =~= row);
                lemma_forest_children_height(row);
            }
            current = next;
            levels = levels + 1;
        }
        levels
    }

    /// The height, as one more than the greater height of the two subtrees.
    pub(crate) fn recursive_height(root: &Link<T>) -> (r: isize)
        requires
            height(*root) < isize::MAX,
        ensures
            r == height(*root),
        decreases *root,
    {
        match root {
            None => -1,
            Some(node) => {
                proof {
                    lemma_height_lower(node.left);
                    lemma_height_lower(node.right);
                }
                let left = Node::recursive_height(&node.left);
                let right = Node::recursive_height(&node.right);
                1 + if left >= right { left } else { right }
            },
        }
    }

    /// Appends the subtree in level order, one depth at a time.
    pub(crate) fn recursive_level_order_vec<'a>(root: &'a Link<T>, elements: &mut Vec<&'a T>)
        requires
            height(*root) < isize::MAX,
        ensures
            final(elements)@ == old(elements)@ + level_order(*root).as_ref(),
    {
        let deepest = Node::recursive_height(root);
        let mut i: isize = 0;
        proof {
            lemma_height_lower(*root);
            assert(old(elements)@ + levels_upto(*root, 0).as_ref() =~= old(elements)@);
        }
        while i <= deepest
            invariant
                0 <= i <= deepest + 1,
                deepest == height(*root),
                height(*root) < isize::MAX,
                elements@ == old(elements)@ + levels_upto(*root, i as int).as_ref(),
            decreases deepest + 1 - i,
        {
            Node::recursive_current_level(root, elements, i + 1);
            proof {
                assert(elements@ =~= old(elements)@ + levels_upto(*root, i + 1).as_ref());
            }
            i = i + 1;
        }
    }

    /// Appends the values at depth `depth`, by recursion.
    fn recursive_current_level<'a>(root: &'a Link<T>, elements: &mut Vec<&'a T>, depth: isize)
        ensures
            final(elements)@ == old(elements)@ + level(*root, depth as int).as_ref(),
        decreases *root,
    {
        proof {
            lemma_empty::<T>();
        }
        if let Some(node) = root {
            match depth.cmp(&1) {
                Ordering::Less => {
                    proof {
                        assert(elements@ =~= old(elements)@ + level(*root, depth as int).as_ref());
                    }
                },
                Ordering::Equal => {
                    elements.push(&node.value);
                    proof {
                        assert(elements@ =~= old(elements)@ + level(*root, depth as int).as_ref());
                    }
                },
                Ordering::Greater => {
                    Node::recursive_current_level(&node.left, elements, depth - 1);
                    Node::recursive_current_level(&node.right, elements, depth - 1);
                    proof {
                        assert(elements@ =~= old(elements)@ + level(*root, depth as int).as_ref());
                    }
                },
            }
        } else {
            proof {
                assert(elements@ =~= old(elements)@ + level(*root, depth as int).as_ref());
            }
        }
    }

    /// Moves the subtree's values out in level order, by recursion over its levels.
    pub(crate) fn recursive_consume_level_order_vec(root: Link<T>, elements: &mut Vec<T>)
        ensures
            final(elements)@ == old(elements)@ + level_order(root),
    {
        let mut row: Vec<Box<Node<T>>> = Vec::new();
        if let Some(n) = root {
            row.push(n);
        }
        proof {
            lemma_level_order_as_forest(root);
            assert(owned_row(row@) =~= link_nodes(root));
        }
        Node::recursive_consume_levels(row, elements);
    }

    /// Moves the values of a row of subtrees out level after level.
    fn recursive_consume_levels(row: Vec<Box<Node<T>>>, elements: &mut Vec<T>)
        ensures
            final(elements)@ == old(elements)@ + forest_level_order(owned_row(row@)),
        decreases forest_height(owned_row(row@)) + 1,
    {
        let ghost nodes = owned_row(row@);
        proof {
            lemma_forest_level_order(nodes);
        }
        if row.len() == 0 {
            proof {
                assert(elements@ =~= old(elements)@ + forest_level_order(nodes));
            }
            return;
        }
        let ghost start = elements@;
        let mut next: Vec<Box<Node<T>>> = Vec::new();
        let ghost mut i: int = 0;
        proof {
            assert(nodes.take(0) =~= Seq::<Node<T>>::empty());
            assert(start + forest_level(nodes.take(0), 1) =~= start);
            lemma_forest_children_height(nodes);
        }
        for n in it: row
            invariant
                i == it.index(),
                0 <= i <= nodes.len(),
                it.seq() == row@,
                nodes == owned_row(row@),
                elements@ == start + forest_level(nodes.take(i), 1),
                owned_row(next@) == forest_children(nodes.take(i)),
        {
            let ghost node = *n;
            proof {
                assert(nodes[i] == node);
                assert(nodes.take(i + 1).drop_last() =~= nodes.take(i));
                assert(level(link(node), 1) == seq![node.value]);
            }
            let Node { value, left, right } = *n;
            elements.push(value);
            if let Some(l) = left {
                next.push(l);
            }
            if let Some(r) = right {
                next.push(r);
            }
            proof {
                i = i + 1;
                assert(elements@ =~= start + forest_level(nodes.take(i), 1));
                assert(owned_row(next@) =~= forest_children(nodes.take(i)));
            }
        }
        proof {
            assert(nodes.take(i) =~= nodes);
        }
        Node::recursive_consume_levels(next, elements);
        proof {
            assert(elements@ =~= old(elements)@ + forest_level_order(nodes));
        }
    }
    /// The subtree in pre-order, with an explicit stack.
    pub(crate) fn iterative_pre_order_vec(root: &Link<T>) -> (r: Vec<&T>)
        ensures
            r@ == pre_order(*root).as_ref(),
    {
        let mut elements: Vec<&T> = Vec::new();
        let mut stack: Vec<&Box<Node<T>>> = Vec::new();
        if let Some(n) = root {
            stack.push(n);
        }
        proof {
            lemma_empty::<T>();
            let row = borrowed_row(stack@);
            lemma_stack_empty(Seq::<Node<T>>::empty());
            if row.len() > 0 {
                assert(row =~= Seq::<Node<T>>::empty().push(row[0]));
                lemma_stack_push(Seq::<Node<T>>::empty(), row[0]);
            }
            assert(stack_pre_order(row) =~= pre_order(*root));
        }
        while stack.len() > 0
            invariant
                elements@ + stack_pre_order(borrowed_row(stack@)).as_ref() == pre_order(
                    *root,
                ).as_ref(),
            decreases stack_pre_order(borrowed_row(stack@)).len(),
        {
            let ghost before = borrowed_row(stack@);
            let current = stack.pop().unwrap();
            proof {
                assert(borrowed_row(stack@) =~= before.drop_last());
                lemma_empty::<T>();
            }
            elements.push(&current.value);
            if let Some(r) = &current.right {
                stack.push(r);
            }
            if let Some(l) = &current.left {
                stack.push(l);
            }
            proof {
                let row = borrowed_row(stack@);
                let rest = before.drop_last();
                assert(stack_pre_order(row) =~= pre_order(current.left) + pre_order(current.right)
                    + stack_pre_order(rest)) by {
                    let with_right = match current.right {
                        Some(b) => rest.push(*b),
                        None => rest,
                    };
                    let with_left = match current.left {
                        Some(b) => with_right.push(*b),
                        None => with_right,
                    };
                    assert(row =~= with_left);
                    if let Some(b) = current.right {
                        lemma_stack_push(rest, *b);
                    }
                    if let Some(b) = current.left {
                        lemma_stack_push(with_right, *b);
                    }
                }
                assert(elements@ + stack_pre_order(row).as_ref() =~= pre_order(*root).as_ref());
            }
        }
        proof {
            assert(stack_pre_order(borrowed_row(stack@)) == Seq::<T>::empty());
            assert(elements@ =~= pre_order(*root).as_ref());
        }
        elements
    }

    /// Moves the subtree's values out in pre-order, with an explicit stack.
    pub(crate) fn iterative_consume_pre_order_vec(root: Link<T>) -> (r: Vec<T>)
        ensures
            r@ == pre_order(root),
    {
        let mut elements: Vec<T> = Vec::new();
        let mut stack: Vec<Box<Node<T>>> = Vec::new();
        proof {
            lemma_empty::<T>();
        }
        let ghost tree = root;
        if let Some(n) = root {
            stack.push(n);
        }
        proof {
            let row = owned_row(stack@);
            lemma_stack_empty(Seq::<Node<T>>::empty());
            if row.len() > 0 {
                assert(row =~= Seq::<Node<T>>::empty().push(row[0]));
                lemma_stack_push(Seq::<Node<T>>::empty(), row[0]);
            }
            assert(stack_pre_order(row) =~= pre_order(tree));
        }
        while stack.len() > 0
            invariant
                elements@ + stack_pre_order(owned_row(stack@)) == pre_order(tree),
            decreases stack_pre_order(owned_row(stack@)).len(),
        {
            let ghost before = owned_row(stack@);
            let current = stack.pop().unwrap();
            let ghost node = *current;
            proof {
                assert(owned_row(stack@) =~= before.drop_last());
                lemma_empty::<T>();
            }
            let Node { value, left, right } = *current;
            elements.push(value);
            if let Some(r) = right {
                stack.push(r);
            }
            if let Some(l) = left {
                stack.push(l);
            }
            proof {
                let row = owned_row(stack@);
                let rest = before.drop_last();
                assert(stack_pre_order(row) =~= pre_order(node.left) + pre_order(node.right)
                    + stack_pre_order(rest)) by {
                    let with_right = match node.right {
                        Some(b) => rest.push(*b),
                        None => rest,
                    };
                    let with_left = match node.left {
                        Some(b) => with_right.push(*b),
                        None => with_right,
                    };
                    assert(row =~= with_left);
                    if let Some(b) = node.right {
                        lemma_stack_push(rest, *b);
                    }
                    if let Some(b) = node.left {
                        lemma_stack_push(with_right, *b);
                    }
                }
                assert(elements@ + stack_pre_order(row) =~= pre_order(tree));
            }
        }
        proof {
            assert(stack_pre_order(owned_row(stack@)) == Seq::<T>::empty());
            assert(elements@ =~= pre_order(tree));
        }
        elements
    }
    /// The subtree in in-order, with a cursor and an explicit stack.
    pub(crate) fn iterative_in_order_vec(root: &Link<T>) -> (r: Vec<&T>)
        ensures
            r@ == in_order(*root).as_ref(),
    {
        let mut elements: Vec<&T> = Vec::new();
        let mut stack: Vec<&Box<Node<T>>> = Vec::new();
        let mut cur = root;
        proof {
            lemma_stack_empty(borrowed_row(stack@));
            assert(in_order(*cur) + stack_in_order(borrowed_row(stack@)) =~= in_order(*root));
        }
        loop
            invariant
                elements@ + (in_order(*cur) + stack_in_order(borrowed_row(stack@))).as_ref()
                    == in_order(*root).as_ref(),
            decreases (in_order(*cur) + stack_in_order(borrowed_row(stack@))).len(), in_order(
                *cur,
            ).len(),
        {
            proof {
                lemma_empty::<T>();
            }
            let ghost before = borrowed_row(stack@);
            match cur {
                Some(n) => {
                    stack.push(n);
                    cur = &n.left;
                    proof {
                        assert(borrowed_row(stack@) =~= before.push(**n));
                        lemma_stack_push(before, **n);
                        assert(elements@ + (in_order(*cur) + stack_in_order(borrowed_row(stack@))).as_ref()
                            =~= in_order(*root).as_ref());
                    }
                },
                None => {
                    if stack.len() == 0 {
                        proof {
                            lemma_stack_empty(before);
                            assert(elements@ =~= in_order(*root).as_ref());
                        }
                        return elements;
                    }
                    let n = stack.pop().unwrap();
                    proof {
                        assert(borrowed_row(stack@) =~= before.drop_last());
                        assert(before =~= borrowed_row(stack@).push(**n));
                        lemma_stack_push(borrowed_row(stack@), **n);
                    }
                    elements.push(&n.value);
                    cur = &n.right;
                    proof {
                        assert(elements@ + (in_order(*cur) + stack_in_order(borrowed_row(stack@))).as_ref()
                            =~= in_order(*root).as_ref());
                    }
                },
            }
        }
    }

    /// Moves the subtree's values out in in-order, with a cursor and an explicit stack.
    pub(crate) fn iterative_consume_in_order_vec(root: Link<T>) -> (r: Vec<T>)
        ensures
            r@ == in_order(root),
    {
        let ghost tree = root;
        let mut elements: Vec<T> = Vec::new();
        let mut stack: Vec<Box<Node<T>>> = Vec::new();
        let mut cur = root;
        proof {
            lemma_stack_empty(owned_row(stack@));
            assert(in_order(cur) + stack_in_order(owned_row(stack@)) =~= in_order(tree));
        }
        loop
            invariant
                tree == root,
                elements@ + in_order(cur) + stack_in_order(owned_row(stack@)) == in_order(tree),
            decreases (in_order(cur) + stack_in_order(owned_row(stack@))).len(), in_order(cur).len(),
        {
            proof {
                lemma_empty::<T>();
            }
            let ghost before = owned_row(stack@);
            match cur {
                Some(mut n) => {
                    let ghost node = *n;
                    cur = n.left.take();
                    stack.push(n);
                    proof {
                        assert(owned_row(stack@) =~= before.push(Node { left: None, ..node }));
                        lemma_stack_push(before, Node { left: None, ..node });
                        assert(elements@ + in_order(cur) + stack_in_order(owned_row(stack@))
                            =~= in_order(tree));
                    }
                },
                None => {
                    if stack.len() == 0 {
                        proof {
                            lemma_stack_empty(before);
                            assert(elements@ =~= in_order(tree));
                        }
                        return elements;
                    }
                    let n = stack.pop().unwrap();
                    proof {
                        assert(owned_row(stack@) =~= before.drop_last());
                        assert(before =~= owned_row(stack@).push(*n));
                        lemma_stack_push(owned_row(stack@), *n);
                    }
                    let Node { value, left: _, right } = *n;
                    elements.push(value);
                    cur = right;
                    proof {
                        assert(elements@ + in_order(cur) + stack_in_order(owned_row(stack@))
                            =~= in_order(tree));
                    }
                },
            }
        }
    }

    /// The subtree in post-order: a mirrored pre-order on one stack, read back from a second.
    pub(crate) fn iterative_post_order_vec(root: &Link<T>) -> (r: Vec<&T>)
        ensures
            r@ == post_order(*root).as_ref(),
    {
        let mut elements: Vec<&T> = Vec::new();
        let mut stack_one: Vec<&Box<Node<T>>> = Vec::new();
        let mut stack_two: Vec<&T> = Vec::new();
        if let Some(n) = root {
            stack_one.push(n);
        }
        proof {
            lemma_empty::<T>();
            let row = borrowed_row(stack_one@);
            lemma_stack_empty(Seq::<Node<T>>::empty());
            if row.len() > 0 {
                assert(row =~= Seq::<Node<T>>::empty().push(row[0]));
                lemma_stack_push(Seq::<Node<T>>::empty(), row[0]);
            }
            assert(stack_two@ + stack_mirror_pre_order(row).as_ref() =~= mirror_pre_order(*root).as_ref());
        }
        while stack_one.len() > 0
            invariant
                stack_two@ + stack_mirror_pre_order(borrowed_row(stack_one@)).as_ref()
                    == mirror_pre_order(*root).as_ref(),
            decreases stack_mirror_pre_order(borrowed_row(stack_one@)).len(),
        {
            let ghost before = borrowed_row(stack_one@);
            let current = stack_one.pop().unwrap();
            proof {
                assert(borrowed_row(stack_one@) =~= before.drop_last());
                lemma_empty::<T>();
            }
            if let Some(l) = &current.left {
                stack_one.push(l);
            }
            if let Some(r) = &current.right {
                stack_one.push(r);
            }
            stack_two.push(&current.value);
            proof {
                let row = borrowed_row(stack_one@);
                let rest = before.drop_last();
                assert(stack_mirror_pre_order(row) =~= mirror_pre_order(current.right)
                    + mirror_pre_order(current.left) + stack_mirror_pre_order(rest)) by {
                    let with_left = match current.left {
                        Some(b) => rest.push(*b),
                        None => rest,
                    };
                    let with_right = match current.right {
                        Some(b) => with_left.push(*b),
                        None => with_left,
                    };
                    assert(row =~= with_right);
                    if let Some(b) = current.left {
                        lemma_stack_push(rest, *b);
                    }
                    if let Some(b) = current.right {
                        lemma_stack_push(with_left, *b);
                    }
                }
                assert(stack_two@ + stack_mirror_pre_order(row).as_ref() =~= mirror_pre_order(
                    *root,
                ).as_ref());
            }
        }
        proof {
            lemma_stack_empty(borrowed_row(stack_one@));
            assert(stack_two@ =~= mirror_pre_order(*root).as_ref());
        }
        let ghost all = stack_two@;
        proof {
            assert(elements@ + stack_two@.reverse() =~= all.reverse());
        }
        while stack_two.len() > 0
            invariant
                elements@ + stack_two@.reverse() == all.reverse(),
            decreases stack_two.len(),
        {
            let ghost before = stack_two@;
            let value = stack_two.pop().unwrap();
            elements.push(value);
            proof {
                assert(before.reverse() =~= seq![value] + stack_two@.reverse());
                assert(elements@ + stack_two@.reverse() =~= all.reverse());
            }
        }
        proof {
            lemma_mirror_pre_order(*root);
            assert(elements@ =~= post_order(*root).as_ref());
        }
        elements
    }

    /// Moves the subtree's values out in post-order: a mirrored pre-order on one stack,
    /// read back from a second.
    pub(crate) fn iterative_consume_post_order_vec(root: Link<T>) -> (r: Vec<T>)
        ensures
            r@ == post_order(root),
    {
        let ghost tree = root;
        let mut elements: Vec<T> = Vec::new();
        let mut stack_one: Vec<Box<Node<T>>> = Vec::new();
        let mut stack_two: Vec<T> = Vec::new();
        if let Some(n) = root {
            stack_one.push(n);
        }
        proof {
            lemma_empty::<T>();
            let row = owned_row(stack_one@);
            lemma_stack_empty(Seq::<Node<T>>::empty());
            if row.len() > 0 {
                assert(row =~= Seq::<Node<T>>::empty().push(row[0]));
                lemma_stack_push(Seq::<Node<T>>::empty(), row[0]);
            }
            assert(stack_two@ + stack_mirror_pre_order(row) =~= mirror_pre_order(tree));
        }
        while stack_one.len() > 0
            invariant
                stack_two@ + stack_mirror_pre_order(owned_row(stack_one@)) == mirror_pre_order(tree),
            decreases stack_mirror_pre_order(owned_row(stack_one@)).len(),
        {
            let ghost before = owned_row(stack_one@);
            let current = stack_one.pop().unwrap();
            let ghost node = *current;
            proof {
                assert(owned_row(stack_one@) =~= before.drop_last());
                lemma_empty::<T>();
            }
            let Node { value, left, right } = *current;
            if let Some(l) = left {
                stack_one.push(l);
            }
            if let Some(r) = right {
                stack_one.push(r);
            }
            stack_two.push(value);
            proof {
                let row = owned_row(stack_one@);
                let rest = before.drop_last();
                assert(stack_mirror_pre_order(row) =~= mirror_pre_order(node.right)
                    + mirror_pre_order(node.left) + stack_mirror_pre_order(rest)) by {
                    let with_left = match node.left {
                        Some(b) => rest.push(*b),
                        None => rest,
                    };
                    let with_right = match node.right {
                        Some(b) => with_left.push(*b),
                        None => with_left,
                    };
                    assert(row =~= with_right);
                    if let Some(b) = node.left {
                        lemma_stack_push(rest, *b);
                    }
                    if let Some(b) = node.right {
                        lemma_stack_push(with_left, *b);
                    }
                }
                assert(stack_two@ + stack_mirror_pre_order(row) =~= mirror_pre_order(tree));
            }
        }
        proof {
            lemma_stack_empty(owned_row(stack_one@));
            assert(stack_two@ =~= mirror_pre_order(tree));
        }
        let ghost all = stack_two@;
        proof {
            assert(elements@ + stack_two@.reverse() =~= all.reverse());
        }
        while stack_two.len() > 0
            invariant
                elements@ + stack_two@.reverse() == all.reverse(),
            decreases stack_two.len(),
        {
            let ghost before = stack_two@;
            let value = stack_two.pop().unwrap();
            elements.push(value);
            proof {
                assert(before.reverse() =~= seq![value] + stack_two@.reverse());
                assert(elements@ + stack_two@.reverse() =~= all.reverse());
            }
        }
        proof {
            lemma_mirror_pre_order(tree);
            assert(elements@ =~= post_order(tree));
        }
        elements
    }
}

} // verus!
