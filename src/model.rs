//! The mathematical model of a linked tree: what it holds, its shape after each
//! structural operation, and its four traversal orders.
use vstd::prelude::*;

use crate::node::{Link, Node};
use crate::order::{lemma_total_order, lt, total_order};

verus! {

/// A subtree of one node.
pub open spec fn leaf<T>(value: T) -> Link<T> {
    Some(Box::new(Node { value, left: None, right: None }))
}

/// The subtree rooted at `n`.
pub open spec fn link<T>(n: Node<T>) -> Link<T> {
    Some(Box::new(n))
}

/// A subtree with the given root value and children.
pub open spec fn branch<T>(value: T, left: Link<T>, right: Link<T>) -> Link<T> {
    Some(Box::new(Node { value, left, right }))
}

/// The set of values held in a subtree.
pub open spec fn contents<T>(t: Link<T>) -> Set<T>
    decreases t,
{
    match t {
        None => Set::empty(),
        Some(n) => contents(n.left).union(contents(n.right)).insert(n.value),
    }
}

/// Every node's value is above all of its left subtree and below all of its right one.
pub open spec fn is_bst<T: Ord>(t: Link<T>) -> bool
    decreases t,
{
    match t {
        None => true,
        Some(n) => {
            &&& forall|x: T| #[trigger] contents(n.left).contains(x) ==> lt(x, n.value)
            &&& forall|x: T| #[trigger] contents(n.right).contains(x) ==> lt(n.value, x)
            &&& is_bst(n.left)
            &&& is_bst(n.right)
        },
    }
}

/// Each element is strictly below the next.
pub open spec fn strictly_ascending<T: Ord>(s: Seq<T>) -> bool {
    forall|i: int, j: int| 0 <= i < j < s.len() ==> lt(#[trigger] s[i], #[trigger] s[j])
}

/// Pre-order: a node, then its left subtree, then its right subtree.
pub open spec fn pre_order<T>(t: Link<T>) -> Seq<T>
    decreases t,
{
    match t {
        None => Seq::empty(),
        Some(n) => seq![n.value] + pre_order(n.left) + pre_order(n.right),
    }
}

/// In-order: the left subtree, then the node, then the right subtree.
pub open spec fn in_order<T>(t: Link<T>) -> Seq<T>
    decreases t,
{
    match t {
        None => Seq::empty(),
        Some(n) => in_order(n.left) + seq![n.value] + in_order(n.right),
    }
}

/// Post-order: the left subtree, then the right subtree, then the node.
pub open spec fn post_order<T>(t: Link<T>) -> Seq<T>
    decreases t,
{
    match t {
        None => Seq::empty(),
        Some(n) => post_order(n.left) + post_order(n.right) + seq![n.value],
    }
}

/// The number of nodes of a subtree.
pub open spec fn size<T>(t: Link<T>) -> nat {
    in_order(t).len()
}

/// The larger of two integers.
pub open spec fn max_int(a: int, b: int) -> int {
    if a >= b { a } else { b }
}

/// Edges on the longest path from the root down to a leaf; -1 for no tree.
pub open spec fn height<T>(t: Link<T>) -> int
    decreases t,
{
    match t {
        None => -1,
        Some(n) => 1 + max_int(height(n.left), height(n.right)),
    }
}

/// The values at depth `d`, left to right, where the root is at depth 1.
pub open spec fn level<T>(t: Link<T>, d: int) -> Seq<T>
    decreases t,
{
    match t {
        None => Seq::empty(),
        Some(n) => if d < 1 {
            Seq::empty()
        } else if d == 1 {
            seq![n.value]
        } else {
            level(n.left, d - 1) + level(n.right, d - 1)
        },
    }
}

/// The values at depths 1 to `k`, level after level.
pub open spec fn levels_upto<T>(t: Link<T>, k: int) -> Seq<T>
    decreases k,
{
    if k <= 0 {
        Seq::empty()
    } else {
        levels_upto(t, k - 1) + level(t, k)
    }
}

/// Level order: breadth first, each level from left to right.
pub open spec fn level_order<T>(t: Link<T>) -> Seq<T> {
    levels_upto(t, height(t) + 1)
}

/// The nodes of a link: none, or the one it owns.
pub open spec fn link_nodes<T>(l: Link<T>) -> Seq<Node<T>> {
    match l {
        None => Seq::empty(),
        Some(b) => seq![*b],
    }
}

/// The values at depth `d` of a row of subtrees, left to right.
pub open spec fn forest_level<T>(f: Seq<Node<T>>, d: int) -> Seq<T>
    decreases f.len(),
{
    if f.len() == 0 {
        Seq::empty()
    } else {
        forest_level(f.drop_last(), d) + level(link(f.last()), d)
    }
}

/// The children of a row of subtrees, left to right.
pub open spec fn forest_children<T>(f: Seq<Node<T>>) -> Seq<Node<T>>
    decreases f.len(),
{
    if f.len() == 0 {
        Seq::empty()
    } else {
        forest_children(f.drop_last()) + link_nodes(f.last().left) + link_nodes(f.last().right)
    }
}

/// The greatest height in a row of subtrees; -1 for an empty row.
pub open spec fn forest_height<T>(f: Seq<Node<T>>) -> int
    decreases f.len(),
{
    if f.len() == 0 {
        -1
    } else {
        max_int(forest_height(f.drop_last()), height(link(f.last())))
    }
}

/// The values at depths 1 to `k` of a row of subtrees, level after level.
pub open spec fn forest_levels<T>(f: Seq<Node<T>>, k: int) -> Seq<T>
    decreases k,
{
    if k <= 0 {
        Seq::empty()
    } else {
        forest_levels(f, k - 1) + forest_level(f, k)
    }
}

/// Level order of a row of subtrees taken together.
pub open spec fn forest_level_order<T>(f: Seq<Node<T>>) -> Seq<T> {
    forest_levels(f, forest_height(f) + 1)
}

/// Pre-order of a stack of subtrees, from the top of the stack down.
pub open spec fn stack_pre_order<T>(s: Seq<Node<T>>) -> Seq<T>
    decreases s.len(),
{
    if s.len() == 0 {
        Seq::empty()
    } else {
        pre_order(link(s.last())) + stack_pre_order(s.drop_last())
    }
}

/// What an in-order walk still owes for a stack of nodes whose left subtrees are
/// done: from the top down, each node's value and then its right subtree.
pub open spec fn stack_in_order<T>(s: Seq<Node<T>>) -> Seq<T>
    decreases s.len(),
{
    if s.len() == 0 {
        Seq::empty()
    } else {
        seq![s.last().value] + in_order(s.last().right) + stack_in_order(s.drop_last())
    }
}

/// Pre-order with the right subtree before the left one: post-order reversed.
pub open spec fn mirror_pre_order<T>(t: Link<T>) -> Seq<T>
    decreases t,
{
    match t {
        None => Seq::empty(),
        Some(n) => seq![n.value] + mirror_pre_order(n.right) + mirror_pre_order(n.left),
    }
}

/// Mirrored pre-order of a stack of subtrees, from the top of the stack down.
pub open spec fn stack_mirror_pre_order<T>(s: Seq<Node<T>>) -> Seq<T>
    decreases s.len(),
{
    if s.len() == 0 {
        Seq::empty()
    } else {
        mirror_pre_order(link(s.last())) + stack_mirror_pre_order(s.drop_last())
    }
}

/// The value of the leftmost node.
pub open spec fn tree_min<T>(t: Link<T>) -> T
    recommends
        t is Some,
    decreases t,
{
    match t {
        None => arbitrary(),
        Some(n) => match n.left {
            None => n.value,
            Some(_) => tree_min(n.left),
        },
    }
}

/// The value of the rightmost node.
pub open spec fn tree_max<T>(t: Link<T>) -> T
    recommends
        t is Some,
    decreases t,
{
    match t {
        None => arbitrary(),
        Some(n) => match n.right {
            None => n.value,
            Some(_) => tree_max(n.right),
        },
    }
}

/// The tree without its leftmost node, whose right subtree takes its place.
pub open spec fn tree_remove_min<T>(t: Link<T>) -> Link<T>
    decreases t,
{
    match t {
        None => None,
        Some(n) => match n.left {
            None => n.right,
            Some(_) => branch(n.value, tree_remove_min(n.left), n.right),
        },
    }
}

/// The tree without its rightmost node, whose left subtree takes its place.
pub open spec fn tree_remove_max<T>(t: Link<T>) -> Link<T>
    decreases t,
{
    match t {
        None => None,
        Some(n) => match n.right {
            None => n.left,
            Some(_) => branch(n.value, n.left, tree_remove_max(n.right)),
        },
    }
}

/// The tree after inserting `v`: unchanged where `v` is present, else with a new
/// leaf at the empty slot that the search for `v` reaches.
pub open spec fn tree_insert<T: Ord>(t: Link<T>, v: T) -> Link<T>
    decreases t,
{
    match t {
        None => leaf(v),
        Some(n) => if v == n.value {
            t
        } else if lt(v, n.value) {
            branch(n.value, tree_insert(n.left, v), n.right)
        } else {
            branch(n.value, n.left, tree_insert(n.right, v))
        },
    }
}

/// The tree without its root value. A root without children leaves no tree, a
/// root with one child is replaced by that child, and a root with two children
/// takes the smallest value of its right subtree, whose node is removed instead.
pub open spec fn tree_remove_root<T>(t: Link<T>) -> Link<T> {
    match t {
        None => None,
        Some(n) => match (n.left, n.right) {
            (None, None) => None,
            (Some(_), None) => n.left,
            (None, Some(_)) => n.right,
            (Some(_), Some(_)) => branch(tree_min(n.right), n.left, tree_remove_min(n.right)),
        },
    }
}

/// The tree after removing `v`: the subtree whose root holds `v` loses its root.
pub open spec fn tree_remove<T: Ord>(t: Link<T>, v: T) -> Link<T>
    decreases t,
{
    match t {
        None => None,
        Some(n) => if v == n.value {
            tree_remove_root(t)
        } else if lt(v, n.value) {
            branch(n.value, tree_remove(n.left, v), n.right)
        } else {
            branch(n.value, n.left, tree_remove(n.right, v))
        },
    }
}

/// The tree built by inserting the values of `s` into an empty tree, in order.
pub open spec fn tree_from_seq<T: Ord>(s: Seq<T>) -> Link<T>
    decreases s.len(),
{
    if s.len() == 0 {
        None
    } else {
        tree_insert(tree_from_seq(s.drop_last()), s.last())
    }
}

/// The tree with the value of the node that the search for `v` finds replaced by `w`.
pub open spec fn tree_replace<T: Ord>(t: Link<T>, v: T, w: T) -> Link<T>
    decreases t,
{
    match t {
        None => None,
        Some(n) => if v == n.value {
            branch(w, n.left, n.right)
        } else if lt(v, n.value) {
            branch(n.value, tree_replace(n.left, v, w), n.right)
        } else {
            branch(n.value, n.left, tree_replace(n.right, v, w))
        },
    }
}

/// What an empty tree holds, in every order.
pub proof fn lemma_empty<T>()
    ensures
        contents::<T>(None) == Set::<T>::empty(),
        in_order::<T>(None) == Seq::<T>::empty(),
        pre_order::<T>(None) == Seq::<T>::empty(),
        post_order::<T>(None) == Seq::<T>::empty(),
        height::<T>(None) == -1,
        forall|d: int| #[trigger] level::<T>(None, d) == Seq::<T>::empty(),
{
    assert forall|d: int| #[trigger] level::<T>(None, d) == Seq::<T>::empty() by {}
}

/// What a tree of one node holds, in every order.
pub proof fn lemma_leaf<T>(v: T)
    ensures
        in_order(leaf(v)) == seq![v],
        pre_order(leaf(v)) == seq![v],
        post_order(leaf(v)) == seq![v],
        contents(leaf(v)) == set![v],
        height(leaf(v)) == 0,
{
    let e: Link<T> = None;
    assert(in_order(e) == Seq::<T>::empty());
    assert(pre_order(e) == Seq::<T>::empty());
    assert(post_order(e) == Seq::<T>::empty());
    assert(contents(e) == Set::<T>::empty());
    assert(height(e) == -1);
    assert(in_order(leaf(v)) =~= seq![v]);
    assert(pre_order(leaf(v)) =~= seq![v]);
    assert(post_order(leaf(v)) =~= seq![v]);
    assert(contents(leaf(v)) =~= set![v]);
}

/// Depth `d` of a row is that depth of each subtree in turn.
pub proof fn lemma_forest_level_append<T>(a: Seq<Node<T>>, b: Seq<Node<T>>, d: int)
    ensures
        forest_level(a + b, d) == forest_level(a, d) + forest_level(b, d),
    decreases b.len(),
{
    if b.len() == 0 {
        assert(a + b =~= a);
        assert(forest_level(b, d) == Seq::<T>::empty());
        assert(forest_level(a, d) + forest_level(b, d) =~= forest_level(a, d));
    } else {
        lemma_forest_level_append(a, b.drop_last(), d);
        assert((a + b).drop_last() =~= a + b.drop_last());
        assert((a + b).last() == b.last());
        assert(forest_level(a + b, d) =~= forest_level(a, d) + forest_level(b, d));
    }
}

/// A link's nodes, as a row, hold at each depth what the link holds there.
pub proof fn lemma_link_nodes_level<T>(l: Link<T>, d: int)
    ensures
        forest_level(link_nodes(l), d) == level(l, d),
        forest_height(link_nodes(l)) == height(l),
{
    lemma_empty::<T>();
    match l {
        None => {
            assert(link_nodes(l) == Seq::<Node<T>>::empty());
        },
        Some(b) => {
            let f = link_nodes(l);
            assert(f.drop_last() =~= Seq::<Node<T>>::empty());
            assert(forest_level(f.drop_last(), d) == Seq::<T>::empty());
            assert(forest_height(f.drop_last()) == -1);
            lemma_height_lower(l);
            assert(link(f.last()) == l);
            assert(forest_level(f, d) =~= level(l, d));
        },
    }
}

/// One level deeper in a row is that level of the row of its children.
pub proof fn lemma_forest_children_level<T>(f: Seq<Node<T>>, d: int)
    requires
        d >= 1,
    ensures
        forest_level(forest_children(f), d) == forest_level(f, d + 1),
    decreases f.len(),
{
    if f.len() == 0 {
        assert(forest_children(f) == Seq::<Node<T>>::empty());
    } else {
        let g = f.drop_last();
        let n = f.last();
        lemma_forest_children_level(g, d);
        lemma_forest_level_append(forest_children(g) + link_nodes(n.left), link_nodes(n.right), d);
        lemma_forest_level_append(forest_children(g), link_nodes(n.left), d);
        lemma_link_nodes_level(n.left, d);
        lemma_link_nodes_level(n.right, d);
        assert(forest_level(f, d + 1) =~= forest_level(g, d + 1) + (level(n.left, d) + level(n.right, d)));
    }
}

/// The children of a row that is not empty are one level lower.
pub proof fn lemma_forest_children_height<T>(f: Seq<Node<T>>)
    requires
        f.len() > 0,
    ensures
        forest_height(forest_children(f)) == forest_height(f) - 1,
    decreases f.len(),
{
    let g = f.drop_last();
    let n = f.last();
    lemma_forest_height_append(forest_children(g) + link_nodes(n.left), link_nodes(n.right));
    lemma_forest_height_append(forest_children(g), link_nodes(n.left));
    lemma_link_nodes_level(n.left, 1);
    lemma_link_nodes_level(n.right, 1);
    if g.len() == 0 {
        assert(forest_children(g) == Seq::<Node<T>>::empty());
    } else {
        lemma_forest_children_height(g);
    }
}

/// The height of a row is the greater of the heights of its parts.
pub proof fn lemma_forest_height_append<T>(a: Seq<Node<T>>, b: Seq<Node<T>>)
    ensures
        forest_height(a + b) == max_int(forest_height(a), forest_height(b)),
    decreases b.len(),
{
    lemma_forest_height_lower(a);
    if b.len() == 0 {
        assert(a + b =~= a);
    } else {
        lemma_height_lower(link(b.last()));
        lemma_forest_height_append(a, b.drop_last());
        assert((a + b).drop_last() =~= a + b.drop_last());
        assert((a + b).last() == b.last());
    }
}

/// The first level of a row holds the values of its nodes.
pub proof fn lemma_forest_first_level<T>(f: Seq<Node<T>>)
    ensures
        forest_level(f, 1) == f.map_values(|n: Node<T>| n.value),
    decreases f.len(),
{
    if f.len() > 0 {
        lemma_forest_first_level(f.drop_last());
        assert(f.map_values(|n: Node<T>| n.value) =~= f.drop_last().map_values(|n: Node<T>| n.value).push(f.last().value));
        assert(level(link(f.last()), 1) == seq![f.last().value]);
    } else {
        assert(f.map_values(|n: Node<T>| n.value) =~= Seq::<T>::empty());
    }
}

/// Level order of a row: its first level, then level order of its children.
pub proof fn lemma_forest_level_order<T>(f: Seq<Node<T>>)
    ensures
        f.len() == 0 ==> forest_level_order(f) == Seq::<T>::empty(),
        f.len() > 0 ==> forest_level_order(f) == forest_level(f, 1) + forest_level_order(
            forest_children(f),
        ),
{
    if f.len() > 0 {
        lemma_forest_children_height(f);
        lemma_forest_height_nonnegative(f);
        lemma_forest_levels_step(f, forest_height(f));
    }
}

/// A row that is not empty has a height of 0 or more.
pub proof fn lemma_forest_height_nonnegative<T>(f: Seq<Node<T>>)
    requires
        f.len() > 0,
    ensures
        forest_height(f) >= 0,
    decreases f.len(),
{
    let n = f.last();
    lemma_height_lower(n.left);
    lemma_height_lower(n.right);
    lemma_forest_height_lower(f.drop_last());
    assert(height(link(n)) >= 0);
}

/// Heights are -1 or more.
pub proof fn lemma_height_lower<T>(t: Link<T>)
    ensures
        height(t) >= -1,
    decreases t,
{
    if let Some(n) = t {
        lemma_height_lower(n.left);
        lemma_height_lower(n.right);
    }
}

/// Heights of rows are -1 or more.
pub proof fn lemma_forest_height_lower<T>(f: Seq<Node<T>>)
    ensures
        forest_height(f) >= -1,
    decreases f.len(),
{
    if f.len() > 0 {
        lemma_forest_height_lower(f.drop_last());
    }
}

/// The first `k + 1` levels of a row are its first level, then the first `k` of its children.
pub proof fn lemma_forest_levels_step<T>(f: Seq<Node<T>>, k: int)
    requires
        k >= 0,
    ensures
        forest_levels(f, k + 1) == forest_level(f, 1) + forest_levels(forest_children(f), k),
    decreases k,
{
    if k == 0 {
        assert(forest_levels(f, 0) == Seq::<T>::empty());
        assert(forest_levels(f, 1) =~= forest_level(f, 1));
        assert(forest_levels(forest_children(f), 0) == Seq::<T>::empty());
        assert(forest_levels(f, 1) =~= forest_level(f, 1) + forest_levels(forest_children(f), 0));
    } else {
        lemma_forest_levels_step(f, k - 1);
        lemma_forest_children_level(f, k);
        assert(forest_levels(f, k + 1) =~= forest_level(f, 1) + forest_levels(forest_children(f), k));
    }
}

/// Level order of a tree is level order of the row of its root.
pub proof fn lemma_level_order_as_forest<T>(t: Link<T>)
    ensures
        level_order(t) == forest_level_order(link_nodes(t)),
{
    lemma_link_nodes_level(t, 1);
    lemma_forest_levels_of_link(t, height(t) + 1);
}

/// The first `k` levels of a link's row are the link's first `k` levels.
pub proof fn lemma_forest_levels_of_link<T>(t: Link<T>, k: int)
    ensures
        forest_levels(link_nodes(t), k) == levels_upto(t, k),
    decreases k,
{
    if k > 0 {
        lemma_forest_levels_of_link(t, k - 1);
        lemma_link_nodes_level(t, k);
    }
}

/// Reversing a concatenation reverses and swaps its parts.
pub proof fn lemma_reverse_append<T>(a: Seq<T>, b: Seq<T>)
    ensures
        (a + b).reverse() == b.reverse() + a.reverse(),
{
    assert((a + b).reverse() =~= b.reverse() + a.reverse());
}

/// Mirrored pre-order is post-order reversed.
pub proof fn lemma_mirror_pre_order<T>(t: Link<T>)
    ensures
        mirror_pre_order(t) == post_order(t).reverse(),
    decreases t,
{
    match t {
        None => {
            assert(post_order(t).reverse() =~= Seq::<T>::empty());
        },
        Some(n) => {
            lemma_mirror_pre_order(n.left);
            lemma_mirror_pre_order(n.right);
            lemma_reverse_append(post_order(n.left) + post_order(n.right), seq![n.value]);
            lemma_reverse_append(post_order(n.left), post_order(n.right));
            assert(seq![n.value].reverse() =~= seq![n.value]);
            assert(mirror_pre_order(t) =~= post_order(t).reverse());
        },
    }
}

/// Pushing a node onto a stack puts its subtree's walks in front.
pub proof fn lemma_stack_push<T>(s: Seq<Node<T>>, x: Node<T>)
    ensures
        stack_pre_order(s.push(x)) == pre_order(link(x)) + stack_pre_order(s),
        stack_mirror_pre_order(s.push(x)) == mirror_pre_order(link(x)) + stack_mirror_pre_order(s),
        stack_in_order(s.push(x)) == seq![x.value] + in_order(x.right) + stack_in_order(s),
{
    assert(s.push(x).drop_last() =~= s);
    assert(s.push(x).last() == x);
}

/// The walks of an empty stack are empty.
pub proof fn lemma_stack_empty<T>(s: Seq<Node<T>>)
    requires
        s.len() == 0,
    ensures
        stack_pre_order(s) == Seq::<T>::empty(),
        stack_mirror_pre_order(s) == Seq::<T>::empty(),
        stack_in_order(s) == Seq::<T>::empty(),
{
}

/// A subtree holds exactly the values of its in-order walk.
pub proof fn lemma_contents_in_order<T>(t: Link<T>)
    ensures
        forall|x: T|
            #![trigger contents(t).contains(x)]
            #![trigger in_order(t).contains(x)]
            contents(t).contains(x) <==> in_order(t).contains(x),
    decreases t,
{
    lemma_empty::<T>();
    if let Some(n) = t {
        lemma_contents_in_order(n.left);
        lemma_contents_in_order(n.right);
        let a = in_order(n.left);
        let b = in_order(n.right);
        let s = in_order(t);
        assert(s == a + seq![n.value] + b);
        assert(contents(t) == contents(n.left).union(contents(n.right)).insert(n.value));
        assert forall|x: T| #[trigger] contents(t).contains(x) <==> s.contains(x) by {
            if contents(t).contains(x) {
                if x == n.value {
                    assert(s[a.len() as int] == x);
                } else if a.contains(x) {
                    let i = choose|i: int| 0 <= i < a.len() && a[i] == x;
                    assert(s[i] == x);
                } else {
                    assert(b.contains(x));
                    let i = choose|i: int| 0 <= i < b.len() && b[i] == x;
                    assert(s[a.len() + 1 + i] == x);
                }
            }
            if s.contains(x) {
                let i = choose|i: int| 0 <= i < s.len() && s[i] == x;
                if i < a.len() {
                    assert(a[i] == x);
                } else if i > a.len() {
                    assert(b[i - a.len() - 1] == x);
                }
            }
        }
    }
}

/// The in-order walk of a search tree is strictly ascending.
pub proof fn lemma_in_order_ascending<T: Ord>(t: Link<T>)
    requires
        total_order::<T>(),
        is_bst(t),
    ensures
        strictly_ascending(in_order(t)),
    decreases t,
{
    lemma_empty::<T>();
    lemma_total_order::<T>();
    if let Some(n) = t {
        lemma_in_order_ascending(n.left);
        lemma_in_order_ascending(n.right);
        lemma_contents_in_order(n.left);
        lemma_contents_in_order(n.right);
        let a = in_order(n.left);
        let b = in_order(n.right);
        let s = in_order(t);
        assert(s == a + seq![n.value] + b);
        assert forall|i: int, j: int| 0 <= i < j < s.len() implies lt(#[trigger] s[i], #[trigger] s[j]) by {
            let k = a.len() as int;
            if i < k {
                assert(a.contains(s[i]));
                assert(lt(s[i], n.value));
            }
            if j > k {
                assert(b.contains(s[j]));
                assert(b[j - k - 1] == s[j]);
                assert(lt(n.value, s[j]));
            }
        }
    }
}

/// Every element of a sequence passes the filter: it stays as it is.
pub proof fn lemma_filter_all<T>(s: Seq<T>, p: spec_fn(T) -> bool)
    requires
        forall|i: int| 0 <= i < s.len() ==> p(#[trigger] s[i]),
    ensures
        s.filter(p) == s,
    decreases s.len(),
{
    reveal(Seq::filter);
    if s.len() > 0 {
        lemma_filter_all(s.drop_last(), p);
        assert(s.drop_last().push(s.last()) =~= s);
    }
}

/// The leftmost value comes first in order, the rest after it.
pub proof fn lemma_remove_min<T>(t: Link<T>)
    requires
        t is Some,
    ensures
        in_order(t) == seq![tree_min(t)] + in_order(tree_remove_min(t)),
    decreases t,
{
    lemma_empty::<T>();
    if let Some(n) = t {
        if n.left is Some {
            lemma_remove_min(n.left);
            assert(in_order(t) =~= seq![tree_min(t)] + in_order(tree_remove_min(t)));
        } else {
            assert(in_order(t) =~= seq![tree_min(t)] + in_order(tree_remove_min(t)));
        }
    }
}

/// The rightmost value comes last in order, the rest before it.
pub proof fn lemma_remove_max<T>(t: Link<T>)
    requires
        t is Some,
    ensures
        in_order(t) == in_order(tree_remove_max(t)) + seq![tree_max(t)],
    decreases t,
{
    lemma_empty::<T>();
    if let Some(n) = t {
        if n.right is Some {
            lemma_remove_max(n.right);
            assert(in_order(t) =~= in_order(tree_remove_max(t)) + seq![tree_max(t)]);
        } else {
            assert(in_order(t) =~= in_order(tree_remove_max(t)) + seq![tree_max(t)]);
        }
    }
}

/// Taking out the leftmost or the rightmost node keeps a search tree ordered and
/// adds nothing to what it holds.
pub proof fn lemma_bst_sub<T: Ord>(t: Link<T>)
    requires
        total_order::<T>(),
        is_bst(t),
        t is Some,
    ensures
        is_bst(tree_remove_min(t)),
        is_bst(tree_remove_max(t)),
        forall|x: T| #[trigger] contents(tree_remove_min(t)).contains(x) ==> contents(t).contains(x),
        forall|x: T| #[trigger] contents(tree_remove_max(t)).contains(x) ==> contents(t).contains(x),
    decreases t,
{
    lemma_empty::<T>();
    lemma_remove_min(t);
    lemma_remove_max(t);
    lemma_contents_in_order(t);
    lemma_contents_in_order(tree_remove_min(t));
    lemma_contents_in_order(tree_remove_max(t));
    assert forall|x: T| #[trigger] contents(tree_remove_min(t)).contains(x) implies contents(t).contains(x) by {
        let s = in_order(tree_remove_min(t));
        let i = choose|i: int| 0 <= i < s.len() && s[i] == x;
        assert(in_order(t)[i + 1] == x);
    }
    assert forall|x: T| #[trigger] contents(tree_remove_max(t)).contains(x) implies contents(t).contains(x) by {
        let s = in_order(tree_remove_max(t));
        let i = choose|i: int| 0 <= i < s.len() && s[i] == x;
        assert(in_order(t)[i] == x);
    }
    if let Some(n) = t {
        if n.left is Some {
            lemma_bst_sub(n.left);
        }
        if n.right is Some {
            lemma_bst_sub(n.right);
        }
    }
}

/// Inserting keeps a search tree ordered, adds the value to what it holds, and
/// changes nothing where the value is already there.
pub proof fn lemma_insert<T: Ord>(t: Link<T>, v: T)
    requires
        total_order::<T>(),
        is_bst(t),
    ensures
        is_bst(tree_insert(t, v)),
        contents(tree_insert(t, v)) == contents(t).insert(v),
        contents(t).contains(v) ==> tree_insert(t, v) == t,
    decreases t,
{
    lemma_empty::<T>();
    lemma_total_order::<T>();
    lemma_leaf(v);
    match t {
        None => {
            assert(contents(tree_insert(t, v)) =~= contents(t).insert(v));
        },
        Some(n) => {
            lemma_insert(n.left, v);
            lemma_insert(n.right, v);
            if v == n.value {
                assert(contents(t).insert(v) =~= contents(t));
            } else if lt(v, n.value) {
                assert(!contents(n.right).contains(v));
                assert(contents(tree_insert(t, v)) =~= contents(t).insert(v));
            } else {
                assert(!contents(n.left).contains(v));
                assert(contents(tree_insert(t, v)) =~= contents(t).insert(v));
            }
        },
    }
}

/// Removing the root of a search tree keeps it ordered and its walk loses just the root value.
pub proof fn lemma_remove_root<T: Ord>(t: Link<T>)
    requires
        total_order::<T>(),
        is_bst(t),
        t is Some,
    ensures
        is_bst(tree_remove_root(t)),
        in_order(tree_remove_root(t)) == in_order(t->0.left) + in_order(t->0.right),
{
    lemma_empty::<T>();
    lemma_total_order::<T>();
    let n = t->0;
    if n.left is Some && n.right is Some {
        let r = n.right;
        lemma_remove_min(r);
        lemma_bst_sub(r);
        lemma_in_order_ascending(r);
        lemma_contents_in_order(r);
        lemma_contents_in_order(tree_remove_min(r));
        let m = tree_min(r);
        assert(in_order(r)[0] == m);
        assert(contents(r).contains(m));
        assert forall|x: T| #[trigger] contents(tree_remove_min(r)).contains(x) implies lt(m, x) by {
            let s = in_order(tree_remove_min(r));
            let i = choose|i: int| 0 <= i < s.len() && s[i] == x;
            assert(in_order(r)[i + 1] == x);
        }
        assert forall|x: T| #[trigger] contents(n.left).contains(x) implies lt(x, m) by {
            assert(lt(x, n.value));
            assert(lt(n.value, m));
        }
        assert(in_order(tree_remove_root(t)) =~= in_order(n.left) + in_order(n.right));
    } else {
        assert(in_order(tree_remove_root(t)) =~= in_order(n.left) + in_order(n.right));
    }
}

/// A sequence of one element passes a filter or not.
pub proof fn lemma_filter_single<T>(x: T, p: spec_fn(T) -> bool)
    ensures
        seq![x].filter(p) == (if p(x) { seq![x] } else { Seq::<T>::empty() }),
{
    reveal_with_fuel(Seq::filter, 2);
    assert(seq![x].drop_last() =~= Seq::<T>::empty());
    assert(Seq::<T>::empty().push(x) =~= seq![x]);
}

/// Removing keeps a search tree ordered, drops just the value from its walk, and
/// changes nothing where the value is not there.
pub proof fn lemma_remove<T: Ord>(t: Link<T>, v: T)
    requires
        total_order::<T>(),
        is_bst(t),
    ensures
        is_bst(tree_remove(t, v)),
        in_order(tree_remove(t, v)) == in_order(t).filter(|x: T| x != v),
        contents(t).contains(v) ==> size(tree_remove(t, v)) + 1 == size(t),
        !contents(t).contains(v) ==> tree_remove(t, v) == t,
    decreases t, 0nat,
{
    lemma_empty::<T>();
    lemma_total_order::<T>();
    let p = |x: T| x != v;
    match t {
        None => {
            reveal(Seq::filter);
        },
        Some(n) => {
            let a = in_order(n.left);
            let b = in_order(n.right);
            lemma_contents_in_order(n.left);
            lemma_contents_in_order(n.right);
            Seq::filter_distributes_over_add(a + seq![n.value], b, p);
            Seq::filter_distributes_over_add(a, seq![n.value], p);
            lemma_filter_single(n.value, p);
            if v == n.value {
                lemma_remove_root(t);
                assert forall|i: int| 0 <= i < a.len() implies p(#[trigger] a[i]) by {
                    assert(a.contains(a[i]));
                }
                assert forall|i: int| 0 <= i < b.len() implies p(#[trigger] b[i]) by {
                    assert(b.contains(b[i]));
                }
                lemma_filter_all(a, p);
                lemma_filter_all(b, p);
                assert(in_order(tree_remove(t, v)) =~= in_order(t).filter(p));
            } else {
                lemma_remove(n.left, v);
                lemma_remove(n.right, v);
                lemma_remove_contents(n.left, v);
                lemma_remove_contents(n.right, v);
                if lt(v, n.value) {
                    assert(!contents(n.right).contains(v));
                    assert forall|i: int| 0 <= i < b.len() implies p(#[trigger] b[i]) by {
                        assert(b.contains(b[i]));
                    }
                    lemma_filter_all(b, p);
                } else {
                    assert(!contents(n.left).contains(v));
                    assert forall|i: int| 0 <= i < a.len() implies p(#[trigger] a[i]) by {
                        assert(a.contains(a[i]));
                    }
                    lemma_filter_all(a, p);
                }
                assert(in_order(tree_remove(t, v)) =~= in_order(t).filter(p));
            }
        },
    }
}

/// Removing from a search tree takes just the value out of what it holds.
pub proof fn lemma_remove_contents<T: Ord>(t: Link<T>, v: T)
    requires
        total_order::<T>(),
        is_bst(t),
    ensures
        contents(tree_remove(t, v)) == contents(t).remove(v),
    decreases t, 1nat,
{
    let p = |x: T| x != v;
    lemma_remove(t, v);
    let s = in_order(t);
    lemma_contents_in_order(t);
    lemma_contents_in_order(tree_remove(t, v));
    s.filter_lemma(p);
    assert forall|x: T| #[trigger] contents(tree_remove(t, v)).contains(x) <==> contents(t).remove(v).contains(x) by {
        if s.contains(x) && x != v {
            let i = choose|i: int| 0 <= i < s.len() && s[i] == x;
            assert(s.filter(p).contains(s[i]));
        }
        if s.filter(p).contains(x) {
            Seq::lemma_filter_contains_rev(s, p, x);
        }
    }
    assert(contents(tree_remove(t, v)) =~= contents(t).remove(v));
}

/// A tree is shallower than it has nodes.
pub proof fn lemma_height_size<T>(t: Link<T>)
    ensures
        height(t) < size(t),
    decreases t,
{
    lemma_empty::<T>();
    if let Some(n) = t {
        lemma_height_size(n.left);
        lemma_height_size(n.right);
    }
}

/// Replacing a value keeps the shape, so the size too.
pub proof fn lemma_replace_size<T: Ord>(t: Link<T>, v: T, w: T)
    ensures
        size(tree_replace(t, v, w)) == size(t),
    decreases t,
{
    if let Some(n) = t {
        lemma_replace_size(n.left, v, w);
        lemma_replace_size(n.right, v, w);
    }
}

} // verus!
