use bst_rs::{BinarySearchTree, IterativeBST, RecursiveBST};

fn build_iterative(values: &[i32]) -> IterativeBST<i32> {
    let mut bst = IterativeBST::new();
    for v in values {
        bst.insert(*v);
    }
    bst
}

fn build_recursive(values: &[i32]) -> RecursiveBST<i32> {
    let mut bst = RecursiveBST::new();
    for v in values {
        bst.insert(*v);
    }
    bst
}

#[test]
fn traversal_orders_of_seven_values() {
    let values = [4, 6, 2, 7, 5, 3, 1];
    let it = build_iterative(&values);
    let rt = build_recursive(&values);
    assert_eq!(it.pre_order_vec(), vec![&4, &2, &1, &3, &6, &5, &7]);
    assert_eq!(it.in_order_vec(), vec![&1, &2, &3, &4, &5, &6, &7]);
    assert_eq!(it.post_order_vec(), vec![&1, &3, &2, &5, &7, &6, &4]);
    assert_eq!(it.level_order_vec(), vec![&4, &2, &6, &1, &3, &5, &7]);
    assert_eq!(it.height(), Some(2));
    assert_eq!(rt.pre_order_vec(), vec![&4, &2, &1, &3, &6, &5, &7]);
    assert_eq!(rt.in_order_vec(), vec![&1, &2, &3, &4, &5, &6, &7]);
    assert_eq!(rt.post_order_vec(), vec![&1, &3, &2, &5, &7, &6, &4]);
    assert_eq!(rt.level_order_vec(), vec![&4, &2, &6, &1, &3, &5, &7]);
    assert_eq!(rt.height(), Some(2));
}

#[test]
fn consuming_traversals_of_seven_values() {
    let values = [4, 6, 2, 7, 5, 3, 1];
    assert_eq!(build_iterative(&values).into_pre_order_iter().collect::<Vec<i32>>(), vec![4, 2, 1, 3, 6, 5, 7]);
    assert_eq!(build_iterative(&values).into_in_order_iter().collect::<Vec<i32>>(), vec![1, 2, 3, 4, 5, 6, 7]);
    assert_eq!(build_iterative(&values).into_post_order_iter().collect::<Vec<i32>>(), vec![1, 3, 2, 5, 7, 6, 4]);
    assert_eq!(build_iterative(&values).into_level_order_iter().collect::<Vec<i32>>(), vec![4, 2, 6, 1, 3, 5, 7]);
    assert_eq!(build_recursive(&values).into_pre_order_iter().collect::<Vec<i32>>(), vec![4, 2, 1, 3, 6, 5, 7]);
    assert_eq!(build_recursive(&values).into_in_order_iter().collect::<Vec<i32>>(), vec![1, 2, 3, 4, 5, 6, 7]);
    assert_eq!(build_recursive(&values).into_post_order_iter().collect::<Vec<i32>>(), vec![1, 3, 2, 5, 7, 6, 4]);
    assert_eq!(build_recursive(&values).into_level_order_iter().collect::<Vec<i32>>(), vec![4, 2, 6, 1, 3, 5, 7]);
    assert_eq!(build_recursive(&values).into_asc_order_iter().collect::<Vec<i32>>(), vec![1, 2, 3, 4, 5, 6, 7]);
    assert_eq!(build_iterative(&values).into_asc_order_iter().collect::<Vec<i32>>(), vec![1, 2, 3, 4, 5, 6, 7]);
}

#[test]
fn empty_tree_boundary() {
    let mut it: IterativeBST<i32> = IterativeBST::new();
    let mut rt: RecursiveBST<i32> = RecursiveBST::new();
    assert_eq!(it.min(), None);
    assert_eq!(it.max(), None);
    assert_eq!(it.height(), None);
    assert_eq!(it.retrieve(&3), None);
    assert!(it.pre_order_vec().is_empty());
    assert!(it.in_order_vec().is_empty());
    assert!(it.post_order_vec().is_empty());
    assert!(it.level_order_vec().is_empty());
    assert_eq!(it.remove_min(), None);
    assert_eq!(it.remove_max(), None);
    it.remove(&3);
    assert_eq!(it.size(), 0);
    assert_eq!(rt.min(), None);
    assert_eq!(rt.max(), None);
    assert_eq!(rt.height(), None);
    assert_eq!(rt.retrieve(&3), None);
    assert!(rt.pre_order_vec().is_empty());
    assert!(rt.in_order_vec().is_empty());
    assert!(rt.post_order_vec().is_empty());
    assert!(rt.level_order_vec().is_empty());
    assert_eq!(rt.remove_min(), None);
    assert_eq!(rt.remove_max(), None);
    rt.remove(&3);
    assert_eq!(rt.size(), 0);
}

#[test]
fn consuming_cursor_stays_exhausted() {
    let mut iter = build_iterative(&[2, 1]).into_in_order_iter();
    assert_eq!(iter.next(), Some(1));
    assert_eq!(iter.next(), Some(2));
    assert_eq!(iter.next(), None);
    assert_eq!(iter.next(), None);
    assert_eq!(iter.next(), None);
    let mut iter = build_recursive(&[2, 1]).into_level_order_iter();
    assert_eq!(iter.next(), Some(2));
    assert_eq!(iter.next(), Some(1));
    assert_eq!(iter.next(), None);
    assert_eq!(iter.next(), None);
}

#[test]
fn second_insert_of_a_value_changes_nothing() {
    let mut it = build_iterative(&[5, 3, 8]);
    it.insert(3);
    assert_eq!(it.size(), 3);
    assert!(it.contains(&3));
    assert_eq!(it.pre_order_vec(), vec![&5, &3, &8]);
    let mut rt = build_recursive(&[5, 3, 8]);
    rt.insert(3);
    rt.insert(5);
    assert_eq!(rt.size(), 3);
    assert!(rt.contains(&5));
    assert_eq!(rt.pre_order_vec(), vec![&5, &3, &8]);
}

#[test]
fn removing_a_leaf_empties_its_slot() {
    let mut it = build_iterative(&[5, 3, 8]);
    it.remove(&8);
    assert_eq!(it.size(), 2);
    assert!(!it.contains(&8));
    assert_eq!(it.pre_order_vec(), vec![&5, &3]);
    let mut rt = build_recursive(&[5, 3, 8]);
    rt.remove(&3);
    assert_eq!(rt.size(), 2);
    assert!(!rt.contains(&3));
    assert_eq!(rt.pre_order_vec(), vec![&5, &8]);
}

#[test]
fn removing_a_node_with_one_child_lifts_the_child() {
    let mut it = build_iterative(&[5, 3, 8, 9, 10]);
    it.remove(&8);
    assert_eq!(it.pre_order_vec(), vec![&5, &3, &9, &10]);
    assert_eq!(it.height(), Some(2));
    let mut rt = build_recursive(&[5, 3, 8, 2, 1]);
    rt.remove(&3);
    assert_eq!(rt.pre_order_vec(), vec![&5, &2, &1, &8]);
}

#[test]
fn removing_a_node_with_two_children_takes_its_successor() {
    let values = [10, 5, 15, 3, 8, 6, 9, 7];
    let mut it = build_iterative(&values);
    it.remove(&5);
    assert_eq!(it.pre_order_vec(), vec![&10, &6, &3, &8, &7, &9, &15]);
    assert_eq!(it.in_order_vec(), vec![&3, &6, &7, &8, &9, &10, &15]);
    assert_eq!(it.size(), 7);
    let mut rt = build_recursive(&values);
    rt.remove(&5);
    assert_eq!(rt.pre_order_vec(), vec![&10, &6, &3, &8, &7, &9, &15]);
    assert_eq!(rt.size(), 7);
}

#[test]
fn building_sorts_and_drops_repeats() {
    let values = vec![9, -3, 4, 9, 0, -3, 12, 4];
    let it = IterativeBST::from(values.clone());
    let rt = RecursiveBST::from(values);
    assert_eq!(it.asc_order_vec(), vec![&-3, &0, &4, &9, &12]);
    assert_eq!(rt.asc_order_vec(), vec![&-3, &0, &4, &9, &12]);
    assert_eq!(it.size(), 5);
    assert_eq!(rt.size(), 5);
}

#[test]
fn strategies_agree_after_the_same_changes() {
    let mut it = IterativeBST::new();
    let mut rt = RecursiveBST::new();
    for v in [50, 30, 70, 20, 40, 60, 80, 35, 45, 65] {
        it.insert(v);
        rt.insert(v);
    }
    it.remove(&30);
    rt.remove(&30);
    assert_eq!(it.remove_min(), rt.remove_min());
    assert_eq!(it.remove_max(), rt.remove_max());
    it.insert(33);
    rt.insert(33);
    assert_eq!(it.pre_order_vec(), rt.pre_order_vec());
    assert_eq!(it.in_order_vec(), rt.in_order_vec());
    assert_eq!(it.post_order_vec(), rt.post_order_vec());
    assert_eq!(it.level_order_vec(), rt.level_order_vec());
    assert_eq!(it.height(), rt.height());
    assert_eq!(it.pre_order_vec(), vec![&50, &35, &33, &40, &45, &70, &60, &65]);
}

#[test]
fn degenerate_chain_height() {
    let values: Vec<i32> = (1..=50).collect();
    let it = build_iterative(&values);
    let rt = build_recursive(&values);
    assert_eq!(it.height(), Some(49));
    assert_eq!(rt.height(), Some(49));
    assert_eq!(it.level_order_vec().len(), 50);
    assert_eq!(rt.max(), Some(&50));
    assert_eq!(it.min(), Some(&1));
}

#[test]
fn clone_keeps_shape_and_values() {
    let it = build_iterative(&[4, 2, 6, 1]);
    let copy = it.clone();
    assert_eq!(copy.pre_order_vec(), vec![&4, &2, &1, &6]);
    assert_eq!(copy.size(), 4);
    let rt = build_recursive(&[4, 2, 6, 1]);
    let copy = rt.clone();
    assert_eq!(copy.level_order_vec(), vec![&4, &2, &6, &1]);
}

#[test]
fn equality_ignores_shape() {
    let a = build_iterative(&[1, 2, 3]);
    let b = build_iterative(&[2, 1, 3]);
    assert_eq!(a, b);
    assert_ne!(a, build_iterative(&[1, 2]));
    let c = build_recursive(&[3, 2, 1]);
    let d = build_recursive(&[2, 3, 1]);
    assert_eq!(c, d);
    assert_eq!(IterativeBST::<i32>::default(), IterativeBST::new());
    assert_eq!(RecursiveBST::<i32>::default().size(), 0);
}

#[test]
fn retrieved_value_changes_in_place() {
    let mut it = build_iterative(&[10, 5, 20]);
    if let Some(v) = it.retrieve_as_mut(&20) {
        *v = 25;
    }
    assert_eq!(it.pre_order_vec(), vec![&10, &5, &25]);
    assert_eq!(it.retrieve_as_mut(&99), None);
    let mut rt = build_recursive(&[10, 5, 20]);
    if let Some(v) = rt.retrieve_as_mut(&5) {
        *v = 7;
    }
    assert_eq!(rt.in_order_vec(), vec![&7, &10, &20]);
    assert_eq!(rt.retrieve(&7), Some(&7));
}
