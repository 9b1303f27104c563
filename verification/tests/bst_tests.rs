use parity_cache::bst::BinarySearchTree;

#[test]
fn smoke() {
    let mut tree = BinarySearchTree::default();
    tree.set(1, 1);
    tree.set(0, 0);
    tree.set(3, 3);
    assert_eq!(Some(&1), tree.get(&1));
    assert_eq!(Some(1), tree.delete(&1));
}

#[test]
fn iter_smoke() {
    let mut tree = BinarySearchTree::default();
    tree.set(1, 1);
    tree.set(0, 0);
    tree.set(3, 3);
    let mut pre_keys = Vec::new();
    let mut it = tree.preorder_iter();
    while let Some((k, _)) = it.next() {
        pre_keys.push(k);
    }
    assert_eq!(&pre_keys, &[1, 0, 3]);
    let mut in_keys = Vec::new();
    let mut it = tree.inorder_iter();
    while let Some((k, _)) = it.next() {
        in_keys.push(k);
    }
    assert_eq!(&in_keys, &[0, 1, 3]);
}

#[test]
fn get_and_delete_miss_are_quiet() {
    let mut tree: BinarySearchTree<i32> = BinarySearchTree::default();
    assert_eq!(tree.get(&7), None);
    assert_eq!(tree.delete(&7), None);
    tree.set(7, 70);
    assert_eq!(tree.get(&8), None);
    assert_eq!(tree.delete(&8), None);
    assert_eq!(tree.get(&7), Some(&70));
}

#[test]
fn set_returns_previous_value_on_update() {
    let mut tree = BinarySearchTree::default();
    assert_eq!(tree.set(5, 50), None);
    assert_eq!(tree.set(5, 55), Some(50));
    assert_eq!(tree.get(&5), Some(&55));
}

#[test]
fn delete_with_two_children_splices_successor() {
    let mut tree = BinarySearchTree::default();
    for &(k, v) in &[(5, 50), (3, 30), (8, 80), (7, 70), (9, 90), (6, 60)] {
        tree.set(k, v);
    }
    assert_eq!(tree.delete(&8), Some(80));
    assert_eq!(tree.get(&8), None);
    let mut keys = Vec::new();
    let mut it = tree.inorder_iter();
    while let Some((k, _)) = it.next() {
        keys.push(k);
    }
    assert_eq!(keys, vec![3, 5, 6, 7, 9]);
}

#[test]
fn delete_root_promotes_correctly() {
    let mut tree = BinarySearchTree::default();
    tree.set(2, 20);
    tree.set(1, 10);
    tree.set(3, 30);
    assert_eq!(tree.delete(&2), Some(20));
    let mut keys = Vec::new();
    let mut it = tree.inorder_iter();
    while let Some((k, _)) = it.next() {
        keys.push(k);
    }
    assert_eq!(keys, vec![1, 3]);
    let mut it = tree.preorder_iter();
    let first = it.next().unwrap();
    assert_eq!(first.0, 3);
}

#[test]
fn inorder_ascending_whatever_the_insertion_order() {
    let mut tree = BinarySearchTree::default();
    for &k in &[13usize, 2, 11, 5, 3, 17, 7] {
        tree.set(k, k as i32);
    }
    let mut keys = Vec::new();
    let mut it = tree.inorder_iter();
    while let Some((k, _)) = it.next() {
        keys.push(k);
    }
    assert_eq!(keys, vec![2, 3, 5, 7, 11, 13, 17]);
}

#[test]
fn traversals_are_restartable() {
    let mut tree = BinarySearchTree::default();
    tree.set(4, 4);
    tree.set(2, 2);
    let mut first = Vec::new();
    let mut it = tree.inorder_iter();
    while let Some((k, _)) = it.next() {
        first.push(k);
    }
    let mut again = Vec::new();
    let mut it = tree.inorder_iter();
    while let Some((k, _)) = it.next() {
        again.push(k);
    }
    assert_eq!(first, again);
}

#[test]
fn get_mut_updates_in_place() {
    let mut tree = BinarySearchTree::default();
    tree.set(2, 20);
    tree.set(1, 10);
    if let Some(v) = tree.get_mut(&2) {
        *v = 25;
    }
    assert_eq!(tree.get(&2), Some(&25));
    assert!(tree.get_mut(&9).is_none());
    assert_eq!(tree.get(&1), Some(&10));
}
