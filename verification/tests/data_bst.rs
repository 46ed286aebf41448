use padd::data::bst::{AVLTree, BinarySearchTree};

#[test]
fn avl_empty_search() {
    let tree: AVLTree<usize, ()> = AVLTree::new();

    let node = tree.search(&4);

    assert!(node.is_none());
}

#[test]
fn avl_empty_search_mut() {
    let mut tree: AVLTree<usize, ()> = AVLTree::new();

    let node = tree.search_mut(&4);

    assert!(node.is_none());
}

#[test]
fn avl_insert_search_simple() {
    let mut tree: AVLTree<usize, &str> = AVLTree::new();

    tree.insert(2, "a");
    tree.insert(1, "b");
    tree.insert(3, "c");

    assert_eq!(tree.search(&1), Some(&"b"));
    assert_eq!(tree.search(&2), Some(&"a"));
    assert_eq!(tree.search(&3), Some(&"c"));
}

#[test]
fn avl_insert_search_complex() {
    let mut tree: AVLTree<usize, usize> = AVLTree::new();

    tree.insert(1, 1);
    tree.insert(2, 2);
    tree.insert(3, 3);
    tree.insert(4, 4);
    tree.insert(5, 5);
    tree.insert(6, 6);
    tree.insert(256, 256);
    tree.insert(0, 0);
    tree.insert(11, 11);
    tree.insert(7, 7);
    tree.insert(15, 15);
    tree.insert(14, 14);
    tree.insert(13, 13);
    tree.insert(12, 12);
    tree.insert(99, 99);
    tree.insert(100, 100);

    assert_eq!(tree.search(&1), Some(&1));
    assert_eq!(tree.search(&2), Some(&2));
    assert_eq!(tree.search(&3), Some(&3));
    assert_eq!(tree.search(&4), Some(&4));
    assert_eq!(tree.search(&5), Some(&5));
    assert_eq!(tree.search(&6), Some(&6));
    assert_eq!(tree.search(&256), Some(&256));
    assert_eq!(tree.search(&0), Some(&0));
    assert_eq!(tree.search(&11), Some(&11));
    assert_eq!(tree.search(&7), Some(&7));
    assert_eq!(tree.search(&15), Some(&15));
    assert_eq!(tree.search(&14), Some(&14));
    assert_eq!(tree.search(&13), Some(&13));
    assert_eq!(tree.search(&12), Some(&12));
    assert_eq!(tree.search(&99), Some(&99));
    assert_eq!(tree.search(&100), Some(&100));
}

#[test]
fn avl_insert_search_complex_mut() {
    let mut tree: AVLTree<usize, usize> = AVLTree::new();

    tree.insert(1, 1);
    tree.insert(2, 2);
    tree.insert(3, 3);
    tree.insert(4, 4);
    tree.insert(5, 5);
    tree.insert(6, 6);
    tree.insert(256, 256);
    tree.insert(0, 0);
    tree.insert(11, 11);
    tree.insert(7, 7);
    tree.insert(15, 15);
    tree.insert(14, 14);
    tree.insert(13, 13);
    tree.insert(12, 12);
    tree.insert(99, 99);
    tree.insert(100, 100);

    assert_eq!(tree.search_mut(&1), Some(&mut 1));
    assert_eq!(tree.search_mut(&2), Some(&mut 2));
    assert_eq!(tree.search_mut(&3), Some(&mut 3));
    assert_eq!(tree.search_mut(&4), Some(&mut 4));
    assert_eq!(tree.search_mut(&5), Some(&mut 5));
    assert_eq!(tree.search_mut(&6), Some(&mut 6));
    assert_eq!(tree.search_mut(&256), Some(&mut 256));
    assert_eq!(tree.search_mut(&0), Some(&mut 0));
    assert_eq!(tree.search_mut(&11), Some(&mut 11));
    assert_eq!(tree.search_mut(&7), Some(&mut 7));
    assert_eq!(tree.search_mut(&15), Some(&mut 15));
    assert_eq!(tree.search_mut(&14), Some(&mut 14));
    assert_eq!(tree.search_mut(&13), Some(&mut 13));
    assert_eq!(tree.search_mut(&12), Some(&mut 12));
    assert_eq!(tree.search_mut(&99), Some(&mut 99));
    assert_eq!(tree.search_mut(&100), Some(&mut 100));
}

#[test]
fn avl_insert_duplicates() {
    let mut tree: AVLTree<usize, &str> = AVLTree::new();

    tree.insert(1, "a");
    tree.insert(1, "b");

    assert_eq!(tree.search(&1), Some(&"a"));
}

#[test]
fn avl_search_missing() {
    let mut tree: AVLTree<usize, ()> = AVLTree::new();
    tree.insert(1, ());
    tree.insert(2, ());
    tree.insert(3, ());
    tree.insert(5, ());

    assert_eq!(tree.search(&0), None);
    assert_eq!(tree.search(&4), None);
    assert_eq!(tree.search(&6), None);
}

#[test]
fn avl_search_for_update() {
    let mut tree: AVLTree<usize, &str> = AVLTree::new();
    tree.insert(1, "original text");

    *tree.search_mut(&1).unwrap() = "new text";

    assert_eq!(tree.search(&1), Some(&"new text"));
}
