use bst::tree::BST;

#[test]
fn test_insert10() {
    let data: [u64; 10] = [3, 7, 2, 3, 7, 1, 4, 7, 11, 6];
    let mut bst = BST::new();
    for &i in data.iter() {
        bst.insert(i, i);
    }
    if let Some((i, _)) = bst.minimum() {
        assert!(i == 1, "minimum failed: wrong value");
    } else {
        panic!("minimum failed: no minimum");
    }
    if let Some((i, _)) = bst.maximum() {
        assert!(i == 11, "maximum failed: wrong value");
    } else {
        panic!("maximum failed: no maximum");
    }

    for &i in data.iter() {
        assert!(bst.search(i).is_some());
    }
    assert!(bst.search(69).is_none());
}

#[test]
fn test_empty() {
    let bst: BST<u8> = BST::new();
    assert!(bst.minimum().is_none());
    assert!(bst.maximum().is_none());
    assert!(bst.search(5).is_none());
}

#[test]
fn test_inorder() {
    let data: [u64; 10] = [4, 9, 8, 6, 0, 5, 1, 7, 2, 3];
    let mut bst = BST::new();
    for &i in data.iter() {
        bst.insert(i, i);
    }

    let mut v = vec![];
    for p in bst.inorder().iter() {
        v.push(p.0);
    }

    assert_eq!(v, [0, 1, 2, 3, 4, 5, 6, 7, 8, 9]);
}

#[test]
fn inorder_keys_sorted_with_duplicates() {
    let data: [u64; 10] = [3, 7, 2, 3, 7, 1, 4, 7, 11, 6];
    let mut bst = BST::new();
    for &i in data.iter() {
        bst.insert(i, i);
    }
    let mut keys = vec![];
    for p in bst.inorder().iter() {
        keys.push(p.0);
    }
    assert_eq!(keys, [1, 2, 3, 3, 4, 6, 7, 7, 7, 11]);
}

#[test]
fn duplicates_contiguous_in_insertion_order() {
    let mut bst = BST::new();
    bst.insert(5, 1);
    bst.insert(3, 0);
    bst.insert(9, 9);
    bst.insert(5, 2);
    bst.insert(5, 3);
    let v = bst.inorder();
    assert_eq!(v, vec![(3, 0), (5, 1), (5, 2), (5, 3), (9, 9)]);
}

#[test]
fn traversal_repeats_identically() {
    let data: [u64; 7] = [8, 3, 10, 1, 6, 14, 6];
    let mut bst = BST::new();
    for &i in data.iter() {
        bst.insert(i, i * 2);
    }
    let first = bst.inorder();
    let second = bst.inorder();
    assert_eq!(first, second);
}

#[test]
fn search_returns_stored_value() {
    let mut bst = BST::new();
    bst.insert(20, "twenty");
    bst.insert(10, "ten");
    bst.insert(30, "thirty");
    assert_eq!(bst.search(10), Some(&"ten"));
    assert_eq!(bst.search(20), Some(&"twenty"));
    assert_eq!(bst.search(30), Some(&"thirty"));
    assert_eq!(bst.search(25), None);
}

#[test]
fn minimum_and_maximum_of_single_entry() {
    let mut bst = BST::new();
    bst.insert(42, 'a');
    assert_eq!(bst.minimum(), Some((42, &'a')));
    assert_eq!(bst.maximum(), Some((42, &'a')));
}

#[test]
fn minimum_and_maximum_among_duplicates() {
    let mut bst = BST::new();
    bst.insert(2, 'x');
    bst.insert(2, 'y');
    bst.insert(7, 'p');
    bst.insert(7, 'q');
    // The leftmost entry is the earliest duplicate of the least key, the
    // rightmost the latest duplicate of the greatest key.
    assert_eq!(bst.minimum(), Some((2, &'x')));
    assert_eq!(bst.maximum(), Some((7, &'q')));
}

#[test]
fn inorder_of_empty_tree_is_empty() {
    let bst: BST<u64> = BST::new();
    assert!(bst.inorder().is_empty());
}

#[test]
fn search_finds_keys_inserted_in_sorted_order() {
    // A degenerate, list-shaped tree still answers lookups correctly.
    let mut bst = BST::new();
    for i in 0u64..50 {
        bst.insert(i, i + 100);
    }
    for i in 0u64..50 {
        assert_eq!(bst.search(i), Some(&(i + 100)));
    }
    assert!(bst.search(50).is_none());
}
