use jtree::errors::TreeError;
use jtree::BinTree;

#[test]
fn add_unique_items() {
    let mut my_tree = BinTree::new();
    assert_eq!(0, my_tree.get_size());
    assert_eq!(Ok(()), my_tree.add(5));
    assert_eq!(Ok(()), my_tree.add(3));
    assert_eq!(Ok(()), my_tree.add(7));
    assert_eq!(3, my_tree.get_size());
    assert_eq!(
        Err(TreeError::ValueAlreadyStored),
        my_tree.add(7) // can't add duplicates
    );
}

#[test]
fn bintree_add_collection() {
    let mut my_tree = BinTree::new();
    assert_eq!(Ok(()), my_tree.add_all_skipping_duplicates(vec![1, 2, 3, 4, 5]));
    assert_eq!(Ok(()), my_tree.add_all_skipping_duplicates(vec![6, 7, 8, 9, 10]));
    assert_eq!(10, my_tree.get_size());
    assert_eq!(Ok(()), my_tree.add_all_skipping_duplicates(vec![5, 10, 15, 20])); // duplicates should NOT cause a panic
    assert_eq!(12, my_tree.get_size()); // duplicates were skipped
}

#[test]
fn bintree_test_contains() {
    let mut my_tree = BinTree::new();
    assert_eq!(Ok(()), my_tree.add_all_skipping_duplicates(vec![8, 6, 7, 5, 3, 0, 9]));
    assert_eq!(7, my_tree.get_size());
    assert!(my_tree.contains(&7));
    assert!(my_tree.contains(&8));
}

#[test]
fn bintree_collect_values_l_to_r() {
    let mut my_tree = BinTree::new();
    assert_eq!(Ok(()), my_tree.add(5));
    assert_eq!(Ok(()), my_tree.add(3));
    assert_eq!(Ok(()), my_tree.add(7));
    let output = my_tree.as_vec();
    println!("{:?}", output);
    assert_eq!(vec![3, 5, 7], output);
}

#[test]
fn bintree_collect_values_r_to_l() {
    let mut my_tree = BinTree::new();
    assert_eq!(Ok(()), my_tree.add(5));
    assert_eq!(Ok(()), my_tree.add(3));
    assert_eq!(Ok(()), my_tree.add(7));
    let output = my_tree.as_vec_r_to_l();
    println!("{:?}", output);
    assert_eq!(vec![7, 5, 3], output);
}

#[test]
fn bintree_test_dropping_values() {
    // an empty tree
    let mut my_tree = BinTree::new();
    assert_eq!(0, my_tree.get_size());
    assert_eq!(Err(TreeError::ValueNotFound), my_tree.drop(1));

    // a tree with only a root node
    let mut my_tree = BinTree::new();
    let _ = my_tree.add(1);
    assert_eq!(1, my_tree.get_size());
    assert_eq!(Ok(()), my_tree.drop(1));
    assert_eq!(0, my_tree.get_size());

    // an unbalanced tree with no left branch from the root
    let mut my_tree = BinTree::new();
    let _ = my_tree.add_all_skipping_duplicates(vec![1, 2, 3]);
    assert_eq!(Some(1), my_tree.get_root_value()); // root is 1
    assert_eq!(3, my_tree.get_size());
    assert_eq!(Ok(()), my_tree.drop(1));
    assert_eq!(vec![2, 3], my_tree.as_vec_l_to_r());
    assert_eq!(2, my_tree.get_size());

    // an unbalanced tree with no right branch from the root
    let mut my_tree = BinTree::new();
    let _ = my_tree.add_all_skipping_duplicates(vec![3, 1, 2]);
    assert_eq!(Some(3), my_tree.get_root_value()); // root is 3
    assert_eq!(3, my_tree.get_size());
    assert_eq!(Ok(()), my_tree.drop(3));
    assert_eq!(vec![1, 2], my_tree.as_vec_l_to_r());
    assert_eq!(2, my_tree.get_size());

    // a tree where the root has two leaves
    let mut my_tree = BinTree::new();
    let _ = my_tree.add_all_skipping_duplicates(vec![2, 1, 3]);
    assert_eq!(Some(2), my_tree.get_root_value()); // root is 2
    assert_eq!(3, my_tree.get_size());
    assert_eq!(Ok(()), my_tree.drop(2));
    assert_eq!(vec![1, 3], my_tree.as_vec_l_to_r());
    assert_eq!(2, my_tree.get_size());

    // a tree where the root has a leaf on the left, branching node on the right
    let mut my_tree = BinTree::new();
    let _ = my_tree.add_all_skipping_duplicates(vec![2, 1, 5, 3, 7]);
    assert_eq!(Some(2), my_tree.get_root_value()); // root is 2
    assert_eq!(5, my_tree.get_size());
    assert_eq!(Ok(()), my_tree.drop(2));
    assert_eq!(vec![1, 3, 5, 7], my_tree.as_vec_l_to_r());
    assert_eq!(4, my_tree.get_size());
}
