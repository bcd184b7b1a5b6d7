use jtree::errors::TreeError;
use jtree::Javlt;

#[test]
fn do_left_left_rebalance() {
    let mut my_tree = Javlt::<u32>::new();
    assert_eq!(0, my_tree.get_size());
    assert_eq!(Ok(()), my_tree.add(5));
    assert_eq!(Ok(()), my_tree.add(3));
    assert_eq!(Some(5), my_tree.get_root_value());
    assert_eq!(Ok(()), my_tree.add(1));
    // this results in a Left Left unbalanced tree; it should automatically be rebalanced so 3 instead of 5 is the root
    assert_eq!(Some(3), my_tree.get_root_value());
    assert_eq!(2, my_tree.get_root_height());
    assert_eq!(0, my_tree.get_root_balancing_factor());

    assert_eq!(3, my_tree.get_size());
    assert_eq!(
        Err(TreeError::ValueAlreadyStored),
        my_tree.add(5) // can't add duplicates
    );
}

#[test]
fn do_right_right_rebalance() {
    let mut my_tree = Javlt::<u32>::new();
    assert_eq!(0, my_tree.get_size());
    assert_eq!(Ok(()), my_tree.add(2));
    assert_eq!(Ok(()), my_tree.add(4));
    assert_eq!(Some(2), my_tree.get_root_value());
    assert_eq!(Ok(()), my_tree.add(6));
    // this results in a Right Right unbalanced tree; it should automatically be rebalanced so 4 instead of 2 is the root
    assert_eq!(Some(4), my_tree.get_root_value());
    assert_eq!(2, my_tree.get_root_height());
    assert_eq!(0, my_tree.get_root_balancing_factor());

    assert_eq!(3, my_tree.get_size());
    assert_eq!(
        Err(TreeError::ValueAlreadyStored),
        my_tree.add(4) // can't add duplicates
    );
}

#[test]
fn do_right_left_rebalance() {
    let mut my_tree = Javlt::<u32>::new();
    assert_eq!(0, my_tree.get_size());
    assert_eq!(Ok(()), my_tree.add(2));
    assert_eq!(Ok(()), my_tree.add(1));
    assert_eq!(Ok(()), my_tree.add(6));
    assert_eq!(Ok(()), my_tree.add(4));
    assert_eq!(Ok(()), my_tree.add(7));
    assert_eq!(Some(2), my_tree.get_root_value());
    assert_eq!(Ok(()), my_tree.add(3));
    // this results in a Right Left unbalanced tree; it should automatically be rebalanced so 4 instead of 2 is the root
    assert_eq!(Some(4), my_tree.get_root_value());
    assert_eq!(3, my_tree.get_root_height());
    assert_eq!(0, my_tree.get_root_balancing_factor());

    assert_eq!(6, my_tree.get_size());
    assert_eq!(
        Err(TreeError::ValueAlreadyStored),
        my_tree.add(7) // can't add duplicates
    );
}

#[test]
fn do_left_right_rebalance() {
    let mut my_tree = Javlt::<u32>::new();
    assert_eq!(0, my_tree.get_size());
    assert_eq!(Ok(()), my_tree.add(6));
    assert_eq!(Ok(()), my_tree.add(3));
    assert_eq!(Ok(()), my_tree.add(7));
    assert_eq!(Ok(()), my_tree.add(2));
    assert_eq!(Ok(()), my_tree.add(4));
    assert_eq!(Some(6), my_tree.get_root_value());
    assert_eq!(Ok(()), my_tree.add(5));
    // this results in a Left Right unbalanced tree; it should automatically be rebalanced so 4 instead of 6 is the root
    assert_eq!(Some(4), my_tree.get_root_value());
    assert_eq!(3, my_tree.get_root_height());
    assert_eq!(0, my_tree.get_root_balancing_factor());

    assert_eq!(6, my_tree.get_size());
    assert_eq!(
        Err(TreeError::ValueAlreadyStored),
        my_tree.add(7) // can't add duplicates
    );
}

#[test]
fn add_collection() {
    let mut my_tree = Javlt::new();
    assert_eq!(Ok(()), my_tree.add_all_skipping_duplicates(vec![1, 2, 3, 4, 5]));
    assert_eq!(Ok(()), my_tree.add_all(vec![6, 7, 8, 9, 10])); // alias for add_all_skipping_duplicates
    assert_eq!(10, my_tree.get_size());
    assert_eq!(Ok(()), my_tree.add_all_skipping_duplicates(vec![5, 10, 15, 20])); // duplicates should NOT cause a panic
    assert_eq!(12, my_tree.get_size()); // duplicates were skipped
}

#[test]
fn test_contains() {
    let mut my_tree: Javlt<i32> = Javlt::new();
    assert_eq!(Ok(()), my_tree.add_all_skipping_duplicates(vec![8, 6, 7, 5, 3, 0, 9]));
    assert_eq!(7, my_tree.get_size());
    assert!(my_tree.contains(&7));
    assert!(my_tree.contains(&8));
}

#[test]
fn collect_values_l_to_r() {
    let mut my_tree = Javlt::new();
    assert_eq!(Ok(()), my_tree.add_all_skipping_duplicates(vec![6, 3, 7, 2, 4, 5])); // this sequence should trigger a rebalance
    let output = my_tree.as_vec();
    println!("{:?}", output);
    assert_eq!(vec![2, 3, 4, 5, 6, 7], output);
}

#[test]
fn collect_values_r_to_l() {
    let mut my_tree = Javlt::new();
    assert_eq!(Ok(()), my_tree.add_all_skipping_duplicates(vec![2, 1, 6, 4, 7, 3])); // this sequence should trigger a rebalance
    let output = my_tree.as_vec_r_to_l();
    println!("{:?}", output);
    assert_eq!(vec![7, 6, 4, 3, 2, 1], output);
}

#[test]
fn test_dropping_values() {
    // an empty tree
    let mut my_tree = Javlt::new();
    assert_eq!(0, my_tree.get_size());
    assert_eq!(Err(TreeError::ValueNotFound), my_tree.drop_value(1));

    // a tree with only a root node
    let mut my_tree = Javlt::new();
    let _ = my_tree.add(1);
    assert_eq!(1, my_tree.get_size());
    assert_eq!(Err(TreeError::ValueNotFound), my_tree.drop_value(4));
    assert_eq!(Ok(()), my_tree.drop_value(1));
    assert_eq!(0, my_tree.get_size());

    // an unbalanced tree with no left branch from the root
    let mut my_tree = Javlt::new();
    let _ = my_tree.add_all_skipping_duplicates(vec!['A', 'B', 'C']);
    assert_eq!(Some('B'), my_tree.get_root_value()); // root is B because of right right rebalancing
    assert_eq!(3, my_tree.get_size());
    assert_eq!(Err(TreeError::ValueNotFound), my_tree.drop_value('Z'));
    assert_eq!(Ok(()), my_tree.drop_value('A'));
    assert_eq!(vec!['B', 'C'], my_tree.as_vec_l_to_r());
    assert_eq!(2, my_tree.get_size());

    // an unbalanced tree with no right branch from the root
    let mut my_tree = Javlt::new();
    let _ = my_tree.add_all_skipping_duplicates(vec![3, 1, 2]);
    assert_eq!(Some(2), my_tree.get_root_value()); // root is 2 because of left right rebalancing
    assert_eq!(3, my_tree.get_size());
    assert_eq!(Err(TreeError::ValueNotFound), my_tree.drop_value(4));
    assert_eq!(Ok(()), my_tree.drop_value(3));
    assert_eq!(vec![1, 2], my_tree.as_vec_l_to_r());
    assert_eq!(2, my_tree.get_size());

    // a tree where the root has two leaves
    let mut my_tree = Javlt::new();
    let _ = my_tree.add_all_skipping_duplicates(vec![2, 1, 3]);
    assert_eq!(Some(2), my_tree.get_root_value()); // root is 2
    assert_eq!(3, my_tree.get_size());
    assert_eq!(Err(TreeError::ValueNotFound), my_tree.drop_value(4));
    assert_eq!(Ok(()), my_tree.drop_value(2));
    assert_eq!(vec![1, 3], my_tree.as_vec_l_to_r());
    assert_eq!(2, my_tree.get_size());

    // a tree where the root has a leaf on the left, branching node on the right
    let mut my_tree = Javlt::new();
    let _ = my_tree.add_all_skipping_duplicates(vec![2, 1, 5, 3, 7]);
    assert_eq!(Some(2), my_tree.get_root_value()); // root is 2
    assert_eq!(5, my_tree.get_size());
    assert_eq!(Err(TreeError::ValueNotFound), my_tree.drop_value(4));
    assert_eq!(Ok(()), my_tree.drop_value(2));
    assert_eq!(vec![1, 3, 5, 7], my_tree.as_vec_l_to_r());
    assert_eq!(4, my_tree.get_size());

    // a tree where the root has branching nodes on both sides
    let mut my_tree: Javlt<i32> = Javlt::new();
    let _ = my_tree.add_all_skipping_duplicates(vec![5, 3, 8, 1, 2, 7, 9]);
    assert_eq!(Some(5), my_tree.get_root_value()); // root is 5
    assert_eq!(7, my_tree.get_size());
    assert_eq!(Err(TreeError::ValueNotFound), my_tree.drop_value(4));
    assert!(my_tree.contains(&5));
    assert_eq!(Ok(()), my_tree.drop_value(5));
    assert!(!my_tree.contains(&5));
    assert_eq!(Some(7), my_tree.get_root_value()); // root is now 7
    assert_eq!(vec![1, 2, 3, 7, 8, 9], my_tree.as_vec_l_to_r());
    assert_eq!(6, my_tree.get_size());

    // this one should rebalance after the deletion
    let mut my_tree = Javlt::from_collection(vec![2, 1, 6, 0, 4, 7, 3, 5]);
    assert_eq!(Some(2), my_tree.get_root_value());
    assert_eq!(4, my_tree.get_root_height());
    assert_eq!(Ok(()), my_tree.drop_value(0)); // this should trigger a rebalance
    assert_eq!(Some(4), my_tree.get_root_value());
    assert_eq!(3, my_tree.get_root_height());
    assert_eq!(7, my_tree.get_size());
    assert!(!my_tree.contains(&0));
}
