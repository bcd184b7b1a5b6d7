use jtree::errors::TreeError;
use jtree::Jblst;

#[test]
fn add_duplicate_items() {
    let mut my_tree = Jblst::<u32>::new();
    assert_eq!(0, my_tree.get_size());
    assert_eq!(Ok(()), my_tree.add(5));
    assert_eq!(Ok(()), my_tree.add(3));
    assert_eq!(Ok(()), my_tree.add(7));
    assert_eq!(3, my_tree.get_size());
    assert_eq!(Ok(()), my_tree.add(7)); // duplicates allowed
    assert_eq!(4, my_tree.get_size());
}

#[test]
fn jblst_add_collection() {
    let mut my_tree = Jblst::new();
    assert_eq!(Ok(()), my_tree.add_all(vec![1, 2, 3, 4, 5]));
    assert_eq!(Ok(()), my_tree.add_all(vec![6, 7, 8, 9, 10]));
    assert_eq!(10, my_tree.get_size());
    assert_eq!(Ok(()), my_tree.add_all(vec![5, 10, 15, 20]));
    assert_eq!(14, my_tree.get_size()); // duplicates were included
}

#[test]
fn jblst_test_contains() {
    let mut my_tree = Jblst::new();
    assert_eq!(Ok(()), my_tree.add_all(vec![8, 6, 7, 5, 3, 0, 9]));
    assert_eq!(7, my_tree.get_size());
    assert!(my_tree.contains(&7));
    assert!(!my_tree.contains(&1));
}

#[test]
fn jblst_collect_values_l_to_r() {
    let mut my_tree = Jblst::new();
    assert_eq!(Ok(()), my_tree.add(5));
    assert_eq!(Ok(()), my_tree.add(3));
    assert_eq!(Ok(()), my_tree.add(7));
    assert_eq!(Ok(()), my_tree.add(7));
    let output = my_tree.as_vec();
    println!("{:?}", output);
    assert_eq!(vec![3, 5, 7, 7], output);
}

#[test]
fn jblst_collect_values_r_to_l() {
    let mut my_tree = Jblst::new();
    assert_eq!(Ok(()), my_tree.add(5));
    assert_eq!(Ok(()), my_tree.add(5));
    assert_eq!(Ok(()), my_tree.add(3));
    assert_eq!(Ok(()), my_tree.add(7));
    let output = my_tree.as_vec_r_to_l();
    println!("{:?}", output);
    assert_eq!(vec![7, 5, 5, 3], output);
}

#[test]
fn jblst_test_dropping_values() {
    // an empty tree
    let mut my_tree = Jblst::new();
    assert_eq!(0, my_tree.get_size());
    assert_eq!(Err(TreeError::ValueNotFound), my_tree.drop_value(1));

    // a tree with only a root node
    let mut my_tree = Jblst::new();
    let _ = my_tree.add(1);
    assert_eq!(1, my_tree.get_size());
    assert_eq!(Err(TreeError::ValueNotFound), my_tree.drop_value(4));
    assert_eq!(Ok(()), my_tree.drop_value(1));
    assert_eq!(0, my_tree.get_size());

    // an unbalanced tree with no left branch from the root
    let mut my_tree = Jblst::new();
    let _ = my_tree.add_all(vec!['A', 'B', 'C']);
    assert_eq!(Some('A'), my_tree.get_root_value()); // root is A
    assert_eq!(3, my_tree.get_size());
    assert_eq!(Err(TreeError::ValueNotFound), my_tree.drop_value('Z'));
    assert_eq!(Ok(()), my_tree.drop_value('A'));
    assert_eq!(vec!['B', 'C'], my_tree.as_vec_l_to_r());
    assert_eq!(2, my_tree.get_size());

    // an unbalanced tree with no right branch from the root
    let mut my_tree = Jblst::new();
    let _ = my_tree.add_all(vec![3, 1, 2]);
    assert_eq!(Some(3), my_tree.get_root_value()); // root is 3
    assert_eq!(3, my_tree.get_size());
    assert_eq!(Err(TreeError::ValueNotFound), my_tree.drop_value(4));
    assert_eq!(Ok(()), my_tree.drop_value(3));
    assert_eq!(vec![1, 2], my_tree.as_vec_l_to_r());
    assert_eq!(2, my_tree.get_size());

    // a tree where the root has two leaves
    let mut my_tree = Jblst::new();
    let _ = my_tree.add_all(vec![2, 1, 3]);
    assert_eq!(Some(2), my_tree.get_root_value()); // root is 2
    assert_eq!(3, my_tree.get_size());
    assert_eq!(Err(TreeError::ValueNotFound), my_tree.drop_value(4));
    assert_eq!(Ok(()), my_tree.drop_value(2));
    assert_eq!(vec![1, 3], my_tree.as_vec_l_to_r());
    assert_eq!(2, my_tree.get_size());

    // a tree where the root has a leaf on the left, branching node on the right
    let mut my_tree = Jblst::new();
    let _ = my_tree.add_all(vec![2, 1, 5, 3, 7]);
    assert_eq!(Some(2), my_tree.get_root_value()); // root is 2
    assert_eq!(5, my_tree.get_size());
    assert_eq!(Err(TreeError::ValueNotFound), my_tree.drop_value(4));
    assert_eq!(Ok(()), my_tree.drop_value(2));
    assert_eq!(vec![1, 3, 5, 7], my_tree.as_vec_l_to_r());
    assert_eq!(4, my_tree.get_size());

    // a tree where the root has branching nodes on both sides
    let mut my_tree = Jblst::new();
    let _ = my_tree.add_all(vec![5, 3, 8, 1, 2, 7, 9]);
    assert_eq!(Some(5), my_tree.get_root_value()); // root is 5
    assert_eq!(7, my_tree.get_size());
    assert_eq!(Err(TreeError::ValueNotFound), my_tree.drop_value(4));
    assert_eq!(Ok(()), my_tree.drop_value(5));
    assert_eq!(Some(7), my_tree.get_root_value()); // root is now 7
    assert_eq!(vec![1, 2, 3, 7, 8, 9], my_tree.as_vec_l_to_r());
    assert_eq!(6, my_tree.get_size());
}

#[test]
fn test_greatest_and_least() {
    let mut my_tree = Jblst::new();
    assert_eq!(None, my_tree.least_value());
    assert_eq!(None, my_tree.greatest_value());
    let _ = my_tree.add_all(vec![5, 3, 8, 1, 2, 7, 9]);
    assert_eq!(Some(1), my_tree.least_value());
    assert_eq!(Some(9), my_tree.greatest_value());
}
