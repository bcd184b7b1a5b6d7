use jtree::errors::TreeError;
use jtree::{BinTree, Javlt, Jblst, Jbst};

fn is_strictly_ascending<T: PartialOrd>(v: &[T]) -> bool {
    v.windows(2).all(|w| w[0] < w[1])
}

#[test]
fn invariants_hold_after_every_change() {
    let mut tree: Javlt<i32> = Javlt::new();
    let inserts = vec![50, 20, 80, 10, 30, 70, 90, 25, 27, 26, 5, 1, 95, 99, 98];
    for v in inserts.iter() {
        assert_eq!(Ok(()), tree.add(*v));
        assert!(is_strictly_ascending(&tree.as_vec()));
        let bf = tree.get_root_balancing_factor();
        assert!((-1..=1).contains(&bf));
    }
    for v in [20, 99, 50, 1, 26, 80].iter() {
        assert_eq!(Ok(()), tree.drop_value(*v));
        assert!(is_strictly_ascending(&tree.as_vec()));
        let bf = tree.get_root_balancing_factor();
        assert!((-1..=1).contains(&bf));
    }
    assert_eq!(vec![5, 10, 25, 27, 30, 70, 90, 95, 98], tree.as_vec());
}

#[test]
fn sequential_inserts_stay_logarithmic() {
    let mut tree = Javlt::<u32>::new();
    for v in 1..=1023u32 {
        assert_eq!(Ok(()), tree.add(v));
    }
    assert_eq!(1023, tree.get_size());
    assert_eq!(10, tree.get_root_height());
    assert_eq!(0, tree.get_root_balancing_factor());
    assert_eq!((1..=1023u32).collect::<Vec<u32>>(), tree.as_vec());
}

#[test]
fn membership_round_trip() {
    let mut tree = Javlt::<u64>::new();
    let _ = tree.add_all(vec![4, 8, 15, 16, 23, 42]);
    assert_eq!(Ok(()), tree.drop_value(15));
    assert_eq!(Ok(()), tree.drop_value(42));
    assert_eq!(Ok(()), tree.add(42));
    for v in [4u64, 8, 16, 23, 42].iter() {
        assert!(tree.contains(v));
    }
    for v in [15u64, 0, 7, 100].iter() {
        assert!(!tree.contains(v));
    }
}

#[test]
fn size_counts_successful_changes() {
    let mut tree = Javlt::<i64>::new();
    assert_eq!(Ok(()), tree.add(1));
    assert_eq!(Ok(()), tree.add(2));
    assert_eq!(Ok(()), tree.add(3));
    assert_eq!(Err(TreeError::ValueAlreadyStored), tree.add(2));
    assert_eq!(Ok(()), tree.drop_value(1));
    assert_eq!(Err(TreeError::ValueNotFound), tree.drop_value(1));
    assert_eq!(Ok(()), tree.add(4));
    // four successful inserts, one successful drop
    assert_eq!(3, tree.get_size());
}

#[test]
fn duplicate_rejected_once_added() {
    let mut tree = Javlt::<u32>::new();
    let _ = tree.add_all(vec![10, 20]);
    assert_eq!(Ok(()), tree.add(15));
    assert_eq!(Err(TreeError::ValueAlreadyStored), tree.add(15));
    assert_eq!(3, tree.get_size());
    assert_eq!(vec![10, 15, 20], tree.as_vec());
}

#[test]
fn deleting_from_empty_or_absent_changes_nothing() {
    let mut empty = Javlt::<u32>::new();
    assert_eq!(Err(TreeError::ValueNotFound), empty.drop_value(3));
    assert_eq!(0, empty.get_size());
    assert_eq!(Vec::<u32>::new(), empty.as_vec());
    assert_eq!(None, empty.get_root_value());
    assert_eq!(0, empty.get_root_height());

    let mut tree = Javlt::from_collection(vec![3u32, 1, 2]);
    let before = tree.as_vec();
    assert_eq!(Err(TreeError::ValueNotFound), tree.drop_value(7));
    assert_eq!(3, tree.get_size());
    assert_eq!(before, tree.as_vec());
    assert_eq!(Some(2), tree.get_root_value());
}

#[test]
fn deletion_rotation_with_even_child() {
    // dropping 1 leaves the root two levels right-heavy over a child that
    // leans neither way: one left rotation brings 4 up
    let mut tree = Javlt::from_collection(vec![2u32, 1, 4, 3, 5]);
    assert_eq!(Some(2), tree.get_root_value());
    assert_eq!(Ok(()), tree.drop_value(1));
    assert_eq!(Some(4), tree.get_root_value());
    assert_eq!(3, tree.get_root_height());
    assert_eq!(-1, tree.get_root_balancing_factor());
    assert_eq!(vec![2, 3, 4, 5], tree.as_vec());
}

#[test]
fn least_and_greatest_of_avl_tree() {
    let mut tree: Javlt<i32> = Javlt::new();
    assert_eq!(None, tree.least_value());
    assert_eq!(None, tree.greatest_value());
    let _ = tree.add_all(vec![-5, 3, -10, 7, 0]);
    assert_eq!(Some(-10), tree.least_value());
    assert_eq!(Some(7), tree.greatest_value());
    assert_eq!(vec![7, 3, 0, -5, -10], tree.as_vec_r_to_l());
}

#[test]
fn chars_are_ordered_by_code_point() {
    let tree = Javlt::from_collection(vec!['q', 'Z', 'a', 'z', 'A']);
    assert_eq!(vec!['A', 'Z', 'a', 'q', 'z'], tree.as_vec());
    assert_eq!(Some('A'), tree.least_value());
    assert_eq!(Some('z'), tree.greatest_value());
}

#[test]
fn bst_from_collection_is_a_set() {
    let tree_b = Jbst::from_collection(vec![1, 1, 2, 3, 5]);
    assert_eq!(vec![1, 2, 3, 5], tree_b.as_vec());
    assert!(tree_b.contains(&5));
    assert_eq!(4, tree_b.get_size());
    let empty = Jbst::default();
    assert_eq!(0, empty.get_size());
}

#[test]
fn counting_tree_from_collection_keeps_repeats() {
    let tree_b = Jblst::from_collection(vec![3, 3, 2, 2, 1, 1]);
    assert_eq!(vec![1, 1, 2, 2, 3, 3], tree_b.as_vec());
    assert!(tree_b.contains(&2));
    assert_eq!(6, tree_b.get_size());
}

#[test]
fn counting_tree_drops_one_copy_at_a_time() {
    let mut tree = Jblst::<u32>::new();
    let _ = tree.add_all(vec![4, 4, 4]);
    assert_eq!(Ok(()), tree.drop_value(4));
    assert_eq!(vec![4, 4], tree.as_vec());
    assert_eq!(Ok(()), tree.drop_value(4));
    assert_eq!(Ok(()), tree.drop_value(4));
    assert_eq!(Err(TreeError::ValueNotFound), tree.drop_value(4));
    assert_eq!(0, tree.get_size());
}

#[test]
fn counting_tree_successor_keeps_its_count() {
    let mut tree = Jblst::<u32>::new();
    let _ = tree.add_all(vec![5, 3, 8, 7, 7, 9]);
    assert_eq!(Ok(()), tree.drop_value(5));
    assert_eq!(Some(7), tree.get_root_value());
    assert_eq!(vec![3, 7, 7, 8, 9], tree.as_vec());
    assert_eq!(5, tree.get_size());
    assert_eq!(Ok(()), tree.drop_value(7));
    assert_eq!(vec![3, 7, 8, 9], tree.as_vec());
    assert_eq!(Ok(()), tree.drop_value(7));
    assert!(!tree.contains(&7));
    assert_eq!(vec![3, 8, 9], tree.as_vec());
}

#[test]
fn plain_tree_drops_values_below_the_root() {
    let mut tree = BinTree::new();
    let _ = tree.add_all_skipping_duplicates(vec![5, 3, 8, 1, 4]);
    assert_eq!(Ok(()), tree.drop(3));
    assert_eq!(vec![1, 4, 5, 8], tree.as_vec());
    assert_eq!(Err(TreeError::ValueNotFound), tree.drop(3));
    assert_eq!(4, tree.get_size());
    assert!(!tree.contains(&3));
    let empty = BinTree::default();
    assert_eq!(0, empty.get_size());
}

#[test]
fn error_descriptions() {
    assert_eq!(
        "Caller attempted to add a duplicate value to a tree that only accepts unique values.",
        TreeError::ValueAlreadyStored.description()
    );
    assert_eq!(
        "Specified value was not found in the tree.",
        TreeError::ValueNotFound.description()
    );
}

#[test]
fn deletion_rotates_once_over_an_even_right_child() {
    let mut tree = Javlt::from_collection(vec![3u32, 2, 8, 1, 5, 10, 4, 11]);
    assert_eq!(Some(3), tree.get_root_value());
    assert_eq!(Ok(()), tree.drop_value(1));
    assert_eq!(Some(8), tree.get_root_value());
    assert_eq!(4, tree.get_root_height());
    assert_eq!(-1, tree.get_root_balancing_factor());
    assert_eq!(vec![2, 3, 4, 5, 8, 10, 11], tree.as_vec());
    assert_eq!(7, tree.get_size());
}

#[test]
fn batch_with_many_duplicates() {
    let mut tree = Javlt::<u32>::new();
    let mut batch = Vec::new();
    for k in 0..300u32 {
        batch.push(k % 7);
    }
    assert_eq!(Ok(()), tree.add_all_skipping_duplicates(batch));
    assert_eq!(7, tree.get_size());
    assert_eq!(vec![0, 1, 2, 3, 4, 5, 6], tree.as_vec());
}
