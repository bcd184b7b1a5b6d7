//! An unbalanced binary search tree that keeps repeated values, counting them
//! in the node that holds the value.
use vstd::prelude::*;

use crate::errors::TreeError;
use crate::order::{
    all_above, all_below, copies, is_non_decreasing, lemma_above_trans,
    lemma_below_trans, lemma_non_decreasing_join, lemma_not_in_above, lemma_not_in_below,
    TreeValue,
};
use crate::shape::{counted_node, CountedShape};
use core::cmp::Ordering;

verus! {

broadcast use {
    vstd::seq_lib::lemma_seq_concat_contains_all_elements,
    vstd::seq_lib::lemma_multiset_commutative,
    vstd::seq_lib::group_to_multiset_ensures,
    vstd::multiset::group_multiset_axioms,
};

struct Node<T: TreeValue> {
    value: T,
    count: usize,  // duplicate values are counted, rather than getting new nodes
    left: Option<Box<Node<T>>>,
    right: Option<Box<Node<T>>>,
}

impl<T: TreeValue> Node<T> {
    /// The values of a subtree in order; none for an absent subtree.
    pub closed spec fn seq_of(link: Option<Box<Node<T>>>) -> Seq<T>
        decreases link,
    {
        match link {
            None => Seq::empty(),
            Some(n) => n.values(),
        }
    }

    /// The values of this subtree, left to right, each repeated as often as it
    /// was added.
    pub closed spec fn values(self) -> Seq<T>
        decreases self,
    {
        Self::seq_of(self.left) + copies(self.value, self.count as nat) + Self::seq_of(self.right)
    }

    /// The shape of a subtree; a leaf for an absent subtree.
    pub closed spec fn shape_of(link: Option<Box<Node<T>>>) -> CountedShape<T>
        decreases link,
    {
        match link {
            None => CountedShape::Leaf,
            Some(n) => n.shape(),
        }
    }

    /// The shape of this subtree.
    pub closed spec fn shape(self) -> CountedShape<T>
        decreases self,
    {
        counted_node(Self::shape_of(self.left), self.value, self.count as nat, Self::shape_of(self.right))
    }

    /// The values of a subtree are those of its shape.
    proof fn lemma_in_order(link: Option<Box<Node<T>>>)
        ensures
            Self::seq_of(link) == Self::shape_of(link).in_order(),
        decreases link,
    {
        if let Some(n) = link {
            Self::lemma_in_order(n.left);
            Self::lemma_in_order(n.right);
        }
    }

    /// Every node counts its value at least once, and every value of a left
    /// subtree is smaller than its parent's, every value of a right subtree
    /// greater.
    pub closed spec fn wf(self) -> bool
        decreases self,
    {
        &&& (match self.left {
            Some(l) => l.wf(),
            None => true,
        })
        &&& (match self.right {
            Some(r) => r.wf(),
            None => true,
        })
        &&& self.count >= 1
        &&& all_below(Self::seq_of(self.left), self.value)
        &&& all_above(Self::seq_of(self.right), self.value)
    }

    pub closed spec fn link_wf(link: Option<Box<Node<T>>>) -> bool {
        match link {
            None => true,
            Some(n) => n.wf(),
        }
    }

    proof fn lemma_value_in(self)
        requires
            self.count >= 1,
        ensures
            self.values().contains(self.value),
            self.values().len() >= self.count,
    {
        assert(self.values()[Self::seq_of(self.left).len() as int] == self.value);
    }

    /// Membership in the values of a node, by part.
    proof fn lemma_contains(self, x: T)
        ensures
            self.values().contains(x) <==> (Self::seq_of(self.left).contains(x) || (x == self.value
                && self.count >= 1) || Self::seq_of(self.right).contains(x)),
    {
        let c = copies(self.value, self.count as nat);
        if c.contains(x) {
            let i = choose|i: int| 0 <= i < c.len() && c[i] == x;
            assert(c[i] == self.value);
        }
        if x == self.value && self.count >= 1 {
            assert(c[0] == x);
        }
    }

    /// A well-formed subtree lists its values in non-decreasing order.
    proof fn lemma_wf_sorted(link: Option<Box<Node<T>>>)
        requires
            Self::link_wf(link),
        ensures
            is_non_decreasing(Self::seq_of(link)),
        decreases link,
    {
        if let Some(n) = link {
            Self::lemma_wf_sorted(n.left);
            Self::lemma_wf_sorted(n.right);
            lemma_non_decreasing_join(
                Self::seq_of(n.left),
                n.value,
                n.count as nat,
                Self::seq_of(n.right),
            );
        }
    }

    fn new(value: T) -> (r: Self)
        ensures
            r.wf(),
            r.values() == seq![value],
            r.shape() == counted_node(CountedShape::Leaf, value, 1, CountedShape::Leaf),
    {
        let r = Node { value, count: 1, left: None, right: None };
        assert(r.values() =~= seq![value]);
        r
    }

    /// Inserts a value: a value already present has its count raised, a new
    /// one becomes a leaf.
    fn add(&mut self, value: T)
        requires
            old(self).wf(),
            old(self).values().len() < u32::MAX,
        ensures
            final(self).wf(),
            final(self).shape() == old(self).shape().insert(value),
            final(self).values().to_multiset() == old(self).values().to_multiset().insert(value),
            final(self).values().len() == old(self).values().len() + 1,
            forall|x: T| #[trigger]
                final(self).values().contains(x) <==> (old(self).values().contains(x) || x
                    == value),
        decreases *old(self),
    {
        let ghost l = Self::seq_of(self.left);
        let ghost rs = Self::seq_of(self.right);
        let ghost c = copies(self.value, self.count as nat);
        let ghost ls = Self::shape_of(self.left);
        let ghost rsh = Self::shape_of(self.right);
        proof {
            self.lemma_value_in();
        }
        match value.compare(&self.value) {
            Ordering::Equal => {
                // increment the count
                self.count = self.count + 1;
                proof {
                    assert(copies(self.value, self.count as nat) =~= c.push(value));
                    assert(self.values() =~= l + c.push(value) + rs);
                    assert(l + c.push(value) + rs =~= (l + c).push(value) + rs);
                }
            },
            Ordering::Less => {
                match self.left.take() {
                    None => {
                        let leaf = Node::new(value);
                        assert(leaf.values()[0] == value);
                        self.left = Some(Box::new(leaf));
                        assert(Self::shape_of(self.left) == ls.insert(value));
                    },
                    Some(mut branch) => {
                        branch.add(value);
                        self.left = Some(branch);
                        assert(Self::shape_of(self.left) == ls.insert(value));
                    },
                }
            },
            Ordering::Greater => {
                match self.right.take() {
                    None => {
                        let leaf = Node::new(value);
                        assert(leaf.values()[0] == value);
                        self.right = Some(Box::new(leaf));
                        assert(Self::shape_of(self.right) == rsh.insert(value));
                    },
                    Some(mut branch) => {
                        branch.add(value);
                        self.right = Some(branch);
                        assert(Self::shape_of(self.right) == rsh.insert(value));
                    },
                }
            },
        }
        proof {
            assert(self.values().to_multiset() =~= old(self).values().to_multiset().insert(value));
            assert(self.values().to_multiset().len() == old(self).values().to_multiset().len() + 1);
            assert forall|x: T| #[trigger]
                self.values().contains(x) <==> (old(self).values().contains(x) || x == value) by {
                self.lemma_contains(x);
                old(self).lemma_contains(x);
            }
        }
    }

    /// Returns true if the value is currently a member of the (sub)tree
    fn contains(&self, value: &T) -> (r: bool)
        requires
            self.wf(),
        ensures
            r == self.values().contains(*value),
        decreases self,
    {
        proof {
            self.lemma_value_in();
            self.lemma_contains(*value);
        }
        match value.compare(&self.value) {
            Ordering::Equal => true,
            Ordering::Less => {
                proof {
                    lemma_not_in_above(Self::seq_of(self.right), self.value, *value);
                }
                match &self.left {
                    Some(node) => node.contains(value),
                    None => false,
                }
            },
            Ordering::Greater => {
                proof {
                    lemma_not_in_below(Self::seq_of(self.left), self.value, *value);
                }
                match &self.right {
                    Some(node) => node.contains(value),
                    None => false,
                }
            },
        }
    }

    /// Returns true if the node is a leaf or terminal node, with no child nodes of its own.
    fn is_leaf(&self) -> (r: bool)
        ensures
            r == (self.left is None && self.right is None),
    {
        self.left.is_none() && self.right.is_none()
    }

    /// Returns the smallest/lowest value in this (sub)tree.
    fn least_value(&self) -> (r: T)
        requires
            self.wf(),
        ensures
            r == self.values().first(),
            r == self.shape().least_value(),
        decreases self,
    {
        match &self.left {
            None => {
                assert(self.values()[0] == self.value);
                self.value
            },
            Some(left_child) => {
                proof {
                    assert(left_child.wf());
                    left_child.lemma_value_in();
                }
                left_child.least_value()
            },
        }
    }

    /// Returns the largest/highest value in this (sub)tree.
    fn greatest_value(&self) -> (r: T)
        requires
            self.wf(),
        ensures
            r == self.values().last(),
        decreases self,
    {
        match &self.right {
            None => {
                assert(self.values().last() == self.value);
                self.value
            },
            Some(right_child) => {
                proof {
                    assert(right_child.wf());
                    right_child.lemma_value_in();
                }
                right_child.greatest_value()
            },
        }
    }

    /// Appends `count` copies of this node's value to the vector.
    fn push_copies(&self, value_vector: &mut Vec<T>)
        ensures
            final(value_vector)@ == old(value_vector)@ + copies(self.value, self.count as nat),
    {
        let mut k: usize = 0;
        while k < self.count
            invariant
                0 <= k <= self.count,
                value_vector@ == old(value_vector)@ + copies(self.value, k as nat),
            decreases self.count - k,
        {
            value_vector.push(self.value);
            k = k + 1;
            proof {
                assert(value_vector@ =~= old(value_vector)@ + copies(self.value, k as nat));
            }
        }
    }

    /// Appends the values of this subtree to the vector, left to right.
    fn collect_values_l_to_r(&self, value_vector: &mut Vec<T>)
        ensures
            final(value_vector)@ == old(value_vector)@ + self.values(),
        decreases self,
    {
        match &self.left {
            Some(node) => node.collect_values_l_to_r(value_vector),
            None => (),
        }
        self.push_copies(value_vector);
        match &self.right {
            Some(node) => node.collect_values_l_to_r(value_vector),
            None => (),
        }
        proof {
            assert(value_vector@ =~= old(value_vector)@ + self.values());
        }
    }

    /// Appends the values of this subtree to the vector, right to left.
    fn collect_values_r_to_l(&self, value_vector: &mut Vec<T>)
        ensures
            final(value_vector)@ == old(value_vector)@ + self.values().reverse(),
        decreases self,
    {
        match &self.right {
            Some(node) => node.collect_values_r_to_l(value_vector),
            None => (),
        }
        self.push_copies(value_vector);
        proof {
            let c = copies(self.value, self.count as nat);
            assert(c.reverse() =~= c);
        }
        match &self.left {
            Some(node) => node.collect_values_r_to_l(value_vector),
            None => (),
        }
        proof {
            assert(value_vector@ =~= old(value_vector)@ + self.values().reverse());
        }
    }

    /// Removes the leftmost node of this subtree and hands back its value, its
    /// count and what remains of the subtree.
    fn remove_least(self) -> (r: (T, usize, Option<Box<Node<T>>>))
        requires
            self.wf(),
        ensures
            Self::link_wf(r.2),
            r.1 >= 1,
            self.values() == copies(r.0, r.1 as nat) + Self::seq_of(r.2),
            all_above(Self::seq_of(r.2), r.0),
            r.0 == self.shape().least_value(),
            r.1 == self.shape().least_count(),
            Self::shape_of(r.2) == self.shape().without_least(),
        decreases self,
    {
        let ghost l = Self::seq_of(self.left);
        let ghost c = copies(self.value, self.count as nat);
        let ghost rs = Self::seq_of(self.right);
        let mut node = self;
        match node.left.take() {
            None => {
                proof {
                    assert(node.values() =~= c + rs);
                }
                (node.value, node.count, node.right)
            },
            Some(left_child) => {
                let (v, n, rest) = (*left_child).remove_least();
                node.left = rest;
                proof {
                    let cv = copies(v, n as nat);
                    assert(l == cv + Self::seq_of(rest));
                    assert(cv[0] == v);
                    assert(l.contains(v));
                    assert forall|x: T| #[trigger] Self::seq_of(rest).contains(x) implies x.less(
                        node.value,
                    ) by {
                        assert(l.contains(x));
                    }
                    lemma_above_trans(rs, node.value, v);
                    assert forall|x: T| #[trigger] node.values().contains(x) implies v.less(x) by {
                        node.lemma_contains(x);
                    }
                    assert(node.values() =~= Self::seq_of(rest) + c + rs);
                    assert(cv + Self::seq_of(rest) + c + rs =~= cv + (Self::seq_of(rest) + c + rs));
                }
                (v, n, Some(Box::new(node)))
            },
        }
    }

    /// If the value is in this subtree, removes one occurrence of it and hands
    /// back the subtree that replaces this one (none when it becomes empty);
    /// otherwise reports `ValueNotFound` and hands back this node unchanged.
    ///
    /// A node that held a single copy and has two children takes over the
    /// leftmost node of its right subtree, value and count.
    fn drop_value(self, value: T) -> (r: (Result<(), TreeError>, Option<Box<Node<T>>>))
        requires
            self.wf(),
        ensures
            Self::shape_of(r.1) == self.shape().delete(value),
            r.0 is Ok <==> self.values().contains(value),
            r.0 is Ok ==> {
                &&& Self::link_wf(r.1)
                &&& Self::seq_of(r.1).to_multiset() == self.values().to_multiset().remove(value)
                &&& forall|x: T| #[trigger]
                    Self::seq_of(r.1).contains(x) ==> self.values().contains(x)
            },
            r.0 is Err ==> r.0 == Err::<(), TreeError>(TreeError::ValueNotFound) && r.1 == Some(
                Box::new(self),
            ),
        decreases self,
    {
        let ghost l = Self::seq_of(self.left);
        let ghost rs = Self::seq_of(self.right);
        let ghost c = copies(self.value, self.count as nat);
        let ghost vals = self.values();
        proof {
            self.lemma_value_in();
            self.lemma_contains(value);
        }
        let ghost ls = Self::shape_of(self.left);
        let ghost rsh = Self::shape_of(self.right);
        let ghost v = self.value;
        let ghost cnt = self.count as nat;
        let ghost me = self.shape();
        proof {
            T::lemma_irreflexive(value);
        }
        let mut cur = self;
        match value.compare(&cur.value) {
            Ordering::Less => {
                proof {
                    lemma_not_in_above(rs, cur.value, value);
                }
                match cur.left.take() {
                    None => (Err(TreeError::ValueNotFound), Some(Box::new(cur))),
                    Some(left_child) => {
                        let (res, new_left) = (*left_child).drop_value(value);
                        cur.left = new_left;
                        assert(Self::shape_of(cur.left) == ls.delete(value));
                        match res {
                            Err(e) => (Err(e), Some(Box::new(cur))),
                            Ok(()) => {
                                proof {
                                    assert(l.to_multiset().count(value) > 0);
                                    assert(cur.values().to_multiset() =~= vals.to_multiset().remove(
                                        value,
                                    ));
                                    assert forall|x: T| #[trigger] cur.values().contains(x)
                                        implies vals.contains(x) by {
                                        cur.lemma_contains(x);
                                    }
                                }
                                (Ok(()), Some(Box::new(cur)))
                            },
                        }
                    },
                }
            },
            Ordering::Greater => {
                proof {
                    lemma_not_in_below(l, cur.value, value);
                }
                match cur.right.take() {
                    None => (Err(TreeError::ValueNotFound), Some(Box::new(cur))),
                    Some(right_child) => {
                        let (res, new_right) = (*right_child).drop_value(value);
                        cur.right = new_right;
                        assert(Self::shape_of(cur.right) == rsh.delete(value));
                        match res {
                            Err(e) => (Err(e), Some(Box::new(cur))),
                            Ok(()) => {
                                proof {
                                    assert(rs.to_multiset().count(value) > 0);
                                    assert(cur.values().to_multiset() =~= vals.to_multiset().remove(
                                        value,
                                    ));
                                    assert forall|x: T| #[trigger] cur.values().contains(x)
                                        implies vals.contains(x) by {
                                        cur.lemma_contains(x);
                                    }
                                }
                                (Ok(()), Some(Box::new(cur)))
                            },
                        }
                    },
                }
            },
            Ordering::Equal => {
                // - if it's a duplicate (count >= 2), just decrement the count
                if cur.count > 1 {
                    cur.count = cur.count - 1;
                    proof {
                        let c2 = copies(value, cur.count as nat);
                        assert(c =~= c2.push(value));
                        assert(vals =~= (l + c2).push(value) + rs);
                        assert(cur.values() =~= (l + c2) + rs);
                        assert(((l + c2).push(value)).to_multiset() =~= (l + c2).to_multiset().insert(value));
                        assert(cur.values().to_multiset() =~= vals.to_multiset().remove(value));
                        assert forall|x: T| #[trigger] cur.values().contains(x) implies vals.contains(
                            x,
                        ) by {
                            cur.lemma_contains(x);
                        }
                    }
                    return (Ok(()), Some(Box::new(cur)));
                }
                proof {
                    assert(c =~= seq![value]);
                }
                // - if it has no children, just replace it with None
                if cur.is_leaf() {
                    assert(vals =~= seq![value]);
                    return (Ok(()), None);
                }
                // - if it has no left branch, replace it with its right child (and subtree)
                if cur.left.is_none() {
                    assert(vals =~= seq![value] + rs);
                    return (Ok(()), cur.right);
                }
                // - if it has no right branch, replace it with its left child (and subtree)
                if cur.right.is_none() {
                    assert(vals =~= l + seq![value]);
                    assert(vals =~= l.push(value));
                    return (Ok(()), cur.left);
                }
                // - both children are present: the leftmost cur of the right
                //   branch moves up, value and count
                let right_child = cur.right.take().unwrap();
                let (successor, successor_count, new_right) = (*right_child).remove_least();
                assert(rsh == right_child.shape());
                proof {
                    let cs = copies(successor, successor_count as nat);
                    assert(cs[0] == successor);
                    assert(rs.contains(successor));
                    lemma_below_trans(l, value, successor);
                }
                cur.value = successor;
                cur.count = successor_count;
                cur.right = new_right;
                proof {
                    let cs = copies(successor, successor_count as nat);
                    assert(vals =~= (l + seq![value]) + (cs + Self::seq_of(new_right)));
                    assert(cur.values() =~= l + (cs + Self::seq_of(new_right)));
                    assert((l + seq![value]) =~= l.push(value));
                    assert(cur.values().to_multiset() =~= vals.to_multiset().remove(value));
                    assert forall|x: T| #[trigger] cur.values().contains(x) implies vals.contains(
                        x,
                    ) by {}
                }
                (Ok(()), Some(Box::new(cur)))
            },
        }
    }
}

/// # Binary search tree with repeated values
///
/// An unbalanced binary search tree which allows duplicates: an ordered list
/// with fast lookups and traversals. Each value is held by one node, which
/// counts how many times it was added.
pub struct Jblst<T: TreeValue> {
    root: Option<Box<Node<T>>>,
    size: u32,
}

impl<T: TreeValue> View for Jblst<T> {
    type V = Seq<T>;

    /// The values of the tree in non-decreasing order, each repeated as often
    /// as it is held.
    closed spec fn view(&self) -> Seq<T> {
        Node::seq_of(self.root)
    }
}

impl<T: TreeValue> Jblst<T> {
    /// The size counts every held value, and every node keeps search order.
    pub closed spec fn wf(&self) -> bool {
        &&& Node::link_wf(self.root)
        &&& self.size as int == Node::seq_of(self.root).len()
    }

    /// The shape of the tree.
    pub closed spec fn shape(&self) -> CountedShape<T> {
        Node::shape_of(self.root)
    }

    /// The values of the tree are those of its shape, left to right.
    pub proof fn lemma_view_in_order(&self)
        ensures
            self@ == self.shape().in_order(),
    {
        Node::lemma_in_order(self.root);
    }

    /// A well-formed tree lists its values in non-decreasing order.
    pub proof fn lemma_wf_sorted(&self)
        requires
            self.wf(),
        ensures
            is_non_decreasing(self@),
    {
        Node::lemma_wf_sorted(self.root);
    }

    /// Create a new tree with no data
    pub fn new() -> (r: Self)
        ensures
            r.wf(),
            r@ == Seq::<T>::empty(),
            r.shape() == CountedShape::<T>::Leaf,
    {
        Jblst { root: None, size: 0 }
    }

    /// Create a new tree from a collection, keeping every value it holds.
    pub fn from_collection(collection: Vec<T>) -> (r: Self)
        requires
            collection@.len() <= u32::MAX,
        ensures
            r.wf(),
            is_non_decreasing(r@),
            r@.to_multiset() == collection@.to_multiset(),
            r.shape() == CountedShape::<T>::Leaf.insert_all(collection@),
    {
        let mut new_tree = Self::new();
        let _ = new_tree.add_all(collection);
        proof {
            assert(new_tree@.to_multiset() =~= collection@.to_multiset());
        }
        new_tree
    }

    /// Insert a value; repeated values are kept.
    pub fn add(&mut self, value: T) -> (r: Result<(), TreeError>)
        requires
            old(self).wf(),
            old(self)@.len() < u32::MAX,
        ensures
            final(self).wf(),
            is_non_decreasing(final(self)@),
            r is Ok,
            final(self).shape() == old(self).shape().insert(value),
            final(self)@.to_multiset() == old(self)@.to_multiset().insert(value),
            final(self)@.len() == old(self)@.len() + 1,
    {
        match self.root.take() {
            None => {
                let leaf = Node::new(value);
                self.root = Some(Box::new(leaf));
                proof {
                    assert(self.shape() == leaf.shape());
                    assert(self@ =~= seq![value]);
                    assert(self@ =~= old(self)@.push(value));
                }
            },
            Some(mut branch) => {
                branch.add(value);
                self.root = Some(branch);
            },
        }
        self.size = self.size + 1;
        proof {
            self.lemma_wf_sorted();
        }
        Ok(())
    }

    /// Adds all members of a collection to the tree.
    pub fn add_all(&mut self, collection: Vec<T>) -> (r: Result<(), TreeError>)
        requires
            old(self).wf(),
            old(self)@.len() + collection@.len() <= u32::MAX,
        ensures
            final(self).wf(),
            is_non_decreasing(final(self)@),
            r is Ok,
            final(self)@.to_multiset() == old(self)@.to_multiset().add(collection@.to_multiset()),
            final(self).shape() == old(self).shape().insert_all(collection@),
    {
        let n = collection.len();
        let mut i: usize = 0;
        while i < n
            invariant
                n == collection@.len(),
                0 <= i <= n,
                self.wf(),
                self@.len() == old(self)@.len() + i,
                old(self)@.len() + collection@.len() <= u32::MAX,
                self@.to_multiset() == old(self)@.to_multiset().add(
                    collection@.take(i as int).to_multiset(),
                ),
                self.shape() == old(self).shape().insert_all(collection@.take(i as int)),
            decreases n - i,
        {
            let elem = collection[i];
            let _ = self.add(elem);
            proof {
                assert(collection@.take(i + 1) =~= collection@.take(i as int).push(elem));
                assert(collection@.take(i + 1).drop_last() =~= collection@.take(i as int));
                assert(self@.to_multiset() =~= old(self)@.to_multiset().add(
                    collection@.take(i + 1).to_multiset(),
                ));
            }
            i = i + 1;
        }
        proof {
            assert(collection@.take(n as int) =~= collection@);
            self.lemma_wf_sorted();
        }
        Ok(())
    }

    /// Get the number of values in the tree, repeated ones included
    pub fn get_size(&self) -> (r: u32)
        requires
            self.wf(),
        ensures
            r == self@.len(),
    {
        self.size
    }

    /// Returns the value held by the top node, if any.
    pub fn get_root_value(&self) -> (r: Option<T>)
        ensures
            r == self.shape().root_value(),
    {
        match &self.root {
            None => None,
            Some(node) => Some(node.value),
        }
    }

    /// Returns true if the value is currently a member of the tree
    pub fn contains(&self, value: &T) -> (r: bool)
        requires
            self.wf(),
        ensures
            r == self@.contains(*value),
    {
        match &self.root {
            None => false,
            Some(branch) => branch.contains(value),
        }
    }

    /// Short for `as_vec_l_to_r`: all the values in the tree from least to greatest.
    pub fn as_vec(&self) -> (r: Vec<T>)
        ensures
            r@ == self@,
    {
        self.as_vec_l_to_r()
    }

    /// Returns all the values in the tree as an ordered Vec from least to greatest (left to right).
    pub fn as_vec_l_to_r(&self) -> (r: Vec<T>)
        ensures
            r@ == self@,
    {
        match &self.root {
            None => Vec::new(),
            Some(branch) => {
                let mut vals = Vec::new();
                branch.collect_values_l_to_r(&mut vals);
                proof {
                    assert(vals@ =~= self@);
                }
                vals
            },
        }
    }

    /// Returns all the values in the tree as an ordered Vec from greatest to least (right to left).
    pub fn as_vec_r_to_l(&self) -> (r: Vec<T>)
        ensures
            r@ == self@.reverse(),
    {
        match &self.root {
            None => {
                let vals = Vec::new();
                proof {
                    assert(vals@ =~= self@.reverse());
                }
                vals
            },
            Some(branch) => {
                let mut vals = Vec::new();
                branch.collect_values_r_to_l(&mut vals);
                proof {
                    assert(vals@ =~= self@.reverse());
                }
                vals
            },
        }
    }

    /// Returns the smallest/lowest value in the tree, if any.
    pub fn least_value(&self) -> (r: Option<T>)
        requires
            self.wf(),
        ensures
            r == (if self@.len() == 0 {
                None
            } else {
                Some(self@.first())
            }),
    {
        match &self.root {
            None => None,
            Some(subtree) => Some(subtree.least_value()),
        }
    }

    /// Returns the largest/highest value in the tree, if any.
    pub fn greatest_value(&self) -> (r: Option<T>)
        requires
            self.wf(),
        ensures
            r == (if self@.len() == 0 {
                None
            } else {
                Some(self@.last())
            }),
    {
        match &self.root {
            None => None,
            Some(subtree) => Some(subtree.greatest_value()),
        }
    }

    /// If the value is in the tree, delete one occurrence of it. Otherwise
    /// `ValueNotFound` is returned and the tree is left as it was.
    pub fn drop_value(&mut self, value: T) -> (r: Result<(), TreeError>)
        requires
            old(self).wf(),
        ensures
            final(self).wf(),
            is_non_decreasing(final(self)@),
            final(self).shape() == old(self).shape().delete(value),
            match r {
                Ok(()) => {
                    &&& old(self)@.contains(value)
                    &&& final(self)@.to_multiset() == old(self)@.to_multiset().remove(value)
                    &&& final(self)@.len() + 1 == old(self)@.len()
                },
                Err(e) => {
                    &&& e == TreeError::ValueNotFound
                    &&& !old(self)@.contains(value)
                    &&& *final(self) == *old(self)
                },
            },
    {
        match self.root.take() {
            None => {
                proof {
                    self.lemma_wf_sorted();
                }
                Err(TreeError::ValueNotFound)
            },
            Some(child) => {
                match (*child).drop_value(value) {
                    (Err(_), new_node) => {
                        self.root = new_node;
                        proof {
                            self.lemma_wf_sorted();
                        }
                        Err(TreeError::ValueNotFound)
                    },
                    (Ok(_), new_node) => {
                        proof {
                            assert(old(self)@.to_multiset().count(value) > 0);
                            assert(Node::seq_of(new_node).to_multiset().len() + 1 == old(
                                self,
                            )@.to_multiset().len());
                        }
                        self.root = new_node;
                        self.size = self.size - 1;
                        proof {
                            self.lemma_wf_sorted();
                        }
                        Ok(())
                    },
                }
            },
        }
    }
}

impl<T: TreeValue> Default for Jblst<T> {
    fn default() -> (r: Self)
        ensures
            r.wf(),
            r@ == Seq::<T>::empty(),
            r.shape() == CountedShape::<T>::Leaf,
    {
        Self::new()
    }
}

} // verus!
