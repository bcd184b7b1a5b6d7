//! An unbalanced binary search tree of unique `u32` values.
use vstd::prelude::*;

use crate::errors::TreeError;
use crate::ordered_set::{add_result, drop_result, lemma_room_for};
use crate::shape::{node, Shape};
use crate::order::{
    all_above, all_below, is_ascending, lemma_ascending_join, lemma_not_in_above,
    lemma_not_in_below,
};

verus! {

broadcast use vstd::seq_lib::lemma_seq_concat_contains_all_elements;

struct Node {
    value: u32,
    left: Option<Box<Node>>,
    right: Option<Box<Node>>,
}

impl Node {
    /// The values of a subtree in order; none for an absent subtree.
    pub closed spec fn seq_of(link: Option<Box<Node>>) -> Seq<u32>
        decreases link,
    {
        match link {
            None => Seq::empty(),
            Some(n) => n.values(),
        }
    }

    /// The values of this subtree, left to right.
    pub closed spec fn values(self) -> Seq<u32>
        decreases self,
    {
        Self::seq_of(self.left) + seq![self.value] + Self::seq_of(self.right)
    }

    /// The shape of a subtree; a leaf for an absent subtree.
    pub closed spec fn shape_of(link: Option<Box<Node>>) -> Shape<u32>
        decreases link,
    {
        match link {
            None => Shape::Leaf,
            Some(n) => n.shape(),
        }
    }

    /// The shape of this subtree.
    pub closed spec fn shape(self) -> Shape<u32>
        decreases self,
    {
        node(Self::shape_of(self.left), self.value, Self::shape_of(self.right))
    }

    /// The values of a subtree are those of its shape.
    proof fn lemma_in_order(link: Option<Box<Node>>)
        ensures
            Self::seq_of(link) == Self::shape_of(link).in_order(),
        decreases link,
    {
        if let Some(n) = link {
            Self::lemma_in_order(n.left);
            Self::lemma_in_order(n.right);
        }
    }

    /// Every value of a left subtree is smaller than its parent's, every value
    /// of a right subtree greater.
    pub closed spec fn wf(self) -> bool
        decreases self,
    {
        &&& (match self.left {
            Some(l) => l.wf(),
            None => true,
        })
        &&& (match self.right {
            Some(r) => r.wf(),
            None => true,
        })
        &&& all_below(Self::seq_of(self.left), self.value)
        &&& all_above(Self::seq_of(self.right), self.value)
    }

    pub closed spec fn link_wf(link: Option<Box<Node>>) -> bool {
        match link {
            None => true,
            Some(n) => n.wf(),
        }
    }

    proof fn lemma_value_in(self)
        ensures
            self.values().contains(self.value),
    {
        assert(self.values()[Self::seq_of(self.left).len() as int] == self.value);
    }

    /// A well-formed subtree lists its values in ascending order.
    proof fn lemma_wf_ascending(link: Option<Box<Node>>)
        requires
            Self::link_wf(link),
        ensures
            is_ascending(Self::seq_of(link)),
        decreases link,
    {
        if let Some(n) = link {
            Self::lemma_wf_ascending(n.left);
            Self::lemma_wf_ascending(n.right);
            lemma_ascending_join(Self::seq_of(n.left), n.value, Self::seq_of(n.right));
        }
    }

    fn new(value: u32) -> (r: Self)
        ensures
            r.wf(),
            r.values() == seq![value],
    {
        let r = Node { value, left: None, right: None };
        assert(r.values() =~= seq![value]);
        r
    }

    /// Inserts a value as a new leaf; a value already present is refused and
    /// nothing changes.
    fn add(&mut self, value: u32) -> (r: Result<(), TreeError>)
        requires
            old(self).wf(),
        ensures
            final(self).wf(),
            final(self).shape() == old(self).shape().plain_insert(value),
            r is Ok <==> !old(self).values().contains(value),
            r is Ok ==> {
                &&& forall|x: u32| #[trigger]
                    final(self).values().contains(x) <==> (old(self).values().contains(x) || x
                        == value)
                &&& final(self).values().len() == old(self).values().len() + 1
            },
            r is Err ==> r == Err::<(), TreeError>(TreeError::ValueAlreadyStored) && *final(self)
                == *old(self),
        decreases *old(self),
    {
        let ghost l = Self::seq_of(self.left);
        let ghost rs = Self::seq_of(self.right);
        proof {
            self.lemma_value_in();
        }
        if value == self.value {
            // no duplicates allowed in this kind of tree
            return Err(TreeError::ValueAlreadyStored);
        }
        if value < self.value {
            proof {
                lemma_not_in_above(rs, self.value, value);
            }
            match self.left.take() {
                None => {
                    let leaf = Node::new(value);
                    assert(leaf.values()[0] == value);
                    self.left = Some(Box::new(leaf));
                    assert(Self::shape_of(self.left) == leaf.shape());
                },
                Some(mut branch) => {
                    let res = branch.add(value);
                    self.left = Some(branch);
                    if res.is_err() {
                        return res;
                    }
                },
            }
        } else {
            proof {
                lemma_not_in_below(l, self.value, value);
            }
            match self.right.take() {
                None => {
                    let leaf = Node::new(value);
                    assert(leaf.values()[0] == value);
                    self.right = Some(Box::new(leaf));
                    assert(Self::shape_of(self.right) == leaf.shape());
                },
                Some(mut branch) => {
                    let res = branch.add(value);
                    self.right = Some(branch);
                    if res.is_err() {
                        return res;
                    }
                },
            }
        }
        proof {
            assert forall|x: u32| #[trigger]
                self.values().contains(x) <==> (old(self).values().contains(x) || x == value) by {
                if x == value {
                    assert(Self::seq_of(self.left).contains(x) || Self::seq_of(
                        self.right,
                    ).contains(x));
                }
            }
        }
        Ok(())
    }

    /// Returns true if the value is currently a member of the (sub)tree
    fn contains(&self, value: &u32) -> (r: bool)
        requires
            self.wf(),
        ensures
            r == self.values().contains(*value),
        decreases self,
    {
        proof {
            self.lemma_value_in();
        }
        if *value == self.value {
            return true;
        }
        if *value < self.value {
            proof {
                lemma_not_in_above(Self::seq_of(self.right), self.value, *value);
            }
            match &self.left {
                Some(node) => node.contains(value),
                None => false,
            }
        } else {
            proof {
                lemma_not_in_below(Self::seq_of(self.left), self.value, *value);
            }
            match &self.right {
                Some(node) => node.contains(value),
                None => false,
            }
        }
    }

    /// Returns true if the node is a leaf or terminal node, with no child nodes of its own.
    fn is_leaf(&self) -> (r: bool)
        ensures
            r == (self.left is None && self.right is None),
    {
        self.left.is_none() && self.right.is_none()
    }

    /// Returns the smallest/lowest value in this (sub)tree.
    fn least_value(&self) -> (r: u32)
        ensures
            r == self.values().first(),
            r == self.shape().least(),
        decreases self,
    {
        match &self.left {
            None => self.value,
            Some(left_child) => left_child.least_value(),
        }
    }

    /// Returns the largest/highest value in this (sub)tree.
    fn greatest_value(&self) -> (r: u32)
        ensures
            r == self.values().last(),
        decreases self,
    {
        match &self.right {
            None => self.value,
            Some(right_child) => right_child.greatest_value(),
        }
    }

    /// Appends the values of this subtree to the vector, left to right.
    fn collect_values_l_to_r(&self, value_vector: &mut Vec<u32>)
        ensures
            final(value_vector)@ == old(value_vector)@ + self.values(),
        decreases self,
    {
        match &self.left {
            Some(node) => node.collect_values_l_to_r(value_vector),
            None => (),
        }
        value_vector.push(self.value);
        match &self.right {
            Some(node) => node.collect_values_l_to_r(value_vector),
            None => (),
        }
        proof {
            assert(value_vector@ =~= old(value_vector)@ + self.values());
        }
    }

    /// Appends the values of this subtree to the vector, right to left.
    fn collect_values_r_to_l(&self, value_vector: &mut Vec<u32>)
        ensures
            final(value_vector)@ == old(value_vector)@ + self.values().reverse(),
        decreases self,
    {
        match &self.right {
            Some(node) => node.collect_values_r_to_l(value_vector),
            None => (),
        }
        value_vector.push(self.value);
        match &self.left {
            Some(node) => node.collect_values_r_to_l(value_vector),
            None => (),
        }
        proof {
            assert(value_vector@ =~= old(value_vector)@ + self.values().reverse());
        }
    }

    /// If the value is in this subtree, removes it and hands back the subtree
    /// that replaces this one (none when it becomes empty); otherwise reports
    /// `ValueNotFound` and hands back this node unchanged.
    ///
    /// A node with two children takes the value of its in-order successor, the
    /// least value of its right subtree, which is then removed from there.
    fn drop_value(self, value: u32) -> (r: (Result<(), TreeError>, Option<Box<Node>>))
        requires
            self.wf(),
        ensures
            Self::shape_of(r.1) == self.shape().plain_delete(value),
            r.0 is Ok <==> self.values().contains(value),
            r.0 is Ok ==> {
                &&& Self::link_wf(r.1)
                &&& forall|x: u32| #[trigger]
                    Self::seq_of(r.1).contains(x) <==> (self.values().contains(x) && x != value)
                &&& Self::seq_of(r.1).len() + 1 == self.values().len()
            },
            r.0 is Err ==> r.0 == Err::<(), TreeError>(TreeError::ValueNotFound) && r.1 == Some(
                Box::new(self),
            ),
        decreases self,
    {
        let ghost l = Self::seq_of(self.left);
        let ghost rs = Self::seq_of(self.right);
        let ghost vals = self.values();
        proof {
            self.lemma_value_in();
        }
        let ghost ls = Self::shape_of(self.left);
        let ghost rsh = Self::shape_of(self.right);
        let ghost me = self.shape();
        let ghost v = self.value;
        assert(me == node(ls, v, rsh));
        let mut cur = self;
        if value < cur.value {
            proof {
                lemma_not_in_above(rs, cur.value, value);
            }
            match cur.left.take() {
                None => (Err(TreeError::ValueNotFound), Some(Box::new(cur))),
                Some(left_child) => {
                    let (res, new_left) = (*left_child).drop_value(value);
                    cur.left = new_left;
                    assert(Self::shape_of(cur.left) == ls.plain_delete(value));
                    assert(me.plain_delete(value) == node(ls.plain_delete(value), v, rsh));
                    match res {
                        Err(e) => (Err(e), Some(Box::new(cur))),
                        Ok(()) => {
                            proof {
                                assert forall|x: u32| #[trigger] cur.values().contains(x) <==> (
                                vals.contains(x) && x != value) by {}
                            }
                            (Ok(()), Some(Box::new(cur)))
                        },
                    }
                },
            }
        } else if value > cur.value {
            proof {
                lemma_not_in_below(l, cur.value, value);
            }
            match cur.right.take() {
                None => (Err(TreeError::ValueNotFound), Some(Box::new(cur))),
                Some(right_child) => {
                    let (res, new_right) = (*right_child).drop_value(value);
                    cur.right = new_right;
                    assert(Self::shape_of(cur.right) == rsh.plain_delete(value));
                    assert(me.plain_delete(value) == node(ls, v, rsh.plain_delete(value)));
                    match res {
                        Err(e) => (Err(e), Some(Box::new(cur))),
                        Ok(()) => {
                            proof {
                                assert forall|x: u32| #[trigger] cur.values().contains(x) <==> (
                                vals.contains(x) && x != value) by {}
                            }
                            (Ok(()), Some(Box::new(cur)))
                        },
                    }
                },
            }
        } else {
            proof {
                lemma_not_in_below(l, cur.value, value);
                lemma_not_in_above(rs, cur.value, value);
            }
            // - if it has no children, just replace it with None
            if cur.is_leaf() {
                assert(vals =~= seq![value]);
                return (Ok(()), None);
            }
            // - if it has no left branch, replace it with its right child (and subtree)
            if cur.left.is_none() {
                assert(vals =~= seq![value] + rs);
                return (Ok(()), cur.right);
            }
            // - if it has no right branch, replace it with its left child (and subtree)
            if cur.right.is_none() {
                assert(vals =~= l + seq![value]);
                return (Ok(()), cur.left);
            }
            // - both children are present: take the value of the successor,
            //   then remove the successor from the right branch
            let right_child = cur.right.take().unwrap();
            let successor = right_child.least_value();
            proof {
                Self::lemma_wf_ascending(Some(right_child));
                assert(right_child.values().contains(successor));
            }
            let (_, new_right) = (*right_child).drop_value(successor);
            assert(rsh == right_child.shape());
            assert(me.plain_delete(value) == node(ls, successor, rsh.plain_delete(successor)));
            proof {
                assert forall|x: u32| #[trigger] Self::seq_of(new_right).contains(x) implies successor
                    < x by {
                    let i = choose|i: int| 0 <= i < rs.len() && rs[i] == x;
                    assert(i != 0);
                }
            }
            cur.value = successor;
            cur.right = new_right;
            proof {
                cur.lemma_value_in();
                assert(cur.values() == l + seq![successor] + Self::seq_of(new_right));
                assert forall|x: u32| #[trigger] cur.values().contains(x) <==> (vals.contains(x)
                    && x != value) by {}
            }
            (Ok(()), Some(Box::new(cur)))
        }
    }
}

/// # Binary search tree
///
/// An unbalanced binary search tree of unique values (no duplicates): an
/// ordered set whose shape follows the order of insertion.
pub struct Jbst {
    root: Option<Box<Node>>,
    size: u32,
}

impl View for Jbst {
    type V = Seq<u32>;

    /// The values of the tree in ascending order.
    closed spec fn view(&self) -> Seq<u32> {
        Node::seq_of(self.root)
    }
}

impl Jbst {
    /// The size counts the nodes, and every node keeps search order.
    pub closed spec fn wf(&self) -> bool {
        &&& Node::link_wf(self.root)
        &&& self.size as int == Node::seq_of(self.root).len()
    }

    /// The shape of the tree.
    pub closed spec fn shape(&self) -> Shape<u32> {
        Node::shape_of(self.root)
    }

    /// The values of the tree are those of its shape, left to right.
    pub proof fn lemma_view_in_order(&self)
        ensures
            self@ == self.shape().in_order(),
    {
        Node::lemma_in_order(self.root);
    }

    /// A well-formed tree lists its values in ascending order.
    pub proof fn lemma_wf_ascending(&self)
        requires
            self.wf(),
        ensures
            is_ascending(self@),
    {
        Node::lemma_wf_ascending(self.root);
    }

    /// Create a new tree with no data
    pub fn new() -> (r: Self)
        ensures
            r.wf(),
            r@ == Seq::<u32>::empty(),
            r.shape() == Shape::<u32>::Leaf,
    {
        Jbst { root: None, size: 0 }
    }

    /// Create a new tree from a collection, skipping duplicates, effectively
    /// turning a list into an ordered set of unique values.
    pub fn from_collection(collection: Vec<u32>) -> (r: Self)
        requires
            collection@.to_set().len() <= u32::MAX,
        ensures
            r.wf(),
            is_ascending(r@),
            r@.to_set() == collection@.to_set(),
            r.shape() == Shape::<u32>::Leaf.plain_insert_all(collection@),
    {
        let mut new_tree = Self::new();
        proof {
            assert(new_tree@ + collection@ =~= collection@);
        }
        let _ = new_tree.add_all_skipping_duplicates(collection);
        proof {
            assert(new_tree@.to_set() =~= collection@.to_set());
        }
        new_tree
    }

    /// Insert a value; a value already present is refused with
    /// `ValueAlreadyStored` and the tree is left as it was.
    pub fn add(&mut self, value: u32) -> (r: Result<(), TreeError>)
        requires
            old(self).wf(),
            old(self)@.len() < u32::MAX || old(self)@.contains(value),
        ensures
            final(self).wf(),
            final(self).shape() == old(self).shape().plain_insert(value),
            add_result(old(self)@, value, r, final(self)@),
            r is Err ==> *final(self) == *old(self),
    {
        match self.root.take() {
            None => {
                let leaf = Node::new(value);
                self.root = Some(Box::new(leaf));
                proof {
                    assert(self.shape() == leaf.shape());
                    assert(self@ =~= seq![value]);
                    assert(self@[0] == value);
                }
            },
            Some(mut branch) => {
                let res = branch.add(value);
                self.root = Some(branch);
                if res.is_err() {
                    proof {
                        self.lemma_wf_ascending();
                    }
                    return res;
                }
            },
        }
        self.size = self.size + 1;
        proof {
            self.lemma_wf_ascending();
        }
        Ok(())
    }

    /// Adds all members of a collection to the tree, skipping over any that
    /// would be duplicates, so no error will stop the batch.
    pub fn add_all_skipping_duplicates(&mut self, collection: Vec<u32>) -> (r: Result<
        (),
        TreeError,
    >)
        requires
            old(self).wf(),
            (old(self)@ + collection@).to_set().len() <= u32::MAX,
        ensures
            final(self).wf(),
            is_ascending(final(self)@),
            r is Ok,
            final(self)@.to_set() == old(self)@.to_set() + collection@.to_set(),
            final(self).shape() == old(self).shape().plain_insert_all(collection@),
    {
        let n = collection.len();
        let mut i: usize = 0;
        while i < n
            invariant
                n == collection@.len(),
                0 <= i <= n,
                self.wf(),
                (old(self)@ + collection@).to_set().len() <= u32::MAX,
                forall|x: u32| #[trigger] self@.contains(x) ==> (old(self)@ + collection@).contains(x),
                self@.to_set() == old(self)@.to_set() + collection@.take(i as int).to_set(),
                self.shape() == old(self).shape().plain_insert_all(collection@.take(i as int)),
            decreases n - i,
        {
            let elem = collection[i];
            let ghost before = self@;
            proof {
                let pool = old(self)@ + collection@;
                assert(pool[old(self)@.len() + i] == elem);
                if !self@.contains(elem) {
                    self.lemma_wf_ascending();
                    lemma_room_for(self@, pool, elem);
                }
            }
            let _ = self.add(elem);
            proof {
                let pool = old(self)@ + collection@;
                assert forall|x: u32| #[trigger] self@.contains(x) implies pool.contains(x) by {
                    if x == elem {
                        assert(pool[old(self)@.len() + i] == elem);
                    }
                }
                assert(collection@.take(i + 1).drop_last() =~= collection@.take(i as int));
                assert(collection@.take(i + 1) =~= collection@.take(i as int).push(elem));
                collection@.take(i as int).lemma_push_to_set_commute(elem);
                assert(self@.to_set() =~= before.to_set().insert(elem)) by {
                    if self@ != before {
                        assert(self@.contains(elem));
                    }
                }
                assert(self@.to_set() =~= old(self)@.to_set() + collection@.take(i + 1).to_set());
            }
            i = i + 1;
        }
        proof {
            assert(collection@.take(n as int) =~= collection@);
            assert(old(self)@ + collection@ =~= old(self)@ + collection@.take(n as int));
            self.lemma_wf_ascending();
        }
        Ok(())
    }

    /// Get the number of values in the tree
    pub fn get_size(&self) -> (r: u32)
        requires
            self.wf(),
        ensures
            r == self@.len(),
    {
        self.size
    }

    /// Returns the value held by the top node, if any.
    pub fn get_root_value(&self) -> (r: Option<u32>)
        ensures
            r == self.shape().root_value(),
    {
        match &self.root {
            None => None,
            Some(node) => Some(node.value),
        }
    }

    /// Returns true if the value is currently a member of the tree
    pub fn contains(&self, value: &u32) -> (r: bool)
        requires
            self.wf(),
        ensures
            r == self@.contains(*value),
    {
        match &self.root {
            None => false,
            Some(branch) => branch.contains(value),
        }
    }

    /// Short for `as_vec_l_to_r`: all the values in the tree from least to greatest.
    pub fn as_vec(&self) -> (r: Vec<u32>)
        ensures
            r@ == self@,
    {
        self.as_vec_l_to_r()
    }

    /// Returns all the values in the tree as an ordered Vec from least to greatest (left to right).
    pub fn as_vec_l_to_r(&self) -> (r: Vec<u32>)
        ensures
            r@ == self@,
    {
        match &self.root {
            None => Vec::new(),
            Some(branch) => {
                let mut vals = Vec::new();
                branch.collect_values_l_to_r(&mut vals);
                proof {
                    assert(vals@ =~= self@);
                }
                vals
            },
        }
    }

    /// Returns all the values in the tree as an ordered Vec from greatest to least (right to left).
    pub fn as_vec_r_to_l(&self) -> (r: Vec<u32>)
        ensures
            r@ == self@.reverse(),
    {
        match &self.root {
            None => {
                let vals = Vec::new();
                proof {
                    assert(vals@ =~= self@.reverse());
                }
                vals
            },
            Some(branch) => {
                let mut vals = Vec::new();
                branch.collect_values_r_to_l(&mut vals);
                proof {
                    assert(vals@ =~= self@.reverse());
                }
                vals
            },
        }
    }

    /// Returns the smallest/lowest value in the tree, if any.
    pub fn least_value(&self) -> (r: Option<u32>)
        ensures
            r == (if self@.len() == 0 {
                None
            } else {
                Some(self@.first())
            }),
    {
        match &self.root {
            None => None,
            Some(subtree) => Some(subtree.least_value()),
        }
    }

    /// Returns the largest/highest value in the tree, if any.
    pub fn greatest_value(&self) -> (r: Option<u32>)
        ensures
            r == (if self@.len() == 0 {
                None
            } else {
                Some(self@.last())
            }),
    {
        match &self.root {
            None => None,
            Some(subtree) => Some(subtree.greatest_value()),
        }
    }

    /// If the value is in the tree, delete it. Otherwise `ValueNotFound` is
    /// returned and the tree is left as it was.
    pub fn drop_value(&mut self, value: u32) -> (r: Result<(), TreeError>)
        requires
            old(self).wf(),
        ensures
            final(self).wf(),
            final(self).shape() == old(self).shape().plain_delete(value),
            drop_result(old(self)@, value, r, final(self)@),
            r is Err ==> *final(self) == *old(self),
    {
        match self.root.take() {
            None => {
                proof {
                    self.lemma_wf_ascending();
                }
                Err(TreeError::ValueNotFound)
            },
            Some(child) => {
                match (*child).drop_value(value) {
                    (Err(_), new_node) => {
                        self.root = new_node;
                        proof {
                            self.lemma_wf_ascending();
                        }
                        Err(TreeError::ValueNotFound)
                    },
                    (Ok(_), new_node) => {
                        self.root = new_node;
                        self.size = self.size - 1;
                        proof {
                            self.lemma_wf_ascending();
                        }
                        Ok(())
                    },
                }
            },
        }
    }
}

impl Default for Jbst {
    fn default() -> (r: Self)
        ensures
            r.wf(),
            r@ == Seq::<u32>::empty(),
            r.shape() == Shape::<u32>::Leaf,
    {
        Self::new()
    }
}

} // verus!
