//! A self-balancing AVL tree of unique values.
//!
//! Rotations move values between nodes (the node at the top of a rotated
//! subtree keeps its place and takes a new value) rather than relinking the
//! node that held the value.
use vstd::prelude::*;

use crate::errors::TreeError;
use crate::ordered_set::{add_result, drop_result, lemma_room_for};
use crate::order::{
    all_above, all_below, is_ascending, lemma_above_trans, lemma_ascending_join,
    lemma_asymmetric, lemma_below_trans, lemma_not_in_above, lemma_not_in_below, TreeValue,
};
use crate::shape::{larger, node, Shape};
use vstd::arithmetic::power2::pow2;
use core::cmp::Ordering;

verus! {

broadcast use vstd::seq_lib::lemma_seq_concat_contains_all_elements;

/// A node owns its value, the height of its subtree and its two subtrees.
struct Node<T: TreeValue> {
    value: T,
    height: u32,
    left: Option<Box<Node<T>>>,
    right: Option<Box<Node<T>>>,
}

impl<T: TreeValue> Node<T> {
    /// The values of a subtree in order; none for an absent subtree.
    pub closed spec fn seq_of(link: Option<Box<Node<T>>>) -> Seq<T>
        decreases link,
    {
        match link {
            None => Seq::empty(),
            Some(n) => n.values(),
        }
    }

    /// The values of this subtree, left to right.
    pub closed spec fn values(self) -> Seq<T>
        decreases self,
    {
        Self::seq_of(self.left) + seq![self.value] + Self::seq_of(self.right)
    }

    /// The height stored in a subtree's top node; 0 for an absent subtree.
    pub closed spec fn height_of(link: Option<Box<Node<T>>>) -> int {
        match link {
            None => 0,
            Some(n) => n.height as int,
        }
    }

    /// The shape of a subtree; a leaf for an absent subtree.
    pub closed spec fn shape_of(link: Option<Box<Node<T>>>) -> Shape<T>
        decreases link,
    {
        match link {
            None => Shape::Leaf,
            Some(n) => n.shape(),
        }
    }

    /// The shape of this subtree.
    pub closed spec fn shape(self) -> Shape<T>
        decreases self,
    {
        node(Self::shape_of(self.left), self.value, Self::shape_of(self.right))
    }

    /// Search order, stored heights and AVL balance hold at every node.
    pub closed spec fn wf(self) -> bool
        decreases self,
    {
        &&& (match self.left {
            Some(l) => l.wf(),
            None => true,
        })
        &&& (match self.right {
            Some(r) => r.wf(),
            None => true,
        })
        &&& all_below(Self::seq_of(self.left), self.value)
        &&& all_above(Self::seq_of(self.right), self.value)
        &&& self.height as int == 1 + larger(
            Self::height_of(self.left),
            Self::height_of(self.right),
        )
        &&& -1 <= Self::height_of(self.right) - Self::height_of(self.left) <= 1
        &&& self.height as int <= self.values().len()
    }

    pub closed spec fn link_wf(link: Option<Box<Node<T>>>) -> bool {
        match link {
            None => true,
            Some(n) => n.wf(),
        }
    }

    proof fn lemma_value_in(self)
        ensures
            self.values().contains(self.value),
    {
        assert(self.values()[Self::seq_of(self.left).len() as int] == self.value);
    }

    proof fn lemma_height_le_len(link: Option<Box<Node<T>>>)
        requires
            Self::link_wf(link),
        ensures
            0 <= Self::height_of(link) <= Self::seq_of(link).len(),
    {
    }

    /// The values of a subtree are those of its shape.
    proof fn lemma_in_order(link: Option<Box<Node<T>>>)
        ensures
            Self::seq_of(link) == Self::shape_of(link).in_order(),
        decreases link,
    {
        if let Some(n) = link {
            Self::lemma_in_order(n.left);
            Self::lemma_in_order(n.right);
        }
    }

    /// A well-formed subtree is ascending, its stored height is the height of
    /// its shape, and its shape is balanced.
    proof fn lemma_wf_facts(link: Option<Box<Node<T>>>)
        requires
            Self::link_wf(link),
        ensures
            is_ascending(Self::seq_of(link)),
            Self::height_of(link) == Self::shape_of(link).height(),
            Self::shape_of(link).is_balanced(),
        decreases link,
    {
        if let Some(n) = link {
            Self::lemma_wf_facts(n.left);
            Self::lemma_wf_facts(n.right);
            lemma_ascending_join(Self::seq_of(n.left), n.value, Self::seq_of(n.right));
        }
    }

    /// The rebalancer leaves a well-formed node as it is.
    proof fn lemma_rebalance_keeps_wf(self)
        requires
            self.wf(),
        ensures
            self.shape().rebalance() == self.shape(),
    {
        Self::lemma_wf_facts(self.left);
        Self::lemma_wf_facts(self.right);
    }

    fn new(value: T) -> (r: Self)
        ensures
            r.wf(),
            r.values() == seq![value],
            r.height == 1,
    {
        let r = Node { value, height: 1, left: None, right: None };
        assert(r.values() =~= seq![value]);
        r
    }

    /// Height of a subtree is the height of its larger child subtree, plus 1.
    fn compute_height(&self) -> (r: u32)
        requires
            Self::height_of(self.left) < u32::MAX,
            Self::height_of(self.right) < u32::MAX,
            0 <= Self::height_of(self.left),
            0 <= Self::height_of(self.right),
        ensures
            r == 1 + larger(Self::height_of(self.left), Self::height_of(self.right)),
    {
        let left_height: u32 = match &self.left {
            None => 0,
            Some(n) => n.height,
        };
        let right_height: u32 = match &self.right {
            None => 0,
            Some(n) => n.height,
        };
        if left_height >= right_height {
            left_height + 1
        } else {
            right_height + 1
        }
    }

    /// Balancing factor is the height of the right subtree minus the height of the left subtree.
    fn compute_balancing_factor(&self) -> (r: i64)
        ensures
            r == Self::height_of(self.right) - Self::height_of(self.left),
    {
        let left_height: u32 = match &self.left {
            None => 0,
            Some(n) => n.height,
        };
        let right_height: u32 = match &self.right {
            None => 0,
            Some(n) => n.height,
        };
        right_height as i64 - left_height as i64
    }

    /// A node over two balanced subtrees whose heights differ by at most one.
    fn from_parts(left: Option<Box<Node<T>>>, value: T, right: Option<Box<Node<T>>>) -> (r: Box<
        Node<T>,
    >)
        requires
            Self::link_wf(left),
            Self::link_wf(right),
            all_below(Self::seq_of(left), value),
            all_above(Self::seq_of(right), value),
            -1 <= Self::height_of(right) - Self::height_of(left) <= 1,
            Self::seq_of(left).len() + Self::seq_of(right).len() < u32::MAX,
        ensures
            r.wf(),
            r.values() == Self::seq_of(left) + seq![value] + Self::seq_of(right),
            r.height == 1 + larger(Self::height_of(left), Self::height_of(right)),
            r.shape() == node(Self::shape_of(left), value, Self::shape_of(right)),
    {
        proof {
            Self::lemma_height_le_len(left);
            Self::lemma_height_le_len(right);
        }
        let mut n = Node { value, height: 1, left, right };
        n.height = n.compute_height();
        Box::new(n)
    }
    /// Left rotation of a node whose right subtree is two levels taller than its
    /// left one and does not lean left: the right child's value comes up, this
    /// node's value goes down to the left.
    fn rotate_left(&mut self)
        requires
            old(self).right is Some,
            Self::link_wf(old(self).left),
            Self::link_wf(old(self).right),
            all_below(Self::seq_of(old(self).left), old(self).value),
            all_above(Self::seq_of(old(self).right), old(self).value),
            Self::height_of(old(self).right) == Self::height_of(old(self).left) + 2,
            Self::height_of(old(self).right.unwrap().right) >= Self::height_of(
                old(self).right.unwrap().left,
            ),
            old(self).values().len() <= u32::MAX,
        ensures
            final(self).wf(),
            final(self).values() == old(self).values(),
            Self::height_of(old(self).right) <= final(self).height <= Self::height_of(
                old(self).right,
            ) + 1,
            final(self).shape() == old(self).shape().rotate_left(),
    {
        let ghost l = Self::seq_of(self.left);
        let pivot = self.right.take().unwrap();
        let Node { value: pivot_value, height: _, left: inner, right: outer } = *pivot;
        proof {
            Self::lemma_height_le_len(inner);
            Self::lemma_height_le_len(outer);
            assert forall|x: T| #[trigger] Self::seq_of(inner).contains(x) implies self.value.less(
                x,
            ) by {
                assert(pivot.values().contains(x));
            }
            pivot.lemma_value_in();
            lemma_below_trans(l, self.value, pivot_value);
        }
        let lower = Self::from_parts(self.left.take(), self.value, inner);
        self.left = Some(lower);
        self.value = pivot_value;
        self.right = outer;
        self.height = self.compute_height();
        proof {
            assert(self.values() =~= old(self).values());
            assert(Self::shape_of(old(self).right) == node(
                Self::shape_of(inner),
                pivot_value,
                Self::shape_of(outer),
            ));
            assert(Self::shape_of(self.left) == node(
                Self::shape_of(old(self).left),
                old(self).value,
                Self::shape_of(inner),
            ));
        }
    }

    /// Mirror of `rotate_left`: the left child's value comes up.
    fn rotate_right(&mut self)
        requires
            old(self).left is Some,
            Self::link_wf(old(self).left),
            Self::link_wf(old(self).right),
            all_below(Self::seq_of(old(self).left), old(self).value),
            all_above(Self::seq_of(old(self).right), old(self).value),
            Self::height_of(old(self).left) == Self::height_of(old(self).right) + 2,
            Self::height_of(old(self).left.unwrap().left) >= Self::height_of(
                old(self).left.unwrap().right,
            ),
            old(self).values().len() <= u32::MAX,
        ensures
            final(self).wf(),
            final(self).values() == old(self).values(),
            Self::height_of(old(self).left) <= final(self).height <= Self::height_of(
                old(self).left,
            ) + 1,
            final(self).shape() == old(self).shape().rotate_right(),
    {
        let ghost r = Self::seq_of(self.right);
        let pivot = self.left.take().unwrap();
        let Node { value: pivot_value, height: _, left: outer, right: inner } = *pivot;
        proof {
            Self::lemma_height_le_len(inner);
            Self::lemma_height_le_len(outer);
            assert forall|x: T| #[trigger] Self::seq_of(inner).contains(x) implies x.less(
                self.value,
            ) by {
                assert(pivot.values().contains(x));
            }
            pivot.lemma_value_in();
            lemma_above_trans(r, self.value, pivot_value);
        }
        let upper = Self::from_parts(inner, self.value, self.right.take());
        self.right = Some(upper);
        self.value = pivot_value;
        self.left = outer;
        self.height = self.compute_height();
        proof {
            assert(self.values() =~= old(self).values());
            assert(Self::shape_of(old(self).left) == node(
                Self::shape_of(outer),
                pivot_value,
                Self::shape_of(inner),
            ));
            assert(Self::shape_of(self.right) == node(
                Self::shape_of(inner),
                old(self).value,
                Self::shape_of(old(self).right),
            ));
        }
    }

    /// Right-left double rotation of a node whose right subtree is two levels
    /// taller than its left one and leans left: the value of the right child's
    /// left child comes up.
    fn rotate_right_left(&mut self)
        requires
            old(self).right is Some,
            old(self).right.unwrap().left is Some,
            Self::link_wf(old(self).left),
            Self::link_wf(old(self).right),
            all_below(Self::seq_of(old(self).left), old(self).value),
            all_above(Self::seq_of(old(self).right), old(self).value),
            Self::height_of(old(self).right) == Self::height_of(old(self).left) + 2,
            Self::height_of(old(self).right.unwrap().left) == Self::height_of(
                old(self).right.unwrap().right,
            ) + 1,
            old(self).values().len() <= u32::MAX,
        ensures
            final(self).wf(),
            final(self).values() == old(self).values(),
            final(self).height == Self::height_of(old(self).right),
            final(self).shape() == node(
                Self::shape_of(old(self).left),
                old(self).value,
                Self::shape_of(old(self).right).rotate_right(),
            ).rotate_left(),
    {
        let ghost l = Self::seq_of(self.left);
        let pivot = self.right.take().unwrap();
        let Node { value: pivot_value, height: _, left: inner, right: outer } = *pivot;
        let middle = inner.unwrap();
        let Node { value: middle_value, height: _, left: middle_left, right: middle_right } =
            *middle;
        proof {
            assert(middle.wf());
            Self::lemma_height_le_len(middle_left);
            Self::lemma_height_le_len(middle_right);
            Self::lemma_height_le_len(outer);
            middle.lemma_value_in();
            assert(pivot.values().contains(middle_value));
            assert forall|x: T| #[trigger] Self::seq_of(middle_left).contains(x) implies (
            self.value.less(x) && x.less(middle_value)) by {
                assert(middle.values().contains(x));
                assert(pivot.values().contains(x));
            }
            assert forall|x: T| #[trigger] Self::seq_of(middle_right).contains(x) implies (
            middle_value.less(x) && x.less(pivot_value)) by {
                assert(middle.values().contains(x));
            }
            middle.lemma_value_in();
            lemma_below_trans(l, self.value, middle_value);
            lemma_above_trans(Self::seq_of(outer), pivot_value, middle_value);
        }
        let lower_left = Self::from_parts(self.left.take(), self.value, middle_left);
        let lower_right = Self::from_parts(middle_right, pivot_value, outer);
        self.left = Some(lower_left);
        self.value = middle_value;
        self.right = Some(lower_right);
        self.height = self.compute_height();
        proof {
            assert(self.values() =~= old(self).values());
            let ms = node(Self::shape_of(middle_left), middle_value, Self::shape_of(middle_right));
            assert(Self::shape_of(inner) == middle.shape());
            assert(Self::shape_of(inner) == ms);
            assert(Self::shape_of(old(self).right) == node(
                ms,
                pivot_value,
                Self::shape_of(outer),
            ));
            assert(Self::shape_of(old(self).right).rotate_right() == node(
                Self::shape_of(middle_left),
                middle_value,
                node(Self::shape_of(middle_right), pivot_value, Self::shape_of(outer)),
            ));
        }
    }

    /// Mirror of `rotate_right_left`: the value of the left child's right child
    /// comes up.
    fn rotate_left_right(&mut self)
        requires
            old(self).left is Some,
            old(self).left.unwrap().right is Some,
            Self::link_wf(old(self).left),
            Self::link_wf(old(self).right),
            all_below(Self::seq_of(old(self).left), old(self).value),
            all_above(Self::seq_of(old(self).right), old(self).value),
            Self::height_of(old(self).left) == Self::height_of(old(self).right) + 2,
            Self::height_of(old(self).left.unwrap().right) == Self::height_of(
                old(self).left.unwrap().left,
            ) + 1,
            old(self).values().len() <= u32::MAX,
        ensures
            final(self).wf(),
            final(self).values() == old(self).values(),
            final(self).height == Self::height_of(old(self).left),
            final(self).shape() == node(
                Self::shape_of(old(self).left).rotate_left(),
                old(self).value,
                Self::shape_of(old(self).right),
            ).rotate_right(),
    {
        let ghost r = Self::seq_of(self.right);
        let pivot = self.left.take().unwrap();
        let Node { value: pivot_value, height: _, left: outer, right: inner } = *pivot;
        let middle = inner.unwrap();
        let Node { value: middle_value, height: _, left: middle_left, right: middle_right } =
            *middle;
        proof {
            assert(middle.wf());
            Self::lemma_height_le_len(middle_left);
            Self::lemma_height_le_len(middle_right);
            Self::lemma_height_le_len(outer);
            middle.lemma_value_in();
            assert(pivot.values().contains(middle_value));
            assert forall|x: T| #[trigger] Self::seq_of(middle_right).contains(x) implies (
            x.less(self.value) && middle_value.less(x)) by {
                assert(middle.values().contains(x));
                assert(pivot.values().contains(x));
            }
            assert forall|x: T| #[trigger] Self::seq_of(middle_left).contains(x) implies (
            x.less(middle_value) && pivot_value.less(x)) by {
                assert(middle.values().contains(x));
            }
            middle.lemma_value_in();
            lemma_above_trans(r, self.value, middle_value);
            lemma_below_trans(Self::seq_of(outer), pivot_value, middle_value);
        }
        let lower_right = Self::from_parts(middle_right, self.value, self.right.take());
        let lower_left = Self::from_parts(outer, pivot_value, middle_left);
        self.left = Some(lower_left);
        self.value = middle_value;
        self.right = Some(lower_right);
        self.height = self.compute_height();
        proof {
            assert(self.values() =~= old(self).values());
            let ms = node(Self::shape_of(middle_left), middle_value, Self::shape_of(middle_right));
            assert(Self::shape_of(inner) == middle.shape());
            assert(Self::shape_of(inner) == ms);
            assert(Self::shape_of(old(self).left) == node(
                Self::shape_of(outer),
                pivot_value,
                ms,
            ));
            assert(Self::shape_of(old(self).left).rotate_left() == node(
                node(Self::shape_of(outer), pivot_value, Self::shape_of(middle_left)),
                middle_value,
                Self::shape_of(middle_right),
            ));
        }
    }

    /// Restores the AVL balance of a node whose subtrees are well formed and
    /// differ in height by at most two, with at most one (single or double)
    /// rotation, and recomputes its height. The order of values is kept.
    fn rebalance(&mut self)
        requires
            Self::link_wf(old(self).left),
            Self::link_wf(old(self).right),
            all_below(Self::seq_of(old(self).left), old(self).value),
            all_above(Self::seq_of(old(self).right), old(self).value),
            -2 <= Self::height_of(old(self).right) - Self::height_of(old(self).left) <= 2,
            old(self).values().len() <= u32::MAX,
        ensures
            final(self).wf(),
            final(self).values() == old(self).values(),
            ({
                let hl = Self::height_of(old(self).left);
                let hr = Self::height_of(old(self).right);
                &&& -1 <= hr - hl <= 1 ==> final(self).height == 1 + larger(hl, hr)
                &&& larger(hl, hr) <= final(self).height <= larger(hl, hr) + 1
            }),
            final(self).shape() == old(self).shape().rebalance(),
            -1 <= Self::height_of(old(self).right) - Self::height_of(old(self).left) <= 1 ==> {
                &&& final(self).value == old(self).value
                &&& final(self).left == old(self).left
                &&& final(self).right == old(self).right
            },
    {
        proof {
            Self::lemma_height_le_len(self.left);
            Self::lemma_height_le_len(self.right);
            Self::lemma_wf_facts(self.left);
            Self::lemma_wf_facts(self.right);
            if self.right is Some {
                Self::lemma_wf_facts(self.right.unwrap().left);
                Self::lemma_wf_facts(self.right.unwrap().right);
            }
            if self.left is Some {
                Self::lemma_wf_facts(self.left.unwrap().left);
                Self::lemma_wf_facts(self.left.unwrap().right);
            }
        }
        let bf = self.compute_balancing_factor();
        if bf > 1 {
            // right-heavy
            let right_bf = match &self.right {
                Some(r) => r.compute_balancing_factor(),
                None => 0,
            };
            if right_bf >= 0 {
                self.rotate_left();
            } else {
                self.rotate_right_left();
            }
        } else if bf < -1 {
            // left-heavy
            let left_bf = match &self.left {
                Some(l) => l.compute_balancing_factor(),
                None => 0,
            };
            if left_bf <= 0 {
                self.rotate_right();
            } else {
                self.rotate_left_right();
            }
        } else {
            self.height = self.compute_height();
            proof {
                assert(self.values() == old(self).values());
            }
        }
    }
    /// Inserts a value, rebalancing on the way back up; a value already
    /// present is refused and nothing changes.
    fn add(&mut self, value: T) -> (r: Result<(), TreeError>)
        requires
            old(self).wf(),
            old(self).values().len() < u32::MAX || old(self).values().contains(value),
        ensures
            final(self).wf(),
            final(self).shape() == old(self).shape().insert(value),
            r is Ok <==> !old(self).values().contains(value),
            r is Ok ==> {
                &&& forall|x: T| #[trigger]
                    final(self).values().contains(x) <==> (old(self).values().contains(x) || x
                        == value)
                &&& final(self).values().len() == old(self).values().len() + 1
                &&& old(self).height <= final(self).height <= old(self).height + 1
            },
            r is Err ==> r == Err::<(), TreeError>(TreeError::ValueAlreadyStored) && *final(self)
                == *old(self),
        decreases *old(self),
    {
        let ghost l = Self::seq_of(self.left);
        let ghost rs = Self::seq_of(self.right);
        proof {
            self.lemma_value_in();
            self.lemma_rebalance_keeps_wf();
        }
        let ghost ls = Self::shape_of(self.left);
        let ghost rsh = Self::shape_of(self.right);
        let ghost v = self.value;
        assert(old(self).shape() == node(ls, v, rsh));
        match value.compare(&self.value) {
            Ordering::Equal => {
                return Err(TreeError::ValueAlreadyStored);
            },
            Ordering::Less => {
                proof {
                    lemma_not_in_above(rs, self.value, value);
                    assert(old(self).shape().insert(value) == node(
                        ls.insert(value),
                        v,
                        rsh,
                    ).rebalance());
                }
                match self.left.take() {
                    None => {
                        let leaf = Node::new(value);
                        assert(leaf.values()[0] == value);
                        self.left = Some(Box::new(leaf));
                        assert(Self::shape_of(self.left) == ls.insert(value));
                    },
                    Some(mut branch) => {
                        let res = branch.add(value);
                        self.left = Some(branch);
                        assert(Self::shape_of(self.left) == ls.insert(value));
                        if res.is_err() {
                            assert(old(self).shape().insert(value) == node(
                                ls.insert(value),
                                v,
                                rsh,
                            ).rebalance());
                            return res;
                        }
                    },
                }
            },
            Ordering::Greater => {
                proof {
                    lemma_not_in_below(l, self.value, value);
                    assert(old(self).shape().insert(value) == node(
                        ls,
                        v,
                        rsh.insert(value),
                    ).rebalance());
                }
                match self.right.take() {
                    None => {
                        let leaf = Node::new(value);
                        assert(leaf.values()[0] == value);
                        self.right = Some(Box::new(leaf));
                        assert(Self::shape_of(self.right) == rsh.insert(value));
                    },
                    Some(mut branch) => {
                        let res = branch.add(value);
                        self.right = Some(branch);
                        assert(Self::shape_of(self.right) == rsh.insert(value));
                        if res.is_err() {
                            assert(old(self).shape().insert(value) == node(
                                ls,
                                v,
                                rsh.insert(value),
                            ).rebalance());
                            return res;
                        }
                    },
                }
            },
        }
        proof {
            Self::lemma_height_le_len(old(self).left);
            Self::lemma_height_le_len(old(self).right);
            assert forall|x: T| #[trigger]
                self.values().contains(x) <==> (old(self).values().contains(x) || x == value) by {
                if x == value {
                    assert(Self::seq_of(self.left).contains(x) || Self::seq_of(
                        self.right,
                    ).contains(x));
                }
            }
        }
        self.rebalance();
        Ok(())
    }

    /// Returns true if the value is currently a member of the (sub)tree
    fn contains(&self, value: &T) -> (r: bool)
        requires
            self.wf(),
        ensures
            r == self.values().contains(*value),
        decreases self,
    {
        proof {
            self.lemma_value_in();
        }
        match value.compare(&self.value) {
            Ordering::Equal => true,
            Ordering::Less => {
                proof {
                    lemma_not_in_above(Self::seq_of(self.right), self.value, *value);
                }
                match &self.left {
                    Some(node) => node.contains(value),
                    None => false,
                }
            },
            Ordering::Greater => {
                proof {
                    lemma_not_in_below(Self::seq_of(self.left), self.value, *value);
                }
                match &self.right {
                    Some(node) => node.contains(value),
                    None => false,
                }
            },
        }
    }

    /// Returns true if the node is a leaf or terminal node, with no child nodes of its own.
    fn is_leaf(&self) -> (r: bool)
        ensures
            r == (self.left is None && self.right is None),
    {
        self.left.is_none() && self.right.is_none()
    }

    /// Returns the smallest/lowest value in this (sub)tree.
    fn least_value(&self) -> (r: T)
        ensures
            r == self.values().first(),
            r == self.shape().least(),
        decreases self,
    {
        match &self.left {
            None => self.value,
            Some(left_child) => left_child.least_value(),
        }
    }

    /// Returns the largest/highest value in this (sub)tree.
    fn greatest_value(&self) -> (r: T)
        ensures
            r == self.values().last(),
        decreases self,
    {
        match &self.right {
            None => self.value,
            Some(right_child) => right_child.greatest_value(),
        }
    }

    /// Appends the values of this subtree to the vector, left to right.
    fn collect_values_l_to_r(&self, value_vector: &mut Vec<T>)
        ensures
            final(value_vector)@ == old(value_vector)@ + self.values(),
        decreases self,
    {
        match &self.left {
            Some(node) => node.collect_values_l_to_r(value_vector),
            None => (),
        }
        value_vector.push(self.value);
        match &self.right {
            Some(node) => node.collect_values_l_to_r(value_vector),
            None => (),
        }
        proof {
            assert(value_vector@ =~= old(value_vector)@ + self.values());
        }
    }

    /// Appends the values of this subtree to the vector, right to left.
    fn collect_values_r_to_l(&self, value_vector: &mut Vec<T>)
        ensures
            final(value_vector)@ == old(value_vector)@ + self.values().reverse(),
        decreases self,
    {
        match &self.right {
            Some(node) => node.collect_values_r_to_l(value_vector),
            None => (),
        }
        value_vector.push(self.value);
        match &self.left {
            Some(node) => node.collect_values_r_to_l(value_vector),
            None => (),
        }
        proof {
            assert(value_vector@ =~= old(value_vector)@ + self.values().reverse());
        }
    }
    /// If the value is in this subtree, removes it and hands back the subtree
    /// that replaces this one (none when it becomes empty); otherwise reports
    /// `ValueNotFound` and hands back this node unchanged.
    ///
    /// A node with two children takes the value of its in-order successor, the
    /// least value of its right subtree, which is then removed from there.
    #[verifier::rlimit(40)]
    fn drop_value(self, value: T) -> (r: (Result<(), TreeError>, Option<Box<Node<T>>>))
        requires
            self.wf(),
            self.values().len() <= u32::MAX,
        ensures
            Self::shape_of(r.1) == self.shape().delete(value),
            r.0 is Ok <==> self.values().contains(value),
            r.0 is Ok ==> {
                &&& Self::link_wf(r.1)
                &&& forall|x: T| #[trigger]
                    Self::seq_of(r.1).contains(x) <==> (self.values().contains(x) && x != value)
                &&& Self::seq_of(r.1).len() + 1 == self.values().len()
                &&& self.height - 1 <= Self::height_of(r.1) <= self.height
            },
            r.0 is Err ==> r.0 == Err::<(), TreeError>(TreeError::ValueNotFound) && r.1 == Some(
                Box::new(self),
            ),
        decreases self,
    {
        let ghost l = Self::seq_of(self.left);
        let ghost rs = Self::seq_of(self.right);
        let ghost vals = self.values();
        proof {
            self.lemma_value_in();
            Self::lemma_height_le_len(self.left);
            Self::lemma_height_le_len(self.right);
            self.lemma_rebalance_keeps_wf();
            T::lemma_irreflexive(value);
        }
        let ghost ls = Self::shape_of(self.left);
        let ghost rsh = Self::shape_of(self.right);
        let ghost v = self.value;
        let ghost me = self.shape();
        assert(me == node(ls, v, rsh));
        let mut cur = self;
        match value.compare(&cur.value) {
            Ordering::Less => {
                proof {
                    lemma_not_in_above(rs, cur.value, value);
                    assert(me.delete(value) == node(ls.delete(value), v, rsh).rebalance());
                }
                match cur.left.take() {
                    None => (Err(TreeError::ValueNotFound), Some(Box::new(cur))),
                    Some(left_child) => {
                        let (res, new_left) = (*left_child).drop_value(value);
                        cur.left = new_left;
                        assert(Self::shape_of(cur.left) == ls.delete(value));
                        assert(cur.shape() == node(ls.delete(value), v, rsh));
                        match res {
                            Err(e) => (Err(e), Some(Box::new(cur))),
                            Ok(()) => {
                                proof {
                                    assert forall|x: T| #[trigger] cur.values().contains(x) <==> (
                                    vals.contains(x) && x != value) by {
                                        if x == cur.value {
                                            lemma_asymmetric(value, x);
                                        }
                                    }
                                }
                                cur.rebalance();
                                (Ok(()), Some(Box::new(cur)))
                            },
                        }
                    },
                }
            },
            Ordering::Greater => {
                proof {
                    lemma_not_in_below(l, cur.value, value);
                    assert(me.delete(value) == node(ls, v, rsh.delete(value)).rebalance());
                }
                match cur.right.take() {
                    None => (Err(TreeError::ValueNotFound), Some(Box::new(cur))),
                    Some(right_child) => {
                        let (res, new_right) = (*right_child).drop_value(value);
                        cur.right = new_right;
                        assert(Self::shape_of(cur.right) == rsh.delete(value));
                        assert(cur.shape() == node(ls, v, rsh.delete(value)));
                        match res {
                            Err(e) => (Err(e), Some(Box::new(cur))),
                            Ok(()) => {
                                proof {
                                    assert forall|x: T| #[trigger] cur.values().contains(x) <==> (
                                    vals.contains(x) && x != value) by {
                                        if x == cur.value {
                                            lemma_asymmetric(x, value);
                                        }
                                    }
                                }
                                cur.rebalance();
                                (Ok(()), Some(Box::new(cur)))
                            },
                        }
                    },
                }
            },
            Ordering::Equal => {
                proof {
                    lemma_not_in_below(l, cur.value, value);
                    lemma_not_in_above(rs, cur.value, value);
                }
                if cur.is_leaf() {
                    assert(vals =~= seq![value]);
                    return (Ok(()), None);
                }
                if cur.left.is_none() {
                    assert(vals =~= seq![value] + rs);
                    return (Ok(()), cur.right);
                }
                if cur.right.is_none() {
                    assert(vals =~= l + seq![value]);
                    return (Ok(()), cur.left);
                }
                let right_child = cur.right.take().unwrap();
                let successor = right_child.least_value();
                proof {
                    Self::lemma_wf_facts(Some(right_child));
                    assert(right_child.values().contains(successor));
                    lemma_below_trans(l, cur.value, successor);
                }
                let (_, new_right) = (*right_child).drop_value(successor);
                assert(rsh == right_child.shape());
                assert(me.delete(value) == node(ls, successor, rsh.delete(successor)).rebalance());
                proof {
                    assert forall|x: T| #[trigger] Self::seq_of(new_right).contains(x) implies successor.less(x) by {
                        let i = choose|i: int| 0 <= i < rs.len() && rs[i] == x;
                        assert(i != 0);
                    }
                }
                cur.value = successor;
                cur.right = new_right;
                proof {
                    assert(cur.shape() == node(ls, successor, rsh.delete(successor)));
                    cur.lemma_value_in();
                    assert(cur.values() == l + seq![successor] + Self::seq_of(new_right));
                    assert forall|x: T| #[trigger] cur.values().contains(x) <==> (vals.contains(x)
                        && x != value) by {
                        if x == value {
                            lemma_not_in_below(l, value, x);
                            lemma_asymmetric(value, successor);
                        }
                        if x == successor {
                            lemma_asymmetric(value, successor);
                        }
                    }
                }
                cur.rebalance();
                (Ok(()), Some(Box::new(cur)))
            },
        }
    }
}

/// # AVL tree
///
/// A self-balancing binary search tree of unique values: an ordered set whose
/// height stays logarithmic in its size under any order of insertions and
/// deletions, so lookups stay O(log(n)).
pub struct Javlt<T: TreeValue> {
    size: u32,
    root: Option<Box<Node<T>>>,
}

impl<T: TreeValue> View for Javlt<T> {
    type V = Seq<T>;

    /// The values of the tree in ascending order.
    closed spec fn view(&self) -> Seq<T> {
        Node::seq_of(self.root)
    }
}

impl<T: TreeValue> Javlt<T> {
    /// The size counts the nodes, and every node keeps search order, a
    /// correct stored height and AVL balance.
    pub closed spec fn wf(&self) -> bool {
        &&& Node::link_wf(self.root)
        &&& self.size as int == Node::seq_of(self.root).len()
    }

    /// The shape of the tree.
    pub closed spec fn shape(&self) -> Shape<T> {
        Node::shape_of(self.root)
    }

    /// At every node the heights of the two subtrees differ by at most one.
    pub open spec fn is_balanced(&self) -> bool {
        self.shape().is_balanced()
    }

    /// The values of the tree are those of its shape, left to right.
    pub proof fn lemma_view_in_order(&self)
        ensures
            self@ == self.shape().in_order(),
    {
        Node::lemma_in_order(self.root);
    }

    /// A well-formed tree lists its values in ascending order and is balanced.
    pub proof fn lemma_wf_ascending_balanced(&self)
        requires
            self.wf(),
        ensures
            is_ascending(self@),
            self.is_balanced(),
    {
        Node::lemma_wf_facts(self.root);
    }

    /// The height of a well-formed tree grows at most logarithmically with its
    /// size: a tree of height `h` holds at least `2^(h/2) - 1` values.
    pub proof fn lemma_height_logarithmic(&self)
        requires
            self.wf(),
        ensures
            pow2(self.shape().height() / 2) <= self@.len() + 1,
    {
        self.lemma_wf_ascending_balanced();
        self.lemma_view_in_order();
        self.shape().lemma_height_logarithmic();
    }

    /// Create a new tree with no data
    pub fn new() -> (r: Self)
        ensures
            r.wf(),
            r@ == Seq::<T>::empty(),
            r.shape() == Shape::<T>::Leaf,
    {
        Javlt { root: None, size: 0 }
    }

    /// Create a new tree from a collection, skipping duplicates, effectively
    /// turning a list into an ordered set of unique values.
    pub fn from_collection(collection: Vec<T>) -> (r: Self)
        requires
            collection@.to_set().len() <= u32::MAX,
        ensures
            r.wf(),
            is_ascending(r@),
            r.is_balanced(),
            r@.to_set() == collection@.to_set(),
            r.shape() == Shape::<T>::Leaf.insert_all(collection@),
    {
        let mut new_tree = Self::new();
        proof {
            assert(new_tree@ + collection@ =~= collection@);
        }
        let _ = new_tree.add_all_skipping_duplicates(collection);
        proof {
            assert(new_tree@.to_set() =~= collection@.to_set());
        }
        new_tree
    }

    /// Insert a value; a value already present is refused with
    /// `ValueAlreadyStored` and the tree is left as it was.
    pub fn add(&mut self, value: T) -> (r: Result<(), TreeError>)
        requires
            old(self).wf(),
            old(self)@.len() < u32::MAX || old(self)@.contains(value),
        ensures
            final(self).wf(),
            final(self).is_balanced(),
            final(self).shape() == old(self).shape().insert(value),
            add_result(old(self)@, value, r, final(self)@),
            r is Err ==> *final(self) == *old(self),
    {
        match self.root.take() {
            None => {
                let leaf = Node::new(value);
                self.root = Some(Box::new(leaf));
                proof {
                    assert(self.shape() == leaf.shape());
                    assert(self@ =~= seq![value]);
                    assert(self@[0] == value);
                }
            },
            Some(mut branch) => {
                let res = branch.add(value);
                self.root = Some(branch);
                if res.is_err() {
                    proof {
                        self.lemma_wf_ascending_balanced();
                    }
                    return res;
                }
            },
        }
        self.size = self.size + 1;
        proof {
            self.lemma_wf_ascending_balanced();
        }
        Ok(())
    }

    /// Alias for add_all_skipping_duplicates. Adds all members of a collection to the tree.
    pub fn add_all(&mut self, collection: Vec<T>) -> (r: Result<(), TreeError>)
        requires
            old(self).wf(),
            (old(self)@ + collection@).to_set().len() <= u32::MAX,
        ensures
            final(self).wf(),
            is_ascending(final(self)@),
            final(self).is_balanced(),
            r is Ok,
            final(self)@.to_set() == old(self)@.to_set() + collection@.to_set(),
            final(self).shape() == old(self).shape().insert_all(collection@),
    {
        self.add_all_skipping_duplicates(collection)
    }

    /// Adds all members of a collection to the tree, skipping over any that
    /// would be duplicates, so no error will stop the batch.
    pub fn add_all_skipping_duplicates(&mut self, collection: Vec<T>) -> (r: Result<(), TreeError>)
        requires
            old(self).wf(),
            (old(self)@ + collection@).to_set().len() <= u32::MAX,
        ensures
            final(self).wf(),
            is_ascending(final(self)@),
            final(self).is_balanced(),
            r is Ok,
            final(self)@.to_set() == old(self)@.to_set() + collection@.to_set(),
            final(self).shape() == old(self).shape().insert_all(collection@),
    {
        let n = collection.len();
        let mut i: usize = 0;
        while i < n
            invariant
                n == collection@.len(),
                0 <= i <= n,
                self.wf(),
                (old(self)@ + collection@).to_set().len() <= u32::MAX,
                forall|x: T| #[trigger] self@.contains(x) ==> (old(self)@ + collection@).contains(x),
                self@.to_set() == old(self)@.to_set() + collection@.take(i as int).to_set(),
                self.shape() == old(self).shape().insert_all(collection@.take(i as int)),
            decreases n - i,
        {
            let elem = collection[i];
            let ghost before = self@;
            proof {
                let pool = old(self)@ + collection@;
                assert(pool[old(self)@.len() + i] == elem);
                if !self@.contains(elem) {
                    self.lemma_wf_ascending_balanced();
                    lemma_room_for(self@, pool, elem);
                }
            }
            let _ = self.add(elem);
            proof {
                let pool = old(self)@ + collection@;
                assert forall|x: T| #[trigger] self@.contains(x) implies pool.contains(x) by {
                    if x == elem {
                        assert(pool[old(self)@.len() + i] == elem);
                    }
                }
                assert(collection@.take(i + 1).drop_last() =~= collection@.take(i as int));
                assert(collection@.take(i + 1) =~= collection@.take(i as int).push(elem));
                collection@.take(i as int).lemma_push_to_set_commute(elem);
                assert(self@.to_set() =~= before.to_set().insert(elem)) by {
                    if self@ != before {
                        assert(self@.contains(elem));
                    }
                }
                assert(self@.to_set() =~= old(self)@.to_set() + collection@.take(i + 1).to_set());
            }
            i = i + 1;
        }
        proof {
            assert(collection@.take(n as int) =~= collection@);
            assert(old(self)@ + collection@ =~= old(self)@ + collection@.take(n as int));
            self.lemma_wf_ascending_balanced();
        }
        Ok(())
    }

    /// Get the number of values in the tree
    pub fn get_size(&self) -> (r: u32)
        requires
            self.wf(),
        ensures
            r == self@.len(),
    {
        self.size
    }

    /// Returns the value held by the top node, if any.
    pub fn get_root_value(&self) -> (r: Option<T>)
        ensures
            r == self.shape().root_value(),
    {
        match &self.root {
            None => None,
            Some(node) => Some(node.value),
        }
    }

    /// Returns the height of the tree (0 when it is empty).
    pub fn get_root_height(&self) -> (r: u32)
        requires
            self.wf(),
        ensures
            r == self.shape().height(),
    {
        proof {
            Node::lemma_wf_facts(self.root);
        }
        match &self.root {
            None => 0,
            Some(node) => node.height,
        }
    }

    /// Returns the balancing factor of the top node (0 when the tree is empty).
    pub fn get_root_balancing_factor(&self) -> (r: i64)
        requires
            self.wf(),
        ensures
            r == self.shape().balance(),
    {
        proof {
            Node::lemma_wf_facts(self.root);
        }
        match &self.root {
            None => 0,
            Some(node) => {
                proof {
                    Node::lemma_wf_facts(node.left);
                    Node::lemma_wf_facts(node.right);
                }
                node.compute_balancing_factor()
            },
        }
    }

    /// Returns true if the value is currently a member of the tree
    pub fn contains(&self, value: &T) -> (r: bool)
        requires
            self.wf(),
        ensures
            r == self@.contains(*value),
    {
        match &self.root {
            None => false,
            Some(branch) => branch.contains(value),
        }
    }

    /// Short for `as_vec_l_to_r`: all the values in the tree from least to greatest.
    pub fn as_vec(&self) -> (r: Vec<T>)
        ensures
            r@ == self@,
    {
        self.as_vec_l_to_r()
    }

    /// Returns all the values in the tree as an ordered Vec from least to greatest (left to right).
    pub fn as_vec_l_to_r(&self) -> (r: Vec<T>)
        ensures
            r@ == self@,
    {
        match &self.root {
            None => Vec::new(),
            Some(branch) => {
                let mut vals = Vec::new();
                branch.collect_values_l_to_r(&mut vals);
                proof {
                    assert(vals@ =~= self@);
                }
                vals
            },
        }
    }

    /// Returns all the values in the tree as an ordered Vec from greatest to least (right to left).
    pub fn as_vec_r_to_l(&self) -> (r: Vec<T>)
        ensures
            r@ == self@.reverse(),
    {
        match &self.root {
            None => {
                let vals = Vec::new();
                proof {
                    assert(vals@ =~= self@.reverse());
                }
                vals
            },
            Some(branch) => {
                let mut vals = Vec::new();
                branch.collect_values_r_to_l(&mut vals);
                proof {
                    assert(vals@ =~= self@.reverse());
                }
                vals
            },
        }
    }

    /// Returns the smallest/lowest value in the tree, if any.
    pub fn least_value(&self) -> (r: Option<T>)
        ensures
            r == (if self@.len() == 0 {
                None
            } else {
                Some(self@.first())
            }),
    {
        match &self.root {
            None => None,
            Some(subtree) => Some(subtree.least_value()),
        }
    }

    /// Returns the largest/highest value in the tree, if any.
    pub fn greatest_value(&self) -> (r: Option<T>)
        ensures
            r == (if self@.len() == 0 {
                None
            } else {
                Some(self@.last())
            }),
    {
        match &self.root {
            None => None,
            Some(subtree) => Some(subtree.greatest_value()),
        }
    }

    /// If the value is in the tree, delete it. Otherwise `ValueNotFound` is
    /// returned and the tree is left as it was.
    pub fn drop_value(&mut self, value: T) -> (r: Result<(), TreeError>)
        requires
            old(self).wf(),
        ensures
            final(self).wf(),
            final(self).is_balanced(),
            final(self).shape() == old(self).shape().delete(value),
            drop_result(old(self)@, value, r, final(self)@),
            r is Err ==> *final(self) == *old(self),
    {
        match self.root.take() {
            None => {
                proof {
                    self.lemma_wf_ascending_balanced();
                }
                Err(TreeError::ValueNotFound)
            },
            Some(child) => {
                match (*child).drop_value(value) {
                    (Err(_), new_node) => {
                        self.root = new_node;
                        proof {
                            self.lemma_wf_ascending_balanced();
                        }
                        Err(TreeError::ValueNotFound)
                    },
                    (Ok(_), new_node) => {
                        self.root = new_node;
                        self.size = self.size - 1;
                        proof {
                            self.lemma_wf_ascending_balanced();
                        }
                        Ok(())
                    },
                }
            },
        }
    }
}

} // verus!
