//! The shape of a binary tree as a mathematical value, and what insertion,
//! deletion and the AVL rebalancing rules do to it. The trees' contracts state
//! their results over these functions.
use vstd::prelude::*;

use crate::order::{copies, TreeValue};
use vstd::arithmetic::power2::{
    lemma2_to64, lemma_pow2_strictly_increases, lemma_pow2_unfold, pow2,
};

verus! {

/// A binary tree: empty, or a value with a left and a right subtree.
pub enum Shape<T> {
    Leaf,
    Node(Box<Shape<T>>, T, Box<Shape<T>>),
}

/// A node over the given parts.
pub open spec fn node<T>(l: Shape<T>, v: T, r: Shape<T>) -> Shape<T> {
    Shape::Node(Box::new(l), v, Box::new(r))
}

/// The larger of two integers.
pub open spec fn larger(a: int, b: int) -> int {
    if a >= b {
        a
    } else {
        b
    }
}

impl<T: TreeValue> Shape<T> {
    /// The number of nodes on the longest path down from the top.
    pub open spec fn height(self) -> nat
        decreases self,
    {
        match self {
            Shape::Leaf => 0,
            Shape::Node(l, _, r) => 1 + larger(l.height() as int, r.height() as int) as nat,
        }
    }

    /// Height of the right subtree minus that of the left one (0 when empty).
    pub open spec fn balance(self) -> int {
        match self {
            Shape::Leaf => 0,
            Shape::Node(l, _, r) => r.height() - l.height(),
        }
    }

    /// At every node the two subtrees differ in height by at most one.
    pub open spec fn is_balanced(self) -> bool
        decreases self,
    {
        match self {
            Shape::Leaf => true,
            Shape::Node(l, _, r) => l.is_balanced() && r.is_balanced() && -1 <= self.balance() <= 1,
        }
    }

    /// The values, left to right.
    pub open spec fn in_order(self) -> Seq<T>
        decreases self,
    {
        match self {
            Shape::Leaf => Seq::empty(),
            Shape::Node(l, v, r) => l.in_order() + seq![v] + r.in_order(),
        }
    }

    /// The value at the top.
    pub open spec fn root_value(self) -> Option<T> {
        match self {
            Shape::Leaf => None,
            Shape::Node(_, v, _) => Some(v),
        }
    }

    /// The value of the leftmost node.
    pub open spec fn least(self) -> T
        recommends
            self is Node,
        decreases self,
    {
        match self {
            Shape::Leaf => arbitrary(),
            Shape::Node(l, v, _) => if *l is Leaf {
                v
            } else {
                l.least()
            },
        }
    }

    /// Left rotation: the right child comes up, the top goes down to the left
    /// and takes the right child's left subtree as its right one.
    pub open spec fn rotate_left(self) -> Shape<T> {
        match self {
            Shape::Node(l, v, r) => match *r {
                Shape::Node(rl, rv, rr) => node(node(*l, v, *rl), rv, *rr),
                Shape::Leaf => self,
            },
            Shape::Leaf => self,
        }
    }

    /// Right rotation: the left child comes up, the top goes down to the right
    /// and takes the left child's right subtree as its left one.
    pub open spec fn rotate_right(self) -> Shape<T> {
        match self {
            Shape::Node(l, v, r) => match *l {
                Shape::Node(ll, lv, lr) => node(*ll, lv, node(*lr, v, *r)),
                Shape::Leaf => self,
            },
            Shape::Leaf => self,
        }
    }

    /// The AVL rebalancer: a right-heavy top (balance above 1) is rotated left,
    /// after a right rotation of its right child when that child leans left;
    /// a left-heavy top mirrors this; any other tree is left as it is.
    pub open spec fn rebalance(self) -> Shape<T> {
        match self {
            Shape::Leaf => self,
            Shape::Node(l, v, r) => if self.balance() > 1 {
                if r.balance() >= 0 {
                    self.rotate_left()
                } else {
                    node(*l, v, r.rotate_right()).rotate_left()
                }
            } else if self.balance() < -1 {
                if l.balance() <= 0 {
                    self.rotate_right()
                } else {
                    node(l.rotate_left(), v, *r).rotate_right()
                }
            } else {
                self
            },
        }
    }

    /// AVL insertion: descend by comparison, place a new leaf, and rebalance
    /// every node on the way back up; a value already present changes nothing.
    pub open spec fn insert(self, x: T) -> Shape<T>
        decreases self,
    {
        match self {
            Shape::Leaf => node(Shape::Leaf, x, Shape::Leaf),
            Shape::Node(l, v, r) => if x == v {
                self
            } else if x.less(v) {
                node(l.insert(x), v, *r).rebalance()
            } else {
                node(*l, v, r.insert(x)).rebalance()
            },
        }
    }

    /// AVL deletion: descend by comparison and rebalance every node on the way
    /// back up. A matching node without a left subtree is replaced by its right
    /// one, without a right subtree by its left one; a node with both takes the
    /// least value of its right subtree, which is then deleted from there.
    pub open spec fn delete(self, x: T) -> Shape<T>
        decreases self,
    {
        match self {
            Shape::Leaf => self,
            Shape::Node(l, v, r) => if x.less(v) {
                node(l.delete(x), v, *r).rebalance()
            } else if v.less(x) {
                node(*l, v, r.delete(x)).rebalance()
            } else if *l is Leaf {
                *r
            } else if *r is Leaf {
                *l
            } else {
                node(*l, r.least(), r.delete(r.least())).rebalance()
            },
        }
    }

    /// A balanced tree of height `h` holds at least `2^(h/2) - 1` values, so
    /// its height grows at most logarithmically with its size.
    pub proof fn lemma_height_logarithmic(self)
        requires
            self.is_balanced(),
        ensures
            pow2(self.height() / 2) <= self.in_order().len() + 1,
        decreases self,
    {
        lemma2_to64();
        if let Shape::Node(l, v, r) = self {
            l.lemma_height_logarithmic();
            r.lemma_height_logarithmic();
            let h = self.height();
            let k = h / 2;
            let el = l.height() / 2;
            let er = r.height() / 2;
            assert(self.in_order().len() == l.in_order().len() + 1 + r.in_order().len());
            if h % 2 == 0 {
                // both subtrees have height at least h - 2 = 2(k - 1)
                let j = (k - 1) as nat;
                assert(el >= j && er >= j);
                if j < el {
                    lemma_pow2_strictly_increases(j, el);
                }
                if j < er {
                    lemma_pow2_strictly_increases(j, er);
                }
                lemma_pow2_unfold(k);
            } else {
                // the taller subtree has height h - 1 = 2k
                if l.height() >= r.height() {
                    assert(el == k);
                } else {
                    assert(er == k);
                }
            }
        }
    }

    /// Insertion of each value of `xs` in turn.
    pub open spec fn insert_all(self, xs: Seq<T>) -> Shape<T>
        decreases xs.len(),
    {
        if xs.len() == 0 {
            self
        } else {
            self.insert_all(xs.drop_last()).insert(xs.last())
        }
    }

    /// Insertion into a plain (unbalanced) search tree: the new value becomes a
    /// leaf; a value already present changes nothing.
    pub open spec fn plain_insert(self, x: T) -> Shape<T>
        decreases self,
    {
        match self {
            Shape::Leaf => node(Shape::Leaf, x, Shape::Leaf),
            Shape::Node(l, v, r) => if x == v {
                self
            } else if x.less(v) {
                node(l.plain_insert(x), v, *r)
            } else {
                node(*l, v, r.plain_insert(x))
            },
        }
    }

    /// Deletion from a plain search tree, by the same cases as `delete` but
    /// without rebalancing.
    pub open spec fn plain_delete(self, x: T) -> Shape<T>
        decreases self,
    {
        match self {
            Shape::Leaf => self,
            Shape::Node(l, v, r) => if x.less(v) {
                node(l.plain_delete(x), v, *r)
            } else if v.less(x) {
                node(*l, v, r.plain_delete(x))
            } else if *l is Leaf {
                *r
            } else if *r is Leaf {
                *l
            } else {
                node(*l, r.least(), r.plain_delete(r.least()))
            },
        }
    }

    /// Plain insertion of each value of `xs` in turn.
    pub open spec fn plain_insert_all(self, xs: Seq<T>) -> Shape<T>
        decreases xs.len(),
    {
        if xs.len() == 0 {
            self
        } else {
            self.plain_insert_all(xs.drop_last()).plain_insert(xs.last())
        }
    }
}

/// A binary tree whose nodes count how many times their value is held.
pub enum CountedShape<T> {
    Leaf,
    Node(Box<CountedShape<T>>, T, nat, Box<CountedShape<T>>),
}

/// A counting node over the given parts.
pub open spec fn counted_node<T>(l: CountedShape<T>, v: T, c: nat, r: CountedShape<T>) -> CountedShape<T> {
    CountedShape::Node(Box::new(l), v, c, Box::new(r))
}

impl<T: TreeValue> CountedShape<T> {
    /// The values, left to right, each repeated as often as it is counted.
    pub open spec fn in_order(self) -> Seq<T>
        decreases self,
    {
        match self {
            CountedShape::Leaf => Seq::empty(),
            CountedShape::Node(l, v, c, r) => l.in_order() + copies(v, c) + r.in_order(),
        }
    }

    /// The value at the top.
    pub open spec fn root_value(self) -> Option<T> {
        match self {
            CountedShape::Leaf => None,
            CountedShape::Node(_, v, _, _) => Some(v),
        }
    }

    /// The value of the leftmost node.
    pub open spec fn least_value(self) -> T
        decreases self,
    {
        match self {
            CountedShape::Leaf => arbitrary(),
            CountedShape::Node(l, v, _, _) => if *l is Leaf {
                v
            } else {
                l.least_value()
            },
        }
    }

    /// The count of the leftmost node.
    pub open spec fn least_count(self) -> nat
        decreases self,
    {
        match self {
            CountedShape::Leaf => 0,
            CountedShape::Node(l, _, c, _) => if *l is Leaf {
                c
            } else {
                l.least_count()
            },
        }
    }

    /// The tree without its leftmost node, whose right subtree takes its place.
    pub open spec fn without_least(self) -> CountedShape<T>
        decreases self,
    {
        match self {
            CountedShape::Leaf => self,
            CountedShape::Node(l, v, c, r) => if *l is Leaf {
                *r
            } else {
                counted_node(l.without_least(), v, c, *r)
            },
        }
    }

    /// Insertion: a value already held has its count raised, in place; a new
    /// value becomes a leaf counted once.
    pub open spec fn insert(self, x: T) -> CountedShape<T>
        decreases self,
    {
        match self {
            CountedShape::Leaf => counted_node(CountedShape::Leaf, x, 1, CountedShape::Leaf),
            CountedShape::Node(l, v, c, r) => if x == v {
                counted_node(*l, v, c + 1, *r)
            } else if x.less(v) {
                counted_node(l.insert(x), v, c, *r)
            } else {
                counted_node(*l, v, c, r.insert(x))
            },
        }
    }

    /// Deletion of one occurrence: a value counted more than once has its count
    /// lowered, in place. A node counted once is replaced by its right subtree
    /// when it has no left one, by its left subtree when it has no right one,
    /// and otherwise takes over the leftmost node of its right subtree, value
    /// and count, which leaves that subtree.
    pub open spec fn delete(self, x: T) -> CountedShape<T>
        decreases self,
    {
        match self {
            CountedShape::Leaf => self,
            CountedShape::Node(l, v, c, r) => if x.less(v) {
                counted_node(l.delete(x), v, c, *r)
            } else if v.less(x) {
                counted_node(*l, v, c, r.delete(x))
            } else if c > 1 {
                counted_node(*l, v, (c - 1) as nat, *r)
            } else if *l is Leaf {
                *r
            } else if *r is Leaf {
                *l
            } else {
                counted_node(*l, r.least_value(), r.least_count(), r.without_least())
            },
        }
    }

    /// Insertion of each value of `xs` in turn.
    pub open spec fn insert_all(self, xs: Seq<T>) -> CountedShape<T>
        decreases xs.len(),
    {
        if xs.len() == 0 {
            self
        } else {
            self.insert_all(xs.drop_last()).insert(xs.last())
        }
    }
}

} // verus!
