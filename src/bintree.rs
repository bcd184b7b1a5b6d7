//! A plain (unbalanced) binary search tree of unique `u32` values, kept over
//! the same nodes as `Jbst`.
use vstd::prelude::*;

use crate::errors::TreeError;
use crate::ordered_set::{add_result, drop_result};
use crate::jbst::Jbst;
use crate::order::is_ascending;
use crate::shape::Shape;

verus! {

/// A regular (unbalanced) binary search tree for unique values (no duplicates).
pub struct BinTree {
    tree: Jbst,
}

impl View for BinTree {
    type V = Seq<u32>;

    /// The values of the tree in ascending order.
    closed spec fn view(&self) -> Seq<u32> {
        self.tree@
    }
}

impl BinTree {
    pub closed spec fn wf(&self) -> bool {
        self.tree.wf()
    }

    /// The shape of the tree.
    pub closed spec fn shape(&self) -> Shape<u32> {
        self.tree.shape()
    }

    /// The values of the tree are those of its shape, left to right.
    pub proof fn lemma_view_in_order(&self)
        ensures
            self@ == self.shape().in_order(),
    {
        self.tree.lemma_view_in_order();
    }

    /// Create a new tree with no data
    pub fn new() -> (r: Self)
        ensures
            r.wf(),
            r@ == Seq::<u32>::empty(),
            r.shape() == Shape::<u32>::Leaf,
    {
        BinTree { tree: Jbst::new() }
    }

    /// Insert a value; a value already present is refused with
    /// `ValueAlreadyStored` and the tree is left as it was.
    pub fn add(&mut self, value: u32) -> (r: Result<(), TreeError>)
        requires
            old(self).wf(),
            old(self)@.len() < u32::MAX || old(self)@.contains(value),
        ensures
            final(self).wf(),
            final(self).shape() == old(self).shape().plain_insert(value),
            add_result(old(self)@, value, r, final(self)@),
            r is Err ==> *final(self) == *old(self),
    {
        self.tree.add(value)
    }

    /// Adds all members of a collection to the tree, skipping over any that
    /// would be duplicates, so no error will stop the batch.
    pub fn add_all_skipping_duplicates(&mut self, collection: Vec<u32>) -> (r: Result<
        (),
        TreeError,
    >)
        requires
            old(self).wf(),
            (old(self)@ + collection@).to_set().len() <= u32::MAX,
        ensures
            final(self).wf(),
            is_ascending(final(self)@),
            r is Ok,
            final(self)@.to_set() == old(self)@.to_set() + collection@.to_set(),
            final(self).shape() == old(self).shape().plain_insert_all(collection@),
    {
        self.tree.add_all_skipping_duplicates(collection)
    }

    /// Get the number of values in the tree
    pub fn get_size(&self) -> (r: u32)
        requires
            self.wf(),
        ensures
            r == self@.len(),
    {
        self.tree.get_size()
    }

    /// Returns the value held by the top node, if any.
    pub fn get_root_value(&self) -> (r: Option<u32>)
        ensures
            r == self.shape().root_value(),
    {
        self.tree.get_root_value()
    }

    /// Returns true if the value is currently a member of the tree
    pub fn contains(&self, value: &u32) -> (r: bool)
        requires
            self.wf(),
        ensures
            r == self@.contains(*value),
    {
        self.tree.contains(value)
    }

    /// Short for `as_vec_l_to_r`: all the values in the tree from least to greatest.
    pub fn as_vec(&self) -> (r: Vec<u32>)
        ensures
            r@ == self@,
    {
        self.as_vec_l_to_r()
    }

    /// Returns all the values in the tree as an ordered Vec from least to greatest (left to right).
    pub fn as_vec_l_to_r(&self) -> (r: Vec<u32>)
        ensures
            r@ == self@,
    {
        self.tree.as_vec_l_to_r()
    }

    /// Returns all the values in the tree as an ordered Vec from greatest to least (right to left).
    pub fn as_vec_r_to_l(&self) -> (r: Vec<u32>)
        ensures
            r@ == self@.reverse(),
    {
        self.tree.as_vec_r_to_l()
    }

    /// If the value is in the tree, delete it. Otherwise `ValueNotFound` is
    /// returned and the tree is left as it was.
    pub fn drop(&mut self, value: u32) -> (r: Result<(), TreeError>)
        requires
            old(self).wf(),
        ensures
            final(self).wf(),
            final(self).shape() == old(self).shape().plain_delete(value),
            drop_result(old(self)@, value, r, final(self)@),
            r is Err ==> *final(self) == *old(self),
    {
        self.tree.drop_value(value)
    }
}

impl Default for BinTree {
    fn default() -> (r: Self)
        ensures
            r.wf(),
            r@ == Seq::<u32>::empty(),
            r.shape() == Shape::<u32>::Leaf,
    {
        Self::new()
    }
}

} // verus!
