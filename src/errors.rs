//! The errors that the trees report.
use vstd::prelude::*;

verus! {

/// Why a tree refused an operation.
#[derive(PartialEq, Eq, Structural, Debug, Clone, Copy)]
pub enum TreeError {
    /// Caller attempted to add a duplicate value to a tree that only accepts unique values.
    ValueAlreadyStored,
    /// The value to remove is not in the tree.
    ValueNotFound,
}

impl TreeError {
    /// What went wrong, in words.
    pub fn description(&self) -> (r: &'static str)
        ensures
            r@ == (match self {
                TreeError::ValueAlreadyStored =>
                    "Caller attempted to add a duplicate value to a tree that only accepts unique values."@,
                TreeError::ValueNotFound => "Specified value was not found in the tree."@,
            }),
    {
        match self {
            TreeError::ValueAlreadyStored =>
                "Caller attempted to add a duplicate value to a tree that only accepts unique values.",
            TreeError::ValueNotFound => "Specified value was not found in the tree.",
        }
    }
}

} // verus!
