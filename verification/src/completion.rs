//! What a completion comes to.

use vstd::prelude::*;

verus! {

/// The outcome of completing an abbreviation: no stored key begins with
/// it, exactly one does, or several do.
#[derive(Debug, PartialEq, Eq)]
pub enum Completion {
    Zero,
    One(String),
    Many,
}

impl Completion {
    /// Sums up the entries that a completion has found. One entry gives
    /// its key; none and several give only that fact.
    pub fn of<T>(found: &Vec<(String, &T)>) -> (outcome: Completion)
        ensures
            match outcome {
                Completion::Zero => found@.len() == 0,
                Completion::One(key) => found@.len() == 1 && key@ == found@[0].0@,
                Completion::Many => found@.len() >= 2,
            },
    {
        if found.len() == 0 {
            Completion::Zero
        } else if found.len() == 1 {
            Completion::One(found[0].0.clone())
        } else {
            Completion::Many
        }
    }
}

} // verus!
