//! Interactables that add a next lane beside a selected stroke.
use vstd::prelude::*;

verus! {

/// Offers to add the stroke `stroke` (a lane next to a selection).
#[derive(Clone, Copy, Debug)]
pub struct Addable<S> {
    pub stroke: S,
}

impl<S> Addable<S> {
    /// An addable for `stroke`.
    pub fn new(stroke: S) -> (a: Addable<S>)
        ensures
            a.stroke == stroke,
    {
        Addable { stroke: stroke }
    }
}

} // verus!
