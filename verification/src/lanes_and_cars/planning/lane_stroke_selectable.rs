//! Interactables that select a part of a stroke.
use vstd::prelude::*;
use super::current_plan::SelectableStrokeRef;

verus! {

/// Selects parts of the stroke `stroke_ref`, whose path is `path`.
#[derive(Clone, Copy, Debug)]
pub struct LaneStrokeSelectable<P> {
    pub stroke_ref: SelectableStrokeRef,
    pub path: P,
}

impl<P> LaneStrokeSelectable<P> {
    /// A selectable for the stroke `stroke_ref` along `path`.
    pub fn new(stroke_ref: SelectableStrokeRef, path: P) -> (s: LaneStrokeSelectable<P>)
        ensures
            s.stroke_ref == stroke_ref,
            s.path == path,
    {
        LaneStrokeSelectable { stroke_ref: stroke_ref, path: path }
    }
}

} // verus!
