//! Interactables that drag a selected part of a stroke.
use vstd::prelude::*;
use super::current_plan::SelectableStrokeRef;
use crate::kay::{Compact, Recipient};
use crate::kay::messaging::capped;

verus! {

/// Drags the selected part `path` of the stroke `stroke_ref`.
#[derive(Clone, Copy, Debug)]
pub struct LaneStrokeDraggable<P> {
    pub stroke_ref: SelectableStrokeRef,
    pub path: P,
}

impl<P> LaneStrokeDraggable<P> {
    /// A draggable for `path`, part of the stroke `stroke_ref`.
    pub fn new(stroke_ref: SelectableStrokeRef, path: P) -> (d: LaneStrokeDraggable<P>)
        ensures
            d.stroke_ref == stroke_ref,
            d.path == path,
    {
        LaneStrokeDraggable { stroke_ref: stroke_ref, path: path }
    }

    /// Handles `Become`: the draggable now drags the stroke it names.
    pub fn become_ref(&mut self, msg: &Become)
        ensures
            final(self).stroke_ref == msg.0,
            final(self).path == old(self).path,
    {
        self.stroke_ref = msg.0;
    }
}

impl<P: Compact> Compact for LaneStrokeDraggable<P> {
    open spec fn spec_total_size_bytes(&self) -> nat {
        capped((vstd::layout::size_of::<LaneStrokeDraggable<P>>() + self.path.spec_dynamic_size_bytes()) as int)
    }

    open spec fn spec_dynamic_size_bytes(&self) -> nat {
        self.path.spec_dynamic_size_bytes()
    }

    fn total_size_bytes(&self) -> (n: usize) {
        core::mem::size_of::<LaneStrokeDraggable<P>>().saturating_add(self.path.dynamic_size_bytes())
    }

    fn dynamic_size_bytes(&self) -> (n: usize) {
        self.path.dynamic_size_bytes()
    }
}

impl<P> Recipient<Become> for LaneStrokeDraggable<P> {
    open spec fn spec_receive(self, message: Become) -> Self {
        LaneStrokeDraggable { stroke_ref: message.0, path: self.path }
    }

    fn receive(&mut self, message: &Become) {
        self.stroke_ref = message.0;
    }
}

/// Tells a draggable that its stroke is now the stroke `0`.
#[derive(Clone, Copy, Debug)]
pub struct Become(pub SelectableStrokeRef);

} // verus!
