//! Planning: plans of lane strokes and the differences between their results,
//! the plan being edited and its interactables.
use vstd::prelude::*;

pub mod plan;
pub mod plan_result_steps;
pub mod materialized_reality;
pub mod current_plan;
pub mod lane_stroke_draggable;
pub mod lane_stroke_selectable;

pub use self::current_plan::SelectableStrokeRef;

verus! {

} // verus!
