//! Roads: lanes, their construction from plans, pathfinding and planning.
use vstd::prelude::*;

pub mod connectivity;
pub mod construction;
pub mod pathfinding;
pub mod microtraffic;
pub mod planning;

verus! {

} // verus!
