//! The economy: resources, households and the market for their deals.
use vstd::prelude::*;

pub mod resources;
pub mod activities_places;
pub mod grid_example;
pub mod households;
pub mod market;

verus! {

} // verus!
