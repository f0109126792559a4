//! Verified core of the Citybound simulation: the actor containers of the
//! `kay` runtime and the discrete decision logic of the economy, the road
//! network's pathfinding and the planning/construction state machines.
#![allow(unused_imports)]

pub mod kay;
pub mod economy;
pub mod simulation;
pub mod lanes_and_cars;
