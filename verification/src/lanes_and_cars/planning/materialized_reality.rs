//! The materialized reality as planning sees it: the same actor that
//! construction runs, with the same messages.
pub use crate::lanes_and_cars::construction::materialized_reality::{
    setup, Apply, BuildableRef, MaterializedReality, MaterializedRealityState, ReportLaneBuilt, ReportLaneUnbuilt,
    Simulate,
};
