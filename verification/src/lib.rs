//! Spatial world model and movement-planning core of a grid arena in which
//! segmented creatures compete for food and for each other.

pub mod arena;
pub mod cell;
pub mod chance;
pub mod graph;
pub mod interaction;
pub mod lookup;
pub mod movement;
pub mod planner;
pub mod spawn;
pub mod sprites;
pub mod store;
pub mod targeting;
