//! An in-memory entity/component store that keeps every distinct component
//! value once and lets the entities that hold it share the stored copy.

pub mod brains;
pub mod com;
pub mod cupboard;
pub mod int_map;
pub mod laws;
pub mod lentity;
pub mod rc_ecs;
pub mod simulation_settings;
pub mod unmoving_vec;
pub mod utils;
pub mod world;
pub mod world_groups;
pub mod world_wf;
