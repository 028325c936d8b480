//! A collision-detection pipeline on fixed-point coordinates: a broad phase on
//! loosened bounding boxes, a narrow phase that keeps contact manifolds and
//! proximities per pair, and the world that runs both.

pub mod bounding_volume;
pub mod broad_phase;
pub mod collision_groups;
pub mod collision_object;
pub mod collision_world;
pub mod contact;
pub mod contact_id;
pub mod dbvt;
pub mod detector;
pub mod events;
pub mod interaction_graph;
pub mod math;
pub mod narrow_phase;
pub mod pair_filter;
pub mod query;
pub mod shape;
pub mod trimesh;
