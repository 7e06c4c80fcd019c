//! Spatial collision detection and fixed-timestep physics over integer
//! world coordinates.
//!
//! Every coordinate is a whole number of world units. How many units make up
//! one pixel is the caller's choice: the library never needs to know.

pub mod aabb;
pub mod collision;
pub mod hash_collections;
pub mod physics;
pub mod random;
pub mod rect2d;
pub mod static_quadtree;
pub mod vector;

pub use aabb::AxisAlignedBoundingBox;
pub use collision::{check_collisions, OnCollision};
pub use physics::{
    apply_gravity, apply_velocity, physics_clock, sum_impulses, ApplyGravity, Impulse,
    PhysicsPosition, PhysicsTick, PhysicsTimer, Velocity,
};
pub use random::RandomPlugin;
pub use rect2d::Rect2D;
pub use static_quadtree::{StaticQuadTree, StaticQuadTreeNode};
pub use vector::{EntityRef, Vector2, Vector3};
