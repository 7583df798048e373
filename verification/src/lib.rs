//! Core of a small 2D platformer: an entity/component store with id
//! recycling, a spatial-grid broad phase with AABB narrow-phase collision
//! resolution, a spanning-tree maze generator and an A* pathfinder, plus a
//! few pure pixel helpers used by the renderer.
//!
//! World positions, velocities and box extents are kept in integer subpixel
//! units (`SUBPIXELS` units to one pixel) so that all physics is exact
//! integer arithmetic.
use vstd::prelude::*;

pub mod econtainer;
pub mod input;
pub mod physics;
pub mod render;
pub mod worldgen;

verus! {

/// Side of the most recently resolved collision contact, from the primary
/// entity's point of view.
#[derive(Clone, Copy, Debug, PartialEq, Eq, Structural)]
pub enum Collision {
    Left,
    Right,
    Down,
    Up,
}

/// Subpixel units per pixel: positions and velocities are stored as integer
/// multiples of 1/SUBPIXELS of a pixel.
pub const SUBPIXELS: i64 = 10000;

/// Rectangular collider with optional collision.
///
/// Boundary box defined as x1, y1, x2, y2, in subpixel units; `boundary.2`
/// and `boundary.3` are used as the box width and height.
#[derive(Clone, Copy, Debug, PartialEq)]
pub struct Collider {
    pub sticky: bool,
    pub rigid_body: bool,
    pub active: bool,
    pub collision: bool,
    pub boundary: (i64, i64, i64, i64),
    pub vel_x: i64,
    pub vel_y: i64,
    pub grounded: Option<Collision>,
}

/// World-space position of an entity, in subpixel units.
#[derive(Clone, Copy, Debug, PartialEq, Eq, Structural)]
pub struct Coordinates {
    pub coord_x: i64,
    pub coord_y: i64,
}

/// World camera; coordinates are the bottom left of the camera, in pixels.
#[derive(Clone, Copy, Debug, PartialEq, Eq, Structural)]
pub struct Camera {
    pub x: i32,
    pub y: i32,
}

/// One screen pixel with its colour.
#[derive(Debug, Copy, Clone)]
pub struct Pixel {
    pub x: i32,
    pub y: i32,
    pub rgba: [u8; 4],
}

} // verus!
