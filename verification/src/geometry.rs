//! The primitive scene types: integer points, triangles, and the choice of
//! how a triangle is drawn.

use vstd::prelude::*;

verus! {

/// A 2D coordinate pair in the integer working space.  Coordinates are raw
/// world (or screen) positions; they may be negative and are never
/// normalized.
#[derive(Clone, Copy, Debug, PartialEq, Eq, Structural)]
pub struct Point {
    pub x: i32,
    pub y: i32,
}

impl Point {
    pub fn new(x: i32, y: i32) -> (p: Point)
        ensures
            p.x == x,
            p.y == y,
    {
        Point { x, y }
    }
}

/// How a triangle is rasterized: as its three outline segments, or as a
/// solid scanline fill.
#[derive(Clone, Copy, Debug, PartialEq, Eq, Structural)]
pub enum DrawMethod {
    WireFrame,
    Fill,
}

/// A triangle primitive: three world-space vertices in no particular
/// winding order, a packed color copied verbatim into the frame buffer,
/// and the draw method.
#[derive(Clone, Copy, Debug, PartialEq, Eq, Structural)]
pub struct Triangle {
    pub p1: Point,
    pub p2: Point,
    pub p3: Point,
    pub color: u32,
    pub draw_method: DrawMethod,
}

} // verus!
