//! Grid points and the shapes built from them.
use vstd::prelude::*;

verus! {

/// A pixel position: `x` is the column, `y` the row of a row-major raster.
#[derive(Clone, Copy, Debug, PartialEq, Eq, Structural)]
pub struct Point {
    pub x: i32,
    pub y: i32,
}

/// A rasterised circle: the pixels of its outline, its centre and its radius.
pub struct Circle {
    pub edge: Vec<Point>,
    pub center: Point,
    pub radius: u32,
}

/// A traced region: its area, the points of its outline and their bounding box.
#[derive(Debug)]
pub struct Path {
    pub area: i32,
    pub points: Vec<Point>,
    pub min_x: i32,
    pub min_y: i32,
    pub max_x: i32,
    pub max_y: i32,
}

} // verus!
