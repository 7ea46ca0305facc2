//! Small geometric value types.

use vstd::prelude::*;

verus! {

/// A point or extent with two coordinates.
#[derive(Debug, Clone, Copy)]
pub struct Vector2<T> {
    pub x: T,
    pub y: T,
}

impl<T> Vector2<T> {
    pub fn new(x: T, y: T) -> (v: Vector2<T>)
        ensures
            v.x == x,
            v.y == y,
    {
        Vector2 { x: x, y: y }
    }
}

/// A displacement between two cells.
#[derive(Debug, Clone, Copy)]
pub struct Offset2<T> {
    pub dx: T,
    pub dy: T,
}

impl<T> Offset2<T> {
    pub fn new(dx: T, dy: T) -> (o: Offset2<T>)
        ensures
            o.dx == dx,
            o.dy == dy,
    {
        Offset2 { dx: dx, dy: dy }
    }
}

} // verus!
