//! Value types shared with the presentation layer.

use crate::color::channel_of;
use vstd::prelude::*;

verus! {

/// A point or extent with two coordinates.
#[derive(Debug, Clone, Copy)]
pub struct Vector2<T> {
    pub x: T,
    pub y: T,
}

impl<T> Vector2<T> {
    pub fn new(x: T, y: T) -> (v: Vector2<T>)
        ensures
            v.x == x,
            v.y == y,
    {
        Vector2 { x: x, y: y }
    }
}

/// A displacement between two cells.
#[derive(Debug, Clone, Copy)]
pub struct Offset2<T> {
    pub dx: T,
    pub dy: T,
}

impl<T> Offset2<T> {
    pub fn new(dx: T, dy: T) -> (o: Offset2<T>)
        ensures
            o.dx == dx,
            o.dy == dy,
    {
        Offset2 { dx: dx, dy: dy }
    }
}

/// One coloured cell of an overlay, addressed by its linear index.
pub struct Pixel {
    pub r: u8,
    pub g: u8,
    pub b: u8,
    pub a: u8,
    pub index: usize,
}

impl Pixel {
    pub fn from_rgba(r: u8, g: u8, b: u8, a: u8, index: usize) -> (p: Pixel)
        ensures
            p.r == r,
            p.g == g,
            p.b == b,
            p.a == a,
            p.index == index,
    {
        Pixel { r, g, b, a, index }
    }

    /// Unpacks a colour stored as `0xRRGGBBAA`.
    pub fn from_raw(raw_color: u32, index: usize) -> (p: Pixel)
        ensures
            p.r == channel_of(raw_color, 24),
            p.g == channel_of(raw_color, 16),
            p.b == channel_of(raw_color, 8),
            p.a == channel_of(raw_color, 0),
            p.index == index,
    {
        let r: u8 = ((raw_color >> 24) & 0xFF) as u8;
        let g: u8 = ((raw_color >> 16) & 0xFF) as u8;
        let b: u8 = ((raw_color >> 8) & 0xFF) as u8;
        let a: u8 = ((raw_color >> 0) & 0xFF) as u8;
        Pixel { r, g, b, a, index }
    }
}

} // verus!
