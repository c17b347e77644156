use vstd::prelude::*;

verus! {

/// A vector of two `i32`.
#[derive(Clone, Copy, PartialEq, Eq, Structural, Debug, Hash)]
pub struct V2i {
    pub x: i32,
    pub y: i32,
}

impl V2i {
    pub fn new(x: i32, y: i32) -> (v: V2i)
        ensures
            v.x == x,
            v.y == y,
    {
        V2i { x, y }
    }
}

/// A vector of two `u32`.
#[derive(Clone, Copy, PartialEq, Eq, Structural, Debug, Hash)]
pub struct V2u {
    pub x: u32,
    pub y: u32,
}

impl V2u {
    pub fn new(x: u32, y: u32) -> (v: V2u)
        ensures
            v.x == x,
            v.y == y,
    {
        V2u { x, y }
    }
}

/// A vector of three `u32`.
#[derive(Clone, Copy, PartialEq, Eq, Structural, Debug, Hash)]
pub struct V3u {
    pub x: u32,
    pub y: u32,
    pub z: u32,
}

impl V3u {
    pub fn new(x: u32, y: u32, z: u32) -> (v: V3u)
        ensures
            v.x == x,
            v.y == y,
            v.z == z,
    {
        V3u { x, y, z }
    }
}

/// An integer rectangle: its corner with the smallest coordinates, and its size.
#[derive(Clone, Copy, PartialEq, Eq, Structural, Debug, Hash)]
pub struct Rect {
    pub pos: V2i,
    pub size: V2i,
}

impl Rect {
    pub fn new(x: i32, y: i32, w: i32, h: i32) -> (r: Rect)
        ensures
            r.pos.x == x,
            r.pos.y == y,
            r.size.x == w,
            r.size.y == h,
    {
        Rect { pos: V2i { x, y }, size: V2i { x: w, y: h } }
    }
}

/// A rectangle of unsigned coordinates: its corner with the smallest
/// coordinates, and its size.
#[derive(Clone, Copy, PartialEq, Eq, Structural, Debug, Hash)]
pub struct URect {
    pub pos: V2u,
    pub size: V2u,
}

impl URect {
    /// The cell `(x, y)` lies in the rectangle.
    pub open spec fn contains(self, x: int, y: int) -> bool {
        &&& self.pos.x <= x < self.pos.x + self.size.x
        &&& self.pos.y <= y < self.pos.y + self.size.y
    }

    /// The rectangle from `corner`, of `size`.
    pub fn corner_size(corner: V2u, size: V2u) -> (r: URect)
        ensures
            r.pos == corner,
            r.size == size,
    {
        URect { pos: corner, size }
    }
}

/// `a / b` as Rust computes it on integers: rounded toward zero.
pub open spec fn trunc_div(a: int, b: int) -> int {
    if (a >= 0) == (b > 0) {
        abs(a) / abs(b)
    } else {
        -(abs(a) / abs(b))
    }
}

pub open spec fn abs(a: int) -> int {
    if a < 0 {
        -a
    } else {
        a
    }
}

} // verus!
