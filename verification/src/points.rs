use vstd::prelude::*;

verus! {

/// An immutable integer 2D point; every transform returns a new point.
#[derive(Debug, Clone, Copy, PartialEq, Eq, Structural)]
pub struct Point2d {
    pub x: i32,
    pub y: i32,
}

impl Point2d {
    pub fn new(x: i32, y: i32) -> (p: Self)
        ensures
            p.x == x && p.y == y,
    {
        Self { x, y }
    }

    pub fn origin() -> (p: Self)
        ensures
            p.x == 0 && p.y == 0,
    {
        Self { x: 0, y: 0 }
    }

    pub fn translate_x(&self, dist: i32) -> (p: Self)
        requires
            i32::MIN <= self.x + dist <= i32::MAX,
        ensures
            p.x == self.x + dist && p.y == self.y,
    {
        Self { x: self.x + dist, y: self.y }
    }

    pub fn translate_y(&self, dist: i32) -> (p: Self)
        requires
            i32::MIN <= self.y + dist <= i32::MAX,
        ensures
            p.x == self.x && p.y == self.y + dist,
    {
        Self { x: self.x, y: self.y + dist }
    }

    /// Translates both coordinates by the same distance.
    pub fn translate(&self, dist: i32) -> (p: Self)
        requires
            i32::MIN <= self.x + dist <= i32::MAX,
            i32::MIN <= self.y + dist <= i32::MAX,
        ensures
            p.x == self.x + dist && p.y == self.y + dist,
    {
        Self { x: self.x + dist, y: self.y + dist }
    }
}

} // verus!
