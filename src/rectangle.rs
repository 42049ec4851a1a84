//! Points and axis-aligned rectangles on the integer lattice.
use vstd::prelude::*;

verus! {

/// A point or vector with integer coordinates.
#[derive(Clone, Copy, Debug, PartialEq, Eq, Structural)]
pub struct Vec2 {
    pub x: i64,
    pub y: i64,
}

impl Vec2 {
    pub fn new(x: i64, y: i64) -> (r: Vec2)
        ensures
            r.x == x,
            r.y == y,
    {
        Vec2 { x, y }
    }
}

/// An axis-aligned rectangle: top-left corner, width and height.
#[derive(Clone, Copy, Debug, PartialEq, Eq, Structural)]
pub struct Rectangle {
    pub top_left_pos: Vec2,
    pub w: i64,
    pub h: i64,
}

impl Rectangle {
    /// Half-open containment: `[left, left + w) x [top, top + h)`.
    pub open spec fn contains_spec(self, x: int, y: int) -> bool {
        &&& self.top_left_pos.x <= x
        &&& self.top_left_pos.y <= y
        &&& x < self.top_left_pos.x + self.w
        &&& y < self.top_left_pos.y + self.h
    }

    /// Closed overlap: separated on neither axis (touching edges overlap).
    pub open spec fn intersects_spec(self, o: Rectangle) -> bool {
        !(o.top_left_pos.y + o.h < self.top_left_pos.y || o.top_left_pos.y > self.top_left_pos.y
            + self.h || o.top_left_pos.x + o.w < self.top_left_pos.x || o.top_left_pos.x
            > self.top_left_pos.x + self.w)
    }

    pub fn new(top_left_pos: Vec2, w: i64, h: i64) -> (r: Rectangle)
        ensures
            r.top_left_pos == top_left_pos,
            r.w == w,
            r.h == h,
    {
        Rectangle { top_left_pos, w, h }
    }

    pub fn contains_point(&self, pos: &Vec2) -> (r: bool)
        ensures
            r == self.contains_spec(pos.x as int, pos.y as int),
    {
        let left = self.top_left_pos.x as i128;
        let top = self.top_left_pos.y as i128;
        left <= pos.x as i128 && top <= pos.y as i128 && (pos.x as i128) < left + self.w as i128
            && (pos.y as i128) < top + self.h as i128
    }

    pub fn intersects(&self, rect: &Self) -> (r: bool)
        ensures
            r == self.intersects_spec(*rect),
    {
        let up = (rect.top_left_pos.y as i128) + (rect.h as i128) < self.top_left_pos.y as i128;
        let down = (rect.top_left_pos.y as i128) > (self.top_left_pos.y as i128) + (
        self.h as i128);
        let left = (rect.top_left_pos.x as i128) + (rect.w as i128) < self.top_left_pos.x as i128;
        let right = (rect.top_left_pos.x as i128) > (self.top_left_pos.x as i128) + (
        self.w as i128);
        !(up || down || left || right)
    }
}

/// A point lying in two rectangles makes them overlap.
pub proof fn lemma_common_point_intersects(a: Rectangle, b: Rectangle, x: int, y: int)
    requires
        a.contains_spec(x, y),
        b.contains_spec(x, y),
    ensures
        a.intersects_spec(b),
{
}

} // verus!
