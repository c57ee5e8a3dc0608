//! Discrete 2D vector used both as an absolute grid address and as an offset.

use vstd::prelude::*;

verus! {

/// A 2D integer vector for navigating a grid of squares.
#[derive(Copy, Clone, Debug, Default, PartialEq, Eq, Structural)]
pub struct Vec2 {
    pub x: i32,
    pub y: i32,
}

impl Vec2 {
    /// Build a vector from its two components.
    pub fn new(x: i32, y: i32) -> (r: Vec2)
        ensures
            r.x == x,
            r.y == y,
    {
        Vec2 { x, y }
    }

    /// Build a vector with both components set to the same value.
    pub fn splat(value: i32) -> (r: Vec2)
        ensures
            r.x == value,
            r.y == value,
    {
        Vec2 { x: value, y: value }
    }

    /// Component-wise addition.
    pub fn add(self, rhs: Vec2) -> (r: Vec2)
        requires
            i32::MIN <= self.x + rhs.x <= i32::MAX,
            i32::MIN <= self.y + rhs.y <= i32::MAX,
        ensures
            r.x == self.x + rhs.x,
            r.y == self.y + rhs.y,
    {
        Vec2 { x: self.x + rhs.x, y: self.y + rhs.y }
    }

    /// Component-wise subtraction.
    pub fn sub(self, rhs: Vec2) -> (r: Vec2)
        requires
            i32::MIN <= self.x - rhs.x <= i32::MAX,
            i32::MIN <= self.y - rhs.y <= i32::MAX,
        ensures
            r.x == self.x - rhs.x,
            r.y == self.y - rhs.y,
    {
        Vec2 { x: self.x - rhs.x, y: self.y - rhs.y }
    }

    /// Scalar multiplication.
    pub fn mul(self, rhs: i32) -> (r: Vec2)
        requires
            i32::MIN <= self.x * rhs <= i32::MAX,
            i32::MIN <= self.y * rhs <= i32::MAX,
        ensures
            r.x == self.x * rhs,
            r.y == self.y * rhs,
    {
        Vec2 { x: self.x * rhs, y: self.y * rhs }
    }
}

impl From<(i32, i32)> for Vec2 {
    fn from(v: (i32, i32)) -> (r: Vec2) {
        Vec2 { x: v.0, y: v.1 }
    }
}

impl vstd::std_specs::convert::FromSpecImpl<(i32, i32)> for Vec2 {
    open spec fn obeys_from_spec() -> bool {
        true
    }

    open spec fn from_spec(v: (i32, i32)) -> Vec2 {
        Vec2 { x: v.0, y: v.1 }
    }
}

impl From<&(i32, i32)> for Vec2 {
    fn from(v: &(i32, i32)) -> (r: Vec2) {
        Vec2 { x: v.0, y: v.1 }
    }
}

impl vstd::std_specs::convert::FromSpecImpl<&(i32, i32)> for Vec2 {
    open spec fn obeys_from_spec() -> bool {
        true
    }

    open spec fn from_spec(v: &(i32, i32)) -> Vec2 {
        Vec2 { x: v.0, y: v.1 }
    }
}

} // verus!
