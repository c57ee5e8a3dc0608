//! The four cardinal directions and their conversions to grid offsets.

use vstd::prelude::*;

use crate::vec2::Vec2;

verus! {

/// The four cardinal directions.
///
/// They are ordered counter-clockwise starting from the x-axis: east, north,
/// west, south. That fixed order is load-bearing: it drives deterministic
/// tie-breaking during traversal and the indices used by link sets.
#[derive(Copy, Clone, Debug, PartialEq, Eq, Structural)]
pub enum Direction {
    Right,
    Up,
    Left,
    Down,
}

impl Direction {
    /// The position of this direction in the fixed iteration order.
    pub open spec fn index_spec(self) -> int {
        match self {
            Direction::Right => 0,
            Direction::Up => 1,
            Direction::Left => 2,
            Direction::Down => 3,
        }
    }

    /// The direction at a given position of the fixed iteration order.
    pub open spec fn from_index_spec(i: int) -> Direction {
        if i == 0 {
            Direction::Right
        } else if i == 1 {
            Direction::Up
        } else if i == 2 {
            Direction::Left
        } else {
            Direction::Down
        }
    }

    /// The unit offset this direction stands for, as a pair of integers.
    /// The y axis grows downward, so `Up` is `(0, -1)`.
    pub open spec fn unit_spec(self) -> (int, int) {
        match self {
            Direction::Right => (1, 0),
            Direction::Up => (0, -1),
            Direction::Left => (-1, 0),
            Direction::Down => (0, 1),
        }
    }

    /// The inverse direction: east and west swap, north and south swap.
    pub open spec fn opposite_spec(self) -> Direction {
        match self {
            Direction::Right => Direction::Left,
            Direction::Up => Direction::Down,
            Direction::Left => Direction::Right,
            Direction::Down => Direction::Up,
        }
    }

    /// The position of this direction in the fixed iteration order.
    pub fn index(self) -> (r: usize)
        ensures
            r == self.index_spec(),
    {
        match self {
            Direction::Right => 0,
            Direction::Up => 1,
            Direction::Left => 2,
            Direction::Down => 3,
        }
    }

    /// The direction at a given position of the fixed iteration order.
    pub fn from_index(i: usize) -> (r: Direction)
        requires
            i < 4,
        ensures
            r == Direction::from_index_spec(i as int),
    {
        if i == 0 {
            Direction::Right
        } else if i == 1 {
            Direction::Up
        } else if i == 2 {
            Direction::Left
        } else {
            Direction::Down
        }
    }

    /// The unit vector this direction stands for.
    pub fn to_vec2(self) -> (r: Vec2)
        ensures
            (r.x as int, r.y as int) == self.unit_spec(),
    {
        match self {
            Direction::Up => Vec2::new(0, -1),
            Direction::Down => Vec2::new(0, 1),
            Direction::Left => Vec2::new(-1, 0),
            Direction::Right => Vec2::new(1, 0),
        }
    }

    /// Convert a unit vector back into a direction. Any vector that is not
    /// one of the four unit offsets is rejected as an invalid direction.
    pub fn try_from(value: Vec2) -> (r: Result<Direction, DirectionError>)
        ensures
            r matches Ok(d) ==> (value.x as int, value.y as int) == d.unit_spec(),
            r matches Err(e) ==> e == (DirectionError::InvalidDirection(value))
                && (forall|d: Direction| (value.x as int, value.y as int) != d.unit_spec()),
    {
        if value.x == 0 && value.y == -1 {
            Ok(Direction::Up)
        } else if value.x == 0 && value.y == 1 {
            Ok(Direction::Down)
        } else if value.x == -1 && value.y == 0 {
            Ok(Direction::Left)
        } else if value.x == 1 && value.y == 0 {
            Ok(Direction::Right)
        } else {
            Err(DirectionError::InvalidDirection(value))
        }
    }

    /// The inverse direction: east and west swap, north and south swap.
    pub fn opposite(self) -> (r: Direction)
        ensures
            r == self.opposite_spec(),
    {
        match self {
            Direction::Up => Direction::Down,
            Direction::Down => Direction::Up,
            Direction::Left => Direction::Right,
            Direction::Right => Direction::Left,
        }
    }

    /// Iterate over all four directions in the fixed order.
    pub fn iter() -> (r: DirectionIter)
        ensures
            r.pos == 0,
    {
        DirectionIter { pos: 0 }
    }
}

/// Cursor over the four directions in the fixed order east, north, west, south.
pub struct DirectionIter {
    pub pos: usize,
}

impl DirectionIter {
    /// Yield the next direction of the fixed order, or `None` when all four
    /// have been handed out.
    pub fn next(&mut self) -> (r: Option<Direction>)
        ensures
            old(self).pos < 4 ==> r == Some(Direction::from_index_spec(old(self).pos as int))
                && final(self).pos == old(self).pos + 1,
            old(self).pos >= 4 ==> r is None && final(self).pos == old(self).pos,
    {
        if self.pos < 4 {
            let d = Direction::from_index(self.pos);
            self.pos = self.pos + 1;
            Some(d)
        } else {
            None
        }
    }
}

/// Failure of a conversion into a `Direction`.
#[derive(Copy, Clone, Debug, PartialEq, Eq, Structural)]
pub enum DirectionError {
    /// The offending vector was not one of the four unit offsets.
    InvalidDirection(Vec2),
}

} // verus!
