//! Per-cell link sets: which of the four boundary edges carry a pipe stub,
//! and the deterministic collapse of a bit pattern to a shape and rotation.

use vstd::prelude::*;

use crate::direction::Direction;
use crate::tile::{Kind, Orientation};

verus! {

/// The prototype of a game tile: four links from its center to its edges,
/// each active or inactive, in the fixed order east, north, west, south.
///
/// A link set does not know its shape and rotation; those are decoded by
/// [`Links::kind_orientation`]. A cell of a finished puzzle always has at
/// least one active link; the all-inactive pattern is a generator error.
#[derive(Copy, Clone, Debug, PartialEq, Eq, Structural)]
pub struct Links {
    east: bool,
    north: bool,
    west: bool,
    south: bool,
}

impl Links {
    /// The link bit at boundary index `i` (0 east, 1 north, 2 west,
    /// 3 south).
    pub closed spec fn at_index(self, i: int) -> bool {
        if i == 0 {
            self.east
        } else if i == 1 {
            self.north
        } else if i == 2 {
            self.west
        } else if i == 3 {
            self.south
        } else {
            false
        }
    }

    /// The link bit toward a direction.
    pub open spec fn at(self, d: Direction) -> bool {
        self.at_index(d.index_spec())
    }

    /// Whether at least one link is active.
    pub open spec fn any(self) -> bool {
        self.at_index(0) || self.at_index(1) || self.at_index(2) || self.at_index(3)
    }

    /// The same link set with the bit toward `d` set or cleared.
    pub closed spec fn set_spec(self, d: Direction, value: bool) -> Links {
        match d {
            Direction::Right => Links { east: value, ..self },
            Direction::Up => Links { north: value, ..self },
            Direction::Left => Links { west: value, ..self },
            Direction::Down => Links { south: value, ..self },
        }
    }

    /// The unique (shape, rotation) pair whose rotated fundamental pattern
    /// equals this bit pattern. Meaningful only for the 15 non-empty
    /// patterns.
    pub open spec fn kind_orientation_spec(self) -> (Kind, Orientation) {
        let bits = (self.at_index(0), self.at_index(1), self.at_index(2), self.at_index(3));
        if bits == (true, false, false, false) {
            (Kind::DeadEnd, Orientation::Basic)
        } else if bits == (false, true, false, false) {
            (Kind::DeadEnd, Orientation::Ccw90)
        } else if bits == (false, false, true, false) {
            (Kind::DeadEnd, Orientation::Ccw180)
        } else if bits == (false, false, false, true) {
            (Kind::DeadEnd, Orientation::Ccw270)
        } else if bits == (true, false, true, false) {
            (Kind::Straight, Orientation::Basic)
        } else if bits == (false, true, false, true) {
            (Kind::Straight, Orientation::Ccw90)
        } else if bits == (true, true, false, false) {
            (Kind::Corner, Orientation::Basic)
        } else if bits == (false, true, true, false) {
            (Kind::Corner, Orientation::Ccw90)
        } else if bits == (false, false, true, true) {
            (Kind::Corner, Orientation::Ccw180)
        } else if bits == (true, false, false, true) {
            (Kind::Corner, Orientation::Ccw270)
        } else if bits == (true, true, true, false) {
            (Kind::TIntersection, Orientation::Basic)
        } else if bits == (false, true, true, true) {
            (Kind::TIntersection, Orientation::Ccw90)
        } else if bits == (true, false, true, true) {
            (Kind::TIntersection, Orientation::Ccw180)
        } else if bits == (true, true, false, true) {
            (Kind::TIntersection, Orientation::Ccw270)
        } else {
            (Kind::CrossIntersection, Orientation::Basic)
        }
    }

    /// Read the link bit toward a direction.
    pub fn get(&self, d: Direction) -> (r: bool)
        ensures
            r == self.at(d),
    {
        match d {
            Direction::Right => self.east,
            Direction::Up => self.north,
            Direction::Left => self.west,
            Direction::Down => self.south,
        }
    }

    /// Set or clear the link bit toward a direction.
    pub fn set(&mut self, d: Direction, value: bool)
        ensures
            *final(self) == old(self).set_spec(d, value),
            forall|i: int| #[trigger] final(self).at_index(i) == if i == d.index_spec() {
                value
            } else {
                old(self).at_index(i)
            },
    {
        match d {
            Direction::Right => {
                self.east = value;
            },
            Direction::Up => {
                self.north = value;
            },
            Direction::Left => {
                self.west = value;
            },
            Direction::Down => {
                self.south = value;
            },
        }
    }

    /// Whether at least one link is active.
    pub fn any_link(&self) -> (r: bool)
        ensures
            r == self.any(),
    {
        self.east || self.north || self.west || self.south
    }

    /// Collapse the bit pattern to its (shape, rotation) pair. The pattern
    /// must not be empty: an all-inactive link set has no shape, and meeting
    /// one here is a generator error, not a runtime condition.
    pub fn kind_orientation(&self) -> (r: (Kind, Orientation))
        requires
            self.any(),
        ensures
            r == self.kind_orientation_spec(),
    {
        match (self.east, self.north, self.west, self.south) {
            (true, false, false, false) => (Kind::DeadEnd, Orientation::Basic),
            (false, true, false, false) => (Kind::DeadEnd, Orientation::Ccw90),
            (false, false, true, false) => (Kind::DeadEnd, Orientation::Ccw180),
            (false, false, false, true) => (Kind::DeadEnd, Orientation::Ccw270),
            (true, false, true, false) => (Kind::Straight, Orientation::Basic),
            (false, true, false, true) => (Kind::Straight, Orientation::Ccw90),
            (true, true, false, false) => (Kind::Corner, Orientation::Basic),
            (false, true, true, false) => (Kind::Corner, Orientation::Ccw90),
            (false, false, true, true) => (Kind::Corner, Orientation::Ccw180),
            (true, false, false, true) => (Kind::Corner, Orientation::Ccw270),
            (true, true, true, false) => (Kind::TIntersection, Orientation::Basic),
            (false, true, true, true) => (Kind::TIntersection, Orientation::Ccw90),
            (true, false, true, true) => (Kind::TIntersection, Orientation::Ccw180),
            (true, true, false, true) => (Kind::TIntersection, Orientation::Ccw270),
            (true, true, true, true) => (Kind::CrossIntersection, Orientation::Basic),
            (false, false, false, false) => {
                proof {
                    assert(false);  // excluded: the pattern has at least one link
                }
                (Kind::DeadEnd, Orientation::Basic)
            },
        }
    }
}

impl Default for Links {
    /// The empty link set, with all four bits inactive.
    fn default() -> (r: Links)
        ensures
            forall|i: int| !(#[trigger] r.at_index(i)),
    {
        Links { east: false, north: false, west: false, south: false }
    }
}

/// The link-to-shape mapping is exact: for every non-empty bit pattern, the
/// decoded shape's fundamental pattern, turned by the decoded rotation,
/// reproduces the original bits edge for edge.
pub proof fn lemma_kind_orientation_matches_links(l: Links)
    requires
        l.any(),
    ensures
        forall|d: Direction| #[trigger] crate::tile::base_link(
            l.kind_orientation_spec().0,
            (d.index_spec() - l.kind_orientation_spec().1.offset_spec()) % 4,
        ) == l.at(d),
{
    let k = l.kind_orientation_spec().0;
    let o = l.kind_orientation_spec().1;
    assert forall|d: Direction| #[trigger] crate::tile::base_link(
        k,
        (d.index_spec() - o.offset_spec()) % 4,
    ) == l.at(d) by {
        match d {
            Direction::Right => {
                assert(crate::tile::base_link(k, (0 - o.offset_spec()) % 4) == l.at_index(0));
            },
            Direction::Up => {
                assert(crate::tile::base_link(k, (1 - o.offset_spec()) % 4) == l.at_index(1));
            },
            Direction::Left => {
                assert(crate::tile::base_link(k, (2 - o.offset_spec()) % 4) == l.at_index(2));
            },
            Direction::Down => {
                assert(crate::tile::base_link(k, (3 - o.offset_spec()) % 4) == l.at_index(3));
            },
        }
    }
}

} // verus!
