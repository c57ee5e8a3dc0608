//! Tiles and their building blocks: pipe shapes, orientations, features,
//! and the per-tile link geometry.

use vstd::prelude::*;

use crate::direction::Direction;
use crate::links::Links;

verus! {

/// The shape of the pipes on a tile: dead end (one stub), straight (two
/// opposite stubs), corner (two adjacent stubs), T (three stubs) or cross
/// (four stubs).
#[derive(Copy, Clone, Debug, PartialEq, Eq, Structural)]
pub enum Kind {
    DeadEnd,
    Straight,
    Corner,
    TIntersection,
    CrossIntersection,
}

/// A source or a drain sitting on top of a tile.
///
/// Most tiles have only pipes and no feature. There is exactly one source
/// tile per puzzle; tiles with a dead-end pipe are treated as drains by the
/// generator.
#[derive(Copy, Clone, Debug, PartialEq, Eq, Structural)]
pub enum Feature {
    Empty,
    Drain,
    Source,
}

/// The rotation of a tile, in quarter turns counter-clockwise from the
/// fundamental position.
#[derive(Copy, Clone, Debug, PartialEq, Eq, Structural)]
pub enum Orientation {
    Basic,
    Ccw90,
    Ccw180,
    Ccw270,
}

impl Orientation {
    /// The number of quarter turns this orientation stands for.
    pub open spec fn offset_spec(self) -> int {
        match self {
            Orientation::Basic => 0,
            Orientation::Ccw90 => 1,
            Orientation::Ccw180 => 2,
            Orientation::Ccw270 => 3,
        }
    }

    /// The next orientation counter-clockwise, as a spec value.
    pub open spec fn next_ccw_spec(self) -> Orientation {
        match self {
            Orientation::Basic => Orientation::Ccw90,
            Orientation::Ccw90 => Orientation::Ccw180,
            Orientation::Ccw180 => Orientation::Ccw270,
            Orientation::Ccw270 => Orientation::Basic,
        }
    }

    /// Get the next orientation in counter-clockwise order.
    pub fn next_ccw(&self) -> (r: Orientation)
        ensures
            r == self.next_ccw_spec(),
    {
        match self {
            Orientation::Basic => Orientation::Ccw90,
            Orientation::Ccw90 => Orientation::Ccw180,
            Orientation::Ccw180 => Orientation::Ccw270,
            Orientation::Ccw270 => Orientation::Basic,
        }
    }
}

/// Whether a shape in the fundamental orientation carries a pipe stub at
/// boundary index `i` (0 east, 1 north, 2 west, 3 south).
pub open spec fn base_link(kind: Kind, i: int) -> bool {
    match kind {
        Kind::DeadEnd => i == 0,
        Kind::Straight => i == 0 || i == 2,
        Kind::Corner => i == 0 || i == 1,
        Kind::TIntersection => i == 0 || i == 1 || i == 2,
        Kind::CrossIntersection => 0 <= i < 4,
    }
}

/// A tile on the game board.
///
/// Tiles carry pipes of a certain shape, possibly an energy source or drain,
/// a current rotation, and a derived `powered` flag that is recomputed in
/// full by the energy propagation whenever the topology changes.
#[derive(Copy, Clone, Debug, PartialEq, Eq, Structural)]
pub struct Tile {
    /// The pipe shape.
    pub kind: Kind,
    /// The feature sitting on the tile, if any.
    pub feature: Feature,
    /// The current rotation.
    pub orientation: Orientation,
    /// Whether the tile currently receives energy from the source.
    pub powered: bool,
}

impl Tile {
    /// Whether the tile, in its current rotation, carries a pipe stub toward
    /// `direction`: the fundamental pattern of its shape, read at the
    /// boundary index turned back by the tile's own rotation.
    pub open spec fn has_link_spec(self, direction: Direction) -> bool {
        base_link(
            self.kind,
            (direction.index_spec() - self.orientation.offset_spec()) % 4,
        )
    }

    /// The same tile with every field but `powered` unchanged.
    pub open spec fn with_powered(self, powered: bool) -> Tile {
        Tile { powered, ..self }
    }

    /// The same tile rotated by one quarter turn counter-clockwise.
    pub open spec fn rotate_spec(self) -> Tile {
        Tile { orientation: self.orientation.next_ccw_spec(), ..self }
    }

    /// Build a tile from a link set: the shape and the rotation are decoded
    /// from the bit pattern, dead ends become drains, and the tile starts
    /// unpowered. The decoded tile carries a pipe stub exactly toward the
    /// directions whose link bit was set.
    pub fn from_links(links: Links) -> (r: Tile)
        requires
            links.any(),
        ensures
            (r.kind, r.orientation) == links.kind_orientation_spec(),
            r.feature == (if r.kind is DeadEnd { Feature::Drain } else { Feature::Empty }),
            r.powered == false,
            forall|d: Direction| #[trigger] r.has_link_spec(d) == links.at(d),
    {
        proof {
            crate::links::lemma_kind_orientation_matches_links(links);
        }
        let (kind, orientation) = links.kind_orientation();
        let feature = match kind {
            Kind::DeadEnd => Feature::Drain,
            _ => Feature::Empty,
        };
        Tile { kind, feature, orientation, powered: false }
    }

    /// The pipe shape.
    pub fn kind(&self) -> (r: Kind)
        ensures
            r == self.kind,
    {
        self.kind
    }

    /// The feature sitting on the tile.
    pub fn feature(&self) -> (r: Feature)
        ensures
            r == self.feature,
    {
        self.feature
    }

    /// The current rotation.
    pub fn orientation(&self) -> (r: Orientation)
        ensures
            r == self.orientation,
    {
        self.orientation
    }

    /// Whether the tile currently receives energy.
    pub fn powered(&self) -> (r: bool)
        ensures
            r == self.powered,
    {
        self.powered
    }

    /// Rotate the tile by one quarter turn counter-clockwise.
    pub fn rotate(&mut self)
        ensures
            *final(self) == old(self).rotate_spec(),
    {
        self.orientation = self.orientation.next_ccw();
    }

    /// Whether the tile, in its current rotation, carries a pipe stub toward
    /// `direction`.
    pub fn has_link(&self, direction: Direction) -> (r: bool)
        ensures
            r == self.has_link_spec(direction),
    {
        let index = direction.index();
        let offset = match self.orientation {
            Orientation::Basic => 0,
            Orientation::Ccw90 => 1,
            Orientation::Ccw180 => 2,
            Orientation::Ccw270 => 3,
        };
        let turned = (index + 4 - offset) % 4;
        proof {
            assert(turned as int == (direction.index_spec()
                - self.orientation.offset_spec()) % 4);
        }
        match self.kind {
            Kind::DeadEnd => turned == 0,
            Kind::Straight => turned == 0 || turned == 2,
            Kind::Corner => turned == 0 || turned == 1,
            Kind::TIntersection => turned == 0 || turned == 1 || turned == 2,
            Kind::CrossIntersection => true,
        }
    }
}

/// Rotating a tile four times returns it to its original state: the
/// orientation cycle has length four, and no other field is touched.
pub proof fn lemma_four_rotations_identity(t: Tile)
    ensures
        t.rotate_spec().rotate_spec().rotate_spec().rotate_spec() == t,
{
}

} // verus!
