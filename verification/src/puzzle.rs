//! The puzzle aggregate: a grid of tiles, obstructing walls, a single energy
//! source, and the energy propagation that recomputes which tiles are
//! powered.

use vstd::prelude::*;

use crate::direction::Direction;
use crate::grid::Grid;
use crate::tile::{Feature, Tile};
use crate::vec2::Vec2;

verus! {

/// The horizontal or vertical alignment of a wall.
#[derive(Copy, Clone, Debug, PartialEq, Eq, Structural)]
pub enum Alignment {
    Horizontal,
    Vertical,
}

/// A wall between two tiles.
///
/// A horizontal wall is anchored to the tile below it: it runs along that
/// tile's top edge. A vertical wall is anchored to the tile to its right: it
/// runs along that tile's left edge. Walls block connectivity regardless of
/// pipe links and are immutable once generated.
#[derive(Copy, Clone, Debug, PartialEq, Eq, Structural)]
pub struct Wall {
    /// The anchor tile: below a horizontal wall, right of a vertical wall.
    pub position: Vec2,
    /// Whether the wall runs horizontally or vertically.
    pub alignment: Alignment,
}

impl Wall {
    /// The anchor tile of the wall.
    pub fn position(&self) -> (r: Vec2)
        ensures
            r == self.position,
    {
        self.position
    }

    /// The alignment of the wall.
    pub fn orientation(&self) -> (r: Alignment)
        ensures
            r == self.alignment,
    {
        self.alignment
    }
}

/// The difficulty of a puzzle, steering the shape mix of the generated pipe
/// network.
#[derive(Copy, Clone, Debug, PartialEq, Eq, Structural)]
pub enum Difficulty {
    Easy,
    Medium,
    Hard,
}

/// The puzzle generation options: board size, difficulty, and wrapping.
#[derive(Copy, Clone, Debug, PartialEq, Eq, Structural)]
pub struct Options {
    /// The number of rows and columns of the game board.
    pub board_size: u8,
    /// The difficulty of the puzzle.
    pub difficulty: Difficulty,
    /// If true, the game board forms a torus: energy can flow from the left
    /// edge to the right edge and from the top edge to the bottom edge.
    pub wrapping: bool,
}

impl Options {
    /// The board size stays in the supported range.
    pub open spec fn wf(self) -> bool {
        3 <= self.board_size <= 20
    }
}

impl Default for Options {
    /// The smallest board, easy, without wrapping.
    fn default() -> (r: Options)
        ensures
            r == (Options { board_size: 3, difficulty: Difficulty::Easy, wrapping: false }),
    {
        Options { board_size: 3, difficulty: Difficulty::Easy, wrapping: false }
    }
}

/// The puzzle: a square grid of rotatable tiles, a list of walls, the source
/// coordinate, the options it was generated with, and the expected number of
/// corrective moves.
pub struct Puzzle {
    options: Options,
    tiles: Grid<Tile>,
    walls: Vec<Wall>,
    source: Vec2,
    expected_moves: u32,
}

impl Puzzle {
    /// The generation options.
    pub closed spec fn options_spec(self) -> Options {
        self.options
    }

    /// The grid of tiles.
    pub closed spec fn tiles_spec(self) -> Grid<Tile> {
        self.tiles
    }

    /// The walls, in generation order.
    pub closed spec fn walls_spec(self) -> Seq<Wall> {
        self.walls@
    }

    /// The coordinate of the source tile.
    pub closed spec fn source_spec(self) -> Vec2 {
        self.source
    }

    /// The expected number of moves to solve the puzzle.
    pub closed spec fn expected_moves_spec(self) -> u32 {
        self.expected_moves
    }

    /// The tile at the integer point `(x, y)`.
    pub open spec fn tile_xy(self, x: int, y: int) -> Tile {
        self.tiles_spec().at_xy(x, y)
    }

    /// Whether the integer point `(x, y)` lies on the board.
    pub open spec fn on_board(self, x: int, y: int) -> bool {
        self.tiles_spec().contains_xy(x, y)
    }

    /// Structural well-formedness of the aggregate: the grid is square with
    /// the announced board size, and the source coordinate points at the one
    /// tile carrying the source feature.
    pub open spec fn wf(self) -> bool {
        &&& self.tiles_spec().wf()
        &&& self.options_spec().wf()
        &&& self.tiles_spec().rows_spec() == self.options_spec().board_size
        &&& self.tiles_spec().cols_spec() == self.options_spec().board_size
        &&& self.tiles_spec().contains_spec(self.source_spec())
        &&& self.tiles_spec().at(self.source_spec()).feature == Feature::Source
        &&& self.unique_source()
    }

    /// The source feature appears at the source coordinate only.
    pub open spec fn unique_source(self) -> bool {
        forall|x: int, y: int|
            self.on_board(x, y) && (#[trigger] self.tile_xy(x, y)).feature == Feature::Source
                ==> (x, y) == (self.source_spec().x as int, self.source_spec().y as int)
    }

    /// The wrap-folded neighbor of `(x, y)` one step toward `d`.
    pub open spec fn norm_step(self, x: int, y: int, d: Direction) -> (int, int) {
        self.tiles_spec().norm_xy(x + d.unit_spec().0, y + d.unit_spec().1)
    }

    /// Whether a wall is recorded at anchor `(x, y)` with alignment `a`.
    pub open spec fn wall_at(self, x: int, y: int, a: Alignment) -> bool {
        exists|i: int|
            0 <= i < self.walls_spec().len() && (#[trigger] self.walls_spec()[i]) == (Wall {
                position: Vec2 { x: x as i32, y: y as i32 },
                alignment: a,
            })
    }

    /// Whether a wall blocks the edge between the tile at `(x, y)` and its
    /// neighbor toward `d`. Horizontal walls are anchored to the cell below
    /// the edge, vertical walls to the cell right of the edge.
    pub open spec fn wall_between_spec(self, x: int, y: int, d: Direction) -> bool {
        let n = self.norm_step(x, y, d);
        match d {
            Direction::Up => self.wall_at(x, y, Alignment::Horizontal),
            Direction::Down => self.wall_at(n.0, n.1, Alignment::Horizontal),
            Direction::Left => self.wall_at(x, y, Alignment::Vertical),
            Direction::Right => self.wall_at(n.0, n.1, Alignment::Vertical),
        }
    }

    /// Whether the tile at the on-board point `(x, y)` and its (wrap-folded)
    /// neighbor toward `d` are connected: without wrapping the raw neighbor
    /// must lie on the board (the outer boundary is an implicit wall), no
    /// wall may block the shared edge, and both tiles must carry a pipe stub
    /// toward each other.
    pub open spec fn connected_spec(self, x: int, y: int, d: Direction) -> bool {
        let raw = crate::grid::step_xy(x, y, d);
        let n = self.norm_step(x, y, d);
        &&& (!self.options_spec().wrapping ==> self.tiles_spec().contains_xy(raw.0, raw.1))
        &&& !self.wall_between_spec(x, y, d)
        &&& self.tile_xy(x, y).has_link_spec(d)
        &&& self.tile_xy(n.0, n.1).has_link_spec(d.opposite_spec())
    }

    /// Whether `b` is one connected step from the on-board point `a`.
    pub open spec fn step_ok(self, a: (int, int), b: (int, int)) -> bool {
        exists|d: Direction|
            #[trigger] self.connected_spec(a.0, a.1, d) && b == self.norm_step(a.0, a.1, d)
    }

    /// Whether `path` is a chain of connected steps starting at the source.
    pub open spec fn is_path(self, path: Seq<(int, int)>) -> bool {
        &&& path.len() > 0
        &&& path[0] == (self.source_spec().x as int, self.source_spec().y as int)
        &&& (forall|i: int|
            0 <= i < path.len() ==> self.on_board((#[trigger] path[i]).0, path[i].1))
        &&& (forall|i: int| 0 < i < path.len() ==> self.step_ok(path[i - 1], #[trigger] path[i]))
    }

    /// Whether energy can reach the point `(x, y)` from the source through
    /// connected, unblocked pipes.
    pub open spec fn reachable(self, x: int, y: int) -> bool {
        exists|path: Seq<(int, int)>| #[trigger]
            self.is_path(path) && path.last() == (x, y)
    }

    /// Whether every tile of the board is powered.
    pub open spec fn all_powered(self) -> bool {
        forall|x: int, y: int|
            self.on_board(x, y) ==> (#[trigger] self.tile_xy(x, y)).powered
    }

    /// Two puzzles agree on everything the connectivity relation reads:
    /// options, walls, source, board dimensions, and each tile's shape and
    /// rotation. The `powered` flags and features may differ.
    pub open spec fn same_topology(self, other: Puzzle) -> bool {
        &&& self.options_spec() == other.options_spec()
        &&& self.walls_spec() == other.walls_spec()
        &&& self.source_spec() == other.source_spec()
        &&& self.tiles_spec().rows_spec() == other.tiles_spec().rows_spec()
        &&& self.tiles_spec().cols_spec() == other.tiles_spec().cols_spec()
        &&& (forall|x: int, y: int|
            self.on_board(x, y) ==> {
                &&& (#[trigger] self.tile_xy(x, y)).kind == other.tile_xy(x, y).kind
                &&& self.tile_xy(x, y).orientation == other.tile_xy(x, y).orientation
            })
    }

    /// Assemble a puzzle value in ghost code, for stating properties of a
    /// state that the executable pipeline only passes through.
    pub proof fn assemble(
        options: Options,
        tiles: Grid<Tile>,
        walls: Vec<Wall>,
        source: Vec2,
        expected_moves: u32,
    ) -> (p: Puzzle)
        ensures
            p.options_spec() == options,
            p.tiles_spec() == tiles,
            p.walls_spec() == walls@,
            p.source_spec() == source,
            p.expected_moves_spec() == expected_moves,
    {
        Puzzle { options, tiles, walls, source, expected_moves }
    }

    /// Assemble a puzzle from its parts. The parts must already satisfy the
    /// aggregate invariant: a square grid of the announced size whose one
    /// source tile sits at `source`.
    pub fn new(
        options: Options,
        tiles: Grid<Tile>,
        walls: Vec<Wall>,
        source: Vec2,
        expected_moves: u32,
    ) -> (r: Puzzle)
        requires
            options.wf(),
            tiles.wf(),
            tiles.rows_spec() == options.board_size,
            tiles.cols_spec() == options.board_size,
            tiles.contains_spec(source),
            tiles.at(source).feature == Feature::Source,
            forall|x: int, y: int|
                tiles.contains_xy(x, y) && (#[trigger] tiles.at_xy(x, y)).feature
                    == Feature::Source ==> (x, y) == (source.x as int, source.y as int),
        ensures
            r.wf(),
            r.options_spec() == options,
            r.tiles_spec() == tiles,
            r.walls_spec() == walls@,
            r.source_spec() == source,
            r.expected_moves_spec() == expected_moves,
    {
        Puzzle { options, tiles, walls, source, expected_moves }
    }

    /// The options the puzzle was generated with.
    pub fn options(&self) -> (r: &Options)
        ensures
            *r == self.options_spec(),
    {
        &self.options
    }

    /// Immutable access to the grid of tiles.
    pub fn grid(&self) -> (r: &Grid<Tile>)
        ensures
            *r == self.tiles_spec(),
    {
        &self.tiles
    }

    /// Mutable access to the grid of tiles. The caller is responsible for
    /// keeping the aggregate invariant: the intended mutation is rotating
    /// individual tiles.
    pub fn grid_mut(&mut self) -> (r: &mut Grid<Tile>)
        ensures
            *r == old(self).tiles_spec(),
            final(self).tiles_spec() == *final(r),
            final(self).options_spec() == old(self).options_spec(),
            final(self).walls_spec() == old(self).walls_spec(),
            final(self).source_spec() == old(self).source_spec(),
            final(self).expected_moves_spec() == old(self).expected_moves_spec(),
    {
        &mut self.tiles
    }

    /// The list of walls.
    pub fn walls(&self) -> (r: &Vec<Wall>)
        ensures
            r@ == self.walls_spec(),
    {
        &self.walls
    }

    /// The coordinates of the source tile.
    pub fn source(&self) -> (r: &Vec2)
        ensures
            *r == self.source_spec(),
    {
        &self.source
    }

    /// The number of moves expected to solve the puzzle.
    ///
    /// A move is a manipulation of a single tile, however many quarter turns
    /// it takes. Other solutions may exist with fewer moves.
    pub fn expected_moves(&self) -> (r: u32)
        ensures
            r == self.expected_moves_spec(),
    {
        self.expected_moves
    }

    /// The number of rows or columns of the board.
    pub fn size(&self) -> (r: u8)
        requires
            self.wf(),
        ensures
            r == self.options_spec().board_size,
            r == self.tiles_spec().rows_spec(),
            r == self.tiles_spec().cols_spec(),
    {
        self.options.board_size
    }

    /// The tile at `coord`, or `None` when `coord` is off the board.
    pub fn get_tile(&self, coord: Vec2) -> (r: Option<&Tile>)
        requires
            self.tiles_spec().wf(),
        ensures
            match r {
                Some(t) => self.on_board(coord.x as int, coord.y as int) && *t == self.tiles_spec().at(coord),
                None => !self.on_board(coord.x as int, coord.y as int),
            },
    {
        self.tiles.get(coord)
    }

    /// Whether the puzzle is solved: every tile must be powered, not just
    /// drains and dead ends.
    pub fn solved(&self) -> (r: bool)
        requires
            self.tiles_spec().wf(),
        ensures
            r == self.all_powered(),
    {
        let rows = self.tiles.rows();
        let cols = self.tiles.cols();
        let mut y: usize = 0;
        while y < rows
            invariant
                self.tiles_spec().wf(),
                rows == self.tiles_spec().rows_spec(),
                cols == self.tiles_spec().cols_spec(),
                y <= rows,
                forall|xx: int, yy: int|
                    self.on_board(xx, yy) && yy < y ==> (#[trigger] self.tile_xy(xx, yy)).powered,
            decreases rows - y,
        {
            let mut x: usize = 0;
            while x < cols
                invariant
                    self.tiles_spec().wf(),
                    rows == self.tiles_spec().rows_spec(),
                    cols == self.tiles_spec().cols_spec(),
                    y < rows,
                    x <= cols,
                    forall|xx: int, yy: int|
                        self.on_board(xx, yy) && yy < y ==> (#[trigger] self.tile_xy(xx, yy)).powered,
                    forall|xx: int|
                        0 <= xx < x ==> (#[trigger] self.tile_xy(xx, y as int)).powered,
                decreases cols - x,
            {
                let coord = Vec2::new(x as i32, y as i32);
                match self.tiles.get(coord) {
                    Some(t) => {
                        if !t.powered {
                            proof {
                                assert(self.on_board(x as int, y as int));
                                assert(!self.tile_xy(x as int, y as int).powered);
                            }
                            return false;
                        }
                    },
                    None => {},
                }
                x = x + 1;
            }
            y = y + 1;
        }
        true
    }

    /// Whether a wall blocks the edge between the on-board tile at `coord`
    /// and its neighbor toward `dir`.
    #[verifier::loop_isolation(false)]
    pub(crate) fn wall_between(&self, coord: Vec2, dir: Direction) -> (r: bool)
        requires
            self.tiles_spec().wf(),
            self.tiles_spec().rows_spec() >= 1,
            self.tiles_spec().cols_spec() >= 1,
            self.on_board(coord.x as int, coord.y as int),
        ensures
            r == self.wall_between_spec(coord.x as int, coord.y as int, dir),
    {
        let coord_b = self.tiles.normalized_coord(coord.add(dir.to_vec2()));
        let (pos, alignment) = match dir {
            Direction::Up => (coord, Alignment::Horizontal),
            Direction::Down => (coord_b, Alignment::Horizontal),
            Direction::Left => (coord, Alignment::Vertical),
            Direction::Right => (coord_b, Alignment::Vertical),
        };
        proof {
            // The anchor named by the specification is exactly `pos`.
            let x = coord.x as int;
            let y = coord.y as int;
            let n = self.norm_step(x, y, dir);
            assert(n == (coord_b.x as int, coord_b.y as int));
            match dir {
                Direction::Up => assert(pos == (Vec2 { x: x as i32, y: y as i32 })),
                Direction::Down => assert(pos == (Vec2 { x: n.0 as i32, y: n.1 as i32 })),
                Direction::Left => assert(pos == (Vec2 { x: x as i32, y: y as i32 })),
                Direction::Right => assert(pos == (Vec2 { x: n.0 as i32, y: n.1 as i32 })),
            }
        }
        let ghost target = Wall { position: pos, alignment };
        let mut i: usize = 0;
        while i < self.walls.len()
            invariant
                i <= self.walls_spec().len(),
                target == (Wall { position: pos, alignment }),
                forall|j: int| 0 <= j < i ==> (#[trigger] self.walls_spec()[j]) != target,
            decreases self.walls_spec().len() - i,
        {
            let w = self.walls[i];
            if w.position.x == pos.x && w.position.y == pos.y && w.alignment == alignment {
                proof {
                    assert(self.walls_spec()[i as int] == target);
                }
                return true;
            }
            i = i + 1;
        }
        false
    }

    /// Whether the on-board tile at `coord` and its (wrap-folded) neighbor
    /// toward `dir` have a connection: two facing pipe stubs and no wall.
    pub(crate) fn connected(&self, coord: Vec2, dir: Direction) -> (r: bool)
        requires
            self.tiles_spec().wf(),
            self.tiles_spec().rows_spec() >= 1,
            self.tiles_spec().cols_spec() >= 1,
            self.on_board(coord.x as int, coord.y as int),
        ensures
            r == self.connected_spec(coord.x as int, coord.y as int, dir),
    {
        let step = coord.add(dir.to_vec2());

        // Without wrapping, the outer boundary acts as an implicit wall.
        if !self.options.wrapping && !self.tiles.contains_coord(step) {
            return false;
        }

        if self.wall_between(coord, dir) {
            return false;
        }

        let tile_a = self.tiles.wrapping_get(coord);
        let tile_b = self.tiles.wrapping_get(step);
        proof {
            // An on-board coordinate folds to itself.
            assert(coord.x as int % self.tiles_spec().cols_spec() == coord.x as int)
                by (nonlinear_arith)
                requires
                    0 <= (coord.x as int) < self.tiles_spec().cols_spec(),
            ;
            assert(coord.y as int % self.tiles_spec().rows_spec() == coord.y as int)
                by (nonlinear_arith)
                requires
                    0 <= (coord.y as int) < self.tiles_spec().rows_spec(),
            ;
        }
        tile_a.has_link(dir) && tile_b.has_link(dir.opposite())
    }
}

/// The number of unpowered tiles among the first `k` cells of a flat tile
/// sequence: the measure that shrinks as the energy fill makes progress.
pub open spec fn count_unpowered(s: Seq<Tile>, k: int) -> nat
    decreases k,
{
    if k <= 0 {
        0
    } else {
        count_unpowered(s, k - 1) + (if s[k - 1].powered {
            0nat
        } else {
            1nat
        })
    }
}

/// Counting reads only the first `k` cells.
proof fn lemma_count_unpowered_congruence(s1: Seq<Tile>, s2: Seq<Tile>, k: int)
    requires
        forall|i: int| 0 <= i < k ==> s1[i] == s2[i],
    ensures
        count_unpowered(s1, k) == count_unpowered(s2, k),
    decreases k,
{
    if k > 0 {
        lemma_count_unpowered_congruence(s1, s2, k - 1);
    }
}

/// Powering a previously unpowered cell drops the count by one.
proof fn lemma_count_unpowered_update(s: Seq<Tile>, j: int, t: Tile, k: int)
    requires
        0 <= j < k <= s.len(),
        !s[j].powered,
        t.powered,
    ensures
        count_unpowered(s.update(j, t), k) + 1 == count_unpowered(s, k),
    decreases k,
{
    if j == k - 1 {
        lemma_count_unpowered_congruence(s.update(j, t), s, k - 1);
    } else {
        lemma_count_unpowered_update(s, j, t, k - 1);
    }
}

/// Folding any integer point lands on the board.
pub proof fn lemma_norm_step_on_board(p: Puzzle, x: int, y: int, d: Direction)
    requires
        p.tiles_spec().rows_spec() >= 1,
        p.tiles_spec().cols_spec() >= 1,
    ensures
        p.on_board(p.norm_step(x, y, d).0, p.norm_step(x, y, d).1),
{
    let sx = x + d.unit_spec().0;
    let sy = y + d.unit_spec().1;
    assert(0 <= sx % p.tiles_spec().cols_spec() < p.tiles_spec().cols_spec())
        by (nonlinear_arith)
        requires
            p.tiles_spec().cols_spec() >= 1,
    ;
    assert(0 <= sy % p.tiles_spec().rows_spec() < p.tiles_spec().rows_spec())
        by (nonlinear_arith)
        requires
            p.tiles_spec().rows_spec() >= 1,
    ;
}

/// The source of a well-formed puzzle is reachable, by the one-point path.
pub proof fn lemma_source_reachable(p: Puzzle)
    requires
        p.wf(),
    ensures
        p.reachable(p.source_spec().x as int, p.source_spec().y as int),
{
    let s = seq![(p.source_spec().x as int, p.source_spec().y as int)];
    assert(p.is_path(s));
    assert(s.last() == (p.source_spec().x as int, p.source_spec().y as int));
}

/// Reachability extends along one connected step.
pub proof fn lemma_reachable_step(p: Puzzle, x: int, y: int, d: Direction)
    requires
        p.on_board(x, y),
        p.reachable(x, y),
        p.connected_spec(x, y, d),
    ensures
        p.reachable(p.norm_step(x, y, d).0, p.norm_step(x, y, d).1),
{
    let path = choose|path: Seq<(int, int)>| p.is_path(path) && path.last() == (x, y);
    let n = p.norm_step(x, y, d);
    lemma_norm_step_on_board(p, x, y, d);
    let path2 = path.push((n.0, n.1));
    assert(p.step_ok((x, y), (n.0, n.1)));
    assert forall|i: int| 0 < i < path2.len() implies p.step_ok(
        path2[i - 1],
        #[trigger] path2[i],
    ) by {
        if i < path2.len() - 1 {
            assert(path2[i] == path[i]);
            assert(path2[i - 1] == path[i - 1]);
        } else {
            assert(path2[i] == (n.0, n.1));
            assert(path2[i - 1] == path[path.len() - 1]);
        }
    }
    assert(p.is_path(path2));
    assert(path2.last() == (n.0, n.1));
}

/// Puzzles with the same topology agree on connectivity at every on-board
/// point.
pub proof fn lemma_same_topology_connected(a: Puzzle, b: Puzzle, x: int, y: int, d: Direction)
    requires
        a.same_topology(b),
        a.on_board(x, y),
    ensures
        a.connected_spec(x, y, d) == b.connected_spec(x, y, d),
        a.norm_step(x, y, d) == b.norm_step(x, y, d),
{
    let n = a.norm_step(x, y, d);
    lemma_norm_step_on_board(a, x, y, d);
    assert(a.tile_xy(x, y).has_link_spec(d) == b.tile_xy(x, y).has_link_spec(d));
    assert(a.tile_xy(n.0, n.1).has_link_spec(d.opposite_spec())
        == b.tile_xy(n.0, n.1).has_link_spec(d.opposite_spec()));
}

/// Puzzles with the same topology have the same reachable set.
pub proof fn lemma_same_topology_reachable(a: Puzzle, b: Puzzle, x: int, y: int)
    requires
        a.same_topology(b),
        a.reachable(x, y),
    ensures
        b.reachable(x, y),
{
    let path = choose|path: Seq<(int, int)>| a.is_path(path) && path.last() == (x, y);
    assert forall|i: int| 0 < i < path.len() implies b.step_ok(
        path[i - 1],
        #[trigger] path[i],
    ) by {
        assert(a.step_ok(path[i - 1], path[i]));
        let d = choose|d: Direction|
            #[trigger] a.connected_spec(path[i - 1].0, path[i - 1].1, d) && path[i]
                == a.norm_step(path[i - 1].0, path[i - 1].1, d);
        assert(path[i - 1] == path[(i - 1) as int]);
        lemma_same_topology_connected(a, b, path[i - 1].0, path[i - 1].1, d);
        assert(b.connected_spec(path[i - 1].0, path[i - 1].1, d));
    }
    assert(b.is_path(path));
}

/// Every cell of a path is powered in a state where the source is powered
/// and every powered cell has powered connected neighbors.
proof fn lemma_path_all_powered(p0: Puzzle, q: Puzzle, path: Seq<(int, int)>)
    requires
        p0.is_path(path),
        q.tiles_spec().rows_spec() == p0.tiles_spec().rows_spec(),
        q.tiles_spec().cols_spec() == p0.tiles_spec().cols_spec(),
        q.tile_xy(p0.source_spec().x as int, p0.source_spec().y as int).powered,
        forall|x: int, y: int|
            q.on_board(x, y) && (#[trigger] q.tile_xy(x, y)).powered ==> q.closed_at(p0, x, y),
    ensures
        q.tile_xy(path.last().0, path.last().1).powered,
    decreases path.len(),
{
    if path.len() == 1 {
        assert(path.last() == path[0]);
    } else {
        let pre = path.drop_last();
        assert(p0.is_path(pre)) by {
            assert(pre[0] == path[0]);
            assert forall|i: int| 0 <= i < pre.len() implies p0.on_board(
                (#[trigger] pre[i]).0,
                pre[i].1,
            ) by {
                assert(pre[i] == path[i]);
            }
            assert forall|i: int| 0 < i < pre.len() implies p0.step_ok(
                pre[i - 1],
                #[trigger] pre[i],
            ) by {
                assert(pre[i] == path[i]);
                assert(pre[i - 1] == path[i - 1]);
            }
        }
        lemma_path_all_powered(p0, q, pre);
        let prev = path[path.len() - 2];
        let last = path[path.len() - 1];
        assert(pre.last() == prev);
        assert(p0.step_ok(prev, last));
        let d = choose|d: Direction|
            #[trigger] p0.connected_spec(prev.0, prev.1, d) && last == p0.norm_step(
                prev.0,
                prev.1,
                d,
            );
        assert(q.on_board(prev.0, prev.1));
        assert(q.closed_at(p0, prev.0, prev.1));
        assert(q.tile_xy(last.0, last.1).powered);
        assert(path.last() == last);
    }
}

impl Puzzle {
    /// Every connected neighbor of the on-board point `(x, y)` is powered,
    /// with connectivity read from the topology `p0`.
    pub open spec fn closed_at(self, p0: Puzzle, x: int, y: int) -> bool {
        forall|d: Direction|
            #[trigger] p0.connected_spec(x, y, d) ==> self.tile_xy(
                p0.norm_step(x, y, d).0,
                p0.norm_step(x, y, d).1,
            ).powered
    }

    /// The working invariant of the energy fill: the state differs from the
    /// snapshot `p0` only in `powered` flags, the source is powered, the
    /// work stack holds distinct powered on-board cells, every powered cell
    /// is reachable in `p0`, and every powered cell that is off the stack
    /// already has all its connected neighbors powered.
    spec fn fill_inv(self, p0: Puzzle, stack: Seq<Vec2>) -> bool {
        &&& p0.wf()
        &&& self.tiles_spec().wf()
        &&& self.options_spec() == p0.options_spec()
        &&& self.walls_spec() == p0.walls_spec()
        &&& self.source_spec() == p0.source_spec()
        &&& self.expected_moves_spec() == p0.expected_moves_spec()
        &&& self.tiles_spec().rows_spec() == p0.tiles_spec().rows_spec()
        &&& self.tiles_spec().cols_spec() == p0.tiles_spec().cols_spec()
        &&& (forall|x: int, y: int|
            self.on_board(x, y) ==> (#[trigger] self.tile_xy(x, y)) == p0.tile_xy(
                x,
                y,
            ).with_powered(self.tile_xy(x, y).powered))
        &&& self.tile_xy(p0.source_spec().x as int, p0.source_spec().y as int).powered
        &&& (forall|i: int|
            0 <= i < stack.len() ==> self.on_board(
                (#[trigger] stack[i]).x as int,
                stack[i].y as int,
            ) && self.tile_xy(stack[i].x as int, stack[i].y as int).powered)
        &&& (forall|i: int, j: int| 0 <= i < j < stack.len() ==> stack[i] != stack[j])
        &&& (forall|x: int, y: int|
            self.on_board(x, y) && (#[trigger] self.tile_xy(x, y)).powered ==> p0.reachable(
                x,
                y,
            ))
        &&& (forall|x: int, y: int|
            self.on_board(x, y) && (#[trigger] self.tile_xy(x, y)).powered && !stack.contains(
                Vec2 { x: x as i32, y: y as i32 },
            ) ==> self.closed_at(p0, x, y))
    }

    /// Differing only in `powered` flags implies agreeing on the topology.
    proof fn lemma_fill_inv_topology(self, p0: Puzzle, stack: Seq<Vec2>)
        requires
            self.fill_inv(p0, stack),
        ensures
            self.same_topology(p0),
            p0.same_topology(self),
    {
        assert forall|x: int, y: int| p0.on_board(x, y) implies {
            &&& (#[trigger] p0.tile_xy(x, y)).kind == self.tile_xy(x, y).kind
            &&& p0.tile_xy(x, y).orientation == self.tile_xy(x, y).orientation
        } by {
            assert(self.on_board(x, y));
            assert(self.tile_xy(x, y) == p0.tile_xy(x, y).with_powered(
                self.tile_xy(x, y).powered,
            ));
        }
    }

    /// Spread energy from the freshly popped cell `cur` to its connected
    /// neighbors: each unpowered connected neighbor is powered and pushed.
    #[verifier::rlimit(80)]
    fn process_cell(&mut self, cur: Vec2, stack: &mut Vec<Vec2>, Ghost(p0): Ghost<Puzzle>)
        requires
            old(self).fill_inv(p0, old(stack)@.push(cur)),
            old(self).on_board(cur.x as int, cur.y as int),
            old(self).tile_xy(cur.x as int, cur.y as int).powered,
            !old(stack)@.contains(cur),
        ensures
            final(self).fill_inv(p0, final(stack)@),
            final(stack)@.len() >= old(stack)@.len(),
            count_unpowered(
                final(self).tiles_spec().view(),
                final(self).tiles_spec().view().len() as int,
            ) + final(stack)@.len() == count_unpowered(
                old(self).tiles_spec().view(),
                old(self).tiles_spec().view().len() as int,
            ) + old(stack)@.len(),
    {
        let ghost count0 = count_unpowered(
            old(self).tiles_spec().view(),
            old(self).tiles_spec().view().len() as int,
        );
        let ghost len0 = old(stack)@.len();
        let mut di: usize = 0;
        while di < 4
            invariant
                di <= 4,
                self.fill_inv(p0, stack@.push(cur)),
                self.on_board(cur.x as int, cur.y as int),
                self.tile_xy(cur.x as int, cur.y as int).powered,
                !stack@.contains(cur),
                stack@.len() >= len0,
                count_unpowered(
                    self.tiles_spec().view(),
                    self.tiles_spec().view().len() as int,
                ) + stack@.len() == count0 + len0,
                forall|dd: Direction|
                    dd.index_spec() < di && #[trigger] p0.connected_spec(
                        cur.x as int,
                        cur.y as int,
                        dd,
                    ) ==> self.tile_xy(
                        p0.norm_step(cur.x as int, cur.y as int, dd).0,
                        p0.norm_step(cur.x as int, cur.y as int, dd).1,
                    ).powered,
            decreases 4 - di,
        {
            let d = Direction::from_index(di);
            proof {
                self.lemma_fill_inv_topology(p0, stack@.push(cur));
                lemma_same_topology_connected(*self, p0, cur.x as int, cur.y as int, d);
            }
            if self.connected(cur, d) {
                let step = cur.add(d.to_vec2());
                let n = self.tiles.normalized_coord(step);
                proof {
                    assert((n.x as int, n.y as int) == p0.norm_step(
                        cur.x as int,
                        cur.y as int,
                        d,
                    ));
                    lemma_norm_step_on_board(p0, cur.x as int, cur.y as int, d);
                    assert(self.on_board(n.x as int, n.y as int));
                }
                let nt = match self.tiles.get(n) {
                    Some(t) => *t,
                    None => Tile {
                        kind: crate::tile::Kind::DeadEnd,
                        feature: Feature::Empty,
                        orientation: crate::tile::Orientation::Basic,
                        powered: false,
                    },  // unreachable: `n` is on the board
                };
                if !nt.powered {
                    proof {
                        // The new cell is reachable: one step beyond `cur`.
                        assert(p0.reachable(cur.x as int, cur.y as int));
                        assert(p0.connected_spec(cur.x as int, cur.y as int, d));
                        lemma_reachable_step(p0, cur.x as int, cur.y as int, d);
                        assert(p0.reachable(n.x as int, n.y as int));
                        crate::grid::lemma_row_major_bounds(
                            self.tiles_spec().rows_spec(),
                            self.tiles_spec().cols_spec(),
                            n.x as int,
                            n.y as int,
                        );
                    }
                    let ghost pre = *self;
                    let ghost prestack = stack@;
                    self.tiles.set(
                        n,
                        Tile {
                            kind: nt.kind,
                            feature: nt.feature,
                            orientation: nt.orientation,
                            powered: true,
                        },
                    );
                    stack.push(n);
                    proof {
                        lemma_count_unpowered_update(
                            pre.tiles_spec().view(),
                            pre.tiles_spec().index_xy(n.x as int, n.y as int),
                            self.tile_xy(n.x as int, n.y as int),
                            pre.tiles_spec().view().len() as int,
                        );
                        let s2 = stack@.push(cur);
                        let s1 = prestack.push(cur);
                        // Cells other than `n` kept their tile.
                        assert forall|x: int, y: int|
                            self.on_board(x, y) && (x, y) != (n.x as int, n.y as int)
                                implies #[trigger] self.tile_xy(x, y) == pre.tile_xy(x, y) by {}
                        assert(self.tile_xy(n.x as int, n.y as int).powered);
                        assert forall|x: int, y: int| self.on_board(x, y) implies (
                        #[trigger] self.tile_xy(x, y)) == p0.tile_xy(x, y).with_powered(
                            self.tile_xy(x, y).powered,
                        ) by {
                            if (x, y) != (n.x as int, n.y as int) {
                                assert(self.tile_xy(x, y) == pre.tile_xy(x, y));
                            } else {
                                assert(pre.tile_xy(x, y) == p0.tile_xy(x, y).with_powered(
                                    pre.tile_xy(x, y).powered,
                                ));
                            }
                        }
                        // How the two stacks relate, element by element.
                        assert(s2.len() == s1.len() + 1);
                        assert forall|i: int| 0 <= i < prestack.len() implies s2[i] == s1[i]
                            && s1[i] == prestack[i] by {}
                        assert(s2[s2.len() - 2] == n);
                        assert(s2[s2.len() - 1] == cur);
                        assert(s1[s1.len() - 1] == cur);
                        // Every old stack cell is powered and differs from
                        // the freshly powered `n`.
                        assert forall|i: int| 0 <= i < s1.len() implies s1[i] != n by {
                            assert(pre.tile_xy(s1[i].x as int, s1[i].y as int).powered);
                        }
                        // Distinctness of the grown stack.
                        assert forall|i: int, j: int| 0 <= i < j < s2.len() implies s2[i]
                            != s2[j] by {
                            if j == s2.len() - 2 {
                                assert(s2[i] == s1[i]);
                                assert(s2[j] == n);
                            } else if j == s2.len() - 1 {
                                assert(s2[j] == cur);
                                if i == s2.len() - 2 {
                                    assert(s2[i] == n);
                                    assert(pre.tile_xy(cur.x as int, cur.y as int).powered);
                                } else {
                                    assert(s2[i] == s1[i] && s1[s1.len() - 1] == cur);
                                }
                            } else {
                                assert(s2[i] == s1[i] && s2[j] == s1[j]);
                            }
                        }
                        // All stack cells are on the board and powered.
                        assert forall|i: int| 0 <= i < s2.len() implies self.on_board(
                            (#[trigger] s2[i]).x as int,
                            s2[i].y as int,
                        ) && self.tile_xy(s2[i].x as int, s2[i].y as int).powered by {
                            if i < prestack.len() {
                                assert(s2[i] == s1[i]);
                                assert(pre.tile_xy(s1[i].x as int, s1[i].y as int).powered);
                                if (s2[i].x as int, s2[i].y as int) != (n.x as int, n.y as int) {
                                    assert(self.tile_xy(s2[i].x as int, s2[i].y as int)
                                        == pre.tile_xy(s2[i].x as int, s2[i].y as int));
                                }
                            } else if i == s2.len() - 2 {
                                assert(s2[i] == n);
                            } else {
                                assert(s2[i] == cur);
                                assert(pre.tile_xy(cur.x as int, cur.y as int).powered);
                                assert(cur != n);
                            }
                        }
                        // Closed cells stay closed: powering can only help.
                        assert forall|x: int, y: int|
                            self.on_board(x, y) && (#[trigger] self.tile_xy(x, y)).powered
                                && !s2.contains(Vec2 { x: x as i32, y: y as i32 })
                                implies self.closed_at(p0, x, y) by {
                            let v = Vec2 { x: x as i32, y: y as i32 };
                            assert(v != n) by {
                                assert(s2[s2.len() - 2] == n);
                            }
                            assert(!s1.contains(v)) by {
                                assert forall|i: int| 0 <= i < s1.len() implies s1[i] != v by {
                                    if i < prestack.len() {
                                        assert(s2[i] == s1[i]);
                                    } else {
                                        assert(s1[i] == cur && s2[s2.len() - 1] == cur);
                                    }
                                }
                            }
                            assert(pre.tile_xy(x, y).powered);
                            assert(pre.closed_at(p0, x, y));
                            assert forall|dd: Direction|
                                #[trigger] p0.connected_spec(x, y, dd) implies self.tile_xy(
                                p0.norm_step(x, y, dd).0,
                                p0.norm_step(x, y, dd).1,
                            ).powered by {
                                let m = p0.norm_step(x, y, dd);
                                assert(pre.tile_xy(m.0, m.1).powered);
                                if (m.0, m.1) != (n.x as int, n.y as int) {
                                    lemma_norm_step_on_board(p0, x, y, dd);
                                    assert(self.tile_xy(m.0, m.1) == pre.tile_xy(m.0, m.1));
                                }
                            }
                        }
                        // The source stays powered.
                        assert(self.tile_xy(
                            p0.source_spec().x as int,
                            p0.source_spec().y as int,
                        ).powered) by {
                            if (p0.source_spec().x as int, p0.source_spec().y as int)
                                != (n.x as int, n.y as int) {
                                assert(self.tile_xy(
                                    p0.source_spec().x as int,
                                    p0.source_spec().y as int,
                                ) == pre.tile_xy(
                                    p0.source_spec().x as int,
                                    p0.source_spec().y as int,
                                ));
                            }
                        }
                        // Powering is monotone.
                        assert forall|x: int, y: int|
                            self.on_board(x, y) && pre.tile_xy(x, y).powered
                                implies (#[trigger] self.tile_xy(x, y)).powered by {
                            if (x, y) != (n.x as int, n.y as int) {
                                assert(self.tile_xy(x, y) == pre.tile_xy(x, y));
                            }
                        }
                        // Every powered cell is reachable.
                        assert forall|x: int, y: int|
                            self.on_board(x, y) && (#[trigger] self.tile_xy(x, y)).powered
                                implies p0.reachable(x, y) by {
                            if (x, y) != (n.x as int, n.y as int) {
                                assert(self.tile_xy(x, y) == pre.tile_xy(x, y));
                            }
                        }
                        // The directions handled so far lead to powered cells.
                        assert forall|dd: Direction|
                            dd.index_spec() < di + 1 && #[trigger] p0.connected_spec(
                                cur.x as int,
                                cur.y as int,
                                dd,
                            ) implies self.tile_xy(
                                p0.norm_step(cur.x as int, cur.y as int, dd).0,
                                p0.norm_step(cur.x as int, cur.y as int, dd).1,
                            ).powered by {
                            let m = p0.norm_step(cur.x as int, cur.y as int, dd);
                            lemma_norm_step_on_board(p0, cur.x as int, cur.y as int, dd);
                            if (m.0, m.1) == (n.x as int, n.y as int) {
                            } else {
                                assert(self.tile_xy(m.0, m.1) == pre.tile_xy(m.0, m.1));
                            }
                        }
                    }
                } else {
                    proof {
                        assert(self.tile_xy(
                            p0.norm_step(cur.x as int, cur.y as int, d).0,
                            p0.norm_step(cur.x as int, cur.y as int, d).1,
                        ).powered);
                    }
                }
            }
            di = di + 1;
        }
        proof {
            // All four directions are handled: `cur` is closed, so the
            // invariant holds with `cur` off the stack.
            assert(self.closed_at(p0, cur.x as int, cur.y as int)) by {
                assert forall|dd: Direction|
                    #[trigger] p0.connected_spec(cur.x as int, cur.y as int, dd)
                        implies self.tile_xy(
                        p0.norm_step(cur.x as int, cur.y as int, dd).0,
                        p0.norm_step(cur.x as int, cur.y as int, dd).1,
                    ).powered by {
                    assert(dd.index_spec() < 4);
                }
            }
            assert forall|x: int, y: int|
                self.on_board(x, y) && (#[trigger] self.tile_xy(x, y)).powered
                    && !stack@.contains(Vec2 { x: x as i32, y: y as i32 })
                    implies self.closed_at(p0, x, y) by {
                let v = Vec2 { x: x as i32, y: y as i32 };
                if v == cur {
                    assert((x, y) == (cur.x as int, cur.y as int));
                } else {
                    assert(!stack@.push(cur).contains(v)) by {
                        assert forall|i: int|
                            0 <= i < stack@.push(cur).len() implies stack@.push(cur)[i]
                                != v by {
                            if i < stack@.len() {
                                assert(stack@[i] != v);
                            }
                        }
                    }
                }
            }
            assert forall|i: int|
                0 <= i < stack@.len() implies self.on_board(
                    (#[trigger] stack@[i]).x as int,
                    stack@[i].y as int,
                ) && self.tile_xy(stack@[i].x as int, stack@[i].y as int).powered by {
                assert(stack@.push(cur)[i] == stack@[i]);
            }
            assert forall|i: int, j: int| 0 <= i < j < stack@.len() implies stack@[i]
                != stack@[j] by {
                assert(stack@.push(cur)[i] == stack@[i]);
                assert(stack@.push(cur)[j] == stack@[j]);
            }
        }
    }

    /// Recompute which tiles are connected to the source and thus receive
    /// energy. Every `powered` flag is cleared and then recomputed from
    /// scratch by a flood fill from the source; afterwards a tile is powered
    /// exactly when energy can reach it through connected, unblocked pipes.
    #[verifier::rlimit(80)]
    pub fn calc_energy(&mut self)
        requires
            old(self).wf(),
        ensures
            final(self).wf(),
            final(self).options_spec() == old(self).options_spec(),
            final(self).walls_spec() == old(self).walls_spec(),
            final(self).source_spec() == old(self).source_spec(),
            final(self).expected_moves_spec() == old(self).expected_moves_spec(),
            final(self).tiles_spec().rows_spec() == old(self).tiles_spec().rows_spec(),
            final(self).tiles_spec().cols_spec() == old(self).tiles_spec().cols_spec(),
            forall|x: int, y: int|
                final(self).on_board(x, y) ==> (#[trigger] final(self).tile_xy(x, y))
                    == old(self).tile_xy(x, y).with_powered(final(self).tile_xy(x, y).powered),
            forall|x: int, y: int|
                final(self).on_board(x, y) ==> ((#[trigger] final(self).tile_xy(x, y)).powered
                    == old(self).reachable(x, y)),
    {
        let ghost p0 = *old(self);
        let rows = self.tiles.rows();
        let cols = self.tiles.cols();

        // Clear every tile's powered flag.
        let mut y: usize = 0;
        while y < rows
            invariant
                self.options_spec() == p0.options_spec(),
                self.walls_spec() == p0.walls_spec(),
                self.source_spec() == p0.source_spec(),
                self.expected_moves_spec() == p0.expected_moves_spec(),
                self.tiles_spec().wf(),
                rows == self.tiles_spec().rows_spec(),
                cols == self.tiles_spec().cols_spec(),
                rows == p0.tiles_spec().rows_spec(),
                cols == p0.tiles_spec().cols_spec(),
                y <= rows,
                forall|xx: int, yy: int|
                    self.on_board(xx, yy) ==> (#[trigger] self.tile_xy(xx, yy)) == (if yy < y {
                        p0.tile_xy(xx, yy).with_powered(false)
                    } else {
                        p0.tile_xy(xx, yy)
                    }),
            decreases rows - y,
        {
            let mut x: usize = 0;
            while x < cols
                invariant
                    self.options_spec() == p0.options_spec(),
                    self.walls_spec() == p0.walls_spec(),
                    self.source_spec() == p0.source_spec(),
                    self.expected_moves_spec() == p0.expected_moves_spec(),
                    self.tiles_spec().wf(),
                    rows == self.tiles_spec().rows_spec(),
                    cols == self.tiles_spec().cols_spec(),
                    rows == p0.tiles_spec().rows_spec(),
                    cols == p0.tiles_spec().cols_spec(),
                    y < rows,
                    x <= cols,
                    forall|xx: int, yy: int|
                        self.on_board(xx, yy) ==> (#[trigger] self.tile_xy(xx, yy)) == (
                        if yy < y || (yy == y && xx < x) {
                            p0.tile_xy(xx, yy).with_powered(false)
                        } else {
                            p0.tile_xy(xx, yy)
                        }),
                decreases cols - x,
            {
                let coord = Vec2::new(x as i32, y as i32);
                let t = match self.tiles.get(coord) {
                    Some(t) => *t,
                    None => Tile {
                        kind: crate::tile::Kind::DeadEnd,
                        feature: Feature::Empty,
                        orientation: crate::tile::Orientation::Basic,
                        powered: false,
                    },  // unreachable: the coordinate is on the board
                };
                let ghost pre = *self;
                self.tiles.set(
                    coord,
                    Tile {
                        kind: t.kind,
                        feature: t.feature,
                        orientation: t.orientation,
                        powered: false,
                    },
                );
                proof {
                    assert forall|xx: int, yy: int| self.on_board(xx, yy) implies (
                    #[trigger] self.tile_xy(xx, yy)) == (if yy < y || (yy == y && xx < x + 1) {
                        p0.tile_xy(xx, yy).with_powered(false)
                    } else {
                        p0.tile_xy(xx, yy)
                    }) by {
                        if (xx, yy) == (x as int, y as int) {
                            assert(pre.tile_xy(xx, yy) == p0.tile_xy(xx, yy));
                        } else {
                            assert(self.tile_xy(xx, yy) == pre.tile_xy(xx, yy));
                        }
                    }
                }
                x = x + 1;
            }
            y = y + 1;
        }

        // Power the source and seed the work stack with it.
        let src = self.source;
        let st = match self.tiles.get(src) {
            Some(t) => *t,
            None => Tile {
                kind: crate::tile::Kind::DeadEnd,
                feature: Feature::Empty,
                orientation: crate::tile::Orientation::Basic,
                powered: false,
            },  // unreachable: the source is on the board
        };
        let ghost cleared = *self;
        self.tiles.set(
            src,
            Tile { kind: st.kind, feature: st.feature, orientation: st.orientation, powered: true },
        );
        let mut stack: Vec<Vec2> = Vec::new();
        stack.push(src);
        proof {
            lemma_source_reachable(p0);
            assert(stack@.len() == 1 && stack@[0] == src);
            assert(src == p0.source_spec());
            // Every cell holds its snapshot tile, powered only at the source.
            assert forall|x: int, y: int| self.on_board(x, y) implies (
            #[trigger] self.tile_xy(x, y)) == p0.tile_xy(x, y).with_powered(
                self.tile_xy(x, y).powered,
            ) by {
                if (x, y) == (src.x as int, src.y as int) {
                    assert(cleared.tile_xy(x, y) == p0.tile_xy(x, y).with_powered(false));
                } else {
                    assert(self.tile_xy(x, y) == cleared.tile_xy(x, y));
                    assert(cleared.tile_xy(x, y) == p0.tile_xy(x, y).with_powered(false));
                }
            }
            assert(self.tile_xy(src.x as int, src.y as int).powered);
            assert forall|x: int, y: int|
                self.on_board(x, y) && (#[trigger] self.tile_xy(x, y)).powered
                    implies p0.reachable(x, y) by {
                if (x, y) != (src.x as int, src.y as int) {
                    assert(self.tile_xy(x, y) == cleared.tile_xy(x, y));
                    assert(!self.tile_xy(x, y).powered);
                }
            }
            assert forall|x: int, y: int|
                self.on_board(x, y) && (#[trigger] self.tile_xy(x, y)).powered
                    && !stack@.contains(Vec2 { x: x as i32, y: y as i32 })
                    implies self.closed_at(p0, x, y) by {
                if (x, y) != (src.x as int, src.y as int) {
                    assert(self.tile_xy(x, y) == cleared.tile_xy(x, y));
                    assert(!self.tile_xy(x, y).powered);
                } else {
                    assert(Vec2 { x: x as i32, y: y as i32 } == src);
                    assert(stack@[0] == src);
                    assert(stack@.contains(src));
                }
            }
            assert(self.fill_inv(p0, stack@));
        }

        // Flood fill: pop a powered cell and spread to its neighbors.
        while stack.len() > 0
            invariant
                self.fill_inv(p0, stack@),
            decreases
                count_unpowered(
                    self.tiles_spec().view(),
                    self.tiles_spec().view().len() as int,
                ),
                stack@.len(),
        {
            let ghost prestack = stack@;
            let cur_opt = stack.pop();
            let cur = match cur_opt {
                Some(c) => c,
                None => Vec2 { x: 0, y: 0 },  // unreachable: the stack is non-empty
            };
            proof {
                assert(prestack =~= stack@.push(cur));
                assert(prestack[prestack.len() - 1] == cur);
                assert(self.on_board(cur.x as int, cur.y as int)
                    && self.tile_xy(cur.x as int, cur.y as int).powered);
                assert(!stack@.contains(cur)) by {
                    assert forall|i: int| 0 <= i < stack@.len() implies stack@[i] != cur by {
                        assert(prestack[i] == stack@[i]);
                    }
                }
            }
            self.process_cell(cur, &mut stack, Ghost(p0));
        }

        // The stack is empty: the powered set is exactly the reachable set.
        proof {
            let sx = p0.source_spec().x as int;
            let sy = p0.source_spec().y as int;
            assert(self.tile_xy(sx, sy) == p0.tile_xy(sx, sy).with_powered(
                self.tile_xy(sx, sy).powered,
            ));
            assert(self.tile_xy(sx, sy).feature == Feature::Source);
            assert forall|x: int, y: int|
                self.on_board(x, y) && (#[trigger] self.tile_xy(x, y)).feature
                    == Feature::Source implies (x, y) == (sx, sy) by {
                assert(self.tile_xy(x, y) == p0.tile_xy(x, y).with_powered(
                    self.tile_xy(x, y).powered,
                ));
                assert(p0.tile_xy(x, y).feature == Feature::Source);
            }
            assert(self.wf());
            assert forall|x: int, y: int| self.on_board(x, y) implies ((
            #[trigger] self.tile_xy(x, y)).powered == p0.reachable(x, y)) by {
                if self.tile_xy(x, y).powered {
                } else {
                    if p0.reachable(x, y) {
                        let path = choose|path: Seq<(int, int)>|
                            p0.is_path(path) && path.last() == (x, y);
                        assert forall|xx: int, yy: int|
                            self.on_board(xx, yy) && (#[trigger] self.tile_xy(xx, yy)).powered
                                implies self.closed_at(p0, xx, yy) by {
                            assert(!stack@.contains(Vec2 { x: xx as i32, y: yy as i32 }));
                        }
                        lemma_path_all_powered(p0, *self, path);
                        assert(false);
                    }
                }
            }
        }
    }
}

} // verus!
