//! Global properties of the puzzle model, stated and proved once: the
//! generated spanning tree powers the whole board, walls never cut pipe
//! connections, a full rotation cycle changes nothing, and wrapping makes
//! opposite edges adjacent while its absence walls them off.

use vstd::prelude::*;

use crate::builder::{link_connected, link_reachable, link_step_ok, wall_site_ok};
use crate::direction::Direction;
use crate::grid::{step_xy, Grid};
use crate::links::Links;
use crate::puzzle::{Alignment, Puzzle, Wall};
use crate::tile::Tile;

verus! {

/// Solvability is structural: on a puzzle whose tiles decode a symmetric
/// link grid that reaches every cell from the source, and whose walls all
/// stand on link-free edges, energy can reach every tile. Together with the
/// contract of [`Puzzle::calc_energy`], recomputing the energy of the solved
/// (pre-scramble) layout powers the whole board.
pub proof fn lemma_solved_layout_fully_reachable(p: Puzzle, g: Grid<Links>)
    requires
        p.wf(),
        p.tiles_spec().rows_spec() == g.rows_spec(),
        p.tiles_spec().cols_spec() == g.cols_spec(),
        forall|x: int, y: int, d: Direction|
            p.on_board(x, y) ==> (#[trigger] p.tile_xy(x, y).has_link_spec(d)) == g.at_xy(
                x,
                y,
            ).at(d),
        forall|x: int, y: int|
            p.on_board(x, y) ==> link_reachable(
                g,
                p.options_spec().wrapping,
                (p.source_spec().x as int, p.source_spec().y as int),
                x,
                y,
            ),
        forall|i: int|
            0 <= i < p.walls_spec().len() ==> wall_site_ok(
                p.tiles_spec(),
                p.options_spec().wrapping,
                #[trigger] p.walls_spec()[i],
            ),
    ensures
        forall|x: int, y: int| p.on_board(x, y) ==> p.reachable(x, y),
{
    let wrapping = p.options_spec().wrapping;
    let src = (p.source_spec().x as int, p.source_spec().y as int);
    assert forall|x: int, y: int| p.on_board(x, y) implies p.reachable(x, y) by {
        assert(link_reachable(g, wrapping, src, x, y));
        let path = choose|path: Seq<(int, int)>|
            #[trigger] crate::builder::link_is_path(g, wrapping, src, path) && path.last() == (
            x,
            y,
            );
        assert forall|i: int| 0 < i < path.len() implies p.step_ok(
            path[i - 1],
            #[trigger] path[i],
        ) by {
            assert(link_step_ok(g, wrapping, path[i - 1], path[i]));
            let a = path[i - 1];
            let d = choose|d: Direction|
                #[trigger] link_connected(g, wrapping, a.0, a.1, d) && path[i] == g.norm_xy(
                    step_xy(a.0, a.1, d).0,
                    step_xy(a.0, a.1, d).1,
                );
            assert(g.contains_xy(a.0, a.1));
            lemma_link_edge_is_connection(p, g, a.0, a.1, d);
            assert(p.connected_spec(a.0, a.1, d));
            assert(path[i] == p.norm_step(a.0, a.1, d));
        }
        assert(p.is_path(path));
        assert(path.last() == (x, y));
    }
}

/// A pipe link of the solved layout is a live connection of the puzzle: the
/// tiles on both sides carry the stubs, and no wall may stand on the edge,
/// because every wall site is link-free.
proof fn lemma_link_edge_is_connection(p: Puzzle, g: Grid<Links>, x: int, y: int, d: Direction)
    requires
        p.wf(),
        p.tiles_spec().rows_spec() == g.rows_spec(),
        p.tiles_spec().cols_spec() == g.cols_spec(),
        p.on_board(x, y),
        forall|a: int, b: int, dd: Direction|
            p.on_board(a, b) ==> (#[trigger] p.tile_xy(a, b).has_link_spec(dd)) == g.at_xy(
                a,
                b,
            ).at(dd),
        forall|i: int|
            0 <= i < p.walls_spec().len() ==> wall_site_ok(
                p.tiles_spec(),
                p.options_spec().wrapping,
                #[trigger] p.walls_spec()[i],
            ),
        link_connected(g, p.options_spec().wrapping, x, y, d),
    ensures
        p.connected_spec(x, y, d),
{
    let n = p.norm_step(x, y, d);
    crate::puzzle::lemma_norm_step_on_board(p, x, y, d);
    assert(p.tile_xy(x, y).has_link_spec(d));
    assert(p.tile_xy(n.0, n.1).has_link_spec(d.opposite_spec()));
    assert(!p.wall_between_spec(x, y, d)) by {
        if p.wall_between_spec(x, y, d) {
            match d {
                Direction::Up => {
                    let i = choose|i: int|
                        0 <= i < p.walls_spec().len() && (#[trigger] p.walls_spec()[i]) == (Wall {
                            position: crate::vec2::Vec2 { x: x as i32, y: y as i32 },
                            alignment: Alignment::Horizontal,
                        });
                    assert(wall_site_ok(p.tiles_spec(), p.options_spec().wrapping, p.walls_spec()[i]));
                    assert(!p.tile_xy(x, y).has_link_spec(Direction::Up));
                },
                Direction::Down => {
                    let i = choose|i: int|
                        0 <= i < p.walls_spec().len() && (#[trigger] p.walls_spec()[i]) == (Wall {
                            position: crate::vec2::Vec2 { x: n.0 as i32, y: n.1 as i32 },
                            alignment: Alignment::Horizontal,
                        });
                    assert(wall_site_ok(p.tiles_spec(), p.options_spec().wrapping, p.walls_spec()[i]));
                    assert(!p.tile_xy(n.0, n.1).has_link_spec(Direction::Up));
                },
                Direction::Left => {
                    let i = choose|i: int|
                        0 <= i < p.walls_spec().len() && (#[trigger] p.walls_spec()[i]) == (Wall {
                            position: crate::vec2::Vec2 { x: x as i32, y: y as i32 },
                            alignment: Alignment::Vertical,
                        });
                    assert(wall_site_ok(p.tiles_spec(), p.options_spec().wrapping, p.walls_spec()[i]));
                    assert(!p.tile_xy(x, y).has_link_spec(Direction::Left));
                },
                Direction::Right => {
                    let i = choose|i: int|
                        0 <= i < p.walls_spec().len() && (#[trigger] p.walls_spec()[i]) == (Wall {
                            position: crate::vec2::Vec2 { x: n.0 as i32, y: n.1 as i32 },
                            alignment: Alignment::Vertical,
                        });
                    assert(wall_site_ok(p.tiles_spec(), p.options_spec().wrapping, p.walls_spec()[i]));
                    assert(!p.tile_xy(n.0, n.1).has_link_spec(Direction::Left));
                },
            }
        }
    }
}

/// No wall coincides with an edge whose two adjacent tiles have matching
/// opposite links: a wall may only stand where its anchor tile has no stub
/// toward the edge, so the joint can never be complete.
pub proof fn lemma_wall_never_cuts_connection(tiles: Grid<Tile>, wrapping: bool, w: Wall)
    requires
        tiles.wf(),
        wall_site_ok(tiles, wrapping, w),
    ensures
        w.alignment is Horizontal ==> !(tiles.at(w.position).has_link_spec(Direction::Up)
            && tiles.at_xy(
            tiles.norm_xy(w.position.x as int, w.position.y as int - 1).0,
            tiles.norm_xy(w.position.x as int, w.position.y as int - 1).1,
        ).has_link_spec(Direction::Down)),
        w.alignment is Vertical ==> !(tiles.at(w.position).has_link_spec(Direction::Left)
            && tiles.at_xy(
            tiles.norm_xy(w.position.x as int - 1, w.position.y as int).0,
            tiles.norm_xy(w.position.x as int - 1, w.position.y as int).1,
        ).has_link_spec(Direction::Right)),
{
}

/// Rotating one tile four times restores the puzzle's whole topology, so
/// recomputing the energy yields exactly the original `powered` flags: by
/// the contract of [`Puzzle::calc_energy`], a tile is powered afterwards
/// precisely when it was before the cycle.
pub proof fn lemma_four_rotations_restore_energy(p: Puzzle, q: Puzzle, x: int, y: int)
    requires
        p.on_board(x, y),
        q.options_spec() == p.options_spec(),
        q.walls_spec() == p.walls_spec(),
        q.source_spec() == p.source_spec(),
        q.tiles_spec().rows_spec() == p.tiles_spec().rows_spec(),
        q.tiles_spec().cols_spec() == p.tiles_spec().cols_spec(),
        q.tile_xy(x, y) == p.tile_xy(
            x,
            y,
        ).rotate_spec().rotate_spec().rotate_spec().rotate_spec().with_powered(
            q.tile_xy(x, y).powered,
        ),
        forall|a: int, b: int|
            q.on_board(a, b) && (a, b) != (x, y) ==> (#[trigger] q.tile_xy(a, b))
                == p.tile_xy(a, b).with_powered(q.tile_xy(a, b).powered),
    ensures
        forall|a: int, b: int| q.reachable(a, b) == p.reachable(a, b),
{
    crate::tile::lemma_four_rotations_identity(p.tile_xy(x, y));
    assert(p.same_topology(q)) by {
        assert forall|a: int, b: int| p.on_board(a, b) implies {
            &&& (#[trigger] p.tile_xy(a, b)).kind == q.tile_xy(a, b).kind
            &&& p.tile_xy(a, b).orientation == q.tile_xy(a, b).orientation
        } by {}
    }
    assert(q.same_topology(p)) by {
        assert forall|a: int, b: int| q.on_board(a, b) implies {
            &&& (#[trigger] q.tile_xy(a, b)).kind == p.tile_xy(a, b).kind
            &&& q.tile_xy(a, b).orientation == p.tile_xy(a, b).orientation
        } by {}
    }
    assert forall|a: int, b: int| q.reachable(a, b) == p.reachable(a, b) by {
        if p.reachable(a, b) {
            crate::puzzle::lemma_same_topology_reachable(p, q, a, b);
        }
        if q.reachable(a, b) {
            crate::puzzle::lemma_same_topology_reachable(q, p, a, b);
        }
    }
}

/// The full four-rotation cycle restores the energy result: when both
/// states carry the powered flags that [`Puzzle::calc_energy`] computes for
/// them, and the second state differs from the first only by one tile
/// rotated four times, every tile is powered after the cycle precisely when
/// it was powered before it.
pub proof fn lemma_rotation_cycle_restores_powered(p: Puzzle, q: Puzzle, x: int, y: int)
    requires
        p.on_board(x, y),
        q.options_spec() == p.options_spec(),
        q.walls_spec() == p.walls_spec(),
        q.source_spec() == p.source_spec(),
        q.tiles_spec().rows_spec() == p.tiles_spec().rows_spec(),
        q.tiles_spec().cols_spec() == p.tiles_spec().cols_spec(),
        q.tile_xy(x, y) == p.tile_xy(
            x,
            y,
        ).rotate_spec().rotate_spec().rotate_spec().rotate_spec().with_powered(
            q.tile_xy(x, y).powered,
        ),
        forall|a: int, b: int|
            q.on_board(a, b) && (a, b) != (x, y) ==> (#[trigger] q.tile_xy(a, b))
                == p.tile_xy(a, b).with_powered(q.tile_xy(a, b).powered),
        forall|a: int, b: int|
            p.on_board(a, b) ==> ((#[trigger] p.tile_xy(a, b)).powered == p.reachable(a, b)),
        forall|a: int, b: int|
            q.on_board(a, b) ==> ((#[trigger] q.tile_xy(a, b)).powered == q.reachable(a, b)),
    ensures
        forall|a: int, b: int|
            q.on_board(a, b) ==> ((#[trigger] q.tile_xy(a, b)).powered == p.tile_xy(
                a,
                b,
            ).powered),
{
    lemma_four_rotations_restore_energy(p, q, x, y);
    assert forall|a: int, b: int|
        q.on_board(a, b) implies ((#[trigger] q.tile_xy(a, b)).powered == p.tile_xy(
        a,
        b,
    ).powered) by {
        assert(q.reachable(a, b) == p.reachable(a, b));
        assert(p.on_board(a, b));
    }
}

/// With wrapping, a cell in column zero and the cell of the same row in the
/// last column are East/West neighbors: folding one step west of column
/// zero lands in the last column, and the connection stands exactly when
/// both facing stubs are present and no wall blocks the shared edge.
pub proof fn lemma_wrapping_joins_columns(p: Puzzle, y: int)
    requires
        p.wf(),
        p.options_spec().wrapping,
        0 <= y < p.tiles_spec().rows_spec(),
    ensures
        p.norm_step(0, y, Direction::Left) == (p.tiles_spec().cols_spec() - 1, y),
        p.norm_step(p.tiles_spec().cols_spec() - 1, y, Direction::Right) == (0int, y),
        p.connected_spec(0, y, Direction::Left) == (!p.wall_between_spec(0, y, Direction::Left)
            && p.tile_xy(0, y).has_link_spec(Direction::Left) && p.tile_xy(
            p.tiles_spec().cols_spec() - 1,
            y,
        ).has_link_spec(Direction::Right)),
{
    let cols = p.tiles_spec().cols_spec();
    let rows = p.tiles_spec().rows_spec();
    assert((0 - 1) % cols == cols - 1) by (nonlinear_arith)
        requires
            cols >= 1,
    ;
    assert((cols - 1 + 1) % cols == 0) by (nonlinear_arith)
        requires
            cols >= 1,
    ;
    assert(y % rows == y) by (nonlinear_arith)
        requires
            0 <= y < rows,
    ;
}

/// Without wrapping, the grid boundary acts as an implicit wall: a cell in
/// column zero has no connection westward, and a cell in the last column
/// none eastward, whatever stubs the tiles carry.
pub proof fn lemma_boundary_blocks_columns(p: Puzzle, y: int)
    requires
        p.wf(),
        !p.options_spec().wrapping,
        0 <= y < p.tiles_spec().rows_spec(),
    ensures
        !p.connected_spec(0, y, Direction::Left),
        !p.connected_spec(p.tiles_spec().cols_spec() - 1, y, Direction::Right),
{
}

} // verus!
