//! Randomized puzzle generation: a difficulty-weighted spanning tree of pipe
//! links, decorative walls on unconnected edges, and a scramble of tile
//! orientations with a tracked expected-move count.

use vstd::prelude::*;

use crate::direction::Direction;
use crate::grid::{step_xy, Grid};
use crate::links::Links;
use crate::puzzle::{Alignment, Difficulty, Options, Puzzle, Wall};
use crate::rng::{choose_weighted_index, rand_below, sample_indices, weight_sum};
use crate::tile::{Feature, Kind, Tile};
use crate::vec2::Vec2;

verus! {

/// The tile a link set decodes to before any feature is placed: shape and
/// rotation from the bit pattern, dead ends marked as drains, unpowered.
pub open spec fn decoded_tile(l: Links) -> Tile {
    Tile {
        kind: l.kind_orientation_spec().0,
        feature: if l.kind_orientation_spec().0 is DeadEnd {
            Feature::Drain
        } else {
            Feature::Empty
        },
        orientation: l.kind_orientation_spec().1,
        powered: false,
    }
}

/// Whether the cells at `(x, y)` and one step toward `d` are joined by a
/// pipe link in the link grid: both facing bits are set, and without
/// wrapping the raw neighbor lies on the grid.
pub open spec fn link_connected(g: Grid<Links>, wrapping: bool, x: int, y: int, d: Direction) -> bool {
    let raw = step_xy(x, y, d);
    let n = g.norm_xy(raw.0, raw.1);
    &&& (!wrapping ==> g.contains_xy(raw.0, raw.1))
    &&& g.at_xy(x, y).at(d)
    &&& g.at_xy(n.0, n.1).at(d.opposite_spec())
}

/// Whether `b` is one linked step from `a` in the link grid.
pub open spec fn link_step_ok(g: Grid<Links>, wrapping: bool, a: (int, int), b: (int, int)) -> bool {
    exists|d: Direction|
        #[trigger] link_connected(g, wrapping, a.0, a.1, d) && b == g.norm_xy(
            step_xy(a.0, a.1, d).0,
            step_xy(a.0, a.1, d).1,
        )
}

/// Whether `path` is a chain of linked steps from `src` in the link grid.
pub open spec fn link_is_path(g: Grid<Links>, wrapping: bool, src: (int, int), path: Seq<(int, int)>) -> bool {
    &&& path.len() > 0
    &&& path[0] == src
    &&& (forall|i: int| 0 <= i < path.len() ==> g.contains_xy((#[trigger] path[i]).0, path[i].1))
    &&& (forall|i: int|
        0 < i < path.len() ==> link_step_ok(g, wrapping, path[i - 1], #[trigger] path[i]))
}

/// Whether the cell `(x, y)` can be reached from `src` through pipe links.
pub open spec fn link_reachable(g: Grid<Links>, wrapping: bool, src: (int, int), x: int, y: int) -> bool {
    exists|path: Seq<(int, int)>| #[trigger]
        link_is_path(g, wrapping, src, path) && path.last() == (x, y)
}

/// Every link has a matching opposite link on the (wrap-folded) neighbor,
/// and without wrapping links never point off the grid.
pub open spec fn link_sym(g: Grid<Links>, wrapping: bool) -> bool {
    forall|x: int, y: int, d: Direction|
        g.contains_xy(x, y) && (#[trigger] g.at_xy(x, y).at(d)) ==> {
            let raw = step_xy(x, y, d);
            let n = g.norm_xy(raw.0, raw.1);
            &&& (!wrapping ==> g.contains_xy(raw.0, raw.1))
            &&& g.at_xy(n.0, n.1).at(d.opposite_spec())
        }
}

/// Whether a wall may stand where it does: only on a non-boundary edge (or
/// any edge when wrapping) whose anchor tile carries no pipe stub toward it,
/// so that no wall ever cuts a pipe connection.
pub open spec fn wall_site_ok(tiles: Grid<Tile>, wrapping: bool, w: Wall) -> bool {
    &&& tiles.contains_spec(w.position)
    &&& (w.alignment is Horizontal ==> (wrapping || w.position.y != 0) && !tiles.at(
        w.position,
    ).has_link_spec(Direction::Up))
    &&& (w.alignment is Vertical ==> (wrapping || w.position.x != 0) && !tiles.at(
        w.position,
    ).has_link_spec(Direction::Left))
}

/// The number of unvisited cells among the first `k` of a flat visited map:
/// the measure that shrinks as the spanning tree grows.
pub open spec fn count_unvisited(s: Seq<bool>, k: int) -> nat
    decreases k,
{
    if k <= 0 {
        0
    } else {
        count_unvisited(s, k - 1) + (if s[k - 1] {
            0nat
        } else {
            1nat
        })
    }
}

/// Counting reads only the first `k` cells.
proof fn lemma_count_unvisited_congruence(s1: Seq<bool>, s2: Seq<bool>, k: int)
    requires
        forall|i: int| 0 <= i < k ==> s1[i] == s2[i],
    ensures
        count_unvisited(s1, k) == count_unvisited(s2, k),
    decreases k,
{
    if k > 0 {
        lemma_count_unvisited_congruence(s1, s2, k - 1);
    }
}

/// Visiting a previously unvisited cell drops the count by one.
proof fn lemma_count_unvisited_update(s: Seq<bool>, j: int, k: int)
    requires
        0 <= j < k <= s.len(),
        !s[j],
    ensures
        count_unvisited(s.update(j, true), k) + 1 == count_unvisited(s, k),
    decreases k,
{
    if j == k - 1 {
        lemma_count_unvisited_congruence(s.update(j, true), s, k - 1);
    } else {
        lemma_count_unvisited_update(s, j, k - 1);
    }
}

/// A fully unvisited map counts every cell.
proof fn lemma_count_unvisited_full(s: Seq<bool>, k: int)
    requires
        forall|i: int| 0 <= i < k ==> !(#[trigger] s[i]),
        k >= 0,
    ensures
        count_unvisited(s, k) == k,
    decreases k,
{
    if k > 0 {
        lemma_count_unvisited_full(s, k - 1);
    }
}

/// The number of active link bits of one cell.
pub open spec fn link_bit_count(l: Links) -> int {
    (if l.at_index(0) {
        1int
    } else {
        0int
    }) + (if l.at_index(1) {
        1int
    } else {
        0int
    }) + (if l.at_index(2) {
        1int
    } else {
        0int
    }) + (if l.at_index(3) {
        1int
    } else {
        0int
    })
}

/// The total number of active link bits among the first `k` cells of a flat
/// link grid. A spanning tree sets exactly two bits per tree edge.
pub open spec fn count_links(s: Seq<Links>, k: int) -> int
    decreases k,
{
    if k <= 0 {
        0
    } else {
        count_links(s, k - 1) + link_bit_count(s[k - 1])
    }
}

/// A grid without any active bit counts zero.
proof fn lemma_count_links_zero(s: Seq<Links>, k: int)
    requires
        forall|i: int| 0 <= i < k ==> link_bit_count(#[trigger] s[i]) == 0,
    ensures
        count_links(s, k) == 0,
    decreases k,
{
    if k > 0 {
        lemma_count_links_zero(s, k - 1);
    }
}

/// Counting reads only the first `k` cells.
proof fn lemma_count_links_congruence(s1: Seq<Links>, s2: Seq<Links>, k: int)
    requires
        forall|i: int| 0 <= i < k ==> s1[i] == s2[i],
    ensures
        count_links(s1, k) == count_links(s2, k),
    decreases k,
{
    if k > 0 {
        lemma_count_links_congruence(s1, s2, k - 1);
    }
}

/// Replacing one cell shifts the total by the difference of its bit counts.
proof fn lemma_count_links_update(s: Seq<Links>, j: int, l: Links, k: int)
    requires
        0 <= j < k <= s.len(),
    ensures
        count_links(s.update(j, l), k) == count_links(s, k) - link_bit_count(s[j])
            + link_bit_count(l),
    decreases k,
{
    if j == k - 1 {
        lemma_count_links_congruence(s.update(j, l), s, k - 1);
    } else {
        lemma_count_links_update(s, j, l, k - 1);
    }
}

/// Setting one previously clear bit raises a cell's bit count by one.
proof fn lemma_bit_count_flip(l0: Links, l: Links, d: Direction)
    requires
        forall|i: int| #[trigger] l.at_index(i) == if i == d.index_spec() {
            true
        } else {
            l0.at_index(i)
        },
        !l0.at(d),
    ensures
        link_bit_count(l) == link_bit_count(l0) + 1,
{
    match d {
        Direction::Right => {
            assert(l.at_index(0) && !l0.at_index(0));
        },
        Direction::Up => {
            assert(l.at_index(1) && !l0.at_index(1));
        },
        Direction::Left => {
            assert(l.at_index(2) && !l0.at_index(2));
        },
        Direction::Down => {
            assert(l.at_index(3) && !l0.at_index(3));
        },
    }
}

/// A fully visited map has nothing uncounted.
proof fn lemma_count_unvisited_none(s: Seq<bool>, k: int)
    requires
        forall|i: int| 0 <= i < k ==> #[trigger] s[i],
    ensures
        count_unvisited(s, k) == 0,
    decreases k,
{
    if k > 0 {
        lemma_count_unvisited_none(s, k - 1);
    }
}

/// The number of tiles among the first `k` whose shape is not the cross:
/// the tiles the scrambler may rotate.
pub open spec fn count_non_cross(s: Seq<Tile>, k: int) -> nat
    decreases k,
{
    if k <= 0 {
        0
    } else {
        count_non_cross(s, k - 1) + (if s[k - 1].kind is CrossIntersection {
            0nat
        } else {
            1nat
        })
    }
}

/// Counting depends only on the shapes of the first `k` tiles.
pub proof fn lemma_count_non_cross_congruence(s1: Seq<Tile>, s2: Seq<Tile>, k: int)
    requires
        forall|i: int| 0 <= i < k ==> (#[trigger] s1[i]).kind == s2[i].kind,
    ensures
        count_non_cross(s1, k) == count_non_cross(s2, k),
    decreases k,
{
    if k > 0 {
        lemma_count_non_cross_congruence(s1, s2, k - 1);
    }
}

/// Folding any integer point lands on the grid.
proof fn lemma_norm_on_grid<T>(g: Grid<T>, x: int, y: int)
    requires
        g.rows_spec() >= 1,
        g.cols_spec() >= 1,
    ensures
        g.contains_xy(g.norm_xy(x, y).0, g.norm_xy(x, y).1),
{
    assert(0 <= x % g.cols_spec() < g.cols_spec()) by (nonlinear_arith)
        requires
            g.cols_spec() >= 1,
    ;
    assert(0 <= y % g.rows_spec() < g.rows_spec()) by (nonlinear_arith)
        requires
            g.rows_spec() >= 1,
    ;
}

/// An on-grid point folds to itself.
proof fn lemma_norm_identity<T>(g: Grid<T>, x: int, y: int)
    requires
        g.contains_xy(x, y),
    ensures
        g.norm_xy(x, y) == (x, y),
{
    assert(x % g.cols_spec() == x) by (nonlinear_arith)
        requires
            0 <= x < g.cols_spec(),
    ;
    assert(y % g.rows_spec() == y) by (nonlinear_arith)
        requires
            0 <= y < g.rows_spec(),
    ;
}

/// Taking one folded step and then the opposite step returns to the start:
/// the two coordinate folds cancel.
proof fn lemma_fold_step_inverse<T>(g: Grid<T>, x: int, y: int, d: Direction)
    requires
        g.contains_xy(x, y),
    ensures
        ({
            let n = g.norm_xy(step_xy(x, y, d).0, step_xy(x, y, d).1);
            g.norm_xy(
                step_xy(n.0, n.1, d.opposite_spec()).0,
                step_xy(n.0, n.1, d.opposite_spec()).1,
            ) == (x, y)
        }),
{
    lemma_fold_forward_back(x, g.cols_spec());
    lemma_fold_forward_back(y, g.rows_spec());
}

/// One folded unit step forward and one back cancel, and a stationary axis
/// folds to itself twice over.
proof fn lemma_fold_forward_back(v: int, m: int)
    requires
        0 <= v < m,
    ensures
        ((v + 1) % m + -1) % m == v,
        ((v + -1) % m + 1) % m == v,
        (v % m + 0) % m == v,
        v % m == v,
{
    assert((v + 1) % m == (if v + 1 < m {
        v + 1
    } else {
        0
    })) by (nonlinear_arith)
        requires
            0 <= v < m,
    ;
    if v + 1 < m {
        assert((v + 1 + -1) % m == v) by (nonlinear_arith)
            requires
                0 <= v < m,
        ;
    } else {
        assert((0 + -1) % m == m - 1) by (nonlinear_arith)
            requires
                m >= 1,
        ;
    }
    assert((v + -1) % m == (if v >= 1 {
        v - 1
    } else {
        m - 1
    })) by (nonlinear_arith)
        requires
            0 <= v < m,
    ;
    if v >= 1 {
        assert((v - 1 + 1) % m == v) by (nonlinear_arith)
            requires
                0 <= v < m,
        ;
    } else {
        assert((m - 1 + 1) % m == 0) by (nonlinear_arith)
            requires
                m >= 1,
        ;
    }
    assert(v % m == v) by (nonlinear_arith)
        requires
            0 <= v < m,
    ;
}

/// The number of cells among the first `k` whose orientation differs
/// between two tile sequences: the displaced tiles of a scramble.
pub open spec fn count_displaced(a: Seq<Tile>, b: Seq<Tile>, k: int) -> nat
    decreases k,
{
    if k <= 0 {
        0
    } else {
        count_displaced(a, b, k - 1) + (if a[k - 1].orientation == b[k - 1].orientation {
            0nat
        } else {
            1nat
        })
    }
}

/// Nothing is displaced between a sequence and itself.
proof fn lemma_count_displaced_refl(a: Seq<Tile>, k: int)
    ensures
        count_displaced(a, a, k) == 0,
    decreases k,
{
    if k > 0 {
        lemma_count_displaced_refl(a, k - 1);
    }
}

/// Counting reads only the first `k` cells of the second sequence.
proof fn lemma_count_displaced_congruence(a: Seq<Tile>, b1: Seq<Tile>, b2: Seq<Tile>, k: int)
    requires
        forall|i: int| 0 <= i < k ==> b1[i] == b2[i],
    ensures
        count_displaced(a, b1, k) == count_displaced(a, b2, k),
    decreases k,
{
    if k > 0 {
        lemma_count_displaced_congruence(a, b1, b2, k - 1);
    }
}

/// Turning one so-far-untouched cell away from its reference orientation
/// raises the displaced count by one.
proof fn lemma_count_displaced_update(a: Seq<Tile>, b: Seq<Tile>, j: int, t: Tile, k: int)
    requires
        0 <= j < k <= b.len(),
        a[j].orientation == b[j].orientation,
        t.orientation != a[j].orientation,
    ensures
        count_displaced(a, b.update(j, t), k) == count_displaced(a, b, k) + 1,
    decreases k,
{
    if j == k - 1 {
        lemma_count_displaced_congruence(a, b.update(j, t), b, k - 1);
    } else {
        lemma_count_displaced_update(a, b, j, t, k - 1);
    }
}

/// No more cells can be rotated than looked at.
pub proof fn lemma_count_non_cross_le(s: Seq<Tile>, k: int)
    ensures
        count_non_cross(s, k) <= (if k <= 0 {
            0
        } else {
            k
        }),
    decreases k,
{
    if k > 0 {
        lemma_count_non_cross_le(s, k - 1);
    }
}

/// The start cell of the link graph is reachable by the one-point path.
pub proof fn lemma_link_source_reachable(g: Grid<Links>, wrapping: bool, sx: int, sy: int)
    requires
        g.contains_xy(sx, sy),
    ensures
        link_reachable(g, wrapping, (sx, sy), sx, sy),
{
    let s = seq![(sx, sy)];
    assert(link_is_path(g, wrapping, (sx, sy), s));
    assert(s.last() == (sx, sy));
}

/// Link reachability extends along one linked step.
pub proof fn lemma_link_reachable_step(
    g: Grid<Links>,
    wrapping: bool,
    src: (int, int),
    x: int,
    y: int,
    d: Direction,
)
    requires
        g.contains_xy(x, y),
        link_reachable(g, wrapping, src, x, y),
        link_connected(g, wrapping, x, y, d),
    ensures
        ({
            let n = g.norm_xy(step_xy(x, y, d).0, step_xy(x, y, d).1);
            link_reachable(g, wrapping, src, n.0, n.1)
        }),
{
    let path = choose|path: Seq<(int, int)>|
        link_is_path(g, wrapping, src, path) && path.last() == (x, y);
    let n = g.norm_xy(step_xy(x, y, d).0, step_xy(x, y, d).1);
    lemma_norm_on_grid(g, step_xy(x, y, d).0, step_xy(x, y, d).1);
    let path2 = path.push((n.0, n.1));
    assert(link_step_ok(g, wrapping, (x, y), (n.0, n.1)));
    assert forall|i: int| 0 < i < path2.len() implies link_step_ok(
        g,
        wrapping,
        path2[i - 1],
        #[trigger] path2[i],
    ) by {
        if i < path2.len() - 1 {
            assert(path2[i] == path[i]);
            assert(path2[i - 1] == path[i - 1]);
        } else {
            assert(path2[i] == (n.0, n.1));
            assert(path2[i - 1] == path[path.len() - 1]);
        }
    }
    assert(link_is_path(g, wrapping, src, path2));
    assert(path2.last() == (n.0, n.1));
}

/// Adding links never severs reachability: whatever is reachable in a link
/// grid is reachable in any grid of the same size with at least those links.
pub proof fn lemma_link_reachable_monotone(
    g1: Grid<Links>,
    g2: Grid<Links>,
    wrapping: bool,
    src: (int, int),
    x: int,
    y: int,
)
    requires
        g1.rows_spec() == g2.rows_spec(),
        g1.cols_spec() == g2.cols_spec(),
        forall|a: int, b: int, d: Direction|
            g1.contains_xy(a, b) && (#[trigger] g1.at_xy(a, b).at(d)) ==> g2.at_xy(a, b).at(d),
        link_reachable(g1, wrapping, src, x, y),
    ensures
        link_reachable(g2, wrapping, src, x, y),
{
    let path = choose|path: Seq<(int, int)>|
        link_is_path(g1, wrapping, src, path) && path.last() == (x, y);
    assert forall|i: int| 0 < i < path.len() implies link_step_ok(
        g2,
        wrapping,
        path[i - 1],
        #[trigger] path[i],
    ) by {
        assert(link_step_ok(g1, wrapping, path[i - 1], path[i]));
        let d = choose|d: Direction|
            #[trigger] link_connected(g1, wrapping, path[i - 1].0, path[i - 1].1, d) && path[i]
                == g1.norm_xy(
                step_xy(path[i - 1].0, path[i - 1].1, d).0,
                step_xy(path[i - 1].0, path[i - 1].1, d).1,
            );
        let a = path[i - 1];
        assert(g1.contains_xy(a.0, a.1));
        let raw = step_xy(a.0, a.1, d);
        let n = g1.norm_xy(raw.0, raw.1);
        lemma_norm_on_grid(g1, raw.0, raw.1);
        assert(g2.at_xy(a.0, a.1).at(d));
        assert(g2.at_xy(n.0, n.1).at(d.opposite_spec()));
        assert(link_connected(g2, wrapping, a.0, a.1, d));
    }
    assert(link_is_path(g2, wrapping, src, path));
}

/// Build the grid of tiles that a grid of link sets describes: each link
/// pattern is decoded to its shape and rotation, dead ends become drains,
/// and the tile at `source` carries the energy source. Every tile's pipe
/// stubs match the cell's link bits exactly.
pub fn tiles_from_links(links: &Grid<Links>, source: Vec2) -> (r: Grid<Tile>)
    requires
        links.wf(),
        links.contains_spec(source),
        forall|x: int, y: int| links.contains_xy(x, y) ==> (#[trigger] links.at_xy(x, y)).any(),
    ensures
        r.wf(),
        r.rows_spec() == links.rows_spec(),
        r.cols_spec() == links.cols_spec(),
        forall|x: int, y: int|
            r.contains_xy(x, y) ==> (#[trigger] r.at_xy(x, y)) == (if (x, y) == (
                source.x as int,
                source.y as int,
            ) {
                Tile { feature: Feature::Source, ..decoded_tile(links.at_xy(x, y)) }
            } else {
                decoded_tile(links.at_xy(x, y))
            }),
        forall|x: int, y: int, d: Direction|
            r.contains_xy(x, y) ==> (#[trigger] r.at_xy(x, y).has_link_spec(d)) == links.at_xy(
                x,
                y,
            ).at(d),
{
    let rows = links.rows();
    let cols = links.cols();
    let mut data: Vec<Tile> = Vec::new();
    let mut y: usize = 0;
    while y < rows
        invariant
            links.wf(),
            forall|x: int, y: int|
                links.contains_xy(x, y) ==> (#[trigger] links.at_xy(x, y)).any(),
            rows == links.rows_spec(),
            cols == links.cols_spec(),
            y <= rows,
            data@.len() == y * cols,
            forall|xx: int, yy: int|
                0 <= xx < cols && 0 <= yy < y ==> data@[yy * cols + xx] == decoded_tile(
                    #[trigger] links.at_xy(xx, yy),
                ),
        decreases rows - y,
    {
        let mut x: usize = 0;
        while x < cols
            invariant
                links.wf(),
                forall|x: int, y: int|
                    links.contains_xy(x, y) ==> (#[trigger] links.at_xy(x, y)).any(),
                rows == links.rows_spec(),
                cols == links.cols_spec(),
                y < rows,
                x <= cols,
                data@.len() == y * cols + x,
                forall|xx: int, yy: int|
                    0 <= xx < cols && 0 <= yy < y ==> data@[yy * cols + xx] == decoded_tile(
                        #[trigger] links.at_xy(xx, yy),
                    ),
                forall|xx: int|
                    0 <= xx < x ==> data@[y * cols + xx] == decoded_tile(
                        #[trigger] links.at_xy(xx, y as int),
                    ),
            decreases cols - x,
        {
            let l = match links.get(Vec2::new(x as i32, y as i32)) {
                Some(v) => *v,
                None => {
                    proof {
                        assert(false);  // unreachable: the coordinate is on the grid
                    }
                    Links::default()
                },
            };
            let t = Tile::from_links(l);
            proof {
                assert(t == decoded_tile(l));
            }
            let ghost predata = data@;
            data.push(t);
            proof {
                assert forall|xx: int, yy: int|
                    0 <= xx < cols && 0 <= yy < y implies data@[yy * cols + xx] == decoded_tile(
                    #[trigger] links.at_xy(xx, yy),
                ) by {
                    assert(0 <= yy * cols + xx < y * cols) by (nonlinear_arith)
                        requires
                            0 <= xx < cols,
                            0 <= yy,
                            yy + 1 <= y,
                    ;
                    assert(data@[yy * cols + xx] == predata[yy * cols + xx]);
                }
            }
            x = x + 1;
        }
        proof {
            assert(y * cols + cols == (y + 1) * cols) by (nonlinear_arith);
        }
        y = y + 1;
    }
    let grid: Grid<Tile> = Grid::from_data(rows, cols, data);
    let st = match grid.get(source) {
        Some(t) => *t,
        None => Tile {
            kind: Kind::DeadEnd,
            feature: Feature::Empty,
            orientation: crate::tile::Orientation::Basic,
            powered: false,
        },  // unreachable: the source is on the grid
    };
    let mut grid = grid;
    grid.set(
        source,
        Tile {
            kind: st.kind,
            feature: Feature::Source,
            orientation: st.orientation,
            powered: st.powered,
        },
    );
    proof {
        assert forall|x: int, y: int| grid.contains_xy(x, y) implies (
        #[trigger] grid.at_xy(x, y)) == (if (x, y) == (source.x as int, source.y as int) {
            Tile { feature: Feature::Source, ..decoded_tile(links.at_xy(x, y)) }
        } else {
            decoded_tile(links.at_xy(x, y))
        }) by {
            crate::grid::lemma_row_major_bounds(rows as int, cols as int, x, y);
            if (x, y) != (source.x as int, source.y as int) {
                assert(grid.at_xy(x, y) == decoded_tile(links.at_xy(x, y)));
            }
        }
        assert forall|x: int, y: int, d: Direction|
            grid.contains_xy(x, y) implies (#[trigger] grid.at_xy(x, y).has_link_spec(d))
            == links.at_xy(x, y).at(d) by {
            crate::links::lemma_kind_orientation_matches_links(links.at_xy(x, y));
        }
    }
    grid
}

/// A strictly increasing key over the eligible wall sites of a row-major
/// sweep: two units per cell, the top edge before the left edge.
pub open spec fn wall_site_key(w: Wall, cols: int) -> int {
    ((w.position.y as int) * cols + (w.position.x as int)) * 2 + (if w.alignment is Horizontal {
        0int
    } else {
        1int
    })
}

/// The preference weight of extending the tree so that the parent cell takes
/// a given shape: easy boards favor corners and straights broadly, harder
/// boards suppress crosses and straights in favor of corners and T pieces.
pub open spec fn weight_spec(difficulty: Difficulty, kind: Kind) -> u32 {
    match difficulty {
        Difficulty::Easy => match kind {
            Kind::CrossIntersection => 1,
            Kind::TIntersection => 1,
            Kind::Corner => 4,
            Kind::Straight => 3,
            Kind::DeadEnd => 1,
        },
        Difficulty::Medium => match kind {
            Kind::CrossIntersection => 0,
            Kind::TIntersection => 1,
            Kind::Corner => 5,
            Kind::Straight => 2,
            Kind::DeadEnd => 1,
        },
        Difficulty::Hard => match kind {
            Kind::CrossIntersection => 0,
            Kind::TIntersection => 2,
            Kind::Corner => 5,
            Kind::Straight => 0,
            Kind::DeadEnd => 1,
        },
    }
}

/// Look up the difficulty weight of a shape.
pub fn weight(difficulty: Difficulty, kind: Kind) -> (r: u32)
    ensures
        r == weight_spec(difficulty, kind),
        r <= 5,
{
    match difficulty {
        Difficulty::Easy => match kind {
            Kind::CrossIntersection => 1,
            Kind::TIntersection => 1,
            Kind::Corner => 4,
            Kind::Straight => 3,
            Kind::DeadEnd => 1,
        },
        Difficulty::Medium => match kind {
            Kind::CrossIntersection => 0,
            Kind::TIntersection => 1,
            Kind::Corner => 5,
            Kind::Straight => 2,
            Kind::DeadEnd => 1,
        },
        Difficulty::Hard => match kind {
            Kind::CrossIntersection => 0,
            Kind::TIntersection => 2,
            Kind::Corner => 5,
            Kind::Straight => 0,
            Kind::DeadEnd => 1,
        },
    }
}

/// Whether a vector of coordinates holds a given coordinate.
fn vec_contains(v: &Vec<Vec2>, x: Vec2) -> (r: bool)
    ensures
        r == v@.contains(x),
{
    let mut i: usize = 0;
    while i < v.len()
        invariant
            i <= v@.len(),
            forall|j: int| 0 <= j < i ==> v@[j] != x,
        decreases v@.len() - i,
    {
        if v[i].x == x.x && v[i].y == x.y {
            proof {
                assert(v@[i as int] == x);
            }
            return true;
        }
        i = i + 1;
    }
    proof {
        assert(!v@.contains(x));
    }
    false
}

/// Draw a count between zero and `len` whose distribution approximates a
/// normal one with mean `len * mean_num / mean_den` and standard deviation
/// `mean / std_div`: a sum of twelve uniform draws stands in for the
/// standard normal variate, scaled with integer arithmetic and clamped.
fn draw_count(len: usize, mean_num: u64, mean_den: u64, std_div: u64) -> (r: usize)
    requires
        len <= 10000,
        1 <= mean_num <= 1000,
        1 <= mean_den,
        1 <= std_div,
    ensures
        r <= len,
{
    // Twelve uniform draws from [0, 1000): their sum, shifted by 6000,
    // approximates a standard normal variate in thousandths.
    let mut s: u64 = 0;
    let mut i: usize = 0;
    while i < 12
        invariant
            i <= 12,
            s <= 999 * i,
        decreases 12 - i,
    {
        s = s + rand_below(1000) as u64;
        i = i + 1;
    }
    proof {
        assert(len as int * mean_num as int * 1000 <= 10000 * 1000 * 1000) by (nonlinear_arith)
            requires
                len <= 10000,
                mean_num <= 1000,
        ;
    }
    let mean_milli: u64 = len as u64 * mean_num * 1000 / mean_den;
    proof {
        assert(mean_milli <= 10000 * 1000 * 1000) by (nonlinear_arith)
            requires
                mean_milli == (len as int * mean_num as int * 1000) / (mean_den as int),
                len as int * mean_num as int * 1000 <= 10000 * 1000 * 1000,
                1 <= mean_den,
        ;
    }
    let std_milli: u64 = mean_milli / std_div;
    proof {
        assert(std_milli <= mean_milli) by (nonlinear_arith)
            requires
                std_milli == mean_milli as int / std_div as int,
                1 <= std_div,
                0 <= mean_milli,
        ;
        if s >= 6000 {
            assert(std_milli as int * (s - 6000) <= 10000000000 * 6000) by (nonlinear_arith)
                requires
                    0 <= std_milli <= 10000000000,
                    0 <= s - 6000 <= 6000,
            ;
        } else {
            assert(std_milli as int * (6000 - s) <= 10000000000 * 6000) by (nonlinear_arith)
                requires
                    0 <= std_milli <= 10000000000,
                    0 <= 6000 - s <= 6000,
            ;
        }
    }
    let value_milli: u64 = if s >= 6000 {
        mean_milli + std_milli * (s - 6000) / 1000
    } else {
        let sub = std_milli * (6000 - s) / 1000;
        if sub > mean_milli {
            0
        } else {
            mean_milli - sub
        }
    };
    let value: u64 = value_milli / 1000;
    if value > len as u64 {
        len
    } else {
        value as usize
    }
}

/// One chance to grow the spanning tree: the boundary cell `parent` extends
/// toward `direction` into the unvisited cell `child`.
#[derive(Copy, Clone, Debug)]
struct Connection {
    parent: Vec2,
    child: Vec2,
    direction: Direction,
}

/// The cell one step from `(x, y)` toward `d` as the tree growth sees it:
/// wrap-folded on a toroidal board, the raw neighbor otherwise.
spec fn child_xy(visited: Grid<bool>, wrapping: bool, x: int, y: int, d: Direction) -> (int, int) {
    let raw = step_xy(x, y, d);
    if wrapping {
        visited.norm_xy(raw.0, raw.1)
    } else {
        raw
    }
}

/// Whether the tree can grow from `(x, y)` toward `d`: the neighbor exists
/// and has not been visited yet.
spec fn cand(visited: Grid<bool>, wrapping: bool, x: int, y: int, d: Direction) -> bool {
    let c = child_xy(visited, wrapping, x, y, d);
    &&& visited.contains_xy(c.0, c.1)
    &&& !visited.at_xy(c.0, c.1)
}

/// Whether a recorded connection is a valid growth step for the current
/// visited map.
spec fn conn_ok(visited: Grid<bool>, wrapping: bool, c: Connection) -> bool {
    &&& visited.contains_spec(c.parent)
    &&& visited.at(c.parent)
    &&& (c.child.x as int, c.child.y as int) == child_xy(
        visited,
        wrapping,
        c.parent.x as int,
        c.parent.y as int,
        c.direction,
    )
    &&& visited.contains_spec(c.child)
    &&& !visited.at(c.child)
}

/// The working invariant of the tree growth: the two grids share the square
/// board, every visited cell is link-reachable from the source, links are
/// symmetric, the boundary holds visited cells and covers every visited cell
/// that can still grow, and every visited cell other than the source already
/// carries a link (the source too, once anything else is visited).
spec fn gen_inv(
    opts: Options,
    src: (int, int),
    proto: Grid<Links>,
    visited: Grid<bool>,
    boundary: Seq<Vec2>,
) -> bool {
    &&& proto.wf()
    &&& visited.wf()
    &&& proto.rows_spec() == opts.board_size
    &&& proto.cols_spec() == opts.board_size
    &&& visited.rows_spec() == opts.board_size
    &&& visited.cols_spec() == opts.board_size
    &&& opts.wf()
    &&& visited.contains_xy(src.0, src.1)
    &&& visited.at_xy(src.0, src.1)
    &&& (forall|x: int, y: int|
        visited.contains_xy(x, y) && (#[trigger] visited.at_xy(x, y)) ==> link_reachable(
            proto,
            opts.wrapping,
            src,
            x,
            y,
        ))
    &&& link_sym(proto, opts.wrapping)
    &&& (forall|i: int|
        0 <= i < boundary.len() ==> visited.contains_spec(#[trigger] boundary[i])
            && visited.at(boundary[i]))
    &&& (forall|x: int, y: int, d: Direction|
        visited.contains_xy(x, y) && visited.at_xy(x, y) && #[trigger] cand(
            visited,
            opts.wrapping,
            x,
            y,
            d,
        ) ==> boundary.contains(Vec2 { x: x as i32, y: y as i32 }))
    &&& (forall|x: int, y: int|
        visited.contains_xy(x, y) && (#[trigger] visited.at_xy(x, y)) && (x, y) != src
            ==> proto.at_xy(x, y).any())
    &&& (forall|x: int, y: int|
        proto.contains_xy(x, y) && (#[trigger] proto.at_xy(x, y)).any() ==> visited.at_xy(x, y))
    &&& (proto.at_xy(src.0, src.1).any() || (forall|x: int, y: int|
        visited.contains_xy(x, y) && (#[trigger] visited.at_xy(x, y)) ==> (x, y) == src))
}

/// The difficulty weight of a growth candidate: the preference for the
/// shape the parent cell would take if the candidate's link bit were set.
spec fn candidate_weight(difficulty: Difficulty, proto: Grid<Links>, c: Connection) -> u32 {
    weight_spec(
        difficulty,
        proto.at(c.parent).set_spec(c.direction, true).kind_orientation_spec().0,
    )
}

/// When no boundary cell can grow, no visited cell can: every visited cell
/// that could grow would be on the boundary.
proof fn lemma_no_candidates(
    opts: Options,
    src: (int, int),
    proto: Grid<Links>,
    visited: Grid<bool>,
    boundary: Seq<Vec2>,
)
    requires
        gen_inv(opts, src, proto, visited, boundary),
        forall|i: int, d: Direction|
            0 <= i < boundary.len() ==> !(#[trigger] cand(
                visited,
                opts.wrapping,
                boundary[i].x as int,
                boundary[i].y as int,
                d,
            )),
    ensures
        forall|x: int, y: int, d: Direction|
            visited.contains_xy(x, y) && visited.at_xy(x, y) ==> !(#[trigger] cand(
                visited,
                opts.wrapping,
                x,
                y,
                d,
            )),
{
    assert forall|x: int, y: int, d: Direction|
        visited.contains_xy(x, y) && visited.at_xy(x, y) implies !(#[trigger] cand(
        visited,
        opts.wrapping,
        x,
        y,
        d,
    )) by {
        if cand(visited, opts.wrapping, x, y, d) {
            let v = Vec2 { x: x as i32, y: y as i32 };
            assert(boundary.contains(v));
            let i = choose|i: int| 0 <= i < boundary.len() && boundary[i] == v;
            assert(!cand(visited, opts.wrapping, boundary[i].x as int, boundary[i].y as int, d));
        }
    }
}

/// Commit one growth step: set the link bit on both sides of the chosen
/// edge, mark the child visited, and append it to the refreshed boundary.
fn commit_connection(
    c: Connection,
    proto: &mut Grid<Links>,
    visited: &mut Grid<bool>,
    nb: &mut Vec<Vec2>,
    Ghost(opts): Ghost<Options>,
    Ghost(src): Ghost<(int, int)>,
    Ghost(boundary0): Ghost<Seq<Vec2>>,
)
    requires
        gen_inv(opts, src, *old(proto), *old(visited), boundary0),
        conn_ok(*old(visited), opts.wrapping, c),
        forall|j: int|
            0 <= j < old(nb)@.len() ==> old(visited).contains_spec(#[trigger] old(nb)@[j])
                && old(visited).at(old(nb)@[j]),
        forall|i: int, d: Direction|
            0 <= i < boundary0.len() && #[trigger] cand(
                *old(visited),
                opts.wrapping,
                boundary0[i].x as int,
                boundary0[i].y as int,
                d,
            ) ==> old(nb)@.contains(boundary0[i]),
    ensures
        gen_inv(opts, src, *final(proto), *final(visited), final(nb)@),
        final(visited).view() == old(visited).view().update(
            old(visited).index_xy(c.child.x as int, c.child.y as int),
            true,
        ),
        final(visited).rows_spec() == old(visited).rows_spec(),
        final(visited).cols_spec() == old(visited).cols_spec(),
        final(nb)@.len() == old(nb)@.len() + 1,
        count_links(final(proto).view(), final(proto).view().len() as int) == count_links(
            old(proto).view(),
            old(proto).view().len() as int,
        ) + 2,
{
    let ghost proto0 = *proto;
    let ghost visited0 = *visited;
    let ghost nb0 = nb@;
    proof {
        assert(visited0.at(c.parent) && !visited0.at(c.child));
        assert(c.parent != c.child);
    }
    let pl0 = match proto.get(c.parent) {
        Some(v) => *v,
        None => Links::default(),  // unreachable: the parent is on the grid
    };
    let mut pl = pl0;
    pl.set(c.direction, true);
    proto.set(c.parent, pl);
    let ghost mid = *proto;
    let cl0 = match proto.get(c.child) {
        Some(v) => *v,
        None => Links::default(),  // unreachable: the child is on the grid
    };
    let mut cl = cl0;
    cl.set(c.direction.opposite(), true);
    proto.set(c.child, cl);
    visited.set(c.child, true);
    nb.push(c.child);
    proof {
        assert(cl0 == proto0.at_xy(c.child.x as int, c.child.y as int));
        assert(nb@ =~= nb0.push(c.child));
        lemma_commit_keeps_gen_inv(
            opts,
            src,
            proto0,
            visited0,
            boundary0,
            nb0,
            c,
            *proto,
            *visited,
            nb@,
        );

        // Exactly two fresh bits were set: the unvisited child had none,
        // and by symmetry the parent had none toward it either.
        let px = c.parent.x as int;
        let py = c.parent.y as int;
        let cx = c.child.x as int;
        let cy = c.child.y as int;
        let dir = c.direction;
        let len = proto0.view().len() as int;
        assert(!proto0.at_xy(cx, cy).any());
        assert(!cl0.at(dir.opposite_spec())) by {
            match dir.opposite_spec() {
                Direction::Right => assert(!cl0.at_index(0)),
                Direction::Up => assert(!cl0.at_index(1)),
                Direction::Left => assert(!cl0.at_index(2)),
                Direction::Down => assert(!cl0.at_index(3)),
            }
        }
        assert(!pl0.at(dir)) by {
            if pl0.at(dir) {
                let raw = step_xy(px, py, dir);
                if !opts.wrapping {
                    lemma_norm_identity(proto0, raw.0, raw.1);
                }
                assert((cx, cy) == proto0.norm_xy(raw.0, raw.1));
                assert(proto0.at_xy(cx, cy).at(dir.opposite_spec()));
                match dir.opposite_spec() {
                    Direction::Right => assert(proto0.at_xy(cx, cy).at_index(0)),
                    Direction::Up => assert(proto0.at_xy(cx, cy).at_index(1)),
                    Direction::Left => assert(proto0.at_xy(cx, cy).at_index(2)),
                    Direction::Down => assert(proto0.at_xy(cx, cy).at_index(3)),
                }
                assert(false);
            }
        }
        crate::grid::lemma_row_major_bounds(proto0.rows_spec(), proto0.cols_spec(), px, py);
        crate::grid::lemma_row_major_bounds(proto0.rows_spec(), proto0.cols_spec(), cx, cy);
        crate::grid::lemma_row_major_injective(proto0.cols_spec(), px, py, cx, cy);
        let pidx = proto0.index_xy(px, py);
        let cidx = proto0.index_xy(cx, cy);
        assert(proto0.view()[pidx] == pl0);
        lemma_bit_count_flip(pl0, pl, dir);
        lemma_count_links_update(proto0.view(), pidx, pl, len);
        assert(mid.view() == proto0.view().update(pidx, pl));
        assert(count_links(mid.view(), len) == count_links(proto0.view(), len) + 1);
        assert(mid.view()[cidx] == cl0);
        lemma_bit_count_flip(cl0, cl, dir.opposite_spec());
        lemma_count_links_update(mid.view(), cidx, cl, len);
        assert(proto.view() == mid.view().update(cidx, cl));
        assert(count_links(proto.view(), len) == count_links(proto0.view(), len) + 2);
    }
}


/// Enumerate, across the whole boundary, every pair of a boundary cell and a
/// direction whose neighbor is unvisited, and collect the boundary cells
/// that can still grow.
fn scan_boundary(boundary: &Vec<Vec2>, visited: &Grid<bool>, wrapping: bool) -> (r: (
    Vec<Connection>,
    Vec<Vec2>,
))
    requires
        visited.wf(),
        visited.rows_spec() >= 1,
        visited.cols_spec() >= 1,
        forall|i: int|
            0 <= i < boundary@.len() ==> visited.contains_spec(#[trigger] boundary@[i])
                && visited.at(boundary@[i]),
    ensures
        forall|j: int|
            0 <= j < r.0@.len() ==> conn_ok(*visited, wrapping, #[trigger] r.0@[j]),
        forall|j: int|
            0 <= j < r.1@.len() ==> visited.contains_spec(#[trigger] r.1@[j]) && visited.at(
                r.1@[j],
            ),
        forall|i: int, d: Direction|
            0 <= i < boundary@.len() && #[trigger] cand(
                *visited,
                wrapping,
                boundary@[i].x as int,
                boundary@[i].y as int,
                d,
            ) ==> r.1@.contains(boundary@[i]),
        r.0@.len() == 0 ==> (forall|i: int, d: Direction|
            0 <= i < boundary@.len() ==> !(#[trigger] cand(
                *visited,
                wrapping,
                boundary@[i].x as int,
                boundary@[i].y as int,
                d,
            ))),
        r.0@.len() <= 4 * boundary@.len(),
        r.1@.len() <= boundary@.len(),
{
    let mut connections: Vec<Connection> = Vec::new();
    let mut new_boundary: Vec<Vec2> = Vec::new();
    let mut pi: usize = 0;
    while pi < boundary.len()
        invariant
            visited.wf(),
            visited.rows_spec() >= 1,
            visited.cols_spec() >= 1,
            forall|i: int|
                0 <= i < boundary@.len() ==> visited.contains_spec(#[trigger] boundary@[i])
                    && visited.at(boundary@[i]),
            pi <= boundary@.len(),
            connections@.len() <= 4 * pi,
            new_boundary@.len() <= pi,
            forall|j: int|
                0 <= j < connections@.len() ==> conn_ok(
                    *visited,
                    wrapping,
                    #[trigger] connections@[j],
                ),
            forall|j: int|
                0 <= j < new_boundary@.len() ==> visited.contains_spec(
                    #[trigger] new_boundary@[j],
                ) && visited.at(new_boundary@[j]),
            forall|i: int, d: Direction|
                0 <= i < pi && #[trigger] cand(
                    *visited,
                    wrapping,
                    boundary@[i].x as int,
                    boundary@[i].y as int,
                    d,
                ) ==> new_boundary@.contains(boundary@[i]),
            connections@.len() == 0 ==> (forall|i: int, d: Direction|
                0 <= i < pi ==> !(#[trigger] cand(
                    *visited,
                    wrapping,
                    boundary@[i].x as int,
                    boundary@[i].y as int,
                    d,
                ))),
        decreases boundary@.len() - pi,
    {
        let parent = boundary[pi];
        let mut di: usize = 0;
        while di < 4
            invariant
                visited.wf(),
                visited.rows_spec() >= 1,
                visited.cols_spec() >= 1,
                pi < boundary@.len(),
                parent == boundary@[pi as int],
                visited.contains_spec(parent),
                visited.at(parent),
                di <= 4,
                connections@.len() <= 4 * pi + di,
                new_boundary@.len() <= pi + 1,
                new_boundary@.contains(parent) || new_boundary@.len() <= pi,
                forall|j: int|
                    0 <= j < connections@.len() ==> conn_ok(
                        *visited,
                        wrapping,
                        #[trigger] connections@[j],
                    ),
                forall|j: int|
                    0 <= j < new_boundary@.len() ==> visited.contains_spec(
                        #[trigger] new_boundary@[j],
                    ) && visited.at(new_boundary@[j]),
                forall|i: int, d: Direction|
                    0 <= i < pi && #[trigger] cand(
                        *visited,
                        wrapping,
                        boundary@[i].x as int,
                        boundary@[i].y as int,
                        d,
                    ) ==> new_boundary@.contains(boundary@[i]),
                forall|d: Direction|
                    d.index_spec() < di && #[trigger] cand(
                        *visited,
                        wrapping,
                        parent.x as int,
                        parent.y as int,
                        d,
                    ) ==> new_boundary@.contains(parent),
                connections@.len() == 0 ==> (forall|i: int, d: Direction|
                    0 <= i < pi ==> !(#[trigger] cand(
                        *visited,
                        wrapping,
                        boundary@[i].x as int,
                        boundary@[i].y as int,
                        d,
                    ))),
                connections@.len() == 0 ==> (forall|d: Direction|
                    d.index_spec() < di ==> !(#[trigger] cand(
                        *visited,
                        wrapping,
                        parent.x as int,
                        parent.y as int,
                        d,
                    ))),
            decreases 4 - di,
        {
            let d = Direction::from_index(di);
            let step = parent.add(d.to_vec2());
            let child = if wrapping {
                visited.normalized_coord(step)
            } else {
                step
            };
            proof {
                assert((child.x as int, child.y as int) == child_xy(
                    *visited,
                    wrapping,
                    parent.x as int,
                    parent.y as int,
                    d,
                ));
            }
            let child_visited = match visited.get(child) {
                Some(b) => *b,
                None => true,  // off the grid: nothing to grow into
            };
            if !child_visited {
                connections.push(Connection { parent, child, direction: d });
                let ghost nbpre = new_boundary@;
                if !vec_contains(&new_boundary, parent) {
                    new_boundary.push(parent);
                }
                proof {
                    assert(new_boundary@.contains(parent)) by {
                        if nbpre.contains(parent) {
                            if new_boundary@ != nbpre {
                                lemma_contains_push(nbpre, parent, parent);
                            }
                        } else {
                            assert(new_boundary@[new_boundary@.len() - 1] == parent);
                        }
                    }
                    assert forall|i: int, dd: Direction|
                        0 <= i < pi && #[trigger] cand(
                            *visited,
                            wrapping,
                            boundary@[i].x as int,
                            boundary@[i].y as int,
                            dd,
                        ) implies new_boundary@.contains(boundary@[i]) by {
                        if new_boundary@ != nbpre {
                            lemma_contains_push(nbpre, parent, boundary@[i]);
                        }
                    }
                }
            } else {
                proof {
                    assert(!cand(*visited, wrapping, parent.x as int, parent.y as int, d));
                }
            }
            di = di + 1;
        }
        pi = pi + 1;
    }
    (connections, new_boundary)
}

/// Committing one growth step keeps the generation invariant: the new link
/// bits sit on both sides of the chosen edge, the child is now visited and
/// reachable, and the refreshed boundary covers every cell that can still
/// grow.
#[verifier::rlimit(100)]
proof fn lemma_commit_keeps_gen_inv(
    opts: Options,
    src: (int, int),
    proto0: Grid<Links>,
    visited0: Grid<bool>,
    boundary0: Seq<Vec2>,
    nb0: Seq<Vec2>,
    c: Connection,
    proto: Grid<Links>,
    visited: Grid<bool>,
    boundary: Seq<Vec2>,
)
    requires
        gen_inv(opts, src, proto0, visited0, boundary0),
        conn_ok(visited0, opts.wrapping, c),
        forall|j: int|
            0 <= j < nb0.len() ==> visited0.contains_spec(#[trigger] nb0[j]) && visited0.at(
                nb0[j],
            ),
        forall|i: int, d: Direction|
            0 <= i < boundary0.len() && #[trigger] cand(
                visited0,
                opts.wrapping,
                boundary0[i].x as int,
                boundary0[i].y as int,
                d,
            ) ==> nb0.contains(boundary0[i]),
        proto.wf(),
        visited.wf(),
        proto.rows_spec() == proto0.rows_spec(),
        proto.cols_spec() == proto0.cols_spec(),
        visited.rows_spec() == visited0.rows_spec(),
        visited.cols_spec() == visited0.cols_spec(),
        forall|x: int, y: int|
            proto0.contains_xy(x, y) && (x, y) != (c.parent.x as int, c.parent.y as int) && (
            x,
            y,
            ) != (c.child.x as int, c.child.y as int) ==> #[trigger] proto.at_xy(x, y)
                == proto0.at_xy(x, y),
        forall|i: int|
            #[trigger] proto.at_xy(c.parent.x as int, c.parent.y as int).at_index(i) == (if i
                == c.direction.index_spec() {
                true
            } else {
                proto0.at_xy(c.parent.x as int, c.parent.y as int).at_index(i)
            }),
        forall|i: int|
            #[trigger] proto.at_xy(c.child.x as int, c.child.y as int).at_index(i) == (if i
                == c.direction.opposite_spec().index_spec() {
                true
            } else {
                proto0.at_xy(c.child.x as int, c.child.y as int).at_index(i)
            }),
        visited.at(c.child),
        forall|x: int, y: int|
            visited.contains_xy(x, y) && (x, y) != (c.child.x as int, c.child.y as int)
                ==> #[trigger] visited.at_xy(x, y) == visited0.at_xy(x, y),
        boundary == nb0.push(c.child),
    ensures
        gen_inv(opts, src, proto, visited, boundary),
{
    let wrapping = opts.wrapping;
    let px = c.parent.x as int;
    let py = c.parent.y as int;
    let cx = c.child.x as int;
    let cy = c.child.y as int;
    let dir = c.direction;
    assert(c.parent != c.child);

    // Old links survive, and the only new bits are the two just set.
    assert forall|x: int, y: int, dd: Direction|
        proto0.contains_xy(x, y) && (#[trigger] proto0.at_xy(x, y).at(dd)) implies proto.at_xy(
        x,
        y,
    ).at(dd) by {
        if (x, y) != (px, py) && (x, y) != (cx, cy) {
            assert(proto.at_xy(x, y) == proto0.at_xy(x, y));
        }
    }
    assert forall|x: int, y: int, dd: Direction|
        proto.contains_xy(x, y) && (#[trigger] proto.at_xy(x, y).at(dd)) implies (proto0.at_xy(
        x,
        y,
    ).at(dd) || ((x, y) == (px, py) && dd == dir) || ((x, y) == (cx, cy) && dd
        == dir.opposite_spec())) by {
        if (x, y) != (px, py) && (x, y) != (cx, cy) {
            assert(proto.at_xy(x, y) == proto0.at_xy(x, y));
        }
    }

    // The new edge is well-placed: the child is the folded neighbor of the
    // parent, and vice versa.
    assert((cx, cy) == child_xy(visited0, wrapping, px, py, dir));
    let raw = step_xy(px, py, dir);
    if !wrapping {
        lemma_norm_identity(proto, raw.0, raw.1);
    }
    assert((cx, cy) == proto.norm_xy(raw.0, raw.1));
    lemma_fold_step_inverse(proto, px, py, dir);

    // Symmetry of the grown link grid.
    assert forall|x: int, y: int, dd: Direction|
        proto.contains_xy(x, y) && (#[trigger] proto.at_xy(x, y).at(dd)) implies {
        let raw2 = step_xy(x, y, dd);
        let n = proto.norm_xy(raw2.0, raw2.1);
        &&& (!wrapping ==> proto.contains_xy(raw2.0, raw2.1))
        &&& proto.at_xy(n.0, n.1).at(dd.opposite_spec())
    } by {
        let raw2 = step_xy(x, y, dd);
        let n = proto.norm_xy(raw2.0, raw2.1);
        if (x, y) == (px, py) && dd == dir {
            assert(n == (cx, cy));
            assert(proto.at_xy(cx, cy).at(dir.opposite_spec()));
        } else if (x, y) == (cx, cy) && dd == dir.opposite_spec() {
            assert(n == (px, py));
            assert(dd.opposite_spec() == dir);
            assert(proto.at_xy(px, py).at(dir));
            if !wrapping {
                assert(raw2 == (px, py));
            }
        } else {
            assert(proto0.at_xy(x, y).at(dd));
            assert(proto0.norm_xy(raw2.0, raw2.1) == n);
            assert(proto0.at_xy(n.0, n.1).at(dd.opposite_spec()));
            assert(proto.at_xy(n.0, n.1).at(dd.opposite_spec()));
        }
    }

    // Every visited cell stays link-reachable, and the child joins them by
    // the new edge.
    assert forall|x: int, y: int|
        visited.contains_xy(x, y) && (#[trigger] visited.at_xy(x, y)) implies link_reachable(
        proto,
        wrapping,
        src,
        x,
        y,
    ) by {
        if (x, y) != (cx, cy) {
            assert(visited0.at_xy(x, y));
            lemma_link_reachable_monotone(proto0, proto, wrapping, src, x, y);
        } else {
            assert(visited0.at_xy(px, py));
            lemma_link_reachable_monotone(proto0, proto, wrapping, src, px, py);
            assert(link_connected(proto, wrapping, px, py, dir)) by {
                assert(proto.at_xy(px, py).at(dir));
                assert(proto.at_xy(cx, cy).at(dir.opposite_spec()));
            }
            lemma_link_reachable_step(proto, wrapping, src, px, py, dir);
        }
    }

    // The refreshed boundary covers every cell that can still grow.
    assert forall|x: int, y: int, dd: Direction|
        visited.contains_xy(x, y) && visited.at_xy(x, y) && #[trigger] cand(
            visited,
            wrapping,
            x,
            y,
            dd,
        ) implies boundary.contains(Vec2 { x: x as i32, y: y as i32 }) by {
        let v = Vec2 { x: x as i32, y: y as i32 };
        if (x, y) == (cx, cy) {
            assert(v == c.child);
            assert(boundary[boundary.len() - 1] == c.child);
        } else {
            assert(visited0.at_xy(x, y));
            assert(cand(visited0, wrapping, x, y, dd)) by {
                let ch = child_xy(visited0, wrapping, x, y, dd);
                assert(child_xy(visited, wrapping, x, y, dd) == ch);
                assert(!visited.at_xy(ch.0, ch.1));
                if (ch.0, ch.1) != (cx, cy) {
                    assert(visited0.at_xy(ch.0, ch.1) == visited.at_xy(ch.0, ch.1));
                } else {
                    assert(visited.at_xy(cx, cy));
                }
            }
            assert(visited0.contains_xy(x, y));
            // The old closure puts the cell in the old boundary; the scan
            // then put it into the new one.
            assert(boundary0.contains(v));
            let i = choose|i: int| 0 <= i < boundary0.len() && boundary0[i] == v;
            assert(cand(visited0, wrapping, boundary0[i].x as int, boundary0[i].y as int, dd));
            assert(nb0.contains(v));
            lemma_contains_push(nb0, c.child, v);
        }
    }

    // Every visited cell other than the source has a link now.
    assert forall|x: int, y: int|
        visited.contains_xy(x, y) && (#[trigger] visited.at_xy(x, y)) && (x, y) != src
            implies proto.at_xy(x, y).any() by {
        if (x, y) == (px, py) || (x, y) == (cx, cy) {
            assert(proto.at_xy(x, y).at_index(0) || proto.at_xy(x, y).at_index(1)
                || proto.at_xy(x, y).at_index(2) || proto.at_xy(x, y).at_index(3)) by {
                if (x, y) == (px, py) {
                    assert(proto.at_xy(px, py).at(dir));
                } else {
                    assert(proto.at_xy(cx, cy).at(dir.opposite_spec()));
                }
            }
        } else {
            assert(visited0.at_xy(x, y));
        }
    }
    // Links appear only on visited cells.
    assert forall|x: int, y: int|
        proto.contains_xy(x, y) && (#[trigger] proto.at_xy(x, y)).any()
            implies visited.at_xy(x, y) by {
        if (x, y) == (px, py) {
            assert(visited0.at_xy(px, py));
        } else if (x, y) == (cx, cy) {
        } else {
            assert(proto.at_xy(x, y) == proto0.at_xy(x, y));
            assert(visited0.at_xy(x, y));
        }
    }
    assert(proto.at_xy(src.0, src.1).any()) by {
        if (px, py) == src {
            assert(proto.at_xy(px, py).at(dir));
            assert(proto.at_xy(px, py).at_index(0) || proto.at_xy(px, py).at_index(1)
                || proto.at_xy(px, py).at_index(2) || proto.at_xy(px, py).at_index(3));
        } else {
            assert(visited0.at_xy(px, py));
            assert(proto0.at_xy(px, py).any());
            assert(proto0.at_xy(src.0, src.1).any());
            assert forall|i: int|
                proto0.at_xy(src.0, src.1).at_index(i) implies #[trigger] proto.at_xy(
                src.0,
                src.1,
            ).at_index(i) by {
                if (src.0, src.1) != (px, py) && (src.0, src.1) != (cx, cy) {
                    assert(proto.at_xy(src.0, src.1) == proto0.at_xy(src.0, src.1));
                }
            }
        }
    }
}

/// Pointwise equal shapes, coordinate by coordinate, are pointwise equal
/// shapes, cell by cell of the flat storage.
proof fn lemma_kinds_pointwise_to_seq(g1: Grid<Tile>, g2: Grid<Tile>)
    requires
        g1.wf(),
        g2.wf(),
        g1.rows_spec() == g2.rows_spec(),
        g1.cols_spec() == g2.cols_spec(),
        forall|x: int, y: int|
            g1.contains_xy(x, y) ==> (#[trigger] g1.at_xy(x, y)).kind == g2.at_xy(x, y).kind,
    ensures
        forall|i: int|
            0 <= i < g1.view().len() ==> (#[trigger] g1.view()[i]).kind == g2.view()[i].kind,
{
    assert forall|i: int|
        0 <= i < g1.view().len() implies (#[trigger] g1.view()[i]).kind
        == g2.view()[i].kind by {
        let cols = g1.cols_spec();
        let x = i % cols;
        let y = i / cols;
        assert(0 <= x < cols && 0 <= y < g1.rows_spec() && y * cols + x == i)
            by (nonlinear_arith)
            requires
                0 <= i < g1.rows_spec() * cols,
                cols >= 1,
                x == i % cols,
                y == i / cols,
        ;
        assert(g1.contains_xy(x, y));
        assert(g1.at_xy(x, y).kind == g2.at_xy(x, y).kind);
    }
}

/// A pushed element does not remove earlier ones from a sequence.
proof fn lemma_contains_push(s: Seq<Vec2>, v: Vec2, x: Vec2)
    requires
        s.contains(x),
    ensures
        s.push(v).contains(x),
{
    let i = choose|i: int| 0 <= i < s.len() && s[i] == x;
    assert(s.push(v)[i] == x);
}

/// A visited map that is closed under on-grid steps and holds the source
/// covers the whole grid: walking first along the row and then along the
/// column reaches every cell.
proof fn lemma_closure_all_visited(v: Grid<bool>, sx: int, sy: int, x: int, y: int)
    requires
        v.contains_xy(sx, sy),
        v.at_xy(sx, sy),
        v.contains_xy(x, y),
        forall|a: int, b: int, dd: Direction|
            v.contains_xy(a, b) && (#[trigger] v.at_xy(a, b)) && v.contains_xy(
                (#[trigger] step_xy(a, b, dd)).0,
                step_xy(a, b, dd).1,
            ) ==> v.at_xy(step_xy(a, b, dd).0, step_xy(a, b, dd).1),
    ensures
        v.at_xy(x, y),
    decreases (if x >= sx {
        x - sx
    } else {
        sx - x
    }) + (if y >= sy {
        y - sy
    } else {
        sy - y
    }),
{
    if x == sx && y == sy {
    } else if x > sx {
        lemma_closure_all_visited(v, sx, sy, x - 1, y);
        assert(step_xy(x - 1, y, Direction::Right) == (x, y));
    } else if x < sx {
        lemma_closure_all_visited(v, sx, sy, x + 1, y);
        assert(step_xy(x + 1, y, Direction::Left) == (x, y));
    } else if y > sy {
        lemma_closure_all_visited(v, sx, sy, x, y - 1);
        assert(step_xy(x, y - 1, Direction::Down) == (x, y));
    } else {
        lemma_closure_all_visited(v, sx, sy, x, y + 1);
        assert(step_xy(x, y + 1, Direction::Up) == (x, y));
    }
}

/// A builder capable of creating a random puzzle.
///
/// Supply options with [`Builder::with_options`], then call
/// [`Builder::build`].
pub struct Builder {
    options: Options,
}

impl Builder {
    /// The options the builder will generate with.
    pub closed spec fn options_spec(self) -> Options {
        self.options
    }

    /// A builder with the default options.
    pub fn new() -> (r: Builder)
        ensures
            r.options_spec() == (Options {
                board_size: 3,
                difficulty: Difficulty::Easy,
                wrapping: false,
            }),
    {
        Builder { options: Options::default() }
    }

    /// Supply options to the builder. A board size outside the supported
    /// range is a contract violation by the embedding application.
    pub fn with_options(self, options: Options) -> (r: Builder)
        requires
            options.wf(),
        ensures
            r.options_spec() == options,
    {
        Builder { options }
    }


    /// Choose one growth step among the candidates: weighted by the shape
    /// each candidate would give its parent cell, or uniformly when every
    /// candidate has weight zero. While any candidate has a positive
    /// difficulty weight, a zero-weight candidate is never returned.
    fn pick_connection(
        &self,
        connections: &Vec<Connection>,
        proto: &Grid<Links>,
        Ghost(visited): Ghost<Grid<bool>>,
    ) -> (r: usize)
        requires
            1 <= connections@.len() <= 1600,
            proto.wf(),
            visited.rows_spec() == proto.rows_spec(),
            visited.cols_spec() == proto.cols_spec(),
            forall|j: int|
                0 <= j < connections@.len() ==> conn_ok(
                    visited,
                    self.options_spec().wrapping,
                    #[trigger] connections@[j],
                ),
        ensures
            r < connections@.len(),
            (exists|j: int|
                0 <= j < connections@.len() && candidate_weight(
                    self.options_spec().difficulty,
                    *proto,
                    #[trigger] connections@[j],
                ) > 0) ==> candidate_weight(
                self.options_spec().difficulty,
                *proto,
                connections@[r as int],
            ) > 0,
    {
        let ghost difficulty = self.options_spec().difficulty;
        let mut weights: Vec<u32> = Vec::new();
        let mut has_pos = false;
        let mut wsum: u64 = 0;
        let mut wi: usize = 0;
        while wi < connections.len()
            invariant
                proto.wf(),
                visited.rows_spec() == proto.rows_spec(),
                visited.cols_spec() == proto.cols_spec(),
                difficulty == self.options_spec().difficulty,
                forall|j: int|
                    0 <= j < connections@.len() ==> conn_ok(
                        visited,
                        self.options_spec().wrapping,
                        #[trigger] connections@[j],
                    ),
                connections@.len() <= 1600,
                wi <= connections@.len(),
                weights@.len() == wi,
                forall|j: int| 0 <= j < weights@.len() ==> (#[trigger] weights@[j]) <= 5,
                forall|j: int|
                    0 <= j < weights@.len() ==> (#[trigger] weights@[j]) == candidate_weight(
                        difficulty,
                        *proto,
                        connections@[j],
                    ),
                wsum as int == weight_sum(weights@),
                wsum as int <= 5 * (wi as int),
                has_pos ==> exists|j: int| 0 <= j < weights@.len() && weights@[j] > 0,
                !has_pos ==> forall|j: int|
                    0 <= j < weights@.len() ==> (#[trigger] weights@[j]) == 0,
            decreases connections@.len() - wi,
        {
            let c = connections[wi];
            let l0 = match proto.get(c.parent) {
                Some(v) => *v,
                None => Links::default(),  // unreachable: the parent is on the grid
            };
            let mut l = l0;
            l.set(c.direction, true);
            proof {
                assert(l == proto.at(c.parent).set_spec(c.direction, true));
                assert(l.at(c.direction));
                assert(l.any()) by {
                    match c.direction {
                        Direction::Right => assert(l.at_index(0)),
                        Direction::Up => assert(l.at_index(1)),
                        Direction::Left => assert(l.at_index(2)),
                        Direction::Down => assert(l.at_index(3)),
                    }
                }
            }
            let (kind, _orientation) = l.kind_orientation();
            let w = weight(self.options.difficulty, kind);
            proof {
                assert(w == candidate_weight(difficulty, *proto, c));
            }
            if w > 0 {
                has_pos = true;
            }
            let ghost preweights = weights@;
            weights.push(w);
            proof {
                assert(weights@.drop_last() =~= preweights);
                assert(weight_sum(weights@) == weight_sum(preweights) + w);
                if w > 0 {
                    assert(weights@[weights@.len() - 1] > 0);
                }
            }
            wsum = wsum + w as u64;
            wi = wi + 1;
        }

        if has_pos {
            let pick = choose_weighted_index(&weights);
            proof {
                assert(weights@[pick as int] == candidate_weight(
                    difficulty,
                    *proto,
                    connections@[pick as int],
                ));
            }
            pick
        } else {
            // All candidates weigh zero: pick uniformly.
            let pick = rand_below(connections.len());
            proof {
                assert forall|j: int|
                    0 <= j < connections@.len() implies !(candidate_weight(
                    difficulty,
                    *proto,
                    #[trigger] connections@[j],
                ) > 0) by {
                    assert(weights@[j] == candidate_weight(difficulty, *proto, connections@[j]));
                    assert(weights@[j] == 0);
                }
            }
            pick
        }
    }

    /// Grow the spanning tree of pipe links that underlies the puzzle.
    ///
    /// Starting from the source, the tree repeatedly extends from a boundary
    /// cell into an unvisited neighbor, with each candidate weighted by the
    /// difficulty's preference for the shape the parent cell would take. It
    /// terminates when no cell can grow, at which point every cell is linked
    /// into the tree: the grid is connected, links are symmetric, every cell
    /// carries at least one pipe stub, and the total number of active bits
    /// is exactly twice the cell count minus one — the edge count of a
    /// spanning tree, so the network is cycle-free.
    #[verifier::rlimit(100)]
    #[verifier::loop_isolation(false)]
    pub fn create_grid_of_links(&self, source: Vec2) -> (r: Grid<Links>)
        requires
            self.options_spec().wf(),
            0 <= (source.x as int) < self.options_spec().board_size,
            0 <= (source.y as int) < self.options_spec().board_size,
        ensures
            r.wf(),
            r.rows_spec() == self.options_spec().board_size,
            r.cols_spec() == self.options_spec().board_size,
            link_sym(r, self.options_spec().wrapping),
            forall|x: int, y: int| r.contains_xy(x, y) ==> (#[trigger] r.at_xy(x, y)).any(),
            forall|x: int, y: int|
                r.contains_xy(x, y) ==> link_reachable(
                    r,
                    self.options_spec().wrapping,
                    (source.x as int, source.y as int),
                    x,
                    y,
                ),
            count_links(r.view(), r.view().len() as int) == 2 * (r.view().len() - 1),
    {
        let size = self.options.board_size as usize;
        let wrapping = self.options.wrapping;
        let opts = self.options;
        let ghost src = (source.x as int, source.y as int);

        proof {
            assert(size * size <= 400) by (nonlinear_arith)
                requires
                    size <= 20,
            ;
        }
        let mut proto: Grid<Links> = Grid::with_size(size, size, Links::default());
        let mut visited: Grid<bool> = Grid::with_size(size, size, false);
        let ghost v0 = visited;
        visited.set(source, true);
        let mut boundary: Vec<Vec2> = Vec::new();
        boundary.push(source);
        proof {
            lemma_link_source_reachable(proto, wrapping, src.0, src.1);
            assert(boundary@[0] == source);
            assert(link_sym(proto, wrapping)) by {
                assert forall|x: int, y: int, d: Direction|
                    proto.contains_xy(x, y) implies !(#[trigger] proto.at_xy(x, y).at(d)) by {
                    crate::grid::lemma_row_major_bounds(size as int, size as int, x, y);
                }
            }
            assert forall|x: int, y: int|
                proto.contains_xy(x, y) implies !(#[trigger] proto.at_xy(x, y)).any() by {
                crate::grid::lemma_row_major_bounds(size as int, size as int, x, y);
            }
            assert forall|i: int|
                0 <= i < proto.view().len() implies link_bit_count(#[trigger] proto.view()[i])
                    == 0 by {}
            lemma_count_links_zero(proto.view(), proto.view().len() as int);
            assert forall|x: int, y: int|
                visited.contains_xy(x, y) && (#[trigger] visited.at_xy(x, y))
                    implies (x, y) == src by {
                crate::grid::lemma_row_major_bounds(size as int, size as int, x, y);
            }
            assert forall|x: int, y: int, d: Direction|
                visited.contains_xy(x, y) && visited.at_xy(x, y) && #[trigger] cand(
                    visited,
                    wrapping,
                    x,
                    y,
                    d,
                ) implies boundary@.contains(Vec2 { x: x as i32, y: y as i32 }) by {
                assert((x, y) == src);
                assert(Vec2 { x: x as i32, y: y as i32 } == source);
                assert(boundary@.contains(source));
            }
            assert(gen_inv(opts, src, proto, visited, boundary@));
            // The boundary never outgrows the visited set: one cell is
            // visited and the boundary holds exactly that cell.
            assert forall|i: int| 0 <= i < v0.view().len() implies !(#[trigger] v0.view()[i]) by {}
            lemma_count_unvisited_full(v0.view(), v0.view().len() as int);
            crate::grid::lemma_row_major_bounds(size as int, size as int, src.0, src.1);
            lemma_count_unvisited_update(
                v0.view(),
                v0.index_xy(src.0, src.1),
                v0.view().len() as int,
            );
            assert(boundary@.len() + count_unvisited(
                visited.view(),
                visited.view().len() as int,
            ) <= visited.view().len());
            assert(count_links(proto.view(), proto.view().len() as int) == 2 * (
            visited.view().len() - count_unvisited(
                visited.view(),
                visited.view().len() as int,
            ) - 1));
        }

        #[verifier::loop_isolation(true)]
        loop
            invariant_except_break
                gen_inv(opts, src, proto, visited, boundary@),
                opts == self.options_spec(),
                wrapping == opts.wrapping,
                size == opts.board_size,
                src == (source.x as int, source.y as int),
                boundary@.len() + count_unvisited(
                    visited.view(),
                    visited.view().len() as int,
                ) <= visited.view().len(),
                count_links(proto.view(), proto.view().len() as int) == 2 * (
                visited.view().len() - count_unvisited(
                    visited.view(),
                    visited.view().len() as int,
                ) - 1),
            ensures
                gen_inv(opts, src, proto, visited, boundary@),
                count_links(proto.view(), proto.view().len() as int) == 2 * (
                visited.view().len() - count_unvisited(
                    visited.view(),
                    visited.view().len() as int,
                ) - 1),
                forall|x: int, y: int, d: Direction|
                    visited.contains_xy(x, y) && visited.at_xy(x, y) ==> !(#[trigger] cand(
                        visited,
                        wrapping,
                        x,
                        y,
                        d,
                    )),
            decreases count_unvisited(visited.view(), visited.view().len() as int),
        {
            // Scan the boundary for every possible growth step, and keep
            // the boundary cells that can still grow.
            let (connections, mut new_boundary) = scan_boundary(&boundary, &visited, wrapping);

            if connections.len() == 0 {
                proof {
                    lemma_no_candidates(opts, src, proto, visited, boundary@);
                }
                break;
            }

            // Weight each candidate by the shape its parent cell would take
            // and pick one growth step.
            proof {
                assert(visited.view().len() <= 400) by (nonlinear_arith)
                    requires
                        visited.view().len() == size * size,
                        size <= 20,
                ;
                assert(connections@.len() <= 1600);
            }
            let pick = self.pick_connection(&connections, &proto, Ghost(visited));
            let c = connections[pick];

            // Commit: set the link bit on both sides, mark the child
            // visited, and install the refreshed boundary.
            let ghost visited0 = visited;
            commit_connection(
                c,
                &mut proto,
                &mut visited,
                &mut new_boundary,
                Ghost(opts),
                Ghost(src),
                Ghost(boundary@),
            );
            boundary = new_boundary;
            proof {
                // One fewer cell is unvisited.
                crate::grid::lemma_row_major_bounds(
                    visited0.rows_spec(),
                    visited0.cols_spec(),
                    c.child.x as int,
                    c.child.y as int,
                );
                lemma_count_unvisited_update(
                    visited0.view(),
                    visited0.index_xy(c.child.x as int, c.child.y as int),
                    visited0.view().len() as int,
                );
                assert(boundary@.len() + count_unvisited(
                    visited.view(),
                    visited.view().len() as int,
                ) <= visited.view().len());
            }
        }

        // No cell can grow: the visited set is closed under on-grid steps,
        // so the whole board is visited and linked into the tree.
        proof {
            assert forall|x: int, y: int| proto.contains_xy(x, y) implies visited.at_xy(
                x,
                y,
            ) by {
                assert forall|a: int, b: int, dd: Direction|
                    visited.contains_xy(a, b) && (#[trigger] visited.at_xy(a, b))
                        && visited.contains_xy(
                        (#[trigger] step_xy(a, b, dd)).0,
                        step_xy(a, b, dd).1,
                    ) implies visited.at_xy(step_xy(a, b, dd).0, step_xy(a, b, dd).1) by {
                    let raw = step_xy(a, b, dd);
                    assert(!cand(visited, wrapping, a, b, dd));
                    if wrapping {
                        lemma_norm_identity(visited, raw.0, raw.1);
                    }
                }
                lemma_closure_all_visited(visited, src.0, src.1, x, y);
            }
            assert forall|i: int| 0 <= i < visited.view().len() implies #[trigger] visited.view()[i] by {
                let cols = visited.cols_spec();
                let x = i % cols;
                let y = i / cols;
                assert(0 <= x < cols && 0 <= y < visited.rows_spec() && y * cols + x == i)
                    by (nonlinear_arith)
                    requires
                        0 <= i < visited.rows_spec() * cols,
                        cols >= 1,
                        x == i % cols,
                        y == i / cols,
                ;
                assert(visited.at_xy(x, y));
            }
            lemma_count_unvisited_none(visited.view(), visited.view().len() as int);
            assert(count_links(proto.view(), proto.view().len() as int) == 2 * (
            proto.view().len() - 1));
            assert forall|x: int, y: int| proto.contains_xy(x, y) implies (
            #[trigger] proto.at_xy(x, y)).any() by {
                if (x, y) == src {
                    // At least one other cell is visited on a board of size
                    // three or more, so the source carries a link.
                    if !proto.at_xy(src.0, src.1).any() {
                        if src != (0int, 0int) {
                            assert(visited.at_xy(0, 0));
                            assert(false);
                        } else {
                            assert(visited.at_xy(1, 1));
                            assert(false);
                        }
                    }
                }
            }
        }
        proto
    }

    /// Create a new puzzle.
    ///
    /// The source is placed in the center; a spanning tree of pipe links
    /// grows outward from it and is decoded into tiles; walls go onto edges
    /// without pipe links; tile orientations are scrambled with the number
    /// of touched tiles recorded; and the initial energy state is computed.
    /// The result carries exactly one source tile, a square grid of the
    /// requested size, at most as many expected moves as there are
    /// rotatable tiles, and `powered` flags that match reachability.
    pub fn build(&self) -> (p: Puzzle)
        requires
            self.options_spec().wf(),
        ensures
            p.wf(),
            p.options_spec() == self.options_spec(),
            p.tiles_spec().rows_spec() == self.options_spec().board_size,
            p.tiles_spec().cols_spec() == self.options_spec().board_size,
            p.source_spec() == (Vec2 {
                x: (self.options_spec().board_size / 2) as i32,
                y: (self.options_spec().board_size / 2) as i32,
            }),
            p.expected_moves_spec() <= count_non_cross(
                p.tiles_spec().view(),
                p.tiles_spec().view().len() as int,
            ),
            forall|x: int, y: int|
                p.on_board(x, y) ==> ((#[trigger] p.tile_xy(x, y)).powered == p.reachable(x, y)),
    {
        // Place the source in the center.
        let center = self.options.board_size / 2;
        let source = Vec2::new(center as i32, center as i32);
        proof {
            assert(0 <= center < self.options.board_size) by (nonlinear_arith)
                requires
                    center == self.options_spec().board_size as int / 2,
                    3 <= self.options_spec().board_size <= 20,
            ;
        }

        // Grow the spanning tree and decode it into tiles.
        let links = self.create_grid_of_links(source);
        let mut tiles = tiles_from_links(&links, source);

        // Walls go only where the solved layout has no pipe link.
        let walls = self.create_walls(&tiles);
        proof {
            // Solvability is structural: the solved layout, as it stands
            // here before any scrambling, can feed energy to every tile.
            let solved = Puzzle::assemble(self.options, tiles, walls, source, 0);
            assert(solved.wf());
            assert forall|x: int, y: int|
                solved.on_board(x, y) implies link_reachable(
                links,
                solved.options_spec().wrapping,
                (solved.source_spec().x as int, solved.source_spec().y as int),
                x,
                y,
            ) by {
                assert(links.contains_xy(x, y));
            }
            crate::laws::lemma_solved_layout_fully_reachable(solved, links);
            assert(forall|x: int, y: int| solved.on_board(x, y) ==> solved.reachable(x, y));
        }

        // Scramble, counting touched tiles as expected moves.
        let ghost solved_tiles = tiles;
        let expected_moves = self.rotate_tiles(&mut tiles);
        proof {
            lemma_kinds_pointwise_to_seq(solved_tiles, tiles);
            lemma_count_non_cross_congruence(
                solved_tiles.view(),
                tiles.view(),
                tiles.view().len() as int,
            );
        }

        let mut puzzle = Puzzle::new(self.options, tiles, walls, source, expected_moves);
        let ghost before = puzzle;
        puzzle.calc_energy();
        proof {
            // Energy recomputation leaves the topology alone, so the
            // reachability the powered flags were computed against is the
            // reachability of the returned puzzle.
            assert forall|x: int, y: int|
                before.on_board(x, y) implies {
                &&& (#[trigger] before.tile_xy(x, y)).kind == puzzle.tile_xy(x, y).kind
                &&& before.tile_xy(x, y).orientation == puzzle.tile_xy(x, y).orientation
            } by {
                assert(puzzle.tile_xy(x, y) == before.tile_xy(x, y).with_powered(
                    puzzle.tile_xy(x, y).powered,
                ));
            }
            assert(before.same_topology(puzzle));
            assert(puzzle.same_topology(before));
            assert forall|x: int, y: int|
                puzzle.on_board(x, y) implies ((#[trigger] puzzle.tile_xy(x, y)).powered
                == puzzle.reachable(x, y)) by {
                if before.reachable(x, y) {
                    crate::puzzle::lemma_same_topology_reachable(before, puzzle, x, y);
                }
                if puzzle.reachable(x, y) {
                    crate::puzzle::lemma_same_topology_reachable(puzzle, before, x, y);
                }
            }
            assert forall|x: int, y: int|
                before.tiles_spec().contains_xy(x, y) implies (#[trigger] before.tiles_spec()
                .at_xy(x, y)).kind == puzzle.tiles_spec().at_xy(x, y).kind by {
                assert(before.tile_xy(x, y).kind == puzzle.tile_xy(x, y).kind);
            }
            lemma_kinds_pointwise_to_seq(before.tiles_spec(), puzzle.tiles_spec());
            lemma_count_non_cross_congruence(
                before.tiles_spec().view(),
                puzzle.tiles_spec().view(),
                puzzle.tiles_spec().view().len() as int,
            );
        }
        puzzle
    }

    /// Randomly place some walls.
    ///
    /// Must be called on the solved grid of tiles, before any scrambling:
    /// walls are placed only on edges that carry no pipe link in the
    /// solution, so no wall ever disconnects the spanning tree. The number
    /// of walls is drawn around six percent of the eligible edge count.
    pub fn create_walls(&self, tiles: &Grid<Tile>) -> (r: Vec<Wall>)
        requires
            tiles.wf(),
            1 <= tiles.rows_spec() <= 20,
            1 <= tiles.cols_spec() <= 20,
        ensures
            forall|i: int|
                0 <= i < r@.len() ==> wall_site_ok(
                    *tiles,
                    self.options_spec().wrapping,
                    #[trigger] r@[i],
                ),
            forall|i: int, j: int| 0 <= i < j < r@.len() ==> r@[i] != r@[j],
    {
        let rows = tiles.rows();
        let cols = tiles.cols();
        let mut eligible: Vec<Wall> = Vec::new();
        let mut y: usize = 0;
        while y < rows
            invariant
                tiles.wf(),
                rows == tiles.rows_spec(),
                cols == tiles.cols_spec(),
                1 <= rows <= 20,
                1 <= cols <= 20,
                y <= rows,
                eligible@.len() <= 2 * y * cols,
                forall|i: int|
                    0 <= i < eligible@.len() ==> wall_site_ok(
                        *tiles,
                        self.options_spec().wrapping,
                        #[trigger] eligible@[i],
                    ),
                forall|i: int|
                    0 <= i < eligible@.len() ==> wall_site_key(#[trigger] eligible@[i], cols as int)
                        < 2 * (y * cols),
                forall|i: int, j: int|
                    0 <= i < j < eligible@.len() ==> wall_site_key(eligible@[i], cols as int)
                        < wall_site_key(eligible@[j], cols as int),
            decreases rows - y,
        {
            let mut x: usize = 0;
            while x < cols
                invariant
                    tiles.wf(),
                    rows == tiles.rows_spec(),
                    cols == tiles.cols_spec(),
                    1 <= rows <= 20,
                    1 <= cols <= 20,
                    y < rows,
                    x <= cols,
                    eligible@.len() <= 2 * y * cols + 2 * x,
                    forall|i: int|
                        0 <= i < eligible@.len() ==> wall_site_ok(
                            *tiles,
                            self.options_spec().wrapping,
                            #[trigger] eligible@[i],
                        ),
                    forall|i: int|
                        0 <= i < eligible@.len() ==> wall_site_key(
                            #[trigger] eligible@[i],
                            cols as int,
                        ) < 2 * (y * cols + x),
                    forall|i: int, j: int|
                        0 <= i < j < eligible@.len() ==> wall_site_key(eligible@[i], cols as int)
                            < wall_site_key(eligible@[j], cols as int),
                decreases cols - x,
            {
                let coord = Vec2::new(x as i32, y as i32);
                let t = match tiles.get(coord) {
                    Some(t) => *t,
                    None => Tile {
                        kind: Kind::DeadEnd,
                        feature: Feature::Empty,
                        orientation: crate::tile::Orientation::Basic,
                        powered: false,
                    },  // unreachable: the coordinate is on the grid
                };
                // The top edge of the tile.
                if (self.options.wrapping || y != 0) && !t.has_link(Direction::Up) {
                    eligible.push(Wall { position: coord, alignment: Alignment::Horizontal });
                }
                // The left edge of the tile.
                if (self.options.wrapping || x != 0) && !t.has_link(Direction::Left) {
                    eligible.push(Wall { position: coord, alignment: Alignment::Vertical });
                }
                x = x + 1;
            }
            proof {
                assert(2 * y * cols + 2 * cols == 2 * (y + 1) * cols) by (nonlinear_arith);
                assert(2 * (y * cols + cols) == 2 * ((y + 1) * cols)) by (nonlinear_arith);
            }
            y = y + 1;
        }
        proof {
            assert(2 * rows * cols <= 800) by (nonlinear_arith)
                requires
                    1 <= rows <= 20,
                    1 <= cols <= 20,
            ;
        }
        proof {
            // Strictly increasing keys make the eligible sites pairwise
            // distinct.
            assert forall|i: int, j: int|
                0 <= i < j < eligible@.len() implies eligible@[i] != eligible@[j] by {
                assert(wall_site_key(eligible@[i], cols as int) < wall_site_key(
                    eligible@[j],
                    cols as int,
                ));
            }
        }
        let count = draw_count(eligible.len(), 6, 100, 5);
        let picks = sample_indices(eligible.len(), count);
        let mut walls: Vec<Wall> = Vec::new();
        let mut i: usize = 0;
        while i < picks.len()
            invariant
                i <= picks@.len(),
                walls@.len() == i,
                forall|j: int| 0 <= j < picks@.len() ==> (#[trigger] picks@[j]) < eligible@.len(),
                forall|j1: int, j2: int|
                    0 <= j1 < j2 < picks@.len() ==> picks@[j1] != picks@[j2],
                forall|j1: int, j2: int|
                    0 <= j1 < j2 < eligible@.len() ==> eligible@[j1] != eligible@[j2],
                forall|j: int|
                    0 <= j < eligible@.len() ==> wall_site_ok(
                        *tiles,
                        self.options_spec().wrapping,
                        #[trigger] eligible@[j],
                    ),
                forall|j: int|
                    0 <= j < walls@.len() ==> (#[trigger] walls@[j]) == eligible@[
                        picks@[j] as int
                    ],
                forall|j: int|
                    0 <= j < walls@.len() ==> wall_site_ok(
                        *tiles,
                        self.options_spec().wrapping,
                        #[trigger] walls@[j],
                    ),
            decreases picks@.len() - i,
        {
            let w = eligible[picks[i]];
            walls.push(w);
            i = i + 1;
        }
        proof {
            assert forall|i: int, j: int|
                0 <= i < j < walls@.len() implies walls@[i] != walls@[j] by {
                assert(walls@[i] == eligible@[picks@[i] as int]);
                assert(walls@[j] == eligible@[picks@[j] as int]);
                assert(picks@[i] != picks@[j]);
            }
        }
        walls
    }

    /// Randomly rotate some tiles to jumble the solved puzzle.
    ///
    /// Tiles whose shape is the cross are never touched: a cross looks the
    /// same in every rotation, so turning it is no move. A straight tile is
    /// rotated exactly once (it has only two distinct orientations); any
    /// other selected tile is rotated one to three times, so every selected
    /// tile is actually displaced. The returned count is the number of tiles
    /// selected — equal to the number of tiles whose orientation changed —
    /// not the number of quarter turns: fixing one tile is one move.
    pub fn rotate_tiles(&self, tiles: &mut Grid<Tile>) -> (r: u32)
        requires
            old(tiles).wf(),
            1 <= old(tiles).rows_spec() <= 20,
            1 <= old(tiles).cols_spec() <= 20,
        ensures
            final(tiles).wf(),
            final(tiles).rows_spec() == old(tiles).rows_spec(),
            final(tiles).cols_spec() == old(tiles).cols_spec(),
            forall|x: int, y: int|
                final(tiles).contains_xy(x, y) ==> {
                    &&& (#[trigger] final(tiles).at_xy(x, y)).kind == old(tiles).at_xy(x, y).kind
                    &&& final(tiles).at_xy(x, y).feature == old(tiles).at_xy(x, y).feature
                    &&& final(tiles).at_xy(x, y).powered == old(tiles).at_xy(x, y).powered
                },
            forall|x: int, y: int|
                final(tiles).contains_xy(x, y) && old(tiles).at_xy(
                    x,
                    y,
                ).kind is CrossIntersection ==> #[trigger] final(tiles).at_xy(x, y) == old(
                    tiles,
                ).at_xy(x, y),
            forall|x: int, y: int|
                final(tiles).contains_xy(x, y) && old(tiles).at_xy(x, y).kind is Straight ==> ((
                #[trigger] final(tiles).at_xy(x, y)).orientation == old(tiles).at_xy(
                    x,
                    y,
                ).orientation || final(tiles).at_xy(x, y).orientation == old(tiles).at_xy(
                    x,
                    y,
                ).orientation.next_ccw_spec()),
            r <= count_non_cross(old(tiles).view(), old(tiles).view().len() as int),
            r == count_displaced(
                old(tiles).view(),
                final(tiles).view(),
                final(tiles).view().len() as int,
            ),
    {
        let rows = tiles.rows();
        let cols = tiles.cols();
        let ghost t0 = *tiles;
        let ghost total = t0.view().len() as int;

        // Collect the coordinates of every rotatable tile, in row-major
        // order; they are pairwise distinct.
        let mut rotatable: Vec<Vec2> = Vec::new();
        let mut y: usize = 0;
        while y < rows
            invariant
                tiles.wf(),
                *tiles == t0,
                rows == tiles.rows_spec(),
                cols == tiles.cols_spec(),
                y <= rows,
                rotatable@.len() == count_non_cross(tiles.view(), y * cols),
                forall|j: int|
                    0 <= j < rotatable@.len() ==> tiles.contains_spec(#[trigger] rotatable@[j]),
                forall|j: int|
                    0 <= j < rotatable@.len() ==> !(t0.at(#[trigger] rotatable@[j])
                        .kind is CrossIntersection),
                forall|j: int|
                    0 <= j < rotatable@.len() ==> ((#[trigger] rotatable@[j]).y as int) * cols
                        + (rotatable@[j].x as int) < y * cols,
                forall|j1: int, j2: int|
                    0 <= j1 < j2 < rotatable@.len() ==> rotatable@[j1] != rotatable@[j2],
            decreases rows - y,
        {
            let mut x: usize = 0;
            while x < cols
                invariant
                    tiles.wf(),
                    *tiles == t0,
                    rows == tiles.rows_spec(),
                    cols == tiles.cols_spec(),
                    y < rows,
                    x <= cols,
                    rotatable@.len() == count_non_cross(tiles.view(), y * cols + x),
                    forall|j: int|
                        0 <= j < rotatable@.len() ==> tiles.contains_spec(
                            #[trigger] rotatable@[j],
                        ),
                    forall|j: int|
                        0 <= j < rotatable@.len() ==> !(t0.at(#[trigger] rotatable@[j])
                            .kind is CrossIntersection),
                    forall|j: int|
                        0 <= j < rotatable@.len() ==> ((#[trigger] rotatable@[j]).y as int) * cols
                            + (rotatable@[j].x as int) < y * cols + x,
                    forall|j1: int, j2: int|
                        0 <= j1 < j2 < rotatable@.len() ==> rotatable@[j1] != rotatable@[j2],
                decreases cols - x,
            {
                let coord = Vec2::new(x as i32, y as i32);
                proof {
                    crate::grid::lemma_row_major_bounds(rows as int, cols as int, x as int, y as int);
                }
                let t = match tiles.get(coord) {
                    Some(t) => *t,
                    None => Tile {
                        kind: Kind::CrossIntersection,
                        feature: Feature::Empty,
                        orientation: crate::tile::Orientation::Basic,
                        powered: false,
                    },  // unreachable: the coordinate is on the grid
                };
                match t.kind {
                    Kind::CrossIntersection => {},
                    _ => {
                        rotatable.push(coord);
                    },
                }
                x = x + 1;
            }
            proof {
                assert(y * cols + cols == (y + 1) * cols) by (nonlinear_arith);
            }
            y = y + 1;
        }
        proof {
            lemma_count_non_cross_le(tiles.view(), (rows * cols) as int);
            assert(rows * cols <= 400) by (nonlinear_arith)
                requires
                    1 <= rows <= 20,
                    1 <= cols <= 20,
            ;
            lemma_count_displaced_refl(t0.view(), total);
        }

        // Draw how many tiles to displace, and pick them without
        // replacement.
        let count = draw_count(rotatable.len(), 8, 10, 10);
        let picks = sample_indices(rotatable.len(), count);
        let expected_moves = picks.len();

        let mut i: usize = 0;
        while i < picks.len()
            invariant
                tiles.wf(),
                rows == tiles.rows_spec(),
                cols == tiles.cols_spec(),
                rows == t0.rows_spec(),
                cols == t0.cols_spec(),
                t0.wf(),
                total == tiles.view().len(),
                total == t0.view().len(),
                i <= picks@.len(),
                forall|j: int| 0 <= j < picks@.len() ==> (#[trigger] picks@[j]) < rotatable@.len(),
                forall|j1: int, j2: int|
                    0 <= j1 < j2 < picks@.len() ==> picks@[j1] != picks@[j2],
                forall|j: int|
                    0 <= j < rotatable@.len() ==> tiles.contains_spec(#[trigger] rotatable@[j]),
                forall|j: int|
                    0 <= j < rotatable@.len() ==> !(t0.at(#[trigger] rotatable@[j])
                        .kind is CrossIntersection),
                forall|j1: int, j2: int|
                    0 <= j1 < j2 < rotatable@.len() ==> rotatable@[j1] != rotatable@[j2],
                forall|x: int, y: int|
                    tiles.contains_xy(x, y) ==> {
                        &&& (#[trigger] tiles.at_xy(x, y)).kind == t0.at_xy(x, y).kind
                        &&& tiles.at_xy(x, y).feature == t0.at_xy(x, y).feature
                        &&& tiles.at_xy(x, y).powered == t0.at_xy(x, y).powered
                    },
                forall|x: int, y: int|
                    tiles.contains_xy(x, y) && t0.at_xy(x, y).kind is CrossIntersection
                        ==> #[trigger] tiles.at_xy(x, y) == t0.at_xy(x, y),
                forall|x: int, y: int|
                    tiles.contains_xy(x, y) && t0.at_xy(x, y).kind is Straight ==> ((
                    #[trigger] tiles.at_xy(x, y)).orientation == t0.at_xy(x, y).orientation
                        || tiles.at_xy(x, y).orientation == t0.at_xy(
                        x,
                        y,
                    ).orientation.next_ccw_spec()),
                count_displaced(t0.view(), tiles.view(), total) == i,
                forall|j: int|
                    i <= j < picks@.len() ==> {
                        let cc = rotatable@[#[trigger] picks@[j] as int];
                        tiles.at_xy(cc.x as int, cc.y as int) == t0.at_xy(
                            cc.x as int,
                            cc.y as int,
                        )
                    },
            decreases picks@.len() - i,
        {
            let coord = rotatable[picks[i]];
            let t = match tiles.get(coord) {
                Some(t) => *t,
                None => Tile {
                    kind: Kind::CrossIntersection,
                    feature: Feature::Empty,
                    orientation: crate::tile::Orientation::Basic,
                    powered: false,
                },  // unreachable: the coordinate is on the grid
            };
            // One quarter turn suffices to displace a straight tile; any
            // other tile takes one to three turns, never zero, so every
            // selected tile is displaced.
            let orientation = match t.kind {
                Kind::Straight => t.orientation.next_ccw(),
                _ => {
                    let extra = rand_below(3);
                    if extra == 0 {
                        t.orientation.next_ccw()
                    } else if extra == 1 {
                        t.orientation.next_ccw().next_ccw()
                    } else {
                        t.orientation.next_ccw().next_ccw().next_ccw()
                    }
                },
            };
            proof {
                assert(orientation != t.orientation);
                assert(tiles.at(coord) == t0.at(coord));
                crate::grid::lemma_row_major_bounds(
                    rows as int,
                    cols as int,
                    coord.x as int,
                    coord.y as int,
                );
            }
            let ghost pre = *tiles;
            tiles.set(
                coord,
                Tile { kind: t.kind, feature: t.feature, orientation, powered: t.powered },
            );
            proof {
                assert(t0.view()[pre.index_xy(coord.x as int, coord.y as int)]
                    == t0.at_xy(coord.x as int, coord.y as int));
                assert(pre.view()[pre.index_xy(coord.x as int, coord.y as int)]
                    == pre.at_xy(coord.x as int, coord.y as int));
                lemma_count_displaced_update(
                    t0.view(),
                    pre.view(),
                    pre.index_xy(coord.x as int, coord.y as int),
                    tiles.at(coord),
                    total,
                );
                assert forall|x: int, y: int| tiles.contains_xy(x, y) implies {
                    &&& (#[trigger] tiles.at_xy(x, y)).kind == t0.at_xy(x, y).kind
                    &&& tiles.at_xy(x, y).feature == t0.at_xy(x, y).feature
                    &&& tiles.at_xy(x, y).powered == t0.at_xy(x, y).powered
                } by {
                    if (x, y) != (coord.x as int, coord.y as int) {
                        assert(tiles.at_xy(x, y) == pre.at_xy(x, y));
                    }
                }
                // Cross tiles are never selected, so they keep their value.
                assert forall|x: int, y: int|
                    tiles.contains_xy(x, y) && t0.at_xy(x, y).kind is CrossIntersection
                        implies #[trigger] tiles.at_xy(x, y) == t0.at_xy(x, y) by {
                    assert((x, y) != (coord.x as int, coord.y as int));
                    assert(tiles.at_xy(x, y) == pre.at_xy(x, y));
                }
                // A straight tile is displaced by exactly one quarter turn.
                assert forall|x: int, y: int|
                    tiles.contains_xy(x, y) && t0.at_xy(x, y).kind is Straight implies ((
                #[trigger] tiles.at_xy(x, y)).orientation == t0.at_xy(x, y).orientation
                    || tiles.at_xy(x, y).orientation == t0.at_xy(
                    x,
                    y,
                ).orientation.next_ccw_spec()) by {
                    if (x, y) != (coord.x as int, coord.y as int) {
                        assert(tiles.at_xy(x, y) == pre.at_xy(x, y));
                    }
                }
                // Future picks are still untouched: they name other cells.
                assert forall|j: int|
                    i + 1 <= j < picks@.len() implies {
                        let cc = rotatable@[#[trigger] picks@[j] as int];
                        tiles.at_xy(cc.x as int, cc.y as int) == t0.at_xy(
                            cc.x as int,
                            cc.y as int,
                        )
                    } by {
                    let cc = rotatable@[picks@[j] as int];
                    assert(picks@[j] != picks@[i as int]);
                    assert(cc != coord);
                    assert(tiles.at_xy(cc.x as int, cc.y as int) == pre.at_xy(
                        cc.x as int,
                        cc.y as int,
                    ));
                }
            }
            i = i + 1;
        }
        proof {
            lemma_count_non_cross_congruence(
                t0.view(),
                old(tiles).view(),
                old(tiles).view().len() as int,
            );
        }
        expected_moves as u32
    }
}

impl Default for Builder {
    /// A builder with the default options.
    fn default() -> (r: Builder)
        ensures
            r.options_spec() == (Options {
                board_size: 3,
                difficulty: Difficulty::Easy,
                wrapping: false,
            }),
    {
        Builder { options: Options::default() }
    }
}

} // verus!
