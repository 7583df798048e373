//! Maze generation: grows a spanning tree of connected rooms over a
//! rectangular grid, carving bidirectional passages from a seeded
//! pseudo-random generator that is re-seeded from a counter on every draw,
//! so that a seed reproduces its maze exactly.
use vstd::prelude::*;

use rand::Rng;
use rand::SeedableRng;

verus! {

/// Tile that represents a room.  A flag value of 1 marks a carved passage
/// in that direction; `left`/`right` step along the grid's first index,
/// `down`/`up` along the second.
#[derive(Clone, Copy, Debug, PartialEq, Eq, Structural)]
pub struct Tile {
    pub up: u8,
    pub down: u8,
    pub left: u8,
    pub right: u8,
}

/// Scale of the branching probability: a `rand_level` of `RAND_SCALE`
/// means the grown cell is always picked at random, 0 means depth-first
/// growth from the most recent cell.
pub const RAND_SCALE: u64 = 1000000;

/// What one re-seeded draw yields for a given seed counter and bound.
pub uninterp spec fn small_draw(seed: u64, bound: u64) -> u64;

/// Relies on rand::rngs::SmallRng::seed_from_u64 and rand::Rng::gen_range:
/// seeding is a pure function of the seed value, and sampling `0..bound`
/// advances the generator deterministically and returns a value below the
/// bound (gen_range panics only on an empty range, ruled out here).
#[verifier::external_body]
fn draw_below(seed: u64, bound: u64) -> (r: u64)
    requires
        1 <= bound,
    ensures
        r == small_draw(seed, bound),
        r < bound,
{
    let mut rng = rand::rngs::SmallRng::seed_from_u64(seed);
    rng.gen_range(0..bound)
}

/// The grid as a sequence of rows of optional tiles.
pub open spec fn grid_view(t: Vec<Vec<Option<Tile>>>) -> Seq<Seq<Option<Tile>>> {
    t@.map_values(|r: Vec<Option<Tile>>| r@)
}

/// The cell of a grid at a position; used as the quantifier trigger for
/// the grid-wide invariants so that facts about one cell do not cascade
/// into facts about its neighbors.
pub open spec fn tile_at(g: Seq<Seq<Option<Tile>>>, x: int, y: int) -> Option<Tile> {
    g[x][y]
}

/// A rectangular grid of the given dimensions.
pub open spec fn grid_dims(g: Seq<Seq<Option<Tile>>>, height: int, width: int) -> bool {
    &&& g.len() == height
    &&& forall|x: int| 0 <= x < height ==> #[trigger] g[x].len() == width
}

/// Number of uncarved cells in one row.
pub open spec fn row_none_count(r: Seq<Option<Tile>>) -> nat
    decreases r.len(),
{
    if r.len() == 0 {
        0
    } else {
        row_none_count(r.drop_last()) + (if r.last() is None {
            1nat
        } else {
            0nat
        })
    }
}

/// Number of uncarved cells in the first `n` rows.
pub open spec fn none_count_upto(g: Seq<Seq<Option<Tile>>>, n: int) -> nat
    decreases n,
{
    if n <= 0 {
        0
    } else {
        none_count_upto(g, n - 1) + row_none_count(g[n - 1])
    }
}

/// Number of uncarved cells in the whole grid.
pub open spec fn none_count(g: Seq<Seq<Option<Tile>>>) -> nat {
    none_count_upto(g, g.len() as int)
}

/// Carved-edge contribution of one cell: each edge of the maze is counted
/// exactly once, on the tile carrying its `left` or `up` flag.
pub open spec fn cell_edge_flags(t: Option<Tile>) -> nat {
    match t {
        Some(t) => (if t.left == 1 {
            1nat
        } else {
            0nat
        }) + (if t.up == 1 {
            1nat
        } else {
            0nat
        }),
        None => 0,
    }
}

/// Carved edges owned by one row.
pub open spec fn row_edge_count(r: Seq<Option<Tile>>) -> nat
    decreases r.len(),
{
    if r.len() == 0 {
        0
    } else {
        row_edge_count(r.drop_last()) + cell_edge_flags(r.last())
    }
}

/// Carved edges owned by the first `n` rows.
pub open spec fn edge_count_upto(g: Seq<Seq<Option<Tile>>>, n: int) -> nat
    decreases n,
{
    if n <= 0 {
        0
    } else {
        edge_count_upto(g, n - 1) + row_edge_count(g[n - 1])
    }
}

/// Carved edges in the whole grid, each bidirectional edge counted once.
pub open spec fn edge_count(g: Seq<Seq<Option<Tile>>>) -> nat {
    edge_count_upto(g, g.len() as int)
}

/// How one cell update moves a row's uncarved-cell count.
proof fn lemma_row_none_update(r: Seq<Option<Tile>>, i: int, v: Option<Tile>)
    requires
        0 <= i < r.len(),
    ensures
        row_none_count(r.update(i, v)) + (if r[i] is None {
            1nat
        } else {
            0nat
        }) == row_none_count(r) + (if v is None {
            1nat
        } else {
            0nat
        }),
    decreases r.len(),
{
    if i == r.len() - 1 {
        assert(r.update(i, v).drop_last() =~= r.drop_last());
        assert(r.update(i, v).last() == v);
    } else {
        assert(r.update(i, v).drop_last() =~= r.drop_last().update(i, v));
        assert(r.update(i, v).last() == r.last());
        lemma_row_none_update(r.drop_last(), i, v);
    }
}

/// How one cell update moves a row's edge count.
proof fn lemma_row_edge_update(r: Seq<Option<Tile>>, i: int, v: Option<Tile>)
    requires
        0 <= i < r.len(),
    ensures
        row_edge_count(r.update(i, v)) + cell_edge_flags(r[i]) == row_edge_count(r)
            + cell_edge_flags(v),
    decreases r.len(),
{
    if i == r.len() - 1 {
        assert(r.update(i, v).drop_last() =~= r.drop_last());
        assert(r.update(i, v).last() == v);
    } else {
        assert(r.update(i, v).drop_last() =~= r.drop_last().update(i, v));
        assert(r.update(i, v).last() == r.last());
        lemma_row_edge_update(r.drop_last(), i, v);
    }
}

/// How one row update moves the grid's counts over a prefix.
proof fn lemma_counts_upto_update(g: Seq<Seq<Option<Tile>>>, x: int, row: Seq<Option<Tile>>, n: int)
    requires
        0 <= x < g.len(),
        n <= g.len(),
    ensures
        x < n ==> none_count_upto(g.update(x, row), n) + row_none_count(g[x]) == none_count_upto(
            g,
            n,
        ) + row_none_count(row) && edge_count_upto(g.update(x, row), n) + row_edge_count(g[x])
            == edge_count_upto(g, n) + row_edge_count(row),
        x >= n ==> none_count_upto(g.update(x, row), n) == none_count_upto(g, n)
            && edge_count_upto(g.update(x, row), n) == edge_count_upto(g, n),
    decreases n,
{
    if n > 0 {
        lemma_counts_upto_update(g, x, row, n - 1);
        if x == n - 1 {
            assert(g.update(x, row)[n - 1] == row);
        } else {
            assert(g.update(x, row)[n - 1] == g[n - 1]);
        }
    }
}

/// How one cell update moves the whole grid's counts.
pub proof fn lemma_counts_cell_update(g: Seq<Seq<Option<Tile>>>, x: int, y: int, v: Option<Tile>)
    requires
        0 <= x < g.len(),
        0 <= y < g[x].len(),
    ensures
        none_count(g.update(x, g[x].update(y, v))) + (if g[x][y] is None {
            1nat
        } else {
            0nat
        }) == none_count(g) + (if v is None {
            1nat
        } else {
            0nat
        }),
        edge_count(g.update(x, g[x].update(y, v))) + cell_edge_flags(g[x][y]) == edge_count(g)
            + cell_edge_flags(v),
{
    lemma_row_none_update(g[x], y, v);
    lemma_row_edge_update(g[x], y, v);
    lemma_counts_upto_update(g, x, g[x].update(y, v), g.len() as int);
}

/// Two cells are grid-adjacent: they differ by one step in exactly one
/// coordinate.
pub open spec fn adjacent(a: (usize, usize), b: (usize, usize)) -> bool {
    ||| (a.0 == b.0 && (a.1 + 1 == b.1 || b.1 + 1 == a.1))
    ||| (a.1 == b.1 && (a.0 + 1 == b.0 || b.0 + 1 == a.0))
}

/// Cell `p` lies inside a height x width grid.
pub open spec fn in_grid(p: (usize, usize), height: int, width: int) -> bool {
    p.0 < height && p.1 < width
}

/// Every carved flag is 0 or 1 and points at a carved neighbor that
/// mirrors it with the opposite flag; passages never leave the grid.
pub open spec fn tiles_consistent(g: Seq<Seq<Option<Tile>>>, height: int, width: int) -> bool {
    forall|x: int, y: int|
        #![trigger tile_at(g, x, y)]
        0 <= x < height && 0 <= y < width && tile_at(g, x, y) is Some ==> {
            let t = tile_at(g, x, y)->0;
            &&& t.left <= 1 && t.right <= 1 && t.up <= 1 && t.down <= 1
            &&& t.left == 1 ==> x > 0 && g[x - 1][y] is Some && g[x - 1][y]->0.right == 1
            &&& t.right == 1 ==> x < height - 1 && g[x + 1][y] is Some && g[x + 1][y]->0.left == 1
            &&& t.down == 1 ==> y > 0 && g[x][y - 1] is Some && g[x][y - 1]->0.up == 1
            &&& t.up == 1 ==> y < width - 1 && g[x][y + 1] is Some && g[x][y + 1]->0.down == 1
        }
}

/// Every in-grid neighbor of every carved cell is carved.
pub open spec fn region_closed(g: Seq<Seq<Option<Tile>>>, height: int, width: int) -> bool {
    forall|x: int, y: int|
        #![trigger tile_at(g, x, y)]
        0 <= x < height && 0 <= y < width && tile_at(g, x, y) is Some ==> {
            &&& x > 0 ==> g[x - 1][y] is Some
            &&& x < height - 1 ==> g[x + 1][y] is Some
            &&& y > 0 ==> g[x][y - 1] is Some
            &&& y < width - 1 ==> g[x][y + 1] is Some
        }
}

/// In a closed carved region containing the origin, the whole first
/// column is carved.
proof fn lemma_closed_col(g: Seq<Seq<Option<Tile>>>, height: int, width: int, x: int)
    requires
        grid_dims(g, height, width),
        width > 0,
        region_closed(g, height, width),
        g[0][0] is Some,
        0 <= x < height,
    ensures
        g[x][0] is Some,
    decreases x,
{
    if x > 0 {
        lemma_closed_col(g, height, width, x - 1);
        assert(tile_at(g, x - 1, 0) == g[x - 1][0]);
        assert(tile_at(g, x - 1, 0) is Some);
    }
}

/// In a closed carved region containing the origin, every cell is carved.
proof fn lemma_closed_all(g: Seq<Seq<Option<Tile>>>, height: int, width: int, x: int, y: int)
    requires
        grid_dims(g, height, width),
        width > 0,
        region_closed(g, height, width),
        g[0][0] is Some,
        0 <= x < height,
        0 <= y < width,
    ensures
        g[x][y] is Some,
    decreases y,
{
    if y == 0 {
        lemma_closed_col(g, height, width, x);
    } else {
        lemma_closed_all(g, height, width, x, y - 1);
        assert(tile_at(g, x, y - 1) == g[x][y - 1]);
        assert(tile_at(g, x, y - 1) is Some);
    }
}

/// Returns the positions of the uncarved tiles adjacent to the given
/// tile, bounds-checked: exactly the in-grid neighbors still holding
/// `None`.
fn get_adjacent_empty(tilepos: (usize, usize), tiles: &Vec<Vec<Option<Tile>>>) -> (empty_tiles: Vec<
    (usize, usize),
>)
    requires
        tilepos.0 < usize::MAX,
        tilepos.1 < usize::MAX,
    ensures
        forall|t: int|
            0 <= t < empty_tiles@.len() ==> {
                let p = #[trigger] empty_tiles@[t];
                &&& adjacent(tilepos, p)
                &&& p.0 < grid_view(*tiles).len()
                &&& p.1 < grid_view(*tiles)[p.0 as int].len()
                &&& grid_view(*tiles)[p.0 as int][p.1 as int] is None
            },
        forall|p: (usize, usize)|
            #![trigger adjacent(tilepos, p)]
            adjacent(tilepos, p) && p.0 < grid_view(*tiles).len() && p.1 < grid_view(
                *tiles,
            )[p.0 as int].len() && grid_view(*tiles)[p.0 as int][p.1 as int] is None
                ==> empty_tiles@.contains(p),
        forall|t1: int, t2: int|
            #![trigger empty_tiles@[t1], empty_tiles@[t2]]
            0 <= t1 < t2 < empty_tiles@.len() ==> empty_tiles@[t1] != empty_tiles@[t2],
        empty_tiles@.len() <= 4,
{
    let mut tiles_adjacent: Vec<(usize, usize)> = Vec::new();
    tiles_adjacent.push((tilepos.0 + 1, tilepos.1));
    tiles_adjacent.push((tilepos.0, tilepos.1 + 1));
    if tilepos.0 > 0 {
        tiles_adjacent.push((tilepos.0 - 1, tilepos.1));
    }
    if tilepos.1 > 0 {
        tiles_adjacent.push((tilepos.0, tilepos.1 - 1));
    }
    proof {
        // the candidate neighbors are four distinct positions
        assert forall|u1: int, u2: int|
            #![trigger tiles_adjacent@[u1], tiles_adjacent@[u2]]
            0 <= u1 < u2 < tiles_adjacent@.len() implies tiles_adjacent@[u1]
            != tiles_adjacent@[u2] by {}
    }
    let mut empty_tiles: Vec<(usize, usize)> = Vec::new();
    let mut t: usize = 0;
    while t < tiles_adjacent.len()
        invariant
            0 <= t <= tiles_adjacent@.len(),
            tiles_adjacent@.len() <= 4,
            empty_tiles@.len() <= t,
            forall|u: int|
                0 <= u < tiles_adjacent@.len() ==> adjacent(tilepos, #[trigger] tiles_adjacent@[u]),
            forall|u: int|
                0 <= u < empty_tiles@.len() ==> {
                    let p = #[trigger] empty_tiles@[u];
                    &&& adjacent(tilepos, p)
                    &&& p.0 < grid_view(*tiles).len()
                    &&& p.1 < grid_view(*tiles)[p.0 as int].len()
                    &&& grid_view(*tiles)[p.0 as int][p.1 as int] is None
                },
            forall|u: int|
                0 <= u < t ==> {
                    let p = #[trigger] tiles_adjacent@[u];
                    (p.0 < grid_view(*tiles).len() && p.1 < grid_view(*tiles)[p.0 as int].len()
                        && grid_view(*tiles)[p.0 as int][p.1 as int] is None)
                        ==> empty_tiles@.contains(p)
                },
            forall|u1: int, u2: int|
                #![trigger tiles_adjacent@[u1], tiles_adjacent@[u2]]
                0 <= u1 < u2 < tiles_adjacent@.len() ==> tiles_adjacent@[u1] != tiles_adjacent@[u2],
            forall|u: int|
                0 <= u < empty_tiles@.len() ==> exists|t2: int|
                    0 <= t2 < t && (#[trigger] tiles_adjacent@[t2]) == (
                    #[trigger] empty_tiles@[u]),
            forall|u1: int, u2: int|
                #![trigger empty_tiles@[u1], empty_tiles@[u2]]
                0 <= u1 < u2 < empty_tiles@.len() ==> empty_tiles@[u1] != empty_tiles@[u2],
        decreases tiles_adjacent@.len() - t,
    {
        let adjacent_tile = tiles_adjacent[t];
        if adjacent_tile.0 < tiles.len() && adjacent_tile.1 < tiles[adjacent_tile.0].len() {
            proof {
                assert(grid_view(*tiles)[adjacent_tile.0 as int] == tiles@[adjacent_tile.0 as int]@);
            }
            match tiles[adjacent_tile.0][adjacent_tile.1] {
                Some(_) => (),
                None => {
                    let ghost prev = empty_tiles@;
                    empty_tiles.push((adjacent_tile.0, adjacent_tile.1));
                    proof {
                        assert(empty_tiles@.last() == adjacent_tile);
                        assert(empty_tiles@.contains(adjacent_tile));
                        assert forall|u: int|
                            0 <= u < prev.len() implies empty_tiles@.contains(#[trigger] prev[u]) by {
                            assert(empty_tiles@[u] == prev[u]);
                        }
                        // the new entry is a fresh candidate, so entries
                        // stay pairwise distinct
                        assert(tiles_adjacent@[t as int] == adjacent_tile);
                        assert forall|u: int|
                            0 <= u < empty_tiles@.len() implies exists|t2: int|
                            0 <= t2 < t + 1 && (#[trigger] tiles_adjacent@[t2]) == (
                        #[trigger] empty_tiles@[u]) by {
                            if u < prev.len() {
                                assert(empty_tiles@[u] == prev[u]);
                                let t2 = choose|t2: int|
                                    0 <= t2 < t && (#[trigger] tiles_adjacent@[t2]) == prev[u];
                                assert(tiles_adjacent@[t2] == empty_tiles@[u]);
                            } else {
                                assert(empty_tiles@[u] == adjacent_tile);
                                assert(tiles_adjacent@[t as int] == empty_tiles@[u]);
                            }
                        }
                        assert forall|u1: int, u2: int|
                            #![trigger empty_tiles@[u1], empty_tiles@[u2]]
                            0 <= u1 < u2 < empty_tiles@.len() implies empty_tiles@[u1]
                            != empty_tiles@[u2] by {
                            if u2 == prev.len() {
                                assert(empty_tiles@[u1] == prev[u1]);
                                assert(empty_tiles@[u2] == adjacent_tile);
                                let t2 = choose|t2: int|
                                    0 <= t2 < t && (#[trigger] tiles_adjacent@[t2]) == prev[u1];
                                assert(tiles_adjacent@[t2] != tiles_adjacent@[t as int]);
                            } else {
                                assert(empty_tiles@[u1] == prev[u1]);
                                assert(empty_tiles@[u2] == prev[u2]);
                            }
                        }
                    }
                },
            }
        }
        t = t + 1;
    }
    proof {
        assert forall|p: (usize, usize)|
            #![trigger adjacent(tilepos, p)]
            adjacent(tilepos, p) && p.0 < grid_view(*tiles).len() && p.1 < grid_view(
                *tiles,
            )[p.0 as int].len() && grid_view(*tiles)[p.0 as int][p.1 as int] is None
            implies empty_tiles@.contains(p) by {
            if p.0 == tilepos.0 + 1 && p.1 == tilepos.1 {
                assert(tiles_adjacent@[0] == p);
            } else if p.0 == tilepos.0 && p.1 == tilepos.1 + 1 {
                assert(tiles_adjacent@[1] == p);
            } else if tilepos.0 > 0 && p.0 as int == tilepos.0 - 1 && p.1 == tilepos.1 {
                assert(tiles_adjacent@[2] == p);
            } else {
                assert(tilepos.1 > 0 && p.0 == tilepos.0 && p.1 as int == tilepos.1 - 1);
                if tilepos.0 > 0 {
                    assert(tiles_adjacent@[3] == p);
                } else {
                    assert(tiles_adjacent@[2] == p);
                }
            }
        }
    }
    empty_tiles
}

/// Appending a row leaves the counts of the existing prefix unchanged.
proof fn lemma_counts_upto_push(g: Seq<Seq<Option<Tile>>>, row: Seq<Option<Tile>>, n: int)
    requires
        n <= g.len(),
    ensures
        none_count_upto(g.push(row), n) == none_count_upto(g, n),
        edge_count_upto(g.push(row), n) == edge_count_upto(g, n),
    decreases n,
{
    if n > 0 {
        lemma_counts_upto_push(g, row, n - 1);
        assert(g.push(row)[n - 1] == g[n - 1]);
    }
}

/// A row with every cell carved has no uncarved cells.
proof fn lemma_row_all_some(r: Seq<Option<Tile>>)
    requires
        forall|i: int| 0 <= i < r.len() ==> #[trigger] r[i] is Some,
    ensures
        row_none_count(r) == 0,
    decreases r.len(),
{
    if r.len() > 0 {
        assert(forall|i: int|
            0 <= i < r.drop_last().len() ==> #[trigger] r.drop_last()[i] == r[i]);
        lemma_row_all_some(r.drop_last());
    }
}

/// A grid with every cell carved has no uncarved cells.
proof fn lemma_grid_all_some(g: Seq<Seq<Option<Tile>>>, n: int)
    requires
        n <= g.len(),
        forall|x: int, y: int|
            #![trigger g[x][y]]
            0 <= x < g.len() && 0 <= y < g[x].len() ==> g[x][y] is Some,
    ensures
        none_count_upto(g, n) == 0,
    decreases n,
{
    if n > 0 {
        lemma_grid_all_some(g, n - 1);
        lemma_row_all_some(g[n - 1]);
    }
}

/// A row with an uncarved cell counts at least one.
proof fn lemma_row_none_pos(r: Seq<Option<Tile>>, y: int)
    requires
        0 <= y < r.len(),
        r[y] is None,
    ensures
        row_none_count(r) >= 1,
    decreases r.len(),
{
    if y < r.len() - 1 {
        lemma_row_none_pos(r.drop_last(), y);
    }
}

/// A grid with an uncarved cell counts at least one.
proof fn lemma_none_count_pos(g: Seq<Seq<Option<Tile>>>, x: int, y: int, n: int)
    requires
        0 <= x < n <= g.len(),
        0 <= y < g[x].len(),
        g[x][y] is None,
    ensures
        none_count_upto(g, n) >= 1,
    decreases n,
{
    if x < n - 1 {
        lemma_none_count_pos(g, x, y, n - 1);
    } else {
        lemma_row_none_pos(g[x], y);
    }
}

/// How `Seq::remove` places elements: positions before `at` keep their
/// value, later positions shift down.
pub proof fn lemma_seq_remove_index<T>(s: Seq<T>, at: int, i: int)
    requires
        0 <= at < s.len(),
        0 <= i < s.len() - 1,
    ensures
        i < at ==> s.remove(at)[i] == s[i],
        i >= at ==> s.remove(at)[i] == s[i + 1],
{
}

/// Grid `g2` extends `g0`: every carved cell stays carved and keeps its
/// carved flags; more cells and flags may be carved.
pub open spec fn grid_extends(
    g2: Seq<Seq<Option<Tile>>>,
    g0: Seq<Seq<Option<Tile>>>,
    height: int,
    width: int,
) -> bool {
    forall|x: int, y: int|
        #![trigger tile_at(g0, x, y)]
        0 <= x < height && 0 <= y < width && tile_at(g0, x, y) is Some ==> {
            &&& tile_at(g2, x, y) is Some
            &&& (tile_at(g0, x, y)->0.left > 0 ==> tile_at(g2, x, y)->0.left > 0)
            &&& (tile_at(g0, x, y)->0.right > 0 ==> tile_at(g2, x, y)->0.right > 0)
            &&& (tile_at(g0, x, y)->0.up > 0 ==> tile_at(g2, x, y)->0.up > 0)
            &&& (tile_at(g0, x, y)->0.down > 0 ==> tile_at(g2, x, y)->0.down > 0)
        }
}

/// A carved route stays valid when the grid only gains passages.
proof fn lemma_extends_path(
    g0: Seq<Seq<Option<Tile>>>,
    g2: Seq<Seq<Option<Tile>>>,
    height: int,
    width: int,
    path: Seq<(usize, usize)>,
)
    requires
        grid_extends(g2, g0, height, width),
        valid_path(g0, path, height, width),
    ensures
        valid_path(g2, path, height, width),
{
    assert forall|i: int|
        0 <= i < path.len() - 1 implies step_allowed(g2, #[trigger] path[i], path[i + 1]) by {
        assert(step_allowed(g0, path[i], path[i + 1]));
        assert(in_grid(path[i], height, width));
        assert(tile_at(g0, path[i].0 as int, path[i].1 as int) == g0[path[i].0 as int][path[i].1 as int]);
        assert(tile_at(g2, path[i].0 as int, path[i].1 as int) == g2[path[i].0 as int][path[i].1 as int]);
    }
}

/// Reachability survives carving more passages.
proof fn lemma_extends_reachable(
    g0: Seq<Seq<Option<Tile>>>,
    g2: Seq<Seq<Option<Tile>>>,
    height: int,
    width: int,
    s: (usize, usize),
    e: (usize, usize),
)
    requires
        grid_extends(g2, g0, height, width),
        reachable(g0, s, e, height, width),
    ensures
        reachable(g2, s, e, height, width),
{
    let path = choose|path: Seq<(usize, usize)>|
        valid_path(g0, path, height, width) && path.len() > 0 && path[0] == s && path.last() == e;
    lemma_extends_path(g0, g2, height, width, path);
    assert(valid_path(g2, path, height, width) && path.len() > 0 && path[0] == s && path.last()
        == e);
}

/// A valid route extends by one allowed step.
proof fn lemma_path_step(
    g: Seq<Seq<Option<Tile>>>,
    height: int,
    width: int,
    path: Seq<(usize, usize)>,
    t: (usize, usize),
)
    requires
        valid_path(g, path, height, width),
        path.len() > 0,
        in_grid(t, height, width),
        step_allowed(g, path.last(), t),
    ensures
        valid_path(g, path.push(t), height, width),
        path.push(t)[0] == path[0],
        path.push(t).last() == t,
{
    let np = path.push(t);
    assert forall|i: int| 0 <= i < np.len() implies in_grid(#[trigger] np[i], height, width) by {
        if i < path.len() {
            assert(np[i] == path[i]);
        } else {
            assert(np[i] == t);
        }
    }
    assert forall|i: int|
        0 <= i < np.len() - 1 implies step_allowed(g, #[trigger] np[i], np[i + 1]) by {
        if i < path.len() - 1 {
            assert(np[i] == path[i] && np[i + 1] == path[i + 1]);
        } else {
            assert(i == path.len() - 1);
            assert(np[i] == path.last() && np[i + 1] == t);
        }
    }
}

/// The maze generator's working state: a rectangular grid whose passages
/// are mirrored, an active list of valid carved cells, every carved cell
/// off the active list fully surrounded by carved cells, every carved
/// cell reachable from the origin, and exactly one carved edge per carved
/// cell beyond the first.
pub open spec fn gen_state(
    g: Seq<Seq<Option<Tile>>>,
    active: Seq<(usize, usize)>,
    height: int,
    width: int,
) -> bool {
    &&& grid_dims(g, height, width)
    &&& height >= 1 && width >= 1
    &&& g[0][0] is Some
    &&& tiles_consistent(g, height, width)
    &&& forall|t: int|
        0 <= t < active.len() ==> in_grid(#[trigger] active[t], height, width)
            && g[active[t].0 as int][active[t].1 as int] is Some
    &&& forall|x: int, y: int|
        #![trigger tile_at(g, x, y)]
        0 <= x < height && 0 <= y < width && tile_at(g, x, y) is Some && !active.contains(
            (x as usize, y as usize),
        ) ==> {
            &&& x > 0 ==> g[x - 1][y] is Some
            &&& x < height - 1 ==> g[x + 1][y] is Some
            &&& y > 0 ==> g[x][y - 1] is Some
            &&& y < width - 1 ==> g[x][y + 1] is Some
        }
    &&& edge_count(g) + 1 + none_count(g) == height * width
    &&& forall|x: int, y: int|
        #![trigger tile_at(g, x, y)]
        0 <= x < height && 0 <= y < width && tile_at(g, x, y) is Some ==> reachable(
            g,
            (0usize, 0usize),
            (x as usize, y as usize),
            height,
            width,
        )
}

/// A grid whose only carved cell is the fully-sealed origin, with the
/// origin on the active list, is a valid generator state.
#[verifier::rlimit(100)]
proof fn lemma_initial_state(
    g: Seq<Seq<Option<Tile>>>,
    active: Seq<(usize, usize)>,
    height: int,
    width: int,
)
    requires
        grid_dims(g, height, width),
        height >= 1,
        width >= 1,
        g[0][0] == Some(Tile { up: 0, down: 0, left: 0, right: 0 }),
        forall|x: int, y: int|
            #![trigger g[x][y]]
            0 <= x < height && 0 <= y < width && !(x == 0 && y == 0) ==> g[x][y] is None,
        active.len() == 1,
        active[0] == (0usize, 0usize),
        none_count(g) + 1 == height * width,
        edge_count(g) == 0,
    ensures
        gen_state(g, active, height, width),
{
    assert(active.contains((0usize, 0usize)));
    assert forall|x: int, y: int|
        #![trigger tile_at(g, x, y)]
        0 <= x < height && 0 <= y < width && tile_at(g, x, y) is Some implies (x == 0 && y == 0
            && tile_at(g, x, y) == Some(Tile { up: 0, down: 0, left: 0, right: 0 })) by {
        if !(x == 0 && y == 0) {
            assert(g[x][y] is None);
        }
    }
    let origin: (usize, usize) = (0usize, 0usize);
    let p = seq![origin];
    assert(p[0] == origin && p.last() == origin);
    assert(in_grid(origin, height, width));
    assert(valid_path(g, p, height, width));
    assert(reachable(g, origin, origin, height, width));
}

/// When the active list runs empty, the carved region is closed, so every
/// cell is carved and the edge count is one less than the cell count.
#[verifier::rlimit(100)]
proof fn lemma_final_state(
    g: Seq<Seq<Option<Tile>>>,
    active: Seq<(usize, usize)>,
    height: int,
    width: int,
)
    requires
        gen_state(g, active, height, width),
        active.len() == 0,
    ensures
        forall|x: int, y: int|
            #![trigger g[x][y]]
            0 <= x < height && 0 <= y < width ==> g[x][y] is Some && reachable(
                g,
                (0usize, 0usize),
                (x as usize, y as usize),
                height,
                width,
            ),
        edge_count(g) + 1 == height * width,
{
    assert forall|x: int, y: int|
        #![trigger tile_at(g, x, y)]
        0 <= x < height && 0 <= y < width && tile_at(g, x, y) is Some implies {
        &&& x > 0 ==> g[x - 1][y] is Some
        &&& x < height - 1 ==> g[x + 1][y] is Some
        &&& y > 0 ==> g[x][y - 1] is Some
        &&& y < width - 1 ==> g[x][y + 1] is Some
    } by {
        assert(!active.contains((x as usize, y as usize)));
    }
    assert(region_closed(g, height, width));
    assert forall|x: int, y: int|
        #![trigger g[x][y]]
        0 <= x < height && 0 <= y < width implies g[x][y] is Some && reachable(
        g,
        (0usize, 0usize),
        (x as usize, y as usize),
        height,
        width,
    ) by {
        lemma_closed_all(g, height, width, x, y);
        assert(tile_at(g, x, y) == g[x][y]);
    }
    lemma_grid_all_some(g, g.len() as int);
}

/// Carving one passage takes one valid generator state to the next: one
/// fewer uncarved cell, one more carved edge, one more active cell.
#[verifier::rlimit(100)]
proof fn lemma_carve_state(
    g0: Seq<Seq<Option<Tile>>>,
    g2: Seq<Seq<Option<Tile>>>,
    pre: Seq<(usize, usize)>,
    ax: int,
    ay: int,
    ex: int,
    ey: int,
    at: Tile,
    new_tile: Tile,
    height: int,
    width: int,
)
    requires
        gen_state(g0, pre, height, width),
        grid_dims(g2, height, width),
        height <= usize::MAX,
        width <= usize::MAX,
        pre.contains((ax as usize, ay as usize)),
        0 <= ax < height,
        0 <= ay < width,
        0 <= ex < height,
        0 <= ey < width,
        g0[ax][ay] is Some,
        g0[ex][ey] is None,
        (ex == ax - 1 && ey == ay && at == (Tile { left: 1, ..g0[ax][ay]->0 }) && new_tile == (Tile {
            up: 0,
            down: 0,
            left: 0,
            right: 1,
        })) || (ex == ax + 1 && ey == ay && at == (Tile { right: 1, ..g0[ax][ay]->0 }) && new_tile
            == (Tile { up: 0, down: 0, left: 1, right: 0 })) || (ex == ax && ey == ay - 1 && at == (
        Tile { down: 1, ..g0[ax][ay]->0 }) && new_tile == (Tile { up: 1, down: 0, left: 0, right: 0 }))
            || (ex == ax && ey == ay + 1 && at == (Tile { up: 1, ..g0[ax][ay]->0 }) && new_tile == (
        Tile { up: 0, down: 1, left: 0, right: 0 })),
        forall|i: int, j: int|
            #![trigger tile_at(g2, i, j)]
            0 <= i < height && 0 <= j < width ==> tile_at(g2, i, j) == (if i == ax && j == ay {
                Some(at)
            } else if i == ex && j == ey {
                Some(new_tile)
            } else {
                g0[i][j]
            }),
        none_count(g2) + 1 == none_count(g0),
        edge_count(g2) == edge_count(g0) + 1,
    ensures
        gen_state(g2, pre.push((ex as usize, ey as usize)), height, width),
{
    assert forall|i: int, j: int|
        #![trigger tile_at(g2, i, j)]
        0 <= i < height && 0 <= j < width implies (g0[i][j] is Some ==> tile_at(g2, i, j) is Some)
        && (tile_at(g2, i, j) is Some ==> g0[i][j] is Some || (i == ex && j == ey)) by {
        if i == ax && j == ay {
            assert(tile_at(g2, i, j) == Some(at));
        }
    }
    lemma_carve_consistent(g0, g2, ax, ay, ex, ey, at, new_tile, height, width);
    let post = pre.push((ex as usize, ey as usize));
    assert forall|c: (usize, usize)| pre.contains(c) implies #[trigger] post.contains(c) by {
        let u = choose|u: int| 0 <= u < pre.len() && pre[u] == c;
        assert(post[u] == c);
    }
    assert(post.contains((ex as usize, ey as usize))) by {
        assert(post.last() == (ex as usize, ey as usize));
    }
    assert forall|t: int| 0 <= t < post.len() implies in_grid(#[trigger] post[t], height, width)
        && g2[post[t].0 as int][post[t].1 as int] is Some by {
        if t < pre.len() {
            assert(post[t] == pre[t]);
        } else {
            assert(post[t] == (ex as usize, ey as usize));
        }
        let p = post[t];
        assert(tile_at(g2, p.0 as int, p.1 as int) == g2[p.0 as int][p.1 as int]);
    }
    assert(tile_at(g2, 0, 0) == g2[0][0]);
    assert(g2[0][0] is Some);
    lemma_carve_closure(g0, g2, pre, post, ax, ay, ex, ey, height, width);
    // carving only adds passages, so old routes survive and the new cell
    // is reached through the active cell
    assert forall|x: int, y: int|
        #![trigger tile_at(g0, x, y)]
        0 <= x < height && 0 <= y < width && tile_at(g0, x, y) is Some implies {
        &&& tile_at(g2, x, y) is Some
        &&& (tile_at(g0, x, y)->0.left > 0 ==> tile_at(g2, x, y)->0.left > 0)
        &&& (tile_at(g0, x, y)->0.right > 0 ==> tile_at(g2, x, y)->0.right > 0)
        &&& (tile_at(g0, x, y)->0.up > 0 ==> tile_at(g2, x, y)->0.up > 0)
        &&& (tile_at(g0, x, y)->0.down > 0 ==> tile_at(g2, x, y)->0.down > 0)
    } by {
        assert(tile_at(g2, x, y) == (if x == ax && y == ay {
            Some(at)
        } else if x == ex && y == ey {
            Some(new_tile)
        } else {
            g0[x][y]
        }));
        assert(tile_at(g0, x, y) == g0[x][y]);
    }
    assert(grid_extends(g2, g0, height, width));
    let origin: (usize, usize) = (0usize, 0usize);
    assert(tile_at(g0, ax, ay) == g0[ax][ay]);
    assert(reachable(g0, origin, (ax as usize, ay as usize), height, width));
    lemma_extends_reachable(g0, g2, height, width, origin, (ax as usize, ay as usize));
    let to_active = choose|path: Seq<(usize, usize)>|
        valid_path(g2, path, height, width) && path.len() > 0 && path[0] == origin && path.last()
            == (ax as usize, ay as usize);
    assert(tile_at(g2, ax, ay) == Some(at));
    assert(step_allowed(g2, (ax as usize, ay as usize), (ex as usize, ey as usize)));
    lemma_path_step(g2, height, width, to_active, (ex as usize, ey as usize));
    assert(valid_path(g2, to_active.push((ex as usize, ey as usize)), height, width));
    assert(reachable(g2, origin, (ex as usize, ey as usize), height, width));
    assert forall|x: int, y: int|
        #![trigger tile_at(g2, x, y)]
        0 <= x < height && 0 <= y < width && tile_at(g2, x, y) is Some implies reachable(
        g2,
        origin,
        (x as usize, y as usize),
        height,
        width,
    ) by {
        assert(tile_at(g2, x, y) == (if x == ax && y == ay {
            Some(at)
        } else if x == ex && y == ey {
            Some(new_tile)
        } else {
            g0[x][y]
        }));
        if !(x == ex && y == ey) {
            assert(tile_at(g0, x, y) == g0[x][y]);
            assert(tile_at(g0, x, y) is Some);
            assert(reachable(g0, origin, (x as usize, y as usize), height, width));
            lemma_extends_reachable(g0, g2, height, width, origin, (x as usize, y as usize));
        }
    }
}

/// Carving adds no uncarved neighbor to any retired cell: a cell off the
/// grown active list is still surrounded by carved cells.
#[verifier::rlimit(100)]
proof fn lemma_carve_closure(
    g0: Seq<Seq<Option<Tile>>>,
    g2: Seq<Seq<Option<Tile>>>,
    pre: Seq<(usize, usize)>,
    post: Seq<(usize, usize)>,
    ax: int,
    ay: int,
    ex: int,
    ey: int,
    height: int,
    width: int,
)
    requires
        grid_dims(g0, height, width),
        grid_dims(g2, height, width),
        height <= usize::MAX,
        width <= usize::MAX,
        post == pre.push((ex as usize, ey as usize)),
        pre.contains((ax as usize, ay as usize)),
        0 <= ax < height,
        0 <= ay < width,
        0 <= ex < height,
        0 <= ey < width,
        forall|x: int, y: int|
            #![trigger tile_at(g0, x, y)]
            0 <= x < height && 0 <= y < width && tile_at(g0, x, y) is Some && !pre.contains(
                (x as usize, y as usize),
            ) ==> {
                &&& x > 0 ==> g0[x - 1][y] is Some
                &&& x < height - 1 ==> g0[x + 1][y] is Some
                &&& y > 0 ==> g0[x][y - 1] is Some
                &&& y < width - 1 ==> g0[x][y + 1] is Some
            },
        forall|i: int, j: int|
            #![trigger tile_at(g2, i, j)]
            0 <= i < height && 0 <= j < width ==> (g0[i][j] is Some ==> tile_at(g2, i, j) is Some) && (
            tile_at(g2, i, j) is Some ==> g0[i][j] is Some || (i == ex && j == ey)),
    ensures
        forall|x: int, y: int|
            #![trigger tile_at(g2, x, y)]
            0 <= x < height && 0 <= y < width && tile_at(g2, x, y) is Some && !post.contains(
                (x as usize, y as usize),
            ) ==> {
                &&& x > 0 ==> g2[x - 1][y] is Some
                &&& x < height - 1 ==> g2[x + 1][y] is Some
                &&& y > 0 ==> g2[x][y - 1] is Some
                &&& y < width - 1 ==> g2[x][y + 1] is Some
            },
{
    assert forall|c: (usize, usize)| pre.contains(c) implies #[trigger] post.contains(c) by {
        let u = choose|u: int| 0 <= u < pre.len() && pre[u] == c;
        assert(post[u] == c);
    }
    assert(post.contains((ex as usize, ey as usize))) by {
        assert(post.last() == (ex as usize, ey as usize));
    }
    assert forall|x: int, y: int|
        #![trigger tile_at(g2, x, y)]
        0 <= x < height && 0 <= y < width && tile_at(g2, x, y) is Some && !post.contains(
            (x as usize, y as usize),
        ) implies {
        &&& x > 0 ==> g2[x - 1][y] is Some
        &&& x < height - 1 ==> g2[x + 1][y] is Some
        &&& y > 0 ==> g2[x][y - 1] is Some
        &&& y < width - 1 ==> g2[x][y + 1] is Some
    } by {
        assert(!pre.contains((x as usize, y as usize)));
        assert(!(x == ex && y == ey));
        assert(tile_at(g0, x, y) == g0[x][y]);
        assert(g0[x][y] is Some);
        if x > 0 {
            assert(tile_at(g2, x - 1, y) == g2[x - 1][y]);
        }
        if x < height - 1 {
            assert(tile_at(g2, x + 1, y) == g2[x + 1][y]);
        }
        if y > 0 {
            assert(tile_at(g2, x, y - 1) == g2[x][y - 1]);
        }
        if y < width - 1 {
            assert(tile_at(g2, x, y + 1) == g2[x][y + 1]);
        }
    }
}

/// Carving one passage preserves the mirror consistency of the grid: the
/// two new flags mirror each other, and no flag ever pointed at the
/// previously-uncarved cell.
#[verifier::rlimit(100)]
proof fn lemma_carve_consistent(
    g0: Seq<Seq<Option<Tile>>>,
    g2: Seq<Seq<Option<Tile>>>,
    ax: int,
    ay: int,
    ex: int,
    ey: int,
    at: Tile,
    new_tile: Tile,
    height: int,
    width: int,
)
    requires
        grid_dims(g0, height, width),
        grid_dims(g2, height, width),
        tiles_consistent(g0, height, width),
        0 <= ax < height,
        0 <= ay < width,
        0 <= ex < height,
        0 <= ey < width,
        g0[ax][ay] is Some,
        g0[ex][ey] is None,
        (ex == ax - 1 && ey == ay && at == (Tile { left: 1, ..g0[ax][ay]->0 }) && new_tile == (Tile {
            up: 0,
            down: 0,
            left: 0,
            right: 1,
        })) || (ex == ax + 1 && ey == ay && at == (Tile { right: 1, ..g0[ax][ay]->0 }) && new_tile
            == (Tile { up: 0, down: 0, left: 1, right: 0 })) || (ex == ax && ey == ay - 1 && at == (
        Tile { down: 1, ..g0[ax][ay]->0 }) && new_tile == (Tile { up: 1, down: 0, left: 0, right: 0 }))
            || (ex == ax && ey == ay + 1 && at == (Tile { up: 1, ..g0[ax][ay]->0 }) && new_tile == (
        Tile { up: 0, down: 1, left: 0, right: 0 })),
        forall|i: int, j: int|
            #![trigger tile_at(g2, i, j)]
            0 <= i < height && 0 <= j < width ==> tile_at(g2, i, j) == (if i == ax && j == ay {
                Some(at)
            } else if i == ex && j == ey {
                Some(new_tile)
            } else {
                g0[i][j]
            }),
    ensures
        tiles_consistent(g2, height, width),
{
    assert forall|x: int, y: int|
        #![trigger tile_at(g2, x, y)]
        0 <= x < height && 0 <= y < width && tile_at(g2, x, y) is Some implies {
        let t = tile_at(g2, x, y)->0;
        &&& t.left <= 1 && t.right <= 1 && t.up <= 1 && t.down <= 1
        &&& t.left == 1 ==> x > 0 && g2[x - 1][y] is Some && g2[x - 1][y]->0.right == 1
        &&& t.right == 1 ==> x < height - 1 && g2[x + 1][y] is Some && g2[x + 1][y]->0.left == 1
        &&& t.down == 1 ==> y > 0 && g2[x][y - 1] is Some && g2[x][y - 1]->0.up == 1
        &&& t.up == 1 ==> y < width - 1 && g2[x][y + 1] is Some && g2[x][y + 1]->0.down == 1
    } by {
        assert(tile_at(g2, x, y) == g2[x][y]);
        assert(tile_at(g0, x, y) == g0[x][y]);
        assert(tile_at(g0, ax, ay) == g0[ax][ay]);
        assert(tile_at(g2, ax, ay) == g2[ax][ay]);
        assert(tile_at(g2, ex, ey) == g2[ex][ey]);
        if x > 0 {
            assert(tile_at(g2, x - 1, y) == g2[x - 1][y]);
            assert(tile_at(g0, x - 1, y) == g0[x - 1][y]);
        }
        if x < height - 1 {
            assert(tile_at(g2, x + 1, y) == g2[x + 1][y]);
            assert(tile_at(g0, x + 1, y) == g0[x + 1][y]);
        }
        if y > 0 {
            assert(tile_at(g2, x, y - 1) == g2[x][y - 1]);
            assert(tile_at(g0, x, y - 1) == g0[x][y - 1]);
        }
        if y < width - 1 {
            assert(tile_at(g2, x, y + 1) == g2[x][y + 1]);
            assert(tile_at(g0, x, y + 1) == g0[x][y + 1]);
        }
        if x == ax && y == ay {
            assert(g2[x][y] == Some(at));
        } else if x == ex && y == ey {
            assert(g2[x][y] == Some(new_tile));
        } else {
            assert(g2[x][y] == g0[x][y]);
        }
    }
}

/// Carves a bidirectional passage from the chosen active cell to the
/// chosen uncarved neighbor and adds the neighbor to the active list.
#[verifier::rlimit(100)]
fn carve_step(
    tiles: &mut Vec<Vec<Option<Tile>>>,
    active: &mut Vec<(usize, usize)>,
    active_index: usize,
    empty_tiles: &Vec<(usize, usize)>,
    empty_index: usize,
    height: usize,
    width: usize,
)
    requires
        gen_state(grid_view(*old(tiles)), old(active)@, height as int, width as int),
        active_index < old(active)@.len(),
        empty_index < empty_tiles@.len(),
        forall|t: int|
            0 <= t < empty_tiles@.len() ==> {
                let p = #[trigger] empty_tiles@[t];
                &&& adjacent(old(active)@[active_index as int], p)
                &&& in_grid(p, height as int, width as int)
                &&& grid_view(*old(tiles))[p.0 as int][p.1 as int] is None
            },
    ensures
        gen_state(grid_view(*final(tiles)), final(active)@, height as int, width as int),
        none_count(grid_view(*final(tiles))) + 1 == none_count(grid_view(*old(tiles))),
        final(active)@.len() == old(active)@.len() + 1,
{
    let active_pos = active[active_index];
    let empty_tile_location = empty_tiles[empty_index];
    let ax = active_pos.0;
    let ay = active_pos.1;
    let ex = empty_tile_location.0;
    let ey = empty_tile_location.1;
    let ghost g0 = grid_view(*tiles);
    proof {
        assert(grid_view(*tiles)[ax as int] == tiles@[ax as int]@);
        assert(grid_view(*tiles)[ex as int] == tiles@[ex as int]@);
    }
    let mut at = tiles[ax][ay].unwrap();
    let new_tile: Tile;
    // The empty tile is assigned a tile, and a path is made to it
    if ex < ax {
        at.left = 1;
        new_tile = Tile { up: 0, down: 0, left: 0, right: 1 };
    } else if ex > ax {
        at.right = 1;
        new_tile = Tile { up: 0, down: 0, left: 1, right: 0 };
    } else if ey < ay {
        at.down = 1;
        new_tile = Tile { up: 1, down: 0, left: 0, right: 0 };
    } else {
        proof {
            assert(adjacent(active_pos, empty_tile_location));
        }
        at.up = 1;
        new_tile = Tile { up: 0, down: 1, left: 0, right: 0 };
    }
    {
        let rowa = &mut tiles[ax];
        rowa[ay] = Some(at);
    }
    let ghost g1 = grid_view(*tiles);
    {
        let rowe = &mut tiles[ex];
        rowe[ey] = Some(new_tile);
    }
    let ghost g2 = grid_view(*tiles);
    active.push(empty_tile_location);
    proof {
        assert(g1 =~= g0.update(ax as int, g0[ax as int].update(ay as int, Some(at))));
        assert(g2 =~= g1.update(ex as int, g1[ex as int].update(ey as int, Some(new_tile))));
        lemma_counts_cell_update(g0, ax as int, ay as int, Some(at));
        lemma_counts_cell_update(g1, ex as int, ey as int, Some(new_tile));
        // the carved cell was uncarved, so the active cell's flag toward it
        // was clear and exactly one counted flag appears
        assert(g0[ex as int][ey as int] is None);
        assert(tile_at(g0, ax as int, ay as int) == g0[ax as int][ay as int]);
        assert(g0[ax as int][ay as int]->0.left <= 1 && g0[ax as int][ay as int]->0.up <= 1);
        if ex < ax {
            assert(g0[ax as int][ay as int]->0.left != 1);
        } else if ey > ay {
            assert(g0[ax as int][ay as int]->0.up != 1);
        }
        assert(cell_edge_flags(g0[ax as int][ay as int]) + 1 == cell_edge_flags(Some(at))
            + cell_edge_flags(Some(new_tile)));
        assert(none_count(g2) + 1 == none_count(g0));
        assert(edge_count(g2) == edge_count(g0) + 1);
        assert forall|i: int, j: int|
            #![trigger tile_at(g2, i, j)]
            0 <= i < height && 0 <= j < width implies tile_at(g2, i, j) == (if i == ax as int && j
            == ay as int {
            Some(at)
        } else if i == ex as int && j == ey as int {
            Some(new_tile)
        } else {
            g0[i][j]
        }) by {}
        let pre = old(active)@;
        assert(pre.contains((ax, ay))) by {
            assert(pre[active_index as int] == (ax, ay));
        }
        lemma_carve_state(
            g0,
            g2,
            pre,
            ax as int,
            ay as int,
            ex as int,
            ey as int,
            at,
            new_tile,
            height as int,
            width as int,
        );
        assert(active@ == pre.push(empty_tile_location));
    }
}

/// Retires an active cell that has no uncarved neighbor left.
#[verifier::rlimit(100)]
fn retire_step(
    tiles: &Vec<Vec<Option<Tile>>>,
    active: &mut Vec<(usize, usize)>,
    active_index: usize,
    height: usize,
    width: usize,
)
    requires
        gen_state(grid_view(*tiles), old(active)@, height as int, width as int),
        active_index < old(active)@.len(),
        forall|p: (usize, usize)|
            #![trigger adjacent(old(active)@[active_index as int], p)]
            adjacent(old(active)@[active_index as int], p) && in_grid(p, height as int, width as int)
                ==> grid_view(*tiles)[p.0 as int][p.1 as int] is Some,
    ensures
        gen_state(grid_view(*tiles), final(active)@, height as int, width as int),
        final(active)@.len() + 1 == old(active)@.len(),
{
    let ghost pre = active@;
    let ghost active_pos = active@[active_index as int];
    active.remove(active_index);
    proof {
        let g = grid_view(*tiles);
        assert(active@ == pre.remove(active_index as int));
        assert forall|c: (usize, usize)|
            pre.contains(c) && c != active_pos implies #[trigger] active@.contains(c) by {
            let u = choose|u: int| 0 <= u < pre.len() && pre[u] == c;
            if u < active_index {
                lemma_seq_remove_index(pre, active_index as int, u);
                assert(active@[u] == c);
            } else {
                lemma_seq_remove_index(pre, active_index as int, u - 1);
                assert(active@[u - 1] == c);
            }
        }
        assert forall|t: int| 0 <= t < active@.len() implies in_grid(
            #[trigger] active@[t],
            height as int,
            width as int,
        ) && g[active@[t].0 as int][active@[t].1 as int] is Some by {
            if t < active_index {
                lemma_seq_remove_index(pre, active_index as int, t);
            } else {
                lemma_seq_remove_index(pre, active_index as int, t);
            }
        }
        assert forall|x: int, y: int|
            #![trigger tile_at(g, x, y)]
            0 <= x < height && 0 <= y < width && tile_at(g, x, y) is Some && !active@.contains(
                (x as usize, y as usize),
            ) implies {
            &&& x > 0 ==> g[x - 1][y] is Some
            &&& x < height - 1 ==> g[x + 1][y] is Some
            &&& y > 0 ==> g[x][y - 1] is Some
            &&& y < width - 1 ==> g[x][y + 1] is Some
        } by {
            assert(tile_at(g, x, y) == g[x][y]);
            if pre.contains((x as usize, y as usize)) {
                assert((x as usize, y as usize) == active_pos);
                if x > 0 {
                    assert(adjacent(active_pos, ((x - 1) as usize, y as usize)));
                }
                if x < height - 1 {
                    assert(adjacent(active_pos, ((x + 1) as usize, y as usize)));
                }
                if y > 0 {
                    assert(adjacent(active_pos, (x as usize, (y - 1) as usize)));
                }
                if y < width - 1 {
                    assert(adjacent(active_pos, (x as usize, (y + 1) as usize)));
                }
            }
        }
    }
}

/// A fresh height x width grid with every cell uncarved.
fn init_tiles(height: usize, width: usize) -> (tiles: Vec<Vec<Option<Tile>>>)
    ensures
        tiles@.len() == height,
        forall|i: int| 0 <= i < height ==> #[trigger] grid_view(tiles)[i].len() == width,
        forall|i: int, j: int|
            #![trigger grid_view(tiles)[i][j]]
            0 <= i < height && 0 <= j < width ==> grid_view(tiles)[i][j] is None,
        none_count(grid_view(tiles)) == height * width,
        edge_count(grid_view(tiles)) == 0,
{
    let mut tiles: Vec<Vec<Option<Tile>>> = Vec::new();
    let mut x: usize = 0;
    while x < height
        invariant
            0 <= x <= height,
            tiles@.len() == x,
            forall|i: int| 0 <= i < x ==> #[trigger] grid_view(tiles)[i].len() == width,
            forall|i: int, j: int|
                #![trigger grid_view(tiles)[i][j]]
                0 <= i < x && 0 <= j < width ==> grid_view(tiles)[i][j] is None,
            none_count(grid_view(tiles)) == x * width,
            edge_count(grid_view(tiles)) == 0,
        decreases height - x,
    {
        let ghost g0 = grid_view(tiles);
        let mut rowv: Vec<Option<Tile>> = Vec::new();
        let mut y: usize = 0;
        while y < width
            invariant
                0 <= y <= width,
                rowv@.len() == y,
                forall|j: int| 0 <= j < y ==> #[trigger] rowv@[j] is None,
                row_none_count(rowv@) == y,
                row_edge_count(rowv@) == 0,
            decreases width - y,
        {
            let ghost r0 = rowv@;
            rowv.push(None);
            proof {
                assert(rowv@.drop_last() =~= r0);
                assert(rowv@.last() is None);
            }
            y = y + 1;
        }
        tiles.push(rowv);
        proof {
            assert(grid_view(tiles) =~= g0.push(rowv@));
            lemma_counts_upto_push(g0, rowv@, g0.len() as int);
            assert(none_count(grid_view(tiles)) == none_count(g0) + row_none_count(rowv@));
            assert(edge_count(grid_view(tiles)) == edge_count(g0) + row_edge_count(rowv@));
            assert((x + 1) * width == x * width + width) by (nonlinear_arith);
        }
        x = x + 1;
    }
    tiles
}

/// Generates a tiled maze: starting from a fully carved origin cell, grows
/// a spanning tree by repeatedly picking an active cell - the most recent
/// one, or a uniformly random one with probability `rand_level` out of
/// `RAND_SCALE` - and carving a bidirectional passage to a random uncarved
/// neighbor; a cell with no uncarved neighbor left retires from the active
/// list.  The generator is re-seeded from `seed` on every draw and the
/// counter advances deterministically, so equal seeds and parameters
/// reproduce the same maze.
///
/// The result is a rectangular grid in which every cell is carved, every
/// passage is mirrored by its neighbor, every cell is reachable from the
/// origin through carved passages, and the number of carved edges is
/// exactly `height * width - 1`: a spanning tree.
#[verifier::rlimit(100)]
pub fn gen_maze(seed: &mut u64, height: usize, width: usize, rand_level: u64) -> (tiles: Vec<
    Vec<Option<Tile>>,
>)
    requires
        height >= 1,
        width >= 1,
        rand_level <= RAND_SCALE,
        height * width <= usize::MAX,
        *old(seed) + 5 * height * width <= u64::MAX,
    ensures
        grid_dims(grid_view(tiles), height as int, width as int),
        forall|x: int, y: int|
            #![trigger grid_view(tiles)[x][y]]
            0 <= x < height && 0 <= y < width ==> grid_view(tiles)[x][y] is Some,
        tiles_consistent(grid_view(tiles), height as int, width as int),
        edge_count(grid_view(tiles)) + 1 == height * width,
        forall|x: int, y: int|
            #![trigger reachable(grid_view(tiles), (0usize, 0usize), (x as usize, y as usize), height as int, width as int)]
            0 <= x < height && 0 <= y < width ==> reachable(
                grid_view(tiles),
                (0usize, 0usize),
                (x as usize, y as usize),
                height as int,
                width as int,
            ),
{
    let ghost limit = *old(seed) as int + 5 * (height as int) * (width as int);
    let mut tiles: Vec<Vec<Option<Tile>>> = init_tiles(height, width);
    // The origin starts carved with no passages yet
    let ghost ginit = grid_view(tiles);
    proof {
        assert(grid_view(tiles)[0] == tiles@[0]@);
    }
    {
        let row0 = &mut tiles[0];
        row0[0] = Some(Tile { up: 0, down: 0, left: 0, right: 0 });
    }
    proof {
        assert(grid_view(tiles) =~= ginit.update(
            0,
            ginit[0].update(0, Some(Tile { up: 0, down: 0, left: 0, right: 0 })),
        ));
        lemma_counts_cell_update(ginit, 0, 0, Some(Tile { up: 0, down: 0, left: 0, right: 0 }));
    }
    let mut active: Vec<(usize, usize)> = Vec::new();
    active.push((0, 0));
    proof {
        assert(active@[0] == (0usize, 0usize));
        assert forall|x: int, y: int|
            #![trigger grid_view(tiles)[x][y]]
            0 <= x < height && 0 <= y < width && !(x == 0 && y == 0) implies grid_view(
            tiles,
        )[x][y] is None by {
            assert(grid_view(tiles)[x][y] == ginit[x][y]);
        }
        lemma_initial_state(grid_view(tiles), active@, height as int, width as int);
        assert(none_count(grid_view(tiles)) + 1 == height * width);
        assert(active@.len() == 1);
        assert(*seed == *old(seed));
        assert(*seed as int + 5 * none_count(grid_view(tiles)) + 2 * active@.len() <= limit) by (nonlinear_arith)
            requires
                none_count(grid_view(tiles)) + 1 == (height as int) * (width as int),
                active@.len() == 1,
                limit == *seed as int + 5 * (height as int) * (width as int),
        ;
    }

    while active.len() > 0
        invariant
            height >= 1,
            width >= 1,
            rand_level <= RAND_SCALE,
            height * width <= usize::MAX,
            gen_state(grid_view(tiles), active@, height as int, width as int),
            *seed as int + 5 * none_count(grid_view(tiles)) + 2 * active@.len() <= limit,
            limit <= u64::MAX,
        decreases none_count(grid_view(tiles)), active@.len(),
    {
        let d0 = draw_below(*seed, RAND_SCALE);
        *seed = *seed + 1;
        // The active tile is chosen from a random tile or from the last
        // active tile; rand_level is the chance a random tile is chosen
        let active_index: usize = if rand_level > d0 {
            let d1 = draw_below(*seed, active.len() as u64);
            *seed = *seed + 1;
            d1 as usize
        } else {
            active.len() - 1
        };
        let active_pos = active[active_index];
        let empty_tiles = get_adjacent_empty(active_pos, &tiles);
        if empty_tiles.len() > 0 {
            proof {
                let p0 = empty_tiles@[0];
                lemma_none_count_pos(
                    grid_view(tiles),
                    p0.0 as int,
                    p0.1 as int,
                    grid_view(tiles).len() as int,
                );
            }
            *seed = *seed + 1;
            let d2 = draw_below(*seed, empty_tiles.len() as u64);
            // Neighboring empty tile is chosen at random
            let empty_tile_index = d2 as usize;
            carve_step(&mut tiles, &mut active, active_index, &empty_tiles, empty_tile_index, height, width);
        } else {
            proof {
                assert forall|p: (usize, usize)|
                    #![trigger adjacent(active_pos, p)]
                    adjacent(active_pos, p) && in_grid(p, height as int, width as int)
                    implies grid_view(tiles)[p.0 as int][p.1 as int] is Some by {
                    if grid_view(tiles)[p.0 as int][p.1 as int] is None {
                        assert(grid_view(tiles)[p.0 as int].len() == width);
                        assert(empty_tiles@.contains(p));
                    }
                }
            }
            retire_step(&tiles, &mut active, active_index, height, width);
        }
    }
    proof {
        lemma_final_state(grid_view(tiles), active@, height as int, width as int);
        assert forall|x: int, y: int|
            #![trigger reachable(grid_view(tiles), (0usize, 0usize), (x as usize, y as usize), height as int, width as int)]
            0 <= x < height && 0 <= y < width implies reachable(
            grid_view(tiles),
            (0usize, 0usize),
            (x as usize, y as usize),
            height as int,
            width as int,
        ) by {
            assert(grid_view(tiles)[x][y] is Some);
        }
    }
    tiles
}

/// The entry of a flat per-cell array at grid position `p`, for a grid of
/// row length `w`; cells are stored row-major.
pub open spec fn at_cell<T>(v: Seq<T>, p: (usize, usize), w: int) -> T {
    v[p.0 * w + p.1]
}

/// Row-major cell indices are injective over a grid.
proof fn lemma_cell_index_injective(a: (usize, usize), b: (usize, usize), w: int)
    requires
        w >= 1,
        a.1 < w,
        b.1 < w,
        a.0 * w + a.1 == b.0 * w + b.1,
    ensures
        a == b,
{
    assert(a.0 == b.0 && a.1 == b.1) by (nonlinear_arith)
        requires
            w >= 1,
            a.1 < w,
            b.1 < w,
            a.0 * w + a.1 == b.0 * w + b.1,
            a.0 >= 0,
            b.0 >= 0,
    ;
}

/// A cell's row-major index lies inside the flat array.
proof fn lemma_cell_index_bound(p: (usize, usize), h: int, w: int)
    requires
        w >= 1,
        p.0 < h,
        p.1 < w,
    ensures
        p.0 * w + p.1 < h * w,
{
    assert(p.0 * w + p.1 < h * w) by (nonlinear_arith)
        requires
            w >= 1,
            0 <= p.0 < h,
            0 <= p.1 < w,
    ;
}

/// Number of true entries.
pub open spec fn count_true(s: Seq<bool>) -> nat
    decreases s.len(),
{
    if s.len() == 0 {
        0
    } else {
        count_true(s.drop_last()) + (if s.last() {
            1nat
        } else {
            0nat
        })
    }
}

/// The count of true entries never exceeds the length.
proof fn lemma_count_true_le_len(s: Seq<bool>)
    ensures
        count_true(s) <= s.len(),
    decreases s.len(),
{
    if s.len() > 0 {
        lemma_count_true_le_len(s.drop_last());
    }
}

/// A false entry keeps the count strictly below the length.
proof fn lemma_count_true_lt(s: Seq<bool>, i: int)
    requires
        0 <= i < s.len(),
        !s[i],
    ensures
        count_true(s) < s.len(),
    decreases s.len(),
{
    lemma_count_true_le_len(s.drop_last());
    if i < s.len() - 1 {
        lemma_count_true_lt(s.drop_last(), i);
    }
}

/// Flipping one entry to true raises the count by one exactly when the
/// entry was false.
proof fn lemma_count_true_update(s: Seq<bool>, i: int)
    requires
        0 <= i < s.len(),
    ensures
        count_true(s.update(i, true)) == count_true(s) + (if s[i] {
            0nat
        } else {
            1nat
        }),
    decreases s.len(),
{
    if i == s.len() - 1 {
        assert(s.update(i, true).drop_last() =~= s.drop_last());
        assert(s.update(i, true).last());
    } else {
        assert(s.update(i, true).drop_last() =~= s.drop_last().update(i, true));
        assert(s.update(i, true).last() == s.last());
        lemma_count_true_update(s.drop_last(), i);
    }
}

/// One pathfinding step from `a` to `b` is allowed when `a`'s tile carries
/// a carved flag toward `b`.
pub open spec fn step_allowed(
    g: Seq<Seq<Option<Tile>>>,
    a: (usize, usize),
    b: (usize, usize),
) -> bool {
    &&& g[a.0 as int][a.1 as int] is Some
    &&& {
        let t = g[a.0 as int][a.1 as int]->0;
        ||| (t.left > 0 && b.0 as int == a.0 - 1 && b.1 == a.1)
        ||| (t.right > 0 && b.0 == a.0 + 1 && b.1 == a.1)
        ||| (t.up > 0 && b.0 == a.0 && b.1 == a.1 + 1)
        ||| (t.down > 0 && b.0 == a.0 && b.1 as int == a.1 - 1)
    }
}

/// An in-grid route whose every step follows a carved passage.
pub open spec fn valid_path(
    g: Seq<Seq<Option<Tile>>>,
    path: Seq<(usize, usize)>,
    height: int,
    width: int,
) -> bool {
    &&& forall|i: int| 0 <= i < path.len() ==> in_grid(#[trigger] path[i], height, width)
    &&& forall|i: int| 0 <= i < path.len() - 1 ==> step_allowed(g, #[trigger] path[i], path[i + 1])
}

/// `end` can be reached from `start` through carved passages.
pub open spec fn reachable(
    g: Seq<Seq<Option<Tile>>>,
    start: (usize, usize),
    end: (usize, usize),
    height: int,
    width: int,
) -> bool {
    exists|path: Seq<(usize, usize)>|
        valid_path(g, path, height, width) && path.len() > 0 && path[0] == start && path.last()
            == end
}

/// Membership in a sequence survives a push.
proof fn lemma_push_contains<T>(s: Seq<T>, v: T, x: T)
    requires
        s.contains(x),
    ensures
        s.push(v).contains(x),
{
    let i = choose|i: int| 0 <= i < s.len() && s[i] == x;
    assert(s.push(v)[i] == x);
}

/// Gets all tiles that a tile at the given position is able to navigate
/// to: the in-grid neighbors behind a carved flag.  An uncarved cell, or a
/// flag pointing off the grid, yields no neighbors rather than a fault.
fn get_adjacent_accessible(nodepos: (usize, usize), nodes: &Vec<Vec<Option<Tile>>>) -> (r: Vec<
    (usize, usize),
>)
    requires
        nodepos.0 < grid_view(*nodes).len(),
        nodepos.1 < grid_view(*nodes)[nodepos.0 as int].len(),
    ensures
        forall|t: int|
            0 <= t < r@.len() ==> step_allowed(grid_view(*nodes), nodepos, #[trigger] r@[t])
                && r@[t].0 < grid_view(*nodes).len() && r@[t].1 < grid_view(*nodes)[r@[t].0 as int].len(),
        forall|b: (usize, usize)|
            #![trigger step_allowed(grid_view(*nodes), nodepos, b)]
            step_allowed(grid_view(*nodes), nodepos, b) && b.0 < grid_view(*nodes).len() && b.1
                < grid_view(*nodes)[b.0 as int].len() ==> r@.contains(b),
        forall|t1: int, t2: int|
            #![trigger r@[t1], r@[t2]]
            0 <= t1 < t2 < r@.len() ==> r@[t1] != r@[t2],
{
    let mut adjacent_nodes: Vec<(usize, usize)> = Vec::new();
    let nrows = nodes.len();
    proof {
        assert(grid_view(*nodes).len() == nodes@.len());
        assert(grid_view(*nodes)[nodepos.0 as int] == nodes@[nodepos.0 as int]@);
    }
    let rlen = nodes[nodepos.0].len();
    let tile = match nodes[nodepos.0][nodepos.1] {
        Some(t) => t,
        None => {
            return adjacent_nodes;
        },
    };
    let ghost g = grid_view(*nodes);
    // Adds positions of other nodes to adjacent_nodes if the tile has a
    // path to them
    let push_left: bool = tile.left > 0 && nodepos.0 > 0 && {
        proof {
            assert(g[nodepos.0 - 1].len() == nodes@[nodepos.0 - 1]@.len());
        }
        nodes[nodepos.0 - 1].len() > nodepos.1
    };
    if push_left {
        adjacent_nodes.push((nodepos.0 - 1, nodepos.1));
        proof {
            assert(adjacent_nodes@.last() == ((nodepos.0 - 1) as usize, nodepos.1));
            assert(adjacent_nodes@.contains(((nodepos.0 - 1) as usize, nodepos.1)));
        }
    }
    let push_right: bool = tile.right > 0 && nodepos.0 + 1 < nrows && {
        proof {
            assert(g[nodepos.0 + 1].len() == nodes@[nodepos.0 + 1]@.len());
        }
        nodes[nodepos.0 + 1].len() > nodepos.1
    };
    if push_right {
        let ghost pre = adjacent_nodes@;
        adjacent_nodes.push((nodepos.0 + 1, nodepos.1));
        proof {
            assert(adjacent_nodes@.last() == ((nodepos.0 + 1) as usize, nodepos.1));
            assert(adjacent_nodes@.contains(((nodepos.0 + 1) as usize, nodepos.1)));
            if push_left {
                lemma_push_contains(
                    pre,
                    ((nodepos.0 + 1) as usize, nodepos.1),
                    ((nodepos.0 - 1) as usize, nodepos.1),
                );
            }
        }
    }
    let push_up: bool = tile.up > 0 && nodepos.1 + 1 < rlen;
    if push_up {
        let ghost pre = adjacent_nodes@;
        adjacent_nodes.push((nodepos.0, nodepos.1 + 1));
        proof {
            assert(adjacent_nodes@.last() == (nodepos.0, (nodepos.1 + 1) as usize));
            assert(adjacent_nodes@.contains((nodepos.0, (nodepos.1 + 1) as usize)));
            if push_left {
                lemma_push_contains(
                    pre,
                    (nodepos.0, (nodepos.1 + 1) as usize),
                    ((nodepos.0 - 1) as usize, nodepos.1),
                );
            }
            if push_right {
                lemma_push_contains(
                    pre,
                    (nodepos.0, (nodepos.1 + 1) as usize),
                    ((nodepos.0 + 1) as usize, nodepos.1),
                );
            }
        }
    }
    let push_down: bool = tile.down > 0 && nodepos.1 > 0;
    if push_down {
        let ghost pre = adjacent_nodes@;
        adjacent_nodes.push((nodepos.0, nodepos.1 - 1));
        proof {
            assert(adjacent_nodes@.last() == (nodepos.0, (nodepos.1 - 1) as usize));
            assert(adjacent_nodes@.contains((nodepos.0, (nodepos.1 - 1) as usize)));
            if push_left {
                lemma_push_contains(
                    pre,
                    (nodepos.0, (nodepos.1 - 1) as usize),
                    ((nodepos.0 - 1) as usize, nodepos.1),
                );
            }
            if push_right {
                lemma_push_contains(
                    pre,
                    (nodepos.0, (nodepos.1 - 1) as usize),
                    ((nodepos.0 + 1) as usize, nodepos.1),
                );
            }
            if push_up {
                lemma_push_contains(
                    pre,
                    (nodepos.0, (nodepos.1 - 1) as usize),
                    (nodepos.0, (nodepos.1 + 1) as usize),
                );
            }
        }
    }
    proof {
        assert forall|b: (usize, usize)|
            #![trigger step_allowed(g, nodepos, b)]
            step_allowed(g, nodepos, b) && b.0 < g.len() && b.1 < g[b.0 as int].len()
            implies adjacent_nodes@.contains(b) by {
            assert(g[b.0 as int].len() == nodes@[b.0 as int]@.len());
            if b.0 as int == nodepos.0 - 1 && b.1 == nodepos.1 && tile.left > 0 {
                assert(push_left);
            } else if b.0 == nodepos.0 + 1 && b.1 == nodepos.1 && tile.right > 0 {
                assert(push_right);
            } else if b.0 == nodepos.0 && b.1 == nodepos.1 + 1 && tile.up > 0 {
                assert(push_up);
            } else {
                assert(b.0 == nodepos.0 && b.1 as int == nodepos.1 - 1 && tile.down > 0);
                assert(push_down);
            }
        }
        // the candidates are four distinct positions, each pushed at most
        // once, so the list holds no duplicates
        assert forall|t1: int, t2: int|
            #![trigger adjacent_nodes@[t1], adjacent_nodes@[t2]]
            0 <= t1 < t2 < adjacent_nodes@.len() implies adjacent_nodes@[t1]
            != adjacent_nodes@[t2] by {}
    }
    adjacent_nodes
}

/// Returns the manhattan distance of the given points.
fn manhattan_dist(start: &(usize, usize), end: &(usize, usize)) -> (r: usize)
    requires
        (if end.0 >= start.0 {
            end.0 - start.0
        } else {
            start.0 - end.0
        }) + (if end.1 >= start.1 {
            end.1 - start.1
        } else {
            start.1 - end.1
        }) <= usize::MAX,
    ensures
        r == (if end.0 >= start.0 {
            end.0 - start.0
        } else {
            start.0 - end.0
        }) + (if end.1 >= start.1 {
            end.1 - start.1
        } else {
            start.1 - end.1
        }),
{
    let dx: usize = if end.0 >= start.0 {
        end.0 - start.0
    } else {
        start.0 - end.0
    };
    let dy: usize = if end.1 >= start.1 {
        end.1 - start.1
    } else {
        start.1 - end.1
    };
    dx + dy
}

/// The search bookkeeping is well formed: every recorded predecessor is a
/// carved step with a strictly smaller cost, only the start has a cost but
/// no predecessor, and costs never exceed the number of opened cells.
pub open spec fn search_wf(
    g: Seq<Seq<Option<Tile>>>,
    gs: Seq<Option<usize>>,
    cf: Seq<Option<(usize, usize)>>,
    ever: Seq<bool>,
    start: (usize, usize),
    height: int,
    width: int,
) -> bool {
    &&& gs.len() == height * width
    &&& cf.len() == height * width
    &&& ever.len() == height * width
    &&& at_cell(gs, start, width) == Some(0usize)
    &&& forall|p: (usize, usize)|
        #![trigger at_cell(cf, p, width)]
        in_grid(p, height, width) ==> match at_cell(cf, p, width) {
            Some(q) => {
                &&& in_grid(q, height, width)
                &&& step_allowed(g, q, p)
                &&& at_cell(gs, q, width) is Some
                &&& at_cell(gs, p, width) is Some
                &&& at_cell(gs, q, width)->0 < at_cell(gs, p, width)->0
            },
            None => at_cell(gs, p, width) is Some ==> p == start,
        }
    &&& forall|p: (usize, usize)|
        #![trigger at_cell(gs, p, width)]
        in_grid(p, height, width) && at_cell(gs, p, width) is Some ==> at_cell(gs, p, width)->0
            <= count_true(ever)
}

/// Returns the node positions of the pathed route by walking the recorded
/// predecessors back from the end; the walk lands on the start, whose cost
/// is zero and which alone has no predecessor.
fn reconstruct_path(
    came_from: &Vec<Option<(usize, usize)>>,
    g_score: &Vec<Option<usize>>,
    ghost_ever: Ghost<Seq<bool>>,
    maze: &Vec<Vec<Option<Tile>>>,
    start: (usize, usize),
    end: (usize, usize),
    width: usize,
) -> (total_path: Vec<(usize, usize)>)
    requires
        width >= 1,
        grid_view(*maze).len() * width <= usize::MAX,
        search_wf(
            grid_view(*maze),
            g_score@,
            came_from@,
            ghost_ever@,
            start,
            grid_view(*maze).len() as int,
            width as int,
        ),
        in_grid(end, grid_view(*maze).len() as int, width as int),
        at_cell(g_score@, end, width as int) is Some,
        in_grid(start, grid_view(*maze).len() as int, width as int),
    ensures
        total_path@.len() > 0,
        total_path@[0] == start,
        total_path@.last() == end,
        valid_path(grid_view(*maze), total_path@, grid_view(*maze).len() as int, width as int),
        forall|i: int, j: int|
            #![trigger total_path@[i], total_path@[j]]
            0 <= i < j < total_path@.len() ==> total_path@[i] != total_path@[j],
{
    let ghost g = grid_view(*maze);
    let ghost height = grid_view(*maze).len() as int;
    let mut total_path: Vec<(usize, usize)> = Vec::new();
    let mut current = end;
    loop
        invariant
            width >= 1,
            g == grid_view(*maze),
            height == g.len() as int,
            g.len() * width <= usize::MAX,
            search_wf(g, g_score@, came_from@, ghost_ever@, start, height, width as int),
            in_grid(end, height, width as int),
            in_grid(start, height, width as int),
            in_grid(current, height, width as int),
            at_cell(g_score@, current, width as int) is Some,
            total_path@.len() == 0 ==> current == end,
            total_path@.len() > 0 ==> {
                &&& total_path@[0] == current
                &&& step_allowed(g, total_path@.last(), end)
                &&& forall|i: int|
                    0 <= i < total_path@.len() ==> in_grid(#[trigger] total_path@[i], height, width as int)
                &&& forall|i: int|
                    0 <= i < total_path@.len() - 1 ==> step_allowed(
                        g,
                        #[trigger] total_path@[i],
                        total_path@[i + 1],
                    )
                &&& forall|i: int|
                    0 <= i < total_path@.len() ==> at_cell(
                        g_score@,
                        #[trigger] total_path@[i],
                        width as int,
                    ) is Some
                &&& forall|i: int, j: int|
                    #![trigger total_path@[i], total_path@[j]]
                    0 <= i < j < total_path@.len() ==> at_cell(
                        g_score@,
                        total_path@[i],
                        width as int,
                    )->0 < at_cell(g_score@, total_path@[j], width as int)->0
                &&& at_cell(g_score@, total_path@.last(), width as int)->0 < at_cell(
                    g_score@,
                    end,
                    width as int,
                )->0
            },
        ensures
            current == start,
            total_path@.len() == 0 ==> current == end,
            total_path@.len() > 0 ==> {
                &&& total_path@[0] == current
                &&& step_allowed(g, total_path@.last(), end)
                &&& forall|i: int|
                    0 <= i < total_path@.len() ==> in_grid(#[trigger] total_path@[i], height, width as int)
                &&& forall|i: int|
                    0 <= i < total_path@.len() - 1 ==> step_allowed(
                        g,
                        #[trigger] total_path@[i],
                        total_path@[i + 1],
                    )
                &&& forall|i: int|
                    0 <= i < total_path@.len() ==> at_cell(
                        g_score@,
                        #[trigger] total_path@[i],
                        width as int,
                    ) is Some
                &&& forall|i: int, j: int|
                    #![trigger total_path@[i], total_path@[j]]
                    0 <= i < j < total_path@.len() ==> at_cell(
                        g_score@,
                        total_path@[i],
                        width as int,
                    )->0 < at_cell(g_score@, total_path@[j], width as int)->0
                &&& at_cell(g_score@, total_path@.last(), width as int)->0 < at_cell(
                    g_score@,
                    end,
                    width as int,
                )->0
            },
        decreases at_cell(g_score@, current, width as int)->0,
    {
        proof {
            lemma_cell_index_bound(current, height, width as int);
        }
        let idx: usize = current.0 * width + current.1;
        let previous_node = match came_from[idx] {
            Some(p) => p,
            None => {
                proof {
                    assert(at_cell(came_from@, current, width as int) is None);
                }
                break ;
            },
        };
        proof {
            assert(at_cell(came_from@, current, width as int) == Some(previous_node));
        }
        let ghost prev_path = total_path@;
        total_path.insert(0, previous_node);
        proof {
            assert(total_path@ == prev_path.insert(0, previous_node));
            assert forall|i: int|
                0 <= i < total_path@.len() implies in_grid(
                #[trigger] total_path@[i],
                height,
                width as int,
            ) by {
                crate::econtainer::lemma_seq_insert_index(prev_path, 0, previous_node, i);
                if i > 0 {
                    assert(total_path@[i] == prev_path[i - 1]);
                }
            }
            assert forall|i: int|
                0 <= i < total_path@.len() - 1 implies step_allowed(
                g,
                #[trigger] total_path@[i],
                total_path@[i + 1],
            ) by {
                crate::econtainer::lemma_seq_insert_index(prev_path, 0, previous_node, i);
                crate::econtainer::lemma_seq_insert_index(prev_path, 0, previous_node, i + 1);
                if i == 0 {
                    assert(total_path@[0] == previous_node);
                    if prev_path.len() > 0 {
                        assert(total_path@[1] == prev_path[0]);
                        assert(step_allowed(g, previous_node, current));
                    } else {
                        assert(total_path@[1] == previous_node || total_path@.len() == 1);
                    }
                } else {
                    assert(total_path@[i] == prev_path[i - 1]);
                    assert(total_path@[i + 1] == prev_path[i]);
                }
            }
            if prev_path.len() == 0 {
                assert(total_path@.last() == previous_node);
                assert(step_allowed(g, previous_node, end));
            } else {
                assert(total_path@.last() == prev_path.last());
            }
            // the cost strictly drops at the recorded predecessor, so the
            // route's costs stay strictly increasing front to back
            assert(at_cell(g_score@, previous_node, width as int) is Some);
            assert(at_cell(g_score@, previous_node, width as int)->0 < at_cell(
                g_score@,
                current,
                width as int,
            )->0);
            assert forall|i: int|
                0 <= i < total_path@.len() implies at_cell(
                g_score@,
                #[trigger] total_path@[i],
                width as int,
            ) is Some by {
                crate::econtainer::lemma_seq_insert_index(prev_path, 0, previous_node, i);
                if i > 0 {
                    assert(total_path@[i] == prev_path[i - 1]);
                }
            }
            assert forall|i: int, j: int|
                #![trigger total_path@[i], total_path@[j]]
                0 <= i < j < total_path@.len() implies at_cell(
                g_score@,
                total_path@[i],
                width as int,
            )->0 < at_cell(g_score@, total_path@[j], width as int)->0 by {
                crate::econtainer::lemma_seq_insert_index(prev_path, 0, previous_node, i);
                crate::econtainer::lemma_seq_insert_index(prev_path, 0, previous_node, j);
                assert(total_path@[j] == prev_path[j - 1]);
                if i == 0 {
                    assert(total_path@[0] == previous_node);
                    assert(prev_path[0] == current);
                } else {
                    assert(total_path@[i] == prev_path[i - 1]);
                }
            }
        }
        current = previous_node;
    }
    let ghost prev_path = total_path@;
    total_path.push(end);
    proof {
        if prev_path.len() == 0 {
            assert(current == end);
            assert(total_path@[0] == end);
        } else {
            assert(total_path@[0] == prev_path[0]);
        }
        assert(total_path@.last() == end);
        assert forall|i: int|
            0 <= i < total_path@.len() - 1 implies step_allowed(
            g,
            #[trigger] total_path@[i],
            total_path@[i + 1],
        ) by {
            if i < prev_path.len() - 1 {
                assert(total_path@[i] == prev_path[i]);
                assert(total_path@[i + 1] == prev_path[i + 1]);
            } else {
                assert(i == prev_path.len() - 1);
                assert(total_path@[i] == prev_path.last());
            }
        }
        // strictly increasing costs force pairwise distinct cells
        assert forall|i: int, j: int|
            #![trigger total_path@[i], total_path@[j]]
            0 <= i < j < total_path@.len() implies total_path@[i] != total_path@[j] by {
            if j < prev_path.len() {
                assert(total_path@[i] == prev_path[i]);
                assert(total_path@[j] == prev_path[j]);
                assert(at_cell(g_score@, prev_path[i], width as int)->0 < at_cell(
                    g_score@,
                    prev_path[j],
                    width as int,
                )->0);
            } else {
                assert(j == prev_path.len());
                assert(total_path@[j] == end);
                assert(total_path@[i] == prev_path[i]);
                if i < prev_path.len() - 1 {
                    assert(at_cell(g_score@, prev_path[i], width as int)->0 < at_cell(
                        g_score@,
                        prev_path[prev_path.len() - 1],
                        width as int,
                    )->0);
                }
                assert(at_cell(g_score@, prev_path[prev_path.len() - 1], width as int)->0 < at_cell(
                    g_score@,
                    end,
                    width as int,
                )->0);
            }
        }
    }
    total_path
}


/// A flat all-`None` bookkeeping array with one slot per grid cell.
fn none_cells<T>(n: usize) -> (r: Vec<Option<T>>)
    ensures
        r@.len() == n,
        forall|i: int| 0 <= i < n ==> #[trigger] r@[i] is None,
{
    let mut r: Vec<Option<T>> = Vec::new();
    let mut i: usize = 0;
    while i < n
        invariant
            0 <= i <= n,
            r@.len() == i,
            forall|j: int| 0 <= j < i ==> #[trigger] r@[j] is None,
        decreases n - i,
    {
        r.push(None);
        i = i + 1;
    }
    r
}

/// A flat all-`false` membership array with one slot per grid cell.
fn false_cells(n: usize) -> (r: Vec<bool>)
    ensures
        r@.len() == n,
        forall|i: int| 0 <= i < n ==> !(#[trigger] r@[i]),
        count_true(r@) == 0,
{
    let mut r: Vec<bool> = Vec::new();
    let mut i: usize = 0;
    while i < n
        invariant
            0 <= i <= n,
            r@.len() == i,
            forall|j: int| 0 <= j < i ==> !(#[trigger] r@[j]),
            count_true(r@) == 0,
        decreases n - i,
    {
        let ghost prev = r@;
        r.push(false);
        proof {
            assert(r@.drop_last() =~= prev);
            assert(!r@.last());
        }
        i = i + 1;
    }
    r
}

/// Costs spread along carved routes: when every costed cell is expanded
/// and expansion costs every carved successor, a route whose head is
/// costed has a costed tail.
proof fn lemma_search_closure(
    g: Seq<Seq<Option<Tile>>>,
    gs: Seq<Option<usize>>,
    popped: Set<(usize, usize)>,
    path: Seq<(usize, usize)>,
    height: int,
    width: int,
)
    requires
        valid_path(g, path, height, width),
        path.len() > 0,
        at_cell(gs, path[0], width) is Some,
        forall|p: (usize, usize)|
            #![trigger at_cell(gs, p, width)]
            in_grid(p, height, width) && at_cell(gs, p, width) is Some ==> popped.contains(p),
        forall|p: (usize, usize), q: (usize, usize)|
            #![trigger popped.contains(p), step_allowed(g, p, q)]
            popped.contains(p) && in_grid(q, height, width) && step_allowed(g, p, q) ==> at_cell(
                gs,
                q,
                width,
            ) is Some,
    ensures
        at_cell(gs, path.last(), width) is Some,
    decreases path.len(),
{
    if path.len() > 1 {
        let prefix = path.drop_last();
        assert forall|i: int| 0 <= i < prefix.len() implies in_grid(
            #[trigger] prefix[i],
            height,
            width,
        ) by {
            assert(prefix[i] == path[i]);
        }
        assert forall|i: int| 0 <= i < prefix.len() - 1 implies step_allowed(
            g,
            #[trigger] prefix[i],
            prefix[i + 1],
        ) by {
            assert(prefix[i] == path[i] && prefix[i + 1] == path[i + 1]);
        }
        lemma_search_closure(g, gs, popped, prefix, height, width);
        assert(prefix.last() == path[path.len() - 2]);
        assert(step_allowed(g, path[path.len() - 2], path[path.len() - 1]));
        assert(popped.contains(path[path.len() - 2]));
    }
}

/// Paths the maze using the A* algorithm: expands the open cell with the
/// lowest cost-plus-manhattan-estimate, following only carved passages,
/// until the end cell is reached; an exhausted open set yields an empty
/// route rather than a fault.  A returned route is a valid carved route
/// from `start` to `end` inclusive that visits no cell twice, so a pair
/// of cells with no carved connection always yields the empty route.
#[verifier::rlimit(100)]
#[verifier::spinoff_prover]
pub fn path_maze(maze: &Vec<Vec<Option<Tile>>>, start: &(usize, usize), end: &(usize, usize)) -> (path: Vec<(usize, usize)>)
    requires
        grid_view(*maze).len() >= 1,
        grid_view(*maze)[0].len() >= 1,
        forall|x: int|
            0 <= x < grid_view(*maze).len() ==> #[trigger] grid_view(*maze)[x].len() == grid_view(
                *maze,
            )[0].len(),
        in_grid(*start, grid_view(*maze).len() as int, grid_view(*maze)[0].len() as int),
        in_grid(*end, grid_view(*maze).len() as int, grid_view(*maze)[0].len() as int),
        grid_view(*maze).len() * grid_view(*maze)[0].len() + grid_view(*maze).len() + grid_view(
            *maze,
        )[0].len() + 1 <= usize::MAX,
    ensures
        path@.len() > 0 ==> path@[0] == *start && path@.last() == *end && valid_path(
            grid_view(*maze),
            path@,
            grid_view(*maze).len() as int,
            grid_view(*maze)[0].len() as int,
        ),
        path@.len() > 0 ==> reachable(
            grid_view(*maze),
            *start,
            *end,
            grid_view(*maze).len() as int,
            grid_view(*maze)[0].len() as int,
        ),
        (reachable(
            grid_view(*maze),
            *start,
            *end,
            grid_view(*maze).len() as int,
            grid_view(*maze)[0].len() as int,
        ) <==> path@.len() > 0),
        forall|i: int, j: int|
            #![trigger path@[i], path@[j]]
            0 <= i < j < path@.len() ==> path@[i] != path@[j],
        *start == *end ==> path@.len() > 0,
{
    let ghost g = grid_view(*maze);
    let ghost height_i = grid_view(*maze).len() as int;
    let height = maze.len();
    proof {
        assert(g.len() == maze@.len());
        assert(g[start.0 as int] == maze@[start.0 as int]@);
    }
    let width = maze[0].len();
    proof {
        assert(g[0] == maze@[0]@);
    }
    let ghost width_i = g[0].len() as int;
    let n = height * width;
    proof {
        lemma_cell_index_bound(*start, height_i, width_i);
        lemma_cell_index_bound(*end, height_i, width_i);
    }
    if start.0 == end.0 && start.1 == end.1 {
        // The start is the end: the route is the single shared cell
        let mut single: Vec<(usize, usize)> = Vec::new();
        single.push(*start);
        proof {
            assert(single@[0] == *start);
            assert(single@.last() == *end);
            assert(valid_path(g, single@, height_i, width_i));
            assert(reachable(g, *start, *end, height_i, width_i));
        }
        return single;
    }
    // Map of costs to reach a given node, flat over the grid
    let mut g_score: Vec<Option<usize>> = none_cells(n);
    // Map of nodes to their previous node
    let mut came_from: Vec<Option<(usize, usize)>> = none_cells(n);
    // Membership set: which nodes were ever placed in the open set
    let mut open_set_set: Vec<bool> = false_cells(n);
    // Open set of (f-score, node), f being cost plus heuristic estimate
    let mut open_set: Vec<(usize, (usize, usize))> = Vec::new();

    let start_idx: usize = start.0 * width + start.1;
    g_score[start_idx] = Some(0);
    let ghost pre_ever = open_set_set@;
    open_set_set[start_idx] = true;
    proof {
        lemma_count_true_update(pre_ever, start_idx as int);
        assert(count_true(open_set_set@) == 1);
    }
    let h0 = manhattan_dist(start, end);
    open_set.push((h0, *start));
    proof {
        assert forall|p: (usize, usize)|
            #![trigger at_cell(came_from@, p, width_i)]
            #![trigger at_cell(open_set_set@, p, width_i)]
            in_grid(p, height_i, width_i) implies at_cell(came_from@, p, width_i) is None && (
        at_cell(g_score@, p, width_i) is Some ==> p == *start) && (at_cell(
            open_set_set@,
            p,
            width_i,
        ) ==> at_cell(g_score@, p, width_i) is Some) by {
            lemma_cell_index_bound(p, height_i, width_i);
            if p != *start && p.0 * width_i + p.1 == start.0 * width_i + start.1 {
                lemma_cell_index_injective(p, *start, width_i);
            }
        }
        assert(at_cell(g_score@, *start, width_i) == Some(0usize));
        assert forall|p: (usize, usize)|
            #![trigger at_cell(g_score@, p, width_i)]
            in_grid(p, height_i, width_i) && at_cell(g_score@, p, width_i) is Some implies at_cell(
            g_score@,
            p,
            width_i,
        )->0 <= count_true(open_set_set@) by {
            lemma_cell_index_bound(p, height_i, width_i);
            if p != *start && p.0 * width_i + p.1 == start.0 * width_i + start.1 {
                lemma_cell_index_injective(p, *start, width_i);
            }
        }
    }

    let ghost mut popped: Set<(usize, usize)> = Set::empty();
    proof {
        assert(g_score@.len() == height_i * width_i);
        assert(came_from@.len() == height_i * width_i);
        assert(open_set_set@.len() == height_i * width_i);
        assert(at_cell(g_score@, *start, width_i) == Some(0usize));
        assert(search_wf(g, g_score@, came_from@, open_set_set@, *start, height_i, width_i));
        assert(open_set@[0].1 == *start);
        assert forall|p: (usize, usize)|
            #![trigger at_cell(g_score@, p, width_i)]
            in_grid(p, height_i, width_i) && at_cell(g_score@, p, width_i)
            is Some implies popped.contains(p) || exists|u: int|
            0 <= u < open_set@.len() && (#[trigger] open_set@[u]).1 == p by {
            assert(at_cell(came_from@, p, width_i) is None);
            assert(p == *start);
            assert(open_set@[0].1 == p);
        }
    }
    while open_set.len() > 0
        invariant
            g == grid_view(*maze),
            height_i == g.len() as int,
            width_i == g[0].len() as int,
            height == g.len(),
            width == g[0].len(),
            width >= 1,
            height >= 1,
            forall|x: int| 0 <= x < g.len() ==> #[trigger] g[x].len() == width_i,
            n == height * width,
            n + height + width + 1 <= usize::MAX,
            in_grid(*start, height_i, width_i),
            in_grid(*end, height_i, width_i),
            search_wf(g, g_score@, came_from@, open_set_set@, *start, height_i, width_i),
            forall|p: (usize, usize)|
                #![trigger at_cell(open_set_set@, p, width_i)]
                in_grid(p, height_i, width_i) && at_cell(open_set_set@, p, width_i) ==> at_cell(
                    g_score@,
                    p,
                    width_i,
                ) is Some,
            forall|t: int|
                0 <= t < open_set@.len() ==> in_grid(#[trigger] open_set@[t].1, height_i, width_i)
                    && at_cell(g_score@, open_set@[t].1, width_i) is Some,
            count_true(open_set_set@) <= n,
            !popped.contains(*end),
            forall|p: (usize, usize)|
                #![trigger at_cell(g_score@, p, width_i)]
                in_grid(p, height_i, width_i) && at_cell(g_score@, p, width_i) is Some
                    ==> popped.contains(p) || exists|u: int|
                    0 <= u < open_set@.len() && (#[trigger] open_set@[u]).1 == p,
            forall|p: (usize, usize), q: (usize, usize)|
                #![trigger popped.contains(p), step_allowed(g, p, q)]
                popped.contains(p) && in_grid(q, height_i, width_i) && step_allowed(g, p, q)
                    ==> at_cell(g_score@, q, width_i) is Some,
        decreases open_set@.len() + 2 * (n - count_true(open_set_set@)),
    {
        let ghost measure0 = open_set@.len() + 2 * (n - count_true(open_set_set@));
        // Picks the open node with the smallest f-score
        let mut m: usize = 0;
        let mut t: usize = 1;
        while t < open_set.len()
            invariant
                open_set@.len() > 0,
                0 <= m < open_set@.len(),
                1 <= t <= open_set@.len(),
            decreases open_set@.len() - t,
        {
            if open_set[t].0 < open_set[m].0 {
                m = t;
            }
            t = t + 1;
        }
        let current = open_set[m].1;
        let ghost pre_open = open_set@;
        open_set.remove(m);
        proof {
            assert(in_grid(current, height_i, width_i));
            assert(at_cell(g_score@, current, width_i) is Some);
            assert forall|u: int|
                0 <= u < open_set@.len() implies in_grid(#[trigger] open_set@[u].1, height_i, width_i)
                && at_cell(g_score@, open_set@[u].1, width_i) is Some by {
                lemma_seq_remove_index(pre_open, m as int, u);
            }
            assert forall|p: (usize, usize)|
                #![trigger at_cell(g_score@, p, width_i)]
                in_grid(p, height_i, width_i) && at_cell(g_score@, p, width_i)
                is Some implies popped.contains(p) || p == current || exists|u: int|
                0 <= u < open_set@.len() && (#[trigger] open_set@[u]).1 == p by {
                if !popped.contains(p) && p != current {
                    let u0 = choose|u: int| 0 <= u < pre_open.len() && (#[trigger] pre_open[u]).1 == p;
                    if u0 < m {
                        lemma_seq_remove_index(pre_open, m as int, u0);
                        assert(open_set@[u0].1 == p);
                    } else {
                        assert(u0 != m);
                        lemma_seq_remove_index(pre_open, m as int, u0 - 1);
                        assert(open_set@[u0 - 1].1 == p);
                    }
                }
            }
        }
        if current.0 == end.0 && current.1 == end.1 {
            let r = reconstruct_path(
                &came_from,
                &g_score,
                Ghost(open_set_set@),
                maze,
                *start,
                *end,
                width,
            );
            proof {
                assert(reachable(g, *start, *end, height_i, width_i)) by {
                    assert(valid_path(g, r@, height_i, width_i) && r@.len() > 0 && r@[0] == *start
                        && r@.last() == *end);
                }
            }
            return r;
        }
        let accessible_list = get_adjacent_accessible(current, maze);
        proof {
            lemma_cell_index_bound(current, height_i, width_i);
        }
        let gidx: usize = current.0 * width + current.1;
        let current_g = g_score[gidx].unwrap();
        proof {
            assert(at_cell(g_score@, current, width_i) == Some(current_g));
            assert(current_g <= count_true(open_set_set@));
            lemma_count_true_le_len(open_set_set@);
        }
        // Distance from the start to the neighbor through the current node
        let tentative_g_score = current_g + 1;
        let mut a: usize = 0;
        while a < accessible_list.len()
            invariant
                g == grid_view(*maze),
                height_i == g.len() as int,
                width_i == g[0].len() as int,
                height == g.len(),
                width == g[0].len(),
                width >= 1,
                height >= 1,
                forall|x: int| 0 <= x < g.len() ==> #[trigger] g[x].len() == width_i,
                n == height * width,
                n + height + width + 1 <= usize::MAX,
                in_grid(*start, height_i, width_i),
                in_grid(*end, height_i, width_i),
                in_grid(current, height_i, width_i),
                0 <= a <= accessible_list@.len(),
                forall|u: int|
                    0 <= u < accessible_list@.len() ==> step_allowed(
                        g,
                        current,
                        #[trigger] accessible_list@[u],
                    ) && in_grid(accessible_list@[u], height_i, width_i),
                search_wf(g, g_score@, came_from@, open_set_set@, *start, height_i, width_i),
                forall|p: (usize, usize)|
                    #![trigger at_cell(open_set_set@, p, width_i)]
                    in_grid(p, height_i, width_i) && at_cell(open_set_set@, p, width_i) ==> at_cell(
                        g_score@,
                        p,
                        width_i,
                    ) is Some,
                forall|u: int|
                    0 <= u < open_set@.len() ==> in_grid(#[trigger] open_set@[u].1, height_i, width_i)
                        && at_cell(g_score@, open_set@[u].1, width_i) is Some,
                count_true(open_set_set@) <= n,
                at_cell(g_score@, current, width_i) == Some(current_g),
                tentative_g_score == current_g + 1,
                tentative_g_score <= count_true(open_set_set@) + 1,
                open_set@.len() + 2 * (n - count_true(open_set_set@)) <= measure0 - 1,
                !popped.contains(*end),
                forall|p: (usize, usize)|
                    #![trigger at_cell(g_score@, p, width_i)]
                    in_grid(p, height_i, width_i) && at_cell(g_score@, p, width_i) is Some
                        ==> popped.contains(p) || p == current || exists|u: int|
                        0 <= u < open_set@.len() && (#[trigger] open_set@[u]).1 == p,
                forall|p: (usize, usize), q: (usize, usize)|
                    #![trigger popped.contains(p), step_allowed(g, p, q)]
                    popped.contains(p) && in_grid(q, height_i, width_i) && step_allowed(g, p, q)
                        ==> at_cell(g_score@, q, width_i) is Some,
                forall|u: int|
                    0 <= u < a ==> at_cell(g_score@, #[trigger] accessible_list@[u], width_i)
                        is Some,
            decreases accessible_list@.len() - a,
        {
            let accessible = accessible_list[a];
            proof {
                lemma_cell_index_bound(accessible, height_i, width_i);
            }
            let aidx: usize = accessible.0 * width + accessible.1;
            let better: bool = match g_score[aidx] {
                None => true,
                Some(old_g) => tentative_g_score < old_g,
            };
            // With a lower g_score, the maps are updated to reflect the
            // shortest known route to that neighbor
            if better {
                proof {
                    assert(at_cell(g_score@, accessible, width_i) == g_score@[aidx as int]);
                    if accessible == *start {
                        assert(at_cell(g_score@, *start, width_i) == Some(0usize));
                        assert(false);
                    }
                    assert(current != accessible);
                    assert(at_cell(g_score@, current, width_i) == Some(current_g));
                }
                let ghost pre_gs = g_score@;
                let ghost pre_cf = came_from@;
                let ghost pre_ever_all = open_set_set@;
                let ghost pre_open2 = open_set@;
                let ghost pre_count = count_true(open_set_set@);
                came_from[aidx] = Some(current);
                g_score[aidx] = Some(tentative_g_score);
                let heuristic = manhattan_dist(&accessible, end);
                let f_score = tentative_g_score + heuristic;
                if !open_set_set[aidx] {
                    proof {
                        lemma_count_true_lt(open_set_set@, aidx as int);
                    }
                    open_set.push((f_score, accessible));
                    let ghost pre_ever2 = open_set_set@;
                    open_set_set[aidx] = true;
                    proof {
                        lemma_count_true_update(pre_ever2, aidx as int);
                        assert(count_true(open_set_set@) == pre_count + 1);
                    }
                } else {
                    proof {
                        assert(at_cell(pre_ever_all, accessible, width_i));
                        assert(at_cell(pre_gs, accessible, width_i) is Some);
                        assert(tentative_g_score < at_cell(pre_gs, accessible, width_i)->0);
                    }
                }
                proof {
                    assert forall|p: (usize, usize)|
                        #![trigger at_cell(came_from@, p, width_i)]
                        #![trigger at_cell(g_score@, p, width_i)]
                        #![trigger at_cell(open_set_set@, p, width_i)]
                        in_grid(p, height_i, width_i) implies {
                        &&& at_cell(came_from@, p, width_i) == (if p == accessible {
                            Some(current)
                        } else {
                            at_cell(pre_cf, p, width_i)
                        })
                        &&& at_cell(g_score@, p, width_i) == (if p == accessible {
                            Some(tentative_g_score)
                        } else {
                            at_cell(pre_gs, p, width_i)
                        })
                        &&& at_cell(open_set_set@, p, width_i) == (if p == accessible {
                            true
                        } else {
                            at_cell(pre_ever_all, p, width_i)
                        })
                    } by {
                        lemma_cell_index_bound(p, height_i, width_i);
                        if p != accessible && p.0 * width_i + p.1 == accessible.0 * width_i
                            + accessible.1 {
                            lemma_cell_index_injective(p, accessible, width_i);
                        }
                    }
                    // every recorded predecessor still has a strictly
                    // smaller cost, and the new record points to `current`
                    assert(step_allowed(g, current, accessible));
                    assert(at_cell(g_score@, current, width_i) == Some(current_g));
                    assert forall|p: (usize, usize)|
                        #![trigger at_cell(came_from@, p, width_i)]
                        in_grid(p, height_i, width_i) implies match at_cell(came_from@, p, width_i) {
                        Some(q) => {
                            &&& in_grid(q, height_i, width_i)
                            &&& step_allowed(g, q, p)
                            &&& at_cell(g_score@, q, width_i) is Some
                            &&& at_cell(g_score@, p, width_i) is Some
                            &&& at_cell(g_score@, q, width_i)->0 < at_cell(g_score@, p, width_i)->0
                        },
                        None => at_cell(g_score@, p, width_i) is Some ==> p == *start,
                    } by {
                        if p == accessible {
                            assert(at_cell(came_from@, p, width_i) == Some(current));
                        } else {
                            assert(at_cell(came_from@, p, width_i) == at_cell(pre_cf, p, width_i));
                            match at_cell(pre_cf, p, width_i) {
                                Some(q) => {
                                    assert(at_cell(g_score@, q, width_i) == (if q == accessible {
                                        Some(tentative_g_score)
                                    } else {
                                        at_cell(pre_gs, q, width_i)
                                    }));
                                },
                                None => {},
                            }
                        }
                    }
                    // costs stay bounded by the number of opened cells
                    assert forall|p: (usize, usize)|
                        #![trigger at_cell(g_score@, p, width_i)]
                        in_grid(p, height_i, width_i) && at_cell(g_score@, p, width_i)
                            is Some implies at_cell(g_score@, p, width_i)->0 <= count_true(
                        open_set_set@,
                    ) by {
                        if p != accessible {
                            assert(at_cell(g_score@, p, width_i) == at_cell(pre_gs, p, width_i));
                        }
                    }
                    // open entries stay valid
                    assert forall|u: int|
                        0 <= u < open_set@.len() implies in_grid(
                        #[trigger] open_set@[u].1,
                        height_i,
                        width_i,
                    ) && at_cell(g_score@, open_set@[u].1, width_i) is Some by {
                        if u < pre_open2.len() {
                            assert(open_set@[u] == pre_open2[u]);
                            let q = pre_open2[u].1;
                            assert(at_cell(g_score@, q, width_i) == (if q == accessible {
                                Some(tentative_g_score)
                            } else {
                                at_cell(pre_gs, q, width_i)
                            }));
                        } else {
                            assert(open_set@[u].1 == accessible);
                        }
                    }
                    // every costed cell is still expanded, pending, or new
                    assert forall|p: (usize, usize)|
                        #![trigger at_cell(g_score@, p, width_i)]
                        in_grid(p, height_i, width_i) && at_cell(g_score@, p, width_i)
                        is Some implies popped.contains(p) || p == current || exists|u: int|
                        0 <= u < open_set@.len() && (#[trigger] open_set@[u]).1 == p by {
                        if p == accessible {
                            if open_set@.len() > pre_open2.len() {
                                assert(open_set@[pre_open2.len() as int].1 == accessible);
                            } else {
                                assert(at_cell(open_set_set@, p, width_i));
                                assert(at_cell(pre_gs, p, width_i) is Some);
                                if !popped.contains(p) && p != current {
                                    let u0 = choose|u: int|
                                        0 <= u < pre_open2.len() && (#[trigger] pre_open2[u]).1
                                            == p;
                                    assert(open_set@[u0].1 == p);
                                }
                            }
                        } else {
                            assert(at_cell(g_score@, p, width_i) == at_cell(pre_gs, p, width_i));
                            if !popped.contains(p) && p != current {
                                let u0 = choose|u: int|
                                    0 <= u < pre_open2.len() && (#[trigger] pre_open2[u]).1 == p;
                                assert(open_set@[u0].1 == p);
                            }
                        }
                    }
                    // expanded cells' carved successors keep their costs
                    assert forall|p: (usize, usize), q: (usize, usize)|
                        #![trigger popped.contains(p), step_allowed(g, p, q)]
                        popped.contains(p) && in_grid(q, height_i, width_i) && step_allowed(
                        g,
                        p,
                        q,
                    ) implies at_cell(g_score@, q, width_i) is Some by {
                        if q != accessible {
                            assert(at_cell(g_score@, q, width_i) == at_cell(pre_gs, q, width_i));
                        }
                    }
                }
            }
            a = a + 1;
        }
        proof {
            popped = popped.insert(current);
            assert(current != *end);
            // the freshly expanded cell's carved successors are all costed
            assert forall|p: (usize, usize), q: (usize, usize)|
                #![trigger popped.contains(p), step_allowed(g, p, q)]
                popped.contains(p) && in_grid(q, height_i, width_i) && step_allowed(g, p, q)
                implies at_cell(g_score@, q, width_i) is Some by {
                if p == current {
                    assert(accessible_list@.contains(q));
                    let u = choose|u: int|
                        0 <= u < accessible_list@.len() && accessible_list@[u] == q;
                    assert(at_cell(g_score@, accessible_list@[u], width_i) is Some);
                }
            }
        }
    }
    //Returns blank vector if no path found
    proof {
        if reachable(g, *start, *end, height_i, width_i) {
            let path = choose|path: Seq<(usize, usize)>|
                valid_path(g, path, height_i, width_i) && path.len() > 0 && path[0] == *start
                    && path.last() == *end;
            assert forall|p: (usize, usize)|
                #![trigger at_cell(g_score@, p, width_i)]
                in_grid(p, height_i, width_i) && at_cell(g_score@, p, width_i)
                is Some implies popped.contains(p) by {
                if !popped.contains(p) {
                    let u0 = choose|u: int| 0 <= u < open_set@.len() && (#[trigger] open_set@[u]).1 == p;
                }
            }
            assert(at_cell(g_score@, *start, width_i) is Some);
            lemma_search_closure(g, g_score@, popped, path, height_i, width_i);
            assert(popped.contains(*end));
            assert(false);
        }
    }
    let empty: Vec<(usize, usize)> = Vec::new();
    empty
}

} // verus!
