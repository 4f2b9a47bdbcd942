//! Shape figures for a finished maze.

use vstd::prelude::*;

use super::algorithms::braid::{all_inside, count_walkable, open_count};
use super::algorithms::dungeon::{label_regions, label_used};
use super::grid::{Cell, Grid, decode, lemma_neighbours, lemma_square_index, neighbours, neighbours_spec};

verus! {

/// Shape figures for a finished maze, shown next to the viewer.
#[derive(Clone, Copy, Debug)]
pub struct Stats {
    pub walkable: usize,
    /// Walkable squares with a single way out.
    pub dead_ends: usize,
    /// Walkable squares with three or four ways out.
    pub junctions: usize,
    /// Independent cycles: how many walls could be put back without cutting
    /// the maze in two. Zero for a perfect maze.
    pub loops: usize,
    pub doors: usize,
}

impl Default for Stats {
    fn default() -> (stats: Self)
        ensures
            stats.walkable == 0 && stats.dead_ends == 0 && stats.junctions == 0 && stats.loops == 0 && stats.doors
                == 0,
    {
        Stats { walkable: 0, dead_ends: 0, junctions: 0, loops: 0, doors: 0 }
    }
}

/// How many walkable squares are next to `p`.
pub open spec fn exits(grid: &Grid, p: (usize, usize)) -> nat {
    open_count(
        grid@,
        grid.spec_width(),
        neighbours_spec(p.0, p.1, grid.spec_width() as usize, grid.spec_height() as usize),
    )
}

/// The sum of `f` over the first `k` squares in row-major order.
pub open spec fn tally(grid: &Grid, k: int, f: spec_fn((usize, usize)) -> nat) -> nat
    decreases k,
{
    if k <= 0 {
        0
    } else {
        tally(grid, k - 1, f) + f(decode(grid.spec_width(), k - 1))
    }
}

pub open spec fn walkable_at(grid: &Grid) -> spec_fn((usize, usize)) -> nat {
    |p: (usize, usize)| if grid.open_at(p) { 1nat } else { 0nat }
}

pub open spec fn door_at(grid: &Grid) -> spec_fn((usize, usize)) -> nat {
    |p: (usize, usize)| if grid.open_at(p) && grid.cell(p.0 as int, p.1 as int) == Cell::Door { 1nat } else { 0nat }
}

pub open spec fn dead_end_at(grid: &Grid) -> spec_fn((usize, usize)) -> nat {
    |p: (usize, usize)| if grid.open_at(p) && exits(grid, p) == 1 { 1nat } else { 0nat }
}

pub open spec fn junction_at(grid: &Grid) -> spec_fn((usize, usize)) -> nat {
    |p: (usize, usize)| if grid.open_at(p) && exits(grid, p) >= 3 { 1nat } else { 0nat }
}

/// Walkable pairs with `p` as their left or upper end.
pub open spec fn edges_at(grid: &Grid) -> spec_fn((usize, usize)) -> nat {
    |p: (usize, usize)|
        if grid.open_at(p) {
            (if grid.open_at(((p.0 + 1) as usize, p.1)) { 1nat } else { 0nat }) + (if grid.open_at(
                (p.0, (p.1 + 1) as usize),
            ) {
                1nat
            } else {
                0nat
            })
        } else {
            0nat
        }
}

/// The cycle rank of a graph, edges - vertices + pieces: how many
/// independent cycles it has. Never below zero.
pub open spec fn cycle_rank(edges: int, vertices: int, pieces: int) -> int {
    if edges + pieces >= vertices {
        edges + pieces - vertices
    } else {
        0
    }
}

/// `labels` numbers the walkable squares by piece: each gets a number below
/// `count`, every such number is used, and two walkable squares share one
/// exactly when they reach each other. So `count` is the number of pieces.
pub open spec fn numbers_pieces(grid: &Grid, labels: Seq<usize>, count: nat) -> bool {
    &&& labels.len() == grid.spec_width() * grid.spec_height()
    &&& forall|p: (usize, usize)| grid.inside(p) && grid.open_at(p) ==> #[trigger] labels[grid.idx(p)] < count
    &&& forall|l: usize| l < count ==> #[trigger] label_used(grid, labels, l)
    &&& forall|p: (usize, usize), q: (usize, usize)|
        grid.inside(p) && grid.open_at(p) && grid.inside(q) && grid.open_at(q) ==> (#[trigger] labels[grid.idx(p)]
            == #[trigger] labels[grid.idx(q)] <==> grid.reachable(p, q))
}

/// Counts walkable squares, dead ends, junctions, doors, and the cycle rank
/// of the walkable squares and their adjacencies, over all their pieces.
pub fn measure(grid: &Grid) -> (stats: Stats)
    requires
        grid.wf(),
        2 * (grid.spec_width() * grid.spec_height()) + 1 <= usize::MAX,
    ensures
        ({
            let n = grid.spec_width() * grid.spec_height();
            &&& stats.walkable == tally(grid, n, walkable_at(grid))
            &&& stats.doors == tally(grid, n, door_at(grid))
            &&& stats.dead_ends == tally(grid, n, dead_end_at(grid))
            &&& stats.junctions == tally(grid, n, junction_at(grid))
            &&& exists|labels: Seq<usize>, count: nat|
                numbers_pieces(grid, labels, count) && stats.loops == cycle_rank(
                    tally(grid, n, edges_at(grid)) as int,
                    stats.walkable as int,
                    count as int,
                )
        }),
{
    let width = grid.width();
    let height = grid.height();
    let ghost n = width * height;
    let mut stats = Stats::default();
    let mut edges: usize = 0;
    let mut y: usize = 0;
    while y < height
        invariant
            grid.wf(),
            width == grid.spec_width(),
            height == grid.spec_height(),
            n == width * height,
            2 * n + 1 <= usize::MAX,
            y <= height,
            stats.walkable == tally(grid, y * width, walkable_at(grid)),
            stats.doors == tally(grid, y * width, door_at(grid)),
            stats.dead_ends == tally(grid, y * width, dead_end_at(grid)),
            stats.junctions == tally(grid, y * width, junction_at(grid)),
            edges == tally(grid, y * width, edges_at(grid)),
            stats.walkable <= y * width,
            stats.doors <= y * width,
            stats.dead_ends <= y * width,
            stats.junctions <= y * width,
            edges <= 2 * (y * width),
        decreases height - y,
    {
        let mut x: usize = 0;
        while x < width
            invariant
                grid.wf(),
                width == grid.spec_width(),
                height == grid.spec_height(),
                n == width * height,
                2 * n + 1 <= usize::MAX,
                y < height,
                x <= width,
                stats.walkable == tally(grid, y * width + x, walkable_at(grid)),
                stats.doors == tally(grid, y * width + x, door_at(grid)),
                stats.dead_ends == tally(grid, y * width + x, dead_end_at(grid)),
                stats.junctions == tally(grid, y * width + x, junction_at(grid)),
                edges == tally(grid, y * width + x, edges_at(grid)),
                stats.walkable <= y * width + x,
                stats.doors <= y * width + x,
                stats.dead_ends <= y * width + x,
                stats.junctions <= y * width + x,
                edges <= 2 * (y * width + x),
            decreases width - x,
        {
            proof {
                lemma_square_index(width as int, height as int, x as int, y as int);
                assert(decode(width as int, y * width + x) == (x, y));
                assert(y * width + x < n);
            }
            if grid.walkable(x, y) {
                stats.walkable = stats.walkable + 1;
                if grid.get(x, y) == Cell::Door {
                    stats.doors = stats.doors + 1;
                }
                proof {
                    lemma_neighbours(x, y, width, height);
                    assert(all_inside(neighbours_spec(x, y, width, height), width as int, height as int));
                }
                let around = neighbours(x, y, width, height);
                let exits = count_walkable(grid, &around);
                if exits == 1 {
                    stats.dead_ends = stats.dead_ends + 1;
                } else if exits == 3 || exits == 4 {
                    stats.junctions = stats.junctions + 1;
                }
                proof {
                    assert(exits <= 4) by {
                        crate::maze::algorithms::braid::lemma_open_count_bound(
                            grid@,
                            width as int,
                            neighbours_spec(x, y, width, height),
                        );
                    }
                }
                if x + 1 < width && grid.walkable(x + 1, y) {
                    edges = edges + 1;
                }
                if y + 1 < height && grid.walkable(x, y + 1) {
                    edges = edges + 1;
                }
            }
            x = x + 1;
        }
        proof {
            assert(y * width + width == (y + 1) * width) by (nonlinear_arith);
        }
        y = y + 1;
    }
    proof {
        assert(height * width == width * height) by (nonlinear_arith);
    }
    let (labels, pieces) = label_regions(grid);
    let apart = stats.walkable - pieces;
    stats.loops = if edges >= apart { edges - apart } else { 0 };
    proof {
        assert(numbers_pieces(grid, labels@, pieces as nat));
    }
    stats
}

} // verus!
