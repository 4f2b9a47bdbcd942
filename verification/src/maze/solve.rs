//! The breadth-first flood from Start and the shortest path it yields.

use vstd::prelude::*;

use crate::maze::grid::{Cell, Flood, Grid, adjacent, decode, square_index, square_of};

verus! {

/// A breadth-first flood from the start and the shortest path it yields.
pub struct Solution {
    /// Every reachable square with its distance from the start, in the order
    /// the flood reaches them, so distances never decrease along the list.
    pub flood: Vec<(usize, usize, usize)>,
    pub max_distance: usize,
    /// Shortest path from Start to End, both included.
    pub path: Vec<(usize, usize)>,
}

/// `p` is the first square, in row-major order, holding `wanted`.
pub open spec fn is_first(grid: &Grid, wanted: Cell, p: (usize, usize)) -> bool {
    &&& grid.inside(p)
    &&& grid.cell(p.0 as int, p.1 as int) == wanted
    &&& forall|x: int, y: int|
        grid.in_bounds(x, y) && square_index(grid.spec_width(), x, y) < grid.idx(p) ==> #[trigger] grid.cell(
            x,
            y,
        ) != wanted
}

/// The first square holding `wanted`, if any.
pub open spec fn first_square(grid: &Grid, wanted: Cell) -> Option<(usize, usize)> {
    if exists|p: (usize, usize)| is_first(grid, wanted, p) {
        Some(choose|p: (usize, usize)| is_first(grid, wanted, p))
    } else {
        None
    }
}

/// There is only one first square.
pub proof fn lemma_first_unique(grid: &Grid, wanted: Cell, p: (usize, usize), q: (usize, usize))
    requires
        grid.wf(),
        is_first(grid, wanted, p),
        is_first(grid, wanted, q),
    ensures
        p == q,
{
    let w = grid.spec_width();
    if grid.idx(p) < grid.idx(q) {
        assert(grid.cell(p.0 as int, p.1 as int) != wanted);
    } else if grid.idx(q) < grid.idx(p) {
        assert(grid.cell(q.0 as int, q.1 as int) != wanted);
    } else {
        crate::maze::grid::lemma_square_index_injective(w, p.0 as int, p.1 as int, q.0 as int, q.1 as int);
    }
}

/// What `Grid::find` returns is the first square.
proof fn lemma_find_first(grid: &Grid, wanted: Cell, r: Option<(usize, usize)>)
    requires
        grid.wf(),
        r is None ==> forall|x: int, y: int|
            grid.in_bounds(x, y) ==> #[trigger] grid.cell(x, y) != wanted,
        r matches Some(p) ==> {
            &&& grid.in_bounds(p.0 as int, p.1 as int)
            &&& grid.cell(p.0 as int, p.1 as int) == wanted
            &&& forall|x: int, y: int|
                grid.in_bounds(x, y) && square_index(grid.spec_width(), x, y) < square_index(
                    grid.spec_width(),
                    p.0 as int,
                    p.1 as int,
                ) ==> #[trigger] grid.cell(x, y) != wanted
        },
    ensures
        r == first_square(grid, wanted),
{
    match r {
        Some(p) => {
            assert(is_first(grid, wanted, p));
            let q = choose|q: (usize, usize)| is_first(grid, wanted, q);
            lemma_first_unique(grid, wanted, p, q);
        },
        None => {
            if exists|p: (usize, usize)| is_first(grid, wanted, p) {
                let p = choose|p: (usize, usize)| is_first(grid, wanted, p);
                assert(grid.cell(p.0 as int, p.1 as int) != wanted);
            }
        },
    }
}

/// A solution of the grid from `start` to `end`: the path is a shortest
/// route, and the flood lists every reachable square once, with its
/// distance, in order of distance.
pub open spec fn solves(grid: &Grid, start: (usize, usize), end: (usize, usize), sol: &Solution) -> bool {
    &&& grid.is_route(sol.path@)
    &&& sol.path@[0] == start
    &&& sol.path@.last() == end
    &&& grid.distance_is(start, end, sol.path@.len() - 1)
    &&& sol.flood@.len() >= 1
    &&& sol.flood@[0] == (start.0, start.1, 0usize)
    &&& forall|k: int|
        0 <= k < sol.flood@.len() ==> {
            &&& grid.inside(square_of(#[trigger] sol.flood@[k]))
            &&& grid.distance_is(start, square_of(sol.flood@[k]), sol.flood@[k].2 as int)
        }
    &&& forall|k1: int, k2: int|
        0 <= k1 < k2 < sol.flood@.len() ==> square_of(#[trigger] sol.flood@[k1]) != square_of(
            #[trigger] sol.flood@[k2],
        )
    &&& forall|k1: int, k2: int|
        0 <= k1 <= k2 < sol.flood@.len() ==> (#[trigger] sol.flood@[k1]).2 <= (
        #[trigger] sol.flood@[k2]).2
    &&& forall|p: (usize, usize)|
        grid.inside(p) && #[trigger] grid.reachable(start, p) ==> exists|k: int|
            0 <= k < sol.flood@.len() && square_of(#[trigger] sol.flood@[k]) == p
    &&& sol.max_distance == sol.flood@.last().2
}

/// None when the grid has no Start, no End, or no route between them.
pub fn solve(grid: &Grid) -> (r: Option<Solution>)
    requires
        grid.wf(),
    ensures
        match (first_square(grid, Cell::Start), first_square(grid, Cell::End)) {
            (Some(start), Some(end)) => {
                &&& r is Some <==> grid.reachable(start, end)
                &&& r matches Some(sol) ==> solves(grid, start, end, &sol)
            },
            _ => r is None,
        },
{
    let found_start = grid.find(Cell::Start);
    let found_end = grid.find(Cell::End);
    proof {
        lemma_find_first(grid, Cell::Start, found_start);
        lemma_find_first(grid, Cell::End, found_end);
    }
    let start = match found_start {
        Some(p) => p,
        None => return None,
    };
    let end = match found_end {
        Some(p) => p,
        None => return None,
    };
    let width = grid.width();
    let f = grid.flood(start.0, start.1);
    proof {
        crate::maze::grid::lemma_square_index(grid.spec_width(), grid.spec_height(), end.0 as int, end.1 as int);
        crate::maze::grid::lemma_square_index(grid.spec_width(), grid.spec_height(), start.0 as int, start.1 as int);
        grid.lemma_flood_distances(start, &f);
        grid.lemma_flood_shape(start, &f);
    }
    let e = end.1 * width + end.0;
    let s = start.1 * width + start.0;
    if f.distance[e] == usize::MAX {
        proof {
            assert(!grid.reached(&f, end));
        }
        return None;
    }
    proof {
        assert(end != start);
        grid.lemma_flood_shape(start, &f);
        grid.lemma_flood_came(start, &f, end);
    }
    // walk back from the end along came_from
    let mut back: Vec<(usize, usize)> = Vec::new();
    back.push(end);
    let mut current = e;
    let mut here = end;
    while current != s
        invariant
            grid.wf(),
            grid.is_flood(start, &f),
            grid.inside(start),
            grid.inside(end),
            width == grid.spec_width(),
            s == grid.idx(start),
            grid.inside(here),
            current == grid.idx(here),
            grid.reached(&f, here),
            grid.reached(&f, end),
            back@.len() >= 1,
            back@[0] == end,
            back@.last() == here,
            back@.len() + grid.dist(&f, here) == grid.dist(&f, end) + 1,
            forall|i: int|
                0 <= i < back@.len() ==> {
                    &&& grid.inside(#[trigger] back@[i])
                    &&& grid.reached(&f, back@[i])
                    &&& grid.dist(&f, back@[i]) == grid.dist(&f, end) - i
                    &&& (back@[i] != start ==> grid.open_at(back@[i]))
                },
            forall|i: int| 0 <= i < back@.len() - 1 ==> adjacent(#[trigger] back@[i], back@[i + 1]),
        decreases grid.dist(&f, here),
    {
        proof {
            grid.lemma_flood_shape(start, &f);
            crate::maze::grid::lemma_square_index(
                grid.spec_width(),
                grid.spec_height(),
                here.0 as int,
                here.1 as int,
            );
        }
        let c = f.came_from[current];
        let q = (c % width, c / width);
        proof {
            grid.lemma_flood_came(start, &f, here);
            assert(q == decode(grid.spec_width(), c as int));
            if q != start {
                grid.lemma_flood_came(start, &f, q);
            }
        }
        back.push(q);
        current = c;
        here = q;
    }
    proof {
        assert(here == start) by {
            crate::maze::grid::lemma_square_index_injective(
                grid.spec_width(),
                here.0 as int,
                here.1 as int,
                start.0 as int,
                start.1 as int,
            );
        }
    }
    // and turn it around
    let n = back.len();
    let mut path: Vec<(usize, usize)> = Vec::new();
    let mut i: usize = 0;
    while i < n
        invariant
            n == back@.len(),
            i <= n,
            path@.len() == i,
            forall|j: int| 0 <= j < i ==> #[trigger] path@[j] == back@[n - 1 - j],
        decreases n - i,
    {
        path.push(back[n - 1 - i]);
        i = i + 1;
    }
    let last = f.order[f.order.len() - 1];
    let max_distance = last.2;
    let Flood { order, distance: _, came_from: _ } = f;
    let sol = Solution { flood: order, max_distance, path };
    proof {
        lemma_solution(grid, start, end, &f, back@, &sol);
    }
    Some(sol)
}


proof fn lemma_solution(
    grid: &Grid,
    start: (usize, usize),
    end: (usize, usize),
    f: &Flood,
    back: Seq<(usize, usize)>,
    sol: &Solution,
)
    requires
        grid.wf(),
        grid.is_flood(start, f),
        grid.inside(start),
        grid.inside(end),
        grid.reached(f, end),
        back.len() >= 1,
        back[0] == end,
        back.last() == start,
        back.len() == grid.dist(f, end) + 1,
        forall|i: int|
            0 <= i < back.len() ==> {
                &&& grid.inside(#[trigger] back[i])
                &&& grid.reached(f, back[i])
                &&& grid.dist(f, back[i]) == grid.dist(f, end) - i
                &&& (back[i] != start ==> grid.open_at(back[i]))
            },
        forall|i: int| 0 <= i < back.len() - 1 ==> adjacent(#[trigger] back[i], back[i + 1]),
        sol.path@.len() == back.len(),
        forall|j: int| 0 <= j < back.len() ==> #[trigger] sol.path@[j] == back[back.len() - 1 - j],
        sol.flood@ == f.order@,
        sol.max_distance == f.order@.last().2,
    ensures
        solves(grid, start, end, sol),
        grid.reachable(start, end),
{
    grid.lemma_flood_shape(start, f);
    grid.lemma_flood_distances(start, f);
    let n = back.len();
    let p = sol.path@;
    assert forall|j: int| 0 <= j < p.len() implies grid.inside(#[trigger] p[j]) by {
        assert(grid.inside(back[n - 1 - j]));
    }
    assert forall|j: int| 1 <= j < p.len() implies grid.open_at(#[trigger] p[j]) by {
        let b = back[n - 1 - j];
        assert(grid.dist(f, b) == grid.dist(f, end) - (n - 1 - j));
        assert(b != start);
    }
    assert forall|j: int| 0 <= j < p.len() - 1 implies adjacent(#[trigger] p[j], p[j + 1]) by {
        assert(adjacent(back[n - 2 - j], back[n - 1 - j]));
    }
    assert(p[0] == back[n - 1]);
    assert(p.last() == back[0]);
    assert(grid.is_route(p));
    assert(grid.distance_is(start, end, grid.dist(f, end)));
    assert forall|k: int| 0 <= k < sol.flood@.len() implies {
        &&& grid.inside(square_of(#[trigger] sol.flood@[k]))
        &&& grid.distance_is(start, square_of(sol.flood@[k]), sol.flood@[k].2 as int)
    } by {
        assert(grid.inside(square_of(f.order@[k])));
        assert(grid.reached(f, square_of(f.order@[k])));
    }
    assert forall|q: (usize, usize)| grid.inside(q) && #[trigger] grid.reachable(start, q) implies exists|k: int|
        0 <= k < sol.flood@.len() && square_of(#[trigger] sol.flood@[k]) == q by {
        assert(grid.reached(f, q));
    }
    assert(grid.is_route(p) && p[0] == start && p.last() == end);
}

} // verus!
