//! What the carvers that grow a tree corridor by corridor share: the
//! square each corridor is drawn on, the visited corridors closing off as
//! the walk goes on, and an open lattice filling up from its first corridor.

use vstd::prelude::*;

use super::{Lattice, all_walls, is_open_lattice};
use crate::maze::grid::{Cell, Step, adjacent, after_step, lemma_square_index};
use crate::maze::walks::{
    all_joined, lemma_joined_extend, lemma_opened_only, lemma_replay_push, open_in, opened_only, replay,
};

verus! {

/// The square of corridor `p`.
pub open spec fn corridor_square(p: (usize, usize)) -> (usize, usize) {
    ((2 * p.0 + 1) as usize, (2 * p.1 + 1) as usize)
}

/// Every visited corridor that is not held in `keep` has all its open
/// neighbours visited too.
#[verifier::opaque]
pub open spec fn closed_off(lattice: Lattice, vis: Set<(usize, usize)>, keep: Seq<(usize, usize)>) -> bool {
    forall|p: (usize, usize), q: (usize, usize)|
        #[trigger] vis.contains(p) && !keep.contains(p) && lattice.open_at(q) && #[trigger] adjacent(p, q)
            ==> vis.contains(q)
}

/// Every visited corridor shows an open square.
#[verifier::opaque]
pub open spec fn shows_visited(vis: Set<(usize, usize)>, cells: Seq<Cell>, w: int, h: int) -> bool {
    forall|p: (usize, usize)| #[trigger] vis.contains(p) ==> open_in(cells, w, h, corridor_square(p))
}

/// Visiting one more corridor and holding it keeps the rest closed off.
pub proof fn lemma_closed_grow(lattice: Lattice, vis: Set<(usize, usize)>, keep: Seq<(usize, usize)>, x: (usize, usize))
    requires
        closed_off(lattice, vis, keep),
    ensures
        closed_off(lattice, vis.insert(x), keep.push(x)),
{
    reveal(closed_off);
    assert forall|p: (usize, usize), q: (usize, usize)|
        #[trigger] vis.insert(x).contains(p) && !keep.push(x).contains(p) && lattice.open_at(q) && #[trigger] adjacent(
            p,
            q,
        ) implies vis.insert(x).contains(q) by {
        if keep.contains(p) {
            let j = choose|j: int| 0 <= j < keep.len() && keep[j] == p;
            assert(keep.push(x)[j] == p);
        }
        if p == x {
            assert(keep.push(x)[keep.len() as int] == x);
        }
        assert(vis.contains(p));
    }
}

/// Letting go of the last held corridor, once all its open neighbours
/// are visited, keeps the visited corridors closed off.
pub proof fn lemma_closed_pop(lattice: Lattice, vis: Set<(usize, usize)>, keep: Seq<(usize, usize)>)
    requires
        closed_off(lattice, vis, keep),
        keep.len() > 0,
        forall|q: (usize, usize)| lattice.open_at(q) && #[trigger] adjacent(keep.last(), q) ==> vis.contains(q),
    ensures
        closed_off(lattice, vis, keep.drop_last()),
{
    reveal(closed_off);
    assert forall|p: (usize, usize), q: (usize, usize)|
        #[trigger] vis.contains(p) && !keep.drop_last().contains(p) && lattice.open_at(q) && #[trigger] adjacent(
            p,
            q,
        ) implies vis.contains(q) by {
        if keep.contains(p) {
            let j = choose|j: int| 0 <= j < keep.len() && keep[j] == p;
            if j < keep.len() - 1 {
                assert(keep.drop_last()[j] == p);
            } else {
                assert(adjacent(keep.last(), q));
            }
        }
    }
}

/// Letting go of a held corridor, once all its open neighbours are
/// visited, keeps the visited corridors closed off.
pub proof fn lemma_closed_remove(lattice: Lattice, vis: Set<(usize, usize)>, keep: Seq<(usize, usize)>, j: int)
    requires
        closed_off(lattice, vis, keep),
        0 <= j < keep.len(),
        forall|q: (usize, usize)| lattice.open_at(q) && #[trigger] adjacent(keep[j], q) ==> vis.contains(q),
    ensures
        closed_off(lattice, vis, keep.remove(j)),
{
    reveal(closed_off);
    assert forall|p: (usize, usize), q: (usize, usize)|
        #[trigger] vis.contains(p) && !keep.remove(j).contains(p) && lattice.open_at(q) && #[trigger] adjacent(
            p,
            q,
        ) implies vis.contains(q) by {
        if keep.contains(p) {
            let m = choose|m: int| 0 <= m < keep.len() && keep[m] == p;
            if m < j {
                assert(keep.remove(j)[m] == p);
            } else if m > j {
                assert(keep.remove(j)[m - 1] == p);
            } else {
                assert(adjacent(keep[j], q));
            }
        }
    }
}

/// Opening one square keeps what the visited corridors show, and shows a
/// corridor whose square it is.
pub proof fn lemma_shows_step(
    vis: Set<(usize, usize)>,
    before: Seq<Cell>,
    after: Seq<Cell>,
    w: int,
    h: int,
    fresh: (usize, usize),
    p: (usize, usize),
)
    requires
        shows_visited(vis, before, w, h),
        opened_only(before, after, w, h, fresh),
    ensures
        shows_visited(vis, after, w, h),
        fresh == corridor_square(p) ==> shows_visited(vis.insert(p), after, w, h),
{
    reveal(shows_visited);
    assert forall|r: (usize, usize)| #[trigger] vis.contains(r) implies open_in(after, w, h, corridor_square(r)) by {
        let s = corridor_square(r);
        assert(open_in(before, w, h, s));
        lemma_square_index(w, h, s.0 as int, s.1 as int);
    }
    if fresh == corridor_square(p) {
        assert forall|r: (usize, usize)| #[trigger] vis.insert(p).contains(r) implies open_in(
            after,
            w,
            h,
            corridor_square(r),
        ) by {
            if r != p {
                assert(vis.contains(r));
            }
        }
    }
}

/// On the open lattice, a set of corridors that holds corridor (0, 0) and
/// is closed off holds every corridor.
pub proof fn lemma_closed_fills(lattice: Lattice, vis: Set<(usize, usize)>, x: int, y: int)
    requires
        is_open_lattice(lattice, lattice.spec_width(), lattice.spec_height()),
        vis.contains((0usize, 0usize)),
        closed_off(lattice, vis, Seq::empty()),
        0 <= x < lattice.spec_width(),
        0 <= y < lattice.spec_height(),
    ensures
        vis.contains((x as usize, y as usize)),
    decreases y, x,
{
    reveal(closed_off);
    let lw = lattice.spec_width();
    let lh = lattice.spec_height();
    lemma_square_index(lw, lh, x, y);
    let q = (x as usize, y as usize);
    assert(lattice.open_at(q));
    if x > 0 {
        lemma_closed_fills(lattice, vis, x - 1, y);
        let p = ((x - 1) as usize, y as usize);
        assert(adjacent(p, q));
        assert(!Seq::<(usize, usize)>::empty().contains(p));
    } else if y > 0 {
        lemma_closed_fills(lattice, vis, 0, y - 1);
        let p = (0usize, (y - 1) as usize);
        assert(adjacent(p, q));
        assert(!Seq::<(usize, usize)>::empty().contains(p));
    }
}

/// Listed in row-major order, the corridors of a nonempty open lattice
/// start with corridor (0, 0).
pub proof fn lemma_first_corridor(lattice: Lattice, corridors: Seq<(usize, usize)>)
    requires
        is_open_lattice(lattice, lattice.spec_width(), lattice.spec_height()),
        corridors.len() > 0,
        forall|k: int| 0 <= k < corridors.len() ==> lattice.open_at(#[trigger] corridors[k]),
        forall|x: int, y: int| #[trigger] lattice.is_open(x, y) ==> corridors.contains((x as usize, y as usize)),
        forall|k1: int, k2: int|
            0 <= k1 < k2 < corridors.len() ==> (#[trigger] corridors[k1]).1 * lattice.spec_width() + corridors[k1].0
                < (#[trigger] corridors[k2]).1 * lattice.spec_width() + corridors[k2].0,
    ensures
        corridors[0] == (0usize, 0usize),
{
    let lw = lattice.spec_width();
    let lh = lattice.spec_height();
    assert(lattice.open_at(corridors[0]));
    lemma_square_index(lw, lh, 0, 0);
    assert(lattice.is_open(0, 0));
    assert(corridors.contains((0usize, 0usize)));
    let k = choose|k: int| 0 <= k < corridors.len() && corridors[k] == (0usize, 0usize);
    if k > 0 {
        assert(corridors[0].1 * lw + corridors[0].0 < corridors[k].1 * lw + corridors[k].0);
        assert(0 <= corridors[0].1 * lw) by (nonlinear_arith)
            requires
                0 <= corridors[0].1,
                0 <= lw,
        ;
    }
}

/// One more step that opens a square keeps the replayed cells in step with
/// the steps, keeps what the visited corridors show, and, when `check`
/// holds, keeps every open square joined to square (1, 1): the square is
/// that one, or was open already, or lies next to the open square `anchor`.
pub proof fn lemma_grow_step(
    blank: Seq<Cell>,
    w: int,
    h: int,
    steps: Seq<Step>,
    cells: Seq<Cell>,
    step: Step,
    vis: Set<(usize, usize)>,
    anchor: (usize, usize),
    check: bool,
)
    requires
        cells == replay(blank, w, steps),
        cells.len() == w * h,
        1 < w,
        1 < h,
        step.x < w,
        step.y < h,
        step.cell != Cell::Wall,
        shows_visited(vis, cells, w, h),
        check ==> all_joined(cells, w, h, (1, 1)),
        check ==> (step.x, step.y) == (1usize, 1usize) || open_in(cells, w, h, (step.x, step.y)) || (open_in(
            cells,
            w,
            h,
            anchor,
        ) && adjacent(anchor, (step.x, step.y))),
    ensures
        after_step(cells, w, step) == replay(blank, w, steps.push(step)),
        after_step(cells, w, step).len() == w * h,
        opened_only(cells, after_step(cells, w, step), w, h, (step.x, step.y)),
        shows_visited(vis, after_step(cells, w, step), w, h),
        check ==> all_joined(after_step(cells, w, step), w, h, (1, 1)),
{
    reveal(shows_visited);
    let after = after_step(cells, w, step);
    lemma_replay_push(blank, w, steps, step);
    lemma_opened_only(cells, w, h, step);
    lemma_shows_step(vis, cells, after, w, h, (step.x, step.y), (0, 0));
    if check {
        lemma_joined_extend(cells, after, w, h, (1, 1), (step.x, step.y), anchor);
    }
}

/// A visited corridor's square is open.
pub proof fn lemma_shows(vis: Set<(usize, usize)>, cells: Seq<Cell>, w: int, h: int, p: (usize, usize))
    requires
        shows_visited(vis, cells, w, h),
        vis.contains(p),
    ensures
        open_in(cells, w, h, corridor_square(p)),
{
    reveal(shows_visited);
}

/// Nothing visited yet: nothing to show, nothing to close off.
pub proof fn lemma_nothing_visited(lattice: Lattice, cells: Seq<Cell>, w: int, h: int)
    ensures
        shows_visited(Set::empty(), cells, w, h),
        closed_off(lattice, Set::empty(), Seq::empty()),
{
    reveal(shows_visited);
    reveal(closed_off);
}

/// The width of the grid a lattice is drawn on.
pub open spec fn drawn_width(lattice: Lattice) -> int {
    2 * lattice.spec_width() + 1
}

/// The height of the grid a lattice is drawn on.
pub open spec fn drawn_height(lattice: Lattice) -> int {
    2 * lattice.spec_height() + 1
}

/// The drawn grid's cells once `steps` are replayed on a field of walls.
pub open spec fn drawn(lattice: Lattice, steps: Seq<Step>) -> Seq<Cell> {
    replay(all_walls(drawn_width(lattice) * drawn_height(lattice)), drawn_width(lattice), steps)
}

/// What a carver that grows one tree keeps true of the visited corridors
/// and the steps so far: the replayed grid has its size, shows every
/// visited corridor, and on the open lattice hangs together from square
/// (1, 1), the first corridor visited.
pub open spec fn grows_tree(lattice: Lattice, vis: Set<(usize, usize)>, steps: Seq<Step>) -> bool {
    let w = drawn_width(lattice);
    let h = drawn_height(lattice);
    &&& drawn(lattice, steps).len() == w * h
    &&& shows_visited(vis, drawn(lattice, steps), w, h)
    &&& is_open_lattice(lattice, lattice.spec_width(), lattice.spec_height()) ==> all_joined(
        drawn(lattice, steps),
        w,
        h,
        (1, 1),
    )
    &&& is_open_lattice(lattice, lattice.spec_width(), lattice.spec_height()) ==> forall|p: (usize, usize)|
        #[trigger] vis.contains(p) ==> vis.contains((0usize, 0usize))
}

/// Before any step, nothing is visited and the tree is empty.
pub proof fn lemma_grows_tree_start(lattice: Lattice)
    requires
        lattice.wf(),
    ensures
        grows_tree(lattice, Set::empty(), Seq::empty()),
{
    let w = drawn_width(lattice);
    let h = drawn_height(lattice);
    let blank = all_walls(w * h);
    lattice.lemma_fits();
    assert(0 <= w * h) by (nonlinear_arith)
        requires
            0 <= w,
            0 <= h,
    ;
    reveal(replay);
    assert(drawn(lattice, Seq::empty()) == blank);
    assert forall|p: (usize, usize)| #[trigger] open_in(blank, w, h, p) implies crate::maze::walks::joins(
        blank,
        w,
        h,
        (1, 1),
        p,
    ) by {
        lemma_square_index(w, h, p.0 as int, p.1 as int);
    }
    lemma_nothing_visited(lattice, blank, w, h);
}

} // verus!
