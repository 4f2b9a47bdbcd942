use rand::rngs::StdRng;
use vstd::prelude::*;

use super::spanning::{
    closed_off, corridor_square, drawn, drawn_height, drawn_width, lemma_closed_fills, lemma_first_corridor,
    lemma_grows_tree_start, lemma_nothing_visited, lemma_shows, lemma_shows_step, shows_visited,
};
use super::{Lattice, all_walls, corridor, floor, floor_step, is_open_lattice, wall_between};
use crate::maze::grid::{Cell, Step, adjacent, after_step, after_steps, lemma_square_index};
use crate::maze::walks::{
    all_joined, joins, lemma_joins_grows, lemma_joins_self, lemma_joins_step, lemma_opened_only, lemma_replay_push,
    open_in, opened_only, replay,
};
use crate::random::random_range;
use super::counting::{
    corridor_cell, lemma_all_seen, lemma_count_blank, lemma_count_uniform, lemma_shown_blank, lemma_shown_corridor,
    lemma_shown_visit, shown_ok, wall_square,
};
use super::dungeon::walkable_count;
use super::{count_true, lemma_count_set};

verus! {

/// A frontier entry: `from` is visited, `to` is the corridor on the other
/// side of the wall.
pub type Wall = ((usize, usize), (usize, usize));

/// Per corridor, visited or queued.
spec fn either(visited: Seq<bool>, queued: Seq<bool>) -> Seq<bool> {
    Seq::new(visited.len(), |j: int| visited[j] || queued[j])
}

/// What Prim keeps counted: the open squares are those of the visited and
/// queued corridors and walls between visited ones; a queued corridor not
/// visited lies next to a visited one; and the open squares number the
/// corridors visited or queued, plus `extra`.
#[verifier::opaque]
spec fn prim_counted(
    lattice: Lattice,
    vis: Set<(usize, usize)>,
    visited: Seq<bool>,
    queued: Seq<bool>,
    cells: Seq<Cell>,
    extra: int,
) -> bool {
    &&& shown_ok(vis, vis.union(lattice.marked(queued)), cells, drawn_width(lattice), drawn_height(lattice))
    &&& forall|q: (usize, usize)|
        #[trigger] lattice.marked(queued).contains(q) && !vis.contains(q) ==> exists|r: (usize, usize)|
            vis.contains(r) && #[trigger] adjacent(r, q)
    &&& visited.len() == queued.len()
    &&& walkable_count(cells) == count_true(either(visited, queued)) + extra
}

/// Before anything: nothing open, nothing visited or queued.
proof fn lemma_prim_start(lattice: Lattice, visited: Seq<bool>, queued: Seq<bool>, cells: Seq<Cell>)
    requires
        lattice.wf(),
        cells == all_walls(drawn_width(lattice) * drawn_height(lattice)),
        visited.len() == queued.len(),
        queued.len() == lattice.spec_width() * lattice.spec_height(),
        forall|j: int| 0 <= j < visited.len() ==> !#[trigger] visited[j] && !queued[j],
    ensures
        prim_counted(lattice, Set::empty(), visited, queued, cells, 0),
{
    reveal(prim_counted);
    lattice.lemma_fits();
    assert(0 <= drawn_width(lattice) * drawn_height(lattice)) by (nonlinear_arith)
        requires
            0 <= drawn_width(lattice),
            0 <= drawn_height(lattice),
    ;
    lemma_shown_blank(cells, drawn_width(lattice), drawn_height(lattice));
    assert forall|p: (usize, usize)| !#[trigger] lattice.marked(queued).contains(p) by {
        if lattice.holds(p) {
            crate::maze::grid::lemma_square_index(lattice.spec_width(), lattice.spec_height(), p.0 as int, p.1 as int);
            assert(!visited[lattice.flat(p)]);
            assert(!queued[lattice.flat(p)]);
        }
    }
    assert(Set::<(usize, usize)>::empty().union(lattice.marked(queued)) =~= Set::<(usize, usize)>::empty());
    lemma_count_blank(cells);
    lemma_count_uniform(either(visited, queued), false);
}

/// Showing a neighbour of a visited corridor as queued opens its square:
/// one more open square, one more corridor queued.
proof fn lemma_prim_probe(
    lattice: Lattice,
    vis: Set<(usize, usize)>,
    visited: Seq<bool>,
    queued: Seq<bool>,
    cells: Seq<Cell>,
    extra: int,
    at: (usize, usize),
    next: (usize, usize),
    probe: Step,
)
    requires
        prim_counted(lattice, vis, visited, queued, cells, extra),
        lattice.wf(),
        lattice.tracks(visited, vis),
        queued.len() == lattice.spec_width() * lattice.spec_height(),
        cells.len() == drawn_width(lattice) * drawn_height(lattice),
        lattice.holds(next),
        !visited[lattice.flat(next)],
        !queued[lattice.flat(next)],
        vis.contains(at),
        adjacent(at, next),
        probe == (Step { x: (2 * next.0 + 1) as usize, y: (2 * next.1 + 1) as usize, cell: Cell::Probe }),
    ensures
        prim_counted(
            lattice,
            vis,
            visited,
            queued.update(lattice.flat(next), true),
            after_step(cells, drawn_width(lattice), probe),
            extra,
        ),
{
    reveal(prim_counted);
    lattice.lemma_fits();
    let w = drawn_width(lattice);
    let h = drawn_height(lattice);
    let queued2 = queued.update(lattice.flat(next), true);
    let shown = vis.union(lattice.marked(queued));
    lattice.lemma_marked_set(queued, next);
    lattice.lemma_tracks_read(visited, vis, next);
    assert(!shown.contains(next));
    lemma_shown_corridor(vis, vis, shown, cells, w, h, next, probe);
    assert(vis.union(lattice.marked(queued2)) =~= shown.insert(next));
    let i = lattice.flat(next);
    crate::maze::grid::lemma_square_index(lattice.spec_width(), lattice.spec_height(), next.0 as int, next.1 as int);
    assert(either(visited, queued2) =~= either(visited, queued).update(i, true));
    lemma_count_set(either(visited, queued), i);
    assert forall|q: (usize, usize)| #[trigger] lattice.marked(queued2).contains(q) && !vis.contains(q) implies exists|
        r: (usize, usize),
    | vis.contains(r) && #[trigger] adjacent(r, q) by {
        if q == next {
            assert(vis.contains(at) && adjacent(at, q));
        } else {
            assert(lattice.marked(queued).contains(q));
        }
    }
}

/// Starting a tree at a corridor no visited corridor touches: its square
/// was shut, and opens; one more corridor visited.
proof fn lemma_prim_seed(
    lattice: Lattice,
    vis: Set<(usize, usize)>,
    visited: Seq<bool>,
    queued: Seq<bool>,
    cells: Seq<Cell>,
    extra: int,
    seed: (usize, usize),
    first: Step,
)
    requires
        prim_counted(lattice, vis, visited, queued, cells, extra),
        lattice.wf(),
        lattice.tracks(visited, vis),
        queued.len() == lattice.spec_width() * lattice.spec_height(),
        cells.len() == drawn_width(lattice) * drawn_height(lattice),
        lattice.holds(seed),
        lattice.open_at(seed),
        !vis.contains(seed),
        closed_off(lattice, vis, Seq::empty()),
        first == floor_step(seed.0 as int, seed.1 as int),
    ensures
        prim_counted(
            lattice,
            vis.insert(seed),
            visited.update(lattice.flat(seed), true),
            queued,
            after_step(cells, drawn_width(lattice), first),
            extra,
        ),
{
    reveal(prim_counted);
    lattice.lemma_fits();
    let w = drawn_width(lattice);
    let h = drawn_height(lattice);
    let shown = vis.union(lattice.marked(queued));
    lattice.lemma_tracks_read(visited, vis, seed);
    if lattice.marked(queued).contains(seed) {
        let r = choose|r: (usize, usize)| vis.contains(r) && #[trigger] adjacent(r, seed);
        reveal(closed_off);
        assert(!Seq::<(usize, usize)>::empty().contains(r));
        assert(vis.contains(seed));
    }
    assert(!shown.contains(seed));
    lemma_shown_corridor(vis, vis.insert(seed), shown, cells, w, h, seed, first);
    assert(vis.insert(seed).union(lattice.marked(queued)) =~= shown.insert(seed));
    let i = lattice.flat(seed);
    crate::maze::grid::lemma_square_index(lattice.spec_width(), lattice.spec_height(), seed.0 as int, seed.1 as int);
    let visited2 = visited.update(i, true);
    assert(either(visited2, queued) =~= either(visited, queued).update(i, true));
    lemma_count_set(either(visited, queued), i);
    assert forall|q: (usize, usize)| #[trigger] lattice.marked(queued).contains(q) && !vis.insert(seed).contains(q) implies exists|
        r: (usize, usize),
    | vis.insert(seed).contains(r) && #[trigger] adjacent(r, q) by {
        let r = choose|r: (usize, usize)| vis.contains(r) && #[trigger] adjacent(r, q);
    }
}

/// Visiting a queued corridor from a visited neighbour opens the wall
/// between: one more open square, and one more corridor visited that was
/// already counted as queued.
proof fn lemma_prim_visit(
    lattice: Lattice,
    vis: Set<(usize, usize)>,
    visited: Seq<bool>,
    queued: Seq<bool>,
    cells: Seq<Cell>,
    extra: int,
    from: (usize, usize),
    to: (usize, usize),
    link: Step,
    reach: Step,
)
    requires
        prim_counted(lattice, vis, visited, queued, cells, extra),
        lattice.wf(),
        lattice.tracks(visited, vis),
        queued.len() == lattice.spec_width() * lattice.spec_height(),
        cells.len() == drawn_width(lattice) * drawn_height(lattice),
        lattice.open_at(from),
        lattice.open_at(to),
        vis.contains(from),
        !vis.contains(to),
        lattice.marked(queued).contains(to),
        adjacent(from, to),
        link == (Step { x: (from.0 + to.0 + 1) as usize, y: (from.1 + to.1 + 1) as usize, cell: Cell::Floor }),
        reach == floor_step(to.0 as int, to.1 as int),
    ensures
        prim_counted(
            lattice,
            vis.insert(to),
            visited.update(lattice.flat(to), true),
            queued,
            after_step(after_step(cells, drawn_width(lattice), link), drawn_width(lattice), reach),
            extra + 1,
        ),
{
    reveal(prim_counted);
    lattice.lemma_fits();
    lattice.lemma_between_owned(from, to);
    let w = drawn_width(lattice);
    let h = drawn_height(lattice);
    let shown = vis.union(lattice.marked(queued));
    lemma_shown_visit(vis, shown, cells, w, h, from, to, link, reach);
    assert(vis.insert(to).union(lattice.marked(queued)) =~= shown);
    let i = lattice.flat(to);
    crate::maze::grid::lemma_square_index(lattice.spec_width(), lattice.spec_height(), to.0 as int, to.1 as int);
    let visited2 = visited.update(i, true);
    assert(queued[i]);
    assert(either(visited2, queued) =~= either(visited, queued));
    assert forall|q: (usize, usize)| #[trigger] lattice.marked(queued).contains(q) && !vis.insert(to).contains(q) implies exists|
        r: (usize, usize),
    | vis.insert(to).contains(r) && #[trigger] adjacent(r, q) by {
        let r = choose|r: (usize, usize)| vis.contains(r) && #[trigger] adjacent(r, q);
    }
}

/// Once every corridor is visited, the count is the tree's.
proof fn lemma_prim_done(
    lattice: Lattice,
    vis: Set<(usize, usize)>,
    visited: Seq<bool>,
    queued: Seq<bool>,
    cells: Seq<Cell>,
    extra: int,
)
    requires
        prim_counted(lattice, vis, visited, queued, cells, extra),
        forall|j: int| 0 <= j < visited.len() ==> #[trigger] visited[j],
    ensures
        walkable_count(cells) == visited.len() + extra,
{
    reveal(prim_counted);
    assert forall|j: int| 0 <= j < either(visited, queued).len() implies #[trigger] either(visited, queued)[j] by {
        assert(visited[j]);
    }
    lemma_count_uniform(either(visited, queued), true);
}

/// Every frontier entry joins two adjacent open corridors.
pub open spec fn frontier_ok(lattice: &Lattice, frontier: Seq<Wall>) -> bool {
    forall|k: int|
        0 <= k < frontier.len() ==> lattice.open_at((#[trigger] frontier[k]).0) && lattice.open_at(
            frontier[k].1,
        ) && adjacent(frontier[k].0, frontier[k].1)
}

/// The corridor whose square `r` is, for a square with odd coordinates.
pub open spec fn corridor_of(r: (usize, usize)) -> (usize, usize) {
    (((r.0 - 1) / 2) as usize, ((r.1 - 1) / 2) as usize)
}

/// Every open square hangs from square (1, 1), but for the squares of
/// corridors not visited yet, shown while they wait on the frontier.
#[verifier::opaque]
pub open spec fn hangs_or_waits(cells: Seq<Cell>, w: int, h: int, vis: Set<(usize, usize)>) -> bool {
    forall|r: (usize, usize)|
        #[trigger] open_in(cells, w, h, r) ==> joins(cells, w, h, (1, 1), r) || (r.0 % 2 == 1 && r.1 % 2 == 1
            && !vis.contains(corridor_of(r)))
}

/// Every open neighbour of a visited corridor that is not visited itself
/// waits on the frontier.
#[verifier::opaque]
pub open spec fn frontier_covers(lattice: Lattice, vis: Set<(usize, usize)>, frontier: Seq<Wall>) -> bool {
    forall|p: (usize, usize), q: (usize, usize)|
        #[trigger] vis.contains(p) && lattice.open_at(q) && #[trigger] adjacent(p, q) && !vis.contains(q)
            ==> exists|k: int| 0 <= k < frontier.len() && (#[trigger] frontier[k]).1 == q
}

/// Opening one square keeps every open square hanging or waiting: the
/// square waits itself, was open already, is square (1, 1), or lies next
/// to a square that hangs.
proof fn lemma_waits_step(
    before: Seq<Cell>,
    after: Seq<Cell>,
    w: int,
    h: int,
    vis: Set<(usize, usize)>,
    fresh: (usize, usize),
    anchor: (usize, usize),
)
    requires
        hangs_or_waits(before, w, h, vis),
        opened_only(before, after, w, h, fresh),
        1 < w,
        1 < h,
        (fresh.0 % 2 == 1 && fresh.1 % 2 == 1 && !vis.contains(corridor_of(fresh))) || open_in(before, w, h, fresh)
            || fresh == (1usize, 1usize) || (joins(before, w, h, (1, 1), anchor) && adjacent(anchor, fresh)),
    ensures
        hangs_or_waits(after, w, h, vis),
{
    reveal(hangs_or_waits);
    assert forall|r: (usize, usize)| #[trigger] open_in(after, w, h, r) implies joins(after, w, h, (1, 1), r) || (r.0
        % 2 == 1 && r.1 % 2 == 1 && !vis.contains(corridor_of(r))) by {
        if r == fresh {
            if fresh.0 % 2 == 1 && fresh.1 % 2 == 1 && !vis.contains(corridor_of(fresh)) {
            } else if open_in(before, w, h, fresh) {
                if joins(before, w, h, (1, 1), fresh) {
                    lemma_joins_grows(before, after, w, h, (1, 1), fresh);
                }
            } else if fresh == (1usize, 1usize) {
                lemma_joins_self(after, w, h, (1, 1));
            } else {
                lemma_joins_grows(before, after, w, h, (1, 1), anchor);
                lemma_joins_step(after, w, h, (1, 1), anchor, fresh);
            }
        } else {
            assert(open_in(before, w, h, r));
            if joins(before, w, h, (1, 1), r) {
                lemma_joins_grows(before, after, w, h, (1, 1), r);
            }
        }
    }
}

/// Visiting a corridor whose square hangs keeps every open square hanging
/// or waiting.
proof fn lemma_waits_visit(cells: Seq<Cell>, w: int, h: int, vis: Set<(usize, usize)>, q: (usize, usize))
    requires
        hangs_or_waits(cells, w, h, vis),
        joins(cells, w, h, (1, 1), corridor_square(q)),
        2 * q.0 + 1 <= usize::MAX,
        2 * q.1 + 1 <= usize::MAX,
    ensures
        hangs_or_waits(cells, w, h, vis.insert(q)),
{
    reveal(hangs_or_waits);
    assert forall|r: (usize, usize)| #[trigger] open_in(cells, w, h, r) implies joins(cells, w, h, (1, 1), r) || (r.0
        % 2 == 1 && r.1 % 2 == 1 && !vis.insert(q).contains(corridor_of(r))) by {
        if !joins(cells, w, h, (1, 1), r) && r.0 % 2 == 1 && r.1 % 2 == 1 && corridor_of(r) == q {
            assert(r == corridor_square(q));
        }
    }
}

/// The square of a visited corridor hangs from square (1, 1).
proof fn lemma_visited_hangs(cells: Seq<Cell>, w: int, h: int, vis: Set<(usize, usize)>, p: (usize, usize))
    requires
        hangs_or_waits(cells, w, h, vis),
        shows_visited(vis, cells, w, h),
        vis.contains(p),
        2 * p.0 + 1 <= usize::MAX,
        2 * p.1 + 1 <= usize::MAX,
    ensures
        joins(cells, w, h, (1, 1), corridor_square(p)),
{
    reveal(hangs_or_waits);
    lemma_shows(vis, cells, w, h, p);
    let r = corridor_square(p);
    assert(open_in(cells, w, h, r));
    assert(corridor_of(r) == p);
}

/// Once every corridor of the open lattice is visited, nothing waits.
proof fn lemma_nothing_waits(lattice: Lattice, cells: Seq<Cell>, vis: Set<(usize, usize)>)
    requires
        is_open_lattice(lattice, lattice.spec_width(), lattice.spec_height()),
        hangs_or_waits(cells, drawn_width(lattice), drawn_height(lattice), vis),
        forall|x: int, y: int| #[trigger] lattice.is_open(x, y) ==> vis.contains((x as usize, y as usize)),
    ensures
        all_joined(cells, drawn_width(lattice), drawn_height(lattice), (1, 1)),
{
    reveal(hangs_or_waits);
    let w = drawn_width(lattice);
    let h = drawn_height(lattice);
    assert forall|r: (usize, usize)| #[trigger] open_in(cells, w, h, r) implies joins(cells, w, h, (1, 1), r) by {
        if !joins(cells, w, h, (1, 1), r) {
            let c = corridor_of(r);
            lemma_square_index(lattice.spec_width(), lattice.spec_height(), c.0 as int, c.1 as int);
            assert(lattice.is_open(c.0 as int, c.1 as int));
        }
    }
}

/// With nothing left on the frontier, the visited corridors are closed off.
proof fn lemma_covered_closed(lattice: Lattice, vis: Set<(usize, usize)>, frontier: Seq<Wall>)
    requires
        frontier_covers(lattice, vis, frontier),
        frontier.len() == 0,
    ensures
        closed_off(lattice, vis, Seq::empty()),
{
    reveal(frontier_covers);
    reveal(closed_off);
    assert forall|p: (usize, usize), q: (usize, usize)|
        #[trigger] vis.contains(p) && !Seq::<(usize, usize)>::empty().contains(p) && lattice.open_at(q)
            && #[trigger] adjacent(p, q) implies vis.contains(q) by {
        if !vis.contains(q) {
            let k = choose|k: int| 0 <= k < frontier.len() && (#[trigger] frontier[k]).1 == q;
        }
    }
}

/// Visiting a corridor whose open unvisited neighbours all wait on the
/// frontier, where they stay, keeps the frontier covering the visited
/// corridors; so does dropping an entry whose far corridor is visited.
proof fn lemma_covers_visit(
    lattice: Lattice,
    vis: Set<(usize, usize)>,
    before: Seq<Wall>,
    dropped: int,
    after: Seq<Wall>,
    q: (usize, usize),
)
    requires
        frontier_covers(lattice, vis, before),
        0 <= dropped < before.len(),
        before[dropped].1 == q,
        forall|k: int|
            #![trigger before[k]]
            0 <= k < before.len() && k != dropped ==> exists|j: int| 0 <= j < after.len() && #[trigger] after[j] == before[k],
        forall|r: (usize, usize)|
            lattice.open_at(r) && #[trigger] adjacent(q, r) && !vis.insert(q).contains(r) ==> exists|k: int|
                0 <= k < after.len() && (#[trigger] after[k]).1 == r,
    ensures
        frontier_covers(lattice, vis.insert(q), after),
{
    reveal(frontier_covers);
    let v2 = vis.insert(q);
    assert forall|p: (usize, usize), r: (usize, usize)|
        #[trigger] v2.contains(p) && lattice.open_at(r) && #[trigger] adjacent(p, r) && !v2.contains(r) implies exists|
        k: int,
    | 0 <= k < after.len() && (#[trigger] after[k]).1 == r by {
        if p == q {
            assert(adjacent(q, r));
        } else {
            assert(vis.contains(p));
            let k = choose|k: int| 0 <= k < before.len() && (#[trigger] before[k]).1 == r;
            assert(k != dropped);
            let j = choose|j: int| 0 <= j < after.len() && #[trigger] after[j] == before[k];
            assert(after[j].1 == r);
        }
    }
}

/// Dropping an entry whose far corridor is already visited keeps the
/// frontier covering the visited corridors.
proof fn lemma_covers_drop(lattice: Lattice, vis: Set<(usize, usize)>, before: Seq<Wall>, dropped: int, after: Seq<Wall>)
    requires
        frontier_covers(lattice, vis, before),
        0 <= dropped < before.len(),
        vis.contains(before[dropped].1),
        forall|k: int|
            #![trigger before[k]]
            0 <= k < before.len() && k != dropped ==> exists|j: int| 0 <= j < after.len() && #[trigger] after[j] == before[k],
    ensures
        frontier_covers(lattice, vis, after),
{
    reveal(frontier_covers);
    assert forall|p: (usize, usize), r: (usize, usize)|
        #[trigger] vis.contains(p) && lattice.open_at(r) && #[trigger] adjacent(p, r) && !vis.contains(r) implies exists|
        k: int,
    | 0 <= k < after.len() && (#[trigger] after[k]).1 == r by {
        let k = choose|k: int| 0 <= k < before.len() && (#[trigger] before[k]).1 == r;
        assert(k != dropped);
        let j = choose|j: int| 0 <= j < after.len() && #[trigger] after[j] == before[k];
        assert(after[j].1 == r);
    }
}

/// Starting a tree at a corridor, when everything visited before is closed
/// off, leaves the frontier covering the visited corridors once the seed's
/// neighbours are on it.
proof fn lemma_covers_seed(lattice: Lattice, vis: Set<(usize, usize)>, frontier: Seq<Wall>, seed: (usize, usize))
    requires
        closed_off(lattice, vis, Seq::empty()),
        forall|r: (usize, usize)|
            lattice.open_at(r) && #[trigger] adjacent(seed, r) && !vis.insert(seed).contains(r) ==> exists|k: int|
                0 <= k < frontier.len() && (#[trigger] frontier[k]).1 == r,
    ensures
        frontier_covers(lattice, vis.insert(seed), frontier),
{
    reveal(frontier_covers);
    reveal(closed_off);
    let v2 = vis.insert(seed);
    assert forall|p: (usize, usize), r: (usize, usize)|
        #[trigger] v2.contains(p) && lattice.open_at(r) && #[trigger] adjacent(p, r) && !v2.contains(r) implies exists|
        k: int,
    | 0 <= k < frontier.len() && (#[trigger] frontier[k]).1 == r by {
        if p == seed {
            assert(adjacent(seed, r));
        } else {
            assert(!Seq::<(usize, usize)>::empty().contains(p));
            assert(vis.contains(p));
        }
    }
}

/// Swap-removing entry `i` keeps every other entry.
proof fn lemma_swap_remove_keeps(before: Seq<Wall>, i: int, after: Seq<Wall>)
    requires
        0 <= i < before.len(),
        after == before.update(i, before.last()).drop_last(),
    ensures
        forall|k: int|
            #![trigger before[k]]
            0 <= k < before.len() && k != i ==> exists|j: int| 0 <= j < after.len() && #[trigger] after[j] == before[k],
{
    assert forall|k: int| #![trigger before[k]] 0 <= k < before.len() && k != i implies exists|j: int|
        0 <= j < after.len() && #[trigger] after[j] == before[k] by {
        if k == before.len() - 1 {
            assert(after[i] == before[k]);
        } else {
            assert(after[k] == before[k]);
        }
    }
}

/// Randomised Prim: grow the visited region by knocking down a random wall
/// on its frontier. The frontier holds (from, to) pairs: `from` is visited,
/// `to` is the corridor on the other side of the wall. Frontier corridors
/// are shown as probe squares until they are carved.
#[verifier::rlimit(50)]
#[verifier::spinoff_prover]
pub fn carve(lattice: &Lattice, rng: &mut StdRng) -> (steps: Vec<Step>)
    requires
        lattice.wf(),
    ensures
        lattice.carves(steps@, |c: Cell| c == Cell::Floor || c == Cell::Probe),
        lattice.floors_every_corridor(steps@),
        is_open_lattice(*lattice, lattice.spec_width(), lattice.spec_height()) ==> all_joined(
            after_steps(
                all_walls((2 * lattice.spec_width() + 1) * (2 * lattice.spec_height() + 1)),
                2 * lattice.spec_width() + 1,
                steps@,
            ),
            2 * lattice.spec_width() + 1,
            2 * lattice.spec_height() + 1,
            (1, 1),
        ),
        is_open_lattice(*lattice, lattice.spec_width(), lattice.spec_height()) && lattice.spec_width()
            * lattice.spec_height() >= 1 ==> walkable_count(
            after_steps(
                all_walls((2 * lattice.spec_width() + 1) * (2 * lattice.spec_height() + 1)),
                2 * lattice.spec_width() + 1,
                steps@,
            ),
        ) == 2 * (lattice.spec_width() * lattice.spec_height()) - 1,
{
    let ghost sw = drawn_width(*lattice);
    let ghost sh = drawn_height(*lattice);
    let ghost blank = all_walls(sw * sh);
    let ghost open = is_open_lattice(*lattice, lattice.spec_width(), lattice.spec_height());
    let n = lattice.len();
    let mut visited: Vec<bool> = vec![false; n];
    let mut queued: Vec<bool> = vec![false; n];
    let ghost mut vis: Set<(usize, usize)> = Set::empty();
    let ghost mut seen: Set<int> = Set::empty();
    let mut steps: Vec<Step> = Vec::new();
    let corridors = lattice.corridors();
    let ghost mut walks: int = 0;
    proof {
        lemma_grows_tree_start(*lattice);
        reveal(replay);
        assert(drawn(*lattice, steps@) == all_walls(sw * sh));
        lemma_prim_start(*lattice, visited@, queued@, drawn(*lattice, steps@));
        lemma_nothing_visited(*lattice, drawn(*lattice, steps@), sw, sh);
        assert(steps@ =~= Seq::<Step>::empty());
        if open {
            reveal(hangs_or_waits);
            assert(all_joined(drawn(*lattice, steps@), sw, sh, (1, 1)));
        }
        assert forall|p: (usize, usize)| lattice.holds(p) implies (visited@[lattice.flat(p)] <==> #[trigger] vis.contains(p)) by {
            crate::maze::grid::lemma_square_index(lattice.spec_width(), lattice.spec_height(), p.0 as int, p.1 as int);
        }
    }

    // One growth per unvisited corridor: a single growth on an open lattice,
    // one per pocket when rooms split it apart.
    let mut i: usize = 0;
    while i < corridors.len()
        invariant
            lattice.wf(),
            n == lattice.spec_width() * lattice.spec_height(),
            lattice.tracks(visited@, vis),
            queued@.len() == n,
            seen.finite(),
            forall|j: int| seen.contains(j) <==> 0 <= j < n && visited@[j],
            i <= corridors@.len(),
            forall|k: int| 0 <= k < corridors@.len() ==> lattice.open_at(#[trigger] corridors@[k]),
            forall|k: int| 0 <= k < i ==> vis.contains(#[trigger] corridors@[k]),
            lattice.carves(steps@, |c: Cell| c == Cell::Floor || c == Cell::Probe),
            forall|p: (usize, usize)|
                lattice.open_at(p) && #[trigger] vis.contains(p) ==> steps@.contains(
                    floor_step(p.0 as int, p.1 as int),
                ),
            sw == drawn_width(*lattice),
            sh == drawn_height(*lattice),
            blank == all_walls(sw * sh),
            open == is_open_lattice(*lattice, lattice.spec_width(), lattice.spec_height()),
            forall|x: int, y: int| #[trigger] lattice.is_open(x, y) ==> corridors@.contains((x as usize, y as usize)),
            forall|k1: int, k2: int|
                0 <= k1 < k2 < corridors@.len() ==> (#[trigger] corridors@[k1]).1 * lattice.spec_width()
                    + corridors@[k1].0 < (#[trigger] corridors@[k2]).1 * lattice.spec_width() + corridors@[k2].0,
            drawn(*lattice, steps@).len() == sw * sh,
            shows_visited(vis, drawn(*lattice, steps@), sw, sh),
            closed_off(*lattice, vis, Seq::empty()),
            open ==> hangs_or_waits(drawn(*lattice, steps@), sw, sh, vis),
            prim_counted(*lattice, vis, visited@, queued@, drawn(*lattice, steps@), seen.len() - walks),
            0 <= walks,
            open ==> walks <= 1,
            walks == 0 ==> seen.len() == 0,
            i == 0 ==> walks == 0,
            open && i > 0 ==> walks == 1,
        decreases corridors@.len() - i,
    {
        let (seed_x, seed_y) = corridors[i];
        proof {
            assert(lattice.open_at(corridors@[i as int]));
            lattice.lemma_corridor_owned(seed_x as int, seed_y as int);
            lattice.lemma_tracks_read(visited@, vis, (seed_x, seed_y));
        }
        let seed = lattice.index(seed_x, seed_y);
        if visited[seed] {
            proof {
                assert(seen.contains(seed as int));
                vstd::set_lib::lemma_set_empty_equivalency_len(seen);
                assert(seen.len() > 0);
            }
            i = i + 1;
            continue;
        }
        let ghost vis0 = vis;
        let ghost visited0 = visited@;
        let ghost seen_len0 = seen.len();
        proof {
            if open {
                lemma_first_corridor(*lattice, corridors@);
                if i > 0 {
                    assert(vis.contains(corridors@[0]));
                    lemma_closed_fills(*lattice, vis, seed_x as int, seed_y as int);
                }
            }
            super::lemma_mark(seen, n as int, seed as int);
            seen = seen.insert(seed as int);
            lattice.lemma_tracks_update(visited@, vis, (seed_x, seed_y), true);
            vis = vis.insert((seed_x, seed_y));
        }
        visited.set(seed, true);
        let ghost before = steps@;
        let first = floor(seed_x, seed_y);
        steps.push(first);
        let ghost mid = steps@;
        proof {
            let cells0 = drawn(*lattice, before);
            let cells1 = after_step(cells0, sw, first);
            lemma_replay_push(blank, sw, before, first);
            lemma_opened_only(cells0, sw, sh, first);
            lemma_shows_step(vis0, cells0, cells1, sw, sh, (first.x, first.y), (seed_x, seed_y));
            if open {
                lemma_waits_step(cells0, cells1, sw, sh, vis0, (first.x, first.y), (1, 1));
                lemma_joins_self(cells1, sw, sh, (1, 1));
                lemma_waits_visit(cells1, sw, sh, vis0, (seed_x, seed_y));
            }
            assert(open ==> i == 0);
            lemma_prim_seed(*lattice, vis0, visited0, queued@, cells0, seen_len0 - walks, (seed_x, seed_y), first);
            walks = walks + 1;
        }
        let mut frontier: Vec<Wall> = Vec::new();
        push_frontier(
            lattice,
            &visited,
            Ghost(vis),
            Ghost(seen.len() - walks),
            &mut queued,
            &mut frontier,
            &mut steps,
            (seed_x, seed_y),
        );
        proof {
            lemma_covers_seed(*lattice, vis0, frontier@, (seed_x, seed_y));
            assert forall|k: int| 0 <= k < frontier@.len() implies lattice.marked(queued@).contains(
                (#[trigger] frontier@[k]).1,
            ) by {
            }
        }
        proof {
            assert forall|p: (usize, usize)|
                lattice.open_at(p) && #[trigger] vis.contains(p) implies steps@.contains(
                    floor_step(p.0 as int, p.1 as int),
                ) by {
                if p == (seed_x, seed_y) {
                    assert(mid[before.len() as int] == floor_step(p.0 as int, p.1 as int));
                    super::lemma_prefix_contains(mid, steps@, floor_step(p.0 as int, p.1 as int));
                } else {
                    super::lemma_prefix_contains(before, mid, floor_step(p.0 as int, p.1 as int));
                    super::lemma_prefix_contains(mid, steps@, floor_step(p.0 as int, p.1 as int));
                }
            }
        }

        while frontier.len() > 0
            invariant
                lattice.wf(),
                n == lattice.spec_width() * lattice.spec_height(),
                lattice.tracks(visited@, vis),
                queued@.len() == n,
                seen.finite(),
                forall|j: int| seen.contains(j) <==> 0 <= j < n && visited@[j],
                i < corridors@.len(),
                forall|k: int| 0 <= k < corridors@.len() ==> lattice.open_at(#[trigger] corridors@[k]),
                forall|k: int| 0 <= k <= i ==> vis.contains(#[trigger] corridors@[k]),
                frontier_ok(lattice, frontier@),
                lattice.carves(steps@, |c: Cell| c == Cell::Floor || c == Cell::Probe),
                forall|p: (usize, usize)|
                    lattice.open_at(p) && #[trigger] vis.contains(p) ==> steps@.contains(
                        floor_step(p.0 as int, p.1 as int),
                    ),
                sw == drawn_width(*lattice),
                sh == drawn_height(*lattice),
                blank == all_walls(sw * sh),
                open == is_open_lattice(*lattice, lattice.spec_width(), lattice.spec_height()),
                drawn(*lattice, steps@).len() == sw * sh,
                shows_visited(vis, drawn(*lattice, steps@), sw, sh),
                frontier_covers(*lattice, vis, frontier@),
                forall|k: int| 0 <= k < frontier@.len() ==> vis.contains((#[trigger] frontier@[k]).0),
                open ==> hangs_or_waits(drawn(*lattice, steps@), sw, sh, vis),
                prim_counted(*lattice, vis, visited@, queued@, drawn(*lattice, steps@), seen.len() - walks),
                forall|k: int| 0 <= k < frontier@.len() ==> lattice.marked(queued@).contains((#[trigger] frontier@[k]).1),
                1 <= walks,
                open ==> walks == 1,
                i == 0 ==> walks == 1,
            decreases 5 * (n - seen.len()) + frontier@.len(),
        {
            proof {
                super::lemma_seen_bound(seen, n as int);
            }
            let pick_at = random_range(rng, 0, frontier.len());
            let ghost old_frontier = frontier@;
            let ((from_x, from_y), (to_x, to_y)) = frontier.swap_remove(pick_at);
            proof {
                assert(lattice.open_at(old_frontier[pick_at as int].0));
                assert(frontier_ok(lattice, frontier@)) by {
                    assert forall|k: int| 0 <= k < frontier@.len() implies lattice.open_at(
                        (#[trigger] frontier@[k]).0,
                    ) && lattice.open_at(frontier@[k].1) && adjacent(frontier@[k].0, frontier@[k].1) by {
                        if k == pick_at {
                            assert(frontier@[k] == old_frontier[old_frontier.len() - 1]);
                        } else {
                            assert(frontier@[k] == old_frontier[k]);
                        }
                    }
                }
                lattice.lemma_tracks_read(visited@, vis, (to_x, to_y));
                lemma_swap_remove_keeps(old_frontier, pick_at as int, frontier@);
                assert forall|k: int| 0 <= k < frontier@.len() implies vis.contains((#[trigger] frontier@[k]).0)
                    && lattice.marked(queued@).contains(frontier@[k].1) by {
                    if k == pick_at {
                        assert(frontier@[k] == old_frontier[old_frontier.len() - 1]);
                    } else {
                        assert(frontier@[k] == old_frontier[k]);
                    }
                }
                assert(lattice.marked(queued@).contains(old_frontier[pick_at as int].1));
            }

            // A corridor can sit in the frontier several times, once per visited
            // neighbour; only the first pick carves, the others are dropped here.
            let to = lattice.index(to_x, to_y);
            if visited[to] {
                proof {
                    lemma_covers_drop(*lattice, vis, old_frontier, pick_at as int, frontier@);
                }
                continue;
            }
            let ghost vis0 = vis;
            let ghost kept = frontier@;
            let ghost visited0 = visited@;
            let ghost extra0 = seen.len() - walks;
            proof {
                super::lemma_mark(seen, n as int, to as int);
                seen = seen.insert(to as int);
                lattice.lemma_tracks_update(visited@, vis, (to_x, to_y), true);
                vis = vis.insert((to_x, to_y));
                lattice.lemma_between_owned((from_x, from_y), (to_x, to_y));
                lattice.lemma_corridor_owned(to_x as int, to_y as int);
                lattice.lemma_corridor_owned(from_x as int, from_y as int);
            }
            visited.set(to, true);
            let ghost before = steps@;
            let link = wall_between(from_x, from_y, to_x, to_y);
            steps.push(link);
            let ghost middle = steps@;
            let reach = floor(to_x, to_y);
            steps.push(reach);
            let ghost mid = steps@;
            proof {
                let cells0 = drawn(*lattice, before);
                let cells1 = after_step(cells0, sw, link);
                let cells2 = after_step(cells1, sw, reach);
                assert(vis0.contains(old_frontier[pick_at as int].0));
                lemma_replay_push(blank, sw, before, link);
                lemma_replay_push(blank, sw, middle, reach);
                lemma_opened_only(cells0, sw, sh, link);
                lemma_opened_only(cells1, sw, sh, reach);
                lemma_shows_step(vis0, cells0, cells1, sw, sh, (link.x, link.y), (to_x, to_y));
                lemma_shows_step(vis0, cells1, cells2, sw, sh, (reach.x, reach.y), (to_x, to_y));
                if open {
                    lemma_visited_hangs(cells0, sw, sh, vis0, (from_x, from_y));
                    lemma_waits_step(cells0, cells1, sw, sh, vis0, (link.x, link.y), corridor_square((from_x, from_y)));
                    lemma_joins_grows(cells0, cells1, sw, sh, (1, 1), corridor_square((from_x, from_y)));
                    lemma_joins_step(cells1, sw, sh, (1, 1), corridor_square((from_x, from_y)), (link.x, link.y));
                    lemma_waits_step(cells1, cells2, sw, sh, vis0, (reach.x, reach.y), (link.x, link.y));
                    lemma_joins_grows(cells1, cells2, sw, sh, (1, 1), (link.x, link.y));
                    lemma_joins_step(cells2, sw, sh, (1, 1), (link.x, link.y), (reach.x, reach.y));
                    lemma_waits_visit(cells2, sw, sh, vis0, (to_x, to_y));
                }
                lemma_prim_visit(*lattice, vis0, visited0, queued@, cells0, extra0, (from_x, from_y), (to_x, to_y), link, reach);
            }
            let ghost queued0 = queued@;
            push_frontier(
                lattice,
                &visited,
                Ghost(vis),
                Ghost(seen.len() - walks),
                &mut queued,
                &mut frontier,
                &mut steps,
                (to_x, to_y),
            );
            proof {
                assert forall|k: int|
                    #![trigger old_frontier[k]]
                    0 <= k < old_frontier.len() && k != pick_at implies exists|j: int|
                        0 <= j < frontier@.len() && #[trigger] frontier@[j] == old_frontier[k] by {
                    let j = choose|j: int| 0 <= j < kept.len() && #[trigger] kept[j] == old_frontier[k];
                    assert(frontier@[j] == kept[j]);
                }
                lemma_covers_visit(*lattice, vis0, old_frontier, pick_at as int, frontier@, (to_x, to_y));
                assert forall|k: int| 0 <= k < frontier@.len() implies vis.contains((#[trigger] frontier@[k]).0)
                    && lattice.marked(queued@).contains(frontier@[k].1) by {
                    if k < kept.len() {
                        assert(frontier@[k] == kept[k]);
                        let q = kept[k].1;
                        assert(lattice.marked(queued0).contains(q));
                        lemma_square_index(lattice.spec_width(), lattice.spec_height(), q.0 as int, q.1 as int);
                        assert(queued0[lattice.flat(q)]);
                        assert(queued@[lattice.flat(q)]);
                    }
                }
            }
            proof {
                assert forall|p: (usize, usize)|
                    lattice.open_at(p) && #[trigger] vis.contains(p) implies steps@.contains(
                        floor_step(p.0 as int, p.1 as int),
                    ) by {
                    if p == (to_x, to_y) {
                        assert(mid[mid.len() - 1] == floor_step(p.0 as int, p.1 as int));
                        super::lemma_prefix_contains(mid, steps@, floor_step(p.0 as int, p.1 as int));
                    } else {
                        super::lemma_prefix_contains(before, mid, floor_step(p.0 as int, p.1 as int));
                        super::lemma_prefix_contains(mid, steps@, floor_step(p.0 as int, p.1 as int));
                    }
                }
            }
        }
        proof {
            lemma_covered_closed(*lattice, vis, frontier@);
        }
        i = i + 1;
    }
    proof {
        assert forall|x: int, y: int| #[trigger] lattice.is_open(x, y) implies exists|j: int|
            0 <= j < steps@.len() && #[trigger] steps@[j] == floor_step(x, y) by {
            assert(corridors@.contains((x as usize, y as usize)));
            let k = choose|k: int| 0 <= k < corridors@.len() && corridors@[k] == (x as usize, y as usize);
            assert(vis.contains(corridors@[k]));
            assert(lattice.open_at(corridors@[k]));
            assert(steps@.contains(floor_step(x, y)));
        }
        if open {
            assert forall|x: int, y: int| #[trigger] lattice.is_open(x, y) implies vis.contains((x as usize, y as usize)) by {
                assert(corridors@.contains((x as usize, y as usize)));
                let k = choose|k: int| 0 <= k < corridors@.len() && corridors@[k] == (x as usize, y as usize);
                assert(vis.contains(corridors@[k]));
            }
            lemma_nothing_waits(*lattice, drawn(*lattice, steps@), vis);
        }
        reveal(replay);
        if open && n >= 1 {
            lemma_all_seen(lattice, corridors@, visited@, vis, seen, i as int);
            assert forall|j: int| 0 <= j < visited@.len() implies #[trigger] visited@[j] by {
                assert(seen.contains(j));
                assert(0 <= j < n && visited@[j]);
            }
            lemma_prim_done(*lattice, vis, visited@, queued@, drawn(*lattice, steps@), seen.len() - walks);
        }
    }
    steps
}

/// Adds the walls from (x, y) to its unvisited open neighbours to the
/// frontier, and shows each neighbour queued for the first time as a probe.
fn push_frontier(
    lattice: &Lattice,
    visited: &Vec<bool>,
    Ghost(vis): Ghost<Set<(usize, usize)>>,
    Ghost(extra): Ghost<int>,
    queued: &mut Vec<bool>,
    frontier: &mut Vec<Wall>,
    steps: &mut Vec<Step>,
    at: (usize, usize),
)
    requires
        lattice.wf(),
        lattice.open_at(at),
        visited@.len() == lattice.spec_width() * lattice.spec_height(),
        old(queued)@.len() == lattice.spec_width() * lattice.spec_height(),
        frontier_ok(lattice, old(frontier)@),
        lattice.carves(old(steps)@, |c: Cell| c == Cell::Floor || c == Cell::Probe),
        lattice.tracks(visited@, vis),
        drawn(*lattice, old(steps)@).len() == drawn_width(*lattice) * drawn_height(*lattice),
        shows_visited(vis, drawn(*lattice, old(steps)@), drawn_width(*lattice), drawn_height(*lattice)),
        is_open_lattice(*lattice, lattice.spec_width(), lattice.spec_height()) ==> hangs_or_waits(
            drawn(*lattice, old(steps)@),
            drawn_width(*lattice),
            drawn_height(*lattice),
            vis,
        ),
        vis.contains(at),
        prim_counted(*lattice, vis, visited@, old(queued)@, drawn(*lattice, old(steps)@), extra),
    ensures
        prim_counted(*lattice, vis, visited@, final(queued)@, drawn(*lattice, final(steps)@), extra),
        forall|j: int| 0 <= j < old(queued)@.len() && #[trigger] old(queued)@[j] ==> final(queued)@[j],
        forall|k: int|
            old(frontier)@.len() <= k < final(frontier)@.len() ==> lattice.marked(final(queued)@).contains(
                (#[trigger] final(frontier)@[k]).1,
            ),
        final(queued)@.len() == old(queued)@.len(),
        frontier_ok(lattice, final(frontier)@),
        old(frontier)@.len() <= final(frontier)@.len() <= old(frontier)@.len() + 4,
        lattice.carves(final(steps)@, |c: Cell| c == Cell::Floor || c == Cell::Probe),
        old(steps)@.len() <= final(steps)@.len(),
        forall|j: int| 0 <= j < old(steps)@.len() ==> #[trigger] final(steps)@[j] == old(steps)@[j],
        forall|k: int| 0 <= k < old(frontier)@.len() ==> #[trigger] final(frontier)@[k] == old(frontier)@[k],
        forall|k: int|
            old(frontier)@.len() <= k < final(frontier)@.len() ==> (#[trigger] final(frontier)@[k]).0 == at,
        forall|r: (usize, usize)|
            lattice.open_at(r) && #[trigger] adjacent(at, r) && !vis.contains(r) ==> exists|k: int|
                0 <= k < final(frontier)@.len() && (#[trigger] final(frontier)@[k]).1 == r,
        drawn(*lattice, final(steps)@).len() == drawn_width(*lattice) * drawn_height(*lattice),
        shows_visited(vis, drawn(*lattice, final(steps)@), drawn_width(*lattice), drawn_height(*lattice)),
        is_open_lattice(*lattice, lattice.spec_width(), lattice.spec_height()) ==> hangs_or_waits(
            drawn(*lattice, final(steps)@),
            drawn_width(*lattice),
            drawn_height(*lattice),
            vis,
        ),
{
    let ghost sw = drawn_width(*lattice);
    let ghost sh = drawn_height(*lattice);
    let ghost blank = all_walls(sw * sh);
    let ghost open = is_open_lattice(*lattice, lattice.spec_width(), lattice.spec_height());
    let (x, y) = at;
    let nbrs = lattice.neighbours(x, y);
    let mut k: usize = 0;
    while k < nbrs.len()
        invariant
            lattice.wf(),
            lattice.open_at(at),
            at == (x, y),
            nbrs@.len() <= 4,
            forall|j: int|
                0 <= j < nbrs@.len() ==> lattice.open_at(#[trigger] nbrs@[j]) && adjacent((x, y), nbrs@[j]),
            k <= nbrs@.len(),
            visited@.len() == lattice.spec_width() * lattice.spec_height(),
            queued@.len() == lattice.spec_width() * lattice.spec_height(),
            frontier_ok(lattice, frontier@),
            old(frontier)@.len() <= frontier@.len() <= old(frontier)@.len() + k,
            lattice.carves(steps@, |c: Cell| c == Cell::Floor || c == Cell::Probe),
            old(steps)@.len() <= steps@.len(),
            forall|j: int| 0 <= j < old(steps)@.len() ==> #[trigger] steps@[j] == old(steps)@[j],
            lattice.tracks(visited@, vis),
            sw == drawn_width(*lattice),
            sh == drawn_height(*lattice),
            blank == all_walls(sw * sh),
            open == is_open_lattice(*lattice, lattice.spec_width(), lattice.spec_height()),
            forall|j: int| 0 <= j < old(frontier)@.len() ==> #[trigger] frontier@[j] == old(frontier)@[j],
            forall|j: int| old(frontier)@.len() <= j < frontier@.len() ==> (#[trigger] frontier@[j]).0 == at,
            forall|j: int|
                0 <= j < k && !vis.contains(#[trigger] nbrs@[j]) ==> exists|m: int|
                    0 <= m < frontier@.len() && (#[trigger] frontier@[m]).1 == nbrs@[j],
            drawn(*lattice, steps@).len() == sw * sh,
            shows_visited(vis, drawn(*lattice, steps@), sw, sh),
            open ==> hangs_or_waits(drawn(*lattice, steps@), sw, sh, vis),
            vis.contains(at),
            prim_counted(*lattice, vis, visited@, queued@, drawn(*lattice, steps@), extra),
            old(queued)@.len() == lattice.spec_width() * lattice.spec_height(),
            forall|j: int| 0 <= j < old(queued)@.len() && #[trigger] old(queued)@[j] ==> queued@[j],
            forall|j: int|
                old(frontier)@.len() <= j < frontier@.len() ==> lattice.marked(queued@).contains(
                    (#[trigger] frontier@[j]).1,
                ),
        decreases nbrs@.len() - k,
    {
        let (next_x, next_y) = nbrs[k];
        proof {
            assert(lattice.open_at(nbrs@[k as int]));
            lemma_square_index(lattice.spec_width(), lattice.spec_height(), next_x as int, next_y as int);
            lattice.lemma_tracks_read(visited@, vis, (next_x, next_y));
        }
        let next = lattice.index(next_x, next_y);
        let ghost before = frontier@;
        let ghost q_iter = queued@;
        if !visited[next] {
            frontier.push(((x, y), (next_x, next_y)));
            proof {
                assert forall|j: int| 0 <= j < frontier@.len() implies lattice.open_at(
                    (#[trigger] frontier@[j]).0,
                ) && lattice.open_at(frontier@[j].1) && adjacent(frontier@[j].0, frontier@[j].1) by {
                    if j < before.len() {
                        assert(frontier@[j] == before[j]);
                    }
                }
            }
            if !queued[next] {
                let ghost queued0 = queued@;
                queued.set(next, true);
                proof {
                    lattice.lemma_corridor_owned(next_x as int, next_y as int);
                    assert(queued@ == q_iter.update(next as int, true));
                }
                let ghost prior = steps@;
                let probe = corridor(next_x, next_y, Cell::Probe);
                steps.push(probe);
                proof {
                    let cells0 = drawn(*lattice, prior);
                    lemma_prim_probe(*lattice, vis, visited@, queued0, cells0, extra, at, (next_x, next_y), probe);
                    let cells1 = after_step(cells0, sw, probe);
                    lemma_replay_push(blank, sw, prior, probe);
                    lemma_opened_only(cells0, sw, sh, probe);
                    lemma_shows_step(vis, cells0, cells1, sw, sh, (probe.x, probe.y), (next_x, next_y));
                    if open {
                        assert(corridor_of((probe.x, probe.y)) == (next_x, next_y));
                        lemma_waits_step(cells0, cells1, sw, sh, vis, (probe.x, probe.y), (1, 1));
                    }
                }
            }
        }
        proof {
            assert(queued@.len() == q_iter.len());
            assert(queued@ == q_iter || queued@ == q_iter.update(next as int, true));
            assert forall|j: int| 0 <= j < q_iter.len() && #[trigger] q_iter[j] implies queued@[j] by {
                if queued@ != q_iter {
                    assert(queued@ == q_iter.update(next as int, true));
                }
            }
            assert forall|j: int| 0 <= j < old(queued)@.len() && #[trigger] old(queued)@[j] implies queued@[j] by {
                assert(q_iter[j]);
            }
            assert forall|j: int|
                old(frontier)@.len() <= j < frontier@.len() implies lattice.marked(queued@).contains(
                    (#[trigger] frontier@[j]).1,
                ) by {
                if j < before.len() {
                    assert(frontier@[j] == before[j]);
                    let q = before[j].1;
                    assert(lattice.marked(q_iter).contains(q));
                    lemma_square_index(lattice.spec_width(), lattice.spec_height(), q.0 as int, q.1 as int);
                    assert(q_iter[lattice.flat(q)]);
                } else {
                    assert(frontier@[j] == ((x, y), (next_x, next_y)));
                    lemma_square_index(lattice.spec_width(), lattice.spec_height(), next_x as int, next_y as int);
                    assert(queued@[lattice.flat((next_x, next_y))]);
                }
            }
            assert forall|j: int|
                0 <= j < k + 1 && !vis.contains(#[trigger] nbrs@[j]) implies exists|m: int|
                    0 <= m < frontier@.len() && (#[trigger] frontier@[m]).1 == nbrs@[j] by {
                if j < k {
                    let m = choose|m: int| 0 <= m < before.len() && (#[trigger] before[m]).1 == nbrs@[j];
                    assert(frontier@[m] == before[m]);
                } else {
                    assert(frontier@[frontier@.len() - 1].1 == nbrs@[j]);
                }
            }
        }
        k = k + 1;
    }
    proof {
        assert forall|r: (usize, usize)|
            lattice.open_at(r) && #[trigger] adjacent(at, r) && !vis.contains(r) implies exists|m: int|
                0 <= m < frontier@.len() && (#[trigger] frontier@[m]).1 == r by {
            assert(nbrs@.contains(r));
            let j = choose|j: int| 0 <= j < nbrs@.len() && nbrs@[j] == r;
            assert(!vis.contains(nbrs@[j]));
        }
    }
}

} // verus!
