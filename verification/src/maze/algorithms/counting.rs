//! Counting the squares a tree-growing carver opens: each corridor it
//! reaches opens its own square and the wall it came through, so a tree
//! over n corridors opens 2n - 1 squares. Carvers that merge groups of
//! corridors instead open one wall per merge, and end with one group.

use vstd::prelude::*;

use super::disjoint_sets::{is_grouping, joined, lemma_merge_joins};
use super::dungeon::walkable_count;
use super::spanning::corridor_square;
use super::{Lattice, all_walls, count_true, floor_step, is_open_lattice, lemma_count_set};
use crate::maze::grid::{Cell, Step, adjacent, after_step, decode, lemma_square_index, square_index};
use crate::maze::walks::open_in;

verus! {

/// Square `s` belongs to the visited corridors: it is one's own square, or
/// the wall between two of them.
pub open spec fn visited_square(vis: Set<(usize, usize)>, s: (usize, usize)) -> bool {
    let x = s.0 as int;
    let y = s.1 as int;
    if x % 2 == 1 && y % 2 == 1 {
        vis.contains((((x - 1) / 2) as usize, ((y - 1) / 2) as usize))
    } else if x % 2 == 0 && y % 2 == 1 {
        x >= 2 && vis.contains(((x / 2 - 1) as usize, ((y - 1) / 2) as usize)) && vis.contains(
            ((x / 2) as usize, ((y - 1) / 2) as usize),
        )
    } else if x % 2 == 1 && y % 2 == 0 {
        y >= 2 && vis.contains((((x - 1) / 2) as usize, (y / 2 - 1) as usize)) && vis.contains(
            (((x - 1) / 2) as usize, (y / 2) as usize),
        )
    } else {
        false
    }
}

/// Every open square belongs to the visited corridors.
#[verifier::opaque]
pub open spec fn opened_within(vis: Set<(usize, usize)>, cells: Seq<Cell>, w: int, h: int) -> bool {
    forall|s: (usize, usize)| #[trigger] open_in(cells, w, h, s) ==> visited_square(vis, s)
}

/// A grid of walls has no open square at all.
#[verifier::rlimit(50)]
#[verifier::spinoff_prover]
pub proof fn lemma_within_blank(cells: Seq<Cell>, w: int, h: int)
    requires
        cells.len() == w * h,
        forall|i: int| 0 <= i < cells.len() ==> #[trigger] cells[i] == Cell::Wall,
    ensures
        opened_within(Set::empty(), cells, w, h),
{
    reveal(opened_within);
    assert forall|s: (usize, usize)| #[trigger] open_in(cells, w, h, s) implies visited_square(Set::empty(), s) by {
        lemma_square_index(w, h, s.0 as int, s.1 as int);
    }
}

/// An open square is one of the visited corridors'.
#[verifier::rlimit(50)]
#[verifier::spinoff_prover]
pub proof fn lemma_within_open(vis: Set<(usize, usize)>, cells: Seq<Cell>, w: int, h: int, s: (usize, usize))
    requires
        opened_within(vis, cells, w, h),
        open_in(cells, w, h, s),
    ensures
        visited_square(vis, s),
{
    reveal(opened_within);
}

/// Painting a square of the visited corridors with anything but wall keeps
/// every open square theirs; the count of open squares grows by one
/// exactly when the square was shut.
#[verifier::rlimit(50)]
#[verifier::spinoff_prover]
pub proof fn lemma_paint_within(
    vis: Set<(usize, usize)>,
    vis2: Set<(usize, usize)>,
    cells: Seq<Cell>,
    w: int,
    h: int,
    step: Step,
)
    requires
        opened_within(vis, cells, w, h),
        forall|p: (usize, usize)| #[trigger] vis.contains(p) ==> vis2.contains(p),
        visited_square(vis2, (step.x, step.y)),
        step.x < w,
        step.y < h,
        cells.len() == w * h,
        step.cell != Cell::Wall,
    ensures
        opened_within(vis2, after_step(cells, w, step), w, h),
        after_step(cells, w, step).len() == cells.len(),
        open_in(after_step(cells, w, step), w, h, (step.x, step.y)),
        forall|s: (usize, usize)| #[trigger] open_in(cells, w, h, s) ==> open_in(after_step(cells, w, step), w, h, s),
        forall|s: (usize, usize)|
            s != (step.x, step.y) ==> (#[trigger] open_in(after_step(cells, w, step), w, h, s) == open_in(cells, w, h, s)),
        walkable_count(after_step(cells, w, step)) == walkable_count(cells) + if open_in(
            cells,
            w,
            h,
            (step.x, step.y),
        ) {
            0int
        } else {
            1int
        },
{
    reveal(opened_within);
    let i = square_index(w, step.x as int, step.y as int);
    lemma_square_index(w, h, step.x as int, step.y as int);
    let after = after_step(cells, w, step);
    assert forall|s: (usize, usize)| #[trigger] open_in(after, w, h, s) implies visited_square(vis2, s) by {
        lemma_square_index(w, h, s.0 as int, s.1 as int);
        if square_index(w, s.0 as int, s.1 as int) == i {
            crate::maze::grid::lemma_square_index_injective(w, s.0 as int, s.1 as int, step.x as int, step.y as int);
        } else {
            assert(open_in(cells, w, h, s));
        }
    }
    assert forall|s: (usize, usize)| #[trigger] open_in(cells, w, h, s) implies open_in(after, w, h, s) by {
        lemma_square_index(w, h, s.0 as int, s.1 as int);
    }
    assert forall|s: (usize, usize)| s != (step.x, step.y) implies (#[trigger] open_in(after, w, h, s) == open_in(
        cells,
        w,
        h,
        s,
    )) by {
        if s.0 < w && s.1 < h {
            lemma_square_index(w, h, s.0 as int, s.1 as int);
            if square_index(w, s.0 as int, s.1 as int) == i {
                crate::maze::grid::lemma_square_index_injective(w, s.0 as int, s.1 as int, step.x as int, step.y as int);
            }
        }
    }
    let m = cells.map_values(|c: Cell| c != Cell::Wall);
    if cells[i] == Cell::Start || cells[i] == Cell::End {
        assert(after == cells);
    } else {
        assert(after == cells.update(i, step.cell));
        assert(after.map_values(|c: Cell| c != Cell::Wall) =~= m.update(i, true));
        if m[i] {
            assert(m.update(i, true) =~= m);
        } else {
            lemma_count_set(m, i);
        }
    }
}

/// The square between two adjacent corridors.
pub open spec fn wall_square(a: (usize, usize), b: (usize, usize)) -> (usize, usize) {
    ((a.0 + b.0 + 1) as usize, (a.1 + b.1 + 1) as usize)
}

/// The wall between two visited corridors side by side is theirs.
#[verifier::rlimit(50)]
#[verifier::spinoff_prover]
pub proof fn lemma_wall_visited(vis: Set<(usize, usize)>, a: (usize, usize), b: (usize, usize))
    requires
        adjacent(a, b),
        a.0 + b.0 + 1 <= usize::MAX,
        a.1 + b.1 + 1 <= usize::MAX,
    ensures
        visited_square(vis, wall_square(a, b)) <==> vis.contains(a) && vis.contains(b),
{
}

/// A corridor's own square is visited exactly when the corridor is.
#[verifier::rlimit(50)]
#[verifier::spinoff_prover]
pub proof fn lemma_corridor_visited(vis: Set<(usize, usize)>, p: (usize, usize))
    requires
        2 * p.0 + 1 <= usize::MAX,
        2 * p.1 + 1 <= usize::MAX,
    ensures
        visited_square(vis, ((2 * p.0 + 1) as usize, (2 * p.1 + 1) as usize)) <==> vis.contains(p),
{
}

/// Nothing open, nothing counted.
#[verifier::rlimit(50)]
#[verifier::spinoff_prover]
pub proof fn lemma_count_blank(cells: Seq<Cell>)
    requires
        forall|i: int| 0 <= i < cells.len() ==> #[trigger] cells[i] == Cell::Wall,
    ensures
        walkable_count(cells) == 0,
    decreases cells.len(),
{
    let m = cells.map_values(|c: Cell| c != Cell::Wall);
    if cells.len() > 0 {
        let rest = cells.drop_last();
        assert forall|i: int| 0 <= i < rest.len() implies #[trigger] rest[i] == Cell::Wall by {
            assert(rest[i] == cells[i]);
        }
        lemma_count_blank(rest);
        assert(m.drop_last() =~= rest.map_values(|c: Cell| c != Cell::Wall));
        assert(!m.last());
    }
}

/// The wall between every two corridors next to each other on the stack
/// stands open.
pub open spec fn pairs_open(cells: Seq<Cell>, w: int, h: int, stack: Seq<(usize, usize)>) -> bool {
    forall|k: int| 0 <= k < stack.len() - 1 ==> open_in(cells, w, h, wall_square(#[trigger] stack[k], stack[k + 1]))
}

/// Starting a walk on an unvisited corridor opens its square, one more.
#[verifier::rlimit(50)]
#[verifier::spinoff_prover]
pub proof fn lemma_seed_count(
    vis0: Set<(usize, usize)>,
    cells: Seq<Cell>,
    w: int,
    h: int,
    seed: (usize, usize),
    first: Step,
)
    requires
        w <= usize::MAX,
        h <= usize::MAX,
        opened_within(vis0, cells, w, h),
        !vis0.contains(seed),
        cells.len() == w * h,
        2 * seed.0 + 1 < w,
        2 * seed.1 + 1 < h,
        first == (Step { x: (2 * seed.0 + 1) as usize, y: (2 * seed.1 + 1) as usize, cell: Cell::Probe }),
    ensures
        opened_within(vis0.insert(seed), after_step(cells, w, first), w, h),
        walkable_count(after_step(cells, w, first)) == walkable_count(cells) + 1,
        after_step(cells, w, first).len() == cells.len(),
        pairs_open(after_step(cells, w, first), w, h, seq![seed]),
{
    let sq = (first.x, first.y);
    lemma_corridor_visited(vis0, seed);
    lemma_corridor_visited(vis0.insert(seed), seed);
    if open_in(cells, w, h, sq) {
        lemma_within_open(vis0, cells, w, h, sq);
    }
    lemma_paint_within(vis0, vis0.insert(seed), cells, w, h, first);
}

/// Stepping from the top of the stack to an unvisited neighbour opens the
/// wall between and the neighbour's square, two more, and keeps the walls
/// along the grown stack open.
#[verifier::rlimit(50)]
#[verifier::spinoff_prover]
pub proof fn lemma_advance_count(
    vis0: Set<(usize, usize)>,
    cells: Seq<Cell>,
    w: int,
    h: int,
    stack: Seq<(usize, usize)>,
    next: (usize, usize),
    probe: Step,
    reach: Step,
)
    requires
        w <= usize::MAX,
        h <= usize::MAX,
        opened_within(vis0, cells, w, h),
        pairs_open(cells, w, h, stack),
        stack.len() >= 1,
        vis0.contains(stack.last()),
        !vis0.contains(next),
        adjacent(stack.last(), next),
        cells.len() == w * h,
        2 * next.0 + 1 < w,
        2 * next.1 + 1 < h,
        stack.last().0 + next.0 + 1 < w,
        stack.last().1 + next.1 + 1 < h,
        probe == (Step { x: wall_square(stack.last(), next).0, y: wall_square(stack.last(), next).1, cell: Cell::Probe }),
        reach == (Step { x: (2 * next.0 + 1) as usize, y: (2 * next.1 + 1) as usize, cell: Cell::Probe }),
    ensures
        opened_within(vis0.insert(next), after_step(after_step(cells, w, probe), w, reach), w, h),
        walkable_count(after_step(after_step(cells, w, probe), w, reach)) == walkable_count(cells) + 2,
        after_step(after_step(cells, w, probe), w, reach).len() == cells.len(),
        pairs_open(after_step(after_step(cells, w, probe), w, reach), w, h, stack.push(next)),
{
    let a = stack.last();
    let vis = vis0.insert(next);
    let wall = wall_square(a, next);
    let room = (reach.x, reach.y);
    lemma_wall_visited(vis0, a, next);
    lemma_wall_visited(vis, a, next);
    lemma_corridor_visited(vis0, next);
    lemma_corridor_visited(vis, next);
    if open_in(cells, w, h, wall) {
        lemma_within_open(vis0, cells, w, h, wall);
    }
    if open_in(cells, w, h, room) {
        lemma_within_open(vis0, cells, w, h, room);
    }
    lemma_paint_within(vis0, vis, cells, w, h, probe);
    let cells1 = after_step(cells, w, probe);
    assert(room != (probe.x, probe.y));
    assert(!open_in(cells1, w, h, room));
    lemma_paint_within(vis, vis, cells1, w, h, reach);
    let cells2 = after_step(cells1, w, reach);
    let grown = stack.push(next);
    assert forall|k: int| 0 <= k < grown.len() - 1 implies open_in(
        cells2,
        w,
        h,
        wall_square(#[trigger] grown[k], grown[k + 1]),
    ) by {
        if k < stack.len() - 1 {
            assert(grown[k] == stack[k]);
            assert(grown[k + 1] == stack[k + 1]);
            assert(open_in(cells, w, h, wall_square(stack[k], stack[k + 1])));
            assert(open_in(cells1, w, h, wall_square(stack[k], stack[k + 1])));
        } else {
            assert(grown[k] == a);
            assert(grown[k + 1] == next);
            assert(open_in(cells1, w, h, wall));
        }
    }
}

/// Stepping back paints squares already open: the top corridor's own, and
/// the wall to the corridor below it; the count stays and the walls along
/// the shrunk stack stay open.
#[verifier::rlimit(50)]
#[verifier::spinoff_prover]
pub proof fn lemma_retreat_count(
    vis: Set<(usize, usize)>,
    cells: Seq<Cell>,
    w: int,
    h: int,
    stack: Seq<(usize, usize)>,
    settle: Step,
)
    requires
        w <= usize::MAX,
        h <= usize::MAX,
        opened_within(vis, cells, w, h),
        pairs_open(cells, w, h, stack),
        stack.len() >= 1,
        vis.contains(stack.last()),
        open_in(cells, w, h, (settle.x, settle.y)),
        cells.len() == w * h,
        settle.x == 2 * stack.last().0 + 1,
        settle.y == 2 * stack.last().1 + 1,
        settle.x < w,
        settle.y < h,
        settle.cell == Cell::Floor,
    ensures
        opened_within(vis, after_step(cells, w, settle), w, h),
        walkable_count(after_step(cells, w, settle)) == walkable_count(cells),
        after_step(cells, w, settle).len() == cells.len(),
        pairs_open(after_step(cells, w, settle), w, h, stack),
        pairs_open(after_step(cells, w, settle), w, h, stack.drop_last()),
{
    lemma_corridor_visited(vis, stack.last());
    lemma_paint_within(vis, vis, cells, w, h, settle);
    let after = after_step(cells, w, settle);
    assert forall|k: int| 0 <= k < stack.len() - 1 implies open_in(after, w, h, wall_square(#[trigger] stack[k], stack[k + 1])) by {
        assert(open_in(cells, w, h, wall_square(stack[k], stack[k + 1])));
    }
    let short = stack.drop_last();
    assert forall|k: int| 0 <= k < short.len() - 1 implies open_in(after, w, h, wall_square(#[trigger] short[k], short[k + 1])) by {
        assert(short[k] == stack[k]);
        assert(short[k + 1] == stack[k + 1]);
    }
}

/// Relinking the corridor below the top of the stack paints the wall
/// between them, already open: the count stays.
#[verifier::rlimit(50)]
#[verifier::spinoff_prover]
pub proof fn lemma_relink_count(
    vis: Set<(usize, usize)>,
    cells: Seq<Cell>,
    w: int,
    h: int,
    stack: Seq<(usize, usize)>,
    link: Step,
)
    requires
        w <= usize::MAX,
        h <= usize::MAX,
        opened_within(vis, cells, w, h),
        pairs_open(cells, w, h, stack),
        stack.len() >= 2,
        vis.contains(stack[stack.len() - 2]),
        vis.contains(stack.last()),
        adjacent(stack[stack.len() - 2], stack.last()),
        cells.len() == w * h,
        link.x == wall_square(stack[stack.len() - 2], stack.last()).0,
        link.y == wall_square(stack[stack.len() - 2], stack.last()).1,
        stack[stack.len() - 2].0 + stack.last().0 + 1 < w,
        stack[stack.len() - 2].1 + stack.last().1 + 1 < h,
        link.cell == Cell::Floor,
    ensures
        opened_within(vis, after_step(cells, w, link), w, h),
        walkable_count(after_step(cells, w, link)) == walkable_count(cells),
        after_step(cells, w, link).len() == cells.len(),
        pairs_open(after_step(cells, w, link), w, h, stack.drop_last()),
{
    let a = stack[stack.len() - 2];
    let b = stack.last();
    assert(stack[stack.len() - 1] == b);
    assert(open_in(cells, w, h, wall_square(stack[stack.len() - 2], stack[stack.len() - 2 + 1])));
    lemma_wall_visited(vis, a, b);
    lemma_paint_within(vis, vis, cells, w, h, link);
    let after = after_step(cells, w, link);
    let short = stack.drop_last();
    assert forall|k: int| 0 <= k < short.len() - 1 implies open_in(after, w, h, wall_square(#[trigger] short[k], short[k + 1])) by {
        assert(short[k] == stack[k]);
        assert(short[k + 1] == stack[k + 1]);
        assert(open_in(cells, w, h, wall_square(stack[k], stack[k + 1])));
    }
}


/// Growing the tree from a visited corridor to an unvisited neighbour
/// opens the wall between and the neighbour's square: two more.
#[verifier::rlimit(50)]
#[verifier::spinoff_prover]
pub proof fn lemma_grow_count(
    vis0: Set<(usize, usize)>,
    cells: Seq<Cell>,
    w: int,
    h: int,
    from: (usize, usize),
    next: (usize, usize),
    link: Step,
    reach: Step,
)
    requires
        w <= usize::MAX,
        h <= usize::MAX,
        opened_within(vis0, cells, w, h),
        vis0.contains(from),
        !vis0.contains(next),
        adjacent(from, next),
        cells.len() == w * h,
        2 * next.0 + 1 < w,
        2 * next.1 + 1 < h,
        from.0 + next.0 + 1 < w,
        from.1 + next.1 + 1 < h,
        link.x == wall_square(from, next).0,
        link.y == wall_square(from, next).1,
        link.cell != Cell::Wall,
        reach.x == 2 * next.0 + 1,
        reach.y == 2 * next.1 + 1,
        reach.cell != Cell::Wall,
    ensures
        opened_within(vis0.insert(next), after_step(after_step(cells, w, link), w, reach), w, h),
        walkable_count(after_step(after_step(cells, w, link), w, reach)) == walkable_count(cells) + 2,
        after_step(after_step(cells, w, link), w, reach).len() == cells.len(),
{
    let vis = vis0.insert(next);
    let wall = wall_square(from, next);
    let room = (reach.x, reach.y);
    lemma_wall_visited(vis0, from, next);
    lemma_wall_visited(vis, from, next);
    lemma_corridor_visited(vis0, next);
    lemma_corridor_visited(vis, next);
    if open_in(cells, w, h, wall) {
        lemma_within_open(vis0, cells, w, h, wall);
    }
    if open_in(cells, w, h, room) {
        lemma_within_open(vis0, cells, w, h, room);
    }
    lemma_paint_within(vis0, vis, cells, w, h, link);
    let cells1 = after_step(cells, w, link);
    assert(room != (link.x, link.y));
    assert(!open_in(cells1, w, h, room));
    lemma_paint_within(vis, vis, cells1, w, h, reach);
}

/// Painting a visited corridor's own square, already open, keeps the count.
#[verifier::rlimit(50)]
#[verifier::spinoff_prover]
pub proof fn lemma_settle_count(vis: Set<(usize, usize)>, cells: Seq<Cell>, w: int, h: int, p: (usize, usize), settle: Step)
    requires
        w <= usize::MAX,
        h <= usize::MAX,
        opened_within(vis, cells, w, h),
        vis.contains(p),
        cells.len() == w * h,
        settle.x == 2 * p.0 + 1,
        settle.y == 2 * p.1 + 1,
        settle.x < w,
        settle.y < h,
        open_in(cells, w, h, (settle.x, settle.y)),
        settle.cell != Cell::Wall,
    ensures
        opened_within(vis, after_step(cells, w, settle), w, h),
        walkable_count(after_step(cells, w, settle)) == walkable_count(cells),
        after_step(cells, w, settle).len() == cells.len(),
{
    lemma_corridor_visited(vis, p);
    lemma_paint_within(vis, vis, cells, w, h, settle);
}

/// Once every open corridor is visited on the open lattice, every corridor
/// index has been seen, and at least one walk was started.
#[verifier::rlimit(50)]
#[verifier::spinoff_prover]
pub proof fn lemma_all_seen(
    lattice: &Lattice,
    corridors: Seq<(usize, usize)>,
    visited: Seq<bool>,
    vis: Set<(usize, usize)>,
    seen: Set<int>,
    i: int,
)
    requires
        lattice.wf(),
        is_open_lattice(*lattice, lattice.spec_width(), lattice.spec_height()),
        lattice.spec_width() * lattice.spec_height() >= 1,
        lattice.tracks(visited, vis),
        forall|j: int| seen.contains(j) <==> 0 <= j < lattice.spec_width() * lattice.spec_height() && visited[j],
        forall|x: int, y: int| #[trigger] lattice.is_open(x, y) ==> corridors.contains((x as usize, y as usize)),
        forall|k: int| 0 <= k < i ==> vis.contains(#[trigger] corridors[k]),
        i == corridors.len(),
    ensures
        i >= 1,
        seen.len() == lattice.spec_width() * lattice.spec_height(),
        forall|j: int| 0 <= j < lattice.spec_width() * lattice.spec_height() ==> #[trigger] seen.contains(j),
{
    let lw = lattice.spec_width();
    let lh = lattice.spec_height();
    let n = lw * lh;
    assert(lw >= 1 && lh >= 1) by (nonlinear_arith)
        requires
            lw * lh >= 1,
            lw >= 0,
            lh >= 0,
    ;
    crate::maze::grid::lemma_square_index(lw, lh, 0, 0);
    assert(!lattice.spec_blocked()[0]);
    assert(lattice.is_open(0, 0));
    assert(corridors.contains((0usize, 0usize)));
    assert forall|j: int| 0 <= j < n implies #[trigger] seen.contains(j) by {
        vstd::arithmetic::div_mod::lemma_fundamental_div_mod(j, lw);
        assert(j / lw < lh) by (nonlinear_arith)
            requires
                0 <= j < lw * lh,
                0 < lw,
                j == lw * (j / lw) + j % lw,
                0 <= j % lw < lw,
        ;
        let p = ((j % lw) as usize, (j / lw) as usize);
        lattice.lemma_fits();
        vstd::arithmetic::mul::lemma_mul_is_commutative(j / lw, lw);
        assert(lattice.holds(p));
        assert(lattice.flat(p) == j);
        assert(lattice.is_open(p.0 as int, p.1 as int));
        assert(corridors.contains(p));
        let k = choose|k: int| 0 <= k < corridors.len() && corridors[k] == p;
        assert(vis.contains(corridors[k]));
        lattice.lemma_tracks_read(visited, vis, p);
    }
    vstd::set_lib::lemma_int_range(0, n);
    assert(seen =~= vstd::set_lib::set_int_range(0, n));
}

/// A count of marks that are all set is their number; of marks all unset, zero.
#[verifier::rlimit(50)]
#[verifier::spinoff_prover]
pub proof fn lemma_count_uniform(marks: Seq<bool>, v: bool)
    requires
        forall|i: int| 0 <= i < marks.len() ==> #[trigger] marks[i] == v,
    ensures
        count_true(marks) == if v { marks.len() } else { 0 },
    decreases marks.len(),
{
    if marks.len() > 0 {
        let rest = marks.drop_last();
        assert forall|i: int| 0 <= i < rest.len() implies #[trigger] rest[i] == v by {
            assert(rest[i] == marks[i]);
        }
        lemma_count_uniform(rest, v);
        assert(marks.last() == marks[marks.len() - 1]);
    }
}

/// Flooring a corridor not visited yet opens its square: one more.
#[verifier::rlimit(50)]
#[verifier::spinoff_prover]
pub proof fn lemma_fresh_count(vis0: Set<(usize, usize)>, cells: Seq<Cell>, w: int, h: int, p: (usize, usize), step: Step)
    requires
        w <= usize::MAX,
        h <= usize::MAX,
        opened_within(vis0, cells, w, h),
        !vis0.contains(p),
        cells.len() == w * h,
        step.x == 2 * p.0 + 1,
        step.y == 2 * p.1 + 1,
        step.x < w,
        step.y < h,
        step.cell != Cell::Wall,
    ensures
        opened_within(vis0.insert(p), after_step(cells, w, step), w, h),
        walkable_count(after_step(cells, w, step)) == walkable_count(cells) + 1,
        after_step(cells, w, step).len() == cells.len(),
        !open_in(cells, w, h, (step.x, step.y)),
        forall|s: (usize, usize)|
            s != (step.x, step.y) ==> (#[trigger] open_in(after_step(cells, w, step), w, h, s) == open_in(cells, w, h, s)),
{
    lemma_corridor_visited(vis0, p);
    lemma_corridor_visited(vis0.insert(p), p);
    if open_in(cells, w, h, (step.x, step.y)) {
        lemma_within_open(vis0, cells, w, h, (step.x, step.y));
    }
    lemma_paint_within(vis0, vis0.insert(p), cells, w, h, step);
}

/// Flooring a corridor not visited yet and the wall back to a visited
/// neighbour opens both: two more.
#[verifier::rlimit(50)]
#[verifier::spinoff_prover]
pub proof fn lemma_join_back_count(
    vis0: Set<(usize, usize)>,
    cells: Seq<Cell>,
    w: int,
    h: int,
    p: (usize, usize),
    q: (usize, usize),
    step: Step,
    wall: Step,
)
    requires
        w <= usize::MAX,
        h <= usize::MAX,
        opened_within(vis0, cells, w, h),
        !vis0.contains(p),
        vis0.contains(q),
        adjacent(p, q),
        cells.len() == w * h,
        step.x == 2 * p.0 + 1,
        step.y == 2 * p.1 + 1,
        step.x < w,
        step.y < h,
        step.cell != Cell::Wall,
        p.0 + q.0 + 1 < w,
        p.1 + q.1 + 1 < h,
        wall.x == wall_square(p, q).0,
        wall.y == wall_square(p, q).1,
        wall.cell != Cell::Wall,
    ensures
        opened_within(vis0.insert(p), after_step(after_step(cells, w, step), w, wall), w, h),
        walkable_count(after_step(after_step(cells, w, step), w, wall)) == walkable_count(cells) + 2,
        after_step(after_step(cells, w, step), w, wall).len() == cells.len(),
{
    let vis = vis0.insert(p);
    lemma_fresh_count(vis0, cells, w, h, p, step);
    let cells1 = after_step(cells, w, step);
    let ws = wall_square(p, q);
    lemma_wall_visited(vis0, p, q);
    lemma_wall_visited(vis, p, q);
    if open_in(cells, w, h, ws) {
        lemma_within_open(vis0, cells, w, h, ws);
    }
    assert(ws != (step.x, step.y));
    assert(!open_in(cells1, w, h, ws));
    lemma_paint_within(vis, vis, cells1, w, h, wall);
}

/// Painting a shut square with anything but wall opens it: one more, and
/// no other square changes.
#[verifier::rlimit(50)]
#[verifier::spinoff_prover]
pub proof fn lemma_paint_count(cells: Seq<Cell>, w: int, h: int, step: Step)
    requires
        cells.len() == w * h,
        step.x < w,
        step.y < h,
        step.cell != Cell::Wall,
        !open_in(cells, w, h, (step.x, step.y)),
    ensures
        walkable_count(after_step(cells, w, step)) == walkable_count(cells) + 1,
        after_step(cells, w, step).len() == cells.len(),
        open_in(after_step(cells, w, step), w, h, (step.x, step.y)),
        forall|s: (usize, usize)|
            s != (step.x, step.y) ==> (#[trigger] open_in(after_step(cells, w, step), w, h, s) == open_in(cells, w, h, s)),
{
    let i = square_index(w, step.x as int, step.y as int);
    lemma_square_index(w, h, step.x as int, step.y as int);
    let after = after_step(cells, w, step);
    assert(cells[i] == Cell::Wall);
    assert(after == cells.update(i, step.cell));
    assert forall|s: (usize, usize)| s != (step.x, step.y) implies (#[trigger] open_in(after, w, h, s) == open_in(
        cells,
        w,
        h,
        s,
    )) by {
        if s.0 < w && s.1 < h {
            lemma_square_index(w, h, s.0 as int, s.1 as int);
            if square_index(w, s.0 as int, s.1 as int) == i {
                crate::maze::grid::lemma_square_index_injective(w, s.0 as int, s.1 as int, step.x as int, step.y as int);
            }
        }
    }
    let m = cells.map_values(|c: Cell| c != Cell::Wall);
    assert(after.map_values(|c: Cell| c != Cell::Wall) =~= m.update(i, true));
    lemma_count_set(m, i);
}

/// The square of corridor `p`.
pub open spec fn corridor_cell(p: (usize, usize)) -> (usize, usize) {
    ((2 * p.0 + 1) as usize, (2 * p.1 + 1) as usize)
}

/// Square `s` belongs to the shown corridors: a shown corridor's own square,
/// or the wall between two visited corridors.
pub open spec fn shown_square(vis: Set<(usize, usize)>, shown: Set<(usize, usize)>, s: (usize, usize)) -> bool {
    let x = s.0 as int;
    let y = s.1 as int;
    if x % 2 == 1 && y % 2 == 1 {
        shown.contains((((x - 1) / 2) as usize, ((y - 1) / 2) as usize))
    } else {
        visited_square(vis, s)
    }
}

/// The open squares are exactly the squares of the shown corridors and
/// some walls between visited ones; the visited corridors are shown.
#[verifier::opaque]
pub open spec fn shown_ok(vis: Set<(usize, usize)>, shown: Set<(usize, usize)>, cells: Seq<Cell>, w: int, h: int) -> bool {
    &&& forall|s: (usize, usize)| #[trigger] open_in(cells, w, h, s) ==> shown_square(vis, shown, s)
    &&& forall|p: (usize, usize)|
        #[trigger] shown.contains(p) ==> 2 * p.0 + 1 < w && 2 * p.1 + 1 < h && open_in(cells, w, h, corridor_cell(p))
    &&& forall|p: (usize, usize)| #[trigger] vis.contains(p) ==> shown.contains(p)
}

/// A grid of walls shows nothing.
#[verifier::rlimit(50)]
#[verifier::spinoff_prover]
pub proof fn lemma_shown_blank(cells: Seq<Cell>, w: int, h: int)
    requires
        cells.len() == w * h,
        forall|i: int| 0 <= i < cells.len() ==> #[trigger] cells[i] == Cell::Wall,
    ensures
        shown_ok(Set::empty(), Set::empty(), cells, w, h),
{
    reveal(shown_ok);
    assert forall|s: (usize, usize)| #[trigger] open_in(cells, w, h, s) implies shown_square(Set::empty(), Set::empty(), s) by {
        lemma_square_index(w, h, s.0 as int, s.1 as int);
    }
}

/// Painting keeps the squares it does not touch as they were, for the
/// shown corridors' squares.
#[verifier::rlimit(50)]
#[verifier::spinoff_prover]
proof fn lemma_shown_kept(
    vis: Set<(usize, usize)>,
    shown: Set<(usize, usize)>,
    cells: Seq<Cell>,
    after: Seq<Cell>,
    w: int,
    h: int,
    painted: (usize, usize),
)
    requires
        w <= usize::MAX,
        h <= usize::MAX,
        shown_ok(vis, shown, cells, w, h),
        forall|s: (usize, usize)| s != painted ==> (#[trigger] open_in(after, w, h, s) == open_in(cells, w, h, s)),
        open_in(after, w, h, painted),
    ensures
        forall|p: (usize, usize)|
            #[trigger] shown.contains(p) ==> 2 * p.0 + 1 < w && 2 * p.1 + 1 < h && open_in(after, w, h, corridor_cell(p)),
        forall|s: (usize, usize)|
            #[trigger] open_in(after, w, h, s) && s != painted ==> shown_square(vis, shown, s),
{
    reveal(shown_ok);
    assert forall|p: (usize, usize)| #[trigger] shown.contains(p) implies 2 * p.0 + 1 < w && 2 * p.1 + 1 < h
        && open_in(after, w, h, corridor_cell(p)) by {
        assert(open_in(cells, w, h, corridor_cell(p)));
        if corridor_cell(p) != painted {
            assert(open_in(after, w, h, corridor_cell(p)) == open_in(cells, w, h, corridor_cell(p)));
        }
    }
    assert forall|s: (usize, usize)| #[trigger] open_in(after, w, h, s) && s != painted implies shown_square(
        vis,
        shown,
        s,
    ) by {
        assert(open_in(cells, w, h, s));
    }
}

/// A square that does not belong to the shown corridors is shut.
#[verifier::rlimit(50)]
#[verifier::spinoff_prover]
proof fn lemma_shown_shut(vis: Set<(usize, usize)>, shown: Set<(usize, usize)>, cells: Seq<Cell>, w: int, h: int, s: (usize, usize))
    requires
        shown_ok(vis, shown, cells, w, h),
        !shown_square(vis, shown, s),
    ensures
        !open_in(cells, w, h, s),
{
    reveal(shown_ok);
}

/// The visited corridors are shown, and each shown one has its square open.
#[verifier::rlimit(50)]
#[verifier::spinoff_prover]
proof fn lemma_shown_facts(vis: Set<(usize, usize)>, shown: Set<(usize, usize)>, cells: Seq<Cell>, w: int, h: int)
    requires
        shown_ok(vis, shown, cells, w, h),
    ensures
        forall|p: (usize, usize)| #[trigger] vis.contains(p) ==> shown.contains(p),
        forall|p: (usize, usize)|
            #[trigger] shown.contains(p) ==> 2 * p.0 + 1 < w && 2 * p.1 + 1 < h && open_in(cells, w, h, corridor_cell(p)),
{
    reveal(shown_ok);
}

/// A corridor's own square belongs to the shown corridors exactly when the
/// corridor is shown.
#[verifier::rlimit(50)]
#[verifier::spinoff_prover]
proof fn lemma_cell_shown(vis: Set<(usize, usize)>, shown: Set<(usize, usize)>, q: (usize, usize))
    requires
        2 * q.0 + 1 <= usize::MAX,
        2 * q.1 + 1 <= usize::MAX,
    ensures
        shown_square(vis, shown, corridor_cell(q)) == shown.contains(q),
{
    let c = corridor_cell(q);
    assert(c.0 as int == 2 * q.0 + 1);
    assert(c.1 as int == 2 * q.1 + 1);
    assert((((c.0 as int - 1) / 2) as usize, ((c.1 as int - 1) / 2) as usize) == q);
}

/// Painting the square of a corridor not shown yet shows it, and, when it
/// is visited with the same step, visits it: one more open square.
#[verifier::rlimit(50)]
#[verifier::spinoff_prover]
pub proof fn lemma_shown_corridor(
    vis: Set<(usize, usize)>,
    vis2: Set<(usize, usize)>,
    shown: Set<(usize, usize)>,
    cells: Seq<Cell>,
    w: int,
    h: int,
    q: (usize, usize),
    step: Step,
)
    requires
        w <= usize::MAX,
        h <= usize::MAX,
        shown_ok(vis, shown, cells, w, h),
        !shown.contains(q),
        vis2 == vis || vis2 == vis.insert(q),
        cells.len() == w * h,
        step.x == 2 * q.0 + 1,
        step.y == 2 * q.1 + 1,
        step.x < w,
        step.y < h,
        step.cell != Cell::Wall,
    ensures
        shown_ok(vis2, shown.insert(q), after_step(cells, w, step), w, h),
        walkable_count(after_step(cells, w, step)) == walkable_count(cells) + 1,
        after_step(cells, w, step).len() == cells.len(),
{
    let sq = (step.x, step.y);
    assert(sq == corridor_cell(q));
    lemma_cell_shown(vis, shown, q);
    lemma_shown_shut(vis, shown, cells, w, h, sq);
    lemma_shown_facts(vis, shown, cells, w, h);
    lemma_paint_count(cells, w, h, step);
    let after = after_step(cells, w, step);
    lemma_shown_kept(vis, shown, cells, after, w, h, sq);
    lemma_shown_grow(vis, vis2, shown, after, w, h, q);
}

/// Showing `q` once its square is open, and visiting it or not, keeps the
/// shown corridors in order.
#[verifier::rlimit(50)]
#[verifier::spinoff_prover]
proof fn lemma_shown_grow(
    vis: Set<(usize, usize)>,
    vis2: Set<(usize, usize)>,
    shown: Set<(usize, usize)>,
    after: Seq<Cell>,
    w: int,
    h: int,
    q: (usize, usize),
)
    requires
        w <= usize::MAX,
        h <= usize::MAX,
        forall|p: (usize, usize)| #[trigger] vis.contains(p) ==> shown.contains(p),
        vis2 == vis || vis2 == vis.insert(q),
        2 * q.0 + 1 < w,
        2 * q.1 + 1 < h,
        open_in(after, w, h, corridor_cell(q)),
        forall|p: (usize, usize)|
            #[trigger] shown.contains(p) ==> 2 * p.0 + 1 < w && 2 * p.1 + 1 < h && open_in(after, w, h, corridor_cell(p)),
        forall|s: (usize, usize)|
            #[trigger] open_in(after, w, h, s) && s != corridor_cell(q) ==> shown_square(vis, shown, s),
    ensures
        shown_ok(vis2, shown.insert(q), after, w, h),
{
    reveal(shown_ok);
    let shown2 = shown.insert(q);
    assert forall|s: (usize, usize)| #[trigger] open_in(after, w, h, s) implies shown_square(vis2, shown2, s) by {
        if s != corridor_cell(q) {
            assert(shown_square(vis, shown, s));
        } else {
            assert(s.0 as int == 2 * q.0 + 1);
            assert(s.1 as int == 2 * q.1 + 1);
            assert((((s.0 as int - 1) / 2) as usize, ((s.1 as int - 1) / 2) as usize) == q);
        }
    }
    assert forall|p: (usize, usize)| #[trigger] shown2.contains(p) implies 2 * p.0 + 1 < w && 2 * p.1 + 1 < h
        && open_in(after, w, h, corridor_cell(p)) by {
        if p != q {
            assert(shown.contains(p));
        }
    }
}

/// Visiting a shown corridor from a visited neighbour opens the wall
/// between: one more open square; flooring its square, already open, adds
/// nothing.
#[verifier::rlimit(50)]
#[verifier::spinoff_prover]
pub proof fn lemma_shown_visit(
    vis: Set<(usize, usize)>,
    shown: Set<(usize, usize)>,
    cells: Seq<Cell>,
    w: int,
    h: int,
    from: (usize, usize),
    to: (usize, usize),
    link: Step,
    reach: Step,
)
    requires
        w <= usize::MAX,
        h <= usize::MAX,
        shown_ok(vis, shown, cells, w, h),
        vis.contains(from),
        !vis.contains(to),
        shown.contains(to),
        adjacent(from, to),
        cells.len() == w * h,
        from.0 + to.0 + 1 < w,
        from.1 + to.1 + 1 < h,
        link.x == wall_square(from, to).0,
        link.y == wall_square(from, to).1,
        link.cell != Cell::Wall,
        reach.x == 2 * to.0 + 1,
        reach.y == 2 * to.1 + 1,
        reach.cell != Cell::Wall,
    ensures
        shown_ok(vis.insert(to), shown, after_step(after_step(cells, w, link), w, reach), w, h),
        walkable_count(after_step(after_step(cells, w, link), w, reach)) == walkable_count(cells) + 1,
        after_step(after_step(cells, w, link), w, reach).len() == cells.len(),
{
    let vis2 = vis.insert(to);
    let ws = wall_square(from, to);
    lemma_wall_visited(vis, from, to);
    lemma_wall_visited(vis2, from, to);
    assert(!shown_square(vis, shown, ws));
    lemma_shown_shut(vis, shown, cells, w, h, ws);
    lemma_shown_facts(vis, shown, cells, w, h);
    assert(shown.contains(to));
    lemma_paint_count(cells, w, h, link);
    let cells1 = after_step(cells, w, link);
    lemma_shown_kept(vis, shown, cells, cells1, w, h, ws);
    let rs = (reach.x, reach.y);
    assert(rs == corridor_cell(to));
    assert(open_in(cells1, w, h, rs));
    lemma_repaint_count(cells1, w, h, reach);
    let cells2 = after_step(cells1, w, reach);
    lemma_shown_link(vis, shown, cells1, cells2, w, h, from, to);
}

/// After the link to `to` is open, visiting `to` keeps the shown corridors
/// in order.
#[verifier::rlimit(50)]
#[verifier::spinoff_prover]
proof fn lemma_shown_link(
    vis: Set<(usize, usize)>,
    shown: Set<(usize, usize)>,
    cells1: Seq<Cell>,
    cells2: Seq<Cell>,
    w: int,
    h: int,
    from: (usize, usize),
    to: (usize, usize),
)
    requires
        w <= usize::MAX,
        h <= usize::MAX,
        forall|p: (usize, usize)| #[trigger] vis.contains(p) ==> shown.contains(p),
        vis.contains(from),
        shown.contains(to),
        adjacent(from, to),
        from.0 + to.0 + 1 <= usize::MAX,
        from.1 + to.1 + 1 <= usize::MAX,
        forall|s: (usize, usize)| #[trigger] open_in(cells2, w, h, s) == open_in(cells1, w, h, s),
        forall|p: (usize, usize)|
            #[trigger] shown.contains(p) ==> 2 * p.0 + 1 < w && 2 * p.1 + 1 < h && open_in(cells1, w, h, corridor_cell(p)),
        forall|s: (usize, usize)|
            #[trigger] open_in(cells1, w, h, s) && s != wall_square(from, to) ==> shown_square(vis, shown, s),
    ensures
        shown_ok(vis.insert(to), shown, cells2, w, h),
{
    reveal(shown_ok);
    let vis2 = vis.insert(to);
    lemma_wall_visited(vis2, from, to);
    assert forall|s: (usize, usize)| #[trigger] open_in(cells2, w, h, s) implies shown_square(vis2, shown, s) by {
        assert(open_in(cells1, w, h, s));
        if s != wall_square(from, to) {
            assert(shown_square(vis, shown, s));
        }
    }
    assert forall|p: (usize, usize)| #[trigger] shown.contains(p) implies 2 * p.0 + 1 < w && 2 * p.1 + 1 < h
        && open_in(cells2, w, h, corridor_cell(p)) by {
        assert(open_in(cells1, w, h, corridor_cell(p)));
    }
}

/// Painting an open square with anything but wall keeps the count, and
/// every square open or shut as it was.
#[verifier::rlimit(50)]
#[verifier::spinoff_prover]
pub proof fn lemma_repaint_count(cells: Seq<Cell>, w: int, h: int, step: Step)
    requires
        cells.len() == w * h,
        step.x < w,
        step.y < h,
        step.cell != Cell::Wall,
        open_in(cells, w, h, (step.x, step.y)),
    ensures
        walkable_count(after_step(cells, w, step)) == walkable_count(cells),
        after_step(cells, w, step).len() == cells.len(),
        forall|s: (usize, usize)| #[trigger] open_in(after_step(cells, w, step), w, h, s) == open_in(cells, w, h, s),
{
    let i = square_index(w, step.x as int, step.y as int);
    lemma_square_index(w, h, step.x as int, step.y as int);
    let after = after_step(cells, w, step);
    assert forall|s: (usize, usize)| #[trigger] open_in(after, w, h, s) == open_in(cells, w, h, s) by {
        if s.0 < w && s.1 < h {
            lemma_square_index(w, h, s.0 as int, s.1 as int);
        }
    }
    let m = cells.map_values(|c: Cell| c != Cell::Wall);
    if !(cells[i] == Cell::Start || cells[i] == Cell::End) {
        assert(after.map_values(|c: Cell| c != Cell::Wall) =~= m.update(i, true));
        assert(m.update(i, true) =~= m);
    }
}

// Carvers that merge groups of corridors across the walls between them.

/// Which corridors stand for their group.
pub open spec fn roots(reps: Seq<usize>) -> Seq<bool> {
    Seq::new(reps.len(), |i: int| reps[i] == i)
}

/// Which corridors show an open square, by flat index.
pub open spec fn floored_marks(lattice: Lattice, cells: Seq<Cell>, w: int, h: int) -> Seq<bool> {
    Seq::new(
        (lattice.spec_width() * lattice.spec_height()) as nat,
        |i: int| open_in(cells, w, h, corridor_square(decode(lattice.spec_width(), i))),
    )
}

/// A flat index in range stands for the corridor it decodes to.
pub proof fn lemma_decode_flat(lattice: Lattice, i: int)
    requires
        lattice.wf(),
        0 <= i < lattice.spec_width() * lattice.spec_height(),
    ensures
        lattice.holds(decode(lattice.spec_width(), i)),
        lattice.flat(decode(lattice.spec_width(), i)) == i,
{
    let lw = lattice.spec_width();
    let lh = lattice.spec_height();
    lattice.lemma_fits();
    assert(lw > 0) by (nonlinear_arith)
        requires
            0 <= i < lw * lh,
            lw >= 0,
            lh >= 0,
    ;
    vstd::arithmetic::div_mod::lemma_fundamental_div_mod(i, lw);
    assert(0 <= i / lw < lh) by (nonlinear_arith)
        requires
            0 <= i < lw * lh,
            0 < lw,
            i == lw * (i / lw) + i % lw,
            0 <= i % lw < lw,
    ;
    vstd::arithmetic::mul::lemma_mul_is_commutative(i / lw, lw);
}

/// The step that opens the wall between adjacent corridors `a` and `b`.
pub open spec fn link_step(a: (usize, usize), b: (usize, usize)) -> Step {
    Step { x: (a.0 + b.0 + 1) as usize, y: (a.1 + b.1 + 1) as usize, cell: Cell::Floor }
}

/// What the links so far have opened: one wall for every merge of two
/// groups, besides the floored corridors, so the open squares and the groups
/// together make up the floored corridors and the corridors. A wall only
/// opens between corridors of one group.
#[verifier::opaque]
pub open spec fn links_counted(lattice: Lattice, reps: Seq<usize>, cells: Seq<Cell>, w: int, h: int) -> bool {
    &&& walkable_count(cells) + count_true(roots(reps)) == count_true(floored_marks(lattice, cells, w, h))
        + reps.len()
    &&& forall|r: (usize, usize), p: (usize, usize), q: (usize, usize)|
        #[trigger] open_in(cells, w, h, r) && lattice.open_at(p) && lattice.open_at(q) && #[trigger] adjacent(
            corridor_square(p),
            r,
        ) && #[trigger] adjacent(corridor_square(q), r) ==> reps[lattice.flat(p)] == reps[lattice.flat(q)]
}

/// Before any link: every corridor its own group, nothing open.
pub proof fn lemma_links_start(lattice: Lattice, blank: Seq<Cell>, w: int, h: int)
    requires
        lattice.wf(),
        w == 2 * lattice.spec_width() + 1,
        h == 2 * lattice.spec_height() + 1,
        blank == all_walls(w * h),
        0 <= w * h,
    ensures
        links_counted(
            lattice,
            Seq::new((lattice.spec_width() * lattice.spec_height()) as nat, |i: int| i as usize),
            blank,
            w,
            h,
        ),
{
    reveal(links_counted);
    let lw = lattice.spec_width();
    let lh = lattice.spec_height();
    lattice.lemma_fits();
    let reps = Seq::new((lw * lh) as nat, |i: int| i as usize);
    lemma_count_blank(blank);
    lemma_count_uniform(roots(reps), true);
    assert forall|i: int| 0 <= i < floored_marks(lattice, blank, w, h).len() implies !#[trigger] floored_marks(
        lattice,
        blank,
        w,
        h,
    )[i] by {
        let s = corridor_square(decode(lw, i));
        if s.0 < w && s.1 < h {
            lemma_square_index(w, h, s.0 as int, s.1 as int);
        }
    }
    lemma_count_uniform(floored_marks(lattice, blank, w, h), false);
    assert forall|r: (usize, usize)| !#[trigger] open_in(blank, w, h, r) by {
        if r.0 < w && r.1 < h {
            lemma_square_index(w, h, r.0 as int, r.1 as int);
        }
    }
}

/// Flooring an open corridor keeps the count: a fresh square is one more
/// floored corridor, and a corridor's square lies next to no other's.
#[verifier::rlimit(50)]
#[verifier::spinoff_prover]
pub proof fn lemma_floor_count(lattice: Lattice, reps: Seq<usize>, cells: Seq<Cell>, w: int, h: int, p: (usize, usize))
    requires
        lattice.wf(),
        w == 2 * lattice.spec_width() + 1,
        h == 2 * lattice.spec_height() + 1,
        reps.len() == lattice.spec_width() * lattice.spec_height(),
        cells.len() == w * h,
        lattice.open_at(p),
        links_counted(lattice, reps, cells, w, h),
    ensures
        links_counted(lattice, reps, after_step(cells, w, floor_step(p.0 as int, p.1 as int)), w, h),
        after_step(cells, w, floor_step(p.0 as int, p.1 as int)).len() == cells.len(),
        open_in(after_step(cells, w, floor_step(p.0 as int, p.1 as int)), w, h, corridor_square(p)),
        forall|r: (usize, usize)|
            r != corridor_square(p) ==> #[trigger] open_in(
                after_step(cells, w, floor_step(p.0 as int, p.1 as int)),
                w,
                h,
                r,
            ) == open_in(cells, w, h, r),
{
    reveal(links_counted);
    let lw = lattice.spec_width();
    let lh = lattice.spec_height();
    lattice.lemma_fits();
    lemma_square_index(lw, lh, p.0 as int, p.1 as int);
    let step = floor_step(p.0 as int, p.1 as int);
    let sp = corridor_square(p);
    assert((step.x, step.y) == sp);
    let after = after_step(cells, w, step);
    let fp = lattice.flat(p);
    let fm = floored_marks(lattice, cells, w, h);
    let fm2 = floored_marks(lattice, after, w, h);
    assert(decode(lw, fp) == p);
    if open_in(cells, w, h, sp) {
        lemma_repaint_count(cells, w, h, step);
        assert(fm2 =~= fm);
    } else {
        lemma_paint_count(cells, w, h, step);
        assert forall|i: int| 0 <= i < fm2.len() implies #[trigger] fm2[i] == fm.update(fp, true)[i] by {
            lemma_decode_flat(lattice, i);
            if i != fp {
                assert(decode(lw, i) != p);
            }
        }
        assert(fm2 =~= fm.update(fp, true));
        lemma_count_set(fm, fp);
    }
    assert forall|r: (usize, usize), q: (usize, usize), t: (usize, usize)|
        #[trigger] open_in(after, w, h, r) && lattice.open_at(q) && lattice.open_at(t) && #[trigger] adjacent(
            corridor_square(q),
            r,
        ) && #[trigger] adjacent(corridor_square(t), r) implies reps[lattice.flat(q)] == reps[lattice.flat(t)] by {
        if r == sp {
            assert(false);
        } else {
            assert(open_in(cells, w, h, r));
        }
    }
}

/// Opening the wall between adjacent corridors of two groups, which merge:
/// the wall was still shut, since walls only open inside a group, so it
/// counts one more square while the groups lose one representative.
#[verifier::rlimit(60)]
#[verifier::spinoff_prover]
pub proof fn lemma_link_count(
    lattice: Lattice,
    reps0: Seq<usize>,
    cells0: Seq<Cell>,
    w: int,
    h: int,
    a: (usize, usize),
    b: (usize, usize),
)
    requires
        lattice.wf(),
        w == 2 * lattice.spec_width() + 1,
        h == 2 * lattice.spec_height() + 1,
        is_grouping(reps0),
        reps0.len() == lattice.spec_width() * lattice.spec_height(),
        cells0.len() == w * h,
        lattice.open_at(a),
        lattice.open_at(b),
        adjacent(a, b),
        reps0[lattice.flat(a)] != reps0[lattice.flat(b)],
        links_counted(lattice, reps0, cells0, w, h),
    ensures
        links_counted(
            lattice,
            joined(reps0, reps0[lattice.flat(a)], reps0[lattice.flat(b)]),
            after_step(cells0, w, link_step(a, b)),
            w,
            h,
        ),
        after_step(cells0, w, link_step(a, b)).len() == cells0.len(),
        open_in(after_step(cells0, w, link_step(a, b)), w, h, (link_step(a, b).x, link_step(a, b).y)),
        forall|r: (usize, usize)|
            r != (link_step(a, b).x, link_step(a, b).y) ==> #[trigger] open_in(
                after_step(cells0, w, link_step(a, b)),
                w,
                h,
                r,
            ) == open_in(cells0, w, h, r),
{
    reveal(links_counted);
    let lw = lattice.spec_width();
    let lh = lattice.spec_height();
    lattice.lemma_fits();
    lemma_square_index(lw, lh, a.0 as int, a.1 as int);
    lemma_square_index(lw, lh, b.0 as int, b.1 as int);
    let fa = lattice.flat(a);
    let fb = lattice.flat(b);
    let ra = reps0[fa];
    let rb = reps0[fb];
    let reps = joined(reps0, ra, rb);
    lemma_merge_joins(reps0, fa as usize, fb as usize);
    let step = link_step(a, b);
    let m = (step.x, step.y);
    assert(adjacent(corridor_square(a), m) && adjacent(corridor_square(b), m));
    // The wall between two groups is still shut.
    assert(!open_in(cells0, w, h, m));
    lemma_paint_count(cells0, w, h, step);
    let cells = after_step(cells0, w, step);
    // No corridor's square changes.
    let fm0 = floored_marks(lattice, cells0, w, h);
    let fm = floored_marks(lattice, cells, w, h);
    assert forall|i: int| 0 <= i < fm.len() implies #[trigger] fm[i] == fm0[i] by {
        lemma_decode_flat(lattice, i);
        assert(corridor_square(decode(lw, i)) != m);
    }
    assert(fm =~= fm0);
    // `a`'s representative no longer stands for a group.
    let rt0 = roots(reps0);
    let rt = roots(reps);
    assert(reps0[ra as int] == ra && reps0[rb as int] == rb);
    assert(rt.update(ra as int, true) =~= rt0) by {
        assert forall|i: int| 0 <= i < rt0.len() implies rt.update(ra as int, true)[i] == rt0[i] by {
            if i != ra as int && reps0[i] == ra {
                assert(reps0[i] != i);
                assert(i != rb as int);
            }
        }
    }
    assert(!rt[ra as int]);
    lemma_count_set(rt, ra as int);
    // Walls open only inside a group.
    assert forall|r: (usize, usize), p: (usize, usize), q: (usize, usize)|
        #[trigger] open_in(cells, w, h, r) && lattice.open_at(p) && lattice.open_at(q) && #[trigger] adjacent(
            corridor_square(p),
            r,
        ) && #[trigger] adjacent(corridor_square(q), r) implies reps[lattice.flat(p)] == reps[lattice.flat(q)] by {
        lemma_square_index(lw, lh, p.0 as int, p.1 as int);
        lemma_square_index(lw, lh, q.0 as int, q.1 as int);
        if r == m {
            assert(p == a || p == b);
            assert(q == a || q == b);
        } else {
            assert(open_in(cells0, w, h, r));
            assert(reps0[lattice.flat(p)] == reps0[lattice.flat(q)]);
        }
    }
}

/// Once an open lattice is one group with every corridor floored, the count
/// is a tree's: every corridor's square, and one wall for every corridor but
/// the first.
#[verifier::rlimit(50)]
#[verifier::spinoff_prover]
pub proof fn lemma_links_done(lattice: Lattice, reps: Seq<usize>, cells: Seq<Cell>, w: int, h: int)
    requires
        lattice.wf(),
        w == 2 * lattice.spec_width() + 1,
        h == 2 * lattice.spec_height() + 1,
        is_open_lattice(lattice, lattice.spec_width(), lattice.spec_height()),
        lattice.spec_width() * lattice.spec_height() >= 1,
        is_grouping(reps),
        reps.len() == lattice.spec_width() * lattice.spec_height(),
        forall|x: int, y: int| #[trigger] lattice.is_open(x, y) ==> reps[y * lattice.spec_width() + x] == reps[0],
        forall|x: int, y: int| #[trigger] lattice.is_open(x, y) ==> open_in(
            cells,
            w,
            h,
            corridor_square((x as usize, y as usize)),
        ),
        links_counted(lattice, reps, cells, w, h),
    ensures
        walkable_count(cells) == 2 * (lattice.spec_width() * lattice.spec_height()) - 1,
{
    reveal(links_counted);
    let lw = lattice.spec_width();
    let lh = lattice.spec_height();
    let n = lw * lh;
    assert forall|i: int| 0 <= i < n implies #[trigger] reps[i] == reps[0] && floored_marks(lattice, cells, w, h)[i] by {
        lemma_decode_flat(lattice, i);
        let p = decode(lw, i);
        assert(lattice.is_open(p.0 as int, p.1 as int));
    }
    let r = reps[0];
    assert(reps[r as int] == r);
    let rt = roots(reps);
    let none = Seq::new(n as nat, |i: int| false);
    lemma_count_uniform(none, false);
    assert(rt =~= none.update(r as int, true)) by {
        assert forall|i: int| 0 <= i < n implies rt[i] == none.update(r as int, true)[i] by {
            assert(reps[i] == r);
        }
    }
    lemma_count_set(none, r as int);
    let fm = floored_marks(lattice, cells, w, h);
    assert forall|i: int| 0 <= i < fm.len() implies #[trigger] fm[i] by {
        assert(reps[i] == reps[0] && fm[i]);
    }
    lemma_count_uniform(fm, true);
}

} // verus!
