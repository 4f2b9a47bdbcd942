use rand::rngs::StdRng;
use vstd::prelude::*;

use super::{Lattice, all_walls, floor, floor_step, is_open_lattice, wall_between};
use crate::maze::grid::{Cell, Step, adjacent, after_steps, lemma_square_index};
use crate::maze::walks::{
    all_joined, joins, lemma_joins_back, lemma_joins_chain, lemma_joins_grows, lemma_joins_self, lemma_joins_step,
    lemma_opened_only, lemma_replay_push, open_in, opened_only, opens_more, replay,
};
use crate::random::{pick, random_ratio};
use super::counting::{lemma_count_blank, lemma_paint_count};
use super::dungeon::walkable_count;

verus! {

/// The square of corridor (x, y).
spec fn sq(x: int, y: int) -> (usize, usize) {
    ((2 * x + 1) as usize, (2 * y + 1) as usize)
}

/// The wall square west of corridor (x, y).
spec fn west_wall(x: int, y: int) -> (usize, usize) {
    ((2 * x) as usize, (2 * y + 1) as usize)
}

/// Square `s` is one the sweep has opened by row `y`: in earlier rows any
/// corridor, west wall or north wall; in row `y` the corridors west of
/// `corridors`, the west walls of corridors west of `wests`, and the north
/// walls of corridors west of `norths`.
spec fn swept(s: (usize, usize), y: int, corridors: int, wests: int, norths: int) -> bool {
    let sx = s.0 as int;
    let sy = s.1 as int;
    if sx % 2 == 1 && sy % 2 == 1 {
        (sy - 1) / 2 < y || ((sy - 1) / 2 == y && (sx - 1) / 2 < corridors)
    } else if sx % 2 == 0 && sy % 2 == 1 {
        sx >= 2 && ((sy - 1) / 2 < y || ((sy - 1) / 2 == y && sx / 2 < wests))
    } else if sx % 2 == 1 && sy % 2 == 0 {
        sy >= 2 && (sy / 2 < y || (sy / 2 == y && (sx - 1) / 2 < norths))
    } else {
        false
    }
}

/// Every open square is one the sweep has opened.
#[verifier::opaque]
spec fn swept_open(cells: Seq<Cell>, w: int, h: int, y: int, corridors: int, wests: int, norths: int) -> bool {
    forall|s: (usize, usize)| #[trigger] open_in(cells, w, h, s) ==> swept(s, y, corridors, wests, norths)
}

/// Painting a square the sweep had not opened yet, and now has, opens one
/// more square.
proof fn lemma_sweep_paint(
    cells: Seq<Cell>,
    w: int,
    h: int,
    y: int,
    corridors: int,
    wests: int,
    norths: int,
    corridors2: int,
    wests2: int,
    norths2: int,
    step: Step,
)
    requires
        swept_open(cells, w, h, y, corridors, wests, norths),
        corridors <= corridors2,
        wests <= wests2,
        norths <= norths2,
        !swept((step.x, step.y), y, corridors, wests, norths),
        swept((step.x, step.y), y, corridors2, wests2, norths2),
        cells.len() == w * h,
        step.x < w,
        step.y < h,
        step.cell != Cell::Wall,
    ensures
        swept_open(crate::maze::grid::after_step(cells, w, step), w, h, y, corridors2, wests2, norths2),
        walkable_count(crate::maze::grid::after_step(cells, w, step)) == walkable_count(cells) + 1,
        crate::maze::grid::after_step(cells, w, step).len() == cells.len(),
{
    reveal(swept_open);
    if open_in(cells, w, h, (step.x, step.y)) {
        assert(swept((step.x, step.y), y, corridors, wests, norths));
    }
    lemma_paint_count(cells, w, h, step);
    let after = crate::maze::grid::after_step(cells, w, step);
    assert forall|s: (usize, usize)| #[trigger] open_in(after, w, h, s) implies swept(s, y, corridors2, wests2, norths2) by {
        if s != (step.x, step.y) {
            assert(open_in(cells, w, h, s));
            assert(swept(s, y, corridors, wests, norths));
        }
    }
}

/// What the sweep has opened only grows as it goes on.
proof fn lemma_sweep_widen(
    cells: Seq<Cell>,
    w: int,
    h: int,
    y: int,
    corridors: int,
    wests: int,
    norths: int,
    y2: int,
    corridors2: int,
    wests2: int,
    norths2: int,
)
    requires
        swept_open(cells, w, h, y, corridors, wests, norths),
        y < y2 || (y == y2 && corridors <= corridors2 && wests <= wests2 && norths <= norths2),
    ensures
        swept_open(cells, w, h, y2, corridors2, wests2, norths2),
{
    reveal(swept_open);
    assert forall|s: (usize, usize)| #[trigger] open_in(cells, w, h, s) implies swept(s, y2, corridors2, wests2, norths2) by {
        assert(swept(s, y, corridors, wests, norths));
    }
}

/// What the sweep keeps counted at corridor `x` of row `y`, with the
/// current run of corridors `start` to `x - 1`: the open squares are the
/// swept ones, two per corridor swept so far, less one for the first row's
/// missing link, and the run is those corridors in order.
#[verifier::opaque]
spec fn sweep_counted(cells: Seq<Cell>, w: int, h: int, y: int, x: int, start: int, width: int, run: Seq<usize>) -> bool {
    &&& swept_open(cells, w, h, y, x, x + 1, start)
    &&& walkable_count(cells) == 2 * (y * width + x) - (if y > 0 || x == width { 1int } else { 0int })
    &&& 0 <= start <= x
    &&& run.len() == x - start
    &&& forall|k: int| 0 <= k < run.len() ==> #[trigger] run[k] == start + k
}

/// The same once corridor `x` is floored and joined to the run, before its
/// link is made.
#[verifier::opaque]
spec fn sweep_floored(cells: Seq<Cell>, w: int, h: int, y: int, x: int, start: int, width: int, run: Seq<usize>) -> bool {
    &&& swept_open(cells, w, h, y, x + 1, x + 1, start)
    &&& walkable_count(cells) == 2 * (y * width + x) + 1 - (if y > 0 { 1int } else { 0int })
    &&& 0 <= start <= x
    &&& run.len() == x + 1 - start
    &&& forall|k: int| 0 <= k < run.len() ==> #[trigger] run[k] == start + k
}

/// At the start of row `y`: the swept squares are open, two per corridor of
/// the rows above, less one.
#[verifier::opaque]
spec fn row_counted(cells: Seq<Cell>, w: int, h: int, y: int, width: int) -> bool {
    &&& swept_open(cells, w, h, y, 0, 1, 0)
    &&& walkable_count(cells) == 2 * (y * width) - (if y > 0 { 1int } else { 0int })
}

proof fn lemma_count_begin(cells: Seq<Cell>, w: int, h: int, y: int, width: int)
    requires
        row_counted(cells, w, h, y, width),
        width >= 1,
    ensures
        sweep_counted(cells, w, h, y, 0, 0, width, Seq::empty()),
{
    reveal(row_counted);
    reveal(sweep_counted);
}

proof fn lemma_count_floor(cells: Seq<Cell>, w: int, h: int, y: int, x: int, start: int, width: int, run: Seq<usize>, step: Step)
    requires
        sweep_counted(cells, w, h, y, x, start, width, run),
        0 <= x < width,
        0 <= y,
        step.x == 2 * x + 1,
        step.y == 2 * y + 1,
        step.x < w,
        step.y < h,
        step.cell != Cell::Wall,
        cells.len() == w * h,
    ensures
        sweep_floored(crate::maze::grid::after_step(cells, w, step), w, h, y, x, start, width, run.push(x as usize)),
        crate::maze::grid::after_step(cells, w, step).len() == cells.len(),
{
    reveal(sweep_counted);
    reveal(sweep_floored);
    lemma_sweep_paint(cells, w, h, y, x, x + 1, start, x + 1, x + 1, start, step);
    let r2 = run.push(x as usize);
    assert forall|k: int| 0 <= k < r2.len() implies #[trigger] r2[k] == start + k by {
        if k < run.len() {
            assert(r2[k] == run[k]);
        }
    }
}

proof fn lemma_count_east(cells: Seq<Cell>, w: int, h: int, y: int, x: int, start: int, width: int, run: Seq<usize>, link: Step)
    requires
        sweep_floored(cells, w, h, y, x, start, width, run),
        0 <= y,
        x + 1 < width,
        link.x == 2 * x + 2,
        link.y == 2 * y + 1,
        link.x < w,
        link.y < h,
        link.cell != Cell::Wall,
        cells.len() == w * h,
    ensures
        sweep_counted(crate::maze::grid::after_step(cells, w, link), w, h, y, x + 1, start, width, run),
        crate::maze::grid::after_step(cells, w, link).len() == cells.len(),
{
    reveal(sweep_counted);
    reveal(sweep_floored);
    lemma_sweep_paint(cells, w, h, y, x + 1, x + 1, start, x + 1, x + 2, start, link);
}

proof fn lemma_count_north(
    cells: Seq<Cell>,
    w: int,
    h: int,
    y: int,
    x: int,
    start: int,
    width: int,
    run: Seq<usize>,
    rx: usize,
    link: Step,
)
    requires
        sweep_floored(cells, w, h, y, x, start, width, run),
        1 <= y,
        x < width,
        run.contains(rx),
        link.x == 2 * rx + 1,
        link.y == 2 * y,
        link.x < w,
        link.y < h,
        link.cell != Cell::Wall,
        cells.len() == w * h,
    ensures
        sweep_counted(crate::maze::grid::after_step(cells, w, link), w, h, y, x + 1, x + 1, width, Seq::empty()),
        crate::maze::grid::after_step(cells, w, link).len() == cells.len(),
{
    reveal(sweep_counted);
    reveal(sweep_floored);
    let m = choose|m: int| 0 <= m < run.len() && run[m] == rx;
    assert(run[m] == start + m);
    lemma_sweep_paint(cells, w, h, y, x + 1, x + 1, start, x + 1, x + 1, x + 1, link);
    lemma_sweep_widen(
        crate::maze::grid::after_step(cells, w, link),
        w,
        h,
        y,
        x + 1,
        x + 1,
        x + 1,
        y,
        x + 1,
        x + 2,
        x + 1,
    );
}

proof fn lemma_count_top_end(cells: Seq<Cell>, w: int, h: int, y: int, x: int, start: int, width: int, run: Seq<usize>)
    requires
        sweep_floored(cells, w, h, y, x, start, width, run),
        y == 0,
        x + 1 == width,
    ensures
        sweep_counted(cells, w, h, y, x + 1, x + 1, width, Seq::empty()),
{
    reveal(sweep_counted);
    reveal(sweep_floored);
    lemma_sweep_widen(cells, w, h, y, x + 1, x + 1, start, y, x + 1, x + 2, x + 1);
}

proof fn lemma_count_row_end(cells: Seq<Cell>, w: int, h: int, y: int, start: int, width: int, run: Seq<usize>)
    requires
        sweep_counted(cells, w, h, y, width, start, width, run),
        0 <= y,
    ensures
        row_counted(cells, w, h, y + 1, width),
{
    reveal(sweep_counted);
    reveal(row_counted);
    lemma_sweep_widen(cells, w, h, y, width, width + 1, start, y + 1, 0, 1, 0);
    assert(y * width + width == (y + 1) * width) by (nonlinear_arith);
}

/// Every open square is joined from `s`, or is part of the current run and
/// joins `tail`.
spec fn run_joined(cells: Seq<Cell>, w: int, h: int, s: (usize, usize), in_run: bool, tail: (usize, usize)) -> bool {
    forall|p: (usize, usize)|
        #[trigger] open_in(cells, w, h, p) ==> joins(cells, w, h, s, p) || (in_run && joins(cells, w, h, p, tail))
}

/// Every open square above row `bound` is joined from `s`.
spec fn below_joined(cells: Seq<Cell>, w: int, h: int, s: (usize, usize), bound: int) -> bool {
    forall|p: (usize, usize)| #[trigger] open_in(cells, w, h, p) && p.1 < bound ==> joins(cells, w, h, s, p)
}

/// Flooring the next corridor of a row: it joins the run, and everything
/// the run joined now reaches it.
proof fn lemma_floor_joins(
    cells0: Seq<Cell>,
    cells1: Seq<Cell>,
    w: int,
    h: int,
    s: (usize, usize),
    here: (usize, usize),
    tail: (usize, usize),
    in_run: bool,
    bound: int,
    members: Seq<(usize, usize)>,
)
    requires
        opened_only(cells0, cells1, w, h, here),
        here.1 >= bound,
        run_joined(cells0, w, h, s, in_run, tail),
        below_joined(cells0, w, h, s, bound),
        in_run ==> open_in(cells0, w, h, tail) && adjacent(tail, here),
        in_run ==> forall|j: int| 0 <= j < members.len() ==> joins(cells0, w, h, #[trigger] members[j], tail),
    ensures
        run_joined(cells1, w, h, s, true, here),
        below_joined(cells1, w, h, s, bound),
        in_run ==> forall|j: int| 0 <= j < members.len() ==> joins(cells1, w, h, #[trigger] members[j], here),
        joins(cells1, w, h, here, here),
{
    lemma_joins_self(cells1, w, h, here);
    assert forall|p: (usize, usize)| #[trigger] open_in(cells1, w, h, p) implies joins(cells1, w, h, s, p) || joins(
        cells1,
        w,
        h,
        p,
        here,
    ) by {
        if p != here {
            assert(open_in(cells0, w, h, p));
            if joins(cells0, w, h, s, p) {
                lemma_joins_grows(cells0, cells1, w, h, s, p);
            } else {
                lemma_joins_grows(cells0, cells1, w, h, p, tail);
                lemma_joins_step(cells1, w, h, p, tail, here);
            }
        }
    }
    assert forall|p: (usize, usize)| #[trigger] open_in(cells1, w, h, p) && p.1 < bound implies joins(
        cells1,
        w,
        h,
        s,
        p,
    ) by {
        assert(p != here);
        assert(open_in(cells0, w, h, p));
        lemma_joins_grows(cells0, cells1, w, h, s, p);
    }
    if in_run {
        assert forall|j: int| 0 <= j < members.len() implies joins(cells1, w, h, #[trigger] members[j], here) by {
            lemma_joins_grows(cells0, cells1, w, h, members[j], tail);
            lemma_joins_step(cells1, w, h, members[j], tail, here);
        }
    }
}

/// Linking a member of the run north to a square joined from `s` joins
/// every open square.
proof fn lemma_link_north(
    cells1: Seq<Cell>,
    cells2: Seq<Cell>,
    w: int,
    h: int,
    s: (usize, usize),
    here: (usize, usize),
    north: (usize, usize),
    gap: (usize, usize),
    member: (usize, usize),
    bound: int,
)
    requires
        opened_only(cells1, cells2, w, h, gap),
        run_joined(cells1, w, h, s, true, here),
        below_joined(cells1, w, h, s, bound),
        open_in(cells1, w, h, north),
        north.1 < bound,
        adjacent(north, gap),
        adjacent(gap, member),
        open_in(cells1, w, h, member),
        joins(cells1, w, h, member, here),
    ensures
        all_joined(cells2, w, h, s),
{
    lemma_joins_grows(cells1, cells2, w, h, s, north);
    lemma_joins_step(cells2, w, h, s, north, gap);
    assert(open_in(cells2, w, h, member)) by {
        lemma_square_index(w, h, member.0 as int, member.1 as int);
    }
    lemma_joins_step(cells2, w, h, s, gap, member);
    lemma_joins_grows(cells1, cells2, w, h, member, here);
    lemma_joins_chain(cells2, w, h, s, member, here);
    assert forall|p: (usize, usize)| #[trigger] open_in(cells2, w, h, p) implies joins(cells2, w, h, s, p) by {
        if p != gap {
            assert(open_in(cells1, w, h, p));
            if joins(cells1, w, h, s, p) {
                lemma_joins_grows(cells1, cells2, w, h, s, p);
            } else {
                lemma_joins_grows(cells1, cells2, w, h, p, here);
                lemma_joins_back(cells2, w, h, p, here);
                lemma_joins_chain(cells2, w, h, s, here, p);
            }
        }
    }
}

/// A run reached from `s` joins every open square.
proof fn lemma_close_joined(cells: Seq<Cell>, w: int, h: int, s: (usize, usize), here: (usize, usize))
    requires
        run_joined(cells, w, h, s, true, here),
        joins(cells, w, h, s, here),
    ensures
        all_joined(cells, w, h, s),
{
    assert forall|p: (usize, usize)| #[trigger] open_in(cells, w, h, p) implies joins(cells, w, h, s, p) by {
        if !joins(cells, w, h, s, p) {
            lemma_joins_back(cells, w, h, p, here);
            lemma_joins_chain(cells, w, h, s, here, p);
        }
    }
}

/// Linking the run east: everything that reached the run's last corridor
/// reaches the opened wall.
proof fn lemma_link_east(
    cells1: Seq<Cell>,
    cells2: Seq<Cell>,
    w: int,
    h: int,
    s: (usize, usize),
    here: (usize, usize),
    gap: (usize, usize),
    bound: int,
    members: Seq<(usize, usize)>,
)
    requires
        opened_only(cells1, cells2, w, h, gap),
        gap.1 >= bound,
        run_joined(cells1, w, h, s, true, here),
        below_joined(cells1, w, h, s, bound),
        adjacent(here, gap),
        forall|j: int| 0 <= j < members.len() ==> joins(cells1, w, h, #[trigger] members[j], here),
    ensures
        run_joined(cells2, w, h, s, true, gap),
        below_joined(cells2, w, h, s, bound),
        forall|j: int| 0 <= j < members.len() ==> joins(cells2, w, h, #[trigger] members[j], gap),
{
    lemma_joins_self(cells2, w, h, gap);
    assert forall|p: (usize, usize)| #[trigger] open_in(cells2, w, h, p) implies joins(cells2, w, h, s, p) || joins(
        cells2,
        w,
        h,
        p,
        gap,
    ) by {
        if p != gap {
            assert(open_in(cells1, w, h, p));
            if joins(cells1, w, h, s, p) {
                lemma_joins_grows(cells1, cells2, w, h, s, p);
            } else {
                lemma_joins_grows(cells1, cells2, w, h, p, here);
                lemma_joins_step(cells2, w, h, p, here, gap);
            }
        }
    }
    assert forall|p: (usize, usize)| #[trigger] open_in(cells2, w, h, p) && p.1 < bound implies joins(
        cells2,
        w,
        h,
        s,
        p,
    ) by {
        assert(p != gap);
        assert(open_in(cells1, w, h, p));
        lemma_joins_grows(cells1, cells2, w, h, s, p);
    }
    assert forall|j: int| 0 <= j < members.len() implies joins(cells2, w, h, #[trigger] members[j], gap) by {
        lemma_joins_grows(cells1, cells2, w, h, members[j], here);
        lemma_joins_step(cells2, w, h, members[j], here, gap);
    }
}

/// Where a row stands: everything above it joined from `s`, and the open
/// squares either joined from `s` or, while a run is open, reaching the
/// wall west of corridor `x`, as every corridor of the run does.
#[verifier::opaque]
spec fn row_ok(cells: Seq<Cell>, w: int, h: int, s: (usize, usize), x: int, y: int, members: Seq<(usize, usize)>) -> bool {
    &&& below_joined(cells, w, h, s, 2 * y)
    &&& run_joined(cells, w, h, s, members.len() > 0, west_wall(x, y))
    &&& members.len() > 0 ==> open_in(cells, w, h, west_wall(x, y))
    &&& forall|j: int| 0 <= j < members.len() ==> joins(cells, w, h, #[trigger] members[j], west_wall(x, y))
}

/// Just after flooring the corridor at `here`, which ends the run.
#[verifier::opaque]
spec fn floored_ok(cells: Seq<Cell>, w: int, h: int, s: (usize, usize), y: int, here: (usize, usize), members: Seq<(usize, usize)>) -> bool {
    &&& below_joined(cells, w, h, s, 2 * y)
    &&& run_joined(cells, w, h, s, true, here)
    &&& forall|j: int| 0 <= j < members.len() ==> joins(cells, w, h, #[trigger] members[j], here)
}

/// The corridors before (x, y), row by row, are open.
#[verifier::opaque]
spec fn opened_upto(cells: Seq<Cell>, w: int, h: int, lattice: Lattice, x: int, y: int) -> bool {
    forall|x2: int, y2: int|
        #[trigger] lattice.is_open(x2, y2) && (y2 < y || (y2 == y && x2 < x)) ==> open_in(cells, w, h, sq(x2, y2))
}

/// Opening squares keeps the corridors open.
proof fn lemma_opened_upto_grows(
    cells0: Seq<Cell>,
    cells1: Seq<Cell>,
    w: int,
    h: int,
    lattice: Lattice,
    x: int,
    y: int,
)
    requires
        opened_upto(cells0, w, h, lattice, x, y),
        opens_more(cells0, cells1),
        cells0.len() == w * h,
    ensures
        opened_upto(cells1, w, h, lattice, x, y),
{
    reveal(opened_upto);
    assert forall|x2: int, y2: int|
        #[trigger] lattice.is_open(x2, y2) && (y2 < y || (y2 == y && x2 < x)) implies open_in(cells1, w, h, sq(x2, y2)) by {
        assert(open_in(cells0, w, h, sq(x2, y2)));
        lemma_square_index(w, h, sq(x2, y2).0 as int, sq(x2, y2).1 as int);
    }
}

/// Flooring corridor (x, y) extends the open corridors past it.
proof fn lemma_opened_upto_next(cells: Seq<Cell>, w: int, h: int, lattice: Lattice, x: int, y: int)
    requires
        opened_upto(cells, w, h, lattice, x, y),
        open_in(cells, w, h, sq(x, y)),
    ensures
        opened_upto(cells, w, h, lattice, x + 1, y),
{
    reveal(opened_upto);
}

/// A blocked corridor needs no opening.
proof fn lemma_opened_upto_skip(cells: Seq<Cell>, w: int, h: int, lattice: Lattice, x: int, y: int)
    requires
        opened_upto(cells, w, h, lattice, x, y),
        !lattice.is_open(x, y),
    ensures
        opened_upto(cells, w, h, lattice, x + 1, y),
{
    reveal(opened_upto);
}

/// A finished row hands over to the next.
proof fn lemma_opened_upto_row(cells: Seq<Cell>, w: int, h: int, lattice: Lattice, y: int)
    requires
        opened_upto(cells, w, h, lattice, lattice.spec_width(), y),
    ensures
        opened_upto(cells, w, h, lattice, 0, y + 1),
{
    reveal(opened_upto);
}

/// What the open corridors give: the one asked for is open.
proof fn lemma_opened_upto_use(cells: Seq<Cell>, w: int, h: int, lattice: Lattice, x: int, y: int, x2: int, y2: int)
    requires
        opened_upto(cells, w, h, lattice, x, y),
        lattice.is_open(x2, y2),
        y2 < y || (y2 == y && x2 < x),
    ensures
        open_in(cells, w, h, sq(x2, y2)),
{
    reveal(opened_upto);
}

/// Row transitions: flooring the next corridor.
proof fn lemma_row_floor(
    cells0: Seq<Cell>,
    cells1: Seq<Cell>,
    w: int,
    h: int,
    s: (usize, usize),
    x: int,
    y: int,
    members: Seq<(usize, usize)>,
)
    requires
        0 <= x,
        0 <= y,
        row_ok(cells0, w, h, s, x, y, members),
        opened_only(cells0, cells1, w, h, sq(x, y)),
        sq(x, y).1 == 2 * y + 1,
        sq(x, y).0 == 2 * x + 1,
    ensures
        floored_ok(cells1, w, h, s, y, sq(x, y), members.push(sq(x, y))),
{
    reveal(row_ok);
    reveal(floored_ok);
    let here = sq(x, y);
    lemma_floor_joins(cells0, cells1, w, h, s, here, west_wall(x, y), members.len() > 0, 2 * y, members);
    let all = members.push(here);
    assert forall|j: int| 0 <= j < all.len() implies joins(cells1, w, h, #[trigger] all[j], here) by {
        if j < members.len() {
            assert(all[j] == members[j]);
        }
    }
}

/// Row transitions: closing the run by linking a member north.
proof fn lemma_row_north(
    cells1: Seq<Cell>,
    cells2: Seq<Cell>,
    w: int,
    h: int,
    s: (usize, usize),
    y: int,
    here: (usize, usize),
    members: Seq<(usize, usize)>,
    m: int,
    north: (usize, usize),
    gap: (usize, usize),
    x_next: int,
)
    requires
        floored_ok(cells1, w, h, s, y, here, members),
        opened_only(cells1, cells2, w, h, gap),
        0 <= m < members.len(),
        open_in(cells1, w, h, north),
        north.1 < 2 * y,
        adjacent(north, gap),
        adjacent(gap, members[m]),
        open_in(cells1, w, h, members[m]),
    ensures
        row_ok(cells2, w, h, s, x_next, y, Seq::empty()),
        all_joined(cells2, w, h, s),
{
    reveal(row_ok);
    reveal(floored_ok);
    lemma_link_north(cells1, cells2, w, h, s, here, north, gap, members[m], 2 * y);
}

/// Row transitions: closing the run in the top row, which holds the start.
proof fn lemma_row_top(
    cells1: Seq<Cell>,
    w: int,
    h: int,
    s: (usize, usize),
    y: int,
    here: (usize, usize),
    members: Seq<(usize, usize)>,
    x_next: int,
)
    requires
        floored_ok(cells1, w, h, s, y, here, members),
        members.len() > 0,
        members[0] == s,
    ensures
        row_ok(cells1, w, h, s, x_next, y, Seq::empty()),
        all_joined(cells1, w, h, s),
{
    reveal(row_ok);
    reveal(floored_ok);
    assert(joins(cells1, w, h, members[0], here));
    lemma_close_joined(cells1, w, h, s, here);
}

/// Row transitions: linking the run east.
proof fn lemma_row_east(
    cells1: Seq<Cell>,
    cells2: Seq<Cell>,
    w: int,
    h: int,
    s: (usize, usize),
    x: int,
    y: int,
    here: (usize, usize),
    members: Seq<(usize, usize)>,
)
    requires
        floored_ok(cells1, w, h, s, y, here, members),
        opened_only(cells1, cells2, w, h, west_wall(x + 1, y)),
        west_wall(x + 1, y).1 >= 2 * y,
        adjacent(here, west_wall(x + 1, y)),
        members.len() > 0,
    ensures
        row_ok(cells2, w, h, s, x + 1, y, members),
{
    reveal(row_ok);
    reveal(floored_ok);
    lemma_link_east(cells1, cells2, w, h, s, here, west_wall(x + 1, y), 2 * y, members);
}

/// A row with no run open is fully joined.
proof fn lemma_row_done(cells: Seq<Cell>, w: int, h: int, s: (usize, usize), x: int, y: int)
    requires
        row_ok(cells, w, h, s, x, y, Seq::empty()),
    ensures
        all_joined(cells, w, h, s),
{
    reveal(row_ok);
}

/// A fully joined grid starts the next row.
proof fn lemma_row_start(cells: Seq<Cell>, w: int, h: int, s: (usize, usize), y: int)
    requires
        all_joined(cells, w, h, s),
    ensures
        row_ok(cells, w, h, s, 0, y, Seq::empty()),
{
    reveal(row_ok);
}

/// The open corridors before (x, y), row by row, have their floor step.
#[verifier::opaque]
spec fn floored_upto(lattice: Lattice, steps: Seq<Step>, x: int, y: int) -> bool {
    forall|x2: int, y2: int|
        #[trigger] lattice.is_open(x2, y2) && (y2 < y || (y2 == y && x2 < x)) ==> steps.contains(floor_step(x2, y2))
}

/// Every step lies on the lattice and paints floor.
#[verifier::opaque]
spec fn floor_only(lattice: Lattice, steps: Seq<Step>) -> bool {
    lattice.carves(steps, |c: Cell| c == Cell::Floor)
}

/// Appending a step keeps both.
proof fn lemma_push_step(lattice: Lattice, steps: Seq<Step>, step: Step, x: int, y: int)
    requires
        floored_upto(lattice, steps, x, y),
        floor_only(lattice, steps),
        lattice.owns_square(step.x as int, step.y as int),
        step.cell == Cell::Floor,
    ensures
        floored_upto(lattice, steps.push(step), x, y),
        floor_only(lattice, steps.push(step)),
{
    reveal(floored_upto);
    reveal(floor_only);
    let longer = steps.push(step);
    assert forall|x2: int, y2: int|
        #[trigger] lattice.is_open(x2, y2) && (y2 < y || (y2 == y && x2 < x)) implies longer.contains(floor_step(x2, y2)) by {
        let j = choose|j: int| 0 <= j < steps.len() && steps[j] == floor_step(x2, y2);
        assert(longer[j] == steps[j]);
    }
    assert forall|i: int| 0 <= i < longer.len() implies lattice.owns_square((#[trigger] longer[i]).x as int, longer[i].y as int)
        && longer[i].cell == Cell::Floor by {
        if i < steps.len() {
            assert(longer[i] == steps[i]);
        }
    }
}

/// The floor step of corridor (x, y) moves the mark past it.
proof fn lemma_floored_next(lattice: Lattice, steps: Seq<Step>, x: int, y: int)
    requires
        floored_upto(lattice, steps, x, y),
        steps.len() > 0,
        steps.last() == floor_step(x, y),
    ensures
        floored_upto(lattice, steps, x + 1, y),
{
    reveal(floored_upto);
    assert(steps[steps.len() - 1] == floor_step(x, y));
}

/// A blocked corridor needs no floor.
proof fn lemma_floored_skip(lattice: Lattice, steps: Seq<Step>, x: int, y: int)
    requires
        floored_upto(lattice, steps, x, y),
        !lattice.is_open(x, y),
    ensures
        floored_upto(lattice, steps, x + 1, y),
{
    reveal(floored_upto);
}

/// A finished row hands over to the next.
proof fn lemma_floored_row(lattice: Lattice, steps: Seq<Step>, y: int)
    requires
        floored_upto(lattice, steps, lattice.spec_width(), y),
    ensures
        floored_upto(lattice, steps, 0, y + 1),
{
    reveal(floored_upto);
}

/// Sidewinder: sweep each row west to east, extending a run of linked
/// corridors; at random, close the run and link one of its corridors north.
/// The top row, which has nothing north of it, becomes one long corridor.
#[verifier::rlimit(50)]
#[verifier::spinoff_prover]
pub fn carve(lattice: &Lattice, rng: &mut StdRng) -> (steps: Vec<Step>)
    requires
        lattice.wf(),
    ensures
        lattice.carves(steps@, |c: Cell| c == Cell::Floor),
        lattice.floors_every_corridor(steps@),
        is_open_lattice(*lattice, lattice.spec_width(), lattice.spec_height()) ==> all_joined(
            after_steps(
                all_walls((2 * lattice.spec_width() + 1) * (2 * lattice.spec_height() + 1)),
                2 * lattice.spec_width() + 1,
                steps@,
            ),
            2 * lattice.spec_width() + 1,
            2 * lattice.spec_height() + 1,
            (1, 1),
        ),
        is_open_lattice(*lattice, lattice.spec_width(), lattice.spec_height()) && lattice.spec_width()
            * lattice.spec_height() >= 1 ==> walkable_count(
            after_steps(
                all_walls((2 * lattice.spec_width() + 1) * (2 * lattice.spec_height() + 1)),
                2 * lattice.spec_width() + 1,
                steps@,
            ),
        ) == 2 * (lattice.spec_width() * lattice.spec_height()) - 1,
{
    let ghost w = 2 * lattice.spec_width() + 1;
    let ghost h = 2 * lattice.spec_height() + 1;
    let ghost walls = all_walls(w * h);
    let ghost open = is_open_lattice(*lattice, lattice.spec_width(), lattice.spec_height());
    let ghost s: (usize, usize) = (1, 1);
    let width = lattice.width();
    let height = lattice.height();
    let mut steps: Vec<Step> = Vec::new();
    let ghost mut cells = walls;
    proof {
        lattice.lemma_fits();
        assert(0 <= w * h) by (nonlinear_arith)
            requires
                0 <= w,
                0 <= h,
        ;
        assert(after_steps(walls, w, steps@) == walls);
        reveal(replay);
        assert forall|p: (usize, usize)| #[trigger] open_in(walls, w, h, p) implies joins(walls, w, h, s, p) by {
            lemma_square_index(w, h, p.0 as int, p.1 as int);
        }
        reveal(opened_upto);
        reveal(floored_upto);
        reveal(floor_only);
        lemma_count_blank(walls);
        reveal(swept_open);
        reveal(row_counted);
        assert forall|p: (usize, usize)| #[trigger] open_in(walls, w, h, p) implies swept(p, 0, 0, 1, 0) by {
            lemma_square_index(w, h, p.0 as int, p.1 as int);
        }
    }
    let ghost counted = open && width >= 1;
    let mut y: usize = 0;
    while y < height
        invariant
            lattice.wf(),
            width == lattice.spec_width(),
            height == lattice.spec_height(),
            w == 2 * width + 1,
            h == 2 * height + 1,
            walls == all_walls(w * h),
            walls.len() == w * h,
            open == is_open_lattice(*lattice, lattice.spec_width(), lattice.spec_height()),
            s == (1usize, 1usize),
            y <= height,
            floor_only(*lattice, steps@),
            floored_upto(*lattice, steps@, 0, y as int),
            cells == replay(walls, w, steps@),
                cells.len() == w * h,
            opened_upto(cells, w, h, *lattice, 0, y as int),
            open ==> all_joined(cells, w, h, s),
            counted == (open && width >= 1),
            counted ==> row_counted(cells, w, h, y as int, width as int),
        decreases height - y,
    {
        let mut run: Vec<usize> = Vec::new();
        let ghost mut members: Seq<(usize, usize)> = Seq::empty();
        let ghost mut start: int = 0;
        proof {
            if counted {
                lemma_count_begin(cells, w, h, y as int, width as int);
                assert(run@ =~= Seq::<usize>::empty());
            }
            if open {
                lemma_row_start(cells, w, h, s, y as int);
            }
        }
        let mut x: usize = 0;
        while x < width
            invariant
                lattice.wf(),
                width == lattice.spec_width(),
                height == lattice.spec_height(),
                w == 2 * width + 1,
                h == 2 * height + 1,
                walls == all_walls(w * h),
                walls.len() == w * h,
                open == is_open_lattice(*lattice, lattice.spec_width(), lattice.spec_height()),
                s == (1usize, 1usize),
                y < height,
                x <= width,
                forall|k: int| 0 <= k < run@.len() ==> lattice.is_open(#[trigger] run@[k] as int, y as int) && run@[k] < x,
                members.len() == run@.len(),
                forall|k: int| 0 <= k < run@.len() ==> #[trigger] members[k] == sq(run@[k] as int, y as int),
                floor_only(*lattice, steps@),
                floored_upto(*lattice, steps@, x as int, y as int),
                cells == replay(walls, w, steps@),
                cells.len() == w * h,
                opened_upto(cells, w, h, *lattice, x as int, y as int),
                open ==> row_ok(cells, w, h, s, x as int, y as int, members),
                open && run@.len() > 0 ==> x < width,
                open && y == 0 && 0 < x < width ==> run@.len() > 0 && run@[0] == 0,
                counted == (open && width >= 1),
                counted ==> sweep_counted(cells, w, h, y as int, x as int, start, width as int, run@),
            decreases width - x,
        {
            if lattice.is_blocked(x, y) {
                proof {
                    if open {
                        lemma_square_index(width as int, height as int, x as int, y as int);
                        assert(lattice.is_open(x as int, y as int));
                    }
                    lemma_opened_upto_skip(cells, w, h, *lattice, x as int, y as int);
                    lemma_floored_skip(*lattice, steps@, x as int, y as int);
                }
                x = x + 1;
                continue;
            }
            proof {
                lattice.lemma_corridor_owned(x as int, y as int);
            }
            let ghost before = steps@;
            let ghost cells0 = cells;
            let ghost members0 = members;
            let ghost here = sq(x as int, y as int);
            let step = floor(x, y);
            steps.push(step);
            let ghost cells1 = crate::maze::grid::after_step(cells0, w, step);
            let ghost run0 = run@;
            proof {
                if counted {
                    lemma_count_floor(cells0, w, h, y as int, x as int, start, width as int, run0, step);
                }
                lemma_replay_push(walls, w, before, step);
                cells = cells1;
                assert(step.x == here.0 && step.y == here.1);
                lemma_opened_only(cells0, w, h, step);
                lemma_opened_upto_grows(cells0, cells1, w, h, *lattice, x as int, y as int);
                lemma_opened_upto_next(cells1, w, h, *lattice, x as int, y as int);
                lemma_push_step(*lattice, before, step, x as int, y as int);
                lemma_floored_next(*lattice, steps@, x as int, y as int);
                if open {
                    lemma_row_floor(cells0, cells1, w, h, s, x as int, y as int, members0);
                }
                members = members.push(here);
            }
            run.push(x);

            let can_go_east = x + 1 < width && !lattice.is_blocked(x + 1, y);
            let mut northable: Vec<usize> = Vec::new();
            let mut k: usize = 0;
            while k < run.len()
                invariant
                    lattice.wf(),
                    width == lattice.spec_width(),
                    height == lattice.spec_height(),
                    y < height,
                    k <= run@.len(),
                    forall|j: int| 0 <= j < run@.len() ==> lattice.is_open(#[trigger] run@[j] as int, y as int),
                    forall|j: int|
                        0 <= j < northable@.len() ==> lattice.is_open(#[trigger] northable@[j] as int, y - 1)
                            && lattice.is_open(northable@[j] as int, y as int) && run@.contains(northable@[j]),
                    forall|j: int|
                        0 <= j < k && y > 0 && lattice.is_open(#[trigger] run@[j] as int, y - 1) ==> northable@.contains(
                            run@[j],
                        ),
                decreases run@.len() - k,
            {
                let rx = run[k];
                proof {
                    assert(lattice.is_open(run@[k as int] as int, y as int));
                }
                let ghost before_north = northable@;
                if y > 0 && !lattice.is_blocked(rx, y - 1) {
                    northable.push(rx);
                    proof {
                        assert(run@.contains(run@[k as int]));
                        assert forall|j: int| 0 <= j < northable@.len() implies lattice.is_open(
                            #[trigger] northable@[j] as int,
                            y - 1,
                        ) && lattice.is_open(northable@[j] as int, y as int) && run@.contains(northable@[j]) by {
                            if j < before_north.len() {
                                assert(northable@[j] == before_north[j]);
                            } else {
                                assert(northable@[j] == rx);
                                assert(lattice.is_open(rx as int, (y - 1) as usize as int));
                            }
                        }
                        assert(northable@[northable@.len() - 1] == rx);
                    }
                }
                proof {
                    assert forall|j: int|
                        0 <= j < k + 1 && y > 0 && lattice.is_open(#[trigger] run@[j] as int, y - 1)
                            implies northable@.contains(run@[j]) by {
                        if j < k {
                            assert(before_north.contains(run@[j]));
                            let i = choose|i: int| 0 <= i < before_north.len() && before_north[i] == run@[j];
                            assert(northable@[i] == before_north[i]);
                        } else {
                            lemma_square_index(width as int, height as int, rx as int, y - 1);
                        }
                    }
                }
                k = k + 1;
            }
            proof {
                if open && y > 0 {
                    lemma_square_index(width as int, height as int, x as int, y - 1);
                    assert(lattice.is_open(x as int, y - 1));
                    assert(run@[run@.len() - 1] == x);
                    assert(northable@.contains(run@[run@.len() - 1]));
                }
                if open && x + 1 < width {
                    lemma_square_index(width as int, height as int, x + 1, y as int);
                    assert(lattice.is_open(x + 1, y as int));
                }
            }
            let close_run = !can_go_east || (northable.len() > 0 && random_ratio(rng, 1, 2));

            if close_run {
                if let Some(rx) = pick(northable.as_slice(), rng) {
                    let ghost middle = steps@;
                    proof {
                        let j = choose|j: int| 0 <= j < northable@.len() && northable@[j] == rx;
                        assert(lattice.is_open(northable@[j] as int, y - 1));
                        lattice.lemma_between_owned((rx, y), (rx, (y - 1) as usize));
                    }
                    let link = wall_between(rx, y, rx, y - 1);
                    steps.push(link);
                    proof {
                        lemma_replay_push(walls, w, middle, link);
                        lemma_push_step(*lattice, middle, link, x + 1, y as int);
                        lemma_opened_only(cells1, w, h, link);
                        let cells2 = crate::maze::grid::after_step(cells1, w, link);
                        if counted {
                            let j = choose|j: int| 0 <= j < northable@.len() && northable@[j] == rx;
                            assert(run@ == run0.push(x));
                            lemma_count_north(cells1, w, h, y as int, x as int, start, width as int, run@, rx, link);
                        }
                        cells = cells2;
                        lemma_opened_upto_grows(cells1, cells2, w, h, *lattice, x + 1, y as int);
                        if open {
                            let j = choose|j: int| 0 <= j < northable@.len() && northable@[j] == rx;
                            assert(run@.contains(rx));
                            let m = choose|m: int| 0 <= m < run@.len() && run@[m] == rx;
                            assert(lattice.is_open(rx as int, y - 1));
                            lemma_opened_upto_use(cells1, w, h, *lattice, x + 1, y as int, rx as int, y - 1);
                            lemma_opened_upto_use(cells1, w, h, *lattice, x + 1, y as int, rx as int, y as int);
                            assert(members[m] == sq(rx as int, y as int));
                            lemma_row_north(
                                cells1,
                                cells2,
                                w,
                                h,
                                s,
                                y as int,
                                here,
                                members,
                                m,
                                sq(rx as int, y - 1),
                                (link.x, link.y),
                                x + 1,
                            );
                        }
                    }
                } else {
                    proof {
                        if open {
                            assert(y == 0);
                            assert(members[0] == sq(run@[0] as int, 0));
                            lemma_row_top(cells1, w, h, s, y as int, here, members, x + 1);
                        }
                        if counted {
                            assert(x + 1 == width);
                            assert(run@ == run0.push(x));
                            lemma_count_top_end(cells1, w, h, y as int, x as int, start, width as int, run@);
                        }
                    }
                }
                run.clear();
                proof {
                    members = Seq::empty();
                    start = x + 1;
                    assert(run@ =~= Seq::<usize>::empty());
                }
            } else {
                proof {
                    lattice.lemma_between_owned((x, y), ((x + 1) as usize, y));
                }
                let ghost middle = steps@;
                let link = wall_between(x, y, x + 1, y);
                steps.push(link);
                proof {
                    lemma_replay_push(walls, w, middle, link);
                    lemma_push_step(*lattice, middle, link, x + 1, y as int);
                    lemma_opened_only(cells1, w, h, link);
                    let cells2 = crate::maze::grid::after_step(cells1, w, link);
                    if counted {
                        assert(run@ == run0.push(x));
                        lemma_count_east(cells1, w, h, y as int, x as int, start, width as int, run@, link);
                    }
                    cells = cells2;
                    assert((link.x, link.y) == west_wall(x + 1, y as int));
                    lemma_opened_upto_grows(cells1, cells2, w, h, *lattice, x + 1, y as int);
                    if open {
                        lemma_row_east(cells1, cells2, w, h, s, x as int, y as int, here, members);
                    }
                }
            }
            x = x + 1;
        }
        proof {
            if open {
                assert(run@.len() == 0);
                assert(members =~= Seq::<(usize, usize)>::empty());
                lemma_row_done(cells, w, h, s, x as int, y as int);
            }
            if counted {
                lemma_count_row_end(cells, w, h, y as int, start, width as int, run@);
            }
            lemma_opened_upto_row(cells, w, h, *lattice, y as int);
            lemma_floored_row(*lattice, steps@, y as int);
        }
        y = y + 1;
    }
    proof {
        reveal(replay);
        reveal(floor_only);
        reveal(floored_upto);
        assert forall|x2: int, y2: int| #[trigger] lattice.is_open(x2, y2) implies exists|j: int|
            0 <= j < steps@.len() && #[trigger] steps@[j] == floor_step(x2, y2) by {
            assert(steps@.contains(floor_step(x2, y2)));
        }
        if open && width * height >= 1 {
            assert(width >= 1 && height >= 1) by (nonlinear_arith)
                requires
                    width * height >= 1,
            ;
            assert(height * width == width * height) by (nonlinear_arith);
            reveal(row_counted);
        }
    }
    steps
}

} // verus!
