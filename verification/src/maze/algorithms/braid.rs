use rand::rngs::StdRng;
use vstd::prelude::*;

use crate::maze::grid::{Cell, Grid, Step, after_steps, lemma_square_index, square_index};
use crate::random::{pick, random_ratio};

verus! {

/// A corridor square: both coordinates odd, inside the grid.
pub open spec fn is_corridor_square(width: int, height: int, x: int, y: int) -> bool {
    &&& 0 <= x < width
    &&& 0 <= y < height
    &&& x % 2 == 1
    &&& y % 2 == 1
}

/// A wall square with a corridor square on each side of it: one coordinate
/// odd, the other even, and not on the outer border.
pub open spec fn is_inner_wall(width: int, height: int, x: int, y: int) -> bool {
    ||| x % 2 == 0 && y % 2 == 1 && 0 < x < width - 1 && 0 <= y < height
    ||| x % 2 == 1 && y % 2 == 0 && 0 < y < height - 1 && 0 <= x < width
}

/// The wall squares around square (x, y) that have another corridor behind
/// them, in the order left, up, right, down.
pub open spec fn sides(width: int, height: int, x: int, y: int) -> Seq<(usize, usize)> {
    let left: Seq<(usize, usize)> = if x >= 2 {
        seq![((x - 1) as usize, y as usize)]
    } else {
        Seq::empty()
    };
    let up: Seq<(usize, usize)> = if y >= 2 {
        seq![(x as usize, (y - 1) as usize)]
    } else {
        Seq::empty()
    };
    let right: Seq<(usize, usize)> = if x + 2 < width {
        seq![((x + 1) as usize, y as usize)]
    } else {
        Seq::empty()
    };
    let down: Seq<(usize, usize)> = if y + 2 < height {
        seq![(x as usize, (y + 1) as usize)]
    } else {
        Seq::empty()
    };
    left + up + right + down
}

/// The square holds anything but a wall.
pub open spec fn is_open(cells: Seq<Cell>, width: int, p: (usize, usize)) -> bool {
    cells[square_index(width, p.0 as int, p.1 as int)] != Cell::Wall
}

/// How many of the squares are open.
pub open spec fn open_count(cells: Seq<Cell>, width: int, squares: Seq<(usize, usize)>) -> nat
    decreases squares.len(),
{
    if squares.len() == 0 {
        0
    } else {
        open_count(cells, width, squares.drop_last()) + if is_open(cells, width, squares.last()) {
            1nat
        } else {
            0nat
        }
    }
}

/// Every open square of `before` is open in `after`.
pub open spec fn grows(before: Seq<Cell>, after: Seq<Cell>) -> bool {
    &&& before.len() == after.len()
    &&& forall|i: int| 0 <= i < before.len() && before[i] != Cell::Wall ==> #[trigger] after[i] != Cell::Wall
}

/// Step `i` knocks a wall between two corridors through: it paints floor on
/// an inner wall square that still held a wall when its turn came.
pub open spec fn knocks_through(cells: Seq<Cell>, width: int, height: int, steps: Seq<Step>, i: int) -> bool {
    &&& steps[i].cell == Cell::Floor
    &&& is_inner_wall(width, height, steps[i].x as int, steps[i].y as int)
    &&& after_steps(cells, width, steps.take(i))[square_index(width, steps[i].x as int, steps[i].y as int)]
        == Cell::Wall
}

/// Step `i` opens a side of corridor square `c`, which is a dead end when
/// the step's turn comes: walkable, with exactly one open side.
pub open spec fn opens_dead_end(cells: Seq<Cell>, width: int, height: int, steps: Seq<Step>, i: int, c: (usize, usize)) -> bool {
    let before = after_steps(cells, width, steps.take(i));
    &&& is_corridor_square(width, height, c.0 as int, c.1 as int)
    &&& sides(width, height, c.0 as int, c.1 as int).contains((steps[i].x, steps[i].y))
    &&& is_open(before, width, c)
    &&& open_count(before, width, sides(width, height, c.0 as int, c.1 as int)) == 1
}

/// Step `i` opens a side of dead end `dead[i]`, and the dead ends come in
/// row-major order, each once.
pub open spec fn opens_dead_ends(
    cells: Seq<Cell>,
    width: int,
    height: int,
    steps: Seq<Step>,
    dead: Seq<(usize, usize)>,
) -> bool {
    &&& dead.len() == steps.len()
    &&& forall|i: int| 0 <= i < steps.len() ==> #[trigger] opens_dead_end(cells, width, height, steps, i, dead[i])
    &&& forall|i: int, j: int| 0 <= i < j < dead.len() ==> earlier_in_rows(#[trigger] dead[i], #[trigger] dead[j])
}

/// `a` comes before `b` in row-major order.
pub open spec fn earlier_in_rows(a: (usize, usize), b: (usize, usize)) -> bool {
    a.1 < b.1 || (a.1 == b.1 && a.0 < b.0)
}

/// Corridor square (x, y), open in `before` with at least one open side, is
/// no dead end in `after`: it has two open sides, or every side it has is
/// open.
pub open spec fn no_dead_end(before: Seq<Cell>, after: Seq<Cell>, width: int, height: int, x: int, y: int) -> bool {
    is_corridor_square(width, height, x, y) && is_open(before, width, (x as usize, y as usize)) && open_count(
        before,
        width,
        sides(width, height, x, y),
    ) >= 1 ==> open_count(after, width, sides(width, height, x, y)) >= 2 || open_count(
        after,
        width,
        sides(width, height, x, y),
    ) == sides(width, height, x, y).len()
}

/// The squares lie inside a width x height grid.
pub open spec fn all_inside(squares: Seq<(usize, usize)>, width: int, height: int) -> bool {
    forall|k: int| 0 <= k < squares.len() ==> (#[trigger] squares[k]).0 < width && squares[k].1 < height
}

proof fn lemma_sides_inside(width: int, height: int, x: int, y: int)
    requires
        0 <= x < width <= usize::MAX,
        0 <= y < height <= usize::MAX,
    ensures
        all_inside(sides(width, height, x, y), width, height),
        sides(width, height, x, y).len() <= 4,
        forall|k: int|
            0 <= k < sides(width, height, x, y).len() && x % 2 == 1 && y % 2 == 1 ==> is_inner_wall(
                width,
                height,
                (#[trigger] sides(width, height, x, y)[k]).0 as int,
                sides(width, height, x, y)[k].1 as int,
            ),
{
    if x % 2 == 1 && y % 2 == 1 {
        assert((x - 1) % 2 == 0 && (x + 1) % 2 == 0 && (y - 1) % 2 == 0 && (y + 1) % 2 == 0);
    }
    let s = sides(width, height, x, y);
    assert forall|k: int|
        0 <= k < s.len() && x % 2 == 1 && y % 2 == 1 implies is_inner_wall(
        width,
        height,
        (#[trigger] s[k]).0 as int,
        s[k].1 as int,
    ) by {
        assert((x - 1) % 2 == 0 && (x + 1) % 2 == 0 && (y - 1) % 2 == 0 && (y + 1) % 2 == 0);
    }
}

/// Counting open squares: at most all of them, and all of them exactly when
/// each one is open.
pub proof fn lemma_open_count_bound(cells: Seq<Cell>, width: int, squares: Seq<(usize, usize)>)
    ensures
        open_count(cells, width, squares) <= squares.len(),
        open_count(cells, width, squares) == squares.len() <==> forall|k: int|
            0 <= k < squares.len() ==> is_open(cells, width, #[trigger] squares[k]),
    decreases squares.len(),
{
    if squares.len() > 0 {
        lemma_open_count_bound(cells, width, squares.drop_last());
        if open_count(cells, width, squares) == squares.len() {
            assert forall|k: int| 0 <= k < squares.len() implies is_open(cells, width, #[trigger] squares[k]) by {
                if k < squares.len() - 1 {
                    assert(squares.drop_last()[k] == squares[k]);
                }
            }
        }
        if forall|k: int| 0 <= k < squares.len() ==> is_open(cells, width, #[trigger] squares[k]) {
            assert forall|k: int| 0 <= k < squares.drop_last().len() implies is_open(
                cells,
                width,
                #[trigger] squares.drop_last()[k],
            ) by {
                assert(squares.drop_last()[k] == squares[k]);
            }
            assert(is_open(cells, width, squares[squares.len() - 1]));
        }
    }
}

/// Opening squares never lowers the count; opening one that was closed
/// raises it.
pub(crate) proof fn lemma_open_count_grows(
    before: Seq<Cell>,
    after: Seq<Cell>,
    width: int,
    height: int,
    squares: Seq<(usize, usize)>,
    opened: (usize, usize),
)
    requires
        grows(before, after),
        before.len() == width * height,
        all_inside(squares, width, height),
    ensures
        open_count(before, width, squares) <= open_count(after, width, squares),
        squares.contains(opened) && !is_open(before, width, opened) && is_open(after, width, opened)
            ==> open_count(before, width, squares) + 1 <= open_count(after, width, squares),
    decreases squares.len(),
{
    if squares.len() > 0 {
        let rest = squares.drop_last();
        assert(all_inside(rest, width, height)) by {
            assert forall|k: int| 0 <= k < rest.len() implies (#[trigger] rest[k]).0 < width && rest[k].1 < height by {
                assert(rest[k] == squares[k]);
            }
        }
        lemma_open_count_grows(before, after, width, height, rest, opened);
        let last = squares.last();
        assert(last == squares[squares.len() - 1]);
        lemma_square_index(width, height, last.0 as int, last.1 as int);
        let i = square_index(width, last.0 as int, last.1 as int);
        if is_open(before, width, last) {
            assert(after[i] != Cell::Wall);
        }
        if squares.contains(opened) && !is_open(before, width, opened) && is_open(after, width, opened) {
            if last != opened {
                let k = choose|k: int| 0 <= k < squares.len() && squares[k] == opened;
                assert(rest[k] == opened);
            }
        }
    }
}

/// A square that stopped being a dead end stays so while squares open.
proof fn lemma_no_dead_end_stays(
    start: Seq<Cell>,
    before: Seq<Cell>,
    after: Seq<Cell>,
    width: int,
    height: int,
    x: int,
    y: int,
)
    requires
        no_dead_end(start, before, width, height, x, y),
        grows(before, after),
        before.len() == width * height,
        width <= usize::MAX,
        height <= usize::MAX,
    ensures
        no_dead_end(start, after, width, height, x, y),
{
    if is_corridor_square(width, height, x, y) {
        lemma_sides_inside(width, height, x, y);
        let s = sides(width, height, x, y);
        lemma_open_count_grows(before, after, width, height, s, (0, 0));
        lemma_open_count_bound(before, width, s);
        lemma_open_count_bound(after, width, s);
    }
}

/// The wall squares around corridor square (x, y) that have another corridor
/// behind them; walls on the outer border are left out.
fn inner_sides(grid: &Grid, x: usize, y: usize) -> (out: Vec<(usize, usize)>)
    requires
        grid.wf(),
        grid.in_bounds(x as int, y as int),
    ensures
        out@ == sides(grid.spec_width(), grid.spec_height(), x as int, y as int),
{
    let mut out: Vec<(usize, usize)> = Vec::new();
    if x >= 2 {
        out.push((x - 1, y));
    }
    if y >= 2 {
        out.push((x, y - 1));
    }
    if grid.width() - x > 2 {
        out.push((x + 1, y));
    }
    if grid.height() - y > 2 {
        out.push((x, y + 1));
    }
    proof {
        assert(out@ =~= sides(grid.spec_width(), grid.spec_height(), x as int, y as int));
    }
    out
}

/// How many of the inner sides of (x, y) are open.
fn open_sides(grid: &Grid, x: usize, y: usize) -> (n: usize)
    requires
        grid.wf(),
        grid.in_bounds(x as int, y as int),
    ensures
        n == open_count(grid@, grid.spec_width(), sides(grid.spec_width(), grid.spec_height(), x as int, y as int)),
{
    let around = inner_sides(grid, x, y);
    proof {
        lemma_sides_inside(grid.spec_width(), grid.spec_height(), x as int, y as int);
    }
    count_walkable(grid, &around)
}

/// How many of the squares are walkable.
pub fn count_walkable(grid: &Grid, squares: &Vec<(usize, usize)>) -> (n: usize)
    requires
        grid.wf(),
        all_inside(squares@, grid.spec_width(), grid.spec_height()),
    ensures
        n == open_count(grid@, grid.spec_width(), squares@),
{
    let mut n: usize = 0;
    let mut k: usize = 0;
    while k < squares.len()
        invariant
            grid.wf(),
            all_inside(squares@, grid.spec_width(), grid.spec_height()),
            k <= squares@.len(),
            n == open_count(grid@, grid.spec_width(), squares@.take(k as int)),
            n <= k,
        decreases squares@.len() - k,
    {
        let (wx, wy) = squares[k];
        proof {
            assert(squares@.take(k + 1).drop_last() =~= squares@.take(k as int));
            assert(squares@[k as int].0 < grid.spec_width());
        }
        if grid.walkable(wx, wy) {
            n = n + 1;
        }
        k = k + 1;
    }
    proof {
        assert(squares@.take(squares@.len() as int) =~= squares@);
    }
    n
}

/// Turns dead ends of a finished maze into loops: each corridor square with
/// a single open side gets, with a chance of `braiding` in a thousand (a
/// thousand or more: always), one more of its inner walls knocked down.
/// Works on the grid as the steps are applied, so a dead end already fixed
/// by a neighbour's loop is not touched twice.
#[verifier::rlimit(50)]
#[verifier::spinoff_prover]
pub fn braid(grid: &mut Grid, braiding: u32, rng: &mut StdRng) -> (steps: Vec<Step>)
    requires
        old(grid).wf(),
    ensures
        final(grid).wf(),
        final(grid).spec_width() == old(grid).spec_width(),
        final(grid).spec_height() == old(grid).spec_height(),
        final(grid)@ == after_steps(old(grid)@, old(grid).spec_width(), steps@),
        forall|i: int|
            0 <= i < steps@.len() ==> #[trigger] knocks_through(
                old(grid)@,
                old(grid).spec_width(),
                old(grid).spec_height(),
                steps@,
                i,
            ),
        braiding == 0 ==> steps@.len() == 0,
        exists|dead: Seq<(usize, usize)>|
            #[trigger] opens_dead_ends(old(grid)@, old(grid).spec_width(), old(grid).spec_height(), steps@, dead),
        braiding >= 1000 ==> forall|x: int, y: int|
            #[trigger] no_dead_end(
                old(grid)@,
                final(grid)@,
                old(grid).spec_width(),
                old(grid).spec_height(),
                x,
                y,
            ),
{
    let ghost start = grid@;
    let ghost w = grid.spec_width();
    let ghost h = grid.spec_height();
    let chance: u32 = if braiding < 1000 { braiding } else { 1000 };
    let mut steps: Vec<Step> = Vec::new();
    let ghost mut dead: Seq<(usize, usize)> = Seq::empty();
    let rows = grid.height() / 2;
    let cols = grid.width() / 2;
    let mut r: usize = 0;
    while r < rows
        invariant
            grid.wf(),
            grid.spec_width() == w,
            grid.spec_height() == h,
            start.len() == w * h,
            0 <= w <= usize::MAX,
            0 <= h <= usize::MAX,
            rows == h / 2,
            cols == w / 2,
            r <= rows,
            chance <= 1000,
            chance == 0 <==> braiding == 0,
            chance == 1000 <==> braiding >= 1000,
            grid@ == after_steps(start, w, steps@),
            forall|i: int| 0 <= i < steps@.len() ==> #[trigger] knocks_through(start, w, h, steps@, i),
            grows(start, grid@),
            forall|x: int, y: int|
                is_corridor_square(w, h, x, y) ==> #[trigger] grid@[square_index(w, x, y)] == start[square_index(
                    w,
                    x,
                    y,
                )],
            chance == 0 ==> steps@.len() == 0,
            chance == 1000 ==> forall|x: int, y: int| y < 2 * r + 1 ==> #[trigger] no_dead_end(start, grid@, w, h, x, y),
            dead.len() == steps@.len(),
            forall|i: int| 0 <= i < steps@.len() ==> #[trigger] opens_dead_end(start, w, h, steps@, i, dead[i]),
            forall|i: int, j: int| 0 <= i < j < dead.len() ==> earlier_in_rows(#[trigger] dead[i], #[trigger] dead[j]),
            forall|i: int| 0 <= i < dead.len() ==> (#[trigger] dead[i]).1 < 2 * r + 1,
        decreases rows - r,
    {
        let y = 2 * r + 1;
        let mut c: usize = 0;
        proof {
            assert forall|i: int| 0 <= i < dead.len() implies earlier_in_rows(#[trigger] dead[i], ((2 * c + 1) as usize, y)) by {
                assert(dead[i].1 < 2 * r + 1);
            }
        }
        while c < cols
            invariant
                grid.wf(),
                grid.spec_width() == w,
                grid.spec_height() == h,
                start.len() == w * h,
                0 <= w <= usize::MAX,
                0 <= h <= usize::MAX,
                rows == h / 2,
                cols == w / 2,
                r < rows,
                y == 2 * r + 1,
                c <= cols,
                chance <= 1000,
                chance == 0 <==> braiding == 0,
                chance == 1000 <==> braiding >= 1000,
                grid@ == after_steps(start, w, steps@),
                forall|i: int| 0 <= i < steps@.len() ==> #[trigger] knocks_through(start, w, h, steps@, i),
                grows(start, grid@),
                forall|x: int, y2: int|
                    is_corridor_square(w, h, x, y2) ==> #[trigger] grid@[square_index(w, x, y2)]
                        == start[square_index(w, x, y2)],
                chance == 0 ==> steps@.len() == 0,
                chance == 1000 ==> forall|x: int, y2: int|
                    y2 < y || (y2 == y && x < 2 * c + 1) ==> #[trigger] no_dead_end(start, grid@, w, h, x, y2),
                dead.len() == steps@.len(),
                forall|i: int| 0 <= i < steps@.len() ==> #[trigger] opens_dead_end(start, w, h, steps@, i, dead[i]),
                forall|i: int, j: int| 0 <= i < j < dead.len() ==> earlier_in_rows(#[trigger] dead[i], #[trigger] dead[j]),
                forall|i: int| 0 <= i < dead.len() ==> earlier_in_rows(#[trigger] dead[i], ((2 * c + 1) as usize, y)),
            decreases cols - c,
        {
            let x = 2 * c + 1;
            proof {
                assert(is_corridor_square(w, h, x as int, y as int));
                assert(grid@[square_index(w, x as int, y as int)] == start[square_index(w, x as int, y as int)]);
                lemma_sides_inside(w, h, x as int, y as int);
                lemma_open_count_grows(start, grid@, w, h, sides(w, h, x as int, y as int), (0, 0));
                lemma_open_count_bound(grid@, w, sides(w, h, x as int, y as int));
            }
            if grid.walkable(x, y) && open_sides(grid, x, y) == 1 {
                if random_ratio(rng, chance, 1000) {
                    let around = inner_sides(grid, x, y);
                    let closed = closed_sides(grid, &around);
                    match pick(closed.as_slice(), rng) {
                        Some((wx, wy)) => {
                            let ghost before = grid@;
                            let ghost done = steps@;
                            let step = Step { x: wx, y: wy, cell: Cell::Floor };
                            proof {
                                let k = choose|k: int| 0 <= k < closed@.len() && closed@[k] == (wx, wy);
                                assert(around@.contains(closed@[k]));
                                let j = choose|j: int| 0 <= j < around@.len() && around@[j] == (wx, wy);
                                assert(is_inner_wall(w, h, around@[j].0 as int, around@[j].1 as int));
                                assert(around@[j].0 < w);
                                assert(is_inner_wall(w, h, wx as int, wy as int));
                                lemma_square_index(w, h, wx as int, wy as int);
                            }
                            let ghost dead_before = dead;
                            proof {
                                // The square is a dead end right now.
                                assert(done.take(done.len() as int) =~= done);
                                assert(sides(w, h, x as int, y as int).contains((wx, wy)));
                                assert(opens_dead_end(start, w, h, done.push(step), done.len() as int, (x, y))) by {
                                    assert(done.push(step).take(done.len() as int) =~= done);
                                }
                                dead = dead.push((x, y));
                            }
                            grid.apply(step);
                            steps.push(step);
                            proof {
                                assert forall|i: int| 0 <= i < steps@.len() implies #[trigger] opens_dead_end(
                                    start,
                                    w,
                                    h,
                                    steps@,
                                    i,
                                    dead[i],
                                ) by {
                                    if i < done.len() {
                                        assert(steps@.take(i) =~= done.take(i));
                                        assert(steps@[i] == done[i]);
                                        assert(dead[i] == dead_before[i]);
                                        assert(opens_dead_end(start, w, h, done, i, dead_before[i]));
                                    }
                                }
                                assert forall|i: int, j: int| 0 <= i < j < dead.len() implies earlier_in_rows(
                                    #[trigger] dead[i],
                                    #[trigger] dead[j],
                                ) by {
                                    assert(dead[i] == dead_before[i]);
                                    if j < dead_before.len() {
                                        assert(dead[j] == dead_before[j]);
                                    }
                                }
                                let idx = square_index(w, wx as int, wy as int);
                                assert(grid@ == before.update(idx, Cell::Floor));
                                assert(steps@.drop_last() =~= done);
                                assert(steps@.take(done.len() as int) =~= done);
                                assert forall|i: int| 0 <= i < steps@.len() implies #[trigger] knocks_through(
                                    start,
                                    w,
                                    h,
                                    steps@,
                                    i,
                                ) by {
                                    if i < done.len() {
                                        assert(steps@.take(i) =~= done.take(i));
                                        assert(steps@[i] == done[i]);
                                        assert(knocks_through(start, w, h, done, i));
                                    }
                                }
                                assert(grows(before, grid@));
                                assert(grows(start, grid@)) by {
                                    assert forall|i: int|
                                        0 <= i < start.len() && start[i] != Cell::Wall implies #[trigger] grid@[i]
                                        != Cell::Wall by {
                                        assert(before[i] != Cell::Wall);
                                    }
                                }
                                assert forall|x2: int, y2: int| is_corridor_square(w, h, x2, y2) implies #[trigger] grid@[square_index(
                                    w,
                                    x2,
                                    y2,
                                )] == start[square_index(w, x2, y2)] by {
                                    lemma_square_index(w, h, x2, y2);
                                    if square_index(w, x2, y2) == idx {
                                        crate::maze::grid::lemma_square_index_injective(w, x2, y2, wx as int, wy as int);
                                        assert(false);
                                    }
                                    assert(before[square_index(w, x2, y2)] == start[square_index(w, x2, y2)]);
                                }
                                if chance == 1000 {
                                    lemma_open_count_grows(before, grid@, w, h, sides(w, h, x as int, y as int), (wx, wy));
                                    assert forall|x2: int, y2: int|
                                        y2 < y || (y2 == y && x2 < 2 * c + 3) implies #[trigger] no_dead_end(
                                        start,
                                        grid@,
                                        w,
                                        h,
                                        x2,
                                        y2,
                                    ) by {
                                        if y2 < y || (y2 == y && x2 < 2 * c + 1) {
                                            lemma_no_dead_end_stays(start, before, grid@, w, h, x2, y2);
                                        } else if x2 == 2 * c + 2 {
                                            assert(x2 % 2 == 0);
                                        }
                                    }
                                }
                            }
                        },
                        None => {
                            proof {
                                assert forall|k: int|
                                    0 <= k < sides(w, h, x as int, y as int).len() implies is_open(
                                    grid@,
                                    w,
                                    #[trigger] sides(w, h, x as int, y as int)[k],
                                ) by {
                                    assert(is_open(grid@, w, around@[k]));
                                }
                                lemma_open_count_bound(grid@, w, sides(w, h, x as int, y as int));
                            }
                        },
                    }
                }
            }
            proof {
                if chance == 1000 {
                    assert forall|x2: int, y2: int|
                        y2 < y || (y2 == y && x2 < 2 * c + 3) implies #[trigger] no_dead_end(start, grid@, w, h, x2, y2) by {
                        if y2 == y && x2 == 2 * c + 2 {
                            assert(x2 % 2 == 0);
                        }
                    }
                }
                assert forall|i: int| 0 <= i < dead.len() implies earlier_in_rows(
                    #[trigger] dead[i],
                    ((2 * c + 3) as usize, y),
                ) by {}
            }
            c = c + 1;
        }
        proof {
            if chance == 1000 {
                assert forall|x2: int, y2: int| y2 < 2 * (r + 1) + 1 implies #[trigger] no_dead_end(start, grid@, w, h, x2, y2) by {
                    if y2 == y + 1 {
                        assert(y2 % 2 == 0);
                    } else if y2 == y && x2 >= 2 * c + 1 {
                        assert(x2 >= w);
                    }
                }
            }
        }
        proof {
            assert forall|i: int| 0 <= i < dead.len() implies (#[trigger] dead[i]).1 < 2 * (r + 1) + 1 by {
                assert(earlier_in_rows(dead[i], ((2 * c + 1) as usize, y)));
            }
        }
        r = r + 1;
    }
    proof {
        assert(opens_dead_ends(start, w, h, steps@, dead));
        if chance == 1000 {
            assert forall|x2: int, y2: int| #[trigger] no_dead_end(start, grid@, w, h, x2, y2) by {
                if y2 >= 2 * r + 1 {
                    assert(y2 >= h);
                }
            }
        }
    }
    steps
}

/// The squares of `around` that still hold a wall, in order.
fn closed_sides(grid: &Grid, around: &Vec<(usize, usize)>) -> (out: Vec<(usize, usize)>)
    requires
        grid.wf(),
        all_inside(around@, grid.spec_width(), grid.spec_height()),
    ensures
        forall|k: int|
            0 <= k < out@.len() ==> around@.contains(#[trigger] out@[k]) && !is_open(
                grid@,
                grid.spec_width(),
                out@[k],
            ),
        out@.len() == 0 ==> forall|k: int| 0 <= k < around@.len() ==> is_open(grid@, grid.spec_width(), #[trigger] around@[k]),
{
    let mut out: Vec<(usize, usize)> = Vec::new();
    let mut k: usize = 0;
    while k < around.len()
        invariant
            grid.wf(),
            all_inside(around@, grid.spec_width(), grid.spec_height()),
            k <= around@.len(),
            forall|j: int|
                0 <= j < out@.len() ==> around@.contains(#[trigger] out@[j]) && !is_open(
                    grid@,
                    grid.spec_width(),
                    out@[j],
                ),
            out@.len() == 0 ==> forall|j: int| 0 <= j < k ==> is_open(grid@, grid.spec_width(), #[trigger] around@[j]),
        decreases around@.len() - k,
    {
        let (wx, wy) = around[k];
        proof {
            assert(around@[k as int].0 < grid.spec_width());
        }
        if !grid.walkable(wx, wy) {
            out.push((wx, wy));
            proof {
                assert(around@.contains(around@[k as int]));
            }
        }
        k = k + 1;
    }
    out
}

} // verus!
