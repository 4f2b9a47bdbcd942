use rand::rngs::StdRng;
use vstd::prelude::*;

use super::spanning::{corridor_square, drawn_height, drawn_width};
use super::{Lattice, all_walls, between, count_true, floor, floor_step, is_open_lattice, spares_corridors, wall_between};
use super::dungeon::walkable_count;
use crate::maze::grid::{Cell, Step, adjacent, after_step, after_steps, lemma_after_steps_len, lemma_square_index, square_index};
use crate::maze::walks::{
    all_joined, joins, lemma_close_square, lemma_floors_plain, lemma_joins_back, lemma_joins_chain, lemma_joins_self,
    lemma_joins_step, lemma_replay_push, lemma_stepped_open, lemma_untouched, open_in, plain, replay,
};
use crate::random::{pick, random_range, random_ratio};

verus! {

/// The empty field: the squares of the lattice floored, every other
/// square wall.
pub open spec fn field(lattice: Lattice) -> Seq<Cell> {
    let w = drawn_width(lattice);
    let h = drawn_height(lattice);
    Seq::new((w * h) as nat, |i: int| if lattice.owns_square(i % w, i / w) { Cell::Floor } else { Cell::Wall })
}

/// Every open corridor and every wall between two open corridors: the empty
/// field that recursive division then splits up.
pub fn open_field(lattice: &Lattice) -> (steps: Vec<Step>)
    requires
        lattice.wf(),
    ensures
        lattice.carves(steps@, |c: Cell| c == Cell::Floor),
        lattice.floors_every_corridor(steps@),
        after_steps(
            all_walls((2 * lattice.spec_width() + 1) * (2 * lattice.spec_height() + 1)),
            2 * lattice.spec_width() + 1,
            steps@,
        ) == field(*lattice),
{
    let corridors = lattice.corridors();
    let mut steps: Vec<Step> = Vec::new();
    let mut i: usize = 0;
    while i < corridors.len()
        invariant
            lattice.wf(),
            i <= corridors@.len(),
            forall|k: int| 0 <= k < corridors@.len() ==> lattice.open_at(#[trigger] corridors@[k]),
            steps@.len() == i,
            forall|k: int|
                0 <= k < i ==> #[trigger] steps@[k] == floor_step(corridors@[k].0 as int, corridors@[k].1 as int),
            lattice.carves(steps@, |c: Cell| c == Cell::Floor),
        decreases corridors@.len() - i,
    {
        let (x, y) = corridors[i];
        proof {
            assert(lattice.open_at(corridors@[i as int]));
            lattice.lemma_corridor_owned(x as int, y as int);
        }
        steps.push(floor(x, y));
        i = i + 1;
    }
    let ghost floored = steps@;
    let edges = lattice.edges();
    let mut k: usize = 0;
    while k < edges.len()
        invariant
            lattice.wf(),
            k <= edges@.len(),
            forall|j: int|
                0 <= j < edges@.len() ==> lattice.open_at((#[trigger] edges@[j]).0) && lattice.open_at(
                    edges@[j].1,
                ) && crate::maze::grid::adjacent(edges@[j].0, edges@[j].1),
            steps@.len() == floored.len() + k,
            forall|j: int| 0 <= j < floored.len() ==> #[trigger] steps@[j] == floored[j],
            forall|j: int|
                0 <= j < k ==> #[trigger] steps@[floored.len() + j] == (Step {
                    x: (edges@[j].0.0 + edges@[j].1.0 + 1) as usize,
                    y: (edges@[j].0.1 + edges@[j].1.1 + 1) as usize,
                    cell: Cell::Floor,
                }),
            lattice.carves(steps@, |c: Cell| c == Cell::Floor),
        decreases edges@.len() - k,
    {
        let ((ax, ay), (bx, by)) = edges[k];
        proof {
            assert(lattice.open_at(edges@[k as int].0));
            lattice.lemma_between_owned((ax, ay), (bx, by));
        }
        let ghost before = steps@;
        steps.push(wall_between(ax, ay, bx, by));
        proof {
            assert forall|j: int| 0 <= j < floored.len() implies #[trigger] steps@[j] == floored[j] by {
                assert(steps@[j] == before[j]);
            }
            assert forall|j: int|
                0 <= j < k + 1 implies #[trigger] steps@[floored.len() + j] == (Step {
                    x: (edges@[j].0.0 + edges@[j].1.0 + 1) as usize,
                    y: (edges@[j].0.1 + edges@[j].1.1 + 1) as usize,
                    cell: Cell::Floor,
                }) by {
                if j < k {
                    assert(steps@[floored.len() + j] == before[floored.len() + j]);
                }
            }
        }
        k = k + 1;
    }
    proof {
        assert forall|x: int, y: int| #[trigger] lattice.is_open(x, y) implies floored.contains(floor_step(x, y)) by {
            assert(corridors@.contains((x as usize, y as usize)));
            let j = choose|j: int| 0 <= j < corridors@.len() && corridors@[j] == (x as usize, y as usize);
            assert(floored[j] == floor_step(x, y));
        }
        lemma_field(lattice, steps@, floored, edges@);
    }
    proof {
        assert forall|x: int, y: int| #[trigger] lattice.is_open(x, y) implies exists|j: int|
            0 <= j < steps@.len() && #[trigger] steps@[j] == floor_step(x, y) by {
            assert(corridors@.contains((x as usize, y as usize)));
            let j = choose|j: int| 0 <= j < corridors@.len() && corridors@[j] == (x as usize, y as usize);
            assert(steps@[j] == floored[j]);
        }
    }
    steps
}

/// Floors on every open corridor, then a floor on the wall of every pair of
/// adjacent open corridors, replay to the empty field.
proof fn lemma_field(
    lattice: &Lattice,
    steps: Seq<Step>,
    floored: Seq<Step>,
    edges: Seq<((usize, usize), (usize, usize))>,
)
    requires
        lattice.wf(),
        lattice.carves(steps, |c: Cell| c == Cell::Floor),
        forall|x: int, y: int| #[trigger] lattice.is_open(x, y) ==> floored.contains(floor_step(x, y)),
        steps.len() == floored.len() + edges.len(),
        forall|j: int| 0 <= j < floored.len() ==> #[trigger] steps[j] == floored[j],
        forall|j: int|
            0 <= j < edges.len() ==> #[trigger] steps[floored.len() + j] == (Step {
                x: (edges[j].0.0 + edges[j].1.0 + 1) as usize,
                y: (edges[j].0.1 + edges[j].1.1 + 1) as usize,
                cell: Cell::Floor,
            }),
        forall|p: (usize, usize), q: (usize, usize)|
            lattice.open_at(p) && lattice.open_at(q) && #[trigger] crate::maze::grid::adjacent(p, q) && (q.0 > p.0
                || q.1 > p.1) ==> edges.contains((p, q)),
    ensures
        after_steps(
            all_walls((2 * lattice.spec_width() + 1) * (2 * lattice.spec_height() + 1)),
            2 * lattice.spec_width() + 1,
            steps,
        ) == field(*lattice),
{
    let w = 2 * lattice.spec_width() + 1;
    let h = 2 * lattice.spec_height() + 1;
    let blank = all_walls(w * h);
    lattice.lemma_fits();
    assert(0 <= w * h) by (nonlinear_arith)
        requires
            0 <= w,
            0 <= h,
    ;
    lattice.lemma_carves_inside(steps, |c: Cell| c == Cell::Floor);
    assert forall|k: int| 0 <= k < steps.len() implies (#[trigger] steps[k]).cell == Cell::Floor by {
        assert(lattice.owns_square(steps[k].x as int, steps[k].y as int));
    }
    assert(plain(blank));
    lemma_floors_plain(blank, w, h, steps);
    let done = after_steps(blank, w, steps);
    assert forall|i: int| 0 <= i < w * h implies #[trigger] done[i] == field(*lattice)[i] by {
        let x = i % w;
        let y = i / w;
        assert(0 <= x < w && 0 <= y < h && i == y * w + x) by (nonlinear_arith)
            requires
                0 <= i < w * h,
                0 < w,
                0 < h,
                x == i % w,
                y == i / w,
        ;
        if lattice.owns_square(x, y) {
            let j: int = if x % 2 == 1 && y % 2 == 1 {
                let cx = (x - 1) / 2;
                let cy = (y - 1) / 2;
                assert(lattice.is_open(cx, cy));
                assert(floored.contains(floor_step(cx, cy)));
                choose|j: int| 0 <= j < floored.len() && floored[j] == floor_step(cx, cy)
            } else if x % 2 == 0 {
                let p = ((x / 2 - 1) as usize, ((y - 1) / 2) as usize);
                let q = ((x / 2) as usize, ((y - 1) / 2) as usize);
                assert(crate::maze::grid::adjacent(p, q));
                assert(edges.contains((p, q)));
                let e = choose|e: int| 0 <= e < edges.len() && edges[e] == (p, q);
                floored.len() + e
            } else {
                let p = (((x - 1) / 2) as usize, (y / 2 - 1) as usize);
                let q = (((x - 1) / 2) as usize, (y / 2) as usize);
                assert(crate::maze::grid::adjacent(p, q));
                assert(edges.contains((p, q)));
                let e = choose|e: int| 0 <= e < edges.len() && edges[e] == (p, q);
                floored.len() + e
            };
            assert(steps[j].x == x && steps[j].y == y);
            lemma_stepped_open(blank, w, h, steps, j);
            lemma_square_index(w, h, x, y);
        } else {
            assert forall|k: int| 0 <= k < steps.len() implies square_index(w, (#[trigger] steps[k]).x as int, steps[k].y
                as int) != i by {
                lemma_square_index(w, h, steps[k].x as int, steps[k].y as int);
                assert(lattice.owns_square(steps[k].x as int, steps[k].y as int));
            }
            lemma_untouched(blank, w, h, steps, i);
        }
    }
    lemma_after_steps_len(blank, w, h, steps);
    assert(done =~= field(*lattice));
}

/// A rectangle of corridors: x..x+width by y..y+height.
#[derive(Clone, Copy)]
struct Chamber {
    x: usize,
    y: usize,
    width: usize,
    height: usize,
}

spec fn area(c: Chamber) -> int {
    c.width * c.height
}

/// What is left to divide: each chamber weighs its area squared, plus one.
spec fn weight(chambers: Seq<Chamber>) -> int
    decreases chambers.len(),
{
    if chambers.len() == 0 {
        0
    } else {
        weight(chambers.drop_last()) + area(chambers.last()) * area(chambers.last()) + 1
    }
}

spec fn inside(lattice: &Lattice, c: Chamber) -> bool {
    c.x + c.width <= lattice.spec_width() && c.y + c.height <= lattice.spec_height()
}

proof fn lemma_weight_push(chambers: Seq<Chamber>, c: Chamber)
    ensures
        weight(chambers.push(c)) == weight(chambers) + area(c) * area(c) + 1,
{
    assert(chambers.push(c).drop_last() =~= chambers);
}

/// Splitting a chamber in two makes what is left lighter.
proof fn lemma_split_lighter(rest: Seq<Chamber>, c: Chamber, first: Chamber, second: Chamber)
    requires
        c.width >= 2,
        c.height >= 2,
        (first.width == c.width && second.width == c.width && first.height + second.height == c.height
            && first.height >= 1 && second.height >= 1) || (first.height == c.height && second.height
            == c.height && first.width + second.width == c.width && first.width >= 1 && second.width
            >= 1),
    ensures
        weight(rest.push(second).push(first)) < weight(rest.push(c)),
{
    lemma_weight_push(rest, c);
    lemma_weight_push(rest, second);
    lemma_weight_push(rest.push(second), first);
    let a = area(c);
    let a1 = area(first);
    let a2 = area(second);
    if first.width == c.width && second.width == c.width && first.height + second.height == c.height
        && first.height >= 1 && second.height >= 1 {
        let w = c.width as int;
        let h1 = first.height as int;
        let h2 = second.height as int;
        assert(w * h1 + w * h2 == w * (h1 + h2) && w * h1 >= 1 && w * h2 >= 1) by (nonlinear_arith)
            requires
                w >= 2,
                h1 >= 1,
                h2 >= 1,
        ;
    } else {
        let h = c.height as int;
        let w1 = first.width as int;
        let w2 = second.width as int;
        assert(w1 * h + w2 * h == (w1 + w2) * h && w1 * h >= 1 && w2 * h >= 1) by (nonlinear_arith)
            requires
                h >= 2,
                w1 >= 1,
                w2 >= 1,
        ;
    }
    assert(a1 + a2 == a && a1 >= 1 && a2 >= 1);
    assert(a1 * a1 + a2 * a2 + 2 < a * a + 1) by (nonlinear_arith)
        requires
            a1 + a2 == a,
            a1 >= 1,
            a2 >= 1,
    ;
}

proof fn lemma_weight_nonneg(chambers: Seq<Chamber>)
    ensures
        weight(chambers) >= 0,
    decreases chambers.len(),
{
    if chambers.len() > 0 {
        lemma_weight_nonneg(chambers.drop_last());
        let a = area(chambers.last());
        assert(a * a >= 0) by (nonlinear_arith);
    }
}

/// The corridor a chamber holds.
spec fn holds(c: Chamber, x: int, y: int) -> bool {
    c.x <= x < c.x + c.width && c.y <= y < c.y + c.height
}

/// Two chambers share no corridor.
spec fn apart(a: Chamber, b: Chamber) -> bool {
    a.x + a.width <= b.x || b.x + b.width <= a.x || a.y + a.height <= b.y || b.y + b.height <= a.y
}

/// The square between corridor (x, y) and the one to its right.
spec fn east_wall(x: int, y: int) -> (usize, usize) {
    ((2 * x + 2) as usize, (2 * y + 1) as usize)
}

/// The square between corridor (x, y) and the one below it.
spec fn south_wall(x: int, y: int) -> (usize, usize) {
    ((2 * x + 1) as usize, (2 * y + 2) as usize)
}

/// Every wall between two corridors of the chamber is open.
spec fn chamber_open(cells: Seq<Cell>, w: int, h: int, c: Chamber) -> bool {
    &&& forall|x: int, y: int|
        c.x <= x && x + 1 < c.x + c.width && c.y <= y < c.y + c.height ==> #[trigger] open_in(
            cells,
            w,
            h,
            east_wall(x, y),
        )
    &&& forall|x: int, y: int|
        c.x <= x < c.x + c.width && c.y <= y && y + 1 < c.y + c.height ==> #[trigger] open_in(
            cells,
            w,
            h,
            south_wall(x, y),
        )
}

/// The drawn grid keeps its frame: its size, only walls and floors, walls
/// at the corners between walls, and every corridor square open.
spec fn frame_ok(lattice: Lattice, cells: Seq<Cell>, w: int, h: int) -> bool {
    &&& cells.len() == w * h
    &&& plain(cells)
    &&& forall|p: (usize, usize)| p.0 % 2 == 0 && p.1 % 2 == 0 ==> !#[trigger] open_in(cells, w, h, p)
    &&& forall|x: int, y: int| #[trigger] lattice.is_open(x, y) ==> open_in(cells, w, h, corridor_square((x as usize, y as usize)))
}

/// Every chamber still to divide is open inside, and no two share a corridor.
spec fn chambers_ok(cells: Seq<Cell>, w: int, h: int, chambers: Seq<Chamber>) -> bool {
    &&& forall|k: int| 0 <= k < chambers.len() ==> chamber_open(cells, w, h, #[trigger] chambers[k])
    &&& forall|i: int, j: int| 0 <= i < j < chambers.len() ==> apart(#[trigger] chambers[i], #[trigger] chambers[j])
}

/// Along a row of an open chamber, corridor squares are joined.
proof fn lemma_row_joins(lattice: Lattice, cells: Seq<Cell>, c: Chamber, y: int, x1: int, x2: int)
    requires
        is_open_lattice(lattice, lattice.spec_width(), lattice.spec_height()),
        inside(&lattice, c),
        frame_ok(lattice, cells, drawn_width(lattice), drawn_height(lattice)),
        chamber_open(cells, drawn_width(lattice), drawn_height(lattice), c),
        holds(c, x1, y),
        holds(c, x2, y),
        x1 <= x2,
    ensures
        joins(
            cells,
            drawn_width(lattice),
            drawn_height(lattice),
            corridor_square((x1 as usize, y as usize)),
            corridor_square((x2 as usize, y as usize)),
        ),
    decreases x2 - x1,
{
    lattice.lemma_fits();
    let w = drawn_width(lattice);
    let h = drawn_height(lattice);
    let lw = lattice.spec_width();
    let lh = lattice.spec_height();
    if x1 == x2 {
        lemma_joins_self(cells, w, h, corridor_square((x1 as usize, y as usize)));
    } else {
        lemma_row_joins(lattice, cells, c, y, x1, x2 - 1);
        lemma_square_index(lw, lh, x2, y);
        assert(lattice.is_open(x2, y));
        assert(open_in(cells, w, h, east_wall(x2 - 1, y)));
        lemma_joins_step(cells, w, h, corridor_square((x1 as usize, y as usize)), corridor_square(((x2 - 1) as usize, y as usize)), east_wall(x2 - 1, y));
        lemma_joins_step(cells, w, h, corridor_square((x1 as usize, y as usize)), east_wall(x2 - 1, y), corridor_square((x2 as usize, y as usize)));
    }
}

/// Down a column of an open chamber, corridor squares are joined.
proof fn lemma_col_joins(lattice: Lattice, cells: Seq<Cell>, c: Chamber, x: int, y1: int, y2: int)
    requires
        is_open_lattice(lattice, lattice.spec_width(), lattice.spec_height()),
        inside(&lattice, c),
        frame_ok(lattice, cells, drawn_width(lattice), drawn_height(lattice)),
        chamber_open(cells, drawn_width(lattice), drawn_height(lattice), c),
        holds(c, x, y1),
        holds(c, x, y2),
        y1 <= y2,
    ensures
        joins(
            cells,
            drawn_width(lattice),
            drawn_height(lattice),
            corridor_square((x as usize, y1 as usize)),
            corridor_square((x as usize, y2 as usize)),
        ),
    decreases y2 - y1,
{
    lattice.lemma_fits();
    let w = drawn_width(lattice);
    let h = drawn_height(lattice);
    let lw = lattice.spec_width();
    let lh = lattice.spec_height();
    if y1 == y2 {
        lemma_joins_self(cells, w, h, corridor_square((x as usize, y1 as usize)));
    } else {
        lemma_col_joins(lattice, cells, c, x, y1, y2 - 1);
        lemma_square_index(lw, lh, x, y2);
        assert(lattice.is_open(x, y2));
        assert(open_in(cells, w, h, south_wall(x, y2 - 1)));
        lemma_joins_step(cells, w, h, corridor_square((x as usize, y1 as usize)), corridor_square((x as usize, (y2 - 1) as usize)), south_wall(x, y2 - 1));
        lemma_joins_step(cells, w, h, corridor_square((x as usize, y1 as usize)), south_wall(x, y2 - 1), corridor_square((x as usize, y2 as usize)));
    }
}

/// Joining holds both ways between two open squares.
proof fn lemma_joins_either(cells: Seq<Cell>, w: int, h: int, p: (usize, usize), q: (usize, usize))
    requires
        open_in(cells, w, h, p),
        open_in(cells, w, h, q),
        joins(cells, w, h, p, q) || joins(cells, w, h, q, p),
    ensures
        joins(cells, w, h, p, q),
{
    if !joins(cells, w, h, p, q) {
        lemma_joins_back(cells, w, h, q, p);
    }
}

/// Any two corridor squares of an open chamber are joined.
proof fn lemma_chamber_joins(lattice: Lattice, cells: Seq<Cell>, c: Chamber, x1: int, y1: int, x2: int, y2: int)
    requires
        is_open_lattice(lattice, lattice.spec_width(), lattice.spec_height()),
        inside(&lattice, c),
        frame_ok(lattice, cells, drawn_width(lattice), drawn_height(lattice)),
        chamber_open(cells, drawn_width(lattice), drawn_height(lattice), c),
        holds(c, x1, y1),
        holds(c, x2, y2),
    ensures
        joins(
            cells,
            drawn_width(lattice),
            drawn_height(lattice),
            corridor_square((x1 as usize, y1 as usize)),
            corridor_square((x2 as usize, y2 as usize)),
        ),
{
    let w = drawn_width(lattice);
    let h = drawn_height(lattice);
    let lw = lattice.spec_width();
    let lh = lattice.spec_height();
    let a = corridor_square((x1 as usize, y1 as usize));
    let b = corridor_square((x2 as usize, y1 as usize));
    let d = corridor_square((x2 as usize, y2 as usize));
    lemma_square_index(lw, lh, x1, y1);
    lemma_square_index(lw, lh, x2, y1);
    lemma_square_index(lw, lh, x2, y2);
    assert(lattice.is_open(x1, y1) && lattice.is_open(x2, y1) && lattice.is_open(x2, y2));
    if x1 <= x2 {
        lemma_row_joins(lattice, cells, c, y1, x1, x2);
    } else {
        lemma_row_joins(lattice, cells, c, y1, x2, x1);
    }
    lemma_joins_either(cells, w, h, a, b);
    if y1 <= y2 {
        lemma_col_joins(lattice, cells, c, x2, y1, y2);
    } else {
        lemma_col_joins(lattice, cells, c, x2, y2, y1);
    }
    lemma_joins_either(cells, w, h, b, d);
    lemma_joins_chain(cells, w, h, a, b, d);
}

/// Every corridor of the open lattice is open.
proof fn lemma_open_corridor(lattice: Lattice, x: int, y: int)
    requires
        is_open_lattice(lattice, lattice.spec_width(), lattice.spec_height()),
        0 <= x < lattice.spec_width(),
        0 <= y < lattice.spec_height(),
    ensures
        lattice.is_open(x, y),
{
    lemma_square_index(lattice.spec_width(), lattice.spec_height(), x, y);
}

/// On the open lattice, the squares of a row the lattice owns: in a row of
/// corridors, all but the two ends; in a row of walls between two rows of
/// corridors, the squares above and below a corridor; nothing in the top
/// and bottom rows.
proof fn lemma_owns_open(lattice: Lattice, x: int, y: int)
    requires
        is_open_lattice(lattice, lattice.spec_width(), lattice.spec_height()),
        0 <= x < drawn_width(lattice),
        0 <= y < drawn_height(lattice),
    ensures
        lattice.owns_square(x, y) == if y % 2 == 1 {
            1 <= x <= 2 * lattice.spec_width() - 1
        } else {
            x % 2 == 1 && 2 <= y <= 2 * lattice.spec_height() - 2
        },
{
    let lw = lattice.spec_width();
    let lh = lattice.spec_height();
    if x % 2 == 1 && y % 2 == 1 {
        lemma_open_corridor(lattice, (x - 1) / 2, (y - 1) / 2);
    } else if x % 2 == 0 && y % 2 == 1 {
        if 2 <= x <= 2 * lw - 2 {
            lemma_open_corridor(lattice, x / 2 - 1, (y - 1) / 2);
            lemma_open_corridor(lattice, x / 2, (y - 1) / 2);
        }
    } else if x % 2 == 1 && y % 2 == 0 {
        if 2 <= y <= 2 * lh - 2 {
            lemma_open_corridor(lattice, (x - 1) / 2, y / 2 - 1);
            lemma_open_corridor(lattice, (x - 1) / 2, y / 2);
        }
    }
}

/// The marks of the squares the lattice owns, row by row.
spec fn owned_marks(lattice: Lattice) -> Seq<bool> {
    let w = drawn_width(lattice);
    let h = drawn_height(lattice);
    Seq::new((w * h) as nat, |i: int| lattice.owns_square(i % w, i / w))
}

/// The marks of the first `n` squares of row `y` that the lattice owns.
spec fn owned_row(lattice: Lattice, y: int, n: int) -> Seq<bool> {
    Seq::new(n as nat, |x: int| lattice.owns_square(x, y))
}

/// How many of the first `n` squares of row `y` the open lattice owns.
spec fn row_owned(lw: int, lh: int, y: int, n: int) -> int {
    if y % 2 == 1 {
        if n == 0 {
            0
        } else if n <= 2 * lw {
            n - 1
        } else {
            2 * lw - 1
        }
    } else if 2 <= y <= 2 * lh - 2 {
        n / 2
    } else {
        0
    }
}

/// Counting two runs of marks adds their counts.
proof fn lemma_count_concat(a: Seq<bool>, b: Seq<bool>)
    ensures
        count_true(a + b) == count_true(a) + count_true(b),
    decreases b.len(),
{
    if b.len() == 0 {
        assert(a + b =~= a);
    } else {
        assert((a + b).drop_last() =~= a + b.drop_last());
        lemma_count_concat(a, b.drop_last());
    }
}

/// The count of a row prefix, square by square.
proof fn lemma_row_prefix(lattice: Lattice, y: int, n: int)
    requires
        is_open_lattice(lattice, lattice.spec_width(), lattice.spec_height()),
        lattice.spec_width() >= 1,
        0 <= y < drawn_height(lattice),
        0 <= n <= drawn_width(lattice),
    ensures
        count_true(owned_row(lattice, y, n)) == row_owned(lattice.spec_width(), lattice.spec_height(), y, n),
    decreases n,
{
    if n > 0 {
        lemma_row_prefix(lattice, y, n - 1);
        assert(owned_row(lattice, y, n).drop_last() =~= owned_row(lattice, y, n - 1));
        lemma_owns_open(lattice, n - 1, y);
    }
}

/// How many squares of the first `y` rows the open lattice owns: a row of
/// corridors holds 2w - 1, a row of walls between two of them w.
spec fn rows_owned(lw: int, lh: int, y: int) -> int {
    if y == 0 {
        0
    } else {
        (y / 2) * (2 * lw - 1) + (if y <= 2 * lh {
            (y - 1) / 2
        } else {
            lh - 1
        }) * lw
    }
}

/// The count of the first `y` rows, row by row.
#[verifier::rlimit(40)]
proof fn lemma_rows_prefix(lattice: Lattice, y: int)
    requires
        is_open_lattice(lattice, lattice.spec_width(), lattice.spec_height()),
        lattice.spec_width() >= 1,
        lattice.spec_height() >= 1,
        0 <= y <= drawn_height(lattice),
    ensures
        y * drawn_width(lattice) <= owned_marks(lattice).len(),
        count_true(owned_marks(lattice).take(y * drawn_width(lattice))) == rows_owned(
            lattice.spec_width(),
            lattice.spec_height(),
            y,
        ),
    decreases y,
{
    let w = drawn_width(lattice);
    let h = drawn_height(lattice);
    let lw = lattice.spec_width();
    let lh = lattice.spec_height();
    let marks = owned_marks(lattice);
    assert(y * w <= h * w && h * w == w * h && w * h >= 0) by (nonlinear_arith)
        requires
            0 <= y <= h,
            w >= 0,
    ;
    if y == 0 {
        assert(y * w == 0) by (nonlinear_arith)
            requires
                y == 0,
        ;
        assert(marks.take(0) =~= Seq::<bool>::empty());
    } else {
        let r = y - 1;
        lemma_rows_prefix(lattice, r);
        assert(r * w + w == y * w) by (nonlinear_arith)
            requires
                r == y - 1,
        ;
        let row = owned_row(lattice, r, w);
        assert(marks.take(y * w) =~= marks.take(r * w) + row) by {
            assert forall|i: int| r * w <= i < y * w implies marks[i] == row[i - r * w] by {
                lemma_square_index(w, h, i - r * w, r);
            }
        }
        lemma_count_concat(marks.take(r * w), row);
        lemma_row_prefix(lattice, r, w);
        let a = r / 2;
        assert(count_true(row) == row_owned(lw, lh, r, w));
        if r % 2 == 1 {
            assert(y / 2 == a + 1 && (y - 1) / 2 == a && (r - 1) / 2 == a && y <= 2 * lh);
            assert(count_true(row) == 2 * lw - 1);
            assert((a + 1) * (2 * lw - 1) == a * (2 * lw - 1) + (2 * lw - 1)) by (nonlinear_arith);
        } else if 2 <= r <= 2 * lh - 2 {
            assert(y / 2 == a && (y - 1) / 2 == a && (r - 1) / 2 == a - 1 && y <= 2 * lh);
            assert(count_true(row) == lw);
            assert(a * lw == (a - 1) * lw + lw) by (nonlinear_arith);
        } else if r == 0 {
            assert(count_true(row) == 0);
            assert(y / 2 == 0 && (y - 1) / 2 == 0);
            assert(0 * (2 * lw - 1) == 0 && 0 * lw == 0) by (nonlinear_arith);
        } else {
            assert(r == 2 * lh);
            assert(count_true(row) == 0);
            assert(y / 2 == lh && r / 2 == lh && (r - 1) / 2 == lh - 1);
        }
        assert(rows_owned(lw, lh, y) == rows_owned(lw, lh, r) + count_true(row));
        assert(count_true(marks.take(y * w)) == count_true(marks.take(r * w)) + count_true(row));
    }
}

/// Walling in an open square of a grid of walls and floors takes one off
/// the count, and leaves every other square as it was.
proof fn lemma_shut_count(cells: Seq<Cell>, w: int, h: int, step: Step)
    requires
        cells.len() == w * h,
        plain(cells),
        step.x < w,
        step.y < h,
        step.cell == Cell::Wall,
        open_in(cells, w, h, (step.x, step.y)),
    ensures
        walkable_count(after_step(cells, w, step)) + 1 == walkable_count(cells),
        forall|s: (usize, usize)|
            s != (step.x, step.y) ==> (#[trigger] open_in(after_step(cells, w, step), w, h, s) == open_in(cells, w, h, s)),
{
    let i = square_index(w, step.x as int, step.y as int);
    lemma_square_index(w, h, step.x as int, step.y as int);
    let after = after_step(cells, w, step);
    assert(cells[i] == Cell::Floor);
    assert(after == cells.update(i, Cell::Wall));
    assert forall|s: (usize, usize)| s != (step.x, step.y) implies (#[trigger] open_in(after, w, h, s) == open_in(
        cells,
        w,
        h,
        s,
    )) by {
        if s.0 < w && s.1 < h {
            lemma_square_index(w, h, s.0 as int, s.1 as int);
            if square_index(w, s.0 as int, s.1 as int) == i {
                crate::maze::grid::lemma_square_index_injective(w, s.0 as int, s.1 as int, step.x as int, step.y as int);
            }
        }
    }
    let m = cells.map_values(|c: Cell| c != Cell::Wall);
    let cleared = m.update(i, false);
    assert(after.map_values(|c: Cell| c != Cell::Wall) =~= cleared);
    super::lemma_count_set(cleared, i);
    assert(cleared.update(i, true) =~= m);
}

/// Closing the wall between rows `wy` and `wy + 1` of chamber `c`, the
/// first `k` crossings done: the count is down by one for each crossing
/// closed, all but the gap at column `gx`, and the crossings still to do
/// stand open.
#[verifier::opaque]
spec fn closing_south(cells: Seq<Cell>, w: int, h: int, c: Chamber, wy: int, gx: int, k: int, count0: int) -> bool {
    &&& walkable_count(cells) + k == count0 + (if gx < c.x + k {
        1int
    } else {
        0int
    })
    &&& forall|x2: int| c.x + k <= x2 < c.x + c.width ==> #[trigger] open_in(cells, w, h, south_wall(x2, wy))
}

/// The same, for the wall between columns `wx` and `wx + 1`, with the gap
/// at row `gy`.
#[verifier::opaque]
spec fn closing_east(cells: Seq<Cell>, w: int, h: int, c: Chamber, wx: int, gy: int, k: int, count0: int) -> bool {
    &&& walkable_count(cells) + k == count0 + (if gy < c.y + k {
        1int
    } else {
        0int
    })
    &&& forall|y2: int| c.y + k <= y2 < c.y + c.height ==> #[trigger] open_in(cells, w, h, east_wall(wx, y2))
}

proof fn lemma_closing_south_start(cells: Seq<Cell>, w: int, h: int, c: Chamber, wy: int, gx: int)
    requires
        chamber_open(cells, w, h, c),
        c.y <= wy,
        wy + 1 < c.y + c.height,
        c.x <= gx,
    ensures
        closing_south(cells, w, h, c, wy, gx, 0, walkable_count(cells) as int),
{
    reveal(closing_south);
}

proof fn lemma_closing_east_start(cells: Seq<Cell>, w: int, h: int, c: Chamber, wx: int, gy: int)
    requires
        chamber_open(cells, w, h, c),
        c.x <= wx,
        wx + 1 < c.x + c.width,
        c.y <= gy,
    ensures
        closing_east(cells, w, h, c, wx, gy, 0, walkable_count(cells) as int),
{
    reveal(closing_east);
}

/// The gap is passed over: nothing closes.
proof fn lemma_closing_south_gap(cells: Seq<Cell>, w: int, h: int, c: Chamber, wy: int, gx: int, k: int, count0: int)
    requires
        closing_south(cells, w, h, c, wy, gx, k, count0),
        gx == c.x + k,
    ensures
        closing_south(cells, w, h, c, wy, gx, k + 1, count0),
{
    reveal(closing_south);
}

proof fn lemma_closing_east_gap(cells: Seq<Cell>, w: int, h: int, c: Chamber, wx: int, gy: int, k: int, count0: int)
    requires
        closing_east(cells, w, h, c, wx, gy, k, count0),
        gy == c.y + k,
    ensures
        closing_east(cells, w, h, c, wx, gy, k + 1, count0),
{
    reveal(closing_east);
}

/// A crossing that is not the gap closes: one square fewer.
proof fn lemma_closing_south_shut(
    lattice: Lattice,
    cells: Seq<Cell>,
    c: Chamber,
    wy: int,
    gx: int,
    k: int,
    count0: int,
    shut: Step,
)
    requires
        lattice.wf(),
        inside(&lattice, c),
        frame_ok(lattice, cells, drawn_width(lattice), drawn_height(lattice)),
        closing_south(cells, drawn_width(lattice), drawn_height(lattice), c, wy, gx, k, count0),
        0 <= k < c.width,
        c.y <= wy < c.y + c.height,
        gx != c.x + k,
        shut.x == south_wall(c.x + k, wy).0,
        shut.y == south_wall(c.x + k, wy).1,
        shut.cell == Cell::Wall,
    ensures
        closing_south(
            after_step(cells, drawn_width(lattice), shut),
            drawn_width(lattice),
            drawn_height(lattice),
            c,
            wy,
            gx,
            k + 1,
            count0,
        ),
{
    reveal(closing_south);
    lattice.lemma_fits();
    let w = drawn_width(lattice);
    let h = drawn_height(lattice);
    assert(open_in(cells, w, h, south_wall(c.x + k, wy)));
    lemma_shut_count(cells, w, h, shut);
    assert forall|x2: int| c.x + k + 1 <= x2 < c.x + c.width implies #[trigger] open_in(
        after_step(cells, w, shut),
        w,
        h,
        south_wall(x2, wy),
    ) by {
        assert(open_in(cells, w, h, south_wall(x2, wy)));
    }
}

proof fn lemma_closing_east_shut(
    lattice: Lattice,
    cells: Seq<Cell>,
    c: Chamber,
    wx: int,
    gy: int,
    k: int,
    count0: int,
    shut: Step,
)
    requires
        lattice.wf(),
        inside(&lattice, c),
        frame_ok(lattice, cells, drawn_width(lattice), drawn_height(lattice)),
        closing_east(cells, drawn_width(lattice), drawn_height(lattice), c, wx, gy, k, count0),
        0 <= k < c.height,
        c.x <= wx < c.x + c.width,
        gy != c.y + k,
        shut.x == east_wall(wx, c.y + k).0,
        shut.y == east_wall(wx, c.y + k).1,
        shut.cell == Cell::Wall,
    ensures
        closing_east(
            after_step(cells, drawn_width(lattice), shut),
            drawn_width(lattice),
            drawn_height(lattice),
            c,
            wx,
            gy,
            k + 1,
            count0,
        ),
{
    reveal(closing_east);
    lattice.lemma_fits();
    let w = drawn_width(lattice);
    let h = drawn_height(lattice);
    assert(open_in(cells, w, h, east_wall(wx, c.y + k)));
    lemma_shut_count(cells, w, h, shut);
    assert forall|y2: int| c.y + k + 1 <= y2 < c.y + c.height implies #[trigger] open_in(
        after_step(cells, w, shut),
        w,
        h,
        east_wall(wx, y2),
    ) by {
        assert(open_in(cells, w, h, east_wall(wx, y2)));
    }
}

/// Once every crossing is done, all but the gap are closed.
proof fn lemma_closing_south_end(cells: Seq<Cell>, w: int, h: int, c: Chamber, wy: int, gx: int, count0: int)
    requires
        closing_south(cells, w, h, c, wy, gx, c.width as int, count0),
        gx < c.x + c.width,
    ensures
        walkable_count(cells) + (c.width - 1) == count0,
{
    reveal(closing_south);
}

proof fn lemma_closing_east_end(cells: Seq<Cell>, w: int, h: int, c: Chamber, wx: int, gy: int, count0: int)
    requires
        closing_east(cells, w, h, c, wx, gy, c.height as int, count0),
        gy < c.y + c.height,
    ensures
        walkable_count(cells) + (c.height - 1) == count0,
{
    reveal(closing_east);
}

/// The empty field of the open lattice has each corridor's square open,
/// and the wall between every two adjacent corridors: 3wh - w - h squares,
/// that is a tree's 2wh - 1 and (w - 1)(h - 1) more.
proof fn lemma_field_count(lattice: Lattice)
    requires
        is_open_lattice(lattice, lattice.spec_width(), lattice.spec_height()),
        lattice.spec_width() >= 1,
        lattice.spec_height() >= 1,
    ensures
        walkable_count(field(lattice)) == 2 * (lattice.spec_width() * lattice.spec_height()) - 1 + (
        lattice.spec_width() - 1) * (lattice.spec_height() - 1),
{
    let w = drawn_width(lattice);
    let h = drawn_height(lattice);
    let lw = lattice.spec_width();
    let lh = lattice.spec_height();
    let marks = owned_marks(lattice);
    lemma_rows_prefix(lattice, h);
    assert(h * w == w * h) by (nonlinear_arith);
    assert(marks.take(h * w) =~= marks);
    assert(field(lattice).map_values(|c: Cell| c != Cell::Wall) =~= marks);
    assert(lh * (2 * lw - 1) + (lh - 1) * lw == 2 * (lw * lh) - 1 + (lw - 1) * (lh - 1)) by (nonlinear_arith);
}

/// The empty field of the open lattice keeps its frame, is open inside as
/// one chamber, and hangs together from square (1, 1).
#[verifier::rlimit(60)]
#[verifier::spinoff_prover]
proof fn lemma_field_start(lattice: Lattice)
    requires
        is_open_lattice(lattice, lattice.spec_width(), lattice.spec_height()),
    ensures
        frame_ok(lattice, field(lattice), drawn_width(lattice), drawn_height(lattice)),
        chamber_open(
            field(lattice),
            drawn_width(lattice),
            drawn_height(lattice),
            Chamber { x: 0, y: 0, width: lattice.spec_width() as usize, height: lattice.spec_height() as usize },
        ),
        all_joined(field(lattice), drawn_width(lattice), drawn_height(lattice), (1, 1)),
{
    let w = drawn_width(lattice);
    let h = drawn_height(lattice);
    let lw = lattice.spec_width();
    let lh = lattice.spec_height();
    let cells = field(lattice);
    let whole = Chamber { x: 0, y: 0, width: lw as usize, height: lh as usize };
    lattice.lemma_fits();
    assert(0 <= w * h) by (nonlinear_arith)
        requires
            0 <= w,
            0 <= h,
    ;
    assert forall|p: (usize, usize)| p.0 % 2 == 0 && p.1 % 2 == 0 implies !#[trigger] open_in(cells, w, h, p) by {
        if p.0 < w && p.1 < h {
            lemma_square_index(w, h, p.0 as int, p.1 as int);
        }
    }
    assert forall|x: int, y: int| #[trigger] lattice.is_open(x, y) implies open_in(cells, w, h, corridor_square((x as usize, y as usize))) by {
        let s = corridor_square((x as usize, y as usize));
        lemma_square_index(w, h, s.0 as int, s.1 as int);
    }
    assert forall|x: int, y: int|
        whole.x <= x && x + 1 < whole.x + whole.width && whole.y <= y < whole.y + whole.height implies #[trigger] open_in(
        cells,
        w,
        h,
        east_wall(x, y),
    ) by {
        let s = east_wall(x, y);
        lemma_square_index(w, h, s.0 as int, s.1 as int);
        lemma_square_index(lw, lh, x, y);
        lemma_square_index(lw, lh, x + 1, y);
    }
    assert forall|x: int, y: int|
        whole.x <= x < whole.x + whole.width && whole.y <= y && y + 1 < whole.y + whole.height implies #[trigger] open_in(
        cells,
        w,
        h,
        south_wall(x, y),
    ) by {
        let s = south_wall(x, y);
        lemma_square_index(w, h, s.0 as int, s.1 as int);
        lemma_square_index(lw, lh, x, y);
        lemma_square_index(lw, lh, x, y + 1);
    }
    assert(frame_ok(lattice, cells, w, h));
    assert(inside(&lattice, whole));
    assert forall|r: (usize, usize)| #[trigger] open_in(cells, w, h, r) implies joins(cells, w, h, (1, 1), r) by {
        lemma_square_index(w, h, r.0 as int, r.1 as int);
        let i = square_index(w, r.0 as int, r.1 as int);
        assert(lattice.owns_square(r.0 as int, r.1 as int));
        let x = r.0 as int;
        let y = r.1 as int;
        let (cx, cy) = if x % 2 == 1 && y % 2 == 1 {
            ((x - 1) / 2, (y - 1) / 2)
        } else if x % 2 == 0 {
            (x / 2 - 1, (y - 1) / 2)
        } else {
            ((x - 1) / 2, y / 2 - 1)
        };
        lemma_square_index(lw, lh, cx, cy);
        lemma_square_index(lw, lh, 0, 0);
        lemma_chamber_joins(lattice, cells, whole, 0, 0, cx, cy);
        let s = corridor_square((cx as usize, cy as usize));
        if r != s {
            lemma_joins_step(cells, w, h, (1, 1), s, r);
        }
    }
}

/// The two open squares on either side of a wall square, when they are
/// joined to each other, are all the bypass it needs.
proof fn lemma_bypass(
    lattice: Lattice,
    cells: Seq<Cell>,
    m: (usize, usize),
    u: (usize, usize),
    v: (usize, usize),
)
    requires
        frame_ok(lattice, cells, drawn_width(lattice), drawn_height(lattice)),
        open_in(cells, drawn_width(lattice), drawn_height(lattice), u),
        open_in(cells, drawn_width(lattice), drawn_height(lattice), v),
        joins(cells, drawn_width(lattice), drawn_height(lattice), u, v),
        (m.0 % 2 == 1 && m.1 % 2 == 0 && u == (m.0, (m.1 - 1) as usize) && v == (m.0, (m.1 + 1) as usize)) || (m.0 % 2
            == 0 && m.1 % 2 == 1 && u == ((m.0 - 1) as usize, m.1) && v == ((m.0 + 1) as usize, m.1)),
    ensures
        forall|p: (usize, usize), q: (usize, usize)|
            open_in(cells, drawn_width(lattice), drawn_height(lattice), p) && open_in(
                cells,
                drawn_width(lattice),
                drawn_height(lattice),
                q,
            ) && #[trigger] adjacent(p, m) && #[trigger] adjacent(q, m) ==> joins(
                cells,
                drawn_width(lattice),
                drawn_height(lattice),
                p,
                q,
            ),
{
    let w = drawn_width(lattice);
    let h = drawn_height(lattice);
    lemma_joins_back(cells, w, h, u, v);
    assert forall|p: (usize, usize), q: (usize, usize)|
        open_in(cells, w, h, p) && open_in(cells, w, h, q) && #[trigger] adjacent(p, m) && #[trigger] adjacent(q, m)
            implies joins(cells, w, h, p, q) by {
        assert(p == u || p == v) by {
            if p != u && p != v {
                assert(p.0 % 2 == 0 && p.1 % 2 == 0);
            }
        }
        assert(q == u || q == v) by {
            if q != u && q != v {
                assert(q.0 % 2 == 0 && q.1 % 2 == 0);
            }
        }
        if p == q {
            lemma_joins_self(cells, w, h, p);
        }
    }
}

/// A wall square between two corridors: one coordinate odd, the other even.
spec fn between_squares(m: (usize, usize)) -> bool {
    (m.0 % 2 == 1 && m.1 % 2 == 0) || (m.0 % 2 == 0 && m.1 % 2 == 1)
}

/// Walling in a square between two corridors keeps the frame, and changes
/// no other square.
proof fn lemma_close_frame(lattice: Lattice, before: Seq<Cell>, m: (usize, usize))
    requires
        lattice.wf(),
        frame_ok(lattice, before, drawn_width(lattice), drawn_height(lattice)),
        m.0 < drawn_width(lattice),
        m.1 < drawn_height(lattice),
        between_squares(m),
    ensures
        ({
            let w = drawn_width(lattice);
            let h = drawn_height(lattice);
            let after = after_step(before, w, Step { x: m.0, y: m.1, cell: Cell::Wall });
            &&& frame_ok(lattice, after, w, h)
            &&& after == before.update(square_index(w, m.0 as int, m.1 as int), Cell::Wall)
            &&& forall|r: (usize, usize)| r != m ==> (#[trigger] open_in(after, w, h, r) == open_in(before, w, h, r))
        }),
{
    let w = drawn_width(lattice);
    let h = drawn_height(lattice);
    lattice.lemma_fits();
    let im = square_index(w, m.0 as int, m.1 as int);
    lemma_square_index(w, h, m.0 as int, m.1 as int);
    assert(before[im] == Cell::Wall || before[im] == Cell::Floor);
    let after = after_step(before, w, Step { x: m.0, y: m.1, cell: Cell::Wall });
    assert(after == before.update(im, Cell::Wall));
    assert forall|r: (usize, usize)| r != m implies (#[trigger] open_in(after, w, h, r) == open_in(before, w, h, r)) by {
        if r.0 < w && r.1 < h {
            lemma_square_index(w, h, r.0 as int, r.1 as int);
            crate::maze::walks::lemma_other_square(w, h, r, m);
        }
    }
    assert forall|i: int| 0 <= i < after.len() implies #[trigger] after[i] == Cell::Wall || after[i] == Cell::Floor by {
        if i != im {
            assert(after[i] == before[i]);
        }
    }
}

/// A chamber none of whose walls is `m` stays open inside when `m` closes.
proof fn lemma_close_keeps(before: Seq<Cell>, after: Seq<Cell>, w: int, h: int, d: Chamber, m: (usize, usize))
    requires
        chamber_open(before, w, h, d),
        forall|r: (usize, usize)| r != m ==> (#[trigger] open_in(after, w, h, r) == open_in(before, w, h, r)),
        forall|x2: int, y2: int|
            d.x <= x2 && x2 + 1 < d.x + d.width && d.y <= y2 && y2 < d.y + d.height ==> #[trigger] east_wall(x2, y2)
                != m,
        forall|x2: int, y2: int|
            d.x <= x2 && x2 < d.x + d.width && d.y <= y2 && y2 + 1 < d.y + d.height ==> #[trigger] south_wall(x2, y2)
                != m,
    ensures
        chamber_open(after, w, h, d),
{
    assert forall|x2: int, y2: int|
        d.x <= x2 && x2 + 1 < d.x + d.width && d.y <= y2 && y2 < d.y + d.height implies #[trigger] open_in(
        after,
        w,
        h,
        east_wall(x2, y2),
    ) by {
        assert(east_wall(x2, y2) != m);
    }
    assert forall|x2: int, y2: int|
        d.x <= x2 && x2 < d.x + d.width && d.y <= y2 && y2 + 1 < d.y + d.height implies #[trigger] open_in(
        after,
        w,
        h,
        south_wall(x2, y2),
    ) by {
        assert(south_wall(x2, y2) != m);
    }
}

/// The wall below corridor (x, wy) is no wall of a chamber that does not
/// hold both corridors on its sides.
proof fn lemma_south_differs(lattice: Lattice, d: Chamber, x: int, wy: int)
    requires
        lattice.wf(),
        inside(&lattice, d),
        0 <= x < lattice.spec_width(),
        0 <= wy,
        wy + 1 < lattice.spec_height(),
        !(holds(d, x, wy) && holds(d, x, wy + 1)),
    ensures
        forall|x2: int, y2: int|
            d.x <= x2 && x2 + 1 < d.x + d.width && d.y <= y2 && y2 < d.y + d.height ==> #[trigger] east_wall(x2, y2)
                != south_wall(x, wy),
        forall|x2: int, y2: int|
            d.x <= x2 && x2 < d.x + d.width && d.y <= y2 && y2 + 1 < d.y + d.height ==> #[trigger] south_wall(x2, y2)
                != south_wall(x, wy),
{
    lattice.lemma_fits();
}

/// The wall right of corridor (wx, y) is no wall of a chamber that does
/// not hold both corridors on its sides.
proof fn lemma_east_differs(lattice: Lattice, d: Chamber, wx: int, y: int)
    requires
        lattice.wf(),
        inside(&lattice, d),
        0 <= wx,
        wx + 1 < lattice.spec_width(),
        0 <= y < lattice.spec_height(),
        !(holds(d, wx, y) && holds(d, wx + 1, y)),
    ensures
        forall|x2: int, y2: int|
            d.x <= x2 && x2 + 1 < d.x + d.width && d.y <= y2 && y2 < d.y + d.height ==> #[trigger] east_wall(x2, y2)
                != east_wall(wx, y),
        forall|x2: int, y2: int|
            d.x <= x2 && x2 < d.x + d.width && d.y <= y2 && y2 + 1 < d.y + d.height ==> #[trigger] south_wall(x2, y2)
                != east_wall(wx, y),
{
    lattice.lemma_fits();
}

/// Through the gap at column gx, the corridors on both sides of the wall
/// below (x, wy) stay joined.
proof fn lemma_south_bypass(lattice: Lattice, cells: Seq<Cell>, a: Chamber, b: Chamber, x: int, wy: int, gx: int)
    requires
        is_open_lattice(lattice, lattice.spec_width(), lattice.spec_height()),
        frame_ok(lattice, cells, drawn_width(lattice), drawn_height(lattice)),
        inside(&lattice, a),
        inside(&lattice, b),
        a.x == b.x,
        a.width == b.width,
        a.y + a.height == wy + 1,
        b.y == wy + 1,
        b.height >= 1,
        holds(a, x, wy),
        holds(a, gx, wy),
        chamber_open(cells, drawn_width(lattice), drawn_height(lattice), a),
        chamber_open(cells, drawn_width(lattice), drawn_height(lattice), b),
        open_in(cells, drawn_width(lattice), drawn_height(lattice), south_wall(gx, wy)),
    ensures
        open_in(cells, drawn_width(lattice), drawn_height(lattice), corridor_square((x as usize, wy as usize))),
        open_in(cells, drawn_width(lattice), drawn_height(lattice), corridor_square((x as usize, (wy + 1) as usize))),
        joins(
            cells,
            drawn_width(lattice),
            drawn_height(lattice),
            corridor_square((x as usize, wy as usize)),
            corridor_square((x as usize, (wy + 1) as usize)),
        ),
{
    let w = drawn_width(lattice);
    let h = drawn_height(lattice);
    let lw = lattice.spec_width();
    let lh = lattice.spec_height();
    lattice.lemma_fits();
    let u = corridor_square((x as usize, wy as usize));
    let v = corridor_square((x as usize, (wy + 1) as usize));
    lemma_square_index(lw, lh, x, wy);
    lemma_square_index(lw, lh, x, wy + 1);
    lemma_square_index(lw, lh, gx, wy + 1);
    assert(lattice.is_open(x, wy) && lattice.is_open(x, wy + 1) && lattice.is_open(gx, wy + 1));
    lemma_chamber_joins(lattice, cells, a, x, wy, gx, wy);
    lemma_chamber_joins(lattice, cells, b, gx, wy + 1, x, wy + 1);
    let g = south_wall(gx, wy);
    let gu = corridor_square((gx as usize, wy as usize));
    let gv = corridor_square((gx as usize, (wy + 1) as usize));
    lemma_joins_step(cells, w, h, u, gu, g);
    lemma_joins_step(cells, w, h, u, g, gv);
    lemma_joins_chain(cells, w, h, u, gv, v);
}

/// Through the gap at row gy, the corridors on both sides of the wall right
/// of (wx, y) stay joined.
proof fn lemma_east_bypass(lattice: Lattice, cells: Seq<Cell>, a: Chamber, b: Chamber, wx: int, y: int, gy: int)
    requires
        is_open_lattice(lattice, lattice.spec_width(), lattice.spec_height()),
        frame_ok(lattice, cells, drawn_width(lattice), drawn_height(lattice)),
        inside(&lattice, a),
        inside(&lattice, b),
        a.y == b.y,
        a.height == b.height,
        a.x + a.width == wx + 1,
        b.x == wx + 1,
        b.width >= 1,
        holds(a, wx, y),
        holds(a, wx, gy),
        chamber_open(cells, drawn_width(lattice), drawn_height(lattice), a),
        chamber_open(cells, drawn_width(lattice), drawn_height(lattice), b),
        open_in(cells, drawn_width(lattice), drawn_height(lattice), east_wall(wx, gy)),
    ensures
        open_in(cells, drawn_width(lattice), drawn_height(lattice), corridor_square((wx as usize, y as usize))),
        open_in(cells, drawn_width(lattice), drawn_height(lattice), corridor_square(((wx + 1) as usize, y as usize))),
        joins(
            cells,
            drawn_width(lattice),
            drawn_height(lattice),
            corridor_square((wx as usize, y as usize)),
            corridor_square(((wx + 1) as usize, y as usize)),
        ),
{
    let w = drawn_width(lattice);
    let h = drawn_height(lattice);
    let lw = lattice.spec_width();
    let lh = lattice.spec_height();
    lattice.lemma_fits();
    let u = corridor_square((wx as usize, y as usize));
    let v = corridor_square(((wx + 1) as usize, y as usize));
    lemma_square_index(lw, lh, wx, y);
    lemma_square_index(lw, lh, wx + 1, y);
    lemma_square_index(lw, lh, wx + 1, gy);
    assert(lattice.is_open(wx, y) && lattice.is_open(wx + 1, y) && lattice.is_open(wx + 1, gy));
    lemma_chamber_joins(lattice, cells, a, wx, y, wx, gy);
    lemma_chamber_joins(lattice, cells, b, wx + 1, gy, wx + 1, y);
    let g = east_wall(wx, gy);
    let gu = corridor_square((wx as usize, gy as usize));
    let gv = corridor_square(((wx + 1) as usize, gy as usize));
    lemma_joins_step(cells, w, h, u, gu, g);
    lemma_joins_step(cells, w, h, u, g, gv);
    lemma_joins_chain(cells, w, h, u, gv, v);
}

/// Closing the wall below (south) or right of (east) corridor (x, y), which
/// chamber `a` holds, leaves every chamber apart from `a` open inside.
proof fn lemma_close_rest(
    lattice: Lattice,
    before: Seq<Cell>,
    after: Seq<Cell>,
    a: Chamber,
    rest: Seq<Chamber>,
    m: (usize, usize),
    x: int,
    y: int,
    south: bool,
)
    requires
        lattice.wf(),
        holds(a, x, y),
        south ==> m == south_wall(x, y) && y + 1 < lattice.spec_height() && 0 <= x < lattice.spec_width() && 0 <= y,
        !south ==> m == east_wall(x, y) && x + 1 < lattice.spec_width() && 0 <= y < lattice.spec_height() && 0 <= x,
        chambers_ok(before, drawn_width(lattice), drawn_height(lattice), rest),
        forall|k: int| 0 <= k < rest.len() ==> apart(a, #[trigger] rest[k]),
        forall|k: int| 0 <= k < rest.len() ==> inside(&lattice, #[trigger] rest[k]),
        forall|r: (usize, usize)|
            r != m ==> (#[trigger] open_in(after, drawn_width(lattice), drawn_height(lattice), r) == open_in(
                before,
                drawn_width(lattice),
                drawn_height(lattice),
                r,
            )),
    ensures
        chambers_ok(after, drawn_width(lattice), drawn_height(lattice), rest),
{
    let w = drawn_width(lattice);
    let h = drawn_height(lattice);
    assert forall|k: int| 0 <= k < rest.len() implies chamber_open(after, w, h, #[trigger] rest[k]) by {
        let d = rest[k];
        assert(apart(a, d));
        assert(chamber_open(before, w, h, d));
        if south {
            lemma_south_differs(lattice, d, x, y);
        } else {
            lemma_east_differs(lattice, d, x, y);
        }
        lemma_close_keeps(before, after, w, h, d, m);
    }
}

/// Walling in the square between (x, wy) and (x, wy + 1), while the gap at
/// column gx stays open, keeps the frame, keeps both halves and every other
/// chamber open inside, and keeps everything joined to square (1, 1).
#[verifier::rlimit(50)]
#[verifier::spinoff_prover]
proof fn lemma_close_south(
    lattice: Lattice,
    before: Seq<Cell>,
    a: Chamber,
    b: Chamber,
    rest: Seq<Chamber>,
    x: int,
    wy: int,
    gx: int,
)
    requires
        is_open_lattice(lattice, lattice.spec_width(), lattice.spec_height()),
        frame_ok(lattice, before, drawn_width(lattice), drawn_height(lattice)),
        all_joined(before, drawn_width(lattice), drawn_height(lattice), (1, 1)),
        inside(&lattice, a),
        inside(&lattice, b),
        a.x == b.x,
        a.width == b.width,
        a.y + a.height == wy + 1,
        b.y == wy + 1,
        a.height >= 1,
        b.height >= 1,
        holds(a, x, wy),
        holds(a, gx, wy),
        x != gx,
        chamber_open(before, drawn_width(lattice), drawn_height(lattice), a),
        chamber_open(before, drawn_width(lattice), drawn_height(lattice), b),
        chambers_ok(before, drawn_width(lattice), drawn_height(lattice), rest),
        forall|k: int| 0 <= k < rest.len() ==> apart(a, #[trigger] rest[k]) && apart(b, rest[k]),
        forall|k: int| 0 <= k < rest.len() ==> inside(&lattice, #[trigger] rest[k]),
        open_in(before, drawn_width(lattice), drawn_height(lattice), south_wall(gx, wy)),
    ensures
        ({
            let after = after_step(
                before,
                drawn_width(lattice),
                Step { x: south_wall(x, wy).0, y: south_wall(x, wy).1, cell: Cell::Wall },
            );
            &&& frame_ok(lattice, after, drawn_width(lattice), drawn_height(lattice))
            &&& all_joined(after, drawn_width(lattice), drawn_height(lattice), (1, 1))
            &&& chamber_open(after, drawn_width(lattice), drawn_height(lattice), a)
            &&& chamber_open(after, drawn_width(lattice), drawn_height(lattice), b)
            &&& chambers_ok(after, drawn_width(lattice), drawn_height(lattice), rest)
            &&& open_in(after, drawn_width(lattice), drawn_height(lattice), south_wall(gx, wy))
        }),
{
    let w = drawn_width(lattice);
    let h = drawn_height(lattice);
    let lw = lattice.spec_width();
    let lh = lattice.spec_height();
    lattice.lemma_fits();
    let m = south_wall(x, wy);
    lemma_close_frame(lattice, before, m);
    let after = after_step(before, w, Step { x: m.0, y: m.1, cell: Cell::Wall });
    lemma_south_differs(lattice, a, x, wy);
    lemma_close_keeps(before, after, w, h, a, m);
    lemma_south_differs(lattice, b, x, wy);
    lemma_close_keeps(before, after, w, h, b, m);
    lemma_close_rest(lattice, before, after, a, rest, m, x, wy, true);
    assert(open_in(after, w, h, south_wall(gx, wy)));
    let u = corridor_square((x as usize, wy as usize));
    let v = corridor_square((x as usize, (wy + 1) as usize));
    lemma_south_bypass(lattice, after, a, b, x, wy, gx);
    lemma_bypass(lattice, after, m, u, v);
    assert(open_in(after, w, h, (1, 1))) by {
        lemma_square_index(lw, lh, 0, 0);
        assert(lattice.is_open(0, 0));
        assert(corridor_square((0usize, 0usize)) == (1usize, 1usize));
    }
    lemma_close_square(before, after, w, h, (1, 1), m);
}

/// Walling in the square between (wx, y) and (wx + 1, y), while the gap at
/// row gy stays open, keeps the frame, keeps both halves and every other
/// chamber open inside, and keeps everything joined to square (1, 1).
#[verifier::rlimit(50)]
#[verifier::spinoff_prover]
proof fn lemma_close_east(
    lattice: Lattice,
    before: Seq<Cell>,
    a: Chamber,
    b: Chamber,
    rest: Seq<Chamber>,
    wx: int,
    y: int,
    gy: int,
)
    requires
        is_open_lattice(lattice, lattice.spec_width(), lattice.spec_height()),
        frame_ok(lattice, before, drawn_width(lattice), drawn_height(lattice)),
        all_joined(before, drawn_width(lattice), drawn_height(lattice), (1, 1)),
        inside(&lattice, a),
        inside(&lattice, b),
        a.y == b.y,
        a.height == b.height,
        a.x + a.width == wx + 1,
        b.x == wx + 1,
        a.width >= 1,
        b.width >= 1,
        holds(a, wx, y),
        holds(a, wx, gy),
        y != gy,
        chamber_open(before, drawn_width(lattice), drawn_height(lattice), a),
        chamber_open(before, drawn_width(lattice), drawn_height(lattice), b),
        chambers_ok(before, drawn_width(lattice), drawn_height(lattice), rest),
        forall|k: int| 0 <= k < rest.len() ==> apart(a, #[trigger] rest[k]) && apart(b, rest[k]),
        forall|k: int| 0 <= k < rest.len() ==> inside(&lattice, #[trigger] rest[k]),
        open_in(before, drawn_width(lattice), drawn_height(lattice), east_wall(wx, gy)),
    ensures
        ({
            let after = after_step(
                before,
                drawn_width(lattice),
                Step { x: east_wall(wx, y).0, y: east_wall(wx, y).1, cell: Cell::Wall },
            );
            &&& frame_ok(lattice, after, drawn_width(lattice), drawn_height(lattice))
            &&& all_joined(after, drawn_width(lattice), drawn_height(lattice), (1, 1))
            &&& chamber_open(after, drawn_width(lattice), drawn_height(lattice), a)
            &&& chamber_open(after, drawn_width(lattice), drawn_height(lattice), b)
            &&& chambers_ok(after, drawn_width(lattice), drawn_height(lattice), rest)
            &&& open_in(after, drawn_width(lattice), drawn_height(lattice), east_wall(wx, gy))
        }),
{
    let w = drawn_width(lattice);
    let h = drawn_height(lattice);
    let lw = lattice.spec_width();
    let lh = lattice.spec_height();
    lattice.lemma_fits();
    let m = east_wall(wx, y);
    lemma_close_frame(lattice, before, m);
    let after = after_step(before, w, Step { x: m.0, y: m.1, cell: Cell::Wall });
    lemma_east_differs(lattice, a, wx, y);
    lemma_close_keeps(before, after, w, h, a, m);
    lemma_east_differs(lattice, b, wx, y);
    lemma_close_keeps(before, after, w, h, b, m);
    lemma_close_rest(lattice, before, after, a, rest, m, wx, y, false);
    assert(open_in(after, w, h, east_wall(wx, gy)));
    let u = corridor_square((wx as usize, y as usize));
    let v = corridor_square(((wx + 1) as usize, y as usize));
    lemma_east_bypass(lattice, after, a, b, wx, y, gy);
    lemma_bypass(lattice, after, m, u, v);
    assert(open_in(after, w, h, (1, 1))) by {
        lemma_square_index(lw, lh, 0, 0);
        assert(lattice.is_open(0, 0));
        assert(corridor_square((0usize, 0usize)) == (1usize, 1usize));
    }
    lemma_close_square(before, after, w, h, (1, 1), m);
}

/// Chamber `a` lies within chamber `c`.
spec fn within(a: Chamber, c: Chamber) -> bool {
    c.x <= a.x && a.x + a.width <= c.x + c.width && c.y <= a.y && a.y + a.height <= c.y + c.height
}

/// Taking the last chamber off the list leaves the others as they were,
/// and the taken one open inside and apart from them.
proof fn lemma_chambers_pop(cells: Seq<Cell>, w: int, h: int, rest: Seq<Chamber>, c: Chamber)
    requires
        chambers_ok(cells, w, h, rest.push(c)),
    ensures
        chambers_ok(cells, w, h, rest),
        chamber_open(cells, w, h, c),
        forall|k: int| 0 <= k < rest.len() ==> apart(c, #[trigger] rest[k]),
{
    let all = rest.push(c);
    assert(all[rest.len() as int] == c);
    assert forall|k: int| 0 <= k < rest.len() implies chamber_open(cells, w, h, #[trigger] rest[k]) by {
        assert(all[k] == rest[k]);
    }
    assert forall|i: int, j: int| 0 <= i < j < rest.len() implies apart(#[trigger] rest[i], #[trigger] rest[j]) by {
        assert(all[i] == rest[i] && all[j] == rest[j]);
    }
    assert forall|k: int| 0 <= k < rest.len() implies apart(c, #[trigger] rest[k]) by {
        assert(all[k] == rest[k]);
        assert(apart(all[k], all[rest.len() as int]));
    }
}

/// Putting both halves of a chamber back keeps the list apart and open.
proof fn lemma_chambers_push(cells: Seq<Cell>, w: int, h: int, rest: Seq<Chamber>, c: Chamber, a: Chamber, b: Chamber)
    requires
        chambers_ok(cells, w, h, rest),
        chamber_open(cells, w, h, a),
        chamber_open(cells, w, h, b),
        apart(a, b),
        within(a, c),
        within(b, c),
        forall|k: int| 0 <= k < rest.len() ==> apart(c, #[trigger] rest[k]),
    ensures
        chambers_ok(cells, w, h, rest.push(b).push(a)),
{
    let all = rest.push(b).push(a);
    let n = rest.len() as int;
    assert(all[n] == b && all[n + 1] == a);
    assert forall|k: int| 0 <= k < all.len() implies chamber_open(cells, w, h, #[trigger] all[k]) by {
        if k < n {
            assert(all[k] == rest[k]);
        }
    }
    assert forall|i: int, j: int| 0 <= i < j < all.len() implies apart(#[trigger] all[i], #[trigger] all[j]) by {
        if j < n {
            assert(all[i] == rest[i] && all[j] == rest[j]);
        } else if i < n {
            assert(all[i] == rest[i]);
            assert(apart(c, rest[i]));
        }
    }
}

/// What holds before a chamber is split: the frame is kept, everything is
/// joined to square (1, 1), the chamber is open inside and apart from the
/// rest, which are open inside, apart from each other and inside the lattice.
spec fn split_ready(lattice: Lattice, cells: Seq<Cell>, c: Chamber, rest: Seq<Chamber>) -> bool {
    let w = drawn_width(lattice);
    let h = drawn_height(lattice);
    &&& frame_ok(lattice, cells, w, h)
    &&& all_joined(cells, w, h, (1, 1))
    &&& chamber_open(cells, w, h, c)
    &&& chambers_ok(cells, w, h, rest)
    &&& forall|k: int| 0 <= k < rest.len() ==> apart(c, #[trigger] rest[k]) && inside(&lattice, rest[k])
}

/// What holds once a chamber is split: both halves open inside, and the
/// rest as before.
spec fn split_done(lattice: Lattice, cells: Seq<Cell>, a: Chamber, b: Chamber, rest: Seq<Chamber>) -> bool {
    let w = drawn_width(lattice);
    let h = drawn_height(lattice);
    &&& frame_ok(lattice, cells, w, h)
    &&& all_joined(cells, w, h, (1, 1))
    &&& chamber_open(cells, w, h, a)
    &&& chamber_open(cells, w, h, b)
    &&& chambers_ok(cells, w, h, rest)
}

/// Halfway through closing the wall between rows wy and wy + 1: the halves
/// above and below are open inside, and the gap at column gx is open.
spec fn split_progress_south(
    lattice: Lattice,
    cells: Seq<Cell>,
    a: Chamber,
    b: Chamber,
    rest: Seq<Chamber>,
    wy: int,
    gx: int,
) -> bool {
    let w = drawn_width(lattice);
    let h = drawn_height(lattice);
    &&& split_done(lattice, cells, a, b, rest)
    &&& forall|k: int| 0 <= k < rest.len() ==> apart(a, #[trigger] rest[k]) && apart(b, rest[k]) && inside(&lattice, rest[k])
    &&& open_in(cells, w, h, south_wall(gx, wy))
    &&& inside(&lattice, a)
    &&& inside(&lattice, b)
    &&& a.x == b.x
    &&& a.width == b.width
    &&& a.y + a.height == wy + 1
    &&& b.y == wy + 1
    &&& a.height >= 1
    &&& b.height >= 1
    &&& holds(a, gx, wy)
}

/// Halfway through closing the wall between columns wx and wx + 1: the
/// halves left and right are open inside, and the gap at row gy is open.
spec fn split_progress_east(
    lattice: Lattice,
    cells: Seq<Cell>,
    a: Chamber,
    b: Chamber,
    rest: Seq<Chamber>,
    wx: int,
    gy: int,
) -> bool {
    let w = drawn_width(lattice);
    let h = drawn_height(lattice);
    &&& split_done(lattice, cells, a, b, rest)
    &&& forall|k: int| 0 <= k < rest.len() ==> apart(a, #[trigger] rest[k]) && apart(b, rest[k]) && inside(&lattice, rest[k])
    &&& open_in(cells, w, h, east_wall(wx, gy))
    &&& inside(&lattice, a)
    &&& inside(&lattice, b)
    &&& a.y == b.y
    &&& a.height == b.height
    &&& a.x + a.width == wx + 1
    &&& b.x == wx + 1
    &&& a.width >= 1
    &&& b.width >= 1
    &&& holds(a, wx, gy)
}

/// Before the wall between rows wy and wy + 1 goes up, both halves are
/// open inside and the gap is open.
proof fn lemma_split_start_south(
    lattice: Lattice,
    cells: Seq<Cell>,
    c: Chamber,
    a: Chamber,
    b: Chamber,
    rest: Seq<Chamber>,
    wy: int,
    gx: int,
)
    requires
        split_ready(lattice, cells, c, rest),
        inside(&lattice, c),
        c.y <= wy,
        wy + 1 < c.y + c.height,
        c.x <= gx < c.x + c.width,
        a == (Chamber { x: c.x, y: c.y, width: c.width, height: (wy - c.y + 1) as usize }),
        b == (Chamber { x: c.x, y: (wy + 1) as usize, width: c.width, height: (c.height - (wy - c.y + 1)) as usize }),
    ensures
        split_progress_south(lattice, cells, a, b, rest, wy, gx),
{
    let w = drawn_width(lattice);
    let h = drawn_height(lattice);
    assert(open_in(cells, w, h, south_wall(gx, wy)));
    assert forall|x: int, y: int|
        a.x <= x && x + 1 < a.x + a.width && a.y <= y < a.y + a.height implies #[trigger] open_in(cells, w, h, east_wall(x, y)) by {
        assert(c.y <= y < c.y + c.height);
    }
    assert forall|x: int, y: int|
        a.x <= x < a.x + a.width && a.y <= y && y + 1 < a.y + a.height implies #[trigger] open_in(cells, w, h, south_wall(x, y)) by {
        assert(y + 1 < c.y + c.height);
    }
    assert forall|x: int, y: int|
        b.x <= x && x + 1 < b.x + b.width && b.y <= y < b.y + b.height implies #[trigger] open_in(cells, w, h, east_wall(x, y)) by {
        assert(c.y <= y < c.y + c.height);
    }
    assert forall|x: int, y: int|
        b.x <= x < b.x + b.width && b.y <= y && y + 1 < b.y + b.height implies #[trigger] open_in(cells, w, h, south_wall(x, y)) by {
        assert(c.y <= y);
    }
}

/// Before the wall between columns wx and wx + 1 goes up, both halves are
/// open inside and the gap is open.
proof fn lemma_split_start_east(
    lattice: Lattice,
    cells: Seq<Cell>,
    c: Chamber,
    a: Chamber,
    b: Chamber,
    rest: Seq<Chamber>,
    wx: int,
    gy: int,
)
    requires
        split_ready(lattice, cells, c, rest),
        inside(&lattice, c),
        c.x <= wx,
        wx + 1 < c.x + c.width,
        c.y <= gy < c.y + c.height,
        a == (Chamber { x: c.x, y: c.y, width: (wx - c.x + 1) as usize, height: c.height }),
        b == (Chamber { x: (wx + 1) as usize, y: c.y, width: (c.width - (wx - c.x + 1)) as usize, height: c.height }),
    ensures
        split_progress_east(lattice, cells, a, b, rest, wx, gy),
{
    let w = drawn_width(lattice);
    let h = drawn_height(lattice);
    assert(open_in(cells, w, h, east_wall(wx, gy)));
    assert forall|x: int, y: int|
        a.x <= x && x + 1 < a.x + a.width && a.y <= y < a.y + a.height implies #[trigger] open_in(cells, w, h, east_wall(x, y)) by {
        assert(x + 1 < c.x + c.width);
    }
    assert forall|x: int, y: int|
        a.x <= x < a.x + a.width && a.y <= y && y + 1 < a.y + a.height implies #[trigger] open_in(cells, w, h, south_wall(x, y)) by {
        assert(c.x <= x < c.x + c.width);
    }
    assert forall|x: int, y: int|
        b.x <= x && x + 1 < b.x + b.width && b.y <= y < b.y + b.height implies #[trigger] open_in(cells, w, h, east_wall(x, y)) by {
        assert(c.x <= x);
    }
    assert forall|x: int, y: int|
        b.x <= x < b.x + b.width && b.y <= y && y + 1 < b.y + b.height implies #[trigger] open_in(cells, w, h, south_wall(x, y)) by {
        assert(c.x <= x < c.x + c.width);
    }
}

/// Closing one more stretch of the wall between rows wy and wy + 1 keeps
/// the split going.
proof fn lemma_split_step_south(
    lattice: Lattice,
    cells: Seq<Cell>,
    a: Chamber,
    b: Chamber,
    rest: Seq<Chamber>,
    x: int,
    wy: int,
    gx: int,
)
    requires
        is_open_lattice(lattice, lattice.spec_width(), lattice.spec_height()),
        split_progress_south(lattice, cells, a, b, rest, wy, gx),
        holds(a, x, wy),
        x != gx,
    ensures
        split_progress_south(
            lattice,
            after_step(cells, drawn_width(lattice), Step { x: south_wall(x, wy).0, y: south_wall(x, wy).1, cell: Cell::Wall }),
            a,
            b,
            rest,
            wy,
            gx,
        ),
{
    lemma_close_south(lattice, cells, a, b, rest, x, wy, gx);
}

/// Closing one more stretch of the wall between columns wx and wx + 1
/// keeps the split going.
proof fn lemma_split_step_east(
    lattice: Lattice,
    cells: Seq<Cell>,
    a: Chamber,
    b: Chamber,
    rest: Seq<Chamber>,
    wx: int,
    y: int,
    gy: int,
)
    requires
        is_open_lattice(lattice, lattice.spec_width(), lattice.spec_height()),
        split_progress_east(lattice, cells, a, b, rest, wx, gy),
        holds(a, wx, y),
        y != gy,
    ensures
        split_progress_east(
            lattice,
            after_step(cells, drawn_width(lattice), Step { x: east_wall(wx, y).0, y: east_wall(wx, y).1, cell: Cell::Wall }),
            a,
            b,
            rest,
            wx,
            gy,
        ),
{
    lemma_close_east(lattice, cells, a, b, rest, wx, y, gy);
}

/// What a chamber holds beyond a tree of its corridors: (w - 1)(h - 1)
/// walls that dividing it will close.
spec fn spare(c: Chamber) -> int {
    if c.width >= 1 && c.height >= 1 {
        (c.width - 1) * (c.height - 1)
    } else {
        0
    }
}

/// What the chambers still to divide hold beyond their trees.
spec fn surplus(chambers: Seq<Chamber>) -> int
    decreases chambers.len(),
{
    if chambers.len() == 0 {
        0
    } else {
        surplus(chambers.drop_last()) + spare(chambers.last())
    }
}

proof fn lemma_surplus_push(chambers: Seq<Chamber>, c: Chamber)
    ensures
        surplus(chambers.push(c)) == surplus(chambers) + spare(c),
{
    assert(chambers.push(c).drop_last() =~= chambers);
}

/// A chamber one corridor thin holds nothing beyond its tree.
proof fn lemma_spare_thin(c: Chamber)
    requires
        c.width < 2 || c.height < 2,
    ensures
        spare(c) == 0,
{
    if c.width >= 1 && c.height >= 1 {
        let a = c.width - 1;
        let b = c.height - 1;
        assert(a * b == 0) by (nonlinear_arith)
            requires
                a == 0 || b == 0,
        ;
    }
}

/// Splitting a chamber across its height closes all but one of the walls
/// across it: the halves hold that much less beyond their trees; and the
/// same across its width.
proof fn lemma_surplus_split(rest: Seq<Chamber>, c: Chamber, first: Chamber, second: Chamber)
    requires
        c.width >= 2,
        c.height >= 2,
        (first.width == c.width && second.width == c.width && first.height + second.height == c.height
            && first.height >= 1 && second.height >= 1) || (first.height == c.height && second.height
            == c.height && first.width + second.width == c.width && first.width >= 1 && second.width
            >= 1),
    ensures
        first.width == c.width && second.width == c.width ==> surplus(rest.push(second).push(first)) + (c.width - 1)
            == surplus(rest.push(c)),
        first.height == c.height && second.height == c.height ==> surplus(rest.push(second).push(first)) + (c.height
            - 1) == surplus(rest.push(c)),
{
    lemma_surplus_push(rest, c);
    lemma_surplus_push(rest, second);
    lemma_surplus_push(rest.push(second), first);
    let a = c.width as int;
    let b = c.height as int;
    let fw = first.width as int;
    let fh = first.height as int;
    let sw = second.width as int;
    let sh = second.height as int;
    if fw == a && sw == a && fh + sh == b {
        assert((a - 1) * (fh - 1) + (a - 1) * (sh - 1) + (a - 1) == (a - 1) * (b - 1)) by (nonlinear_arith)
            requires
                fh + sh == b,
        ;
    }
    if fh == b && sh == b && fw + sw == a {
        assert((fw - 1) * (b - 1) + (sw - 1) * (b - 1) + (b - 1) == (a - 1) * (b - 1)) by (nonlinear_arith)
            requires
                fw + sw == a,
        ;
    }
}

/// Recursive division: split the chamber with a wall that keeps a single
/// gap, then split both halves the same way until chambers are one corridor
/// thin. Needs `open_field` applied first. The only algorithm here that
/// builds walls instead of carving passages.
pub fn carve(lattice: &Lattice, rng: &mut StdRng) -> (steps: Vec<Step>)
    requires
        lattice.wf(),
    ensures
        lattice.carves(steps@, |c: Cell| c == Cell::Wall),
        spares_corridors(steps@),
        is_open_lattice(*lattice, lattice.spec_width(), lattice.spec_height()) ==> all_joined(
            after_steps(field(*lattice), 2 * lattice.spec_width() + 1, steps@),
            2 * lattice.spec_width() + 1,
            2 * lattice.spec_height() + 1,
            (1, 1),
        ),
        is_open_lattice(*lattice, lattice.spec_width(), lattice.spec_height()) ==> forall|x: int, y: int|
            #[trigger] lattice.is_open(x, y) ==> open_in(
                after_steps(field(*lattice), 2 * lattice.spec_width() + 1, steps@),
                2 * lattice.spec_width() + 1,
                2 * lattice.spec_height() + 1,
                corridor_square((x as usize, y as usize)),
            ),
        is_open_lattice(*lattice, lattice.spec_width(), lattice.spec_height()) && lattice.spec_width()
            * lattice.spec_height() >= 1 ==> walkable_count(
            after_steps(field(*lattice), 2 * lattice.spec_width() + 1, steps@),
        ) == 2 * (lattice.spec_width() * lattice.spec_height()) - 1,
{
    let ghost open = is_open_lattice(*lattice, lattice.spec_width(), lattice.spec_height());
    let ghost counted = open && lattice.spec_width() * lattice.spec_height() >= 1;
    let ghost tree = 2 * (lattice.spec_width() * lattice.spec_height()) - 1;
    let ghost w = drawn_width(*lattice);
    let ghost h = drawn_height(*lattice);
    let mut steps: Vec<Step> = Vec::new();
    let mut chambers: Vec<Chamber> = Vec::new();
    chambers.push(Chamber { x: 0, y: 0, width: lattice.width(), height: lattice.height() });
    proof {
        reveal(replay);
        assert(after_steps(field(*lattice), w, steps@) == field(*lattice));
        if open {
            lemma_field_start(*lattice);
            assert(chambers@ =~= seq![Chamber { x: 0, y: 0, width: lattice.spec_width() as usize, height: lattice.spec_height() as usize }]);
        }
        if counted {
            let lw = lattice.spec_width();
            let lh = lattice.spec_height();
            assert(lw >= 1 && lh >= 1) by (nonlinear_arith)
                requires
                    lw * lh >= 1,
                    lw >= 0,
                    lh >= 0,
            ;
            lemma_field_count(*lattice);
            lemma_surplus_push(Seq::empty(), chambers@[0]);
            assert(Seq::<Chamber>::empty().push(chambers@[0]) =~= chambers@);
        }
    }

    while chambers.len() > 0
        invariant
            lattice.wf(),
            forall|k: int| 0 <= k < chambers@.len() ==> inside(lattice, #[trigger] chambers@[k]),
            lattice.carves(steps@, |c: Cell| c == Cell::Wall),
            spares_corridors(steps@),
            open == is_open_lattice(*lattice, lattice.spec_width(), lattice.spec_height()),
            w == drawn_width(*lattice),
            h == drawn_height(*lattice),
            open ==> frame_ok(*lattice, replay(field(*lattice), w, steps@), w, h),
            open ==> all_joined(replay(field(*lattice), w, steps@), w, h, (1, 1)),
            open ==> chambers_ok(replay(field(*lattice), w, steps@), w, h, chambers@),
            counted == (open && lattice.spec_width() * lattice.spec_height() >= 1),
            tree == 2 * (lattice.spec_width() * lattice.spec_height()) - 1,
            counted ==> walkable_count(replay(field(*lattice), w, steps@)) == tree + surplus(chambers@),
        decreases weight(chambers@),
    {
        proof {
            lemma_weight_nonneg(chambers@);
        }
        let ghost before = chambers@;
        let chamber = chambers.pop().unwrap();
        let ghost rest = chambers@;
        proof {
            assert(before == chambers@.push(chamber));
            lemma_weight_push(chambers@, chamber);
            lemma_weight_nonneg(chambers@);
            assert(inside(lattice, before[before.len() - 1]));
            assert forall|k: int| 0 <= k < chambers@.len() implies inside(lattice, #[trigger] chambers@[k]) by {
                assert(before[k] == chambers@[k]);
            }
            if open {
                lemma_chambers_pop(replay(field(*lattice), w, steps@), w, h, rest, chamber);
            }
            lemma_surplus_push(rest, chamber);
        }
        if chamber.width < 2 || chamber.height < 2 {
            proof {
                assert(area(chamber) * area(chamber) >= 0) by (nonlinear_arith);
                lemma_spare_thin(chamber);
            }
            continue;
        }
        let horizontal = if chamber.width < chamber.height {
            true
        } else if chamber.width > chamber.height {
            false
        } else {
            random_ratio(rng, 1, 2)
        };
        let ghost steps_before = steps@;
        let (first, second) = if horizontal {
            split_horizontally(lattice, chamber, &mut steps, rng, Ghost(rest))
        } else {
            split_vertically(lattice, chamber, &mut steps, rng, Ghost(rest))
        };
        proof {
            lemma_split_lighter(chambers@, chamber, first, second);
            lemma_surplus_split(rest, chamber, first, second);
            if counted {
                assert(walkable_count(replay(field(*lattice), w, steps_before)) == tree + surplus(rest) + spare(chamber));
                if horizontal {
                    assert(walkable_count(replay(field(*lattice), w, steps@)) + (chamber.width - 1) == walkable_count(
                        replay(field(*lattice), w, steps_before),
                    ));
                } else {
                    assert(walkable_count(replay(field(*lattice), w, steps@)) + (chamber.height - 1) == walkable_count(
                        replay(field(*lattice), w, steps_before),
                    ));
                }
                assert(walkable_count(replay(field(*lattice), w, steps@)) == tree + surplus(chambers@.push(second).push(first)));
            }
            lemma_weight_nonneg(chambers@.push(second).push(first));
            if open {
                lemma_chambers_push(replay(field(*lattice), w, steps@), w, h, rest, chamber, first, second);
            }
        }
        chambers.push(second);
        chambers.push(first);
        proof {
            assert forall|k: int| 0 <= k < chambers@.len() implies inside(lattice, #[trigger] chambers@[k]) by {
                if k < rest.len() {
                    assert(chambers@[k] == rest[k]);
                }
            }
        }
    }
    proof {
        reveal(replay);
    }
    steps
}

/// A wall between rows `wall_y` and `wall_y + 1`, returning the two halves.
#[verifier::rlimit(100)]
#[verifier::spinoff_prover]
fn split_horizontally(
    lattice: &Lattice,
    chamber: Chamber,
    steps: &mut Vec<Step>,
    rng: &mut StdRng,
    Ghost(rest): Ghost<Seq<Chamber>>,
) -> (halves: (Chamber, Chamber))
    requires
        lattice.wf(),
        inside(lattice, chamber),
        chamber.width >= 2,
        chamber.height >= 2,
        lattice.carves(old(steps)@, |c: Cell| c == Cell::Wall),
        spares_corridors(old(steps)@),
        is_open_lattice(*lattice, lattice.spec_width(), lattice.spec_height()) ==> split_ready(
            *lattice,
            replay(field(*lattice), drawn_width(*lattice), old(steps)@),
            chamber,
            rest,
        ),
    ensures
        lattice.carves(final(steps)@, |c: Cell| c == Cell::Wall),
        spares_corridors(final(steps)@),
        inside(lattice, halves.0),
        inside(lattice, halves.1),
        halves.0.width == chamber.width,
        halves.1.width == chamber.width,
        halves.0.height + halves.1.height == chamber.height,
        halves.0.height >= 1,
        halves.1.height >= 1,
        within(halves.0, chamber),
        within(halves.1, chamber),
        apart(halves.0, halves.1),
        is_open_lattice(*lattice, lattice.spec_width(), lattice.spec_height()) ==> split_done(
            *lattice,
            replay(field(*lattice), drawn_width(*lattice), final(steps)@),
            halves.0,
            halves.1,
            rest,
        ),
        is_open_lattice(*lattice, lattice.spec_width(), lattice.spec_height()) ==> walkable_count(
            replay(field(*lattice), drawn_width(*lattice), final(steps)@),
        ) + (chamber.width - 1) == walkable_count(replay(field(*lattice), drawn_width(*lattice), old(steps)@)),
{
    let ghost open = is_open_lattice(*lattice, lattice.spec_width(), lattice.spec_height());
    let ghost w = drawn_width(*lattice);
    let ghost h = drawn_height(*lattice);
    let ghost count0: int = walkable_count(replay(field(*lattice), w, steps@)) as int;
    let wall_y = random_range(rng, chamber.y, chamber.y + chamber.height - 1);
    let mut crossings: Vec<usize> = Vec::new();
    let mut x = chamber.x;
    while x < chamber.x + chamber.width
        invariant
            lattice.wf(),
            inside(lattice, chamber),
            chamber.x <= x <= chamber.x + chamber.width,
            wall_y + 1 < chamber.y + chamber.height,
            chamber.y <= wall_y,
            forall|k: int|
                0 <= k < crossings@.len() ==> lattice.is_open(#[trigger] crossings@[k] as int, wall_y as int)
                    && lattice.is_open(crossings@[k] as int, wall_y + 1) && chamber.x <= crossings@[k] < chamber.x
                    + chamber.width,
            x > chamber.x && lattice.is_open(chamber.x as int, wall_y as int) && lattice.is_open(
                chamber.x as int,
                wall_y + 1,
            ) ==> crossings@.len() > 0,
            open == is_open_lattice(*lattice, lattice.spec_width(), lattice.spec_height()),
            open ==> crossings@.len() == x - chamber.x,
            open ==> forall|j: int| 0 <= j < crossings@.len() ==> #[trigger] crossings@[j] == chamber.x + j,
        decreases chamber.x + chamber.width - x,
    {
        proof {
            if open {
                lemma_open_corridor(*lattice, x as int, wall_y as int);
                lemma_open_corridor(*lattice, x as int, wall_y + 1);
            }
        }
        if !lattice.is_blocked(x, wall_y) && !lattice.is_blocked(x, wall_y + 1) {
            let ghost before = crossings@;
            crossings.push(x);
            proof {
                assert forall|k: int| 0 <= k < crossings@.len() implies lattice.is_open(
                    #[trigger] crossings@[k] as int,
                    wall_y as int,
                ) && lattice.is_open(crossings@[k] as int, wall_y + 1) && chamber.x <= crossings@[k] < chamber.x
                    + chamber.width by {
                    if k < before.len() {
                        assert(crossings@[k] == before[k]);
                    }
                }
            }
        }
        x = x + 1;
    }
    let gap = pick(crossings.as_slice(), rng);
    let top_height = wall_y - chamber.y + 1;
    let ghost a = Chamber { x: chamber.x, y: chamber.y, width: chamber.width, height: top_height };
    let ghost b = Chamber {
        x: chamber.x,
        y: (wall_y + 1) as usize,
        width: chamber.width,
        height: (chamber.height - top_height) as usize,
    };
    let ghost gx: int = match gap {
        Some(g) => g as int,
        None => 0,
    };
    let ghost mut cells = replay(field(*lattice), w, steps@);
    proof {
        if open {
            lattice.lemma_fits();
            lemma_square_index(lattice.spec_width(), lattice.spec_height(), chamber.x as int, wall_y as int);
            lemma_square_index(lattice.spec_width(), lattice.spec_height(), chamber.x as int, wall_y + 1);
            assert(crossings@.len() > 0);
            assert(crossings@.contains(gap->0));
            let j = choose|j: int| 0 <= j < crossings@.len() && crossings@[j] == gap->0;
            assert(chamber.x <= crossings@[j] < chamber.x + chamber.width);
            lemma_split_start_south(*lattice, cells, chamber, a, b, rest, wall_y as int, gx);
            lemma_closing_south_start(cells, w, h, chamber, wall_y as int, gx);
        }
    }
    let mut k: usize = 0;
    while k < crossings.len()
        invariant
            lattice.wf(),
            k <= crossings@.len(),
            forall|j: int|
                0 <= j < crossings@.len() ==> lattice.is_open(#[trigger] crossings@[j] as int, wall_y as int)
                    && lattice.is_open(crossings@[j] as int, wall_y + 1) && chamber.x <= crossings@[j] < chamber.x
                    + chamber.width,
            lattice.carves(steps@, |c: Cell| c == Cell::Wall),
            spares_corridors(steps@),
            open == is_open_lattice(*lattice, lattice.spec_width(), lattice.spec_height()),
            w == drawn_width(*lattice),
            h == drawn_height(*lattice),
            cells == replay(field(*lattice), w, steps@),
            inside(lattice, chamber),
            chamber.y <= wall_y,
            wall_y + 1 < chamber.y + chamber.height,
            a == (Chamber { x: chamber.x, y: chamber.y, width: chamber.width, height: top_height }),
            b == (Chamber { x: chamber.x, y: (wall_y + 1) as usize, width: chamber.width, height: (chamber.height - top_height) as usize }),
            top_height == wall_y - chamber.y + 1,
            open ==> gap == Some(gx as usize) && chamber.x <= gx < chamber.x + chamber.width,
            open ==> split_progress_south(*lattice, cells, a, b, rest, wall_y as int, gx),
            open ==> crossings@.len() == chamber.width,
            open ==> forall|j: int| 0 <= j < crossings@.len() ==> #[trigger] crossings@[j] == chamber.x + j,
            open ==> closing_south(cells, w, h, chamber, wall_y as int, gx, k as int, count0),
        decreases crossings@.len() - k,
    {
        let x = crossings[k];
        if gap != Some(x) {
            proof {
                assert(lattice.is_open(crossings@[k as int] as int, wall_y as int));
                lattice.lemma_between_owned((x, wall_y), (x, (wall_y + 1) as usize));
            }
            let ghost before = steps@;
            let shut = between(x, wall_y, x, wall_y + 1, Cell::Wall);
            steps.push(shut);
            proof {
                crate::maze::walks::lemma_replay_push(field(*lattice), w, before, shut);
                assert forall|i: int| 0 <= i < steps@.len() && (#[trigger] steps@[i]).cell == Cell::Wall implies !(
                    steps@[i].x % 2 == 1 && steps@[i].y % 2 == 1) by {
                    if i < before.len() {
                        assert(steps@[i] == before[i]);
                    }
                }
                if open {
                    lemma_split_step_south(*lattice, cells, a, b, rest, x as int, wall_y as int, gx);
                    assert(crossings@[k as int] == chamber.x + k);
                    lemma_closing_south_shut(*lattice, cells, chamber, wall_y as int, gx, k as int, count0, shut);
                }
                cells = after_step(cells, w, shut);
            }
        }
        proof {
            if open && gap == Some(x) {
                assert(crossings@[k as int] == chamber.x + k);
                lemma_closing_south_gap(cells, w, h, chamber, wall_y as int, gx, k as int, count0);
            }
        }
        k = k + 1;
    }
    proof {
        if open {
            assert(split_done(*lattice, cells, a, b, rest));
            lemma_closing_south_end(cells, w, h, chamber, wall_y as int, gx, count0);
        }
    }
    (
        Chamber { x: chamber.x, y: chamber.y, width: chamber.width, height: top_height },
        Chamber {
            x: chamber.x,
            y: wall_y + 1,
            width: chamber.width,
            height: chamber.height - top_height,
        },
    )
}

/// A wall between columns `wall_x` and `wall_x + 1`, returning the two halves.
#[verifier::rlimit(100)]
#[verifier::spinoff_prover]
fn split_vertically(
    lattice: &Lattice,
    chamber: Chamber,
    steps: &mut Vec<Step>,
    rng: &mut StdRng,
    Ghost(rest): Ghost<Seq<Chamber>>,
) -> (halves: (Chamber, Chamber))
    requires
        lattice.wf(),
        inside(lattice, chamber),
        chamber.width >= 2,
        chamber.height >= 2,
        lattice.carves(old(steps)@, |c: Cell| c == Cell::Wall),
        spares_corridors(old(steps)@),
        is_open_lattice(*lattice, lattice.spec_width(), lattice.spec_height()) ==> split_ready(
            *lattice,
            replay(field(*lattice), drawn_width(*lattice), old(steps)@),
            chamber,
            rest,
        ),
    ensures
        lattice.carves(final(steps)@, |c: Cell| c == Cell::Wall),
        spares_corridors(final(steps)@),
        inside(lattice, halves.0),
        inside(lattice, halves.1),
        halves.0.height == chamber.height,
        halves.1.height == chamber.height,
        halves.0.width + halves.1.width == chamber.width,
        halves.0.width >= 1,
        halves.1.width >= 1,
        within(halves.0, chamber),
        within(halves.1, chamber),
        apart(halves.0, halves.1),
        is_open_lattice(*lattice, lattice.spec_width(), lattice.spec_height()) ==> split_done(
            *lattice,
            replay(field(*lattice), drawn_width(*lattice), final(steps)@),
            halves.0,
            halves.1,
            rest,
        ),
        is_open_lattice(*lattice, lattice.spec_width(), lattice.spec_height()) ==> walkable_count(
            replay(field(*lattice), drawn_width(*lattice), final(steps)@),
        ) + (chamber.height - 1) == walkable_count(replay(field(*lattice), drawn_width(*lattice), old(steps)@)),
{
    let ghost open = is_open_lattice(*lattice, lattice.spec_width(), lattice.spec_height());
    let ghost w = drawn_width(*lattice);
    let ghost h = drawn_height(*lattice);
    let ghost count0: int = walkable_count(replay(field(*lattice), w, steps@)) as int;
    let wall_x = random_range(rng, chamber.x, chamber.x + chamber.width - 1);
    let mut crossings: Vec<usize> = Vec::new();
    let mut y = chamber.y;
    while y < chamber.y + chamber.height
        invariant
            lattice.wf(),
            inside(lattice, chamber),
            chamber.y <= y <= chamber.y + chamber.height,
            wall_x + 1 < chamber.x + chamber.width,
            chamber.x <= wall_x,
            forall|k: int|
                0 <= k < crossings@.len() ==> lattice.is_open(wall_x as int, #[trigger] crossings@[k] as int)
                    && lattice.is_open(wall_x + 1, crossings@[k] as int) && chamber.y <= crossings@[k] < chamber.y
                    + chamber.height,
            y > chamber.y && lattice.is_open(wall_x as int, chamber.y as int) && lattice.is_open(
                wall_x + 1,
                chamber.y as int,
            ) ==> crossings@.len() > 0,
            open == is_open_lattice(*lattice, lattice.spec_width(), lattice.spec_height()),
            open ==> crossings@.len() == y - chamber.y,
            open ==> forall|j: int| 0 <= j < crossings@.len() ==> #[trigger] crossings@[j] == chamber.y + j,
        decreases chamber.y + chamber.height - y,
    {
        proof {
            if open {
                lemma_open_corridor(*lattice, wall_x as int, y as int);
                lemma_open_corridor(*lattice, wall_x + 1, y as int);
            }
        }
        if !lattice.is_blocked(wall_x, y) && !lattice.is_blocked(wall_x + 1, y) {
            let ghost before = crossings@;
            crossings.push(y);
            proof {
                assert forall|k: int| 0 <= k < crossings@.len() implies lattice.is_open(
                    wall_x as int,
                    #[trigger] crossings@[k] as int,
                ) && lattice.is_open(wall_x + 1, crossings@[k] as int) && chamber.y <= crossings@[k] < chamber.y
                    + chamber.height by {
                    if k < before.len() {
                        assert(crossings@[k] == before[k]);
                    }
                }
            }
        }
        y = y + 1;
    }
    let gap = pick(crossings.as_slice(), rng);
    let left_width = wall_x - chamber.x + 1;
    let ghost a = Chamber { x: chamber.x, y: chamber.y, width: left_width, height: chamber.height };
    let ghost b = Chamber {
        x: (wall_x + 1) as usize,
        y: chamber.y,
        width: (chamber.width - left_width) as usize,
        height: chamber.height,
    };
    let ghost gy: int = match gap {
        Some(g) => g as int,
        None => 0,
    };
    let ghost mut cells = replay(field(*lattice), w, steps@);
    proof {
        if open {
            lattice.lemma_fits();
            lemma_square_index(lattice.spec_width(), lattice.spec_height(), wall_x as int, chamber.y as int);
            lemma_square_index(lattice.spec_width(), lattice.spec_height(), wall_x + 1, chamber.y as int);
            assert(crossings@.len() > 0);
            assert(crossings@.contains(gap->0));
            let j = choose|j: int| 0 <= j < crossings@.len() && crossings@[j] == gap->0;
            assert(chamber.y <= crossings@[j] < chamber.y + chamber.height);
            lemma_split_start_east(*lattice, cells, chamber, a, b, rest, wall_x as int, gy);
            lemma_closing_east_start(cells, w, h, chamber, wall_x as int, gy);
        }
    }
    let mut k: usize = 0;
    while k < crossings.len()
        invariant
            lattice.wf(),
            k <= crossings@.len(),
            forall|j: int|
                0 <= j < crossings@.len() ==> lattice.is_open(wall_x as int, #[trigger] crossings@[j] as int)
                    && lattice.is_open(wall_x + 1, crossings@[j] as int) && chamber.y <= crossings@[j] < chamber.y
                    + chamber.height,
            lattice.carves(steps@, |c: Cell| c == Cell::Wall),
            spares_corridors(steps@),
            open == is_open_lattice(*lattice, lattice.spec_width(), lattice.spec_height()),
            w == drawn_width(*lattice),
            h == drawn_height(*lattice),
            cells == replay(field(*lattice), w, steps@),
            inside(lattice, chamber),
            chamber.x <= wall_x,
            wall_x + 1 < chamber.x + chamber.width,
            a == (Chamber { x: chamber.x, y: chamber.y, width: left_width, height: chamber.height }),
            b == (Chamber { x: (wall_x + 1) as usize, y: chamber.y, width: (chamber.width - left_width) as usize, height: chamber.height }),
            left_width == wall_x - chamber.x + 1,
            open ==> gap == Some(gy as usize) && chamber.y <= gy < chamber.y + chamber.height,
            open ==> split_progress_east(*lattice, cells, a, b, rest, wall_x as int, gy),
            open ==> crossings@.len() == chamber.height,
            open ==> forall|j: int| 0 <= j < crossings@.len() ==> #[trigger] crossings@[j] == chamber.y + j,
            open ==> closing_east(cells, w, h, chamber, wall_x as int, gy, k as int, count0),
        decreases crossings@.len() - k,
    {
        let y = crossings[k];
        if gap != Some(y) {
            proof {
                assert(lattice.is_open(wall_x as int, crossings@[k as int] as int));
                lattice.lemma_between_owned((wall_x, y), ((wall_x + 1) as usize, y));
            }
            let ghost before = steps@;
            let shut = between(wall_x, y, wall_x + 1, y, Cell::Wall);
            steps.push(shut);
            proof {
                crate::maze::walks::lemma_replay_push(field(*lattice), w, before, shut);
                assert forall|i: int| 0 <= i < steps@.len() && (#[trigger] steps@[i]).cell == Cell::Wall implies !(
                    steps@[i].x % 2 == 1 && steps@[i].y % 2 == 1) by {
                    if i < before.len() {
                        assert(steps@[i] == before[i]);
                    }
                }
                if open {
                    lemma_split_step_east(*lattice, cells, a, b, rest, wall_x as int, y as int, gy);
                    assert(crossings@[k as int] == chamber.y + k);
                    lemma_closing_east_shut(*lattice, cells, chamber, wall_x as int, gy, k as int, count0, shut);
                }
                cells = after_step(cells, w, shut);
            }
        }
        proof {
            if open && gap == Some(y) {
                assert(crossings@[k as int] == chamber.y + k);
                lemma_closing_east_gap(cells, w, h, chamber, wall_x as int, gy, k as int, count0);
            }
        }
        k = k + 1;
    }
    proof {
        if open {
            assert(split_done(*lattice, cells, a, b, rest));
            lemma_closing_east_end(cells, w, h, chamber, wall_x as int, gy, count0);
        }
    }
    (
        Chamber { x: chamber.x, y: chamber.y, width: left_width, height: chamber.height },
        Chamber {
            x: wall_x + 1,
            y: chamber.y,
            width: chamber.width - left_width,
            height: chamber.height,
        },
    )
}

} // verus!
