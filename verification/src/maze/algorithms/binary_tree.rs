use rand::rngs::StdRng;
use vstd::prelude::*;

use super::{Lattice, all_walls, floor, floor_step, is_open_lattice, wall_between};
use crate::maze::grid::{Cell, Step, after_step, after_steps};
use crate::maze::walks::{all_joined, joins, lemma_joins_grows, lemma_joins_self, lemma_joins_step, lemma_open_step, open_in};
use crate::random::pick;
use super::counting::{lemma_count_blank, lemma_fresh_count, lemma_join_back_count, lemma_within_blank, opened_within};
use super::dungeon::walkable_count;

verus! {

/// The row-major index of square `p`.
spec fn square_index_of(width: int, p: (usize, usize)) -> int {
    crate::maze::grid::square_index(width, p.0 as int, p.1 as int)
}

/// Binary tree: every corridor links to its north or west neighbour, chosen
/// at random. No memory at all, and a telltale diagonal texture: the top row
/// and left column are always one straight corridor.
#[verifier::rlimit(90)]
#[verifier::spinoff_prover]
pub fn carve(lattice: &Lattice, rng: &mut StdRng) -> (steps: Vec<Step>)
    requires
        lattice.wf(),
    ensures
        lattice.carves(steps@, |c: Cell| c == Cell::Floor),
        lattice.floors_every_corridor(steps@),
        is_open_lattice(*lattice, lattice.spec_width(), lattice.spec_height()) ==> all_joined(
            after_steps(
                all_walls((2 * lattice.spec_width() + 1) * (2 * lattice.spec_height() + 1)),
                2 * lattice.spec_width() + 1,
                steps@,
            ),
            2 * lattice.spec_width() + 1,
            2 * lattice.spec_height() + 1,
            (1, 1),
        ),
        is_open_lattice(*lattice, lattice.spec_width(), lattice.spec_height()) && lattice.spec_width()
            * lattice.spec_height() >= 1 ==> walkable_count(
            after_steps(
                all_walls((2 * lattice.spec_width() + 1) * (2 * lattice.spec_height() + 1)),
                2 * lattice.spec_width() + 1,
                steps@,
            ),
        ) == 2 * (lattice.spec_width() * lattice.spec_height()) - 1,
{
    let ghost w = 2 * lattice.spec_width() + 1;
    let ghost h = 2 * lattice.spec_height() + 1;
    let ghost walls = all_walls(w * h);
    let ghost open = is_open_lattice(*lattice, lattice.spec_width(), lattice.spec_height());
    let corridors = lattice.corridors();
    let mut steps: Vec<Step> = Vec::new();
    let ghost mut vis: Set<(usize, usize)> = Set::empty();
    let ghost mut seen: Set<int> = Set::empty();
    proof {
        lattice.lemma_fits();
        assert(0 <= w * h) by (nonlinear_arith)
            requires
                0 <= w,
                0 <= h,
        ;
        lemma_within_blank(walls, w, h);
        lemma_count_blank(walls);
    }
    proof {
        assert(after_steps(walls, w, steps@) == walls);
        assert forall|p: (usize, usize)| #[trigger] open_in(walls, w, h, p) implies joins(walls, w, h, (1, 1), p) by {
            crate::maze::grid::lemma_square_index(w, h, p.0 as int, p.1 as int);
        }
    }
    let mut i: usize = 0;
    while i < corridors.len()
        invariant
            lattice.wf(),
            w == 2 * lattice.spec_width() + 1,
            h == 2 * lattice.spec_height() + 1,
            walls == all_walls(w * h),
            walls.len() == w * h,
            open == is_open_lattice(*lattice, lattice.spec_width(), lattice.spec_height()),
            i <= corridors@.len(),
            forall|k: int| 0 <= k < corridors@.len() ==> lattice.open_at(#[trigger] corridors@[k]),
            forall|x: int, y: int| #[trigger] lattice.is_open(x, y) ==> corridors@.contains((x as usize, y as usize)),
            forall|k1: int, k2: int|
                0 <= k1 < k2 < corridors@.len() ==> (#[trigger] corridors@[k1]).1 * lattice.spec_width()
                    + corridors@[k1].0 < (#[trigger] corridors@[k2]).1 * lattice.spec_width() + corridors@[k2].0,
            lattice.carves(steps@, |c: Cell| c == Cell::Floor),
            forall|k: int|
                0 <= k < i ==> steps@.contains(
                    floor_step(#[trigger] corridors@[k].0 as int, corridors@[k].1 as int),
                ),
            after_steps(walls, w, steps@).len() == w * h,
            forall|k: int|
                0 <= k < i ==> open_in(
                    after_steps(walls, w, steps@),
                    w,
                    h,
                    ((2 * (#[trigger] corridors@[k]).0 + 1) as usize, (2 * corridors@[k].1 + 1) as usize),
                ),
            open ==> all_joined(after_steps(walls, w, steps@), w, h, (1, 1)),
            opened_within(vis, after_steps(walls, w, steps@), w, h),
            forall|k: int| 0 <= k < i ==> vis.contains(#[trigger] corridors@[k]),
            forall|p: (usize, usize)|
                #[trigger] vis.contains(p) ==> lattice.holds(p) && (i < corridors@.len() ==> lattice.flat(p)
                    < lattice.flat(corridors@[i as int])),
            seen.finite(),
            seen.len() == i,
            forall|j: int|
                #[trigger] seen.contains(j) ==> 0 <= j < lattice.spec_width() * lattice.spec_height() && (i
                    < corridors@.len() ==> j < lattice.flat(corridors@[i as int])),
            forall|k: int| 0 <= k < i ==> seen.contains(lattice.flat(#[trigger] corridors@[k])),
            open ==> walkable_count(after_steps(walls, w, steps@)) + (if i == 0 { 0int } else { 1int }) == 2 * i,
        decreases corridors@.len() - i,
    {
        let (x, y) = corridors[i];
        proof {
            assert(lattice.open_at(corridors@[i as int]));
            lattice.lemma_corridor_owned(x as int, y as int);
        }
        let ghost vis0 = vis;
        proof {
            assert(!vis0.contains((x, y)));
            if open {
                lemma_first_corridor_only(lattice, corridors@, i as int);
            }
        }
        let ghost before = steps@;
        let ghost cells0 = after_steps(walls, w, before);
        let step = floor(x, y);
        steps.push(step);
        let ghost cells1 = after_steps(walls, w, steps@);
        proof {
            assert(steps@.drop_last() =~= before);
            lemma_open_step(cells0, w, h, step);
        }
        let mut options: Vec<(usize, usize)> = Vec::with_capacity(2);
        if y > 0 && !lattice.is_blocked(x, y - 1) {
            options.push((x, y - 1));
        }
        if x > 0 && !lattice.is_blocked(x - 1, y) {
            options.push((x - 1, y));
        }
        let ghost sq = ((2 * x + 1) as usize, (2 * y + 1) as usize);
        if let Some((nx, ny)) = pick(options.as_slice(), rng) {
            proof {
                lattice.lemma_between_owned((x, y), (nx, ny));
            }
            let ghost middle = steps@;
            let wall = wall_between(x, y, nx, ny);
            steps.push(wall);
            proof {
                assert(steps@.drop_last() =~= middle);
                {
                    let k = choose|k: int| 0 <= k < corridors@.len() && corridors@[k] == (nx, ny);
                    assert(lattice.is_open(nx as int, ny as int));
                    assert(corridors@.contains((nx, ny)));
                    assert(ny * lattice.spec_width() + nx < y * lattice.spec_width() + x) by (nonlinear_arith)
                        requires
                            (ny + 1 == y && nx == x) || (ny == y && nx + 1 == x),
                            x < lattice.spec_width(),
                    ;
                    if k >= i {
                        if k > i {
                            assert(corridors@[i as int].1 * lattice.spec_width() + corridors@[i as int].0 < corridors@[k].1
                                * lattice.spec_width() + corridors@[k].0);
                        }
                    }
                    assert(vis0.contains(corridors@[k]));
                    lattice.lemma_fits();
                    assert(steps@ == before.push(step).push(wall));
                    lemma_join_back_count(vis0, cells0, w, h, (x, y), (nx, ny), step, wall);
                    assert(after_steps(walls, w, steps@) == after_step(after_step(cells0, w, step), w, wall));
                }
                lemma_open_step(cells1, w, h, wall);
                let cells2 = after_steps(walls, w, steps@);
                let nsq = ((2 * nx + 1) as usize, (2 * ny + 1) as usize);
                let msq = (wall.x, wall.y);
                // The neighbour came earlier, so it is open and joined.
                assert(lattice.is_open(nx as int, ny as int));
                assert(corridors@.contains((nx, ny)));
                let k = choose|k: int| 0 <= k < corridors@.len() && corridors@[k] == (nx, ny);
                assert(ny * lattice.spec_width() + nx < y * lattice.spec_width() + x) by (nonlinear_arith)
                    requires
                        (ny + 1 == y && nx == x) || (ny == y && nx + 1 == x),
                        x < lattice.spec_width(),
                ;
                if k >= i {
                    if k > i {
                        assert(corridors@[i as int].1 * lattice.spec_width() + corridors@[i as int].0 < corridors@[k].1
                            * lattice.spec_width() + corridors@[k].0);
                    }
                }
                assert(open_in(cells0, w, h, nsq));
                crate::maze::grid::lemma_square_index(w, h, nsq.0 as int, nsq.1 as int);
                assert(open_in(cells1, w, h, nsq));
                assert(open_in(cells2, w, h, nsq));
                if open {
                    assert(joins(cells0, w, h, (1, 1), nsq));
                    lemma_joins_grows(cells0, cells1, w, h, (1, 1), nsq);
                    lemma_joins_grows(cells1, cells2, w, h, (1, 1), nsq);
                    crate::maze::grid::lemma_square_index(w, h, msq.0 as int, msq.1 as int);
                    crate::maze::grid::lemma_square_index(w, h, sq.0 as int, sq.1 as int);
                    assert(open_in(cells2, w, h, sq));
                    lemma_joins_step(cells2, w, h, (1, 1), nsq, msq);
                    lemma_joins_step(cells2, w, h, (1, 1), msq, sq);
                    assert forall|p: (usize, usize)| #[trigger] open_in(cells2, w, h, p) implies joins(
                        cells2,
                        w,
                        h,
                        (1, 1),
                        p,
                    ) by {
                        crate::maze::grid::lemma_square_index(w, h, p.0 as int, p.1 as int);
                        if p != sq && p != msq {
                            if square_index_of(w, p) == square_index_of(w, sq) {
                                crate::maze::grid::lemma_square_index_injective(w, p.0 as int, p.1 as int, sq.0 as int, sq.1 as int);
                            }
                            if square_index_of(w, p) == square_index_of(w, msq) {
                                crate::maze::grid::lemma_square_index_injective(w, p.0 as int, p.1 as int, msq.0 as int, msq.1 as int);
                            }
                            assert(open_in(cells0, w, h, p));
                            lemma_joins_grows(cells0, cells1, w, h, (1, 1), p);
                            lemma_joins_grows(cells1, cells2, w, h, (1, 1), p);
                        }
                    }
                }
                assert forall|k2: int| 0 <= k2 < i + 1 implies open_in(
                    cells2,
                    w,
                    h,
                    ((2 * (#[trigger] corridors@[k2]).0 + 1) as usize, (2 * corridors@[k2].1 + 1) as usize),
                ) by {
                    let c = corridors@[k2];
                    let csq = ((2 * c.0 + 1) as usize, (2 * c.1 + 1) as usize);
                    assert(lattice.open_at(c));
                    crate::maze::grid::lemma_square_index(w, h, csq.0 as int, csq.1 as int);
                    if k2 < i {
                        assert(open_in(cells0, w, h, csq));
                    }
                }
            }
        } else {
            proof {
                lattice.lemma_fits();
                lemma_fresh_count(vis0, cells0, w, h, (x, y), step);
                if open {
                    assert(x == 0 && y == 0) by {
                        if y > 0 {
                            crate::maze::grid::lemma_square_index(
                                lattice.spec_width(),
                                lattice.spec_height(),
                                x as int,
                                y - 1,
                            );
                            assert(lattice.is_open(x as int, y - 1));
                        }
                        if x > 0 {
                            crate::maze::grid::lemma_square_index(
                                lattice.spec_width(),
                                lattice.spec_height(),
                                x - 1,
                                y as int,
                            );
                            assert(lattice.is_open(x - 1, y as int));
                        }
                    }
                    lemma_joins_self(cells1, w, h, (1, 1));
                    assert forall|p: (usize, usize)| #[trigger] open_in(cells1, w, h, p) implies joins(
                        cells1,
                        w,
                        h,
                        (1, 1),
                        p,
                    ) by {
                        crate::maze::grid::lemma_square_index(w, h, p.0 as int, p.1 as int);
                        if p != sq {
                            if square_index_of(w, p) == square_index_of(w, sq) {
                                crate::maze::grid::lemma_square_index_injective(w, p.0 as int, p.1 as int, sq.0 as int, sq.1 as int);
                            }
                            assert(open_in(cells0, w, h, p));
                            lemma_joins_grows(cells0, cells1, w, h, (1, 1), p);
                        }
                    }
                }
                assert forall|k2: int| 0 <= k2 < i + 1 implies open_in(
                    cells1,
                    w,
                    h,
                    ((2 * (#[trigger] corridors@[k2]).0 + 1) as usize, (2 * corridors@[k2].1 + 1) as usize),
                ) by {
                    let c = corridors@[k2];
                    let csq = ((2 * c.0 + 1) as usize, (2 * c.1 + 1) as usize);
                    assert(lattice.open_at(c));
                    crate::maze::grid::lemma_square_index(w, h, csq.0 as int, csq.1 as int);
                    if k2 < i {
                        assert(open_in(cells0, w, h, csq));
                    }
                }
            }
        }
        proof {
            assert forall|k: int|
                0 <= k < i + 1 implies steps@.contains(
                floor_step(#[trigger] corridors@[k].0 as int, corridors@[k].1 as int),
            ) by {
                if k < i {
                    let j = choose|j: int|
                        0 <= j < before.len() && before[j] == floor_step(
                            corridors@[k].0 as int,
                            corridors@[k].1 as int,
                        );
                    assert(steps@[j] == before[j]);
                } else {
                    assert(steps@[before.len() as int] == floor_step(x as int, y as int));
                }
            }
            lemma_mark_next(lattice, corridors@, i as int, vis0, seen);
            vis = vis0.insert((x, y));
            seen = seen.insert(lattice.flat((x, y)));
        }
        i = i + 1;
    }
    proof {
        assert forall|x: int, y: int| #[trigger] lattice.is_open(x, y) implies exists|j: int|
            0 <= j < steps@.len() && #[trigger] steps@[j] == floor_step(x, y) by {
            assert(corridors@.contains((x as usize, y as usize)));
            let k = choose|k: int| 0 <= k < corridors@.len() && corridors@[k] == (x as usize, y as usize);
            assert(steps@.contains(floor_step(corridors@[k].0 as int, corridors@[k].1 as int)));
        }
        if open && lattice.spec_width() * lattice.spec_height() >= 1 {
            lemma_listed_all(lattice, corridors@, seen);
        }
    }
    steps
}

/// On the open lattice the first corridor is (0, 0), and (0, 0) comes
/// first only.
proof fn lemma_first_corridor_only(lattice: &Lattice, corridors: Seq<(usize, usize)>, i: int)
    requires
        lattice.wf(),
        is_open_lattice(*lattice, lattice.spec_width(), lattice.spec_height()),
        0 <= i < corridors.len(),
        forall|k: int| 0 <= k < corridors.len() ==> lattice.open_at(#[trigger] corridors[k]),
        forall|x: int, y: int| #[trigger] lattice.is_open(x, y) ==> corridors.contains((x as usize, y as usize)),
        forall|k1: int, k2: int|
            0 <= k1 < k2 < corridors.len() ==> (#[trigger] corridors[k1]).1 * lattice.spec_width() + corridors[k1].0
                < (#[trigger] corridors[k2]).1 * lattice.spec_width() + corridors[k2].0,
    ensures
        i == 0 <==> corridors[i] == (0usize, 0usize),
{
    super::spanning::lemma_first_corridor(*lattice, corridors);
    if i > 0 {
        assert(corridors[0].1 * lattice.spec_width() + corridors[0].0 < corridors[i].1 * lattice.spec_width()
            + corridors[i].0);
    }
}

/// Listing the next corridor keeps the visited corridors and their indices
/// in step with the list.
proof fn lemma_mark_next(lattice: &Lattice, corridors: Seq<(usize, usize)>, i: int, vis: Set<(usize, usize)>, seen: Set<int>)
    requires
        lattice.wf(),
        0 <= i < corridors.len(),
        forall|k: int| 0 <= k < corridors.len() ==> lattice.open_at(#[trigger] corridors[k]),
        forall|k1: int, k2: int|
            0 <= k1 < k2 < corridors.len() ==> (#[trigger] corridors[k1]).1 * lattice.spec_width() + corridors[k1].0
                < (#[trigger] corridors[k2]).1 * lattice.spec_width() + corridors[k2].0,
        forall|k: int| 0 <= k < i ==> vis.contains(#[trigger] corridors[k]),
        forall|p: (usize, usize)|
            #[trigger] vis.contains(p) ==> lattice.holds(p) && lattice.flat(p) < lattice.flat(corridors[i]),
        seen.finite(),
        seen.len() == i,
        forall|j: int|
            #[trigger] seen.contains(j) ==> 0 <= j < lattice.spec_width() * lattice.spec_height() && j < lattice.flat(
                corridors[i],
            ),
        forall|k: int| 0 <= k < i ==> seen.contains(lattice.flat(#[trigger] corridors[k])),
    ensures
        ({
            let vis2 = vis.insert(corridors[i]);
            let seen2 = seen.insert(lattice.flat(corridors[i]));
            &&& forall|k: int| 0 <= k < i + 1 ==> vis2.contains(#[trigger] corridors[k])
            &&& forall|p: (usize, usize)|
                #[trigger] vis2.contains(p) ==> lattice.holds(p) && (i + 1 < corridors.len() ==> lattice.flat(p)
                    < lattice.flat(corridors[i + 1]))
            &&& seen2.finite()
            &&& seen2.len() == i + 1
            &&& forall|j: int|
                #[trigger] seen2.contains(j) ==> 0 <= j < lattice.spec_width() * lattice.spec_height() && (i + 1
                    < corridors.len() ==> j < lattice.flat(corridors[i + 1]))
            &&& forall|k: int| 0 <= k < i + 1 ==> seen2.contains(lattice.flat(#[trigger] corridors[k]))
        }),
{
    let c = corridors[i];
    assert(lattice.open_at(c));
    crate::maze::grid::lemma_square_index(lattice.spec_width(), lattice.spec_height(), c.0 as int, c.1 as int);
    assert(!seen.contains(lattice.flat(c)));
    if i + 1 < corridors.len() {
        assert(corridors[i].1 * lattice.spec_width() + corridors[i].0 < corridors[i + 1].1 * lattice.spec_width()
            + corridors[i + 1].0);
    }
}

/// When the list holds every corridor of the open lattice, the indices
/// seen are all of them.
proof fn lemma_listed_all(lattice: &Lattice, corridors: Seq<(usize, usize)>, seen: Set<int>)
    requires
        lattice.wf(),
        is_open_lattice(*lattice, lattice.spec_width(), lattice.spec_height()),
        forall|x: int, y: int| #[trigger] lattice.is_open(x, y) ==> corridors.contains((x as usize, y as usize)),
        forall|j: int| #[trigger] seen.contains(j) ==> 0 <= j < lattice.spec_width() * lattice.spec_height(),
        forall|k: int| 0 <= k < corridors.len() ==> seen.contains(lattice.flat(#[trigger] corridors[k])),
    ensures
        seen.len() == lattice.spec_width() * lattice.spec_height(),
{
    let lw = lattice.spec_width();
    let lh = lattice.spec_height();
    let n = lw * lh;
    lattice.lemma_fits();
    assert forall|j: int| 0 <= j < n implies #[trigger] seen.contains(j) by {
        assert(lw > 0) by (nonlinear_arith)
            requires
                0 <= j < lw * lh,
                lw >= 0,
                lh >= 0,
        ;
        vstd::arithmetic::div_mod::lemma_fundamental_div_mod(j, lw);
        vstd::arithmetic::mul::lemma_mul_is_commutative(j / lw, lw);
        assert(j / lw < lh) by (nonlinear_arith)
            requires
                0 <= j < lw * lh,
                0 < lw,
                j == lw * (j / lw) + j % lw,
                0 <= j % lw < lw,
        ;
        let p = ((j % lw) as usize, (j / lw) as usize);
        assert(lattice.flat(p) == j);
        assert(lattice.is_open(p.0 as int, p.1 as int));
        assert(corridors.contains(p));
        let k = choose|k: int| 0 <= k < corridors.len() && corridors[k] == p;
        assert(seen.contains(lattice.flat(corridors[k])));
    }
    vstd::set_lib::lemma_int_range(0, n);
    assert(seen =~= vstd::set_lib::set_int_range(0, n));
}

} // verus!
