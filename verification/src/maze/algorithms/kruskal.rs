use rand::rngs::StdRng;
use vstd::prelude::*;

use super::disjoint_sets::{DisjointSets, is_grouping, joined, lemma_merge_joins};
use super::spanning::corridor_square;
use super::{Lattice, all_walls, floor, floor_step, is_open_lattice, wall_between};
use crate::maze::grid::{Cell, Step, adjacent, after_step, after_steps, lemma_square_index, lemma_square_index_injective};
use crate::maze::walks::{
    all_joined, joins, lemma_joins_chain, lemma_joins_grows, lemma_joins_self, lemma_joins_step, lemma_opened_only,
    lemma_replay_push, open_in, opened_only, opens_more, replay,
};
use super::counting::{
    lemma_decode_flat, lemma_floor_count, lemma_link_count, lemma_links_done, lemma_links_start, link_step,
    links_counted,
};
use super::dungeon::walkable_count;
use crate::maze::grid::decode;
use crate::random::shuffle;

verus! {

/// Every corridor sharing a group with another corridor has been floored.
pub open spec fn grouped_floored(lattice: &Lattice, reps: Seq<usize>, steps: Seq<Step>) -> bool {
    forall|p: (usize, usize), q: (usize, usize)|
        #[trigger] lattice.open_at(p) && #[trigger] lattice.open_at(q) && p != q
            && reps[lattice.flat(p)] == reps[lattice.flat(q)] ==> steps.contains(
            floor_step(p.0 as int, p.1 as int),
        )
}

/// Randomised Kruskal: every corridor starts as its own group; walls are
/// visited in random order and knocked down only when they separate two
/// different groups, which then merge.
#[verifier::rlimit(50)]
#[verifier::spinoff_prover]
pub fn carve(lattice: &Lattice, rng: &mut StdRng) -> (steps: Vec<Step>)
    requires
        lattice.wf(),
    ensures
        lattice.carves(steps@, |c: Cell| c == Cell::Floor),
        lattice.floors_every_linked_corridor(steps@),
        is_open_lattice(*lattice, lattice.spec_width(), lattice.spec_height()) ==> all_joined(
            after_steps(
                all_walls((2 * lattice.spec_width() + 1) * (2 * lattice.spec_height() + 1)),
                2 * lattice.spec_width() + 1,
                steps@,
            ),
            2 * lattice.spec_width() + 1,
            2 * lattice.spec_height() + 1,
            (1, 1),
        ),
        is_open_lattice(*lattice, lattice.spec_width(), lattice.spec_height()) && lattice.spec_width()
            * lattice.spec_height() >= 2 ==> walkable_count(
            after_steps(
                all_walls((2 * lattice.spec_width() + 1) * (2 * lattice.spec_height() + 1)),
                2 * lattice.spec_width() + 1,
                steps@,
            ),
        ) == 2 * (lattice.spec_width() * lattice.spec_height()) - 1,
{
    let ghost sw = 2 * lattice.spec_width() + 1;
    let ghost sh = 2 * lattice.spec_height() + 1;
    let ghost blank = all_walls(sw * sh);
    let n = lattice.len();
    let mut groups = DisjointSets::new(n);

    // Each wall once: a corridor lists only its right and lower neighbours.
    let corridors = lattice.corridors();
    let mut walls: Vec<((usize, usize), (usize, usize))> = Vec::new();
    let mut i: usize = 0;
    while i < corridors.len()
        invariant
            lattice.wf(),
            i <= corridors@.len(),
            forall|k: int| 0 <= k < corridors@.len() ==> lattice.open_at(#[trigger] corridors@[k]),
            forall|x: int, y: int|
                #[trigger] lattice.is_open(x, y) ==> corridors@.contains((x as usize, y as usize)),
            forall|k: int|
                0 <= k < walls@.len() ==> lattice.open_at((#[trigger] walls@[k]).0) && lattice.open_at(
                    walls@[k].1,
                ) && adjacent(walls@[k].0, walls@[k].1),
            forall|k: int, q: (usize, usize)|
                0 <= k < i && #[trigger] lattice.open_at(q) && adjacent(#[trigger] corridors@[k], q) && (
                q.0 > corridors@[k].0 || q.1 > corridors@[k].1) ==> walls@.contains((corridors@[k], q)),
        decreases corridors@.len() - i,
    {
        let (x, y) = corridors[i];
        proof {
            assert(lattice.open_at(corridors@[i as int]));
        }
        let nbrs = lattice.neighbours(x, y);
        let ghost walls0 = walls@;
        let mut k: usize = 0;
        while k < nbrs.len()
            invariant
                lattice.wf(),
                i < corridors@.len(),
                corridors@[i as int] == (x, y),
                lattice.open_at((x, y)),
                k <= nbrs@.len(),
                forall|j: int|
                    0 <= j < nbrs@.len() ==> lattice.open_at(#[trigger] nbrs@[j]) && adjacent((x, y), nbrs@[j]),
                forall|j: int|
                    0 <= j < walls@.len() ==> lattice.open_at((#[trigger] walls@[j]).0) && lattice.open_at(
                        walls@[j].1,
                    ) && adjacent(walls@[j].0, walls@[j].1),
                walls0.len() <= walls@.len(),
                forall|j: int| 0 <= j < walls0.len() ==> #[trigger] walls@[j] == walls0[j],
                forall|j: int|
                    0 <= j < k && (nbrs@[j].0 > x || nbrs@[j].1 > y) ==> walls@.contains(
                        ((x, y), #[trigger] nbrs@[j]),
                    ),
            decreases nbrs@.len() - k,
        {
            let (nx, ny) = nbrs[k];
            let ghost before = walls@;
            if nx > x || ny > y {
                walls.push(((x, y), (nx, ny)));
            }
            proof {
                assert(lattice.open_at(nbrs@[k as int]));
                assert forall|j: int|
                    0 <= j < walls@.len() implies lattice.open_at((#[trigger] walls@[j]).0) && lattice.open_at(
                        walls@[j].1,
                    ) && adjacent(walls@[j].0, walls@[j].1) by {
                    if j < before.len() {
                        assert(walls@[j] == before[j]);
                    }
                }
                assert forall|j: int|
                    0 <= j < k + 1 && (nbrs@[j].0 > x || nbrs@[j].1 > y) implies walls@.contains(
                        ((x, y), #[trigger] nbrs@[j]),
                    ) by {
                    if j < k {
                        let m = choose|m: int| 0 <= m < before.len() && before[m] == ((x, y), nbrs@[j]);
                        assert(walls@[m] == before[m]);
                    } else {
                        assert(walls@[walls@.len() - 1] == ((x, y), nbrs@[j]));
                    }
                }
            }
            k = k + 1;
        }
        proof {
            assert forall|k2: int, q: (usize, usize)|
                0 <= k2 < i + 1 && #[trigger] lattice.open_at(q) && adjacent(#[trigger] corridors@[k2], q) && (
                q.0 > corridors@[k2].0 || q.1 > corridors@[k2].1) implies walls@.contains((corridors@[k2], q)) by {
                if k2 < i {
                    let m = choose|m: int| 0 <= m < walls0.len() && walls0[m] == (corridors@[k2], q);
                    assert(walls@[m] == walls0[m]);
                } else {
                    assert(nbrs@.contains(q));
                    let j = choose|j: int| 0 <= j < nbrs@.len() && nbrs@[j] == q;
                }
            }
        }
        i = i + 1;
    }
    let ghost unshuffled = walls@;
    shuffle(&mut walls, rng);
    proof {
        unshuffled.to_multiset_ensures();
        walls@.to_multiset_ensures();
        assert forall|k: int|
            0 <= k < walls@.len() implies lattice.open_at((#[trigger] walls@[k]).0) && lattice.open_at(
                walls@[k].1,
            ) && adjacent(walls@[k].0, walls@[k].1) by {
            assert(walls@.contains(walls@[k]));
            assert(walls@.to_multiset().count(walls@[k]) > 0);
            assert(unshuffled.to_multiset().count(walls@[k]) > 0);
            assert(unshuffled.contains(walls@[k]));
        }
    }

    let mut steps: Vec<Step> = Vec::new();
    let ghost mut cells = blank;
    proof {
        lattice.lemma_fits();
        assert(0 <= sw * sh) by (nonlinear_arith)
            requires
                0 <= sw,
                0 <= sh,
        ;
        reveal(replay);
        assert(after_steps(blank, sw, steps@) == blank);
        lemma_kruskal_start(*lattice, blank, sw, sh);
        lemma_count_start(*lattice, blank, sw, sh);
        assert forall|p: (usize, usize), q: (usize, usize)|
            #[trigger] lattice.open_at(p) && #[trigger] lattice.open_at(q) && p != q && groups@[lattice.flat(
                p,
            )] == groups@[lattice.flat(q)] implies steps@.contains(floor_step(p.0 as int, p.1 as int)) by {
            crate::maze::grid::lemma_square_index(lattice.spec_width(), lattice.spec_height(), p.0 as int, p.1 as int);
            crate::maze::grid::lemma_square_index(lattice.spec_width(), lattice.spec_height(), q.0 as int, q.1 as int);
            if lattice.flat(p) == lattice.flat(q) {
                crate::maze::grid::lemma_square_index_injective(
                    lattice.spec_width(),
                    p.0 as int,
                    p.1 as int,
                    q.0 as int,
                    q.1 as int,
                );
            }
        }
    }
    let mut w: usize = 0;
    while w < walls.len()
        invariant
            lattice.wf(),
            n == lattice.spec_width() * lattice.spec_height(),
            groups.wf(),
            groups@.len() == n,
            super::disjoint_sets::is_grouping(groups@),
            w <= walls@.len(),
            forall|k: int|
                0 <= k < walls@.len() ==> lattice.open_at((#[trigger] walls@[k]).0) && lattice.open_at(
                    walls@[k].1,
                ) && adjacent(walls@[k].0, walls@[k].1),
            lattice.carves(steps@, |c: Cell| c == Cell::Floor),
            grouped_floored(lattice, groups@, steps@),
            forall|k: int|
                0 <= k < w ==> groups@[lattice.flat((#[trigger] walls@[k]).0)] == groups@[lattice.flat(
                    walls@[k].1,
                )],
            sw == 2 * lattice.spec_width() + 1,
            sh == 2 * lattice.spec_height() + 1,
            blank == all_walls(sw * sh),
            cells == replay(blank, sw, steps@),
            cells.len() == sw * sh,
            groups_joined(*lattice, groups@, cells, sw, sh),
            hangs_on(*lattice, cells, sw, sh),
            merges_counted(*lattice, groups@, cells, sw, sh),
        decreases walls@.len() - w,
    {
        let ((ax, ay), (bx, by)) = walls[w];
        proof {
            assert(lattice.open_at(walls@[w as int].0));
        }
        let a = lattice.index(ax, ay);
        let b = lattice.index(bx, by);
        let ghost reps0 = groups@;
        let ghost steps0 = steps@;
        if groups.merge(a, b) {
            proof {
                lattice.lemma_corridor_owned(ax as int, ay as int);
                lattice.lemma_corridor_owned(bx as int, by as int);
                lattice.lemma_between_owned((ax, ay), (bx, by));
            }
            let s1 = floor(ax, ay);
            let s2 = wall_between(ax, ay, bx, by);
            let s3 = floor(bx, by);
            steps.push(s1);
            steps.push(s2);
            steps.push(s3);
            proof {
                let cells0 = cells;
                let cells1 = after_step(cells0, sw, s1);
                let cells2 = after_step(cells1, sw, s2);
                let cells3 = after_step(cells2, sw, s3);
                lemma_replay_push(blank, sw, steps0, s1);
                lemma_replay_push(blank, sw, steps0.push(s1), s2);
                lemma_replay_push(blank, sw, steps0.push(s1).push(s2), s3);
                lemma_opened_only(cells0, sw, sh, s1);
                lemma_opened_only(cells1, sw, sh, s2);
                lemma_opened_only(cells2, sw, sh, s3);
                lemma_three_opened(cells0, cells1, cells2, cells3, sw, sh, (s1.x, s1.y), (s2.x, s2.y), (s3.x, s3.y));
                lemma_kruskal_merge(*lattice, reps0, cells0, cells3, sw, sh, (ax, ay), (bx, by), (s2.x, s2.y));
                assert(adjacent(walls@[w as int].0, walls@[w as int].1));
                lemma_count_merge(*lattice, reps0, cells0, sw, sh, (ax, ay), (bx, by));
                cells = cells3;
            }
            proof {
                assert(steps@ =~= steps0 + seq![
                    floor_step(ax as int, ay as int),
                    steps@[steps0.len() as int + 1],
                    floor_step(bx as int, by as int),
                ]);
                lemma_merge_keeps_floors(lattice, reps0, steps0, steps@, (ax, ay), (bx, by));
                super::disjoint_sets::lemma_merge_joins(reps0, a, b);
            }
        } else {
            proof {
                crate::maze::grid::lemma_square_index(lattice.spec_width(), lattice.spec_height(), ax as int, ay as int);
                crate::maze::grid::lemma_square_index(lattice.spec_width(), lattice.spec_height(), bx as int, by as int);
            }
        }
        proof {
            assert forall|k: int|
                0 <= k < w + 1 implies groups@[lattice.flat((#[trigger] walls@[k]).0)] == groups@[lattice.flat(
                    walls@[k].1,
                )] by {
                let p = walls@[k].0;
                let q = walls@[k].1;
                assert(lattice.open_at(p) && lattice.open_at(q));
                crate::maze::grid::lemma_square_index(lattice.spec_width(), lattice.spec_height(), p.0 as int, p.1 as int);
                crate::maze::grid::lemma_square_index(lattice.spec_width(), lattice.spec_height(), q.0 as int, q.1 as int);
                if k < w {
                    assert(reps0[lattice.flat(p)] == reps0[lattice.flat(q)]);
                }
            }
        }
        w = w + 1;
    }
    proof {
        assert forall|p: (usize, usize), q: (usize, usize)|
            lattice.open_at(p) && lattice.open_at(q) && #[trigger] adjacent(p, q) implies groups@[lattice.flat(p)]
                == groups@[lattice.flat(q)] by {
            let wall = if q.0 > p.0 || q.1 > p.1 { (p, q) } else { (q, p) };
            assert(corridors@.contains(wall.0));
            let k = choose|k: int| 0 <= k < corridors@.len() && corridors@[k] == wall.0;
            assert(unshuffled.contains(wall));
            unshuffled.to_multiset_ensures();
            walls@.to_multiset_ensures();
            assert(unshuffled.to_multiset().count(wall) > 0);
            assert(walls@.to_multiset().count(wall) > 0);
            assert(walls@.contains(wall));
            let m = choose|m: int| 0 <= m < walls@.len() && walls@[m] == wall;
            assert(groups@[lattice.flat(walls@[m].0)] == groups@[lattice.flat(walls@[m].1)]);
        }
        assert forall|p: (usize, usize), q: (usize, usize)|
            #[trigger] lattice.open_at(p) && #[trigger] lattice.open_at(q) && adjacent(p, q) implies steps@.contains(
                floor_step(p.0 as int, p.1 as int),
            ) by {
            assert(groups@[lattice.flat(p)] == groups@[lattice.flat(q)]);
            assert(p != q);
        }
        if is_open_lattice(*lattice, lattice.spec_width(), lattice.spec_height()) {
            lemma_kruskal_done(*lattice, groups@, cells, sw, sh);
            if lattice.spec_width() * lattice.spec_height() >= 2 {
                lemma_count_done(*lattice, groups@, cells, sw, sh);
            }
        }
        reveal(replay);
    }
    steps
}

/// A merge that floors both corridors keeps every grouped corridor floored.
proof fn lemma_merge_keeps_floors(
    lattice: &Lattice,
    reps0: Seq<usize>,
    steps0: Seq<Step>,
    steps: Seq<Step>,
    a: (usize, usize),
    b: (usize, usize),
)
    requires
        lattice.wf(),
        lattice.open_at(a),
        lattice.open_at(b),
        reps0.len() == lattice.spec_width() * lattice.spec_height(),
        super::disjoint_sets::is_grouping(reps0),
        reps0[lattice.flat(a)] != reps0[lattice.flat(b)],
        grouped_floored(lattice, reps0, steps0),
        steps == steps0 + seq![
            floor_step(a.0 as int, a.1 as int),
            steps[steps0.len() as int + 1],
            floor_step(b.0 as int, b.1 as int),
        ],
    ensures
        grouped_floored(
            lattice,
            joined(reps0, reps0[lattice.flat(a)], reps0[lattice.flat(b)]),
            steps,
        ),
{
    let w = lattice.spec_width();
    let h = lattice.spec_height();
    let ra = reps0[lattice.flat(a)];
    let rb = reps0[lattice.flat(b)];
    let reps = joined(reps0, ra, rb);
    crate::maze::grid::lemma_square_index(w, h, a.0 as int, a.1 as int);
    crate::maze::grid::lemma_square_index(w, h, b.0 as int, b.1 as int);
    assert(steps[steps0.len() as int] == floor_step(a.0 as int, a.1 as int));
    assert(steps[steps0.len() as int + 2] == floor_step(b.0 as int, b.1 as int));
    assert forall|p: (usize, usize), q: (usize, usize)|
        #[trigger] lattice.open_at(p) && #[trigger] lattice.open_at(q) && p != q && reps[lattice.flat(p)]
            == reps[lattice.flat(q)] implies steps.contains(floor_step(p.0 as int, p.1 as int)) by {
        crate::maze::grid::lemma_square_index(w, h, p.0 as int, p.1 as int);
        crate::maze::grid::lemma_square_index(w, h, q.0 as int, q.1 as int);
        if p == a || p == b {
        } else {
            let rp = reps0[lattice.flat(p)];
            let rq = reps0[lattice.flat(q)];
            // p shares its old group with a, with b, or with q
            if rp == ra {
                if lattice.flat(p) == lattice.flat(a) {
                    crate::maze::grid::lemma_square_index_injective(w, p.0 as int, p.1 as int, a.0 as int, a.1 as int);
                }
                assert(steps0.contains(floor_step(p.0 as int, p.1 as int)));
            } else if rp == rb {
                if lattice.flat(p) == lattice.flat(b) {
                    crate::maze::grid::lemma_square_index_injective(w, p.0 as int, p.1 as int, b.0 as int, b.1 as int);
                }
                assert(steps0.contains(floor_step(p.0 as int, p.1 as int)));
            } else {
                assert(rp == rq);
                assert(steps0.contains(floor_step(p.0 as int, p.1 as int)));
            }
            let j = choose|j: int| 0 <= j < steps0.len() && steps0[j] == floor_step(p.0 as int, p.1 as int);
            assert(steps[j] == steps0[j]);
        }
    }
}


/// Corridors of one group reach each other over the open squares.
#[verifier::opaque]
pub open spec fn groups_joined(lattice: Lattice, reps: Seq<usize>, cells: Seq<Cell>, w: int, h: int) -> bool {
    forall|p: (usize, usize), q: (usize, usize)|
        lattice.open_at(p) && lattice.open_at(q) && #[trigger] reps[lattice.flat(p)] == #[trigger] reps[lattice.flat(q)]
            ==> joins(cells, w, h, corridor_square(p), corridor_square(q))
}

/// Every open square is an open corridor's square or next to one.
#[verifier::opaque]
pub open spec fn hangs_on(lattice: Lattice, cells: Seq<Cell>, w: int, h: int) -> bool {
    forall|r: (usize, usize)|
        #[trigger] open_in(cells, w, h, r) ==> exists|p: (usize, usize)|
            #![trigger corridor_square(p)]
            lattice.open_at(p) && open_in(cells, w, h, corridor_square(p)) && (r == corridor_square(p) || adjacent(
                corridor_square(p),
                r,
            ))
}

/// Knocking down the wall between corridors `a` and `b`, flooring both,
/// joins their groups over the open squares.
pub(crate) proof fn lemma_kruskal_merge(
    lattice: Lattice,
    reps0: Seq<usize>,
    cells0: Seq<Cell>,
    cells3: Seq<Cell>,
    w: int,
    h: int,
    a: (usize, usize),
    b: (usize, usize),
    m: (usize, usize),
)
    requires
        lattice.wf(),
        w == 2 * lattice.spec_width() + 1,
        h == 2 * lattice.spec_height() + 1,
        is_grouping(reps0),
        reps0.len() == lattice.spec_width() * lattice.spec_height(),
        lattice.open_at(a),
        lattice.open_at(b),
        adjacent(corridor_square(a), m),
        adjacent(m, corridor_square(b)),
        groups_joined(lattice, reps0, cells0, w, h),
        hangs_on(lattice, cells0, w, h),
        cells0.len() == w * h,
        opens_more(cells0, cells3),
        open_in(cells3, w, h, corridor_square(a)),
        open_in(cells3, w, h, m),
        open_in(cells3, w, h, corridor_square(b)),
        forall|r: (usize, usize)|
            #[trigger] open_in(cells3, w, h, r) && r != corridor_square(a) && r != m && r != corridor_square(b)
                ==> open_in(cells0, w, h, r),
    ensures
        groups_joined(lattice, joined(reps0, reps0[lattice.flat(a)], reps0[lattice.flat(b)]), cells3, w, h),
        hangs_on(lattice, cells3, w, h),
{
    reveal(groups_joined);
    reveal(hangs_on);
    let lw = lattice.spec_width();
    let lh = lattice.spec_height();
    lemma_square_index(lw, lh, a.0 as int, a.1 as int);
    lemma_square_index(lw, lh, b.0 as int, b.1 as int);
    lemma_merge_joins(reps0, lattice.flat(a) as usize, lattice.flat(b) as usize);
    let reps = joined(reps0, reps0[lattice.flat(a)], reps0[lattice.flat(b)]);
    let sa = corridor_square(a);
    let sb = corridor_square(b);
    lemma_square_index(w, h, sa.0 as int, sa.1 as int);
    lemma_square_index(w, h, sb.0 as int, sb.1 as int);
    lemma_joins_self(cells3, w, h, sa);
    lemma_joins_step(cells3, w, h, sa, sa, m);
    lemma_joins_step(cells3, w, h, sa, m, sb);
    assert(adjacent(sb, m));
    assert(adjacent(m, sa));
    lemma_joins_self(cells3, w, h, sb);
    lemma_joins_step(cells3, w, h, sb, sb, m);
    lemma_joins_step(cells3, w, h, sb, m, sa);
    assert forall|p: (usize, usize), q: (usize, usize)|
        lattice.open_at(p) && lattice.open_at(q) && #[trigger] reps[lattice.flat(p)] == #[trigger] reps[lattice.flat(q)]
            implies joins(cells3, w, h, corridor_square(p), corridor_square(q)) by {
        lemma_square_index(lw, lh, p.0 as int, p.1 as int);
        lemma_square_index(lw, lh, q.0 as int, q.1 as int);
        let fp = lattice.flat(p);
        let fq = lattice.flat(q);
        let fa = lattice.flat(a);
        let fb = lattice.flat(b);
        if reps0[fp] == reps0[fq] {
            lemma_joins_grows(cells0, cells3, w, h, corridor_square(p), corridor_square(q));
        } else if reps0[fp] == reps0[fa] && reps0[fq] == reps0[fb] {
            lemma_joins_grows(cells0, cells3, w, h, corridor_square(p), sa);
            lemma_joins_grows(cells0, cells3, w, h, sb, corridor_square(q));
            lemma_joins_chain(cells3, w, h, corridor_square(p), sa, sb);
            lemma_joins_chain(cells3, w, h, corridor_square(p), sb, corridor_square(q));
        } else {
            assert(reps0[fp] == reps0[fb] && reps0[fq] == reps0[fa]);
            lemma_joins_grows(cells0, cells3, w, h, corridor_square(p), sb);
            lemma_joins_grows(cells0, cells3, w, h, sa, corridor_square(q));
            lemma_joins_chain(cells3, w, h, corridor_square(p), sb, sa);
            lemma_joins_chain(cells3, w, h, corridor_square(p), sa, corridor_square(q));
        }
    }
    assert forall|r: (usize, usize)| #[trigger] open_in(cells3, w, h, r) implies exists|p: (usize, usize)|
        #![trigger corridor_square(p)]
        lattice.open_at(p) && open_in(cells3, w, h, corridor_square(p)) && (r == corridor_square(p) || adjacent(
            corridor_square(p),
            r,
        )) by {
        if r == sa || r == m {
            assert(lattice.open_at(a) && open_in(cells3, w, h, corridor_square(a)));
        } else if r == sb {
            assert(lattice.open_at(b) && open_in(cells3, w, h, corridor_square(b)));
        } else {
            assert(open_in(cells0, w, h, r));
            let p = choose|p: (usize, usize)|
                #![trigger corridor_square(p)]
                lattice.open_at(p) && open_in(cells0, w, h, corridor_square(p)) && (r == corridor_square(p) || adjacent(
                    corridor_square(p),
                    r,
                ));
            lemma_square_index(w, h, corridor_square(p).0 as int, corridor_square(p).1 as int);
            assert(open_in(cells3, w, h, corridor_square(p)));
        }
    }
}

/// On an open lattice whose adjacent corridors all share a group, every
/// corridor is in the group of corridor (0, 0).
proof fn lemma_one_group(lattice: Lattice, reps: Seq<usize>, x: int, y: int)
    requires
        lattice.wf(),
        is_open_lattice(lattice, lattice.spec_width(), lattice.spec_height()),
        reps.len() == lattice.spec_width() * lattice.spec_height(),
        forall|p: (usize, usize), q: (usize, usize)|
            lattice.open_at(p) && lattice.open_at(q) && #[trigger] adjacent(p, q) ==> reps[lattice.flat(p)]
                == reps[lattice.flat(q)],
        0 <= x < lattice.spec_width(),
        0 <= y < lattice.spec_height(),
    ensures
        reps[y * lattice.spec_width() + x] == reps[0],
    decreases y, x,
{
    let lw = lattice.spec_width();
    let lh = lattice.spec_height();
    lemma_square_index(lw, lh, x, y);
    if x > 0 {
        lemma_one_group(lattice, reps, x - 1, y);
        lemma_square_index(lw, lh, x - 1, y);
        let p = ((x - 1) as usize, y as usize);
        let q = (x as usize, y as usize);
        assert(adjacent(p, q));
        assert(lattice.open_at(p) && lattice.open_at(q));
    } else if y > 0 {
        lemma_one_group(lattice, reps, 0, y - 1);
        lemma_square_index(lw, lh, 0, y - 1);
        let p = (0usize, (y - 1) as usize);
        let q = (0usize, y as usize);
        assert(adjacent(p, q));
        assert(lattice.open_at(p) && lattice.open_at(q));
    }
}

/// Once every wall has been looked at, an open lattice hangs together.
proof fn lemma_kruskal_done(lattice: Lattice, reps: Seq<usize>, cells: Seq<Cell>, w: int, h: int)
    requires
        lattice.wf(),
        w == 2 * lattice.spec_width() + 1,
        h == 2 * lattice.spec_height() + 1,
        is_open_lattice(lattice, lattice.spec_width(), lattice.spec_height()),
        reps.len() == lattice.spec_width() * lattice.spec_height(),
        forall|p: (usize, usize), q: (usize, usize)|
            lattice.open_at(p) && lattice.open_at(q) && #[trigger] adjacent(p, q) ==> reps[lattice.flat(p)]
                == reps[lattice.flat(q)],
        groups_joined(lattice, reps, cells, w, h),
        hangs_on(lattice, cells, w, h),
    ensures
        all_joined(cells, w, h, (1, 1)),
{
    reveal(groups_joined);
    reveal(hangs_on);
    let lw = lattice.spec_width();
    let lh = lattice.spec_height();
    assert forall|r: (usize, usize)| #[trigger] open_in(cells, w, h, r) implies joins(cells, w, h, (1, 1), r) by {
        let p = choose|p: (usize, usize)|
            #![trigger corridor_square(p)]
            lattice.open_at(p) && open_in(cells, w, h, corridor_square(p)) && (r == corridor_square(p) || adjacent(
                corridor_square(p),
                r,
            ));
        lemma_one_group(lattice, reps, p.0 as int, p.1 as int);
        let origin = (0usize, 0usize);
        lemma_square_index(lw, lh, 0, 0);
        assert(lattice.open_at(origin));
        assert(reps[lattice.flat(origin)] == reps[lattice.flat(p)]);
        assert(corridor_square(origin) == (1usize, 1usize));
        assert(joins(cells, w, h, corridor_square(origin), corridor_square(p)));
        if r != corridor_square(p) {
            lemma_joins_step(cells, w, h, (1, 1), corridor_square(p), r);
        }
    }
}


/// Three steps that each open one square open exactly those three.
proof fn lemma_three_opened(
    cells0: Seq<Cell>,
    cells1: Seq<Cell>,
    cells2: Seq<Cell>,
    cells3: Seq<Cell>,
    w: int,
    h: int,
    a: (usize, usize),
    m: (usize, usize),
    b: (usize, usize),
)
    requires
        opened_only(cells0, cells1, w, h, a),
        opened_only(cells1, cells2, w, h, m),
        opened_only(cells2, cells3, w, h, b),
    ensures
        opens_more(cells0, cells3),
        cells3.len() == w * h,
        open_in(cells3, w, h, a),
        open_in(cells3, w, h, m),
        open_in(cells3, w, h, b),
        forall|r: (usize, usize)|
            #[trigger] open_in(cells3, w, h, r) && r != a && r != m && r != b ==> open_in(cells0, w, h, r),
{
    lemma_square_index(w, h, a.0 as int, a.1 as int);
    lemma_square_index(w, h, m.0 as int, m.1 as int);
    assert(open_in(cells2, w, h, a));
    assert forall|i: int| 0 <= i < cells0.len() && cells0[i] != Cell::Wall implies #[trigger] cells3[i] != Cell::Wall by {
        assert(cells1[i] != Cell::Wall);
        assert(cells2[i] != Cell::Wall);
    }
    assert forall|r: (usize, usize)|
        #[trigger] open_in(cells3, w, h, r) && r != a && r != m && r != b implies open_in(cells0, w, h, r) by {
        assert(open_in(cells2, w, h, r));
        assert(open_in(cells1, w, h, r));
    }
}

/// Before any wall is knocked down, each corridor is its own group and no
/// square is open.
proof fn lemma_kruskal_start(lattice: Lattice, walls: Seq<Cell>, w: int, h: int)
    requires
        lattice.wf(),
        w == 2 * lattice.spec_width() + 1,
        h == 2 * lattice.spec_height() + 1,
        walls == all_walls(w * h),
        0 <= w * h,
    ensures
        groups_joined(
            lattice,
            Seq::new((lattice.spec_width() * lattice.spec_height()) as nat, |i: int| i as usize),
            walls,
            w,
            h,
        ),
        hangs_on(lattice, walls, w, h),
{
    reveal(groups_joined);
    reveal(hangs_on);
    let lw = lattice.spec_width();
    let lh = lattice.spec_height();
    let reps = Seq::new((lw * lh) as nat, |i: int| i as usize);
    lattice.lemma_fits();
    assert forall|p: (usize, usize), q: (usize, usize)|
        lattice.open_at(p) && lattice.open_at(q) && #[trigger] reps[lattice.flat(p)] == #[trigger] reps[lattice.flat(q)]
            implies joins(walls, w, h, corridor_square(p), corridor_square(q)) by {
        lemma_square_index(lw, lh, p.0 as int, p.1 as int);
        lemma_square_index(lw, lh, q.0 as int, q.1 as int);
        if p != q {
            lemma_square_index_injective(lw, p.0 as int, p.1 as int, q.0 as int, q.1 as int);
        }
        lemma_joins_self(walls, w, h, corridor_square(p));
    }
    assert forall|r: (usize, usize)| #[trigger] open_in(walls, w, h, r) implies exists|p: (usize, usize)|
        #![trigger corridor_square(p)]
        lattice.open_at(p) && open_in(walls, w, h, corridor_square(p)) && (r == corridor_square(p) || adjacent(
            corridor_square(p),
            r,
        )) by {
        lemma_square_index(w, h, r.0 as int, r.1 as int);
    }
}

/// What the merges so far have opened, counted as for any linking carver;
/// besides, a corridor sharing its group with another is floored.
#[verifier::opaque]
pub open spec fn merges_counted(lattice: Lattice, reps: Seq<usize>, cells: Seq<Cell>, w: int, h: int) -> bool {
    &&& links_counted(lattice, reps, cells, w, h)
    &&& forall|p: (usize, usize), q: (usize, usize)|
        lattice.open_at(p) && lattice.open_at(q) && p != q && #[trigger] reps[lattice.flat(p)]
            == #[trigger] reps[lattice.flat(q)] ==> open_in(cells, w, h, corridor_square(p))
}

/// Before any merge: every corridor its own group, nothing open.
proof fn lemma_count_start(lattice: Lattice, blank: Seq<Cell>, w: int, h: int)
    requires
        lattice.wf(),
        w == 2 * lattice.spec_width() + 1,
        h == 2 * lattice.spec_height() + 1,
        blank == all_walls(w * h),
        0 <= w * h,
    ensures
        merges_counted(
            lattice,
            Seq::new((lattice.spec_width() * lattice.spec_height()) as nat, |i: int| i as usize),
            blank,
            w,
            h,
        ),
{
    reveal(merges_counted);
    let lw = lattice.spec_width();
    let lh = lattice.spec_height();
    lattice.lemma_fits();
    let reps = Seq::new((lw * lh) as nat, |i: int| i as usize);
    lemma_links_start(lattice, blank, w, h);
    assert forall|p: (usize, usize), q: (usize, usize)|
        lattice.open_at(p) && lattice.open_at(q) && p != q && #[trigger] reps[lattice.flat(p)]
            == #[trigger] reps[lattice.flat(q)] implies open_in(blank, w, h, corridor_square(p)) by {
        lemma_square_index(lw, lh, p.0 as int, p.1 as int);
        lemma_square_index(lw, lh, q.0 as int, q.1 as int);
        lemma_square_index_injective(lw, p.0 as int, p.1 as int, q.0 as int, q.1 as int);
    }
}

/// Merging the groups of adjacent corridors `a` and `b` by flooring `a`,
/// the wall between them and `b` keeps the count, and both corridors of the
/// merged group are floored.
#[verifier::rlimit(60)]
#[verifier::spinoff_prover]
proof fn lemma_count_merge(
    lattice: Lattice,
    reps0: Seq<usize>,
    cells0: Seq<Cell>,
    w: int,
    h: int,
    a: (usize, usize),
    b: (usize, usize),
)
    requires
        lattice.wf(),
        w == 2 * lattice.spec_width() + 1,
        h == 2 * lattice.spec_height() + 1,
        is_grouping(reps0),
        reps0.len() == lattice.spec_width() * lattice.spec_height(),
        cells0.len() == w * h,
        lattice.open_at(a),
        lattice.open_at(b),
        adjacent(a, b),
        reps0[lattice.flat(a)] != reps0[lattice.flat(b)],
        merges_counted(lattice, reps0, cells0, w, h),
    ensures
        merges_counted(
            lattice,
            joined(reps0, reps0[lattice.flat(a)], reps0[lattice.flat(b)]),
            after_step(
                after_step(after_step(cells0, w, floor_step(a.0 as int, a.1 as int)), w, link_step(a, b)),
                w,
                floor_step(b.0 as int, b.1 as int),
            ),
            w,
            h,
        ),
{
    reveal(merges_counted);
    let lw = lattice.spec_width();
    let lh = lattice.spec_height();
    lattice.lemma_fits();
    lemma_square_index(lw, lh, a.0 as int, a.1 as int);
    lemma_square_index(lw, lh, b.0 as int, b.1 as int);
    let fa = lattice.flat(a);
    let fb = lattice.flat(b);
    let ra = reps0[fa];
    let rb = reps0[fb];
    let reps = joined(reps0, ra, rb);
    lemma_merge_joins(reps0, fa as usize, fb as usize);
    let cells1 = after_step(cells0, w, floor_step(a.0 as int, a.1 as int));
    let cells2 = after_step(cells1, w, link_step(a, b));
    let cells3 = after_step(cells2, w, floor_step(b.0 as int, b.1 as int));
    lemma_floor_count(lattice, reps0, cells0, w, h, a);
    lemma_link_count(lattice, reps0, cells1, w, h, a, b);
    lemma_floor_count(lattice, reps, cells2, w, h, b);
    let sa = corridor_square(a);
    let sb = corridor_square(b);
    let m = (link_step(a, b).x, link_step(a, b).y);
    assert(sa != m && sb != m);
    assert forall|r: (usize, usize)| open_in(cells0, w, h, r) implies #[trigger] open_in(cells3, w, h, r) by {
        if r != sa {
            assert(open_in(cells1, w, h, r));
        }
        assert(open_in(cells1, w, h, r));
        assert(open_in(cells2, w, h, r));
    }
    assert(open_in(cells3, w, h, sa)) by {
        assert(open_in(cells1, w, h, sa));
        assert(open_in(cells2, w, h, sa));
    }
    // A corridor sharing its group is floored.
    assert forall|p: (usize, usize), q: (usize, usize)|
        lattice.open_at(p) && lattice.open_at(q) && p != q && #[trigger] reps[lattice.flat(p)]
            == #[trigger] reps[lattice.flat(q)] implies open_in(cells3, w, h, corridor_square(p)) by {
        lemma_square_index(lw, lh, p.0 as int, p.1 as int);
        lemma_square_index(lw, lh, q.0 as int, q.1 as int);
        let fp = lattice.flat(p);
        let fq = lattice.flat(q);
        if p != a && p != b {
            if fp == fa {
                lemma_square_index_injective(lw, p.0 as int, p.1 as int, a.0 as int, a.1 as int);
            }
            if fp == fb {
                lemma_square_index_injective(lw, p.0 as int, p.1 as int, b.0 as int, b.1 as int);
            }
            if reps0[fp] == reps0[fq] {
            } else if reps0[fp] == ra {
                assert(reps0[fp] == reps0[fa]);
            } else {
                assert(reps0[fp] == reps0[fb]);
            }
            assert(open_in(cells0, w, h, corridor_square(p)));
        }
    }
}

/// Once an open lattice of two or more corridors is one group, the count
/// is a tree's: every corridor floored, since each shares its group with
/// another, and one wall for every corridor but the first.
#[verifier::rlimit(50)]
#[verifier::spinoff_prover]
proof fn lemma_count_done(lattice: Lattice, reps: Seq<usize>, cells: Seq<Cell>, w: int, h: int)
    requires
        lattice.wf(),
        w == 2 * lattice.spec_width() + 1,
        h == 2 * lattice.spec_height() + 1,
        is_open_lattice(lattice, lattice.spec_width(), lattice.spec_height()),
        lattice.spec_width() * lattice.spec_height() >= 2,
        is_grouping(reps),
        reps.len() == lattice.spec_width() * lattice.spec_height(),
        forall|p: (usize, usize), q: (usize, usize)|
            lattice.open_at(p) && lattice.open_at(q) && #[trigger] adjacent(p, q) ==> reps[lattice.flat(p)]
                == reps[lattice.flat(q)],
        merges_counted(lattice, reps, cells, w, h),
    ensures
        walkable_count(cells) == 2 * (lattice.spec_width() * lattice.spec_height()) - 1,
{
    reveal(merges_counted);
    let lw = lattice.spec_width();
    let lh = lattice.spec_height();
    assert forall|x: int, y: int| #[trigger] lattice.is_open(x, y) implies reps[y * lw + x] == reps[0] by {
        lemma_one_group(lattice, reps, x, y);
    }
    assert forall|x: int, y: int| #[trigger] lattice.is_open(x, y) implies open_in(
        cells,
        w,
        h,
        corridor_square((x as usize, y as usize)),
    ) by {
        let i = y * lw + x;
        lemma_square_index(lw, lh, x, y);
        let j: int = if i == 0 { 1 } else { 0 };
        lemma_decode_flat(lattice, j);
        let p = (x as usize, y as usize);
        let q = decode(lw, j);
        lemma_one_group(lattice, reps, q.0 as int, q.1 as int);
        assert(lattice.open_at(q));
        assert(reps[lattice.flat(p)] == reps[lattice.flat(q)]);
    }
    lemma_links_done(lattice, reps, cells, w, h);
}

} // verus!
