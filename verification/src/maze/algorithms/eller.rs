use rand::rngs::StdRng;
use vstd::prelude::*;

use super::disjoint_sets::{DisjointSets, alone, is_grouping, joined, lemma_alone_kept, lemma_merge_joins};
use super::counting::{lemma_floor_count, lemma_link_count, lemma_links_done, lemma_links_start, links_counted};
use super::dungeon::walkable_count;
use super::kruskal::{groups_joined, hangs_on, lemma_kruskal_merge};
use super::spanning::{corridor_square, drawn, drawn_height, drawn_width};
use super::{Lattice, all_walls, floor, floor_step, is_open_lattice, wall_between};
use crate::maze::grid::{Cell, Step, adjacent, after_step, after_steps, lemma_square_index, lemma_square_index_injective, square_index};
use crate::maze::walks::{
    all_joined, joins, lemma_joins_self, lemma_joins_step, lemma_opened_only, lemma_replay_push, open_in, opened_only,
    plain, replay,
};
use crate::random::{pick, random_ratio};

verus! {

/// Eller's algorithm: one row at a time, tracking which corridors of the
/// row are already connected (sets). Randomly join neighbours of different
/// sets, then send every set at least one link down so none is left behind.
/// The last row joins everything that is still apart. It only ever needs
/// the current row, so it could generate an endless maze.
#[verifier::rlimit(100)]
#[verifier::spinoff_prover]
pub fn carve(lattice: &Lattice, rng: &mut StdRng) -> (steps: Vec<Step>)
    requires
        lattice.wf(),
    ensures
        lattice.carves(steps@, |c: Cell| c == Cell::Floor),
        lattice.floors_every_corridor(steps@),
        is_open_lattice(*lattice, lattice.spec_width(), lattice.spec_height()) ==> all_joined(
            after_steps(
                all_walls((2 * lattice.spec_width() + 1) * (2 * lattice.spec_height() + 1)),
                2 * lattice.spec_width() + 1,
                steps@,
            ),
            2 * lattice.spec_width() + 1,
            2 * lattice.spec_height() + 1,
            (1, 1),
        ),
        is_open_lattice(*lattice, lattice.spec_width(), lattice.spec_height()) && lattice.spec_width()
            * lattice.spec_height() >= 1 ==> walkable_count(
            after_steps(
                all_walls((2 * lattice.spec_width() + 1) * (2 * lattice.spec_height() + 1)),
                2 * lattice.spec_width() + 1,
                steps@,
            ),
        ) == 2 * (lattice.spec_width() * lattice.spec_height()) - 1,
{
    let ghost sw = 2 * lattice.spec_width() + 1;
    let ghost sh = 2 * lattice.spec_height() + 1;
    let ghost blank = all_walls(sw * sh);
    let ghost open = is_open_lattice(*lattice, lattice.spec_width(), lattice.spec_height());
    let width = lattice.width();
    let height = lattice.height();
    let n = lattice.len();
    let mut sets = DisjointSets::new(n);
    let mut steps: Vec<Step> = Vec::new();
    let ghost mut cells = blank;
    proof {
        lattice.lemma_fits();
        assert(0 <= sw * sh) by (nonlinear_arith)
            requires
                0 <= sw,
                0 <= sh,
        ;
        reveal(replay);
        assert(after_steps(blank, sw, steps@) == blank);
        lemma_eller_start(*lattice, sw, sh);
        lemma_links_start(*lattice, blank, sw, sh);
        reveal(alone_from);
    }

    let mut y: usize = 0;
    while y < height
        invariant_except_break
            height >= 1 ==> y <= height - 1,
            open ==> rows_meet(*lattice, sets@, y as int),
            alone_from(sets@, (y + 1) * width),
        invariant
            lattice.wf(),
            width == lattice.spec_width(),
            height == lattice.spec_height(),
            n == width * height,
            sets.wf(),
            sets@.len() == n,
            is_grouping(sets@),
            y <= height,
            lattice.carves(steps@, |c: Cell| c == Cell::Floor),
            forall|x2: int, y2: int|
                #[trigger] lattice.is_open(x2, y2) && y2 < y ==> steps@.contains(floor_step(x2, y2)),
            sw == 2 * width + 1,
            sh == 2 * height + 1,
            blank == all_walls(sw * sh),
            open == is_open_lattice(*lattice, lattice.spec_width(), lattice.spec_height()),
            cells == replay(blank, sw, steps@),
            cells.len() == sw * sh,
            plain(cells),
            groups_joined(*lattice, sets@, with_corridors(*lattice, cells, sw), sw, sh),
            hangs_on(*lattice, with_corridors(*lattice, cells, sw), sw, sh),
            links_counted(*lattice, sets@, cells, sw, sh),
        ensures
            y == height,
            open && width >= 1 && height >= 1 ==> forall|x2: int, y2: int|
                #[trigger] lattice.is_open(x2, y2) ==> sets@[y2 * width + x2] == sets@[0],
        decreases height - y,
    {
        let last_row = y + 1 == height;
        let mut x: usize = 0;
        while x < width
            invariant
                lattice.wf(),
                width == lattice.spec_width(),
                height == lattice.spec_height(),
                y < height,
                x <= width,
                lattice.carves(steps@, |c: Cell| c == Cell::Floor),
                forall|x2: int, y2: int|
                    #[trigger] lattice.is_open(x2, y2) && (y2 < y || (y2 == y && x2 < x))
                        ==> steps@.contains(floor_step(x2, y2)),
                sw == 2 * width + 1,
                sh == 2 * height + 1,
                blank == all_walls(sw * sh),
                cells == replay(blank, sw, steps@),
                cells.len() == sw * sh,
                plain(cells),
                groups_joined(*lattice, sets@, with_corridors(*lattice, cells, sw), sw, sh),
                hangs_on(*lattice, with_corridors(*lattice, cells, sw), sw, sh),
                sets@.len() == width * height,
                links_counted(*lattice, sets@, cells, sw, sh),
            decreases width - x,
        {
            if !lattice.is_blocked(x, y) {
                proof {
                    lattice.lemma_corridor_owned(x as int, y as int);
                }
                let ghost before = steps@;
                let settle = floor(x, y);
                steps.push(settle);
                proof {
                    lemma_replay_push(blank, sw, before, settle);
                    lemma_floor_keeps(*lattice, cells, sw, sh, (x, y));
                    lemma_floor_count(*lattice, sets@, cells, sw, sh, (x, y));
                    cells = after_step(cells, sw, settle);
                    assert forall|x2: int, y2: int|
                        #[trigger] lattice.is_open(x2, y2) && (y2 < y || (y2 == y && x2 < x + 1))
                            implies steps@.contains(floor_step(x2, y2)) by {
                        if y2 == y && x2 == x {
                            assert(steps@[before.len() as int] == floor_step(x2, y2));
                        } else {
                            let j = choose|j: int| 0 <= j < before.len() && before[j] == floor_step(x2, y2);
                            assert(steps@[j] == before[j]);
                        }
                    }
                }
            }
            x = x + 1;
        }
        let ghost floored = steps@;

        let across = if width > 0 { width - 1 } else { 0 };
        let mut x: usize = 0;
        while x < across
            invariant
                lattice.wf(),
                width == lattice.spec_width(),
                height == lattice.spec_height(),
                n == width * height,
                across < width || across == 0,
                width > 0 ==> across == width - 1,
                sets.wf(),
                sets@.len() == n,
                is_grouping(sets@),
                y < height,
                x <= across,
                last_row == (y + 1 == height),
                lattice.carves(steps@, |c: Cell| c == Cell::Floor),
                forall|j: int| 0 <= j < floored.len() ==> #[trigger] steps@[j] == floored[j],
                floored.len() <= steps@.len(),
                sw == 2 * width + 1,
                sh == 2 * height + 1,
                blank == all_walls(sw * sh),
                open == is_open_lattice(*lattice, lattice.spec_width(), lattice.spec_height()),
                cells == replay(blank, sw, steps@),
                cells.len() == sw * sh,
                plain(cells),
                groups_joined(*lattice, sets@, with_corridors(*lattice, cells, sw), sw, sh),
                hangs_on(*lattice, with_corridors(*lattice, cells, sw), sw, sh),
                open ==> rows_meet(*lattice, sets@, y as int),
                open && last_row ==> forall|k: int|
                    0 <= k < x ==> #[trigger] sets@[y * width + k] == sets@[y * width + k + 1],
                links_counted(*lattice, sets@, cells, sw, sh),
                alone_from(sets@, (y + 1) * width),
            decreases across - x,
        {
            if lattice.is_blocked(x, y) || lattice.is_blocked(x + 1, y) {
                proof {
                    if open {
                        lemma_square_index(width as int, height as int, x as int, y as int);
                        lemma_square_index(width as int, height as int, x + 1, y as int);
                    }
                }
                x = x + 1;
                continue;
            }
            let a = lattice.index(x, y);
            let b = lattice.index(x + 1, y);
            let ghost reps0 = sets@;
            let ra = sets.find(a);
            let rb = sets.find(b);
            if ra != rb && (last_row || random_ratio(rng, 1, 2)) {
                sets.merge(a, b);
                proof {
                    lattice.lemma_between_owned((x, y), ((x + 1) as usize, y));
                }
                let ghost before = steps@;
                let link = wall_between(x, y, x + 1, y);
                steps.push(link);
                proof {
                    lemma_replay_push(blank, sw, before, link);
                    lemma_eller_link(*lattice, reps0, cells, sw, sh, (x, y), ((x + 1) as usize, y), link);
                    lemma_link_count(*lattice, reps0, cells, sw, sh, (x, y), ((x + 1) as usize, y));
                    lemma_alone_row(*lattice, reps0, y as int, a, b);
                    cells = after_step(cells, sw, link);
                    lemma_merge_joins(reps0, a, b);
                    if open {
                        lemma_rows_meet_merge(*lattice, reps0, reps0[a as int], reps0[b as int], y as int);
                        if last_row {
                            assert forall|k: int| 0 <= k < x + 1 implies #[trigger] sets@[y * width + k] == sets@[y
                                * width + k + 1] by {
                                lemma_square_index(width as int, height as int, k, y as int);
                                lemma_square_index(width as int, height as int, k + 1, y as int);
                                if k < x {
                                    lemma_merge_keeps(reps0, reps0[a as int], reps0[b as int], y * width + k, y * width
                                        + k + 1);
                                }
                            }
                        }
                    }
                    assert forall|j: int| 0 <= j < floored.len() implies #[trigger] steps@[j] == floored[j] by {
                        assert(steps@[j] == before[j]);
                    }
                }
            }
            x = x + 1;
        }
        if last_row {
            proof {
                keep_floors(lattice, floored, steps@, y as int + 1);
                if open && width >= 1 {
                    assert forall|k: int|
                        0 <= k < width - 1 implies #[trigger] sets@[(height - 1) * width + k] == sets@[(height - 1)
                            * width + k + 1] by {
                        assert(sets@[y * width + k] == sets@[y * width + k + 1]);
                    }
                    lemma_last_row_one_group(*lattice, sets@);
                }
            }
            y = y + 1;
            break;
        }

        // Every corridor of this row that can link down, with its group.
        let ghost reps_h = sets@;
        let mut pairs: Vec<(usize, usize)> = Vec::new();
        let mut x: usize = 0;
        while x < width
            invariant
                lattice.wf(),
                width == lattice.spec_width(),
                height == lattice.spec_height(),
                n == width * height,
                sets.wf(),
                sets@.len() == n,
                sets@ == reps_h,
                y + 1 < height,
                x <= width,
                forall|k: int|
                    0 <= k < pairs@.len() ==> (#[trigger] pairs@[k]).0 < n && lattice.is_open(
                        pairs@[k].1 as int,
                        y as int,
                    ) && lattice.is_open(pairs@[k].1 as int, y + 1) && pairs@[k].0 == reps_h[y * width
                        + pairs@[k].1],
                forall|x2: int|
                    0 <= x2 < x && lattice.is_open(x2, y as int) && lattice.is_open(x2, y + 1) ==> exists|k: int|
                        0 <= k < pairs@.len() && (#[trigger] pairs@[k]).1 == x2,
                forall|i: int, j: int|
                    #![trigger pairs@[i], pairs@[j]]
                    0 <= i < j < pairs@.len() ==> pairs@[i].1 < pairs@[j].1,
                forall|i: int| 0 <= i < pairs@.len() ==> (#[trigger] pairs@[i]).1 < x,
            decreases width - x,
        {
            let ghost before = pairs@;
            if !lattice.is_blocked(x, y) && !lattice.is_blocked(x, y + 1) {
                let root = sets.find(lattice.index(x, y));
                pairs.push((root, x));
                proof {
                    assert forall|i: int, j: int|
                        #![trigger pairs@[i], pairs@[j]]
                        0 <= i < j < pairs@.len() implies pairs@[i].1 < pairs@[j].1 by {
                        assert(pairs@[i] == before[i]);
                        if j < before.len() {
                            assert(pairs@[j] == before[j]);
                        }
                    }
                    assert forall|i: int| 0 <= i < pairs@.len() implies (#[trigger] pairs@[i]).1 < x + 1 by {
                        if i < before.len() {
                            assert(pairs@[i] == before[i]);
                        }
                    }
                    assert forall|k: int| 0 <= k < pairs@.len() implies (#[trigger] pairs@[k]).0 < n
                        && lattice.is_open(pairs@[k].1 as int, y as int) && lattice.is_open(
                        pairs@[k].1 as int,
                        y + 1,
                    ) && pairs@[k].0 == reps_h[y * width + pairs@[k].1] by {
                        if k < before.len() {
                            assert(pairs@[k] == before[k]);
                        }
                    }
                }
            }
            proof {
                assert forall|x2: int|
                    0 <= x2 < x + 1 && lattice.is_open(x2, y as int) && lattice.is_open(x2, y + 1) implies exists|
                    k: int,
                | 0 <= k < pairs@.len() && (#[trigger] pairs@[k]).1 == x2 by {
                    if x2 < x {
                        let k = choose|k: int| 0 <= k < before.len() && (#[trigger] before[k]).1 == x2;
                        assert(pairs@[k] == before[k]);
                    } else {
                        assert(pairs@[pairs@.len() - 1].1 == x2);
                    }
                }
            }
            x = x + 1;
        }

        // Groups in increasing order of their representative; each sends at
        // least one link down.
        proof {
            assert(cells == drawn(*lattice, steps@));
            assert(eller_state(*lattice, sets@, steps@)) by {
                reveal(eller_state);
            }
            assert(columns_ascend(pairs@)) by {
                reveal(columns_ascend);
            }
            lemma_fresh_start(*lattice, reps_h, sets@, y as int);
        }
        let mut next_root: usize = 0;
        loop
            invariant
                lattice.wf(),
                width == lattice.spec_width(),
                height == lattice.spec_height(),
                n == width * height,
                sets.wf(),
                y + 1 < height,
                next_root <= n,
                forall|k: int|
                    0 <= k < pairs@.len() ==> (#[trigger] pairs@[k]).0 < n && lattice.is_open(
                        pairs@[k].1 as int,
                        y as int,
                    ) && lattice.is_open(pairs@[k].1 as int, y + 1) && pairs@[k].0 == reps_h[y * width
                        + pairs@[k].1],
                lattice.carves(steps@, |c: Cell| c == Cell::Floor),
                forall|j: int| 0 <= j < floored.len() ==> #[trigger] steps@[j] == floored[j],
                floored.len() <= steps@.len(),
                open == is_open_lattice(*lattice, lattice.spec_width(), lattice.spec_height()),
                eller_state(*lattice, sets@, steps@),
                sets@.len() == n,
                open ==> rows_meet(*lattice, sets@, y as int),
                coarser(reps_h, sets@),
                linked_below(pairs@, sets@, y as int, width as int, next_root as int),
                columns_ascend(pairs@),
                fresh_under(*lattice, reps_h, sets@, y as int, next_root as int, -1, 0),
            ensures
                sets.wf(),
                sets@.len() == n,
                lattice.carves(steps@, |c: Cell| c == Cell::Floor),
                forall|j: int| 0 <= j < floored.len() ==> #[trigger] steps@[j] == floored[j],
                floored.len() <= steps@.len(),
                eller_state(*lattice, sets@, steps@),
                open ==> rows_meet(*lattice, sets@, y as int),
                coarser(reps_h, sets@),
                linked_below(pairs@, sets@, y as int, width as int, n as int),
                alone_from(sets@, (y + 2) * width),
            decreases n - next_root,
        {
            let best = lowest_root(&pairs, next_root, n);
            if best.is_none() {
                proof {
                    lemma_linked_widen(pairs@, sets@, y as int, width as int, next_root as int, n as int);
                    lemma_fresh_done(*lattice, reps_h, sets@, y as int, next_root as int);
                }
                break;
            }
            let root = best.unwrap();
            proof {
                reveal(columns_ascend);
            }
            let xs = members(lattice, &pairs, root, y);
            let down = choose_down(&xs, rng);
            let ghost before = sets@;
            let ghost first = down@[0];
            proof {
                lemma_fresh_group(*lattice, reps_h, sets@, y as int, next_root as int, root as int);
                assert forall|i: int| 0 <= i < down@.len() implies reps_h[y * width + #[trigger] down@[i]] == root by {
                    assert(xs@.contains(down@[i]));
                    let m = choose|m: int| 0 <= m < xs@.len() && xs@[m] == down@[i];
                    assert(root_lists(pairs@, xs@[m], root));
                    let j = choose|j: int| 0 <= j < pairs@.len() && (#[trigger] pairs@[j]).1 == xs@[m] && pairs@[j].0 == root;
                }
            }
            link_down(
                lattice,
                &mut sets,
                &mut steps,
                &down,
                y,
                Ghost(reps_h),
                Ghost(floored),
                Ghost(next_root as int),
                Ghost(root as int),
            );
            proof {
                lemma_fresh_next(*lattice, reps_h, sets@, y as int, next_root as int, root as int);
                assert(xs@.contains(first));
                let i = choose|i: int| 0 <= i < xs@.len() && xs@[i] == first;
                assert(root_lists(pairs@, xs@[i], root));
                lemma_next_root(pairs@, before, sets@, y as int, width as int, height as int, root, next_root, first);
            }
            next_root = root + 1;
        }
        proof {
            cells = drawn(*lattice, steps@);
            assert(cells == replay(blank, sw, steps@) && cells.len() == sw * sh && plain(cells) && groups_joined(
                *lattice,
                sets@,
                with_corridors(*lattice, cells, sw),
                sw,
                sh,
            ) && hangs_on(*lattice, with_corridors(*lattice, cells, sw), sw, sh) && is_grouping(sets@) && sets@.len()
                == n && links_counted(*lattice, sets@, cells, sw, sh)) by {
                reveal(eller_state);
            }
        }
        proof {
            keep_floors(lattice, floored, steps@, y as int + 1);
            if open {
                assert forall|x2: int| 0 <= x2 < width implies #[trigger] lists(pairs@, x2) by {
                    lemma_square_index(width as int, height as int, x2, y as int);
                    lemma_square_index(width as int, height as int, x2, y + 1);
                    assert(lattice.is_open(x2, y as int) && lattice.is_open(x2, y + 1));
                }
                lemma_rows_meet_down(*lattice, reps_h, sets@, pairs@, y as int);
            }
        }
        y = y + 1;
    }
    proof {
        assert forall|x2: int, y2: int| #[trigger] lattice.is_open(x2, y2) implies exists|j: int|
            0 <= j < steps@.len() && #[trigger] steps@[j] == floor_step(x2, y2) by {
            assert(steps@.contains(floor_step(x2, y2)));
        }
        if open {
            lemma_eller_end(*lattice, sets@, steps@, cells, sw, sh);
        }
        reveal(replay);
    }
    steps
}

/// On the open lattice, once every row is done: the carving hangs together
/// from the first corridor, and opens a tree's worth of squares.
#[verifier::rlimit(50)]
#[verifier::spinoff_prover]
proof fn lemma_eller_end(lattice: Lattice, reps: Seq<usize>, steps: Seq<Step>, cells: Seq<Cell>, sw: int, sh: int)
    requires
        lattice.wf(),
        is_open_lattice(lattice, lattice.spec_width(), lattice.spec_height()),
        sw == 2 * lattice.spec_width() + 1,
        sh == 2 * lattice.spec_height() + 1,
        lattice.carves(steps, |c: Cell| c == Cell::Floor),
        forall|x2: int, y2: int| #[trigger] lattice.is_open(x2, y2) ==> steps.contains(floor_step(x2, y2)),
        cells == replay(all_walls(sw * sh), sw, steps),
        cells.len() == sw * sh,
        plain(cells),
        groups_joined(lattice, reps, with_corridors(lattice, cells, sw), sw, sh),
        hangs_on(lattice, with_corridors(lattice, cells, sw), sw, sh),
        is_grouping(reps),
        reps.len() == lattice.spec_width() * lattice.spec_height(),
        links_counted(lattice, reps, cells, sw, sh),
        lattice.spec_width() >= 1 && lattice.spec_height() >= 1 ==> forall|x2: int, y2: int|
            #[trigger] lattice.is_open(x2, y2) ==> reps[y2 * lattice.spec_width() + x2] == reps[0],
    ensures
        all_joined(cells, sw, sh, (1, 1)),
        lattice.spec_width() * lattice.spec_height() >= 1 ==> walkable_count(cells) == 2 * (lattice.spec_width()
            * lattice.spec_height()) - 1,
{
    lattice.lemma_fits();
    if lattice.spec_width() * lattice.spec_height() >= 1 {
        assert(lattice.spec_width() >= 1 && lattice.spec_height() >= 1) by (nonlinear_arith)
            requires
                lattice.spec_width() * lattice.spec_height() >= 1,
                lattice.spec_width() >= 0,
                lattice.spec_height() >= 0,
        ;
    }
    assert forall|i: int| 0 <= i < steps.len() implies (#[trigger] steps[i]).cell != Cell::Wall by {
        assert(lattice.owns_square(steps[i].x as int, steps[i].y as int));
    }
    assert forall|x2: int, y2: int| #[trigger] lattice.is_open(x2, y2) implies open_in(
        cells,
        sw,
        sh,
        corridor_square((x2 as usize, y2 as usize)),
    ) by {
        assert(steps.contains(floor_step(x2, y2)));
        let j = choose|j: int| 0 <= j < steps.len() && steps[j] == floor_step(x2, y2);
        assert forall|i: int| 0 <= i < steps.len() implies (#[trigger] steps[i]).x < sw && steps[i].y
            < sh by {
            lattice.lemma_owned_inside(steps[i].x as int, steps[i].y as int);
        }
        reveal(replay);
        crate::maze::walks::lemma_stepped_open(all_walls(sw * sh), sw, sh, steps, j);
    }
    lemma_all_floored(lattice, cells, sw, sh);
    if lattice.spec_width() >= 1 && lattice.spec_height() >= 1 {
        lemma_one_group_joined(lattice, reps, cells, sw, sh);
        assert(lattice.spec_width() * lattice.spec_height() >= 1) by (nonlinear_arith)
            requires
                lattice.spec_width() >= 1,
                lattice.spec_height() >= 1,
        ;
        lemma_links_done(lattice, reps, cells, sw, sh);
    } else {
        reveal(hangs_on);
        assert forall|r: (usize, usize)| #[trigger] open_in(cells, sw, sh, r) implies joins(
            cells,
            sw,
            sh,
            (1, 1),
            r,
        ) by {
            let p = choose|p: (usize, usize)|
                #![trigger corridor_square(p)]
                lattice.open_at(p) && open_in(cells, sw, sh, corridor_square(p)) && (r == corridor_square(p)
                    || adjacent(corridor_square(p), r));
        }
    }
}

/// Steps added after the floors keep them.
proof fn keep_floors(lattice: &Lattice, floored: Seq<Step>, steps: Seq<Step>, rows: int)
    requires
        floored.len() <= steps.len(),
        forall|j: int| 0 <= j < floored.len() ==> #[trigger] steps[j] == floored[j],
        forall|x2: int, y2: int|
            #[trigger] lattice.is_open(x2, y2) && y2 < rows ==> floored.contains(floor_step(x2, y2)),
    ensures
        forall|x2: int, y2: int|
            #[trigger] lattice.is_open(x2, y2) && y2 < rows ==> steps.contains(floor_step(x2, y2)),
{
    assert forall|x2: int, y2: int| #[trigger] lattice.is_open(x2, y2) && y2 < rows implies steps.contains(
        floor_step(x2, y2),
    ) by {
        let j = choose|j: int| 0 <= j < floored.len() && floored[j] == floor_step(x2, y2);
        assert(steps[j] == floored[j]);
    }
}

/// Index `i` of a `w`-wide drawn grid is the square of an open corridor.
pub open spec fn is_corridor_at(lattice: Lattice, w: int, i: int) -> bool {
    let x = i % w;
    let y = i / w;
    x % 2 == 1 && y % 2 == 1 && lattice.is_open((x - 1) / 2, (y - 1) / 2)
}

/// The cells with every open corridor's square floored: the grid as it
/// will look once each row has had its turn.
pub open spec fn with_corridors(lattice: Lattice, cells: Seq<Cell>, w: int) -> Seq<Cell> {
    Seq::new(cells.len(), |i: int| if is_corridor_at(lattice, w, i) { Cell::Floor } else { cells[i] })
}

/// Where a corridor's square and a square between two corridors lie.
proof fn lemma_corridor_index(lattice: Lattice, w: int, h: int, p: (usize, usize))
    requires
        lattice.wf(),
        w == 2 * lattice.spec_width() + 1,
        h == 2 * lattice.spec_height() + 1,
        lattice.open_at(p),
    ensures
        corridor_square(p).0 < w,
        corridor_square(p).1 < h,
        is_corridor_at(lattice, w, square_index(w, corridor_square(p).0 as int, corridor_square(p).1 as int)),
{
    lattice.lemma_fits();
    let s = corridor_square(p);
    lemma_square_index(w, h, s.0 as int, s.1 as int);
}

/// Flooring an open corridor's square changes nothing once every corridor
/// counts as floored.
proof fn lemma_floor_keeps(lattice: Lattice, cells: Seq<Cell>, w: int, h: int, p: (usize, usize))
    requires
        lattice.wf(),
        w == 2 * lattice.spec_width() + 1,
        h == 2 * lattice.spec_height() + 1,
        cells.len() == w * h,
        plain(cells),
        lattice.open_at(p),
    ensures
        with_corridors(lattice, after_step(cells, w, floor_step(p.0 as int, p.1 as int)), w) == with_corridors(
            lattice,
            cells,
            w,
        ),
        plain(after_step(cells, w, floor_step(p.0 as int, p.1 as int))),
        after_step(cells, w, floor_step(p.0 as int, p.1 as int)).len() == cells.len(),
{
    lemma_corridor_index(lattice, w, h, p);
    let s = corridor_square(p);
    let i = square_index(w, s.0 as int, s.1 as int);
    lemma_square_index(w, h, s.0 as int, s.1 as int);
    let after = after_step(cells, w, floor_step(p.0 as int, p.1 as int));
    assert(cells[i] == Cell::Wall || cells[i] == Cell::Floor);
    assert(after == cells.update(i, Cell::Floor));
    assert(with_corridors(lattice, after, w) =~= with_corridors(lattice, cells, w));
}

/// Knocking through a square between two corridors opens it in the grid
/// with every corridor counted as floored too.
proof fn lemma_link_keeps(lattice: Lattice, cells: Seq<Cell>, w: int, h: int, step: Step)
    requires
        lattice.wf(),
        w == 2 * lattice.spec_width() + 1,
        h == 2 * lattice.spec_height() + 1,
        cells.len() == w * h,
        plain(cells),
        step.cell == Cell::Floor,
        step.x < w,
        step.y < h,
        step.x % 2 == 0 || step.y % 2 == 0,
    ensures
        with_corridors(lattice, after_step(cells, w, step), w) == after_step(with_corridors(lattice, cells, w), w, step),
        plain(after_step(cells, w, step)),
        after_step(cells, w, step).len() == cells.len(),
{
    lemma_square_index(w, h, step.x as int, step.y as int);
    let i = square_index(w, step.x as int, step.y as int);
    assert(cells[i] == Cell::Wall || cells[i] == Cell::Floor);
    assert(!is_corridor_at(lattice, w, i));
    let after = after_step(cells, w, step);
    assert(after == cells.update(i, Cell::Floor));
    assert(with_corridors(lattice, after, w) =~= with_corridors(lattice, cells, w).update(i, Cell::Floor));
}

/// Before any step, each corridor is its own group, and the squares of the
/// open corridors are all that counts as open.
proof fn lemma_eller_start(lattice: Lattice, w: int, h: int)
    requires
        lattice.wf(),
        w == 2 * lattice.spec_width() + 1,
        h == 2 * lattice.spec_height() + 1,
    ensures
        groups_joined(
            lattice,
            Seq::new((lattice.spec_width() * lattice.spec_height()) as nat, |i: int| i as usize),
            with_corridors(lattice, all_walls(w * h), w),
            w,
            h,
        ),
        hangs_on(lattice, with_corridors(lattice, all_walls(w * h), w), w, h),
        plain(all_walls(w * h)),
{
    reveal(groups_joined);
    reveal(hangs_on);
    lattice.lemma_fits();
    assert(0 <= w * h) by (nonlinear_arith)
        requires
            0 <= w,
            0 <= h,
    ;
    let lw = lattice.spec_width();
    let lh = lattice.spec_height();
    let reps = Seq::new((lw * lh) as nat, |i: int| i as usize);
    let cells = with_corridors(lattice, all_walls(w * h), w);
    assert forall|p: (usize, usize), q: (usize, usize)|
        lattice.open_at(p) && lattice.open_at(q) && #[trigger] reps[lattice.flat(p)] == #[trigger] reps[lattice.flat(q)]
            implies joins(cells, w, h, corridor_square(p), corridor_square(q)) by {
        lemma_square_index(lw, lh, p.0 as int, p.1 as int);
        lemma_square_index(lw, lh, q.0 as int, q.1 as int);
        if p != q {
            lemma_square_index_injective(lw, p.0 as int, p.1 as int, q.0 as int, q.1 as int);
        }
        lemma_corridor_index(lattice, w, h, p);
        lemma_joins_self(cells, w, h, corridor_square(p));
    }
    assert forall|r: (usize, usize)| #[trigger] open_in(cells, w, h, r) implies exists|p: (usize, usize)|
        #![trigger corridor_square(p)]
        lattice.open_at(p) && open_in(cells, w, h, corridor_square(p)) && (r == corridor_square(p) || adjacent(
            corridor_square(p),
            r,
        )) by {
        lemma_square_index(w, h, r.0 as int, r.1 as int);
        let i = square_index(w, r.0 as int, r.1 as int);
        assert(is_corridor_at(lattice, w, i));
        let p = (((r.0 - 1) / 2) as usize, ((r.1 - 1) / 2) as usize);
        assert(lattice.open_at(p));
        assert(r == corridor_square(p));
    }
}

/// Once every open corridor's square is floored, counting them as floored
/// changes nothing.
proof fn lemma_all_floored(lattice: Lattice, cells: Seq<Cell>, w: int, h: int)
    requires
        lattice.wf(),
        w == 2 * lattice.spec_width() + 1,
        h == 2 * lattice.spec_height() + 1,
        cells.len() == w * h,
        plain(cells),
        forall|x: int, y: int| #[trigger] lattice.is_open(x, y) ==> open_in(cells, w, h, corridor_square((x as usize, y as usize))),
    ensures
        with_corridors(lattice, cells, w) == cells,
{
    assert forall|i: int| 0 <= i < cells.len() implies #[trigger] with_corridors(lattice, cells, w)[i] == cells[i] by {
        if is_corridor_at(lattice, w, i) {
            let x = i % w;
            let y = i / w;
            let cx = (x - 1) / 2;
            let cy = (y - 1) / 2;
            assert(lattice.is_open(cx, cy));
            assert(0 <= y) by (nonlinear_arith)
                requires
                    0 <= i,
                    0 < w,
                    y == i / w,
            ;
            assert(i == y * w + x) by (nonlinear_arith)
                requires
                    0 < w,
                    x == i % w,
                    y == i / w,
            ;
            let s = corridor_square((cx as usize, cy as usize));
            assert(s.0 == x && s.1 == y);
            assert(open_in(cells, w, h, s));
        }
    }
    assert(with_corridors(lattice, cells, w) =~= cells);
}

/// On the open lattice, when every corridor is in the group of corridor
/// (0, 0) and groups are joined, every open square is joined to (1, 1).
pub proof fn lemma_one_group_joined(lattice: Lattice, reps: Seq<usize>, cells: Seq<Cell>, w: int, h: int)
    requires
        lattice.wf(),
        w == 2 * lattice.spec_width() + 1,
        h == 2 * lattice.spec_height() + 1,
        is_open_lattice(lattice, lattice.spec_width(), lattice.spec_height()),
        reps.len() == lattice.spec_width() * lattice.spec_height(),
        forall|x: int, y: int| #[trigger] lattice.is_open(x, y) ==> reps[y * lattice.spec_width() + x] == reps[0],
        groups_joined(lattice, reps, cells, w, h),
        hangs_on(lattice, cells, w, h),
    ensures
        all_joined(cells, w, h, (1, 1)),
{
    reveal(groups_joined);
    reveal(hangs_on);
    let lw = lattice.spec_width();
    let lh = lattice.spec_height();
    assert forall|r: (usize, usize)| #[trigger] open_in(cells, w, h, r) implies joins(cells, w, h, (1, 1), r) by {
        let p = choose|p: (usize, usize)|
            #![trigger corridor_square(p)]
            lattice.open_at(p) && open_in(cells, w, h, corridor_square(p)) && (r == corridor_square(p) || adjacent(
                corridor_square(p),
                r,
            ));
        let origin = (0usize, 0usize);
        lemma_square_index(lw, lh, 0, 0);
        lemma_square_index(lw, lh, p.0 as int, p.1 as int);
        assert(lattice.is_open(p.0 as int, p.1 as int));
        assert(lattice.open_at(origin));
        assert(reps[lattice.flat(origin)] == reps[lattice.flat(p)]);
        assert(corridor_square(origin) == (1usize, 1usize));
        assert(joins(cells, w, h, corridor_square(origin), corridor_square(p)));
        if r != corridor_square(p) {
            lemma_joins_step(cells, w, h, (1, 1), corridor_square(p), r);
        }
    }
}

/// Merging keeps every two corridors of one group together.
proof fn lemma_merge_keeps(reps: Seq<usize>, from: usize, to: usize, u: int, v: int)
    requires
        0 <= u < reps.len(),
        0 <= v < reps.len(),
        reps[u] == reps[v],
    ensures
        joined(reps, from, to)[u] == joined(reps, from, to)[v],
{
}

/// Merging a group into itself changes nothing.
proof fn lemma_merge_same(reps: Seq<usize>, r: usize)
    ensures
        joined(reps, r, r) == reps,
{
    assert(joined(reps, r, r) =~= reps);
}

/// Knocking through the wall between adjacent open corridors `a` and `b`
/// and merging their groups keeps the groups joined, counting every
/// corridor as floored.
proof fn lemma_eller_link(
    lattice: Lattice,
    reps: Seq<usize>,
    cells: Seq<Cell>,
    w: int,
    h: int,
    a: (usize, usize),
    b: (usize, usize),
    step: Step,
)
    requires
        lattice.wf(),
        w == 2 * lattice.spec_width() + 1,
        h == 2 * lattice.spec_height() + 1,
        cells.len() == w * h,
        plain(cells),
        is_grouping(reps),
        reps.len() == lattice.spec_width() * lattice.spec_height(),
        groups_joined(lattice, reps, with_corridors(lattice, cells, w), w, h),
        hangs_on(lattice, with_corridors(lattice, cells, w), w, h),
        lattice.open_at(a),
        lattice.open_at(b),
        adjacent(a, b),
        step == (Step { x: (a.0 + b.0 + 1) as usize, y: (a.1 + b.1 + 1) as usize, cell: Cell::Floor }),
    ensures
        groups_joined(
            lattice,
            joined(reps, reps[lattice.flat(a)], reps[lattice.flat(b)]),
            with_corridors(lattice, after_step(cells, w, step), w),
            w,
            h,
        ),
        hangs_on(lattice, with_corridors(lattice, after_step(cells, w, step), w), w, h),
        plain(after_step(cells, w, step)),
        after_step(cells, w, step).len() == w * h,
{
    lattice.lemma_between_owned(a, b);
    lattice.lemma_fits();
    let before = with_corridors(lattice, cells, w);
    let after = with_corridors(lattice, after_step(cells, w, step), w);
    lemma_link_keeps(lattice, cells, w, h, step);
    lemma_opened_only(before, w, h, step);
    lemma_corridor_index(lattice, w, h, a);
    lemma_corridor_index(lattice, w, h, b);
    let sa = corridor_square(a);
    let sb = corridor_square(b);
    let m = (step.x, step.y);
    lemma_square_index(w, h, sa.0 as int, sa.1 as int);
    lemma_square_index(w, h, sb.0 as int, sb.1 as int);
    assert(open_in(before, w, h, sa));
    assert(open_in(before, w, h, sb));
    assert(open_in(after, w, h, sa));
    assert(open_in(after, w, h, sb));
    lemma_kruskal_merge(lattice, reps, before, after, w, h, a, b, m);
}

/// Corridor (x, y) shares its group with some corridor of row `row`.
pub open spec fn meets_row(lattice: Lattice, reps: Seq<usize>, x: int, y: int, row: int) -> bool {
    exists|x3: int|
        0 <= x3 < lattice.spec_width() && #[trigger] reps[row * lattice.spec_width() + x3] == reps[y
            * lattice.spec_width() + x]
}

/// Every corridor of the rows above `row` shares its group with a corridor
/// of row `row`.
pub open spec fn rows_meet(lattice: Lattice, reps: Seq<usize>, row: int) -> bool {
    forall|x: int, y: int|
        0 <= x < lattice.spec_width() && 0 <= y < row ==> #[trigger] meets_row(lattice, reps, x, y, row)
}

/// Every group of `fine` lies inside a group of `coarse`.
pub open spec fn coarser(fine: Seq<usize>, coarse: Seq<usize>) -> bool {
    &&& fine.len() == coarse.len()
    &&& forall|u: int, v: int|
        0 <= u < fine.len() && 0 <= v < fine.len() && #[trigger] fine[u] == #[trigger] fine[v] ==> coarse[u]
            == coarse[v]
}

/// Merging keeps every corridor meeting the row it met.
proof fn lemma_rows_meet_merge(lattice: Lattice, reps: Seq<usize>, from: usize, to: usize, row: int)
    requires
        rows_meet(lattice, reps, row),
        0 <= row < lattice.spec_height(),
        reps.len() == lattice.spec_width() * lattice.spec_height(),
    ensures
        rows_meet(lattice, joined(reps, from, to), row),
{
    let after = joined(reps, from, to);
    let lw = lattice.spec_width();
    let lh = lattice.spec_height();
    assert forall|x: int, y: int| 0 <= x < lw && 0 <= y < row implies #[trigger] meets_row(lattice, after, x, y, row) by {
        assert(meets_row(lattice, reps, x, y, row));
        let x3 = choose|x3: int| 0 <= x3 < lw && #[trigger] reps[row * lw + x3] == reps[y * lw + x];
        lemma_square_index(lw, lh, x3, row);
        lemma_square_index(lw, lh, x, y);
        assert(after[row * lw + x3] == after[y * lw + x]);
    }
}

/// Merging keeps every grouping coarser.
proof fn lemma_coarser_merge(fine: Seq<usize>, coarse: Seq<usize>, from: usize, to: usize)
    requires
        coarser(fine, coarse),
    ensures
        coarser(fine, joined(coarse, from, to)),
{
    let after = joined(coarse, from, to);
    assert forall|u: int, v: int|
        0 <= u < fine.len() && 0 <= v < fine.len() && #[trigger] fine[u] == #[trigger] fine[v] implies after[u]
            == after[v] by {
        assert(coarse[u] == coarse[v]);
    }
}

/// On the open lattice, once every corridor of the last row shares the
/// group of its right neighbour and every other corridor meets the last
/// row, all corridors share the group of corridor (0, 0).
proof fn lemma_last_row_one_group(lattice: Lattice, reps: Seq<usize>)
    requires
        is_open_lattice(lattice, lattice.spec_width(), lattice.spec_height()),
        lattice.spec_width() >= 1,
        lattice.spec_height() >= 1,
        reps.len() == lattice.spec_width() * lattice.spec_height(),
        rows_meet(lattice, reps, lattice.spec_height() - 1),
        forall|x: int|
            0 <= x < lattice.spec_width() - 1 ==> #[trigger] reps[(lattice.spec_height() - 1) * lattice.spec_width() + x]
                == reps[(lattice.spec_height() - 1) * lattice.spec_width() + x + 1],
    ensures
        forall|x: int, y: int| #[trigger] lattice.is_open(x, y) ==> reps[y * lattice.spec_width() + x] == reps[0],
{
    let lw = lattice.spec_width();
    let lh = lattice.spec_height();
    let last = (lh - 1) * lw;
    assert forall|x: int| 0 <= x < lw implies #[trigger] reps[last + x] == reps[last] by {
        lemma_row_same(reps, last, lw, x);
    }
    assert forall|x: int, y: int| #[trigger] lattice.is_open(x, y) implies reps[y * lw + x] == reps[0] by {
        if y < lh - 1 {
            assert(meets_row(lattice, reps, x, y, lh - 1));
            let x3 = choose|x3: int| 0 <= x3 < lw && #[trigger] reps[(lh - 1) * lw + x3] == reps[y * lw + x];
            assert(reps[last + x3] == reps[last]);
        } else {
            assert(reps[last + x] == reps[last]);
        }
        if lh - 1 > 0 {
            assert(meets_row(lattice, reps, 0, 0, lh - 1));
            let x0 = choose|x0: int| 0 <= x0 < lw && #[trigger] reps[(lh - 1) * lw + x0] == reps[0 * lw + 0];
            assert(reps[last + x0] == reps[last]);
        } else {
            assert(last == 0);
        }
    }
}

/// Along a row whose neighbours share groups, every corridor shares the
/// group of the first.
proof fn lemma_row_same(reps: Seq<usize>, start: int, width: int, x: int)
    requires
        0 <= x < width,
        forall|k: int| 0 <= k < width - 1 ==> #[trigger] reps[start + k] == reps[start + k + 1],
    ensures
        reps[start + x] == reps[start],
    decreases x,
{
    if x > 0 {
        lemma_row_same(reps, start, width, x - 1);
        assert(reps[start + (x - 1)] == reps[start + (x - 1) + 1]);
    }
}

/// Some entry of `pairs` is for corridor `x` of the row.
pub open spec fn lists(pairs: Seq<(usize, usize)>, x: int) -> bool {
    exists|k: int| 0 <= k < pairs.len() && (#[trigger] pairs[k]).1 == x
}

/// Once every group of row `y` has sent a link down, every corridor of the
/// rows up to `y` shares its group with a corridor of row `y + 1`.
proof fn lemma_rows_meet_down(
    lattice: Lattice,
    reps_h: Seq<usize>,
    reps: Seq<usize>,
    pairs: Seq<(usize, usize)>,
    y: int,
)
    requires
        is_open_lattice(lattice, lattice.spec_width(), lattice.spec_height()),
        0 <= y,
        y + 1 < lattice.spec_height(),
        reps.len() == lattice.spec_width() * lattice.spec_height(),
        rows_meet(lattice, reps, y),
        coarser(reps_h, reps),
        forall|k: int|
            0 <= k < pairs.len() ==> lattice.is_open((#[trigger] pairs[k]).1 as int, y) && pairs[k].0 == reps_h[y
                * lattice.spec_width() + pairs[k].1],
        forall|x2: int| 0 <= x2 < lattice.spec_width() ==> #[trigger] lists(pairs, x2),
        linked_below(pairs, reps, y, lattice.spec_width(), lattice.spec_width() * lattice.spec_height()),
        forall|k: int| 0 <= k < pairs.len() ==> (#[trigger] pairs[k]).0 < lattice.spec_width() * lattice.spec_height(),
    ensures
        rows_meet(lattice, reps, y + 1),
{
    let lw = lattice.spec_width();
    let lh = lattice.spec_height();
    assert forall|x: int, y2: int| 0 <= x < lw && 0 <= y2 < y + 1 implies #[trigger] meets_row(lattice, reps, x, y2, y + 1) by {
        let x3 = if y2 < y {
            assert(meets_row(lattice, reps, x, y2, y));
            choose|x3: int| 0 <= x3 < lw && #[trigger] reps[y * lw + x3] == reps[y2 * lw + x]
        } else {
            x
        };
        assert(reps[y * lw + x3] == reps[y2 * lw + x]);
        assert(lists(pairs, x3));
        let k = choose|k: int| 0 <= k < pairs.len() && (#[trigger] pairs[k]).1 == x3;
        let j = choose|j: int|
            0 <= j < pairs.len() && (#[trigger] pairs[j]).0 == pairs[k].0 && reps[y * lw + pairs[j].1] == reps[(y + 1)
                * lw + pairs[j].1];
        let xj = pairs[j].1 as int;
        assert(lattice.is_open(xj, y));
        lemma_square_index(lw, lh, x3, y);
        lemma_square_index(lw, lh, xj, y);
        lemma_square_index(lw, lh, xj, y + 1);
        assert(reps_h[y * lw + x3] == reps_h[y * lw + xj]);
        assert(reps[y * lw + x3] == reps[y * lw + xj]);
        assert(reps[(y + 1) * lw + xj] == reps[y2 * lw + x]);
    }
}

/// What Eller's rows keep true of the groups and the steps so far: the
/// replayed grid has its size and holds only walls and floors, and, with
/// every corridor counted as floored, groups are joined and every open
/// square hangs on a corridor.
#[verifier::opaque]
pub open spec fn eller_state(lattice: Lattice, reps: Seq<usize>, steps: Seq<Step>) -> bool {
    let w = drawn_width(lattice);
    let h = drawn_height(lattice);
    let cells = drawn(lattice, steps);
    &&& cells.len() == w * h
    &&& plain(cells)
    &&& groups_joined(lattice, reps, with_corridors(lattice, cells, w), w, h)
    &&& hangs_on(lattice, with_corridors(lattice, cells, w), w, h)
    &&& is_grouping(reps)
    &&& reps.len() == lattice.spec_width() * lattice.spec_height()
    &&& links_counted(lattice, reps, cells, w, h)
}

/// The entries of `pairs` are for corridors from left to right.
#[verifier::opaque]
pub open spec fn columns_ascend(pairs: Seq<(usize, usize)>) -> bool {
    forall|i: int, j: int| #![trigger pairs[i], pairs[j]] 0 <= i < j < pairs.len() ==> pairs[i].1 < pairs[j].1
}

/// Some entry of `pairs` is for corridor `x` of the row, in group `r`.
pub open spec fn root_lists(pairs: Seq<(usize, usize)>, x: usize, r: usize) -> bool {
    exists|j: int| 0 <= j < pairs.len() && (#[trigger] pairs[j]).1 == x && pairs[j].0 == r
}

/// The smallest group number at or above `next_root`, if any entry has one.
fn lowest_root(pairs: &Vec<(usize, usize)>, next_root: usize, n: usize) -> (best: Option<usize>)
    requires
        forall|i: int| 0 <= i < pairs@.len() ==> (#[trigger] pairs@[i]).0 < n,
    ensures
        best matches Some(r) ==> next_root <= r < n && exists|i: int| 0 <= i < pairs@.len() && (#[trigger] pairs@[i]).0 == r,
        best matches Some(r) ==> forall|i: int|
            0 <= i < pairs@.len() && next_root <= (#[trigger] pairs@[i]).0 ==> r <= pairs@[i].0,
        best is None ==> forall|i: int| 0 <= i < pairs@.len() ==> (#[trigger] pairs@[i]).0 < next_root,
{
    let mut best: Option<usize> = None;
    let mut k: usize = 0;
    while k < pairs.len()
        invariant
            k <= pairs@.len(),
            forall|i: int| 0 <= i < pairs@.len() ==> (#[trigger] pairs@[i]).0 < n,
            best matches Some(r) ==> next_root <= r < n && exists|i: int| 0 <= i < k && (#[trigger] pairs@[i]).0 == r,
            best matches Some(r) ==> forall|i: int|
                0 <= i < k && next_root <= (#[trigger] pairs@[i]).0 ==> r <= pairs@[i].0,
            best is None ==> forall|i: int| 0 <= i < k ==> (#[trigger] pairs@[i]).0 < next_root,
        decreases pairs@.len() - k,
    {
        let r = pairs[k].0;
        if r >= next_root {
            match best {
                Some(b) => {
                    if r < b {
                        best = Some(r);
                    }
                },
                None => {
                    best = Some(r);
                },
            }
        }
        k = k + 1;
    }
    best
}

/// The corridors of the row whose entry has group `root`.
fn members(lattice: &Lattice, pairs: &Vec<(usize, usize)>, root: usize, y: usize) -> (xs: Vec<usize>)
    requires
        lattice.wf(),
        forall|i: int|
            0 <= i < pairs@.len() ==> lattice.is_open((#[trigger] pairs@[i]).1 as int, y as int) && lattice.is_open(
                pairs@[i].1 as int,
                y + 1,
            ),
        forall|i: int, j: int| #![trigger pairs@[i], pairs@[j]] 0 <= i < j < pairs@.len() ==> pairs@[i].1 < pairs@[j].1,
    ensures
        forall|i: int, j: int| #![trigger xs@[i], xs@[j]] 0 <= i < j < xs@.len() ==> xs@[i] < xs@[j],
        forall|i: int|
            0 <= i < xs@.len() ==> lattice.is_open(#[trigger] xs@[i] as int, y as int) && lattice.is_open(
                xs@[i] as int,
                y + 1,
            ),
        forall|i: int| 0 <= i < xs@.len() ==> #[trigger] root_lists(pairs@, xs@[i], root),
        (exists|i: int| 0 <= i < pairs@.len() && (#[trigger] pairs@[i]).0 == root) ==> xs@.len() > 0,
{
    let mut xs: Vec<usize> = Vec::new();
    let mut k: usize = 0;
    while k < pairs.len()
        invariant
            k <= pairs@.len(),
            forall|i: int|
                0 <= i < pairs@.len() ==> lattice.is_open((#[trigger] pairs@[i]).1 as int, y as int)
                    && lattice.is_open(pairs@[i].1 as int, y + 1),
            forall|i: int|
                0 <= i < xs@.len() ==> lattice.is_open(#[trigger] xs@[i] as int, y as int) && lattice.is_open(
                    xs@[i] as int,
                    y + 1,
                ),
            forall|i: int| 0 <= i < xs@.len() ==> #[trigger] root_lists(pairs@, xs@[i], root),
            forall|i: int| 0 <= i < k && (#[trigger] pairs@[i]).0 == root ==> xs@.len() > 0,
            forall|i: int, j: int| #![trigger pairs@[i], pairs@[j]] 0 <= i < j < pairs@.len() ==> pairs@[i].1 < pairs@[j].1,
            forall|i: int, j: int| #![trigger xs@[i], xs@[j]] 0 <= i < j < xs@.len() ==> xs@[i] < xs@[j],
            forall|i: int| 0 <= i < xs@.len() && k < pairs@.len() ==> #[trigger] xs@[i] < pairs@[k as int].1,
        decreases pairs@.len() - k,
    {
        let (r, x) = pairs[k];
        if r == root {
            let ghost before = xs@;
            xs.push(x);
            proof {
                assert forall|i: int, j: int| #![trigger xs@[i], xs@[j]] 0 <= i < j < xs@.len() implies xs@[i] < xs@[j] by {
                    if j < before.len() {
                        assert(xs@[i] == before[i] && xs@[j] == before[j]);
                    } else {
                        assert(xs@[i] == before[i]);
                    }
                }
                assert(lattice.is_open(pairs@[k as int].1 as int, y as int));
                assert forall|i: int| 0 <= i < xs@.len() implies lattice.is_open(#[trigger] xs@[i] as int, y as int)
                    && lattice.is_open(xs@[i] as int, y + 1) by {
                    if i < before.len() {
                        assert(xs@[i] == before[i]);
                    }
                }
                assert forall|i: int| 0 <= i < xs@.len() implies #[trigger] root_lists(pairs@, xs@[i], root) by {
                    if i < before.len() {
                        assert(xs@[i] == before[i]);
                    } else {
                        assert(pairs@[k as int].1 == xs@[i] && pairs@[k as int].0 == root);
                    }
                }
            }
        }
        proof {
            assert forall|i: int| 0 <= i < xs@.len() && k + 1 < pairs@.len() implies #[trigger] xs@[i] < pairs@[k + 1].1 by {
                assert(pairs@[k as int].1 < pairs@[k + 1].1);
            }
        }
        k = k + 1;
    }
    xs
}

/// Which corridors of the group link down: each with a chance of 7 in 20,
/// and a random one when none came up.
fn choose_down(xs: &Vec<usize>, rng: &mut StdRng) -> (down: Vec<usize>)
    requires
        forall|i: int, j: int| #![trigger xs@[i], xs@[j]] 0 <= i < j < xs@.len() ==> xs@[i] < xs@[j],
    ensures
        forall|i: int| 0 <= i < down@.len() ==> xs@.contains(#[trigger] down@[i]),
        xs@.len() > 0 ==> down@.len() > 0,
        forall|i: int, j: int| #![trigger down@[i], down@[j]] 0 <= i < j < down@.len() ==> down@[i] < down@[j],
{
    let mut down: Vec<usize> = Vec::new();
    let mut k: usize = 0;
    while k < xs.len()
        invariant
            k <= xs@.len(),
            forall|i: int| 0 <= i < down@.len() ==> xs@.contains(#[trigger] down@[i]),
            forall|i: int, j: int| #![trigger xs@[i], xs@[j]] 0 <= i < j < xs@.len() ==> xs@[i] < xs@[j],
            forall|i: int, j: int| #![trigger down@[i], down@[j]] 0 <= i < j < down@.len() ==> down@[i] < down@[j],
            forall|i: int| 0 <= i < down@.len() && k < xs@.len() ==> #[trigger] down@[i] < xs@[k as int],
        decreases xs@.len() - k,
    {
        if random_ratio(rng, 7, 20) {
            let ghost before = down@;
            down.push(xs[k]);
            proof {
                assert forall|i: int, j: int| #![trigger down@[i], down@[j]] 0 <= i < j < down@.len() implies down@[i]
                    < down@[j] by {
                    assert(down@[i] == before[i]);
                    if j < before.len() {
                        assert(down@[j] == before[j]);
                    }
                }
                assert forall|i: int| 0 <= i < down@.len() implies xs@.contains(#[trigger] down@[i]) by {
                    if i < before.len() {
                        assert(down@[i] == before[i]);
                    } else {
                        assert(xs@[k as int] == down@[i]);
                    }
                }
            }
        }
        proof {
            assert forall|i: int| 0 <= i < down@.len() && k + 1 < xs@.len() implies #[trigger] down@[i] < xs@[k + 1] by {
                assert(xs@[k as int] < xs@[k + 1]);
            }
        }
        k = k + 1;
    }
    if down.len() == 0 {
        if let Some(x) = pick(xs.as_slice(), rng) {
            down.push(x);
        }
    }
    down
}

/// Knocks through the wall below each corridor of `down` and merges the
/// corridor with the one under it.
fn link_down(
    lattice: &Lattice,
    sets: &mut DisjointSets,
    steps: &mut Vec<Step>,
    down: &Vec<usize>,
    y: usize,
    Ghost(reps_h): Ghost<Seq<usize>>,
    Ghost(floored): Ghost<Seq<Step>>,
    Ghost(least): Ghost<int>,
    Ghost(root): Ghost<int>,
)
    requires
        root >= least,
        fresh_under(*lattice, reps_h, old(sets)@, y as int, least, root, -1),
        forall|i: int| 0 <= i < down@.len() ==> reps_h[y * lattice.spec_width() + #[trigger] down@[i]] == root,
        forall|i: int, j: int| #![trigger down@[i], down@[j]] 0 <= i < j < down@.len() ==> down@[i] < down@[j],
        lattice.wf(),
        y + 1 < lattice.spec_height(),
        old(sets).wf(),
        eller_state(*lattice, old(sets)@, old(steps)@),
        lattice.carves(old(steps)@, |c: Cell| c == Cell::Floor),
        down@.len() > 0,
        forall|i: int|
            0 <= i < down@.len() ==> lattice.is_open(#[trigger] down@[i] as int, y as int) && lattice.is_open(
                down@[i] as int,
                y + 1,
            ),
        is_open_lattice(*lattice, lattice.spec_width(), lattice.spec_height()) ==> rows_meet(
            *lattice,
            old(sets)@,
            y as int,
        ),
        coarser(reps_h, old(sets)@),
        floored.len() <= old(steps)@.len(),
        forall|j: int| 0 <= j < floored.len() ==> #[trigger] old(steps)@[j] == floored[j],
    ensures
        final(sets).wf(),
        final(sets)@.len() == old(sets)@.len(),
        eller_state(*lattice, final(sets)@, final(steps)@),
        lattice.carves(final(steps)@, |c: Cell| c == Cell::Floor),
        is_open_lattice(*lattice, lattice.spec_width(), lattice.spec_height()) ==> rows_meet(
            *lattice,
            final(sets)@,
            y as int,
        ),
        coarser(reps_h, final(sets)@),
        coarser(old(sets)@, final(sets)@),
        final(sets)@[y * lattice.spec_width() + down@[0]] == final(sets)@[(y + 1) * lattice.spec_width() + down@[0]],
        floored.len() <= final(steps)@.len(),
        forall|j: int| 0 <= j < floored.len() ==> #[trigger] final(steps)@[j] == floored[j],
        fresh_under(*lattice, reps_h, final(sets)@, y as int, least, root, lattice.spec_width()),
{
    let ghost sw = drawn_width(*lattice);
    let ghost sh = drawn_height(*lattice);
    let ghost blank = all_walls(sw * sh);
    let ghost open = is_open_lattice(*lattice, lattice.spec_width(), lattice.spec_height());
    let ghost start = sets@;
    let ghost first = down@[0];
    let width = lattice.width();
    let ghost height = lattice.spec_height();
    proof {
        assert(coarser(start, start));
        reveal(eller_state);
    }
    let mut k: usize = 0;
    while k < down.len()
        invariant
            lattice.wf(),
            width == lattice.spec_width(),
            height == lattice.spec_height(),
            y + 1 < height,
            sw == drawn_width(*lattice),
            sh == drawn_height(*lattice),
            blank == all_walls(sw * sh),
            open == is_open_lattice(*lattice, lattice.spec_width(), lattice.spec_height()),
            sets.wf(),
            sets@.len() == start.len(),
            start.len() == width * height,
            k <= down@.len(),
            first == down@[0],
            forall|i: int|
                0 <= i < down@.len() ==> lattice.is_open(#[trigger] down@[i] as int, y as int) && lattice.is_open(
                    down@[i] as int,
                    y + 1,
                ),
            eller_state(*lattice, sets@, steps@),
            lattice.carves(steps@, |c: Cell| c == Cell::Floor),
            open ==> rows_meet(*lattice, sets@, y as int),
            coarser(reps_h, sets@),
            coarser(start, sets@),
            k > 0 ==> sets@[y * width + first] == sets@[(y + 1) * width + first],
            floored.len() <= steps@.len(),
            forall|j: int| 0 <= j < floored.len() ==> #[trigger] steps@[j] == floored[j],
            root >= least,
            fresh_under(*lattice, reps_h, sets@, y as int, least, root, if k == 0 { -1 } else { down@[k - 1] as int }),
            forall|i: int| 0 <= i < down@.len() ==> reps_h[y * width + #[trigger] down@[i]] == root,
            forall|i: int, j: int| #![trigger down@[i], down@[j]] 0 <= i < j < down@.len() ==> down@[i] < down@[j],
        decreases down@.len() - k,
    {
        let x = down[k];
        proof {
            assert(lattice.is_open(down@[k as int] as int, y as int));
            lattice.lemma_between_owned((x, y), (x, (y + 1) as usize));
        }
        let a = lattice.index(x, y);
        let b = lattice.index(x, y + 1);
        let ghost reps0 = sets@;
        let ghost before = steps@;
        let ghost past: int = if k == 0 { -1 } else { down@[k - 1] as int };
        proof {
            assert(reps_h[y * width + down@[k as int]] == root);
            if k > 0 {
                assert(down@[k - 1] < down@[k as int]);
            }
            reveal(eller_state);
            lemma_fresh_link(*lattice, reps_h, reps0, y as int, least, root, past, x as int);
        }
        sets.merge(a, b);
        let link = wall_between(x, y, x, y + 1);
        steps.push(link);
        proof {
            reveal(eller_state);
            let cells = drawn(*lattice, before);
            lemma_link_count(*lattice, reps0, cells, sw, sh, (x, y), (x, (y + 1) as usize));
            lemma_replay_push(blank, sw, before, link);
            lemma_eller_link(*lattice, reps0, cells, sw, sh, (x, y), (x, (y + 1) as usize), link);
            lemma_merge_joins(reps0, a, b);
            if reps0[a as int] == reps0[b as int] {
                lemma_merge_same(reps0, reps0[a as int]);
            }
            assert(sets@ == joined(reps0, reps0[a as int], reps0[b as int]));
            if open {
                lemma_rows_meet_merge(*lattice, reps0, reps0[a as int], reps0[b as int], y as int);
            }
            lemma_coarser_merge(reps_h, reps0, reps0[a as int], reps0[b as int]);
            lemma_coarser_merge(start, reps0, reps0[a as int], reps0[b as int]);
            lemma_square_index(width as int, height, first as int, y as int);
            lemma_square_index(width as int, height, first as int, y + 1);
            if k > 0 {
                lemma_merge_keeps(reps0, reps0[a as int], reps0[b as int], y * width + first, (y + 1) * width + first);
            }
            assert forall|j: int| 0 <= j < floored.len() implies #[trigger] steps@[j] == floored[j] by {
                assert(steps@[j] == before[j]);
            }
        }
        k = k + 1;
    }
    proof {
        if k > 0 {
            assert(lattice.is_open(down@[k - 1] as int, y as int));
            lemma_fresh_weaken(*lattice, reps_h, sets@, y as int, least, root, down@[k - 1] as int, width as int);
        }
    }
}

/// Every entry with a group number below `bound` has, in its group, a
/// corridor whose wall below was knocked through and which shares the
/// group of the corridor under it.
pub open spec fn linked_below(pairs: Seq<(usize, usize)>, reps: Seq<usize>, y: int, w: int, bound: int) -> bool {
    forall|k: int|
        #![trigger pairs[k]]
        0 <= k < pairs.len() && pairs[k].0 < bound ==> exists|j: int|
            0 <= j < pairs.len() && (#[trigger] pairs[j]).0 == pairs[k].0 && reps[y * w + pairs[j].1] == reps[(y + 1)
                * w + pairs[j].1]
}

/// When no entry has a group number at or above `bound`, any larger bound
/// is as good.
proof fn lemma_linked_widen(pairs: Seq<(usize, usize)>, reps: Seq<usize>, y: int, w: int, bound: int, wider: int)
    requires
        linked_below(pairs, reps, y, w, bound),
        forall|i: int| 0 <= i < pairs.len() ==> (#[trigger] pairs[i]).0 < bound,
    ensures
        linked_below(pairs, reps, y, w, wider),
{
    assert forall|k: int|
        #![trigger pairs[k]]
        0 <= k < pairs.len() && pairs[k].0 < wider implies exists|j: int|
            0 <= j < pairs.len() && (#[trigger] pairs[j]).0 == pairs[k].0 && reps[y * w + pairs[j].1] == reps[(y + 1)
                * w + pairs[j].1] by {
        assert(pairs[k].0 < bound);
    }
}

/// Once the group `root` has linked corridor `first` down, every entry
/// with a group below `root + 1` has a linked corridor in its group.
proof fn lemma_next_root(
    pairs: Seq<(usize, usize)>,
    before: Seq<usize>,
    after: Seq<usize>,
    y: int,
    w: int,
    h: int,
    root: usize,
    next_root: usize,
    first: usize,
)
    requires
        0 <= y,
        y + 1 < h,
        before.len() == w * h,
        coarser(before, after),
        forall|k: int| 0 <= k < pairs.len() ==> (#[trigger] pairs[k]).1 < w,
        linked_below(pairs, before, y, w, next_root as int),
        forall|i: int| 0 <= i < pairs.len() && next_root <= (#[trigger] pairs[i]).0 ==> root <= pairs[i].0,
        root_lists(pairs, first, root),
        after[y * w + first] == after[(y + 1) * w + first],
    ensures
        linked_below(pairs, after, y, w, root + 1),
{
    let j0 = choose|j: int| 0 <= j < pairs.len() && (#[trigger] pairs[j]).1 == first && pairs[j].0 == root;
    assert forall|k: int|
        #![trigger pairs[k]]
        0 <= k < pairs.len() && pairs[k].0 < root + 1 implies exists|j: int|
            0 <= j < pairs.len() && (#[trigger] pairs[j]).0 == pairs[k].0 && after[y * w + pairs[j].1] == after[(y + 1)
                * w + pairs[j].1] by {
        if pairs[k].0 < next_root {
            let j = choose|j: int|
                0 <= j < pairs.len() && (#[trigger] pairs[j]).0 == pairs[k].0 && before[y * w + pairs[j].1] == before[(y
                    + 1) * w + pairs[j].1];
            lemma_square_index(w, h, pairs[j].1 as int, y);
            lemma_square_index(w, h, pairs[j].1 as int, y + 1);
        } else {
            assert(pairs[j0].0 == pairs[k].0);
        }
    }
}

/// Every corridor from flat index `start` on is a group of its own.
#[verifier::opaque]
pub open spec fn alone_from(reps: Seq<usize>, start: int) -> bool {
    forall|i: int| start <= i < reps.len() ==> #[trigger] alone(reps, i)
}

/// The rows below row `y + 1` are untouched, and so is each corridor of row
/// `y + 1` under a corridor of a group numbered `least` or more, unless its
/// group is `root` and it stands at or left of `past`.
#[verifier::opaque]
pub open spec fn fresh_under(
    lattice: Lattice,
    reps_h: Seq<usize>,
    reps: Seq<usize>,
    y: int,
    least: int,
    root: int,
    past: int,
) -> bool {
    let w = lattice.spec_width();
    &&& alone_from(reps, (y + 2) * w)
    &&& forall|x: int|
        0 <= x < w && #[trigger] lattice.is_open(x, y + 1) && lattice.is_open(x, y) && reps_h[y * w + x] >= least
            && (reps_h[y * w + x] != root || x > past) ==> alone(reps, (y + 1) * w + x)
}

/// Merging two corridors of row `y` leaves every later row untouched.
proof fn lemma_alone_row(lattice: Lattice, reps: Seq<usize>, y: int, a: usize, b: usize)
    requires
        lattice.wf(),
        is_grouping(reps),
        reps.len() == lattice.spec_width() * lattice.spec_height(),
        0 <= y,
        a < y * lattice.spec_width() + lattice.spec_width(),
        b < y * lattice.spec_width() + lattice.spec_width(),
        a < reps.len(),
        b < reps.len(),
        alone_from(reps, (y + 1) * lattice.spec_width()),
    ensures
        alone_from(joined(reps, reps[a as int], reps[b as int]), (y + 1) * lattice.spec_width()),
{
    reveal(alone_from);
    let w = lattice.spec_width();
    assert((y + 1) * w == y * w + w) by (nonlinear_arith);
    let after = joined(reps, reps[a as int], reps[b as int]);
    assert forall|i: int| (y + 1) * lattice.spec_width() <= i < after.len() implies #[trigger] alone(after, i) by {
        lemma_alone_kept(reps, a, b, i);
    }
}

/// Before the links down from row `y`: everything below row `y` untouched.
proof fn lemma_fresh_start(lattice: Lattice, reps_h: Seq<usize>, reps: Seq<usize>, y: int)
    requires
        lattice.wf(),
        0 <= y,
        y + 1 < lattice.spec_height(),
        reps.len() == lattice.spec_width() * lattice.spec_height(),
        alone_from(reps, (y + 1) * lattice.spec_width()),
    ensures
        fresh_under(lattice, reps_h, reps, y, 0, -1, 0),
{
    reveal(alone_from);
    reveal(fresh_under);
    let w = lattice.spec_width();
    assert forall|i: int| (y + 2) * w <= i < reps.len() implies #[trigger] alone(reps, i) by {
        assert((y + 1) * w <= (y + 2) * w) by (nonlinear_arith)
            requires
                w >= 0,
        ;
    }
    assert forall|x: int|
        0 <= x < w && #[trigger] lattice.is_open(x, y + 1) && lattice.is_open(x, y) && reps_h[y * w + x] >= 0 && (
        reps_h[y * w + x] != -1 || x > 0) implies alone(reps, (y + 1) * w + x) by {
        lemma_square_index(w, lattice.spec_height(), x, y + 1);
    }
}

/// Linking corridor `x` of row `y` down: the corridor under it was still
/// a group of its own, so the two groups differ, and afterwards everything
/// else below stays untouched.
#[verifier::rlimit(50)]
#[verifier::spinoff_prover]
proof fn lemma_fresh_link(
    lattice: Lattice,
    reps_h: Seq<usize>,
    reps: Seq<usize>,
    y: int,
    least: int,
    root: int,
    past: int,
    x: int,
)
    requires
        lattice.wf(),
        is_grouping(reps),
        reps.len() == lattice.spec_width() * lattice.spec_height(),
        0 <= y,
        y + 1 < lattice.spec_height(),
        0 <= x < lattice.spec_width(),
        lattice.is_open(x, y),
        lattice.is_open(x, y + 1),
        reps_h[y * lattice.spec_width() + x] == root,
        root >= least,
        x > past,
        fresh_under(lattice, reps_h, reps, y, least, root, past),
    ensures
        reps[y * lattice.spec_width() + x] != reps[(y + 1) * lattice.spec_width() + x],
        fresh_under(
            lattice,
            reps_h,
            joined(
                reps,
                reps[y * lattice.spec_width() + x],
                reps[(y + 1) * lattice.spec_width() + x],
            ),
            y,
            least,
            root,
            x,
        ),
{
    reveal(alone_from);
    reveal(fresh_under);
    let w = lattice.spec_width();
    let lh = lattice.spec_height();
    lemma_square_index(w, lh, x, y);
    lemma_square_index(w, lh, x, y + 1);
    let a = y * w + x;
    let b = (y + 1) * w + x;
    assert((y + 1) * w == y * w + w && (y + 2) * w == y * w + 2 * w) by (nonlinear_arith);
    assert(b == a + w);
    assert(alone(reps, b));
    let after = joined(reps, reps[a], reps[b]);
    assert forall|i: int| (y + 2) * w <= i < after.len() implies #[trigger] alone(after, i) by {
        lemma_alone_kept(reps, a as usize, b as usize, i);
    }
    assert forall|x2: int|
        0 <= x2 < w && #[trigger] lattice.is_open(x2, y + 1) && lattice.is_open(x2, y) && reps_h[y * w + x2] >= least
            && (reps_h[y * w + x2] != root || x2 > x) implies alone(after, (y + 1) * w + x2) by {
        lemma_square_index(w, lh, x2, y + 1);
        assert(x2 != x);
        lemma_alone_kept(reps, a as usize, b as usize, (y + 1) * w + x2);
    }
}

/// Claiming less of group `root`.
proof fn lemma_fresh_weaken(
    lattice: Lattice,
    reps_h: Seq<usize>,
    reps: Seq<usize>,
    y: int,
    least: int,
    root: int,
    past: int,
    later: int,
)
    requires
        past <= later,
        fresh_under(lattice, reps_h, reps, y, least, root, past),
    ensures
        fresh_under(lattice, reps_h, reps, y, least, root, later),
{
    reveal(fresh_under);
}

/// Done with group `root`: the corridors under the groups above it stay
/// untouched.
proof fn lemma_fresh_next(lattice: Lattice, reps_h: Seq<usize>, reps: Seq<usize>, y: int, least: int, root: int)
    requires
        root >= least,
        fresh_under(lattice, reps_h, reps, y, least, root, lattice.spec_width()),
    ensures
        fresh_under(lattice, reps_h, reps, y, root + 1, -1, 0),
{
    reveal(fresh_under);
}

/// Starting on group `root`, at least `least`, nothing of it linked yet.
proof fn lemma_fresh_group(lattice: Lattice, reps_h: Seq<usize>, reps: Seq<usize>, y: int, least: int, root: int)
    requires
        fresh_under(lattice, reps_h, reps, y, least, -1, 0),
    ensures
        fresh_under(lattice, reps_h, reps, y, least, root, -1),
{
    reveal(fresh_under);
}

/// After all groups: the rows below row `y + 1` are untouched.
proof fn lemma_fresh_done(lattice: Lattice, reps_h: Seq<usize>, reps: Seq<usize>, y: int, least: int)
    requires
        fresh_under(lattice, reps_h, reps, y, least, -1, 0),
    ensures
        alone_from(reps, (y + 2) * lattice.spec_width()),
{
    reveal(fresh_under);
}

} // verus!
