use rand::rngs::StdRng;
use vstd::prelude::*;

use super::spanning::{
    closed_off, corridor_square, lemma_closed_fills, lemma_closed_grow, lemma_closed_remove, lemma_first_corridor,
    lemma_grow_step, lemma_nothing_visited, lemma_shows, lemma_shows_step, shows_visited,
};
use super::{Lattice, all_walls, corridor, floor, floor_step, is_open_lattice, unvisited_neighbours, wall_between};
use crate::maze::grid::{Cell, Step, adjacent, after_step, after_steps, lemma_square_index};
use crate::maze::walks::{all_joined, joins, open_in, replay};
use crate::random::{pick, random_range, random_ratio};
use super::counting::{
    lemma_all_seen, lemma_count_blank, lemma_grow_count, lemma_seed_count, lemma_settle_count, lemma_within_blank,
    opened_within,
};
use super::dungeon::walkable_count;

verus! {

/// Growing tree: keep a list of active corridors; extend either the newest
/// (backtracker behaviour) or a random one (Prim behaviour), half and half.
/// Active corridors are shown as probe squares until they are exhausted.
#[verifier::rlimit(50)]
#[verifier::spinoff_prover]
pub fn carve(lattice: &Lattice, rng: &mut StdRng) -> (steps: Vec<Step>)
    requires
        lattice.wf(),
    ensures
        lattice.carves(steps@, |c: Cell| c == Cell::Floor || c == Cell::Probe),
        lattice.floors_every_corridor(steps@),
        is_open_lattice(*lattice, lattice.spec_width(), lattice.spec_height()) ==> all_joined(
            after_steps(
                all_walls((2 * lattice.spec_width() + 1) * (2 * lattice.spec_height() + 1)),
                2 * lattice.spec_width() + 1,
                steps@,
            ),
            2 * lattice.spec_width() + 1,
            2 * lattice.spec_height() + 1,
            (1, 1),
        ),
        is_open_lattice(*lattice, lattice.spec_width(), lattice.spec_height()) && lattice.spec_width()
            * lattice.spec_height() >= 1 ==> walkable_count(
            after_steps(
                all_walls((2 * lattice.spec_width() + 1) * (2 * lattice.spec_height() + 1)),
                2 * lattice.spec_width() + 1,
                steps@,
            ),
        ) == 2 * (lattice.spec_width() * lattice.spec_height()) - 1,
{
    let ghost sw = 2 * lattice.spec_width() + 1;
    let ghost sh = 2 * lattice.spec_height() + 1;
    let ghost blank = all_walls(sw * sh);
    let ghost open = is_open_lattice(*lattice, lattice.spec_width(), lattice.spec_height());
    let n = lattice.len();
    let mut visited: Vec<bool> = vec![false; n];
    let ghost mut vis: Set<(usize, usize)> = Set::empty();
    let ghost mut seen: Set<int> = Set::empty();
    let mut steps: Vec<Step> = Vec::new();
    let corridors = lattice.corridors();
    let ghost mut cells = blank;
    let ghost mut walks: int = 0;
    proof {
        lattice.lemma_fits();
        assert(0 <= sw * sh) by (nonlinear_arith)
            requires
                0 <= sw,
                0 <= sh,
        ;
        reveal(replay);
        assert(after_steps(blank, sw, steps@) == blank);
        assert forall|p: (usize, usize)| #[trigger] open_in(blank, sw, sh, p) implies joins(blank, sw, sh, (1, 1), p) by {
            lemma_square_index(sw, sh, p.0 as int, p.1 as int);
        }
        lemma_nothing_visited(*lattice, blank, sw, sh);
        assert forall|p: (usize, usize)| lattice.holds(p) implies (visited@[lattice.flat(p)] <==> #[trigger] vis.contains(p)) by {
            crate::maze::grid::lemma_square_index(lattice.spec_width(), lattice.spec_height(), p.0 as int, p.1 as int);
        }
        lemma_within_blank(blank, sw, sh);
        lemma_count_blank(blank);
    }

    let mut i: usize = 0;
    while i < corridors.len()
        invariant
            lattice.wf(),
            n == lattice.spec_width() * lattice.spec_height(),
            lattice.tracks(visited@, vis),
            seen.finite(),
            forall|j: int| seen.contains(j) <==> 0 <= j < n && visited@[j],
            i <= corridors@.len(),
            forall|k: int| 0 <= k < corridors@.len() ==> lattice.open_at(#[trigger] corridors@[k]),
            forall|k: int| 0 <= k < i ==> vis.contains(#[trigger] corridors@[k]),
            lattice.carves(steps@, |c: Cell| c == Cell::Floor || c == Cell::Probe),
            forall|p: (usize, usize)|
                lattice.open_at(p) && #[trigger] vis.contains(p) ==> steps@.contains(
                    floor_step(p.0 as int, p.1 as int),
                ),
            sw == 2 * lattice.spec_width() + 1,
            sh == 2 * lattice.spec_height() + 1,
            blank == all_walls(sw * sh),
            open == is_open_lattice(*lattice, lattice.spec_width(), lattice.spec_height()),
            forall|x: int, y: int| #[trigger] lattice.is_open(x, y) ==> corridors@.contains((x as usize, y as usize)),
            forall|k1: int, k2: int|
                0 <= k1 < k2 < corridors@.len() ==> (#[trigger] corridors@[k1]).1 * lattice.spec_width()
                    + corridors@[k1].0 < (#[trigger] corridors@[k2]).1 * lattice.spec_width() + corridors@[k2].0,
            cells == replay(blank, sw, steps@),
            cells.len() == sw * sh,
            shows_visited(vis, cells, sw, sh),
            closed_off(*lattice, vis, Seq::empty()),
            open ==> all_joined(cells, sw, sh, (1, 1)),
            opened_within(vis, cells, sw, sh),
            walkable_count(cells) + walks == 2 * seen.len(),
            0 <= walks,
            open ==> walks <= 1,
            walks == 0 ==> seen.len() == 0,
            i == 0 ==> walks == 0,
            open && i > 0 ==> walks == 1,
        decreases corridors@.len() - i,
    {
        let (seed_x, seed_y) = corridors[i];
        proof {
            assert(lattice.open_at(corridors@[i as int]));
            lattice.lemma_corridor_owned(seed_x as int, seed_y as int);
            lattice.lemma_tracks_read(visited@, vis, (seed_x, seed_y));
        }
        let seed = lattice.index(seed_x, seed_y);
        if visited[seed] {
            proof {
                assert(seen.contains(seed as int));
                vstd::set_lib::lemma_set_empty_equivalency_len(seen);
                assert(seen.len() > 0);
            }
            i = i + 1;
            continue;
        }
        let ghost vis0 = vis;
        proof {
            if open {
                lemma_first_corridor(*lattice, corridors@);
                if i > 0 {
                    assert(vis.contains(corridors@[0]));
                    lemma_closed_fills(*lattice, vis, seed_x as int, seed_y as int);
                }
            }
            assert(open ==> i == 0);
            assert(!vis0.contains((seed_x, seed_y)));
            super::lemma_mark(seen, n as int, seed as int);
            seen = seen.insert(seed as int);
            lattice.lemma_tracks_update(visited@, vis, (seed_x, seed_y), true);
            vis = vis.insert((seed_x, seed_y));
        }
        visited.set(seed, true);
        let ghost before = steps@;
        let first = corridor(seed_x, seed_y, Cell::Probe);
        steps.push(first);
        let mut active: Vec<(usize, usize)> = Vec::new();
        active.push((seed_x, seed_y));
        proof {
            lemma_grow_step(blank, sw, sh, before, cells, first, vis0, (1, 1), open);
            lemma_shows_step(vis0, cells, after_step(cells, sw, first), sw, sh, (first.x, first.y), (seed_x, seed_y));
            lattice.lemma_fits();
            lemma_seed_count(vis0, cells, sw, sh, (seed_x, seed_y), first);
            cells = after_step(cells, sw, first);
            walks = walks + 1;
            lemma_closed_grow(*lattice, vis0, Seq::empty(), (seed_x, seed_y));
            assert(active@ =~= Seq::<(usize, usize)>::empty().push((seed_x, seed_y)));
        }
        proof {
            assert forall|p: (usize, usize)|
                lattice.open_at(p) && #[trigger] vis.contains(p) implies steps@.contains(
                    floor_step(p.0 as int, p.1 as int),
                ) || active@.contains(p) by {
                if p == (seed_x, seed_y) {
                    assert(active@[0] == p);
                } else {
                    super::lemma_prefix_contains(before, steps@, floor_step(p.0 as int, p.1 as int));
                }
            }
        }

        while active.len() > 0
            invariant
                lattice.wf(),
                n == lattice.spec_width() * lattice.spec_height(),
                lattice.tracks(visited@, vis),
                seen.finite(),
                forall|j: int| seen.contains(j) <==> 0 <= j < n && visited@[j],
                i < corridors@.len(),
                forall|k: int| 0 <= k < corridors@.len() ==> lattice.open_at(#[trigger] corridors@[k]),
                forall|k: int| 0 <= k <= i ==> vis.contains(#[trigger] corridors@[k]),
                forall|k: int| 0 <= k < active@.len() ==> lattice.open_at(#[trigger] active@[k]),
                lattice.carves(steps@, |c: Cell| c == Cell::Floor || c == Cell::Probe),
                forall|p: (usize, usize)|
                    lattice.open_at(p) && #[trigger] vis.contains(p) ==> steps@.contains(
                        floor_step(p.0 as int, p.1 as int),
                    ) || active@.contains(p),
                sw == 2 * lattice.spec_width() + 1,
                sh == 2 * lattice.spec_height() + 1,
                blank == all_walls(sw * sh),
                open == is_open_lattice(*lattice, lattice.spec_width(), lattice.spec_height()),
                cells == replay(blank, sw, steps@),
                cells.len() == sw * sh,
                shows_visited(vis, cells, sw, sh),
                closed_off(*lattice, vis, active@),
                open ==> all_joined(cells, sw, sh, (1, 1)),
                forall|k: int| 0 <= k < active@.len() ==> vis.contains(#[trigger] active@[k]),
                opened_within(vis, cells, sw, sh),
                walkable_count(cells) + walks == 2 * seen.len(),
                1 <= walks,
                open ==> walks == 1,
                i == 0 ==> walks == 1,
            decreases 2 * (n - seen.len()) + active@.len(),
        {
            proof {
                super::lemma_seen_bound(seen, n as int);
            }
            let i_active = if random_ratio(rng, 1, 2) {
                active.len() - 1
            } else {
                random_range(rng, 0, active.len())
            };
            let (x, y) = active[i_active];
            proof {
                assert(lattice.open_at(active@[i_active as int]));
            }
            let candidates = unvisited_neighbours(lattice, &visited, Ghost(vis), x, y);
            match pick(candidates.as_slice(), rng) {
                Some((nx, ny)) => {
                    proof {
                        let j = choose|j: int| 0 <= j < candidates@.len() && candidates@[j] == (nx, ny);
                        assert(lattice.open_at(candidates@[j]) && !vis.contains(candidates@[j]));
                        lattice.lemma_between_owned((x, y), (nx, ny));
                        lattice.lemma_corridor_owned(nx as int, ny as int);
                        lattice.lemma_tracks_read(visited@, vis, (nx, ny));
                    }
                    let next = lattice.index(nx, ny);
                    let ghost vis0 = vis;
                    proof {
                        super::lemma_mark(seen, n as int, next as int);
                        seen = seen.insert(next as int);
                        lattice.lemma_tracks_update(visited@, vis, (nx, ny), true);
                        vis = vis.insert((nx, ny));
                    }
                    visited.set(next, true);
                    let ghost before = steps@;
                    let link = wall_between(x, y, nx, ny);
                    steps.push(link);
                    let ghost middle = steps@;
                    let reach = corridor(nx, ny, Cell::Probe);
                    steps.push(reach);
                    let ghost old_active = active@;
                    active.push((nx, ny));
                    proof {
                        assert(vis0.contains(old_active[i_active as int]));
                        lemma_shows(vis0, cells, sw, sh, (x, y));
                        lemma_grow_step(blank, sw, sh, before, cells, link, vis0, corridor_square((x, y)), open);
                        let cells1 = after_step(cells, sw, link);
                        lemma_grow_step(blank, sw, sh, middle, cells1, reach, vis0, (link.x, link.y), open);
                        let cells2 = after_step(cells1, sw, reach);
                        lemma_shows_step(vis0, cells1, cells2, sw, sh, (reach.x, reach.y), (nx, ny));
                        lattice.lemma_fits();
                        lemma_grow_count(vis0, cells, sw, sh, (x, y), (nx, ny), link, reach);
                        cells = cells2;
                        lemma_closed_grow(*lattice, vis0, old_active, (nx, ny));
                        assert forall|k: int| 0 <= k < active@.len() implies vis.contains(#[trigger] active@[k]) by {
                            if k < old_active.len() {
                                assert(active@[k] == old_active[k]);
                            }
                        }
                    }
                    proof {
                        assert forall|p: (usize, usize)|
                            lattice.open_at(p) && #[trigger] vis.contains(p) implies steps@.contains(
                                floor_step(p.0 as int, p.1 as int),
                            ) || active@.contains(p) by {
                            if p == (nx, ny) {
                                assert(active@[active@.len() - 1] == (nx, ny));
                            } else if before.contains(floor_step(p.0 as int, p.1 as int)) {
                                super::lemma_prefix_contains(before, steps@, floor_step(p.0 as int, p.1 as int));
                            } else if old_active.contains(p) {
                                let j = choose|j: int| 0 <= j < old_active.len() && old_active[j] == p;
                                assert(active@[j] == old_active[j]);
                            }
                        }
                    }
                },
                None => {
                    // `remove`, not `swap_remove`: the order is what makes
                    // "newest" mean something.
                    let ghost old_active = active@;
                    proof {
                        assert forall|q: (usize, usize)|
                            lattice.open_at(q) && #[trigger] adjacent(old_active[i_active as int], q) implies vis.contains(
                                q,
                            ) by {
                            if !vis.contains(q) {
                                assert(candidates@.contains(q));
                            }
                        }
                        lemma_closed_remove(*lattice, vis, old_active, i_active as int);
                        assert(vis.contains(old_active[i_active as int]));
                    }
                    active.remove(i_active);
                    proof {
                        lattice.lemma_corridor_owned(x as int, y as int);
                        assert(active@ == old_active.remove(i_active as int));
                    }
                    let ghost before = steps@;
                    let settle = floor(x, y);
                    steps.push(settle);
                    proof {
                        lemma_shows(vis, cells, sw, sh, (x, y));
                        lemma_grow_step(blank, sw, sh, before, cells, settle, vis, (1, 1), open);
                        lattice.lemma_fits();
                        lemma_settle_count(vis, cells, sw, sh, (x, y), settle);
                        cells = after_step(cells, sw, settle);
                        assert forall|k: int| 0 <= k < active@.len() implies vis.contains(#[trigger] active@[k]) by {
                            if k < i_active {
                                assert(active@[k] == old_active[k]);
                            } else {
                                assert(active@[k] == old_active[k + 1]);
                            }
                        }
                    }
                    proof {
                        assert forall|k: int| 0 <= k < active@.len() implies lattice.open_at(#[trigger] active@[k]) by {
                            if k < i_active {
                                assert(active@[k] == old_active[k]);
                            } else {
                                assert(active@[k] == old_active[k + 1]);
                            }
                        }
                        assert forall|p: (usize, usize)|
                            lattice.open_at(p) && #[trigger] vis.contains(p) implies steps@.contains(
                                floor_step(p.0 as int, p.1 as int),
                            ) || active@.contains(p) by {
                            assert(steps@[before.len() as int] == floor_step(x as int, y as int));
                            if before.contains(floor_step(p.0 as int, p.1 as int)) {
                                super::lemma_prefix_contains(before, steps@, floor_step(p.0 as int, p.1 as int));
                            } else if p != (x, y) {
                                let j = choose|j: int| 0 <= j < old_active.len() && old_active[j] == p;
                                assert(j != i_active);
                                if j < i_active {
                                    assert(active@[j] == old_active[j]);
                                } else {
                                    assert(active@[j - 1] == old_active[j]);
                                }
                            }
                        }
                    }
                },
            }
        }
        proof {
            assert(active@ =~= Seq::<(usize, usize)>::empty());
        }
        i = i + 1;
    }
    proof {
        assert forall|x: int, y: int| #[trigger] lattice.is_open(x, y) implies exists|j: int|
            0 <= j < steps@.len() && #[trigger] steps@[j] == floor_step(x, y) by {
            assert(corridors@.contains((x as usize, y as usize)));
            let k = choose|k: int| 0 <= k < corridors@.len() && corridors@[k] == (x as usize, y as usize);
            assert(vis.contains(corridors@[k]));
            assert(lattice.open_at(corridors@[k]));
            assert(steps@.contains(floor_step(x, y)));
        }
        reveal(replay);
        if open && n >= 1 {
            lemma_all_seen(lattice, corridors@, visited@, vis, seen, i as int);
        }
    }
    steps
}

} // verus!
