use rand::rngs::StdRng;
use vstd::prelude::*;

use super::spanning::{
    closed_off, corridor_square, drawn, drawn_height, drawn_width, grows_tree, lemma_closed_fills, lemma_first_corridor,
    lemma_grow_step, lemma_grows_tree_start, lemma_shows, lemma_shows_step,
};
use super::{Lattice, all_walls, count_true, floor, floor_step, is_open_lattice, wall_between};
use crate::maze::grid::{Cell, Step, adjacent, after_step, after_steps};
use crate::maze::walks::{all_joined, replay};
use crate::random::pick;
use super::counting::{lemma_count_blank, lemma_count_uniform, lemma_grow_count, lemma_within_blank, opened_within};
use super::dungeon::walkable_count;

verus! {

/// What the walk keeps true: steps on the lattice, and every visited open
/// corridor already floored.
pub open spec fn walk_ok(lattice: &Lattice, visited: Seq<bool>, steps: Seq<Step>) -> bool {
    &&& visited.len() == lattice.spec_width() * lattice.spec_height()
    &&& lattice.carves(steps, |c: Cell| c == Cell::Floor)
    &&& forall|p: (usize, usize)| #[trigger] lattice.marked(visited).contains(p) ==> lattice.open_at(p)
    &&& forall|p: (usize, usize)|
        lattice.open_at(p) && #[trigger] lattice.marked(visited).contains(p) ==> steps.contains(
            floor_step(p.0 as int, p.1 as int),
        )
}

/// On the open lattice, every open square belongs to the visited corridors,
/// and the squares opened are two per visited corridor, less one for the
/// first.
pub open spec fn tree_counted(lattice: &Lattice, visited: Seq<bool>, steps: Seq<Step>) -> bool {
    is_open_lattice(*lattice, lattice.spec_width(), lattice.spec_height()) ==> {
        &&& opened_within(lattice.marked(visited), drawn(*lattice, steps), drawn_width(*lattice), drawn_height(*lattice))
        &&& walkable_count(drawn(*lattice, steps)) + (if lattice.marked(visited) == Set::<(usize, usize)>::empty() {
            0int
        } else {
            1int
        }) == 2 * count_true(visited)
    }
}

/// No open neighbour of corridor `p` is in `vis`.
pub open spec fn untouched(lattice: &Lattice, vis: Set<(usize, usize)>, p: (usize, usize)) -> bool {
    forall|q: (usize, usize)| lattice.open_at(q) && #[trigger] adjacent(p, q) ==> !vis.contains(q)
}

/// When every corridor is visited or touches nothing visited, the visited
/// corridors are closed off.
proof fn lemma_hunt_closed(lattice: &Lattice, corridors: Seq<(usize, usize)>, vis: Set<(usize, usize)>)
    requires
        forall|x: int, y: int| #[trigger] lattice.is_open(x, y) ==> corridors.contains((x as usize, y as usize)),
        forall|p: (usize, usize)| #[trigger] vis.contains(p) ==> lattice.open_at(p),
        forall|k: int|
            0 <= k < corridors.len() ==> vis.contains(#[trigger] corridors[k]) || untouched(lattice, vis, corridors[k]),
    ensures
        closed_off(*lattice, vis, Seq::empty()),
{
    reveal(closed_off);
    assert forall|p: (usize, usize), q: (usize, usize)|
        #[trigger] vis.contains(p) && !Seq::<(usize, usize)>::empty().contains(p) && lattice.open_at(q)
            && #[trigger] adjacent(p, q) implies vis.contains(q) by {
        assert(lattice.is_open(q.0 as int, q.1 as int));
        assert(corridors.contains(q));
        let k = choose|k: int| 0 <= k < corridors.len() && corridors[k] == q;
        if !vis.contains(q) {
            assert(untouched(lattice, vis, corridors[k]));
            assert(adjacent(q, p));
            assert(lattice.open_at(p));
        }
    }
}

/// Marks corridor `q` visited and floors it, after the wall from `from`.
#[verifier::rlimit(50)]
#[verifier::spinoff_prover]
fn visit(
    lattice: &Lattice,
    visited: &mut Vec<bool>,
    steps: &mut Vec<Step>,
    from: Option<(usize, usize)>,
    q: (usize, usize),
)
    requires
        lattice.wf(),
        lattice.open_at(q),
        !lattice.marked(old(visited)@).contains(q),
        from matches Some(f) ==> lattice.open_at(f) && adjacent(f, q) && lattice.marked(old(visited)@).contains(f),
        from is None && is_open_lattice(*lattice, lattice.spec_width(), lattice.spec_height()) ==> q == (0usize, 0usize)
            && lattice.marked(old(visited)@) == Set::<(usize, usize)>::empty(),
        walk_ok(lattice, old(visited)@, old(steps)@),
        grows_tree(*lattice, lattice.marked(old(visited)@), old(steps)@),
        tree_counted(lattice, old(visited)@, old(steps)@),
    ensures
        walk_ok(lattice, final(visited)@, final(steps)@),
        grows_tree(*lattice, lattice.marked(final(visited)@), final(steps)@),
        tree_counted(lattice, final(visited)@, final(steps)@),
        lattice.marked(final(visited)@) == lattice.marked(old(visited)@).insert(q),
        count_true(final(visited)@) == count_true(old(visited)@) + 1,
{
    let ghost w = drawn_width(*lattice);
    let ghost h = drawn_height(*lattice);
    let ghost blank = all_walls(w * h);
    let ghost open = is_open_lattice(*lattice, lattice.spec_width(), lattice.spec_height());
    let ghost vis0 = lattice.marked(visited@);
    let i = lattice.index(q.0, q.1);
    proof {
        lattice.lemma_marked_set(visited@, q);
        super::lemma_count_set(visited@, i as int);
        lattice.lemma_corridor_owned(q.0 as int, q.1 as int);
    }
    visited.set(i, true);
    let ghost before = steps@;
    let ghost mut cells = drawn(*lattice, before);
    if let Some((fx, fy)) = from {
        proof {
            lattice.lemma_between_owned((fx, fy), q);
        }
        let link = wall_between(fx, fy, q.0, q.1);
        steps.push(link);
        proof {
            lemma_shows(vis0, cells, w, h, (fx, fy));
            lemma_grow_step(blank, w, h, before, cells, link, vis0, corridor_square((fx, fy)), open);
            cells = after_step(cells, w, link);
        }
    }
    let ghost mid = steps@;
    let settle = floor(q.0, q.1);
    steps.push(settle);
    proof {
        if open {
            lattice.lemma_fits();
            lemma_count_open(lattice, vis0, drawn(*lattice, before), from, q, settle, before, steps@);
            assert(lattice.marked(visited@) == vis0.insert(q));
            assert(vis0.insert(q).contains(q));
            assert(lattice.marked(visited@) != Set::<(usize, usize)>::empty());
            if from is Some {
                assert(vis0.contains(from->0));
                assert(vis0 != Set::<(usize, usize)>::empty());
            }
        }
        let anchor = match from {
            Some(f) => ((f.0 + q.0 + 1) as usize, (f.1 + q.1 + 1) as usize),
            None => (1usize, 1usize),
        };
        lemma_grow_step(blank, w, h, mid, cells, settle, vis0, anchor, open);
        let cells2 = after_step(cells, w, settle);
        lemma_shows_step(vis0, cells, cells2, w, h, (settle.x, settle.y), q);
        if open {
            assert forall|p: (usize, usize)| #[trigger] vis0.insert(q).contains(p) implies vis0.insert(q).contains(
                (0usize, 0usize),
            ) by {
                if let Some(f) = from {
                    assert(vis0.contains(f));
                }
            }
        }
    }
    proof {
        assert forall|p: (usize, usize)|
            lattice.open_at(p) && #[trigger] lattice.marked(visited@).contains(p) implies steps@.contains(
                floor_step(p.0 as int, p.1 as int),
            ) by {
            if p == q {
                assert(steps@[steps@.len() - 1] == floor_step(p.0 as int, p.1 as int));
            } else {
                super::lemma_prefix_contains(before, mid, floor_step(p.0 as int, p.1 as int));
                super::lemma_prefix_contains(mid, steps@, floor_step(p.0 as int, p.1 as int));
            }
        }
    }
}

/// The open neighbours of (x, y) whose visited mark is `wanted`.
fn neighbours_marked(lattice: &Lattice, visited: &Vec<bool>, x: usize, y: usize, wanted: bool) -> (out: Vec<(usize, usize)>)
    requires
        lattice.wf(),
        lattice.open_at((x, y)),
        visited@.len() == lattice.spec_width() * lattice.spec_height(),
    ensures
        forall|j: int|
            0 <= j < out@.len() ==> lattice.open_at(#[trigger] out@[j]) && adjacent((x, y), out@[j])
                && (lattice.marked(visited@).contains(out@[j]) == wanted),
        forall|p: (usize, usize)|
            lattice.open_at(p) && adjacent((x, y), p) && (lattice.marked(visited@).contains(p) == wanted)
                ==> #[trigger] out@.contains(p),
{
    let nbrs = lattice.neighbours(x, y);
    let mut out: Vec<(usize, usize)> = Vec::new();
    let mut k: usize = 0;
    while k < nbrs.len()
        invariant
            lattice.wf(),
            visited@.len() == lattice.spec_width() * lattice.spec_height(),
            k <= nbrs@.len(),
            forall|j: int|
                0 <= j < nbrs@.len() ==> lattice.open_at(#[trigger] nbrs@[j]) && adjacent((x, y), nbrs@[j]),
            forall|j: int|
                0 <= j < out@.len() ==> lattice.open_at(#[trigger] out@[j]) && adjacent((x, y), out@[j])
                    && (lattice.marked(visited@).contains(out@[j]) == wanted),
            forall|j: int|
                0 <= j < k && (lattice.marked(visited@).contains(#[trigger] nbrs@[j]) == wanted) ==> out@.contains(
                    nbrs@[j],
                ),
        decreases nbrs@.len() - k,
    {
        let (nx, ny) = nbrs[k];
        proof {
            assert(lattice.open_at(nbrs@[k as int]));
            crate::maze::grid::lemma_square_index(lattice.spec_width(), lattice.spec_height(), nx as int, ny as int);
        }
        let ghost before = out@;
        if visited[lattice.index(nx, ny)] == wanted {
            out.push((nx, ny));
            proof {
                assert forall|j: int| 0 <= j < out@.len() implies lattice.open_at(#[trigger] out@[j])
                    && adjacent((x, y), out@[j]) && (lattice.marked(visited@).contains(out@[j]) == wanted) by {
                    if j < before.len() {
                        assert(out@[j] == before[j]);
                    }
                }
            }
        }
        proof {
            assert forall|j: int|
                0 <= j < k + 1 && (lattice.marked(visited@).contains(#[trigger] nbrs@[j]) == wanted) implies out@.contains(
                nbrs@[j],
            ) by {
                if j < k {
                    let m = choose|m: int| 0 <= m < before.len() && before[m] == nbrs@[j];
                    assert(out@[m] == before[m]);
                } else {
                    assert(out@[out@.len() - 1] == nbrs@[j]);
                }
            }
        }
        k = k + 1;
    }
    proof {
        assert forall|p: (usize, usize)|
            lattice.open_at(p) && adjacent((x, y), p) && (lattice.marked(visited@).contains(p) == wanted) implies #[trigger] out@.contains(
            p,
        ) by {
            assert(nbrs@.contains(p));
            let j = choose|j: int| 0 <= j < nbrs@.len() && nbrs@[j] == p;
        }
    }
    out
}

/// Hunt-and-kill: random walk through unvisited corridors; when stuck, scan
/// row by row for an unvisited corridor next to the maze, join it, and walk
/// again from there. Like the backtracker, but it never retraces its steps.
#[verifier::rlimit(50)]
#[verifier::spinoff_prover]
pub fn carve(lattice: &Lattice, rng: &mut StdRng) -> (steps: Vec<Step>)
    requires
        lattice.wf(),
    ensures
        lattice.carves(steps@, |c: Cell| c == Cell::Floor),
        lattice.floors_every_corridor(steps@),
        is_open_lattice(*lattice, lattice.spec_width(), lattice.spec_height()) ==> all_joined(
            after_steps(
                all_walls((2 * lattice.spec_width() + 1) * (2 * lattice.spec_height() + 1)),
                2 * lattice.spec_width() + 1,
                steps@,
            ),
            2 * lattice.spec_width() + 1,
            2 * lattice.spec_height() + 1,
            (1, 1),
        ),
        is_open_lattice(*lattice, lattice.spec_width(), lattice.spec_height()) && lattice.spec_width()
            * lattice.spec_height() >= 1 ==> walkable_count(
            after_steps(
                all_walls((2 * lattice.spec_width() + 1) * (2 * lattice.spec_height() + 1)),
                2 * lattice.spec_width() + 1,
                steps@,
            ),
        ) == 2 * (lattice.spec_width() * lattice.spec_height()) - 1,
{
    let corridors = lattice.corridors();
    let n = lattice.len();
    let mut visited: Vec<bool> = vec![false; n];
    let mut steps: Vec<Step> = Vec::new();
    let mut current: Option<(usize, usize)> = None;
    proof {
        lemma_grows_tree_start(*lattice);
        assert forall|p: (usize, usize)| !#[trigger] lattice.marked(visited@).contains(p) by {
            if lattice.holds(p) {
                crate::maze::grid::lemma_square_index(lattice.spec_width(), lattice.spec_height(), p.0 as int, p.1 as int);
            }
        }
        assert(lattice.marked(visited@) =~= Set::<(usize, usize)>::empty());
        assert(steps@ =~= Seq::<Step>::empty());
        lattice.lemma_fits();
        reveal(replay);
        assert(drawn(*lattice, steps@) == all_walls(drawn_width(*lattice) * drawn_height(*lattice)));
        assert(0 <= drawn_width(*lattice) * drawn_height(*lattice)) by (nonlinear_arith)
            requires
                0 <= drawn_width(*lattice),
                0 <= drawn_height(*lattice),
        ;
        lemma_within_blank(drawn(*lattice, steps@), drawn_width(*lattice), drawn_height(*lattice));
        lemma_count_blank(drawn(*lattice, steps@));
        lemma_count_uniform(visited@, false);
        assert forall|p: (usize, usize)| lattice.open_at(p) && #[trigger] lattice.marked(visited@).contains(p)
            implies steps@.contains(floor_step(p.0 as int, p.1 as int)) by {
            crate::maze::grid::lemma_square_index(lattice.spec_width(), lattice.spec_height(), p.0 as int, p.1 as int);
        }
    }

    loop
        invariant_except_break
            lattice.wf(),
            n == lattice.spec_width() * lattice.spec_height(),
            forall|k: int| 0 <= k < corridors@.len() ==> lattice.open_at(#[trigger] corridors@[k]),
            forall|x: int, y: int|
                #[trigger] lattice.is_open(x, y) ==> corridors@.contains((x as usize, y as usize)),
            walk_ok(lattice, visited@, steps@),
            current matches Some(c) ==> lattice.open_at(c) && lattice.marked(visited@).contains(c),
            grows_tree(*lattice, lattice.marked(visited@), steps@),
            tree_counted(lattice, visited@, steps@),
            forall|k1: int, k2: int|
                0 <= k1 < k2 < corridors@.len() ==> (#[trigger] corridors@[k1]).1 * lattice.spec_width()
                    + corridors@[k1].0 < (#[trigger] corridors@[k2]).1 * lattice.spec_width() + corridors@[k2].0,
        ensures
            walk_ok(lattice, visited@, steps@),
            grows_tree(*lattice, lattice.marked(visited@), steps@),
            tree_counted(lattice, visited@, steps@),
            forall|k: int| 0 <= k < corridors@.len() ==> lattice.marked(visited@).contains(#[trigger] corridors@[k]),
            forall|k: int| 0 <= k < corridors@.len() ==> lattice.open_at(#[trigger] corridors@[k]),
            forall|x: int, y: int|
                #[trigger] lattice.is_open(x, y) ==> corridors@.contains((x as usize, y as usize)),
        decreases 3 * (n - count_true(visited@)) + if current is None { 1int } else { 2int },
    {
        proof {
            super::lemma_count_bound(visited@);
        }
        let (x, y) = match current {
            Some(c) => c,
            None => {
                current = hunt(lattice, &corridors, &mut visited, &mut steps, rng);
                proof {
                    super::lemma_count_bound(visited@);
                }
                if current.is_none() {
                    break;
                }
                continue;
            },
        };
        let candidates = neighbours_marked(lattice, &visited, x, y, false);
        current = pick(candidates.as_slice(), rng);
        if let Some((nx, ny)) = current {
            proof {
                let j = choose|j: int| 0 <= j < candidates@.len() && candidates@[j] == (nx, ny);
                assert(lattice.open_at(candidates@[j]));
            }
            visit(lattice, &mut visited, &mut steps, Some((x, y)), (nx, ny));
        }
        proof {
            super::lemma_count_bound(visited@);
        }
    }
    proof {
        assert forall|x: int, y: int| #[trigger] lattice.is_open(x, y) implies exists|j: int|
            0 <= j < steps@.len() && #[trigger] steps@[j] == floor_step(x, y) by {
            assert(corridors@.contains((x as usize, y as usize)));
            let k = choose|k: int| 0 <= k < corridors@.len() && corridors@[k] == (x as usize, y as usize);
            assert(lattice.marked(visited@).contains(corridors@[k]));
            assert(lattice.open_at(corridors@[k]));
            assert(steps@.contains(floor_step(x, y)));
        }
        reveal(replay);
        if is_open_lattice(*lattice, lattice.spec_width(), lattice.spec_height()) && n >= 1 {
            lemma_all_marked(lattice, corridors@, visited@);
        }
    }
    steps
}

/// The next place to walk from: the first unvisited corridor that touches the
/// maze, joined to it; or, when none touches it, the first unvisited corridor
/// of a pocket not reached yet. None once everything is visited.
#[verifier::rlimit(50)]
#[verifier::spinoff_prover]
fn hunt(
    lattice: &Lattice,
    corridors: &Vec<(usize, usize)>,
    visited: &mut Vec<bool>,
    steps: &mut Vec<Step>,
    rng: &mut StdRng,
) -> (r: Option<(usize, usize)>)
    requires
        lattice.wf(),
        forall|k: int| 0 <= k < corridors@.len() ==> lattice.open_at(#[trigger] corridors@[k]),
        forall|x: int, y: int| #[trigger] lattice.is_open(x, y) ==> corridors@.contains((x as usize, y as usize)),
        forall|k1: int, k2: int|
            0 <= k1 < k2 < corridors@.len() ==> (#[trigger] corridors@[k1]).1 * lattice.spec_width() + corridors@[k1].0
                < (#[trigger] corridors@[k2]).1 * lattice.spec_width() + corridors@[k2].0,
        walk_ok(lattice, old(visited)@, old(steps)@),
        grows_tree(*lattice, lattice.marked(old(visited)@), old(steps)@),
        tree_counted(lattice, old(visited)@, old(steps)@),
    ensures
        walk_ok(lattice, final(visited)@, final(steps)@),
        grows_tree(*lattice, lattice.marked(final(visited)@), final(steps)@),
        tree_counted(lattice, final(visited)@, final(steps)@),
        r matches Some(c) ==> lattice.open_at(c) && lattice.marked(final(visited)@).contains(c)
            && count_true(final(visited)@) == count_true(old(visited)@) + 1,
        r is None ==> final(visited)@ == old(visited)@ && forall|k: int|
            0 <= k < corridors@.len() ==> lattice.marked(final(visited)@).contains(#[trigger] corridors@[k]),
{
    let mut k: usize = 0;
    while k < corridors.len()
        invariant
            lattice.wf(),
            forall|k: int| 0 <= k < corridors@.len() ==> lattice.open_at(#[trigger] corridors@[k]),
            walk_ok(lattice, visited@, steps@),
            grows_tree(*lattice, lattice.marked(visited@), steps@),
            tree_counted(lattice, visited@, steps@),
            visited@ == old(visited)@,
            k <= corridors@.len(),
            forall|j: int|
                0 <= j < k ==> lattice.marked(visited@).contains(#[trigger] corridors@[j]) || untouched(
                    lattice,
                    lattice.marked(visited@),
                    corridors@[j],
                ),
        decreases corridors@.len() - k,
    {
        let (x, y) = corridors[k];
        proof {
            assert(lattice.open_at(corridors@[k as int]));
            crate::maze::grid::lemma_square_index(lattice.spec_width(), lattice.spec_height(), x as int, y as int);
        }
        if visited[lattice.index(x, y)] {
            k = k + 1;
            continue;
        }
        let touching = neighbours_marked(lattice, visited, x, y, true);
        if let Some((vx, vy)) = pick(touching.as_slice(), rng) {
            proof {
                let j = choose|j: int| 0 <= j < touching@.len() && touching@[j] == (vx, vy);
                assert(lattice.open_at(touching@[j]) && adjacent((x, y), touching@[j]));
                assert(adjacent((vx, vy), (x, y)));
            }
            visit(lattice, visited, steps, Some((vx, vy)), (x, y));
            return Some((x, y));
        }
        proof {
            assert forall|q: (usize, usize)|
                lattice.open_at(q) && #[trigger] adjacent((x, y), q) implies !lattice.marked(visited@).contains(q) by {
                if lattice.marked(visited@).contains(q) {
                    assert(touching@.contains(q));
                }
            }
            assert(untouched(lattice, lattice.marked(visited@), corridors@[k as int]));
        }
        k = k + 1;
    }
    let ghost vis = lattice.marked(visited@);
    proof {
        if is_open_lattice(*lattice, lattice.spec_width(), lattice.spec_height()) && vis != Set::<(usize, usize)>::empty() {
            lemma_hunt_closed(lattice, corridors@, vis);
            let p = vis.choose();
            assert(vis.contains(p)) by {
                if !vis.contains(p) {
                    assert(vis =~= Set::<(usize, usize)>::empty());
                }
            }
            assert(vis.contains((0usize, 0usize)));
        }
    }

    let mut k: usize = 0;
    while k < corridors.len()
        invariant
            lattice.wf(),
            forall|k: int| 0 <= k < corridors@.len() ==> lattice.open_at(#[trigger] corridors@[k]),
            walk_ok(lattice, visited@, steps@),
            grows_tree(*lattice, lattice.marked(visited@), steps@),
            tree_counted(lattice, visited@, steps@),
            visited@ == old(visited)@,
            vis == lattice.marked(visited@),
            forall|x: int, y: int| #[trigger] lattice.is_open(x, y) ==> corridors@.contains((x as usize, y as usize)),
            forall|k1: int, k2: int|
                0 <= k1 < k2 < corridors@.len() ==> (#[trigger] corridors@[k1]).1 * lattice.spec_width()
                    + corridors@[k1].0 < (#[trigger] corridors@[k2]).1 * lattice.spec_width() + corridors@[k2].0,
            is_open_lattice(*lattice, lattice.spec_width(), lattice.spec_height()) && vis != Set::<(usize, usize)>::empty()
                ==> vis.contains((0usize, 0usize)) && closed_off(*lattice, vis, Seq::empty()),
            k <= corridors@.len(),
            forall|j: int| 0 <= j < k ==> lattice.marked(visited@).contains(#[trigger] corridors@[j]),
        decreases corridors@.len() - k,
    {
        let (x, y) = corridors[k];
        proof {
            assert(lattice.open_at(corridors@[k as int]));
            crate::maze::grid::lemma_square_index(lattice.spec_width(), lattice.spec_height(), x as int, y as int);
        }
        if !visited[lattice.index(x, y)] {
            proof {
                assert(!vis.contains((x, y)));
                if is_open_lattice(*lattice, lattice.spec_width(), lattice.spec_height()) {
                    if vis != Set::<(usize, usize)>::empty() {
                        lemma_closed_fills(*lattice, vis, x as int, y as int);
                    } else {
                        lemma_first_corridor(*lattice, corridors@);
                        if k > 0 {
                            assert(vis.contains(corridors@[0]));
                        }
                    }
                }
            }
            visit(lattice, visited, steps, None, (x, y));
            return Some((x, y));
        }
        k = k + 1;
    }
    None
}

/// Visiting `q` opens its square, and the wall it came through when it came
/// from a visited corridor: the count keeps step.
proof fn lemma_count_open(
    lattice: &Lattice,
    vis0: Set<(usize, usize)>,
    cells: Seq<Cell>,
    from: Option<(usize, usize)>,
    q: (usize, usize),
    settle: Step,
    before: Seq<Step>,
    after: Seq<Step>,
)
    requires
        lattice.wf(),
        is_open_lattice(*lattice, lattice.spec_width(), lattice.spec_height()),
        lattice.open_at(q),
        !vis0.contains(q),
        cells == drawn(*lattice, before),
        cells.len() == drawn_width(*lattice) * drawn_height(*lattice),
        opened_within(vis0, cells, drawn_width(*lattice), drawn_height(*lattice)),
        from matches Some(f) ==> lattice.open_at(f) && adjacent(f, q) && vis0.contains(f),
        from is None ==> vis0 == Set::<(usize, usize)>::empty(),
        settle == floor_step(q.0 as int, q.1 as int),
        after == (match from {
            Some(f) => before.push(Step { x: (f.0 + q.0 + 1) as usize, y: (f.1 + q.1 + 1) as usize, cell: Cell::Floor }).push(settle),
            None => before.push(settle),
        }),
    ensures
        opened_within(vis0.insert(q), drawn(*lattice, after), drawn_width(*lattice), drawn_height(*lattice)),
        walkable_count(drawn(*lattice, after)) == walkable_count(cells) + (if from is None { 1int } else { 2int }),
{
    let w = drawn_width(*lattice);
    let h = drawn_height(*lattice);
    let blank = all_walls(w * h);
    lattice.lemma_fits();
    match from {
        Some(f) => {
            let link = Step { x: (f.0 + q.0 + 1) as usize, y: (f.1 + q.1 + 1) as usize, cell: Cell::Floor };
            crate::maze::walks::lemma_replay_push(blank, w, before, link);
            crate::maze::walks::lemma_replay_push(blank, w, before.push(link), settle);
            lemma_grow_count(vis0, cells, w, h, f, q, link, settle);
        },
        None => {
            crate::maze::walks::lemma_replay_push(blank, w, before, settle);
            super::counting::lemma_corridor_visited(vis0.insert(q), q);
            super::counting::lemma_corridor_visited(vis0, q);
            if crate::maze::walks::open_in(cells, w, h, (settle.x, settle.y)) {
                super::counting::lemma_within_open(vis0, cells, w, h, (settle.x, settle.y));
            }
            super::counting::lemma_paint_within(vis0, vis0.insert(q), cells, w, h, settle);
        },
    }
}

/// Once every corridor of the open lattice is marked, all marks are set,
/// and there is at least one.
proof fn lemma_all_marked(lattice: &Lattice, corridors: Seq<(usize, usize)>, visited: Seq<bool>)
    requires
        lattice.wf(),
        is_open_lattice(*lattice, lattice.spec_width(), lattice.spec_height()),
        lattice.spec_width() * lattice.spec_height() >= 1,
        visited.len() == lattice.spec_width() * lattice.spec_height(),
        forall|x: int, y: int| #[trigger] lattice.is_open(x, y) ==> corridors.contains((x as usize, y as usize)),
        forall|k: int| 0 <= k < corridors.len() ==> lattice.marked(visited).contains(#[trigger] corridors[k]),
    ensures
        count_true(visited) == visited.len(),
        lattice.marked(visited) != Set::<(usize, usize)>::empty(),
{
    let lw = lattice.spec_width();
    let lh = lattice.spec_height();
    let n = lw * lh;
    lattice.lemma_fits();
    assert(lw >= 1 && lh >= 1) by (nonlinear_arith)
        requires
            lw * lh >= 1,
            lw >= 0,
            lh >= 0,
    ;
    assert forall|j: int| 0 <= j < visited.len() implies #[trigger] visited[j] by {
        vstd::arithmetic::div_mod::lemma_fundamental_div_mod(j, lw);
        vstd::arithmetic::mul::lemma_mul_is_commutative(j / lw, lw);
        assert(j / lw < lh) by (nonlinear_arith)
            requires
                0 <= j < lw * lh,
                0 < lw,
                j == lw * (j / lw) + j % lw,
                0 <= j % lw < lw,
        ;
        let p = ((j % lw) as usize, (j / lw) as usize);
        assert(lattice.holds(p));
        assert(lattice.flat(p) == j);
        assert(lattice.is_open(p.0 as int, p.1 as int));
        assert(corridors.contains(p));
        let k = choose|k: int| 0 <= k < corridors.len() && corridors[k] == p;
        assert(lattice.marked(visited).contains(corridors[k]));
    }
    lemma_count_uniform(visited, true);
    crate::maze::grid::lemma_square_index(lw, lh, 0, 0);
    assert(lattice.is_open(0, 0));
    assert(corridors.contains((0usize, 0usize)));
    let k = choose|k: int| 0 <= k < corridors.len() && corridors[k] == (0usize, 0usize);
    assert(lattice.marked(visited).contains(corridors[k]));
}

} // verus!
