//! The corridor lattice the carvers work on, and the steps they emit.

pub mod backtracker;
pub mod binary_tree;
pub mod disjoint_sets;
pub mod division;
pub mod eller;
pub mod growing_tree;
pub mod hunt_and_kill;
pub mod kruskal;
pub mod prim;
pub mod sidewinder;
pub mod spanning;
pub mod wilson;

pub mod braid;
pub mod connectivity;
pub mod counting;
pub mod dungeon;

use vstd::prelude::*;

use rand::rngs::StdRng;

use crate::maze::MazeKind;
use crate::maze::grid::{
    Cell, Grid, Step, adjacent, after_step, after_steps, lemma_square_index, neighbours, neighbours_spec, square_index,
    steps_inside, steps_unmarked,
};
use braid::{knocks_through, no_dead_end};
use crate::maze::walks::{all_joined, open_in};

verus! {

/// The corridor lattice an algorithm carves: its size in corridors and which
/// corridors are off-limits (inside dungeon rooms). Algorithms work in
/// corridor coordinates only; `floor` and `wall_between` translate to squares.
pub struct Lattice {
    width: usize,
    height: usize,
    blocked: Vec<bool>,
}

/// The squares of a grid of corridors_x by corridors_y corridors fit in memory.
pub open spec fn fits(corridors_x: int, corridors_y: int) -> bool {
    0 <= corridors_x && 0 <= corridors_y && (2 * corridors_x + 1) * (2 * corridors_y + 1)
        <= usize::MAX
}

impl Lattice {
    pub closed spec fn spec_width(&self) -> int {
        self.width as int
    }

    pub closed spec fn spec_height(&self) -> int {
        self.height as int
    }

    /// Which corridors are blocked, row by row.
    pub closed spec fn spec_blocked(&self) -> Seq<bool> {
        self.blocked@
    }

    pub open spec fn wf(&self) -> bool {
        &&& fits(self.spec_width(), self.spec_height())
        &&& self.spec_blocked().len() == self.spec_width() * self.spec_height()
    }

    /// A corridor inside the lattice and not blocked.
    pub open spec fn is_open(&self, x: int, y: int) -> bool {
        &&& 0 <= x < self.spec_width()
        &&& 0 <= y < self.spec_height()
        &&& !self.spec_blocked()[y * self.spec_width() + x]
    }

    pub open spec fn open_at(&self, p: (usize, usize)) -> bool {
        self.is_open(p.0 as int, p.1 as int)
    }

    /// A square of the drawn grid that belongs to the lattice: an open
    /// corridor, or the wall between two adjacent open corridors.
    pub open spec fn owns_square(&self, sx: int, sy: int) -> bool {
        if sx % 2 == 1 && sy % 2 == 1 {
            self.is_open((sx - 1) / 2, (sy - 1) / 2)
        } else if sx % 2 == 0 && sy % 2 == 1 {
            sx >= 2 && self.is_open(sx / 2 - 1, (sy - 1) / 2) && self.is_open(sx / 2, (sy - 1) / 2)
        } else if sx % 2 == 1 && sy % 2 == 0 {
            sy >= 2 && self.is_open((sx - 1) / 2, sy / 2 - 1) && self.is_open((sx - 1) / 2, sy / 2)
        } else {
            false
        }
    }

    /// Every step lands on a square of the lattice, with one of the
    /// allowed cells.
    pub open spec fn carves(&self, steps: Seq<Step>, allowed: spec_fn(Cell) -> bool) -> bool {
        forall|i: int|
            0 <= i < steps.len() ==> self.owns_square((#[trigger] steps[i]).x as int, steps[i].y as int)
                && allowed(steps[i].cell)
    }

    /// Every open corridor gets a floor step.
    pub open spec fn floors_every_corridor(&self, steps: Seq<Step>) -> bool {
        forall|x: int, y: int|
            #[trigger] self.is_open(x, y) ==> exists|i: int|
                0 <= i < steps.len() && #[trigger] steps[i] == floor_step(x, y)
    }

    pub proof fn lemma_fits(&self)
        requires
            self.wf(),
        ensures
            self.spec_width() * self.spec_height() <= usize::MAX,
            2 * self.spec_width() + 1 <= usize::MAX,
            2 * self.spec_height() + 1 <= usize::MAX,
            self.spec_width() <= usize::MAX,
            self.spec_height() <= usize::MAX,
    {
        let w = self.spec_width();
        let h = self.spec_height();
        assert(w * h <= (2 * w + 1) * (2 * h + 1) && 2 * w + 1 <= (2 * w + 1) * (2 * h + 1)
            && 2 * h + 1 <= (2 * w + 1) * (2 * h + 1)) by (nonlinear_arith)
            requires
                0 <= w,
                0 <= h,
        ;
    }

    /// Every open corridor with an open neighbour gets a floor step.
    pub open spec fn floors_every_linked_corridor(&self, steps: Seq<Step>) -> bool {
        forall|p: (usize, usize), q: (usize, usize)|
            #[trigger] self.open_at(p) && #[trigger] self.open_at(q) && adjacent(p, q) ==> steps.contains(
                floor_step(p.0 as int, p.1 as int),
            )
    }

    proof fn lemma_index(&self, x: int, y: int)
        requires
            self.wf(),
            0 <= x < self.spec_width(),
            0 <= y < self.spec_height(),
        ensures
            0 <= y * self.spec_width() + x < self.spec_width() * self.spec_height(),
    {
        crate::maze::grid::lemma_square_index(self.spec_width(), self.spec_height(), x, y);
    }

    /// The squares a lattice owns lie inside the drawn grid.
    pub proof fn lemma_owned_inside(&self, sx: int, sy: int)
        requires
            self.wf(),
            self.owns_square(sx, sy),
        ensures
            0 <= sx < 2 * self.spec_width() + 1,
            0 <= sy < 2 * self.spec_height() + 1,
    {
    }

    pub fn open(width: usize, height: usize) -> (lattice: Self)
        requires
            fits(width as int, height as int),
        ensures
            lattice.wf(),
            lattice.spec_width() == width,
            lattice.spec_height() == height,
            forall|i: int| 0 <= i < width * height ==> !#[trigger] lattice.spec_blocked()[i],
    {
        assert(width * height <= (2 * width + 1) * (2 * height + 1)) by (nonlinear_arith)
            requires
                0 <= width,
                0 <= height,
        ;
        Self { width, height, blocked: vec![false; width * height] }
    }

    pub fn width(&self) -> (w: usize)
        ensures
            w == self.spec_width(),
    {
        self.width
    }

    pub fn height(&self) -> (h: usize)
        ensures
            h == self.spec_height(),
    {
        self.height
    }

    pub fn len(&self) -> (n: usize)
        requires
            self.wf(),
        ensures
            n == self.spec_width() * self.spec_height(),
    {
        self.blocked.len()
    }

    pub fn index(&self, x: usize, y: usize) -> (i: usize)
        requires
            self.wf(),
            x < self.spec_width(),
            y < self.spec_height(),
        ensures
            i == y * self.spec_width() + x,
            i < self.spec_width() * self.spec_height(),
    {
        proof {
            self.lemma_index(x as int, y as int);
            self.lemma_fits();
        }
        y * self.width + x
    }

    pub fn block(&mut self, x: usize, y: usize)
        requires
            old(self).wf(),
            x < old(self).spec_width(),
            y < old(self).spec_height(),
        ensures
            final(self).wf(),
            final(self).spec_width() == old(self).spec_width(),
            final(self).spec_height() == old(self).spec_height(),
            final(self).spec_blocked() == old(self).spec_blocked().update(
                y * old(self).spec_width() + x,
                true,
            ),
    {
        let i = self.index(x, y);
        self.blocked.set(i, true);
    }

    pub fn is_blocked(&self, x: usize, y: usize) -> (b: bool)
        requires
            self.wf(),
            x < self.spec_width(),
            y < self.spec_height(),
        ensures
            b == !self.is_open(x as int, y as int),
    {
        self.blocked[self.index(x, y)]
    }

    /// Every corridor that is not blocked, row by row.
    pub fn corridors(&self) -> (out: Vec<(usize, usize)>)
        requires
            self.wf(),
        ensures
            forall|i: int| 0 <= i < out@.len() ==> self.open_at(#[trigger] out@[i]),
            forall|x: int, y: int|
                #[trigger] self.is_open(x, y) ==> out@.contains((x as usize, y as usize)),
            forall|i: int, j: int|
                0 <= i < j < out@.len() ==> (#[trigger] out@[i]).1 * self.spec_width() + out@[i].0 < (
                #[trigger] out@[j]).1 * self.spec_width() + out@[j].0,
    {
        let mut out: Vec<(usize, usize)> = Vec::new();
        let mut y: usize = 0;
        while y < self.height
            invariant
                self.wf(),
                y <= self.spec_height(),
                forall|i: int| 0 <= i < out@.len() ==> self.open_at(#[trigger] out@[i]),
                forall|i: int| 0 <= i < out@.len() ==> (#[trigger] out@[i]).1 < y,
                forall|i: int| 0 <= i < out@.len() ==> (#[trigger] out@[i]).0 < self.spec_width(),
                forall|x2: int, y2: int|
                    #[trigger] self.is_open(x2, y2) && y2 < y ==> out@.contains(
                        (x2 as usize, y2 as usize),
                    ),
                forall|i: int, j: int|
                    0 <= i < j < out@.len() ==> (#[trigger] out@[i]).1 * self.spec_width() + out@[i].0
                        < (#[trigger] out@[j]).1 * self.spec_width() + out@[j].0,
            decreases self.spec_height() - y,
        {
            let mut x: usize = 0;
            while x < self.width
                invariant
                    self.wf(),
                    y < self.spec_height(),
                    x <= self.spec_width(),
                    forall|i: int| 0 <= i < out@.len() ==> self.open_at(#[trigger] out@[i]),
                    forall|i: int|
                        0 <= i < out@.len() ==> (#[trigger] out@[i]).1 < y || (out@[i].1 == y
                            && out@[i].0 < x),
                    forall|i: int| 0 <= i < out@.len() ==> (#[trigger] out@[i]).0 < self.spec_width(),
                    forall|x2: int, y2: int|
                        #[trigger] self.is_open(x2, y2) && (y2 < y || (y2 == y && x2 < x))
                            ==> out@.contains((x2 as usize, y2 as usize)),
                    forall|i: int, j: int|
                        0 <= i < j < out@.len() ==> (#[trigger] out@[i]).1 * self.spec_width()
                            + out@[i].0 < (#[trigger] out@[j]).1 * self.spec_width() + out@[j].0,
                decreases self.spec_width() - x,
            {
                if !self.is_blocked(x, y) {
                    let ghost before = out@;
                    out.push((x, y));
                    proof {
                        assert forall|i: int, j: int|
                            0 <= i < j < out@.len() implies (#[trigger] out@[i]).1 * self.spec_width()
                                + out@[i].0 < (#[trigger] out@[j]).1 * self.spec_width() + out@[j].0 by {
                            if j == out@.len() - 1 {
                                let a = out@[i];
                                if a.1 < y {
                                    assert(a.1 * self.spec_width() + a.0 < y * self.spec_width() + x)
                                        by (nonlinear_arith)
                                        requires
                                            a.1 < y,
                                            a.0 < self.spec_width(),
                                            0 <= x,
                                    ;
                                }
                            }
                        }
                        assert forall|x2: int, y2: int|
                            #[trigger] self.is_open(x2, y2) && (y2 < y || (y2 == y && x2 < x + 1))
                                implies out@.contains((x2 as usize, y2 as usize)) by {
                            if y2 == y && x2 == x {
                                assert(out@[out@.len() - 1] == (x, y));
                            } else {
                                assert(before.contains((x2 as usize, y2 as usize)));
                                let k = choose|k: int| 0 <= k < before.len() && before[k] == (
                                    x2 as usize,
                                    y2 as usize,
                                );
                                assert(out@[k] == before[k]);
                            }
                        }
                    }
                }
                x = x + 1;
            }
            y = y + 1;
        }
        out
    }

    /// Orthogonal neighbours that are not blocked.
    pub fn neighbours(&self, x: usize, y: usize) -> (out: Vec<(usize, usize)>)
        requires
            self.wf(),
            x < self.spec_width(),
            y < self.spec_height(),
        ensures
            out@ == neighbours_spec(x, y, self.spec_width() as usize, self.spec_height() as usize).filter(
                |p: (usize, usize)| self.open_at(p),
            ),
            forall|i: int|
                0 <= i < out@.len() ==> self.open_at(#[trigger] out@[i]) && adjacent((x, y), out@[i]),
            forall|p: (usize, usize)|
                #[trigger] self.open_at(p) && adjacent((x, y), p) ==> out@.contains(p),
            out@.len() <= 4,
    {
        proof {
            self.lemma_fits();
        }
        let all = neighbours(x, y, self.width, self.height);
        let ghost pred = |p: (usize, usize)| self.open_at(p);
        proof {
            crate::maze::grid::lemma_neighbours(x, y, self.width, self.height);
        }
        let mut out: Vec<(usize, usize)> = Vec::new();
        let mut j: usize = 0;
        while j < all.len()
            invariant
                self.wf(),
                all@ == neighbours_spec(x, y, self.spec_width() as usize, self.spec_height() as usize),
                forall|i: int|
                    0 <= i < all@.len() ==> {
                        let p = #[trigger] all@[i];
                        adjacent((x, y), p) && p.0 < self.spec_width() && p.1 < self.spec_height()
                    },
                j <= all@.len(),
                pred == (|p: (usize, usize)| self.open_at(p)),
                out@ == all@.take(j as int).filter(pred),
                forall|i: int|
                    0 <= i < out@.len() ==> self.open_at(#[trigger] out@[i]) && adjacent((x, y), out@[i]),
            decreases all@.len() - j,
        {
            let p = all[j];
            proof {
                reveal(Seq::filter);
                assert(all@.take(j + 1).drop_last() =~= all@.take(j as int));
                assert(p == all@[j as int]);
            }
            if !self.is_blocked(p.0, p.1) {
                out.push(p);
            }
            j = j + 1;
        }
        proof {
            assert(all@.take(all@.len() as int) =~= all@);
            crate::maze::grid::lemma_neighbours(x, y, self.width, self.height);
            all@.lemma_filter_len(pred);
            assert forall|p: (usize, usize)| #[trigger] self.open_at(p) && adjacent((x, y), p)
                implies out@.contains(p) by {
                assert(all@.contains(p));
                let k = choose|k: int| 0 <= k < all@.len() && all@[k] == p;
                all@.lemma_filter_contains(pred, k);
            }
        }
        out
    }
}

/// The floor step for corridor (x, y), in square coordinates.
pub open spec fn floor_step(x: int, y: int) -> Step {
    Step { x: (2 * x + 1) as usize, y: (2 * y + 1) as usize, cell: Cell::Floor }
}

/// No step walls in a corridor's own square: walls only ever go between
/// corridors.
pub open spec fn spares_corridors(steps: Seq<Step>) -> bool {
    forall|i: int|
        0 <= i < steps.len() && (#[trigger] steps[i]).cell == Cell::Wall ==> !(steps[i].x % 2 == 1 && steps[i].y % 2
            == 1)
}

/// The step that sets corridor (x, y) to `cell`, in square coordinates.
pub fn corridor(corridor_x: usize, corridor_y: usize, cell: Cell) -> (step: Step)
    requires
        2 * corridor_x + 1 <= usize::MAX,
        2 * corridor_y + 1 <= usize::MAX,
    ensures
        step == (Step { x: (2 * corridor_x + 1) as usize, y: (2 * corridor_y + 1) as usize, cell }),
{
    Step { x: corridor_x * 2 + 1, y: corridor_y * 2 + 1, cell }
}

/// The floor step for one corridor, in square coordinates.
pub fn floor(corridor_x: usize, corridor_y: usize) -> (step: Step)
    requires
        2 * corridor_x + 1 <= usize::MAX,
        2 * corridor_y + 1 <= usize::MAX,
    ensures
        step == floor_step(corridor_x as int, corridor_y as int),
{
    corridor(corridor_x, corridor_y, Cell::Floor)
}

/// The square between two adjacent corridors is their midpoint; this sets
/// it to `cell`.
pub fn between(ax: usize, ay: usize, bx: usize, by: usize, cell: Cell) -> (step: Step)
    requires
        ax + bx + 1 <= usize::MAX,
        ay + by + 1 <= usize::MAX,
    ensures
        step == (Step { x: (ax + bx + 1) as usize, y: (ay + by + 1) as usize, cell }),
{
    Step { x: ax + bx + 1, y: ay + by + 1, cell }
}

/// The wall square between two adjacent corridors, opened.
pub fn wall_between(ax: usize, ay: usize, bx: usize, by: usize) -> (step: Step)
    requires
        ax + bx + 1 <= usize::MAX,
        ay + by + 1 <= usize::MAX,
    ensures
        step == (Step { x: (ax + bx + 1) as usize, y: (ay + by + 1) as usize, cell: Cell::Floor }),
{
    between(ax, ay, bx, by, Cell::Floor)
}

impl Lattice {
    /// A corridor step of an open corridor lands on a square of the lattice.
    pub proof fn lemma_corridor_owned(&self, x: int, y: int)
        requires
            self.wf(),
            self.is_open(x, y),
        ensures
            self.owns_square(2 * x + 1, 2 * y + 1),
            2 * x + 1 <= usize::MAX,
            2 * y + 1 <= usize::MAX,
    {
        assert((2 * x + 1) % 2 == 1 && (2 * x + 1 - 1) / 2 == x);
        assert((2 * y + 1) % 2 == 1 && (2 * y + 1 - 1) / 2 == y);
        assert(2 * self.spec_width() + 1 <= usize::MAX && 2 * self.spec_height() + 1 <= usize::MAX)
            by (nonlinear_arith)
            requires
                fits(self.spec_width(), self.spec_height()),
        ;
    }

    /// The wall between two adjacent open corridors lands on a square of
    /// the lattice.
    pub proof fn lemma_between_owned(&self, a: (usize, usize), b: (usize, usize))
        requires
            self.wf(),
            self.open_at(a),
            self.open_at(b),
            adjacent(a, b),
        ensures
            self.owns_square(a.0 + b.0 + 1, a.1 + b.1 + 1),
            a.0 + b.0 + 1 <= usize::MAX,
            a.1 + b.1 + 1 <= usize::MAX,
    {
        assert(2 * self.spec_width() + 1 <= usize::MAX && 2 * self.spec_height() + 1 <= usize::MAX)
            by (nonlinear_arith)
            requires
                fits(self.spec_width(), self.spec_height()),
        ;
    }
}

impl Lattice {
    /// A corridor position inside the lattice, blocked or not.
    pub open spec fn holds(&self, p: (usize, usize)) -> bool {
        p.0 < self.spec_width() && p.1 < self.spec_height()
    }

    /// The flat index of corridor `p`.
    pub open spec fn flat(&self, p: (usize, usize)) -> int {
        p.1 * self.spec_width() + p.0
    }

    /// `marks`, indexed by corridor, is true exactly on the corridors of `set`.
    pub open spec fn tracks(&self, marks: Seq<bool>, set: Set<(usize, usize)>) -> bool {
        &&& marks.len() == self.spec_width() * self.spec_height()
        &&& forall|p: (usize, usize)| #[trigger] set.contains(p) ==> self.holds(p)
        &&& forall|p: (usize, usize)| self.holds(p) ==> (marks[self.flat(p)] <==> #[trigger] set.contains(p))
    }

    /// Setting the mark of one corridor adds it to (or removes it from) the set.
    pub proof fn lemma_tracks_update(&self, marks: Seq<bool>, set: Set<(usize, usize)>, q: (usize, usize), v: bool)
        requires
            self.wf(),
            self.tracks(marks, set),
            self.holds(q),
        ensures
            self.tracks(
                marks.update(self.flat(q), v),
                if v { set.insert(q) } else { set.remove(q) },
            ),
    {
        let w = self.spec_width();
        let h = self.spec_height();
        let marks2 = marks.update(self.flat(q), v);
        let set2 = if v { set.insert(q) } else { set.remove(q) };
        crate::maze::grid::lemma_square_index(w, h, q.0 as int, q.1 as int);
        assert forall|p: (usize, usize)| self.holds(p) implies (marks2[self.flat(p)] <==> #[trigger] set2.contains(p)) by {
            crate::maze::grid::lemma_square_index(w, h, p.0 as int, p.1 as int);
            if self.flat(p) == self.flat(q) {
                crate::maze::grid::lemma_square_index_injective(w, p.0 as int, p.1 as int, q.0 as int, q.1 as int);
            }
        }
    }

    /// The marks of corridors read through `index`.
    pub proof fn lemma_tracks_read(&self, marks: Seq<bool>, set: Set<(usize, usize)>, q: (usize, usize))
        requires
            self.tracks(marks, set),
            self.holds(q),
        ensures
            marks[self.flat(q)] == set.contains(q),
    {
    }
}

/// The open neighbours of (x, y) not yet visited.
pub(crate) fn unvisited_neighbours(
    lattice: &Lattice,
    visited: &Vec<bool>,
    Ghost(vis): Ghost<Set<(usize, usize)>>,
    x: usize,
    y: usize,
) -> (out: Vec<(usize, usize)>)
    requires
        lattice.wf(),
        lattice.tracks(visited@, vis),
        lattice.open_at((x, y)),
    ensures
        forall|j: int|
            0 <= j < out@.len() ==> lattice.open_at(#[trigger] out@[j]) && adjacent((x, y), out@[j])
                && !vis.contains(out@[j]),
        forall|p: (usize, usize)|
            lattice.open_at(p) && adjacent((x, y), p) && !vis.contains(p) ==> #[trigger] out@.contains(p),
{
    let nbrs = lattice.neighbours(x, y);
    let mut out: Vec<(usize, usize)> = Vec::new();
    let mut k: usize = 0;
    while k < nbrs.len()
        invariant
            lattice.wf(),
            lattice.tracks(visited@, vis),
            k <= nbrs@.len(),
            forall|j: int|
                0 <= j < nbrs@.len() ==> lattice.open_at(#[trigger] nbrs@[j]) && adjacent((x, y), nbrs@[j]),
            forall|j: int|
                0 <= j < out@.len() ==> lattice.open_at(#[trigger] out@[j]) && adjacent((x, y), out@[j])
                    && !vis.contains(out@[j]),
            forall|j: int| 0 <= j < k && !vis.contains(#[trigger] nbrs@[j]) ==> out@.contains(nbrs@[j]),
        decreases nbrs@.len() - k,
    {
        let (nx, ny) = nbrs[k];
        proof {
            assert(lattice.open_at(nbrs@[k as int]));
            lattice.lemma_tracks_read(visited@, vis, (nx, ny));
        }
        let ghost before = out@;
        if !visited[lattice.index(nx, ny)] {
            out.push((nx, ny));
        }
        proof {
            assert forall|j: int| 0 <= j < k + 1 && !vis.contains(#[trigger] nbrs@[j]) implies out@.contains(
                nbrs@[j],
            ) by {
                if j < k {
                    let m = choose|m: int| 0 <= m < before.len() && before[m] == nbrs@[j];
                    assert(out@[m] == before[m]);
                } else {
                    assert(out@[out@.len() - 1] == nbrs@[j]);
                }
            }
        }
        k = k + 1;
    }
    proof {
        assert forall|p: (usize, usize)|
            lattice.open_at(p) && adjacent((x, y), p) && !vis.contains(p) implies #[trigger] out@.contains(p) by {
            assert(nbrs@.contains(p));
            let j = choose|j: int| 0 <= j < nbrs@.len() && nbrs@[j] == p;
        }
    }
    out
}

impl Lattice {
    /// Every pair of adjacent open corridors, each once: a corridor lists
    /// its right and lower neighbours.
    pub fn edges(&self) -> (out: Vec<((usize, usize), (usize, usize))>)
        requires
            self.wf(),
        ensures
            forall|k: int|
                0 <= k < out@.len() ==> self.open_at((#[trigger] out@[k]).0) && self.open_at(out@[k].1)
                    && adjacent(out@[k].0, out@[k].1) && (out@[k].1.0 > out@[k].0.0 || out@[k].1.1
                    > out@[k].0.1),
            forall|p: (usize, usize), q: (usize, usize)|
                self.open_at(p) && self.open_at(q) && #[trigger] adjacent(p, q) && (q.0 > p.0 || q.1 > p.1)
                    ==> out@.contains((p, q)),
    {
        let corridors = self.corridors();
        let mut out: Vec<((usize, usize), (usize, usize))> = Vec::new();
        let mut i: usize = 0;
        while i < corridors.len()
            invariant
                self.wf(),
                i <= corridors@.len(),
                forall|k: int| 0 <= k < corridors@.len() ==> self.open_at(#[trigger] corridors@[k]),
                forall|k: int|
                    0 <= k < out@.len() ==> self.open_at((#[trigger] out@[k]).0) && self.open_at(out@[k].1)
                        && adjacent(out@[k].0, out@[k].1) && (out@[k].1.0 > out@[k].0.0 || out@[k].1.1
                        > out@[k].0.1),
                forall|x2: int, y2: int| #[trigger] self.is_open(x2, y2) ==> corridors@.contains((x2 as usize, y2 as usize)),
                forall|k: int, q: (usize, usize)|
                    0 <= k < i && self.open_at(q) && #[trigger] adjacent(#[trigger] corridors@[k], q) && (q.0
                        > corridors@[k].0 || q.1 > corridors@[k].1) ==> out@.contains((corridors@[k], q)),
            decreases corridors@.len() - i,
        {
            let (x, y) = corridors[i];
            proof {
                assert(self.open_at(corridors@[i as int]));
            }
            let ghost out0 = out@;
            let nbrs = self.neighbours(x, y);
            let mut k: usize = 0;
            while k < nbrs.len()
                invariant
                    self.wf(),
                    self.open_at((x, y)),
                    k <= nbrs@.len(),
                    forall|j: int|
                        0 <= j < nbrs@.len() ==> self.open_at(#[trigger] nbrs@[j]) && adjacent((x, y), nbrs@[j]),
                    forall|j: int|
                        0 <= j < out@.len() ==> self.open_at((#[trigger] out@[j]).0) && self.open_at(out@[j].1)
                            && adjacent(out@[j].0, out@[j].1) && (out@[j].1.0 > out@[j].0.0 || out@[j].1.1
                            > out@[j].0.1),
                    out0.len() <= out@.len(),
                    forall|j: int| 0 <= j < out0.len() ==> #[trigger] out@[j] == out0[j],
                    forall|j: int| 0 <= j < k && (nbrs@[j].0 > x || nbrs@[j].1 > y) ==> out@.contains(((x, y), #[trigger] nbrs@[j])),
                decreases nbrs@.len() - k,
            {
                let (nx, ny) = nbrs[k];
                proof {
                    assert(self.open_at(nbrs@[k as int]));
                }
                let ghost before = out@;
                if nx > x || ny > y {
                    out.push(((x, y), (nx, ny)));
                    proof {
                        assert forall|j: int|
                            0 <= j < out@.len() implies self.open_at((#[trigger] out@[j]).0) && self.open_at(
                                out@[j].1,
                            ) && adjacent(out@[j].0, out@[j].1) && (out@[j].1.0 > out@[j].0.0 || out@[j].1.1
                                > out@[j].0.1) by {
                            if j < before.len() {
                                assert(out@[j] == before[j]);
                            }
                        }
                        assert forall|j: int| 0 <= j < out0.len() implies #[trigger] out@[j] == out0[j] by {
                            assert(out@[j] == before[j]);
                        }
                    }
                }
                proof {
                    assert forall|j: int| 0 <= j < k + 1 && (nbrs@[j].0 > x || nbrs@[j].1 > y) implies out@.contains(((x, y), #[trigger] nbrs@[j])) by {
                        if j < k {
                            let m = choose|m: int| 0 <= m < before.len() && before[m] == ((x, y), nbrs@[j]);
                            assert(out@[m] == before[m]);
                        } else {
                            assert(out@[out@.len() - 1] == ((x, y), nbrs@[j]));
                        }
                    }
                }
                k = k + 1;
            }
            proof {
                assert forall|k2: int, q: (usize, usize)|
                    0 <= k2 < i + 1 && self.open_at(q) && #[trigger] adjacent(#[trigger] corridors@[k2], q) && (q.0
                        > corridors@[k2].0 || q.1 > corridors@[k2].1) implies out@.contains((corridors@[k2], q)) by {
                    if k2 < i {
                        let m = choose|m: int| 0 <= m < out0.len() && out0[m] == (corridors@[k2], q);
                        assert(out@[m] == out0[m]);
                    } else {
                        assert(nbrs@.contains(q));
                        let j = choose|j: int| 0 <= j < nbrs@.len() && nbrs@[j] == q;
                    }
                }
            }
            i = i + 1;
        }
        proof {
            assert forall|p: (usize, usize), q: (usize, usize)|
                self.open_at(p) && self.open_at(q) && #[trigger] adjacent(p, q) && (q.0 > p.0 || q.1 > p.1) implies out@.contains((p, q)) by {
                assert(self.is_open(p.0 as int, p.1 as int));
                assert(corridors@.contains(p));
                let k = choose|k: int| 0 <= k < corridors@.len() && corridors@[k] == p;
                assert(adjacent(corridors@[k], q));
            }
        }
        out
    }
}

impl Lattice {
    /// Steps on the lattice's squares stay inside the drawn grid.
    pub proof fn lemma_carves_inside(&self, steps: Seq<Step>, allowed: spec_fn(Cell) -> bool)
        requires
            self.wf(),
            self.carves(steps, allowed),
        ensures
            steps_inside(steps, 2 * self.spec_width() + 1, 2 * self.spec_height() + 1),
    {
        assert forall|i: int| 0 <= i < steps.len() implies (#[trigger] steps[i]).x < 2 * self.spec_width()
            + 1 && steps[i].y < 2 * self.spec_height() + 1 by {
            self.lemma_owned_inside(steps[i].x as int, steps[i].y as int);
        }
    }
}

/// The corridor carvers the user can choose from. Each one is meant to
/// produce a perfect maze on its own, and the kind decides what happens
/// around it; `carving_ok` says how much of that each is proved to do.
#[derive(Clone, Copy, PartialEq, Eq, Debug, Structural)]
pub enum Algorithm {
    Backtracker,
    Prim,
    Kruskal,
    Wilson,
    HuntAndKill,
    GrowingTree,
    BinaryTree,
    Sidewinder,
    Eller,
    Division,
}

/// A cell a carver may emit.
pub open spec fn carving_cell(c: Cell) -> bool {
    c == Cell::Floor || c == Cell::Probe || c == Cell::Wall
}

impl Algorithm {
    pub const ALL: [Algorithm; 10] = [
        Algorithm::Backtracker,
        Algorithm::Prim,
        Algorithm::Kruskal,
        Algorithm::Wilson,
        Algorithm::HuntAndKill,
        Algorithm::GrowingTree,
        Algorithm::BinaryTree,
        Algorithm::Sidewinder,
        Algorithm::Eller,
        Algorithm::Division,
    ];

    pub open spec fn spec_label(self) -> Seq<char> {
        match self {
            Algorithm::Backtracker => "Recursive backtracker"@,
            Algorithm::Prim => "Prim"@,
            Algorithm::Kruskal => "Kruskal"@,
            Algorithm::Wilson => "Wilson"@,
            Algorithm::HuntAndKill => "Hunt-and-kill"@,
            Algorithm::GrowingTree => "Growing tree"@,
            Algorithm::BinaryTree => "Binary tree"@,
            Algorithm::Sidewinder => "Sidewinder"@,
            Algorithm::Eller => "Eller"@,
            Algorithm::Division => "Recursive division"@,
        }
    }

    pub fn label(self) -> (text: &'static str)
        ensures
            text@ == self.spec_label(),
    {
        match self {
            Algorithm::Backtracker => "Recursive backtracker",
            Algorithm::Prim => "Prim",
            Algorithm::Kruskal => "Kruskal",
            Algorithm::Wilson => "Wilson",
            Algorithm::HuntAndKill => "Hunt-and-kill",
            Algorithm::GrowingTree => "Growing tree",
            Algorithm::BinaryTree => "Binary tree",
            Algorithm::Sidewinder => "Sidewinder",
            Algorithm::Eller => "Eller",
            Algorithm::Division => "Recursive division",
        }
    }

    pub open spec fn spec_description(self) -> Seq<char> {
        match self {
            Algorithm::Backtracker => "Long winding corridors; the stack unwinds as it backs out."@,
            Algorithm::Prim => "Short bushy dead ends, grown from a random frontier."@,
            Algorithm::Kruskal => "An even texture: islands of corridors merging at random."@,
            Algorithm::Wilson => "Unbiased: every maze is equally likely. Random walks erase their own loops."@,
            Algorithm::HuntAndKill => "Long corridors: walks, then hunts for a new start."@,
            Algorithm::GrowingTree => "Between the backtracker and Prim: newest or random active corridor."@,
            Algorithm::BinaryTree => "Strong diagonal bias, built in a single sweep."@,
            Algorithm::Sidewinder => "An open top row and a vertical bias, row by row."@,
            Algorithm::Eller => "Balanced, row by row, with sets merging."@,
            Algorithm::Division => "Long straight walls added to an empty field."@,
        }
    }

    pub fn description(self) -> (text: &'static str)
        ensures
            text@ == self.spec_description(),
    {
        match self {
            Algorithm::Backtracker => "Long winding corridors; the stack unwinds as it backs out.",
            Algorithm::Prim => "Short bushy dead ends, grown from a random frontier.",
            Algorithm::Kruskal => "An even texture: islands of corridors merging at random.",
            Algorithm::Wilson => "Unbiased: every maze is equally likely. Random walks erase their own loops.",
            Algorithm::HuntAndKill => "Long corridors: walks, then hunts for a new start.",
            Algorithm::GrowingTree => "Between the backtracker and Prim: newest or random active corridor.",
            Algorithm::BinaryTree => "Strong diagonal bias, built in a single sweep.",
            Algorithm::Sidewinder => "An open top row and a vertical bias, row by row.",
            Algorithm::Eller => "Balanced, row by row, with sets merging.",
            Algorithm::Division => "Long straight walls added to an empty field.",
        }
    }

    /// The algorithm's carving of `lattice`: every step lands on a square of
    /// the lattice, as floor, probe or wall. Recursive division first clears
    /// the whole field and then builds walls back.
    pub fn carve(self, lattice: &Lattice, rng: &mut StdRng) -> (steps: Vec<Step>)
        requires
            lattice.wf(),
        ensures
            self.carving_ok(lattice, steps@),
    {
        let mut generation = Generation { steps: Vec::new(), phases: Vec::new() };
        let carving = self.carve_into(lattice, rng, &mut generation);
        proof {
            assert(generation.steps@ =~= carving@);
        }
        generation.steps
    }

    /// The carving of every algorithm but recursive division.
    fn carve_corridors(self, lattice: &Lattice, rng: &mut StdRng) -> (steps: Vec<Step>)
        requires
            lattice.wf(),
            self != Algorithm::Division,
        ensures
            self.carving_ok(lattice, steps@),
    {
        let steps = match self {
            Algorithm::Backtracker => backtracker::carve(lattice, rng),
            Algorithm::Prim => prim::carve(lattice, rng),
            Algorithm::Kruskal => kruskal::carve(lattice, rng),
            Algorithm::Wilson => wilson::carve(lattice, rng),
            Algorithm::HuntAndKill => hunt_and_kill::carve(lattice, rng),
            Algorithm::GrowingTree => growing_tree::carve(lattice, rng),
            Algorithm::BinaryTree => binary_tree::carve(lattice, rng),
            Algorithm::Sidewinder => sidewinder::carve(lattice, rng),
            Algorithm::Eller => eller::carve(lattice, rng),
            Algorithm::Division => division::carve(lattice, rng),
        };
        proof {
            reveal(connects);
            if self != Algorithm::Wilson && self != Algorithm::Division {
                assert forall|i: int| 0 <= i < steps@.len() && (#[trigger] steps@[i]).cell == Cell::Wall implies !(
                    steps@[i].x % 2 == 1 && steps@[i].y % 2 == 1) by {
                    assert(lattice.owns_square(steps@[i].x as int, steps@[i].y as int));
                }
            }
            if self.proved_connected() {
                assert forall|i: int| 0 <= i < steps@.len() implies (#[trigger] steps@[i]).cell != Cell::Wall by {
                    assert(lattice.owns_square(steps@[i].x as int, steps@[i].y as int));
                }
                lemma_linked_open(lattice, steps@);
            }
        }
        steps
    }

    /// What every carving of this algorithm is: steps on the lattice's own
    /// squares, as floor, probe or wall, that leave every corridor floored
    /// (every corridor with a neighbour, for Kruskal), and, for the
    /// algorithms named below, hang together and open a tree's worth of
    /// squares on the open lattice.
    pub open spec fn carving_ok(self, lattice: &Lattice, carving: Seq<Step>) -> bool {
        &&& lattice.carves(carving, |c: Cell| carving_cell(c))
        &&& self != Algorithm::Kruskal ==> lattice.floors_every_corridor(carving)
        &&& self == Algorithm::Kruskal ==> lattice.floors_every_linked_corridor(carving)
        &&& self != Algorithm::Wilson ==> spares_corridors(carving)
        &&& self.proved_connected() ==> connects(lattice, carving)
        &&& self.proved_tree() ==> spans_tree(lattice, carving, self.fewest_for_tree())
    }

    /// The algorithms shown to floor every open corridor and wall none in,
    /// on any lattice.
    pub open spec fn floors_fully(self) -> bool {
        self != Algorithm::Kruskal && self != Algorithm::Wilson
    }

    /// The algorithms whose carvings are counted to open a tree's worth of
    /// squares.
    pub open spec fn proved_tree(self) -> bool {
        ||| self == Algorithm::Backtracker
        ||| self == Algorithm::Prim
        ||| self == Algorithm::Kruskal
        ||| self == Algorithm::Eller
        ||| self == Algorithm::GrowingTree
        ||| self == Algorithm::HuntAndKill
        ||| self == Algorithm::BinaryTree
        ||| self == Algorithm::Sidewinder
        ||| self == Algorithm::Division
    }

    /// How many corridors the tree count needs: Kruskal knocks down no wall
    /// around a lone corridor, and floors a corridor only with a neighbour.
    pub open spec fn fewest_for_tree(self) -> int {
        if self == Algorithm::Kruskal {
            2
        } else {
            1
        }
    }

    /// The algorithms whose carvings are shown to hang together.
    pub open spec fn proved_connected(self) -> bool {
        ||| self == Algorithm::Backtracker
        ||| self == Algorithm::Prim
        ||| self == Algorithm::GrowingTree
        ||| self == Algorithm::HuntAndKill
        ||| self == Algorithm::BinaryTree
        ||| self == Algorithm::Sidewinder
        ||| self == Algorithm::Eller
        ||| self == Algorithm::Kruskal
        ||| self == Algorithm::Division
    }

    /// Appends the carving to `generation`, in named phases, and returns it.
    pub(crate) fn carve_into(self, lattice: &Lattice, rng: &mut StdRng, generation: &mut Generation) -> (carving: Ghost<
        Seq<Step>,
    >)
        requires
            lattice.wf(),
            old(generation).phases_ok(),
        ensures
            final(generation).phases_ok(),
            final(generation).steps@ == old(generation).steps@ + carving@,
            self.carving_ok(lattice, carving@),
    {
        match self {
            Algorithm::Division => divide_into(lattice, rng, generation),
            _ => {
                generation.begin("Carving corridors", 1);
                let steps = self.carve_corridors(lattice, rng);
                let ghost carved = steps@;
                generation.extend(steps);
                Ghost(carved)
            },
        }
    }
}

/// What the field's clearing and the walls built back amount to: steps on
/// the lattice's squares, every corridor floored, no corridor walled in,
/// and on the open lattice a grid that hangs together and opens a tree's
/// worth of squares.
#[verifier::rlimit(60)]
#[verifier::spinoff_prover]
proof fn lemma_division_parts(lattice: &Lattice, cleared: Seq<Step>, built: Seq<Step>)
    requires
        lattice.wf(),
        lattice.carves(cleared, |c: Cell| c == Cell::Floor),
        lattice.floors_every_corridor(cleared),
        after_steps(
            all_walls((2 * lattice.spec_width() + 1) * (2 * lattice.spec_height() + 1)),
            2 * lattice.spec_width() + 1,
            cleared,
        ) == division::field(*lattice),
        lattice.carves(built, |c: Cell| c == Cell::Wall),
        spares_corridors(built),
        is_open_lattice(*lattice, lattice.spec_width(), lattice.spec_height()) ==> all_joined(
            after_steps(division::field(*lattice), 2 * lattice.spec_width() + 1, built),
            2 * lattice.spec_width() + 1,
            2 * lattice.spec_height() + 1,
            (1, 1),
        ),
        is_open_lattice(*lattice, lattice.spec_width(), lattice.spec_height()) ==> forall|x: int, y: int|
            #[trigger] lattice.is_open(x, y) ==> open_in(
                after_steps(division::field(*lattice), 2 * lattice.spec_width() + 1, built),
                2 * lattice.spec_width() + 1,
                2 * lattice.spec_height() + 1,
                spanning::corridor_square((x as usize, y as usize)),
            ),
        is_open_lattice(*lattice, lattice.spec_width(), lattice.spec_height()) && lattice.spec_width()
            * lattice.spec_height() >= 1 ==> dungeon::walkable_count(
            after_steps(division::field(*lattice), 2 * lattice.spec_width() + 1, built),
        ) == 2 * (lattice.spec_width() * lattice.spec_height()) - 1,
    ensures
        lattice.carves(cleared + built, |c: Cell| carving_cell(c)),
        lattice.floors_every_corridor(cleared + built),
        spares_corridors(cleared + built),
        connects(lattice, cleared + built),
        spans_tree(lattice, cleared + built, 1),
{
    let all = cleared + built;
    crate::maze::grid::lemma_after_steps_append(
        all_walls((2 * lattice.spec_width() + 1) * (2 * lattice.spec_height() + 1)),
        2 * lattice.spec_width() + 1,
        cleared,
        built,
    );
    assert forall|x: int, y: int| #[trigger] lattice.is_open(x, y) implies exists|j: int|
        0 <= j < all.len() && #[trigger] all[j] == floor_step(x, y) by {
        let j = choose|j: int| 0 <= j < cleared.len() && #[trigger] cleared[j] == floor_step(x, y);
        assert(all[j] == cleared[j]);
    }
    assert forall|i: int| 0 <= i < all.len() implies lattice.owns_square((#[trigger] all[i]).x as int, all[i].y as int)
        && carving_cell(all[i].cell) && (all[i].cell == Cell::Wall ==> !(all[i].x % 2 == 1 && all[i].y % 2 == 1)) by {
        if i >= cleared.len() {
            assert(all[i] == built[i - cleared.len()]);
        } else {
            assert(all[i] == cleared[i]);
        }
    }
    lemma_division_connects(lattice, cleared, built);
}

/// Recursive division in two phases: the field is cleared in bulk, then
/// walls are built back one by one.
fn divide_into(lattice: &Lattice, rng: &mut StdRng, generation: &mut Generation) -> (carving: Ghost<Seq<Step>>)
    requires
        lattice.wf(),
        old(generation).phases_ok(),
    ensures
        final(generation).phases_ok(),
        final(generation).steps@ == old(generation).steps@ + carving@,
        lattice.carves(carving@, |c: Cell| carving_cell(c)),
        lattice.floors_every_corridor(carving@),
        spares_corridors(carving@),
        connects(lattice, carving@),
        spans_tree(lattice, carving@, 1),
{
    let ghost before = generation.steps@;
    generation.begin("Clearing the field", BULK_PACE);
    let field = division::open_field(lattice);
    let ghost cleared = field@;
    generation.extend(field);
    generation.begin("Dividing chambers", 1);
    let walls = division::carve(lattice, rng);
    let ghost built = walls@;
    generation.extend(walls);
    proof {
        assert(generation.steps@ =~= before + (cleared + built));
        lemma_division_parts(lattice, cleared, built);
    }
    Ghost(cleared + built)
}

/// The empty field walled in by recursive division hangs together.
proof fn lemma_division_connects(lattice: &Lattice, cleared: Seq<Step>, built: Seq<Step>)
    requires
        after_steps(
            all_walls((2 * lattice.spec_width() + 1) * (2 * lattice.spec_height() + 1)),
            2 * lattice.spec_width() + 1,
            cleared,
        ) == division::field(*lattice),
        is_open_lattice(*lattice, lattice.spec_width(), lattice.spec_height()) ==> all_joined(
            after_steps(division::field(*lattice), 2 * lattice.spec_width() + 1, built),
            2 * lattice.spec_width() + 1,
            2 * lattice.spec_height() + 1,
            (1, 1),
        ),
        is_open_lattice(*lattice, lattice.spec_width(), lattice.spec_height()) ==> forall|x: int, y: int|
            #[trigger] lattice.is_open(x, y) ==> open_in(
                after_steps(division::field(*lattice), 2 * lattice.spec_width() + 1, built),
                2 * lattice.spec_width() + 1,
                2 * lattice.spec_height() + 1,
                spanning::corridor_square((x as usize, y as usize)),
            ),
    ensures
        connects(lattice, cleared + built),
{
    let width = 2 * lattice.spec_width() + 1;
    let height = 2 * lattice.spec_height() + 1;
    crate::maze::grid::lemma_after_steps_append(all_walls(width * height), width, cleared, built);
    reveal(connects);
    if is_open_lattice(*lattice, lattice.spec_width(), lattice.spec_height()) {
        let cells = after_steps(all_walls(width * height), width, cleared + built);
        assert forall|p: (usize, usize), q: (usize, usize)|
            #[trigger] lattice.open_at(p) && #[trigger] lattice.open_at(q) && adjacent(p, q) implies open_in(
            cells,
            width,
            height,
            spanning::corridor_square(p),
        ) by {
            assert(lattice.is_open(p.0 as int, p.1 as int));
        }
    }
}

/// How much faster than the chosen speed bulk phases play.
pub const BULK_PACE: u32 = 6;

/// A named stretch of the generation, from step `start` to the next phase.
/// `pace` scales the playback speed while it plays.
#[derive(Clone, Copy, Debug)]
pub struct Phase {
    pub name: &'static str,
    pub start: usize,
    pub pace: u32,
}

/// The steps of one maze, split into named phases.
pub struct Generation {
    pub steps: Vec<Step>,
    pub phases: Vec<Phase>,
}

impl Generation {
    /// Phases start at the first step, in order, within the steps.
    pub open spec fn phases_ok(&self) -> bool {
        &&& self.phases@.len() > 0 ==> self.phases@[0].start == 0
        &&& forall|k: int| 0 <= k < self.phases@.len() ==> (#[trigger] self.phases@[k]).start <= self.steps@.len()
        &&& forall|k1: int, k2: int|
            0 <= k1 <= k2 < self.phases@.len() ==> (#[trigger] self.phases@[k1]).start <= (
            #[trigger] self.phases@[k2]).start
    }

    /// Starts a new phase at the next step.
    pub(crate) fn begin(&mut self, name: &'static str, pace: u32)
        requires
            old(self).phases_ok(),
        ensures
            final(self).phases_ok(),
            final(self).steps@ == old(self).steps@,
            final(self).phases@ == old(self).phases@.push(
                Phase {
                    name,
                    start: if old(self).phases@.len() == 0 {
                        0
                    } else {
                        old(self).steps@.len() as usize
                    },
                    pace,
                },
            ),
    {
        let start = if self.phases.len() == 0 { 0 } else { self.steps.len() };
        let ghost before = self.phases@;
        self.phases.push(Phase { name, start, pace });
        proof {
            assert forall|k1: int, k2: int|
                0 <= k1 <= k2 < self.phases@.len() implies (#[trigger] self.phases@[k1]).start <= (
                #[trigger] self.phases@[k2]).start by {
                if k2 < before.len() {
                    assert(self.phases@[k1] == before[k1]);
                    assert(self.phases@[k2] == before[k2]);
                } else if k1 < before.len() {
                    assert(self.phases@[k1] == before[k1]);
                }
            }
            assert forall|k: int| 0 <= k < self.phases@.len() implies (#[trigger] self.phases@[k]).start
                <= self.steps@.len() by {
                if k < before.len() {
                    assert(self.phases@[k] == before[k]);
                }
            }
        }
    }

    /// Appends steps to the current phase.
    pub(crate) fn extend(&mut self, steps: Vec<Step>)
        requires
            old(self).phases_ok(),
        ensures
            final(self).phases_ok(),
            final(self).steps@ == old(self).steps@ + steps@,
            final(self).phases@ == old(self).phases@,
    {
        let mut steps = steps;
        self.steps.append(&mut steps);
    }

    /// The phase step `index` belongs to: the last one starting at or
    /// before it. None past the last step.
    pub fn phase_at(&self, index: usize) -> (r: Option<&Phase>)
        requires
            self.phases_ok(),
        ensures
            r is None <==> index >= self.steps@.len() || self.phases@.len() == 0,
            r matches Some(p) ==> exists|k: int|
                {
                    &&& 0 <= k < self.phases@.len()
                    &&& #[trigger] self.phases@[k] == *p
                    &&& self.phases@[k].start <= index
                    &&& forall|k2: int| k < k2 < self.phases@.len() ==> index < (#[trigger] self.phases@[k2]).start
                },
    {
        if index >= self.steps.len() || self.phases.len() == 0 {
            return None;
        }
        let mut found: usize = 0;
        let mut k: usize = 1;
        while k < self.phases.len()
            invariant
                self.phases_ok(),
                1 <= k <= self.phases@.len(),
                found < k,
                self.phases@[found as int].start <= index,
                forall|k2: int| found < k2 < k ==> index < (#[trigger] self.phases@[k2]).start,
            decreases self.phases@.len() - k,
        {
            if self.phases[k].start <= index {
                found = k;
            }
            k = k + 1;
        }
        Some(&self.phases[found])
    }
}

/// All walls: the cells of a fresh grid of n squares.
pub open spec fn all_walls(n: int) -> Seq<Cell> {
    Seq::new(n as nat, |i: int| Cell::Wall)
}

/// The grid as it looks once every step has been applied.
pub fn grid_after(corridors_x: usize, corridors_y: usize, steps: &[Step]) -> (grid: Grid)
    requires
        fits(corridors_x as int, corridors_y as int),
        steps_inside(steps@, 2 * corridors_x + 1, 2 * corridors_y + 1),
    ensures
        grid.wf(),
        grid.has_layout(
            2 * corridors_x + 1,
            2 * corridors_y + 1,
            after_steps(
                all_walls((2 * corridors_x + 1) * (2 * corridors_y + 1)),
                2 * corridors_x + 1,
                steps@,
            ),
        ),
{
    let mut grid = Grid::new(corridors_x, corridors_y);
    let ghost walls = grid@;
    proof {
        assert(walls =~= all_walls((2 * corridors_x + 1) * (2 * corridors_y + 1)));
    }
    let mut i: usize = 0;
    while i < steps.len()
        invariant
            grid.wf(),
            grid.spec_width() == 2 * corridors_x + 1,
            grid.spec_height() == 2 * corridors_y + 1,
            walls == all_walls((2 * corridors_x + 1) * (2 * corridors_y + 1)),
            steps_inside(steps@, 2 * corridors_x + 1, 2 * corridors_y + 1),
            i <= steps@.len(),
            grid@ == after_steps(walls, 2 * corridors_x + 1, steps@.take(i as int)),
        decreases steps@.len() - i,
    {
        let step = steps[i];
        proof {
            assert(steps@[i as int].x < 2 * corridors_x + 1);
            assert(steps@.take(i + 1).drop_last() =~= steps@.take(i as int));
        }
        grid.apply(step);
        i = i + 1;
    }
    proof {
        assert(steps@.take(steps@.len() as int) =~= steps@);
    }
    grid
}

/// Prepends Start at `start` and End at the farthest walkable square, so
/// both are visible during the whole animation. The carving is replayed
/// once, silently, to know the final layout.
pub fn with_start_and_end(
    carving: Vec<Step>,
    corridors_x: usize,
    corridors_y: usize,
    start: (usize, usize),
) -> (steps: Vec<Step>)
    requires
        fits(corridors_x as int, corridors_y as int),
        steps_inside(carving@, 2 * corridors_x + 1, 2 * corridors_y + 1),
        start.0 < 2 * corridors_x + 1,
        start.1 < 2 * corridors_y + 1,
    ensures
        steps@.len() == carving@.len() + 2,
        steps@[0] == (Step { x: start.0, y: start.1, cell: Cell::Start }),
        steps@[1].cell == Cell::End,
        steps@.subrange(2, steps@.len() as int) == carving@,
        steps_inside(steps@, 2 * corridors_x + 1, 2 * corridors_y + 1),
        forall|g: Grid|
            #![trigger g.has_layout(
                2 * corridors_x + 1,
                2 * corridors_y + 1,
                after_steps(all_walls((2 * corridors_x + 1) * (2 * corridors_y + 1)), 2 * corridors_x + 1, carving@),
            )]
            g.has_layout(
                2 * corridors_x + 1,
                2 * corridors_y + 1,
                after_steps(all_walls((2 * corridors_x + 1) * (2 * corridors_y + 1)), 2 * corridors_x + 1, carving@),
            ) ==> g.is_farthest(start, (steps@[1].x, steps@[1].y)),
{
    let finished = grid_after(corridors_x, corridors_y, carving.as_slice());
    let (end_x, end_y) = finished.farthest_walkable_from(start.0, start.1);

    let mut steps: Vec<Step> = Vec::new();
    steps.push(Step { x: start.0, y: start.1, cell: Cell::Start });
    steps.push(Step { x: end_x, y: end_y, cell: Cell::End });
    let mut carving = carving;
    let ghost carved = carving@;
    steps.append(&mut carving);
    proof {
        assert(steps@.subrange(2, steps@.len() as int) =~= carved);
        assert forall|i: int| 0 <= i < steps@.len() implies (#[trigger] steps@[i]).x < 2 * corridors_x + 1
            && steps@[i].y < 2 * corridors_y + 1 by {
            if i >= 2 {
                assert(steps@[i] == carved[i - 2]);
            }
        }
        assert forall|g: Grid|
            g.has_layout(
                2 * corridors_x + 1,
                2 * corridors_y + 1,
                after_steps(all_walls((2 * corridors_x + 1) * (2 * corridors_y + 1)), 2 * corridors_x + 1, carved),
            ) implies g.is_farthest(start, (end_x, end_y)) by {
            lemma_same_layout(g, finished, start, (end_x, end_y));
        }
    }
    steps
}

/// The generation with Start and End in front, as `with_start_and_end`
/// puts them; the first phase takes them in and the others move back by
/// two steps.
pub fn finish(generation: Generation, corridors_x: usize, corridors_y: usize, start: (usize, usize)) -> (done:
    Generation)
    requires
        generation.phases_ok(),
        fits(corridors_x as int, corridors_y as int),
        steps_inside(generation.steps@, 2 * corridors_x + 1, 2 * corridors_y + 1),
        start.0 < 2 * corridors_x + 1,
        start.1 < 2 * corridors_y + 1,
    ensures
        done.phases_ok(),
        done.steps@.len() == generation.steps@.len() + 2,
        done.steps@[0] == (Step { x: start.0, y: start.1, cell: Cell::Start }),
        done.steps@[1].cell == Cell::End,
        done.steps@.subrange(2, done.steps@.len() as int) == generation.steps@,
        steps_inside(done.steps@, 2 * corridors_x + 1, 2 * corridors_y + 1),
        forall|g: Grid|
            #![trigger g.has_layout(
                2 * corridors_x + 1,
                2 * corridors_y + 1,
                after_steps(all_walls((2 * corridors_x + 1) * (2 * corridors_y + 1)), 2 * corridors_x + 1, generation.steps@),
            )]
            g.has_layout(
                2 * corridors_x + 1,
                2 * corridors_y + 1,
                after_steps(all_walls((2 * corridors_x + 1) * (2 * corridors_y + 1)), 2 * corridors_x + 1, generation.steps@),
            ) ==> g.is_farthest(start, (done.steps@[1].x, done.steps@[1].y)),
        done.phases@.len() == generation.phases@.len(),
        forall|k: int|
            0 <= k < done.phases@.len() ==> (#[trigger] done.phases@[k]).name == generation.phases@[k].name
                && done.phases@[k].pace == generation.phases@[k].pace && done.phases@[k].start == if k == 0 {
                0
            } else {
                generation.phases@[k].start + 2
            },
{
    let Generation { steps, phases } = generation;
    let ghost old_len = steps@.len();
    let steps = with_start_and_end(steps, corridors_x, corridors_y, start);
    let total = steps.len();
    let mut shifted: Vec<Phase> = Vec::new();
    let mut k: usize = 0;
    while k < phases.len()
        invariant
            k <= phases@.len(),
            steps@.len() == old_len + 2,
            total == steps@.len(),
            shifted@.len() == k,
            forall|j: int| 0 <= j < phases@.len() ==> (#[trigger] phases@[j]).start <= old_len,
            forall|j: int|
                0 <= j < k ==> (#[trigger] shifted@[j]).name == phases@[j].name && shifted@[j].pace == phases@[j].pace
                    && shifted@[j].start == if j == 0 {
                    0
                } else {
                    phases@[j].start + 2
                },
        decreases phases@.len() - k,
    {
        let phase = phases[k];
        let at = if k == 0 { 0 } else { phase.start + 2 };
        shifted.push(Phase { name: phase.name, start: at, pace: phase.pace });
        k = k + 1;
    }
    let done = Generation { steps, phases: shifted };
    proof {
        assert forall|k1: int, k2: int|
            0 <= k1 <= k2 < done.phases@.len() implies (#[trigger] done.phases@[k1]).start <= (
            #[trigger] done.phases@[k2]).start by {
            assert(phases@[k1].start <= phases@[k2].start);
        }
    }
    done
}

/// The lattice of `corridors_x` by `corridors_y` corridors with nothing
/// blocked.
pub open spec fn is_open_lattice(lattice: Lattice, corridors_x: int, corridors_y: int) -> bool {
    &&& lattice.wf()
    &&& lattice.spec_width() == corridors_x
    &&& lattice.spec_height() == corridors_y
    &&& forall|i: int| 0 <= i < corridors_x * corridors_y ==> !#[trigger] lattice.spec_blocked()[i]
}

/// On the open lattice of at least `fewest` corridors, the carving opens
/// exactly 2n - 1 squares for its n corridors: each corridor's own, and one
/// wall for every corridor but the first.
pub open spec fn spans_tree(lattice: &Lattice, carving: Seq<Step>, fewest: int) -> bool {
    let width = 2 * lattice.spec_width() + 1;
    let height = 2 * lattice.spec_height() + 1;
    is_open_lattice(*lattice, lattice.spec_width(), lattice.spec_height()) && lattice.spec_width()
        * lattice.spec_height() >= fewest ==> dungeon::walkable_count(after_steps(all_walls(width * height), width, carving))
        == 2 * (lattice.spec_width() * lattice.spec_height()) - 1
}

/// On the open lattice, every open square of the carved grid can be
/// reached from the first corridor's square, and every corridor with an
/// open neighbour shows an open square.
#[verifier::opaque]
pub open spec fn connects(lattice: &Lattice, carving: Seq<Step>) -> bool {
    let width = 2 * lattice.spec_width() + 1;
    let height = 2 * lattice.spec_height() + 1;
    let cells = after_steps(all_walls(width * height), width, carving);
    is_open_lattice(*lattice, lattice.spec_width(), lattice.spec_height()) ==> {
        &&& all_joined(cells, width, height, (1, 1))
        &&& forall|p: (usize, usize), q: (usize, usize)|
            #[trigger] lattice.open_at(p) && #[trigger] lattice.open_at(q) && adjacent(p, q) ==> open_in(
                cells,
                width,
                height,
                spanning::corridor_square(p),
            )
    }
}

/// When no step paints a wall, every corridor the carving floors shows an
/// open square once the carving is replayed.
proof fn lemma_linked_open(lattice: &Lattice, carving: Seq<Step>)
    requires
        lattice.wf(),
        lattice.carves(carving, |c: Cell| carving_cell(c)),
        forall|i: int| 0 <= i < carving.len() ==> (#[trigger] carving[i]).cell != Cell::Wall,
        lattice.floors_every_linked_corridor(carving),
    ensures
        forall|p: (usize, usize), q: (usize, usize)|
            #[trigger] lattice.open_at(p) && #[trigger] lattice.open_at(q) && adjacent(p, q) ==> open_in(
                after_steps(
                    all_walls((2 * lattice.spec_width() + 1) * (2 * lattice.spec_height() + 1)),
                    2 * lattice.spec_width() + 1,
                    carving,
                ),
                2 * lattice.spec_width() + 1,
                2 * lattice.spec_height() + 1,
                spanning::corridor_square(p),
            ),
{
    let width = 2 * lattice.spec_width() + 1;
    let height = 2 * lattice.spec_height() + 1;
    lattice.lemma_fits();
    assert(0 <= width * height) by (nonlinear_arith)
        requires
            0 <= width,
            0 <= height,
    ;
    assert forall|i: int| 0 <= i < carving.len() implies (#[trigger] carving[i]).x < width && carving[i].y < height by {
        lattice.lemma_owned_inside(carving[i].x as int, carving[i].y as int);
    }
    assert forall|p: (usize, usize), q: (usize, usize)|
        #[trigger] lattice.open_at(p) && #[trigger] lattice.open_at(q) && adjacent(p, q) implies open_in(
        after_steps(all_walls(width * height), width, carving),
        width,
        height,
        spanning::corridor_square(p),
    ) by {
        assert(carving.contains(floor_step(p.0 as int, p.1 as int)));
        let j = choose|j: int| 0 <= j < carving.len() && carving[j] == floor_step(p.0 as int, p.1 as int);
        crate::maze::walks::lemma_stepped_open(all_walls(width * height), width, height, carving, j);
    }
}

/// `carving` is what `algorithm` may carve on the open lattice.
#[verifier::opaque]
pub open spec fn carves_open(algorithm: Algorithm, corridors_x: int, corridors_y: int, carving: Seq<Step>) -> bool {
    exists|lattice: Lattice|
        #[trigger] is_open_lattice(lattice, corridors_x, corridors_y) && algorithm.carving_ok(&lattice, carving)
}

/// `extra` braids the maze that `carving` leaves: each of its steps knocks
/// an inner wall through; none at all when `braiding` is zero; and at a
/// thousand or more no corridor square with an open side is left a dead end
/// that another wall could fix.
pub open spec fn braids(corridors_x: int, corridors_y: int, braiding: u32, carving: Seq<Step>, extra: Seq<Step>) -> bool {
    let width = 2 * corridors_x + 1;
    let height = 2 * corridors_y + 1;
    let cells = after_steps(all_walls(width * height), width, carving);
    &&& forall|j: int| 0 <= j < extra.len() ==> #[trigger] knocks_through(cells, width, height, extra, j)
    &&& braiding == 0 ==> extra.len() == 0
    &&& braiding >= 1000 ==> forall|x: int, y: int|
        #[trigger] no_dead_end(cells, after_steps(cells, width, extra), width, height, x, y)
}

/// The first `n` steps are a carving of the open lattice, and the rest
/// braid it.
pub open spec fn braided_carving(
    algorithm: Algorithm,
    corridors_x: int,
    corridors_y: int,
    braiding: u32,
    steps: Seq<Step>,
    n: int,
) -> bool {
    &&& 0 <= n <= steps.len()
    &&& carves_open(algorithm, corridors_x, corridors_y, steps.take(n))
    &&& braids(corridors_x, corridors_y, braiding, steps.take(n), steps.skip(n))
}

/// The steps after Start and End.
pub open spec fn body(generation: &Generation) -> Seq<Step> {
    generation.steps@.subrange(2, generation.steps@.len() as int)
}

/// A replayable generation on a grid of `corridors_x` by `corridors_y`
/// corridors: phases in order, every step inside the grid, Start first and
/// End second, no later step painting either, and End at a square farthest
/// from Start once the rest has been replayed.
pub open spec fn well_framed(generation: &Generation, corridors_x: int, corridors_y: int) -> bool {
    let width = 2 * corridors_x + 1;
    let height = 2 * corridors_y + 1;
    &&& generation.phases_ok()
    &&& generation.steps@.len() >= 2
    &&& steps_inside(generation.steps@, width, height)
    &&& generation.steps@[0].cell == Cell::Start
    &&& generation.steps@[1].cell == Cell::End
    &&& steps_unmarked(body(generation))
    &&& forall|g: Grid|
        g.has_layout(width, height, after_steps(all_walls(width * height), width, body(generation)))
            ==> g.is_farthest(
            (generation.steps@[0].x, generation.steps@[0].y),
            (generation.steps@[1].x, generation.steps@[1].y),
        )
}

/// Start is on the grid from the first step of a replay to the last, and
/// End from the second, unless the farthest square is Start's own: no
/// later step paints over either.
pub proof fn lemma_marks_stay(generation: &Generation, corridors_x: int, corridors_y: int, k: int)
    requires
        well_framed(generation, corridors_x, corridors_y),
        0 <= corridors_x,
        0 <= corridors_y,
        1 <= k <= generation.steps@.len(),
    ensures
        ({
            let width = 2 * corridors_x + 1;
            let height = 2 * corridors_y + 1;
            let cells = after_steps(all_walls(width * height), width, generation.steps@.take(k));
            let start = generation.steps@[0];
            let end = generation.steps@[1];
            &&& cells[square_index(width, start.x as int, start.y as int)] == Cell::Start
            &&& k >= 2 && (end.x != start.x || end.y != start.y) ==> cells[square_index(
                width,
                end.x as int,
                end.y as int,
            )] == Cell::End
        }),
{
    let width = 2 * corridors_x + 1;
    let height = 2 * corridors_y + 1;
    let steps = generation.steps@;
    let walls = all_walls(width * height);
    let start = steps[0];
    let end = steps[1];
    assert(0 <= width * height) by (nonlinear_arith)
        requires
            0 <= width,
            0 <= height,
    ;
    assert(start.x < width && start.y < height);
    assert(end.x < width && end.y < height);
    crate::maze::grid::lemma_square_index(width, height, start.x as int, start.y as int);
    crate::maze::grid::lemma_square_index(width, height, end.x as int, end.y as int);
    let si = square_index(width, start.x as int, start.y as int);
    let ei = square_index(width, end.x as int, end.y as int);
    let first = steps.take(1);
    assert(first.drop_last() =~= Seq::<Step>::empty());
    let marked = after_steps(walls, width, first);
    assert(after_steps(walls, width, first.drop_last()) == walls);
    assert(first.last() == start);
    assert(walls[si] == Cell::Wall);
    assert(marked == walls.update(si, Cell::Start));
    let rest = steps.take(k).skip(1);
    assert(steps.take(k) =~= first + rest);
    assert(steps_inside(rest, width, height)) by {
        assert forall|i: int| 0 <= i < rest.len() implies (#[trigger] rest[i]).x < width && rest[i].y < height by {
            assert(rest[i] == steps[i + 1]);
        }
    }
    crate::maze::grid::lemma_after_steps_append(walls, width, first, rest);
    crate::maze::grid::lemma_after_steps_keeps_marks(marked, width, height, rest, si);
    if k >= 2 && (end.x != start.x || end.y != start.y) {
        let two = steps.take(2);
        assert(two.drop_last() =~= first);
        assert(ei != si) by {
            if ei == si {
                crate::maze::grid::lemma_square_index_injective(
                    width,
                    end.x as int,
                    end.y as int,
                    start.x as int,
                    start.y as int,
                );
            }
        }
        let both = after_steps(walls, width, two);
        assert(two.last() == end);
        assert(marked[ei] == Cell::Wall);
        assert(both == marked.update(ei, Cell::End));
        let later = steps.take(k).skip(2);
        assert(steps.take(k) =~= two + later);
        assert(steps_inside(later, width, height)) by {
            assert forall|i: int| 0 <= i < later.len() implies (#[trigger] later[i]).x < width && later[i].y
                < height by {
                assert(later[i] == steps[i + 2]);
            }
        }
        crate::maze::grid::lemma_after_steps_append(walls, width, two, later);
        crate::maze::grid::lemma_after_steps_keeps_marks(both, width, height, later, ei);
    }
}

/// Replaying steps that paint neither Start nor End on a grid where only
/// squares `si` and `ei` are marked, as Start and End, gives the same cells
/// as on the unmarked grid everywhere but those two squares, which keep
/// their marks.
proof fn lemma_marks_only_differ(
    walls: Seq<Cell>,
    marked: Seq<Cell>,
    width: int,
    height: int,
    steps: Seq<Step>,
    si: int,
    ei: int,
)
    requires
        walls.len() == width * height,
        0 <= width,
        0 <= height,
        0 <= si < walls.len(),
        0 <= ei < walls.len(),
        si != ei,
        crate::maze::grid::unmarked(walls),
        marked == walls.update(si, Cell::Start).update(ei, Cell::End),
        steps_inside(steps, width, height),
        steps_unmarked(steps),
    ensures
        after_steps(marked, width, steps).len() == walls.len(),
        after_steps(marked, width, steps)[si] == Cell::Start,
        after_steps(marked, width, steps)[ei] == Cell::End,
        forall|i: int|
            0 <= i < walls.len() && i != si && i != ei ==> #[trigger] after_steps(marked, width, steps)[i]
                == after_steps(walls, width, steps)[i],
    decreases steps.len(),
{
    crate::maze::grid::lemma_after_steps_len(marked, width, height, steps);
    crate::maze::grid::lemma_after_steps_len(walls, width, height, steps);
    crate::maze::grid::lemma_after_steps_keeps_marks(marked, width, height, steps, si);
    crate::maze::grid::lemma_after_steps_keeps_marks(marked, width, height, steps, ei);
    if steps.len() > 0 {
        let rest = steps.drop_last();
        assert(steps_inside(rest, width, height)) by {
            assert forall|k: int| 0 <= k < rest.len() implies (#[trigger] rest[k]).x < width && rest[k].y < height by {
                assert(rest[k] == steps[k]);
            }
        }
        assert(steps_unmarked(rest)) by {
            assert forall|k: int| 0 <= k < rest.len() implies (#[trigger] rest[k]).cell != Cell::Start && rest[k].cell
                != Cell::End by {
                assert(rest[k] == steps[k]);
            }
        }
        lemma_marks_only_differ(walls, marked, width, height, rest, si, ei);
        crate::maze::grid::lemma_after_steps_unmarked(walls, width, height, rest);
        let last = steps.last();
        assert(last == steps[steps.len() - 1]);
        crate::maze::grid::lemma_square_index(width, height, last.x as int, last.y as int);
        let j = square_index(width, last.x as int, last.y as int);
        let y = after_steps(marked, width, rest);
        let z = after_steps(walls, width, rest);
        assert forall|i: int| 0 <= i < walls.len() && i != si && i != ei implies #[trigger] after_steps(
            marked,
            width,
            steps,
        )[i] == after_steps(walls, width, steps)[i] by {
            assert(y[i] == z[i]);
            if j != si && j != ei {
                assert(y[j] == z[j]);
                assert(z[j] != Cell::Start && z[j] != Cell::End);
            }
        }
    }
}

/// Replaying a whole generation gives the cells of replaying its body,
/// but for Start's and End's squares, which hold Start and End.
proof fn lemma_full_replay(generation: &Generation, corridors_x: int, corridors_y: int)
    requires
        well_framed(generation, corridors_x, corridors_y),
        fits(corridors_x, corridors_y),
        (generation.steps@[1].x, generation.steps@[1].y) != (generation.steps@[0].x, generation.steps@[0].y),
    ensures
        ({
            let width = 2 * corridors_x + 1;
            let height = 2 * corridors_y + 1;
            let walls = all_walls(width * height);
            let full = after_steps(walls, width, generation.steps@);
            let plain = after_steps(walls, width, body(generation));
            let si = square_index(width, generation.steps@[0].x as int, generation.steps@[0].y as int);
            let ei = square_index(width, generation.steps@[1].x as int, generation.steps@[1].y as int);
            &&& 0 <= si < width * height
            &&& 0 <= ei < width * height
            &&& si != ei
            &&& full.len() == width * height
            &&& plain.len() == width * height
            &&& full[si] == Cell::Start
            &&& full[ei] == Cell::End
            &&& crate::maze::grid::unmarked(plain)
            &&& forall|i: int| 0 <= i < width * height && i != si && i != ei ==> #[trigger] full[i] == plain[i]
        }),
{
    let width = 2 * corridors_x + 1;
    let height = 2 * corridors_y + 1;
    let steps = generation.steps@;
    let walls = all_walls(width * height);
    let start = (steps[0].x, steps[0].y);
    let end = (steps[1].x, steps[1].y);
    assert(0 <= width * height) by (nonlinear_arith)
        requires
            0 <= width,
            0 <= height,
    ;
    assert(steps[0].x < width && steps[0].y < height);
    assert(steps[1].x < width && steps[1].y < height);
    crate::maze::grid::lemma_square_index(width, height, start.0 as int, start.1 as int);
    crate::maze::grid::lemma_square_index(width, height, end.0 as int, end.1 as int);
    let si = square_index(width, start.0 as int, start.1 as int);
    let ei = square_index(width, end.0 as int, end.1 as int);
    assert(si != ei) by {
        if si == ei {
            crate::maze::grid::lemma_square_index_injective(
                width,
                end.0 as int,
                end.1 as int,
                start.0 as int,
                start.1 as int,
            );
        }
    }
    let two = steps.take(2);
    let one = steps.take(1);
    assert(one.drop_last() =~= Seq::<Step>::empty());
    assert(two.drop_last() =~= one);
    assert(after_steps(walls, width, one.drop_last()) == walls);
    assert(one.last() == steps[0] && two.last() == steps[1]);
    assert(walls[si] == Cell::Wall);
    let after_one = after_steps(walls, width, one);
    assert(after_one == walls.update(si, Cell::Start));
    assert(after_one[ei] == Cell::Wall);
    let marked = after_steps(walls, width, two);
    assert(marked == walls.update(si, Cell::Start).update(ei, Cell::End));
    let rest = body(generation);
    assert(steps =~= two + rest);
    crate::maze::grid::lemma_after_steps_append(walls, width, two, rest);
    assert(steps_inside(rest, width, height)) by {
        assert forall|k: int| 0 <= k < rest.len() implies (#[trigger] rest[k]).x < width && rest[k].y < height by {
            assert(rest[k] == steps[k + 2]);
        }
    }
    assert(crate::maze::grid::unmarked(walls));
    lemma_marks_only_differ(walls, marked, width, height, rest, si, ei);
    crate::maze::grid::lemma_after_steps_unmarked(walls, width, height, rest);
}

/// A perfect maze hangs together: every square of it that is not a wall
/// can be reached from the square of corridor (0, 0), for the algorithms
/// whose carvings are shown to hang together. `carved` is any grid showing
/// the steps after Start and End.
pub proof fn lemma_perfect_connected(
    generation: &Generation,
    algorithm: Algorithm,
    corridors_x: int,
    corridors_y: int,
    carved: &Grid,
    p: (usize, usize),
)
    requires
        carves_open(algorithm, corridors_x, corridors_y, body(generation)),
        algorithm.proved_connected(),
        carved.wf(),
        carved.has_layout(
            2 * corridors_x + 1,
            2 * corridors_y + 1,
            after_steps(all_walls((2 * corridors_x + 1) * (2 * corridors_y + 1)), 2 * corridors_x + 1, body(generation)),
        ),
        carved.open_at(p),
    ensures
        carved.reachable((1, 1), p),
{
    let width = 2 * corridors_x + 1;
    let height = 2 * corridors_y + 1;
    reveal(carves_open);
    let lattice = choose|lattice: Lattice|
        #[trigger] is_open_lattice(lattice, corridors_x, corridors_y) && algorithm.carving_ok(&lattice, body(generation));
    assert(connects(&lattice, body(generation)));
    reveal(connects);
    assert(crate::maze::walks::open_in(carved@, width, height, p));
    crate::maze::walks::lemma_reachable_joins(carved, (1, 1), p);
}

/// Knocking inner walls through keeps a carving connected: on the open
/// lattice, when every open square hangs from square (1, 1) and every
/// corridor shows an open square, so does the grid after the first `k`
/// braiding steps.
proof fn lemma_braid_joined(lattice: Lattice, cells: Seq<Cell>, extra: Seq<Step>, k: int)
    requires
        is_open_lattice(lattice, lattice.spec_width(), lattice.spec_height()),
        cells.len() == (2 * lattice.spec_width() + 1) * (2 * lattice.spec_height() + 1),
        all_joined(cells, 2 * lattice.spec_width() + 1, 2 * lattice.spec_height() + 1, (1, 1)),
        forall|p: (usize, usize), q: (usize, usize)|
            #[trigger] lattice.open_at(p) && #[trigger] lattice.open_at(q) && adjacent(p, q) ==> open_in(
                cells,
                2 * lattice.spec_width() + 1,
                2 * lattice.spec_height() + 1,
                spanning::corridor_square(p),
            ),
        forall|j: int|
            0 <= j < extra.len() ==> #[trigger] knocks_through(
                cells,
                2 * lattice.spec_width() + 1,
                2 * lattice.spec_height() + 1,
                extra,
                j,
            ),
        0 <= k <= extra.len(),
    ensures
        all_joined(
            after_steps(cells, 2 * lattice.spec_width() + 1, extra.take(k)),
            2 * lattice.spec_width() + 1,
            2 * lattice.spec_height() + 1,
            (1, 1),
        ),
        crate::maze::walks::opens_more(cells, after_steps(cells, 2 * lattice.spec_width() + 1, extra.take(k))),
    decreases k,
{
    let w = 2 * lattice.spec_width() + 1;
    let h = 2 * lattice.spec_height() + 1;
    let lw = lattice.spec_width();
    let lh = lattice.spec_height();
    if k == 0 {
        assert(extra.take(0) =~= Seq::<Step>::empty());
    } else {
        lemma_braid_joined(lattice, cells, extra, k - 1);
        let cur = after_steps(cells, w, extra.take(k - 1));
        let step = extra[k - 1];
        assert(extra.take(k).drop_last() =~= extra.take(k - 1));
        assert(extra.take(k).last() == step);
        let next = after_step(cur, w, step);
        assert(next == after_steps(cells, w, extra.take(k)));
        assert(knocks_through(cells, w, h, extra, k - 1));
        let x = step.x as int;
        let y = step.y as int;
        let (anchor, p, q) = if x % 2 == 0 {
            (((x - 1) as usize, y as usize), (((x - 2) / 2) as usize, ((y - 1) / 2) as usize), ((x / 2) as usize, ((y
                - 1) / 2) as usize))
        } else {
            ((x as usize, (y - 1) as usize), (((x - 1) / 2) as usize, ((y - 2) / 2) as usize), (((x - 1) / 2) as usize, (
            y / 2) as usize))
        };
        lemma_square_index(lw, lh, p.0 as int, p.1 as int);
        lemma_square_index(lw, lh, q.0 as int, q.1 as int);
        assert(lattice.open_at(p) && lattice.open_at(q) && adjacent(p, q));
        assert(spanning::corridor_square(p) == anchor);
        assert(open_in(cells, w, h, anchor));
        lemma_square_index(w, h, anchor.0 as int, anchor.1 as int);
        assert(open_in(cur, w, h, anchor));
        crate::maze::walks::lemma_opened_only(cur, w, h, step);
        crate::maze::walks::lemma_joined_extend(cur, next, w, h, (1, 1), (step.x, step.y), anchor);
    }
}

/// The open lattice a braided carving was carved on, with what its
/// carving leaves: every open square hanging from square (1, 1), and every
/// corridor with an open neighbour showing an open square.
proof fn lemma_braided_lattice(
    algorithm: Algorithm,
    corridors_x: int,
    corridors_y: int,
    braiding: u32,
    steps: Seq<Step>,
    n: int,
) -> (lattice: Lattice)
    requires
        braided_carving(algorithm, corridors_x, corridors_y, braiding, steps, n),
        algorithm.proved_connected(),
    ensures
        is_open_lattice(lattice, corridors_x, corridors_y),
        steps_inside(steps.take(n), 2 * corridors_x + 1, 2 * corridors_y + 1),
        all_joined(
            after_steps(all_walls((2 * corridors_x + 1) * (2 * corridors_y + 1)), 2 * corridors_x + 1, steps.take(n)),
            2 * corridors_x + 1,
            2 * corridors_y + 1,
            (1, 1),
        ),
        forall|p: (usize, usize), q: (usize, usize)|
            #[trigger] lattice.open_at(p) && #[trigger] lattice.open_at(q) && adjacent(p, q) ==> open_in(
                after_steps(all_walls((2 * corridors_x + 1) * (2 * corridors_y + 1)), 2 * corridors_x + 1, steps.take(n)),
                2 * corridors_x + 1,
                2 * corridors_y + 1,
                spanning::corridor_square(p),
            ),
{
    let carving = steps.take(n);
    reveal(carves_open);
    let lattice = choose|lattice: Lattice|
        #[trigger] is_open_lattice(lattice, corridors_x, corridors_y) && algorithm.carving_ok(&lattice, carving);
    reveal(connects);
    lemma_carving_inside(&lattice, algorithm, carving);
    lattice
}

/// Braiding keeps a maze connected: in an imperfect maze carved by an
/// algorithm whose carvings are shown to hang together, every square that
/// is not a wall can be reached from the square of corridor (0, 0).
/// `carved` is any grid showing the steps after Start and End.
pub proof fn lemma_imperfect_connected(
    generation: &Generation,
    algorithm: Algorithm,
    corridors_x: int,
    corridors_y: int,
    braiding: u32,
    carved: &Grid,
    p: (usize, usize),
)
    requires
        exists|n: int| #[trigger] braided_carving(algorithm, corridors_x, corridors_y, braiding, body(generation), n),
        algorithm.proved_connected(),
        carved.wf(),
        carved.has_layout(
            2 * corridors_x + 1,
            2 * corridors_y + 1,
            after_steps(all_walls((2 * corridors_x + 1) * (2 * corridors_y + 1)), 2 * corridors_x + 1, body(generation)),
        ),
        carved.open_at(p),
    ensures
        carved.reachable((1, 1), p),
{
    let width = 2 * corridors_x + 1;
    let height = 2 * corridors_y + 1;
    let steps = body(generation);
    let n = choose|n: int| #[trigger] braided_carving(algorithm, corridors_x, corridors_y, braiding, steps, n);
    let carving = steps.take(n);
    let extra = steps.skip(n);
    let lattice = lemma_braided_lattice(algorithm, corridors_x, corridors_y, braiding, steps, n);
    let walls = all_walls(width * height);
    let cells = after_steps(walls, width, carving);
    lattice.lemma_fits();
    assert(0 <= width * height) by (nonlinear_arith)
        requires
            0 <= width,
            0 <= height,
    ;
    crate::maze::grid::lemma_after_steps_len(walls, width, height, carving);
    assert(braids(corridors_x, corridors_y, braiding, carving, extra));
    lemma_braid_joined(lattice, cells, extra, extra.len() as int);
    assert(extra.take(extra.len() as int) =~= extra);
    assert(steps =~= carving + extra);
    crate::maze::grid::lemma_after_steps_append(walls, width, carving, extra);
    assert(open_in(carved@, width, height, p));
    crate::maze::walks::lemma_reachable_joins(carved, (1, 1), p);
}

/// A perfect maze is a spanning tree: besides hanging together, it opens
/// exactly one square per corridor and one wall for every corridor but the
/// first, 2n - 1 squares for n corridors, for the algorithms whose carvings
/// are counted (Kruskal's from two corridors on). `carved` is any grid
/// showing the steps after Start and End.
pub proof fn lemma_perfect_tree(
    generation: &Generation,
    algorithm: Algorithm,
    corridors_x: int,
    corridors_y: int,
    carved: &Grid,
)
    requires
        carves_open(algorithm, corridors_x, corridors_y, body(generation)),
        algorithm.proved_tree(),
        corridors_x >= 1,
        corridors_y >= 1,
        corridors_x * corridors_y >= algorithm.fewest_for_tree(),
        carved.has_layout(
            2 * corridors_x + 1,
            2 * corridors_y + 1,
            after_steps(all_walls((2 * corridors_x + 1) * (2 * corridors_y + 1)), 2 * corridors_x + 1, body(generation)),
        ),
    ensures
        dungeon::walkable_count(carved@) == 2 * (corridors_x * corridors_y) - 1,
{
    reveal(carves_open);
    let lattice = choose|lattice: Lattice|
        #[trigger] is_open_lattice(lattice, corridors_x, corridors_y) && algorithm.carving_ok(&lattice, body(generation));
    assert(corridors_x * corridors_y >= 1) by (nonlinear_arith)
        requires
            corridors_x >= 1,
            corridors_y >= 1,
    ;
    assert(spans_tree(&lattice, body(generation), algorithm.fewest_for_tree()));
}

/// A dungeon hangs together through its doors: every two of its squares
/// that are not walls reach each other, for the algorithms that floor every
/// corridor and wall none in. `carved` is any grid showing the steps after
/// Start and End.
pub proof fn lemma_dungeon_connected(
    generation: &Generation,
    corridors_x: int,
    corridors_y: int,
    carved: &Grid,
    p: (usize, usize),
    q: (usize, usize),
)
    requires
        connectivity::draws_joined(corridors_x, corridors_y, body(generation)),
        carved.wf(),
        carved.has_layout(
            2 * corridors_x + 1,
            2 * corridors_y + 1,
            after_steps(all_walls((2 * corridors_x + 1) * (2 * corridors_y + 1)), 2 * corridors_x + 1, body(generation)),
        ),
        carved.open_at(p),
        carved.open_at(q),
    ensures
        carved.reachable(p, q),
{
    connectivity::lemma_hangs_draws(carved, corridors_x, corridors_y, body(generation));
    assert(carved.reachable(p, q));
}

/// Every generated maze can be solved: once all its steps are replayed,
/// Start's square is the only Start, End's square the only End, and a route
/// leads from one to the other; unless End landed on Start's own square,
/// which happens only when nothing else can be reached from Start.
/// `carved` is any grid showing the steps after Start and End, `finished`
/// any grid showing all of them.
pub proof fn lemma_generated_solvable(
    generation: &Generation,
    corridors_x: int,
    corridors_y: int,
    carved: &Grid,
    finished: &Grid,
)
    requires
        well_framed(generation, corridors_x, corridors_y),
        fits(corridors_x, corridors_y),
        carved.wf(),
        finished.wf(),
        carved.has_layout(
            2 * corridors_x + 1,
            2 * corridors_y + 1,
            after_steps(all_walls((2 * corridors_x + 1) * (2 * corridors_y + 1)), 2 * corridors_x + 1, body(generation)),
        ),
        finished.has_layout(
            2 * corridors_x + 1,
            2 * corridors_y + 1,
            after_steps(
                all_walls((2 * corridors_x + 1) * (2 * corridors_y + 1)),
                2 * corridors_x + 1,
                generation.steps@,
            ),
        ),
        (generation.steps@[1].x, generation.steps@[1].y) != (generation.steps@[0].x, generation.steps@[0].y),
    ensures
        crate::maze::solve::first_square(finished, Cell::Start) == Some(
            (generation.steps@[0].x, generation.steps@[0].y),
        ),
        crate::maze::solve::first_square(finished, Cell::End) == Some(
            (generation.steps@[1].x, generation.steps@[1].y),
        ),
        finished.reachable(
            (generation.steps@[0].x, generation.steps@[0].y),
            (generation.steps@[1].x, generation.steps@[1].y),
        ),
{
    let width = 2 * corridors_x + 1;
    let height = 2 * corridors_y + 1;
    let steps = generation.steps@;
    let start = (steps[0].x, steps[0].y);
    let end = (steps[1].x, steps[1].y);
    lemma_full_replay(generation, corridors_x, corridors_y);
    let si = square_index(width, start.0 as int, start.1 as int);
    let ei = square_index(width, end.0 as int, end.1 as int);
    let full = finished@;
    let plain = carved@;
    assert(carved.reachable(start, end)) by {
        assert(carved.is_farthest(start, end));
        let moves = choose|moves: int|
            {
                &&& carved.distance_is(start, end, moves)
                &&& forall|p: (usize, usize)|
                    carved.inside(p) && carved.reachable(start, p) ==> #[trigger] carved.within(start, p, moves)
            };
        assert(carved.within(start, end, moves));
    }
    assert forall|p: (usize, usize)| carved.inside(p) && #[trigger] carved.open_at(p) implies finished.open_at(p) by {
        crate::maze::grid::lemma_square_index(width, height, p.0 as int, p.1 as int);
        let i = square_index(width, p.0 as int, p.1 as int);
        if i != si && i != ei {
            assert(full[i] == plain[i]);
        }
    }
    crate::maze::grid::lemma_reach_grows(carved, finished, start, end);
    assert(crate::maze::solve::is_first(finished, Cell::Start, start)) by {
        assert forall|x: int, y: int|
            finished.in_bounds(x, y) && square_index(width, x, y) < finished.idx(start) implies #[trigger] finished.cell(
            x,
            y,
        ) != Cell::Start by {
            crate::maze::grid::lemma_square_index(width, height, x, y);
            let i = square_index(width, x, y);
            if i != ei {
                assert(full[i] == plain[i]);
            }
        }
    }
    assert(crate::maze::solve::is_first(finished, Cell::End, end)) by {
        assert forall|x: int, y: int|
            finished.in_bounds(x, y) && square_index(width, x, y) < finished.idx(end) implies #[trigger] finished.cell(
            x,
            y,
        ) != Cell::End by {
            crate::maze::grid::lemma_square_index(width, height, x, y);
            let i = square_index(width, x, y);
            if i != si {
                assert(full[i] == plain[i]);
            }
        }
    }
    let s2 = choose|p: (usize, usize)| crate::maze::solve::is_first(finished, Cell::Start, p);
    crate::maze::solve::lemma_first_unique(finished, Cell::Start, start, s2);
    let e2 = choose|p: (usize, usize)| crate::maze::solve::is_first(finished, Cell::End, p);
    crate::maze::solve::lemma_first_unique(finished, Cell::End, end, e2);
}

/// The steps of one maze of the given kind, in named phases: Start and End
/// first, so both are visible during the whole replay, then the carving.
/// `braiding` is the share, in thousandths, of dead ends turned into loops
/// for imperfect mazes; the other kinds ignore it.
pub fn generate(
    kind: MazeKind,
    algorithm: Algorithm,
    corridors_x: usize,
    corridors_y: usize,
    braiding: u32,
    rng: &mut StdRng,
) -> (generation: Generation)
    requires
        fits(corridors_x as int, corridors_y as int),
        corridors_x >= 1,
        corridors_y >= 1,
        kind == MazeKind::Dungeon ==> corridors_x * corridors_y < 4 || (corridors_x >= 2 && corridors_y >= 2),
    ensures
        well_framed(&generation, corridors_x as int, corridors_y as int),
        kind != MazeKind::Dungeon ==> generation.steps@[0] == (Step { x: 1, y: 1, cell: Cell::Start }),
        kind == MazeKind::Perfect ==> carves_open(algorithm, corridors_x as int, corridors_y as int, body(&generation)),
        kind == MazeKind::Dungeon && algorithm.floors_fully() ==> connectivity::draws_joined(
            corridors_x as int,
            corridors_y as int,
            body(&generation),
        ),
        kind == MazeKind::Imperfect ==> exists|n: int|
            #[trigger] braided_carving(
                algorithm,
                corridors_x as int,
                corridors_y as int,
                braiding,
                body(&generation),
                n,
            ),
{
    match kind {
        MazeKind::Perfect => perfect(algorithm, corridors_x, corridors_y, rng),
        MazeKind::Imperfect => imperfect(algorithm, corridors_x, corridors_y, braiding, rng),
        MazeKind::Dungeon => dungeon::generate(algorithm, corridors_x, corridors_y, rng),
    }
}

/// The algorithm's carving of the open lattice, on its own.
fn perfect(algorithm: Algorithm, corridors_x: usize, corridors_y: usize, rng: &mut StdRng) -> (generation: Generation)
    requires
        fits(corridors_x as int, corridors_y as int),
        corridors_x >= 1,
        corridors_y >= 1,
    ensures
        well_framed(&generation, corridors_x as int, corridors_y as int),
        generation.steps@[0] == (Step { x: 1, y: 1, cell: Cell::Start }),
        carves_open(algorithm, corridors_x as int, corridors_y as int, body(&generation)),
{
    let mut generation = Generation { steps: Vec::new(), phases: Vec::new() };
    let carving = carve_open(algorithm, corridors_x, corridors_y, rng, &mut generation);
    proof {
        assert(generation.steps@ =~= carving@);
    }
    let ghost carved = generation.steps@;
    let done = finish(generation, corridors_x, corridors_y, (1, 1));
    proof {
        assert(body(&done) == carved);
    }
    done
}

/// The algorithm's carving of the open lattice, appended to `generation`.
fn carve_open(
    algorithm: Algorithm,
    corridors_x: usize,
    corridors_y: usize,
    rng: &mut StdRng,
    generation: &mut Generation,
) -> (carving: Ghost<Seq<Step>>)
    requires
        fits(corridors_x as int, corridors_y as int),
        old(generation).phases_ok(),
    ensures
        final(generation).phases_ok(),
        final(generation).steps@ == old(generation).steps@ + carving@,
        carves_open(algorithm, corridors_x as int, corridors_y as int, carving@),
        steps_inside(carving@, 2 * corridors_x + 1, 2 * corridors_y + 1),
        steps_unmarked(carving@),
{
    let lattice = Lattice::open(corridors_x, corridors_y);
    let carving = algorithm.carve_into(&lattice, rng, generation);
    proof {
        assert(is_open_lattice(lattice, corridors_x as int, corridors_y as int));
        lemma_carving_inside(&lattice, algorithm, carving@);
        reveal(carves_open);
    }
    carving
}

/// A carving stays on the drawn grid and paints neither Start nor End.
proof fn lemma_carving_inside(lattice: &Lattice, algorithm: Algorithm, carving: Seq<Step>)
    requires
        lattice.wf(),
        algorithm.carving_ok(lattice, carving),
    ensures
        steps_inside(carving, 2 * lattice.spec_width() + 1, 2 * lattice.spec_height() + 1),
        steps_unmarked(carving),
{
    assert forall|i: int| 0 <= i < carving.len() implies (#[trigger] carving[i]).x < 2 * lattice.spec_width() + 1
        && carving[i].y < 2 * lattice.spec_height() + 1 by {
        lattice.lemma_owned_inside(carving[i].x as int, carving[i].y as int);
    }
}

/// The algorithm's carving of the open lattice, then braiding.
fn imperfect(algorithm: Algorithm, corridors_x: usize, corridors_y: usize, braiding: u32, rng: &mut StdRng) -> (generation:
    Generation)
    requires
        fits(corridors_x as int, corridors_y as int),
        corridors_x >= 1,
        corridors_y >= 1,
    ensures
        well_framed(&generation, corridors_x as int, corridors_y as int),
        generation.steps@[0] == (Step { x: 1, y: 1, cell: Cell::Start }),
        exists|n: int|
            #[trigger] braided_carving(
                algorithm,
                corridors_x as int,
                corridors_y as int,
                braiding,
                body(&generation),
                n,
            ),
{
    let ghost width = 2 * corridors_x + 1;
    let ghost height = 2 * corridors_y + 1;
    let mut generation = Generation { steps: Vec::new(), phases: Vec::new() };
    let carving = carve_open(algorithm, corridors_x, corridors_y, rng, &mut generation);
    proof {
        assert(generation.steps@ =~= carving@);
    }
    let mut grid = grid_after(corridors_x, corridors_y, generation.steps.as_slice());
    generation.begin("Knocking through dead ends", 1);
    let extra = braid::braid(&mut grid, braiding, rng);
    let ghost added = extra@;
    generation.extend(extra);
    let ghost all = generation.steps@;
    proof {
        lemma_braided(algorithm, corridors_x, corridors_y, braiding, carving@, added);
        assert(all == carving@ + added);
    }
    let done = finish(generation, corridors_x, corridors_y, (1, 1));
    proof {
        assert(body(&done) == all);
    }
    done
}

/// A carving of the open lattice followed by what braiding it added is a
/// braided carving that stays on the grid and paints neither Start nor End.
proof fn lemma_braided(
    algorithm: Algorithm,
    corridors_x: usize,
    corridors_y: usize,
    braiding: u32,
    carving: Seq<Step>,
    added: Seq<Step>,
)
    requires
        carves_open(algorithm, corridors_x as int, corridors_y as int, carving),
        steps_inside(carving, 2 * corridors_x + 1, 2 * corridors_y + 1),
        steps_unmarked(carving),
        forall|i: int|
            0 <= i < added.len() ==> #[trigger] knocks_through(
                grid_after_spec(corridors_x, corridors_y, carving),
                2 * corridors_x + 1,
                2 * corridors_y + 1,
                added,
                i,
            ),
        braiding == 0 ==> added.len() == 0,
        braiding >= 1000 ==> forall|x: int, y: int|
            #[trigger] no_dead_end(
                grid_after_spec(corridors_x, corridors_y, carving),
                after_steps(grid_after_spec(corridors_x, corridors_y, carving), 2 * corridors_x + 1, added),
                2 * corridors_x + 1,
                2 * corridors_y + 1,
                x,
                y,
            ),
    ensures
        steps_inside(carving + added, 2 * corridors_x + 1, 2 * corridors_y + 1),
        steps_unmarked(carving + added),
        braided_carving(
            algorithm,
            corridors_x as int,
            corridors_y as int,
            braiding,
            carving + added,
            carving.len() as int,
        ),
{
    let all = carving + added;
    let n = carving.len() as int;
    lemma_braided_inside(corridors_x, corridors_y, carving, added);
    assert(all.take(n) =~= carving);
    assert(all.skip(n) =~= added);
    let cells = grid_after_spec(corridors_x, corridors_y, carving);
    let width = 2 * corridors_x + 1;
    let height = 2 * corridors_y + 1;
    assert(cells == after_steps(all_walls(width * height), width, carving));
    assert(forall|j: int| 0 <= j < added.len() ==> #[trigger] knocks_through(cells, width, height, added, j));
    assert(braiding >= 1000 ==> forall|x: int, y: int|
        #[trigger] no_dead_end(cells, after_steps(cells, width, added), width, height, x, y));
    assert(braids(corridors_x as int, corridors_y as int, braiding, carving, added));
}

/// Braiding steps knock inner walls through, so a carving followed by them
/// stays on the grid and paints neither Start nor End.
proof fn lemma_braided_inside(corridors_x: usize, corridors_y: usize, carving: Seq<Step>, added: Seq<Step>)
    requires
        steps_inside(carving, 2 * corridors_x + 1, 2 * corridors_y + 1),
        steps_unmarked(carving),
        forall|i: int|
            0 <= i < added.len() ==> #[trigger] knocks_through(
                grid_after_spec(corridors_x, corridors_y, carving),
                2 * corridors_x + 1,
                2 * corridors_y + 1,
                added,
                i,
            ),
    ensures
        steps_inside(carving + added, 2 * corridors_x + 1, 2 * corridors_y + 1),
        steps_unmarked(carving + added),
{
    let width = 2 * corridors_x + 1;
    let height = 2 * corridors_y + 1;
    let all = carving + added;
    let n = carving.len() as int;
    assert forall|i: int| 0 <= i < all.len() implies (#[trigger] all[i]).x < width && all[i].y < height
        && all[i].cell != Cell::Start && all[i].cell != Cell::End by {
        if i >= n {
            assert(all[i] == added[i - n]);
            assert(knocks_through(grid_after_spec(corridors_x, corridors_y, carving), width, height, added, i - n));
        } else {
            assert(all[i] == carving[i]);
        }
    }
}

/// The cells of a fresh grid once the steps have been applied.
pub open spec fn grid_after_spec(corridors_x: usize, corridors_y: usize, steps: Seq<Step>) -> Seq<Cell> {
    after_steps(all_walls((2 * corridors_x + 1) * (2 * corridors_y + 1)), 2 * corridors_x + 1, steps)
}

/// Grids with the same size and cells agree on what is farthest.
proof fn lemma_same_layout(g: Grid, h: Grid, start: (usize, usize), r: (usize, usize))
    requires
        g.spec_width() == h.spec_width(),
        g.spec_height() == h.spec_height(),
        g@ == h@,
        h.is_farthest(start, r),
    ensures
        g.is_farthest(start, r),
{
    assert forall|path: Seq<(usize, usize)>| g.is_route(path) == h.is_route(path) by {
    }
    let moves = choose|moves: int|
        {
            &&& h.distance_is(start, r, moves)
            &&& forall|p: (usize, usize)|
                h.inside(p) && h.reachable(start, p) ==> #[trigger] h.within(start, p, moves)
        };
    assert forall|p: (usize, usize), m: int| g.within(start, p, m) == h.within(start, p, m) by {
        if g.within(start, p, m) {
            let path = choose|path: Seq<(usize, usize)>|
                g.is_route(path) && path[0] == start && path.last() == p && path.len() <= m + 1;
            assert(h.is_route(path));
        }
        if h.within(start, p, m) {
            let path = choose|path: Seq<(usize, usize)>|
                h.is_route(path) && path[0] == start && path.last() == p && path.len() <= m + 1;
            assert(g.is_route(path));
        }
    }
    assert forall|p: (usize, usize)| g.reachable(start, p) == h.reachable(start, p) by {
        if g.reachable(start, p) {
            let path = choose|path: Seq<(usize, usize)>| g.is_route(path) && path[0] == start && path.last() == p;
            assert(h.is_route(path));
        }
        if h.reachable(start, p) {
            let path = choose|path: Seq<(usize, usize)>| h.is_route(path) && path[0] == start && path.last() == p;
            assert(g.is_route(path));
        }
    }
    assert(g.distance_is(start, r, moves));
}

/// How many marks are set.
pub open spec fn count_true(marks: Seq<bool>) -> nat
    decreases marks.len(),
{
    if marks.len() == 0 {
        0
    } else {
        count_true(marks.drop_last()) + if marks.last() { 1nat } else { 0nat }
    }
}

pub proof fn lemma_count_bound(marks: Seq<bool>)
    ensures
        count_true(marks) <= marks.len(),
    decreases marks.len(),
{
    if marks.len() > 0 {
        lemma_count_bound(marks.drop_last());
    }
}

/// Setting one unset mark adds one to the count.
pub proof fn lemma_count_set(marks: Seq<bool>, i: int)
    requires
        0 <= i < marks.len(),
        !marks[i],
    ensures
        count_true(marks.update(i, true)) == count_true(marks) + 1,
    decreases marks.len(),
{
    let after = marks.update(i, true);
    if i == marks.len() - 1 {
        assert(after.drop_last() =~= marks.drop_last());
    } else {
        assert(after.drop_last() =~= marks.drop_last().update(i, true));
        lemma_count_set(marks.drop_last(), i);
    }
}

impl Lattice {
    /// The corridors whose mark is set.
    pub open spec fn marked(&self, marks: Seq<bool>) -> Set<(usize, usize)> {
        Set::new(|p: (usize, usize)| self.holds(p) && marks[self.flat(p)])
    }

    /// Setting the mark of one corridor adds exactly that corridor.
    pub proof fn lemma_marked_set(&self, marks: Seq<bool>, q: (usize, usize))
        requires
            self.wf(),
            marks.len() == self.spec_width() * self.spec_height(),
            self.holds(q),
        ensures
            self.marked(marks.update(self.flat(q), true)) == self.marked(marks).insert(q),
    {
        let w = self.spec_width();
        let h = self.spec_height();
        crate::maze::grid::lemma_square_index(w, h, q.0 as int, q.1 as int);
        assert forall|p: (usize, usize)| #[trigger] self.marked(marks.update(self.flat(q), true)).contains(p)
            <==> self.marked(marks).insert(q).contains(p) by {
            if self.holds(p) {
                crate::maze::grid::lemma_square_index(w, h, p.0 as int, p.1 as int);
                if self.flat(p) == self.flat(q) {
                    crate::maze::grid::lemma_square_index_injective(w, p.0 as int, p.1 as int, q.0 as int, q.1 as int);
                }
            }
        }
        assert(self.marked(marks.update(self.flat(q), true)) =~= self.marked(marks).insert(q));
    }
}

/// Corridor `p` is in one of `pockets`.
pub open spec fn in_pockets(pockets: Seq<Vec<(usize, usize)>>, p: (usize, usize)) -> bool {
    exists|k: int, j: int| 0 <= k < pockets.len() && 0 <= j < pockets[k]@.len() && #[trigger] pockets[k]@[j] == p
}

/// Corridor `j` of `pocket` lies next to an earlier one.
pub open spec fn reached_before(pocket: Seq<(usize, usize)>, j: int) -> bool {
    exists|i: int| 0 <= i < j && #[trigger] adjacent(pocket[i], pocket[j])
}

/// Corridor `q` lies next to one of `pocket`.
pub open spec fn next_to(pocket: Seq<(usize, usize)>, q: (usize, usize)) -> bool {
    exists|m: int| 0 <= m < pocket.len() && #[trigger] adjacent(pocket[m], q)
}

/// Every corridor of `pocket` after the first lies next to an earlier one.
pub open spec fn grown_from_first(pocket: Seq<(usize, usize)>) -> bool {
    forall|j: int| 1 <= j < pocket.len() ==> #[trigger] reached_before(pocket, j)
}

/// Adding a corridor next to one already in the pocket keeps it grown from
/// its first corridor.
proof fn lemma_grown_push(pocket: Seq<(usize, usize)>, c: (usize, usize))
    requires
        grown_from_first(pocket),
        pocket.len() > 0 ==> next_to(pocket, c),
    ensures
        grown_from_first(pocket.push(c)),
{
    let after = pocket.push(c);
    assert forall|j: int| 1 <= j < after.len() implies #[trigger] reached_before(after, j) by {
        if j < pocket.len() {
            assert(reached_before(pocket, j));
            let i = choose|i: int| 0 <= i < j && #[trigger] adjacent(pocket[i], pocket[j]);
            assert(after[i] == pocket[i] && after[j] == pocket[j]);
            assert(adjacent(after[i], after[j]));
        } else {
            let m = choose|m: int| 0 <= m < pocket.len() && #[trigger] adjacent(pocket[m], c);
            assert(after[m] == pocket[m]);
            assert(after[j] == c);
            assert(adjacent(after[m], after[j]));
        }
    }
}

impl Lattice {
    /// Every open neighbour of a corridor of each pocket is in that pocket.
    pub open spec fn pockets_closed(&self, pockets: Seq<Vec<(usize, usize)>>) -> bool {
        forall|k: int, j: int, q: (usize, usize)|
            0 <= k < pockets.len() && 0 <= j < pockets[k]@.len() && self.open_at(q) && #[trigger] adjacent(
                pockets[k]@[j],
                q,
            ) ==> pockets[k]@.contains(q)
    }

    /// No corridor is in two pockets.
    pub open spec fn pockets_apart(&self, pockets: Seq<Vec<(usize, usize)>>) -> bool {
        forall|k1: int, k2: int, j1: int, j2: int|
            0 <= k1 < pockets.len() && 0 <= k2 < pockets.len() && k1 != k2 && 0 <= j1 < pockets[k1]@.len() && 0 <= j2
                < pockets[k2]@.len() ==> #[trigger] pockets[k1]@[j1] != #[trigger] pockets[k2]@[j2]
    }

    /// The open corridors split into connected pockets: each pocket is every
    /// corridor reachable from its first one, in the order they were found.
    /// An open lattice is a single pocket; rooms can cut it into several.
    #[verifier::rlimit(60)]
    #[verifier::spinoff_prover]
    pub fn pockets(&self) -> (out: Vec<Vec<(usize, usize)>>)
        requires
            self.wf(),
        ensures
            forall|k: int| 0 <= k < out@.len() ==> (#[trigger] out@[k])@.len() >= 1,
            forall|k: int, j: int|
                0 <= k < out@.len() && 0 <= j < out@[k]@.len() ==> self.open_at(#[trigger] out@[k]@[j]),
            forall|p: (usize, usize)| #[trigger] self.open_at(p) ==> in_pockets(out@, p),
            self.pockets_closed(out@),
            self.pockets_apart(out@),
            forall|k: int| 0 <= k < out@.len() ==> grown_from_first(#[trigger] out@[k]@),
    {
        let n = self.len();
        let corridors = self.corridors();
        let mut marks: Vec<bool> = vec![false; n];
        let mut out: Vec<Vec<(usize, usize)>> = Vec::new();
        proof {
            assert forall|p: (usize, usize)| self.holds(p) implies (#[trigger] marks@[self.flat(p)] <==> in_pockets(
                out@,
                p,
            )) by {
                lemma_square_index(self.spec_width(), self.spec_height(), p.0 as int, p.1 as int);
            }
        }
        let mut i: usize = 0;
        while i < corridors.len()
            invariant
                self.wf(),
                n == self.spec_width() * self.spec_height(),
                marks@.len() == n,
                i <= corridors@.len(),
                forall|k: int| 0 <= k < corridors@.len() ==> self.open_at(#[trigger] corridors@[k]),
                forall|x: int, y: int|
                    #[trigger] self.is_open(x, y) ==> corridors@.contains((x as usize, y as usize)),
                forall|k: int| 0 <= k < out@.len() ==> (#[trigger] out@[k])@.len() >= 1,
                forall|k: int, j: int|
                    0 <= k < out@.len() && 0 <= j < out@[k]@.len() ==> self.open_at(#[trigger] out@[k]@[j]),
                forall|p: (usize, usize)| self.holds(p) ==> (#[trigger] marks@[self.flat(p)] <==> in_pockets(out@, p)),
                forall|m: int| 0 <= m < i ==> marks@[self.flat(#[trigger] corridors@[m])],
                self.pockets_closed(out@),
                self.pockets_apart(out@),
                forall|k: int| 0 <= k < out@.len() ==> grown_from_first(#[trigger] out@[k]@),
            decreases corridors@.len() - i,
        {
            let (x, y) = corridors[i];
            proof {
                assert(self.open_at(corridors@[i as int]));
            }
            let seed = self.index(x, y);
            if marks[seed] {
                i = i + 1;
                continue;
            }
            proof {
                lemma_count_set(marks@, seed as int);
                self.lemma_marks_set(marks@, (x, y));
                assert(!marks@[self.flat((x, y))]);
                assert(!in_pockets(out@, (x, y)));
                assert forall|m: int| 0 <= m < i implies in_pockets(out@, #[trigger] corridors@[m]) by {
                    assert(marks@[self.flat(corridors@[m])]);
                    assert(self.open_at(corridors@[m]));
                }
            }
            marks.set(seed, true);
            let mut pocket: Vec<(usize, usize)> = Vec::new();
            let mut stack: Vec<(usize, usize)> = Vec::new();
            stack.push((x, y));
            proof {
                assert(stack@[0] == (x, y));
                assert forall|p: (usize, usize)|
                    self.holds(p) implies (#[trigger] marks@[self.flat(p)] <==> (in_pockets(out@, p)
                    || pocket@.contains(p) || stack@.contains(p))) by {
                    if stack@.contains(p) {
                        let t = choose|t: int| 0 <= t < stack@.len() && stack@[t] == p;
                    }
                }
                assert forall|p: (usize, usize)| pocket@.contains(p) || stack@.contains(p) implies !#[trigger] in_pockets(out@, p) by {
                    if stack@.contains(p) {
                        let t = choose|t: int| 0 <= t < stack@.len() && stack@[t] == p;
                    }
                }
            }
            while stack.len() > 0
                invariant
                    self.wf(),
                    n == self.spec_width() * self.spec_height(),
                    marks@.len() == n,
                    self.open_at((x, y)),
                    forall|k: int| 0 <= k < stack@.len() ==> self.open_at(#[trigger] stack@[k]),
                    forall|k: int| 0 <= k < pocket@.len() ==> self.open_at(#[trigger] pocket@[k]),
                    stack@.len() == 0 ==> pocket@.len() >= 1,
                    forall|p: (usize, usize)|
                        self.holds(p) ==> (#[trigger] marks@[self.flat(p)] <==> (in_pockets(out@, p)
                            || pocket@.contains(p) || stack@.contains(p))),
                    forall|p: (usize, usize)| pocket@.contains(p) || stack@.contains(p) ==> !#[trigger] in_pockets(out@, p),
                    forall|j: int, q: (usize, usize)|
                        0 <= j < pocket@.len() && self.open_at(q) && #[trigger] adjacent(pocket@[j], q)
                            ==> marks@[self.flat(q)],
                    grown_from_first(pocket@),
                    pocket@.len() >= 1 ==> pocket@[0] == (x, y),
                    pocket@.len() == 0 ==> stack@.len() == 1,
                    forall|k: int|
                        0 <= k < stack@.len() ==> (pocket@.len() == 0 && #[trigger] stack@[k] == (x, y)) || next_to(
                            pocket@,
                            stack@[k],
                        ),
                    forall|k: int| 0 <= k < out@.len() ==> (#[trigger] out@[k])@.len() >= 1,
                    forall|k: int, j: int|
                        0 <= k < out@.len() && 0 <= j < out@[k]@.len() ==> self.open_at(#[trigger] out@[k]@[j]),
                    self.pockets_closed(out@),
                    self.pockets_apart(out@),
                    forall|k: int| 0 <= k < out@.len() ==> grown_from_first(#[trigger] out@[k]@),
                decreases 2 * (n - count_true(marks@)) + stack@.len(),
            {
                proof {
                    lemma_count_bound(marks@);
                }
                let ghost before_pop = stack@;
                let (cx, cy) = stack.pop().unwrap();
                let ghost c = (cx, cy);
                let ghost before_pocket = pocket@;
                proof {
                    assert(before_pop[before_pop.len() - 1] == c);
                    assert(stack@ =~= before_pop.drop_last());
                    assert(self.open_at(before_pop[before_pop.len() - 1]));
                    assert forall|j: int| 0 <= j < stack@.len() implies self.open_at(#[trigger] stack@[j]) by {
                        assert(stack@[j] == before_pop[j]);
                    }
                }
                pocket.push((cx, cy));
                proof {
                    assert(pocket@ == before_pocket.push(c));
                    assert forall|j: int| 0 <= j < pocket@.len() implies self.open_at(#[trigger] pocket@[j]) by {
                        if j < before_pocket.len() {
                            assert(pocket@[j] == before_pocket[j]);
                        }
                    }
                    // How `c` was reached.
                    assert(before_pop.contains(c));
                    let kc = before_pop.len() - 1;
                    assert(before_pop[kc] == c);
                    if before_pocket.len() == 0 {
                        assert(c == (x, y));
                    } else {
                        assert(next_to(before_pocket, before_pop[kc]));
                    }
                    lemma_grown_push(before_pocket, c);
                    assert forall|p: (usize, usize)|
                        self.holds(p) implies (#[trigger] marks@[self.flat(p)] <==> (in_pockets(out@, p)
                        || pocket@.contains(p) || stack@.contains(p))) by {
                        assert(pocket@[pocket@.len() - 1] == c);
                        assert(before_pop[before_pop.len() - 1] == c);
                        if p == c {
                            assert(pocket@.contains(p));
                            assert(before_pop.contains(p));
                        }
                        if before_pop.contains(p) && p != c {
                            let k = choose|k: int| 0 <= k < before_pop.len() && before_pop[k] == p;
                            assert(k != before_pop.len() - 1);
                            assert(stack@[k] == p);
                        }
                        if pocket@.contains(p) && p != c {
                            let k = choose|k: int| 0 <= k < pocket@.len() && pocket@[k] == p;
                            assert(before_pocket[k] == p);
                        }
                        if before_pocket.contains(p) {
                            let k = choose|k: int| 0 <= k < before_pocket.len() && before_pocket[k] == p;
                            assert(pocket@[k] == p);
                        }
                        if stack@.contains(p) {
                            let k = choose|k: int| 0 <= k < stack@.len() && stack@[k] == p;
                            assert(before_pop[k] == p);
                        }
                        assert(pocket@[pocket@.len() - 1] == c);
                    }
                    assert forall|p: (usize, usize)| pocket@.contains(p) || stack@.contains(p) implies !#[trigger] in_pockets(out@, p) by {
                        if pocket@.contains(p) && p != c {
                            let k = choose|k: int| 0 <= k < pocket@.len() && pocket@[k] == p;
                            assert(before_pocket[k] == p);
                        }
                        if stack@.contains(p) {
                            let k = choose|k: int| 0 <= k < stack@.len() && stack@[k] == p;
                            assert(before_pop[k] == p);
                        }
                    }
                    assert forall|k: int| 0 <= k < stack@.len() implies next_to(pocket@, #[trigger] stack@[k]) by {
                        assert(stack@[k] == before_pop[k]);
                        assert(before_pocket.len() > 0);
                        assert(next_to(before_pocket, before_pop[k]));
                        let m = choose|m: int| 0 <= m < before_pocket.len() && #[trigger] adjacent(before_pocket[m], before_pop[k]);
                        assert(pocket@[m] == before_pocket[m]);
                        assert(adjacent(pocket@[m], stack@[k]));
                    }
                }
                proof {
                    assert(self.open_at(c));
                }
                let nbrs = self.neighbours(cx, cy);
                let ghost budget = 2 * (n - count_true(marks@)) + stack@.len();
                let mut k: usize = 0;
                while k < nbrs.len()
                    invariant
                        self.wf(),
                        n == self.spec_width() * self.spec_height(),
                        marks@.len() == n,
                        k <= nbrs@.len(),
                        pocket@.len() >= 1,
                        pocket@[pocket@.len() - 1] == c,
                        forall|j: int| 0 <= j < nbrs@.len() ==> self.open_at(#[trigger] nbrs@[j]) && adjacent(c, nbrs@[j]),
                        forall|j: int| 0 <= j < stack@.len() ==> self.open_at(#[trigger] stack@[j]),
                        2 * (n - count_true(marks@)) + stack@.len() <= budget,
                        forall|p: (usize, usize)|
                            self.holds(p) ==> (#[trigger] marks@[self.flat(p)] <==> (in_pockets(out@, p)
                                || pocket@.contains(p) || stack@.contains(p))),
                        forall|p: (usize, usize)|
                            pocket@.contains(p) || stack@.contains(p) ==> !#[trigger] in_pockets(out@, p),
                        forall|j: int, q: (usize, usize)|
                            0 <= j < pocket@.len() - 1 && self.open_at(q) && #[trigger] adjacent(pocket@[j], q)
                                ==> marks@[self.flat(q)],
                        forall|j: int| 0 <= j < k ==> marks@[self.flat(#[trigger] nbrs@[j])],
                        forall|kk: int| 0 <= kk < stack@.len() ==> next_to(pocket@, #[trigger] stack@[kk]),
                    decreases nbrs@.len() - k,
                {
                    let (nx, ny) = nbrs[k];
                    proof {
                        assert(self.open_at(nbrs@[k as int]));
                    }
                    let next = self.index(nx, ny);
                    if !marks[next] {
                        proof {
                            assert(!marks@[self.flat((nx, ny))]);
                            assert(!in_pockets(out@, (nx, ny)) && !pocket@.contains((nx, ny)) && !stack@.contains((nx, ny)));
                            lemma_count_set(marks@, next as int);
                            lemma_count_bound(marks@.update(next as int, true));
                            self.lemma_marks_set(marks@, (nx, ny));
                        }
                        let ghost marks0 = marks@;
                        marks.set(next, true);
                        let ghost before = stack@;
                        stack.push((nx, ny));
                        proof {
                            let q = (nx, ny);
                            assert forall|j: int| 0 <= j < stack@.len() implies self.open_at(#[trigger] stack@[j]) by {
                                if j < before.len() {
                                    assert(stack@[j] == before[j]);
                                }
                            }
                            assert forall|p: (usize, usize)|
                                self.holds(p) implies (#[trigger] marks@[self.flat(p)] <==> (in_pockets(out@, p)
                                || pocket@.contains(p) || stack@.contains(p))) by {
                                if p != q {
                                    if stack@.contains(p) {
                                        let t = choose|t: int| 0 <= t < stack@.len() && stack@[t] == p;
                                        assert(before[t] == p);
                                    }
                                    if before.contains(p) {
                                        let t = choose|t: int| 0 <= t < before.len() && before[t] == p;
                                        assert(stack@[t] == p);
                                    }
                                } else {
                                    assert(stack@[stack@.len() - 1] == q);
                                }
                            }
                            assert forall|p: (usize, usize)|
                                pocket@.contains(p) || stack@.contains(p) implies !#[trigger] in_pockets(out@, p) by {
                                if stack@.contains(p) && p != q {
                                    let t = choose|t: int| 0 <= t < stack@.len() && stack@[t] == p;
                                    assert(before[t] == p);
                                }
                            }
                            assert forall|kk: int| 0 <= kk < stack@.len() implies next_to(pocket@, #[trigger] stack@[kk]) by {
                                if kk < before.len() {
                                    assert(stack@[kk] == before[kk]);
                                    assert(next_to(pocket@, before[kk]));
                                } else {
                                    assert(stack@[kk] == q);
                                    assert(nbrs@[k as int] == q);
                                    assert(adjacent(c, nbrs@[k as int]));
                                    assert(adjacent(pocket@[pocket@.len() - 1], stack@[kk]));
                                }
                            }
                        }
                    }
                    k = k + 1;
                }
                proof {
                    lemma_count_bound(marks@);
                    assert forall|j: int, q: (usize, usize)|
                        0 <= j < pocket@.len() && self.open_at(q) && #[trigger] adjacent(pocket@[j], q)
                            implies marks@[self.flat(q)] by {
                        if j == pocket@.len() - 1 {
                            assert(nbrs@.contains(q));
                            let t = choose|t: int| 0 <= t < nbrs@.len() && nbrs@[t] == q;
                        }
                    }
                }
            }
            // Nothing next to the pocket is left outside it.
            proof {
                assert forall|j: int, q: (usize, usize)|
                    0 <= j < pocket@.len() && self.open_at(q) && #[trigger] adjacent(pocket@[j], q)
                        implies pocket@.contains(q) by {
                    assert(marks@[self.flat(q)]);
                    if in_pockets(out@, q) {
                        let (k, t) = choose|k: int, t: int|
                            0 <= k < out@.len() && 0 <= t < out@[k]@.len() && #[trigger] out@[k]@[t] == q;
                        assert(adjacent(out@[k]@[t], pocket@[j]));
                        assert(out@[k]@.contains(pocket@[j]));
                        let t2 = choose|t2: int| 0 <= t2 < out@[k]@.len() && out@[k]@[t2] == pocket@[j];
                        assert(pocket@.contains(pocket@[j]));
                        assert(in_pockets(out@, pocket@[j]));
                    }
                }
            }
            let ghost before_out = out@;
            out.push(pocket);
            proof {
                let last = out@.len() - 1;
                assert(out@[last]@ == pocket@);
                assert forall|k: int, j: int|
                    0 <= k < out@.len() && 0 <= j < out@[k]@.len() implies self.open_at(#[trigger] out@[k]@[j]) by {
                    if k < before_out.len() {
                        assert(out@[k] == before_out[k]);
                    }
                }
                assert forall|k: int| 0 <= k < out@.len() implies (#[trigger] out@[k])@.len() >= 1 by {
                    if k < before_out.len() {
                        assert(out@[k] == before_out[k]);
                    }
                }
                assert forall|k: int| 0 <= k < out@.len() implies grown_from_first(#[trigger] out@[k]@) by {
                    if k < before_out.len() {
                        assert(out@[k] == before_out[k]);
                    }
                }
                assert forall|p: (usize, usize)| self.holds(p) implies (#[trigger] marks@[self.flat(p)]
                    <==> in_pockets(out@, p)) by {
                    if in_pockets(before_out, p) {
                        let (k, t) = choose|k: int, t: int|
                            0 <= k < before_out.len() && 0 <= t < before_out[k]@.len() && #[trigger] before_out[k]@[t] == p;
                        assert(out@[k] == before_out[k]);
                    }
                    if pocket@.contains(p) {
                        let t = choose|t: int| 0 <= t < pocket@.len() && pocket@[t] == p;
                        assert(out@[last]@[t] == p);
                    }
                    if in_pockets(out@, p) {
                        let (k, t) = choose|k: int, t: int|
                            0 <= k < out@.len() && 0 <= t < out@[k]@.len() && #[trigger] out@[k]@[t] == p;
                        if k < before_out.len() {
                            assert(out@[k] == before_out[k]);
                            assert(in_pockets(before_out, p));
                        } else {
                            assert(pocket@[t] == p);
                        }
                    }
                }
                assert forall|m: int| 0 <= m < i + 1 implies marks@[self.flat(#[trigger] corridors@[m])] by {
                    let p = corridors@[m];
                    assert(self.open_at(p));
                    if m < i {
                        assert(in_pockets(before_out, p));
                        let (k, t) = choose|k: int, t: int|
                            0 <= k < before_out.len() && 0 <= t < before_out[k]@.len() && #[trigger] before_out[k]@[t] == p;
                        assert(out@[k] == before_out[k]);
                        assert(in_pockets(out@, p));
                    } else {
                        assert(pocket@[0] == (x, y));
                        assert(out@[last]@[0] == p);
                        assert(in_pockets(out@, p));
                    }
                }
                assert(self.pockets_closed(out@)) by {
                    assert forall|k: int, j: int, q: (usize, usize)|
                        0 <= k < out@.len() && 0 <= j < out@[k]@.len() && self.open_at(q) && #[trigger] adjacent(
                            out@[k]@[j],
                            q,
                        ) implies out@[k]@.contains(q) by {
                        if k < before_out.len() {
                            assert(out@[k] == before_out[k]);
                        } else {
                            assert(adjacent(pocket@[j], q));
                        }
                    }
                }
                assert(self.pockets_apart(out@)) by {
                    assert forall|k1: int, k2: int, j1: int, j2: int|
                        0 <= k1 < out@.len() && 0 <= k2 < out@.len() && k1 != k2 && 0 <= j1 < out@[k1]@.len() && 0
                            <= j2 < out@[k2]@.len() implies #[trigger] out@[k1]@[j1] != #[trigger] out@[k2]@[j2] by {
                        if k1 < before_out.len() && k2 < before_out.len() {
                            assert(out@[k1] == before_out[k1] && out@[k2] == before_out[k2]);
                        } else if k1 < before_out.len() {
                            assert(out@[k1] == before_out[k1]);
                            assert(pocket@.contains(out@[k2]@[j2]));
                            assert(!in_pockets(before_out, out@[k2]@[j2]));
                        } else {
                            assert(out@[k2] == before_out[k2]);
                            assert(pocket@.contains(out@[k1]@[j1]));
                            assert(!in_pockets(before_out, out@[k1]@[j1]));
                        }
                    }
                }
            }
            i = i + 1;
        }
        proof {
            assert forall|p: (usize, usize)| #[trigger] self.open_at(p) implies in_pockets(out@, p) by {
                assert(self.is_open(p.0 as int, p.1 as int));
                assert(corridors@.contains((p.0 as usize, p.1 as usize)));
                assert(corridors@.contains(p));
                let m = choose|m: int| 0 <= m < corridors@.len() && corridors@[m] == p;
                assert(0 <= m < i);
                assert(marks@[self.flat(corridors@[m])]);
            }
        }
        out
    }

    /// Setting the mark of corridor `q` sets exactly its index.
    proof fn lemma_marks_set(&self, marks: Seq<bool>, q: (usize, usize))
        requires
            self.wf(),
            marks.len() == self.spec_width() * self.spec_height(),
            self.holds(q),
        ensures
            forall|p: (usize, usize)|
                self.holds(p) ==> (#[trigger] marks.update(self.flat(q), true)[self.flat(p)] <==> (marks[self.flat(p)]
                    || p == q)),
    {
        let w = self.spec_width();
        let h = self.spec_height();
        crate::maze::grid::lemma_square_index(w, h, q.0 as int, q.1 as int);
        assert forall|p: (usize, usize)|
            self.holds(p) implies (#[trigger] marks.update(self.flat(q), true)[self.flat(p)] <==> (marks[self.flat(p)]
                || p == q)) by {
            crate::maze::grid::lemma_square_index(w, h, p.0 as int, p.1 as int);
            if self.flat(p) == self.flat(q) {
                crate::maze::grid::lemma_square_index_injective(w, p.0 as int, p.1 as int, q.0 as int, q.1 as int);
            }
        }
    }
}

impl Lattice {
    /// `route` runs over open corridors, each next to the one before.
    pub open spec fn is_corridor_route(&self, route: Seq<(usize, usize)>) -> bool {
        &&& route.len() >= 1
        &&& forall|i: int| 0 <= i < route.len() ==> self.open_at(#[trigger] route[i])
        &&& forall|i: int| 0 <= i < route.len() - 1 ==> adjacent(#[trigger] route[i], route[i + 1])
    }

    /// Some route over open corridors leads from `p` to `q`.
    pub open spec fn linked(&self, p: (usize, usize), q: (usize, usize)) -> bool {
        exists|route: Seq<(usize, usize)>| #[trigger] self.is_corridor_route(route) && route[0] == p && route.last() == q
    }

    /// A route turned round leads back.
    pub proof fn lemma_linked_back(&self, p: (usize, usize), q: (usize, usize))
        requires
            self.linked(p, q),
        ensures
            self.linked(q, p),
    {
        let route = choose|route: Seq<(usize, usize)>| #[trigger] self.is_corridor_route(route) && route[0] == p && route.last() == q;
        let back = route.reverse();
        assert forall|i: int| 0 <= i < back.len() implies self.open_at(#[trigger] back[i]) by {
            assert(back[i] == route[route.len() - 1 - i]);
        }
        assert forall|i: int| 0 <= i < back.len() - 1 implies adjacent(#[trigger] back[i], back[i + 1]) by {
            let k = route.len() - 2 - i;
            assert(back[i] == route[k + 1] && back[i + 1] == route[k]);
            assert(adjacent(route[k], route[k + 1]));
        }
        assert(self.is_corridor_route(back));
    }

    /// Two routes that meet make one.
    pub proof fn lemma_linked_chain(&self, p: (usize, usize), q: (usize, usize), r: (usize, usize))
        requires
            self.linked(p, q),
            self.linked(q, r),
        ensures
            self.linked(p, r),
    {
        let first = choose|route: Seq<(usize, usize)>| #[trigger] self.is_corridor_route(route) && route[0] == p && route.last() == q;
        let second = choose|route: Seq<(usize, usize)>| #[trigger] self.is_corridor_route(route) && route[0] == q && route.last() == r;
        let whole = first + second.drop_first();
        assert forall|i: int| 0 <= i < whole.len() implies self.open_at(#[trigger] whole[i]) by {
            if i < first.len() {
                assert(whole[i] == first[i]);
            } else {
                assert(whole[i] == second[i - first.len() + 1]);
            }
        }
        assert forall|i: int| 0 <= i < whole.len() - 1 implies adjacent(#[trigger] whole[i], whole[i + 1]) by {
            if i < first.len() - 1 {
                assert(whole[i] == first[i] && whole[i + 1] == first[i + 1]);
            } else if i == first.len() - 1 {
                assert(whole[i] == first.last() && whole[i + 1] == second[1]);
                assert(adjacent(second[0], second[1]));
            } else {
                let k = i - first.len() + 1;
                assert(whole[i] == second[k] && whole[i + 1] == second[k + 1]);
            }
        }
        assert(self.is_corridor_route(whole));
        if second.len() == 1 {
            assert(whole.last() == first.last());
        } else {
            assert(whole.last() == second.last());
        }
    }

    /// Every corridor of a pocket grown from its first is linked to the first.
    pub proof fn lemma_pocket_linked(&self, pocket: Seq<(usize, usize)>, j: int)
        requires
            forall|i: int| 0 <= i < pocket.len() ==> self.open_at(#[trigger] pocket[i]),
            grown_from_first(pocket),
            0 <= j < pocket.len(),
        ensures
            self.linked(pocket[0], pocket[j]),
        decreases j,
    {
        if j == 0 {
            let route = seq![pocket[0]];
            assert(route.last() == pocket[0]);
            assert(self.is_corridor_route(route));
        } else {
            assert(reached_before(pocket, j));
            let i = choose|i: int| 0 <= i < j && #[trigger] adjacent(pocket[i], pocket[j]);
            self.lemma_pocket_linked(pocket, i);
            let step = seq![pocket[i], pocket[j]];
            assert(step.last() == pocket[j]);
            assert(self.open_at(pocket[i]) && self.open_at(pocket[j]));
            assert(self.is_corridor_route(step));
            self.lemma_linked_chain(pocket[0], pocket[i], pocket[j]);
        }
    }

    /// A corridor with no open neighbour is linked to itself alone.
    pub proof fn lemma_linked_lone(&self, p: (usize, usize), q: (usize, usize))
        requires
            self.linked(p, q),
            forall|r: (usize, usize)| #[trigger] self.open_at(r) ==> !adjacent(p, r),
        ensures
            q == p,
    {
        let route = choose|route: Seq<(usize, usize)>| #[trigger] self.is_corridor_route(route) && route[0] == p && route.last() == q;
        if route.len() > 1 {
            assert(adjacent(route[0], route[1]));
            assert(self.open_at(route[1]));
        }
    }
}

/// Marking one more index of 0..n as seen grows the set of seen indices
/// by one, and it stays within 0..n.
pub proof fn lemma_mark(seen: Set<int>, n: int, i: int)
    requires
        seen.finite(),
        forall|j: int| seen.contains(j) ==> 0 <= j < n,
        0 <= i < n,
        !seen.contains(i),
    ensures
        seen.insert(i).finite(),
        seen.insert(i).len() == seen.len() + 1,
        seen.insert(i).len() <= n,
{
    vstd::set_lib::lemma_int_range(0, n);
    vstd::set_lib::lemma_len_subset(seen.insert(i), vstd::set_lib::set_int_range(0, n));
}

/// The seen indices of 0..n are at most n.
pub proof fn lemma_seen_bound(seen: Set<int>, n: int)
    requires
        seen.finite(),
        forall|j: int| seen.contains(j) ==> 0 <= j < n,
        0 <= n,
    ensures
        seen.len() <= n,
{
    vstd::set_lib::lemma_int_range(0, n);
    vstd::set_lib::lemma_len_subset(seen, vstd::set_lib::set_int_range(0, n));
}

/// Steps appended after a prefix keep what the prefix contained.
pub proof fn lemma_prefix_contains(prefix: Seq<Step>, steps: Seq<Step>, s: Step)
    requires
        prefix.len() <= steps.len(),
        forall|j: int| 0 <= j < prefix.len() ==> #[trigger] steps[j] == prefix[j],
        prefix.contains(s),
    ensures
        steps.contains(s),
{
    let j = choose|j: int| 0 <= j < prefix.len() && prefix[j] == s;
    assert(steps[j] == prefix[j]);
}

} // verus!
