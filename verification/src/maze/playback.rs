//! Replaying a generation step by step, with jumps back and forth.

use vstd::prelude::*;

use super::algorithms::{Generation, Phase, all_walls, fits};
use super::grid::{Cell, Grid, Step, after_steps, steps_inside};

verus! {

/// How many of the most recently applied steps are highlighted.
pub const TRAIL_LENGTH: usize = 5;

/// A generation being replayed: the grid as it currently looks and a cursor
/// into the steps. The grid always shows exactly the steps before the
/// cursor, replayed on an empty grid.
pub struct Playback {
    generation: Generation,
    grid: Grid,
    next_step: usize,
    corridors_x: usize,
    corridors_y: usize,
}

impl Playback {
    pub closed spec fn spec_generation(&self) -> &Generation {
        &self.generation
    }

    pub closed spec fn spec_grid(&self) -> Grid {
        self.grid
    }

    pub closed spec fn spec_next_step(&self) -> int {
        self.next_step as int
    }

    pub closed spec fn spec_corridors(&self) -> (int, int) {
        (self.corridors_x as int, self.corridors_y as int)
    }

    /// The cells of a fresh grid once the first `k` steps have been applied.
    pub open spec fn replayed(&self, k: int) -> Seq<Cell> {
        let (cx, cy) = self.spec_corridors();
        after_steps(all_walls((2 * cx + 1) * (2 * cy + 1)), 2 * cx + 1, self.spec_generation().steps@.take(k))
    }

    pub open spec fn wf(&self) -> bool {
        let (cx, cy) = self.spec_corridors();
        &&& fits(cx, cy)
        &&& self.spec_generation().phases_ok()
        &&& steps_inside(self.spec_generation().steps@, 2 * cx + 1, 2 * cy + 1)
        &&& self.spec_grid().wf()
        &&& self.spec_grid().spec_width() == 2 * cx + 1
        &&& self.spec_grid().spec_height() == 2 * cy + 1
        &&& 0 <= self.spec_next_step() <= self.spec_generation().steps@.len()
        &&& self.spec_grid()@ == self.replayed(self.spec_next_step())
    }

    /// Starts the replay on an empty grid.
    pub fn new(generation: Generation, corridors_x: usize, corridors_y: usize) -> (playback: Self)
        requires
            fits(corridors_x as int, corridors_y as int),
            generation.phases_ok(),
            steps_inside(generation.steps@, 2 * corridors_x + 1, 2 * corridors_y + 1),
        ensures
            playback.wf(),
            playback.spec_next_step() == 0,
            *playback.spec_generation() == generation,
            playback.spec_corridors() == (corridors_x as int, corridors_y as int),
    {
        let grid = Grid::new(corridors_x, corridors_y);
        let playback = Playback { generation, grid, next_step: 0, corridors_x, corridors_y };
        proof {
            assert(playback.generation.steps@.take(0) =~= Seq::<Step>::empty());
            assert(grid@ =~= all_walls((2 * corridors_x + 1) * (2 * corridors_y + 1)));
        }
        playback
    }

    pub fn grid(&self) -> (grid: &Grid)
        ensures
            *grid == self.spec_grid(),
    {
        &self.grid
    }

    pub fn generation(&self) -> (generation: &Generation)
        ensures
            generation == self.spec_generation(),
    {
        &self.generation
    }

    /// The index of the next step to apply.
    pub fn next_step(&self) -> (next: usize)
        ensures
            next == self.spec_next_step(),
    {
        self.next_step
    }

    pub fn total(&self) -> (total: usize)
        ensures
            total == self.spec_generation().steps@.len(),
    {
        self.generation.steps.len()
    }

    pub fn finished(&self) -> (done: bool)
        ensures
            done == (self.spec_next_step() >= self.spec_generation().steps@.len()),
    {
        self.next_step >= self.generation.steps.len()
    }

    /// Applies steps up to, not including, `until`, or to the end.
    pub fn play_until(&mut self, until: usize)
        requires
            old(self).wf(),
            old(self).spec_next_step() <= until,
        ensures
            final(self).wf(),
            final(self).spec_generation() == old(self).spec_generation(),
            final(self).spec_corridors() == old(self).spec_corridors(),
            final(self).spec_next_step() == if until < old(self).spec_generation().steps@.len() {
                until as int
            } else {
                old(self).spec_generation().steps@.len() as int
            },
    {
        let total = self.generation.steps.len();
        let until = if until < total { until } else { total };
        let ghost cx = self.corridors_x as int;
        let ghost cy = self.corridors_y as int;
        while self.next_step < until
            invariant
                self.wf(),
                self.generation == old(self).generation,
                self.corridors_x == old(self).corridors_x,
                self.corridors_y == old(self).corridors_y,
                cx == self.corridors_x,
                cy == self.corridors_y,
                total == self.generation.steps@.len(),
                self.next_step <= until <= total,
            decreases until - self.next_step,
        {
            let step = self.generation.steps[self.next_step];
            proof {
                let k = self.next_step as int;
                assert(self.generation.steps@.take(k + 1).drop_last() =~= self.generation.steps@.take(k));
                assert(self.generation.steps@[k].x < 2 * cx + 1);
            }
            self.grid.apply(step);
            self.next_step = self.next_step + 1;
        }
    }

    /// Applies the next step, if any.
    pub fn step_once(&mut self)
        requires
            old(self).wf(),
        ensures
            final(self).wf(),
            final(self).spec_generation() == old(self).spec_generation(),
            final(self).spec_corridors() == old(self).spec_corridors(),
            final(self).spec_next_step() == if old(self).spec_next_step() < old(
                self,
            ).spec_generation().steps@.len() {
                old(self).spec_next_step() + 1
            } else {
                old(self).spec_next_step()
            },
    {
        if self.next_step < self.generation.steps.len() {
            self.play_until(self.next_step + 1);
        }
    }

    /// Jumps to `target` without animating: forward by applying the steps,
    /// backward by rebuilding from an empty grid. Either way the grid ends
    /// up as the replay of the steps before the target.
    pub fn seek(&mut self, target: usize)
        requires
            old(self).wf(),
        ensures
            final(self).wf(),
            final(self).spec_generation() == old(self).spec_generation(),
            final(self).spec_corridors() == old(self).spec_corridors(),
            final(self).spec_next_step() == if target < old(self).spec_generation().steps@.len() {
                target as int
            } else {
                old(self).spec_generation().steps@.len() as int
            },
    {
        let total = self.generation.steps.len();
        let target = if target < total { target } else { total };
        if target < self.next_step {
            self.grid.reset();
            self.next_step = 0;
            proof {
                assert(self.generation.steps@.take(0) =~= Seq::<Step>::empty());
                assert(self.grid@ =~= all_walls((2 * self.corridors_x + 1) * (2 * self.corridors_y + 1)));
            }
        }
        self.play_until(target);
    }

    /// Back to the empty grid.
    pub fn restart(&mut self)
        requires
            old(self).wf(),
        ensures
            final(self).wf(),
            final(self).spec_generation() == old(self).spec_generation(),
            final(self).spec_corridors() == old(self).spec_corridors(),
            final(self).spec_next_step() == 0,
    {
        self.seek(0);
    }

    /// Straight to the finished maze.
    pub fn skip_to_end(&mut self)
        requires
            old(self).wf(),
        ensures
            final(self).wf(),
            final(self).spec_generation() == old(self).spec_generation(),
            final(self).spec_corridors() == old(self).spec_corridors(),
            final(self).spec_next_step() == old(self).spec_generation().steps@.len(),
    {
        let total = self.generation.steps.len();
        self.seek(total);
    }

    /// The name of the phase being played, "Done" once finished.
    pub fn phase_name(&self) -> (name: &'static str)
        requires
            self.wf(),
        ensures
            self.spec_next_step() >= self.spec_generation().steps@.len() ==> name@ == "Done"@,
            self.spec_next_step() < self.spec_generation().steps@.len() && self.spec_generation().phases@.len()
                == 0 ==> name@ == ""@,
            self.spec_next_step() < self.spec_generation().steps@.len() && self.spec_generation().phases@.len()
                > 0 ==> exists|k: int|
                {
                    &&& 0 <= k < self.spec_generation().phases@.len()
                    &&& #[trigger] self.spec_generation().phases@[k].name == name
                    &&& self.spec_generation().phases@[k].start <= self.spec_next_step()
                    &&& forall|k2: int|
                        k < k2 < self.spec_generation().phases@.len() ==> self.spec_next_step() < (
                        #[trigger] self.spec_generation().phases@[k2]).start
                },
    {
        if self.next_step >= self.generation.steps.len() {
            return "Done";
        }
        match self.generation.phase_at(self.next_step) {
            Some(phase) => phase.name,
            None => "",
        }
    }

    /// The phase being played, if any.
    pub fn phase(&self) -> (phase: Option<Phase>)
        requires
            self.wf(),
        ensures
            phase is None <==> self.spec_next_step() >= self.spec_generation().steps@.len()
                || self.spec_generation().phases@.len() == 0,
            phase matches Some(p) ==> self.spec_generation().phases@.contains(p),
    {
        match self.generation.phase_at(self.next_step) {
            Some(phase) => Some(*phase),
            None => None,
        }
    }

    /// The steps applied last, at most `TRAIL_LENGTH` of them; none once
    /// finished.
    pub fn trail(&self) -> (trail: Vec<Step>)
        requires
            self.wf(),
        ensures
            self.spec_next_step() >= self.spec_generation().steps@.len() ==> trail@.len() == 0,
            self.spec_next_step() < self.spec_generation().steps@.len() ==> trail@
                == self.spec_generation().steps@.subrange(
                if self.spec_next_step() >= TRAIL_LENGTH {
                    self.spec_next_step() - TRAIL_LENGTH
                } else {
                    0
                },
                self.spec_next_step(),
            ),
    {
        let mut trail: Vec<Step> = Vec::new();
        if self.next_step >= self.generation.steps.len() {
            return trail;
        }
        let first = if self.next_step >= TRAIL_LENGTH { self.next_step - TRAIL_LENGTH } else { 0 };
        let mut k = first;
        while k < self.next_step
            invariant
                self.wf(),
                first <= k <= self.spec_next_step(),
                trail@ == self.generation.steps@.subrange(first as int, k as int),
            decreases self.next_step - k,
        {
            trail.push(self.generation.steps[k]);
            proof {
                assert(trail@ =~= self.generation.steps@.subrange(first as int, k + 1));
            }
            k = k + 1;
        }
        trail
    }
}

/// Seeking is path-independent: wherever the replay stood, seeking to a
/// step shows the same grid as playing from the start up to it.
pub proof fn lemma_seek_is_replay(a: &Playback, b: &Playback)
    requires
        a.wf(),
        b.wf(),
        a.spec_generation() == b.spec_generation(),
        a.spec_corridors() == b.spec_corridors(),
        a.spec_next_step() == b.spec_next_step(),
    ensures
        a.spec_grid()@ == b.spec_grid()@,
{
}

} // verus!
