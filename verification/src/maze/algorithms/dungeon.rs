use rand::rngs::StdRng;
use vstd::prelude::*;

use super::disjoint_sets::{DisjointSets, is_grouping, joined, lemma_merge_joins};
use super::{
    Algorithm, BULK_PACE, Generation, Lattice, all_walls, carving_cell, count_true, finish, fits, grid_after, lemma_count_bound,
    lemma_count_set, well_framed,
};
use crate::maze::grid::{
    Cell, Grid, Step, adjacent, after_steps, decode, lemma_after_steps_unmarked, lemma_neighbours, lemma_reach_grows,
    lemma_square_index, neighbours, square_index, steps_inside, steps_unmarked, unmarked,
};
use super::braid::{all_inside, count_walkable, grows, lemma_open_count_grows, open_count};
use super::connectivity::{
    carved_from, doors_bridge, draws_joined, hangs_together, lemma_carved_near, lemma_doors_join, lemma_fewer_neighbours,
    lemma_hangs_draws, lemma_lay_room, lemma_no_walls_open_more, lemma_wall_leaf, rooms_hold, rooms_laid,
};
use crate::maze::grid::neighbours_spec;
use crate::maze::stats::{tally, walkable_at};
use crate::maze::walks::open_in;
use crate::random::{pick, random_range};

verus! {

/// A room in corridor coordinates: corridors x..x+width by y..y+height.
#[derive(Clone, Copy, Debug)]
pub struct Room {
    pub x: usize,
    pub y: usize,
    pub width: usize,
    pub height: usize,
}

/// The squares of row `y` from `x0` to `x1`, inclusive, left to right.
pub open spec fn row_squares(x0: int, x1: int, y: int) -> Seq<(usize, usize)> {
    Seq::new((x1 - x0 + 1) as nat, |i: int| ((x0 + i) as usize, y as usize))
}

/// The squares of rows `y0` up to, not including, `y_end`, row by row.
pub open spec fn rect_squares(x0: int, x1: int, y0: int, y_end: int) -> Seq<(usize, usize)>
    decreases y_end - y0,
{
    if y_end <= y0 {
        Seq::empty()
    } else {
        rect_squares(x0, x1, y0, y_end - 1) + row_squares(x0, x1, y_end - 1)
    }
}

/// A rectangle's squares are exactly the points inside it.
pub proof fn lemma_rect_squares(x0: int, x1: int, y0: int, y_end: int, p: (usize, usize))
    requires
        0 <= x0 <= x1 + 1,
        0 <= y0,
        x1 <= usize::MAX,
        y_end <= usize::MAX + 1,
    ensures
        rect_squares(x0, x1, y0, y_end).contains(p) <==> x0 <= p.0 <= x1 && y0 <= p.1 < y_end,
    decreases y_end - y0,
{
    if y_end > y0 {
        lemma_rect_squares(x0, x1, y0, y_end - 1, p);
        let before = rect_squares(x0, x1, y0, y_end - 1);
        let row = row_squares(x0, x1, y_end - 1);
        let all = before + row;
        if all.contains(p) {
            let k = choose|k: int| 0 <= k < all.len() && all[k] == p;
            if k >= before.len() {
                assert(row[k - before.len()] == p);
            } else {
                assert(before[k] == p);
            }
        }
        if x0 <= p.0 <= x1 && y0 <= p.1 < y_end {
            if p.1 == y_end - 1 {
                let i = p.0 - x0;
                assert(row[i] == p);
                assert(all[before.len() + i] == p);
            } else {
                let k = choose|k: int| 0 <= k < before.len() && before[k] == p;
                assert(all[k] == p);
            }
        }
    }
}

impl Room {
    /// Small enough that its square coordinates fit in a `usize`.
    pub open spec fn small(&self) -> bool {
        &&& 1 <= self.width
        &&& 1 <= self.height
        &&& 4 * (self.x + self.width) + 1 <= usize::MAX
        &&& 4 * (self.y + self.height) + 1 <= usize::MAX
    }

    /// The room lies on a lattice of `cx` by `cy` corridors.
    pub open spec fn lies_in(&self, cx: int, cy: int) -> bool {
        &&& fits(cx, cy)
        &&& 1 <= self.width
        &&& 1 <= self.height
        &&& self.x + self.width <= cx
        &&& self.y + self.height <= cy
    }

    pub open spec fn spec_too_close(&self, other: &Room) -> bool {
        &&& self.x < other.x + other.width + 1
        &&& other.x < self.x + self.width + 1
        &&& self.y < other.y + other.height + 1
        &&& other.y < self.y + self.height + 1
    }

    /// True when the rooms touch or overlap, counting one corridor of gap so
    /// that a carved corridor always separates two rooms.
    pub fn too_close(&self, other: &Room) -> (r: bool)
        requires
            self.small(),
            other.small(),
        ensures
            r == self.spec_too_close(other),
    {
        self.x < other.x + other.width + 1 && other.x < self.x + self.width + 1 && self.y < other.y
            + other.height + 1 && other.y < self.y + self.height + 1
    }

    /// Left, top, right and bottom square of the room, inclusive.
    pub open spec fn spec_bounds(&self) -> (int, int, int, int) {
        (
            2 * self.x + 1,
            2 * self.y + 1,
            2 * (self.x + self.width - 1) + 1,
            2 * (self.y + self.height - 1) + 1,
        )
    }

    /// The square lies inside the room, walls between its corridors included.
    pub open spec fn covers(&self, sx: int, sy: int) -> bool {
        let (x0, y0, x1, y1) = self.spec_bounds();
        x0 <= sx <= x1 && y0 <= sy <= y1
    }

    /// Corridor (x, y) is one of the room's own.
    pub open spec fn holds(&self, x: int, y: int) -> bool {
        self.x <= x < self.x + self.width && self.y <= y < self.y + self.height
    }

    /// The square coordinates of the room's corners, inclusive.
    pub fn bounds(&self) -> (b: (usize, usize, usize, usize))
        requires
            self.small(),
        ensures
            b.0 == self.spec_bounds().0,
            b.1 == self.spec_bounds().1,
            b.2 == self.spec_bounds().2,
            b.3 == self.spec_bounds().3,
    {
        (
            self.x * 2 + 1,
            self.y * 2 + 1,
            (self.x + self.width - 1) * 2 + 1,
            (self.y + self.height - 1) * 2 + 1,
        )
    }

    /// Every square the room covers, the walls between its corridors
    /// included, row by row.
    pub fn squares(&self) -> (out: Vec<(usize, usize)>)
        requires
            self.small(),
        ensures
            out@ == rect_squares(
                self.spec_bounds().0,
                self.spec_bounds().2,
                self.spec_bounds().1,
                self.spec_bounds().3 + 1,
            ),
            forall|p: (usize, usize)| out@.contains(p) <==> self.covers(p.0 as int, p.1 as int),
    {
        let (x0, y0, x1, y1) = self.bounds();
        let mut out: Vec<(usize, usize)> = Vec::new();
        let mut y = y0;
        while y <= y1
            invariant
                x0 <= x1 < usize::MAX,
                y0 <= y1 < usize::MAX,
                y0 <= y <= y1 + 1,
                out@ == rect_squares(x0 as int, x1 as int, y0 as int, y as int),
            decreases y1 + 1 - y,
        {
            let ghost done = out@;
            let mut x = x0;
            while x <= x1
                invariant
                    x0 <= x1 < usize::MAX,
                    y0 <= y <= y1 < usize::MAX,
                    x0 <= x <= x1 + 1,
                    out@ == done + row_squares(x0 as int, x as int - 1, y as int),
                decreases x1 + 1 - x,
            {
                out.push((x, y));
                proof {
                    assert(row_squares(x0 as int, x as int, y as int) =~= row_squares(
                        x0 as int,
                        x as int - 1,
                        y as int,
                    ).push((x, y)));
                    assert(out@ =~= done + row_squares(x0 as int, x as int, y as int));
                }
                x = x + 1;
            }
            y = y + 1;
        }
        proof {
            assert forall|p: (usize, usize)| out@.contains(p) <==> self.covers(p.0 as int, p.1 as int) by {
                lemma_rect_squares(x0 as int, x1 as int, y0 as int, y1 + 1, p);
            }
        }
        out
    }

    pub open spec fn spec_centre(&self) -> (int, int) {
        let (x0, y0, x1, y1) = self.spec_bounds();
        ((x0 + x1) / 2, (y0 + y1) / 2)
    }

    /// The middle square of the room.
    pub fn centre(&self) -> (c: (usize, usize))
        requires
            self.small(),
        ensures
            c.0 == self.spec_centre().0,
            c.1 == self.spec_centre().1,
            self.covers(c.0 as int, c.1 as int),
    {
        let (x0, y0, x1, y1) = self.bounds();
        ((x0 + x1) / 2, (y0 + y1) / 2)
    }
}

/// The sides of a grid of `cx` by `cy` corridors fit in a `usize`.
pub proof fn lemma_fits_sides(cx: int, cy: int)
    requires
        fits(cx, cy),
    ensures
        2 * cx + 1 <= usize::MAX,
        2 * cy + 1 <= usize::MAX,
        cx * cy <= usize::MAX,
{
    assert(2 * cx + 1 <= (2 * cx + 1) * (2 * cy + 1) && 2 * cy + 1 <= (2 * cx + 1) * (2 * cy + 1) && cx * cy
        <= (2 * cx + 1) * (2 * cy + 1)) by (nonlinear_arith)
        requires
            0 <= cx,
            0 <= cy,
    ;
}

/// A room on the lattice is small.
pub proof fn lemma_lies_in_small(room: Room, cx: int, cy: int)
    requires
        room.lies_in(cx, cy),
    ensures
        room.small(),
{
    lemma_fits_sides(cx, cy);
    assert(4 * cx + 1 <= (2 * cx + 1) * (2 * cy + 1) && 4 * cy + 1 <= (2 * cx + 1) * (2 * cy + 1))
        by (nonlinear_arith)
        requires
            1 <= cx,
            1 <= cy,
    ;
}

/// The longest side a room may have on a lattice of `cx` by `cy`
/// corridors: half the shorter side, at least two and at most four.
pub open spec fn side_limit(cx: int, cy: int) -> int {
    let half = (if cx < cy { cx } else { cy }) / 2;
    if half < 2 {
        2
    } else if half > 4 {
        4
    } else {
        half
    }
}

/// A room that may be drawn as a candidate: on the lattice, each side from
/// two up to the side limit.
pub open spec fn room_candidate(room: Room, cx: int, cy: int) -> bool {
    &&& room.lies_in(cx, cy)
    &&& 2 <= room.width <= side_limit(cx, cy)
    &&& 2 <= room.height <= side_limit(cx, cy)
}

/// The candidates kept, in order: each one that is not too close to any
/// candidate kept before it.
pub open spec fn kept_apart(candidates: Seq<Room>) -> Seq<Room>
    decreases candidates.len(),
{
    if candidates.len() == 0 {
        Seq::empty()
    } else {
        let before = kept_apart(candidates.drop_last());
        let room = candidates.last();
        if forall|j: int| 0 <= j < before.len() ==> !room.spec_too_close(&#[trigger] before[j]) {
            before.push(room)
        } else {
            before
        }
    }
}

/// What a dungeon of `cx` by `cy` corridors drawn from `body` shows of
/// `rooms`: each lies on the lattice, every square of every room is open,
/// and no open square outside the rooms has fewer than two open neighbours.
pub open spec fn shows_rooms(cx: int, cy: int, rooms: Seq<Room>, body: Seq<Step>) -> bool {
    let w = 2 * cx + 1;
    let h = 2 * cy + 1;
    let cells = after_steps(all_walls(w * h), w, body);
    &&& forall|k: int| 0 <= k < rooms.len() ==> (#[trigger] rooms[k]).lies_in(cx, cy)
    &&& forall|x: int, y: int| #[trigger] in_rooms(rooms, x, y) ==> open_in(cells, w, h, (x as usize, y as usize))
    &&& forall|p: (usize, usize)|
        #[trigger] open_in(cells, w, h, p) && !in_rooms(rooms, p.0 as int, p.1 as int) ==> open_count(
            cells,
            w,
            neighbours_spec(p.0, p.1, w as usize, h as usize),
        ) >= 2
}

/// Random rectangles of two to four corridors a side, kept only when they
/// don't come too close to an earlier one. The number of attempts scales
/// with the area: one per four corridors.
pub fn place_rooms(corridors_x: usize, corridors_y: usize, rng: &mut StdRng) -> (rooms: Vec<Room>)
    requires
        fits(corridors_x as int, corridors_y as int),
        corridors_x * corridors_y < 4 || (corridors_x >= 2 && corridors_y >= 2),
    ensures
        rooms@.len() <= corridors_x * corridors_y / 4,
        forall|k: int|
            0 <= k < rooms@.len() ==> (#[trigger] rooms@[k]).lies_in(corridors_x as int, corridors_y as int)
                && 2 <= rooms@[k].width <= 4 && 2 <= rooms@[k].height <= 4,
        forall|k1: int, k2: int|
            #![trigger rooms@[k1], rooms@[k2]]
            0 <= k1 < rooms@.len() && 0 <= k2 < rooms@.len() && k1 != k2 ==> !rooms@[k1].spec_too_close(&rooms@[k2]),
        exists|candidates: Seq<Room>|
            {
                &&& candidates.len() == corridors_x * corridors_y / 4
                &&& forall|k: int|
                    0 <= k < candidates.len() ==> room_candidate(
                        #[trigger] candidates[k],
                        corridors_x as int,
                        corridors_y as int,
                    )
                &&& rooms@ == kept_apart(candidates)
            },
{
    proof {
        lemma_fits_sides(corridors_x as int, corridors_y as int);
    }
    let shorter = if corridors_x < corridors_y { corridors_x } else { corridors_y };
    let half = shorter / 2;
    let max_side: usize = if half < 2 { 2 } else if half > 4 { 4 } else { half };
    let attempts = corridors_x * corridors_y / 4;
    let mut rooms: Vec<Room> = Vec::new();
    let ghost mut candidates: Seq<Room> = Seq::empty();
    proof {
        assert(rooms@ == kept_apart(candidates));
    }
    let mut attempt: usize = 0;
    while attempt < attempts
        invariant
            max_side == side_limit(corridors_x as int, corridors_y as int),
            candidates.len() == attempt,
            forall|k: int|
                0 <= k < candidates.len() ==> room_candidate(
                    #[trigger] candidates[k],
                    corridors_x as int,
                    corridors_y as int,
                ),
            rooms@ == kept_apart(candidates),
            fits(corridors_x as int, corridors_y as int),
            2 * corridors_x + 1 <= usize::MAX,
            2 * corridors_y + 1 <= usize::MAX,
            attempts == corridors_x * corridors_y / 4,
            attempts > 0 ==> corridors_x >= 2 && corridors_y >= 2,
            2 <= max_side <= 4,
            corridors_x >= 2 && corridors_y >= 2 ==> max_side <= corridors_x && max_side <= corridors_y,
            attempt <= attempts,
            rooms@.len() <= attempt,
            forall|k: int|
                0 <= k < rooms@.len() ==> (#[trigger] rooms@[k]).lies_in(corridors_x as int, corridors_y as int)
                    && 2 <= rooms@[k].width <= 4 && 2 <= rooms@[k].height <= 4,
            forall|k1: int, k2: int|
                #![trigger rooms@[k1], rooms@[k2]]
                0 <= k1 < rooms@.len() && 0 <= k2 < rooms@.len() && k1 != k2 ==> !rooms@[k1].spec_too_close(&rooms@[k2]),
        decreases attempts - attempt,
    {
        let width = random_range(rng, 2, max_side + 1);
        let height = random_range(rng, 2, max_side + 1);
        let x = random_range(rng, 0, corridors_x - width + 1);
        let y = random_range(rng, 0, corridors_y - height + 1);
        let room = Room { x, y, width, height };
        proof {
            lemma_lies_in_small(room, corridors_x as int, corridors_y as int);
        }
        let mut apart = true;
        let mut k: usize = 0;
        while apart && k < rooms.len()
            invariant
                room.small(),
                fits(corridors_x as int, corridors_y as int),
                k <= rooms@.len(),
                forall|j: int| 0 <= j < rooms@.len() ==> (#[trigger] rooms@[j]).lies_in(corridors_x as int, corridors_y as int),
                apart == forall|j: int| 0 <= j < k ==> !room.spec_too_close(&#[trigger] rooms@[j]),
            decreases rooms@.len() - k,
        {
            proof {
                lemma_lies_in_small(rooms@[k as int], corridors_x as int, corridors_y as int);
            }
            if room.too_close(&rooms[k]) {
                apart = false;
            }
            k = k + 1;
        }
        let ghost earlier = candidates;
        proof {
            candidates = candidates.push(room);
            assert(candidates.drop_last() =~= earlier);
            assert(candidates.last() == room);
            assert(apart == forall|j: int| 0 <= j < rooms@.len() ==> !room.spec_too_close(&#[trigger] rooms@[j]));
            assert forall|j: int| 0 <= j < candidates.len() implies room_candidate(
                #[trigger] candidates[j],
                corridors_x as int,
                corridors_y as int,
            ) by {
                if j < earlier.len() {
                    assert(candidates[j] == earlier[j]);
                }
            }
        }
        if apart {
            let ghost before = rooms@;
            rooms.push(room);
            proof {
                assert forall|k1: int, k2: int|
                    #![trigger rooms@[k1], rooms@[k2]]
                    0 <= k1 < rooms@.len() && 0 <= k2 < rooms@.len() && k1 != k2 implies !rooms@[k1].spec_too_close(
                    &rooms@[k2],
                ) by {
                    if k1 < before.len() && k2 < before.len() {
                        assert(rooms@[k1] == before[k1] && rooms@[k2] == before[k2]);
                    } else if k1 < before.len() {
                        assert(!room.spec_too_close(&before[k1]));
                    } else {
                        assert(!room.spec_too_close(&before[k2]));
                    }
                }
            }
        }
        attempt = attempt + 1;
    }
    rooms
}


/// The label of a wall square: it belongs to no region.
pub const NO_REGION: usize = usize::MAX;

/// Which squares carry a label.
pub open spec fn labelled(regions: Seq<usize>) -> Seq<bool> {
    regions.map_values(|r: usize| r != NO_REGION)
}

/// Every walkable square next to `p` carries `p`'s label.
pub open spec fn settled(grid: &Grid, regions: Seq<usize>, p: (usize, usize)) -> bool {
    forall|q: (usize, usize)|
        grid.inside(q) && grid.open_at(q) && adjacent(p, q) ==> #[trigger] regions[grid.idx(q)] == regions[grid.idx(
            p,
        )]
}

/// Some walkable square carries label `l`.
pub open spec fn label_used(grid: &Grid, regions: Seq<usize>, l: usize) -> bool {
    exists|p: (usize, usize)| grid.inside(p) && grid.open_at(p) && #[trigger] regions[grid.idx(p)] == l
}

/// Labels given so far: `seeds[l]` is a walkable square labelled `l`, and
/// every labelled square is walkable, with a label below the number of
/// seeds, and reachable from its label's seed.
pub open spec fn labels_so_far(grid: &Grid, regions: Seq<usize>, seeds: Seq<(usize, usize)>) -> bool {
    &&& regions.len() == grid.spec_width() * grid.spec_height()
    &&& forall|l: int|
        0 <= l < seeds.len() ==> grid.inside(#[trigger] seeds[l]) && grid.open_at(seeds[l])
            && regions[grid.idx(seeds[l])] == l
    &&& forall|p: (usize, usize)|
        grid.inside(p) && #[trigger] regions[grid.idx(p)] != NO_REGION ==> {
            &&& grid.open_at(p)
            &&& regions[grid.idx(p)] < seeds.len()
            &&& grid.reachable(seeds[regions[grid.idx(p)] as int], p)
        }
}

/// Along a route from a labelled square where every labelled square is
/// settled, the label never changes.
proof fn lemma_route_keeps_label(grid: &Grid, regions: Seq<usize>, path: Seq<(usize, usize)>)
    requires
        grid.wf(),
        regions.len() == grid.spec_width() * grid.spec_height(),
        grid.is_route(path),
        regions[grid.idx(path[0])] != NO_REGION,
        forall|p: (usize, usize)|
            grid.inside(p) && #[trigger] regions[grid.idx(p)] != NO_REGION ==> settled(grid, regions, p),
    ensures
        regions[grid.idx(path.last())] == regions[grid.idx(path[0])],
    decreases path.len(),
{
    if path.len() > 1 {
        let shorter = path.drop_last();
        assert forall|i: int| 0 <= i < shorter.len() implies grid.inside(#[trigger] shorter[i]) by {
            assert(shorter[i] == path[i]);
        }
        assert forall|i: int| 1 <= i < shorter.len() implies grid.open_at(#[trigger] shorter[i]) by {
            assert(shorter[i] == path[i]);
        }
        assert forall|i: int| 0 <= i < shorter.len() - 1 implies adjacent(#[trigger] shorter[i], shorter[i + 1]) by {
            assert(shorter[i] == path[i] && shorter[i + 1] == path[i + 1]);
        }
        lemma_route_keeps_label(grid, regions, shorter);
        let m = path[path.len() - 2];
        assert(shorter.last() == m);
        assert(grid.inside(m));
        assert(settled(grid, regions, m));
        assert(adjacent(path[path.len() - 2], path[path.len() - 2 + 1]));
        assert(grid.inside(path.last()) && grid.open_at(path.last()));
    }
}

/// Labelling a walkable square with a new label, for which it is the seed.
proof fn lemma_label_seed(
    grid: &Grid,
    fresh: Seq<usize>,
    regions: Seq<usize>,
    seeds: Seq<(usize, usize)>,
    s: (usize, usize),
)
    requires
        grid.wf(),
        seeds.len() >= 1,
        seeds.last() == s,
        labels_so_far(grid, fresh, seeds.drop_last()),
        grid.inside(s),
        grid.open_at(s),
        fresh[grid.idx(s)] == NO_REGION,
        seeds.len() - 1 < NO_REGION,
        regions == fresh.update(grid.idx(s), (seeds.len() - 1) as usize),
    ensures
        labels_so_far(grid, regions, seeds),
{
    let w = grid.spec_width();
    let h = grid.spec_height();
    let old_seeds = seeds.drop_last();
    lemma_square_index(w, h, s.0 as int, s.1 as int);
    assert(grid.is_route(seq![s]));
    assert(grid.reachable(s, s)) by {
        assert(seq![s][0] == s && seq![s].last() == s);
    }
    assert forall|l: int| 0 <= l < seeds.len() implies grid.inside(#[trigger] seeds[l]) && grid.open_at(seeds[l])
        && regions[grid.idx(seeds[l])] == l by {
        if l < old_seeds.len() {
            assert(seeds[l] == old_seeds[l]);
            lemma_square_index(w, h, seeds[l].0 as int, seeds[l].1 as int);
            if grid.idx(seeds[l]) == grid.idx(s) {
                assert(fresh[grid.idx(seeds[l])] == l);
            } else {
                assert(regions[grid.idx(seeds[l])] == fresh[grid.idx(seeds[l])]);
            }
        }
    }
    assert forall|p: (usize, usize)| grid.inside(p) && #[trigger] regions[grid.idx(p)] != NO_REGION implies {
        &&& grid.open_at(p)
        &&& regions[grid.idx(p)] < seeds.len()
        &&& grid.reachable(seeds[regions[grid.idx(p)] as int], p)
    } by {
        lemma_square_index(w, h, p.0 as int, p.1 as int);
        if grid.idx(p) == grid.idx(s) {
            crate::maze::grid::lemma_square_index_injective(w, p.0 as int, p.1 as int, s.0 as int, s.1 as int);
        } else {
            assert(fresh[grid.idx(p)] != NO_REGION);
            assert(old_seeds[fresh[grid.idx(p)] as int] == seeds[fresh[grid.idx(p)] as int]);
        }
    }
}

/// Labelling one more walkable square, reachable from the seed of the
/// label it gets.
proof fn lemma_label_more(
    grid: &Grid,
    prior: Seq<usize>,
    regions: Seq<usize>,
    seeds: Seq<(usize, usize)>,
    q: (usize, usize),
    label: usize,
)
    requires
        grid.wf(),
        labels_so_far(grid, prior, seeds),
        label < seeds.len(),
        seeds.len() <= NO_REGION,
        grid.inside(q),
        grid.open_at(q),
        prior[grid.idx(q)] == NO_REGION,
        grid.reachable(seeds[label as int], q),
        regions == prior.update(grid.idx(q), label),
    ensures
        labels_so_far(grid, regions, seeds),
{
    let w = grid.spec_width();
    let h = grid.spec_height();
    lemma_square_index(w, h, q.0 as int, q.1 as int);
    assert forall|l: int| 0 <= l < seeds.len() implies grid.inside(#[trigger] seeds[l]) && grid.open_at(seeds[l])
        && regions[grid.idx(seeds[l])] == l by {
        lemma_square_index(w, h, seeds[l].0 as int, seeds[l].1 as int);
        if grid.idx(seeds[l]) == grid.idx(q) {
            assert(prior[grid.idx(seeds[l])] == l);
        } else {
            assert(regions[grid.idx(seeds[l])] == prior[grid.idx(seeds[l])]);
        }
    }
    assert forall|p: (usize, usize)| grid.inside(p) && #[trigger] regions[grid.idx(p)] != NO_REGION implies {
        &&& grid.open_at(p)
        &&& regions[grid.idx(p)] < seeds.len()
        &&& grid.reachable(seeds[regions[grid.idx(p)] as int], p)
    } by {
        lemma_square_index(w, h, p.0 as int, p.1 as int);
        if grid.idx(p) == grid.idx(q) {
            crate::maze::grid::lemma_square_index_injective(w, p.0 as int, p.1 as int, q.0 as int, q.1 as int);
        } else {
            assert(prior[grid.idx(p)] != NO_REGION);
        }
    }
}

/// After a square taken off the stack has had its walkable neighbours
/// labelled, every labelled square off the stack is settled again.
proof fn lemma_after_flood_step(
    grid: &Grid,
    before: Seq<usize>,
    regions: Seq<usize>,
    with_top: Seq<(usize, usize)>,
    below: Seq<(usize, usize)>,
    stack: Seq<(usize, usize)>,
    p: (usize, usize),
    label: usize,
)
    requires
        grid.wf(),
        before.len() == grid.spec_width() * grid.spec_height(),
        regions.len() == before.len(),
        with_top == below.push(p),
        grid.inside(p),
        grid.open_at(p),
        label != NO_REGION,
        before[grid.idx(p)] == label,
        forall|k: int| 0 <= k < with_top.len() ==> before[grid.idx(#[trigger] with_top[k])] == label,
        forall|r: (usize, usize)|
            grid.inside(r) && #[trigger] before[grid.idx(r)] != NO_REGION && !with_top.contains(r) ==> settled(
                grid,
                before,
                r,
            ),
        forall|k: int| 0 <= k < stack.len() ==> regions[grid.idx(#[trigger] stack[k])] == label,
        stack.len() >= below.len(),
        stack.subrange(0, below.len() as int) == below,
        forall|i: int| 0 <= i < before.len() && before[i] != NO_REGION ==> #[trigger] regions[i] == before[i],
        forall|r: (usize, usize)|
            grid.inside(r) && #[trigger] regions[grid.idx(r)] != before[grid.idx(r)] ==> stack.contains(r),
        forall|q: (usize, usize)|
            grid.inside(q) && grid.open_at(q) && adjacent(p, q) ==> #[trigger] regions[grid.idx(q)] != NO_REGION,
    ensures
        forall|r: (usize, usize)|
            grid.inside(r) && #[trigger] regions[grid.idx(r)] != NO_REGION && !stack.contains(r) ==> settled(
                grid,
                regions,
                r,
            ),
{
    let w = grid.spec_width();
    let h = grid.spec_height();
    lemma_square_index(w, h, p.0 as int, p.1 as int);
    assert forall|r: (usize, usize)|
        grid.inside(r) && #[trigger] regions[grid.idx(r)] != NO_REGION && !stack.contains(r) implies settled(
        grid,
        regions,
        r,
    ) by {
        lemma_square_index(w, h, r.0 as int, r.1 as int);
        assert(regions[grid.idx(r)] == before[grid.idx(r)]);
        assert(!below.contains(r)) by {
            if below.contains(r) {
                let j = choose|j: int| 0 <= j < below.len() && below[j] == r;
                assert(stack[j] == stack.subrange(0, below.len() as int)[j]);
            }
        }
        if r == p {
            assert forall|q: (usize, usize)|
                grid.inside(q) && grid.open_at(q) && adjacent(r, q) implies #[trigger] regions[grid.idx(q)]
                == regions[grid.idx(r)] by {
                lemma_square_index(w, h, q.0 as int, q.1 as int);
                if regions[grid.idx(q)] != before[grid.idx(q)] {
                    let j = choose|j: int| 0 <= j < stack.len() && stack[j] == q;
                    assert(regions[grid.idx(stack[j])] == label);
                } else if with_top.contains(q) {
                    let j = choose|j: int| 0 <= j < with_top.len() && with_top[j] == q;
                    assert(before[grid.idx(with_top[j])] == label);
                } else {
                    assert(settled(grid, before, q));
                    assert(adjacent(q, p));
                    assert(before[grid.idx(p)] == before[grid.idx(q)]);
                }
            }
        } else {
            assert(!with_top.contains(r)) by {
                if with_top.contains(r) {
                    let j = choose|j: int| 0 <= j < with_top.len() && with_top[j] == r;
                    if j < below.len() {
                        assert(below[j] == r);
                    }
                }
            }
            assert(settled(grid, before, r));
            assert forall|q: (usize, usize)|
                grid.inside(q) && grid.open_at(q) && adjacent(r, q) implies #[trigger] regions[grid.idx(q)]
                == regions[grid.idx(r)] by {
                lemma_square_index(w, h, q.0 as int, q.1 as int);
                assert(before[grid.idx(q)] == before[grid.idx(r)]);
            }
        }
    }
}

/// Labels every walkable square with the number of its connected region:
/// two walkable squares share a label exactly when one can be reached from
/// the other, walls carry `NO_REGION`, and the labels used are 0 up to the
/// count returned.
#[verifier::rlimit(50)]
#[verifier::spinoff_prover]
pub fn label_regions(grid: &Grid) -> (r: (Vec<usize>, usize))
    requires
        grid.wf(),
    ensures
        r.0@.len() == grid.spec_width() * grid.spec_height(),
        r.1 <= tally(grid, grid.spec_width() * grid.spec_height(), walkable_at(grid)),
        forall|p: (usize, usize)|
            grid.inside(p) ==> (#[trigger] r.0@[grid.idx(p)] == NO_REGION <==> !grid.open_at(p)),
        forall|p: (usize, usize)| grid.inside(p) && grid.open_at(p) ==> #[trigger] r.0@[grid.idx(p)] < r.1,
        forall|l: usize| l < r.1 ==> #[trigger] label_used(grid, r.0@, l),
        forall|p: (usize, usize), q: (usize, usize)|
            grid.inside(p) && grid.open_at(p) && grid.inside(q) && grid.open_at(q) ==> (#[trigger] r.0@[grid.idx(p)]
                == #[trigger] r.0@[grid.idx(q)] <==> grid.reachable(p, q)),
{
    let w = grid.width();
    let h = grid.height();
    let ghost n = w * h;
    let mut regions: Vec<usize> = vec![NO_REGION; w * h];
    let mut count: usize = 0;
    let ghost mut seeds: Seq<(usize, usize)> = Seq::empty();
    proof {
        assert forall|p: (usize, usize)| grid.inside(p) implies #[trigger] regions@[grid.idx(p)] == NO_REGION by {
            lemma_square_index(w as int, h as int, p.0 as int, p.1 as int);
        }
    }
    let mut y: usize = 0;
    while y < h
        invariant
            grid.wf(),
            w == grid.spec_width(),
            h == grid.spec_height(),
            n == w * h,
            y <= h,
            labels_so_far(grid, regions@, seeds),
            seeds.len() == count,
            count <= y * w,
            count <= tally(grid, y * w, walkable_at(grid)),
            forall|p: (usize, usize)|
                grid.inside(p) && #[trigger] regions@[grid.idx(p)] != NO_REGION ==> settled(grid, regions@, p),
            forall|p: (usize, usize)|
                grid.inside(p) && grid.open_at(p) && p.1 < y ==> #[trigger] regions@[grid.idx(p)] != NO_REGION,
        decreases h - y,
    {
        let mut x: usize = 0;
        while x < w
            invariant
                grid.wf(),
                w == grid.spec_width(),
                h == grid.spec_height(),
                n == w * h,
                y < h,
                x <= w,
                labels_so_far(grid, regions@, seeds),
                seeds.len() == count,
                count <= y * w + x,
                count <= tally(grid, y * w + x, walkable_at(grid)),
                forall|p: (usize, usize)|
                    grid.inside(p) && #[trigger] regions@[grid.idx(p)] != NO_REGION ==> settled(grid, regions@, p),
                forall|p: (usize, usize)|
                    grid.inside(p) && grid.open_at(p) && (p.1 < y || (p.1 == y && p.0 < x))
                        ==> #[trigger] regions@[grid.idx(p)] != NO_REGION,
            decreases w - x,
        {
            proof {
                lemma_square_index(w as int, h as int, x as int, y as int);
            }
            let here = y * w + x;
            proof {
                assert(decode(w as int, y * w + x) == (x, y));
                assert(tally(grid, y * w + x + 1, walkable_at(grid)) == tally(grid, y * w + x, walkable_at(grid))
                    + walkable_at(grid)((x, y)));
            }
            if !grid.walkable(x, y) || regions[here] != NO_REGION {
                x = x + 1;
                continue;
            }
            let ghost fresh = regions@;
            regions.set(here, count);
            proof {
                seeds = seeds.push((x, y));
                lemma_label_seed(grid, fresh, regions@, seeds, (x, y));
            }
            let mut stack: Vec<(usize, usize)> = Vec::new();
            stack.push((x, y));
            proof {
                assert forall|p: (usize, usize)|
                    grid.inside(p) && #[trigger] regions@[grid.idx(p)] != NO_REGION && !stack@.contains(p) implies settled(
                    grid,
                    regions@,
                    p,
                ) by {
                    assert(p != (x, y)) by {
                        if p == (x, y) {
                            assert(stack@[0] == p);
                        }
                    }
                    lemma_square_index(w as int, h as int, p.0 as int, p.1 as int);
                    if grid.idx(p) == here as int {
                        crate::maze::grid::lemma_square_index_injective(w as int, p.0 as int, p.1 as int, x as int, y as int);
                    }
                    assert(fresh[grid.idx(p)] != NO_REGION);
                    assert(settled(grid, fresh, p));
                    assert forall|q: (usize, usize)|
                        grid.inside(q) && grid.open_at(q) && adjacent(p, q) implies #[trigger] regions@[grid.idx(q)]
                        == regions@[grid.idx(p)] by {
                        lemma_square_index(w as int, h as int, q.0 as int, q.1 as int);
                        assert(fresh[grid.idx(q)] == fresh[grid.idx(p)]);
                        if q == (x, y) {
                            assert(false);
                        }
                        if grid.idx(q) == here as int {
                            crate::maze::grid::lemma_square_index_injective(w as int, q.0 as int, q.1 as int, x as int, y as int);
                        }
                    }
                }
                assert forall|p: (usize, usize)|
                    grid.inside(p) && grid.open_at(p) && (p.1 < y || (p.1 == y && p.0 < x))
                        implies #[trigger] regions@[grid.idx(p)] != NO_REGION by {
                    lemma_square_index(w as int, h as int, p.0 as int, p.1 as int);
                    assert(fresh[grid.idx(p)] != NO_REGION);
                }
                assert(labelled(regions@) =~= labelled(fresh).update(here as int, true));
                lemma_count_set(labelled(fresh), here as int);
                lemma_count_bound(labelled(regions@));
            }
            while stack.len() > 0
                invariant
                    grid.wf(),
                    w == grid.spec_width(),
                    h == grid.spec_height(),
                    n == w * h,
                    y < h,
                    x < w,
                    labels_so_far(grid, regions@, seeds),
                    seeds.len() == count + 1,
                    count <= y * w + x,
                    y * w + x < n,
                    n <= usize::MAX,
                    regions@[(y * w + x) as int] != NO_REGION,
                    forall|k: int|
                        0 <= k < stack@.len() ==> grid.inside(#[trigger] stack@[k]) && regions@[grid.idx(stack@[k])]
                            == count,
                    forall|p: (usize, usize)|
                        grid.inside(p) && #[trigger] regions@[grid.idx(p)] != NO_REGION && !stack@.contains(p)
                            ==> settled(grid, regions@, p),
                    forall|p: (usize, usize)|
                        grid.inside(p) && grid.open_at(p) && (p.1 < y || (p.1 == y && p.0 < x))
                            ==> #[trigger] regions@[grid.idx(p)] != NO_REGION,
                decreases 2 * (n - count_true(labelled(regions@))) + stack@.len(),
            {
                proof {
                    lemma_count_bound(labelled(regions@));
                }
                let ghost with_top = stack@;
                let (cx, cy) = stack.pop().unwrap();
                let ghost below = stack@;
                let ghost before = regions@;
                proof {
                    assert(with_top == below.push((cx, cy)));
                    assert(grid.inside(with_top[with_top.len() - 1]));
                    lemma_square_index(w as int, h as int, cx as int, cy as int);
                    lemma_neighbours(cx, cy, w, h);
                }
                let nbrs = neighbours(cx, cy, w, h);
                let ghost budget = 2 * (n - count_true(labelled(regions@))) + stack@.len();
                let mut k: usize = 0;
                while k < nbrs.len()
                    invariant
                        grid.wf(),
                        w == grid.spec_width(),
                        h == grid.spec_height(),
                        n == w * h,
                        n <= usize::MAX,
                        count < usize::MAX,
                        labels_so_far(grid, regions@, seeds),
                        seeds.len() == count + 1,
                        grid.inside((cx, cy)),
                        regions@[grid.idx((cx, cy))] == count,
                        nbrs@ == crate::maze::grid::neighbours_spec(cx, cy, w, h),
                        k <= nbrs@.len(),
                        forall|j: int|
                            0 <= j < nbrs@.len() ==> adjacent((cx, cy), #[trigger] nbrs@[j]) && nbrs@[j].0 < w
                                && nbrs@[j].1 < h,
                        forall|j: int|
                            0 <= j < k && grid.open_at(#[trigger] nbrs@[j]) ==> regions@[grid.idx(nbrs@[j])] != NO_REGION,
                        stack@.len() >= below.len(),
                        stack@.subrange(0, below.len() as int) == below,
                        forall|k2: int|
                            0 <= k2 < stack@.len() ==> grid.inside(#[trigger] stack@[k2]) && regions@[grid.idx(
                                stack@[k2],
                            )] == count,
                        forall|i: int|
                            0 <= i < n && before[i] != NO_REGION ==> #[trigger] regions@[i] == before[i],
                        regions@.len() == n,
                        forall|p: (usize, usize)|
                            grid.inside(p) && #[trigger] regions@[grid.idx(p)] != before[grid.idx(p)] ==> stack@.contains(p),
                        2 * (n - count_true(labelled(regions@))) + stack@.len() <= budget,
                        count_true(labelled(regions@)) <= n,
                    decreases nbrs@.len() - k,
                {
                    let (nx, ny) = nbrs[k];
                    proof {
                        assert(adjacent((cx, cy), nbrs@[k as int]));
                        lemma_square_index(w as int, h as int, nx as int, ny as int);
                        lemma_square_index(w as int, h as int, cx as int, cy as int);
                        assert forall|j: int| 0 <= j < nbrs@.len() implies 0 <= #[trigger] grid.idx(nbrs@[j]) < n by {
                            lemma_square_index(w as int, h as int, nbrs@[j].0 as int, nbrs@[j].1 as int);
                        }
                    }
                    let there = ny * w + nx;
                    if grid.walkable(nx, ny) && regions[there] == NO_REGION {
                        let ghost prior = regions@;
                        let ghost prior_stack = stack@;
                        regions.set(there, count);
                        stack.push((nx, ny));
                        proof {
                            assert(labelled(regions@) =~= labelled(prior).update(there as int, true));
                            lemma_count_set(labelled(prior), there as int);
                            lemma_count_bound(labelled(regions@));
                            grid.lemma_reach_step(seeds[count as int], (cx, cy), (nx, ny));
                            lemma_label_more(grid, prior, regions@, seeds, (nx, ny), count);
                            assert(stack@.subrange(0, below.len() as int) =~= prior_stack.subrange(0, below.len() as int));
                            assert forall|k2: int| 0 <= k2 < stack@.len() implies grid.inside(#[trigger] stack@[k2])
                                && regions@[grid.idx(stack@[k2])] == count by {
                                if k2 < prior_stack.len() {
                                    assert(stack@[k2] == prior_stack[k2]);
                                    lemma_square_index(w as int, h as int, stack@[k2].0 as int, stack@[k2].1 as int);
                                    if grid.idx(stack@[k2]) == there {
                                    } else {
                                        assert(regions@[grid.idx(stack@[k2])] == prior[grid.idx(stack@[k2])]);
                                    }
                                }
                            }
                            assert forall|p: (usize, usize)|
                                grid.inside(p) && #[trigger] regions@[grid.idx(p)] != before[grid.idx(p)] implies stack@.contains(p) by {
                                lemma_square_index(w as int, h as int, p.0 as int, p.1 as int);
                                if grid.idx(p) == there {
                                    crate::maze::grid::lemma_square_index_injective(w as int, p.0 as int, p.1 as int, nx as int, ny as int);
                                    assert(stack@[stack@.len() - 1] == p);
                                } else {
                                    assert(regions@[grid.idx(p)] == prior[grid.idx(p)]);
                                    assert(prior_stack.contains(p));
                                    let j = choose|j: int| 0 <= j < prior_stack.len() && prior_stack[j] == p;
                                    assert(stack@[j] == p);
                                }
                            }
                        }
                    }
                    k = k + 1;
                }
                proof {
                    assert forall|q: (usize, usize)|
                        grid.inside(q) && grid.open_at(q) && adjacent((cx, cy), q) implies #[trigger] regions@[grid.idx(
                        q,
                    )] != NO_REGION by {
                        assert(nbrs@.contains(q));
                        let j = choose|j: int| 0 <= j < nbrs@.len() && nbrs@[j] == q;
                        assert(grid.open_at(nbrs@[j]));
                    }
                    assert forall|k2: int| 0 <= k2 < with_top.len() implies before[grid.idx(#[trigger] with_top[k2])]
                        == count by {
                    }
                    assert forall|k2: int| 0 <= k2 < stack@.len() implies regions@[grid.idx(#[trigger] stack@[k2])]
                        == count by {
                    }
                    lemma_after_flood_step(grid, before, regions@, with_top, below, stack@, (cx, cy), count);
                }
            }
            proof {
                assert forall|p: (usize, usize)|
                    grid.inside(p) && #[trigger] regions@[grid.idx(p)] != NO_REGION implies settled(grid, regions@, p) by {
                    assert(!stack@.contains(p));
                }
                assert forall|p: (usize, usize)|
                    grid.inside(p) && grid.open_at(p) && (p.1 < y || (p.1 == y && p.0 < x + 1))
                        implies #[trigger] regions@[grid.idx(p)] != NO_REGION by {
                    if p.1 == y && p.0 == x {
                    }
                }
            }
            count = count + 1;
            x = x + 1;
        }
        assert((y + 1) * w == y * w + w) by (nonlinear_arith);
        y = y + 1;
    }
    proof {
        assert(h * w == w * h) by (nonlinear_arith);
        assert forall|p: (usize, usize), q: (usize, usize)|
            grid.inside(p) && grid.open_at(p) && grid.inside(q) && grid.open_at(q) implies (#[trigger] regions@[grid.idx(
                p,
            )] == #[trigger] regions@[grid.idx(q)] <==> grid.reachable(p, q)) by {
            if regions@[grid.idx(p)] == regions@[grid.idx(q)] {
                let l = regions@[grid.idx(p)] as int;
                grid.lemma_reach_through(seeds[l], p, q);
            }
            if grid.reachable(p, q) {
                let path = choose|path: Seq<(usize, usize)>| grid.is_route(path) && path[0] == p && path.last() == q;
                lemma_route_keeps_label(grid, regions@, path);
            }
        }
        assert forall|l: usize| l < count implies #[trigger] label_used(grid, regions@, l) by {
            assert(grid.inside(seeds[l as int]));
        }
    }
    (regions, count)
}


/// A wall square, the two regions it separates.
pub type Connector = ((usize, usize), usize, usize);

/// The squares on either side of `d`: left and right when `across_row`,
/// above and below otherwise.
pub open spec fn opposite(d: (usize, usize), across_row: bool) -> ((usize, usize), (usize, usize)) {
    if across_row {
        (((d.0 - 1) as usize, d.1), ((d.0 + 1) as usize, d.1))
    } else {
        ((d.0, (d.1 - 1) as usize), (d.0, (d.1 + 1) as usize))
    }
}

/// Not on the outer border.
pub open spec fn interior(grid: &Grid, d: (usize, usize)) -> bool {
    1 <= d.0 && d.0 + 1 < grid.spec_width() && 1 <= d.1 && d.1 + 1 < grid.spec_height()
}

/// The squares on either side of `c`'s wall carry `c`'s two labels.
pub open spec fn labels_across(grid: &Grid, regions: Seq<usize>, c: Connector, across_row: bool) -> bool {
    &&& regions[grid.idx(opposite(c.0, across_row).0)] == c.1
    &&& regions[grid.idx(opposite(c.0, across_row).1)] == c.2
}

/// `c` is an inner wall square with squares of two different regions on
/// opposite sides of it.
pub open spec fn is_connector(grid: &Grid, regions: Seq<usize>, c: Connector) -> bool {
    &&& interior(grid, c.0)
    &&& !grid.open_at(c.0)
    &&& c.1 != NO_REGION
    &&& c.2 != NO_REGION
    &&& c.1 != c.2
    &&& exists|o: bool| #[trigger] labels_across(grid, regions, c, o)
}

/// The connector wall square `d` would give, seen across a row or a column.
pub open spec fn candidate(grid: &Grid, regions: Seq<usize>, d: (usize, usize), across_row: bool) -> Connector {
    (d, regions[grid.idx(opposite(d, across_row).0)], regions[grid.idx(opposite(d, across_row).1)])
}

/// The squares on either side of `d` are walkable and cannot reach each
/// other.
pub open spec fn separates(grid: &Grid, d: (usize, usize), across_row: bool) -> bool {
    &&& grid.open_at(opposite(d, across_row).0)
    &&& grid.open_at(opposite(d, across_row).1)
    &&& !grid.reachable(opposite(d, across_row).0, opposite(d, across_row).1)
}

/// The step opens a door in an inner wall of `grid` that separates two
/// regions.
pub open spec fn opens_door(grid: &Grid, step: Step) -> bool {
    &&& step.cell == Cell::Door
    &&& interior(grid, (step.x, step.y))
    &&& !grid.open_at((step.x, step.y))
    &&& exists|o: bool| #[trigger] separates(grid, (step.x, step.y), o)
}

/// Walkable squares on either side of an inner wall of `before` reach
/// each other in `after`.
pub open spec fn bridged(before: &Grid, after: &Grid, d: (usize, usize), across_row: bool) -> bool {
    interior(before, d) && !before.open_at(d) && before.open_at(opposite(d, across_row).0) && before.open_at(
        opposite(d, across_row).1,
    ) ==> after.reachable(opposite(d, across_row).0, opposite(d, across_row).1)
}

/// What `label_regions` promises of `regions` and `count` on `grid`.
pub open spec fn regions_of(grid: &Grid, regions: Seq<usize>, count: usize) -> bool {
    &&& regions.len() == grid.spec_width() * grid.spec_height()
    &&& forall|p: (usize, usize)|
        grid.inside(p) ==> (#[trigger] regions[grid.idx(p)] == NO_REGION <==> !grid.open_at(p))
    &&& forall|p: (usize, usize)| grid.inside(p) && grid.open_at(p) ==> #[trigger] regions[grid.idx(p)] < count
    &&& forall|p: (usize, usize), q: (usize, usize)|
        grid.inside(p) && grid.open_at(p) && grid.inside(q) && grid.open_at(q) ==> (#[trigger] regions[grid.idx(p)]
            == #[trigger] regions[grid.idx(q)] <==> grid.reachable(p, q))
}

/// The group a walkable square's region belongs to.
pub open spec fn group_of(grid: &Grid, regions: Seq<usize>, reps: Seq<usize>, u: (usize, usize)) -> usize {
    reps[regions[grid.idx(u)] as int]
}

/// Squares whose regions are in one group reach each other in `now`.
pub open spec fn groups_connected(start: &Grid, now: &Grid, regions: Seq<usize>, reps: Seq<usize>) -> bool {
    forall|u: (usize, usize), v: (usize, usize)|
        start.inside(u) && start.open_at(u) && start.inside(v) && start.open_at(v) && #[trigger] group_of(
            start,
            regions,
            reps,
            u,
        ) == #[trigger] group_of(start, regions, reps, v) ==> now.reachable(u, v)
}

/// Every inner wall square of `grid` with squares of two different regions
/// on opposite sides, each pairing once, row by row.
fn gather_connectors(grid: &Grid, regions: &Vec<usize>, count: usize) -> (out: Vec<Connector>)
    requires
        grid.wf(),
        regions_of(grid, regions@, count),
        grid.spec_height() >= 1,
        grid.spec_height() <= 2 || grid.spec_width() >= 1,
    ensures
        forall|k: int|
            0 <= k < out@.len() ==> is_connector(grid, regions@, #[trigger] out@[k]) && out@[k].1 < count
                && out@[k].2 < count,
        forall|d: (usize, usize), o: bool|
            is_connector(grid, regions@, #[trigger] candidate(grid, regions@, d, o)) ==> out@.contains(
                candidate(grid, regions@, d, o),
            ),
{
    let w = grid.width();
    let h = grid.height();
    let mut out: Vec<Connector> = Vec::new();
    let mut y: usize = 1;
    while y < h - 1
        invariant
            grid.wf(),
            regions_of(grid, regions@, count),
            w == grid.spec_width(),
            h == grid.spec_height(),
            h >= 1,
            h <= 2 || w >= 1,
            1 <= y,
            forall|k: int|
                0 <= k < out@.len() ==> is_connector(grid, regions@, #[trigger] out@[k]) && out@[k].1 < count
                    && out@[k].2 < count,
            forall|d: (usize, usize), o: bool|
                d.1 < y && is_connector(grid, regions@, #[trigger] candidate(grid, regions@, d, o)) ==> out@.contains(
                    candidate(grid, regions@, d, o),
                ),
        decreases h - y,
    {
        let mut x: usize = 1;
        while x < w - 1
            invariant
                grid.wf(),
                regions_of(grid, regions@, count),
                w == grid.spec_width(),
                h == grid.spec_height(),
                1 <= y < h - 1,
                w >= 1,
                1 <= x,
                forall|k: int|
                    0 <= k < out@.len() ==> is_connector(grid, regions@, #[trigger] out@[k]) && out@[k].1 < count
                        && out@[k].2 < count,
                forall|d: (usize, usize), o: bool|
                    (d.1 < y || (d.1 == y && d.0 < x)) && is_connector(
                        grid,
                        regions@,
                        #[trigger] candidate(grid, regions@, d, o),
                    ) ==> out@.contains(candidate(grid, regions@, d, o)),
            decreases w - x,
        {
            let ghost before = out@;
            if !grid.walkable(x, y) {
                push_if_connector(grid, regions, count, x, y, true, &mut out);
                let ghost middle = out@;
                push_if_connector(grid, regions, count, x, y, false, &mut out);
                proof {
                    assert forall|k: int|
                        0 <= k < out@.len() implies is_connector(grid, regions@, #[trigger] out@[k]) && out@[k].1 < count
                            && out@[k].2 < count by {
                        if k < middle.len() {
                            assert(out@[k] == middle[k]);
                            if k < before.len() {
                                assert(middle[k] == before[k]);
                            }
                        }
                    }
                    assert forall|d: (usize, usize), o2: bool|
                        (d.1 < y || (d.1 == y && d.0 < x + 1)) && is_connector(
                            grid,
                            regions@,
                            #[trigger] candidate(grid, regions@, d, o2),
                        ) implies out@.contains(candidate(grid, regions@, d, o2)) by {
                        if d.1 < y || (d.1 == y && d.0 < x) {
                            let j = choose|j: int| 0 <= j < before.len() && before[j] == candidate(grid, regions@, d, o2);
                            assert(middle[j] == before[j]);
                            assert(out@[j] == middle[j]);
                        } else if o2 {
                            assert(middle[middle.len() - 1] == candidate(grid, regions@, d, o2));
                            assert(out@[middle.len() - 1] == middle[middle.len() - 1]);
                        } else {
                            assert(out@[out@.len() - 1] == candidate(grid, regions@, d, o2));
                        }
                    }
                }
            } else {
                proof {
                    assert forall|d: (usize, usize), o2: bool|
                        (d.1 < y || (d.1 == y && d.0 < x + 1)) && is_connector(
                            grid,
                            regions@,
                            #[trigger] candidate(grid, regions@, d, o2),
                        ) implies out@.contains(candidate(grid, regions@, d, o2)) by {
                        if d.1 == y && d.0 == x {
                            assert(!grid.open_at(d));
                        }
                    }
                }
            }
            x = x + 1;
        }
        proof {
            assert forall|d: (usize, usize), o2: bool|
                d.1 < y + 1 && is_connector(grid, regions@, #[trigger] candidate(grid, regions@, d, o2))
                    implies out@.contains(candidate(grid, regions@, d, o2)) by {
                if d.1 == y {
                    assert(interior(grid, d));
                }
            }
        }
        y = y + 1;
    }
    proof {
        assert forall|d: (usize, usize), o2: bool|
            is_connector(grid, regions@, #[trigger] candidate(grid, regions@, d, o2)) implies out@.contains(
            candidate(grid, regions@, d, o2),
        ) by {
            assert(interior(grid, d));
        }
    }
    out
}

/// Appends the connector wall square (x, y) gives across a row or a
/// column, if it is one.
fn push_if_connector(
    grid: &Grid,
    regions: &Vec<usize>,
    count: usize,
    x: usize,
    y: usize,
    across_row: bool,
    out: &mut Vec<Connector>,
)
    requires
        grid.wf(),
        regions_of(grid, regions@, count),
        interior(grid, (x, y)),
        !grid.open_at((x, y)),
    ensures
        is_connector(grid, regions@, candidate(grid, regions@, (x, y), across_row)) ==> final(out)@ == old(
            out,
        )@.push(candidate(grid, regions@, (x, y), across_row)),
        !is_connector(grid, regions@, candidate(grid, regions@, (x, y), across_row)) ==> final(out)@ == old(out)@,
        is_connector(grid, regions@, candidate(grid, regions@, (x, y), across_row)) ==> candidate(
            grid,
            regions@,
            (x, y),
            across_row,
        ).1 < count && candidate(grid, regions@, (x, y), across_row).2 < count,
{
    let w = grid.width();
    let h = grid.height();
    let (ax, ay, bx, by) = if across_row {
        (x - 1, y, x + 1, y)
    } else {
        (x, y - 1, x, y + 1)
    };
    proof {
        lemma_square_index(w as int, h as int, ax as int, ay as int);
        lemma_square_index(w as int, h as int, bx as int, by as int);
        assert(opposite((x, y), across_row) == ((ax, ay), (bx, by)));
        assert(grid.inside((ax, ay)) && grid.inside((bx, by)));
    }
    let a = regions[ay * w + ax];
    let b = regions[by * w + bx];
    proof {
        assert(candidate(grid, regions@, (x, y), across_row) == ((x, y), a, b));
    }
    if a != NO_REGION && b != NO_REGION && a != b {
        out.push(((x, y), a, b));
        proof {
            assert(labels_across(grid, regions@, ((x, y), a, b), across_row));
        }
    }
}

/// The connectors whose two regions are not joined yet, in order.
fn keep_apart(list: &Vec<Connector>, sets: &mut DisjointSets) -> (out: Vec<Connector>)
    requires
        old(sets).wf(),
        forall|k: int| 0 <= k < list@.len() ==> (#[trigger] list@[k]).1 < old(sets)@.len() && list@[k].2 < old(sets)@.len(),
    ensures
        final(sets).wf(),
        final(sets)@ == old(sets)@,
        forall|k: int|
            0 <= k < out@.len() ==> list@.contains(#[trigger] out@[k]) && old(sets)@[out@[k].1 as int] != old(
                sets,
            )@[out@[k].2 as int],
        forall|j: int|
            0 <= j < list@.len() && old(sets)@[(#[trigger] list@[j]).1 as int] != old(sets)@[list@[j].2 as int]
                ==> out@.contains(list@[j]),
        out@.len() <= list@.len(),
        forall|j: int|
            0 <= j < list@.len() && old(sets)@[(#[trigger] list@[j]).1 as int] == old(sets)@[list@[j].2 as int]
                ==> out@.len() < list@.len(),
{
    let ghost reps = sets@;
    let mut out: Vec<Connector> = Vec::new();
    let ghost mut dropped = false;
    let mut k: usize = 0;
    while k < list.len()
        invariant
            sets.wf(),
            sets@ == reps,
            k <= list@.len(),
            forall|j: int| 0 <= j < list@.len() ==> (#[trigger] list@[j]).1 < reps.len() && list@[j].2 < reps.len(),
            forall|i: int|
                0 <= i < out@.len() ==> list@.contains(#[trigger] out@[i]) && reps[out@[i].1 as int] != reps[out@[
                    i].2 as int],
            forall|j: int|
                0 <= j < k && reps[(#[trigger] list@[j]).1 as int] != reps[list@[j].2 as int] ==> out@.contains(
                    list@[j],
                ),
            out@.len() <= k,
            dropped ==> out@.len() < k,
            forall|j: int| 0 <= j < k && reps[(#[trigger] list@[j]).1 as int] == reps[list@[j].2 as int] ==> dropped,
        decreases list@.len() - k,
    {
        let (d, a, b) = list[k];
        proof {
            assert(list@[k as int].1 < reps.len());
        }
        let ra = sets.find(a);
        let rb = sets.find(b);
        if ra != rb {
            let ghost prior = out@;
            out.push((d, a, b));
            proof {
                assert(list@.contains(list@[k as int]));
                assert forall|i: int|
                    0 <= i < out@.len() implies list@.contains(#[trigger] out@[i]) && reps[out@[i].1 as int]
                    != reps[out@[i].2 as int] by {
                    if i < prior.len() {
                        assert(out@[i] == prior[i]);
                    }
                }
                assert forall|j: int|
                    0 <= j < k + 1 && reps[(#[trigger] list@[j]).1 as int] != reps[list@[j].2 as int]
                        implies out@.contains(list@[j]) by {
                    if j < k {
                        let i = choose|i: int| 0 <= i < prior.len() && prior[i] == list@[j];
                        assert(out@[i] == prior[i]);
                    } else {
                        assert(out@[out@.len() - 1] == list@[j]);
                    }
                }
            }
        } else {
            proof {
                dropped = true;
            }
        }
        k = k + 1;
    }
    out
}

/// Walls knocked through while joining groups keep groups connected: after
/// merging the groups of `c`'s two regions and opening `c`'s wall, squares
/// of one group still reach each other.
proof fn lemma_join_step(
    start: &Grid,
    before: &Grid,
    after: &Grid,
    regions: Seq<usize>,
    count: usize,
    reps: Seq<usize>,
    c: Connector,
    o: bool,
)
    requires
        start.wf(),
        regions_of(start, regions, count),
        before.spec_width() == start.spec_width() && before.spec_height() == start.spec_height(),
        after.spec_width() == start.spec_width() && after.spec_height() == start.spec_height(),
        forall|p: (usize, usize)| start.inside(p) && #[trigger] start.open_at(p) ==> before.open_at(p),
        forall|p: (usize, usize)| before.inside(p) && #[trigger] before.open_at(p) ==> after.open_at(p),
        after.open_at(c.0),
        is_grouping(reps),
        reps.len() == count,
        c.1 < count,
        c.2 < count,
        interior(start, c.0),
        labels_across(start, regions, c, o),
        start.open_at(opposite(c.0, o).0),
        start.open_at(opposite(c.0, o).1),
        groups_connected(start, before, regions, reps),
    ensures
        groups_connected(start, after, regions, joined(reps, reps[c.1 as int], reps[c.2 as int])),
{
    let reps2 = joined(reps, reps[c.1 as int], reps[c.2 as int]);
    lemma_merge_joins(reps, c.1, c.2);
    let (p, q) = opposite(c.0, o);
    let d = c.0;
    assert(start.inside(p) && start.inside(q));
    assert(adjacent(p, d) && adjacent(d, q));
    assert forall|u: (usize, usize), v: (usize, usize)|
        start.inside(u) && start.open_at(u) && start.inside(v) && start.open_at(v) && #[trigger] group_of(
            start,
            regions,
            reps2,
            u,
        ) == #[trigger] group_of(start, regions, reps2, v) implies after.reachable(u, v) by {
        let ru = regions[start.idx(u)] as int;
        let rv = regions[start.idx(v)] as int;
        assert(0 <= ru < count && 0 <= rv < count);
        assert(group_of(start, regions, reps, p) == reps[c.1 as int]);
        assert(group_of(start, regions, reps, q) == reps[c.2 as int]);
        assert(after.open_at(u)) by {
            assert(before.open_at(u));
        }
        if reps[ru] == reps[rv] {
            assert(group_of(start, regions, reps, u) == group_of(start, regions, reps, v));
            lemma_reach_grows(before, after, u, v);
        } else if reps[ru] == reps[c.1 as int] && reps[rv] == reps[c.2 as int] {
            assert(group_of(start, regions, reps, u) == group_of(start, regions, reps, p));
            assert(group_of(start, regions, reps, q) == group_of(start, regions, reps, v));
            lemma_reach_grows(before, after, u, p);
            lemma_reach_grows(before, after, q, v);
            after.lemma_reach_step(u, p, d);
            assert(before.open_at(q));
            after.lemma_reach_step(u, d, q);
            after.lemma_reach_chain(u, q, v);
        } else {
            assert(reps[ru] == reps[c.2 as int] && reps[rv] == reps[c.1 as int]);
            assert(group_of(start, regions, reps, u) == group_of(start, regions, reps, q));
            assert(group_of(start, regions, reps, p) == group_of(start, regions, reps, v));
            lemma_reach_grows(before, after, u, q);
            lemma_reach_grows(before, after, p, v);
            assert(adjacent(q, d) && adjacent(d, p));
            after.lemma_reach_step(u, q, d);
            assert(before.open_at(p));
            after.lemma_reach_step(u, d, p);
            after.lemma_reach_chain(u, p, v);
        }
    }
}


/// A connector is a wall square with walkable squares of two different
/// regions on opposite sides. Random connectors are opened as doors, those
/// made redundant dropped, until every two regions a single wall separates
/// are joined. Each door joins two regions of the grid as it was.
#[verifier::rlimit(50)]
#[verifier::spinoff_prover]
pub fn connect_regions(grid: &mut Grid, rng: &mut StdRng) -> (steps: Vec<Step>)
    requires
        old(grid).wf(),
        old(grid).spec_height() >= 1,
        old(grid).spec_height() <= 2 || old(grid).spec_width() >= 1,
    ensures
        final(grid).wf(),
        final(grid).spec_width() == old(grid).spec_width(),
        final(grid).spec_height() == old(grid).spec_height(),
        final(grid)@ == after_steps(old(grid)@, old(grid).spec_width(), steps@),
        forall|i: int| 0 <= i < steps@.len() ==> #[trigger] opens_door(&*old(grid), steps@[i]),
        forall|d: (usize, usize), o: bool| #[trigger] bridged(&*old(grid), &*final(grid), d, o),
{
    let ghost start: Grid = *grid;
    let w = grid.width();
    let (regions, count) = label_regions(grid);
    let all = gather_connectors(grid, &regions, count);
    let mut sets = DisjointSets::new(count);
    let mut connectors = keep_apart(&all, &mut sets);
    let mut steps: Vec<Step> = Vec::new();
    proof {
        assert forall|u: (usize, usize), v: (usize, usize)|
            start.inside(u) && start.open_at(u) && start.inside(v) && start.open_at(v) && #[trigger] group_of(
                &start,
                regions@,
                sets@,
                u,
            ) == #[trigger] group_of(&start, regions@, sets@, v) implies grid.reachable(u, v) by {
            assert(regions@[start.idx(u)] < count);
            assert(regions@[start.idx(v)] < count);
        }
        assert forall|i: int| 0 <= i < grid@.len() implies #[trigger] grid@[i] == start@[i] || grid@[i] == Cell::Door by {
        }
    }
    while connectors.len() > 0
        invariant
            grid.wf(),
            start.wf(),
            grid.spec_width() == start.spec_width(),
            grid.spec_height() == start.spec_height(),
            w == start.spec_width(),
            regions_of(&start, regions@, count),
            sets.wf(),
            sets@.len() == count,
            is_grouping(sets@),
            grid@ == after_steps(start@, w as int, steps@),
            grid@.len() == start@.len(),
            forall|i: int| 0 <= i < grid@.len() ==> #[trigger] grid@[i] == start@[i] || grid@[i] == Cell::Door,
            forall|i: int| 0 <= i < steps@.len() ==> #[trigger] opens_door(&start, steps@[i]),
            groups_connected(&start, &*grid, regions@, sets@),
            forall|k: int|
                0 <= k < all@.len() ==> is_connector(&start, regions@, #[trigger] all@[k]) && all@[k].1 < count
                    && all@[k].2 < count,
            forall|d: (usize, usize), o: bool|
                is_connector(&start, regions@, #[trigger] candidate(&start, regions@, d, o)) ==> all@.contains(
                    candidate(&start, regions@, d, o),
                ),
            forall|k: int|
                0 <= k < connectors@.len() ==> all@.contains(#[trigger] connectors@[k]) && sets@[connectors@[k].1 as int]
                    != sets@[connectors@[k].2 as int],
            forall|k: int|
                0 <= k < all@.len() && !connectors@.contains(#[trigger] all@[k]) ==> sets@[all@[k].1 as int]
                    == sets@[all@[k].2 as int],
        decreases connectors@.len(),
    {
        match pick(connectors.as_slice(), rng) {
            Some(chosen) => {
                let ghost reps = sets@;
                let ghost before: Grid = *grid;
                let ghost listed = connectors@;
                let ((x, y), a, b) = chosen;
                proof {
                    let k = choose|k: int| 0 <= k < connectors@.len() && connectors@[k] == chosen;
                    assert(all@.contains(connectors@[k]));
                    let j = choose|j: int| 0 <= j < all@.len() && all@[j] == chosen;
                    assert(is_connector(&start, regions@, all@[j]) && all@[j].1 < count);
                }
                sets.merge(a, b);
                let step = Step { x, y, cell: Cell::Door };
                proof {
                    lemma_square_index(w as int, start.spec_height(), x as int, y as int);
                    assert(grid@[start.idx((x, y))] == start@[start.idx((x, y))] || grid@[start.idx((x, y))]
                        == Cell::Door);
                }
                grid.apply(step);
                let ghost done = steps@;
                steps.push(step);
                proof {
                    let o = choose|o: bool| #[trigger] labels_across(&start, regions@, chosen, o);
                    let (p, q) = opposite((x, y), o);
                    assert(start.inside(p) && start.inside(q));
                    assert(regions@[start.idx(p)] != NO_REGION && regions@[start.idx(q)] != NO_REGION);
                    assert(start.open_at(p) && start.open_at(q));
                    assert(!start.reachable(p, q));
                    assert(separates(&start, (x, y), o));
                    assert(opens_door(&start, step));
                    assert(steps@.drop_last() =~= done);
                    assert forall|i: int| 0 <= i < steps@.len() implies #[trigger] opens_door(&start, steps@[i]) by {
                        if i < done.len() {
                            assert(steps@[i] == done[i]);
                        }
                    }
                    let idx = start.idx((x, y));
                    assert(grid@ == before@.update(idx, Cell::Door));
                    assert forall|i: int| 0 <= i < grid@.len() implies #[trigger] grid@[i] == start@[i] || grid@[i]
                        == Cell::Door by {
                        if i != idx {
                            assert(grid@[i] == before@[i]);
                        }
                    }
                    assert forall|r: (usize, usize)| start.inside(r) && #[trigger] start.open_at(r) implies before.open_at(
                        r,
                    ) by {
                        lemma_square_index(w as int, start.spec_height(), r.0 as int, r.1 as int);
                    }
                    assert forall|r: (usize, usize)| before.inside(r) && #[trigger] before.open_at(r) implies grid.open_at(
                        r,
                    ) by {
                        lemma_square_index(w as int, start.spec_height(), r.0 as int, r.1 as int);
                    }
                    assert(grid.open_at((x, y)));
                    lemma_join_step(&start, &before, &*grid, regions@, count, reps, chosen, o);
                    lemma_merge_joins(reps, a, b);
                }
                let ghost merged = sets@;
                connectors = keep_apart(&connectors, &mut sets);
                proof {
                    assert(merged[a as int] == merged[b as int]);
                    let k = choose|k: int| 0 <= k < listed.len() && listed[k] == chosen;
                    assert(merged[listed[k].1 as int] == merged[listed[k].2 as int]);
                    assert forall|k2: int|
                        0 <= k2 < connectors@.len() implies all@.contains(#[trigger] connectors@[k2]) && sets@[connectors@[
                            k2].1 as int] != sets@[connectors@[k2].2 as int] by {
                        assert(listed.contains(connectors@[k2]));
                        let j = choose|j: int| 0 <= j < listed.len() && listed[j] == connectors@[k2];
                        assert(all@.contains(listed[j]));
                    }
                    assert forall|k2: int|
                        0 <= k2 < all@.len() && !connectors@.contains(#[trigger] all@[k2]) implies sets@[all@[k2].1 as int]
                        == sets@[all@[k2].2 as int] by {
                        let c = all@[k2];
                        assert(c.1 < count && c.2 < count);
                        if listed.contains(c) {
                            let j = choose|j: int| 0 <= j < listed.len() && listed[j] == c;
                            if merged[listed[j].1 as int] != merged[listed[j].2 as int] {
                                assert(connectors@.contains(listed[j]));
                            }
                        } else {
                            assert(reps[c.1 as int] == reps[c.2 as int]);
                        }
                    }
                }
            },
            None => {
                proof {
                    assert(false);
                }
            },
        }
    }
    proof {
        assert forall|d: (usize, usize), o: bool| #[trigger] bridged(&start, &*grid, d, o) by {
            let (p, q) = opposite(d, o);
            if interior(&start, d) && !start.open_at(d) && start.open_at(p) && start.open_at(q) {
                assert(start.inside(p) && start.inside(q));
                let c = candidate(&start, regions@, d, o);
                if regions@[start.idx(p)] != regions@[start.idx(q)] {
                    assert(labels_across(&start, regions@, c, o));
                    assert(is_connector(&start, regions@, c));
                    let j = choose|j: int| 0 <= j < all@.len() && all@[j] == c;
                    assert(!connectors@.contains(all@[j]));
                    assert(group_of(&start, regions@, sets@, p) == group_of(&start, regions@, sets@, q));
                } else {
                    assert(group_of(&start, regions@, sets@, p) == group_of(&start, regions@, sets@, q));
                }
            }
        }
    }
    steps
}


/// The square lies in one of the rooms.
pub open spec fn in_rooms(rooms: Seq<Room>, x: int, y: int) -> bool {
    exists|k: int| 0 <= k < rooms.len() && #[trigger] rooms[k].covers(x, y)
}

/// The square lies in one of the first `r` rooms.
pub open spec fn in_first_rooms(rooms: Seq<Room>, r: int, x: int, y: int) -> bool {
    exists|k: int| 0 <= k < r && #[trigger] rooms[k].covers(x, y)
}

/// Every room lies inside a width x height grid.
pub open spec fn rooms_inside(rooms: Seq<Room>, width: int, height: int) -> bool {
    forall|k: int|
        0 <= k < rooms.len() ==> (#[trigger] rooms[k]).small() && rooms[k].spec_bounds().2 < width
            && rooms[k].spec_bounds().3 < height
}

/// How many squares are walkable.
pub open spec fn walkable_count(cells: Seq<Cell>) -> nat {
    count_true(cells.map_values(|c: Cell| c != Cell::Wall))
}

/// A walkable square outside the rooms with at most one walkable
/// neighbour.
pub open spec fn is_dead_end(grid: &Grid, rooms: Seq<Room>, p: (usize, usize)) -> bool {
    &&& grid.inside(p)
    &&& grid.open_at(p)
    &&& !in_rooms(rooms, p.0 as int, p.1 as int)
    &&& open_count(
        grid@,
        grid.spec_width(),
        neighbours_spec(p.0, p.1, grid.spec_width() as usize, grid.spec_height() as usize),
    ) <= 1
}

/// `a` comes before `b` in row-major order.
pub open spec fn before_in_rows(a: (usize, usize), b: (usize, usize)) -> bool {
    a.1 < b.1 || (a.1 == b.1 && a.0 < b.0)
}

/// Clearing one set mark takes one off the count.
proof fn lemma_count_clear(marks: Seq<bool>, i: int)
    requires
        0 <= i < marks.len(),
        marks[i],
    ensures
        count_true(marks.update(i, false)) + 1 == count_true(marks),
{
    let cleared = marks.update(i, false);
    lemma_count_set(cleared, i);
    assert(cleared.update(i, true) =~= marks);
}

/// Marks, by square, the squares the rooms cover.
fn mark_rooms(grid: &Grid, rooms: &[Room]) -> (marks: Vec<bool>)
    requires
        grid.wf(),
        rooms_inside(rooms@, grid.spec_width(), grid.spec_height()),
    ensures
        marks@.len() == grid.spec_width() * grid.spec_height(),
        forall|p: (usize, usize)|
            grid.inside(p) ==> #[trigger] marks@[grid.idx(p)] == in_rooms(rooms@, p.0 as int, p.1 as int),
{
    let w = grid.width();
    let h = grid.height();
    let mut marks: Vec<bool> = vec![false; w * h];
    proof {
        assert forall|p: (usize, usize)| grid.inside(p) implies #[trigger] marks@[grid.idx(p)] == in_first_rooms(
            rooms@,
            0,
            p.0 as int,
            p.1 as int,
        ) by {
            lemma_square_index(w as int, h as int, p.0 as int, p.1 as int);
        }
    }
    let mut r: usize = 0;
    while r < rooms.len()
        invariant
            grid.wf(),
            w == grid.spec_width(),
            h == grid.spec_height(),
            rooms_inside(rooms@, w as int, h as int),
            r <= rooms@.len(),
            marks@.len() == w * h,
            forall|p: (usize, usize)|
                grid.inside(p) ==> #[trigger] marks@[grid.idx(p)] == in_first_rooms(rooms@, r as int, p.0 as int, p.1 as int),
        decreases rooms@.len() - r,
    {
        let room = rooms[r];
        proof {
            assert(rooms@[r as int].small());
        }
        let squares = room.squares();
        let mut j: usize = 0;
        while j < squares.len()
            invariant
                grid.wf(),
                w == grid.spec_width(),
                h == grid.spec_height(),
                room == rooms@[r as int],
                room.small(),
                room.spec_bounds().2 < w,
                room.spec_bounds().3 < h,
                r < rooms@.len(),
                j <= squares@.len(),
                marks@.len() == w * h,
                forall|p: (usize, usize)| squares@.contains(p) <==> room.covers(p.0 as int, p.1 as int),
                forall|p: (usize, usize)|
                    grid.inside(p) ==> #[trigger] marks@[grid.idx(p)] == (in_first_rooms(
                        rooms@,
                        r as int,
                        p.0 as int,
                        p.1 as int,
                    ) || squares@.take(j as int).contains(p)),
            decreases squares@.len() - j,
        {
            let (x, y) = squares[j];
            proof {
                assert(squares@.contains(squares@[j as int]));
                assert(grid.inside((x, y)));
                lemma_square_index(w as int, h as int, x as int, y as int);
            }
            let ghost prior = marks@;
            marks.set(y * w + x, true);
            proof {
                assert forall|p: (usize, usize)| grid.inside(p) implies #[trigger] marks@[grid.idx(p)] == (
                in_first_rooms(rooms@, r as int, p.0 as int, p.1 as int) || squares@.take(j + 1).contains(p)) by {
                    lemma_square_index(w as int, h as int, p.0 as int, p.1 as int);
                    if grid.idx(p) == grid.idx((x, y)) {
                        crate::maze::grid::lemma_square_index_injective(w as int, p.0 as int, p.1 as int, x as int, y as int);
                        assert(squares@.take(j + 1)[j as int] == p);
                    } else {
                        assert(marks@[grid.idx(p)] == prior[grid.idx(p)]);
                        if squares@.take(j + 1).contains(p) {
                            let i = choose|i: int| 0 <= i < j + 1 && #[trigger] squares@.take(j + 1)[i] == p;
                            if i < j {
                                assert(squares@.take(j as int)[i] == p);
                            }
                        }
                        if squares@.take(j as int).contains(p) {
                            let i = choose|i: int| 0 <= i < j && #[trigger] squares@.take(j as int)[i] == p;
                            assert(squares@.take(j + 1)[i] == p);
                        }
                    }
                }
            }
            j = j + 1;
        }
        proof {
            assert(squares@.take(squares@.len() as int) =~= squares@);
            assert forall|p: (usize, usize)| grid.inside(p) implies #[trigger] marks@[grid.idx(p)] == in_first_rooms(
                rooms@,
                r + 1,
                p.0 as int,
                p.1 as int,
            ) by {
                if room.covers(p.0 as int, p.1 as int) {
                    assert(rooms@[r as int].covers(p.0 as int, p.1 as int));
                }
                if in_first_rooms(rooms@, r + 1, p.0 as int, p.1 as int) {
                    let k = choose|k: int| 0 <= k < r + 1 && #[trigger] rooms@[k].covers(p.0 as int, p.1 as int);
                    if k == r {
                        assert(squares@.contains(p));
                    }
                }
            }
        }
        r = r + 1;
    }
    proof {
        assert forall|p: (usize, usize)| grid.inside(p) implies #[trigger] marks@[grid.idx(p)] == in_rooms(
            rooms@,
            p.0 as int,
            p.1 as int,
        ) by {
            if in_rooms(rooms@, p.0 as int, p.1 as int) {
                let k = choose|k: int| 0 <= k < rooms@.len() && #[trigger] rooms@[k].covers(p.0 as int, p.1 as int);
                assert(in_first_rooms(rooms@, r as int, p.0 as int, p.1 as int));
            }
        }
    }
    marks
}

/// Every dead end of the grid, row by row.
fn find_dead_ends(grid: &Grid, in_room: &Vec<bool>, Ghost(rooms): Ghost<Seq<Room>>) -> (out: Vec<(usize, usize)>)
    requires
        grid.wf(),
        in_room@.len() == grid.spec_width() * grid.spec_height(),
        forall|p: (usize, usize)|
            grid.inside(p) ==> #[trigger] in_room@[grid.idx(p)] == in_rooms(rooms, p.0 as int, p.1 as int),
    ensures
        forall|j: int| 0 <= j < out@.len() ==> is_dead_end(grid, rooms, #[trigger] out@[j]),
        forall|p: (usize, usize)| #[trigger] is_dead_end(grid, rooms, p) ==> out@.contains(p),
        forall|j1: int, j2: int|
            0 <= j1 < j2 < out@.len() ==> before_in_rows(#[trigger] out@[j1], #[trigger] out@[j2]),
{
    let w = grid.width();
    let h = grid.height();
    let mut out: Vec<(usize, usize)> = Vec::new();
    let mut y: usize = 0;
    while y < h
        invariant
            grid.wf(),
            w == grid.spec_width(),
            h == grid.spec_height(),
            in_room@.len() == w * h,
            forall|p: (usize, usize)|
                grid.inside(p) ==> #[trigger] in_room@[grid.idx(p)] == in_rooms(rooms, p.0 as int, p.1 as int),
            y <= h,
            forall|j: int| 0 <= j < out@.len() ==> is_dead_end(grid, rooms, #[trigger] out@[j]) && out@[j].1 < y,
            forall|p: (usize, usize)| p.1 < y && #[trigger] is_dead_end(grid, rooms, p) ==> out@.contains(p),
            forall|j1: int, j2: int|
                0 <= j1 < j2 < out@.len() ==> before_in_rows(#[trigger] out@[j1], #[trigger] out@[j2]),
        decreases h - y,
    {
        let mut x: usize = 0;
        while x < w
            invariant
                grid.wf(),
                w == grid.spec_width(),
                h == grid.spec_height(),
                in_room@.len() == w * h,
                forall|p: (usize, usize)|
                    grid.inside(p) ==> #[trigger] in_room@[grid.idx(p)] == in_rooms(rooms, p.0 as int, p.1 as int),
                y < h,
                x <= w,
                forall|j: int|
                    0 <= j < out@.len() ==> is_dead_end(grid, rooms, #[trigger] out@[j]) && before_in_rows(
                        out@[j],
                        (x, y),
                    ),
                forall|p: (usize, usize)|
                    before_in_rows(p, (x, y)) && #[trigger] is_dead_end(grid, rooms, p) ==> out@.contains(p),
                forall|j1: int, j2: int|
                    0 <= j1 < j2 < out@.len() ==> before_in_rows(#[trigger] out@[j1], #[trigger] out@[j2]),
            decreases w - x,
        {
            proof {
                lemma_square_index(w as int, h as int, x as int, y as int);
            }
            let ghost prior = out@;
            proof {
                assert(in_room@[grid.idx((x, y))] == in_rooms(rooms, x as int, y as int));
            }
            if grid.walkable(x, y) && !in_room[y * w + x] {
                proof {
                    lemma_neighbours(x, y, w, h);
                    assert(all_inside(neighbours_spec(x, y, w, h), w as int, h as int));
                }
                let around = neighbours(x, y, w, h);
                let open = count_walkable(grid, &around);
                if open <= 1 {
                    out.push((x, y));
                    proof {
                        assert(in_room@[grid.idx((x, y))] == in_rooms(rooms, x as int, y as int));
                        assert(is_dead_end(grid, rooms, (x, y)));
                        assert forall|j: int| 0 <= j < out@.len() implies is_dead_end(grid, rooms, #[trigger] out@[j])
                            && before_in_rows(out@[j], ((x + 1) as usize, y)) by {
                            if j < prior.len() {
                                assert(out@[j] == prior[j]);
                            }
                        }
                        assert forall|j1: int, j2: int|
                            0 <= j1 < j2 < out@.len() implies before_in_rows(#[trigger] out@[j1], #[trigger] out@[j2]) by {
                            if j2 < prior.len() {
                                assert(out@[j1] == prior[j1] && out@[j2] == prior[j2]);
                            } else {
                                assert(out@[j1] == prior[j1]);
                            }
                        }
                        assert forall|p: (usize, usize)|
                            before_in_rows(p, ((x + 1) as usize, y)) && #[trigger] is_dead_end(grid, rooms, p) implies out@.contains(p) by {
                            if p == (x, y) {
                                assert(out@[out@.len() - 1] == p);
                            } else {
                                let j = choose|j: int| 0 <= j < prior.len() && prior[j] == p;
                                assert(out@[j] == prior[j]);
                            }
                        }
                    }
                }
            }
            x = x + 1;
        }
        y = y + 1;
    }
    out
}

/// Fills the dead ends in with wall, one step each.
/// Square `p` is open, outside the rooms, with at most one open neighbour.
pub open spec fn dead_in(cells: Seq<Cell>, w: int, h: int, rooms: Seq<Room>, p: (usize, usize)) -> bool {
    &&& open_in(cells, w, h, p)
    &&& !in_rooms(rooms, p.0 as int, p.1 as int)
    &&& open_count(cells, w, neighbours_spec(p.0, p.1, w as usize, h as usize)) <= 1
}

/// Each step of `steps` falls on a dead end outside the rooms of the grid
/// that the steps before it leave.
pub open spec fn fills_dead_ends(start: Seq<Cell>, w: int, h: int, rooms: Seq<Room>, steps: Seq<Step>) -> bool {
    forall|i: int|
        0 <= i < steps.len() ==> #[trigger] dead_in(
            after_steps(start, w, steps.take(i)),
            w,
            h,
            rooms,
            (steps[i].x, steps[i].y),
        )
}

/// Filling dead ends round after round fills dead ends throughout.
proof fn lemma_fills_append(start: Seq<Cell>, w: int, h: int, rooms: Seq<Room>, done: Seq<Step>, fresh: Seq<Step>)
    requires
        fills_dead_ends(start, w, h, rooms, done),
        fills_dead_ends(after_steps(start, w, done), w, h, rooms, fresh),
    ensures
        fills_dead_ends(start, w, h, rooms, done + fresh),
{
    let all = done + fresh;
    assert forall|i: int| 0 <= i < all.len() implies #[trigger] dead_in(
        after_steps(start, w, all.take(i)),
        w,
        h,
        rooms,
        (all[i].x, all[i].y),
    ) by {
        if i < done.len() {
            assert(all.take(i) =~= done.take(i));
            assert(all[i] == done[i]);
        } else {
            let j = i - done.len();
            assert(all.take(i) =~= done + fresh.take(j));
            assert(all[i] == fresh[j]);
            crate::maze::grid::lemma_after_steps_append(start, w, done, fresh.take(j));
            assert(dead_in(after_steps(after_steps(start, w, done), w, fresh.take(j)), w, h, rooms, (fresh[j].x, fresh[j].y)));
        }
    }
}

fn fill_dead_ends(grid: &mut Grid, dead: &Vec<(usize, usize)>, Ghost(rooms): Ghost<Seq<Room>>) -> (added: Vec<Step>)
    requires
        old(grid).wf(),
        forall|j: int| 0 <= j < dead@.len() ==> is_dead_end(&*old(grid), rooms, #[trigger] dead@[j]),
        forall|j1: int, j2: int|
            0 <= j1 < j2 < dead@.len() ==> before_in_rows(#[trigger] dead@[j1], #[trigger] dead@[j2]),
        forall|i: int| 0 <= i < old(grid)@.len() ==> #[trigger] old(grid)@[i] != Cell::Start && old(grid)@[i] != Cell::End,
    ensures
        final(grid).wf(),
        final(grid).spec_width() == old(grid).spec_width(),
        final(grid).spec_height() == old(grid).spec_height(),
        final(grid)@ == after_steps(old(grid)@, old(grid).spec_width(), added@),
        forall|i: int| 0 <= i < final(grid)@.len() ==> #[trigger] final(grid)@[i] != Cell::Start && final(grid)@[i] != Cell::End,
        forall|i: int|
            0 <= i < added@.len() ==> (#[trigger] added@[i]).cell == Cell::Wall && old(grid).inside(
                (added@[i].x, added@[i].y),
            ) && !in_rooms(rooms, added@[i].x as int, added@[i].y as int),
        walkable_count(final(grid)@) + dead@.len() == walkable_count(old(grid)@),
        hangs_together(&*old(grid)) ==> hangs_together(&*final(grid)),
        fills_dead_ends(old(grid)@, old(grid).spec_width(), old(grid).spec_height(), rooms, added@),
{
    let ghost start = grid@;
    let ghost w = grid.spec_width();
    let ghost h = grid.spec_height();
    let mut added: Vec<Step> = Vec::new();
    let mut k: usize = 0;
    while k < dead.len()
        invariant
            grid.wf(),
            grid.spec_width() == w,
            grid.spec_height() == h,
            start.len() == w * h,
            k <= dead@.len(),
            forall|j: int| 0 <= j < dead@.len() ==> is_dead_end(&*old(grid), rooms, #[trigger] dead@[j]),
            forall|j1: int, j2: int|
                0 <= j1 < j2 < dead@.len() ==> before_in_rows(#[trigger] dead@[j1], #[trigger] dead@[j2]),
            start == old(grid)@,
            w == old(grid).spec_width(),
            h == old(grid).spec_height(),
            grid@ == after_steps(start, w, added@),
            forall|i: int| 0 <= i < grid@.len() ==> #[trigger] grid@[i] != Cell::Start && grid@[i] != Cell::End,
            forall|j: int| k <= j < dead@.len() ==> grid@[grid.idx(#[trigger] dead@[j])] == start[grid.idx(dead@[j])],
            forall|i: int|
                0 <= i < added@.len() ==> (#[trigger] added@[i]).cell == Cell::Wall && 0 <= added@[i].x < w && 0
                    <= added@[i].y < h && !in_rooms(rooms, added@[i].x as int, added@[i].y as int),
            walkable_count(grid@) + k == walkable_count(start),
            grows(grid@, start),
            hangs_together(&*old(grid)) ==> hangs_together(&*grid),
            fills_dead_ends(start, w, h, rooms, added@),
        decreases dead@.len() - k,
    {
        let (x, y) = dead[k];
        let ghost prior = grid@;
        let ghost prior_grid: Grid = *grid;
        let ghost done = added@;
        proof {
            assert(is_dead_end(&*old(grid), rooms, dead@[k as int]));
            lemma_square_index(w, h, x as int, y as int);
        }
        let step = Step { x, y, cell: Cell::Wall };
        proof {
            // Still a dead end: the squares around it only closed since.
            lemma_neighbours(x, y, w as usize, h as usize);
            assert(all_inside(neighbours_spec(x, y, w as usize, h as usize), w, h));
            lemma_open_count_grows(prior, start, w, h, neighbours_spec(x, y, w as usize, h as usize), (x, y));
            assert(dead_in(prior, w, h, rooms, (x, y)));
        }
        grid.apply(step);
        added.push(step);
        proof {
            assert forall|j: int| 0 <= j < added@.len() implies #[trigger] dead_in(
                after_steps(start, w, added@.take(j)),
                w,
                h,
                rooms,
                (added@[j].x, added@[j].y),
            ) by {
                if j < done.len() {
                    assert(added@.take(j) =~= done.take(j));
                    assert(added@[j] == done[j]);
                } else {
                    assert(added@.take(j) =~= done);
                }
            }
            let i = grid.idx((x, y));
            assert(prior[i] == start[i]);
            assert(grid@ == prior.update(i, Cell::Wall));
            assert(added@.drop_last() =~= done);
            let marks = prior.map_values(|c: Cell| c != Cell::Wall);
            assert(grid@.map_values(|c: Cell| c != Cell::Wall) =~= marks.update(i, false));
            lemma_count_clear(marks, i);
            if hangs_together(&*old(grid)) {
                lemma_fewer_neighbours(&prior_grid, &*old(grid), (x, y));
                lemma_wall_leaf(&prior_grid, &*grid, (x, y));
            }
            assert forall|j: int| 0 <= j < grid@.len() implies #[trigger] grid@[j] != Cell::Start && grid@[j] != Cell::End by {
                if j != i {
                    assert(grid@[j] == prior[j]);
                }
            }
            assert forall|j: int| k + 1 <= j < dead@.len() implies grid@[grid.idx(#[trigger] dead@[j])] == start[grid.idx(
                dead@[j],
            )] by {
                assert(before_in_rows(dead@[k as int], dead@[j]));
                assert(is_dead_end(&*old(grid), rooms, dead@[j]));
                lemma_square_index(w, h, dead@[j].0 as int, dead@[j].1 as int);
                if grid.idx(dead@[j]) == i {
                    crate::maze::grid::lemma_square_index_injective(w, dead@[j].0 as int, dead@[j].1 as int, x as int, y as int);
                }
            }
            assert forall|j: int| 0 <= j < added@.len() implies (#[trigger] added@[j]).cell == Cell::Wall && 0 <= added@[j].x
                < w && 0 <= added@[j].y < h && !in_rooms(rooms, added@[j].x as int, added@[j].y as int) by {
                if j < done.len() {
                    assert(added@[j] == done[j]);
                }
            }
        }
        k = k + 1;
    }
    added
}

/// Fills back every walkable square outside the rooms that has at most one
/// walkable neighbour, round after round, until none is left. Corridors
/// that don't join two doors vanish entirely, doors to nowhere with them.
#[verifier::rlimit(50)]
#[verifier::spinoff_prover]
pub fn prune_dead_ends(grid: &mut Grid, rooms: &[Room]) -> (steps: Vec<Step>)
    requires
        old(grid).wf(),
        rooms_inside(rooms@, old(grid).spec_width(), old(grid).spec_height()),
        forall|i: int| 0 <= i < old(grid)@.len() ==> #[trigger] old(grid)@[i] != Cell::Start && old(grid)@[i] != Cell::End,
    ensures
        final(grid).wf(),
        final(grid).spec_width() == old(grid).spec_width(),
        final(grid).spec_height() == old(grid).spec_height(),
        final(grid)@ == after_steps(old(grid)@, old(grid).spec_width(), steps@),
        forall|i: int|
            0 <= i < steps@.len() ==> (#[trigger] steps@[i]).cell == Cell::Wall && old(grid).inside(
                (steps@[i].x, steps@[i].y),
            ) && !in_rooms(rooms@, steps@[i].x as int, steps@[i].y as int),
        forall|p: (usize, usize)| !#[trigger] is_dead_end(&*final(grid), rooms@, p),
        hangs_together(&*old(grid)) ==> hangs_together(&*final(grid)),
        fills_dead_ends(old(grid)@, old(grid).spec_width(), old(grid).spec_height(), rooms@, steps@),
{
    let ghost start = grid@;
    let ghost w = grid.spec_width();
    let ghost h = grid.spec_height();
    let in_room = mark_rooms(grid, rooms);
    let mut steps: Vec<Step> = Vec::new();
    proof {
        assert forall|p: (usize, usize)| p.0 < w && p.1 < h implies #[trigger] in_room@[square_index(
            w,
            p.0 as int,
            p.1 as int,
        )] == in_rooms(rooms@, p.0 as int, p.1 as int) by {
            assert(grid.inside(p));
            assert(in_room@[grid.idx(p)] == in_rooms(rooms@, p.0 as int, p.1 as int));
        }
    }
    loop
        invariant
            grid.wf(),
            grid.spec_width() == w,
            grid.spec_height() == h,
            w == old(grid).spec_width(),
            h == old(grid).spec_height(),
            start == old(grid)@,
            in_room@.len() == w * h,
            forall|p: (usize, usize)|
                p.0 < w && p.1 < h ==> #[trigger] in_room@[square_index(w, p.0 as int, p.1 as int)] == in_rooms(
                    rooms@,
                    p.0 as int,
                    p.1 as int,
                ),
            grid@ == after_steps(start, w, steps@),
            forall|i: int| 0 <= i < grid@.len() ==> #[trigger] grid@[i] != Cell::Start && grid@[i] != Cell::End,
            forall|i: int|
                0 <= i < steps@.len() ==> (#[trigger] steps@[i]).cell == Cell::Wall && 0 <= steps@[i].x < w && 0
                    <= steps@[i].y < h && !in_rooms(rooms@, steps@[i].x as int, steps@[i].y as int),
            hangs_together(&*old(grid)) ==> hangs_together(&*grid),
            fills_dead_ends(start, w, h, rooms@, steps@),
        ensures
            forall|p: (usize, usize)| !#[trigger] is_dead_end(&*grid, rooms@, p),
            hangs_together(&*old(grid)) ==> hangs_together(&*grid),
            fills_dead_ends(start, w, h, rooms@, steps@),
        decreases walkable_count(grid@),
    {
        proof {
            assert forall|p: (usize, usize)| grid.inside(p) implies #[trigger] in_room@[grid.idx(p)] == in_rooms(
                rooms@,
                p.0 as int,
                p.1 as int,
            ) by {
                assert(in_room@[square_index(w, p.0 as int, p.1 as int)] == in_rooms(rooms@, p.0 as int, p.1 as int));
            }
        }
        let dead_ends = find_dead_ends(grid, &in_room, Ghost(rooms@));
        if dead_ends.len() == 0 {
            proof {
                assert forall|p: (usize, usize)| !#[trigger] is_dead_end(&*grid, rooms@, p) by {
                    if is_dead_end(&*grid, rooms@, p) {
                        assert(dead_ends@.contains(p));
                    }
                }
            }
            break;
        }
        let ghost prior = grid@;
        let ghost done = steps@;
        let mut added = fill_dead_ends(grid, &dead_ends, Ghost(rooms@));
        let ghost fresh = added@;
        steps.append(&mut added);
        proof {
            crate::maze::grid::lemma_after_steps_append(start, w, done, fresh);
            assert(steps@ == done + fresh);
            lemma_fills_append(start, w, h, rooms@, done, fresh);
            assert forall|i: int|
                0 <= i < steps@.len() implies (#[trigger] steps@[i]).cell == Cell::Wall && 0 <= steps@[i].x < w && 0
                    <= steps@[i].y < h && !in_rooms(rooms@, steps@[i].x as int, steps@[i].y as int) by {
                if i < done.len() {
                    assert(steps@[i] == done[i]);
                } else {
                    assert(steps@[i] == fresh[i - done.len()]);
                }
            }
        }
    }
    steps
}


/// The floor steps for every square of the room, row by row.
fn room_floors(room: &Room) -> (steps: Vec<Step>)
    requires
        room.small(),
    ensures
        forall|k: int|
            0 <= k < steps@.len() ==> (#[trigger] steps@[k]).cell == Cell::Floor && room.covers(
                steps@[k].x as int,
                steps@[k].y as int,
            ),
        forall|p: (usize, usize)|
            room.covers(p.0 as int, p.1 as int) ==> #[trigger] steps@.contains(
                (Step { x: p.0, y: p.1, cell: Cell::Floor }),
            ),
{
    let squares = room.squares();
    let mut steps: Vec<Step> = Vec::new();
    let mut k: usize = 0;
    while k < squares.len()
        invariant
            k <= squares@.len(),
            steps@.len() == k,
            forall|p: (usize, usize)| squares@.contains(p) <==> room.covers(p.0 as int, p.1 as int),
            forall|j: int|
                0 <= j < k ==> (#[trigger] steps@[j]) == (Step { x: squares@[j].0, y: squares@[j].1, cell: Cell::Floor }),
        decreases squares@.len() - k,
    {
        let (x, y) = squares[k];
        steps.push(Step { x, y, cell: Cell::Floor });
        k = k + 1;
    }
    proof {
        assert forall|j: int| 0 <= j < steps@.len() implies (#[trigger] steps@[j]).cell == Cell::Floor && room.covers(
            steps@[j].x as int,
            steps@[j].y as int,
        ) by {
            assert(squares@.contains(squares@[j]));
        }
        assert forall|p: (usize, usize)| room.covers(p.0 as int, p.1 as int) implies #[trigger] steps@.contains(
            (Step { x: p.0, y: p.1, cell: Cell::Floor }),
        ) by {
            assert(squares@.contains(p));
            let j = choose|j: int| 0 <= j < squares@.len() && squares@[j] == p;
            assert(steps@[j] == (Step { x: p.0, y: p.1, cell: Cell::Floor }));
        }
    }
    steps
}

/// Blocks every corridor of the room.
fn block_room(lattice: &mut Lattice, room: &Room)
    requires
        old(lattice).wf(),
        room.lies_in(old(lattice).spec_width(), old(lattice).spec_height()),
    ensures
        final(lattice).wf(),
        final(lattice).spec_width() == old(lattice).spec_width(),
        final(lattice).spec_height() == old(lattice).spec_height(),
        forall|x: int, y: int|
            #![trigger final(lattice).is_open(x, y)]
            0 <= x < old(lattice).spec_width() && 0 <= y < old(lattice).spec_height() ==> (final(lattice).is_open(x, y)
                <==> old(lattice).is_open(x, y) && !room.holds(x, y)),
{
    let ghost first = *lattice;
    let ghost cw = lattice.spec_width();
    let mut y = room.y;
    while y < room.y + room.height
        invariant
            lattice.wf(),
            lattice.spec_width() == first.spec_width(),
            lattice.spec_height() == first.spec_height(),
            cw == first.spec_width(),
            room.lies_in(lattice.spec_width(), lattice.spec_height()),
            room.y <= y <= room.y + room.height,
            forall|x2: int, y2: int|
                0 <= x2 < cw && 0 <= y2 < lattice.spec_height() ==> (#[trigger] lattice.is_open(x2, y2)
                    <==> first.is_open(x2, y2) && !(room.x <= x2 < room.x + room.width && room.y <= y2 < y)),
        decreases room.y + room.height - y,
    {
        let mut x = room.x;
        while x < room.x + room.width
            invariant
                lattice.wf(),
                lattice.spec_width() == first.spec_width(),
                lattice.spec_height() == first.spec_height(),
                cw == first.spec_width(),
                room.lies_in(lattice.spec_width(), lattice.spec_height()),
                room.y <= y < room.y + room.height,
                room.x <= x <= room.x + room.width,
                forall|x2: int, y2: int|
                    0 <= x2 < cw && 0 <= y2 < lattice.spec_height() ==> (#[trigger] lattice.is_open(x2, y2)
                        <==> first.is_open(x2, y2) && !(room.x <= x2 < room.x + room.width && room.y <= y2 < y)
                        && !(y2 == y && room.x <= x2 < x)),
            decreases room.x + room.width - x,
        {
            let ghost prior = *lattice;
            lattice.block(x, y);
            proof {
                assert forall|x2: int, y2: int|
                    0 <= x2 < cw && 0 <= y2 < lattice.spec_height() implies (#[trigger] lattice.is_open(x2, y2)
                        <==> first.is_open(x2, y2) && !(room.x <= x2 < room.x + room.width && room.y <= y2 < y)
                        && !(y2 == y && room.x <= x2 < x + 1)) by {
                    assert(prior.is_open(x2, y2) <==> first.is_open(x2, y2) && !(room.x <= x2 < room.x + room.width
                        && room.y <= y2 < y) && !(y2 == y && room.x <= x2 < x));
                    lemma_square_index(cw, lattice.spec_height(), x2, y2);
                    lemma_square_index(cw, lattice.spec_height(), x as int, y as int);
                    if square_index(cw, x2, y2) == square_index(cw, x as int, y as int) {
                        crate::maze::grid::lemma_square_index_injective(cw, x2, y2, x as int, y as int);
                    }
                }
            }
            x = x + 1;
        }
        y = y + 1;
    }
}

/// Rooms first, then the chosen algorithm fills the space around them with
/// corridors, then doors join the regions, then corridors that lead
/// nowhere are filled back in. Start is the centre of the first room, or
/// the first corridor when no room fits.
pub fn generate(algorithm: Algorithm, corridors_x: usize, corridors_y: usize, rng: &mut StdRng) -> (generation:
    Generation)
    requires
        fits(corridors_x as int, corridors_y as int),
        corridors_x >= 1,
        corridors_y >= 1,
        corridors_x * corridors_y < 4 || (corridors_x >= 2 && corridors_y >= 2),
    ensures
        well_framed(&generation, corridors_x as int, corridors_y as int),
        algorithm.floors_fully() ==> draws_joined(corridors_x as int, corridors_y as int, super::body(&generation)),
        exists|candidates: Seq<Room>|
            {
                &&& candidates.len() == corridors_x * corridors_y / 4
                &&& forall|k: int|
                    0 <= k < candidates.len() ==> room_candidate(
                        #[trigger] candidates[k],
                        corridors_x as int,
                        corridors_y as int,
                    )
                &&& #[trigger] shows_rooms(
                    corridors_x as int,
                    corridors_y as int,
                    kept_apart(candidates),
                    super::body(&generation),
                )
                &&& generation.steps@[0].x == if kept_apart(candidates).len() > 0 {
                    kept_apart(candidates)[0].spec_centre().0
                } else {
                    1
                }
                &&& generation.steps@[0].y == if kept_apart(candidates).len() > 0 {
                    kept_apart(candidates)[0].spec_centre().1
                } else {
                    1
                }
            },
{
    let ghost width = 2 * corridors_x + 1;
    let ghost height = 2 * corridors_y + 1;
    let ghost cx = corridors_x as int;
    let ghost cy = corridors_y as int;
    proof {
        lemma_fits_sides(corridors_x as int, corridors_y as int);
    }
    let mut generation = Generation { steps: Vec::new(), phases: Vec::new() };
    let mut lattice = Lattice::open(corridors_x, corridors_y);
    let rooms = place_rooms(corridors_x, corridors_y, rng);
    let ghost candidates = choose|candidates: Seq<Room>|
        {
            &&& candidates.len() == corridors_x * corridors_y / 4
            &&& forall|k: int|
                0 <= k < candidates.len() ==> room_candidate(
                    #[trigger] candidates[k],
                    corridors_x as int,
                    corridors_y as int,
                )
            &&& rooms@ == kept_apart(candidates)
        };
    generation.begin("Placing rooms", BULK_PACE);
    proof {
        assert(generation.steps@ =~= Seq::<Step>::empty());
        assert forall|x: int, y: int| 0 <= x < cx && 0 <= y < cy implies (#[trigger] lattice.is_open(x, y)
            <==> !rooms_hold(rooms@, 0, x, y)) by {
            lemma_square_index(cx, cy, x, y);
        }
    }
    let mut r: usize = 0;
    while r < rooms.len()
        invariant
            rooms_laid(&lattice, rooms@, r as int, generation.steps@, cx, cy),
            cx == corridors_x,
            cy == corridors_y,
            fits(corridors_x as int, corridors_y as int),
            width == 2 * corridors_x + 1,
            height == 2 * corridors_y + 1,
            lattice.wf(),
            lattice.spec_width() == corridors_x,
            lattice.spec_height() == corridors_y,
            r <= rooms@.len(),
            forall|k: int| 0 <= k < rooms@.len() ==> (#[trigger] rooms@[k]).lies_in(corridors_x as int, corridors_y as int),
            generation.phases_ok(),
            steps_inside(generation.steps@, width, height),
            steps_unmarked(generation.steps@),
        decreases rooms@.len() - r,
    {
        let room = rooms[r];
        proof {
            assert(rooms@[r as int].lies_in(corridors_x as int, corridors_y as int));
            lemma_lies_in_small(room, corridors_x as int, corridors_y as int);
        }
        let ghost unblocked = lattice;
        block_room(&mut lattice, &room);
        let floors = room_floors(&room);
        let ghost before = generation.steps@;
        let ghost added = floors@;
        generation.extend(floors);
        proof {
            lemma_lay_room(&unblocked, &lattice, rooms@, r as int, before, added, cx, cy);
            assert forall|i: int| 0 <= i < generation.steps@.len() implies (#[trigger] generation.steps@[i]).x < width
                && generation.steps@[i].y < height && generation.steps@[i].cell != Cell::Start
                && generation.steps@[i].cell != Cell::End by {
                if i < before.len() {
                    assert(generation.steps@[i] == before[i]);
                } else {
                    assert(generation.steps@[i] == added[i - before.len()]);
                }
            }
        }
        r = r + 1;
    }
    let ghost placed = generation.steps@;
    let ghost blocked = lattice;
    let carving = algorithm.carve_into(&lattice, rng, &mut generation);
    proof {
        assert forall|i: int| 0 <= i < generation.steps@.len() implies (#[trigger] generation.steps@[i]).x < width
            && generation.steps@[i].y < height && generation.steps@[i].cell != Cell::Start
            && generation.steps@[i].cell != Cell::End by {
            if i < placed.len() {
                assert(generation.steps@[i] == placed[i]);
            } else {
                let c = carving@[i - placed.len()];
                assert(generation.steps@[i] == c);
                assert(lattice.owns_square(c.x as int, c.y as int));
                lattice.lemma_owned_inside(c.x as int, c.y as int);
            }
        }
    }
    let mut grid = grid_after(corridors_x, corridors_y, generation.steps.as_slice());
    proof {
        assert(unmarked(all_walls(width * height)));
        lemma_after_steps_unmarked(all_walls(width * height), width, height, generation.steps@);
    }
    let ghost carved_grid = grid@;
    let ghost carved: Grid = grid;
    proof {
        if algorithm.floors_fully() {
            reveal(carved_from);
            assert(generation.steps@ == placed + carving@);
            assert(carved_from(&carved, &blocked, rooms@, placed, carving@, cx, cy));
            lemma_carved_near(&carved, &blocked, rooms@, placed, carving@, cx, cy);
        }
    }
    generation.begin("Opening doors", 1);
    let doors = connect_regions(&mut grid, rng);
    let ghost doors_seq = doors@;
    let ghost doored: Grid = grid;
    proof {
        assert forall|i: int| 0 <= i < doors_seq.len() implies (#[trigger] doors_seq[i]).x < width && doors_seq[i].y
            < height && doors_seq[i].cell != Cell::Start && doors_seq[i].cell != Cell::End by {
            assert(opens_door(&carved, doors_seq[i]));
        }
        lemma_after_steps_unmarked(carved_grid, width, height, doors_seq);
        if algorithm.floors_fully() {
            assert forall|k: int| 0 <= k < doors_seq.len() implies (#[trigger] doors_seq[k]).cell != Cell::Wall by {
                assert(opens_door(&carved, doors_seq[k]));
            }
            lemma_no_walls_open_more(carved_grid, width, height, doors_seq);
            assert forall|p: (usize, usize)| carved.inside(p) && #[trigger] carved.open_at(p) implies doored.open_at(p) by {
                lemma_square_index(width, height, p.0 as int, p.1 as int);
            }
            assert(doors_bridge(&carved, &doored, cx, cy));
            lemma_doors_join(&carved, &doored, cx, cy, doors_seq);
        }
    }
    let ghost before_doors = generation.steps@;
    generation.extend(doors);
    generation.begin("Removing dead ends", BULK_PACE);
    proof {
        assert forall|k: int| 0 <= k < rooms@.len() implies (#[trigger] rooms@[k]).small() && rooms@[k].spec_bounds().2
            < width && rooms@[k].spec_bounds().3 < height by {
            lemma_lies_in_small(rooms@[k], corridors_x as int, corridors_y as int);
        }
    }
    let pruned = prune_dead_ends(&mut grid, rooms.as_slice());
    let ghost pruned_seq = pruned@;
    let ghost before_prune = generation.steps@;
    generation.extend(pruned);
    proof {
        assert forall|i: int| 0 <= i < generation.steps@.len() implies (#[trigger] generation.steps@[i]).x < width
            && generation.steps@[i].y < height && generation.steps@[i].cell != Cell::Start
            && generation.steps@[i].cell != Cell::End by {
            if i < before_doors.len() {
                assert(generation.steps@[i] == before_doors[i]);
            } else if i < before_prune.len() {
                assert(generation.steps@[i] == doors_seq[i - before_doors.len()]);
            } else {
                assert(generation.steps@[i] == pruned_seq[i - before_prune.len()]);
            }
        }
    }
    let start = if rooms.len() > 0 {
        proof {
            lemma_lies_in_small(rooms@[0], corridors_x as int, corridors_y as int);
        }
        rooms[0].centre()
    } else {
        (1, 1)
    };
    let ghost body = generation.steps@;
    proof {
        assert(body == placed + carving@ + doors_seq + pruned_seq);
        assert(steps_inside(doors_seq + pruned_seq, width, height) && forall|k: int|
            0 <= k < (doors_seq + pruned_seq).len() && (#[trigger] (doors_seq + pruned_seq)[k]).cell == Cell::Wall
                ==> !in_rooms(rooms@, (doors_seq + pruned_seq)[k].x as int, (doors_seq + pruned_seq)[k].y as int)) by {
            assert forall|k: int| 0 <= k < (doors_seq + pruned_seq).len() implies (#[trigger] (doors_seq
                + pruned_seq)[k]).x < width && (doors_seq + pruned_seq)[k].y < height && ((doors_seq + pruned_seq)[k].cell
                == Cell::Wall ==> !in_rooms(rooms@, (doors_seq + pruned_seq)[k].x as int, (doors_seq + pruned_seq)[k].y as int)) by {
                assert(generation.steps@[before_doors.len() + k] == (doors_seq + pruned_seq)[k]);
                if k < doors_seq.len() {
                    assert(opens_door(&carved, doors_seq[k]));
                } else {
                    assert((doors_seq + pruned_seq)[k] == pruned_seq[k - doors_seq.len()]);
                }
            }
        }
        crate::maze::algorithms::connectivity::lemma_rooms_stay_open(
            &blocked,
            rooms@,
            placed,
            carving@,
            doors_seq + pruned_seq,
            cx,
            cy,
            |c: Cell| carving_cell(c),
        );
        assert(placed + carving@ + (doors_seq + pruned_seq) == body);
        crate::maze::grid::lemma_after_steps_append(all_walls(width * height), width, placed + carving@, doors_seq);
        crate::maze::grid::lemma_after_steps_append(
            all_walls(width * height),
            width,
            placed + carving@ + doors_seq,
            pruned_seq,
        );
        assert(grid@ == after_steps(all_walls(width * height), width, body));
        assert forall|p: (usize, usize)|
            #[trigger] open_in(grid@, width, height, p) && !in_rooms(rooms@, p.0 as int, p.1 as int) implies open_count(
                grid@,
                width,
                neighbours_spec(p.0, p.1, width as usize, height as usize),
            ) >= 2 by {
            assert(!is_dead_end(&grid, rooms@, p));
        }
        assert(shows_rooms(cx, cy, kept_apart(candidates), body));
        if algorithm.floors_fully() {
            crate::maze::grid::lemma_after_steps_append(all_walls(width * height), width, placed + carving@, doors_seq);
            crate::maze::grid::lemma_after_steps_append(
                all_walls(width * height),
                width,
                placed + carving@ + doors_seq,
                pruned_seq,
            );
            assert(body == placed + carving@ + doors_seq + pruned_seq);
            lemma_hangs_draws(&grid, cx, cy, body);
        }
    }
    let done = finish(generation, corridors_x, corridors_y, start);
    proof {
        assert(super::body(&done) == body);
        assert(shows_rooms(cx, cy, kept_apart(candidates), super::body(&done)));
    }
    done
}

} // verus!
