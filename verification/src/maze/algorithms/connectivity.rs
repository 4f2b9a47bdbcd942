use vstd::prelude::*;

use super::braid::{all_inside, grows, is_open, lemma_open_count_grows, open_count};
use super::dungeon::{Room, bridged, in_first_rooms, in_rooms, interior, opens_door, opposite, separates};
use super::{Lattice, all_walls, carving_cell, fits, floor_step, spares_corridors};
use crate::maze::grid::{
    Cell, Grid, Step, adjacent, after_steps, lemma_neighbours, lemma_reach_grows, lemma_square_index,
    lemma_square_index_injective, neighbours_spec, square_index, steps_inside,
};
use crate::maze::walks::{joins, lemma_open_step, lemma_reachable_joins, lemma_untouched, open_in, opens_more};

verus! {

/// Every two walkable squares of the grid reach each other.
pub open spec fn hangs_together(grid: &Grid) -> bool {
    forall|p: (usize, usize), q: (usize, usize)|
        #![trigger grid.reachable(p, q)]
        grid.open_at(p) && grid.open_at(q) ==> grid.reachable(p, q)
}

/// How many walkable neighbours the square has.
pub open spec fn open_neighbours(grid: &Grid, m: (usize, usize)) -> nat {
    open_count(
        grid@,
        grid.spec_width(),
        neighbours_spec(m.0, m.1, grid.spec_width() as usize, grid.spec_height() as usize),
    )
}

/// One open entry of the list counts for one.
#[verifier::spinoff_prover]
proof fn lemma_one_open(cells: Seq<Cell>, w: int, list: Seq<(usize, usize)>, i: int)
    requires
        0 <= i < list.len(),
        is_open(cells, w, list[i]),
    ensures
        open_count(cells, w, list) >= 1,
    decreases list.len(),
{
    let rest = list.drop_last();
    if i < list.len() - 1 {
        assert(rest[i] == list[i]);
        lemma_one_open(cells, w, rest, i);
    } else {
        assert(list.last() == list[i]);
    }
}

/// Two open entries at different places of the list count for two.
#[verifier::spinoff_prover]
proof fn lemma_two_open(cells: Seq<Cell>, w: int, list: Seq<(usize, usize)>, i: int, j: int)
    requires
        0 <= i < list.len(),
        0 <= j < list.len(),
        i != j,
        is_open(cells, w, list[i]),
        is_open(cells, w, list[j]),
    ensures
        open_count(cells, w, list) >= 2,
    decreases list.len(),
{
    let rest = list.drop_last();
    let n = list.len() - 1;
    if i == n || j == n {
        let k = if i == n {
            j
        } else {
            i
        };
        assert(rest[k] == list[k]);
        lemma_one_open(cells, w, rest, k);
        assert(list.last() == list[n]);
    } else {
        assert(rest[i] == list[i]);
        assert(rest[j] == list[j]);
        lemma_two_open(cells, w, rest, i, j);
    }
}

/// A square with at most one walkable neighbour has no two different ones.
#[verifier::spinoff_prover]
proof fn lemma_lone_neighbour(g: &Grid, m: (usize, usize), a: (usize, usize), b: (usize, usize))
    requires
        g.wf(),
        g.inside(m),
        open_neighbours(g, m) <= 1,
        adjacent(m, a),
        adjacent(m, b),
        g.open_at(a),
        g.open_at(b),
    ensures
        a == b,
{
    let w = g.spec_width();
    let h = g.spec_height();
    let list = neighbours_spec(m.0, m.1, w as usize, h as usize);
    lemma_neighbours(m.0, m.1, w as usize, h as usize);
    assert(list.contains(a));
    assert(list.contains(b));
    if a != b {
        let i = choose|i: int| 0 <= i < list.len() && list[i] == a;
        let j = choose|j: int| 0 <= j < list.len() && list[j] == b;
        lemma_two_open(g@, w, list, i, j);
    }
}

/// A route between two squares other than `m`, where `m` has at most one
/// walkable neighbour, can be made to avoid `m`.
#[verifier::rlimit(50)]
#[verifier::spinoff_prover]
proof fn lemma_route_avoids(g: &Grid, m: (usize, usize), path: Seq<(usize, usize)>) -> (r: Seq<(usize, usize)>)
    requires
        g.wf(),
        g.inside(m),
        open_neighbours(g, m) <= 1,
        g.is_route(path),
        g.open_at(path[0]),
        path[0] != m,
        path.last() != m,
    ensures
        g.is_route(r),
        r[0] == path[0],
        r.last() == path.last(),
        forall|k: int| 0 <= k < r.len() ==> #[trigger] r[k] != m,
    decreases path.len(),
{
    if exists|k: int| 0 <= k < path.len() && path[k] == m {
        let i = choose|k: int| 0 <= k < path.len() && path[k] == m;
        assert(0 < i < path.len() - 1);
        let a = path[i - 1];
        let b = path[i + 1];
        assert(adjacent(path[i - 1], path[i]));
        assert(adjacent(path[i], path[i + 1]));
        assert(g.open_at(a)) by {
            if i - 1 >= 1 {
                assert(g.open_at(path[i - 1]));
            }
        }
        assert(g.open_at(path[i + 1]));
        lemma_lone_neighbour(g, m, a, b);
        let shorter = path.subrange(0, i) + path.subrange(i + 2, path.len() as int);
        assert(shorter.len() == path.len() - 2);
        assert forall|k: int| 0 <= k < shorter.len() implies g.inside(#[trigger] shorter[k]) by {
            if k < i {
                assert(shorter[k] == path[k]);
            } else {
                assert(shorter[k] == path[k + 2]);
            }
        }
        assert forall|k: int| 1 <= k < shorter.len() implies g.open_at(#[trigger] shorter[k]) by {
            if k < i {
                assert(shorter[k] == path[k]);
            } else {
                assert(shorter[k] == path[k + 2]);
            }
        }
        assert forall|k: int| 0 <= k < shorter.len() - 1 implies adjacent(#[trigger] shorter[k], shorter[k + 1]) by {
            if k < i - 1 {
                assert(shorter[k] == path[k]);
                assert(shorter[k + 1] == path[k + 1]);
            } else if k == i - 1 {
                assert(shorter[k] == path[i - 1]);
                assert(shorter[k + 1] == path[i + 2]);
                assert(adjacent(path[i + 1], path[i + 2]));
            } else {
                assert(shorter[k] == path[k + 2]);
                assert(shorter[k + 1] == path[k + 3]);
                assert(adjacent(path[k + 2], path[k + 3]));
            }
        }
        assert(shorter[0] == path[0]);
        if i + 2 == path.len() {
            assert(shorter.last() == path[i - 1]);
        } else {
            assert(shorter.last() == path[path.len() - 1]);
        }
        lemma_route_avoids(g, m, shorter)
    } else {
        path
    }
}

/// Walling in a square with at most one walkable neighbour keeps the other
/// walkable squares hanging together.
#[verifier::spinoff_prover]
pub proof fn lemma_wall_leaf(before: &Grid, after: &Grid, m: (usize, usize))
    requires
        before.wf(),
        after.wf(),
        after.spec_width() == before.spec_width(),
        after.spec_height() == before.spec_height(),
        before.inside(m),
        after@ == before@.update(before.idx(m), Cell::Wall),
        open_neighbours(before, m) <= 1,
        hangs_together(before),
    ensures
        hangs_together(after),
{
    let w = before.spec_width();
    let h = before.spec_height();
    lemma_square_index(w, h, m.0 as int, m.1 as int);
    assert forall|p: (usize, usize), q: (usize, usize)|
        #![trigger after.reachable(p, q)]
        after.open_at(p) && after.open_at(q) implies after.reachable(p, q) by {
        assert forall|s: (usize, usize)| after.inside(s) && s != m implies #[trigger] after@[after.idx(s)] == before@[before.idx(s)] by {
            lemma_square_index(w, h, s.0 as int, s.1 as int);
            if before.idx(s) == before.idx(m) {
                lemma_square_index_injective(w, s.0 as int, s.1 as int, m.0 as int, m.1 as int);
            }
        }
        assert(p != m);
        assert(q != m);
        assert(after@[after.idx(p)] == before@[before.idx(p)]);
        assert(after@[after.idx(q)] == before@[before.idx(q)]);
        assert(before.reachable(p, q));
        let path = choose|path: Seq<(usize, usize)>| before.is_route(path) && path[0] == p && path.last() == q;
        let r = lemma_route_avoids(before, m, path);
        assert forall|k: int| 0 <= k < r.len() implies after.inside(#[trigger] r[k]) by {
            assert(before.inside(r[k]));
        }
        assert forall|k: int| 1 <= k < r.len() implies after.open_at(#[trigger] r[k]) by {
            assert(before.open_at(r[k]));
            assert(r[k] != m);
            assert(after@[after.idx(r[k])] == before@[before.idx(r[k])]);
        }
        assert(after.is_route(r));
    }
}

/// Closing squares never gives a square more walkable neighbours.
#[verifier::spinoff_prover]
pub proof fn lemma_fewer_neighbours(now: &Grid, first: &Grid, m: (usize, usize))
    requires
        now.wf(),
        first.wf(),
        now.spec_width() == first.spec_width(),
        now.spec_height() == first.spec_height(),
        now.inside(m),
        grows(now@, first@),
    ensures
        open_neighbours(now, m) <= open_neighbours(first, m),
{
    let w = now.spec_width();
    let h = now.spec_height();
    let list = neighbours_spec(m.0, m.1, w as usize, h as usize);
    lemma_neighbours(m.0, m.1, w as usize, h as usize);
    assert(all_inside(list, w, h));
    lemma_open_count_grows(now@, first@, w, h, list, m);
}

/// The square of corridor (x, y).
pub open spec fn corridor_at(x: int, y: int) -> (usize, usize) {
    ((2 * x + 1) as usize, (2 * y + 1) as usize)
}

/// The square can be reached from the square of some corridor.
pub open spec fn near_corridor(g: &Grid, cx: int, cy: int, s: (usize, usize)) -> bool {
    exists|x: int, y: int| 0 <= x < cx && 0 <= y < cy && #[trigger] g.reachable(corridor_at(x, y), s)
}

/// What doors make of a carved grid `g1` of `cx` by `cy` corridors: `g2`
/// keeps every walkable square, and every inner wall with walkable squares
/// on opposite sides has them reach each other.
pub open spec fn doors_bridge(g1: &Grid, g2: &Grid, cx: int, cy: int) -> bool {
    &&& g1.wf()
    &&& g2.wf()
    &&& 1 <= cx
    &&& 1 <= cy
    &&& g1.spec_width() == 2 * cx + 1
    &&& g1.spec_height() == 2 * cy + 1
    &&& g2.spec_width() == g1.spec_width()
    &&& g2.spec_height() == g1.spec_height()
    &&& forall|p: (usize, usize)| g1.inside(p) && #[trigger] g1.open_at(p) ==> g2.open_at(p)
    &&& forall|d: (usize, usize), o: bool| #[trigger] bridged(g1, g2, d, o)
    &&& forall|x: int, y: int| 0 <= x < cx && 0 <= y < cy ==> #[trigger] g1.open_at(corridor_at(x, y))
}

/// Two walkable squares on either side of an inner wall reach each other
/// once doors are in: through the wall if it stood open, else by the door
/// work.
#[verifier::spinoff_prover]
proof fn lemma_across_wall(g1: &Grid, g2: &Grid, cx: int, cy: int, d: (usize, usize), o: bool)
    requires
        doors_bridge(g1, g2, cx, cy),
        interior(g1, d),
        g1.open_at(opposite(d, o).0),
        g1.open_at(opposite(d, o).1),
    ensures
        g2.reachable(opposite(d, o).0, opposite(d, o).1),
{
    let (a, b) = opposite(d, o);
    assert(bridged(g1, g2, d, o));
    if g1.open_at(d) {
        let path = seq![a, d, b];
        assert(path[0] == a && path[1] == d && path[2] == b);
        assert(g1.is_route(path));
        assert(path.last() == b);
        assert(g1.reachable(a, b));
        lemma_reach_grows(g1, g2, a, b);
    }
}

/// Once doors are in, every corridor square reaches from the first one.
#[verifier::spinoff_prover]
proof fn lemma_corridors_reach(g1: &Grid, g2: &Grid, cx: int, cy: int, x: int, y: int)
    requires
        doors_bridge(g1, g2, cx, cy),
        0 <= x < cx,
        0 <= y < cy,
    ensures
        g2.reachable(corridor_at(0, 0), corridor_at(x, y)),
    decreases x + y,
{
    assert(g1.open_at(corridor_at(0, 0)));
    assert(g1.inside(corridor_at(0, 0)));
    if y > 0 {
        lemma_corridors_reach(g1, g2, cx, cy, x, y - 1);
        let d = ((2 * x + 1) as usize, (2 * y) as usize);
        assert(opposite(d, false) == (corridor_at(x, y - 1), corridor_at(x, y)));
        assert(g1.open_at(corridor_at(x, y - 1)));
        assert(g1.open_at(corridor_at(x, y)));
        lemma_across_wall(g1, g2, cx, cy, d, false);
        g2.lemma_reach_chain(corridor_at(0, 0), corridor_at(x, y - 1), corridor_at(x, y));
    } else if x > 0 {
        lemma_corridors_reach(g1, g2, cx, cy, x - 1, y);
        let d = ((2 * x) as usize, (2 * y + 1) as usize);
        assert(opposite(d, true) == (corridor_at(x - 1, y), corridor_at(x, y)));
        assert(g1.open_at(corridor_at(x - 1, y)));
        assert(g1.open_at(corridor_at(x, y)));
        lemma_across_wall(g1, g2, cx, cy, d, true);
        g2.lemma_reach_chain(corridor_at(0, 0), corridor_at(x - 1, y), corridor_at(x, y));
    } else {
        g2.lemma_reach_self(corridor_at(0, 0));
    }
}

/// A square walkable before the doors reaches from the first corridor
/// after them.
#[verifier::spinoff_prover]
proof fn lemma_old_square_reach(g1: &Grid, g2: &Grid, cx: int, cy: int, s: (usize, usize))
    requires
        doors_bridge(g1, g2, cx, cy),
        g1.open_at(s),
        near_corridor(g1, cx, cy, s),
    ensures
        g2.reachable(corridor_at(0, 0), s),
{
    let (x, y) = choose|x: int, y: int| 0 <= x < cx && 0 <= y < cy && #[trigger] g1.reachable(corridor_at(x, y), s);
    lemma_reach_grows(g1, g2, corridor_at(x, y), s);
    lemma_corridors_reach(g1, g2, cx, cy, x, y);
    assert(g1.open_at(corridor_at(0, 0)));
    g2.lemma_reach_chain(corridor_at(0, 0), corridor_at(x, y), s);
}

/// Doors opened in walls between regions of a carved grid whose walkable
/// squares all lie near a corridor leave the grid hanging together.
#[verifier::spinoff_prover]
pub proof fn lemma_doors_join(g1: &Grid, g2: &Grid, cx: int, cy: int, doors: Seq<Step>)
    requires
        doors_bridge(g1, g2, cx, cy),
        forall|s: (usize, usize)| #[trigger] g1.open_at(s) ==> near_corridor(g1, cx, cy, s),
        g2@ == after_steps(g1@, g1.spec_width(), doors),
        steps_inside(doors, g1.spec_width(), g1.spec_height()),
        forall|i: int| 0 <= i < doors.len() ==> #[trigger] opens_door(g1, doors[i]),
    ensures
        hangs_together(g2),
{
    let w = g1.spec_width();
    let h = g1.spec_height();
    let c0 = corridor_at(0, 0);
    assert(g1.open_at(c0));
    assert forall|s: (usize, usize)| #[trigger] g2.open_at(s) implies g2.reachable(c0, s) by {
        if g1.open_at(s) {
            lemma_old_square_reach(g1, g2, cx, cy, s);
        } else {
            let i = square_index(w, s.0 as int, s.1 as int);
            lemma_square_index(w, h, s.0 as int, s.1 as int);
            if forall|k: int| 0 <= k < doors.len() ==> square_index(w, (#[trigger] doors[k]).x as int, doors[k].y as int) != i {
                lemma_untouched(g1@, w, h, doors, i);
                assert(false);
            }
            let k = choose|k: int| 0 <= k < doors.len() && square_index(w, (#[trigger] doors[k]).x as int, doors[k].y as int) == i;
            lemma_square_index_injective(w, doors[k].x as int, doors[k].y as int, s.0 as int, s.1 as int);
            assert(opens_door(g1, doors[k]));
            let o = choose|o: bool| #[trigger] separates(g1, (doors[k].x, doors[k].y), o);
            let t = opposite(s, o).0;
            assert(g1.open_at(t));
            lemma_old_square_reach(g1, g2, cx, cy, t);
            g2.lemma_reach_step(c0, t, s);
        }
    }
    assert forall|p: (usize, usize), q: (usize, usize)|
        #![trigger g2.reachable(p, q)]
        g2.open_at(p) && g2.open_at(q) implies g2.reachable(p, q) by {
        assert(g2.reachable(c0, p));
        assert(g2.reachable(c0, q));
        g2.lemma_reach_through(c0, p, q);
    }
}

/// One of the first `n` rooms holds corridor (x, y).
pub open spec fn rooms_hold(rooms: Seq<Room>, n: int, x: int, y: int) -> bool {
    exists|k: int| 0 <= k < n && #[trigger] rooms[k].holds(x, y)
}

/// The first `n` rooms are laid on the lattice: their corridors are exactly
/// the blocked ones, and `placed` floors every square of each of them and
/// no other square.
pub open spec fn rooms_laid(lattice: &Lattice, rooms: Seq<Room>, n: int, placed: Seq<Step>, cx: int, cy: int) -> bool {
    &&& lattice.wf()
    &&& lattice.spec_width() == cx
    &&& lattice.spec_height() == cy
    &&& 0 <= n <= rooms.len()
    &&& forall|k: int| 0 <= k < rooms.len() ==> (#[trigger] rooms[k]).lies_in(cx, cy)
    &&& forall|x: int, y: int|
        0 <= x < cx && 0 <= y < cy ==> (#[trigger] lattice.is_open(x, y) <==> !rooms_hold(rooms, n, x, y))
    &&& forall|i: int|
        0 <= i < placed.len() ==> (#[trigger] placed[i]).cell == Cell::Floor && in_first_rooms(
            rooms,
            n,
            placed[i].x as int,
            placed[i].y as int,
        )
    &&& forall|k: int, p: (usize, usize)|
        0 <= k < n && #[trigger] rooms[k].covers(p.0 as int, p.1 as int) ==> placed.contains(
            (Step { x: p.0, y: p.1, cell: Cell::Floor }),
        )
}

/// No square of the lattice lies in a laid room: a room's squares belong to
/// its blocked corridors.
proof fn lemma_room_not_owned(lattice: &Lattice, rooms: Seq<Room>, placed: Seq<Step>, cx: int, cy: int, k: int, sx: int, sy: int)
    requires
        rooms_laid(lattice, rooms, rooms.len() as int, placed, cx, cy),
        0 <= k < rooms.len(),
        rooms[k].covers(sx, sy),
    ensures
        !lattice.owns_square(sx, sy),
{
    let room = rooms[k];
    assert(room.lies_in(cx, cy));
    if sx % 2 == 1 && sy % 2 == 1 {
        let x = (sx - 1) / 2;
        let y = (sy - 1) / 2;
        assert(room.holds(x, y));
        assert(rooms_hold(rooms, rooms.len() as int, x, y));
        assert(!lattice.is_open(x, y));
    } else if sx % 2 == 0 && sy % 2 == 1 {
        let x = sx / 2;
        let y = (sy - 1) / 2;
        assert(room.holds(x, y));
        assert(rooms_hold(rooms, rooms.len() as int, x, y));
        assert(!lattice.is_open(x, y));
    } else if sx % 2 == 1 && sy % 2 == 0 {
        let x = (sx - 1) / 2;
        let y = sy / 2;
        assert(room.holds(x, y));
        assert(rooms_hold(rooms, rooms.len() as int, x, y));
        assert(!lattice.is_open(x, y));
    }
}

/// A square that is open stays open through steps that wall nothing at it.
proof fn lemma_kept_open(cells: Seq<Cell>, w: int, h: int, steps: Seq<Step>, s: (usize, usize))
    requires
        cells.len() == w * h,
        0 <= w,
        0 <= h,
        steps_inside(steps, w, h),
        open_in(cells, w, h, s),
        forall|k: int| 0 <= k < steps.len() && (#[trigger] steps[k]).x == s.0 && steps[k].y == s.1 ==> steps[k].cell
            != Cell::Wall,
    ensures
        open_in(after_steps(cells, w, steps), w, h, s),
    decreases steps.len(),
{
    if steps.len() > 0 {
        let rest = steps.drop_last();
        let last = steps.last();
        assert(steps_inside(rest, w, h)) by {
            assert forall|k: int| 0 <= k < rest.len() implies (#[trigger] rest[k]).x < w && rest[k].y < h by {
                assert(rest[k] == steps[k]);
            }
        }
        assert forall|k: int| 0 <= k < rest.len() && (#[trigger] rest[k]).x == s.0 && rest[k].y == s.1 implies rest[k].cell
            != Cell::Wall by {
            assert(rest[k] == steps[k]);
        }
        lemma_kept_open(cells, w, h, rest, s);
        crate::maze::grid::lemma_after_steps_len(cells, w, h, rest);
        let prior = after_steps(cells, w, rest);
        assert(steps[steps.len() - 1] == last);
        lemma_square_index(w, h, s.0 as int, s.1 as int);
        lemma_square_index(w, h, last.x as int, last.y as int);
        if square_index(w, last.x as int, last.y as int) == square_index(w, s.0 as int, s.1 as int) {
            crate::maze::grid::lemma_square_index_injective(w, last.x as int, last.y as int, s.0 as int, s.1 as int);
        }
    }
}

/// Every square of a laid room is open once the rooms, a carving of the
/// lattice and any steps that wall nothing inside a room are replayed.
pub proof fn lemma_rooms_stay_open(
    lattice: &Lattice,
    rooms: Seq<Room>,
    placed: Seq<Step>,
    carving: Seq<Step>,
    later: Seq<Step>,
    cx: int,
    cy: int,
    allowed: spec_fn(Cell) -> bool,
)
    requires
        rooms_laid(lattice, rooms, rooms.len() as int, placed, cx, cy),
        fits(cx, cy),
        steps_inside(placed, 2 * cx + 1, 2 * cy + 1),
        lattice.carves(carving, allowed),
        steps_inside(later, 2 * cx + 1, 2 * cy + 1),
        forall|k: int|
            0 <= k < later.len() && (#[trigger] later[k]).cell == Cell::Wall ==> !in_rooms(
                rooms,
                later[k].x as int,
                later[k].y as int,
            ),
    ensures
        forall|x: int, y: int|
            #[trigger] in_rooms(rooms, x, y) ==> open_in(
                after_steps(all_walls((2 * cx + 1) * (2 * cy + 1)), 2 * cx + 1, placed + carving + later),
                2 * cx + 1,
                2 * cy + 1,
                (x as usize, y as usize),
            ),
{
    let w = 2 * cx + 1;
    let h = 2 * cy + 1;
    let blank = all_walls(w * h);
    assert(0 <= w * h) by (nonlinear_arith)
        requires
            0 <= w,
            0 <= h,
    ;
    assert forall|x: int, y: int| #[trigger] in_rooms(rooms, x, y) implies open_in(
        after_steps(blank, w, placed + carving + later),
        w,
        h,
        (x as usize, y as usize),
    ) by {
        let k = choose|k: int| 0 <= k < rooms.len() && #[trigger] rooms[k].covers(x, y);
        let room = rooms[k];
        assert(room.lies_in(cx, cy));
        super::dungeon::lemma_fits_sides(cx, cy);
        assert(0 <= x < w && 0 <= y < h);
        let s = (x as usize, y as usize);
        assert(s.0 as int == x && s.1 as int == y);
        assert(rooms[k].covers(s.0 as int, s.1 as int));
        assert(placed.contains(Step { x: s.0, y: s.1, cell: Cell::Floor }));
        let j = choose|j: int| 0 <= j < placed.len() && placed[j] == (Step { x: s.0, y: s.1, cell: Cell::Floor });
        assert forall|i: int| 0 <= i < placed.len() implies (#[trigger] placed[i]).cell != Cell::Wall by {}
        crate::maze::walks::lemma_stepped_open(blank, w, h, placed, j);
        crate::maze::grid::lemma_after_steps_len(blank, w, h, placed);
        let laid = after_steps(blank, w, placed);
        // No carving step lands in a room.
        assert(steps_inside(carving, w, h)) by {
            assert forall|i: int| 0 <= i < carving.len() implies (#[trigger] carving[i]).x < w && carving[i].y < h by {
                assert(lattice.owns_square(carving[i].x as int, carving[i].y as int));
                lattice.lemma_owned_inside(carving[i].x as int, carving[i].y as int);
            }
        }
        assert forall|i: int| 0 <= i < carving.len() && (#[trigger] carving[i]).x == s.0 && carving[i].y == s.1 implies carving[i].cell
            != Cell::Wall by {
            assert(lattice.owns_square(carving[i].x as int, carving[i].y as int));
            lemma_room_not_owned(lattice, rooms, placed, cx, cy, k, x, y);
        }
        lemma_kept_open(laid, w, h, carving, s);
        crate::maze::grid::lemma_after_steps_append(blank, w, placed, carving);
        crate::maze::grid::lemma_after_steps_len(laid, w, h, carving);
        let carved = after_steps(laid, w, carving);
        assert forall|i: int| 0 <= i < later.len() && (#[trigger] later[i]).x == s.0 && later[i].y == s.1 implies later[i].cell
            != Cell::Wall by {
            if later[i].cell == Cell::Wall {
                assert(in_rooms(rooms, later[i].x as int, later[i].y as int));
            }
        }
        lemma_kept_open(carved, w, h, later, s);
        crate::maze::grid::lemma_after_steps_append(blank, w, placed + carving, later);
    }
}

/// Laying one more room: block its corridors and floor its squares.
#[verifier::spinoff_prover]
pub proof fn lemma_lay_room(
    before: &Lattice,
    after: &Lattice,
    rooms: Seq<Room>,
    n: int,
    placed: Seq<Step>,
    floors: Seq<Step>,
    cx: int,
    cy: int,
)
    requires
        rooms_laid(before, rooms, n, placed, cx, cy),
        n < rooms.len(),
        after.wf(),
        after.spec_width() == cx,
        after.spec_height() == cy,
        forall|x: int, y: int|
            #![trigger after.is_open(x, y)]
            0 <= x < cx && 0 <= y < cy ==> (after.is_open(x, y) <==> before.is_open(x, y) && !rooms[n].holds(x, y)),
        forall|k: int|
            0 <= k < floors.len() ==> (#[trigger] floors[k]).cell == Cell::Floor && rooms[n].covers(
                floors[k].x as int,
                floors[k].y as int,
            ),
        forall|p: (usize, usize)|
            rooms[n].covers(p.0 as int, p.1 as int) ==> #[trigger] floors.contains(
                (Step { x: p.0, y: p.1, cell: Cell::Floor }),
            ),
    ensures
        rooms_laid(after, rooms, n + 1, placed + floors, cx, cy),
{
    let all = placed + floors;
    assert forall|x: int, y: int| 0 <= x < cx && 0 <= y < cy implies (#[trigger] after.is_open(x, y) <==> !rooms_hold(
        rooms,
        n + 1,
        x,
        y,
    )) by {
        assert(after.is_open(x, y) <==> before.is_open(x, y) && !rooms[n].holds(x, y));
        assert(before.is_open(x, y) <==> !rooms_hold(rooms, n, x, y));
        if rooms_hold(rooms, n + 1, x, y) {
            let k = choose|k: int| 0 <= k < n + 1 && #[trigger] rooms[k].holds(x, y);
            if k < n {
                assert(rooms_hold(rooms, n, x, y));
            }
        }
        if rooms[n].holds(x, y) {
            assert(rooms_hold(rooms, n + 1, x, y));
        }
        if rooms_hold(rooms, n, x, y) {
            let k = choose|k: int| 0 <= k < n && #[trigger] rooms[k].holds(x, y);
            assert(rooms_hold(rooms, n + 1, x, y));
        }
    }
    assert forall|i: int| 0 <= i < all.len() implies (#[trigger] all[i]).cell == Cell::Floor && in_first_rooms(
        rooms,
        n + 1,
        all[i].x as int,
        all[i].y as int,
    ) by {
        if i < placed.len() {
            assert(all[i] == placed[i]);
            let k = choose|k: int| 0 <= k < n && #[trigger] rooms[k].covers(placed[i].x as int, placed[i].y as int);
        } else {
            assert(all[i] == floors[i - placed.len()]);
            assert(rooms[n].covers(all[i].x as int, all[i].y as int));
        }
    }
    assert forall|k: int, p: (usize, usize)|
        0 <= k < n + 1 && #[trigger] rooms[k].covers(p.0 as int, p.1 as int) implies all.contains(
            (Step { x: p.0, y: p.1, cell: Cell::Floor }),
        ) by {
        let st = Step { x: p.0, y: p.1, cell: Cell::Floor };
        if k < n {
            assert(placed.contains(st));
            let j = choose|j: int| 0 <= j < placed.len() && placed[j] == st;
            assert(all[j] == st);
        } else {
            assert(floors.contains(st));
            let j = choose|j: int| 0 <= j < floors.len() && floors[j] == st;
            assert(all[placed.len() + j] == st);
        }
    }
}

/// A square painted at least once, and never with wall, is walkable after
/// all the steps.
#[verifier::spinoff_prover]
proof fn lemma_never_walled(cells: Seq<Cell>, w: int, h: int, steps: Seq<Step>, i: int, s: (usize, usize))
    requires
        cells.len() == w * h,
        0 <= w,
        0 <= h,
        s.0 < w,
        s.1 < h,
        steps_inside(steps, w, h),
        0 <= i < steps.len(),
        steps[i].x == s.0 && steps[i].y == s.1,
        forall|k: int|
            0 <= k < steps.len() && (#[trigger] steps[k]).x == s.0 && steps[k].y == s.1 ==> steps[k].cell != Cell::Wall,
    ensures
        after_steps(cells, w, steps)[square_index(w, s.0 as int, s.1 as int)] != Cell::Wall,
    decreases steps.len(),
{
    let rest = steps.drop_last();
    let last = steps.last();
    assert(last == steps[steps.len() - 1]);
    assert(steps_inside(rest, w, h)) by {
        assert forall|k: int| 0 <= k < rest.len() implies (#[trigger] rest[k]).x < w && rest[k].y < h by {
            assert(rest[k] == steps[k]);
        }
    }
    crate::maze::grid::lemma_after_steps_len(cells, w, h, rest);
    lemma_square_index(w, h, s.0 as int, s.1 as int);
    lemma_square_index(w, h, last.x as int, last.y as int);
    let idx = square_index(w, s.0 as int, s.1 as int);
    if last.x == s.0 && last.y == s.1 {
    } else {
        assert(i < steps.len() - 1);
        assert(rest[i] == steps[i]);
        assert forall|k: int| 0 <= k < rest.len() && (#[trigger] rest[k]).x == s.0 && rest[k].y == s.1 implies rest[
            k
        ].cell != Cell::Wall by {
            assert(rest[k] == steps[k]);
        }
        lemma_never_walled(cells, w, h, rest, i, s);
        if square_index(w, last.x as int, last.y as int) == idx {
            lemma_square_index_injective(w, last.x as int, last.y as int, s.0 as int, s.1 as int);
        }
    }
}

/// A grid showing the rooms laid and then a carving that floors every
/// open corridor and walls none in.
#[verifier::opaque]
pub open spec fn carved_from(
    g1: &Grid,
    lattice: &Lattice,
    rooms: Seq<Room>,
    placed: Seq<Step>,
    carving: Seq<Step>,
    cx: int,
    cy: int,
) -> bool {
    &&& rooms_laid(lattice, rooms, rooms.len() as int, placed, cx, cy)
    &&& fits(cx, cy)
    &&& lattice.carves(carving, |c: Cell| carving_cell(c))
    &&& lattice.floors_every_corridor(carving)
    &&& spares_corridors(carving)
    &&& steps_inside(placed, 2 * cx + 1, 2 * cy + 1)
    &&& g1.wf()
    &&& g1.has_layout(
        2 * cx + 1,
        2 * cy + 1,
        after_steps(all_walls((2 * cx + 1) * (2 * cy + 1)), 2 * cx + 1, placed + carving),
    )
}

/// The plain facts about a carved grid.
#[verifier::spinoff_prover]
proof fn lemma_carved_basics(
    g1: &Grid,
    lattice: &Lattice,
    rooms: Seq<Room>,
    placed: Seq<Step>,
    carving: Seq<Step>,
    cx: int,
    cy: int,
)
    requires
        carved_from(g1, lattice, rooms, placed, carving, cx, cy),
    ensures
        g1.wf(),
        g1.spec_width() == 2 * cx + 1,
        g1.spec_height() == 2 * cy + 1,
        lattice.wf(),
        lattice.spec_width() == cx,
        lattice.spec_height() == cy,
        fits(cx, cy),
        forall|k: int| 0 <= k < rooms.len() ==> (#[trigger] rooms[k]).lies_in(cx, cy),
        2 * cx + 1 <= usize::MAX,
        2 * cy + 1 <= usize::MAX,
        g1@ == after_steps(all_walls((2 * cx + 1) * (2 * cy + 1)), 2 * cx + 1, placed + carving),
        rooms_laid(lattice, rooms, rooms.len() as int, placed, cx, cy),
        lattice.floors_every_corridor(carving),
        spares_corridors(carving),
{
    reveal(carved_from);
    super::dungeon::lemma_fits_sides(cx, cy);
}

/// No room covers a square the carving paints.
#[verifier::spinoff_prover]
proof fn lemma_off_rooms(lattice: &Lattice, rooms: Seq<Room>, placed: Seq<Step>, carving: Seq<Step>, cx: int, cy: int, k: int, j: int)
    requires
        rooms_laid(lattice, rooms, rooms.len() as int, placed, cx, cy),
        lattice.carves(carving, |c: Cell| carving_cell(c)),
        0 <= k < rooms.len(),
        0 <= j < carving.len(),
    ensures
        !rooms[k].covers(carving[j].x as int, carving[j].y as int),
{
    let n = rooms.len() as int;
    let sx = carving[j].x as int;
    let sy = carving[j].y as int;
    assert(lattice.owns_square(sx, sy));
    assert(rooms[k].lies_in(cx, cy));
    if rooms[k].covers(sx, sy) {
        if sx % 2 == 1 && sy % 2 == 1 {
            assert(rooms[k].holds((sx - 1) / 2, (sy - 1) / 2));
            assert(rooms_hold(rooms, n, (sx - 1) / 2, (sy - 1) / 2));
            assert(!lattice.is_open((sx - 1) / 2, (sy - 1) / 2));
        } else if sx % 2 == 0 && sy % 2 == 1 {
            assert(rooms[k].holds(sx / 2, (sy - 1) / 2));
            assert(rooms_hold(rooms, n, sx / 2, (sy - 1) / 2));
            assert(!lattice.is_open(sx / 2, (sy - 1) / 2));
        } else if sx % 2 == 1 && sy % 2 == 0 {
            assert(rooms[k].holds((sx - 1) / 2, sy / 2));
            assert(rooms_hold(rooms, n, (sx - 1) / 2, sy / 2));
            assert(!lattice.is_open((sx - 1) / 2, sy / 2));
        }
    }
}

/// Every step of the rooms and the carving lies inside the grid.
#[verifier::spinoff_prover]
proof fn lemma_all_inside(
    g1: &Grid,
    lattice: &Lattice,
    rooms: Seq<Room>,
    placed: Seq<Step>,
    carving: Seq<Step>,
    cx: int,
    cy: int,
)
    requires
        carved_from(g1, lattice, rooms, placed, carving, cx, cy),
    ensures
        steps_inside(placed + carving, 2 * cx + 1, 2 * cy + 1),
{
    reveal(carved_from);
    let all = placed + carving;
    assert forall|k: int| 0 <= k < all.len() implies (#[trigger] all[k]).x < 2 * cx + 1 && all[k].y < 2 * cy + 1 by {
        if k < placed.len() {
            assert(all[k] == placed[k]);
        } else {
            assert(all[k] == carving[k - placed.len()]);
            assert(lattice.owns_square(carving[k - placed.len()].x as int, carving[k - placed.len()].y as int));
            lattice.lemma_owned_inside(all[k].x as int, all[k].y as int);
        }
    }
}

/// Neither the rooms nor the carving wall a corridor's square in.
#[verifier::spinoff_prover]
proof fn lemma_corridor_never_walled(placed: Seq<Step>, carving: Seq<Step>, s: (usize, usize))
    requires
        forall|i: int| 0 <= i < placed.len() ==> (#[trigger] placed[i]).cell == Cell::Floor,
        spares_corridors(carving),
        s.0 % 2 == 1,
        s.1 % 2 == 1,
    ensures
        forall|k: int|
            0 <= k < (placed + carving).len() && (#[trigger] (placed + carving)[k]).x == s.0 && (placed
                + carving)[k].y == s.1 ==> (placed + carving)[k].cell != Cell::Wall,
{
    let all = placed + carving;
    assert forall|k: int| 0 <= k < all.len() && (#[trigger] all[k]).x == s.0 && all[k].y == s.1 implies all[k].cell
        != Cell::Wall by {
        if k < placed.len() {
            assert(all[k] == placed[k]);
        } else {
            assert(all[k] == carving[k - placed.len()]);
        }
    }
}

/// The step that floors a corridor: its own floor step when the corridor
/// is open, else the floor step of the room that holds it.
#[verifier::spinoff_prover]
proof fn lemma_corridor_floored(
    lattice: &Lattice,
    rooms: Seq<Room>,
    placed: Seq<Step>,
    carving: Seq<Step>,
    cx: int,
    cy: int,
    x: int,
    y: int,
) -> (j: int)
    requires
        rooms_laid(lattice, rooms, rooms.len() as int, placed, cx, cy),
        lattice.floors_every_corridor(carving),
        0 <= x < cx,
        0 <= y < cy,
    ensures
        0 <= j < (placed + carving).len(),
        (placed + carving)[j].x == corridor_at(x, y).0,
        (placed + carving)[j].y == corridor_at(x, y).1,
        (placed + carving)[j].cell != Cell::Wall,
{
    let n = rooms.len() as int;
    let all = placed + carving;
    let s = corridor_at(x, y);
    super::dungeon::lemma_fits_sides(cx, cy);
    if lattice.is_open(x, y) {
        let i = choose|i: int| 0 <= i < carving.len() && #[trigger] carving[i] == floor_step(x, y);
        assert(all[placed.len() + i] == carving[i]);
        placed.len() + i
    } else {
        assert(rooms_hold(rooms, n, x, y));
        let k = choose|k: int| 0 <= k < n && #[trigger] rooms[k].holds(x, y);
        assert(rooms[k].covers(s.0 as int, s.1 as int));
        let st = Step { x: s.0, y: s.1, cell: Cell::Floor };
        assert(placed.contains(st));
        let j = choose|j: int| 0 <= j < placed.len() && placed[j] == st;
        assert(all[j] == st);
        j
    }
}

/// Every corridor square is walkable.
#[verifier::spinoff_prover]
proof fn lemma_corridor_open(
    g1: &Grid,
    lattice: &Lattice,
    rooms: Seq<Room>,
    placed: Seq<Step>,
    carving: Seq<Step>,
    cx: int,
    cy: int,
    x: int,
    y: int,
)
    requires
        carved_from(g1, lattice, rooms, placed, carving, cx, cy),
        0 <= x < cx,
        0 <= y < cy,
    ensures
        g1.open_at(corridor_at(x, y)),
{
    let w = 2 * cx + 1;
    let h = 2 * cy + 1;
    lemma_all_inside(g1, lattice, rooms, placed, carving, cx, cy);
    lemma_carved_basics(g1, lattice, rooms, placed, carving, cx, cy);
    let s = corridor_at(x, y);
    assert forall|i: int| 0 <= i < placed.len() implies (#[trigger] placed[i]).cell == Cell::Floor by {
        assert(placed[i].cell == Cell::Floor);
    }
    lemma_corridor_never_walled(placed, carving, s);
    let j = lemma_corridor_floored(lattice, rooms, placed, carving, cx, cy, x, y);
    lemma_never_walled(all_walls(w * h), w, h, placed + carving, j, s);
    lemma_square_index(w, h, s.0 as int, s.1 as int);
}

/// Every square a room covers is walkable.
#[verifier::spinoff_prover]
proof fn lemma_room_open(
    g1: &Grid,
    lattice: &Lattice,
    rooms: Seq<Room>,
    placed: Seq<Step>,
    carving: Seq<Step>,
    cx: int,
    cy: int,
    k: int,
    t: (usize, usize),
)
    requires
        carved_from(g1, lattice, rooms, placed, carving, cx, cy),
        0 <= k < rooms.len(),
        rooms[k].covers(t.0 as int, t.1 as int),
    ensures
        g1.open_at(t),
{
    reveal(carved_from);
    let w = 2 * cx + 1;
    let h = 2 * cy + 1;
    let all = placed + carving;
    let walls = all_walls(w * h);
    lemma_all_inside(g1, lattice, rooms, placed, carving, cx, cy);
    assert(rooms[k].lies_in(cx, cy));
    assert forall|i: int| 0 <= i < all.len() && (#[trigger] all[i]).x == t.0 && all[i].y == t.1 implies all[i].cell
        != Cell::Wall by {
        if i < placed.len() {
            assert(all[i] == placed[i]);
        } else {
            assert(all[i] == carving[i - placed.len()]);
            lemma_off_rooms(lattice, rooms, placed, carving, cx, cy, k, i - placed.len());
        }
    }
    let st = Step { x: t.0, y: t.1, cell: Cell::Floor };
    assert(placed.contains(st));
    let j = choose|j: int| 0 <= j < placed.len() && placed[j] == st;
    assert(all[j] == st);
    lemma_never_walled(walls, w, h, all, j, t);
    lemma_square_index(w, h, t.0 as int, t.1 as int);
}

/// A square a room covers lies near one of the room's corridors.
#[verifier::spinoff_prover]
proof fn lemma_room_near(
    g1: &Grid,
    lattice: &Lattice,
    rooms: Seq<Room>,
    placed: Seq<Step>,
    carving: Seq<Step>,
    cx: int,
    cy: int,
    r: int,
    s: (usize, usize),
)
    requires
        carved_from(g1, lattice, rooms, placed, carving, cx, cy),
        0 <= r < rooms.len(),
        rooms[r].covers(s.0 as int, s.1 as int),
    ensures
        near_corridor(g1, cx, cy, s),
{
    lemma_carved_basics(g1, lattice, rooms, placed, carving, cx, cy);
    let sx = s.0 as int;
    let sy = s.1 as int;
    assert(rooms[r].lies_in(cx, cy));
    let qx = if sx % 2 == 1 { sx } else { sx - 1 };
    let qy = if sy % 2 == 1 { sy } else { sy - 1 };
    let q = (qx as usize, qy as usize);
    let mid = (s.0, qy as usize);
    lemma_room_open(g1, lattice, rooms, placed, carving, cx, cy, r, q);
    lemma_room_open(g1, lattice, rooms, placed, carving, cx, cy, r, mid);
    lemma_room_open(g1, lattice, rooms, placed, carving, cx, cy, r, s);
    assert(q == corridor_at((qx - 1) / 2, (qy - 1) / 2));
    g1.lemma_reach_self(q);
    if mid != q {
        g1.lemma_reach_step(q, q, mid);
    }
    if s != mid {
        g1.lemma_reach_step(q, mid, s);
    }
    assert(g1.reachable(corridor_at((qx - 1) / 2, (qy - 1) / 2), s));
}

/// A walkable square of the lattice lies near a corridor.
#[verifier::spinoff_prover]
proof fn lemma_owned_near(
    g1: &Grid,
    lattice: &Lattice,
    rooms: Seq<Room>,
    placed: Seq<Step>,
    carving: Seq<Step>,
    cx: int,
    cy: int,
    s: (usize, usize),
)
    requires
        carved_from(g1, lattice, rooms, placed, carving, cx, cy),
        lattice.owns_square(s.0 as int, s.1 as int),
        g1.open_at(s),
    ensures
        near_corridor(g1, cx, cy, s),
{
    lemma_carved_basics(g1, lattice, rooms, placed, carving, cx, cy);
    let sx = s.0 as int;
    let sy = s.1 as int;
    if sx % 2 == 1 && sy % 2 == 1 {
        assert(s == corridor_at((sx - 1) / 2, (sy - 1) / 2));
        g1.lemma_reach_self(s);
        assert(g1.reachable(corridor_at((sx - 1) / 2, (sy - 1) / 2), s));
    } else if sx % 2 == 0 {
        let q = corridor_at(sx / 2 - 1, (sy - 1) / 2);
        lemma_corridor_open(g1, lattice, rooms, placed, carving, cx, cy, sx / 2 - 1, (sy - 1) / 2);
        g1.lemma_reach_self(q);
        g1.lemma_reach_step(q, q, s);
        assert(g1.reachable(corridor_at(sx / 2 - 1, (sy - 1) / 2), s));
    } else {
        let q = corridor_at((sx - 1) / 2, sy / 2 - 1);
        lemma_corridor_open(g1, lattice, rooms, placed, carving, cx, cy, (sx - 1) / 2, sy / 2 - 1);
        g1.lemma_reach_self(q);
        g1.lemma_reach_step(q, q, s);
        assert(g1.reachable(corridor_at((sx - 1) / 2, sy / 2 - 1), s));
    }
}

/// A walkable square lies near a corridor: it was painted by a room or by
/// the carving.
#[verifier::rlimit(60)]
#[verifier::spinoff_prover]
proof fn lemma_square_near(
    g1: &Grid,
    lattice: &Lattice,
    rooms: Seq<Room>,
    placed: Seq<Step>,
    carving: Seq<Step>,
    cx: int,
    cy: int,
    s: (usize, usize),
)
    requires
        carved_from(g1, lattice, rooms, placed, carving, cx, cy),
        g1.open_at(s),
    ensures
        near_corridor(g1, cx, cy, s),
{
    reveal(carved_from);
    let w = 2 * cx + 1;
    let h = 2 * cy + 1;
    let n = rooms.len() as int;
    let all = placed + carving;
    let walls = all_walls(w * h);
    lemma_all_inside(g1, lattice, rooms, placed, carving, cx, cy);
    let i = square_index(w, s.0 as int, s.1 as int);
    lemma_square_index(w, h, s.0 as int, s.1 as int);
    if forall|k: int| 0 <= k < all.len() ==> square_index(w, (#[trigger] all[k]).x as int, all[k].y as int) != i {
        lemma_untouched(walls, w, h, all, i);
        assert(false);
    }
    let k = choose|k: int| 0 <= k < all.len() && square_index(w, (#[trigger] all[k]).x as int, all[k].y as int) == i;
    lemma_square_index_injective(w, all[k].x as int, all[k].y as int, s.0 as int, s.1 as int);
    if k < placed.len() {
        assert(all[k] == placed[k]);
        let r = choose|r: int| 0 <= r < n && #[trigger] rooms[r].covers(s.0 as int, s.1 as int);
        lemma_room_near(g1, lattice, rooms, placed, carving, cx, cy, r, s);
    } else {
        assert(all[k] == carving[k - placed.len()]);
        assert(lattice.owns_square(carving[k - placed.len()].x as int, carving[k - placed.len()].y as int));
        lemma_owned_near(g1, lattice, rooms, placed, carving, cx, cy, s);
    }
}

/// What the rooms and a carving that floors every corridor and walls none
/// in leave: every corridor square walkable, and every walkable square
/// reachable from some corridor square.
#[verifier::spinoff_prover]
pub proof fn lemma_carved_near(
    g1: &Grid,
    lattice: &Lattice,
    rooms: Seq<Room>,
    placed: Seq<Step>,
    carving: Seq<Step>,
    cx: int,
    cy: int,
)
    requires
        carved_from(g1, lattice, rooms, placed, carving, cx, cy),
    ensures
        forall|x: int, y: int| 0 <= x < cx && 0 <= y < cy ==> #[trigger] g1.open_at(corridor_at(x, y)),
        forall|s: (usize, usize)| #[trigger] g1.open_at(s) ==> near_corridor(g1, cx, cy, s),
{
    assert forall|x: int, y: int| 0 <= x < cx && 0 <= y < cy implies #[trigger] g1.open_at(corridor_at(x, y)) by {
        lemma_corridor_open(g1, lattice, rooms, placed, carving, cx, cy, x, y);
    }
    assert forall|s: (usize, usize)| #[trigger] g1.open_at(s) implies near_corridor(g1, cx, cy, s) by {
        lemma_square_near(g1, lattice, rooms, placed, carving, cx, cy, s);
    }
}

/// Steps that paint no wall keep every walkable square walkable.
#[verifier::spinoff_prover]
pub proof fn lemma_no_walls_open_more(cells: Seq<Cell>, w: int, h: int, steps: Seq<Step>)
    requires
        cells.len() == w * h,
        0 <= w,
        0 <= h,
        steps_inside(steps, w, h),
        forall|k: int| 0 <= k < steps.len() ==> (#[trigger] steps[k]).cell != Cell::Wall,
    ensures
        opens_more(cells, after_steps(cells, w, steps)),
    decreases steps.len(),
{
    if steps.len() > 0 {
        let rest = steps.drop_last();
        assert(steps_inside(rest, w, h)) by {
            assert forall|k: int| 0 <= k < rest.len() implies (#[trigger] rest[k]).x < w && rest[k].y < h by {
                assert(rest[k] == steps[k]);
            }
        }
        assert forall|k: int| 0 <= k < rest.len() implies (#[trigger] rest[k]).cell != Cell::Wall by {
            assert(rest[k] == steps[k]);
        }
        lemma_no_walls_open_more(cells, w, h, rest);
        crate::maze::grid::lemma_after_steps_len(cells, w, h, rest);
        let last = steps.last();
        assert(last == steps[steps.len() - 1]);
        lemma_open_step(after_steps(cells, w, rest), w, h, last);
    }
}

/// Every two walkable squares of the grid the steps draw, on `cx` by `cy`
/// corridors, reach each other.
pub open spec fn draws_joined(cx: int, cy: int, steps: Seq<Step>) -> bool {
    let w = 2 * cx + 1;
    let h = 2 * cy + 1;
    let cells = after_steps(all_walls(w * h), w, steps);
    forall|p: (usize, usize), q: (usize, usize)|
        #![trigger joins(cells, w, h, p, q)]
        open_in(cells, w, h, p) && open_in(cells, w, h, q) ==> joins(cells, w, h, p, q)
}

/// A grid that hangs together draws its steps joined, and the other way
/// round.
#[verifier::spinoff_prover]
pub proof fn lemma_hangs_draws(g: &Grid, cx: int, cy: int, steps: Seq<Step>)
    requires
        g.wf(),
        g.has_layout(2 * cx + 1, 2 * cy + 1, after_steps(all_walls((2 * cx + 1) * (2 * cy + 1)), 2 * cx + 1, steps)),
    ensures
        hangs_together(g) <==> draws_joined(cx, cy, steps),
{
    let w = 2 * cx + 1;
    let h = 2 * cy + 1;
    let cells = after_steps(all_walls(w * h), w, steps);
    assert forall|p: (usize, usize), q: (usize, usize)| true implies (g.reachable(p, q) == joins(cells, w, h, p, q)
        && (g.open_at(p) == open_in(cells, w, h, p))) by {
        lemma_reachable_joins(g, p, q);
    }
    if hangs_together(g) {
        assert forall|p: (usize, usize), q: (usize, usize)|
            #![trigger joins(cells, w, h, p, q)]
            open_in(cells, w, h, p) && open_in(cells, w, h, q) implies joins(cells, w, h, p, q) by {
            assert(g.open_at(p) && g.open_at(q));
            assert(g.reachable(p, q));
        }
    }
    if draws_joined(cx, cy, steps) {
        assert forall|p: (usize, usize), q: (usize, usize)|
            #![trigger g.reachable(p, q)]
            g.open_at(p) && g.open_at(q) implies g.reachable(p, q) by {
            assert(open_in(cells, w, h, p) && open_in(cells, w, h, q));
            assert(joins(cells, w, h, p, q));
        }
    }
}

} // verus!
