//! Walks over the squares of a grid given by its cells alone, and the
//! squares they join: how carvers show that what they carve hangs together.

use vstd::prelude::*;

use super::grid::{
    Cell, Grid, Step, adjacent, after_step, after_steps, lemma_after_steps_len, lemma_square_index,
    lemma_square_index_injective, square_index, steps_inside,
};

verus! {

/// The square lies inside a width x height grid and is not a wall.
pub open spec fn open_in(cells: Seq<Cell>, width: int, height: int, p: (usize, usize)) -> bool {
    p.0 < width && p.1 < height && cells[square_index(width, p.0 as int, p.1 as int)] != Cell::Wall
}

/// A walk from `path[0]`: squares inside the grid, each next to the one
/// before, every square after the first open.
pub open spec fn is_walk(cells: Seq<Cell>, width: int, height: int, path: Seq<(usize, usize)>) -> bool {
    &&& path.len() >= 1
    &&& forall|i: int| 0 <= i < path.len() ==> (#[trigger] path[i]).0 < width && path[i].1 < height
    &&& forall|i: int| 1 <= i < path.len() ==> open_in(cells, width, height, #[trigger] path[i])
    &&& forall|i: int| 0 <= i < path.len() - 1 ==> adjacent(#[trigger] path[i], path[i + 1])
}

/// A walk leads from `from` to `to`.
pub open spec fn joins(cells: Seq<Cell>, width: int, height: int, from: (usize, usize), to: (usize, usize)) -> bool {
    exists|path: Seq<(usize, usize)>| #[trigger] is_walk(cells, width, height, path) && path[0] == from && path.last() == to
}

/// Every open square can be reached from `from`.
pub open spec fn all_joined(cells: Seq<Cell>, width: int, height: int, from: (usize, usize)) -> bool {
    forall|p: (usize, usize)| #[trigger] open_in(cells, width, height, p) ==> joins(cells, width, height, from, p)
}

/// Every open square of `before` is open in `after`.
pub open spec fn opens_more(before: Seq<Cell>, after: Seq<Cell>) -> bool {
    &&& before.len() == after.len()
    &&& forall|i: int| 0 <= i < before.len() && before[i] != Cell::Wall ==> #[trigger] after[i] != Cell::Wall
}

/// Every square inside the grid reaches itself.
pub proof fn lemma_joins_self(cells: Seq<Cell>, width: int, height: int, p: (usize, usize))
    requires
        p.0 < width,
        p.1 < height,
    ensures
        joins(cells, width, height, p, p),
{
    let path = seq![p];
    assert(is_walk(cells, width, height, path) && path[0] == p && path.last() == p);
}

/// A walk continues onto an open square next to where it ends.
pub proof fn lemma_joins_step(
    cells: Seq<Cell>,
    width: int,
    height: int,
    from: (usize, usize),
    p: (usize, usize),
    q: (usize, usize),
)
    requires
        joins(cells, width, height, from, p),
        open_in(cells, width, height, q),
        adjacent(p, q),
    ensures
        joins(cells, width, height, from, q),
{
    let path = choose|path: Seq<(usize, usize)>|
        #[trigger] is_walk(cells, width, height, path) && path[0] == from && path.last() == p;
    let longer = path.push(q);
    assert forall|i: int| 0 <= i < longer.len() - 1 implies adjacent(#[trigger] longer[i], longer[i + 1]) by {
        if i < path.len() - 1 {
            assert(longer[i] == path[i] && longer[i + 1] == path[i + 1]);
        } else {
            assert(longer[i] == path.last());
        }
    }
    assert forall|i: int| 0 <= i < longer.len() implies (#[trigger] longer[i]).0 < width && longer[i].1 < height by {
        if i < path.len() {
            assert(longer[i] == path[i]);
        }
    }
    assert forall|i: int| 1 <= i < longer.len() implies open_in(cells, width, height, #[trigger] longer[i]) by {
        if i < path.len() {
            assert(longer[i] == path[i]);
        }
    }
    assert(is_walk(cells, width, height, longer) && longer[0] == from && longer.last() == q);
}

/// A walk between open squares can be walked backwards.
pub proof fn lemma_joins_back(cells: Seq<Cell>, width: int, height: int, p: (usize, usize), q: (usize, usize))
    requires
        open_in(cells, width, height, p),
        joins(cells, width, height, p, q),
    ensures
        joins(cells, width, height, q, p),
{
    let path = choose|path: Seq<(usize, usize)>|
        #[trigger] is_walk(cells, width, height, path) && path[0] == p && path.last() == q;
    let back = path.reverse();
    assert forall|i: int| 0 <= i < back.len() implies (#[trigger] back[i]).0 < width && back[i].1 < height
        && open_in(cells, width, height, back[i]) by {
        assert(back[i] == path[path.len() - 1 - i]);
        if path.len() - 1 - i >= 1 {
            assert(open_in(cells, width, height, path[path.len() - 1 - i]));
        }
    }
    assert forall|i: int| 0 <= i < back.len() - 1 implies adjacent(#[trigger] back[i], back[i + 1]) by {
        assert(back[i] == path[path.len() - 1 - i]);
        assert(back[i + 1] == path[path.len() - 2 - i]);
        assert(adjacent(path[path.len() - 2 - i], path[path.len() - 2 - i + 1]));
    }
    assert(is_walk(cells, width, height, back) && back[0] == q && back.last() == p);
}

/// Walks can be chained.
pub proof fn lemma_joins_chain(
    cells: Seq<Cell>,
    width: int,
    height: int,
    a: (usize, usize),
    b: (usize, usize),
    c: (usize, usize),
)
    requires
        joins(cells, width, height, a, b),
        joins(cells, width, height, b, c),
    ensures
        joins(cells, width, height, a, c),
{
    let first = choose|path: Seq<(usize, usize)>|
        #[trigger] is_walk(cells, width, height, path) && path[0] == a && path.last() == b;
    let second = choose|path: Seq<(usize, usize)>|
        #[trigger] is_walk(cells, width, height, path) && path[0] == b && path.last() == c;
    let joined = first + second.drop_first();
    assert forall|i: int| 0 <= i < joined.len() implies (#[trigger] joined[i]).0 < width && joined[i].1 < height by {
        if i < first.len() {
            assert(joined[i] == first[i]);
        } else {
            assert(joined[i] == second[i - first.len() + 1]);
        }
    }
    assert forall|i: int| 1 <= i < joined.len() implies open_in(cells, width, height, #[trigger] joined[i]) by {
        if i < first.len() {
            assert(joined[i] == first[i]);
        } else {
            assert(joined[i] == second[i - first.len() + 1]);
        }
    }
    assert forall|i: int| 0 <= i < joined.len() - 1 implies adjacent(#[trigger] joined[i], joined[i + 1]) by {
        if i < first.len() - 1 {
            assert(joined[i] == first[i] && joined[i + 1] == first[i + 1]);
        } else if i == first.len() - 1 {
            assert(joined[i] == first.last());
            assert(joined[i + 1] == second[1]);
            assert(adjacent(second[0], second[1]));
        } else {
            assert(joined[i] == second[i - first.len() + 1]);
            assert(joined[i + 1] == second[i - first.len() + 2]);
        }
    }
    if second.len() == 1 {
        assert(joined =~= first);
    } else {
        assert(joined.last() == second.last());
    }
    assert(is_walk(cells, width, height, joined) && joined[0] == a && joined.last() == c);
}

/// Opening more squares keeps every walk.
pub proof fn lemma_joins_grows(
    before: Seq<Cell>,
    after: Seq<Cell>,
    width: int,
    height: int,
    from: (usize, usize),
    to: (usize, usize),
)
    requires
        opens_more(before, after),
        before.len() == width * height,
        joins(before, width, height, from, to),
    ensures
        joins(after, width, height, from, to),
{
    let path = choose|path: Seq<(usize, usize)>|
        #[trigger] is_walk(before, width, height, path) && path[0] == from && path.last() == to;
    assert forall|i: int| 1 <= i < path.len() implies open_in(after, width, height, #[trigger] path[i]) by {
        assert(open_in(before, width, height, path[i]));
        lemma_square_index(width, height, path[i].0 as int, path[i].1 as int);
    }
    assert(is_walk(after, width, height, path));
}

/// A step that paints anything but a wall opens its square and closes none.
pub proof fn lemma_open_step(cells: Seq<Cell>, width: int, height: int, step: Step)
    requires
        cells.len() == width * height,
        step.x < width,
        step.y < height,
        step.cell != Cell::Wall,
    ensures
        opens_more(cells, after_step(cells, width, step)),
        open_in(after_step(cells, width, step), width, height, (step.x, step.y)),
        forall|i: int|
            0 <= i < cells.len() && i != square_index(width, step.x as int, step.y as int) ==> #[trigger] after_step(
                cells,
                width,
                step,
            )[i] == cells[i],
{
    lemma_square_index(width, height, step.x as int, step.y as int);
}

/// On a grid, reaching is joining over its cells.
pub proof fn lemma_reachable_joins(grid: &Grid, p: (usize, usize), q: (usize, usize))
    requires
        grid.wf(),
    ensures
        grid.reachable(p, q) == joins(grid@, grid.spec_width(), grid.spec_height(), p, q),
{
    let w = grid.spec_width();
    let h = grid.spec_height();
    assert forall|path: Seq<(usize, usize)>| #[trigger] grid.is_route(path) == is_walk(grid@, w, h, path) by {
        if grid.is_route(path) {
            assert forall|i: int| 1 <= i < path.len() implies open_in(grid@, w, h, #[trigger] path[i]) by {
                assert(grid.open_at(path[i]));
            }
        }
        if is_walk(grid@, w, h, path) {
            assert forall|i: int| 0 <= i < path.len() implies grid.inside(#[trigger] path[i]) by {
                assert(path[i].0 < w && path[i].1 < h);
            }
            assert forall|i: int| 1 <= i < path.len() implies grid.open_at(#[trigger] path[i]) by {
                assert(open_in(grid@, w, h, path[i]));
            }
        }
    }
    if grid.reachable(p, q) {
        let path = choose|path: Seq<(usize, usize)>| grid.is_route(path) && path[0] == p && path.last() == q;
        assert(is_walk(grid@, w, h, path));
    }
    if joins(grid@, w, h, p, q) {
        let path = choose|path: Seq<(usize, usize)>|
            #[trigger] is_walk(grid@, w, h, path) && path[0] == p && path.last() == q;
        assert(grid.is_route(path));
    }
}

/// Two different squares inside the grid have different indices.
pub proof fn lemma_other_square(w: int, h: int, p: (usize, usize), q: (usize, usize))
    requires
        p.0 < w,
        p.1 < h,
        q.0 < w,
        q.1 < h,
        p != q,
    ensures
        square_index(w, p.0 as int, p.1 as int) != square_index(w, q.0 as int, q.1 as int),
{
    if square_index(w, p.0 as int, p.1 as int) == square_index(w, q.0 as int, q.1 as int) {
        lemma_square_index_injective(w, p.0 as int, p.1 as int, q.0 as int, q.1 as int);
    }
}

/// Only `fresh` opened between `before` and `after`.
pub open spec fn opened_only(before: Seq<Cell>, after: Seq<Cell>, w: int, h: int, fresh: (usize, usize)) -> bool {
    &&& opens_more(before, after)
    &&& before.len() == w * h
    &&& open_in(after, w, h, fresh)
    &&& forall|p: (usize, usize)| #[trigger] open_in(after, w, h, p) && p != fresh ==> open_in(before, w, h, p)
}

/// A step that opens a square inside the grid opens only that square.
pub proof fn lemma_opened_only(cells: Seq<Cell>, w: int, h: int, step: Step)
    requires
        cells.len() == w * h,
        step.x < w,
        step.y < h,
        step.cell != Cell::Wall,
    ensures
        opened_only(cells, crate::maze::grid::after_step(cells, w, step), w, h, (step.x, step.y)),
{
    lemma_open_step(cells, w, h, step);
    let after = crate::maze::grid::after_step(cells, w, step);
    assert forall|p: (usize, usize)| #[trigger] open_in(after, w, h, p) && p != (step.x, step.y) implies open_in(
        cells,
        w,
        h,
        p,
    ) by {
        lemma_square_index(w, h, p.0 as int, p.1 as int);
        lemma_other_square(w, h, p, (step.x, step.y));
    }
}

/// The cells after replaying the steps, kept folded while a carver works.
#[verifier::opaque]
pub open spec fn replay(walls: Seq<Cell>, w: int, steps: Seq<Step>) -> Seq<Cell> {
    after_steps(walls, w, steps)
}

/// One more step replays as one more step.
pub proof fn lemma_replay_push(walls: Seq<Cell>, w: int, steps: Seq<Step>, step: Step)
    ensures
        replay(walls, w, steps.push(step)) == crate::maze::grid::after_step(replay(walls, w, steps), w, step),
{
    reveal(replay);
    assert(steps.push(step).drop_last() =~= steps);
}


/// Opening one square keeps every open square joined to `from`, when the
/// square was already open, is `from` itself, or lies next to a square
/// joined to `from`.
pub proof fn lemma_joined_extend(
    before: Seq<Cell>,
    after: Seq<Cell>,
    w: int,
    h: int,
    from: (usize, usize),
    fresh: (usize, usize),
    anchor: (usize, usize),
)
    requires
        all_joined(before, w, h, from),
        opened_only(before, after, w, h, fresh),
        from.0 < w,
        from.1 < h,
        fresh == from || open_in(before, w, h, fresh) || (joins(before, w, h, from, anchor) && adjacent(anchor, fresh)),
    ensures
        all_joined(after, w, h, from),
{
    assert forall|p: (usize, usize)| #[trigger] open_in(after, w, h, p) implies joins(after, w, h, from, p) by {
        if p == fresh {
            if fresh == from {
                lemma_joins_self(after, w, h, from);
            } else if open_in(before, w, h, fresh) {
                lemma_joins_grows(before, after, w, h, from, fresh);
            } else {
                lemma_joins_grows(before, after, w, h, from, anchor);
                lemma_joins_step(after, w, h, from, anchor, fresh);
            }
        } else {
            lemma_joins_grows(before, after, w, h, from, p);
        }
    }
}

/// When no step paints a wall, every square a step paints is open once
/// all of them are replayed.
pub proof fn lemma_stepped_open(cells: Seq<Cell>, w: int, h: int, steps: Seq<Step>, i: int)
    requires
        cells.len() == w * h,
        0 <= w,
        0 <= h,
        steps_inside(steps, w, h),
        forall|k: int| 0 <= k < steps.len() ==> (#[trigger] steps[k]).cell != Cell::Wall,
        0 <= i < steps.len(),
    ensures
        open_in(after_steps(cells, w, steps), w, h, (steps[i].x, steps[i].y)),
    decreases steps.len(),
{
    let rest = steps.drop_last();
    let last = steps.last();
    assert(steps_inside(rest, w, h)) by {
        assert forall|k: int| 0 <= k < rest.len() implies (#[trigger] rest[k]).x < w && rest[k].y < h by {
            assert(rest[k] == steps[k]);
        }
    }
    lemma_after_steps_len(cells, w, h, rest);
    let prior = after_steps(cells, w, rest);
    assert(steps[steps.len() - 1] == last);
    lemma_open_step(prior, w, h, last);
    if i < steps.len() - 1 {
        assert forall|k: int| 0 <= k < rest.len() implies (#[trigger] rest[k]).cell != Cell::Wall by {
            assert(rest[k] == steps[k]);
        }
        assert(rest[i] == steps[i]);
        lemma_stepped_open(cells, w, h, rest, i);
        lemma_square_index(w, h, steps[i].x as int, steps[i].y as int);
    }
}

/// Nothing but walls and floors.
pub open spec fn plain(cells: Seq<Cell>) -> bool {
    forall|i: int| 0 <= i < cells.len() ==> #[trigger] cells[i] == Cell::Wall || cells[i] == Cell::Floor
}

/// A square no step lands on keeps its cell.
pub proof fn lemma_untouched(cells: Seq<Cell>, w: int, h: int, steps: Seq<Step>, i: int)
    requires
        cells.len() == w * h,
        0 <= w,
        0 <= h,
        0 <= i < w * h,
        steps_inside(steps, w, h),
        forall|k: int| 0 <= k < steps.len() ==> square_index(w, (#[trigger] steps[k]).x as int, steps[k].y as int) != i,
    ensures
        after_steps(cells, w, steps)[i] == cells[i],
    decreases steps.len(),
{
    if steps.len() > 0 {
        let rest = steps.drop_last();
        assert forall|k: int| 0 <= k < rest.len() implies square_index(w, (#[trigger] rest[k]).x as int, rest[k].y as int)
            != i by {
            assert(rest[k] == steps[k]);
        }
        assert(steps_inside(rest, w, h)) by {
            assert forall|k: int| 0 <= k < rest.len() implies (#[trigger] rest[k]).x < w && rest[k].y < h by {
                assert(rest[k] == steps[k]);
            }
        }
        lemma_untouched(cells, w, h, rest, i);
        lemma_after_steps_len(cells, w, h, rest);
        assert(steps[steps.len() - 1] == steps.last());
        lemma_square_index(w, h, steps.last().x as int, steps.last().y as int);
    }
}

/// Floor steps keep a grid of walls and floors one.
pub proof fn lemma_floors_plain(cells: Seq<Cell>, w: int, h: int, steps: Seq<Step>)
    requires
        cells.len() == w * h,
        0 <= w,
        0 <= h,
        plain(cells),
        steps_inside(steps, w, h),
        forall|k: int| 0 <= k < steps.len() ==> (#[trigger] steps[k]).cell == Cell::Floor,
    ensures
        plain(after_steps(cells, w, steps)),
        after_steps(cells, w, steps).len() == cells.len(),
    decreases steps.len(),
{
    lemma_after_steps_len(cells, w, h, steps);
    if steps.len() > 0 {
        let rest = steps.drop_last();
        assert(steps_inside(rest, w, h)) by {
            assert forall|k: int| 0 <= k < rest.len() implies (#[trigger] rest[k]).x < w && rest[k].y < h by {
                assert(rest[k] == steps[k]);
            }
        }
        assert forall|k: int| 0 <= k < rest.len() implies (#[trigger] rest[k]).cell == Cell::Floor by {
            assert(rest[k] == steps[k]);
        }
        lemma_floors_plain(cells, w, h, rest);
        lemma_after_steps_len(cells, w, h, rest);
        assert(steps[steps.len() - 1] == steps.last());
        lemma_square_index(w, h, steps.last().x as int, steps.last().y as int);
    }
}

/// Walling one square in keeps every open square joined to `from`, when
/// the open squares next to it are joined to each other without it.
pub proof fn lemma_close_square(
    before: Seq<Cell>,
    after: Seq<Cell>,
    w: int,
    h: int,
    from: (usize, usize),
    m: (usize, usize),
)
    requires
        all_joined(before, w, h, from),
        before.len() == w * h,
        m.0 < w,
        m.1 < h,
        after == before.update(square_index(w, m.0 as int, m.1 as int), Cell::Wall),
        open_in(after, w, h, from),
        forall|p: (usize, usize), q: (usize, usize)|
            open_in(after, w, h, p) && open_in(after, w, h, q) && #[trigger] adjacent(p, m) && #[trigger] adjacent(q, m)
                ==> joins(after, w, h, p, q),
    ensures
        all_joined(after, w, h, from),
{
    assert forall|r: (usize, usize)| #[trigger] open_in(after, w, h, r) implies joins(after, w, h, from, r) by {
        lemma_square_index(w, h, m.0 as int, m.1 as int);
        lemma_square_index(w, h, r.0 as int, r.1 as int);
        if r == m {
            assert(after[square_index(w, m.0 as int, m.1 as int)] == Cell::Wall);
        }
        lemma_other_square(w, h, r, m);
        assert(open_in(before, w, h, r));
        let path = choose|path: Seq<(usize, usize)>|
            #[trigger] is_walk(before, w, h, path) && path[0] == from && path.last() == r;
        lemma_reroute(before, after, w, h, from, m, path, path.len() - 1);
    }
}

/// Along a walk of `before` that starts at `from`, every square but `m` is
/// joined to `from` once `m` is walled in.
proof fn lemma_reroute(
    before: Seq<Cell>,
    after: Seq<Cell>,
    w: int,
    h: int,
    from: (usize, usize),
    m: (usize, usize),
    path: Seq<(usize, usize)>,
    i: int,
)
    requires
        before.len() == w * h,
        m.0 < w,
        m.1 < h,
        after == before.update(square_index(w, m.0 as int, m.1 as int), Cell::Wall),
        open_in(after, w, h, from),
        forall|p: (usize, usize), q: (usize, usize)|
            open_in(after, w, h, p) && open_in(after, w, h, q) && #[trigger] adjacent(p, m) && #[trigger] adjacent(q, m)
                ==> joins(after, w, h, p, q),
        is_walk(before, w, h, path),
        path[0] == from,
        0 <= i < path.len(),
        path[i] != m,
    ensures
        joins(after, w, h, from, path[i]),
    decreases i,
{
    lemma_square_index(w, h, m.0 as int, m.1 as int);
    if i == 0 {
        lemma_joins_self(after, w, h, from);
    } else {
        let p = path[i];
        assert(open_in(before, w, h, p));
        lemma_square_index(w, h, p.0 as int, p.1 as int);
        lemma_other_square(w, h, p, m);
        assert(open_in(after, w, h, p));
        assert(adjacent(path[i - 1], path[i]));
        if path[i - 1] != m {
            lemma_reroute(before, after, w, h, from, m, path, i - 1);
            lemma_joins_step(after, w, h, from, path[i - 1], p);
        } else {
            assert(i - 1 >= 1);
            let q = path[i - 2];
            assert(adjacent(path[i - 2], path[i - 1]));
            assert(q != m);
            lemma_reroute(before, after, w, h, from, m, path, i - 2);
            if i - 2 >= 1 {
                assert(open_in(before, w, h, q));
                lemma_square_index(w, h, q.0 as int, q.1 as int);
                lemma_other_square(w, h, q, m);
            }
            assert(open_in(after, w, h, q));
            assert(adjacent(q, m) && adjacent(p, m));
            assert(joins(after, w, h, q, p));
            lemma_joins_chain(after, w, h, from, q, p);
        }
    }
}

} // verus!
