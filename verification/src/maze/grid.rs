//! The square grid a maze is drawn on. Corridors sit on odd coordinates and
//! the squares between them are walls until something opens them.

use vstd::prelude::*;

verus! {

#[derive(Clone, Copy, PartialEq, Eq, Debug, Structural)]
pub enum Cell {
    Wall,
    Floor,
    Door,
    Start,
    End,
    /// A square an algorithm is still working on; drawn as floor with a tint.
    Probe,
}

/// One change to the grid, in square coordinates. Algorithms produce a list
/// of these; the app replays them to animate the generation.
#[derive(Clone, Copy, PartialEq, Eq, Debug, Structural)]
pub struct Step {
    pub x: usize,
    pub y: usize,
    pub cell: Cell,
}

/// Two squares that share a side.
pub open spec fn adjacent(a: (usize, usize), b: (usize, usize)) -> bool {
    ||| a.0 == b.0 && (a.1 + 1 == b.1 || b.1 + 1 == a.1)
    ||| a.1 == b.1 && (a.0 + 1 == b.0 || b.0 + 1 == a.0)
}

/// The orthogonal neighbours of (x, y) inside a width x height grid, in the
/// order left, up, right, down.
pub open spec fn neighbours_spec(x: usize, y: usize, width: usize, height: usize) -> Seq<(usize, usize)> {
    let left = if x > 0 { seq![((x - 1) as usize, y)] } else { Seq::empty() };
    let up = if y > 0 { seq![(x, (y - 1) as usize)] } else { Seq::empty() };
    let right = if x + 1 < width { seq![((x + 1) as usize, y)] } else { Seq::empty() };
    let down = if y + 1 < height { seq![(x, (y + 1) as usize)] } else { Seq::empty() };
    left + up + right + down
}

/// The neighbours listed are exactly the adjacent squares inside the grid.
pub proof fn lemma_neighbours(x: usize, y: usize, width: usize, height: usize)
    requires
        x < width,
        y < height,
    ensures
        forall|i: int|
            0 <= i < neighbours_spec(x, y, width, height).len() ==> {
                let p = #[trigger] neighbours_spec(x, y, width, height)[i];
                adjacent((x, y), p) && p.0 < width && p.1 < height
            },
        forall|p: (usize, usize)|
            adjacent((x, y), p) && p.0 < width && p.1 < height ==> #[trigger] neighbours_spec(
                x,
                y,
                width,
                height,
            ).contains(p),
        neighbours_spec(x, y, width, height).len() <= 4,
{
    let s = neighbours_spec(x, y, width, height);
    let left = if x > 0 { seq![((x - 1) as usize, y)] } else { Seq::<(usize, usize)>::empty() };
    let up = if y > 0 { seq![(x, (y - 1) as usize)] } else { Seq::<(usize, usize)>::empty() };
    let right = if x + 1 < width { seq![((x + 1) as usize, y)] } else { Seq::<(usize, usize)>::empty() };
    let down = if y + 1 < height { seq![(x, (y + 1) as usize)] } else { Seq::<(usize, usize)>::empty() };
    assert(s == left + up + right + down);
    assert forall|p: (usize, usize)|
        adjacent((x, y), p) && p.0 < width && p.1 < height implies #[trigger] s.contains(p) by {
        if x > 0 && p == ((x - 1) as usize, y) {
            assert(s[0] == p);
        } else if y > 0 && p == (x, (y - 1) as usize) {
            assert(s[left.len() as int] == p);
        } else if x + 1 < width && p == ((x + 1) as usize, y) {
            assert(s[(left.len() + up.len()) as int] == p);
        } else {
            assert(s[(left.len() + up.len() + right.len()) as int] == p);
        }
    }
}

/// The up-to-four orthogonal neighbours of (x, y) inside a width x height grid.
pub fn neighbours(x: usize, y: usize, width: usize, height: usize) -> (out: Vec<(usize, usize)>)
    requires
        x < usize::MAX,
        y < usize::MAX,
    ensures
        out@ == neighbours_spec(x, y, width, height),
{
    let mut out = Vec::with_capacity(4);
    if x > 0 {
        out.push((x - 1, y));
    }
    if y > 0 {
        out.push((x, y - 1));
    }
    if x + 1 < width {
        out.push((x + 1, y));
    }
    if y + 1 < height {
        out.push((x, y + 1));
    }
    proof {
        assert(out@ =~= neighbours_spec(x, y, width, height));
    }
    out
}

/// Index of square (x, y) in row-major order.
pub open spec fn square_index(width: int, x: int, y: int) -> int {
    y * width + x
}

/// Row-major indices of squares inside a width x height grid are in range,
/// and decode back to the square.
pub proof fn lemma_square_index(width: int, height: int, x: int, y: int)
    requires
        0 <= x < width,
        0 <= y < height,
    ensures
        0 <= square_index(width, x, y) < width * height,
        square_index(width, x, y) % width == x,
        square_index(width, x, y) / width == y,
{
    assert(0 <= y * width) by (nonlinear_arith)
        requires
            0 <= y,
            0 < width,
    ;
    assert(y * width + x < width * height) by (nonlinear_arith)
        requires
            0 <= x < width,
            0 <= y < height,
    ;
    vstd::arithmetic::div_mod::lemma_fundamental_div_mod_converse(
        square_index(width, x, y),
        width,
        y,
        x,
    );
}

/// Distinct squares have distinct indices.
pub proof fn lemma_square_index_injective(width: int, x1: int, y1: int, x2: int, y2: int)
    requires
        0 <= x1 < width,
        0 <= x2 < width,
        0 <= y1,
        0 <= y2,
        square_index(width, x1, y1) == square_index(width, x2, y2),
    ensures
        x1 == x2,
        y1 == y2,
{
    vstd::arithmetic::div_mod::lemma_fundamental_div_mod_converse(
        square_index(width, x1, y1),
        width,
        y1,
        x1,
    );
    vstd::arithmetic::div_mod::lemma_fundamental_div_mod_converse(
        square_index(width, x2, y2),
        width,
        y2,
        x2,
    );
}

/// What one step does to the cells: Start and End are never painted over.
pub open spec fn after_step(cells: Seq<Cell>, width: int, step: Step) -> Seq<Cell> {
    let i = square_index(width, step.x as int, step.y as int);
    if cells[i] == Cell::Start || cells[i] == Cell::End {
        cells
    } else {
        cells.update(i, step.cell)
    }
}

/// The cells once every step has been applied in order.
pub open spec fn after_steps(cells: Seq<Cell>, width: int, steps: Seq<Step>) -> Seq<Cell>
    decreases steps.len(),
{
    if steps.len() == 0 {
        cells
    } else {
        after_step(after_steps(cells, width, steps.drop_last()), width, steps.last())
    }
}

/// Every step of the list lies inside a width x height grid.
pub open spec fn steps_inside(steps: Seq<Step>, width: int, height: int) -> bool {
    forall|i: int|
        0 <= i < steps.len() ==> (#[trigger] steps[i]).x < width && steps[i].y < height
}

pub struct Grid {
    width: usize,
    height: usize,
    cells: Vec<Cell>,
}

impl View for Grid {
    type V = Seq<Cell>;

    closed spec fn view(&self) -> Seq<Cell> {
        self.cells@
    }
}

impl Grid {
    pub closed spec fn spec_width(&self) -> int {
        self.width as int
    }

    pub closed spec fn spec_height(&self) -> int {
        self.height as int
    }

    /// One cell per square, in row-major order.
    pub open spec fn wf(&self) -> bool {
        &&& self@.len() == self.spec_width() * self.spec_height()
        &&& self.spec_width() * self.spec_height() <= usize::MAX
        &&& 0 <= self.spec_width() <= usize::MAX
        &&& 0 <= self.spec_height() <= usize::MAX
    }

    pub open spec fn in_bounds(&self, x: int, y: int) -> bool {
        0 <= x < self.spec_width() && 0 <= y < self.spec_height()
    }

    pub open spec fn cell(&self, x: int, y: int) -> Cell {
        self@[square_index(self.spec_width(), x, y)]
    }

    /// A square that can be walked on: inside the grid and not a wall.
    pub open spec fn is_walkable(&self, x: int, y: int) -> bool {
        self.in_bounds(x, y) && self.cell(x, y) != Cell::Wall
    }

    /// Takes the number of corridors the user asked for; the square grid
    /// is 2n+1 in each direction so that walls occupy full squares.
    pub fn new(corridors_x: usize, corridors_y: usize) -> (grid: Self)
        requires
            (2 * corridors_x + 1) * (2 * corridors_y + 1) <= usize::MAX,
        ensures
            grid.wf(),
            grid.spec_width() == 2 * corridors_x + 1,
            grid.spec_height() == 2 * corridors_y + 1,
            grid@ == Seq::new(grid@.len(), |i: int| Cell::Wall),
    {
        assert(corridors_x * 2 + 1 <= usize::MAX && corridors_y * 2 + 1 <= usize::MAX) by (nonlinear_arith)
            requires
                (2 * corridors_x + 1) * (2 * corridors_y + 1) <= usize::MAX,
        ;
        let width = corridors_x * 2 + 1;
        let height = corridors_y * 2 + 1;
        assert(width * height == (2 * corridors_x + 1) * (2 * corridors_y + 1));
        let cells = vec![Cell::Wall; width * height];
        let grid = Self { width, height, cells };
        assert(grid@ =~= Seq::new(grid@.len(), |i: int| Cell::Wall));
        grid
    }

    /// Start and End are placed before the carving is replayed, so carving
    /// steps must not paint over them.
    pub fn apply(&mut self, step: Step)
        requires
            old(self).wf(),
            old(self).in_bounds(step.x as int, step.y as int),
        ensures
            final(self).wf(),
            final(self).spec_width() == old(self).spec_width(),
            final(self).spec_height() == old(self).spec_height(),
            final(self)@ == after_step(old(self)@, old(self).spec_width(), step),
    {
        let current = self.get(step.x, step.y);
        if current == Cell::Start || current == Cell::End {
            return;
        }
        self.set(step.x, step.y, step.cell);
    }

    /// Back to the all-wall state, keeping the same size.
    pub fn reset(&mut self)
        requires
            old(self).wf(),
        ensures
            final(self).wf(),
            final(self).spec_width() == old(self).spec_width(),
            final(self).spec_height() == old(self).spec_height(),
            final(self)@ == Seq::new(old(self)@.len(), |i: int| Cell::Wall),
    {
        let n = self.cells.len();
        let mut i: usize = 0;
        while i < n
            invariant
                n == self.cells@.len(),
                n == old(self).cells@.len(),
                self.width == old(self).width,
                self.height == old(self).height,
                i <= n,
                forall|j: int| 0 <= j < i ==> self.cells@[j] == Cell::Wall,
            decreases n - i,
        {
            self.cells.set(i, Cell::Wall);
            i = i + 1;
        }
        assert(self@ =~= Seq::new(old(self)@.len(), |i: int| Cell::Wall));
    }

    pub fn width(&self) -> (w: usize)
        ensures
            w == self.spec_width(),
    {
        self.width
    }

    pub fn height(&self) -> (h: usize)
        ensures
            h == self.spec_height(),
    {
        self.height
    }

    pub fn get(&self, x: usize, y: usize) -> (cell: Cell)
        requires
            self.wf(),
            self.in_bounds(x as int, y as int),
        ensures
            cell == self.cell(x as int, y as int),
    {
        proof {
            lemma_square_index(self.width as int, self.height as int, x as int, y as int);
        }
        self.cells[y * self.width + x]
    }

    pub fn set(&mut self, x: usize, y: usize, cell: Cell)
        requires
            old(self).wf(),
            old(self).in_bounds(x as int, y as int),
        ensures
            final(self).wf(),
            final(self).spec_width() == old(self).spec_width(),
            final(self).spec_height() == old(self).spec_height(),
            final(self)@ == old(self)@.update(
                square_index(old(self).spec_width(), x as int, y as int),
                cell,
            ),
    {
        proof {
            lemma_square_index(self.width as int, self.height as int, x as int, y as int);
        }
        let i = y * self.width + x;
        self.cells.set(i, cell);
    }

    /// True for squares that can be walked on: anything but a wall.
    pub fn walkable(&self, x: usize, y: usize) -> (r: bool)
        requires
            self.wf(),
            self.in_bounds(x as int, y as int),
        ensures
            r == self.is_walkable(x as int, y as int),
    {
        self.get(x, y) != Cell::Wall
    }

    /// The first square, in row-major order, that holds `wanted`.
    pub fn find(&self, wanted: Cell) -> (r: Option<(usize, usize)>)
        requires
            self.wf(),
        ensures
            r is None ==> forall|x: int, y: int|
                self.in_bounds(x, y) ==> #[trigger] self.cell(x, y) != wanted,
            r matches Some(p) ==> {
                &&& self.in_bounds(p.0 as int, p.1 as int)
                &&& self.cell(p.0 as int, p.1 as int) == wanted
                &&& forall|x: int, y: int|
                    self.in_bounds(x, y) && square_index(self.spec_width(), x, y) < square_index(
                        self.spec_width(),
                        p.0 as int,
                        p.1 as int,
                    ) ==> #[trigger] self.cell(x, y) != wanted
            },
    {
        let mut y: usize = 0;
        while y < self.height
            invariant
                self.wf(),
                y <= self.height,
                forall|x2: int, y2: int|
                    self.in_bounds(x2, y2) && y2 < y ==> #[trigger] self.cell(x2, y2) != wanted,
            decreases self.height - y,
        {
            let mut x: usize = 0;
            while x < self.width
                invariant
                    self.wf(),
                    y < self.height,
                    x <= self.width,
                    forall|x2: int, y2: int|
                        self.in_bounds(x2, y2) && (y2 < y || (y2 == y && x2 < x)) ==> #[trigger] self.cell(
                            x2,
                            y2,
                        ) != wanted,
                decreases self.width - x,
            {
                if self.get(x, y) == wanted {
                    proof {
                        assert forall|x2: int, y2: int|
                            self.in_bounds(x2, y2) && square_index(self.spec_width(), x2, y2)
                                < square_index(self.spec_width(), x as int, y as int) implies #[trigger] self.cell(
                            x2,
                            y2,
                        ) != wanted by {
                            if y2 > y {
                                assert(square_index(self.spec_width(), x as int, y as int)
                                    < square_index(self.spec_width(), x2, y2)) by (nonlinear_arith)
                                    requires
                                        y2 > y,
                                        0 <= x < self.spec_width(),
                                        0 <= x2,
                                ;
                            } else if y2 == y {
                            }
                        }
                    }
                    return Some((x, y));
                }
                x = x + 1;
            }
            y = y + 1;
        }
        None
    }
}

/// The square a row-major index stands for.
pub open spec fn decode(width: int, i: int) -> (usize, usize) {
    ((i % width) as usize, (i / width) as usize)
}

/// The two coordinates of a flood entry.
pub open spec fn square_of(entry: (usize, usize, usize)) -> (usize, usize) {
    (entry.0, entry.1)
}

/// A breadth-first flood over walkable squares. `order` lists every square
/// reached with its distance, in the order reached; `distance` and
/// `came_from` are indexed by square (`usize::MAX` where never reached).
pub struct Flood {
    pub order: Vec<(usize, usize, usize)>,
    pub distance: Vec<usize>,
    pub came_from: Vec<usize>,
}

impl Grid {
    pub open spec fn idx(&self, p: (usize, usize)) -> int {
        square_index(self.spec_width(), p.0 as int, p.1 as int)
    }

    pub open spec fn inside(&self, p: (usize, usize)) -> bool {
        self.in_bounds(p.0 as int, p.1 as int)
    }

    pub open spec fn open_at(&self, p: (usize, usize)) -> bool {
        self.is_walkable(p.0 as int, p.1 as int)
    }

    /// A walk from `path[0]`: squares inside the grid, each next to the
    /// one before, every square after the first walkable.
    pub open spec fn is_route(&self, path: Seq<(usize, usize)>) -> bool {
        &&& path.len() >= 1
        &&& forall|i: int| 0 <= i < path.len() ==> self.inside(#[trigger] path[i])
        &&& forall|i: int| 1 <= i < path.len() ==> self.open_at(#[trigger] path[i])
        &&& forall|i: int| 0 <= i < path.len() - 1 ==> adjacent(#[trigger] path[i], path[i + 1])
    }

    /// `to` can be reached from `from` by a route.
    pub open spec fn reachable(&self, from: (usize, usize), to: (usize, usize)) -> bool {
        exists|path: Seq<(usize, usize)>|
            self.is_route(path) && path[0] == from && path.last() == to
    }

    pub open spec fn reached(&self, f: &Flood, p: (usize, usize)) -> bool {
        f.distance@[self.idx(p)] != usize::MAX
    }

    pub open spec fn dist(&self, f: &Flood, p: (usize, usize)) -> int {
        f.distance@[self.idx(p)] as int
    }

    /// What a finished breadth-first flood from `start` satisfies.
    #[verifier::opaque]
    pub open spec fn is_flood(&self, start: (usize, usize), f: &Flood) -> bool {
        let n = self.spec_width() * self.spec_height();
        &&& f.distance@.len() == n
        &&& f.came_from@.len() == n
        &&& 1 <= f.order@.len() <= n
        &&& f.order@[0] == (start.0, start.1, 0usize)
        // each entry is a square inside the grid, listed with its distance
        &&& forall|k: int|
            0 <= k < f.order@.len() ==> {
                &&& self.inside(square_of(#[trigger] f.order@[k]))
                &&& self.dist(f, square_of(f.order@[k])) == f.order@[k].2
                &&& self.reached(f, square_of(f.order@[k]))
                &&& (k > 0 ==> self.open_at(square_of(f.order@[k])))
            }
        // no square is listed twice
        &&& forall|k1: int, k2: int|
            0 <= k1 < k2 < f.order@.len() ==> square_of(#[trigger] f.order@[k1]) != square_of(
                #[trigger] f.order@[k2],
            )
        // distances never decrease along the list
        &&& forall|k1: int, k2: int|
            0 <= k1 <= k2 < f.order@.len() ==> (#[trigger] f.order@[k1]).2 <= (
            #[trigger] f.order@[k2]).2
        // every reached square is listed
        &&& forall|p: (usize, usize)|
            self.inside(p) && #[trigger] self.reached(f, p) ==> exists|k: int|
                0 <= k < f.order@.len() && square_of(#[trigger] f.order@[k]) == p
        // every reached square but the start was reached from a reached
        // neighbour one step closer
        &&& forall|p: (usize, usize)|
            self.inside(p) && #[trigger] self.reached(f, p) && p != start ==> {
                let c = f.came_from@[self.idx(p)] as int;
                let q = decode(self.spec_width(), c);
                &&& 0 <= c < n
                &&& self.inside(q)
                &&& self.idx(q) == c
                &&& adjacent(p, q)
                &&& self.reached(f, q)
                &&& self.dist(f, q) + 1 == self.dist(f, p)
            }
        // walkable neighbours of a reached square are reached, at most one
        // step further
        &&& forall|p: (usize, usize), q: (usize, usize)|
            self.inside(p) && #[trigger] self.reached(f, p) && #[trigger] self.open_at(q) && adjacent(
                p,
                q,
            ) ==> self.reached(f, q) && self.dist(f, q) <= self.dist(f, p) + 1
    }

    /// Breadth-first search from (start_x, start_y) over walkable squares.
    pub fn flood(&self, start_x: usize, start_y: usize) -> (f: Flood)
        requires
            self.wf(),
            self.in_bounds(start_x as int, start_y as int),
        ensures
            self.is_flood((start_x, start_y), &f),
    {
        let ghost w = self.spec_width();
        let ghost n = self.spec_width() * self.spec_height();
        let ghost start = (start_x, start_y);
        let width = self.width;
        let height = self.height;
        let total = width * height;
        proof {
            lemma_square_index(w, self.spec_height(), start_x as int, start_y as int);
        }
        let mut distance = vec![usize::MAX; total];
        let mut came_from = vec![usize::MAX; total];
        let mut order: Vec<(usize, usize, usize)> = Vec::new();
        let s = start_y * width + start_x;
        distance.set(s, 0);
        order.push((start_x, start_y, 0));
        let ghost mut slot: Seq<int> = Seq::new(n as nat, |i: int| 0int);
        let ghost mut found: Set<int> = set![s as int];
        proof {
            assert forall|p: (usize, usize)|
                self.inside(p) && distance@[self.idx(p)] != usize::MAX implies p == start by {
                lemma_square_index(w, self.spec_height(), p.0 as int, p.1 as int);
                lemma_square_index_injective(w, p.0 as int, p.1 as int, start_x as int, start_y as int);
            }
            assert(found =~= Set::new(|i: int| 0 <= i < n && distance@[i] != usize::MAX));
        }
        let mut head: usize = 0;
        while head < order.len()
            invariant
                self.wf(),
                width == w,
                w == self.spec_width(),
                n == self.spec_width() * self.spec_height(),
                start == (start_x, start_y),
                height == self.spec_height(),
                total == n,
                self.in_bounds(start_x as int, start_y as int),
                s == self.idx(start),
                distance@.len() == n,
                came_from@.len() == n,
                slot.len() == n,
                1 <= order@.len() <= n,
                head <= order@.len(),
                order@[0] == (start_x, start_y, 0usize),
                found.finite(),
                found.len() == order@.len(),
                forall|i: int| found.contains(i) <==> 0 <= i < n && distance@[i] != usize::MAX,
                forall|k: int|
                    0 <= k < order@.len() ==> {
                        &&& self.inside(square_of(#[trigger] order@[k]))
                        &&& distance@[self.idx(square_of(order@[k]))] == order@[k].2
                        &&& order@[k].2 <= k
                        &&& slot[self.idx(square_of(order@[k]))] == k
                        &&& (k > 0 ==> self.open_at(square_of(order@[k])))
                    },
                forall|i: int|
                    0 <= i < n && distance@[i] != usize::MAX ==> 0 <= #[trigger] slot[i] < order@.len()
                        && self.idx(square_of(order@[slot[i]])) == i,
                forall|k1: int, k2: int|
                    0 <= k1 <= k2 < order@.len() ==> (#[trigger] order@[k1]).2 <= (
                    #[trigger] order@[k2]).2,
                head < order@.len() ==> forall|k: int|
                    head <= k < order@.len() ==> (#[trigger] order@[k]).2 <= order@[head as int].2
                        + 1,
                forall|p: (usize, usize)|
                    self.inside(p) && distance@[self.idx(p)] != usize::MAX && p != start ==> {
                        let c = #[trigger] came_from@[self.idx(p)] as int;
                        let q = decode(w, c);
                        &&& 0 <= c < n
                        &&& self.inside(q)
                        &&& self.idx(q) == c
                        &&& adjacent(p, q)
                        &&& distance@[c] != usize::MAX
                        &&& distance@[c] + 1 == distance@[self.idx(p)]
                    },
                forall|k: int, q: (usize, usize)|
                    0 <= k < head && self.open_at(q) && adjacent(square_of(#[trigger] order@[k]), q)
                        ==> distance@[#[trigger] self.idx(q)] != usize::MAX && distance@[self.idx(q)]
                        <= order@[k].2 + 1,
            decreases n - head,
        {
            let entry = order[head];
            let x = entry.0;
            let y = entry.1;
            let d = entry.2;
            proof {
                assert(entry == order@[head as int]);
                assert(self.inside(square_of(order@[head as int])));
                assert(order@[head as int].2 <= head);
                lemma_square_index(w, self.spec_height(), x as int, y as int);
            }
            let here = y * width + x;
            let nbrs = neighbours(x, y, width, height);
            proof {
                lemma_neighbours(x, y, width, height);
            }
            let ghost order0 = order@;
            let ghost distance0 = distance@;
            let mut j: usize = 0;
            while j < nbrs.len()
                invariant
                    self.wf(),
                    width == w,
                    w == self.spec_width(),
                    n == self.spec_width() * self.spec_height(),
                    start == (start_x, start_y),
                    height == self.spec_height(),
                    total == n,
                    self.in_bounds(start_x as int, start_y as int),
                    s == self.idx(start),
                    nbrs@ == neighbours_spec(x, y, width, height),
                    nbrs@.len() <= 4,
                    forall|i: int|
                        0 <= i < nbrs@.len() ==> {
                            let p = #[trigger] nbrs@[i];
                            adjacent((x, y), p) && p.0 < width && p.1 < height
                        },
                    j <= nbrs@.len(),
                    distance@.len() == n,
                    came_from@.len() == n,
                    slot.len() == n,
                    head < order0.len(),
                    order0[head as int] == (x, y, d),
                    here == self.idx((x, y)),
                    0 <= here < n,
                    d <= head,
                    d != usize::MAX,
                    order0.len() <= order@.len() <= n,
                    forall|k: int| 0 <= k < order0.len() ==> #[trigger] order@[k] == order0[k],
                    forall|i: int|
                        0 <= i < n && distance0[i] != usize::MAX ==> #[trigger] distance@[i]
                            == distance0[i],
                    order@[0] == (start_x, start_y, 0usize),
                    found.finite(),
                    found.len() == order@.len(),
                    forall|i: int| found.contains(i) <==> 0 <= i < n && distance@[i] != usize::MAX,
                    forall|k: int|
                        0 <= k < order@.len() ==> {
                            &&& self.inside(square_of(#[trigger] order@[k]))
                            &&& distance@[self.idx(square_of(order@[k]))] == order@[k].2
                            &&& order@[k].2 <= k
                            &&& slot[self.idx(square_of(order@[k]))] == k
                            &&& (k > 0 ==> self.open_at(square_of(order@[k])))
                        },
                    forall|i: int|
                        0 <= i < n && distance@[i] != usize::MAX ==> 0 <= #[trigger] slot[i]
                            < order@.len() && self.idx(square_of(order@[slot[i]])) == i,
                    forall|k1: int, k2: int|
                        0 <= k1 <= k2 < order@.len() ==> (#[trigger] order@[k1]).2 <= (
                        #[trigger] order@[k2]).2,
                    forall|k: int|
                        head <= k < order@.len() ==> (#[trigger] order@[k]).2 <= d + 1,
                    forall|p: (usize, usize)|
                        self.inside(p) && distance@[self.idx(p)] != usize::MAX && p != start ==> {
                            let c = #[trigger] came_from@[self.idx(p)] as int;
                            let q = decode(w, c);
                            &&& 0 <= c < n
                            &&& self.inside(q)
                            &&& self.idx(q) == c
                            &&& adjacent(p, q)
                            &&& distance@[c] != usize::MAX
                            &&& distance@[c] + 1 == distance@[self.idx(p)]
                        },
                    forall|k: int, q: (usize, usize)|
                        0 <= k < head && self.open_at(q) && adjacent(square_of(#[trigger] order0[k]), q)
                            ==> distance@[#[trigger] self.idx(q)] != usize::MAX && distance@[self.idx(
                            q,
                        )] <= order0[k].2 + 1,
                    forall|i: int|
                        0 <= i < j ==> #[trigger] self.open_at(nbrs@[i]) ==> distance@[self.idx(
                            nbrs@[i],
                        )] != usize::MAX && distance@[self.idx(nbrs@[i])] <= d + 1,
                decreases nbrs@.len() - j,
            {
                let neighbour = nbrs[j];
                let nx = neighbour.0;
                let ny = neighbour.1;
                proof {
                    assert(neighbour == nbrs@[j as int]);
                    assert(adjacent((x, y), nbrs@[j as int]) && nx < width && ny < height);
                    lemma_square_index(w, self.spec_height(), nx as int, ny as int);
                }
                let next = ny * width + nx;
                if self.walkable(nx, ny) && distance[next] == usize::MAX {
                    let len = order.len();
                    let ghost distance_before = distance@;
                    proof {
                        assert(order@[head as int] == order0[head as int]);
                        assert(distance@[here as int] == d);
                        lemma_square_index(w, self.spec_height(), x as int, y as int);
                        assert(decode(w, here as int) == (x, y));
                        assert forall|k: int, q: (usize, usize)|
                            0 <= k < head && self.open_at(q) && adjacent(square_of(#[trigger] order0[k]), q)
                                implies distance_before[#[trigger] self.idx(q)] != usize::MAX
                            && distance_before[self.idx(q)] <= order0[k].2 + 1 by {
                        }
                        assert(adjacent((nx, ny), (x, y)));
                        assert forall|k: int| 0 <= k < order@.len() implies (#[trigger] order@[k]).2
                            <= d + 1 by {
                            if k < head {
                                assert(order@[k].2 <= order@[head as int].2);
                            }
                        }
                        // a square not yet reached leaves room for one more entry
                        vstd::set_lib::lemma_int_range(0, n);
                        assert(found.subset_of(vstd::set_lib::set_int_range(0, n).remove(next as int)));
                        vstd::set_lib::lemma_len_subset(
                            found,
                            vstd::set_lib::set_int_range(0, n).remove(next as int),
                        );
                    }
                    distance.set(next, d + 1);
                    came_from.set(next, here);
                    order.push((nx, ny, d + 1));
                    proof {
                        assert forall|k: int, q: (usize, usize)|
                            0 <= k < head && self.open_at(q) && adjacent(square_of(#[trigger] order0[k]), q)
                                implies distance@[#[trigger] self.idx(q)] != usize::MAX
                            && distance@[self.idx(q)] <= order0[k].2 + 1 by {
                            lemma_square_index(w, self.spec_height(), q.0 as int, q.1 as int);
                            assert(distance_before[self.idx(q)] != usize::MAX);
                            assert(self.idx(q) != next);
                        }
                        slot = slot.update(next as int, len as int);
                        found = found.insert(next as int);
                        assert forall|p: (usize, usize)|
                            self.inside(p) && distance@[self.idx(p)] != usize::MAX && p != start implies {
                            let c = #[trigger] came_from@[self.idx(p)] as int;
                            let q = decode(w, c);
                            &&& 0 <= c < n
                            &&& self.inside(q)
                            &&& self.idx(q) == c
                            &&& adjacent(p, q)
                            &&& distance@[c] != usize::MAX
                            &&& distance@[c] + 1 == distance@[self.idx(p)]
                        } by {
                            lemma_square_index(w, self.spec_height(), p.0 as int, p.1 as int);
                            if self.idx(p) == next {
                                lemma_square_index_injective(w, p.0 as int, p.1 as int, nx as int, ny as int);
                            }
                        }
                        assert forall|k: int|
                            0 <= k < order@.len() implies {
                                &&& self.inside(square_of(#[trigger] order@[k]))
                                &&& distance@[self.idx(square_of(order@[k]))] == order@[k].2
                                &&& order@[k].2 <= k
                                &&& slot[self.idx(square_of(order@[k]))] == k
                                &&& (k > 0 ==> self.open_at(square_of(order@[k])))
                            } by {
                            if k < len {
                                let p = square_of(order@[k]);
                                lemma_square_index(w, self.spec_height(), p.0 as int, p.1 as int);
                            }
                        }
                    }
                }
                proof {
                    let ghost t = nbrs@[j as int];
                    assert forall|i: int|
                        0 <= i < j + 1 && #[trigger] self.open_at(nbrs@[i]) implies distance@[self.idx(
                            nbrs@[i],
                        )] != usize::MAX && distance@[self.idx(nbrs@[i])] <= d + 1 by {
                        let p = nbrs@[i];
                        lemma_square_index(w, self.spec_height(), p.0 as int, p.1 as int);
                        if self.open_at(p) {
                            let ghost ii = self.idx(p);
                            let ghost k = slot[ii];
                            let ghost p2 = square_of(order@[k]);
                            lemma_square_index(w, self.spec_height(), p2.0 as int, p2.1 as int);
                            if k < head {
                                assert(order@[k].2 <= order@[head as int].2);
                            }
                        }
                    }
                    if self.open_at(t) {
                        let ghost i = self.idx(t);
                        assert(distance@[i] != usize::MAX);
                        let ghost k = slot[i];
                        let ghost p2 = square_of(order@[k]);
                        lemma_square_index(w, self.spec_height(), p2.0 as int, p2.1 as int);
                        if k < head {
                            assert(order@[k].2 <= order@[head as int].2);
                        }
                        assert(order@[k].2 <= d + 1);
                    }
                }
                j = j + 1;
            }
            proof {
                assert(order@[head as int] == order0[head as int]);
                if head + 1 < order@.len() {
                    assert(order@[head as int].2 <= order@[head + 1].2);
                    assert forall|k: int|
                        head + 1 <= k < order@.len() implies (#[trigger] order@[k]).2 <= order@[head
                            + 1].2 + 1 by {
                        assert(order@[k].2 <= d + 1);
                    }
                }
                assert forall|k: int, q: (usize, usize)|
                    0 <= k < head + 1 && self.open_at(q) && adjacent(square_of(#[trigger] order@[k]), q)
                        implies distance@[#[trigger] self.idx(q)] != usize::MAX && distance@[self.idx(q)]
                        <= order@[k].2 + 1 by {
                    assert(order@[k] == order0[k]);
                    if k == head {
                        assert(nbrs@.contains(q));
                    }
                }
            }
            head = head + 1;
        }
        let f = Flood { order, distance, came_from };
        proof {
            reveal(Grid::is_flood);
            assert forall|p: (usize, usize)|
                self.inside(p) && #[trigger] self.reached(&f, p) implies exists|k: int|
                    0 <= k < f.order@.len() && square_of(#[trigger] f.order@[k]) == p by {
                lemma_square_index(w, self.spec_height(), p.0 as int, p.1 as int);
                let k = slot[self.idx(p)];
                let p2 = square_of(f.order@[k]);
                lemma_square_index_injective(w, p.0 as int, p.1 as int, p2.0 as int, p2.1 as int);
            }
            assert forall|k1: int, k2: int|
                0 <= k1 < k2 < f.order@.len() implies square_of(#[trigger] f.order@[k1]) != square_of(
                    #[trigger] f.order@[k2],
                ) by {
            }
            assert forall|p: (usize, usize), q: (usize, usize)|
                self.inside(p) && #[trigger] self.reached(&f, p) && #[trigger] self.open_at(q)
                    && adjacent(p, q) implies self.reached(&f, q) && self.dist(&f, q) <= self.dist(
                &f,
                p,
            ) + 1 by {
                lemma_square_index(w, self.spec_height(), p.0 as int, p.1 as int);
                let k = slot[self.idx(p)];
                let p2 = square_of(f.order@[k]);
                lemma_square_index_injective(w, p.0 as int, p.1 as int, p2.0 as int, p2.1 as int);
            }
        }
        f
    }
}


impl Grid {
    /// `to` can be reached from `from` in at most `moves` moves.
    pub open spec fn within(&self, from: (usize, usize), to: (usize, usize), moves: int) -> bool {
        exists|path: Seq<(usize, usize)>|
            self.is_route(path) && path[0] == from && path.last() == to && path.len() <= moves + 1
    }

    /// `to` is exactly `moves` moves away from `from`: that many suffice and
    /// no fewer do.
    pub open spec fn distance_is(&self, from: (usize, usize), to: (usize, usize), moves: int) -> bool {
        self.within(from, to, moves) && !self.within(from, to, moves - 1)
    }

    /// Following `came_from` back from a reached square gives a route from
    /// the start, one square longer than its distance.
    pub proof fn lemma_route_to(&self, start: (usize, usize), f: &Flood, p: (usize, usize)) -> (path:
        Seq<(usize, usize)>)
        requires
            self.wf(),
            self.is_flood(start, f),
            self.inside(p),
            self.reached(f, p),
        ensures
            self.is_route(path),
            path[0] == start,
            path.last() == p,
            path.len() == self.dist(f, p) + 1,
        decreases self.dist(f, p),
    {
        reveal(Grid::is_flood);
        assert(self.inside(square_of(f.order@[0])));
        if p == start {
            seq![start]
        } else {
            let c = f.came_from@[self.idx(p)] as int;
            let q = decode(self.spec_width(), c);
            let prev = self.lemma_route_to(start, f, q);
            let path = prev.push(p);
            let k = choose|k: int| 0 <= k < f.order@.len() && square_of(#[trigger] f.order@[k]) == p;
            assert(k > 0);
            assert(self.open_at(p));
            assert forall|i: int| 0 <= i < path.len() - 1 implies adjacent(
                #[trigger] path[i],
                path[i + 1],
            ) by {
                if i < prev.len() - 1 {
                    assert(adjacent(prev[i], prev[i + 1]));
                }
            }
            assert forall|i: int| 1 <= i < path.len() implies self.open_at(#[trigger] path[i]) by {
                if i < prev.len() {
                    assert(self.open_at(prev[i]));
                }
            }
            assert forall|i: int| 0 <= i < path.len() implies self.inside(#[trigger] path[i]) by {
                if i < prev.len() {
                    assert(self.inside(prev[i]));
                }
            }
            path
        }
    }

    /// Every route from the start ends on a reached square, no closer than
    /// its distance.
    pub proof fn lemma_route_from(&self, start: (usize, usize), f: &Flood, path: Seq<(usize, usize)>)
        requires
            self.wf(),
            self.is_flood(start, f),
            self.is_route(path),
            path[0] == start,
        ensures
            self.reached(f, path.last()),
            self.dist(f, path.last()) <= path.len() - 1,
        decreases path.len(),
    {
        reveal(Grid::is_flood);
        assert(self.inside(square_of(f.order@[0])));
        if path.len() == 1 {
        } else {
            let prev = path.drop_last();
            assert(self.is_route(prev)) by {
                assert forall|i: int| 0 <= i < prev.len() - 1 implies adjacent(
                    #[trigger] prev[i],
                    prev[i + 1],
                ) by {
                    assert(adjacent(path[i], path[i + 1]));
                }
                assert forall|i: int| 1 <= i < prev.len() implies self.open_at(#[trigger] prev[i]) by {
                    assert(self.open_at(path[i]));
                }
                assert forall|i: int| 0 <= i < prev.len() implies self.inside(#[trigger] prev[i]) by {
                    assert(self.inside(path[i]));
                }
            }
            self.lemma_route_from(start, f, prev);
            let u = prev.last();
            let v = path.last();
            assert(self.inside(path[prev.len() - 1]));
            assert(adjacent(path[prev.len() - 1], path[prev.len() as int]));
            assert(self.open_at(path[prev.len() as int]));
            assert(self.reached(f, u) && self.open_at(v) && adjacent(u, v));
        }
    }

    /// In a finished flood, each reached square's listed distance is its
    /// distance in moves from the start, and the squares reached are exactly
    /// those reachable.
    pub proof fn lemma_flood_distances(&self, start: (usize, usize), f: &Flood)
        requires
            self.wf(),
            self.is_flood(start, f),
        ensures
            forall|p: (usize, usize)|
                self.inside(p) ==> (#[trigger] self.reached(f, p) <==> self.reachable(start, p)),
            forall|p: (usize, usize)|
                self.inside(p) && #[trigger] self.reached(f, p) ==> self.distance_is(
                    start,
                    p,
                    self.dist(f, p),
                ),
    {
        reveal(Grid::is_flood);
        assert forall|p: (usize, usize)| self.inside(p) implies (#[trigger] self.reached(f, p)
            <==> self.reachable(start, p)) by {
            if self.reached(f, p) {
                let path = self.lemma_route_to(start, f, p);
                assert(self.is_route(path) && path[0] == start && path.last() == p);
            }
            if self.reachable(start, p) {
                let path = choose|path: Seq<(usize, usize)>|
                    self.is_route(path) && path[0] == start && path.last() == p;
                self.lemma_route_from(start, f, path);
            }
        }
        assert forall|p: (usize, usize)| self.inside(p) && #[trigger] self.reached(f, p) implies self.distance_is(
            start,
            p,
            self.dist(f, p),
        ) by {
            let path = self.lemma_route_to(start, f, p);
            assert(self.is_route(path) && path[0] == start && path.last() == p && path.len()
                <= self.dist(f, p) + 1);
            if self.within(start, p, self.dist(f, p) - 1) {
                let other = choose|path: Seq<(usize, usize)>|
                    self.is_route(path) && path[0] == start && path.last() == p && path.len()
                        <= self.dist(f, p) - 1 + 1;
                self.lemma_route_from(start, f, other);
            }
        }
    }

    /// The basic shape of a finished flood.
    pub proof fn lemma_flood_shape(&self, start: (usize, usize), f: &Flood)
        requires
            self.wf(),
            self.is_flood(start, f),
        ensures
            f.distance@.len() == self.spec_width() * self.spec_height(),
            f.came_from@.len() == self.spec_width() * self.spec_height(),
            1 <= f.order@.len(),
            f.order@[0] == (start.0, start.1, 0usize),
            self.inside(start),
            self.reached(f, start),
            self.dist(f, start) == 0,
            forall|k: int|
                0 <= k < f.order@.len() ==> {
                    &&& self.inside(square_of(#[trigger] f.order@[k]))
                    &&& self.dist(f, square_of(f.order@[k])) == f.order@[k].2
                    &&& self.reached(f, square_of(f.order@[k]))
                },
            forall|k1: int, k2: int|
                0 <= k1 < k2 < f.order@.len() ==> square_of(#[trigger] f.order@[k1]) != square_of(
                    #[trigger] f.order@[k2],
                ),
            forall|k1: int, k2: int|
                0 <= k1 <= k2 < f.order@.len() ==> (#[trigger] f.order@[k1]).2 <= (
                #[trigger] f.order@[k2]).2,
            forall|p: (usize, usize)|
                self.inside(p) && #[trigger] self.reached(f, p) ==> exists|k: int|
                    0 <= k < f.order@.len() && square_of(#[trigger] f.order@[k]) == p,
    {
        reveal(Grid::is_flood);
        assert(self.inside(square_of(f.order@[0])));
    }

    /// A reached square other than the start was reached from a neighbour
    /// one step closer, and is walkable.
    pub proof fn lemma_flood_came(&self, start: (usize, usize), f: &Flood, p: (usize, usize))
        requires
            self.wf(),
            self.is_flood(start, f),
            self.inside(p),
            self.reached(f, p),
            p != start,
        ensures
            ({
                let c = f.came_from@[self.idx(p)] as int;
                let q = decode(self.spec_width(), c);
                &&& 0 <= c < self.spec_width() * self.spec_height()
                &&& self.inside(q)
                &&& self.idx(q) == c
                &&& adjacent(p, q)
                &&& self.reached(f, q)
                &&& self.dist(f, q) + 1 == self.dist(f, p)
            }),
            self.open_at(p),
    {
        reveal(Grid::is_flood);
        let k = choose|k: int| 0 <= k < f.order@.len() && square_of(#[trigger] f.order@[k]) == p;
        assert(self.inside(square_of(f.order@[k])));
        assert(self.inside(square_of(f.order@[0])));
        assert(k != 0);
    }

    /// Breadth-first search over walkable squares; the last square dequeued
    /// is (one of) the farthest.
    pub fn farthest_walkable_from(&self, start_x: usize, start_y: usize) -> (r: (usize, usize))
        requires
            self.wf(),
            self.in_bounds(start_x as int, start_y as int),
        ensures
            self.is_farthest((start_x, start_y), r),
    {
        let f = self.flood(start_x, start_y);
        proof {
            self.lemma_flood_shape((start_x, start_y), &f);
        }
        let last = f.order[f.order.len() - 1];
        let r = (last.0, last.1);
        proof {
            let start = (start_x, start_y);
            self.lemma_flood_shape(start, &f);
            let k = f.order@.len() - 1;
            assert(self.inside(square_of(f.order@[k])));
            assert(r == square_of(f.order@[k]));
            self.lemma_flood_distances(start, &f);
            let moves = self.dist(&f, r);
            assert(self.reached(&f, r));
            assert forall|p: (usize, usize)|
                self.inside(p) && self.reachable(start, p) implies #[trigger] self.within(start, p, moves) by {
                assert(self.reached(&f, p));
                let kp = choose|kp: int| 0 <= kp < f.order@.len() && square_of(#[trigger] f.order@[kp]) == p;
                assert(f.order@[kp].2 <= f.order@[k].2);
                assert(self.distance_is(start, p, self.dist(&f, p)));
                let path = choose|path: Seq<(usize, usize)>|
                    self.is_route(path) && path[0] == start && path.last() == p && path.len()
                        <= self.dist(&f, p) + 1;
                assert(self.is_route(path) && path[0] == start && path.last() == p && path.len()
                    <= moves + 1);
            }
            assert(self.distance_is(start, r, moves));
        }
        r
    }
}


impl Grid {
    /// The grid has this size and these cells.
    pub open spec fn has_layout(&self, width: int, height: int, cells: Seq<Cell>) -> bool {
        self.spec_width() == width && self.spec_height() == height && self@ == cells
    }

    /// `r` is a square at the greatest distance, in moves, from `start`:
    /// reaching `r` takes some number of moves, and every square that can
    /// be reached at all can be reached in that many.
    pub open spec fn is_farthest(&self, start: (usize, usize), r: (usize, usize)) -> bool {
        &&& self.inside(r)
        &&& exists|moves: int|
            {
                &&& self.distance_is(start, r, moves)
                &&& forall|p: (usize, usize)|
                    self.inside(p) && self.reachable(start, p) ==> #[trigger] self.within(start, p, moves)
            }
    }
}

/// Applying steps inside the grid keeps its size.
pub proof fn lemma_after_steps_len(cells: Seq<Cell>, width: int, height: int, steps: Seq<Step>)
    requires
        cells.len() == width * height,
        steps_inside(steps, width, height),
        0 <= width,
        0 <= height,
    ensures
        after_steps(cells, width, steps).len() == cells.len(),
    decreases steps.len(),
{
    if steps.len() > 0 {
        assert(steps_inside(steps.drop_last(), width, height)) by {
            assert forall|i: int| 0 <= i < steps.drop_last().len() implies (#[trigger] steps.drop_last()[i]).x
                < width && steps.drop_last()[i].y < height by {
                assert(steps[i] == steps.drop_last()[i]);
            }
        }
        lemma_after_steps_len(cells, width, height, steps.drop_last());
        assert(steps[steps.len() - 1].x < width);
        lemma_square_index(width, height, steps.last().x as int, steps.last().y as int);
    }
}

/// Once a square holds Start or End, no later step changes it.
pub proof fn lemma_after_steps_keeps_marks(
    cells: Seq<Cell>,
    width: int,
    height: int,
    steps: Seq<Step>,
    i: int,
)
    requires
        cells.len() == width * height,
        steps_inside(steps, width, height),
        0 <= width,
        0 <= height,
        0 <= i < cells.len(),
        cells[i] == Cell::Start || cells[i] == Cell::End,
    ensures
        after_steps(cells, width, steps)[i] == cells[i],
    decreases steps.len(),
{
    if steps.len() > 0 {
        assert(steps_inside(steps.drop_last(), width, height)) by {
            assert forall|k: int| 0 <= k < steps.drop_last().len() implies (#[trigger] steps.drop_last()[k]).x
                < width && steps.drop_last()[k].y < height by {
                assert(steps[k] == steps.drop_last()[k]);
            }
        }
        lemma_after_steps_keeps_marks(cells, width, height, steps.drop_last(), i);
        lemma_after_steps_len(cells, width, height, steps.drop_last());
        assert(steps[steps.len() - 1].x < width);
        lemma_square_index(width, height, steps.last().x as int, steps.last().y as int);
    }
}

/// Applying `first` then `second` is applying them joined.
pub proof fn lemma_after_steps_append(cells: Seq<Cell>, width: int, first: Seq<Step>, second: Seq<Step>)
    ensures
        after_steps(cells, width, first + second) == after_steps(
            after_steps(cells, width, first),
            width,
            second,
        ),
    decreases second.len(),
{
    if second.len() == 0 {
        assert(first + second =~= first);
    } else {
        assert((first + second).drop_last() =~= first + second.drop_last());
        lemma_after_steps_append(cells, width, first, second.drop_last());
    }
}


impl Grid {
    /// A route to `p` continues to a walkable square next to it.
    pub proof fn lemma_reach_step(&self, from: (usize, usize), p: (usize, usize), q: (usize, usize))
        requires
            self.reachable(from, p),
            self.inside(q),
            self.open_at(q),
            adjacent(p, q),
        ensures
            self.reachable(from, q),
    {
        let path = choose|path: Seq<(usize, usize)>| self.is_route(path) && path[0] == from && path.last() == p;
        let longer = path.push(q);
        assert forall|i: int| 0 <= i < longer.len() - 1 implies adjacent(#[trigger] longer[i], longer[i + 1]) by {
            if i < path.len() - 1 {
                assert(longer[i] == path[i] && longer[i + 1] == path[i + 1]);
            } else {
                assert(longer[i] == path.last());
            }
        }
        assert forall|i: int| 0 <= i < longer.len() implies self.inside(#[trigger] longer[i]) by {
            if i < path.len() {
                assert(longer[i] == path[i]);
            }
        }
        assert forall|i: int| 1 <= i < longer.len() implies self.open_at(#[trigger] longer[i]) by {
            if i < path.len() {
                assert(longer[i] == path[i]);
            }
        }
        assert(longer[0] == from);
        assert(self.is_route(longer) && longer[0] == from && longer.last() == q);
    }

    /// Two walkable squares reachable from one walkable square reach each other.
    pub proof fn lemma_reach_through(&self, hub: (usize, usize), p: (usize, usize), q: (usize, usize))
        requires
            self.open_at(hub),
            self.reachable(hub, p),
            self.reachable(hub, q),
        ensures
            self.reachable(p, q),
    {
        let a = choose|path: Seq<(usize, usize)>| self.is_route(path) && path[0] == hub && path.last() == p;
        let b = choose|path: Seq<(usize, usize)>| self.is_route(path) && path[0] == hub && path.last() == q;
        let back = a.reverse();
        let joined = back + b.drop_first();
        assert(back.len() == a.len());
        assert forall|i: int| 0 <= i < back.len() implies self.inside(#[trigger] back[i]) && self.open_at(back[i]) by {
            assert(back[i] == a[a.len() - 1 - i]);
        }
        assert forall|i: int| 0 <= i < joined.len() implies self.inside(#[trigger] joined[i]) && self.open_at(
            joined[i],
        ) by {
            if i < back.len() {
                assert(joined[i] == back[i]);
            } else {
                assert(joined[i] == b[i - back.len() + 1]);
            }
        }
        assert forall|i: int| 0 <= i < joined.len() - 1 implies adjacent(#[trigger] joined[i], joined[i + 1]) by {
            if i < back.len() - 1 {
                assert(joined[i] == a[a.len() - 1 - i]);
                assert(joined[i + 1] == a[a.len() - 2 - i]);
                assert(adjacent(a[a.len() - 2 - i], a[a.len() - 2 - i + 1]));
            } else if i == back.len() - 1 {
                assert(joined[i] == a[0]);
                assert(joined[i + 1] == b[1]);
                assert(adjacent(b[0], b[1]));
            } else {
                assert(joined[i] == b[i - back.len() + 1]);
                assert(joined[i + 1] == b[i - back.len() + 2]);
            }
        }
        assert(joined[0] == a.last());
        if b.len() == 1 {
            assert(joined =~= back);
            assert(joined.last() == a[0]);
        } else {
            assert(joined.last() == b.last());
        }
        assert(self.is_route(joined) && joined[0] == p && joined.last() == q);
    }
}


impl Grid {
    /// Every square reaches itself.
    pub proof fn lemma_reach_self(&self, p: (usize, usize))
        requires
            self.inside(p),
        ensures
            self.reachable(p, p),
    {
        let path = seq![p];
        assert(self.is_route(path) && path[0] == p && path.last() == p);
    }

    /// Routes can be walked backwards.
    pub proof fn lemma_reach_back(&self, p: (usize, usize), q: (usize, usize))
        requires
            self.open_at(p),
            self.reachable(p, q),
        ensures
            self.reachable(q, p),
    {
        self.lemma_reach_self(p);
        self.lemma_reach_through(p, q, p);
    }

    /// Routes can be chained.
    pub proof fn lemma_reach_chain(&self, a: (usize, usize), b: (usize, usize), c: (usize, usize))
        requires
            self.open_at(a),
            self.reachable(a, b),
            self.reachable(b, c),
        ensures
            self.reachable(a, c),
    {
        let path = choose|path: Seq<(usize, usize)>| self.is_route(path) && path[0] == a && path.last() == b;
        assert(self.open_at(b)) by {
            if path.len() > 1 {
                assert(self.open_at(path[path.len() - 1]));
            }
        }
        self.lemma_reach_back(a, b);
        self.lemma_reach_through(b, a, c);
    }
}

/// A grid of the same size whose walkable squares include those of `g`
/// reaches whatever `g` reaches.
pub proof fn lemma_reach_grows(g: &Grid, bigger: &Grid, from: (usize, usize), to: (usize, usize))
    requires
        g.spec_width() == bigger.spec_width(),
        g.spec_height() == bigger.spec_height(),
        forall|p: (usize, usize)| g.inside(p) && #[trigger] g.open_at(p) ==> bigger.open_at(p),
        g.reachable(from, to),
    ensures
        bigger.reachable(from, to),
{
    let path = choose|path: Seq<(usize, usize)>| g.is_route(path) && path[0] == from && path.last() == to;
    assert forall|i: int| 1 <= i < path.len() implies bigger.open_at(#[trigger] path[i]) by {
        assert(g.open_at(path[i]));
        assert(g.inside(path[i]));
    }
    assert forall|i: int| 0 <= i < path.len() implies bigger.inside(#[trigger] path[i]) by {
        assert(g.inside(path[i]));
    }
    assert(bigger.is_route(path));
}


/// No square holds Start or End.
pub open spec fn unmarked(cells: Seq<Cell>) -> bool {
    forall|i: int| 0 <= i < cells.len() ==> #[trigger] cells[i] != Cell::Start && cells[i] != Cell::End
}

/// No step paints Start or End.
pub open spec fn steps_unmarked(steps: Seq<Step>) -> bool {
    forall|i: int| 0 <= i < steps.len() ==> (#[trigger] steps[i]).cell != Cell::Start && steps[i].cell != Cell::End
}

/// Steps that paint neither Start nor End leave a grid without them so.
pub proof fn lemma_after_steps_unmarked(cells: Seq<Cell>, width: int, height: int, steps: Seq<Step>)
    requires
        cells.len() == width * height,
        0 <= width,
        0 <= height,
        steps_inside(steps, width, height),
        unmarked(cells),
        steps_unmarked(steps),
    ensures
        unmarked(after_steps(cells, width, steps)),
        after_steps(cells, width, steps).len() == cells.len(),
    decreases steps.len(),
{
    lemma_after_steps_len(cells, width, height, steps);
    if steps.len() > 0 {
        let rest = steps.drop_last();
        assert(steps_inside(rest, width, height)) by {
            assert forall|k: int| 0 <= k < rest.len() implies (#[trigger] rest[k]).x < width && rest[k].y < height by {
                assert(rest[k] == steps[k]);
            }
        }
        assert(steps_unmarked(rest)) by {
            assert forall|k: int| 0 <= k < rest.len() implies (#[trigger] rest[k]).cell != Cell::Start && rest[k].cell
                != Cell::End by {
                assert(rest[k] == steps[k]);
            }
        }
        lemma_after_steps_unmarked(cells, width, height, rest);
        lemma_after_steps_len(cells, width, height, rest);
        assert(steps[steps.len() - 1].x < width);
        lemma_square_index(width, height, steps.last().x as int, steps.last().y as int);
    }
}

} // verus!
