use rand::rngs::StdRng;
use vstd::prelude::*;

use super::{Lattice, between, corridor, floor, floor_step, grown_from_first, in_pockets, reached_before, wall_between};
use crate::maze::grid::{Cell, Step, adjacent, lemma_square_index, lemma_square_index_injective};
use super::counting::link_step;
use crate::random::{pick, shuffle};

verus! {

const NOT_ON_PATH: usize = usize::MAX;

/// The step that shows corridor `p` as probed by a walk.
pub open spec fn probe_step(p: (usize, usize)) -> Step {
    Step { x: (2 * p.0 + 1) as usize, y: (2 * p.1 + 1) as usize, cell: Cell::Probe }
}

/// `steps` keeps `before` and goes on with the probe of corridor `p`.
pub open spec fn goes_on_probing(before: Seq<Step>, steps: Seq<Step>, p: (usize, usize)) -> bool {
    &&& steps.len() > before.len()
    &&& steps.subrange(0, before.len() as int) == before
    &&& steps[before.len() as int] == probe_step(p)
}

/// A walk keeps every step taken before it.
proof fn lemma_probing_keeps(before: Seq<Step>, steps: Seq<Step>, p: (usize, usize))
    requires
        goes_on_probing(before, steps, p),
    ensures
        keeps_steps(before, steps),
{
    assert forall|t: Step| #[trigger] before.contains(t) implies steps.contains(t) by {
        let j = choose|j: int| 0 <= j < before.len() && before[j] == t;
        assert(steps.subrange(0, before.len() as int)[j] == t);
        assert(steps[j] == t);
    }
}

/// One more step keeps what came before.
proof fn lemma_probing_push(before: Seq<Step>, steps: Seq<Step>, p: (usize, usize), s: Step)
    requires
        goes_on_probing(before, steps, p),
    ensures
        goes_on_probing(before, steps.push(s), p),
        forall|t: Step| steps.contains(t) ==> steps.push(s).contains(t),
{
    assert(steps.push(s).subrange(0, before.len() as int) =~= steps.subrange(0, before.len() as int));
    assert forall|t: Step| steps.contains(t) implies steps.push(s).contains(t) by {
        let j = choose|j: int| 0 <= j < steps.len() && steps[j] == t;
        assert(steps.push(s)[j] == t);
    }
}

/// Some corridor of `pocket` is floored by `steps`.
pub open spec fn floors_one_of(pocket: Seq<(usize, usize)>, steps: Seq<Step>) -> bool {
    exists|j: int| 0 <= j < pocket.len() && #[trigger] steps.contains(floor_step(pocket[j].0 as int, pocket[j].1 as int))
}

/// Every step of `before` is still in `steps`.
pub open spec fn keeps_steps(before: Seq<Step>, steps: Seq<Step>) -> bool {
    forall|t: Step| #[trigger] before.contains(t) ==> steps.contains(t)
}

/// Every corridor of the tree is floored by `steps`.
#[verifier::opaque]
pub open spec fn tree_floored(lattice: Lattice, tree: Seq<bool>, steps: Seq<Step>) -> bool {
    forall|q: (usize, usize)|
        lattice.holds(q) && #[trigger] tree[lattice.flat(q)] ==> steps.contains(floor_step(q.0 as int, q.1 as int))
}

/// Every corridor of the first `done` pockets is in the tree.
#[verifier::opaque]
pub open spec fn pockets_in_tree(lattice: Lattice, pockets: Seq<Vec<(usize, usize)>>, done: int, tree: Seq<bool>) -> bool {
    forall|kk: int, j: int|
        0 <= kk < done && 0 <= j < pockets[kk]@.len() ==> tree[lattice.flat(#[trigger] pockets[kk]@[j])]
}

/// Every corridor of `order` before `k` is in the tree.
#[verifier::opaque]
pub open spec fn order_in_tree(lattice: Lattice, order: Seq<(usize, usize)>, k: int, tree: Seq<bool>) -> bool {
    forall|j: int| 0 <= j < k ==> tree[lattice.flat(#[trigger] order[j])]
}

/// A tree that only grows keeps what was in it, for corridors of the
/// lattice.
proof fn lemma_in_tree_grows(
    lattice: Lattice,
    pockets: Seq<Vec<(usize, usize)>>,
    done: int,
    order: Seq<(usize, usize)>,
    k: int,
    tree0: Seq<bool>,
    tree1: Seq<bool>,
)
    requires
        lattice.wf(),
        tree0.len() == lattice.spec_width() * lattice.spec_height(),
        forall|i: int| 0 <= i < tree0.len() && tree0[i] ==> #[trigger] tree1[i],
        forall|kk: int, j: int|
            0 <= kk < pockets.len() && 0 <= j < pockets[kk]@.len() ==> lattice.open_at(#[trigger] pockets[kk]@[j]),
        done <= pockets.len(),
        forall|j: int| 0 <= j < order.len() ==> lattice.open_at(#[trigger] order[j]),
        k <= order.len(),
        pockets_in_tree(lattice, pockets, done, tree0),
        order_in_tree(lattice, order, k, tree0),
    ensures
        pockets_in_tree(lattice, pockets, done, tree1),
        order_in_tree(lattice, order, k, tree1),
{
    reveal(pockets_in_tree);
    reveal(order_in_tree);
    assert forall|kk: int, j: int| 0 <= kk < done && 0 <= j < pockets[kk]@.len() implies tree1[lattice.flat(
        #[trigger] pockets[kk]@[j],
    )] by {
        assert(lattice.open_at(pockets[kk]@[j]));
        lemma_square_index(lattice.spec_width(), lattice.spec_height(), pockets[kk]@[j].0 as int, pockets[kk]@[j].1 as int);
    }
    assert forall|j: int| 0 <= j < k implies tree1[lattice.flat(#[trigger] order[j])] by {
        assert(lattice.open_at(order[j]));
        lemma_square_index(lattice.spec_width(), lattice.spec_height(), order[j].0 as int, order[j].1 as int);
    }
}

/// One more corridor of `order` in the tree.
proof fn lemma_order_step(lattice: Lattice, order: Seq<(usize, usize)>, k: int, tree: Seq<bool>)
    requires
        0 <= k < order.len(),
        order_in_tree(lattice, order, k, tree),
        tree[lattice.flat(order[k])],
    ensures
        order_in_tree(lattice, order, k + 1, tree),
{
    reveal(order_in_tree);
}

/// Once every corridor of `order`, a reordering of the pocket, is in the
/// tree, so is every corridor of the pocket.
proof fn lemma_pocket_done(
    lattice: Lattice,
    pockets: Seq<Vec<(usize, usize)>>,
    p: int,
    order: Seq<(usize, usize)>,
    tree: Seq<bool>,
)
    requires
        0 <= p < pockets.len(),
        order.to_multiset() == pockets[p]@.to_multiset(),
        pockets_in_tree(lattice, pockets, p, tree),
        order_in_tree(lattice, order, order.len() as int, tree),
    ensures
        pockets_in_tree(lattice, pockets, p + 1, tree),
{
    reveal(pockets_in_tree);
    reveal(order_in_tree);
    assert forall|kk: int, j: int| 0 <= kk < p + 1 && 0 <= j < pockets[kk]@.len() implies tree[lattice.flat(
        #[trigger] pockets[kk]@[j],
    )] by {
        if kk == p {
            let pocket = pockets[kk]@;
            let m = pocket[j];
            pocket.to_multiset_ensures();
            order.to_multiset_ensures();
            assert(pocket.contains(m));
            assert(pocket.to_multiset().count(m) > 0);
            assert(order.contains(m));
            let t = choose|t: int| 0 <= t < order.len() && order[t] == m;
            assert(tree[lattice.flat(order[t])]);
        }
    }
}

/// A walk keeps the tree floored: what it adds it floors, and it keeps
/// every earlier step.
proof fn lemma_tree_kept(lattice: Lattice, tree0: Seq<bool>, tree1: Seq<bool>, steps0: Seq<Step>, steps1: Seq<Step>)
    requires
        tree_floored(lattice, tree0, steps0),
        keeps_steps(steps0, steps1),
        forall|q: (usize, usize)|
            lattice.holds(q) && #[trigger] tree1[lattice.flat(q)] && !tree0[lattice.flat(q)] ==> steps1.contains(
                floor_step(q.0 as int, q.1 as int),
            ),
    ensures
        tree_floored(lattice, tree1, steps1),
{
    reveal(tree_floored);
    assert forall|q: (usize, usize)| lattice.holds(q) && #[trigger] tree1[lattice.flat(q)] implies steps1.contains(
        floor_step(q.0 as int, q.1 as int),
    ) by {
        if tree0[lattice.flat(q)] {
            assert(steps0.contains(floor_step(q.0 as int, q.1 as int)));
        }
    }
}

/// Later steps keep the pockets floored so far.
proof fn lemma_floors_kept(pockets: Seq<Vec<(usize, usize)>>, done: int, before: Seq<Step>, steps: Seq<Step>)
    requires
        forall|k: int| 0 <= k < done ==> floors_one_of(#[trigger] pockets[k]@, before),
        keeps_steps(before, steps),
    ensures
        forall|k: int| 0 <= k < done ==> floors_one_of(#[trigger] pockets[k]@, steps),
{
    assert forall|k: int| 0 <= k < done implies floors_one_of(#[trigger] pockets[k]@, steps) by {
        let pocket = pockets[k]@;
        let j = choose|j: int|
            0 <= j < pocket.len() && #[trigger] before.contains(floor_step(pocket[j].0 as int, pocket[j].1 as int));
        assert(steps.contains(floor_step(pocket[j].0 as int, pocket[j].1 as int)));
    }
}

/// In a pocket of two or more corridors, each grown from the first, every
/// corridor has an open neighbour.
proof fn lemma_neighbour_in_pocket(lattice: Lattice, pocket: Seq<(usize, usize)>, a: (usize, usize), b: (usize, usize))
    requires
        forall|j: int| 0 <= j < pocket.len() ==> lattice.open_at(#[trigger] pocket[j]),
        grown_from_first(pocket),
        pocket.contains(a),
        pocket.contains(b),
        a != b,
    ensures
        exists|q: (usize, usize)| #[trigger] lattice.open_at(q) && adjacent(a, q),
{
    let ja = choose|j: int| 0 <= j < pocket.len() && pocket[j] == a;
    let jb = choose|j: int| 0 <= j < pocket.len() && pocket[j] == b;
    if ja >= 1 {
        assert(reached_before(pocket, ja));
        let i = choose|i: int| 0 <= i < ja && #[trigger] adjacent(pocket[i], pocket[ja]);
        assert(lattice.open_at(pocket[i]) && adjacent(a, pocket[i]));
    } else {
        assert(jb >= 1);
        assert(reached_before(pocket, 1));
        let i = choose|i: int| 0 <= i < 1 && #[trigger] adjacent(pocket[i], pocket[1]);
        assert(lattice.open_at(pocket[1]) && adjacent(a, pocket[1]));
    }
}

/// Once every pocket is in the tree and the tree is floored, every open
/// corridor is floored.
proof fn lemma_wilson_floors(lattice: Lattice, pockets: Seq<Vec<(usize, usize)>>, tree: Seq<bool>, steps: Seq<Step>)
    requires
        lattice.wf(),
        forall|q: (usize, usize)| #[trigger] lattice.open_at(q) ==> in_pockets(pockets, q),
        pockets_in_tree(lattice, pockets, pockets.len() as int, tree),
        tree_floored(lattice, tree, steps),
    ensures
        lattice.floors_every_corridor(steps),
{
    reveal(pockets_in_tree);
    reveal(tree_floored);
    assert forall|x: int, y: int| #[trigger] lattice.is_open(x, y) implies exists|i: int|
        0 <= i < steps.len() && #[trigger] steps[i] == floor_step(x, y) by {
        let q = (x as usize, y as usize);
        assert(lattice.open_at(q));
        assert(in_pockets(pockets, q));
        let (kk, j) = choose|kk: int, j: int|
            0 <= kk < pockets.len() && 0 <= j < pockets[kk]@.len() && #[trigger] pockets[kk]@[j] == q;
        assert(tree[lattice.flat(pockets[kk]@[j])]);
        assert(steps.contains(floor_step(q.0 as int, q.1 as int)));
    }
}

/// Once every pocket has a floored corridor: every open corridor is linked
/// to a floored one, and a corridor with no open neighbour is floored.
proof fn lemma_wilson_end(lattice: Lattice, pockets: Seq<Vec<(usize, usize)>>, steps: Seq<Step>)
    requires
        lattice.wf(),
        forall|k: int, j: int|
            0 <= k < pockets.len() && 0 <= j < pockets[k]@.len() ==> lattice.open_at(#[trigger] pockets[k]@[j]),
        forall|q: (usize, usize)| #[trigger] lattice.open_at(q) ==> in_pockets(pockets, q),
        forall|k: int| 0 <= k < pockets.len() ==> grown_from_first(#[trigger] pockets[k]@),
        forall|k: int| 0 <= k < pockets.len() ==> floors_one_of(#[trigger] pockets[k]@, steps),
    ensures
        forall|p: (usize, usize)|
            #[trigger] lattice.open_at(p) ==> exists|q: (usize, usize)|
                lattice.open_at(q) && steps.contains(floor_step(q.0 as int, q.1 as int)) && #[trigger] lattice.linked(
                    p,
                    q,
                ),
        forall|p: (usize, usize)|
            #[trigger] lattice.open_at(p) && (forall|r: (usize, usize)| #[trigger] lattice.open_at(r) ==> !adjacent(p, r))
                ==> steps.contains(floor_step(p.0 as int, p.1 as int)),
{
    assert forall|q: (usize, usize)| #[trigger] lattice.open_at(q) implies exists|f: (usize, usize)|
        lattice.open_at(f) && steps.contains(floor_step(f.0 as int, f.1 as int)) && #[trigger] lattice.linked(q, f) by {
        assert(in_pockets(pockets, q));
        let (k, j) = choose|k: int, j: int|
            0 <= k < pockets.len() && 0 <= j < pockets[k]@.len() && #[trigger] pockets[k]@[j] == q;
        let pocket = pockets[k]@;
        assert(floors_one_of(pocket, steps));
        let jf = choose|jf: int|
            0 <= jf < pocket.len() && #[trigger] steps.contains(floor_step(pocket[jf].0 as int, pocket[jf].1 as int));
        assert forall|i: int| 0 <= i < pocket.len() implies lattice.open_at(#[trigger] pocket[i]) by {
            assert(lattice.open_at(pockets[k]@[i]));
        }
        assert(grown_from_first(pocket));
        lattice.lemma_pocket_linked(pocket, j);
        lattice.lemma_pocket_linked(pocket, jf);
        lattice.lemma_linked_back(pocket[0], q);
        lattice.lemma_linked_chain(q, pocket[0], pocket[jf]);
        assert(lattice.open_at(pocket[jf]));
    }
    assert forall|q: (usize, usize)|
        #[trigger] lattice.open_at(q) && (forall|r: (usize, usize)| #[trigger] lattice.open_at(r) ==> !adjacent(q, r))
            implies steps.contains(floor_step(q.0 as int, q.1 as int)) by {
        let f = choose|f: (usize, usize)|
            lattice.open_at(f) && steps.contains(floor_step(f.0 as int, f.1 as int)) && #[trigger] lattice.linked(q, f);
        lattice.lemma_linked_lone(q, f);
    }
}

/// Wilson's algorithm: start a tree with one random corridor, then from each
/// corridor outside it, random-walk until the walk hits the tree. Whenever
/// the walk crosses itself, the loop is erased. The surviving path joins the
/// tree. The result is a uniform spanning tree: every maze equally likely.
///
/// The walk is shown as probe squares, and erased loops turn back to wall,
/// so the animation shows the walk wandering and cutting its own loops.
#[verifier::rlimit(100)]
#[verifier::spinoff_prover]
pub fn carve(lattice: &Lattice, rng: &mut StdRng) -> (steps: Vec<Step>)
    requires
        lattice.wf(),
    ensures
        lattice.carves(steps@, |c: Cell| c == Cell::Floor || c == Cell::Probe || c == Cell::Wall),
        forall|p: (usize, usize)|
            #[trigger] lattice.open_at(p) ==> exists|q: (usize, usize)|
                lattice.open_at(q) && steps@.contains(floor_step(q.0 as int, q.1 as int)) && #[trigger] lattice.linked(
                    p,
                    q,
                ),
        forall|p: (usize, usize)|
            #[trigger] lattice.open_at(p) && (forall|r: (usize, usize)| #[trigger] lattice.open_at(r) ==> !adjacent(p, r))
                ==> steps@.contains(floor_step(p.0 as int, p.1 as int)),
        lattice.floors_every_corridor(steps@),
{
    let n = lattice.len();
    let mut in_tree: Vec<bool> = vec![false; n];
    let mut position: Vec<usize> = vec![NOT_ON_PATH; n];
    let mut steps: Vec<Step> = Vec::new();

    let pockets = lattice.pockets();
    proof {
        reveal(tree_floored);
        reveal(pockets_in_tree);
        assert forall|q: (usize, usize)| lattice.holds(q) && #[trigger] in_tree@[lattice.flat(q)] implies steps@.contains(
            floor_step(q.0 as int, q.1 as int),
        ) by {
            lemma_square_index(lattice.spec_width(), lattice.spec_height(), q.0 as int, q.1 as int);
        }
    }
    let mut p: usize = 0;
    while p < pockets.len()
        invariant
            lattice.wf(),
            n == lattice.spec_width() * lattice.spec_height(),
            in_tree@.len() == n,
            position@.len() == n,
            p <= pockets@.len(),
            forall|k: int, j: int|
                0 <= k < pockets@.len() && 0 <= j < pockets@[k]@.len() ==> lattice.open_at(
                    #[trigger] pockets@[k]@[j],
                ),
            lattice.carves(steps@, |c: Cell| c == Cell::Floor || c == Cell::Probe || c == Cell::Wall),
            forall|k: int| 0 <= k < pockets@.len() ==> (#[trigger] pockets@[k])@.len() >= 1,
            forall|k: int| 0 <= k < pockets@.len() ==> grown_from_first(#[trigger] pockets@[k]@),
            forall|k: int| 0 <= k < p ==> floors_one_of(#[trigger] pockets@[k]@, steps@),
            forall|i: int| 0 <= i < position@.len() ==> #[trigger] position@[i] == NOT_ON_PATH,
            tree_floored(*lattice, in_tree@, steps@),
            pockets_in_tree(*lattice, pockets@, p as int, in_tree@),
        decreases pockets@.len() - p,
    {
        let pocket = &pockets[p];
        let (seed_x, seed_y) = match pick(pocket.as_slice(), rng) {
            Some(seed) => seed,
            None => {
                proof {
                    assert(pockets@[p as int]@.len() >= 1);
                }
                p = p + 1;
                continue;
            },
        };
        proof {
            let j = choose|j: int| 0 <= j < pocket@.len() && pocket@[j] == (seed_x, seed_y);
            assert(lattice.open_at(pockets@[p as int]@[j]));
            lattice.lemma_corridor_owned(seed_x as int, seed_y as int);
        }
        let seed = lattice.index(seed_x, seed_y);
        let ghost tree_unseeded = in_tree@;
        in_tree.set(seed, true);
        let ghost steps_seeded = steps@;
        steps.push(floor(seed_x, seed_y));
        proof {
            lemma_square_index(lattice.spec_width(), lattice.spec_height(), seed_x as int, seed_y as int);
            assert(seed == lattice.flat((seed_x, seed_y)));
            assert forall|q: (usize, usize)|
                lattice.holds(q) && #[trigger] in_tree@[lattice.flat(q)] && !tree_unseeded[lattice.flat(q)]
                    implies steps@.contains(floor_step(q.0 as int, q.1 as int)) by {
                lemma_square_index(lattice.spec_width(), lattice.spec_height(), q.0 as int, q.1 as int);
                if q != (seed_x, seed_y) {
                    if lattice.flat(q) == seed {
                        lemma_square_index_injective(lattice.spec_width(), q.0 as int, q.1 as int, seed_x as int, seed_y as int);
                    }
                }
                assert(steps@[steps_seeded.len() as int] == floor_step(seed_x as int, seed_y as int));
            }
            assert(in_tree@ == tree_unseeded.update(seed as int, true));
            assert(order_in_tree(*lattice, Seq::empty(), 0, tree_unseeded)) by {
                reveal(order_in_tree);
            }
            lemma_in_tree_grows(*lattice, pockets@, p as int, Seq::empty(), 0, tree_unseeded, in_tree@);
            assert(steps@[steps_seeded.len() as int] == floor_step(seed_x as int, seed_y as int));
            assert(keeps_steps(steps_seeded, steps@)) by {
                assert forall|t: Step| #[trigger] steps_seeded.contains(t) implies steps@.contains(t) by {
                    let j = choose|j: int| 0 <= j < steps_seeded.len() && steps_seeded[j] == t;
                    assert(steps@[j] == t);
                }
            }
            lemma_floors_kept(pockets@, p as int, steps_seeded, steps@);
            let j = choose|j: int| 0 <= j < pocket@.len() && pocket@[j] == (seed_x, seed_y);
            assert(steps@.contains(floor_step(pocket@[j].0 as int, pocket@[j].1 as int)));
            assert(floors_one_of(pockets@[p as int]@, steps@));
            assert(keeps_steps(steps_seeded, steps@));
            lemma_tree_kept(*lattice, tree_unseeded, in_tree@, steps_seeded, steps@);
        }

        let mut order: Vec<(usize, usize)> = Vec::new();
        let mut c: usize = 0;
        while c < pocket.len()
            invariant
                c <= pocket@.len(),
                order@ == pocket@.take(c as int),
            decreases pocket@.len() - c,
        {
            order.push(pocket[c]);
            c = c + 1;
            proof {
                assert(order@ =~= pocket@.take(c as int));
            }
        }
        proof {
            assert(order@ =~= pocket@);
        }
        let ghost unshuffled = order@;
        shuffle(&mut order, rng);
        proof {
            assert forall|j: int| 0 <= j < order@.len() implies lattice.open_at(#[trigger] order@[j])
                && pockets@[p as int]@.contains(order@[j]) by {
                unshuffled.to_multiset_ensures();
                order@.to_multiset_ensures();
                assert(order@.contains(order@[j]));
                assert(order@.to_multiset().count(order@[j]) > 0);
                assert(unshuffled.contains(order@[j]));
                let m = choose|m: int| 0 <= m < unshuffled.len() && unshuffled[m] == order@[j];
                assert(lattice.open_at(pockets@[p as int]@[m]));
            }
            let j = choose|j: int| 0 <= j < pocket@.len() && pocket@[j] == (seed_x, seed_y);
            assert(pockets@[p as int]@.contains((seed_x, seed_y)));
            assert(order@.to_multiset() == pockets@[p as int]@.to_multiset());
            assert(order_in_tree(*lattice, order@, 0, in_tree@)) by {
                reveal(order_in_tree);
            }
            lemma_square_index(lattice.spec_width(), lattice.spec_height(), seed_x as int, seed_y as int);
        }
        let mut k: usize = 0;
        while k < order.len()
            invariant
                lattice.wf(),
                n == lattice.spec_width() * lattice.spec_height(),
                in_tree@.len() == n,
                position@.len() == n,
                k <= order@.len(),
                forall|j: int| 0 <= j < order@.len() ==> lattice.open_at(#[trigger] order@[j]),
                lattice.carves(steps@, |c: Cell| c == Cell::Floor || c == Cell::Probe || c == Cell::Wall),
                forall|kk: int| 0 <= kk < p + 1 ==> floors_one_of(#[trigger] pockets@[kk]@, steps@),
                forall|i: int| 0 <= i < position@.len() ==> #[trigger] position@[i] == NOT_ON_PATH,
                p < pockets@.len(),
                forall|j: int| 0 <= j < order@.len() ==> pockets@[p as int]@.contains(#[trigger] order@[j]),
                pockets@[p as int]@.contains((seed_x, seed_y)),
                forall|j: int| 0 <= j < pockets@[p as int]@.len() ==> lattice.open_at(#[trigger] pockets@[p as int]@[j]),
                grown_from_first(pockets@[p as int]@),
                in_tree@[lattice.flat((seed_x, seed_y))],
                tree_floored(*lattice, in_tree@, steps@),
                pockets_in_tree(*lattice, pockets@, p as int, in_tree@),
                order_in_tree(*lattice, order@, k as int, in_tree@),
                forall|kk: int, j: int|
                    0 <= kk < pockets@.len() && 0 <= j < pockets@[kk]@.len() ==> lattice.open_at(
                        #[trigger] pockets@[kk]@[j],
                    ),
                order@.to_multiset() == pockets@[p as int]@.to_multiset(),
            decreases order@.len() - k,
        {
            let start = order[k];
            proof {
                assert(lattice.open_at(order@[k as int]));
            }
            if !in_tree[lattice.index(start.0, start.1)] {
                proof {
                    lemma_square_index(lattice.spec_width(), lattice.spec_height(), start.0 as int, start.1 as int);
                    assert(start != (seed_x, seed_y));
                    assert(pockets@[p as int]@.contains(order@[k as int]));
                    lemma_neighbour_in_pocket(*lattice, pockets@[p as int]@, start, (seed_x, seed_y));
                }
                let ghost walked = steps@;
                let ghost tree_walked = in_tree@;
                walk(lattice, start, &mut in_tree, &mut position, &mut steps, rng);
                proof {
                    lemma_square_index(lattice.spec_width(), lattice.spec_height(), seed_x as int, seed_y as int);
                    assert(tree_walked[lattice.flat((seed_x, seed_y))]);
                    assert(in_tree@[lattice.flat((seed_x, seed_y))]);
                    lemma_probing_keeps(walked, steps@, start);
                    lemma_floors_kept(pockets@, p + 1, walked, steps@);
                    lemma_tree_kept(*lattice, tree_walked, in_tree@, walked, steps@);
                    lemma_in_tree_grows(*lattice, pockets@, p as int, order@, k as int, tree_walked, in_tree@);
                }
            }
            proof {
                lemma_square_index(lattice.spec_width(), lattice.spec_height(), start.0 as int, start.1 as int);
                lemma_order_step(*lattice, order@, k as int, in_tree@);
            }
            k = k + 1;
        }
        proof {
            lemma_pocket_done(*lattice, pockets@, p as int, order@, in_tree@);
        }
        p = p + 1;
    }
    proof {
        lemma_wilson_end(*lattice, pockets@, steps@);
        lemma_wilson_floors(*lattice, pockets@, in_tree@, steps@);
    }
    steps
}

/// `position` holds each corridor of `path` at its index on the path, and
/// nothing for any other corridor.
spec fn tracks_path(lattice: Lattice, position: Seq<usize>, path: Seq<(usize, usize)>) -> bool {
    &&& forall|j: int| 0 <= j < path.len() ==> position[lattice.flat(#[trigger] path[j])] == j
    &&& forall|i: int|
        0 <= i < position.len() && #[trigger] position[i] != NOT_ON_PATH ==> position[i] < path.len()
            && lattice.flat(path[position[i] as int]) == i
}

/// `path` is a walk from `start` over open corridors outside `tree`, each
/// next to the one before and none twice, whose last corridor lies next to
/// corridor `q` of the tree.
pub open spec fn walk_into_tree(
    lattice: Lattice,
    tree: Seq<bool>,
    path: Seq<(usize, usize)>,
    q: (usize, usize),
    start: (usize, usize),
) -> bool {
    &&& path.len() >= 1
    &&& path[0] == start
    &&& forall|j: int| 0 <= j < path.len() ==> lattice.open_at(#[trigger] path[j]) && !tree[lattice.flat(path[j])]
    &&& forall|j: int| 0 <= j < path.len() - 1 ==> adjacent(#[trigger] path[j], path[j + 1])
    &&& forall|j1: int, j2: int| 0 <= j1 < j2 < path.len() ==> #[trigger] path[j1] != #[trigger] path[j2]
    &&& lattice.open_at(q)
    &&& tree[lattice.flat(q)]
    &&& adjacent(path.last(), q)
}

/// `tree` with the corridors of `path` added.
pub open spec fn tree_with(lattice: Lattice, tree: Seq<bool>, path: Seq<(usize, usize)>) -> Seq<bool> {
    Seq::new(
        tree.len(),
        |i: int| tree[i] || exists|j: int| 0 <= j < path.len() && lattice.flat(#[trigger] path[j]) == i,
    )
}

/// The steps that commit `path` to the tree at `q`: each corridor floored,
/// then the wall to the next corridor, or to `q` after the last, opened.
pub open spec fn commit_steps(path: Seq<(usize, usize)>, q: (usize, usize)) -> Seq<Step> {
    Seq::new(
        2 * path.len(),
        |k: int|
            {
                let j = k / 2;
                let next = if j + 1 < path.len() {
                    path[j + 1]
                } else {
                    q
                };
                if k % 2 == 0 {
                    floor_step(path[j].0 as int, path[j].1 as int)
                } else {
                    link_step(path[j], next)
                }
            },
    )
}

/// Step `t` sets square (x, y).
pub open spec fn touches(t: Step, x: int, y: int) -> bool {
    t.x == x && t.y == y
}

/// The cell that the last of `steps` to set square (x, y) leaves there, or
/// nothing if none of them sets it.
pub open spec fn last_write(steps: Seq<Step>, x: int, y: int) -> Option<Cell>
    decreases steps.len(),
{
    if steps.len() == 0 {
        None
    } else if touches(steps.last(), x, y) {
        Some(steps.last().cell)
    } else {
        last_write(steps.drop_last(), x, y)
    }
}

/// Square (x, y) is corridor `p`'s own square.
pub open spec fn on_corridor(p: (usize, usize), x: int, y: int) -> bool {
    x == 2 * p.0 + 1 && y == 2 * p.1 + 1
}

/// Square (x, y) is the wall between corridors `a` and `b`.
pub open spec fn on_link(a: (usize, usize), b: (usize, usize), x: int, y: int) -> bool {
    x == a.0 + b.0 + 1 && y == a.1 + b.1 + 1
}

/// Square (x, y) is the wall between the `j`th corridor of `path` and the
/// one after it.
pub open spec fn on_path_link(path: Seq<(usize, usize)>, j: int, x: int, y: int) -> bool {
    on_link(path[j], path[j + 1], x, y)
}

/// Square (x, y) lies on `path`: a corridor of it, or the wall between two
/// of its corridors that follow one another.
pub open spec fn on_path(path: Seq<(usize, usize)>, x: int, y: int) -> bool {
    ||| exists|j: int| 0 <= j < path.len() && #[trigger] on_corridor(path[j], x, y)
    ||| exists|j: int| 0 <= j < path.len() - 1 && #[trigger] on_path_link(path, j, x, y)
}

/// Square (x, y) lies on `path` joined to the tree at `q`: on the path, or
/// the wall from its last corridor to `q`.
pub open spec fn on_commit(path: Seq<(usize, usize)>, q: (usize, usize), x: int, y: int) -> bool {
    on_path(path, x, y) || on_link(path.last(), q, x, y)
}

/// What the steps of one walk leave behind: floor on every square of the
/// path that joins the tree at `q`, and wall on every other square they
/// touch. Loops the walk erased leave no opening behind.
pub open spec fn settles(added: Seq<Step>, path: Seq<(usize, usize)>, q: (usize, usize)) -> bool {
    forall|x: int, y: int|
        #![trigger last_write(added, x, y)]
        if on_commit(path, q, x, y) {
            last_write(added, x, y) == Some(Cell::Floor)
        } else {
            last_write(added, x, y) == None::<Cell> || last_write(added, x, y) == Some(Cell::Wall)
        }
}

/// While walking: probe on every square of the current path, wall on every
/// other square touched so far.
#[verifier::opaque]
spec fn shows_path(added: Seq<Step>, path: Seq<(usize, usize)>) -> bool {
    forall|x: int, y: int|
        #![trigger last_write(added, x, y)]
        if on_path(path, x, y) {
            last_write(added, x, y) == Some(Cell::Probe)
        } else {
            last_write(added, x, y) == None::<Cell> || last_write(added, x, y) == Some(Cell::Wall)
        }
}

/// One more step: it decides its own square and leaves the others be.
proof fn lemma_last_write_push(steps: Seq<Step>, t: Step, x: int, y: int)
    ensures
        last_write(steps.push(t), x, y) == if touches(t, x, y) {
            Some(t.cell)
        } else {
            last_write(steps, x, y)
        },
{
    assert(steps.push(t).drop_last() =~= steps);
}

/// The later steps decide every square they touch; the earlier ones the
/// rest.
proof fn lemma_last_write_append(a: Seq<Step>, b: Seq<Step>, x: int, y: int)
    ensures
        last_write(a + b, x, y) == if last_write(b, x, y) is Some {
            last_write(b, x, y)
        } else {
            last_write(a, x, y)
        },
    decreases b.len(),
{
    if b.len() == 0 {
        assert(a + b =~= a);
    } else {
        assert((a + b).drop_last() =~= a + b.drop_last());
        assert((a + b).last() == b.last());
        lemma_last_write_append(a, b.drop_last(), x, y);
    }
}

/// Only a step that touches a square decides it, with its own cell.
proof fn lemma_last_write_touch(steps: Seq<Step>, x: int, y: int)
    ensures
        (last_write(steps, x, y) is Some) <==> exists|i: int| 0 <= i < steps.len() && #[trigger] touches(steps[i], x, y),
        last_write(steps, x, y) is Some ==> exists|i: int|
            0 <= i < steps.len() && #[trigger] touches(steps[i], x, y) && Some(steps[i].cell) == last_write(steps, x, y),
    decreases steps.len(),
{
    if steps.len() > 0 {
        let rest = steps.drop_last();
        lemma_last_write_touch(rest, x, y);
        if touches(steps.last(), x, y) {
            assert(touches(steps[steps.len() - 1], x, y));
        } else {
            if exists|i: int| 0 <= i < steps.len() && #[trigger] touches(steps[i], x, y) {
                let i = choose|i: int| 0 <= i < steps.len() && #[trigger] touches(steps[i], x, y);
                assert(i < steps.len() - 1);
                assert(touches(rest[i], x, y));
            }
            if last_write(rest, x, y) is Some {
                let i = choose|i: int|
                    0 <= i < rest.len() && #[trigger] touches(rest[i], x, y) && Some(rest[i].cell) == last_write(rest, x, y);
                assert(steps[i] == rest[i]);
            }
        }
    }
}

/// Two walls between adjacent corridors are the same square only for the
/// same two corridors.
proof fn lemma_link_pair(a: (usize, usize), b: (usize, usize), c: (usize, usize), d: (usize, usize), x: int, y: int)
    requires
        adjacent(a, b),
        adjacent(c, d),
        on_link(a, b, x, y),
        on_link(c, d, x, y),
    ensures
        (a == c && b == d) || (a == d && b == c),
{
}

/// A wall between adjacent corridors is no corridor's square.
proof fn lemma_link_not_corridor(a: (usize, usize), b: (usize, usize), p: (usize, usize), x: int, y: int)
    requires
        adjacent(a, b),
        on_link(a, b, x, y),
    ensures
        !on_corridor(p, x, y),
{
}

/// The first probe shows a path of the start alone.
proof fn lemma_show_start(steps: Seq<Step>, start: (usize, usize), t: Step)
    requires
        t.cell == Cell::Probe,
        on_corridor(start, t.x as int, t.y as int),
    ensures
        shows_path(steps.push(t).skip(steps.len() as int), seq![start]),
{
    reveal(shows_path);
    let added = steps.push(t).skip(steps.len() as int);
    let path = seq![start];
    assert(added =~= Seq::<Step>::empty().push(t));
    assert forall|x: int, y: int| #![trigger last_write(added, x, y)]
        if on_path(path, x, y) {
            last_write(added, x, y) == Some(Cell::Probe)
        } else {
            last_write(added, x, y) == None::<Cell> || last_write(added, x, y) == Some(Cell::Wall)
        } by {
        lemma_last_write_push(Seq::<Step>::empty(), t, x, y);
        if on_path(path, x, y) {
            let j = choose|j: int| 0 <= j < path.len() && #[trigger] on_corridor(path[j], x, y);
            assert(j == 0);
        } else {
            if touches(t, x, y) {
                assert(on_corridor(path[0], x, y));
            }
        }
    }
}

/// A move onto a fresh corridor shows the wall crossed and the corridor as
/// probes: both now lie on the longer path.
proof fn lemma_show_extend(
    steps: Seq<Step>,
    from: int,
    path: Seq<(usize, usize)>,
    next: (usize, usize),
    out: Step,
    into: Step,
)
    requires
        0 <= from <= steps.len(),
        path.len() >= 1,
        shows_path(steps.skip(from), path),
        out.cell == Cell::Probe,
        on_link(path.last(), next, out.x as int, out.y as int),
        into.cell == Cell::Probe,
        on_corridor(next, into.x as int, into.y as int),
    ensures
        shows_path(steps.push(out).push(into).skip(from), path.push(next)),
{
    reveal(shows_path);
    let added = steps.skip(from);
    let longer = path.push(next);
    let after = steps.push(out).push(into).skip(from);
    assert(after =~= added.push(out).push(into));
    assert forall|x: int, y: int| #![trigger last_write(after, x, y)]
        if on_path(longer, x, y) {
            last_write(after, x, y) == Some(Cell::Probe)
        } else {
            last_write(after, x, y) == None::<Cell> || last_write(after, x, y) == Some(Cell::Wall)
        } by {
        lemma_last_write_push(added.push(out), into, x, y);
        lemma_last_write_push(added, out, x, y);
        assert(last_write(added, x, y) == if on_path(path, x, y) {
            Some(Cell::Probe)
        } else {
            last_write(added, x, y)
        });
        if touches(into, x, y) {
            assert(on_corridor(longer[path.len() as int], x, y));
        } else if touches(out, x, y) {
            assert(on_path_link(longer, path.len() - 1, x, y));
        } else {
            if on_path(path, x, y) {
                if exists|j: int| 0 <= j < path.len() && #[trigger] on_corridor(path[j], x, y) {
                    let j = choose|j: int| 0 <= j < path.len() && #[trigger] on_corridor(path[j], x, y);
                    assert(on_corridor(longer[j], x, y));
                } else {
                    let j = choose|j: int| 0 <= j < path.len() - 1 && #[trigger] on_path_link(path, j, x, y);
                    assert(on_path_link(longer, j, x, y));
                }
            }
            if on_path(longer, x, y) {
                if exists|j: int| 0 <= j < longer.len() && #[trigger] on_corridor(longer[j], x, y) {
                    let j = choose|j: int| 0 <= j < longer.len() && #[trigger] on_corridor(longer[j], x, y);
                    assert(j < path.len());
                    assert(on_corridor(path[j], x, y));
                } else {
                    let j = choose|j: int| 0 <= j < longer.len() - 1 && #[trigger] on_path_link(longer, j, x, y);
                    assert(j < path.len() - 1);
                    assert(on_path_link(path, j, x, y));
                }
            }
        }
    }
}

/// Erasing the last corridor of the path walls it and the wall to it back
/// up: neither lies on the shorter path.
proof fn lemma_show_erase(steps: Seq<Step>, from: int, path: Seq<(usize, usize)>, shut: Step, unlink: Step)
    requires
        0 <= from <= steps.len(),
        path.len() >= 2,
        shows_path(steps.skip(from), path),
        forall|j: int| 0 <= j < path.len() - 1 ==> #[trigger] path[j] != path.last(),
        forall|j: int| 0 <= j < path.len() - 1 ==> adjacent(#[trigger] path[j], path[j + 1]),
        shut.cell == Cell::Wall,
        on_corridor(path.last(), shut.x as int, shut.y as int),
        unlink.cell == Cell::Wall,
        on_link(path[path.len() - 2], path.last(), unlink.x as int, unlink.y as int),
    ensures
        shows_path(steps.push(shut).push(unlink).skip(from), path.drop_last()),
{
    reveal(shows_path);
    let added = steps.skip(from);
    let shorter = path.drop_last();
    let last = path.last();
    let m = path[path.len() - 2];
    let after = steps.push(shut).push(unlink).skip(from);
    assert(after =~= added.push(shut).push(unlink));
    assert(adjacent(path[path.len() - 2], path[path.len() - 2 + 1]));
    assert forall|x: int, y: int| #![trigger last_write(after, x, y)]
        if on_path(shorter, x, y) {
            last_write(after, x, y) == Some(Cell::Probe)
        } else {
            last_write(after, x, y) == None::<Cell> || last_write(after, x, y) == Some(Cell::Wall)
        } by {
        lemma_last_write_push(added.push(shut), unlink, x, y);
        lemma_last_write_push(added, shut, x, y);
        assert(last_write(added, x, y) == if on_path(path, x, y) {
            Some(Cell::Probe)
        } else {
            last_write(added, x, y)
        });
        if touches(unlink, x, y) || touches(shut, x, y) {
            if on_path(shorter, x, y) {
                if exists|j: int| 0 <= j < shorter.len() && #[trigger] on_corridor(shorter[j], x, y) {
                    let j = choose|j: int| 0 <= j < shorter.len() && #[trigger] on_corridor(shorter[j], x, y);
                    assert(shorter[j] == path[j]);
                    if touches(unlink, x, y) {
                        lemma_link_not_corridor(m, last, path[j], x, y);
                    }
                } else {
                    let j = choose|j: int| 0 <= j < shorter.len() - 1 && #[trigger] on_path_link(shorter, j, x, y);
                    assert(shorter[j] == path[j] && shorter[j + 1] == path[j + 1]);
                    assert(adjacent(path[j], path[j + 1]));
                    if touches(unlink, x, y) {
                        lemma_link_pair(path[j], path[j + 1], m, last, x, y);
                        assert(path[j] != last);
                        assert(path[j + 1] != last);
                    } else {
                        lemma_link_not_corridor(path[j], path[j + 1], last, x, y);
                    }
                }
            }
        } else {
            if on_path(path, x, y) {
                if exists|j: int| 0 <= j < path.len() && #[trigger] on_corridor(path[j], x, y) {
                    let j = choose|j: int| 0 <= j < path.len() && #[trigger] on_corridor(path[j], x, y);
                    assert(j < path.len() - 1);
                    assert(on_corridor(shorter[j], x, y));
                } else {
                    let j = choose|j: int| 0 <= j < path.len() - 1 && #[trigger] on_path_link(path, j, x, y);
                    assert(j < path.len() - 2);
                    assert(on_path_link(shorter, j, x, y));
                }
            }
            if on_path(shorter, x, y) {
                if exists|j: int| 0 <= j < shorter.len() && #[trigger] on_corridor(shorter[j], x, y) {
                    let j = choose|j: int| 0 <= j < shorter.len() && #[trigger] on_corridor(shorter[j], x, y);
                    assert(on_corridor(path[j], x, y));
                } else {
                    let j = choose|j: int| 0 <= j < shorter.len() - 1 && #[trigger] on_path_link(shorter, j, x, y);
                    assert(on_path_link(path, j, x, y));
                }
            }
        }
    }
}

/// Committing the path floors every square of it, and the wall to the tree;
/// every other square the walk touched stays wall.
proof fn lemma_commit_settles(steps: Seq<Step>, from: int, path: Seq<(usize, usize)>, q: (usize, usize))
    requires
        0 <= from <= steps.len(),
        path.len() >= 1,
        shows_path(steps.skip(from), path),
        forall|j: int| 0 <= j < path.len() ==> 2 * (#[trigger] path[j]).0 + 1 <= usize::MAX && 2 * path[j].1 + 1
            <= usize::MAX,
        forall|j: int| 0 <= j < path.len() - 1 ==> adjacent(#[trigger] path[j], path[j + 1]),
        adjacent(path.last(), q),
        2 * q.0 + 1 <= usize::MAX,
        2 * q.1 + 1 <= usize::MAX,
    ensures
        settles((steps + commit_steps(path, q)).skip(from), path, q),
{
    reveal(shows_path);
    let added = steps.skip(from);
    let cs = commit_steps(path, q);
    let after = (steps + cs).skip(from);
    assert(after =~= added + cs);
    assert forall|x: int, y: int| #![trigger last_write(after, x, y)]
        if on_commit(path, q, x, y) {
            last_write(after, x, y) == Some(Cell::Floor)
        } else {
            last_write(after, x, y) == None::<Cell> || last_write(after, x, y) == Some(Cell::Wall)
        } by {
        lemma_last_write_append(added, cs, x, y);
        lemma_last_write_touch(cs, x, y);
        assert(last_write(added, x, y) == if on_path(path, x, y) {
            Some(Cell::Probe)
        } else {
            last_write(added, x, y)
        });
        if on_commit(path, q, x, y) {
            if on_path(path, x, y) {
                if exists|j: int| 0 <= j < path.len() && #[trigger] on_corridor(path[j], x, y) {
                    let j = choose|j: int| 0 <= j < path.len() && #[trigger] on_corridor(path[j], x, y);
                    assert(cs[2 * j] == floor_step(path[j].0 as int, path[j].1 as int));
                    assert(touches(cs[2 * j], x, y));
                } else {
                    let j = choose|j: int| 0 <= j < path.len() - 1 && #[trigger] on_path_link(path, j, x, y);
                    assert(adjacent(path[j], path[j + 1]));
                    assert(2 * path[j + 1].0 + 1 <= usize::MAX && 2 * path[j + 1].1 + 1 <= usize::MAX);
                    assert((2 * j + 1) / 2 == j);
                    assert(cs[2 * j + 1] == link_step(path[j], path[j + 1]));
                    assert(touches(cs[2 * j + 1], x, y));
                }
            } else {
                let j = path.len() - 1;
                assert(2 * path[j].0 + 1 <= usize::MAX);
                assert((2 * j + 1) / 2 == j);
                assert(cs[2 * j + 1] == link_step(path[j], q));
                assert(touches(cs[2 * j + 1], x, y));
            }
            let i = choose|i: int|
                0 <= i < cs.len() && #[trigger] touches(cs[i], x, y) && Some(cs[i].cell) == last_write(cs, x, y);
            assert(cs[i].cell == Cell::Floor);
        } else {
            if last_write(cs, x, y) is Some {
                let i = choose|i: int| 0 <= i < cs.len() && #[trigger] touches(cs[i], x, y);
                let j = i / 2;
                assert(2 * path[j].0 + 1 <= usize::MAX && 2 * path[j].1 + 1 <= usize::MAX);
                if i % 2 == 0 {
                    assert(on_corridor(path[j], x, y));
                } else if j + 1 < path.len() {
                    assert(adjacent(path[j], path[j + 1]));
                    assert(2 * path[j + 1].0 + 1 <= usize::MAX && 2 * path[j + 1].1 + 1 <= usize::MAX);
                    assert(on_path_link(path, j, x, y));
                } else {
                    assert(on_link(path.last(), q, x, y));
                }
            }
        }
    }
}

/// One loop-erased walk from `start` until it touches the tree, then commits
/// the path. `position` maps a corridor to its index in the current path and
/// is left all NOT_ON_PATH again on return. Every move that does not reach
/// the tree shows at least two steps, so a walk of `usize::MAX` moves would
/// show more steps than a `Vec` holds: the tree is always reached first.
#[verifier::rlimit(100)]
#[verifier::spinoff_prover]
fn walk(
    lattice: &Lattice,
    start: (usize, usize),
    in_tree: &mut Vec<bool>,
    position: &mut Vec<usize>,
    steps: &mut Vec<Step>,
    rng: &mut StdRng,
)
    requires
        lattice.wf(),
        lattice.open_at(start),
        exists|q: (usize, usize)| #[trigger] lattice.open_at(q) && adjacent(start, q),
        old(in_tree)@.len() == lattice.spec_width() * lattice.spec_height(),
        old(position)@.len() == lattice.spec_width() * lattice.spec_height(),
        !old(in_tree)@[lattice.flat(start)],
        forall|i: int| 0 <= i < old(position)@.len() ==> #[trigger] old(position)@[i] == NOT_ON_PATH,
        lattice.carves(old(steps)@, |c: Cell| c == Cell::Floor || c == Cell::Probe || c == Cell::Wall),
    ensures
        final(in_tree)@.len() == old(in_tree)@.len(),
        final(position)@.len() == old(position)@.len(),
        forall|i: int| 0 <= i < final(position)@.len() ==> #[trigger] final(position)@[i] == NOT_ON_PATH,
        lattice.carves(final(steps)@, |c: Cell| c == Cell::Floor || c == Cell::Probe || c == Cell::Wall),
        goes_on_probing(old(steps)@, final(steps)@, start),
        exists|path: Seq<(usize, usize)>, q: (usize, usize), shown: Seq<Step>|
            #![trigger walk_into_tree(*lattice, old(in_tree)@, path, q, start), goes_on_probing(old(steps)@, shown, start)]
            {
                &&& walk_into_tree(*lattice, old(in_tree)@, path, q, start)
                &&& goes_on_probing(old(steps)@, shown, start)
                &&& final(steps)@ == shown + commit_steps(path, q)
                &&& final(in_tree)@ == tree_with(*lattice, old(in_tree)@, path)
                &&& settles(final(steps)@.skip(old(steps)@.len() as int), path, q)
            },
        forall|i: int| 0 <= i < old(in_tree)@.len() && old(in_tree)@[i] ==> #[trigger] final(in_tree)@[i],
        forall|q: (usize, usize)|
            lattice.holds(q) && #[trigger] final(in_tree)@[lattice.flat(q)] && !old(in_tree)@[lattice.flat(q)]
                ==> final(steps)@.contains(floor_step(q.0 as int, q.1 as int)),
        final(in_tree)@[lattice.flat(start)],
{
    let ghost steps0 = steps@;
    let ghost tree0 = in_tree@;
    let n = lattice.len();
    let mut path: Vec<(usize, usize)> = Vec::new();
    path.push(start);
    let first = lattice.index(start.0, start.1);
    position.set(first, 0);
    proof {
        lattice.lemma_corridor_owned(start.0 as int, start.1 as int);
    }
    let probe = corridor(start.0, start.1, Cell::Probe);
    steps.push(probe);
    proof {
        lemma_show_start(steps0, start, probe);
        assert(steps@.subrange(0, steps0.len() as int) =~= steps0);
        lemma_square_index(lattice.spec_width(), lattice.spec_height(), start.0 as int, start.1 as int);
        assert(path@[0] == start);
        assert forall|i: int| 0 <= i < position@.len() && #[trigger] position@[i] != NOT_ON_PATH implies position@[i]
            < path@.len() && lattice.flat(path@[position@[i] as int]) == i by {
            if i != first {
                assert(old(position)@[i] == NOT_ON_PATH);
            }
        }
    }

    let mut moves: usize = 0;
    while moves < usize::MAX
        invariant
            lattice.wf(),
            n == lattice.spec_width() * lattice.spec_height(),
            n == old(in_tree)@.len(),
            n == old(position)@.len(),
            in_tree@.len() == n,
            position@.len() == n,
            path@.len() >= 1,
            forall|i: int| 0 <= i < path@.len() ==> lattice.open_at(#[trigger] path@[i]),
            forall|i: int| 0 <= i < path@.len() - 1 ==> adjacent(#[trigger] path@[i], path@[i + 1]),
            forall|i: int| 0 <= i < path@.len() ==> !tree0[lattice.flat(#[trigger] path@[i])],
            tracks_path(*lattice, position@, path@),
            exists|q: (usize, usize)| #[trigger] lattice.open_at(q) && adjacent(start, q),
            lattice.carves(steps@, |c: Cell| c == Cell::Floor || c == Cell::Probe || c == Cell::Wall),
            path@[0] == start,
            in_tree@ == tree0,
            tree0 == old(in_tree)@,
            steps0 == old(steps)@,
            goes_on_probing(steps0, steps@, start),
            steps@.len() >= steps0.len() + 1 + 2 * moves,
            steps@.len() + 1 >= steps0.len() + 2 * path@.len(),
            shows_path(steps@.skip(steps0.len() as int), path@),
        decreases usize::MAX - moves,
    {
        moves = moves + 1;
        let (x, y) = path[path.len() - 1];
        let ghost last = path@.len() - 1;
        proof {
            assert(lattice.open_at(path@[last]));
        }
        let nbrs = lattice.neighbours(x, y);
        proof {
            // The last corridor has a neighbour: the one before it, or, for
            // the start alone, the one the start was given with.
            if path@.len() >= 2 {
                assert(adjacent(path@[last - 1], path@[last]));
                assert(lattice.open_at(path@[last - 1]));
                assert(nbrs@.contains(path@[last - 1]));
            } else {
                let q = choose|q: (usize, usize)| #[trigger] lattice.open_at(q) && adjacent(start, q);
                assert(nbrs@.contains(q));
            }
        }
        let (nx, ny) = match pick(nbrs.as_slice(), rng) {
            Some(q) => q,
            None => return,
        };
        proof {
            let j = choose|j: int| 0 <= j < nbrs@.len() && nbrs@[j] == (nx, ny);
            assert(lattice.open_at(nbrs@[j]) && adjacent((x, y), nbrs@[j]));
        }
        let next = lattice.index(nx, ny);
        proof {
            lemma_square_index(lattice.spec_width(), lattice.spec_height(), nx as int, ny as int);
            assert(next == lattice.flat((nx, ny)));
        }

        if in_tree[next] {
            let ghost shown = steps@;
            let ghost walked = path@;
            let ghost q = (nx, ny);
            proof {
                assert forall|j1: int, j2: int| 0 <= j1 < j2 < walked.len() implies #[trigger] walked[j1]
                    != #[trigger] walked[j2] by {
                    assert(position@[lattice.flat(walked[j1])] == j1);
                    assert(position@[lattice.flat(walked[j2])] == j2);
                }
                assert(walked.last() == walked[last]);
                assert(walk_into_tree(*lattice, tree0, walked, q, start));
                assert forall|j: int| 0 <= j < walked.len() implies 2 * (#[trigger] walked[j]).0 + 1 <= usize::MAX
                    && 2 * walked[j].1 + 1 <= usize::MAX by {
                    assert(lattice.open_at(walked[j]));
                    lattice.lemma_corridor_owned(walked[j].0 as int, walked[j].1 as int);
                }
                lattice.lemma_corridor_owned(nx as int, ny as int);
                lemma_commit_settles(shown, steps0.len() as int, walked, q);
                assert(steps@ == shown + commit_steps(walked, q).take(0));
                assert(in_tree@ =~= tree_with(*lattice, tree0, walked.take(0)));
            }
            let mut i: usize = 0;
            while i < path.len()
                invariant
                    lattice.wf(),
                    n == lattice.spec_width() * lattice.spec_height(),
                    in_tree@.len() == n,
                    position@.len() == n,
                    path@ == walked,
                    walk_into_tree(*lattice, tree0, walked, q, start),
                    q == (nx, ny),
                    i <= path@.len(),
                    path@[path@.len() - 1] == (x, y),
                    lattice.open_at((nx, ny)),
                    adjacent((x, y), (nx, ny)),
                    forall|i: int| 0 <= i < path@.len() ==> lattice.open_at(#[trigger] path@[i]),
                    forall|i: int| 0 <= i < path@.len() - 1 ==> adjacent(#[trigger] path@[i], path@[i + 1]),
                    lattice.carves(steps@, |c: Cell| c == Cell::Floor || c == Cell::Probe || c == Cell::Wall),
                    path@[0] == start,
                    tree0.len() == n,
                    goes_on_probing(steps0, shown, start),
                    goes_on_probing(steps0, steps@, start),
                    steps@ == shown + commit_steps(walked, q).take(2 * i),
                    in_tree@ == tree_with(*lattice, tree0, walked.take(i as int)),
                    forall|j: int| i <= j < walked.len() ==> position@[lattice.flat(#[trigger] walked[j])] == j,
                    forall|k: int|
                        0 <= k < n && #[trigger] position@[k] != NOT_ON_PATH ==> i <= position@[k] < walked.len()
                            && lattice.flat(walked[position@[k] as int]) == k,
                decreases path@.len() - i,
            {
                let (px, py) = path[i];
                let (qx, qy) = if i + 1 < path.len() {
                    path[i + 1]
                } else {
                    (nx, ny)
                };
                proof {
                    assert(lattice.open_at(path@[i as int]));
                    if i + 1 < path@.len() {
                        assert(adjacent(path@[i as int], path@[i + 1]));
                        assert(lattice.open_at(path@[i + 1]));
                    }
                    lattice.lemma_corridor_owned(px as int, py as int);
                    lattice.lemma_between_owned((px, py), (qx, qy));
                }
                let here = lattice.index(px, py);
                let ghost tree_before = in_tree@;
                let ghost steps_before = steps@;
                let ghost position_before = position@;
                in_tree.set(here, true);
                position.set(here, NOT_ON_PATH);
                let settle = floor(px, py);
                let link = wall_between(px, py, qx, qy);
                steps.push(settle);
                steps.push(link);
                proof {
                    let pq = (px, py);
                    lemma_square_index(lattice.spec_width(), lattice.spec_height(), px as int, py as int);
                    assert(here == lattice.flat(pq));
                    lemma_probing_push(steps0, steps_before, start, settle);
                    lemma_probing_push(steps0, steps_before.push(settle), start, link);
                    let cs = commit_steps(walked, q);
                    assert(cs[2 * i as int] == settle);
                    assert(cs[2 * i + 1] == link);
                    assert(cs.take(2 * (i + 1)) =~= cs.take(2 * i as int).push(settle).push(link));
                    assert(steps@ =~= shown + cs.take(2 * (i + 1)));
                    assert(in_tree@ =~= tree_with(*lattice, tree0, walked.take(i + 1))) by {
                        assert forall|k: int| 0 <= k < n implies in_tree@[k] == tree_with(
                            *lattice,
                            tree0,
                            walked.take(i + 1),
                        )[k] by {
                            let before = walked.take(i as int);
                            let after = walked.take(i + 1);
                            assert(after[i as int] == pq);
                            if k == here {
                                assert(lattice.flat(after[i as int]) == k);
                            } else {
                                if exists|j: int| 0 <= j < after.len() && lattice.flat(#[trigger] after[j]) == k {
                                    let j = choose|j: int| 0 <= j < after.len() && lattice.flat(#[trigger] after[j]) == k;
                                    assert(j != i);
                                    assert(before[j] == after[j]);
                                }
                                if exists|j: int| 0 <= j < before.len() && lattice.flat(#[trigger] before[j]) == k {
                                    let j = choose|j: int| 0 <= j < before.len() && lattice.flat(#[trigger] before[j]) == k;
                                    assert(before[j] == after[j]);
                                }
                            }
                        }
                    }
                    assert forall|j: int| i + 1 <= j < walked.len() implies position@[lattice.flat(#[trigger] walked[j])] == j by {
                        assert(lattice.open_at(walked[j]));
                        lemma_square_index(lattice.spec_width(), lattice.spec_height(), walked[j].0 as int, walked[j].1 as int);
                        assert(position_before[lattice.flat(walked[j])] == j);
                        assert(position_before[here as int] == i);
                    }
                    assert forall|k: int|
                        0 <= k < n && #[trigger] position@[k] != NOT_ON_PATH implies i + 1 <= position@[k] < walked.len()
                            && lattice.flat(walked[position@[k] as int]) == k by {
                        assert(k != here);
                        assert(position_before[k] == position@[k]);
                        if position@[k] == i {
                            assert(lattice.flat(walked[i as int]) == here);
                        }
                    }
                }
                i = i + 1;
            }
            proof {
                assert(walked.take(walked.len() as int) =~= walked);
                assert(commit_steps(walked, q).take(2 * walked.len() as int) =~= commit_steps(walked, q));
                assert(steps@ == shown + commit_steps(walked, q));
                assert(settles(steps@.skip(steps0.len() as int), walked, q));
                assert forall|k: int| 0 <= k < position@.len() implies #[trigger] position@[k] == NOT_ON_PATH by {
                    if position@[k] != NOT_ON_PATH {
                        assert(i <= position@[k] < walked.len());
                    }
                }
                lemma_square_index(lattice.spec_width(), lattice.spec_height(), start.0 as int, start.1 as int);
                assert(tree_with(*lattice, tree0, walked)[lattice.flat(start)]) by {
                    assert(lattice.flat(walked[0]) == lattice.flat(start));
                }
                assert forall|k: int| 0 <= k < tree0.len() && tree0[k] implies #[trigger] in_tree@[k] by {
                    assert(tree_with(*lattice, tree0, walked)[k]);
                }
                assert forall|r: (usize, usize)|
                    lattice.holds(r) && #[trigger] in_tree@[lattice.flat(r)] && !tree0[lattice.flat(r)] implies steps@.contains(
                        floor_step(r.0 as int, r.1 as int),
                    ) by {
                    lemma_square_index(lattice.spec_width(), lattice.spec_height(), r.0 as int, r.1 as int);
                    let j = choose|j: int| 0 <= j < walked.len() && lattice.flat(#[trigger] walked[j]) == lattice.flat(r);
                    assert(lattice.open_at(walked[j]));
                    lemma_square_index(lattice.spec_width(), lattice.spec_height(), walked[j].0 as int, walked[j].1 as int);
                    lemma_square_index_injective(lattice.spec_width(), walked[j].0 as int, walked[j].1 as int, r.0 as int, r.1 as int);
                    let cs = commit_steps(walked, q);
                    assert(cs[2 * j] == floor_step(r.0 as int, r.1 as int));
                    assert(steps@[shown.len() + 2 * j] == cs[2 * j]);
                }
            }
            return;
        }

        if position[next] != NOT_ON_PATH {
            // The walk crossed itself: erase everything after the crossing.
            let keep = position[next];
            let ghost path_before = path@;
            let ghost steps_before = steps@;
            proof {
                assert(keep < path@.len());
                assert(lattice.flat(path@[keep as int]) == next);
                lemma_square_index(lattice.spec_width(), lattice.spec_height(), path@[keep as int].0 as int, path@[keep as int].1 as int);
                lemma_square_index_injective(
                    lattice.spec_width(),
                    path@[keep as int].0 as int,
                    path@[keep as int].1 as int,
                    nx as int,
                    ny as int,
                );
                assert(path@[keep as int] == (nx, ny));
                assert(keep + 1 < path@.len());
            }
            while path.len() > keep + 1
                invariant
                    lattice.wf(),
                    n == lattice.spec_width() * lattice.spec_height(),
                    in_tree@.len() == n,
                    position@.len() == n,
                    path@.len() >= 1,
                    keep < usize::MAX,
                    keep + 1 <= path@.len() <= path_before.len(),
                    forall|i: int| 0 <= i < path@.len() ==> #[trigger] path@[i] == path_before[i],
                    forall|i: int| 0 <= i < path@.len() ==> lattice.open_at(#[trigger] path@[i]),
                    forall|i: int| 0 <= i < path@.len() - 1 ==> adjacent(#[trigger] path@[i], path@[i + 1]),
                    forall|i: int| 0 <= i < path@.len() ==> !tree0[lattice.flat(#[trigger] path@[i])],
                    tracks_path(*lattice, position@, path@),
                    lattice.carves(steps@, |c: Cell| c == Cell::Floor || c == Cell::Probe || c == Cell::Wall),
                    path@[0] == start,
                    in_tree@ == tree0,
                    goes_on_probing(steps0, steps@, start),
                    steps@.len() >= steps_before.len() + 2 * (path_before.len() - path@.len()),
                    shows_path(steps@.skip(steps0.len() as int), path@),
                decreases path@.len(),
            {
                let ghost before = path@;
                let ghost position_before = position@;
                let ghost steps_pre = steps@;
                proof {
                    assert forall|j: int| 0 <= j < before.len() - 1 implies #[trigger] before[j] != before.last() by {
                        if before[j] == before.last() {
                            assert(position_before[lattice.flat(before[j])] == j);
                            assert(position_before[lattice.flat(before[before.len() - 1])] == before.len() - 1);
                        }
                    }
                }
                let (px, py) = path.pop().unwrap();
                proof {
                    assert(lattice.open_at(before[before.len() - 1]));
                    assert(lattice.open_at(before[before.len() - 2]));
                    assert(adjacent(before[before.len() - 2], before[before.len() - 1]));
                    assert(path@ == before.drop_last());
                    lattice.lemma_corridor_owned(px as int, py as int);
                }
                let gone = lattice.index(px, py);
                position.set(gone, NOT_ON_PATH);
                let shut = corridor(px, py, Cell::Wall);
                proof {
                    lemma_probing_push(steps0, steps@, start, shut);
                    assert(path@[0] == before[0]);
                    lemma_square_index(lattice.spec_width(), lattice.spec_height(), px as int, py as int);
                    let last_i = before.len() - 1;
                    assert(before[last_i] == (px, py));
                    assert(gone == lattice.flat(before[last_i]));
                    assert(position_before[gone as int] == last_i);
                    assert forall|j: int| 0 <= j < path@.len() implies position@[lattice.flat(#[trigger] path@[j])] == j by {
                        assert(path@[j] == before[j]);
                        assert(lattice.open_at(before[j]));
                        lemma_square_index(lattice.spec_width(), lattice.spec_height(), before[j].0 as int, before[j].1 as int);
                        assert(position_before[lattice.flat(before[j])] == j);
                        assert(j != last_i);
                    }
                    assert forall|k: int|
                        0 <= k < position@.len() && #[trigger] position@[k] != NOT_ON_PATH implies position@[k] < path@.len()
                            && lattice.flat(path@[position@[k] as int]) == k by {
                        assert(k != gone);
                        assert(position_before[k] == position@[k]);
                        if position@[k] == last_i {
                            assert(lattice.flat(before[last_i]) == k);
                        }
                        assert(path@[position@[k] as int] == before[position@[k] as int]);
                    }
                    assert forall|i: int| 0 <= i < path@.len() implies #[trigger] path@[i] == path_before[i] by {
                        assert(path@[i] == before[i]);
                    }
                }
                steps.push(shut);
                let (qx, qy) = path[path.len() - 1];
                proof {
                    assert(path@[path@.len() - 1] == before[before.len() - 2]);
                    lattice.lemma_between_owned((qx, qy), (px, py));
                    assert forall|i: int| 0 <= i < path@.len() implies lattice.open_at(#[trigger] path@[i]) by {
                        assert(path@[i] == before[i]);
                    }
                    assert forall|i: int| 0 <= i < path@.len() - 1 implies adjacent(#[trigger] path@[i], path@[i + 1]) by {
                        assert(path@[i] == before[i]);
                        assert(path@[i + 1] == before[i + 1]);
                    }
                    assert forall|i: int| 0 <= i < path@.len() implies !tree0[lattice.flat(#[trigger] path@[i])] by {
                        assert(path@[i] == before[i]);
                    }
                }
                let unlink = between(qx, qy, px, py, Cell::Wall);
                proof {
                    lemma_probing_push(steps0, steps@, start, unlink);
                }
                steps.push(unlink);
                proof {
                    assert(before[before.len() - 2] == (qx, qy));
                    lemma_show_erase(steps_pre, steps0.len() as int, before, shut, unlink);
                }
            }
            continue;
        }

        let ghost before = path@;
        let ghost position_before = position@;
        let ghost steps_pre = steps@;
        proof {
            assert(before.last() == (x, y));
            // A path never holds more corridors than half the steps shown.
            assert(steps.len() <= usize::MAX);
            assert(path@.len() < usize::MAX);
        }
        position.set(next, path.len());
        path.push((nx, ny));
        proof {
            lattice.lemma_between_owned((x, y), (nx, ny));
            lattice.lemma_corridor_owned(nx as int, ny as int);
            assert(!tree0[next as int]);
            assert forall|i: int| 0 <= i < path@.len() implies lattice.open_at(#[trigger] path@[i]) by {
                if i < before.len() {
                    assert(path@[i] == before[i]);
                }
            }
            assert forall|i: int| 0 <= i < path@.len() - 1 implies adjacent(#[trigger] path@[i], path@[i + 1]) by {
                if i < before.len() - 1 {
                    assert(path@[i] == before[i]);
                    assert(path@[i + 1] == before[i + 1]);
                }
            }
            assert forall|i: int| 0 <= i < path@.len() implies !tree0[lattice.flat(#[trigger] path@[i])] by {
                if i < before.len() {
                    assert(path@[i] == before[i]);
                }
            }
            assert forall|j: int| 0 <= j < path@.len() implies position@[lattice.flat(#[trigger] path@[j])] == j by {
                assert(lattice.open_at(path@[j]));
                lemma_square_index(lattice.spec_width(), lattice.spec_height(), path@[j].0 as int, path@[j].1 as int);
                if j < before.len() {
                    assert(path@[j] == before[j]);
                    assert(position_before[lattice.flat(before[j])] == j);
                    assert(lattice.flat(before[j]) != next) by {
                        if lattice.flat(before[j]) == next {
                            assert(position_before[next as int] == j);
                        }
                    }
                }
            }
            assert forall|k: int|
                0 <= k < position@.len() && #[trigger] position@[k] != NOT_ON_PATH implies position@[k] < path@.len()
                    && lattice.flat(path@[position@[k] as int]) == k by {
                if k != next {
                    assert(position_before[k] == position@[k]);
                    assert(path@[position@[k] as int] == before[position@[k] as int]);
                }
            }
        }
        let step_out = between(x, y, nx, ny, Cell::Probe);
        let step_in = corridor(nx, ny, Cell::Probe);
        proof {
            assert(path@[0] == before[0]);
            lemma_probing_push(steps0, steps@, start, step_out);
            lemma_probing_push(steps0, steps@.push(step_out), start, step_in);
        }
        steps.push(step_out);
        steps.push(step_in);
        proof {
            lemma_show_extend(steps_pre, steps0.len() as int, before, (nx, ny), step_out, step_in);
            assert(path@ == before.push((nx, ny)));
        }
    }
    proof {
        // Every move above showed at least two steps.
        assert(steps.len() <= usize::MAX);
    }
}

} // verus!
