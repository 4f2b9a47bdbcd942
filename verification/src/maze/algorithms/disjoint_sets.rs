//! Union-find over indices 0..n with path compression.

use vstd::prelude::*;

verus! {

/// A grouping of 0..n given by one representative per element: every
/// representative is in range and represents itself.
pub open spec fn is_grouping(reps: Seq<usize>) -> bool {
    forall|i: int|
        0 <= i < reps.len() ==> (#[trigger] reps[i]) < reps.len() && reps[reps[i] as int]
            == reps[i]
}

/// The grouping once the group represented by `from` has joined the group
/// represented by `to`.
pub open spec fn joined(reps: Seq<usize>, from: usize, to: usize) -> Seq<usize> {
    reps.map_values(|r: usize| if r == from { to } else { r })
}

/// Union-find over indices 0..n: answers "are these two already connected?"
/// and merges groups, both in near-constant time.
pub struct DisjointSets {
    parent: Vec<usize>,
    /// The representative each element's parent chain ends at.
    reps: Ghost<Seq<usize>>,
    /// Grows strictly along every parent link; bounds the walk to the root.
    rank: Ghost<Seq<nat>>,
    bound: Ghost<nat>,
}

impl View for DisjointSets {
    type V = Seq<usize>;

    /// The representative of each element's group.
    closed spec fn view(&self) -> Seq<usize> {
        self.reps@
    }
}

impl DisjointSets {
    pub closed spec fn wf(&self) -> bool {
        let n = self.parent@.len();
        &&& self.reps@.len() == n
        &&& self.rank@.len() == n
        &&& forall|i: int|
            0 <= i < n ==> {
                &&& (#[trigger] self.parent@[i]) < n
                &&& self.reps@[i] < n
                &&& self.parent@[self.reps@[i] as int] == self.reps@[i]
                &&& self.reps@[self.parent@[i] as int] == self.reps@[i]
                &&& (self.parent@[i] == i ==> self.reps@[i] == i)
                &&& (self.parent@[i] != i ==> self.rank@[i] < self.rank@[self.parent@[i] as int])
                &&& (self.parent@[i] != i ==> self.rank@[i] < self.rank@[self.reps@[i] as int])
                &&& self.rank@[i] < self.bound@
            }
    }

    proof fn lemma_wf_grouping(&self)
        requires
            self.wf(),
        ensures
            is_grouping(self@),
            self@.len() == self.parent@.len(),
    {
        assert forall|i: int| 0 <= i < self@.len() implies (#[trigger] self@[i]) < self@.len()
            && self@[self@[i] as int] == self@[i] by {
            assert(self.parent@[i] < self.parent@.len());
            let r = self.reps@[i] as int;
            assert(self.parent@[r] < self.parent@.len());
            assert(self.parent@[r] == r);
            assert(self.reps@[self.parent@[r] as int] == self.reps@[r]);
        }
    }

    pub fn new(n: usize) -> (sets: Self)
        ensures
            sets.wf(),
            sets@ == Seq::new(n as nat, |i: int| i as usize),
            is_grouping(sets@),
    {
        let mut parent: Vec<usize> = Vec::with_capacity(n);
        let mut i: usize = 0;
        while i < n
            invariant
                i <= n,
                parent@.len() == i,
                forall|j: int| 0 <= j < i ==> #[trigger] parent@[j] == j,
            decreases n - i,
        {
            parent.push(i);
            i = i + 1;
        }
        let sets = Self {
            parent,
            reps: Ghost(Seq::new(n as nat, |i: int| i as usize)),
            rank: Ghost(Seq::new(n as nat, |i: int| 0nat)),
            bound: Ghost(1nat),
        };
        proof {
            sets.lemma_wf_grouping();
        }
        sets
    }

    /// The representative of `i`'s group. Mutates because it flattens the
    /// path it walked (path compression), which keeps later lookups short.
    pub fn find(&mut self, i: usize) -> (root: usize)
        requires
            old(self).wf(),
            i < old(self)@.len(),
        ensures
            final(self).wf(),
            final(self)@ == old(self)@,
            root == old(self)@[i as int],
            is_grouping(final(self)@),
    {
        let ghost n = self.parent@.len();
        let mut root = i;
        while self.parent[root] != root
            invariant
                self.wf(),
                self.parent@.len() == n,
                root < n,
                self.reps@[root as int] == self.reps@[i as int],
            decreases self.bound@ - self.rank@[root as int],
        {
            proof {
                assert(self.parent@[root as int] < n);
                assert(self.rank@[root as int] < self.rank@[self.parent@[root as int] as int]);
                assert(self.parent@[self.parent@[root as int] as int] < n);
                assert(self.rank@[self.parent@[root as int] as int] < self.bound@);
            }
            root = self.parent[root];
        }
        let mut current = i;
        while current != root
            invariant
                self.wf(),
                self.parent@.len() == n,
                self.reps@ == old(self).reps@,
                root < n,
                current < n,
                self.parent@[root as int] == root,
                self.reps@[root as int] == root,
                self.reps@[current as int] == root,
            decreases self.bound@ - self.rank@[current as int],
        {
            let next = self.parent[current];
            let ghost parent0 = self.parent@;
            proof {
                assert(parent0[current as int] != current);
                assert(self.rank@[current as int] < self.rank@[root as int]);
                assert(self.rank@[current as int] < self.rank@[next as int]);
                assert(self.parent@[next as int] < n);
                assert(self.rank@[next as int] < self.bound@);
                assert(self.reps@[next as int] == root);
                assert(next < n);
            }
            self.parent.set(current, root);
            proof {
                assert forall|j: int| 0 <= j < n implies {
                    &&& (#[trigger] self.parent@[j]) < n
                    &&& self.reps@[j] < n
                    &&& self.parent@[self.reps@[j] as int] == self.reps@[j]
                    &&& self.reps@[self.parent@[j] as int] == self.reps@[j]
                    &&& (self.parent@[j] == j ==> self.reps@[j] == j)
                    &&& (self.parent@[j] != j ==> self.rank@[j] < self.rank@[self.parent@[j] as int])
                    &&& (self.parent@[j] != j ==> self.rank@[j] < self.rank@[self.reps@[j] as int])
                    &&& self.rank@[j] < self.bound@
                } by {
                    assert(parent0[j] < n);
                    let r = self.reps@[j] as int;
                    assert(parent0[r] == r);
                    if r == current {
                        assert(false);
                    }
                    if j != current {
                        assert(self.parent@[j] == parent0[j]);
                    }
                }
            }
            current = next;
        }
        proof {
            self.lemma_wf_grouping();
        }
        root
    }

    /// Joins the groups of `a` and `b`; false if they were already one.
    pub fn merge(&mut self, a: usize, b: usize) -> (changed: bool)
        requires
            old(self).wf(),
            a < old(self)@.len(),
            b < old(self)@.len(),
        ensures
            final(self).wf(),
            is_grouping(final(self)@),
            changed == (old(self)@[a as int] != old(self)@[b as int]),
            final(self)@ == if changed {
                joined(old(self)@, old(self)@[a as int], old(self)@[b as int])
            } else {
                old(self)@
            },
    {
        let root_a = self.find(a);
        let root_b = self.find(b);
        if root_a == root_b {
            return false;
        }
        let ghost n = self.parent@.len();
        let ghost reps0 = self.reps@;
        let ghost rank0 = self.rank@;
        let ghost new_rank: nat = if rank0[root_b as int] > rank0[root_a as int] {
            rank0[root_b as int]
        } else {
            rank0[root_a as int] + 1
        };
        proof {
            self.lemma_wf_grouping();
            assert(self.parent@[root_a as int] == root_a) by {
                assert(self.parent@[reps0[a as int] as int] == reps0[a as int]);
            }
            assert(self.parent@[root_b as int] == root_b) by {
                assert(self.parent@[reps0[b as int] as int] == reps0[b as int]);
            }
        }
        let ghost parent0 = self.parent@;
        self.parent.set(root_a, root_b);
        proof {
            self.reps@ = joined(reps0, root_a, root_b);
            self.rank@ = rank0.update(root_b as int, new_rank);
            self.bound@ = if self.bound@ > new_rank + 1 { self.bound@ } else { new_rank + 1 };
            assert forall|j: int| 0 <= j < n implies {
                &&& (#[trigger] self.parent@[j]) < n
                &&& self.reps@[j] < n
                &&& self.parent@[self.reps@[j] as int] == self.reps@[j]
                &&& self.reps@[self.parent@[j] as int] == self.reps@[j]
                &&& (self.parent@[j] == j ==> self.reps@[j] == j)
                &&& (self.parent@[j] != j ==> self.rank@[j] < self.rank@[self.parent@[j] as int])
                &&& (self.parent@[j] != j ==> self.rank@[j] < self.rank@[self.reps@[j] as int])
                &&& self.rank@[j] < self.bound@
            } by {
                assert(parent0[j] < n);
                let r = reps0[j] as int;
                assert(parent0[r] == r);
                assert(reps0[r] == r);
                let p = parent0[j] as int;
                assert(reps0[p] == reps0[j]);
                if j != root_a as int {
                    assert(self.parent@[j] == parent0[j]);
                    if r == root_a && j != r {
                        assert(rank0[j] < rank0[r]);
                    }
                }
            }
            self.lemma_wf_grouping();
        }
        true
    }
}

/// Merging joins exactly the two groups involved: afterwards two elements
/// share a group when they did before, or when one was with `a` and the
/// other with `b`.
pub proof fn lemma_merge_joins(before: Seq<usize>, a: usize, b: usize)
    requires
        is_grouping(before),
        a < before.len(),
        b < before.len(),
    ensures
        ({
            let after = joined(before, before[a as int], before[b as int]);
            &&& is_grouping(after)
            &&& after[a as int] == after[b as int]
            &&& forall|x: int, y: int|
                0 <= x < before.len() && 0 <= y < before.len() ==> (#[trigger] after[x] == #[trigger] after[y]
                    <==> {
                    ||| before[x] == before[y]
                    ||| before[x] == before[a as int] && before[y] == before[b as int]
                    ||| before[x] == before[b as int] && before[y] == before[a as int]
                })
        }),
{
    let ra = before[a as int];
    let rb = before[b as int];
    let after = joined(before, ra, rb);
    assert(before[rb as int] == rb);
    assert forall|i: int| 0 <= i < after.len() implies (#[trigger] after[i]) < after.len()
        && after[after[i] as int] == after[i] by {
        assert(before[before[i] as int] == before[i]);
    }
}

/// Element `i` is a group of its own.
pub open spec fn alone(reps: Seq<usize>, i: int) -> bool {
    &&& reps[i] == i
    &&& forall|j: int| 0 <= j < reps.len() && #[trigger] reps[j] == i ==> j == i
}

/// Merging two groups leaves alone an element that is neither of the two
/// merged.
pub proof fn lemma_alone_kept(reps: Seq<usize>, a: usize, b: usize, i: int)
    requires
        is_grouping(reps),
        a < reps.len(),
        b < reps.len(),
        0 <= i < reps.len(),
        alone(reps, i),
        a != i,
        b != i,
    ensures
        alone(joined(reps, reps[a as int], reps[b as int]), i),
{
    let after = joined(reps, reps[a as int], reps[b as int]);
    assert(reps[a as int] != i);
    assert(reps[b as int] != i);
    assert forall|j: int| 0 <= j < after.len() && #[trigger] after[j] == i implies j == i by {
        assert(reps[j] == i);
    }
}

} // verus!
