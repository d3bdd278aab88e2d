//! A disjoint-set forest over an arena of nodes. Handles are indices into the
//! arena, so any number of handles may alias one node and observe the same
//! component state. `find` performs path compression and `union` merges by
//! rank; neither changes which component any element belongs to except for the
//! single merge a successful `union` reports.

use vstd::prelude::*;

verus! {

use vstd::set_lib::*;

/// One arena slot: a link toward the component's representative (`None` at
/// the representative itself) and the rank bound used to direct merges.
#[derive(Clone, Copy)]
pub struct UfNode {
    parent: Option<usize>,
    rank: u64,
}

/// Disjoint-set forest with union by rank and path compression.
pub struct UnionFind<T> {
    data: Vec<T>,
    nodes: Vec<UfNode>,
    rep: Ghost<Seq<int>>,
    nlinks: Ghost<nat>,
}

impl<T> UnionFind<T> {
    /// The number of elements in the forest.
    pub closed spec fn len(self) -> nat {
        self.nodes@.len()
    }

    /// The representative of the component that element `i` belongs to.
    pub closed spec fn repr(self, i: int) -> int {
        self.rep@[i]
    }

    /// True when elements `i` and `j` are in the same component.
    pub open spec fn same_set(self, i: int, j: int) -> bool {
        self.repr(i) == self.repr(j)
    }

    /// The payload stored at element `i`.
    pub closed spec fn value(self, i: int) -> T {
        self.data@[i]
    }

    /// The rank stored at element `i`.
    pub closed spec fn rank_of(self, i: int) -> int {
        self.nodes@[i].rank as int
    }

    /// The set of elements that carry a parent link.
    spec fn linked(self) -> Set<int> {
        Set::new(|i: int| 0 <= i < self.nodes@.len() && self.nodes@[i].parent is Some)
    }

    /// Structural invariant. Representatives are fixed points of `repr`,
    /// parent links never change the representative, exactly the
    /// representatives lack a parent link, ranks grow strictly along parent
    /// links and toward the representative, and every rank is bounded by the
    /// number of parent links, which keeps ranks small enough to increment.
    pub closed spec fn wf(self) -> bool {
        &&& self.data@.len() == self.nodes@.len()
        &&& self.rep@.len() == self.nodes@.len()
        &&& forall|i: int|
            0 <= i < self.len() ==> 0 <= #[trigger] self.repr(i) < self.len() && self.repr(
                self.repr(i),
            ) == self.repr(i)
        &&& forall|i: int|
            0 <= i < self.len() ==> ((#[trigger] self.nodes@[i].parent) is None <==> self.repr(i)
                == i)
        &&& forall|i: int|
            0 <= i < self.len() && self.nodes@[i].parent is Some ==> {
                let p = (#[trigger] self.nodes@[i].parent)->0 as int;
                &&& 0 <= p < self.len()
                &&& self.repr(p) == self.repr(i)
                &&& self.nodes@[i].rank < self.nodes@[p].rank
            }
        &&& forall|i: int|
            0 <= i < self.len() ==> (self.repr(i) == i || self.nodes@[i].rank < self.nodes@[#[
                trigger
            ] self.repr(i)].rank)
        &&& forall|i: int|
            0 <= i < self.len() ==> (#[trigger] self.nodes@[i].rank) as int <= self.nlinks@ as int
        &&& self.nlinks@ == self.linked().len()
    }

    /// Law: under the invariant, every element's representative is in range
    /// and is its own representative, so representatives are exactly the
    /// fixed points of `repr`.
    pub proof fn lemma_repr_idempotent(self)
        requires
            self.wf(),
        ensures
            forall|i: int|
                0 <= i < self.len() ==> 0 <= #[trigger] self.repr(i) < self.len() && self.repr(
                    self.repr(i),
                ) == self.repr(i),
    {
    }

    /// Every rank is strictly below the number of elements, because at least
    /// one element (any representative) carries no parent link.
    proof fn lemma_rank_below_len(self)
        requires
            self.wf(),
            self.len() > 0,
        ensures
            (self.nlinks@ as int) < self.len() as int,
    {
        let r0 = self.repr(0);
        assert(self.nodes@[r0].parent is None);
        let bound = set_int_range(0, self.len() as int).remove(r0);
        lemma_int_range(0, self.len() as int);
        assert(self.linked().subset_of(bound));
        lemma_len_subset(self.linked(), bound);
        assert(bound.len() == self.len() - 1);
    }

    pub fn new() -> (uf: UnionFind<T>)
        ensures
            uf.wf(),
            uf.len() == 0,
    {
        let uf = UnionFind {
            data: Vec::new(),
            nodes: Vec::new(),
            rep: Ghost(Seq::empty()),
            nlinks: Ghost(0),
        };
        proof {
            assert(uf.linked() =~= Set::<int>::empty());
        }
        uf
    }

    /// Adds a fresh singleton component holding `value` and returns its
    /// handle. The new element is its own representative, with rank zero.
    pub fn make_set(&mut self, value: T) -> (h: usize)
        requires
            old(self).wf(),
        ensures
            final(self).wf(),
            h == old(self).len(),
            final(self).len() == old(self).len() + 1,
            final(self).repr(h as int) == h as int,
            final(self).rank_of(h as int) == 0,
            final(self).value(h as int) == value,
            forall|i: int|
                0 <= i < old(self).len() ==> #[trigger] final(self).repr(i) == old(self).repr(i),
            forall|i: int|
                0 <= i < old(self).len() ==> #[trigger] final(self).value(i) == old(self).value(i),
            forall|i: int|
                0 <= i < old(self).len() ==> #[trigger] final(self).rank_of(i) == old(self).rank_of(
                    i,
                ),
    {
        let h = self.nodes.len();
        self.data.push(value);
        self.nodes.push(UfNode { parent: None, rank: 0 });
        proof {
            self.rep@ = self.rep@.push(h as int);
            assert(self.linked() =~= old(self).linked());
            assert forall|i: int| 0 <= i < old(self).len() implies #[trigger] self.nodes@[i] == old(
                self,
            ).nodes@[i] by {}
            assert forall|i: int| 0 <= i < old(self).len() implies #[trigger] self.rep@[i] == old(
                self,
            ).rep@[i] by {}
            assert forall|i: int|
                0 <= i < self.len() implies 0 <= #[trigger] self.repr(i) < self.len()
                && self.repr(self.repr(i)) == self.repr(i) by {
                if i < old(self).len() {
                    assert(self.repr(i) == old(self).repr(i));
                    assert(0 <= old(self).repr(i) < old(self).len());
                    assert(self.repr(old(self).repr(i)) == old(self).repr(old(self).repr(i)));
                } else {
                    assert(self.repr(i) == h as int);
                }
            }
            assert forall|i: int|
                0 <= i < self.len() implies (self.repr(i) == i || self.nodes@[i].rank
                < self.nodes@[#[trigger] self.repr(i)].rank) by {
                if i < old(self).len() {
                    assert(self.repr(i) == old(self).repr(i));
                    if old(self).repr(i) != i {
                        assert(old(self).nodes@[i].rank < old(self).nodes@[old(self).repr(i)].rank);
                        assert(self.nodes@[old(self).repr(i)] == old(self).nodes@[old(self).repr(
                            i,
                        )]);
                    }
                } else {
                    assert(self.repr(i) == h as int);
                }
            }
            assert(self.wf());
        }
        h
    }

    /// Returns the representative of `h`'s component, rewriting the parent
    /// links on the walked path to point at the representative directly. The
    /// partition itself, the payloads and the ranks are unchanged, so
    /// repeated calls return the same representative.
    pub fn find(&mut self, h: usize) -> (r: usize)
        requires
            old(self).wf(),
            h < old(self).len(),
        ensures
            final(self).wf(),
            r as int == old(self).repr(h as int),
            r < old(self).len(),
            final(self).repr(r as int) == r as int,
            final(self).len() == old(self).len(),
            forall|i: int|
                0 <= i < old(self).len() ==> #[trigger] final(self).repr(i) == old(self).repr(i),
            forall|i: int|
                0 <= i < old(self).len() ==> #[trigger] final(self).value(i) == old(self).value(i),
            forall|i: int|
                0 <= i < old(self).len() ==> #[trigger] final(self).rank_of(i) == old(self).rank_of(
                    i,
                ),
    {
        let mut cur: usize = h;
        while self.nodes[cur].parent.is_some()
            invariant
                self.wf(),
                *self == *old(self),
                h < self.len(),
                cur < self.len(),
                self.repr(cur as int) == self.repr(h as int),
            decreases self.len() - self.nodes@[cur as int].rank,
        {
            proof {
                self.lemma_rank_below_len();
            }
            cur = self.nodes[cur].parent.unwrap();
        }
        let root = cur;
        proof {
            assert(self.repr(root as int) == root as int);
        }
        let mut cur2: usize = h;
        while cur2 != root
            invariant
                self.wf(),
                self.len() == old(self).len(),
                self.rep@ == old(self).rep@,
                self.data@ == old(self).data@,
                self.nlinks@ == old(self).nlinks@,
                forall|i: int|
                    0 <= i < self.len() ==> #[trigger] self.nodes@[i].rank == old(
                        self,
                    ).nodes@[i].rank,
                cur2 < self.len(),
                root < self.len(),
                self.repr(cur2 as int) == self.repr(h as int),
                root as int == self.repr(h as int),
            decreases self.len() - self.nodes@[cur2 as int].rank,
        {
            proof {
                self.lemma_rank_below_len();
                assert(self.repr(cur2 as int) != cur2 as int);
                assert(self.nodes@[cur2 as int].parent is Some);
            }
            let p = self.nodes[cur2].parent.unwrap();
            let rk = self.nodes[cur2].rank;
            let ghost prev = *self;
            self.nodes[cur2] = UfNode { parent: Some(root), rank: rk };
            proof {
                assert(self.linked() =~= prev.linked());
                assert forall|i: int|
                    0 <= i < self.len() && i != cur2 implies #[trigger] self.nodes@[i]
                    == prev.nodes@[i] by {}
                assert(self.nodes@[cur2 as int].rank < self.nodes@[root as int].rank);
                assert forall|i: int|
                    0 <= i < self.len() implies 0 <= #[trigger] self.repr(i) < self.len()
                    && self.repr(self.repr(i)) == self.repr(i) by {
                    assert(self.repr(i) == prev.repr(i));
                    assert(self.repr(prev.repr(i)) == prev.repr(prev.repr(i)));
                }
                assert forall|i: int|
                    0 <= i < self.len() implies (self.repr(i) == i || self.nodes@[i].rank
                    < self.nodes@[#[trigger] self.repr(i)].rank) by {
                    assert(self.repr(i) == prev.repr(i));
                    if prev.repr(i) != i {
                        assert(prev.nodes@[i].rank < prev.nodes@[prev.repr(i)].rank);
                        assert(self.nodes@[i].rank == prev.nodes@[i].rank);
                        assert(self.nodes@[prev.repr(i)].rank == prev.nodes@[prev.repr(i)].rank);
                    }
                }
                assert forall|i: int|
                    0 <= i < self.len() implies ((#[trigger] self.nodes@[i].rank) as int)
                    <= self.nlinks@ as int by {
                    assert(self.nodes@[i].rank == prev.nodes@[i].rank);
                }
                assert(self.wf());
            }
            cur2 = p;
        }
        root
    }

    /// Merges the components of `a` and `b`. Returns `false`, changing no
    /// component, exactly when `a` and `b` already share a representative.
    /// Otherwise the representative of smaller rank is linked under the other
    /// (ties favour `a`'s representative, whose rank then grows by one) and
    /// the two components become one: afterwards two elements share a
    /// representative exactly when they already did, or one was with `a` and
    /// the other with `b`.
    pub fn union(&mut self, a: usize, b: usize) -> (merged: bool)
        requires
            old(self).wf(),
            a < old(self).len(),
            b < old(self).len(),
        ensures
            final(self).wf(),
            final(self).len() == old(self).len(),
            forall|i: int|
                0 <= i < old(self).len() ==> #[trigger] final(self).value(i) == old(self).value(i),
            merged <==> old(self).repr(a as int) != old(self).repr(b as int),
            !merged ==> forall|i: int|
                0 <= i < old(self).len() ==> #[trigger] final(self).repr(i) == old(self).repr(i),
            !merged ==> forall|i: int|
                0 <= i < old(self).len() ==> #[trigger] final(self).rank_of(i) == old(self).rank_of(
                    i,
                ),
            merged ==> (forall|i: int, j: int|
                0 <= i < old(self).len() && 0 <= j < old(self).len()
                    ==> (#[trigger] final(self).same_set(i, j) <==> (old(self).same_set(i, j) || (
                old(self).same_set(i, a as int) && old(self).same_set(j, b as int)) || (old(
                    self,
                ).same_set(i, b as int) && old(self).same_set(j, a as int))))),
            merged && old(self).rank_of(old(self).repr(a as int)) == old(self).rank_of(
                old(self).repr(b as int),
            ) ==> {
                &&& final(self).repr(a as int) == old(self).repr(a as int)
                &&& final(self).rank_of(old(self).repr(a as int)) == old(self).rank_of(
                    old(self).repr(a as int),
                ) + 1
                &&& forall|i: int|
                    0 <= i < old(self).len() && i != old(self).repr(a as int)
                        ==> #[trigger] final(self).rank_of(i) == old(self).rank_of(i)
            },
            merged && old(self).rank_of(old(self).repr(a as int)) < old(self).rank_of(
                old(self).repr(b as int),
            ) ==> final(self).repr(a as int) == old(self).repr(b as int) && (forall|i: int|
                0 <= i < old(self).len() ==> #[trigger] final(self).rank_of(i) == old(self).rank_of(
                    i,
                )),
            merged && old(self).rank_of(old(self).repr(a as int)) > old(self).rank_of(
                old(self).repr(b as int),
            ) ==> final(self).repr(a as int) == old(self).repr(a as int) && (forall|i: int|
                0 <= i < old(self).len() ==> #[trigger] final(self).rank_of(i) == old(self).rank_of(
                    i,
                )),
            merged ==> final(self).repr(b as int) == final(self).repr(a as int),
            merged ==> forall|i: int|
                0 <= i < old(self).len() && old(self).repr(i) != old(self).repr(a as int) && old(
                    self,
                ).repr(i) != old(self).repr(b as int) ==> #[trigger] final(self).repr(i) == old(
                    self,
                ).repr(i),
    {
        let ra = self.find(a);
        let rb = self.find(b);
        if ra == rb {
            return false;
        }
        let total = self.nodes.len();
        let rank_a = self.nodes[ra].rank;
        let rank_b = self.nodes[rb].rank;
        let ghost mid = *self;
        proof {
            assert(mid.repr(a as int) == ra as int);
            assert(mid.repr(b as int) == rb as int);
            assert(rank_a as int == mid.rank_of(ra as int));
            assert(rank_b as int == mid.rank_of(rb as int));
            assert(ra as int == old(self).repr(a as int));
            assert(rb as int == old(self).repr(b as int));
            assert(mid.rank_of(ra as int) == old(self).rank_of(ra as int));
            assert(mid.rank_of(rb as int) == old(self).rank_of(rb as int));
        }
        if rank_a < rank_b {
            self.nodes[ra] = UfNode { parent: Some(rb), rank: rank_a };
            proof {
                self.rep@ = Self::merged_rep(mid, ra as int, rb as int);
                self.nlinks@ = self.nlinks@ + 1;
                Self::lemma_link_update(mid, *self, ra as int, rb as int);
                assert(mid.repr(a as int) == ra as int);
                assert(mid.repr(b as int) == rb as int);
                assert(self.repr(a as int) == rb as int);
                assert forall|i: int| 0 <= i < old(self).len() implies #[trigger] self.rank_of(i)
                    == mid.rank_of(i) by {
                    if i != ra as int {
                        assert(self.nodes@[i] == mid.nodes@[i]);
                    }
                }
            }
        } else if rank_a > rank_b {
            self.nodes[rb] = UfNode { parent: Some(ra), rank: rank_b };
            proof {
                self.rep@ = Self::merged_rep(mid, rb as int, ra as int);
                self.nlinks@ = self.nlinks@ + 1;
                Self::lemma_link_update(mid, *self, rb as int, ra as int);
                assert(mid.repr(a as int) == ra as int);
                assert(mid.repr(b as int) == rb as int);
                assert(self.repr(a as int) == ra as int);
                assert forall|i: int| 0 <= i < old(self).len() implies #[trigger] self.rank_of(i)
                    == mid.rank_of(i) by {
                    if i != rb as int {
                        assert(self.nodes@[i] == mid.nodes@[i]);
                    }
                }
            }
        } else {
            let total = self.nodes.len();
            proof {
                mid.lemma_rank_below_len();
                assert(rank_a as int <= mid.nlinks@ as int);
                assert((mid.nlinks@ as int) < total as int);
            }
            self.nodes[rb] = UfNode { parent: Some(ra), rank: rank_b };
            self.nodes[ra] = UfNode { parent: None, rank: rank_a + 1 };
            proof {
                self.rep@ = Self::merged_rep(mid, rb as int, ra as int);
                self.nlinks@ = self.nlinks@ + 1;
                Self::lemma_link_update(mid, *self, rb as int, ra as int);
                assert(mid.repr(a as int) == ra as int);
                assert(mid.repr(b as int) == rb as int);
                assert(self.repr(a as int) == ra as int);
                assert(self.rank_of(ra as int) == mid.rank_of(ra as int) + 1);
                assert forall|i: int|
                    0 <= i < old(self).len() && i != ra as int implies #[trigger] self.rank_of(i)
                    == mid.rank_of(i) by {
                    if i != rb as int {
                        assert(self.nodes@[i] == mid.nodes@[i]);
                    }
                }
            }
        }
        proof {
            assert forall|i: int| 0 <= i < old(self).len() implies #[trigger] self.value(i) == old(
                self,
            ).value(i) by {
                assert(self.data@ == mid.data@);
                assert(mid.value(i) == old(self).value(i));
            }
            assert forall|i: int| 0 <= i < old(self).len() implies #[trigger] mid.repr(i) == old(
                self,
            ).repr(i) by {}
            assert forall|i: int| 0 <= i < old(self).len() implies #[trigger] mid.rank_of(i) == old(
                self,
            ).rank_of(i) by {}
            assert(ra as int == old(self).repr(a as int));
            assert(rb as int == old(self).repr(b as int));
        }
        true
    }

    /// The partition after the component of root `loser` is absorbed by the
    /// component of root `winner`.
    spec fn merged_rep(mid: UnionFind<T>, loser: int, winner: int) -> Seq<int> {
        Seq::new(
            mid.rep@.len(),
            |i: int|
                if mid.rep@[i] == loser {
                    winner
                } else {
                    mid.rep@[i]
                },
        )
    }

    /// After linking root `loser` under root `winner` (and possibly raising
    /// `winner`'s rank by one), the invariant holds again and the new
    /// partition maps every element of `loser`'s component to `winner`.
    proof fn lemma_link_update(mid: UnionFind<T>, post: UnionFind<T>, loser: int, winner: int)
        requires
            mid.wf(),
            mid.len() <= usize::MAX,
            0 <= loser < mid.len(),
            0 <= winner < mid.len(),
            loser != winner,
            mid.repr(loser) == loser,
            mid.repr(winner) == winner,
            post.data@ == mid.data@,
            post.rep@ == Self::merged_rep(mid, loser, winner),
            post.nodes@.len() == mid.nodes@.len(),
            post.nlinks@ == mid.nlinks@ + 1,
            post.nodes@[loser].parent == Some(winner as usize),
            post.nodes@[winner].parent is None,
            post.nodes@[winner].rank as int == mid.nodes@[winner].rank as int || post.nodes@[winner].rank as int == mid.nodes@[winner].rank as int + 1,
            post.nodes@[winner].rank as int <= mid.nlinks@ + 1,
            mid.nodes@[loser].rank < post.nodes@[winner].rank,
            forall|i: int|
                0 <= i < mid.len() && i != loser && i != winner ==> post.nodes@[i] == #[
                    trigger
                ] mid.nodes@[i],
            post.nodes@[loser].rank == mid.nodes@[loser].rank,
        ensures
            post.wf(),
            post.len() == mid.len(),
            forall|i: int|
                0 <= i < mid.len() ==> #[trigger] post.repr(i) == (if mid.repr(i) == loser {
                    winner
                } else {
                    mid.repr(i)
                }),
            forall|i: int|
                0 <= i < mid.len() ==> #[trigger] post.rank_of(i) == post.nodes@[i].rank as int,
    {
        let n = mid.len() as int;
        assert(post.linked() =~= mid.linked().insert(loser));
        assert(!mid.linked().contains(loser));
        lemma_int_range(0, n);
        assert(mid.linked().subset_of(set_int_range(0, n)));
        lemma_len_subset(mid.linked(), set_int_range(0, n));
        assert(post.linked().len() == mid.linked().len() + 1);
        assert forall|i: int|
            0 <= i < post.len() && post.nodes@[i].parent is Some implies {
            let p = (#[trigger] post.nodes@[i].parent)->0 as int;
            &&& 0 <= p < post.len()
            &&& post.repr(p) == post.repr(i)
            &&& post.nodes@[i].rank < post.nodes@[p].rank
        } by {
            if i != loser && i != winner {
                assert(post.nodes@[i] == mid.nodes@[i]);
                let p = (post.nodes@[i].parent)->0 as int;
                assert(mid.nodes@[i].parent is Some);
                assert(0 <= p < mid.len());
                assert(mid.repr(p) == mid.repr(i));
                assert(mid.nodes@[i].rank < mid.nodes@[p].rank);
                if p == loser {
                    assert(post.nodes@[loser].rank == mid.nodes@[loser].rank);
                } else if p == winner {
                    assert(mid.nodes@[winner].rank as int <= post.nodes@[winner].rank as int);
                } else {
                    assert(post.nodes@[p] == mid.nodes@[p]);
                }
                assert(post.repr(i) == (if mid.repr(i) == loser {
                    winner
                } else {
                    mid.repr(i)
                }));
                assert(post.repr(p) == (if mid.repr(p) == loser {
                    winner
                } else {
                    mid.repr(p)
                }));
            } else if i == loser {
                assert((winner as usize) as int == winner);
                assert(post.repr(loser) == winner);
                assert(post.repr(winner) == winner);
                assert(post.nodes@[loser].rank < post.nodes@[winner].rank);
            }
        }
        assert forall|i: int|
            0 <= i < post.len() implies 0 <= #[trigger] post.repr(i) < post.len() && post.repr(
            post.repr(i),
        ) == post.repr(i) by {
            assert(post.repr(i) == (if mid.repr(i) == loser {
                winner
            } else {
                mid.repr(i)
            }));
            let r = post.repr(i);
            assert(post.repr(r) == (if mid.repr(r) == loser {
                winner
            } else {
                mid.repr(r)
            }));
        }
        assert forall|i: int|
            0 <= i < post.len() implies ((#[trigger] post.nodes@[i].parent) is None <==> post.repr(
            i,
        ) == i) by {
            assert(post.repr(i) == (if mid.repr(i) == loser {
                winner
            } else {
                mid.repr(i)
            }));
            if i != loser && i != winner {
                assert(post.nodes@[i] == mid.nodes@[i]);
            }
        }
        assert forall|i: int|
            0 <= i < post.len() implies ((#[trigger] post.nodes@[i].rank) as int) <= post.nlinks@
            as int by {
            if i != loser && i != winner {
                assert(post.nodes@[i] == mid.nodes@[i]);
            }
        }
        assert forall|i: int|
            0 <= i < post.len() implies (post.repr(i) == i || post.nodes@[i].rank < post.nodes@[
        #[trigger] post.repr(i)].rank) by {
            if i != loser && i != winner {
                assert(post.nodes@[i] == mid.nodes@[i]);
            }
            if post.repr(i) != i {
                let r = post.repr(i);
                assert(r == (if mid.repr(i) == loser {
                    winner
                } else {
                    mid.repr(i)
                }));
                assert(0 <= r < mid.len());
                if r != loser && r != winner {
                    assert(post.nodes@[r] == mid.nodes@[r]);
                }
                if mid.repr(i) == loser {
                    assert(r == winner);
                    if i != loser {
                        assert(mid.nodes@[i].rank < mid.nodes@[loser].rank);
                    }
                } else {
                    assert(r == mid.repr(i));
                }
            }
        }
        assert(post.wf());
    }

    /// The rank stored at handle `h`.
    pub fn rank(&self, h: usize) -> (r: u64)
        requires
            self.wf(),
            h < self.len(),
        ensures
            r as int == self.rank_of(h as int),
    {
        self.nodes[h].rank
    }

    /// Read-only access to the payload at handle `h` (the element itself,
    /// not its representative).
    pub fn data(&self, h: usize) -> (r: &T)
        requires
            self.wf(),
            h < self.len(),
        ensures
            *r == self.value(h as int),
    {
        &self.data[h]
    }
}

/// The abstract merge of a partition: every element of `b`'s class moves to
/// `a`'s class.
pub open spec fn class_merge(p: Seq<int>, a: int, b: int) -> Seq<int> {
    Seq::new(
        p.len(),
        |i: int|
            if p[i] == p[b] {
                p[a]
            } else {
                p[i]
            },
    )
}

/// Law: a merge reported by `union` turns the partition into exactly the
/// abstract merge of the two elements' classes. Applied once per successful
/// `union`, this makes two elements share a representative exactly when the
/// recorded merges connect them.
pub proof fn lemma_union_matches_class_merge<T>(
    pre: UnionFind<T>,
    post: UnionFind<T>,
    model: Seq<int>,
    a: int,
    b: int,
)
    requires
        model.len() == pre.len(),
        post.len() == pre.len(),
        0 <= a < pre.len(),
        0 <= b < pre.len(),
        forall|i: int, j: int|
            0 <= i < pre.len() && 0 <= j < pre.len() ==> (#[trigger] pre.same_set(i, j) <==> model[i]
                == model[j]),
        forall|i: int, j: int|
            0 <= i < pre.len() && 0 <= j < pre.len() ==> (#[trigger] post.same_set(i, j) <==> (
            pre.same_set(i, j) || (pre.same_set(i, a) && pre.same_set(j, b)) || (pre.same_set(i, b)
                && pre.same_set(j, a)))),
    ensures
        forall|i: int, j: int|
            0 <= i < pre.len() && 0 <= j < pre.len() ==> (#[trigger] post.same_set(i, j)
                <==> class_merge(model, a, b)[i] == class_merge(model, a, b)[j]),
{
    let merged = class_merge(model, a, b);
    assert forall|i: int, j: int|
        0 <= i < pre.len() && 0 <= j < pre.len() implies (#[trigger] post.same_set(i, j)
        <==> merged[i] == merged[j]) by {
        assert(pre.same_set(i, j) <==> model[i] == model[j]);
        assert(pre.same_set(i, a) <==> model[i] == model[a]);
        assert(pre.same_set(j, b) <==> model[j] == model[b]);
        assert(pre.same_set(i, b) <==> model[i] == model[b]);
        assert(pre.same_set(j, a) <==> model[j] == model[a]);
        assert(merged[i] == (if model[i] == model[b] {
            model[a]
        } else {
            model[i]
        }));
        assert(merged[j] == (if model[j] == model[b] {
            model[a]
        } else {
            model[j]
        }));
    }
}

} // verus!
