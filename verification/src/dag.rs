//! A directed multigraph over integer labels: each source label maps to the
//! ordered list of its out-neighbors, duplicates allowed. A label with no
//! recorded edges has zero out-neighbors; absence is not an error.

use vstd::prelude::*;

verus! {

use std::collections::HashMap;

broadcast use vstd::std_specs::hash::group_hash_axioms;

/// Adjacency map of a directed multigraph.
pub struct Dag {
    edges: HashMap<u64, Vec<u64>>,
}

impl Dag {
    /// The graph as a map from a source label to its out-neighbor sequence,
    /// in insertion order.
    pub closed spec fn view(self) -> Map<u64, Seq<u64>> {
        self.edges@.map_values(|v: Vec<u64>| v@)
    }

    /// The out-neighbors of `src`: the recorded sequence, or empty when none
    /// was recorded.
    pub open spec fn nbrs(self, src: u64) -> Seq<u64> {
        nbrs_of(self.view(), src)
    }

    pub fn new() -> (dag: Dag)
        ensures
            dag.view() == Map::<u64, Seq<u64>>::empty(),
    {
        let dag = Dag { edges: HashMap::new() };
        proof {
            assert(dag.view() =~= Map::<u64, Seq<u64>>::empty());
        }
        dag
    }

    /// Appends the edge `src -> dst` to `src`'s adjacency list, creating the
    /// list when `src` had none.
    pub fn add_edge(&mut self, src: u64, dst: u64)
        ensures
            final(self).view() == old(self).view().insert(src, old(self).nbrs(src).push(dst)),
    {
        let mut list = self.neighbors(src);
        list.push(dst);
        self.edges.insert(src, list);
        proof {
            assert(self.view() =~= old(self).view().insert(src, old(self).nbrs(src).push(dst)));
        }
    }

    /// The out-neighbors of `src` in insertion order; an empty vector when
    /// `src` has no recorded edges. Read-only: repeated calls return the same
    /// sequence.
    pub fn neighbors(&self, src: u64) -> (r: Vec<u64>)
        ensures
            r@ == self.nbrs(src),
    {
        let mut list: Vec<u64> = Vec::new();
        match self.edges.get(&src) {
            Some(v) => {
                let n = v.len();
                let mut i: usize = 0;
                while i < n
                    invariant
                        n == v@.len(),
                        i <= n,
                        list@ == v@.take(i as int),
                        self.nbrs(src) == v@,
                    decreases n - i,
                {
                    list.push(v[i]);
                    proof {
                        assert(list@ =~= v@.take(i + 1 as int));
                    }
                    i = i + 1;
                }
                proof {
                    assert(v@.take(n as int) =~= v@);
                }
            },
            None => {
                proof {
                    assert(!self.view().contains_key(src));
                }
            },
        }
        list
    }
}

/// The out-neighbors of `src` in the edge map `g`, or empty when absent.
pub open spec fn nbrs_of(g: Map<u64, Seq<u64>>, src: u64) -> Seq<u64> {
    if g.contains_key(src) {
        g[src]
    } else {
        Seq::empty()
    }
}

} // verus!
