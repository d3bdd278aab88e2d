//! Counting distinct directed paths between labelled nodes of a graph whose
//! region reachable from the source is acyclic, by memoized depth-first
//! search. Acyclicity is captured by a rank function, defined on an
//! edge-closed domain around the source, under which every edge strictly
//! descends; the path count is the standard recursion: one path from the
//! destination to itself, otherwise the sum over out-neighbors. Counts
//! saturate at `usize::MAX`.

use vstd::prelude::*;

verus! {

use std::collections::HashMap;
use crate::dag::Dag;
use crate::dag::nbrs_of;

broadcast use vstd::std_specs::hash::group_hash_axioms;

/// `rank` witnesses acyclicity of part of `g`: its domain is closed under
/// edges, and every edge inside it strictly lowers the rank. Nodes outside
/// the domain — and any cycles among them — are unconstrained.
pub open spec fn valid_rank(g: Map<u64, Seq<u64>>, rank: Map<u64, nat>) -> bool {
    forall|n: u64, i: int|
        rank.dom().contains(n) && g.contains_key(n) && 0 <= i < g[n].len() ==> rank.dom().contains(
            #[trigger] g[n][i],
        ) && rank[g[n][i]] < rank[n]
}

/// The region of `g` reachable from `src` is acyclic: some edge-closed rank
/// domain contains `src` and descends along every edge inside it.
pub open spec fn acyclic_from(g: Map<u64, Seq<u64>>, src: u64) -> bool {
    exists|rank: Map<u64, nat>| valid_rank(g, rank) && rank.dom().contains(src)
}

/// The number of distinct directed paths from `node` to `dst` in `g`, under
/// the descending rank witness `rank`: one when `node` is `dst` itself,
/// otherwise the sum over `node`'s out-neighbors, an edge of multiplicity two
/// contributing twice.
pub open spec fn pc(g: Map<u64, Seq<u64>>, rank: Map<u64, nat>, node: u64, dst: u64) -> nat
    decreases rank[node], 1nat, 0nat,
        when valid_rank(g, rank) && rank.dom().contains(node)
{
    if node == dst {
        1
    } else if g.contains_key(node) {
        pc_list(g, rank, g[node], rank[node], dst)
    } else {
        0
    }
}

/// The sum of `pc` over the nodes of `s`, whose ranks all lie below `bound`.
pub open spec fn pc_list(
    g: Map<u64, Seq<u64>>,
    rank: Map<u64, nat>,
    s: Seq<u64>,
    bound: nat,
    dst: u64,
) -> nat
    decreases bound, 0nat, s.len(),
        when valid_rank(g, rank) && forall|i: int|
            0 <= i < s.len() ==> rank.dom().contains(#[trigger] s[i]) && rank[s[i]] < bound
{
    if s.len() == 0 {
        0
    } else {
        pc_list(g, rank, s.drop_last(), bound, dst) + pc(g, rank, s.last(), dst)
    }
}

/// The path count does not depend on which descending rank witnesses it.
proof fn lemma_pc_agnostic(
    g: Map<u64, Seq<u64>>,
    r1: Map<u64, nat>,
    r2: Map<u64, nat>,
    node: u64,
    dst: u64,
)
    requires
        valid_rank(g, r1),
        valid_rank(g, r2),
        r1.dom().contains(node),
        r2.dom().contains(node),
    ensures
        pc(g, r1, node, dst) == pc(g, r2, node, dst),
    decreases r1[node], 1nat, 0nat,
{
    if node != dst && g.contains_key(node) {
        lemma_pc_list_agnostic(g, r1, r2, g[node], r1[node], r2[node], dst);
    }
}

proof fn lemma_pc_list_agnostic(
    g: Map<u64, Seq<u64>>,
    r1: Map<u64, nat>,
    r2: Map<u64, nat>,
    s: Seq<u64>,
    b1: nat,
    b2: nat,
    dst: u64,
)
    requires
        valid_rank(g, r1),
        valid_rank(g, r2),
        forall|i: int| 0 <= i < s.len() ==> r1.dom().contains(#[trigger] s[i]) && r1[s[i]] < b1,
        forall|i: int| 0 <= i < s.len() ==> r2.dom().contains(#[trigger] s[i]) && r2[s[i]] < b2,
    ensures
        pc_list(g, r1, s, b1, dst) == pc_list(g, r2, s, b2, dst),
    decreases b1, 0nat, s.len(),
{
    if s.len() > 0 {
        assert(forall|i: int|
            0 <= i < s.drop_last().len() ==> #[trigger] s.drop_last()[i] == s[i]);
        lemma_pc_list_agnostic(g, r1, r2, s.drop_last(), b1, b2, dst);
        lemma_pc_agnostic(g, r1, r2, s.last(), dst);
    }
}

/// The number of distinct directed paths from `src` to `dst` in the acyclic
/// region of `g` around `src`.
pub open spec fn path_count(g: Map<u64, Seq<u64>>, src: u64, dst: u64) -> nat {
    pc(
        g,
        choose|rank: Map<u64, nat>| valid_rank(g, rank) && rank.dom().contains(src),
        src,
        dst,
    )
}

/// `path_count` agrees with `pc` under any descending rank witness whose
/// domain holds the source.
pub proof fn lemma_path_count_eq(g: Map<u64, Seq<u64>>, rank: Map<u64, nat>, src: u64, dst: u64)
    requires
        valid_rank(g, rank),
        rank.dom().contains(src),
    ensures
        path_count(g, src, dst) == pc(g, rank, src, dst),
{
    assert(acyclic_from(g, src));
    let r0 = choose|r: Map<u64, nat>| valid_rank(g, r) && r.dom().contains(src);
    lemma_pc_agnostic(g, r0, rank, src, dst);
}

/// Law: a node has exactly one path to itself, even when it has out-edges.
pub proof fn lemma_path_count_self(g: Map<u64, Seq<u64>>, x: u64)
    requires
        acyclic_from(g, x),
    ensures
        path_count(g, x, x) == 1,
{
    let r0 = choose|r: Map<u64, nat>| valid_rank(g, r) && r.dom().contains(x);
    assert(pc(g, r0, x, x) == 1);
}

/// `x` bounded above by `bound`.
pub open spec fn capped(x: int, bound: int) -> int {
    if x > bound {
        bound
    } else {
        x
    }
}

/// Addition that stops at `usize::MAX`.
fn sat_add(a: usize, b: usize) -> (r: usize)
    ensures
        r as int == capped(a as int + b as int, usize::MAX as int),
{
    match a.checked_add(b) {
        Some(v) => v,
        None => usize::MAX,
    }
}

/// Multiplication that stops at `usize::MAX`.
fn sat_mul(a: usize, b: usize) -> (r: usize)
    ensures
        r as int == capped(a as int * b as int, usize::MAX as int),
{
    match a.checked_mul(b) {
        Some(v) => v,
        None => usize::MAX,
    }
}

/// Capping the factors of a product of non-negative numbers before capping
/// the product caps the product itself.
proof fn lemma_capped_mul(x: int, y: int)
    requires
        x >= 0,
        y >= 0,
    ensures
        capped(capped(x, usize::MAX as int) * capped(y, usize::MAX as int), usize::MAX as int)
            == capped(x * y, usize::MAX as int),
{
    let m = usize::MAX as int;
    if x > m || y > m {
        if y == 0 {
            assert(x * y == 0) by (nonlinear_arith)
                requires
                    y == 0,
            ;
            assert(capped(x, m) * capped(y, m) == 0) by (nonlinear_arith)
                requires
                    capped(y, m) == 0,
            ;
        } else if x == 0 {
            assert(x * y == 0) by (nonlinear_arith)
                requires
                    x == 0,
            ;
            assert(capped(x, m) * capped(y, m) == 0) by (nonlinear_arith)
                requires
                    capped(x, m) == 0,
            ;
        } else {
            assert(x * y >= m) by (nonlinear_arith)
                requires
                    x >= 1,
                    y >= 1,
                    x > m || y > m,
                    m >= 0,
            ;
            assert(capped(x, m) * capped(y, m) >= m) by (nonlinear_arith)
                requires
                    capped(x, m) >= 1,
                    capped(y, m) >= 1,
                    capped(x, m) == m || capped(y, m) == m,
                    m >= 0,
            ;
        }
    } else {
        assert(capped(x, m) == x && capped(y, m) == y);
    }
}

/// A graph of labelled machines with the five nodes the puzzles ask about.
pub struct Graph {
    pub dag: Dag,
    pub you: u64,
    pub out: u64,
    pub svr: u64,
    pub fft: u64,
    pub dac: u64,
}

impl Graph {
    /// Memoized depth-first path counting. The cache may carry, besides
    /// finished counts, the provisional entry that the top-level call plants
    /// at `src`; the rank bound keeps that entry out of reach of this call.
    fn dfs(
        &self,
        src: u64,
        dst: u64,
        node: u64,
        cache: &mut HashMap<u64, usize>,
        Ghost(rank): Ghost<Map<u64, nat>>,
    ) -> (r: usize)
        requires
            valid_rank(self.dag.view(), rank),
            rank.dom().contains(node),
            forall|k: u64| #[trigger]
                old(cache)@.contains_key(k) ==> (old(cache)@[k] as int == capped(
                    pc(self.dag.view(), rank, k, dst) as int,
                    usize::MAX as int,
                ) || (k == src && rank[src] > rank[node])),
        ensures
            r as int == capped(pc(self.dag.view(), rank, node, dst) as int, usize::MAX as int),
            forall|k: u64| #[trigger]
                final(cache)@.contains_key(k) ==> (final(cache)@[k] as int == capped(
                    pc(self.dag.view(), rank, k, dst) as int,
                    usize::MAX as int,
                ) || (k == src && old(cache)@.contains_key(src) && final(cache)@[k] == old(
                    cache,
                )@[src])),
        decreases rank[node],
    {
        let ghost g = self.dag.view();
        if node == dst {
            return 1;
        }
        match cache.get(&node) {
            Some(v) => {
                return *v;
            },
            None => {},
        }
        if node == src {
            cache.insert(node, 1);
        }
        let ns = self.dag.neighbors(node);
        let ghost nseq = ns@;
        proof {
            if g.contains_key(node) {
                assert(nseq == g[node]);
            } else {
                assert(nseq == Seq::<u64>::empty());
                assert(pc(g, rank, node, dst) == 0);
            }
        }
        let n = ns.len();
        let mut num: usize = 0;
        let mut i: usize = 0;
        while i < n
            invariant
                valid_rank(g, rank),
                rank.dom().contains(node),
                g == self.dag.view(),
                node != dst,
                n == nseq.len(),
                ns@ == nseq,
                i <= n,
                g.contains_key(node) ==> nseq == g[node],
                !g.contains_key(node) ==> nseq.len() == 0,
                num as int == capped(pc_list(g, rank, nseq.take(i as int), rank[node], dst) as int, usize::MAX as int),
                forall|k: u64| #[trigger]
                    cache@.contains_key(k) ==> (cache@[k] as int == capped(
                        pc(g, rank, k, dst) as int,
                        usize::MAX as int,
                    ) || (k == src && rank[src] >= rank[node] && ((old(cache)@.contains_key(src)
                        && cache@[k] == old(cache)@[src]) || node == src))),
            decreases n - i,
        {
            let nb = ns[i];
            proof {
                assert(nseq[i as int] == nb);
                assert(g.contains_key(node));
                assert(rank.dom().contains(nb) && rank[nb] < rank[node]);
            }
            let c = self.dfs(src, dst, nb, cache, Ghost(rank));
            num = sat_add(num, c);
            proof {
                let taken = nseq.take(i as int);
                let taken1 = nseq.take(i + 1 as int);
                assert(taken1.drop_last() =~= taken);
                assert(taken1.last() == nb);
                assert(pc_list(g, rank, taken1, rank[node], dst) == pc_list(
                    g,
                    rank,
                    taken,
                    rank[node],
                    dst,
                ) + pc(g, rank, nb, dst));
            }
            i = i + 1;
        }
        proof {
            assert(nseq.take(n as int) =~= nseq);
            if g.contains_key(node) {
                assert(pc(g, rank, node, dst) == pc_list(g, rank, g[node], rank[node], dst));
            } else {
                assert(pc_list(g, rank, nseq.take(n as int), rank[node], dst) == 0);
            }
        }
        cache.insert(node, num);
        num
    }

    /// The number of distinct directed paths from `src` to `dst`, saturating
    /// at `usize::MAX`. The reachable region of the graph must be acyclic.
    pub fn num_unique_paths(&self, src: u64, dst: u64) -> (r: usize)
        requires
            acyclic_from(self.dag.view(), src),
        ensures
            r as int == capped(path_count(self.dag.view(), src, dst) as int, usize::MAX as int),
    {
        let ghost rank = choose|rank: Map<u64, nat>|
            valid_rank(self.dag.view(), rank) && rank.dom().contains(src);
        let mut cache: HashMap<u64, usize> = HashMap::new();
        let r = self.dfs(src, dst, src, &mut cache, Ghost(rank));
        proof {
            lemma_path_count_eq(self.dag.view(), rank, src, dst);
        }
        r
    }
}

/// A path count, capped once more to fit the signed answer type.
pub open spec fn answer_cap(x: int) -> int {
    capped(capped(x, usize::MAX as int), i64::MAX as int)
}

fn to_answer(n: usize) -> (r: i64)
    ensures
        r as int == capped(n as int, i64::MAX as int),
{
    if (n as u64) > (i64::MAX as u64) {
        i64::MAX
    } else {
        n as i64
    }
}

/// The number of distinct paths from the `you` node to the `out` node.
pub fn part1(g: &Graph) -> (r: i64)
    requires
        acyclic_from(g.dag.view(), g.you),
    ensures
        r as int == answer_cap(path_count(g.dag.view(), g.you, g.out) as int),
{
    let n = g.num_unique_paths(g.you, g.out);
    to_answer(n)
}

/// The number of distinct paths from `svr` to `out` that pass through both
/// `fft` and `dac`: paths through `fft` then `dac`, plus paths through `dac`
/// then `fft`, each leg counted by `path_count`.
pub fn part2(g: &Graph) -> (r: i64)
    requires
        acyclic_from(g.dag.view(), g.svr),
        acyclic_from(g.dag.view(), g.fft),
        acyclic_from(g.dag.view(), g.dac),
    ensures
        r as int == answer_cap(
            path_count(g.dag.view(), g.svr, g.fft) as int * path_count(g.dag.view(), g.fft, g.dac)
                as int * path_count(g.dag.view(), g.dac, g.out) as int + path_count(
                g.dag.view(),
                g.svr,
                g.dac,
            ) as int * path_count(g.dag.view(), g.dac, g.fft) as int * path_count(
                g.dag.view(),
                g.fft,
                g.out,
            ) as int,
        ),
{
    let ghost gv = g.dag.view();
    let svr_to_fft = g.num_unique_paths(g.svr, g.fft);
    let fft_to_dac = g.num_unique_paths(g.fft, g.dac);
    let dac_to_out = g.num_unique_paths(g.dac, g.out);
    let svr_to_dac = g.num_unique_paths(g.svr, g.dac);
    let dac_to_fft = g.num_unique_paths(g.dac, g.fft);
    let fft_to_out = g.num_unique_paths(g.fft, g.out);
    let ghost x1 = path_count(gv, g.svr, g.fft) as int;
    let ghost x2 = path_count(gv, g.fft, g.dac) as int;
    let ghost x3 = path_count(gv, g.dac, g.out) as int;
    let ghost y1 = path_count(gv, g.svr, g.dac) as int;
    let ghost y2 = path_count(gv, g.dac, g.fft) as int;
    let ghost y3 = path_count(gv, g.fft, g.out) as int;
    let t1 = sat_mul(sat_mul(svr_to_fft, fft_to_dac), dac_to_out);
    proof {
        lemma_capped_mul(x1, x2);
        assert(x1 * x2 >= 0) by (nonlinear_arith)
            requires
                x1 >= 0,
                x2 >= 0,
        ;
        lemma_capped_mul(x1 * x2, x3);
    }
    let t2 = sat_mul(sat_mul(svr_to_dac, dac_to_fft), fft_to_out);
    proof {
        lemma_capped_mul(y1, y2);
        assert(y1 * y2 >= 0) by (nonlinear_arith)
            requires
                y1 >= 0,
                y2 >= 0,
        ;
        lemma_capped_mul(y1 * y2, y3);
        assert(x1 * x2 * x3 >= 0) by (nonlinear_arith)
            requires
                x1 >= 0,
                x2 >= 0,
                x3 >= 0,
        ;
        assert(y1 * y2 * y3 >= 0) by (nonlinear_arith)
            requires
                y1 >= 0,
                y2 >= 0,
                y3 >= 0,
        ;
    }
    let total = sat_add(t1, t2);
    to_answer(total)
}

} // verus!
