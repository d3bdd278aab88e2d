//! Points in space and the candidate edges between them, ordered by squared
//! distance. The driver drains the ordered edges and merges their endpoints
//! in a disjoint-set forest; this module supplies the points, the distance
//! measure and the ordered edge list.

use vstd::prelude::*;

verus! {

use crate::seq_swap::lemma_swap_remove_multiset;
use vstd::seq_lib::*;
use vstd::multiset::Multiset;

/// A point in three-dimensional space.
#[derive(Clone, Copy, PartialEq, Eq, Structural, Debug)]
pub struct Coord {
    pub x: i64,
    pub y: i64,
    pub z: i64,
}

/// The coordinate differences of `a` and `b` fit the machine's signed range.
pub open spec fn diffs_fit(a: Coord, b: Coord) -> bool {
    &&& abs3(a.x - b.x) <= i64::MAX
    &&& abs3(a.y - b.y) <= i64::MAX
    &&& abs3(a.z - b.z) <= i64::MAX
}

/// The absolute value of `v`.
pub open spec fn abs3(v: int) -> int {
    if v < 0 {
        -v
    } else {
        v
    }
}

/// The squared Euclidean distance between `a` and `b`.
pub open spec fn dist_sq_spec(a: Coord, b: Coord) -> int {
    abs3(a.x - b.x) * abs3(a.x - b.x) + abs3(a.y - b.y) * abs3(a.y - b.y) + abs3(a.z - b.z) * abs3(
        a.z - b.z,
    )
}

impl Coord {
    /// The squared Euclidean distance to `other`.
    pub fn dist_sq(&self, other: &Coord) -> (r: usize)
        requires
            diffs_fit(*self, *other),
            dist_sq_spec(*self, *other) <= usize::MAX,
        ensures
            r == dist_sq_spec(*self, *other),
    {
        let dx = if self.x >= other.x {
            self.x - other.x
        } else {
            other.x - self.x
        };
        let dy = if self.y >= other.y {
            self.y - other.y
        } else {
            other.y - self.y
        };
        let dz = if self.z >= other.z {
            self.z - other.z
        } else {
            other.z - self.z
        };
        proof {
            assert(dx == abs3(self.x - other.x));
            assert(dy == abs3(self.y - other.y));
            assert(dz == abs3(self.z - other.z));
            assert(0 <= dx * dx && 0 <= dy * dy && 0 <= dz * dz) by (nonlinear_arith)
                requires
                    dx >= 0,
                    dy >= 0,
                    dz >= 0,
            ;
            lemma_square_factor_fits(dx as int, usize::MAX as int);
            lemma_square_factor_fits(dy as int, usize::MAX as int);
            lemma_square_factor_fits(dz as int, usize::MAX as int);
        }
        let ux = (dx as usize) * (dx as usize);
        let uy = (dy as usize) * (dy as usize);
        let uz = (dz as usize) * (dz as usize);
        ux + uy + uz
    }
}

/// A candidate edge: two points and their squared distance.
#[derive(Clone, Copy, PartialEq, Eq, Structural, Debug)]
pub struct Edge {
    pub src: Coord,
    pub dst: Coord,
    pub dist_sq: usize,
}

/// The edge between `a` and `b`, carrying their squared distance.
pub open spec fn edge_spec(a: Coord, b: Coord) -> Edge {
    Edge { src: a, dst: b, dist_sq: dist_sq_spec(a, b) as usize }
}

impl Edge {
    /// Builds the edge between two points.
    pub fn new(src: &Coord, dst: &Coord) -> (e: Edge)
        requires
            diffs_fit(*src, *dst),
            dist_sq_spec(*src, *dst) <= usize::MAX,
        ensures
            e == edge_spec(*src, *dst),
    {
        Edge { src: *src, dst: *dst, dist_sq: src.dist_sq(dst) }
    }
}

/// A non-negative number whose square fits a bound of at least one fits the
/// bound itself.
proof fn lemma_square_factor_fits(d: int, m: int)
    requires
        d >= 0,
        m >= 1,
        d * d <= m,
    ensures
        d <= m,
{
    assert(d <= d * d || d <= 1) by (nonlinear_arith)
        requires
            d >= 0,
    ;
}

/// The edges from point `i` to every later point, starting at `j`.
pub open spec fn edges_row(cs: Seq<Coord>, i: int, j: int) -> Seq<Edge>
    decreases cs.len() - j,
        when 0 <= j <= cs.len()
{
    if j >= cs.len() {
        Seq::empty()
    } else {
        seq![edge_spec(cs[i], cs[j])] + edges_row(cs, i, j + 1)
    }
}

/// The edges between every pair of points at positions at or after `i`.
pub open spec fn edges_from(cs: Seq<Coord>, i: int) -> Seq<Edge>
    decreases cs.len() - i,
        when 0 <= i <= cs.len()
{
    if i >= cs.len() {
        Seq::empty()
    } else {
        edges_row(cs, i, i + 1) + edges_from(cs, i + 1)
    }
}

/// The edges between every unordered pair of distinct points.
pub open spec fn all_edges(cs: Seq<Coord>) -> Seq<Edge> {
    edges_from(cs, 0)
}

/// The edges come sorted by squared distance.
pub open spec fn sorted_by_dist(s: Seq<Edge>) -> bool {
    forall|a: int, b: int|
        0 <= a < b < s.len() ==> (#[trigger] s[a]).dist_sq <= (#[trigger] s[b]).dist_sq
}

/// The edges between every pair of the given points, in ascending order of
/// squared distance. The result holds exactly the pair edges, as a multiset.
pub fn get_edges(coords: &Vec<Coord>) -> (r: Vec<Edge>)
    requires
        forall|a: int, b: int|
            0 <= a < coords@.len() && 0 <= b < coords@.len() ==> diffs_fit(
                #[trigger] coords@[a],
                #[trigger] coords@[b],
            ) && dist_sq_spec(coords@[a], coords@[b]) <= usize::MAX,
    ensures
        r@.to_multiset() == all_edges(coords@).to_multiset(),
        sorted_by_dist(r@),
{
    broadcast use vstd::seq_lib::group_to_multiset_ensures;

    let ghost cs = coords@;
    let n = coords.len();
    let mut work: Vec<Edge> = Vec::new();
    let mut i: usize = 0;
    proof {
        assert(work@ + edges_from(cs, 0) =~= all_edges(cs));
    }
    while i < n
        invariant
            cs == coords@,
            n == cs.len(),
            i <= n,
            forall|a: int, b: int|
                0 <= a < cs.len() && 0 <= b < cs.len() ==> diffs_fit(
                    #[trigger] cs[a],
                    #[trigger] cs[b],
                ) && dist_sq_spec(cs[a], cs[b]) <= usize::MAX,
            work@ + edges_from(cs, i as int) =~= all_edges(cs),
        decreases n - i,
    {
        let mut j: usize = i + 1;
        proof {
            assert(work@ + edges_row(cs, i as int, i + 1 as int) + edges_from(cs, i as int + 1)
                =~= all_edges(cs));
        }
        while j < n
            invariant
                cs == coords@,
                n == cs.len(),
                i < n,
                i + 1 <= j <= n,
                forall|a: int, b: int|
                    0 <= a < cs.len() && 0 <= b < cs.len() ==> diffs_fit(
                        #[trigger] cs[a],
                        #[trigger] cs[b],
                    ) && dist_sq_spec(cs[a], cs[b]) <= usize::MAX,
                work@ + edges_row(cs, i as int, j as int) + edges_from(cs, i as int + 1)
                    =~= all_edges(cs),
            decreases n - j,
        {
            let e = Edge::new(&coords[i], &coords[j]);
            work.push(e);
            proof {
                assert(edges_row(cs, i as int, j as int) == seq![
                    edge_spec(cs[i as int], cs[j as int]),
                ] + edges_row(cs, i as int, j + 1 as int));
                assert(work@ + edges_row(cs, i as int, j + 1 as int) + edges_from(
                    cs,
                    i as int + 1,
                ) =~= all_edges(cs));
            }
            j = j + 1;
        }
        proof {
            assert(edges_row(cs, i as int, n as int) =~= Seq::<Edge>::empty());
            assert(work@ + edges_from(cs, i as int + 1) =~= all_edges(cs));
        }
        i = i + 1;
    }
    proof {
        assert(edges_from(cs, n as int) =~= Seq::<Edge>::empty());
        assert(work@ =~= all_edges(cs));
    }
    let mut sorted: Vec<Edge> = Vec::new();
    while work.len() > 0
        invariant
            sorted@.to_multiset().add(work@.to_multiset()) == all_edges(cs).to_multiset(),
            sorted_by_dist(sorted@),
            forall|a: int, b: int|
                0 <= a < sorted@.len() && 0 <= b < work@.len() ==> (#[trigger] sorted@[a]).dist_sq
                    <= (#[trigger] work@[b]).dist_sq,
        decreases work.len(),
    {
        let mut m: usize = 0;
        let mut t: usize = 1;
        while t < work.len()
            invariant
                work@.len() > 0,
                m < work@.len(),
                t <= work@.len(),
                forall|u: int| 0 <= u < t ==> (#[trigger] work@[u]).dist_sq >= work@[m as int].dist_sq,
            decreases work@.len() - t,
        {
            if work[t].dist_sq < work[m].dist_sq {
                m = t;
            }
            t = t + 1;
        }
        let ghost work_pre = work@;
        let ghost sorted_pre = sorted@;
        let x = work.swap_remove(m);
        sorted.push(x);
        proof {
            lemma_swap_remove_multiset(work_pre, m as int);
            assert(work@ == work_pre.update(m as int, work_pre.last()).drop_last());
            assert(work@.to_multiset() == work_pre.to_multiset().remove(x));
            assert(sorted@ == sorted_pre.push(x));
            sorted_pre.to_multiset_ensures();
            work_pre.to_multiset_ensures();
            assert(sorted_pre.push(x).to_multiset() =~= sorted_pre.to_multiset().insert(x));
            assert(sorted@.to_multiset().add(work@.to_multiset()) =~= all_edges(
                cs,
            ).to_multiset()) by {
                assert(work_pre.to_multiset().count(x) >= 1) by {
                    assert(work_pre[m as int] == x);
                    assert(work_pre.contains(x));
                }
                assert(sorted_pre.to_multiset().add(work_pre.to_multiset()) == all_edges(
                    cs,
                ).to_multiset());
            }
            assert forall|a: int, b: int|
                0 <= a < sorted@.len() && 0 <= b < work@.len() implies (#[trigger] sorted@[a]).dist_sq
                <= (#[trigger] work@[b]).dist_sq by {
                assert(work@[b] == work_pre.update(m as int, work_pre.last()).drop_last()[b]);
                if a < sorted@.len() - 1 {
                } else {
                    assert(sorted@[a] == x);
                }
            }
        }
    }
    proof {
        work@.to_multiset_ensures();
        assert(work@.to_multiset() =~= Multiset::<Edge>::empty()) by {
            assert(work@ =~= Seq::<Edge>::empty());
            assert(work@.to_multiset().len() == 0);
        }
        assert(sorted@.to_multiset() =~= all_edges(cs).to_multiset());
    }
    sorted
}

} // verus!
