//! A rectilinear floor plan: a polygon given by its vertices in order. The
//! puzzle asks for the largest axis-aligned rectangle spanned by two vertices,
//! first without any constraint, then with the rectangle's inner border
//! required to lie inside the polygon, tested by ray casting.

use vstd::prelude::*;

verus! {

use vstd::arithmetic::div_mod::lemma_mod_self_0;
use vstd::arithmetic::div_mod::lemma_small_mod;

/// A grid point: row `i`, column `j`.
#[derive(Clone, Copy, PartialEq, Eq, Structural, Debug)]
pub struct Coord {
    pub i: i64,
    pub j: i64,
}

/// The coordinate differences of `a` and `b`, plus one for the inclusive
/// count, fit the machine's signed range.
pub open spec fn span_fits(a: Coord, b: Coord) -> bool {
    abs_of(b.i - a.i) < i64::MAX && abs_of(b.j - a.j) < i64::MAX
}

/// `c`'s coordinates leave room for the one-step neighbours that the border
/// walk visits.
pub open spec fn coord_fits(c: Coord) -> bool {
    i64::MIN < c.i < i64::MAX && i64::MIN < c.j < i64::MAX
}

/// The absolute value of `x`.
pub open spec fn abs_of(x: int) -> int {
    if x < 0 {
        -x
    } else {
        x
    }
}

/// The number of grid points in the rectangle spanned by `a` and `b`,
/// both corners included.
pub open spec fn area_spec(a: Coord, b: Coord) -> int {
    (abs_of(b.i - a.i) + 1) * (abs_of(b.j - a.j) + 1)
}

impl Coord {
    /// The number of grid points in the rectangle spanned by two corners.
    pub fn area(&self, other: &Coord) -> (r: usize)
        requires
            span_fits(*self, *other),
            area_spec(*self, *other) <= usize::MAX,
        ensures
            r == area_spec(*self, *other),
    {
        let di = if other.i >= self.i {
            other.i - self.i
        } else {
            self.i - other.i
        };
        let dj = if other.j >= self.j {
            other.j - self.j
        } else {
            self.j - other.j
        };
        proof {
            assert((di + 1) * (dj + 1) == area_spec(*self, *other));
            assert((di + 1) * (dj + 1) >= 1) by (nonlinear_arith)
                requires
                    di >= 0,
                    dj >= 0,
            ;
            assert(di + 1 <= (di + 1) * (dj + 1) && dj + 1 <= (di + 1) * (dj + 1))
                by (nonlinear_arith)
                requires
                    di >= 0,
                    dj >= 0,
            ;
        }
        ((di + 1) as usize) * ((dj + 1) as usize)
    }
}

/// The polygon edge that starts at vertex `k`: it joins vertex `k` to the
/// next vertex, wrapping around at the end.
pub open spec fn edge_at(vs: Seq<Coord>, k: int) -> (Coord, Coord) {
    (vs[k], vs[(k + 1) % (vs.len() as int)])
}

/// One ray-casting step for the edge `(u, v)` against the point `c`, given
/// the parity `inside` collected so far. Returns `(done, inside)`: `done`
/// means the point was found on the edge itself and the answer is final.
pub open spec fn ray_step(inside: bool, u: Coord, v: Coord, c: Coord) -> (bool, bool) {
    if u.i == v.i {
        let min_j = if u.j <= v.j {
            u.j
        } else {
            v.j
        };
        let max_j = if u.j <= v.j {
            v.j
        } else {
            u.j
        };
        if c.i == u.i && min_j <= c.j && c.j <= max_j {
            (true, true)
        } else {
            (false, inside)
        }
    } else if u.j == v.j {
        let min_i = if u.i <= v.i {
            u.i
        } else {
            v.i
        };
        let max_i = if u.i <= v.i {
            v.i
        } else {
            u.i
        };
        if c.i < min_i || c.i >= max_i {
            (false, inside)
        } else if c.j == u.j {
            (true, true)
        } else if c.j > u.j {
            (false, !inside)
        } else {
            (false, inside)
        }
    } else {
        (false, inside)
    }
}

/// The ray-casting state after the first `k` polygon edges: whether a final
/// answer was reached, and the parity or final answer collected.
pub open spec fn ray_walk(vs: Seq<Coord>, c: Coord, k: int) -> (bool, bool)
    decreases k,
{
    if k <= 0 {
        (false, false)
    } else {
        let prev = ray_walk(vs, c, k - 1);
        if prev.0 {
            prev
        } else {
            let e = edge_at(vs, k - 1);
            ray_step(prev.1, e.0, e.1, c)
        }
    }
}

/// Once the ray walk has reached a final answer, later edges do not change it.
proof fn lemma_ray_walk_done(vs: Seq<Coord>, c: Coord, k: int, n: int)
    requires
        0 <= k <= n,
        ray_walk(vs, c, k).0,
    ensures
        ray_walk(vs, c, n) == ray_walk(vs, c, k),
    decreases n - k,
{
    if k < n {
        lemma_ray_walk_done(vs, c, k + 1, n);
    }
}

/// Whether `c` counts as inside the polygon with vertex list `vs`: the
/// vertices themselves count as inside, and every other point is classified
/// by casting a ray over all edges.
pub open spec fn inside_spec(vs: Seq<Coord>, c: Coord) -> bool {
    vs.contains(c) || ray_walk(vs, c, vs.len() as int).1
}

/// A rectilinear floor plan given by its polygon vertices in order.
pub struct Floor {
    vertices: Vec<Coord>,
}

/// The vertical stretch of a rectangle's inner border: for each row strictly
/// between the corner rows, the two points one column in from either side.
pub open spec fn border_cols(r: Coord, s: Coord) -> Seq<Coord> {
    Seq::new(
        (2 * (if s.j - r.j - 1 >= 0 {
            s.j - r.j - 1
        } else {
            0
        })) as nat,
        |t: int|
            if t % 2 == 0 {
                Coord { i: (r.i + 1) as i64, j: (r.j + 1 + t / 2) as i64 }
            } else {
                Coord { i: (s.i - 1) as i64, j: (r.j + 1 + t / 2) as i64 }
            },
    )
}

/// The horizontal stretch of a rectangle's inner border: for each column
/// strictly between the corner columns, the two points one row in from
/// either side.
pub open spec fn border_rows(r: Coord, s: Coord) -> Seq<Coord> {
    Seq::new(
        (2 * (if s.i - r.i - 1 >= 0 {
            s.i - r.i - 1
        } else {
            0
        })) as nat,
        |t: int|
            if t % 2 == 0 {
                Coord { i: (r.i + 1 + t / 2) as i64, j: (r.j + 1) as i64 }
            } else {
                Coord { i: (r.i + 1 + t / 2) as i64, j: (s.j - 1) as i64 }
            },
    )
}

/// The lower-left corner of the rectangle spanned by `p` and `q`.
pub open spec fn low_corner(p: Coord, q: Coord) -> Coord {
    Coord {
        i: if p.i <= q.i {
            p.i
        } else {
            q.i
        },
        j: if p.j <= q.j {
            p.j
        } else {
            q.j
        },
    }
}

/// The upper-right corner of the rectangle spanned by `p` and `q`.
pub open spec fn high_corner(p: Coord, q: Coord) -> Coord {
    Coord {
        i: if p.i <= q.i {
            q.i
        } else {
            p.i
        },
        j: if p.j <= q.j {
            q.j
        } else {
            p.j
        },
    }
}

/// The inner border ring of the rectangle spanned by `p` and `q`.
pub open spec fn rect_border(p: Coord, q: Coord) -> Seq<Coord> {
    border_cols(low_corner(p, q), high_corner(p, q)) + border_rows(
        low_corner(p, q),
        high_corner(p, q),
    )
}

/// Every point of the inner border of the rectangle spanned by `p` and `q`
/// counts as inside the polygon `vs`.
pub open spec fn rect_inside(vs: Seq<Coord>, p: Coord, q: Coord) -> bool {
    forall|t: int| 0 <= t < rect_border(p, q).len() ==> inside_spec(vs, rect_border(p, q)[t])
}

impl Floor {
    /// The polygon's vertices, in order.
    pub closed spec fn view(self) -> Seq<Coord> {
        self.vertices@
    }

    pub fn new(vertices: Vec<Coord>) -> (floor: Floor)
        ensures
            floor.view() == vertices@,
    {
        Floor { vertices }
    }

    /// The polygon's edges: each vertex joined to the next, the last vertex
    /// joined back to the first. Empty for an empty vertex list.
    pub fn polygon_edges(&self) -> (r: Vec<(Coord, Coord)>)
        ensures
            r@.len() == self.view().len(),
            forall|k: int| 0 <= k < r@.len() ==> r@[k] == edge_at(self.view(), k),
    {
        let n = self.vertices.len();
        let mut r: Vec<(Coord, Coord)> = Vec::new();
        let mut k: usize = 0;
        while k < n
            invariant
                n == self.view().len(),
                k <= n,
                r@.len() == k,
                forall|t: int| 0 <= t < k ==> r@[t] == edge_at(self.view(), t),
            decreases n - k,
        {
            let next = if k + 1 == n {
                0
            } else {
                k + 1
            };
            proof {
                if k + 1 == n {
                    lemma_mod_self_0(n as int);
                } else {
                    lemma_small_mod((k + 1) as nat, n as nat);
                }
                assert(next as int == (k + 1) % (n as int));
            }
            r.push((self.vertices[k], self.vertices[next]));
            k = k + 1;
        }
        r
    }

    /// Whether `coord` lies inside the polygon: polygon vertices count as
    /// inside; every other point is classified by casting a ray across the
    /// polygon's row, toggling on vertical edges below it and accepting
    /// points on an edge outright. Read-only: repeated calls return the same
    /// answer.
    pub fn is_coord_inside_polygon(&self, coord: Coord) -> (r: bool)
        ensures
            r == inside_spec(self.view(), coord),
    {
        let ghost vs = self.view();
        let n = self.vertices.len();
        let mut k: usize = 0;
        while k < n
            invariant
                n == vs.len(),
                vs == self.view(),
                k <= n,
                forall|t: int| 0 <= t < k ==> vs[t] != coord,
            decreases n - k,
        {
            let v = self.vertices[k];
            if v.i == coord.i && v.j == coord.j {
                proof {
                    assert(vs[k as int] == coord);
                }
                return true;
            }
            k = k + 1;
        }
        proof {
            assert(!vs.contains(coord));
        }
        let mut inside = false;
        let mut e: usize = 0;
        while e < n
            invariant
                n == vs.len(),
                vs == self.view(),
                e <= n,
                !vs.contains(coord),
                ray_walk(vs, coord, e as int) == (false, inside),
            decreases n - e,
        {
            let u = self.vertices[e];
            let next = if e + 1 == n {
                0
            } else {
                e + 1
            };
            proof {
                if e + 1 == n {
                    lemma_mod_self_0(n as int);
                } else {
                    lemma_small_mod((e + 1) as nat, n as nat);
                }
                assert(next as int == (e + 1) % (n as int));
                assert(edge_at(vs, e as int) == (vs[e as int], vs[next as int]));
            }
            let v = self.vertices[next];
            if u.i == v.i {
                let min_j = if u.j <= v.j {
                    u.j
                } else {
                    v.j
                };
                let max_j = if u.j <= v.j {
                    v.j
                } else {
                    u.j
                };
                if coord.i == u.i && min_j <= coord.j && coord.j <= max_j {
                    proof {
                        assert(ray_walk(vs, coord, e as int + 1) == (true, true));
                        lemma_ray_walk_done(vs, coord, e as int + 1, n as int);
                    }
                    return true;
                }
            } else if u.j == v.j {
                let min_i = if u.i <= v.i {
                    u.i
                } else {
                    v.i
                };
                let max_i = if u.i <= v.i {
                    v.i
                } else {
                    u.i
                };
                if coord.i < min_i || coord.i >= max_i {
                } else if coord.j == u.j {
                    proof {
                        assert(ray_walk(vs, coord, e as int + 1) == (true, true));
                        lemma_ray_walk_done(vs, coord, e as int + 1, n as int);
                    }
                    return true;
                } else if coord.j > u.j {
                    inside = !inside;
                }
            }
            e = e + 1;
        }
        inside
    }

    /// The inner border of the rectangle spanned by `p` and `q`: for every
    /// row strictly between the corners, the points one column in from each
    /// vertical side; for every column strictly between the corners, the
    /// points one row in from each horizontal side.
    pub fn rect_edges(&self, p: Coord, q: Coord) -> (r: Vec<Coord>)
        requires
            coord_fits(p),
            coord_fits(q),
        ensures
            r@ == rect_border(p, q),
    {
        let ri = if p.i <= q.i {
            p.i
        } else {
            q.i
        };
        let rj = if p.j <= q.j {
            p.j
        } else {
            q.j
        };
        let si = if p.i <= q.i {
            q.i
        } else {
            p.i
        };
        let sj = if p.j <= q.j {
            q.j
        } else {
            p.j
        };
        let ghost lo = low_corner(p, q);
        let ghost hi = high_corner(p, q);
        proof {
            assert(lo == Coord { i: ri, j: rj });
            assert(hi == Coord { i: si, j: sj });
        }
        let mut coords: Vec<Coord> = Vec::new();
        let mut j = rj + 1;
        while j < sj
            invariant
                i64::MIN < ri < i64::MAX,
                i64::MIN < si < i64::MAX,
                i64::MIN < rj < i64::MAX,
                i64::MIN < sj < i64::MAX,
                rj + 1 <= j <= sj || (j == rj + 1 && sj <= rj + 1),
                coords@ == border_cols(lo, hi).take(2 * (j - rj - 1)),
                lo == (Coord { i: ri, j: rj }),
                hi == (Coord { i: si, j: sj }),
            decreases sj - j,
        {
            coords.push(Coord { i: ri + 1, j });
            coords.push(Coord { i: si - 1, j });
            proof {
                let t0 = 2 * (j - rj - 1);
                assert(border_cols(lo, hi)[t0] == (Coord { i: (ri + 1) as i64, j }));
                assert(border_cols(lo, hi)[t0 + 1] == (Coord { i: (si - 1) as i64, j }));
                assert(coords@ =~= border_cols(lo, hi).take(2 * (j + 1 - rj - 1)));
            }
            j = j + 1;
        }
        proof {
            assert(coords@ =~= border_cols(lo, hi));
        }
        let ghost cols_done = coords@;
        let mut i = ri + 1;
        while i < si
            invariant
                i64::MIN < ri < i64::MAX,
                i64::MIN < si < i64::MAX,
                i64::MIN < rj < i64::MAX,
                i64::MIN < sj < i64::MAX,
                ri + 1 <= i <= si || (i == ri + 1 && si <= ri + 1),
                cols_done == border_cols(lo, hi),
                coords@ == cols_done + border_rows(lo, hi).take(2 * (i - ri - 1)),
                lo == (Coord { i: ri, j: rj }),
                hi == (Coord { i: si, j: sj }),
            decreases si - i,
        {
            coords.push(Coord { i, j: rj + 1 });
            coords.push(Coord { i, j: sj - 1 });
            proof {
                let t0 = 2 * (i - ri - 1);
                assert(border_rows(lo, hi)[t0] == (Coord { i, j: (rj + 1) as i64 }));
                assert(border_rows(lo, hi)[t0 + 1] == (Coord { i, j: (sj - 1) as i64 }));
                assert(coords@ =~= cols_done + border_rows(lo, hi).take(2 * (i + 1 - ri - 1)));
            }
            i = i + 1;
        }
        proof {
            assert(coords@ =~= border_cols(lo, hi) + border_rows(lo, hi));
        }
        coords
    }
}

/// A spanned area covers at least its one corner cell.
pub proof fn lemma_area_pos(a: Coord, b: Coord)
    ensures
        area_spec(a, b) >= 1,
{
    let di = abs_of(b.i - a.i);
    let dj = abs_of(b.j - a.j);
    assert((di + 1) * (dj + 1) >= 1) by (nonlinear_arith)
        requires
            di >= 0,
            dj >= 0,
    ;
}

/// The largest rectangle area spanned by any two of the given points.
pub fn part1(coords: &Vec<Coord>) -> (r: i64)
    requires
        coords@.len() >= 2,
        forall|a: int, b: int|
            0 <= a < coords@.len() && 0 <= b < coords@.len() ==> span_fits(
                #[trigger] coords@[a],
                #[trigger] coords@[b],
            ) && area_spec(coords@[a], coords@[b]) <= usize::MAX && area_spec(
                coords@[a],
                coords@[b],
            ) <= i64::MAX,
    ensures
        exists|a: int, b: int|
            0 <= a < b < coords@.len() && r == area_spec(#[trigger] coords@[a], #[trigger] coords@[b]),
        forall|a: int, b: int|
            0 <= a < b < coords@.len() ==> area_spec(#[trigger] coords@[a], #[trigger] coords@[b])
                <= r,
{
    let n = coords.len();
    proof {
        lemma_area_pos(coords@[0], coords@[1]);
        assert(area_spec(coords@[0], coords@[1]) <= i64::MAX);
    }
    let mut best: usize = coords[0].area(&coords[1]);
    let ghost mut wa: int = 0;
    let ghost mut wb: int = 1;
    let mut a: usize = 0;
    while a < n
        invariant
            n == coords@.len(),
            n >= 2,
            a <= n,
            forall|x: int, y: int|
                0 <= x < coords@.len() && 0 <= y < coords@.len() ==> span_fits(
                    #[trigger] coords@[x],
                    #[trigger] coords@[y],
                ) && area_spec(coords@[x], coords@[y]) <= usize::MAX && area_spec(
                    coords@[x],
                    coords@[y],
                ) <= i64::MAX,
            0 <= wa < wb < n,
            best == area_spec(coords@[wa], coords@[wb]),
            forall|x: int, y: int|
                0 <= x < y < n && x < a ==> area_spec(#[trigger] coords@[x], #[trigger] coords@[y])
                    <= best,
        decreases n - a,
    {
        let mut b: usize = a + 1;
        while b < n
            invariant
                n == coords@.len(),
                n >= 2,
                a < n,
                a + 1 <= b <= n,
                forall|x: int, y: int|
                    0 <= x < coords@.len() && 0 <= y < coords@.len() ==> span_fits(
                        #[trigger] coords@[x],
                        #[trigger] coords@[y],
                    ) && area_spec(coords@[x], coords@[y]) <= usize::MAX && area_spec(
                        coords@[x],
                        coords@[y],
                    ) <= i64::MAX,
                0 <= wa < wb < n,
                best == area_spec(coords@[wa], coords@[wb]),
                forall|x: int, y: int|
                    0 <= x < y < n && x < a ==> area_spec(
                        #[trigger] coords@[x],
                        #[trigger] coords@[y],
                    ) <= best,
                forall|y: int|
                    (a as int) < y < b ==> area_spec(coords@[a as int], #[trigger] coords@[y])
                        <= best,
            decreases n - b,
        {
            let cand = coords[a].area(&coords[b]);
            if cand > best {
                best = cand;
                proof {
                    wa = a as int;
                    wb = b as int;
                }
            }
            b = b + 1;
        }
        a = a + 1;
    }
    proof {
        assert(area_spec(coords@[wa], coords@[wb]) <= i64::MAX);
    }
    best as i64
}

/// The largest rectangle area spanned by two polygon vertices whose inner
/// border lies entirely inside the polygon; zero when no spanned rectangle
/// qualifies.
pub fn part2(floor: &Floor) -> (r: i64)
    requires
        forall|t: int| 0 <= t < floor.view().len() ==> coord_fits(#[trigger] floor.view()[t]),
        forall|a: int, b: int|
            0 <= a < floor.view().len() && 0 <= b < floor.view().len() ==> span_fits(
                #[trigger] floor.view()[a],
                #[trigger] floor.view()[b],
            ) && area_spec(floor.view()[a], floor.view()[b]) <= usize::MAX && area_spec(
                floor.view()[a],
                floor.view()[b],
            ) <= i64::MAX,
    ensures
        r == 0 || (exists|a: int, b: int|
            0 <= a < b < floor.view().len() && rect_inside(
                floor.view(),
                #[trigger] floor.view()[a],
                #[trigger] floor.view()[b],
            ) && r == area_spec(floor.view()[a], floor.view()[b])),
        forall|a: int, b: int|
            0 <= a < b < floor.view().len() && rect_inside(
                floor.view(),
                #[trigger] floor.view()[a],
                #[trigger] floor.view()[b],
            ) ==> area_spec(floor.view()[a], floor.view()[b]) <= r,
{
    let ghost vs = floor.view();
    let n = floor.vertices_len();
    let mut best: usize = 0;
    let ghost mut wa: int = 0;
    let ghost mut wb: int = 0;
    let mut a: usize = 0;
    while a < n
        invariant
            n == vs.len(),
            vs == floor.view(),
            a <= n,
            forall|t: int| 0 <= t < vs.len() ==> coord_fits(#[trigger] vs[t]),
            forall|x: int, y: int|
                0 <= x < vs.len() && 0 <= y < vs.len() ==> span_fits(
                    #[trigger] vs[x],
                    #[trigger] vs[y],
                ) && area_spec(vs[x], vs[y]) <= usize::MAX && area_spec(vs[x], vs[y]) <= i64::MAX,
            best == 0 || (0 <= wa < wb < n && rect_inside(vs, vs[wa], vs[wb]) && best == area_spec(
                vs[wa],
                vs[wb],
            )),
            best <= i64::MAX,
            forall|x: int, y: int|
                0 <= x < y < n && x < a && rect_inside(vs, #[trigger] vs[x], #[trigger] vs[y])
                    ==> area_spec(vs[x], vs[y]) <= best,
        decreases n - a,
    {
        let mut b: usize = a + 1;
        while b < n
            invariant
                n == vs.len(),
                vs == floor.view(),
                a < n,
                a + 1 <= b <= n,
                forall|t: int| 0 <= t < vs.len() ==> coord_fits(#[trigger] vs[t]),
                forall|x: int, y: int|
                    0 <= x < vs.len() && 0 <= y < vs.len() ==> span_fits(
                        #[trigger] vs[x],
                        #[trigger] vs[y],
                    ) && area_spec(vs[x], vs[y]) <= usize::MAX && area_spec(vs[x], vs[y])
                        <= i64::MAX,
                best == 0 || (0 <= wa < wb < n && rect_inside(vs, vs[wa], vs[wb]) && best
                    == area_spec(vs[wa], vs[wb])),
                best <= i64::MAX,
                forall|x: int, y: int|
                    0 <= x < y < n && x < a && rect_inside(vs, #[trigger] vs[x], #[trigger] vs[y])
                        ==> area_spec(vs[x], vs[y]) <= best,
                forall|y: int|
                    (a as int) < y < b && rect_inside(vs, vs[a as int], #[trigger] vs[y])
                        ==> area_spec(vs[a as int], vs[y]) <= best,
            decreases n - b,
        {
            let p = floor.vertex(a);
            let q = floor.vertex(b);
            let border = floor.rect_edges(p, q);
            let mut all_inside = true;
            let m = border.len();
            let mut t: usize = 0;
            while t < m
                invariant
                    m == border@.len(),
                    border@ == rect_border(p, q),
                    vs == floor.view(),
                    t <= m,
                    all_inside == (forall|u: int|
                        0 <= u < t ==> inside_spec(vs, #[trigger] border@[u])),
                decreases m - t,
            {
                if !floor.is_coord_inside_polygon(border[t]) {
                    all_inside = false;
                    proof {
                        assert(!inside_spec(vs, border@[t as int]));
                    }
                    t = m;
                } else {
                    t = t + 1;
                }
            }
            let cand = p.area(&q);
            if all_inside && cand > best {
                proof {
                    assert(rect_inside(vs, p, q));
                    assert(area_spec(p, q) <= usize::MAX);
                    wa = a as int;
                    wb = b as int;
                }
                best = cand;
                proof {
                    lemma_area_pos(vs[wa], vs[wb]);
                    assert(area_spec(vs[wa], vs[wb]) <= i64::MAX);
                }
            }
            proof {
                if rect_inside(vs, vs[a as int], vs[b as int]) {
                    assert(all_inside);
                }
            }
            b = b + 1;
        }
        a = a + 1;
    }
    best as i64
}

impl Floor {
    /// The number of polygon vertices.
    pub fn vertices_len(&self) -> (r: usize)
        ensures
            r == self.view().len(),
    {
        self.vertices.len()
    }

    /// The vertex at position `k`.
    pub fn vertex(&self, k: usize) -> (r: Coord)
        requires
            k < self.view().len(),
        ensures
            r == self.view()[k as int],
    {
        self.vertices[k]
    }
}

} // verus!
