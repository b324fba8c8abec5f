use vstd::prelude::*;
use crate::geometry::{is_pos_cross, pos_cross, Point, Vector, COORD_LIMIT};

verus! {

/// Sum of one vertex of each polygon.
#[derive(Clone, Copy, Debug, PartialEq, Eq, Structural)]
pub struct Vert {
    /// Index of the vertex of the first polygon.
    pub i: usize,
    /// Index of the vertex of the second polygon.
    pub j: usize,
    /// Coordinates: the sum of the two vertices.
    pub z: Point,
}

/// An edge of one polygon, translated by a vertex of the other.
#[derive(Clone, Copy, Debug, PartialEq, Eq, Structural)]
pub struct Conv {
    /// Start.
    pub p: Vert,
    /// End.
    pub q: Vert,
    /// Delta: end minus start.
    pub v: Point,
}

impl Vert {
    /// Whether two vertices are sums of the same pair of polygon vertices.
    pub open spec fn same_id(self, other: Vert) -> bool {
        self.i == other.i && self.j == other.j
    }
}

impl Conv {
    /// The edge joins two sums of polygon vertices, and its delta is the
    /// difference of its ends and no longer than a polygon edge can be.
    pub open spec fn wf(self) -> bool {
        &&& self.p.z@.within(2 * COORD_LIMIT)
        &&& self.q.z@.within(2 * COORD_LIMIT)
        &&& self.v@.within(2 * COORD_LIMIT)
        &&& self.v@ == self.q.z@.minus(self.p.z@)
    }
}

/// The segment that an edge covers: its two ends.
pub open spec fn segment(e: Conv) -> (Point, Point) {
    (e.p.z, e.q.z)
}

/// Every edge of the sequence is well formed.
pub open spec fn edges_wf(edges: Seq<Conv>) -> bool {
    forall|n: int| 0 <= n < edges.len() ==> (#[trigger] edges[n]).wf()
}

/// Every vertex of the polygon is in the range of coordinates.
pub open spec fn polygon_in_range(poly: Seq<Point>) -> bool {
    forall|k: int| 0 <= k < poly.len() ==> (#[trigger] poly[k]).in_range()
}

/// Index of the vertex after `k` in a polygon of `len` vertices.
pub open spec fn wrap_next(k: int, len: int) -> int {
    if k + 1 >= len {
        0
    } else {
        k + 1
    }
}

/// Index of the vertex before `k` in a polygon of `len` vertices.
pub open spec fn wrap_prev(k: int, len: int) -> int {
    if k <= 0 {
        len - 1
    } else {
        k - 1
    }
}

/// Direction of the edge that ends in vertex `k`.
pub open spec fn incoming(poly: Seq<Point>, k: int) -> Vector {
    poly[k]@.minus(poly[wrap_prev(k, poly.len() as int)]@)
}

/// Direction of the edge that starts in vertex `k`.
pub open spec fn outgoing(poly: Seq<Point>, k: int) -> Vector {
    poly[wrap_next(k, poly.len() as int)]@.minus(poly[k]@)
}

/// The polygon does not turn clockwise in vertex `k`: the vertex is not
/// reflex.
pub open spec fn convex_at(poly: Seq<Point>, k: int) -> bool {
    pos_cross(incoming(poly, k), outgoing(poly, k))
}

/// Vertex `i` of `a` and the edge of `b` that starts in its vertex `j` give
/// an edge of the convolution: `b` has edges at all, `a` is not reflex in
/// `i`, and the direction of the edge lies between those of the two edges
/// of `a` that meet in `i`.
pub open spec fn compatible(a: Seq<Point>, b: Seq<Point>, i: int, j: int) -> bool {
    &&& b.len() >= 2
    &&& convex_at(a, i)
    &&& pos_cross(incoming(a, i), outgoing(b, j))
    &&& pos_cross(outgoing(b, j), outgoing(a, i))
}

/// The sum of vertex `i` of `a` and vertex `j` of `b`. With `swapped`, `a`
/// is the second polygon and `b` the first, and the indices change places.
pub open spec fn vert_at(a: Seq<Point>, b: Seq<Point>, i: int, j: int, swapped: bool) -> Vert {
    Vert {
        i: if swapped {
            j as usize
        } else {
            i as usize
        },
        j: if swapped {
            i as usize
        } else {
            j as usize
        },
        z: Point { x: (a[i].x + b[j].x) as i64, y: (a[i].y + b[j].y) as i64 },
    }
}

/// The edge of `b` that starts in its vertex `j`, translated by vertex `i`
/// of `a`.
pub open spec fn conv_at(a: Seq<Point>, b: Seq<Point>, i: int, j: int, swapped: bool) -> Conv {
    let j1 = wrap_next(j, b.len() as int);
    Conv {
        p: vert_at(a, b, i, j, swapped),
        q: vert_at(a, b, i, j1, swapped),
        v: Point { x: (b[j1].x - b[j].x) as i64, y: (b[j1].y - b[j].y) as i64 },
    }
}

/// The edges that vertex `i` of `a` gives with the edges of `b` that start
/// in its vertices `0 .. hi`, in the order of these.
pub open spec fn half_row(a: Seq<Point>, b: Seq<Point>, i: int, hi: int, swapped: bool) -> Seq<
    Conv,
>
    decreases hi,
{
    if hi <= 0 {
        Seq::empty()
    } else if compatible(a, b, i, hi - 1) {
        half_row(a, b, i, hi - 1, swapped).push(conv_at(a, b, i, hi - 1, swapped))
    } else {
        half_row(a, b, i, hi - 1, swapped)
    }
}

/// The edges that the vertices `0 .. upto` of `a` give with the edges of
/// `b`, vertex by vertex.
pub open spec fn half_upto(a: Seq<Point>, b: Seq<Point>, upto: int, swapped: bool) -> Seq<Conv>
    decreases upto,
{
    if upto <= 0 {
        Seq::empty()
    } else {
        half_upto(a, b, upto - 1, swapped) + half_row(a, b, upto - 1, b.len() as int, swapped)
    }
}

/// The edges of `b`, each translated by every vertex of `a` with which it
/// is compatible.
pub open spec fn half(a: Seq<Point>, b: Seq<Point>, swapped: bool) -> Seq<Conv> {
    half_upto(a, b, a.len() as int, swapped)
}

/// The reduced convolution of two polygons: the edges of the second at the
/// vertices of the first, then the edges of the first at the vertices of
/// the second.
pub open spec fn convolution(a: Seq<Point>, b: Seq<Point>) -> Seq<Conv> {
    half(a, b, false) + half(b, a, true)
}

/// An edge of the convolution of polygons in range is well formed.
pub proof fn lemma_conv_at_wf(a: Seq<Point>, b: Seq<Point>, i: int, j: int, swapped: bool)
    requires
        polygon_in_range(a),
        polygon_in_range(b),
        0 <= i < a.len(),
        0 <= j < b.len(),
    ensures
        conv_at(a, b, i, j, swapped).wf(),
{
    let j1 = wrap_next(j, b.len() as int);
    assert(a[i].in_range() && b[j].in_range() && b[j1].in_range());
}

/// An edge is in a row of the convolution exactly if it is the edge of a
/// compatible pair of that row.
pub proof fn lemma_half_row_members(
    a: Seq<Point>,
    b: Seq<Point>,
    i: int,
    hi: int,
    swapped: bool,
    x: Conv,
)
    ensures
        half_row(a, b, i, hi, swapped).contains(x) <==> exists|j: int|
            0 <= j < hi && compatible(a, b, i, j) && x == #[trigger] conv_at(a, b, i, j, swapped),
    decreases hi,
{
    if hi > 0 {
        lemma_half_row_members(a, b, i, hi - 1, swapped, x);
        let rest = half_row(a, b, i, hi - 1, swapped);
        let all = half_row(a, b, i, hi, swapped);
        if compatible(a, b, i, hi - 1) {
            let e = conv_at(a, b, i, hi - 1, swapped);
            if all.contains(x) {
                let k = choose|k: int| 0 <= k < all.len() && all[k] == x;
                if k < rest.len() {
                    assert(rest[k] == x);
                } else {
                    assert(x == e);
                }
            }
            if rest.contains(x) {
                let k = choose|k: int| 0 <= k < rest.len() && rest[k] == x;
                assert(all[k] == x);
            }
            assert(all[rest.len() as int] == e);
        }
    }
}

/// An edge is among the edges of the first `upto` vertices exactly if it is
/// the edge of a compatible pair with one of these vertices.
pub proof fn lemma_half_upto_members(
    a: Seq<Point>,
    b: Seq<Point>,
    upto: int,
    swapped: bool,
    x: Conv,
)
    ensures
        half_upto(a, b, upto, swapped).contains(x) <==> exists|i: int, j: int|
            0 <= i < upto && 0 <= j < b.len() && compatible(a, b, i, j) && x == #[trigger] conv_at(
                a,
                b,
                i,
                j,
                swapped,
            ),
    decreases upto,
{
    if upto > 0 {
        lemma_half_upto_members(a, b, upto - 1, swapped, x);
        lemma_half_row_members(a, b, upto - 1, b.len() as int, swapped, x);
        let rest = half_upto(a, b, upto - 1, swapped);
        let row = half_row(a, b, upto - 1, b.len() as int, swapped);
        let all = half_upto(a, b, upto, swapped);
        if all.contains(x) {
            let k = choose|k: int| 0 <= k < all.len() && all[k] == x;
            if k < rest.len() {
                assert(rest[k] == x);
            } else {
                assert(row[k - rest.len()] == x);
            }
        }
        if rest.contains(x) {
            let k = choose|k: int| 0 <= k < rest.len() && rest[k] == x;
            assert(all[k] == x);
        }
        if row.contains(x) {
            let k = choose|k: int| 0 <= k < row.len() && row[k] == x;
            assert(all[rest.len() + k] == x);
        }
    }
}

/// The vertex and the edge of which `x` is the convolution come before
/// those of `y`: the vertex first, then the edge.
pub open spec fn stands_before(x: Conv, y: Conv, swapped: bool) -> bool {
    if swapped {
        x.p.j < y.p.j || (x.p.j == y.p.j && x.p.i < y.p.i)
    } else {
        x.p.i < y.p.i || (x.p.i == y.p.i && x.p.j < y.p.j)
    }
}

/// The index of the vertex of which `x` is a convolution.
pub open spec fn vertex_of(x: Conv, swapped: bool) -> usize {
    if swapped {
        x.p.j
    } else {
        x.p.i
    }
}

/// The index of the vertex in which the edge starts of which `x` is a
/// convolution.
pub open spec fn edge_of(x: Conv, swapped: bool) -> usize {
    if swapped {
        x.p.i
    } else {
        x.p.j
    }
}

/// The edges of a row stand in the order of the edges of the polygon.
proof fn lemma_half_row_sorted(a: Seq<Point>, b: Seq<Point>, i: int, hi: int, swapped: bool)
    requires
        0 <= i < a.len() <= usize::MAX,
        hi <= b.len() <= usize::MAX,
    ensures
        forall|k: int|
            0 <= k < half_row(a, b, i, hi, swapped).len() ==> vertex_of(
                #[trigger] half_row(a, b, i, hi, swapped)[k],
                swapped,
            ) == i && edge_of(half_row(a, b, i, hi, swapped)[k], swapped) < hi,
        forall|k: int, l: int|
            0 <= k < l < half_row(a, b, i, hi, swapped).len() ==> stands_before(
                #[trigger] half_row(a, b, i, hi, swapped)[k],
                #[trigger] half_row(a, b, i, hi, swapped)[l],
                swapped,
            ),
    decreases hi,
{
    if hi > 0 {
        lemma_half_row_sorted(a, b, i, hi - 1, swapped);
        let rest = half_row(a, b, i, hi - 1, swapped);
        let all = half_row(a, b, i, hi, swapped);
        assert forall|k: int| 0 <= k < all.len() implies vertex_of(#[trigger] all[k], swapped) == i
            && edge_of(all[k], swapped) < hi by {
            if k < rest.len() {
                assert(all[k] == rest[k]);
            }
        }
        assert forall|k: int, l: int| 0 <= k < l < all.len() implies stands_before(
            #[trigger] all[k],
            #[trigger] all[l],
            swapped,
        ) by {
            assert(all[k] == rest[k]);
            if l < rest.len() {
                assert(all[l] == rest[l]);
            }
        }
    }
}

/// The edges of one half of the convolution stand in the order of the
/// vertices, those of one vertex in the order of the edges, so none stands
/// twice.
pub proof fn lemma_half_sorted(a: Seq<Point>, b: Seq<Point>, upto: int, swapped: bool)
    requires
        upto <= a.len() <= usize::MAX,
        b.len() <= usize::MAX,
    ensures
        forall|k: int|
            0 <= k < half_upto(a, b, upto, swapped).len() ==> vertex_of(
                #[trigger] half_upto(a, b, upto, swapped)[k],
                swapped,
            ) < upto,
        forall|k: int, l: int|
            0 <= k < l < half_upto(a, b, upto, swapped).len() ==> stands_before(
                #[trigger] half_upto(a, b, upto, swapped)[k],
                #[trigger] half_upto(a, b, upto, swapped)[l],
                swapped,
            ),
    decreases upto,
{
    if upto > 0 {
        lemma_half_sorted(a, b, upto - 1, swapped);
        lemma_half_row_sorted(a, b, upto - 1, b.len() as int, swapped);
        let rest = half_upto(a, b, upto - 1, swapped);
        let row = half_row(a, b, upto - 1, b.len() as int, swapped);
        let all = half_upto(a, b, upto, swapped);
        assert forall|k: int| 0 <= k < all.len() implies vertex_of(#[trigger] all[k], swapped)
            < upto by {
            if k < rest.len() {
                assert(all[k] == rest[k]);
            } else {
                assert(all[k] == row[k - rest.len()]);
            }
        }
        assert forall|k: int, l: int| 0 <= k < l < all.len() implies stands_before(
            #[trigger] all[k],
            #[trigger] all[l],
            swapped,
        ) by {
            if l < rest.len() {
                assert(all[k] == rest[k] && all[l] == rest[l]);
            } else if k < rest.len() {
                assert(all[k] == rest[k] && all[l] == row[l - rest.len()]);
            } else {
                assert(all[k] == row[k - rest.len()] && all[l] == row[l - rest.len()]);
            }
        }
    }
}

/// An edge is in the convolution exactly if it is the edge of a compatible
/// pair: of a vertex of the first polygon and an edge of the second, or of
/// a vertex of the second and an edge of the first. So no edge stands at a
/// reflex vertex, and none comes from a polygon of a single vertex.
pub proof fn lemma_convolution_members(a: Seq<Point>, b: Seq<Point>, x: Conv)
    ensures
        convolution(a, b).contains(x) <==> (exists|i: int, j: int|
            0 <= i < a.len() && 0 <= j < b.len() && compatible(a, b, i, j) && x
                == #[trigger] conv_at(a, b, i, j, false)) || (exists|j: int, i: int|
            0 <= j < b.len() && 0 <= i < a.len() && compatible(b, a, j, i) && x
                == #[trigger] conv_at(b, a, j, i, true)),
{
    lemma_half_upto_members(a, b, a.len() as int, false, x);
    lemma_half_upto_members(b, a, b.len() as int, true, x);
    let first = half(a, b, false);
    let second = half(b, a, true);
    let all = convolution(a, b);
    if all.contains(x) {
        let k = choose|k: int| 0 <= k < all.len() && all[k] == x;
        if k < first.len() {
            assert(first[k] == x);
        } else {
            assert(second[k - first.len()] == x);
        }
    }
    if first.contains(x) {
        let k = choose|k: int| 0 <= k < first.len() && first[k] == x;
        assert(all[k] == x);
    }
    if second.contains(x) {
        let k = choose|k: int| 0 <= k < second.len() && second[k] == x;
        assert(all[first.len() + k] == x);
    }
}

/// The ends of the edge are sums of vertices of which one is the same in
/// both, and the other is followed in its polygon by the other's.
pub open spec fn steps_once(x: Conv, first_len: int, second_len: int) -> bool {
    (x.q.i == x.p.i && x.q.j == wrap_next(x.p.j as int, second_len)) || (x.q.j == x.p.j && x.q.i
        == wrap_next(x.p.i as int, first_len))
}

/// From the start of an edge of the convolution to its end, one of the two
/// vertices that are summed stays and the other gives way to the next of
/// its polygon.
pub proof fn lemma_edges_step_once(a: Seq<Point>, b: Seq<Point>, n: int)
    requires
        a.len() <= usize::MAX,
        b.len() <= usize::MAX,
        0 <= n < convolution(a, b).len(),
    ensures
        steps_once(convolution(a, b)[n], a.len() as int, b.len() as int),
{
    let x = convolution(a, b)[n];
    assert(convolution(a, b).contains(x));
    lemma_convolution_members(a, b, x);
}

/// The convolution of polygons in range consists of well-formed edges.
pub proof fn lemma_convolution_wf(a: Seq<Point>, b: Seq<Point>)
    requires
        polygon_in_range(a),
        polygon_in_range(b),
    ensures
        edges_wf(convolution(a, b)),
{
    let all = convolution(a, b);
    assert forall|n: int| 0 <= n < all.len() implies (#[trigger] all[n]).wf() by {
        let x = all[n];
        assert(all.contains(x));
        lemma_convolution_members(a, b, x);
        if exists|i: int, j: int|
            0 <= i < a.len() && 0 <= j < b.len() && compatible(a, b, i, j) && x
                == #[trigger] conv_at(a, b, i, j, false) {
            let (i, j) = choose|i: int, j: int|
                0 <= i < a.len() && 0 <= j < b.len() && compatible(a, b, i, j) && x
                    == #[trigger] conv_at(a, b, i, j, false);
            lemma_conv_at_wf(a, b, i, j, false);
        } else {
            let (j, i) = choose|j: int, i: int|
                0 <= j < b.len() && 0 <= i < a.len() && compatible(b, a, j, i) && x
                    == #[trigger] conv_at(b, a, j, i, true);
            lemma_conv_at_wf(b, a, j, i, true);
        }
    }
}

/// Decides [`polygon_in_range`].
pub fn polygon_is_in_range(poly: &[Point]) -> (b: bool)
    ensures
        b == polygon_in_range(poly@),
{
    let mut k: usize = 0;
    while k < poly.len()
        invariant
            k <= poly.len(),
            forall|i: int| 0 <= i < k ==> (#[trigger] poly@[i]).in_range(),
        decreases poly.len() - k,
    {
        if !poly[k].is_in_range() {
            return false;
        }
        k += 1;
    }
    true
}

/// Appends to `edges` the edges of `b` at the vertices of `a`.
pub fn convolve(a: &[Point], b: &[Point], edges: &mut Vec<Conv>, swapped: bool)
    requires
        a@.len() >= 1,
        b@.len() >= 1,
        polygon_in_range(a@),
        polygon_in_range(b@),
        edges_wf(old(edges)@),
    ensures
        final(edges)@ == old(edges)@ + half(a@, b@, swapped),
        edges_wf(final(edges)@),
{
    let n: usize = a.len();
    let m: usize = b.len();
    let mut i0: usize = 0;
    while i0 < n
        invariant
            n == a@.len(),
            m == b@.len(),
            m >= 1,
            i0 <= n,
            polygon_in_range(a@),
            polygon_in_range(b@),
            edges_wf(edges@),
            edges@ == old(edges)@ + half_upto(a@, b@, i0 as int, swapped),
        decreases n - i0,
    {
        let i1: usize = if i0 + 1 >= n {
            0
        } else {
            i0 + 1
        };
        let ip: usize = if i0 == 0 {
            n - 1
        } else {
            i0 - 1
        };
        let a0 = a[i0];
        proof {
            assert(a@[i0 as int].in_range() && a@[i1 as int].in_range() && a@[ip as int].in_range());
        }
        let before = a0.minus(a[ip]);
        let after = a[i1].minus(a0);
        let ghost start = edges@;
        let turn: bool = m >= 2 && is_pos_cross(before, after);
        let mut j0: usize = 0;
        while j0 < m
            invariant
                n == a@.len(),
                m == b@.len(),
                i0 < n,
                j0 <= m,
                polygon_in_range(a@),
                polygon_in_range(b@),
                a0 == a@[i0 as int],
                before@ == incoming(a@, i0 as int),
                after@ == outgoing(a@, i0 as int),
                turn == (m >= 2 && convex_at(a@, i0 as int)),
                edges_wf(edges@),
                edges@ == start + half_row(a@, b@, i0 as int, j0 as int, swapped),
            decreases m - j0,
        {
            let j1: usize = if j0 + 1 >= m {
                0
            } else {
                j0 + 1
            };
            proof {
                assert(b@[j0 as int].in_range() && b@[j1 as int].in_range());
                lemma_conv_at_wf(a@, b@, i0 as int, j0 as int, swapped);
            }
            let b0 = b[j0];
            let b1 = b[j1];
            let v = b1.minus(b0);
            if turn && is_pos_cross(before, v) && is_pos_cross(v, after) {
                let z0 = a0.plus(b0);
                let z1 = a0.plus(b1);
                let e = if swapped {
                    Conv { p: Vert { i: j0, j: i0, z: z0 }, q: Vert { i: j1, j: i0, z: z1 }, v }
                } else {
                    Conv { p: Vert { i: i0, j: j0, z: z0 }, q: Vert { i: i0, j: j1, z: z1 }, v }
                };
                assert(e == conv_at(a@, b@, i0 as int, j0 as int, swapped));
                edges.push(e);
            }
            j0 += 1;
        }
        i0 += 1;
    }
}

/// Builds the reduced convolution of two polygons: a set of edges that
/// holds every edge of the boundary of their sum.
pub fn reduced_convolution(a: &[Point], b: &[Point]) -> (edges: Vec<Conv>)
    requires
        a@.len() >= 1,
        b@.len() >= 1,
        polygon_in_range(a@),
        polygon_in_range(b@),
    ensures
        edges@ == convolution(a@, b@),
        edges_wf(edges@),
{
    let mut edges: Vec<Conv> = Vec::new();
    convolve(a, b, &mut edges, false);
    convolve(b, a, &mut edges, true);
    edges
}

} // verus!
