use vstd::prelude::*;
use crate::arrangement::{arc_count, arrivals, chain, edge_nodes, nodes_upto, rotation};
use crate::convolution::{
    compatible, conv_at, convolution, edges_wf, half, half_row, half_upto, incoming,
    lemma_convolution_members, lemma_convolution_wf, outgoing, polygon_in_range, wrap_next,
    wrap_prev, Conv, Vert,
};
use crate::crossing::{
    adjacent, crosses, crossing_den, crossing_num0, crossing_num1, crossing_ok, crossing_params,
    crossings, crossings_row, crossings_upto, lemma_crossing_params, lemma_crossings_ok,
    point_along, tip_point, RatPoint,
};
use crate::geometry::{lemma_product_within, Point, Vector, COORD_LIMIT};
use crate::loops::{countable, lemma_linked, loop_arcs, loops_of};
use crate::walk::lemma_traced_loops_contiguous;

verus! {

/// The point `p` moved by `d`.
pub open spec fn moved_point(p: Point, d: Vector) -> Point {
    Point { x: (p.x + d.x) as i64, y: (p.y + d.y) as i64 }
}

/// The polygon moved by `d`.
pub open spec fn moved_polygon(poly: Seq<Point>, d: Vector) -> Seq<Point> {
    poly.map_values(|p: Point| moved_point(p, d))
}

/// Moved by `d`, every vertex of the polygon is in the range of
/// coordinates.
pub open spec fn polygon_can_move(poly: Seq<Point>, d: Vector) -> bool {
    forall|k: int| 0 <= k < poly.len() ==> (#[trigger] poly[k])@.plus(d).within(COORD_LIMIT as int)
}

/// The edge moved by `d`: both ends move, the delta stays.
pub open spec fn moved_edge(e: Conv, d: Vector) -> Conv {
    Conv {
        p: Vert { i: e.p.i, j: e.p.j, z: moved_point(e.p.z, d) },
        q: Vert { i: e.q.i, j: e.q.j, z: moved_point(e.q.z, d) },
        v: e.v,
    }
}

/// The edges moved by `d`.
pub open spec fn moved_edges(edges: Seq<Conv>, d: Vector) -> Seq<Conv> {
    edges.map_values(|e: Conv| moved_edge(e, d))
}

/// Moved by `d`, the ends of the edge are still sums of two points in
/// range.
pub open spec fn edge_can_move(e: Conv, d: Vector) -> bool {
    e.p.z@.plus(d).within(2 * COORD_LIMIT) && e.q.z@.plus(d).within(2 * COORD_LIMIT)
}

/// Every edge can move by `d`.
pub open spec fn edges_can_move(edges: Seq<Conv>, d: Vector) -> bool {
    forall|n: int| 0 <= n < edges.len() ==> edge_can_move(#[trigger] edges[n], d)
}

/// The rational point moved by `d`.
pub open spec fn moved_rat(p: RatPoint, d: Vector) -> RatPoint {
    RatPoint { x: (p.x + d.x * p.d) as i128, y: (p.y + d.y * p.d) as i128, d: p.d }
}

/// A polygon that moves keeps the directions of its edges.
pub proof fn lemma_moved_directions(poly: Seq<Point>, d: Vector, k: int)
    requires
        polygon_can_move(poly, d),
        0 <= k < poly.len(),
    ensures
        incoming(moved_polygon(poly, d), k) == incoming(poly, k),
        outgoing(moved_polygon(poly, d), k) == outgoing(poly, k),
{
    let len = poly.len() as int;
    assert(poly[k]@.plus(d).within(COORD_LIMIT as int));
    assert(poly[wrap_prev(k, len)]@.plus(d).within(COORD_LIMIT as int));
    assert(poly[wrap_next(k, len)]@.plus(d).within(COORD_LIMIT as int));
}

/// Two polygons that move give an edge of the convolution where they gave
/// one before.
pub proof fn lemma_moved_compatible(
    a: Seq<Point>,
    b: Seq<Point>,
    s: Vector,
    t: Vector,
    i: int,
    j: int,
)
    requires
        polygon_can_move(a, s),
        polygon_can_move(b, t),
        0 <= i < a.len(),
        0 <= j < b.len(),
    ensures
        compatible(moved_polygon(a, s), moved_polygon(b, t), i, j) == compatible(a, b, i, j),
{
    lemma_moved_directions(a, s, i);
    lemma_moved_directions(b, t, j);
}

/// That edge is the edge they gave before, moved by the sum of the two
/// moves.
pub proof fn lemma_moved_conv_at(
    a: Seq<Point>,
    b: Seq<Point>,
    s: Vector,
    t: Vector,
    i: int,
    j: int,
    swapped: bool,
)
    requires
        polygon_in_range(a),
        polygon_in_range(b),
        polygon_can_move(a, s),
        polygon_can_move(b, t),
        0 <= i < a.len(),
        0 <= j < b.len(),
    ensures
        conv_at(moved_polygon(a, s), moved_polygon(b, t), i, j, swapped) == moved_edge(
            conv_at(a, b, i, j, swapped),
            s.plus(t),
        ),
{
    let j1 = wrap_next(j, b.len() as int);
    assert(a[i].in_range() && b[j].in_range() && b[j1].in_range());
    assert(a[i]@.plus(s).within(COORD_LIMIT as int));
    assert(b[j]@.plus(t).within(COORD_LIMIT as int));
    assert(b[j1]@.plus(t).within(COORD_LIMIT as int));
}

/// An edge of the convolution can move by the sum of two moves that the
/// polygons can make.
proof fn lemma_conv_at_can_move(
    a: Seq<Point>,
    b: Seq<Point>,
    s: Vector,
    t: Vector,
    i: int,
    j: int,
    swapped: bool,
)
    requires
        polygon_in_range(a),
        polygon_in_range(b),
        polygon_can_move(a, s),
        polygon_can_move(b, t),
        0 <= i < a.len(),
        0 <= j < b.len(),
    ensures
        edge_can_move(conv_at(a, b, i, j, swapped), s.plus(t)),
        edge_can_move(conv_at(a, b, i, j, swapped), t.plus(s)),
{
    let j1 = wrap_next(j, b.len() as int);
    assert(a[i].in_range() && b[j].in_range() && b[j1].in_range());
    assert(a[i]@.plus(s).within(COORD_LIMIT as int));
    assert(b[j]@.plus(t).within(COORD_LIMIT as int));
    assert(b[j1]@.plus(t).within(COORD_LIMIT as int));
}

/// A row of the convolution of the moved polygons is the row of the
/// polygons, moved.
proof fn lemma_moved_half_row(
    a: Seq<Point>,
    b: Seq<Point>,
    s: Vector,
    t: Vector,
    i: int,
    hi: int,
    swapped: bool,
)
    requires
        polygon_in_range(a),
        polygon_in_range(b),
        polygon_can_move(a, s),
        polygon_can_move(b, t),
        0 <= i < a.len(),
        hi <= b.len(),
    ensures
        half_row(moved_polygon(a, s), moved_polygon(b, t), i, hi, swapped) == moved_edges(
            half_row(a, b, i, hi, swapped),
            s.plus(t),
        ),
    decreases hi,
{
    let d = s.plus(t);
    if hi <= 0 {
        assert(moved_edges(Seq::<Conv>::empty(), d) =~= Seq::<Conv>::empty());
    } else {
        lemma_moved_half_row(a, b, s, t, i, hi - 1, swapped);
        lemma_moved_compatible(a, b, s, t, i, hi - 1);
        lemma_moved_conv_at(a, b, s, t, i, hi - 1, swapped);
        let rest = half_row(a, b, i, hi - 1, swapped);
        let e = conv_at(a, b, i, hi - 1, swapped);
        assert(moved_edges(rest.push(e), d) =~= moved_edges(rest, d).push(moved_edge(e, d)));
    }
}

/// The rows of the first vertices of the moved polygons are those of the
/// polygons, moved.
proof fn lemma_moved_half_upto(
    a: Seq<Point>,
    b: Seq<Point>,
    s: Vector,
    t: Vector,
    upto: int,
    swapped: bool,
)
    requires
        polygon_in_range(a),
        polygon_in_range(b),
        polygon_can_move(a, s),
        polygon_can_move(b, t),
        upto <= a.len(),
    ensures
        half_upto(moved_polygon(a, s), moved_polygon(b, t), upto, swapped) == moved_edges(
            half_upto(a, b, upto, swapped),
            s.plus(t),
        ),
    decreases upto,
{
    let d = s.plus(t);
    if upto <= 0 {
        assert(moved_edges(Seq::<Conv>::empty(), d) =~= Seq::<Conv>::empty());
    } else {
        lemma_moved_half_upto(a, b, s, t, upto - 1, swapped);
        lemma_moved_half_row(a, b, s, t, upto - 1, b.len() as int, swapped);
        let rest = half_upto(a, b, upto - 1, swapped);
        let row = half_row(a, b, upto - 1, b.len() as int, swapped);
        assert(moved_edges(rest + row, d) =~= moved_edges(rest, d) + moved_edges(row, d));
    }
}

/// Moving the first polygon by `s` and the second by `t` moves every edge
/// of their convolution by `s + t`. Which edges there are, their order and
/// the vertices that they join stay as they were.
pub proof fn lemma_convolution_moves(a: Seq<Point>, b: Seq<Point>, s: Vector, t: Vector)
    requires
        polygon_in_range(a),
        polygon_in_range(b),
        polygon_can_move(a, s),
        polygon_can_move(b, t),
    ensures
        convolution(moved_polygon(a, s), moved_polygon(b, t)) == moved_edges(
            convolution(a, b),
            s.plus(t),
        ),
{
    let d = s.plus(t);
    lemma_moved_half_upto(a, b, s, t, a.len() as int, false);
    lemma_moved_half_upto(b, a, t, s, b.len() as int, true);
    assert(t.plus(s) == d);
    assert(moved_edges(half(a, b, false) + half(b, a, true), d) =~= moved_edges(
        half(a, b, false),
        d,
    ) + moved_edges(half(b, a, true), d));
}

/// Two edges that move together cross where they crossed before, at the
/// same positions along them.
pub proof fn lemma_moved_crossing(e0: Conv, e1: Conv, d: Vector)
    requires
        e0.wf(),
        e1.wf(),
        edge_can_move(e0, d),
        edge_can_move(e1, d),
    ensures
        moved_edge(e0, d).wf(),
        adjacent(moved_edge(e0, d), moved_edge(e1, d)) == adjacent(e0, e1),
        crossing_den(moved_edge(e0, d), moved_edge(e1, d)) == crossing_den(e0, e1),
        crossing_num0(moved_edge(e0, d), moved_edge(e1, d)) == crossing_num0(e0, e1),
        crossing_num1(moved_edge(e0, d), moved_edge(e1, d)) == crossing_num1(e0, e1),
        crosses(moved_edge(e0, d), moved_edge(e1, d)) == crosses(e0, e1),
        crossing_params(moved_edge(e0, d), moved_edge(e1, d)) == crossing_params(e0, e1),
{
    assert(moved_edge(e1, d).p.z@.minus(moved_edge(e0, d).p.z@) == e1.p.z@.minus(e0.p.z@));
}

/// Moved edges have the crossings of the edges, row by row.
proof fn lemma_moved_crossings_row(edges: Seq<Conv>, d: Vector, m: int, hi: int)
    requires
        edges_wf(edges),
        edges_can_move(edges, d),
        0 <= m,
        hi <= edges.len(),
    ensures
        crossings_row(moved_edges(edges, d), m, hi) == crossings_row(edges, m, hi),
    decreases hi - m,
{
    if hi > m + 1 {
        lemma_moved_crossings_row(edges, d, m, hi - 1);
        lemma_moved_crossing(edges[m], edges[hi - 1], d);
    }
}

/// Moved edges have the crossings of the edges.
proof fn lemma_moved_crossings_upto(edges: Seq<Conv>, d: Vector, upto: int)
    requires
        edges_wf(edges),
        edges_can_move(edges, d),
        upto <= edges.len(),
    ensures
        crossings_upto(moved_edges(edges, d), upto) == crossings_upto(edges, upto),
    decreases upto,
{
    if upto > 0 {
        lemma_moved_crossings_upto(edges, d, upto - 1);
        lemma_moved_crossings_row(edges, d, upto - 1, edges.len() as int);
    }
}

/// Moved edges have the nodes of the edges.
proof fn lemma_moved_nodes_upto(edges: Seq<Conv>, d: Vector, upto: int)
    requires
        edges_wf(edges),
        edges_can_move(edges, d),
        upto <= edges.len(),
    ensures
        nodes_upto(moved_edges(edges, d), crossings(edges), upto) == nodes_upto(
            edges,
            crossings(edges),
            upto,
        ),
    decreases upto,
{
    if upto > 0 {
        let xs = crossings(edges);
        let e = upto - 1;
        lemma_moved_nodes_upto(edges, d, upto - 1);
        let c = chain(xs, edges.len() as int, e);
        assert(edge_nodes(moved_edges(edges, d)[e], e as usize, c) =~= edge_nodes(
            edges[e],
            e as usize,
            c,
        ));
    }
}

/// Edges that move together are cut into the same arcs, and the arcs stand
/// in the same order round each place.
pub proof fn lemma_arrangement_stays(edges: Seq<Conv>, d: Vector)
    requires
        edges_wf(edges),
        edges_can_move(edges, d),
    ensures
        edges_wf(moved_edges(edges, d)),
        crossings(moved_edges(edges, d)) == crossings(edges),
        rotation(moved_edges(edges, d), crossings(edges)) == rotation(edges, crossings(edges)),
        loop_arcs(moved_edges(edges, d)) == loop_arcs(edges),
{
    let moved = moved_edges(edges, d);
    assert forall|n: int| 0 <= n < moved.len() implies (#[trigger] moved[n]).wf() by {
        assert(edge_can_move(edges[n], d));
        lemma_moved_crossing(edges[n], edges[n], d);
    }
    lemma_moved_crossings_upto(edges, d, edges.len() as int);
    lemma_moved_nodes_upto(edges, d, edges.len() as int);
}

/// The point at a position along a moved edge is the point at that
/// position along the edge, moved.
pub proof fn lemma_moved_point_along(e: Conv, t: crate::crossing::Param, d: Vector)
    requires
        e.wf(),
        edge_can_move(e, d),
        t.wf(),
        t.den <= 0x8000_0000_0000_0000,
    ensures
        point_along(moved_edge(e, d), t) == moved_rat(point_along(e, t), d),
{
    let den = t.den as int;
    let num = t.num as int;
    lemma_product_within(e.p.z.x as int, den, 0x8000_0000, 0x8000_0000_0000_0000);
    lemma_product_within(e.p.z.y as int, den, 0x8000_0000, 0x8000_0000_0000_0000);
    lemma_product_within(num, e.v.x as int, 0x8000_0000_0000_0000, 0x8000_0000);
    lemma_product_within(num, e.v.y as int, 0x8000_0000_0000_0000, 0x8000_0000);
    lemma_product_within(e.p.z.x + d.x, den, 0x8000_0000, 0x8000_0000_0000_0000);
    lemma_product_within(e.p.z.y + d.y, den, 0x8000_0000, 0x8000_0000_0000_0000);
    assert((e.p.z.x + d.x) * den == e.p.z.x * den + d.x * den) by (nonlinear_arith);
    assert((e.p.z.y + d.y) * den == e.p.z.y * den + d.y * den) by (nonlinear_arith);
}

/// The arcs of moved edges end in the points in which they ended before,
/// moved.
pub proof fn lemma_moved_tip_point(edges: Seq<Conv>, d: Vector, n: int)
    requires
        edges_wf(edges),
        edges_can_move(edges, d),
        edges.len() <= usize::MAX,
        0 <= n < arc_count(edges, crossings(edges)),
    ensures
        tip_point(moved_edges(edges, d), crossings(edges), n) == moved_rat(
            tip_point(edges, crossings(edges), n),
            d,
        ),
{
    let xs = crossings(edges);
    if n < edges.len() {
        assert(edge_can_move(edges[n], d));
        assert(edges[n].wf());
    } else {
        let c = xs[(n - edges.len()) / 2];
        lemma_crossings_ok(edges, edges.len() as int);
        assert(crossing_ok(edges, c));
        lemma_crossing_params(edges[c.m as int], edges[c.n as int]);
        assert(edge_can_move(edges[c.m as int], d));
        lemma_moved_point_along(edges[c.m as int], c.t_m, d);
    }
}

/// Moving all edges by one vector moves every point of every loop by that
/// vector. The loops themselves stay: there are as many, each of the same
/// arcs in the same order.
pub proof fn lemma_loops_move(edges: Seq<Conv>, d: Vector)
    requires
        edges_wf(edges),
        edges_can_move(edges, d),
        countable(edges),
    ensures
        loop_arcs(moved_edges(edges, d)) == loop_arcs(edges),
        loops_of(moved_edges(edges, d)) == loops_of(edges).map_values(
            |points: Seq<RatPoint>| points.map_values(|p: RatPoint| moved_rat(p, d)),
        ),
{
    let moved = moved_edges(edges, d);
    let xs = crossings(edges);
    lemma_arrangement_stays(edges, d);
    lemma_linked(edges);
    let nodes = rotation(edges, xs);
    lemma_traced_loops_contiguous(nodes, arrivals(nodes, arc_count(edges, xs)));
    let arcs = loop_arcs(edges);
    let target = loops_of(edges).map_values(
        |points: Seq<RatPoint>| points.map_values(|p: RatPoint| moved_rat(p, d)),
    );
    assert(loops_of(moved).len() == target.len());
    assert forall|l: int| 0 <= l < arcs.len() implies loops_of(moved)[l] == target[l] by {
        assert(loops_of(moved)[l].len() == target[l].len());
        assert forall|i: int| 0 <= i < arcs[l].len() implies loops_of(moved)[l][i]
            == target[l][i] by {
            assert(arcs[l][i] < arc_count(edges, xs));
            lemma_moved_tip_point(edges, d, arcs[l][i] as int);
        }
        assert(loops_of(moved)[l] =~= target[l]);
    }
    assert(loops_of(moved) =~= target);
}

/// Moving the first polygon by `s` and the second by `t` moves every point
/// of every loop of their sum by `s + t`, and leaves the loops as they
/// were but for that.
pub proof fn lemma_sum_moves(a: Seq<Point>, b: Seq<Point>, s: Vector, t: Vector)
    requires
        polygon_in_range(a),
        polygon_in_range(b),
        polygon_can_move(a, s),
        polygon_can_move(b, t),
        countable(convolution(a, b)),
    ensures
        loop_arcs(convolution(moved_polygon(a, s), moved_polygon(b, t))) == loop_arcs(
            convolution(a, b),
        ),
        loops_of(convolution(moved_polygon(a, s), moved_polygon(b, t))) == loops_of(
            convolution(a, b),
        ).map_values(
            |points: Seq<RatPoint>| points.map_values(|p: RatPoint| moved_rat(p, s.plus(t))),
        ),
{
    let d = s.plus(t);
    let edges = convolution(a, b);
    let a1 = moved_polygon(a, s);
    let b1 = moved_polygon(b, t);
    lemma_convolution_moves(a, b, s, t);
    lemma_convolution_wf(a, b);
    assert(polygon_in_range(a1)) by {
        assert forall|k: int| 0 <= k < a1.len() implies (#[trigger] a1[k]).in_range() by {
            assert(a[k]@.plus(s).within(COORD_LIMIT as int));
        }
    }
    assert(polygon_in_range(b1)) by {
        assert forall|k: int| 0 <= k < b1.len() implies (#[trigger] b1[k]).in_range() by {
            assert(b[k]@.plus(t).within(COORD_LIMIT as int));
        }
    }
    lemma_convolution_wf(a1, b1);
    assert(edges_can_move(edges, d)) by {
        assert forall|n: int| 0 <= n < edges.len() implies edge_can_move(#[trigger] edges[n], d) by {
            let x = edges[n];
            assert(edges.contains(x));
            lemma_convolution_members(a, b, x);
            if exists|i: int, j: int|
                0 <= i < a.len() && 0 <= j < b.len() && compatible(a, b, i, j) && x
                    == #[trigger] conv_at(a, b, i, j, false) {
                let (i, j) = choose|i: int, j: int|
                    0 <= i < a.len() && 0 <= j < b.len() && compatible(a, b, i, j) && x
                        == #[trigger] conv_at(a, b, i, j, false);
                lemma_conv_at_can_move(a, b, s, t, i, j, false);
            } else {
                let (j, i) = choose|j: int, i: int|
                    0 <= j < b.len() && 0 <= i < a.len() && compatible(b, a, j, i) && x
                        == #[trigger] conv_at(b, a, j, i, true);
                lemma_conv_at_can_move(b, a, t, s, j, i, true);
            }
        }
    }
    lemma_loops_move(edges, d);
}

} // verus!
