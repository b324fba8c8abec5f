use vstd::prelude::*;
use crate::angle::{direction_before, direction_same, lemma_direction_order};
use crate::convolution::{
    compatible, conv_at, convolution, half, half_row, half_upto, incoming, lemma_conv_at_wf,
    lemma_convolution_members, outgoing, polygon_in_range, wrap_next, wrap_prev, Conv,
};
use crate::crossing::{
    crosses, crossing_den, crossing_num0, crossing_num1, crossings, crossings_row,
    crossings_upto, intersects,
};
use crate::cyclic::{lemma_rotated_directions, rotated, rotated_index, unrotated_index};
use crate::geometry::{
    cross, lemma_cross_additive, lemma_cross_chain, lemma_cross_chain_x, lemma_cross_negated,
    lemma_cross_swap, lemma_sign_of_product, pos_cross, Point, Vector,
};

verus! {

/// `v` lies in the cone from `x` round to `y`, counter-clockwise, the two
/// rays included.
pub open spec fn in_cone(x: Vector, y: Vector, v: Vector) -> bool {
    pos_cross(x, v) && pos_cross(v, y)
}

/// The sign of the product `p * q` is the product of the signs.
pub open spec fn sign_rule(p: int, q: int) -> bool {
    &&& (p > 0 && q > 0 ==> p * q > 0)
    &&& (p < 0 && q < 0 ==> p * q > 0)
    &&& (p > 0 && q < 0 ==> p * q < 0)
    &&& (p < 0 && q > 0 ==> p * q < 0)
    &&& (p == 0 || q == 0 ==> p * q == 0)
}

/// What ties the cross products of three vectors to each other and to the
/// signs of their coordinates: the two identities, and the sign of every
/// product in them and in the cross products themselves.
pub proof fn lemma_three_vectors(x: Vector, y: Vector, v: Vector)
    ensures
        cross(x, y) * v.y == cross(x, v) * y.y + cross(v, y) * x.y,
        cross(x, y) * v.x == cross(x, v) * y.x + cross(v, y) * x.x,
        sign_rule(cross(x, y), v.y),
        sign_rule(cross(x, v), y.y),
        sign_rule(cross(v, y), x.y),
        sign_rule(cross(x, y), v.x),
        sign_rule(cross(x, v), y.x),
        sign_rule(cross(v, y), x.x),
        sign_rule(x.x, v.y),
        sign_rule(v.x, x.y),
        sign_rule(v.x, y.y),
        sign_rule(y.x, v.y),
        sign_rule(x.x, y.y),
        sign_rule(y.x, x.y),
{
    lemma_cross_chain(x, v, y);
    lemma_cross_chain_x(x, v, y);
    lemma_sign_of_product(cross(x, y), v.y);
    lemma_sign_of_product(cross(x, v), y.y);
    lemma_sign_of_product(cross(v, y), x.y);
    lemma_sign_of_product(cross(x, y), v.x);
    lemma_sign_of_product(cross(x, v), y.x);
    lemma_sign_of_product(cross(v, y), x.x);
    lemma_sign_of_product(x.x, v.y);
    lemma_sign_of_product(v.x, x.y);
    lemma_sign_of_product(v.x, y.y);
    lemma_sign_of_product(y.x, v.y);
    lemma_sign_of_product(x.x, y.y);
    lemma_sign_of_product(y.x, x.y);
}

/// In a cone that opens by less than a half turn and does not hold the
/// ray of the half turn, the vectors are those that come neither before
/// its first ray nor behind its second in the angle order.
pub proof fn lemma_cone_between(x: Vector, y: Vector, v: Vector)
    requires
        direction_before(x, y),
        cross(x, y) > 0,
        v.x != 0 || v.y != 0,
    ensures
        in_cone(x, y, v) <==> !direction_before(v, x) && !direction_before(y, v),
{
    lemma_three_vectors(x, y, v);
}

/// In a cone that opens by less than a half turn and holds the ray of the
/// half turn, the vectors are those that do not come before its first ray,
/// and those that do not come behind its second.
pub proof fn lemma_cone_around(x: Vector, y: Vector, v: Vector)
    requires
        direction_before(y, x),
        cross(x, y) > 0,
        v.x != 0 || v.y != 0,
    ensures
        in_cone(x, y, v) <==> !direction_before(v, x) || !direction_before(y, v),
{
    lemma_three_vectors(x, y, v);
}

/// Direction of edge number `k` of the polygon, the edges counted from
/// vertex `s`.
pub open spec fn turned(poly: Seq<Point>, s: int, k: int) -> Vector {
    outgoing(rotated(poly, s), k)
}

/// Counted from vertex `s`, edge `k + 1` comes behind edge `k` in the
/// angle order.
pub open spec fn rises_at(poly: Seq<Point>, s: int, k: int) -> bool {
    direction_before(turned(poly, s, k), turned(poly, s, k + 1))
}

/// The polygon turns left in every vertex, and its edges, counted from
/// vertex `s`, rise in the angle order: it turns round once.
pub open spec fn convex_from(poly: Seq<Point>, s: int) -> bool {
    &&& poly.len() >= 3
    &&& 0 <= s < poly.len()
    &&& forall|i: int|
        0 <= i < poly.len() ==> cross(incoming(poly, i), #[trigger] outgoing(poly, i)) > 0
    &&& forall|k: int| 0 <= k < poly.len() - 1 ==> #[trigger] rises_at(poly, s, k)
}

/// The polygon is strictly convex and runs counter-clockwise.
pub open spec fn strictly_convex(poly: Seq<Point>) -> bool {
    exists|s: int| convex_from(poly, s)
}

/// No edge of the one polygon points the same way as an edge of the other.
pub open spec fn share_no_direction(a: Seq<Point>, b: Seq<Point>) -> bool {
    forall|i: int, j: int|
        0 <= i < a.len() && 0 <= j < b.len() ==> !direction_same(
            #[trigger] outgoing(a, i),
            #[trigger] outgoing(b, j),
        )
}

/// A strictly convex polygon turns left in every vertex, and none of its
/// edges is zero.
pub proof fn lemma_turns_left(poly: Seq<Point>, i: int)
    requires
        strictly_convex(poly),
        0 <= i < poly.len(),
    ensures
        cross(incoming(poly, i), outgoing(poly, i)) > 0,
        outgoing(poly, i).x != 0 || outgoing(poly, i).y != 0,
{
    let s = choose|s: int| convex_from(poly, s);
    assert(cross(incoming(poly, i), outgoing(poly, i)) > 0);
    lemma_sign_of_product(incoming(poly, i).x, outgoing(poly, i).y);
    lemma_sign_of_product(outgoing(poly, i).x, incoming(poly, i).y);
}

/// `v` lies in the cone between the two edges that meet in vertex `k`.
pub open spec fn cone_at(poly: Seq<Point>, k: int, v: Vector) -> bool {
    in_cone(incoming(poly, k), outgoing(poly, k), v)
}

/// Counted from `s`, an earlier edge comes before a later one in the angle
/// order.
proof fn lemma_turned_sorted(poly: Seq<Point>, s: int, k1: int, k2: int)
    requires
        convex_from(poly, s),
        0 <= k1 < k2 < poly.len(),
    ensures
        direction_before(turned(poly, s, k1), turned(poly, s, k2)),
    decreases k2 - k1,
{
    assert(rises_at(poly, s, k2 - 1));
    if k1 < k2 - 1 {
        lemma_turned_sorted(poly, s, k1, k2 - 1);
        lemma_direction_order(turned(poly, s, k1), turned(poly, s, k2 - 1), turned(poly, s, k2));
    }
}

/// How many of the first `hi` edges, counted from `s`, come before `v` in
/// the angle order.
pub open spec fn rank_in(poly: Seq<Point>, s: int, v: Vector, hi: int) -> int
    decreases hi,
{
    if hi <= 0 {
        0
    } else {
        rank_in(poly, s, v, hi - 1) + if direction_before(turned(poly, s, hi - 1), v) {
            1int
        } else {
            0int
        }
    }
}

/// The edges that come before `v` are the first ones: as many as
/// [`rank_in`] counts, and none of the others.
proof fn lemma_rank(poly: Seq<Point>, s: int, v: Vector, hi: int)
    requires
        convex_from(poly, s),
        0 <= hi <= poly.len(),
    ensures
        0 <= rank_in(poly, s, v, hi) <= hi,
        forall|k: int|
            0 <= k < rank_in(poly, s, v, hi) ==> direction_before(#[trigger] turned(poly, s, k), v),
        forall|k: int|
            rank_in(poly, s, v, hi) <= k < hi ==> !direction_before(
                #[trigger] turned(poly, s, k),
                v,
            ),
    decreases hi,
{
    if hi > 0 {
        lemma_rank(poly, s, v, hi - 1);
        let p = rank_in(poly, s, v, hi - 1);
        if p < hi - 1 {
            lemma_turned_sorted(poly, s, p, hi - 1);
            lemma_direction_order(turned(poly, s, p), turned(poly, s, hi - 1), v);
        }
    }
}

/// The place of a number of edges that come before a vector among the
/// vertices counted from `s`: the vertex with that number, or the first
/// if all edges come before the vector.
pub open spec fn slot_of(rank: int, len: int) -> int {
    if rank >= len {
        0
    } else {
        rank
    }
}

/// The edges that meet in a vertex of the polygon counted from `s`.
proof fn lemma_turned_vertex(poly: Seq<Point>, s: int, k: int)
    requires
        convex_from(poly, s),
        0 <= k < poly.len(),
    ensures
        outgoing(rotated(poly, s), k) == turned(poly, s, k),
        incoming(rotated(poly, s), k) == turned(poly, s, wrap_prev(k, poly.len() as int)),
        cross(incoming(rotated(poly, s), k), outgoing(rotated(poly, s), k)) > 0,
        turned(poly, s, k) == outgoing(poly, unrotated_index(k, s, poly.len() as int)),
{
    let n = poly.len() as int;
    lemma_rotated_directions(poly, s, k);
    lemma_rotated_directions(poly, s, wrap_prev(k, n));
    assert(wrap_next(wrap_prev(k, n), n) == k);
    let i = unrotated_index(k, s, n);
    assert(cross(incoming(poly, i), outgoing(poly, i)) > 0);
}

/// In a strictly convex polygon, a vector that is not zero and points the
/// way of no edge lies in the cone of exactly one vertex.
proof fn lemma_one_cone(poly: Seq<Point>, s: int, v: Vector) -> (owner: int)
    requires
        convex_from(poly, s),
        v.x != 0 || v.y != 0,
        forall|i: int| 0 <= i < poly.len() ==> !direction_same(#[trigger] outgoing(poly, i), v),
    ensures
        0 <= owner < poly.len(),
        forall|i: int| 0 <= i < poly.len() ==> (#[trigger] cone_at(poly, i, v) <==> i == owner),
        rotated_index(owner, s, poly.len() as int) == slot_of(
            rank_in(poly, s, v, poly.len() as int),
            poly.len() as int,
        ),
{
    let n = poly.len() as int;
    lemma_rank(poly, s, v, n);
    let p = rank_in(poly, s, v, n);
    let slot = slot_of(p, n);
    let turned_poly = rotated(poly, s);
    assert forall|k: int| 0 <= k < n implies (cone_at(turned_poly, k, v) <==> k == slot) by {
        lemma_turned_vertex(poly, s, k);
        let x = incoming(turned_poly, k);
        let y = outgoing(turned_poly, k);
        let kp = wrap_prev(k, n);
        lemma_turned_vertex(poly, s, kp);
        assert(!direction_same(outgoing(poly, unrotated_index(k, s, n)), v));
        assert(!direction_same(outgoing(poly, unrotated_index(kp, s, n)), v));
        lemma_direction_order(x, y, v);
        lemma_direction_order(v, x, y);
        if k == 0 {
            lemma_turned_sorted(poly, s, 0, n - 1);
            lemma_cone_around(x, y, v);
        } else {
            assert(rises_at(poly, s, k - 1));
            lemma_cone_between(x, y, v);
        }
    }
    let owner = unrotated_index(slot, s, n);
    assert forall|i: int| 0 <= i < n implies (#[trigger] cone_at(poly, i, v) <==> i == owner) by {
        let k = rotated_index(i, s, n);
        lemma_rotated_directions(poly, s, k);
        assert(unrotated_index(k, s, n) == i);
        assert(cone_at(turned_poly, k, v) <==> k == slot);
    }
    owner
}

/// The vertex of the polygon in whose cone `v` lies.
pub open spec fn cone_owner(poly: Seq<Point>, v: Vector) -> int {
    choose|i: int| 0 <= i < poly.len() && cone_at(poly, i, v)
}

/// Vertex `i` of the strictly convex polygon `a` is compatible with an
/// edge of the strictly convex polygon `b` exactly if the edge lies in its
/// cone, and each edge lies in the cone of one vertex.
proof fn lemma_compatible_owner(a: Seq<Point>, b: Seq<Point>, j: int)
    requires
        strictly_convex(a),
        strictly_convex(b),
        share_no_direction(a, b),
        0 <= j < b.len(),
    ensures
        0 <= cone_owner(a, outgoing(b, j)) < a.len(),
        forall|i: int|
            0 <= i < a.len() ==> (#[trigger] compatible(a, b, i, j) <==> i == cone_owner(
                a,
                outgoing(b, j),
            )),
{
    let s = choose|s: int| convex_from(a, s);
    let v = outgoing(b, j);
    lemma_turns_left(b, j);
    assert forall|i: int| 0 <= i < a.len() implies !direction_same(
        #[trigger] outgoing(a, i),
        v,
    ) by {
        assert(!direction_same(outgoing(a, i), outgoing(b, j)));
    }
    let owner = lemma_one_cone(a, s, v);
    assert(cone_at(a, owner, v));
    assert forall|i: int| 0 <= i < a.len() implies (#[trigger] compatible(a, b, i, j) <==> i
        == cone_owner(a, v)) by {
        assert(cone_at(a, i, v) <==> i == owner);
        assert(cross(incoming(a, i), outgoing(a, i)) > 0);
    }
}

/// Number of edges in the rows of the vertices `0 .. upto`, each row taken
/// up to edge `hi`.
pub open spec fn rows_len(a: Seq<Point>, b: Seq<Point>, upto: int, hi: int, swapped: bool) -> int
    decreases upto,
{
    if upto <= 0 {
        0
    } else {
        rows_len(a, b, upto - 1, hi, swapped) + half_row(a, b, upto - 1, hi, swapped).len()
    }
}

/// The edges of the first `upto` vertices are those of their rows.
proof fn lemma_half_upto_len(a: Seq<Point>, b: Seq<Point>, upto: int, swapped: bool)
    ensures
        half_upto(a, b, upto, swapped).len() == rows_len(a, b, upto, b.len() as int, swapped),
    decreases upto,
{
    if upto > 0 {
        lemma_half_upto_len(a, b, upto - 1, swapped);
    }
}

/// One more edge makes the rows longer by one if the vertex with which it
/// is compatible is among them.
proof fn lemma_rows_grow(
    a: Seq<Point>,
    b: Seq<Point>,
    upto: int,
    hi: int,
    swapped: bool,
    owner: int,
)
    requires
        0 <= upto <= a.len(),
        0 <= hi,
        forall|i: int| 0 <= i < a.len() ==> (#[trigger] compatible(a, b, i, hi) <==> i == owner),
    ensures
        rows_len(a, b, upto, hi + 1, swapped) == rows_len(a, b, upto, hi, swapped) + if 0 <= owner
            < upto {
            1int
        } else {
            0int
        },
    decreases upto,
{
    if upto > 0 {
        lemma_rows_grow(a, b, upto - 1, hi, swapped, owner);
        assert(compatible(a, b, upto - 1, hi) <==> upto - 1 == owner);
    }
}

/// Rows taken up to no edge hold no edge.
proof fn lemma_rows_empty(a: Seq<Point>, b: Seq<Point>, upto: int, swapped: bool)
    ensures
        rows_len(a, b, upto, 0, swapped) == 0,
    decreases upto,
{
    if upto > 0 {
        lemma_rows_empty(a, b, upto - 1, swapped);
    }
}

/// The rows of all vertices of `a`, each taken up to edge `hi` of `b`,
/// hold `hi` edges: one for each edge of `b`.
proof fn lemma_rows_total(a: Seq<Point>, b: Seq<Point>, hi: int, swapped: bool)
    requires
        strictly_convex(a),
        strictly_convex(b),
        share_no_direction(a, b),
        0 <= hi <= b.len(),
    ensures
        rows_len(a, b, a.len() as int, hi, swapped) == hi,
    decreases hi,
{
    if hi == 0 {
        lemma_rows_empty(a, b, a.len() as int, swapped);
    } else {
        lemma_rows_total(a, b, hi - 1, swapped);
        lemma_compatible_owner(a, b, hi - 1);
        lemma_rows_grow(
            a,
            b,
            a.len() as int,
            hi - 1,
            swapped,
            cone_owner(a, outgoing(b, hi - 1)),
        );
    }
}

/// Sharing no direction does not depend on which polygon is named first.
pub proof fn lemma_share_no_direction_symmetric(a: Seq<Point>, b: Seq<Point>)
    requires
        share_no_direction(a, b),
    ensures
        share_no_direction(b, a),
{
    assert forall|j: int, i: int| 0 <= j < b.len() && 0 <= i < a.len() implies !direction_same(
        #[trigger] outgoing(b, j),
        #[trigger] outgoing(a, i),
    ) by {
        assert(!direction_same(outgoing(a, i), outgoing(b, j)));
    }
}

/// The reduced convolution of two strictly convex polygons that share no
/// direction has as many edges as the two polygons together: each edge of
/// either polygon once, at the one vertex of the other in whose cone it
/// lies.
pub proof fn lemma_convex_edge_count(a: Seq<Point>, b: Seq<Point>)
    requires
        strictly_convex(a),
        strictly_convex(b),
        share_no_direction(a, b),
    ensures
        convolution(a, b).len() == a.len() + b.len(),
{
    lemma_share_no_direction_symmetric(a, b);
    lemma_half_upto_len(a, b, a.len() as int, false);
    lemma_rows_total(a, b, b.len() as int, false);
    lemma_half_upto_len(b, a, b.len() as int, true);
    lemma_rows_total(b, a, a.len() as int, true);
}

/// Sweeping counter-clockwise from `v`, a ray at which the cross product
/// with `v` is negative is followed by rays at which it is not positive.
/// The sweep meets first the rays that do not come before `v` in the angle
/// order, in that order, then those that do not come behind it.
proof fn lemma_sweep(v: Vector, x: Vector, y: Vector)
    requires
        cross(v, x) < 0,
        (!direction_before(x, v) && direction_before(x, y)) || (!direction_before(x, v)
            && !direction_before(v, y)) || (!direction_before(v, y) && direction_before(x, y)),
    ensures
        cross(v, y) <= 0,
{
    lemma_three_vectors(v, y, x);
    lemma_three_vectors(v, x, y);
    lemma_three_vectors(x, y, v);
    lemma_cross_swap(v, x);
    lemma_cross_swap(v, y);
    lemma_cross_swap(x, y);
}

/// Counted from `s`, the first edge does not come behind a later one, nor
/// the last before an earlier one.
proof fn lemma_turned_bounds(poly: Seq<Point>, s: int, v: Vector, k: int)
    requires
        convex_from(poly, s),
        0 <= k < poly.len(),
    ensures
        !direction_before(turned(poly, s, 0), v) ==> !direction_before(turned(poly, s, k), v),
        !direction_before(v, turned(poly, s, poly.len() - 1)) ==> !direction_before(
            v,
            turned(poly, s, k),
        ),
{
    let n = poly.len() as int;
    if k > 0 {
        lemma_turned_sorted(poly, s, 0, k);
        lemma_direction_order(turned(poly, s, 0), turned(poly, s, k), v);
    }
    if k < n - 1 {
        lemma_turned_sorted(poly, s, k, n - 1);
        lemma_direction_order(v, turned(poly, s, k), turned(poly, s, n - 1));
    }
}

/// Edge number `t` counted from vertex `i` is edge number
/// `turned_index(..)` counted from `s`.
pub open spec fn turned_index(t: int, i: int, s: int, len: int) -> int {
    rotated_index(unrotated_index(t, i, len), s, len)
}

/// Edge `t` counted from vertex `i` is an edge counted from `s`, and the
/// first vertex counted from `i` is vertex `i`.
proof fn lemma_turned_index(poly: Seq<Point>, s: int, i: int, t: int)
    requires
        convex_from(poly, s),
        0 <= i < poly.len(),
        0 <= t < poly.len(),
    ensures
        0 <= turned_index(t, i, s, poly.len() as int) < poly.len(),
        outgoing(rotated(poly, i), t) == turned(
            poly,
            s,
            turned_index(t, i, s, poly.len() as int),
        ),
        incoming(rotated(poly, i), 0) == incoming(poly, i),
        outgoing(rotated(poly, i), 0) == outgoing(poly, i),
{
    let n = poly.len() as int;
    lemma_rotated_directions(poly, i, t);
    lemma_rotated_directions(poly, i, 0);
    lemma_turned_vertex(poly, s, turned_index(t, i, s, n));
}

/// Sweeping counter-clockwise from a vector in the cone of vertex `i`, the
/// edges are met in their order round the polygon, counted from `i`.
proof fn lemma_sweep_order(poly: Seq<Point>, s: int, i: int, v: Vector, t: int, u: int)
    requires
        convex_from(poly, s),
        0 <= i < poly.len(),
        cone_at(poly, i, v),
        v.x != 0 || v.y != 0,
        0 <= t < u < poly.len(),
    ensures
        ({
            let x = outgoing(rotated(poly, i), t);
            let y = outgoing(rotated(poly, i), u);
            (!direction_before(x, v) && direction_before(x, y)) || (!direction_before(x, v)
                && !direction_before(v, y)) || (!direction_before(v, y) && direction_before(x, y))
        }),
{
    let n = poly.len() as int;
    let c = rotated_index(i, s, n);
    let kt = turned_index(t, i, s, n);
    let ku = turned_index(u, i, s, n);
    lemma_turned_index(poly, s, i, t);
    lemma_turned_index(poly, s, i, u);
    lemma_turned_vertex(poly, s, c);
    assert(unrotated_index(c, s, n) == i);
    lemma_rotated_directions(poly, s, c);
    let first = turned(poly, s, 0);
    let last = turned(poly, s, n - 1);
    lemma_turned_bounds(poly, s, v, kt);
    lemma_turned_bounds(poly, s, v, ku);
    if c == 0 {
        lemma_turned_sorted(poly, s, 0, n - 1);
        lemma_cone_around(last, first, v);
        assert(kt == t && ku == u);
        lemma_turned_sorted(poly, s, kt, ku);
    } else {
        assert(rises_at(poly, s, c - 1));
        let lo = turned(poly, s, c - 1);
        let hi = turned(poly, s, c);
        lemma_cone_between(lo, hi, v);
        if c + u < n {
            lemma_turned_sorted(poly, s, kt, ku);
            if kt > c {
                lemma_turned_sorted(poly, s, c, kt);
                lemma_direction_order(hi, turned(poly, s, kt), v);
            }
        } else if c + t >= n {
            lemma_turned_sorted(poly, s, kt, ku);
            if ku < c - 1 {
                lemma_turned_sorted(poly, s, ku, c - 1);
                lemma_direction_order(v, turned(poly, s, ku), lo);
            }
        } else {
            if kt > c {
                lemma_turned_sorted(poly, s, c, kt);
                lemma_direction_order(hi, turned(poly, s, kt), v);
            }
            if ku < c - 1 {
                lemma_turned_sorted(poly, s, ku, c - 1);
                lemma_direction_order(v, turned(poly, s, ku), lo);
            }
        }
    }
}

/// From vertex `i` of the polygon to the vertex `t` steps on; zero after a
/// full round.
pub open spec fn offset(poly: Seq<Point>, i: int, t: int) -> Vector {
    if t >= poly.len() {
        Vector { x: 0, y: 0 }
    } else {
        rotated(poly, i)[t]@.minus(rotated(poly, i)[0]@)
    }
}

/// One step more adds the edge that is walked.
proof fn lemma_offset_step(poly: Seq<Point>, i: int, t: int)
    requires
        0 <= i < poly.len(),
        0 <= t < poly.len(),
    ensures
        offset(poly, i, t + 1) == offset(poly, i, t).plus(outgoing(rotated(poly, i), t)),
{
    lemma_rotated_directions(poly, i, t);
}

/// While every edge walked so far turns left of `v` or runs along it, the
/// vertex reached lies to the left of `v` or on its line.
proof fn lemma_support_forward(poly: Seq<Point>, i: int, v: Vector, t: int)
    requires
        0 <= i < poly.len(),
        0 <= t <= poly.len(),
        forall|u: int| 0 <= u < t ==> cross(v, #[trigger] outgoing(rotated(poly, i), u)) >= 0,
    ensures
        cross(v, offset(poly, i, t)) >= 0,
    decreases t,
{
    if t == 0 {
        lemma_sign_of_product(v.x, 0);
        lemma_sign_of_product(0, v.y);
    } else {
        lemma_support_forward(poly, i, v, t - 1);
        lemma_offset_step(poly, i, t - 1);
        lemma_cross_additive(v, offset(poly, i, t - 1), outgoing(rotated(poly, i), t - 1));
    }
}

/// Where every edge still to walk turns right of `v` or runs along it,
/// the vertex reached lies to the left of `v` or on its line: the walk ends
/// where it began.
proof fn lemma_support_backward(poly: Seq<Point>, i: int, v: Vector, t: int)
    requires
        0 <= i < poly.len(),
        0 <= t <= poly.len(),
        forall|u: int|
            t <= u < poly.len() ==> cross(v, #[trigger] outgoing(rotated(poly, i), u)) <= 0,
    ensures
        cross(v, offset(poly, i, t)) >= 0,
    decreases poly.len() - t,
{
    if t == poly.len() {
        lemma_sign_of_product(v.x, 0);
        lemma_sign_of_product(0, v.y);
    } else {
        lemma_support_backward(poly, i, v, t + 1);
        lemma_offset_step(poly, i, t);
        lemma_cross_additive(v, offset(poly, i, t), outgoing(rotated(poly, i), t));
    }
}

/// A strictly convex polygon lies to the left of every line through one of
/// its vertices whose direction lies in the cone of that vertex: the vertex
/// is the last of the polygon to the right of that direction.
pub proof fn lemma_support(poly: Seq<Point>, i: int, v: Vector, k: int)
    requires
        strictly_convex(poly),
        0 <= i < poly.len(),
        0 <= k < poly.len(),
        cone_at(poly, i, v),
    ensures
        cross(v, poly[k]@.minus(poly[i]@)) >= 0,
{
    let n = poly.len() as int;
    let s = choose|s: int| convex_from(poly, s);
    let t = rotated_index(k, i, n);
    lemma_rotated_directions(poly, i, t);
    lemma_rotated_directions(poly, i, 0);
    assert(unrotated_index(t, i, n) == k);
    assert(offset(poly, i, t) == poly[k]@.minus(poly[i]@));
    if v.x == 0 && v.y == 0 {
        lemma_sign_of_product(v.x, offset(poly, i, t).y);
        lemma_sign_of_product(offset(poly, i, t).x, v.y);
    } else if forall|u: int| 0 <= u < t ==> cross(v, #[trigger] outgoing(rotated(poly, i), u)) >= 0 {
        lemma_support_forward(poly, i, v, t);
    } else {
        let u0 = choose|u0: int|
            0 <= u0 < t && !(cross(v, #[trigger] outgoing(rotated(poly, i), u0)) >= 0);
        assert forall|u: int| t <= u < n implies cross(
            v,
            #[trigger] outgoing(rotated(poly, i), u),
        ) <= 0 by {
            lemma_sweep_order(poly, s, i, v, u0, u);
            lemma_sweep(v, outgoing(rotated(poly, i), u0), outgoing(rotated(poly, i), u));
        }
        lemma_support_backward(poly, i, v, t);
    }
}

/// The sum of every pair of vertices lies to the left of `e`, or on its
/// line.
pub open spec fn supports(a: Seq<Point>, b: Seq<Point>, e: Conv) -> bool {
    forall|k: int, l: int|
        0 <= k < a.len() && 0 <= l < b.len() ==> cross(
            e.v@,
            (#[trigger] a[k])@.plus((#[trigger] b[l])@).minus(e.p.z@),
        ) >= 0
}

/// Both ends of the edge are sums of a vertex of each polygon.
pub open spec fn joins_sums(a: Seq<Point>, b: Seq<Point>, e: Conv) -> bool {
    &&& exists|k: int, l: int|
        0 <= k < a.len() && 0 <= l < b.len() && e.p.z@ == (#[trigger] a[k])@.plus(
            (#[trigger] b[l])@,
        )
    &&& exists|k: int, l: int|
        0 <= k < a.len() && 0 <= l < b.len() && e.q.z@ == (#[trigger] a[k])@.plus(
            (#[trigger] b[l])@,
        )
}

/// An edge of the convolution of two strictly convex polygons has the sum
/// of the polygons to its left, and joins two sums of vertices.
proof fn lemma_conv_at_supports(a: Seq<Point>, b: Seq<Point>, i: int, j: int, swapped: bool)
    requires
        strictly_convex(a),
        strictly_convex(b),
        polygon_in_range(a),
        polygon_in_range(b),
        0 <= i < a.len(),
        0 <= j < b.len(),
        compatible(a, b, i, j),
    ensures
        supports(a, b, conv_at(a, b, i, j, swapped)),
        supports(b, a, conv_at(a, b, i, j, swapped)),
        joins_sums(a, b, conv_at(a, b, i, j, swapped)),
        joins_sums(b, a, conv_at(a, b, i, j, swapped)),
        conv_at(a, b, i, j, swapped).wf(),
{
    let e = conv_at(a, b, i, j, swapped);
    let j1 = wrap_next(j, b.len() as int);
    let v = outgoing(b, j);
    lemma_turns_left(b, j);
    lemma_conv_at_wf(a, b, i, j, swapped);
    assert(a[i].in_range() && b[j].in_range() && b[j1].in_range());
    assert(e.v@ == v);
    assert(e.p.z@ == a[i]@.plus(b[j]@));
    assert(e.q.z@ == a[i]@.plus(b[j1]@));
    assert(e.p.z@ == b[j]@.plus(a[i]@));
    assert(e.q.z@ == b[j1]@.plus(a[i]@));
    assert(cone_at(b, j, v));
    assert forall|k: int, l: int| 0 <= k < a.len() && 0 <= l < b.len() implies cross(
        e.v@,
        (#[trigger] a[k])@.plus((#[trigger] b[l])@).minus(e.p.z@),
    ) >= 0 by {
        lemma_support(a, i, v, k);
        lemma_support(b, j, v, l);
        lemma_cross_additive(v, a[k]@.minus(a[i]@), b[l]@.minus(b[j]@));
        assert(a[k]@.plus(b[l]@).minus(e.p.z@) == a[k]@.minus(a[i]@).plus(b[l]@.minus(b[j]@)));
    }
    assert forall|l: int, k: int| 0 <= l < b.len() && 0 <= k < a.len() implies cross(
        e.v@,
        (#[trigger] b[l])@.plus((#[trigger] a[k])@).minus(e.p.z@),
    ) >= 0 by {
        assert(b[l]@.plus(a[k]@) == a[k]@.plus(b[l]@));
        assert(cross(e.v@, a[k]@.plus(b[l]@).minus(e.p.z@)) >= 0);
    }
}

/// Two well-formed edges do not meet strictly inside both if both ends of
/// the second lie to the left of the first, or on its line.
proof fn lemma_no_crossing_from_the_left(e: Conv, f: Conv)
    requires
        e.wf(),
        f.wf(),
        cross(e.v@, f.p.z@.minus(e.p.z@)) >= 0,
        cross(e.v@, f.q.z@.minus(e.p.z@)) >= 0,
    ensures
        !intersects(e, f),
        !intersects(f, e),
{
    let w = f.p.z@.minus(e.p.z@);
    lemma_cross_swap(e.v@, w);
    lemma_cross_additive(e.v@, w, f.v@);
    assert(f.q.z@.minus(e.p.z@) == w.plus(f.v@));
    assert(crossing_num1(e, f) == cross(w, e.v@));
    assert(crossing_den(e, f) == cross(e.v@, f.v@));
    let w1 = e.p.z@.minus(f.p.z@);
    lemma_cross_swap(f.v@, e.v@);
    assert(crossing_den(f, e) == cross(f.v@, e.v@));
    assert(crossing_num0(f, e) == cross(w1, e.v@));
    lemma_cross_swap(w1, e.v@);
    assert(w1 == w.negated());
    lemma_cross_negated(e.v@, w);
}

/// Every edge of the convolution of two strictly convex polygons has the
/// sum of the polygons to its left and joins two sums of vertices.
proof fn lemma_edges_support(a: Seq<Point>, b: Seq<Point>, n: int)
    requires
        strictly_convex(a),
        strictly_convex(b),
        polygon_in_range(a),
        polygon_in_range(b),
        0 <= n < convolution(a, b).len(),
    ensures
        supports(a, b, convolution(a, b)[n]),
        joins_sums(a, b, convolution(a, b)[n]),
        convolution(a, b)[n].wf(),
{
    let all = convolution(a, b);
    let x = all[n];
    assert(all.contains(x));
    lemma_convolution_members(a, b, x);
    if exists|i: int, j: int|
        0 <= i < a.len() && 0 <= j < b.len() && compatible(a, b, i, j) && x == #[trigger] conv_at(
            a,
            b,
            i,
            j,
            false,
        ) {
        let (i, j) = choose|i: int, j: int|
            0 <= i < a.len() && 0 <= j < b.len() && compatible(a, b, i, j) && x
                == #[trigger] conv_at(a, b, i, j, false);
        lemma_conv_at_supports(a, b, i, j, false);
    } else {
        let (j, i) = choose|j: int, i: int|
            0 <= j < b.len() && 0 <= i < a.len() && compatible(b, a, j, i) && x
                == #[trigger] conv_at(b, a, j, i, true);
        lemma_conv_at_supports(b, a, j, i, true);
    }
}

/// Where no two edges cross, a row of crossings is empty.
proof fn lemma_no_crossings_row(edges: Seq<Conv>, m: int, hi: int)
    requires
        0 <= m,
        hi <= edges.len(),
        forall|k: int, l: int|
            0 <= k < edges.len() && 0 <= l < edges.len() ==> !crosses(
                #[trigger] edges[k],
                #[trigger] edges[l],
            ),
    ensures
        crossings_row(edges, m, hi).len() == 0,
    decreases hi - m,
{
    if hi > m + 1 {
        lemma_no_crossings_row(edges, m, hi - 1);
        assert(!crosses(edges[m], edges[hi - 1]));
    }
}

/// Where no two edges cross, there are no crossings.
proof fn lemma_no_crossings_upto(edges: Seq<Conv>, upto: int)
    requires
        upto <= edges.len(),
        forall|k: int, l: int|
            0 <= k < edges.len() && 0 <= l < edges.len() ==> !crosses(
                #[trigger] edges[k],
                #[trigger] edges[l],
            ),
    ensures
        crossings_upto(edges, upto).len() == 0,
    decreases upto,
{
    if upto > 0 {
        lemma_no_crossings_upto(edges, upto - 1);
        lemma_no_crossings_row(edges, upto - 1, edges.len() as int);
    }
}

/// No two edges of the reduced convolution of two strictly convex polygons
/// cross.
pub proof fn lemma_convex_edges_do_not_cross(a: Seq<Point>, b: Seq<Point>)
    requires
        strictly_convex(a),
        strictly_convex(b),
        polygon_in_range(a),
        polygon_in_range(b),
    ensures
        crossings(convolution(a, b)).len() == 0,
{
    let edges = convolution(a, b);
    assert forall|k: int, l: int| 0 <= k < edges.len() && 0 <= l < edges.len() implies !crosses(
        #[trigger] edges[k],
        #[trigger] edges[l],
    ) by {
        let e = edges[k];
        let f = edges[l];
        lemma_edges_support(a, b, k);
        lemma_edges_support(a, b, l);
        let (kp, lp) = choose|kp: int, lp: int|
            0 <= kp < a.len() && 0 <= lp < b.len() && f.p.z@ == (#[trigger] a[kp])@.plus(
                (#[trigger] b[lp])@,
            );
        let (kq, lq) = choose|kq: int, lq: int|
            0 <= kq < a.len() && 0 <= lq < b.len() && f.q.z@ == (#[trigger] a[kq])@.plus(
                (#[trigger] b[lq])@,
            );
        assert(cross(e.v@, a[kp]@.plus(b[lp]@).minus(e.p.z@)) >= 0);
        assert(cross(e.v@, a[kq]@.plus(b[lq]@).minus(e.p.z@)) >= 0);
        lemma_no_crossing_from_the_left(e, f);
    }
    lemma_no_crossings_upto(edges, edges.len() as int);
}

/// All that [`lemma_three_vectors`] says of each three of four vectors.
proof fn lemma_four_vectors(x: Vector, y: Vector, v: Vector, w: Vector)
    ensures
        cross(x, y) == -cross(y, x),
        cross(x, v) == -cross(v, x),
        cross(x, w) == -cross(w, x),
        cross(y, v) == -cross(v, y),
        cross(y, w) == -cross(w, y),
        cross(v, w) == -cross(w, v),
        cross(x, y) * v.y == cross(x, v) * y.y + cross(v, y) * x.y,
        cross(x, y) * v.x == cross(x, v) * y.x + cross(v, y) * x.x,
        cross(x, y) * w.y == cross(x, w) * y.y + cross(w, y) * x.y,
        cross(x, y) * w.x == cross(x, w) * y.x + cross(w, y) * x.x,
        cross(v, w) * x.y == cross(v, x) * w.y + cross(x, w) * v.y,
        cross(v, w) * x.x == cross(v, x) * w.x + cross(x, w) * v.x,
        cross(v, w) * y.y == cross(v, y) * w.y + cross(y, w) * v.y,
        cross(v, w) * y.x == cross(v, y) * w.x + cross(y, w) * v.x,
        sign_rule(cross(x, y), v.y),
        sign_rule(cross(x, y), v.x),
        sign_rule(cross(x, y), w.y),
        sign_rule(cross(x, y), w.x),
        sign_rule(cross(v, w), x.y),
        sign_rule(cross(v, w), x.x),
        sign_rule(cross(v, w), y.y),
        sign_rule(cross(v, w), y.x),
        sign_rule(cross(x, v), y.y),
        sign_rule(cross(x, v), y.x),
        sign_rule(cross(v, y), x.y),
        sign_rule(cross(v, y), x.x),
        sign_rule(cross(x, w), y.y),
        sign_rule(cross(x, w), y.x),
        sign_rule(cross(w, y), x.y),
        sign_rule(cross(w, y), x.x),
        sign_rule(cross(v, x), w.y),
        sign_rule(cross(v, x), w.x),
        sign_rule(cross(x, w), v.y),
        sign_rule(cross(x, w), v.x),
        sign_rule(cross(v, y), w.y),
        sign_rule(cross(v, y), w.x),
        sign_rule(cross(y, w), v.y),
        sign_rule(cross(y, w), v.x),
        sign_rule(x.x, y.y),
        sign_rule(y.x, x.y),
        sign_rule(x.x, v.y),
        sign_rule(v.x, x.y),
        sign_rule(x.x, w.y),
        sign_rule(w.x, x.y),
        sign_rule(y.x, v.y),
        sign_rule(v.x, y.y),
        sign_rule(y.x, w.y),
        sign_rule(w.x, y.y),
        sign_rule(v.x, w.y),
        sign_rule(w.x, v.y),
{
    lemma_cross_swap(x, y);
    lemma_cross_swap(x, v);
    lemma_cross_swap(x, w);
    lemma_cross_swap(y, v);
    lemma_cross_swap(y, w);
    lemma_cross_swap(v, w);
    lemma_three_vectors(x, y, v);
    lemma_three_vectors(x, y, w);
    lemma_three_vectors(v, w, x);
    lemma_three_vectors(v, w, y);
    lemma_sign_of_product(cross(v, x), w.y);
    lemma_sign_of_product(cross(v, x), w.x);
    lemma_sign_of_product(cross(v, y), w.y);
    lemma_sign_of_product(cross(v, y), w.x);
    lemma_sign_of_product(v.x, w.y);
    lemma_sign_of_product(w.x, v.y);
    lemma_sign_of_product(x.x, y.y);
    lemma_sign_of_product(y.x, x.y);
}

/// Two arcs that each open by less than a half turn do not cover the full
/// turn between them: of four rays, the arc from `v` round to `w` and the
/// arc from `y` round to `x` cannot both be so short if they overlap at
/// both ends.
proof fn lemma_two_arcs(x: Vector, y: Vector, v: Vector, w: Vector)
    requires
        cross(v, w) > 0,
        cross(y, x) > 0,
        direction_before(x, y),
    ensures
        !(!direction_before(x, v) && direction_before(y, w) && direction_before(v, w)),
        !(!direction_before(x, v) && direction_before(w, v)),
        !(direction_before(y, w) && direction_before(w, v)),
{
    lemma_four_vectors(x, y, v, w);
    lemma_direction_order(x, y, v);
    lemma_direction_order(x, y, w);
    lemma_direction_order(v, w, x);
    lemma_direction_order(w, v, x);
    lemma_direction_order(y, w, v);
    lemma_direction_order(w, v, y);
    lemma_direction_order(w, x, y);
    lemma_direction_order(v, x, y);
}

/// Within an arc that opens by less than a half turn and does not hold
/// the ray of the half turn, a ray that comes behind another in the angle
/// order lies counter-clockwise of it.
proof fn lemma_arc_order(x: Vector, y: Vector, v: Vector, w: Vector)
    requires
        cross(x, y) > 0,
        direction_before(x, w),
        direction_before(w, v),
        !direction_before(y, v),
        v.x != 0 || v.y != 0,
        w.x != 0 || w.y != 0,
    ensures
        cross(w, v) > 0,
{
    lemma_four_vectors(x, y, v, w);
    lemma_direction_order(x, w, v);
    lemma_direction_order(w, v, y);
    lemma_direction_order(x, v, y);
}

/// An edge has as many edges before it as its number says, counted from
/// `s`.
proof fn lemma_rank_of_turned(poly: Seq<Point>, s: int, k: int)
    requires
        convex_from(poly, s),
        0 <= k < poly.len(),
    ensures
        rank_in(poly, s, turned(poly, s, k), poly.len() as int) == k,
{
    let n = poly.len() as int;
    let v = turned(poly, s, k);
    lemma_rank(poly, s, v, n);
    let p = rank_in(poly, s, v, n);
    lemma_direction_order(v, v, v);
    if p < k {
        lemma_turned_sorted(poly, s, p, k);
    }
}

/// A vector that comes before another has no more edges before it.
proof fn lemma_rank_monotone(poly: Seq<Point>, s: int, v: Vector, w: Vector)
    requires
        convex_from(poly, s),
        direction_before(v, w),
    ensures
        rank_in(poly, s, v, poly.len() as int) <= rank_in(poly, s, w, poly.len() as int),
{
    let n = poly.len() as int;
    lemma_rank(poly, s, v, n);
    lemma_rank(poly, s, w, n);
    let q = rank_in(poly, s, w, n);
    if q < rank_in(poly, s, v, n) {
        lemma_direction_order(turned(poly, s, q), v, w);
    }
}

/// Of four rays: `v` in the cone from `w` to `u`, and `v1` counter-
/// clockwise of `v` by less than a half turn and along neither `u` nor its
/// opposite. Then either `v1` lies in that cone too, or `u` lies in the
/// cone from `v` to `v1`, and not both.
proof fn lemma_next_ray(w: Vector, u: Vector, v: Vector, v1: Vector)
    requires
        cross(w, u) > 0,
        in_cone(w, u, v),
        cross(v, v1) > 0,
        !direction_same(u, v1),
        !direction_same(u, v),
        !direction_same(w, v),
    ensures
        in_cone(w, u, v1) != in_cone(v, v1, u),
{
    lemma_four_vectors(w, u, v, v1);
    lemma_four_vectors(v, v1, w, u);
    lemma_three_vectors(w, v1, v);
    lemma_three_vectors(v, u, v1);
    lemma_three_vectors(w, u, v1);
}

/// A vertex from which the edges of the strictly convex polygon rise.
pub open spec fn start_of(poly: Seq<Point>) -> int {
    choose|s: int| convex_from(poly, s)
}

/// How many edges of the polygon come before `v` in the angle order.
pub open spec fn rank_of(poly: Seq<Point>, v: Vector) -> int {
    rank_in(poly, start_of(poly), v, poly.len() as int)
}

/// How many edges of the two polygons together come before `v` in the
/// angle order.
pub open spec fn potential(a: Seq<Point>, b: Seq<Point>, v: Vector) -> int {
    rank_of(a, v) + rank_of(b, v)
}

/// `x`, which is below `2 * len`, counted round a cycle of `len`.
pub open spec fn cyc(x: int, len: int) -> int {
    if x >= len {
        x - len
    } else {
        x
    }
}

/// Of an edge of `q` that is compatible with vertex `z` of `p`: how many
/// edges of each polygon come before it, and that it is not zero and
/// points the way of no edge of `p`.
proof fn lemma_edge_facts(p: Seq<Point>, q: Seq<Point>, z: int, y: int)
    requires
        strictly_convex(p),
        strictly_convex(q),
        share_no_direction(p, q),
        0 <= z < p.len(),
        0 <= y < q.len(),
        compatible(p, q, z, y),
    ensures
        outgoing(q, y).x != 0 || outgoing(q, y).y != 0,
        forall|k: int| 0 <= k < p.len() ==> !direction_same(#[trigger] outgoing(p, k), outgoing(q, y)),
        rank_of(q, outgoing(q, y)) == rotated_index(y, start_of(q), q.len() as int),
        outgoing(q, y) == turned(q, start_of(q), rotated_index(y, start_of(q), q.len() as int)),
        slot_of(rank_of(p, outgoing(q, y)), p.len() as int) == rotated_index(
            z,
            start_of(p),
            p.len() as int,
        ),
        0 <= rank_of(p, outgoing(q, y)) <= p.len(),
        outgoing(p, z) == turned(p, start_of(p), rotated_index(z, start_of(p), p.len() as int)),
        cone_at(p, z, outgoing(q, y)),
        cross(incoming(p, z), outgoing(p, z)) > 0,
{
    let sp = start_of(p);
    let sq = start_of(q);
    let v = outgoing(q, y);
    lemma_turns_left(q, y);
    assert forall|k: int| 0 <= k < p.len() implies !direction_same(
        #[trigger] outgoing(p, k),
        v,
    ) by {
        assert(!direction_same(outgoing(p, k), outgoing(q, y)));
    }
    let owner = lemma_one_cone(p, sp, v);
    assert(cone_at(p, z, v));
    assert(owner == z);
    lemma_rank(p, sp, v, p.len() as int);
    let k = rotated_index(y, sq, q.len() as int);
    lemma_turned_vertex(q, sq, k);
    assert(unrotated_index(k, sq, q.len() as int) == y);
    lemma_rank_of_turned(q, sq, k);
    let c = rotated_index(z, sp, p.len() as int);
    lemma_turned_vertex(p, sp, c);
    assert(unrotated_index(c, sp, p.len() as int) == z);
    assert(cross(incoming(p, z), outgoing(p, z)) > 0);
}

/// The first and the last of the edges counted from `s` bound the one
/// cone that holds the ray of the half turn.
proof fn lemma_turned_ends(poly: Seq<Point>, s: int)
    requires
        convex_from(poly, s),
    ensures
        direction_before(turned(poly, s, 0), turned(poly, s, poly.len() - 1)),
        cross(turned(poly, s, poly.len() - 1), turned(poly, s, 0)) > 0,
{
    lemma_turned_sorted(poly, s, 0, poly.len() - 1);
    lemma_turned_vertex(poly, s, 0);
}

/// Two edges of `q` that follow each other and both lie in the cone of one
/// vertex of `p` follow each other among the edges of both polygons.
proof fn lemma_step_in_cone(p: Seq<Point>, q: Seq<Point>, z: int, y: int)
    requires
        strictly_convex(p),
        strictly_convex(q),
        share_no_direction(p, q),
        0 <= z < p.len(),
        0 <= y < q.len(),
        compatible(p, q, z, y),
        compatible(p, q, z, wrap_next(y, q.len() as int)),
    ensures
        potential(p, q, outgoing(q, wrap_next(y, q.len() as int))) == cyc(
            potential(p, q, outgoing(q, y)) + 1,
            (p.len() + q.len()) as int,
        ),
{
    let np = p.len() as int;
    let nq = q.len() as int;
    let sp = start_of(p);
    let sq = start_of(q);
    let y1 = wrap_next(y, nq);
    let v = outgoing(q, y);
    let v1 = outgoing(q, y1);
    lemma_edge_facts(p, q, z, y);
    lemma_edge_facts(p, q, z, y1);
    let k = rotated_index(y, sq, nq);
    let k1 = rotated_index(y1, sq, nq);
    let c = rotated_index(z, sp, np);
    let r = rank_of(p, v);
    let r1 = rank_of(p, v1);
    assert(incoming(q, y1) == v);
    assert(cross(v, v1) > 0);
    lemma_rank(p, sp, v, np);
    lemma_rank(p, sp, v1, np);
    lemma_turned_ends(p, sp);
    let first = turned(p, sp, 0);
    let last = turned(p, sp, np - 1);
    lemma_two_arcs(first, last, v, v1);
    lemma_cross_swap(v, v1);
    if k1 == k + 1 {
        lemma_turned_sorted(q, sq, k, k1);
        lemma_rank_monotone(p, sp, v, v1);
        assert(r == r1);
    } else {
        assert(k == nq - 1 && k1 == 0);
        lemma_turned_sorted(q, sq, k1, k);
        lemma_rank_monotone(p, sp, v1, v);
        if c > 0 {
            lemma_turned_vertex(p, sp, c);
            assert(rises_at(p, sp, c - 1));
            lemma_arc_order(turned(p, sp, c - 1), turned(p, sp, c), v, v1);
        }
        assert(r == np && r1 == 0);
    }
}

/// An edge of `q` in the cone of vertex `z` of `p`, and the edge of `p`
/// that starts in `z` and lies in the cone between that edge of `q` and
/// the next: these follow each other among the edges of both polygons.
proof fn lemma_step_across(p: Seq<Point>, q: Seq<Point>, z: int, y: int)
    requires
        strictly_convex(p),
        strictly_convex(q),
        share_no_direction(p, q),
        share_no_direction(q, p),
        0 <= z < p.len(),
        0 <= y < q.len(),
        compatible(p, q, z, y),
        compatible(q, p, wrap_next(y, q.len() as int), z),
    ensures
        potential(p, q, outgoing(p, z)) == cyc(
            potential(p, q, outgoing(q, y)) + 1,
            (p.len() + q.len()) as int,
        ),
{
    let np = p.len() as int;
    let nq = q.len() as int;
    let sp = start_of(p);
    let sq = start_of(q);
    let y1 = wrap_next(y, nq);
    let v = outgoing(q, y);
    let v1 = outgoing(q, y1);
    let u = outgoing(p, z);
    lemma_edge_facts(p, q, z, y);
    lemma_edge_facts(q, p, y1, z);
    let k = rotated_index(y, sq, nq);
    let k1 = rotated_index(y1, sq, nq);
    let c = rotated_index(z, sp, np);
    let r = rank_of(p, v);
    let t = rank_of(q, u);
    assert(incoming(q, y1) == v);
    assert(cross(v, v1) > 0);
    assert(in_cone(v, v1, u));
    lemma_rank(p, sp, v, np);
    lemma_rank(q, sq, u, nq);
    lemma_turned_vertex(q, sq, k1);
    assert(unrotated_index(k1, sq, nq) == y1);
    assert(v1 == turned(q, sq, k1));
    lemma_direction_order(v1, u, v);
    lemma_direction_order(u, v, u);
    if k1 == k + 1 {
        lemma_turned_sorted(q, sq, k, k1);
        lemma_cone_between(v, v1, u);
    } else {
        lemma_turned_sorted(q, sq, k1, k);
    }
}

/// The edge of `q` that starts in its vertex `y` stands, translated by
/// vertex `z` of `p`, in the convolution. So does the edge that follows
/// it there, which is the next edge of `q` at the same vertex of `p`, or
/// the edge of `p` from `z` at the next vertex of `q`, and never both.
/// Among the edges of both polygons, ordered by angle, the follower is the
/// next one, the first following the last.
pub proof fn lemma_potential_step(p: Seq<Point>, q: Seq<Point>, z: int, y: int)
    requires
        strictly_convex(p),
        strictly_convex(q),
        share_no_direction(p, q),
        0 <= z < p.len(),
        0 <= y < q.len(),
        compatible(p, q, z, y),
    ensures
        compatible(p, q, z, wrap_next(y, q.len() as int)) != compatible(
            q,
            p,
            wrap_next(y, q.len() as int),
            z,
        ),
        0 <= potential(p, q, outgoing(q, y)) < p.len() + q.len(),
        compatible(p, q, z, wrap_next(y, q.len() as int)) ==> potential(
            p,
            q,
            outgoing(q, wrap_next(y, q.len() as int)),
        ) == cyc(potential(p, q, outgoing(q, y)) + 1, (p.len() + q.len()) as int),
        compatible(q, p, wrap_next(y, q.len() as int), z) ==> potential(p, q, outgoing(p, z))
            == cyc(potential(p, q, outgoing(q, y)) + 1, (p.len() + q.len()) as int),
{
    let nq = q.len() as int;
    let y1 = wrap_next(y, nq);
    let v = outgoing(q, y);
    let v1 = outgoing(q, y1);
    let w = incoming(p, z);
    let u = outgoing(p, z);
    lemma_share_no_direction_symmetric(p, q);
    lemma_edge_facts(p, q, z, y);
    assert(incoming(q, y1) == v);
    let sq = start_of(q);
    assert(cross(incoming(q, y1), outgoing(q, y1)) > 0);
    assert(!direction_same(u, v1)) by {
        assert(!direction_same(outgoing(p, z), outgoing(q, y1)));
    }
    assert(!direction_same(u, v));
    assert(!direction_same(w, v)) by {
        let zp = wrap_prev(z, p.len() as int);
        assert(incoming(p, z) == outgoing(p, zp));
        assert(!direction_same(outgoing(p, zp), outgoing(q, y)));
    }
    lemma_next_ray(w, u, v, v1);
    if compatible(p, q, z, y1) {
        lemma_step_in_cone(p, q, z, y);
    }
    if compatible(q, p, y1, z) {
        lemma_step_across(p, q, z, y);
    }
}

} // verus!
