use vstd::prelude::*;
use crate::convolution::{
    compatible, conv_at, convolution, half, incoming, lemma_half_upto_members, outgoing, segment,
    wrap_next, wrap_prev, Conv,
};
use crate::geometry::Point;

verus! {

/// The polygon with its vertices counted from vertex `r` on.
pub open spec fn rotated(poly: Seq<Point>, r: int) -> Seq<Point> {
    poly.subrange(r, poly.len() as int) + poly.subrange(0, r)
}

/// Index in the polygon of vertex `k` of the polygon rotated by `r`.
pub open spec fn unrotated_index(k: int, r: int, len: int) -> int {
    if k + r < len {
        k + r
    } else {
        k + r - len
    }
}

/// Index in the polygon rotated by `r` of vertex `k` of the polygon.
pub open spec fn rotated_index(k: int, r: int, len: int) -> int {
    if k >= r {
        k - r
    } else {
        k - r + len
    }
}

/// The segments of the edges, as a set.
pub open spec fn segments(edges: Seq<Conv>) -> Set<(Point, Point)> {
    Set::new(|s: (Point, Point)| exists|k: int| 0 <= k < edges.len() && segment(#[trigger] edges[k]) == s)
}

/// The edges at a vertex of a rotated polygon have the directions of the
/// edges at that vertex where it stood before.
pub proof fn lemma_rotated_directions(poly: Seq<Point>, r: int, k: int)
    requires
        0 <= r <= poly.len(),
        0 <= k < poly.len(),
    ensures
        rotated(poly, r).len() == poly.len(),
        rotated(poly, r)[k] == poly[unrotated_index(k, r, poly.len() as int)],
        incoming(rotated(poly, r), k) == incoming(poly, unrotated_index(k, r, poly.len() as int)),
        outgoing(rotated(poly, r), k) == outgoing(poly, unrotated_index(k, r, poly.len() as int)),
{
    let len = poly.len() as int;
    let turned = rotated(poly, r);
    assert(turned[k] == poly[unrotated_index(k, r, len)]);
    assert(turned[wrap_next(k, len)] == poly[wrap_next(unrotated_index(k, r, len), len)]);
    assert(turned[wrap_prev(k, len)] == poly[wrap_prev(unrotated_index(k, r, len), len)]);
}

/// A pair of vertices of two rotated polygons is compatible where the pair
/// was compatible before, and the edge it gives covers the same segment.
pub proof fn lemma_rotated_pair(
    a: Seq<Point>,
    b: Seq<Point>,
    ra: int,
    rb: int,
    i: int,
    j: int,
    swapped: bool,
)
    requires
        0 <= ra <= a.len(),
        0 <= rb <= b.len(),
        0 <= i < a.len(),
        0 <= j < b.len(),
    ensures
        compatible(rotated(a, ra), rotated(b, rb), i, j) == compatible(
            a,
            b,
            unrotated_index(i, ra, a.len() as int),
            unrotated_index(j, rb, b.len() as int),
        ),
        segment(conv_at(rotated(a, ra), rotated(b, rb), i, j, swapped)) == segment(
            conv_at(
                a,
                b,
                unrotated_index(i, ra, a.len() as int),
                unrotated_index(j, rb, b.len() as int),
                swapped,
            ),
        ),
{
    let n = b.len() as int;
    lemma_rotated_directions(a, ra, i);
    lemma_rotated_directions(b, rb, j);
    lemma_rotated_directions(b, rb, wrap_next(j, n));
    assert(unrotated_index(wrap_next(j, n), rb, n) == wrap_next(unrotated_index(j, rb, n), n));
}

/// Every segment of one half of the convolution of the rotated polygons is
/// a segment of that half of the convolution of the polygons.
proof fn lemma_rotated_half_into(
    a: Seq<Point>,
    b: Seq<Point>,
    ra: int,
    rb: int,
    swapped: bool,
    s: (Point, Point),
)
    requires
        0 <= ra <= a.len(),
        0 <= rb <= b.len(),
        segments(half(rotated(a, ra), rotated(b, rb), swapped)).contains(s),
    ensures
        segments(half(a, b, swapped)).contains(s),
{
    let turned = half(rotated(a, ra), rotated(b, rb), swapped);
    let k = choose|k: int| 0 <= k < turned.len() && segment(#[trigger] turned[k]) == s;
    let x = turned[k];
    assert(turned.contains(x));
    lemma_half_upto_members(rotated(a, ra), rotated(b, rb), a.len() as int, swapped, x);
    let (i, j) = choose|i: int, j: int|
        0 <= i < a.len() && 0 <= j < b.len() && compatible(rotated(a, ra), rotated(b, rb), i, j)
            && x == #[trigger] conv_at(rotated(a, ra), rotated(b, rb), i, j, swapped);
    lemma_rotated_pair(a, b, ra, rb, i, j, swapped);
    let i1 = unrotated_index(i, ra, a.len() as int);
    let j1 = unrotated_index(j, rb, b.len() as int);
    let y = conv_at(a, b, i1, j1, swapped);
    lemma_half_upto_members(a, b, a.len() as int, swapped, y);
    let plain = half(a, b, swapped);
    let k1 = choose|k1: int| 0 <= k1 < plain.len() && plain[k1] == y;
    assert(segment(plain[k1]) == s);
}

/// Every segment of one half of the convolution of the polygons is a
/// segment of that half of the convolution of the rotated polygons.
proof fn lemma_rotated_half_from(
    a: Seq<Point>,
    b: Seq<Point>,
    ra: int,
    rb: int,
    swapped: bool,
    s: (Point, Point),
)
    requires
        0 <= ra <= a.len(),
        0 <= rb <= b.len(),
        segments(half(a, b, swapped)).contains(s),
    ensures
        segments(half(rotated(a, ra), rotated(b, rb), swapped)).contains(s),
{
    let plain = half(a, b, swapped);
    let k = choose|k: int| 0 <= k < plain.len() && segment(#[trigger] plain[k]) == s;
    let x = plain[k];
    assert(plain.contains(x));
    lemma_half_upto_members(a, b, a.len() as int, swapped, x);
    let (i, j) = choose|i: int, j: int|
        0 <= i < a.len() && 0 <= j < b.len() && compatible(a, b, i, j) && x == #[trigger] conv_at(
            a,
            b,
            i,
            j,
            swapped,
        );
    let i1 = rotated_index(i, ra, a.len() as int);
    let j1 = rotated_index(j, rb, b.len() as int);
    lemma_rotated_pair(a, b, ra, rb, i1, j1, swapped);
    let y = conv_at(rotated(a, ra), rotated(b, rb), i1, j1, swapped);
    lemma_rotated_directions(a, ra, i1);
    lemma_rotated_directions(b, rb, j1);
    lemma_half_upto_members(rotated(a, ra), rotated(b, rb), a.len() as int, swapped, y);
    let turned = half(rotated(a, ra), rotated(b, rb), swapped);
    let k1 = choose|k1: int| 0 <= k1 < turned.len() && turned[k1] == y;
    assert(segment(turned[k1]) == s);
}

/// The segments of two lists of edges, one after the other, are those of
/// the first and those of the second.
proof fn lemma_segments_of_both(first: Seq<Conv>, second: Seq<Conv>)
    ensures
        segments(first + second) == segments(first).union(segments(second)),
{
    let both = first + second;
    assert forall|s: (Point, Point)| segments(both).contains(s) implies segments(first).union(
        segments(second),
    ).contains(s) by {
        let k = choose|k: int| 0 <= k < both.len() && segment(#[trigger] both[k]) == s;
        if k < first.len() {
            assert(segment(first[k]) == s);
        } else {
            assert(segment(second[k - first.len()]) == s);
        }
    }
    assert forall|s: (Point, Point)|
        segments(first).union(segments(second)).contains(s) implies segments(both).contains(s) by {
        if segments(first).contains(s) {
            let k = choose|k: int| 0 <= k < first.len() && segment(#[trigger] first[k]) == s;
            assert(segment(both[k]) == s);
        } else {
            let k = choose|k: int| 0 <= k < second.len() && segment(#[trigger] second[k]) == s;
            assert(segment(both[first.len() + k]) == s);
        }
    }
    assert(segments(both) =~= segments(first).union(segments(second)));
}

/// The reduced convolution covers the same set of segments from whichever
/// vertex each of the two polygons is counted.
pub proof fn lemma_rotation_invariant(a: Seq<Point>, b: Seq<Point>, ra: int, rb: int)
    requires
        0 <= ra <= a.len(),
        0 <= rb <= b.len(),
    ensures
        segments(convolution(rotated(a, ra), rotated(b, rb))) == segments(convolution(a, b)),
{
    let a1 = rotated(a, ra);
    let b1 = rotated(b, rb);
    assert(a1.len() == a.len() && b1.len() == b.len());
    lemma_segments_of_both(half(a1, b1, false), half(b1, a1, true));
    lemma_segments_of_both(half(a, b, false), half(b, a, true));
    assert forall|s: (Point, Point)|
        segments(convolution(a1, b1)).contains(s) == segments(convolution(a, b)).contains(s) by {
        if segments(half(a1, b1, false)).contains(s) {
            lemma_rotated_half_into(a, b, ra, rb, false, s);
        }
        if segments(half(b1, a1, true)).contains(s) {
            lemma_rotated_half_into(b, a, rb, ra, true, s);
        }
        if segments(half(a, b, false)).contains(s) {
            lemma_rotated_half_from(a, b, ra, rb, false, s);
        }
        if segments(half(b, a, true)).contains(s) {
            lemma_rotated_half_from(b, a, rb, ra, true, s);
        }
    }
    assert(segments(convolution(a1, b1)) =~= segments(convolution(a, b)));
}

} // verus!
