use vstd::prelude::*;
use crate::angle::direction_same;
use crate::arrangement::{arc_count, arrivals, rotation};
use crate::convex::{
    cyc, in_cone, lemma_convex_edge_count, lemma_convex_edges_do_not_cross, lemma_potential_step,
    lemma_share_no_direction_symmetric, lemma_three_vectors, lemma_turns_left, potential,
    share_no_direction, strictly_convex,
};
use crate::convolution::{
    compatible, conv_at, convolution, incoming, lemma_convolution_members, outgoing,
    polygon_in_range, wrap_next, Conv,
};
use crate::crossing::crossings;
use crate::geometry::{cross, lemma_cross_swap, Point, Vector};
use crate::loops::{countable, lemma_linked, loop_arcs, loops_of};
use crate::plain::{chained, lemma_plain_paired};
use crate::walk::{is_round, lemma_single_round, next_arc, paired};

verus! {

/// Two strictly convex polygons, counter-clockwise and in range, that share
/// no direction.
pub open spec fn in_general_position(a: Seq<Point>, b: Seq<Point>) -> bool {
    &&& strictly_convex(a)
    &&& strictly_convex(b)
    &&& share_no_direction(a, b)
    &&& polygon_in_range(a)
    &&& polygon_in_range(b)
}

/// `x` is the edge of `q` from its vertex `y`, translated by vertex `z` of
/// `p`, with which it is compatible.
pub open spec fn stands(p: Seq<Point>, q: Seq<Point>, z: int, y: int, swapped: bool, x: Conv) -> bool {
    &&& 0 <= z < p.len()
    &&& 0 <= y < q.len()
    &&& compatible(p, q, z, y)
    &&& x == conv_at(p, q, z, y, swapped)
}

/// Place of the edge among the edges of both polygons, ordered by angle.
pub open spec fn edge_potential(a: Seq<Point>, b: Seq<Point>, x: Conv) -> int {
    potential(a, b, x.v@)
}

/// Edge `f` of the convolution starts where edge `e` ends and is the next
/// after it by angle.
pub open spec fn follows_in(a: Seq<Point>, b: Seq<Point>, e: int, f: int) -> bool {
    let edges = convolution(a, b);
    &&& 0 <= f < edges.len()
    &&& edges[f].p.same_id(edges[e].q)
    &&& edge_potential(a, b, edges[f]) == cyc(
        edge_potential(a, b, edges[e]) + 1,
        edges.len() as int,
    )
}

/// An edge that follows edge `e`.
pub open spec fn follower_of(a: Seq<Point>, b: Seq<Point>, e: int) -> int {
    choose|f: int| follows_in(a, b, e, f)
}

/// The edge reached from edge 0 in `k` steps, each to a follower.
pub open spec fn round_edge(a: Seq<Point>, b: Seq<Point>, k: int) -> int
    decreases k,
{
    if k <= 0 {
        0
    } else {
        follower_of(a, b, round_edge(a, b, k - 1))
    }
}

/// An edge that stands in the convolution has an index there.
proof fn lemma_stands_index(a: Seq<Point>, b: Seq<Point>, z: int, y: int, swapped: bool, x: Conv) -> (e: int)
    requires
        (!swapped && stands(a, b, z, y, false, x)) || (swapped && stands(b, a, z, y, true, x)),
    ensures
        0 <= e < convolution(a, b).len(),
        convolution(a, b)[e] == x,
{
    lemma_convolution_members(a, b, x);
    if !swapped {
        assert(x == conv_at(a, b, z, y, false));
    } else {
        assert(x == conv_at(b, a, z, y, true));
    }
    let edges = convolution(a, b);
    assert(edges.contains(x));
    choose|e: int| 0 <= e < edges.len() && edges[e] == x
}

/// What follows an edge that stands in the convolution.
proof fn lemma_stands_step(p: Seq<Point>, q: Seq<Point>, z: int, y: int, swapped: bool)
    requires
        in_general_position(p, q),
        stands(p, q, z, y, swapped, conv_at(p, q, z, y, swapped)),
    ensures
        ({
            let x = conv_at(p, q, z, y, swapped);
            let y1 = wrap_next(y, q.len() as int);
            let next = if compatible(p, q, z, y1) {
                conv_at(p, q, z, y1, swapped)
            } else {
                conv_at(q, p, y1, z, !swapped)
            };
            &&& compatible(p, q, z, y1) != compatible(q, p, y1, z)
            &&& next.p.same_id(x.q)
            &&& x.v@ == outgoing(q, y)
            &&& 0 <= potential(p, q, x.v@) < p.len() + q.len()
            &&& potential(p, q, next.v@) == cyc(potential(p, q, x.v@) + 1, (p.len() + q.len()) as int)
        }),
{
    let y1 = wrap_next(y, q.len() as int);
    let z1 = wrap_next(z, p.len() as int);
    lemma_potential_step(p, q, z, y);
    assert(q[y].in_range() && q[y1].in_range() && p[z].in_range() && p[z1].in_range());
}

/// Every edge of the convolution has a follower.
proof fn lemma_member_step(a: Seq<Point>, b: Seq<Point>, e: int)
    requires
        in_general_position(a, b),
        0 <= e < convolution(a, b).len(),
    ensures
        convolution(a, b).len() == a.len() + b.len(),
        follows_in(a, b, e, follower_of(a, b, e)),
        0 <= edge_potential(a, b, convolution(a, b)[e]) < convolution(a, b).len(),
{
    let edges = convolution(a, b);
    let x = edges[e];
    lemma_convex_edge_count(a, b);
    lemma_share_no_direction_symmetric(a, b);
    assert(edges.contains(x));
    lemma_convolution_members(a, b, x);
    if exists|i: int, j: int|
        0 <= i < a.len() && 0 <= j < b.len() && compatible(a, b, i, j) && x == #[trigger] conv_at(
            a,
            b,
            i,
            j,
            false,
        ) {
        let (i, j) = choose|i: int, j: int|
            0 <= i < a.len() && 0 <= j < b.len() && compatible(a, b, i, j) && x
                == #[trigger] conv_at(a, b, i, j, false);
        let j1 = wrap_next(j, b.len() as int);
        lemma_stands_step(a, b, i, j, false);
        if compatible(a, b, i, j1) {
            let next = conv_at(a, b, i, j1, false);
            let f = lemma_stands_index(a, b, i, j1, false, next);
            assert(follows_in(a, b, e, f));
        } else {
            let next = conv_at(b, a, j1, i, true);
            let f = lemma_stands_index(a, b, j1, i, true, next);
            assert(follows_in(a, b, e, f));
        }
    } else {
        let (j, i) = choose|j: int, i: int|
            0 <= j < b.len() && 0 <= i < a.len() && compatible(b, a, j, i) && x
                == #[trigger] conv_at(b, a, j, i, true);
        let i1 = wrap_next(i, a.len() as int);
        lemma_stands_step(b, a, j, i, true);
        if compatible(b, a, j, i1) {
            let next = conv_at(b, a, j, i1, true);
            let f = lemma_stands_index(a, b, j, i1, true, next);
            assert(follows_in(a, b, e, f));
        } else {
            let next = conv_at(a, b, i1, j, false);
            let f = lemma_stands_index(a, b, i1, j, false, next);
            assert(follows_in(a, b, e, f));
        }
    }
}

/// The edge reached in `k` steps is the `k`-th after edge 0 by angle.
proof fn lemma_round_potential(a: Seq<Point>, b: Seq<Point>, k: int)
    requires
        in_general_position(a, b),
        0 <= k <= convolution(a, b).len(),
    ensures
        0 <= round_edge(a, b, k) < convolution(a, b).len(),
        edge_potential(a, b, convolution(a, b)[round_edge(a, b, k)]) == cyc(
            edge_potential(a, b, convolution(a, b)[0]) + k,
            convolution(a, b).len() as int,
        ),
    decreases k,
{
    lemma_convex_edge_count(a, b);
    lemma_member_step(a, b, 0);
    if k > 0 {
        lemma_round_potential(a, b, k - 1);
        lemma_member_step(a, b, round_edge(a, b, k - 1));
    }
}

/// A list of `len` different numbers below `len` holds every number below
/// `len`.
proof fn lemma_all_present(order: Seq<int>, len: int)
    requires
        order.len() == len,
        order.no_duplicates(),
        forall|k: int| 0 <= k < len ==> 0 <= #[trigger] order[k] < len,
    ensures
        forall|n: int| 0 <= n < len ==> #[trigger] order.contains(n),
{
    let found = order.to_set();
    let all = vstd::set_lib::set_int_range(0, len);
    order.unique_seq_to_set();
    vstd::set_lib::lemma_int_range(0, len);
    assert(found.subset_of(all)) by {
        assert forall|n: int| found.contains(n) implies all.contains(n) by {
            let k = choose|k: int| 0 <= k < order.len() && order[k] == n;
            assert(0 <= order[k] < len);
        }
    }
    vstd::set_lib::lemma_len_subset(found, all);
    vstd::set_lib::lemma_subset_equality(found, all);
    assert forall|n: int| 0 <= n < len implies #[trigger] order.contains(n) by {
        assert(all.contains(n));
        assert(found.contains(n));
    }
}

/// The edges reached from edge 0 in less than as many steps as there are
/// edges, in the order in which they are reached.
pub open spec fn round_order(a: Seq<Point>, b: Seq<Point>) -> Seq<int> {
    Seq::new(convolution(a, b).len(), |k: int| round_edge(a, b, k))
}

/// The round from edge 0 passes every edge once.
proof fn lemma_round_complete(a: Seq<Point>, b: Seq<Point>)
    requires
        in_general_position(a, b),
    ensures
        round_order(a, b).no_duplicates(),
        forall|k: int|
            0 <= k < round_order(a, b).len() ==> 0 <= #[trigger] round_order(a, b)[k]
                < convolution(a, b).len(),
        forall|n: int| 0 <= n < convolution(a, b).len() ==> #[trigger] round_order(a, b).contains(n),
{
    let order = round_order(a, b);
    let len = convolution(a, b).len() as int;
    lemma_convex_edge_count(a, b);
    assert forall|k: int| 0 <= k < order.len() implies 0 <= #[trigger] order[k] < len by {
        lemma_round_potential(a, b, k);
    }
    lemma_member_step(a, b, 0);
    assert forall|j: int, k: int| 0 <= j < order.len() && 0 <= k < order.len() && j != k implies order[j]
        != order[k] by {
        lemma_round_potential(a, b, j);
        lemma_round_potential(a, b, k);
    }
    lemma_all_present(order, len);
}

/// Different edges of the convolution have different places in the order
/// by angle.
proof fn lemma_potential_injective(a: Seq<Point>, b: Seq<Point>, e: int, f: int)
    requires
        in_general_position(a, b),
        0 <= e < convolution(a, b).len(),
        0 <= f < convolution(a, b).len(),
        e != f,
    ensures
        edge_potential(a, b, convolution(a, b)[e]) != edge_potential(a, b, convolution(a, b)[f]),
{
    let order = round_order(a, b);
    lemma_round_complete(a, b);
    lemma_member_step(a, b, 0);
    assert(order.contains(e));
    assert(order.contains(f));
    let j = choose|j: int| 0 <= j < order.len() && order[j] == e;
    let k = choose|k: int| 0 <= k < order.len() && order[k] == f;
    lemma_round_potential(a, b, j);
    lemma_round_potential(a, b, k);
}

/// A ray in the cone of two rays that is parallel to the second and not
/// zero points its way.
proof fn lemma_parallel_in_cone(w: Vector, u: Vector, v: Vector)
    requires
        cross(w, u) > 0,
        in_cone(w, u, v),
        v.x != 0 || v.y != 0,
    ensures
        cross(v, u) == 0 ==> direction_same(u, v),
        cross(w, v) == 0 ==> direction_same(w, v),
{
    lemma_three_vectors(w, u, v);
    lemma_three_vectors(u, w, v);
    lemma_three_vectors(w, v, u);
    lemma_cross_swap(v, u);
    lemma_cross_swap(w, v);
    lemma_cross_swap(w, u);
}

/// No edge of `q` at vertex `z` of `p` starts where an edge of `p` at a
/// vertex of `q` starts, and none ends where one ends.
proof fn lemma_kinds_apart(p: Seq<Point>, q: Seq<Point>, z: int, y: int, y2: int, z2: int)
    requires
        in_general_position(p, q),
        0 <= z < p.len(),
        0 <= y < q.len(),
        0 <= z2 < p.len(),
        0 <= y2 < q.len(),
        compatible(p, q, z, y),
        compatible(q, p, y2, z2),
    ensures
        !(z == z2 && y == y2),
        !(z == wrap_next(z2, p.len() as int) && y2 == wrap_next(y, q.len() as int)),
{
    let v = outgoing(q, y);
    let w = incoming(p, z);
    let u = outgoing(p, z);
    lemma_turns_left(p, z);
    lemma_turns_left(q, y);
    lemma_parallel_in_cone(w, u, v);
    lemma_cross_swap(v, u);
    lemma_cross_swap(w, v);
    if z == z2 && y == y2 {
        assert(!direction_same(outgoing(p, z), outgoing(q, y)));
    }
    if z == wrap_next(z2, p.len() as int) && y2 == wrap_next(y, q.len() as int) {
        assert(incoming(p, z) == outgoing(p, z2));
        assert(incoming(q, y2) == outgoing(q, y));
        assert(!direction_same(outgoing(p, z2), outgoing(q, y)));
    }
}

/// Two edges of the convolution that start in one vertex, or end in one
/// vertex, are the same edge.
proof fn lemma_same_vertex(a: Seq<Point>, b: Seq<Point>, e: int, f: int)
    requires
        in_general_position(a, b),
        0 <= e < convolution(a, b).len(),
        0 <= f < convolution(a, b).len(),
        convolution(a, b)[e].p.same_id(convolution(a, b)[f].p) || convolution(a, b)[e].q.same_id(
            convolution(a, b)[f].q,
        ),
        a.len() + b.len() <= usize::MAX,
    ensures
        convolution(a, b)[e] == convolution(a, b)[f],
{
    let edges = convolution(a, b);
    let x = edges[e];
    let x2 = edges[f];
    assert(edges.contains(x));
    assert(edges.contains(x2));
    lemma_convolution_members(a, b, x);
    lemma_convolution_members(a, b, x2);
    lemma_share_no_direction_symmetric(a, b);
    let first = exists|i: int, j: int|
        0 <= i < a.len() && 0 <= j < b.len() && compatible(a, b, i, j) && x == #[trigger] conv_at(
            a,
            b,
            i,
            j,
            false,
        );
    let first2 = exists|i: int, j: int|
        0 <= i < a.len() && 0 <= j < b.len() && compatible(a, b, i, j) && x2
            == #[trigger] conv_at(a, b, i, j, false);
    if first && first2 {
        let (i, j) = choose|i: int, j: int|
            0 <= i < a.len() && 0 <= j < b.len() && compatible(a, b, i, j) && x
                == #[trigger] conv_at(a, b, i, j, false);
        let (i2, j2) = choose|i2: int, j2: int|
            0 <= i2 < a.len() && 0 <= j2 < b.len() && compatible(a, b, i2, j2) && x2
                == #[trigger] conv_at(a, b, i2, j2, false);
        assert(i == i2 && j == j2);
    } else if first && !first2 {
        let (i, j) = choose|i: int, j: int|
            0 <= i < a.len() && 0 <= j < b.len() && compatible(a, b, i, j) && x
                == #[trigger] conv_at(a, b, i, j, false);
        let (j2, i2) = choose|j2: int, i2: int|
            0 <= j2 < b.len() && 0 <= i2 < a.len() && compatible(b, a, j2, i2) && x2
                == #[trigger] conv_at(b, a, j2, i2, true);
        lemma_kinds_apart(a, b, i, j, j2, i2);
    } else if !first && first2 {
        let (j, i) = choose|j: int, i: int|
            0 <= j < b.len() && 0 <= i < a.len() && compatible(b, a, j, i) && x
                == #[trigger] conv_at(b, a, j, i, true);
        let (i2, j2) = choose|i2: int, j2: int|
            0 <= i2 < a.len() && 0 <= j2 < b.len() && compatible(a, b, i2, j2) && x2
                == #[trigger] conv_at(a, b, i2, j2, false);
        lemma_kinds_apart(a, b, i2, j2, j, i);
    } else {
        let (j, i) = choose|j: int, i: int|
            0 <= j < b.len() && 0 <= i < a.len() && compatible(b, a, j, i) && x
                == #[trigger] conv_at(b, a, j, i, true);
        let (j2, i2) = choose|j2: int, i2: int|
            0 <= j2 < b.len() && 0 <= i2 < a.len() && compatible(b, a, j2, i2) && x2
                == #[trigger] conv_at(b, a, j2, i2, true);
        assert(i == i2 && j == j2);
    }
}

/// For each edge of the convolution, its follower.
pub open spec fn followers(a: Seq<Point>, b: Seq<Point>) -> Seq<usize> {
    Seq::new(convolution(a, b).len(), |e: int| follower_of(a, b, e) as usize)
}

/// The round from edge 0, as arcs.
pub open spec fn round_arcs(a: Seq<Point>, b: Seq<Point>) -> Seq<usize> {
    Seq::new(convolution(a, b).len(), |k: int| round_edge(a, b, k) as usize)
}

/// In the convolution of two polygons in general position every edge has
/// one follower, and no two edges start or end in one vertex.
proof fn lemma_convex_chained(a: Seq<Point>, b: Seq<Point>)
    requires
        in_general_position(a, b),
        convolution(a, b).len() <= usize::MAX,
    ensures
        chained(convolution(a, b), followers(a, b)),
{
    let edges = convolution(a, b);
    let follower = followers(a, b);
    assert forall|e: int| 0 <= e < edges.len() implies (#[trigger] follower[e]) < edges.len()
        && edges[follower[e] as int].p.same_id(edges[e].q) by {
        lemma_member_step(a, b, e);
    }
    assert forall|e: int, f: int|
        0 <= e < edges.len() && 0 <= f < edges.len() && e != f implies !(#[trigger] edges[e]).p.same_id(
        (#[trigger] edges[f]).p,
    ) && !edges[e].q.same_id(edges[f].q) by {
        lemma_potential_injective(a, b, e, f);
        lemma_convex_edge_count(a, b);
        if edges[e].p.same_id(edges[f].p) || edges[e].q.same_id(edges[f].q) {
            lemma_same_vertex(a, b, e, f);
        }
    }
}

/// The reduced convolution of two strictly convex polygons that share no
/// direction has exactly one loop, which passes every edge once: from edge
/// 0 on, each edge followed by the next by angle.
pub proof fn lemma_convex_one_loop(a: Seq<Point>, b: Seq<Point>)
    requires
        in_general_position(a, b),
        countable(convolution(a, b)),
    ensures
        convolution(a, b).len() == a.len() + b.len(),
        loop_arcs(convolution(a, b)) == seq![round_arcs(a, b)],
        loops_of(convolution(a, b)).len() == 1,
        loops_of(convolution(a, b))[0].len() == a.len() + b.len(),
{
    let edges = convolution(a, b);
    let len = edges.len() as int;
    let xs = crossings(edges);
    let nodes = rotation(edges, xs);
    let found = arrivals(nodes, arc_count(edges, xs));
    let order = round_arcs(a, b);
    let plain = round_order(a, b);
    lemma_convex_edge_count(a, b);
    lemma_convex_edges_do_not_cross(a, b);
    lemma_linked(edges);
    lemma_convex_chained(a, b);
    lemma_round_complete(a, b);
    assert forall|k: int| 0 <= k < len implies plain[k] == (#[trigger] order[k]) as int by {
        assert(0 <= plain[k] < len);
    }
    assert(order.no_duplicates()) by {
        assert forall|j: int, k: int| 0 <= j < order.len() && 0 <= k < order.len() && j
            != k implies order[j] != order[k] by {
            assert(plain[j] != plain[k]);
        }
    }
    assert forall|n: usize| n < found.len() implies #[trigger] order.contains(n) by {
        assert(plain.contains(n as int));
        let k = choose|k: int| 0 <= k < plain.len() && plain[k] == n as int;
        assert(order[k] == n);
    }
    assert forall|n: int| 0 <= n < found.len() implies #[trigger] paired(nodes, found, n) by {
        lemma_plain_paired(edges, followers(a, b), n);
    }
    assert forall|k: int| 0 <= k < order.len() implies #[trigger] next_arc(
        nodes,
        found,
        order[k] as int,
    ) == order[if k + 1 < order.len() {
        k + 1
    } else {
        0
    }] by {
        let e = order[k] as int;
        assert(0 <= plain[k] < len);
        assert(e == round_edge(a, b, k));
        lemma_plain_paired(edges, followers(a, b), e);
        lemma_member_step(a, b, e);
        lemma_member_step(a, b, 0);
        let f = follower_of(a, b, e);
        assert(follows_in(a, b, e, f));
        assert(followers(a, b)[e] == f as usize);
        assert(next_arc(nodes, found, e) == f as usize);
        lemma_round_potential(a, b, k);
        if k + 1 < order.len() {
            assert(round_edge(a, b, k + 1) == f);
            assert(order[k + 1] == f as usize);
        } else {
            lemma_round_potential(a, b, 0);
            assert(round_edge(a, b, 0) == 0);
            assert(order[0] == 0);
            if f != 0 {
                lemma_potential_injective(a, b, f, 0);
            }
        }
    }
    assert(is_round(nodes, found, order));
    lemma_single_round(nodes, found, order);
    assert(loops_of(edges)[0].len() == order.len());
}

} // verus!
