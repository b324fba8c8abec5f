use vstd::prelude::*;
use crate::arrangement::{
    angle_in, angle_out, arc_count, arc_end, arrivals, chain, edge_nodes, lemma_arcs_distinct,
    lemma_rotation_ordered, nodes_upto, rotation, splits_upto, Node, Pseudovert,
};
use crate::convolution::Conv;
use crate::crossing::crossings;
use crate::loops::{countable, lemma_one_end_per_arc};
use crate::sorting::{lemma_sorted_seq_contains, lemma_sorted_seq_permutes, Ranked};
use crate::walk::{lemma_run_end, lemma_run_start, next_arc, paired, run_start};

verus! {

/// Every edge is followed by another, which starts in the vertex in which
/// it ends, and no two edges start in one vertex or end in one vertex.
pub open spec fn chained(edges: Seq<Conv>, follower: Seq<usize>) -> bool {
    &&& follower.len() == edges.len()
    &&& forall|e: int|
        0 <= e < edges.len() ==> (#[trigger] follower[e]) < edges.len() && edges[follower[e] as int].p.same_id(
            edges[e].q,
        )
    &&& forall|e: int, f: int|
        0 <= e < edges.len() && 0 <= f < edges.len() && e != f ==> !(#[trigger] edges[e]).p.same_id(
            (#[trigger] edges[f]).p,
        )
    &&& forall|e: int, f: int|
        0 <= e < edges.len() && 0 <= f < edges.len() && e != f ==> !(#[trigger] edges[e]).q.same_id(
            (#[trigger] edges[f]).q,
        )
}

/// The start of the one arc of an edge that no edge crosses.
pub open spec fn start_node(edges: Seq<Conv>, e: int) -> Node {
    Node {
        at: Pseudovert::Given { i: edges[e].p.i, j: edges[e].p.j },
        angle: angle_out(edges[e]),
        leaving: true,
        tip: e as usize,
    }
}

/// The end of the one arc of an edge that no edge crosses.
pub open spec fn end_node(edges: Seq<Conv>, e: int) -> Node {
    Node {
        at: Pseudovert::Given { i: edges[e].q.i, j: edges[e].q.j },
        angle: angle_in(edges[e]),
        leaving: false,
        tip: e as usize,
    }
}

/// Where no edges cross, each edge is one arc, and the nodes before they
/// are sorted are, edge by edge, its start and its end.
proof fn lemma_plain_nodes(edges: Seq<Conv>, upto: int)
    requires
        crossings(edges).len() == 0,
        0 <= upto <= edges.len(),
    ensures
        nodes_upto(edges, crossings(edges), upto).len() == 2 * upto,
        forall|e: int|
            0 <= e < upto ==> nodes_upto(edges, crossings(edges), upto)[2 * e] == #[trigger] start_node(
                edges,
                e,
            ) && nodes_upto(edges, crossings(edges), upto)[2 * e + 1] == end_node(edges, e),
    decreases upto,
{
    if upto > 0 {
        let xs = crossings(edges);
        let base = edges.len() as int;
        let e = upto - 1;
        lemma_plain_nodes(edges, upto - 1);
        let found = splits_upto(xs, base, e, xs.len() as int);
        assert(found.len() == 0);
        lemma_sorted_seq_permutes(found);
        let c = chain(xs, base, e);
        assert(c.len() == 0);
        let added = edge_nodes(edges[e], e as usize, c);
        assert(added.len() == 2);
        assert(added[0] == start_node(edges, e));
        assert(added[1] == end_node(edges, e));
        let rest = nodes_upto(edges, xs, upto - 1);
        let all = nodes_upto(edges, xs, upto);
        assert forall|g: int| 0 <= g < upto implies all[2 * g] == #[trigger] start_node(edges, g)
            && all[2 * g + 1] == end_node(edges, g) by {
            if g < upto - 1 {
                assert(rest[2 * g] == start_node(edges, g));
                assert(all[2 * g] == rest[2 * g]);
                assert(all[2 * g + 1] == rest[2 * g + 1]);
            } else {
                assert(all[2 * g] == added[0]);
                assert(all[2 * g + 1] == added[1]);
            }
        }
    }
}

/// Where no edges cross, every node is the start or the end of an edge.
proof fn lemma_plain_node(edges: Seq<Conv>, k: int) -> (e: int)
    requires
        crossings(edges).len() == 0,
        0 <= k < rotation(edges, crossings(edges)).len(),
    ensures
        0 <= e < edges.len(),
        rotation(edges, crossings(edges))[k] == start_node(edges, e) || rotation(
            edges,
            crossings(edges),
        )[k] == end_node(edges, e),
{
    let xs = crossings(edges);
    let raw = nodes_upto(edges, xs, edges.len() as int);
    let nodes = rotation(edges, xs);
    lemma_plain_nodes(edges, edges.len() as int);
    lemma_sorted_seq_contains(raw, nodes[k]);
    assert(nodes.contains(nodes[k]));
    let y = choose|y: int| 0 <= y < raw.len() && raw[y] == nodes[k];
    let e = y / 2;
    assert(raw[2 * e] == start_node(edges, e) && raw[2 * e + 1] == end_node(edges, e));
    e
}

/// Where no edges cross, the start and the end of every edge are among the
/// nodes.
proof fn lemma_plain_has(edges: Seq<Conv>, e: int) -> (found: (int, int))
    requires
        crossings(edges).len() == 0,
        0 <= e < edges.len(),
    ensures
        0 <= found.0 < rotation(edges, crossings(edges)).len(),
        0 <= found.1 < rotation(edges, crossings(edges)).len(),
        rotation(edges, crossings(edges))[found.0] == start_node(edges, e),
        rotation(edges, crossings(edges))[found.1] == end_node(edges, e),
{
    let xs = crossings(edges);
    let raw = nodes_upto(edges, xs, edges.len() as int);
    let nodes = rotation(edges, xs);
    lemma_plain_nodes(edges, edges.len() as int);
    assert(raw[2 * e] == start_node(edges, e) && raw[2 * e + 1] == end_node(edges, e));
    lemma_sorted_seq_contains(raw, start_node(edges, e));
    lemma_sorted_seq_contains(raw, end_node(edges, e));
    let x = choose|x: int| 0 <= x < nodes.len() && nodes[x] == start_node(edges, e);
    let y = choose|y: int| 0 <= y < nodes.len() && nodes[y] == end_node(edges, e);
    (x, y)
}

/// The nodes at one place stand together.
proof fn lemma_place_together(edges: Seq<Conv>, x: int, z: int, y: int)
    requires
        0 <= x <= z <= y < rotation(edges, crossings(edges)).len(),
        rotation(edges, crossings(edges))[x].at == rotation(edges, crossings(edges))[y].at,
    ensures
        rotation(edges, crossings(edges))[z].at == rotation(edges, crossings(edges))[x].at,
{
    let nodes = rotation(edges, crossings(edges));
    lemma_rotation_ordered(edges, crossings(edges));
    if x < z {
        assert(!nodes[z].comes_before(nodes[x]));
    }
    if z < y {
        assert(!nodes[y].comes_before(nodes[z]));
    }
}

/// Where no edges cross and every edge is followed by one other, two
/// nodes stand at the place in which an edge ends: its end and the start
/// of its follower.
pub proof fn lemma_plain_paired(edges: Seq<Conv>, follower: Seq<usize>, n: int)
    requires
        countable(edges),
        crossings(edges).len() == 0,
        chained(edges, follower),
        0 <= n < edges.len(),
    ensures
        paired(
            rotation(edges, crossings(edges)),
            arrivals(rotation(edges, crossings(edges)), arc_count(edges, crossings(edges))),
            n,
        ),
        next_arc(
            rotation(edges, crossings(edges)),
            arrivals(rotation(edges, crossings(edges)), arc_count(edges, crossings(edges))),
            n,
        ) == follower[n],
{
    let xs = crossings(edges);
    let nodes = rotation(edges, xs);
    let found = arrivals(nodes, arc_count(edges, xs));
    let h = found[n] as int;
    let f = follower[n] as int;
    lemma_one_end_per_arc(edges, n);
    lemma_arcs_distinct(edges, xs);
    let (h1, h2) = lemma_plain_has(edges, f);
    let (_h3, h4) = lemma_plain_has(edges, n);
    assert(h4 == h);
    assert(nodes[h] == end_node(edges, n));
    assert(nodes[h1] == start_node(edges, f));
    let place = nodes[h].at;
    assert(nodes[h1].at == place);
    assert(h1 != h);
    assert forall|z: int| 0 <= z < nodes.len() && nodes[z].at == place implies z == h || z
        == h1 by {
        let g = lemma_plain_node(edges, z);
        if nodes[z] == start_node(edges, g) {
            if g != f {
                assert(!edges[g].p.same_id(edges[f].p));
            }
            if z != h1 {
                assert(arc_end(nodes[z]) != arc_end(nodes[h1]));
            }
        } else {
            if g != n {
                assert(!edges[g].q.same_id(edges[n].q));
            }
            if z != h {
                assert(arc_end(nodes[z]) != arc_end(nodes[h]));
            }
        }
    }
    lemma_run_start(nodes, h);
    lemma_run_end(nodes, h);
    lemma_run_start(nodes, h1);
    lemma_run_end(nodes, h1);
    if h < h1 {
        lemma_place_together(edges, h, h + 1, h1);
        assert(h1 == h + 1);
        if h > 0 {
            assert(nodes[h - 1].at != place);
        }
        if h1 + 1 < nodes.len() {
            assert(nodes[h1 + 1].at != place);
        }
        assert(run_start(nodes, h) == h);
        assert(run_start(nodes, h1) == h);
    } else {
        lemma_place_together(edges, h1, h1 + 1, h);
        assert(h == h1 + 1);
        if h1 > 0 {
            assert(nodes[h1 - 1].at != place);
        }
        if h + 1 < nodes.len() {
            assert(nodes[h + 1].at != place);
        }
        assert(run_start(nodes, h1) == h1);
        assert(run_start(nodes, h) == h1);
    }
}

} // verus!
