use vstd::prelude::*;
use crate::arrangement::{
    arc_count, arc_end, arrivals, build_rotation, crossings_in_range, find_arrivals,
    lemma_arc_has_end, lemma_arcs_distinct, lemma_arrival_upto, lemma_rotation_linked,
    nodes_upto, rotation,
};
use crate::sorting::lemma_sorted_seq_contains;
use crate::convolution::{edges_wf, Conv};
use crate::crossing::{
    crossing_ok, crossings, find_crossings, find_tips, lemma_crossings_ok, tip_point, RatPoint,
};
use crate::walk::{lists_view, trace_loops, traced_loops};

verus! {

/// The loops among the arcs of the edges, each as the numbers of its arcs.
pub open spec fn loop_arcs(edges: Seq<Conv>) -> Seq<Seq<usize>> {
    let xs = crossings(edges);
    let nodes = rotation(edges, xs);
    traced_loops(nodes, arrivals(nodes, arc_count(edges, xs)))
}

/// The loops among the arcs of the edges, each as the points in which its
/// arcs end.
pub open spec fn loops_of(edges: Seq<Conv>) -> Seq<Seq<RatPoint>> {
    loop_arcs(edges).map_values(
        |arcs: Seq<usize>|
            arcs.map_values(|n: usize| tip_point(edges, crossings(edges), n as int)),
    )
}

/// The search for the loops among the arcs of the edges comes to an end.
pub open spec fn search_ends(edges: Seq<Conv>) -> bool {
    exists|t: nat|
        crate::walk::ends_after(
            rotation(edges, crossings(edges)),
            arrivals(rotation(edges, crossings(edges)), arc_count(edges, crossings(edges))),
            t,
        )
}

/// The edges, their crossings and the nodes of their arcs can each be
/// counted in a machine word.
pub open spec fn countable(edges: Seq<Conv>) -> bool {
    &&& arc_count(edges, crossings(edges)) <= usize::MAX
    &&& rotation(edges, crossings(edges)).len() <= usize::MAX
}

/// The nodes of the arcs of the edges and the arrivals among them are
/// linked.
pub proof fn lemma_linked(edges: Seq<Conv>)
    requires
        countable(edges),
    ensures
        crate::walk::linked(
            rotation(edges, crossings(edges)),
            arrivals(
                rotation(edges, crossings(edges)),
                arc_count(edges, crossings(edges)),
            ),
        ),
{
    let xs = crossings(edges);
    lemma_crossings_ok(edges, edges.len() as int);
    assert(crossings_in_range(xs, edges.len())) by {
        assert forall|c: int| 0 <= c < xs.len() implies (#[trigger] xs[c]).m < xs[c].n
            < edges.len() by {
            assert(crossing_ok(edges, xs[c]));
        }
    }
    lemma_rotation_linked(edges, xs);
}

/// The search for the loops comes to an end, whatever the edges are.
pub proof fn lemma_search_ends(edges: Seq<Conv>)
    requires
        countable(edges),
    ensures
        search_ends(edges),
{
    lemma_linked(edges);
    crate::walk::lemma_search_ends(
        rotation(edges, crossings(edges)),
        arrivals(rotation(edges, crossings(edges)), arc_count(edges, crossings(edges))),
    );
}

/// Every arc has exactly one end among the nodes, and the arrivals name
/// it.
pub proof fn lemma_one_end_per_arc(edges: Seq<Conv>, n: int)
    requires
        countable(edges),
        0 <= n < arc_count(edges, crossings(edges)),
    ensures
        ({
            let nodes = rotation(edges, crossings(edges));
            let k = arrivals(nodes, arc_count(edges, crossings(edges)))[n];
            &&& 0 <= k < nodes.len()
            &&& !nodes[k as int].leaving
            &&& nodes[k as int].tip == n
            &&& forall|j: int|
                0 <= j < nodes.len() && !(#[trigger] nodes[j]).leaving && nodes[j].tip == n ==> j
                    == k
        }),
{
    let xs = crossings(edges);
    let nodes = rotation(edges, xs);
    let k = arrivals(nodes, arc_count(edges, xs))[n];
    lemma_crossings_ok(edges, edges.len() as int);
    assert(crossings_in_range(xs, edges.len())) by {
        assert forall|c: int| 0 <= c < xs.len() implies (#[trigger] xs[c]).m < xs[c].n
            < edges.len() by {
            assert(crossing_ok(edges, xs[c]));
        }
    }
    let x = lemma_arc_has_end(edges, xs, n);
    lemma_sorted_seq_contains(nodes_upto(edges, xs, edges.len() as int), x);
    let i = choose|i: int| 0 <= i < nodes.len() && nodes[i] == x;
    lemma_arrival_upto(nodes, n, nodes.len() as int, i);
    lemma_arcs_distinct(edges, xs);
    assert forall|j: int|
        0 <= j < nodes.len() && !(#[trigger] nodes[j]).leaving && nodes[j].tip == n implies j
        == k by {
        if j != k {
            assert(arc_end(nodes[j]) != arc_end(nodes[k as int]));
        }
    }
}

/// Every loop is closed and has no gap: each of its arcs starts in the
/// place in which the arc before it ends, and the first starts where the
/// last ends. A loop holds at least one arc.
pub proof fn lemma_loops_contiguous(edges: Seq<Conv>)
    requires
        countable(edges),
    ensures
        forall|l: int|
            0 <= l < loop_arcs(edges).len() ==> crate::walk::contiguous(
                rotation(edges, crossings(edges)),
                arrivals(
                    rotation(edges, crossings(edges)),
                    arc_count(edges, crossings(edges)),
                ),
                #[trigger] loop_arcs(edges)[l],
            ),
{
    lemma_linked(edges);
    crate::walk::lemma_traced_loops_contiguous(
        rotation(edges, crossings(edges)),
        arrivals(rotation(edges, crossings(edges)), arc_count(edges, crossings(edges))),
    );
}

/// Extracts the closed loops from the arrangement of the edges.
///
/// The edges are cut where they cross, the ends of the arcs are sorted
/// round each place, and the loops are traced arc by arc.
pub fn extract_loops(edges: &[Conv]) -> (loops: Vec<Vec<RatPoint>>)
    requires
        edges_wf(edges@),
    ensures
        lists_view(loops@) == loops_of(edges@),
        countable(edges@),
        search_ends(edges@),
{
    let len: usize = edges.len();
    let xs = find_crossings(edges);
    let tips = find_tips(edges, &xs);
    let total: usize = tips.len();
    let nodes = build_rotation(edges, &xs);
    proof {
        assert(nodes@.len() == nodes.len());
        lemma_linked(edges@);
    }
    let found = find_arrivals(&nodes, total);
    let arcs = trace_loops(&nodes, &found);
    let mut loops: Vec<Vec<RatPoint>> = Vec::new();
    let mut l: usize = 0;
    while l < arcs.len()
        invariant
            l <= arcs.len(),
            tips@ == crate::crossing::tip_points(edges@, xs@),
            xs@ == crossings(edges@),
            crate::walk::arcs_below(lists_view(arcs@), tips@.len()),
            lists_view(arcs@) == loop_arcs(edges@),
            lists_view(loops@) == loops_of(edges@).take(l as int),
        decreases arcs.len() - l,
    {
        let numbers = &arcs[l];
        let mut points: Vec<RatPoint> = Vec::new();
        proof {
            assert(lists_view(arcs@)[l as int] == numbers@);
            assert forall|i: int| 0 <= i < numbers.len() implies numbers[i] < tips.len() by {
                assert(lists_view(arcs@)[l as int][i] < tips@.len());
            }
        }
        let mut i: usize = 0;
        while i < numbers.len()
            invariant
                i <= numbers.len(),
                tips@ == crate::crossing::tip_points(edges@, xs@),
                forall|i: int| 0 <= i < numbers.len() ==> numbers[i] < tips.len(),
                points@ == numbers@.map_values(
                    |n: usize| tip_point(edges@, xs@, n as int),
                ).take(i as int),
            decreases numbers.len() - i,
        {
            points.push(tips[numbers[i]]);
            proof {
                assert(points@ =~= numbers@.map_values(
                    |n: usize| tip_point(edges@, xs@, n as int),
                ).take(i + 1));
            }
            i += 1;
        }
        let ghost before = lists_view(loops@);
        proof {
            assert(loops_of(edges@).len() == arcs.len());
            assert(points@ =~= loops_of(edges@)[l as int]);
        }
        loops.push(points);
        proof {
            assert(lists_view(loops@) =~= before.push(points@));
            assert(before.push(points@) =~= loops_of(edges@).take(l + 1));
        }
        l += 1;
    }
    proof {
        assert(lists_view(loops@) =~= loops_of(edges@));
    }
    loops
}

} // verus!
