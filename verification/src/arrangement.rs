use vstd::prelude::*;
use crate::angle::Angle;
use crate::convolution::{edges_wf, Conv};
use crate::crossing::{Crossing, Param};
use crate::geometry::Point;
use crate::sorting::{
    all_valid, distinct_keys, lemma_sorted_seq_contains, lemma_sorted_seq_distinct,
    lemma_sorted_seq_ordered, lemma_sorted_seq_permutes, ordered, sort, sorted_seq,
    weakly_ordered, Ranked,
};

verus! {

/// A place where edges start, end or cross: either the sum of a vertex of
/// each polygon, or the crossing of two edges. Two places are the same
/// where they are the same sum or the same crossing, whatever their
/// coordinates.
#[derive(Clone, Copy, Debug, PartialEq, Eq, Structural)]
pub enum Pseudovert {
    /// Sum of vertex `i` of the first polygon and vertex `j` of the second.
    Given { i: usize, j: usize },
    /// Crossing of the edges with indices `m` and `n`, `m < n`.
    Steiner { m: usize, n: usize },
}

impl Pseudovert {
    /// Every sum comes before every crossing; two sums, and two
    /// crossings, go by their first index and then by their second.
    pub open spec fn before(self, other: Pseudovert) -> bool {
        match (self, other) {
            (Pseudovert::Given { i, j }, Pseudovert::Given { i: i1, j: j1 }) => i < i1 || (i == i1
                && j < j1),
            (Pseudovert::Given { .. }, Pseudovert::Steiner { .. }) => true,
            (Pseudovert::Steiner { .. }, Pseudovert::Given { .. }) => false,
            (Pseudovert::Steiner { m, n }, Pseudovert::Steiner { m: m1, n: n1 }) => m < m1 || (m
                == m1 && n < n1),
        }
    }

    /// Decides [`Pseudovert::before`].
    pub fn precedes(&self, other: &Pseudovert) -> (b: bool)
        ensures
            b == self.before(*other),
    {
        match (self, other) {
            (Pseudovert::Given { i, j }, Pseudovert::Given { i: i1, j: j1 }) => *i < *i1 || (*i
                == *i1 && *j < *j1),
            (Pseudovert::Given { .. }, Pseudovert::Steiner { .. }) => true,
            (Pseudovert::Steiner { .. }, Pseudovert::Given { .. }) => false,
            (Pseudovert::Steiner { m, n }, Pseudovert::Steiner { m: m1, n: n1 }) => *m < *m1 || (*m
                == *m1 && *n < *n1),
        }
    }
}

/// One end of an arc: a piece of an edge between two neighbouring places
/// on it. `tip` numbers the arc, and `leaving` tells its start from its
/// end.
#[derive(Clone, Copy, Debug, PartialEq, Eq, Structural)]
pub struct Node {
    /// The place of this end.
    pub at: Pseudovert,
    /// Direction in which the arc leaves this end: the delta of the edge
    /// at the start of the arc, its opposite at the end.
    pub angle: Angle,
    /// Whether this is the start of the arc.
    pub leaving: bool,
    /// The number of the arc, which is the number of the point it ends in.
    pub tip: usize,
}

impl Ranked for Node {
    /// By place, then by direction, then the end of an arc before a start,
    /// then by arc number.
    open spec fn comes_before(self, other: Node) -> bool {
        ||| self.at.before(other.at)
        ||| (self.at == other.at && self.angle.before(other.angle))
        ||| (self.at == other.at && self.angle.same(other.angle) && !self.leaving && other.leaving)
        ||| (self.at == other.at && self.angle.same(other.angle) && self.leaving == other.leaving
            && self.tip < other.tip)
    }

    fn is_before(&self, other: &Node) -> (b: bool) {
        if self.at != other.at {
            self.at.precedes(&other.at)
        } else if self.angle.precedes(&other.angle) {
            true
        } else if other.angle.precedes(&self.angle) {
            false
        } else if self.leaving != other.leaving {
            other.leaving
        } else {
            self.tip < other.tip
        }
    }
}

/// A crossing as one of the two edges through it sees it: the position
/// along that edge, the two edges, and the number of the arc that ends in
/// the crossing on that edge.
#[derive(Clone, Copy, Debug, PartialEq, Eq, Structural)]
pub struct Split {
    pub t: Param,
    pub m: usize,
    pub n: usize,
    pub tip: usize,
}

impl Ranked for Split {
    /// By position along the edge; equal positions by the pair of edges,
    /// then by arc number.
    open spec fn comes_before(self, other: Split) -> bool {
        ||| self.t.before(other.t)
        ||| (!other.t.before(self.t) && self.m < other.m)
        ||| (!other.t.before(self.t) && self.m == other.m && self.n < other.n)
        ||| (!other.t.before(self.t) && self.m == other.m && self.n == other.n && self.tip
            < other.tip)
    }

    fn is_before(&self, other: &Split) -> (b: bool) {
        if self.t.precedes(&other.t) {
            true
        } else if other.t.precedes(&self.t) {
            false
        } else if self.m != other.m {
            self.m < other.m
        } else if self.n != other.n {
            self.n < other.n
        } else {
            self.tip < other.tip
        }
    }
}

/// Crossing number `c` as the first of its two edges sees it, or as the
/// second does. The two arcs that end in the crossing have the numbers
/// `base + 2 * c`, on the first edge, and `base + 2 * c + 1`, on the second.
pub open spec fn split_at(xs: Seq<Crossing>, base: int, c: int, first: bool) -> Split {
    if first {
        Split { t: xs[c].t_m, m: xs[c].m, n: xs[c].n, tip: (base + 2 * c) as usize }
    } else {
        Split { t: xs[c].t_n, m: xs[c].m, n: xs[c].n, tip: (base + 2 * c + 1) as usize }
    }
}

/// The crossings on edge `e` among the first `k` crossings, in the order
/// of `xs`.
pub open spec fn splits_upto(xs: Seq<Crossing>, base: int, e: int, k: int) -> Seq<Split>
    decreases k,
{
    if k <= 0 {
        Seq::empty()
    } else {
        let rest = splits_upto(xs, base, e, k - 1);
        if xs[k - 1].m == e {
            rest.push(split_at(xs, base, k - 1, true))
        } else if xs[k - 1].n == e {
            rest.push(split_at(xs, base, k - 1, false))
        } else {
            rest
        }
    }
}

/// The crossings on edge `e`, from its start to its end.
pub open spec fn chain(xs: Seq<Crossing>, base: int, e: int) -> Seq<Split> {
    sorted_seq(splits_upto(xs, base, e, xs.len() as int))
}

/// Place number `t` on an edge with the given chain: its start, then its
/// crossings, then its end.
pub open spec fn station(e: Conv, chain: Seq<Split>, t: int) -> Pseudovert {
    if t <= 0 {
        Pseudovert::Given { i: e.p.i, j: e.p.j }
    } else if t <= chain.len() {
        Pseudovert::Steiner { m: chain[t - 1].m, n: chain[t - 1].n }
    } else {
        Pseudovert::Given { i: e.q.i, j: e.q.j }
    }
}

/// Number of the arc from place `t` to place `t + 1` of edge number
/// `index`: the last arc of an edge has the number of the edge.
pub open spec fn arc_tip(index: usize, chain: Seq<Split>, t: int) -> usize {
    if 0 <= t < chain.len() {
        chain[t].tip
    } else {
        index
    }
}

/// Direction of an edge.
pub open spec fn angle_out(e: Conv) -> Angle {
    Angle::Direction { x: e.v.x, y: e.v.y }
}

/// Direction opposite to an edge.
pub open spec fn angle_in(e: Conv) -> Angle {
    Angle::Direction { x: (-e.v.x) as i64, y: (-e.v.y) as i64 }
}

/// The ends of the arcs of one edge, arc by arc: start, then end.
pub open spec fn edge_nodes(e: Conv, index: usize, chain: Seq<Split>) -> Seq<Node> {
    Seq::new(
        2 * (chain.len() + 1),
        |k: int|
            if k % 2 == 0 {
                Node {
                    at: station(e, chain, k / 2),
                    angle: angle_out(e),
                    leaving: true,
                    tip: arc_tip(index, chain, k / 2),
                }
            } else {
                Node {
                    at: station(e, chain, k / 2 + 1),
                    angle: angle_in(e),
                    leaving: false,
                    tip: arc_tip(index, chain, k / 2),
                }
            },
    )
}

/// The ends of the arcs of the edges `0 .. upto`, edge by edge.
pub open spec fn nodes_upto(edges: Seq<Conv>, xs: Seq<Crossing>, upto: int) -> Seq<Node>
    decreases upto,
{
    if upto <= 0 {
        Seq::empty()
    } else {
        nodes_upto(edges, xs, upto - 1) + edge_nodes(
            edges[upto - 1],
            (upto - 1) as usize,
            chain(xs, edges.len() as int, upto - 1),
        )
    }
}

/// The ends of all arcs, sorted: those at one place stand together, in
/// the order of their directions round it.
pub open spec fn rotation(edges: Seq<Conv>, xs: Seq<Crossing>) -> Seq<Node> {
    sorted_seq(nodes_upto(edges, xs, edges.len() as int))
}

/// The crossings on each of `len` edges, in the order of `xs`.
pub fn split_edges(xs: &Vec<Crossing>, len: usize) -> (found: Vec<Vec<Split>>)
    requires
        len + 2 * xs.len() <= usize::MAX,
    ensures
        found.len() == len,
        forall|e: int|
            0 <= e < len ==> (#[trigger] found[e])@ == splits_upto(
                xs@,
                len as int,
                e,
                xs.len() as int,
            ),
{
    let mut found: Vec<Vec<Split>> = Vec::new();
    let mut e: usize = 0;
    while e < len
        invariant
            e <= len,
            found.len() == e,
            forall|i: int| 0 <= i < e ==> (#[trigger] found[i])@ == splits_upto(xs@, len as int, i, 0),
        decreases len - e,
    {
        found.push(Vec::new());
        e += 1;
    }
    let mut k: usize = 0;
    while k < xs.len()
        invariant
            k <= xs.len(),
            len + 2 * xs.len() <= usize::MAX,
            found.len() == len,
            forall|i: int|
                0 <= i < len ==> (#[trigger] found[i])@ == splits_upto(xs@, len as int, i, k as int),
        decreases xs.len() - k,
    {
        let c = xs[k];
        if c.m < len {
            found[c.m].push(Split { t: c.t_m, m: c.m, n: c.n, tip: len + 2 * k });
        }
        if c.n < len && c.n != c.m {
            found[c.n].push(Split { t: c.t_n, m: c.m, n: c.n, tip: len + 2 * k + 1 });
        }
        k += 1;
    }
    found
}

/// Appends the ends of the arcs of one edge.
pub fn push_edge_nodes(nodes: &mut Vec<Node>, e: &Conv, index: usize, chain: &Vec<Split>)
    requires
        e.wf(),
    ensures
        final(nodes)@ == old(nodes)@ + edge_nodes(*e, index, chain@),
{
    let ghost target = edge_nodes(*e, index, chain@);
    let out = Angle::of(e.v);
    let back = Angle::of(Point { x: -e.v.x, y: -e.v.y });
    let mut start = Pseudovert::Given { i: e.p.i, j: e.p.j };
    let mut t: usize = 0;
    while t < chain.len()
        invariant
            t <= chain.len(),
            target == edge_nodes(*e, index, chain@),
            out == angle_out(*e),
            back == angle_in(*e),
            start == station(*e, chain@, t as int),
            nodes@ == old(nodes)@ + target.take(2 * t),
        decreases chain.len() - t,
    {
        let s = chain[t];
        let end = Pseudovert::Steiner { m: s.m, n: s.n };
        nodes.push(Node { at: start, angle: out, leaving: true, tip: s.tip });
        nodes.push(Node { at: end, angle: back, leaving: false, tip: s.tip });
        proof {
            assert(target.take(2 * t).push(target[2 * t]).push(target[2 * t + 1]) =~= target.take(
                2 * t + 2,
            ));
        }
        start = end;
        t += 1;
    }
    let end = Pseudovert::Given { i: e.q.i, j: e.q.j };
    nodes.push(Node { at: start, angle: out, leaving: true, tip: index });
    nodes.push(Node { at: end, angle: back, leaving: false, tip: index });
    proof {
        assert(target.take(2 * t).push(target[2 * t]).push(target[2 * t + 1]) =~= target);
    }
}

/// Builds the ends of all arcs and sorts them.
pub fn build_rotation(edges: &[Conv], xs: &Vec<Crossing>) -> (nodes: Vec<Node>)
    requires
        edges_wf(edges@),
        edges@.len() + 2 * xs.len() <= usize::MAX,
    ensures
        nodes@ == rotation(edges@, xs@),
{
    let mut nodes: Vec<Node> = Vec::new();
    let len: usize = edges.len();
    let found = split_edges(xs, len);
    let mut e: usize = 0;
    while e < len
        invariant
            len == edges@.len(),
            e <= len,
            edges_wf(edges@),
            found.len() == len,
            forall|i: int|
                0 <= i < len ==> (#[trigger] found[i])@ == splits_upto(
                    xs@,
                    len as int,
                    i,
                    xs.len() as int,
                ),
            nodes@ == nodes_upto(edges@, xs@, e as int),
        decreases len - e,
    {
        let chain = sort(&found[e]);
        push_edge_nodes(&mut nodes, &edges[e], e, &chain);
        e += 1;
    }
    sort(&nodes)
}

/// The order of the nodes is a strict weak order.
pub proof fn lemma_node_order()
    ensures
        weakly_ordered::<Node>(|x: Node| true),
{
    assert forall|a: Node| !(#[trigger] a.comes_before(a)) by {
        Angle::lemma_irreflexive(a.angle);
    }
    assert forall|a: Node, b: Node, c: Node|
        #![trigger a.comes_before(b), b.comes_before(c)]
        a.comes_before(b) && b.comes_before(c) implies a.comes_before(c) by {
        lemma_angle_order(a.angle, b.angle, c.angle);
        lemma_angle_order(c.angle, b.angle, a.angle);
    }
    assert forall|a: Node, b: Node, c: Node|
        #![trigger a.comes_before(b), b.comes_before(c)]
        !a.comes_before(b) && !b.comes_before(c) implies !a.comes_before(c) by {
        lemma_angle_order(a.angle, b.angle, c.angle);
        lemma_angle_order(c.angle, b.angle, a.angle);
    }
}

/// What the order of three directions is known to obey, in one place.
proof fn lemma_angle_order(a: Angle, b: Angle, c: Angle)
    ensures
        !a.before(a),
        !(a.before(b) && b.before(a)),
        a.before(b) && b.before(c) ==> a.before(c),
        !a.before(b) && !b.before(c) ==> !a.before(c),
        a.before(b) && !c.before(b) ==> a.before(c),
        !b.before(a) && b.before(c) ==> a.before(c),
{
    Angle::lemma_irreflexive(a);
    Angle::lemma_asymmetric(a, b);
    if a.before(b) && b.before(c) {
        Angle::lemma_transitive(a, b, c);
    }
    if !a.before(b) && !b.before(c) {
        Angle::lemma_negatively_transitive(a, b, c);
    }
    if a.before(b) && !c.before(b) && !a.before(c) {
        Angle::lemma_negatively_transitive(a, c, b);
    }
    if !b.before(a) && b.before(c) && !a.before(c) {
        Angle::lemma_negatively_transitive(b, a, c);
    }
}

/// Whether the position of a crossing has a positive denominator.
pub open spec fn split_valid(s: Split) -> bool {
    s.t.den > 0
}

/// Among crossings whose positions have positive denominators the order
/// is a strict weak order.
pub proof fn lemma_split_order()
    ensures
        weakly_ordered::<Split>(|s: Split| split_valid(s)),
{
    assert forall|a: Split| split_valid(a) implies !(#[trigger] a.comes_before(a)) by {
        Param::lemma_order(a.t, a.t, a.t);
    }
    assert forall|a: Split, b: Split, c: Split|
        #![trigger a.comes_before(b), b.comes_before(c)]
        split_valid(a) && split_valid(b) && split_valid(c) && a.comes_before(b) && b.comes_before(
            c,
        ) implies a.comes_before(c) by {
        Param::lemma_order(a.t, b.t, c.t);
        Param::lemma_order(c.t, b.t, a.t);
    }
    assert forall|a: Split, b: Split, c: Split|
        #![trigger a.comes_before(b), b.comes_before(c)]
        split_valid(a) && split_valid(b) && split_valid(c) && !a.comes_before(b) && !b.comes_before(
            c,
        ) implies !a.comes_before(c) by {
        Param::lemma_order(a.t, b.t, c.t);
        Param::lemma_order(c.t, b.t, a.t);
    }
}

/// In the rotation no node comes before an earlier one: the nodes at one
/// place stand together, in the order of their directions.
pub proof fn lemma_rotation_ordered(edges: Seq<Conv>, xs: Seq<Crossing>)
    ensures
        ordered(rotation(edges, xs)),
{
    lemma_node_order();
    lemma_sorted_seq_ordered(nodes_upto(edges, xs, edges.len() as int), |x: Node| true);
}

/// Where the positions of the crossings have positive denominators, the
/// crossings on an edge are ordered by their position along it.
pub proof fn lemma_chain_ordered(xs: Seq<Crossing>, base: int, e: int)
    requires
        forall|c: int| 0 <= c < xs.len() ==> (#[trigger] xs[c]).t_m.den > 0 && xs[c].t_n.den > 0,
    ensures
        ordered(chain(xs, base, e)),
{
    lemma_split_order();
    lemma_splits_valid(xs, base, e, xs.len() as int);
    lemma_sorted_seq_ordered(
        splits_upto(xs, base, e, xs.len() as int),
        |s: Split| split_valid(s),
    );
}

/// The crossings collected for an edge keep the denominators of `xs`.
proof fn lemma_splits_valid(xs: Seq<Crossing>, base: int, e: int, k: int)
    requires
        0 <= k <= xs.len(),
        forall|c: int| 0 <= c < xs.len() ==> (#[trigger] xs[c]).t_m.den > 0 && xs[c].t_n.den > 0,
    ensures
        all_valid(splits_upto(xs, base, e, k), |s: Split| split_valid(s)),
    decreases k,
{
    if k > 0 {
        lemma_splits_valid(xs, base, e, k - 1);
        let rest = splits_upto(xs, base, e, k - 1);
        let all = splits_upto(xs, base, e, k);
        assert forall|i: int| 0 <= i < all.len() implies split_valid(#[trigger] all[i]) by {
            if i < rest.len() {
                assert(all[i] == rest[i]);
            } else {
                assert(xs[k - 1].t_m.den > 0 && xs[k - 1].t_n.den > 0);
            }
        }
    }
}

/// Index of the last node among the first `k` that is the end of arc `n`;
/// the number of nodes if there is none.
pub open spec fn arrival_upto(nodes: Seq<Node>, n: int, k: int) -> int
    decreases k,
{
    if k <= 0 {
        nodes.len() as int
    } else if !nodes[k - 1].leaving && nodes[k - 1].tip == n {
        k - 1
    } else {
        arrival_upto(nodes, n, k - 1)
    }
}

/// For each arc, the index of the node that is its end.
pub open spec fn arrivals(nodes: Seq<Node>, arcs: nat) -> Seq<usize> {
    Seq::new(arcs, |n: int| arrival_upto(nodes, n, nodes.len() as int) as usize)
}

/// Total number of arcs: one for each edge and two for each crossing.
pub open spec fn arc_count(edges: Seq<Conv>, xs: Seq<Crossing>) -> nat {
    edges.len() + 2 * xs.len()
}

/// The crossings name edges, the first before the second.
pub open spec fn crossings_in_range(xs: Seq<Crossing>, len: nat) -> bool {
    forall|c: int| 0 <= c < xs.len() ==> (#[trigger] xs[c]).m < xs[c].n < len
}

/// What [`arrival_upto`] gives is the end of arc `n`, if any node among
/// the first `k` is.
pub proof fn lemma_arrival_upto(nodes: Seq<Node>, n: int, k: int, j: int)
    requires
        0 <= j < k <= nodes.len(),
        !nodes[j].leaving,
        nodes[j].tip == n,
    ensures
        j <= arrival_upto(nodes, n, k) < k,
        !nodes[arrival_upto(nodes, n, k)].leaving,
        nodes[arrival_upto(nodes, n, k)].tip == n,
    decreases k,
{
    if !(!nodes[k - 1].leaving && nodes[k - 1].tip == n) {
        lemma_arrival_upto(nodes, n, k - 1, j);
    }
}

/// The arcs that end in the crossings of an edge have numbers from `base`
/// on, below `base + 2 * k`.
pub proof fn lemma_splits_tips(xs: Seq<Crossing>, base: int, e: int, k: int)
    requires
        0 <= k <= xs.len(),
        0 <= base,
        base + 2 * xs.len() <= usize::MAX,
    ensures
        forall|i: int|
            0 <= i < splits_upto(xs, base, e, k).len() ==> base <= (#[trigger] splits_upto(
                xs,
                base,
                e,
                k,
            )[i]).tip < base + 2 * k,
    decreases k,
{
    if k > 0 {
        lemma_splits_tips(xs, base, e, k - 1);
        let rest = splits_upto(xs, base, e, k - 1);
        let all = splits_upto(xs, base, e, k);
        assert forall|i: int| 0 <= i < all.len() implies base <= (#[trigger] all[i]).tip < base + 2
            * k by {
            if i < rest.len() {
                assert(all[i] == rest[i]);
            } else {
                assert(all[i] == split_at(xs, base, k - 1, xs[k - 1].m == e));
            }
        }
    }
}

/// A crossing on edge `e` is among the crossings collected for `e`.
pub proof fn lemma_splits_has(xs: Seq<Crossing>, base: int, e: int, k: int, c: int)
    requires
        0 <= c < k <= xs.len(),
        xs[c].m == e || xs[c].n == e,
    ensures
        splits_upto(xs, base, e, k).contains(split_at(xs, base, c, xs[c].m == e)),
    decreases k,
{
    let rest = splits_upto(xs, base, e, k - 1);
    let all = splits_upto(xs, base, e, k);
    if c == k - 1 {
        assert(all[all.len() - 1] == split_at(xs, base, c, xs[c].m == e));
    } else {
        lemma_splits_has(xs, base, e, k - 1, c);
        let i = choose|i: int| 0 <= i < rest.len() && rest[i] == split_at(xs, base, c, xs[c].m == e);
        assert(all[i] == rest[i]);
    }
}

/// Every node of the edges `0 .. upto` belongs to an arc.
pub proof fn lemma_nodes_tips(edges: Seq<Conv>, xs: Seq<Crossing>, upto: int)
    requires
        0 <= upto <= edges.len(),
        edges.len() + 2 * xs.len() <= usize::MAX,
    ensures
        forall|k: int|
            0 <= k < nodes_upto(edges, xs, upto).len() ==> (#[trigger] nodes_upto(
                edges,
                xs,
                upto,
            )[k]).tip < arc_count(edges, xs),
    decreases upto,
{
    if upto > 0 {
        lemma_nodes_tips(edges, xs, upto - 1);
        let base = edges.len() as int;
        let e = upto - 1;
        let found = splits_upto(xs, base, e, xs.len() as int);
        let chain = chain(xs, base, e);
        let added = edge_nodes(edges[e], e as usize, chain);
        lemma_splits_tips(xs, base, e, xs.len() as int);
        assert forall|t: int| 0 <= t < chain.len() implies (#[trigger] chain[t]).tip < arc_count(
            edges,
            xs,
        ) by {
            lemma_sorted_seq_contains(found, chain[t]);
            assert(chain.contains(chain[t]));
            let i = choose|i: int| 0 <= i < found.len() && found[i] == chain[t];
            assert(found[i].tip < base + 2 * xs.len());
        }
        assert forall|k: int| 0 <= k < added.len() implies (#[trigger] added[k]).tip < arc_count(
            edges,
            xs,
        ) by {
            if 0 <= k / 2 < chain.len() {
                assert(chain[k / 2].tip < arc_count(edges, xs));
            }
        }
    }
}

/// A node of edge `e` is among the nodes of the edges `0 .. upto`, `e < upto`.
pub proof fn lemma_nodes_has(edges: Seq<Conv>, xs: Seq<Crossing>, upto: int, e: int, k: int)
    requires
        0 <= e < upto <= edges.len(),
        0 <= k < edge_nodes(edges[e], e as usize, chain(xs, edges.len() as int, e)).len(),
    ensures
        nodes_upto(edges, xs, upto).contains(
            edge_nodes(edges[e], e as usize, chain(xs, edges.len() as int, e))[k],
        ),
    decreases upto,
{
    let rest = nodes_upto(edges, xs, upto - 1);
    let all = nodes_upto(edges, xs, upto);
    let x = edge_nodes(edges[e], e as usize, chain(xs, edges.len() as int, e))[k];
    if e == upto - 1 {
        assert(all[rest.len() + k] == x);
    } else {
        lemma_nodes_has(edges, xs, upto - 1, e, k);
        let i = choose|i: int| 0 <= i < rest.len() && rest[i] == x;
        assert(all[i] == x);
    }
}

/// Every arc has an end among the nodes of all edges.
pub proof fn lemma_arc_has_end(edges: Seq<Conv>, xs: Seq<Crossing>, n: int) -> (x: Node)
    requires
        crossings_in_range(xs, edges.len()),
        edges.len() + 2 * xs.len() <= usize::MAX,
        0 <= n < arc_count(edges, xs),
    ensures
        nodes_upto(edges, xs, edges.len() as int).contains(x),
        !x.leaving,
        x.tip == n,
{
    let base = edges.len() as int;
    if n < base {
        let chain = chain(xs, base, n);
        let k: int = 2 * (chain.len() as int) + 1;
        lemma_nodes_has(edges, xs, base, n, k);
        edge_nodes(edges[n], n as usize, chain)[k]
    } else {
        let c = (n - base) / 2;
        let first = (n - base) % 2 == 0;
        let e: int = if first {
            xs[c].m as int
        } else {
            xs[c].n as int
        };
        let s = split_at(xs, base, c, first);
        let found = splits_upto(xs, base, e, xs.len() as int);
        let chain = chain(xs, base, e);
        assert(xs[c].m < xs[c].n);
        lemma_splits_has(xs, base, e, xs.len() as int, c);
        lemma_sorted_seq_contains(found, s);
        let t = choose|t: int| 0 <= t < chain.len() && chain[t] == s;
        let k = 2 * t + 1;
        lemma_nodes_has(edges, xs, base, e, k);
        edge_nodes(edges[e], e as usize, chain)[k]
    }
}

/// In the rotation every node belongs to an arc, and every arc has the
/// index of its end among the arrivals.
pub proof fn lemma_rotation_linked(edges: Seq<Conv>, xs: Seq<Crossing>)
    requires
        crossings_in_range(xs, edges.len()),
        edges.len() + 2 * xs.len() <= usize::MAX,
        rotation(edges, xs).len() <= usize::MAX,
    ensures
        crate::walk::linked(
            rotation(edges, xs),
            arrivals(rotation(edges, xs), arc_count(edges, xs)),
        ),
{
    let raw = nodes_upto(edges, xs, edges.len() as int);
    let nodes = rotation(edges, xs);
    let arcs = arc_count(edges, xs);
    let found = arrivals(nodes, arcs);
    lemma_nodes_tips(edges, xs, edges.len() as int);
    lemma_sorted_seq_permutes(raw);
    assert forall|k: int| 0 <= k < nodes.len() implies (#[trigger] nodes[k]).tip < found.len() by {
        lemma_sorted_seq_contains(raw, nodes[k]);
        assert(nodes.contains(nodes[k]));
        let i = choose|i: int| 0 <= i < raw.len() && raw[i] == nodes[k];
        assert(raw[i].tip < arcs);
    }
    assert forall|n: int| 0 <= n < found.len() implies (#[trigger] found[n]) < nodes.len() by {
        let x = lemma_arc_has_end(edges, xs, n);
        lemma_sorted_seq_contains(raw, x);
        let j = choose|j: int| 0 <= j < nodes.len() && nodes[j] == x;
        lemma_arrival_upto(nodes, n, nodes.len() as int, j);
    }
}

/// The edge on which the arc with the number `tip` lies.
pub open spec fn arc_edge(xs: Seq<Crossing>, base: int, tip: int) -> int {
    if tip < base {
        tip
    } else if (tip - base) % 2 == 0 {
        xs[(tip - base) / 2].m as int
    } else {
        xs[(tip - base) / 2].n as int
    }
}

/// The arcs that end in the crossings collected for edge `e` lie on `e`,
/// and their numbers rise.
proof fn lemma_splits_owned(xs: Seq<Crossing>, base: int, e: int, k: int)
    requires
        0 <= k <= xs.len(),
        0 <= base,
        base + 2 * xs.len() <= usize::MAX,
    ensures
        forall|i: int|
            0 <= i < splits_upto(xs, base, e, k).len() ==> arc_edge(
                xs,
                base,
                (#[trigger] splits_upto(xs, base, e, k)[i]).tip as int,
            ) == e,
        forall|i: int, j: int|
            0 <= i < j < splits_upto(xs, base, e, k).len() ==> (#[trigger] splits_upto(
                xs,
                base,
                e,
                k,
            )[i]).tip < (#[trigger] splits_upto(xs, base, e, k)[j]).tip,
    decreases k,
{
    if k > 0 {
        lemma_splits_owned(xs, base, e, k - 1);
        lemma_splits_tips(xs, base, e, k - 1);
        let rest = splits_upto(xs, base, e, k - 1);
        let all = splits_upto(xs, base, e, k);
        assert forall|i: int| 0 <= i < all.len() implies arc_edge(
            xs,
            base,
            (#[trigger] all[i]).tip as int,
        ) == e by {
            if i < rest.len() {
                assert(all[i] == rest[i]);
            } else {
                assert(all[i] == split_at(xs, base, k - 1, xs[k - 1].m == e));
            }
        }
        assert forall|i: int, j: int| 0 <= i < j < all.len() implies (#[trigger] all[i]).tip < (
        #[trigger] all[j]).tip by {
            assert(all[i] == rest[i]);
            if j < rest.len() {
                assert(all[j] == rest[j]);
            } else {
                assert(all[j] == split_at(xs, base, k - 1, xs[k - 1].m == e));
            }
        }
    }
}

/// The arcs that end in the crossings on edge `e` lie on `e`, have numbers
/// from `base` on, and no two have the same number.
proof fn lemma_chain_owned(xs: Seq<Crossing>, base: int, e: int)
    requires
        0 <= base,
        base + 2 * xs.len() <= usize::MAX,
    ensures
        forall|t: int|
            0 <= t < chain(xs, base, e).len() ==> base <= (#[trigger] chain(xs, base, e)[t]).tip
                < base + 2 * xs.len() && arc_edge(xs, base, chain(xs, base, e)[t].tip as int) == e,
        distinct_keys(chain(xs, base, e), |s: Split| s.tip),
{
    let found = splits_upto(xs, base, e, xs.len() as int);
    let sorted = chain(xs, base, e);
    lemma_splits_owned(xs, base, e, xs.len() as int);
    lemma_splits_tips(xs, base, e, xs.len() as int);
    assert(distinct_keys(found, |s: Split| s.tip)) by {
        assert forall|i: int, j: int|
            0 <= i < found.len() && 0 <= j < found.len() && i != j implies (#[trigger] found[i]).tip
            != (#[trigger] found[j]).tip by {
            if i < j {
                assert(found[i].tip < found[j].tip);
            } else {
                assert(found[j].tip < found[i].tip);
            }
        }
    }
    lemma_sorted_seq_distinct(found, |s: Split| s.tip);
    assert forall|t: int| 0 <= t < sorted.len() implies base <= (#[trigger] sorted[t]).tip < base
        + 2 * xs.len() && arc_edge(xs, base, sorted[t].tip as int) == e by {
        lemma_sorted_seq_contains(found, sorted[t]);
        assert(sorted.contains(sorted[t]));
        let i = choose|i: int| 0 <= i < found.len() && found[i] == sorted[t];
        assert(arc_edge(xs, base, found[i].tip as int) == e);
    }
}

/// What tells the ends of the arcs apart: whether a node is a start, and
/// its arc.
pub open spec fn arc_end(x: Node) -> (bool, usize) {
    (x.leaving, x.tip)
}

/// Among the nodes of the edges `0 .. upto` every arc lies on one of these
/// edges, and no arc has two starts or two ends.
proof fn lemma_nodes_distinct(edges: Seq<Conv>, xs: Seq<Crossing>, upto: int)
    requires
        0 <= upto <= edges.len(),
        edges.len() + 2 * xs.len() <= usize::MAX,
    ensures
        forall|k: int|
            0 <= k < nodes_upto(edges, xs, upto).len() ==> 0 <= arc_edge(
                xs,
                edges.len() as int,
                (#[trigger] nodes_upto(edges, xs, upto)[k]).tip as int,
            ) < upto,
        distinct_keys(nodes_upto(edges, xs, upto), |x: Node| arc_end(x)),
    decreases upto,
{
    if upto > 0 {
        let base = edges.len() as int;
        let e = upto - 1;
        lemma_nodes_distinct(edges, xs, upto - 1);
        lemma_chain_owned(xs, base, e);
        let rest = nodes_upto(edges, xs, upto - 1);
        let c = chain(xs, base, e);
        let added = edge_nodes(edges[e], e as usize, c);
        let all = nodes_upto(edges, xs, upto);
        assert forall|k: int| 0 <= k < added.len() implies arc_edge(
            xs,
            base,
            (#[trigger] added[k]).tip as int,
        ) == e by {
            if 0 <= k / 2 < c.len() {
                assert(arc_edge(xs, base, c[k / 2].tip as int) == e);
            }
        }
        assert forall|k: int| 0 <= k < all.len() implies 0 <= arc_edge(
            xs,
            base,
            (#[trigger] all[k]).tip as int,
        ) < upto by {
            if k < rest.len() {
                assert(all[k] == rest[k]);
            } else {
                assert(all[k] == added[k - rest.len()]);
            }
        }
        assert forall|j: int, k: int|
            0 <= j < all.len() && 0 <= k < all.len() && j != k implies arc_end(#[trigger] all[j])
            != arc_end(#[trigger] all[k]) by {
            if j < rest.len() && k < rest.len() {
                assert(all[j] == rest[j] && all[k] == rest[k]);
            } else if j >= rest.len() && k >= rest.len() {
                let j1 = j - rest.len();
                let k1 = k - rest.len();
                assert(all[j] == added[j1] && all[k] == added[k1]);
                if j1 % 2 == k1 % 2 {
                    let tj = j1 / 2;
                    let tk = k1 / 2;
                    assert(tj != tk);
                    if tj < c.len() && tk < c.len() {
                        assert(c[tj].tip != c[tk].tip);
                    } else if tj < c.len() {
                        assert(c[tj].tip >= base);
                    } else if tk < c.len() {
                        assert(c[tk].tip >= base);
                    }
                }
            } else if j < rest.len() {
                assert(all[j] == rest[j] && all[k] == added[k - rest.len()]);
                assert(arc_edge(xs, base, rest[j].tip as int) < e);
            } else {
                assert(all[k] == rest[k] && all[j] == added[j - rest.len()]);
                assert(arc_edge(xs, base, rest[k].tip as int) < e);
            }
        }
    }
}

/// In the rotation no arc has two starts or two ends. With
/// [`lemma_rotation_linked`], every arc has exactly one end there.
pub proof fn lemma_arcs_distinct(edges: Seq<Conv>, xs: Seq<Crossing>)
    requires
        edges.len() + 2 * xs.len() <= usize::MAX,
    ensures
        distinct_keys(rotation(edges, xs), |x: Node| arc_end(x)),
{
    lemma_nodes_distinct(edges, xs, edges.len() as int);
    lemma_sorted_seq_distinct(nodes_upto(edges, xs, edges.len() as int), |x: Node| arc_end(x));
}

/// Finds the end of every arc among the nodes.
pub fn find_arrivals(nodes: &Vec<Node>, arcs: usize) -> (found: Vec<usize>)
    requires
        forall|k: int| 0 <= k < nodes.len() ==> (#[trigger] nodes[k]).tip < arcs,
    ensures
        found@ == arrivals(nodes@, arcs as nat),
{
    let mut found: Vec<usize> = Vec::new();
    let mut n: usize = 0;
    while n < arcs
        invariant
            n <= arcs,
            found.len() == n,
            forall|i: int| 0 <= i < n ==> found[i] == arrival_upto(nodes@, i, 0),
        decreases arcs - n,
    {
        found.push(nodes.len());
        n += 1;
    }
    let mut k: usize = 0;
    while k < nodes.len()
        invariant
            k <= nodes.len(),
            found.len() == arcs,
            forall|k: int| 0 <= k < nodes.len() ==> (#[trigger] nodes[k]).tip < arcs,
            forall|i: int| 0 <= i < arcs ==> found[i] == arrival_upto(nodes@, i, k as int),
        decreases nodes.len() - k,
    {
        if !nodes[k].leaving {
            found[nodes[k].tip] = k;
        }
        k += 1;
    }
    proof {
        assert(found@ =~= arrivals(nodes@, arcs as nat));
    }
    found
}

} // verus!
