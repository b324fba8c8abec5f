use vstd::prelude::*;
use crate::arrangement::Node;

verus! {

/// One step of a walk: the arc by which a place was reached, and how far
/// the look round that place has come.
#[derive(Clone, Copy, Debug, PartialEq, Eq, Structural)]
pub struct Frame {
    /// Number of the arc that ends in the place.
    pub tip: usize,
    /// Index of the node looked at last.
    pub cursor: usize,
}

/// State of the search for loops.
pub struct Walk {
    /// For each arc, whether a walk has come along it.
    pub marks: Seq<bool>,
    /// The walk under way, from its first arc to its latest.
    pub stack: Seq<Frame>,
    /// The loops found, each as the numbers of its arcs.
    pub loops: Seq<Seq<usize>>,
    /// The arc from which the next walk starts.
    pub next: int,
}

/// First index of the run of nodes round `k` that share its place.
pub open spec fn run_start(nodes: Seq<Node>, k: int) -> int
    decreases k,
{
    if k <= 0 || nodes[k - 1].at != nodes[k].at {
        k
    } else {
        run_start(nodes, k - 1)
    }
}

/// Last index of the run of nodes round `k` that share its place.
pub open spec fn run_end(nodes: Seq<Node>, k: int) -> int
    decreases nodes.len() - k,
{
    if k + 1 >= nodes.len() || nodes[k + 1].at != nodes[k].at {
        k
    } else {
        run_end(nodes, k + 1)
    }
}

/// The node after `k` in its run, the run taken as a cycle.
pub open spec fn advance(nodes: Seq<Node>, k: int) -> int {
    if k + 1 < nodes.len() && nodes[k + 1].at == nodes[k].at {
        k + 1
    } else {
        run_start(nodes, k)
    }
}

/// Index of the first frame from `from` on that holds the arc `tip`; the
/// length of the stack if there is none.
pub open spec fn first_with_tip(stack: Seq<Frame>, tip: usize, from: int) -> int
    decreases stack.len() - from,
{
    if from >= stack.len() {
        stack.len() as int
    } else if stack[from].tip == tip {
        from
    } else {
        first_with_tip(stack, tip, from + 1)
    }
}

/// What a walk yields when it has come back to an arc that is marked: the
/// arcs from the first frame that holds the arc of the last frame up to the
/// frame before the last, if there is any such arc, else nothing.
pub open spec fn closed_loops(stack: Seq<Frame>) -> Seq<Seq<usize>> {
    let end = stack.len() - 1;
    let start = first_with_tip(stack, stack.last().tip, 0);
    if start < end {
        seq![Seq::new((end - start) as nat, |i: int| stack[start + i].tip)]
    } else {
        Seq::empty()
    }
}

/// The state before the first step: nothing marked, no walk under way.
pub open spec fn initial(arcs: nat) -> Walk {
    Walk { marks: Seq::new(arcs, |n: int| false), stack: Seq::empty(), loops: Seq::empty(), next: 0 }
}

/// No walk is under way and none is left to start.
pub open spec fn finished(w: Walk) -> bool {
    w.stack.len() == 0 && w.next >= w.marks.len()
}

/// One step of the search.
///
/// With no walk under way, the next arc is looked at: a marked one is
/// passed over, an unmarked one is marked and starts a walk at its
/// arrival. With a walk under way, the look round the latest place moves
/// on by one node. Back at the arrival, the place is done and the walk
/// steps back. At the end of another arc, nothing happens. At the start of
/// an arc, the walk follows it to its end; if that arc is marked already
/// the walk is over and yields its loop, else the arc is marked.
pub open spec fn step(nodes: Seq<Node>, arrivals: Seq<usize>, w: Walk) -> Walk {
    if w.stack.len() == 0 {
        if w.next >= w.marks.len() {
            w
        } else if w.marks[w.next] {
            Walk { next: w.next + 1, ..w }
        } else {
            Walk {
                marks: w.marks.update(w.next, true),
                stack: seq![Frame { tip: w.next as usize, cursor: arrivals[w.next] }],
                next: w.next + 1,
                ..w
            }
        }
    } else {
        let top = w.stack.last();
        let k = advance(nodes, top.cursor as int);
        if k == arrivals[top.tip as int] {
            Walk { stack: w.stack.drop_last(), ..w }
        } else {
            let moved = w.stack.update(
                w.stack.len() - 1,
                Frame { tip: top.tip, cursor: k as usize },
            );
            if !nodes[k].leaving {
                Walk { stack: moved, ..w }
            } else {
                let tip = nodes[k].tip;
                let grown = moved.push(Frame { tip, cursor: arrivals[tip as int] });
                if w.marks[tip as int] {
                    Walk { stack: Seq::empty(), loops: w.loops + closed_loops(grown), ..w }
                } else {
                    Walk { marks: w.marks.update(tip as int, true), stack: grown, ..w }
                }
            }
        }
    }
}

/// The state after `t` steps.
pub open spec fn state_after(nodes: Seq<Node>, arrivals: Seq<usize>, t: nat) -> Walk
    decreases t,
{
    if t == 0 {
        initial(arrivals.len())
    } else {
        step(nodes, arrivals, state_after(nodes, arrivals, (t - 1) as nat))
    }
}

/// The search is over after `t` steps.
pub open spec fn ends_after(nodes: Seq<Node>, arrivals: Seq<usize>, t: nat) -> bool {
    finished(state_after(nodes, arrivals, t))
}

/// The loops that the search has found when it is over.
pub open spec fn traced_loops(nodes: Seq<Node>, arrivals: Seq<usize>) -> Seq<Seq<usize>> {
    state_after(nodes, arrivals, choose|t: nat| ends_after(nodes, arrivals, t)).loops
}

/// Every arc has its arrival among the nodes, and every node its arc; and
/// the nodes can be counted in a machine word.
pub open spec fn linked(nodes: Seq<Node>, arrivals: Seq<usize>) -> bool {
    &&& nodes.len() <= usize::MAX
    &&& arrivals.len() <= usize::MAX
    &&& forall|n: int| 0 <= n < arrivals.len() ==> (#[trigger] arrivals[n]) < nodes.len()
    &&& forall|k: int| 0 <= k < nodes.len() ==> (#[trigger] nodes[k]).tip < arrivals.len()
}

/// A search that is over stays as it is.
pub proof fn lemma_finished_stays(nodes: Seq<Node>, arrivals: Seq<usize>, t: nat, u: nat)
    requires
        ends_after(nodes, arrivals, t),
        t <= u,
    ensures
        state_after(nodes, arrivals, u) == state_after(nodes, arrivals, t),
    decreases u,
{
    if u > t {
        lemma_finished_stays(nodes, arrivals, t, (u - 1) as nat);
    }
}

/// Whenever the search is over, it has found the same loops.
pub proof fn lemma_traced_loops(nodes: Seq<Node>, arrivals: Seq<usize>, t: nat)
    requires
        ends_after(nodes, arrivals, t),
    ensures
        traced_loops(nodes, arrivals) == state_after(nodes, arrivals, t).loops,
{
    let u = choose|u: nat| ends_after(nodes, arrivals, u);
    if u <= t {
        lemma_finished_stays(nodes, arrivals, u, t);
    } else {
        lemma_finished_stays(nodes, arrivals, t, u);
    }
}

/// The run round `k` starts at or before `k`, holds one place from its
/// start to `k`, and the node before it, if any, lies elsewhere.
pub proof fn lemma_run_start(nodes: Seq<Node>, k: int)
    requires
        0 <= k < nodes.len(),
    ensures
        0 <= run_start(nodes, k) <= k,
        forall|i: int| run_start(nodes, k) <= i <= k ==> (#[trigger] nodes[i]).at == nodes[k].at,
        run_start(nodes, k) == 0 || nodes[run_start(nodes, k) - 1].at != nodes[k].at,
    decreases k,
{
    if k > 0 && nodes[k - 1].at == nodes[k].at {
        lemma_run_start(nodes, k - 1);
    }
}

/// The run round `k` ends at or behind `k`, holds one place from `k` to
/// its end, and the node behind it, if any, lies elsewhere.
pub proof fn lemma_run_end(nodes: Seq<Node>, k: int)
    requires
        0 <= k < nodes.len(),
    ensures
        k <= run_end(nodes, k) < nodes.len(),
        forall|i: int| k <= i <= run_end(nodes, k) ==> (#[trigger] nodes[i]).at == nodes[k].at,
        run_end(nodes, k) + 1 == nodes.len() || nodes[run_end(nodes, k) + 1].at != nodes[k].at,
    decreases nodes.len() - k,
{
    if k + 1 < nodes.len() && nodes[k + 1].at == nodes[k].at {
        lemma_run_end(nodes, k + 1);
    }
}

/// `k` lies in the run round `h`.
pub open spec fn in_run(nodes: Seq<Node>, h: int, k: int) -> bool {
    run_start(nodes, h) <= k <= run_end(nodes, h)
}

/// A node in the run round `h` has the place and the run of `h`.
pub proof fn lemma_in_run(nodes: Seq<Node>, h: int, k: int)
    requires
        0 <= h < nodes.len(),
        in_run(nodes, h, k),
    ensures
        0 <= k < nodes.len(),
        nodes[k].at == nodes[h].at,
        run_start(nodes, k) == run_start(nodes, h),
        run_end(nodes, k) == run_end(nodes, h),
{
    lemma_run_start(nodes, h);
    lemma_run_end(nodes, h);
    lemma_run_start(nodes, k);
    lemma_run_end(nodes, k);
    let s = run_start(nodes, h);
    let e = run_end(nodes, h);
    let s1 = run_start(nodes, k);
    let e1 = run_end(nodes, k);
    assert(nodes[k].at == nodes[h].at);
    if s1 < s {
        assert(nodes[s - 1].at == nodes[k].at);
    }
    if s1 > s {
        assert(nodes[s1 - 1].at == nodes[h].at);
    }
    if e1 > e {
        assert(nodes[e + 1].at == nodes[k].at);
    }
    if e1 < e {
        assert(nodes[e1 + 1].at == nodes[h].at);
    }
}

/// Moving on from a node in the run round `h` stays in that run: one up, or
/// from its end back to its start.
pub proof fn lemma_advance(nodes: Seq<Node>, h: int, k: int)
    requires
        0 <= h < nodes.len(),
        in_run(nodes, h, k),
    ensures
        in_run(nodes, h, advance(nodes, k)),
        k < run_end(nodes, h) ==> advance(nodes, k) == k + 1,
        k == run_end(nodes, h) ==> advance(nodes, k) == run_start(nodes, h),
{
    lemma_in_run(nodes, h, k);
    lemma_run_start(nodes, h);
    lemma_run_end(nodes, h);
    if k < run_end(nodes, h) {
        assert(nodes[k + 1].at == nodes[h].at);
    }
}

/// How many steps the look round the place of `home` has left when it
/// stands at `cursor`: the way on to `home`, round the end of the run if
/// `home` lies behind.
pub open spec fn remaining(nodes: Seq<Node>, home: int, cursor: int) -> int {
    if cursor < home {
        home - cursor
    } else {
        (run_end(nodes, home) - cursor) + 1 + (home - run_start(nodes, home))
    }
}

/// Number of arcs that are not marked.
pub open spec fn unmarked(marks: Seq<bool>) -> nat
    decreases marks.len(),
{
    if marks.len() == 0 {
        0
    } else {
        unmarked(marks.drop_last()) + if marks.last() {
            0nat
        } else {
            1nat
        }
    }
}

/// Marking an unmarked arc leaves one unmarked arc less.
pub proof fn lemma_mark(marks: Seq<bool>, n: int)
    requires
        0 <= n < marks.len(),
        !marks[n],
    ensures
        unmarked(marks.update(n, true)) + 1 == unmarked(marks),
    decreases marks.len(),
{
    let after = marks.update(n, true);
    if n == marks.len() - 1 {
        assert(after.drop_last() =~= marks.drop_last());
    } else {
        assert(after.drop_last() =~= marks.drop_last().update(n, true));
        lemma_mark(marks.drop_last(), n);
    }
}

/// The frames of a walk name arcs, and each cursor stands in the run of
/// the arrival of its arc.
pub open spec fn stack_ok(nodes: Seq<Node>, arrivals: Seq<usize>, stack: Seq<Frame>) -> bool {
    forall|f: int|
        0 <= f < stack.len() ==> (#[trigger] stack[f]).tip < arrivals.len() && in_run(
            nodes,
            arrivals[stack[f].tip as int] as int,
            stack[f].cursor as int,
        )
}

/// Arc `n2` starts in the place in which arc `n1` ends.
pub open spec fn follows(nodes: Seq<Node>, arrivals: Seq<usize>, n1: usize, n2: usize) -> bool {
    exists|k: int|
        0 <= k < nodes.len() && (#[trigger] nodes[k]).leaving && nodes[k].tip == n2 && nodes[k].at
            == nodes[arrivals[n1 as int] as int].at
}

/// Arc number `i` of the path is followed by the next one; the last one by
/// the first.
pub open spec fn follows_at(nodes: Seq<Node>, arrivals: Seq<usize>, arcs: Seq<usize>, i: int) -> bool {
    follows(nodes, arrivals, arcs[i], arcs[if i + 1 < arcs.len() {
        i + 1
    } else {
        0
    }])
}

/// The arcs form a closed path: each starts where the one before it ends,
/// and the first starts where the last ends.
pub open spec fn contiguous(nodes: Seq<Node>, arrivals: Seq<usize>, arcs: Seq<usize>) -> bool {
    &&& arcs.len() > 0
    &&& forall|i: int| 0 <= i < arcs.len() ==> #[trigger] follows_at(nodes, arrivals, arcs, i)
}

/// Frame `f` was reached by the arc that starts in the node at which the
/// frame before it stands.
pub open spec fn chained_at(nodes: Seq<Node>, stack: Seq<Frame>, f: int) -> bool {
    nodes[stack[f - 1].cursor as int].leaving && nodes[stack[f - 1].cursor as int].tip
        == stack[f].tip
}

/// Each frame but the first was reached from the frame before it.
pub open spec fn stack_chained(nodes: Seq<Node>, stack: Seq<Frame>) -> bool {
    forall|f: int| 0 < f < stack.len() ==> #[trigger] chained_at(nodes, stack, f)
}

/// Every number in every loop is below `arcs`.
pub open spec fn arcs_below(loops: Seq<Seq<usize>>, arcs: nat) -> bool {
    forall|l: int, i: int|
        0 <= l < loops.len() && 0 <= i < loops[l].len() ==> (#[trigger] loops[l][i]) < arcs
}

/// What holds of every state of the search.
pub open spec fn walk_ok(nodes: Seq<Node>, arrivals: Seq<usize>, w: Walk) -> bool {
    &&& w.marks.len() == arrivals.len()
    &&& 0 <= w.next <= arrivals.len()
    &&& stack_ok(nodes, arrivals, w.stack)
    &&& stack_chained(nodes, w.stack)
    &&& forall|l: int| 0 <= l < w.loops.len() ==> contiguous(nodes, arrivals, #[trigger] w.loops[l])
    &&& arcs_below(w.loops, arrivals.len())
    &&& forall|n: int| 0 <= n < w.next ==> #[trigger] w.marks[n]
}

/// Where a frame from `from` on holds `tip`, [`first_with_tip`] finds one.
pub proof fn lemma_first_with_tip(stack: Seq<Frame>, tip: usize, from: int, at: int)
    requires
        0 <= from <= at < stack.len(),
        stack[at].tip == tip,
    ensures
        from <= first_with_tip(stack, tip, from) <= at,
        stack[first_with_tip(stack, tip, from)].tip == tip,
    decreases stack.len() - from,
{
    if stack[from].tip != tip {
        lemma_first_with_tip(stack, tip, from + 1, at);
    }
}

/// The loop that a walk yields is a closed path.
pub proof fn lemma_closed_loops(nodes: Seq<Node>, arrivals: Seq<usize>, stack: Seq<Frame>)
    requires
        linked(nodes, arrivals),
        stack.len() > 0,
        stack_ok(nodes, arrivals, stack),
        stack_chained(nodes, stack),
    ensures
        forall|l: int|
            0 <= l < closed_loops(stack).len() ==> contiguous(
                nodes,
                arrivals,
                #[trigger] closed_loops(stack)[l],
            ),
        arcs_below(closed_loops(stack), arrivals.len()),
{
    let end = stack.len() - 1;
    let tip = stack.last().tip;
    let start = first_with_tip(stack, tip, 0);
    lemma_first_with_tip(stack, tip, 0, end);
    if start < end {
        let arcs = closed_loops(stack)[0];
        assert forall|i: int| 0 <= i < arcs.len() implies #[trigger] follows_at(
            nodes,
            arrivals,
            arcs,
            i,
        ) by {
            let f = start + i;
            let k = stack[f].cursor as int;
            assert(stack[f].tip < arrivals.len());
            lemma_in_run(nodes, arrivals[stack[f].tip as int] as int, k);
            assert(chained_at(nodes, stack, f + 1));
            assert(arcs[i] == stack[f].tip);
            if i + 1 < arcs.len() {
                assert(arcs[i + 1] == stack[f + 1].tip);
            } else {
                assert(arcs[0] == stack[start].tip);
            }
            assert(nodes[k].leaving && nodes[k].tip == stack[f + 1].tip && nodes[k].at
                == nodes[arrivals[stack[f].tip as int] as int].at);
        }
    }
}

/// A step keeps what holds of every state.
pub proof fn lemma_step_ok(nodes: Seq<Node>, arrivals: Seq<usize>, w: Walk)
    requires
        linked(nodes, arrivals),
        walk_ok(nodes, arrivals, w),
    ensures
        walk_ok(nodes, arrivals, step(nodes, arrivals, w)),
{
    let after = step(nodes, arrivals, w);
    if w.stack.len() == 0 {
        if w.next < w.marks.len() && !w.marks[w.next] {
            lemma_run_start(nodes, arrivals[w.next] as int);
            lemma_run_end(nodes, arrivals[w.next] as int);
            assert(stack_ok(nodes, arrivals, after.stack));
            assert(stack_chained(nodes, after.stack));
        }
    } else {
        let top = w.stack.last();
        let home = arrivals[top.tip as int] as int;
        lemma_advance(nodes, home, top.cursor as int);
        let k = advance(nodes, top.cursor as int);
        lemma_in_run(nodes, home, k);
        if k != home {
            let last = w.stack.len() - 1;
            let moved = w.stack.update(last, Frame { tip: top.tip, cursor: k as usize });
            assert(stack_ok(nodes, arrivals, moved)) by {
                assert forall|f: int| 0 <= f < moved.len() implies (#[trigger] moved[f]).tip
                    < arrivals.len() && in_run(
                    nodes,
                    arrivals[moved[f].tip as int] as int,
                    moved[f].cursor as int,
                ) by {
                    if f < last {
                        assert(moved[f] == w.stack[f]);
                    }
                }
            }
            assert(stack_chained(nodes, moved)) by {
                assert forall|f: int| 0 < f < moved.len() implies #[trigger] chained_at(
                    nodes,
                    moved,
                    f,
                ) by {
                    assert(chained_at(nodes, w.stack, f));
                }
            }
            if nodes[k].leaving {
                let tip = nodes[k].tip;
                let grown = moved.push(Frame { tip, cursor: arrivals[tip as int] });
                lemma_run_start(nodes, arrivals[tip as int] as int);
                lemma_run_end(nodes, arrivals[tip as int] as int);
                assert(stack_ok(nodes, arrivals, grown)) by {
                    assert forall|f: int| 0 <= f < grown.len() implies (#[trigger] grown[f]).tip
                        < arrivals.len() && in_run(
                        nodes,
                        arrivals[grown[f].tip as int] as int,
                        grown[f].cursor as int,
                    ) by {
                        if f <= last {
                            assert(grown[f] == moved[f]);
                        }
                    }
                }
                assert(stack_chained(nodes, grown)) by {
                    assert forall|f: int| 0 < f < grown.len() implies #[trigger] chained_at(
                        nodes,
                        grown,
                        f,
                    ) by {
                        if f <= last {
                            assert(chained_at(nodes, moved, f));
                        }
                    }
                }
                if w.marks[tip as int] {
                    lemma_closed_loops(nodes, arrivals, grown);
                    assert forall|l: int| 0 <= l < after.loops.len() implies contiguous(
                        nodes,
                        arrivals,
                        #[trigger] after.loops[l],
                    ) by {
                        if l < w.loops.len() {
                            assert(after.loops[l] == w.loops[l]);
                        } else {
                            assert(after.loops[l] == closed_loops(grown)[l - w.loops.len()]);
                        }
                    }
                }
            }
        } else {
            let rest = w.stack.drop_last();
            assert(stack_ok(nodes, arrivals, rest)) by {
                assert forall|f: int| 0 <= f < rest.len() implies (#[trigger] rest[f]).tip
                    < arrivals.len() && in_run(
                    nodes,
                    arrivals[rest[f].tip as int] as int,
                    rest[f].cursor as int,
                ) by {
                    assert(rest[f] == w.stack[f]);
                }
            }
            assert(stack_chained(nodes, rest)) by {
                assert forall|f: int| 0 < f < rest.len() implies #[trigger] chained_at(
                    nodes,
                    rest,
                    f,
                ) by {
                    assert(chained_at(nodes, w.stack, f));
                }
            }
        }
    }
}

/// Every state of the search is in order; so every loop found, at any
/// time, is a closed path of arcs.
pub proof fn lemma_walk_ok(nodes: Seq<Node>, arrivals: Seq<usize>, t: nat)
    requires
        linked(nodes, arrivals),
    ensures
        walk_ok(nodes, arrivals, state_after(nodes, arrivals, t)),
    decreases t,
{
    if t > 0 {
        lemma_walk_ok(nodes, arrivals, (t - 1) as nat);
        lemma_step_ok(nodes, arrivals, state_after(nodes, arrivals, (t - 1) as nat));
    }
}

/// When the search is over, a walk has come along every arc.
pub proof fn lemma_all_marked(nodes: Seq<Node>, arrivals: Seq<usize>, t: nat)
    requires
        linked(nodes, arrivals),
        ends_after(nodes, arrivals, t),
    ensures
        state_after(nodes, arrivals, t).marks =~= Seq::new(arrivals.len(), |n: int| true),
{
    lemma_walk_ok(nodes, arrivals, t);
}

/// Every traced loop is closed and without a gap: each of its arcs starts
/// in the place in which the arc before it ends, the first where the last
/// ends.
pub proof fn lemma_traced_loops_contiguous(nodes: Seq<Node>, arrivals: Seq<usize>)
    requires
        linked(nodes, arrivals),
    ensures
        forall|l: int|
            0 <= l < traced_loops(nodes, arrivals).len() ==> contiguous(
                nodes,
                arrivals,
                #[trigger] traced_loops(nodes, arrivals)[l],
            ),
        arcs_below(traced_loops(nodes, arrivals), arrivals.len()),
{
    lemma_walk_ok(nodes, arrivals, choose|t: nat| ends_after(nodes, arrivals, t));
}

/// The state `t` steps after the state `w`.
pub open spec fn state_from(nodes: Seq<Node>, arrivals: Seq<usize>, w: Walk, t: nat) -> Walk
    decreases t,
{
    if t == 0 {
        w
    } else {
        state_from(nodes, arrivals, step(nodes, arrivals, w), (t - 1) as nat)
    }
}

/// Steps add up.
proof fn lemma_state_from(nodes: Seq<Node>, arrivals: Seq<usize>, before: nat, t: nat)
    ensures
        state_from(nodes, arrivals, state_after(nodes, arrivals, before), t) == state_after(
            nodes,
            arrivals,
            before + t,
        ),
    decreases t,
{
    if t > 0 {
        assert(state_after(nodes, arrivals, before + 1) == step(
            nodes,
            arrivals,
            state_after(nodes, arrivals, before),
        ));
        lemma_state_from(nodes, arrivals, before + 1, (t - 1) as nat);
    }
}

/// What is left of the look round the latest place of the walk; nothing
/// where no walk is under way.
pub open spec fn remaining_on_top(nodes: Seq<Node>, arrivals: Seq<usize>, w: Walk) -> int {
    if w.stack.len() > 0 {
        remaining(nodes, arrivals[w.stack.last().tip as int] as int, w.stack.last().cursor as int)
    } else {
        0
    }
}

/// From every state that is in order the search comes to an end: each
/// step marks an arc, or passes one over, or takes a frame off the walk,
/// or moves the look round the latest place on towards the arrival.
proof fn lemma_search_from(nodes: Seq<Node>, arrivals: Seq<usize>, w: Walk) -> (t: nat)
    requires
        linked(nodes, arrivals),
        walk_ok(nodes, arrivals, w),
    ensures
        finished(state_from(nodes, arrivals, w, t)),
    decreases
        unmarked(w.marks),
        arrivals.len() - w.next,
        w.stack.len(),
        remaining_on_top(nodes, arrivals, w),
{
    if finished(w) {
        0
    } else {
        let after = step(nodes, arrivals, w);
        lemma_step_ok(nodes, arrivals, w);
        if w.stack.len() == 0 {
            if !w.marks[w.next] {
                lemma_mark(w.marks, w.next);
            }
        } else {
            let top = w.stack.last();
            let home = arrivals[top.tip as int] as int;
            lemma_in_run(nodes, home, top.cursor as int);
            lemma_advance(nodes, home, top.cursor as int);
            lemma_run_start(nodes, home);
            lemma_run_end(nodes, home);
            let k = advance(nodes, top.cursor as int);
            lemma_in_run(nodes, home, k);
            if k != home && nodes[k].leaving && !w.marks[nodes[k].tip as int] {
                lemma_mark(w.marks, nodes[k].tip as int);
            }
        }
        let t = lemma_search_from(nodes, arrivals, after);
        t + 1
    }
}

/// The search comes to an end, whatever the nodes are.
pub proof fn lemma_search_ends(nodes: Seq<Node>, arrivals: Seq<usize>)
    requires
        linked(nodes, arrivals),
    ensures
        exists|t: nat| ends_after(nodes, arrivals, t),
{
    let w = state_after(nodes, arrivals, 0);
    let t = lemma_search_from(nodes, arrivals, w);
    lemma_state_from(nodes, arrivals, 0, t);
    assert(ends_after(nodes, arrivals, t));
}

/// Round the place in which arc `n` ends stand two nodes only: the end of
/// `n` and the start of one arc.
pub open spec fn paired(nodes: Seq<Node>, arrivals: Seq<usize>, n: int) -> bool {
    let home = arrivals[n] as int;
    let k = advance(nodes, home);
    k != home && nodes[k].leaving && advance(nodes, k) == home
}

/// The arc that starts where arc `n` ends, if [`paired`] holds of `n`.
pub open spec fn next_arc(nodes: Seq<Node>, arrivals: Seq<usize>, n: int) -> usize {
    nodes[advance(nodes, arrivals[n] as int)].tip
}

/// The arcs form one round: `order` names each arc once, starts with arc
/// 0, every arc in it is followed by the next, and the last by the first.
pub open spec fn is_round(nodes: Seq<Node>, arrivals: Seq<usize>, order: Seq<usize>) -> bool {
    &&& order.len() == arrivals.len()
    &&& order.len() >= 1
    &&& order[0] == 0
    &&& forall|k: int| 0 <= k < order.len() ==> (#[trigger] order[k]) < arrivals.len()
    &&& order.no_duplicates()
    &&& forall|n: usize| n < arrivals.len() ==> #[trigger] order.contains(n)
    &&& forall|n: int| 0 <= n < arrivals.len() ==> #[trigger] paired(nodes, arrivals, n)
    &&& forall|k: int|
        0 <= k < order.len() ==> #[trigger] next_arc(nodes, arrivals, order[k] as int) == order[if k
            + 1 < order.len() {
            k + 1
        } else {
            0
        }]
}

/// The state while the first walk goes round: `j + 1` frames, one for each
/// of the first arcs of the round, all but the last moved on to the start
/// of the next arc.
pub open spec fn state_on_round(
    nodes: Seq<Node>,
    arrivals: Seq<usize>,
    order: Seq<usize>,
    j: int,
) -> Walk {
    Walk {
        marks: Seq::new(arrivals.len(), |n: int| order.take(j + 1).contains(n as usize)),
        stack: Seq::new(
            (j + 1) as nat,
            |f: int|
                Frame {
                    tip: order[f],
                    cursor: if f < j {
                        advance(nodes, arrivals[order[f] as int] as int) as usize
                    } else {
                        arrivals[order[f] as int]
                    },
                },
        ),
        loops: Seq::empty(),
        next: 1,
    }
}

/// The state after the round: all arcs marked, one loop found.
pub open spec fn state_past_round(arrivals: Seq<usize>, order: Seq<usize>, next: int) -> Walk {
    Walk {
        marks: Seq::new(arrivals.len(), |n: int| true),
        stack: Seq::empty(),
        loops: seq![order],
        next,
    }
}

/// While the first walk goes round, each step adds a frame.
proof fn lemma_round_steps(nodes: Seq<Node>, arrivals: Seq<usize>, order: Seq<usize>, j: int)
    requires
        linked(nodes, arrivals),
        is_round(nodes, arrivals, order),
        0 <= j < order.len(),
    ensures
        state_after(nodes, arrivals, (1 + j) as nat) == state_on_round(nodes, arrivals, order, j),
    decreases j,
{
    let arcs = arrivals.len();
    let target = state_on_round(nodes, arrivals, order, j);
    if j == 0 {
        let w = initial(arcs);
        assert(state_after(nodes, arrivals, 0) == w);
        let after = step(nodes, arrivals, w);
        assert(order.take(1) =~= seq![0usize]);
        assert(after.marks =~= target.marks) by {
            assert forall|n: int| 0 <= n < arcs implies after.marks[n] == target.marks[n] by {
                if n == 0 {
                    assert(order.take(1)[0] == 0);
                }
            }
        }
        assert(after.stack =~= target.stack);
        assert(after.loops =~= target.loops);
    } else {
        lemma_round_steps(nodes, arrivals, order, j - 1);
        let w = state_on_round(nodes, arrivals, order, j - 1);
        let after = step(nodes, arrivals, w);
        let n = order[j - 1] as int;
        let tip = order[j];
        assert(order.contains(order[j - 1]));
        assert(order.contains(order[j]));
        assert(w.stack.last() == Frame { tip: order[j - 1], cursor: arrivals[n] });
        assert(paired(nodes, arrivals, n));
        assert(next_arc(nodes, arrivals, n) == tip);
        let k = advance(nodes, arrivals[n] as int);
        assert(0 <= k < nodes.len()) by {
            lemma_run_start(nodes, arrivals[n] as int);
        }
        let before = order.take(j);
        let with_tip = order.take(j + 1);
        assert(!w.marks[tip as int]) by {
            if before.contains(tip) {
                let f = choose|f: int| 0 <= f < before.len() && before[f] == tip;
                assert(order[f] == order[j]);
            }
        }
        assert(after.marks =~= target.marks) by {
            assert forall|m: int| 0 <= m < arcs implies after.marks[m] == target.marks[m] by {
                let x = m as usize;
                if before.contains(x) {
                    let f = choose|f: int| 0 <= f < before.len() && before[f] == x;
                    assert(with_tip[f] == x);
                }
                if with_tip.contains(x) {
                    let f = choose|f: int| 0 <= f < with_tip.len() && with_tip[f] == x;
                    if f < j {
                        assert(before[f] == x);
                    }
                }
                if m == tip {
                    assert(with_tip[j] == tip);
                }
            }
        }
        assert(after.stack =~= target.stack);
        assert(after.loops =~= target.loops);
    }
}

/// The step that brings the first walk back to arc 0 yields the round as a
/// loop.
proof fn lemma_round_closes(nodes: Seq<Node>, arrivals: Seq<usize>, order: Seq<usize>)
    requires
        linked(nodes, arrivals),
        is_round(nodes, arrivals, order),
    ensures
        state_after(nodes, arrivals, (1 + order.len()) as nat) == state_past_round(
            arrivals,
            order,
            1,
        ),
{
    let arcs = arrivals.len();
    let j = order.len() - 1;
    lemma_round_steps(nodes, arrivals, order, j);
    let w = state_on_round(nodes, arrivals, order, j);
    let after = step(nodes, arrivals, w);
    let target = state_past_round(arrivals, order, 1);
    let n = order[j] as int;
    assert(order.contains(order[j]));
    assert(w.stack.last() == Frame { tip: order[j], cursor: arrivals[n] });
    assert(paired(nodes, arrivals, n));
    assert(next_arc(nodes, arrivals, n) == 0);
    let k = advance(nodes, arrivals[n] as int);
    assert(0 <= k < nodes.len()) by {
        lemma_run_start(nodes, arrivals[n] as int);
    }
    assert(order.take(j + 1) =~= order);
    assert(w.marks =~= target.marks) by {
        assert forall|m: int| 0 <= m < arcs implies w.marks[m] == target.marks[m] by {
            assert(order.contains(m as usize));
        }
    }
    let moved = w.stack.update(j, Frame { tip: order[j], cursor: k as usize });
    let grown = moved.push(Frame { tip: 0, cursor: arrivals[0] });
    assert(grown[0].tip == 0);
    assert(first_with_tip(grown, 0, 0) == 0);
    assert(closed_loops(grown) =~= seq![order]) by {
        assert(closed_loops(grown)[0] =~= order);
    }
    assert(after.loops =~= target.loops);
}

/// After the round every arc is passed over.
proof fn lemma_round_ends(nodes: Seq<Node>, arrivals: Seq<usize>, order: Seq<usize>, next: int)
    requires
        linked(nodes, arrivals),
        is_round(nodes, arrivals, order),
        1 <= next <= order.len(),
    ensures
        state_after(nodes, arrivals, (order.len() + next) as nat) == state_past_round(
            arrivals,
            order,
            next,
        ),
    decreases next,
{
    if next == 1 {
        lemma_round_closes(nodes, arrivals, order);
    } else {
        lemma_round_ends(nodes, arrivals, order, next - 1);
    }
}

/// Where the arcs form one round, the search finds exactly one loop: the
/// round.
pub proof fn lemma_single_round(nodes: Seq<Node>, arrivals: Seq<usize>, order: Seq<usize>)
    requires
        linked(nodes, arrivals),
        is_round(nodes, arrivals, order),
    ensures
        traced_loops(nodes, arrivals) == seq![order],
{
    lemma_round_ends(nodes, arrivals, order, order.len() as int);
    lemma_traced_loops(nodes, arrivals, (2 * order.len()) as nat);
}

/// What a view of a list of lists is: the list of their views.
pub open spec fn lists_view<T>(lists: Seq<Vec<T>>) -> Seq<Seq<T>> {
    Seq::new(lists.len(), |i: int| lists[i]@)
}

/// Computes [`advance`].
pub fn next_in_run(nodes: &Vec<Node>, k: usize) -> (r: usize)
    requires
        k < nodes.len(),
    ensures
        r == advance(nodes@, k as int),
        r < nodes.len(),
{
    proof {
        lemma_run_start(nodes@, k as int);
    }
    if k + 1 < nodes.len() && nodes[k + 1].at == nodes[k].at {
        k + 1
    } else {
        let mut s: usize = k;
        while s > 0 && nodes[s - 1].at == nodes[k].at
            invariant
                s <= k < nodes.len(),
                run_start(nodes@, k as int) == run_start(nodes@, s as int),
                nodes[s as int].at == nodes[k as int].at,
            decreases s,
        {
            s -= 1;
        }
        s
    }
}

/// Computes [`closed_loops`] and appends it to `loops`.
fn close_walk(stack: &Vec<Frame>, loops: &mut Vec<Vec<usize>>)
    requires
        stack.len() > 0,
    ensures
        lists_view(final(loops)@) == lists_view(old(loops)@) + closed_loops(stack@),
{
    let end: usize = stack.len() - 1;
    let tip: usize = stack[end].tip;
    let mut start: usize = 0;
    while stack[start].tip != tip
        invariant
            start <= end,
            end == stack.len() - 1,
            tip == stack[end as int].tip,
            first_with_tip(stack@, tip, 0) == first_with_tip(stack@, tip, start as int),
        decreases end - start,
    {
        start += 1;
    }
    if start < end {
        let mut found: Vec<usize> = Vec::new();
        let mut f: usize = start;
        while f < end
            invariant
                start <= f <= end,
                end == stack.len() - 1,
                found@ == Seq::new((f - start) as nat, |i: int| stack@[start + i].tip),
            decreases end - f,
        {
            found.push(stack[f].tip);
            proof {
                assert(found@ =~= Seq::new((f + 1 - start) as nat, |i: int| stack@[start + i].tip));
            }
            f += 1;
        }
        loops.push(found);
        proof {
            assert(lists_view(loops@) =~= lists_view(old(loops)@) + closed_loops(stack@));
        }
    } else {
        proof {
            assert(lists_view(loops@) =~= lists_view(old(loops)@) + closed_loops(stack@));
        }
    }
}

/// Searches for the loops: starts a walk at every arc that no walk has
/// come along yet, in the order of the arcs.
pub fn trace_loops(nodes: &Vec<Node>, arrivals: &Vec<usize>) -> (loops: Vec<Vec<usize>>)
    requires
        linked(nodes@, arrivals@),
    ensures
        exists|t: nat| ends_after(nodes@, arrivals@, t),
        lists_view(loops@) == traced_loops(nodes@, arrivals@),
        arcs_below(lists_view(loops@), arrivals@.len()),
{
    let arcs: usize = arrivals.len();
    let mut loops: Vec<Vec<usize>> = Vec::new();
    let mut marks: Vec<bool> = Vec::new();
    let mut n: usize = 0;
    while n < arcs
        invariant
            n <= arcs,
            marks@ == Seq::new(n as nat, |i: int| false),
        decreases arcs - n,
    {
        marks.push(false);
        proof {
            assert(marks@ =~= Seq::new((n + 1) as nat, |i: int| false));
        }
        n += 1;
    }
    let mut stack: Vec<Frame> = Vec::new();
    let mut next: usize = 0;
    let ghost mut t: nat = 0;
    proof {
        assert(lists_view(loops@) =~= Seq::<Seq<usize>>::empty());
    }
    loop
        invariant
            arcs == arrivals.len(),
            linked(nodes@, arrivals@),
            marks.len() == arcs,
            next <= arcs,
            stack_ok(nodes@, arrivals@, stack@),
            state_after(nodes@, arrivals@, t) == (Walk {
                marks: marks@,
                stack: stack@,
                loops: lists_view(loops@),
                next: next as int,
            }),
        ensures
            ends_after(nodes@, arrivals@, t),
            state_after(nodes@, arrivals@, t).loops == lists_view(loops@),
        decreases
            unmarked(marks@),
            arcs - next,
            stack.len(),
            if stack.len() > 0 {
                remaining(
                    nodes@,
                    arrivals[stack[stack.len() - 1].tip as int] as int,
                    stack[stack.len() - 1].cursor as int,
                )
            } else {
                0
            },
    {
        let ghost w = state_after(nodes@, arrivals@, t);
        proof {
            t = t + 1;
        }
        if stack.len() == 0 {
            if next >= arcs {
                proof {
                    t = (t - 1) as nat;
                }
                break;
            } else if marks[next] {
                next += 1;
            } else {
                proof {
                    lemma_mark(marks@, next as int);
                    lemma_run_start(nodes@, arrivals[next as int] as int);
                    lemma_run_end(nodes@, arrivals[next as int] as int);
                }
                marks[next] = true;
                stack.push(Frame { tip: next, cursor: arrivals[next] });
                proof {
                    assert(stack@ =~= seq![Frame { tip: next, cursor: arrivals[next as int] }]);
                }
                next += 1;
            }
        } else {
            let last: usize = stack.len() - 1;
            let top: Frame = stack[last];
            let home: usize = arrivals[top.tip];
            proof {
                lemma_in_run(nodes@, home as int, top.cursor as int);
                lemma_advance(nodes@, home as int, top.cursor as int);
                lemma_run_start(nodes@, home as int);
                lemma_run_end(nodes@, home as int);
            }
            let k: usize = next_in_run(nodes, top.cursor);
            proof {
                lemma_in_run(nodes@, home as int, k as int);
            }
            if k == home {
                stack.pop();
                proof {
                    assert(stack@ =~= w.stack.drop_last());
                }
            } else {
                stack[last] = Frame { tip: top.tip, cursor: k };
                if nodes[k].leaving {
                    let tip: usize = nodes[k].tip;
                    stack.push(Frame { tip, cursor: arrivals[tip] });
                    proof {
                        lemma_run_start(nodes@, arrivals[tip as int] as int);
                        lemma_run_end(nodes@, arrivals[tip as int] as int);
                    }
                    if marks[tip] {
                        close_walk(&stack, &mut loops);
                        stack.clear();
                    } else {
                        proof {
                            lemma_mark(marks@, tip as int);
                        }
                        marks[tip] = true;
                    }
                }
            }
        }
    }
    proof {
        lemma_traced_loops(nodes@, arrivals@, t);
        lemma_traced_loops_contiguous(nodes@, arrivals@);
    }
    loops
}

} // verus!
