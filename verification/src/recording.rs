//! What many calls, recorded one after another, come to.
use vstd::prelude::*;

use crate::hits;
use crate::trace;

verus! {

/// Calls of one node, from `caller` where it is known.
#[derive(Clone, Copy)]
pub struct Calls {
    pub caller: Option<usize>,
    pub callee: usize,
    pub count: u64,
}

/// The trace after these calls, recorded in their order.
pub open spec fn recorded_all(start: trace::TraceModel, calls: Seq<Calls>) -> trace::TraceModel
    decreases calls.len(),
{
    if calls.len() == 0 {
        start
    } else {
        trace::recorded(
            recorded_all(start, calls.drop_last()),
            calls.last().caller,
            calls.last().callee,
            calls.last().count,
        )
    }
}

/// The calls lead to the node.
pub open spec fn into_node(node: usize) -> spec_fn(Calls) -> bool {
    |each: Calls| each.callee == node
}

/// The calls take the edge.
pub open spec fn along_edge(edge: (usize, usize)) -> spec_fn(Calls) -> bool {
    |each: Calls| each.caller == Some(edge.0) && each.callee == edge.1
}

/// How many of the calls there are for which `which` holds.
pub open spec fn total(calls: Seq<Calls>, which: spec_fn(Calls) -> bool) -> int {
    hits::sum_of(
        calls,
        |each: Calls|
            if which(each) {
                each.count as int
            } else {
                0
            },
    )
}

/// `which` holds of some of the calls.
pub open spec fn any(calls: Seq<Calls>, which: spec_fn(Calls) -> bool) -> bool {
    exists|i: int| 0 <= i < calls.len() && which(#[trigger] calls[i])
}

/// No count overflows when the calls are recorded.
pub open spec fn room_for(start: trace::TraceModel, calls: Seq<Calls>) -> bool {
    forall|node: usize|
        hits::count_of(start.node_hits, node) + #[trigger] total(calls, into_node(node))
            <= u64::MAX
}

proof fn lemma_any(calls: Seq<Calls>, which: spec_fn(Calls) -> bool)
    requires
        calls.len() > 0,
    ensures
        any(calls, which) == (any(calls.drop_last(), which) || which(calls.last())),
{
    let front = calls.drop_last();
    if any(front, which) {
        let i = choose|i: int| 0 <= i < front.len() && which(#[trigger] front[i]);
        assert(which(calls[i]));
    }
    if any(calls, which) && !which(calls.last()) {
        let i = choose|i: int| 0 <= i < calls.len() && which(#[trigger] calls[i]);
        assert(which(front[i]));
    }
    assert(calls[calls.len() - 1] == calls.last());
}

proof fn lemma_total_step(calls: Seq<Calls>, which: spec_fn(Calls) -> bool)
    requires
        calls.len() > 0,
    ensures
        total(calls, which) == total(calls.drop_last(), which) + if which(calls.last()) {
            calls.last().count as int
        } else {
            0
        },
{
}

proof fn lemma_edge_within_node(calls: Seq<Calls>, edge: (usize, usize))
    ensures
        total(calls, along_edge(edge)) <= total(calls, into_node(edge.1)),
    decreases calls.len(),
{
    if calls.len() > 0 {
        lemma_edge_within_node(calls.drop_last(), edge);
        lemma_total_step(calls, along_edge(edge));
        lemma_total_step(calls, into_node(edge.1));
    }
}

/// A node's count after the calls is what it was before and the calls of that node, added up; the
/// node is in the trace where it was before or one of the calls leads to it.
pub proof fn lemma_node_total(start: trace::TraceModel, calls: Seq<Calls>, node: usize)
    requires
        hits::count_of(start.node_hits, node) + total(calls, into_node(node)) <= u64::MAX,
    ensures
        ({
            let after = recorded_all(start, calls);
            &&& hits::count_of(after.node_hits, node) == hits::count_of(start.node_hits, node)
                + total(calls, into_node(node))
            &&& after.node_hits.contains_key(node) <==> start.node_hits.contains_key(node) || any(
                calls,
                into_node(node),
            )
        }),
    decreases calls.len(),
{
    if calls.len() > 0 {
        lemma_total_step(calls, into_node(node));
        lemma_any(calls, into_node(node));
        lemma_node_total(start, calls.drop_last(), node);
    }
}

/// An edge's count after the calls is what it was before and the calls along that edge, added up;
/// the edge is in the trace where it was before or one of the calls takes it.
pub proof fn lemma_edge_total(start: trace::TraceModel, calls: Seq<Calls>, edge: (usize, usize))
    requires
        hits::count_of(start.edge_hits, edge) + total(calls, along_edge(edge)) <= u64::MAX,
    ensures
        ({
            let after = recorded_all(start, calls);
            &&& hits::count_of(after.edge_hits, edge) == hits::count_of(start.edge_hits, edge)
                + total(calls, along_edge(edge))
            &&& after.edge_hits.contains_key(edge) <==> start.edge_hits.contains_key(edge) || any(
                calls,
                along_edge(edge),
            )
        }),
    decreases calls.len(),
{
    if calls.len() > 0 {
        lemma_total_step(calls, along_edge(edge));
        lemma_any(calls, along_edge(edge));
        lemma_edge_total(start, calls.drop_last(), edge);
    }
}

proof fn lemma_any_reordered(
    calls: Seq<Calls>,
    others: Seq<Calls>,
    which: spec_fn(Calls) -> bool,
)
    requires
        calls.to_multiset() == others.to_multiset(),
        any(calls, which),
    ensures
        any(others, which),
{
    let i = choose|i: int| 0 <= i < calls.len() && which(#[trigger] calls[i]);
    assert(calls.contains(calls[i]));
    vstd::seq_lib::to_multiset_contains(calls, calls[i]);
    vstd::seq_lib::to_multiset_contains(others, calls[i]);
    let j = choose|j: int| 0 <= j < others.len() && others[j] == calls[i];
    assert(which(others[j]));
}

/// The order in which calls are recorded makes no difference.
pub proof fn lemma_order_of_calls(
    start: trace::TraceModel,
    calls: Seq<Calls>,
    others: Seq<Calls>,
)
    requires
        trace::edges_covered(start),
        room_for(start, calls),
        calls.to_multiset() == others.to_multiset(),
    ensures
        recorded_all(start, calls) == recorded_all(start, others),
{
    let one = recorded_all(start, calls);
    let two = recorded_all(start, others);
    assert forall|node: usize| #[trigger] one.node_hits.contains_key(node) == two.node_hits.contains_key(
        node,
    ) by {
        lemma_node_reordered(start, calls, others, node);
    }
    assert forall|node: usize| #[trigger] one.node_hits.contains_key(node) implies one.node_hits[node]
        == two.node_hits[node] by {
        lemma_node_reordered(start, calls, others, node);
    }
    assert(one.node_hits.dom() =~= two.node_hits.dom());
    assert(one.node_hits =~= two.node_hits);
    assert forall|edge: (usize, usize)| #[trigger] one.edge_hits.contains_key(edge) == two.edge_hits.contains_key(
        edge,
    ) by {
        lemma_edge_reordered(start, calls, others, edge);
    }
    assert forall|edge: (usize, usize)| #[trigger] one.edge_hits.contains_key(edge) implies one.edge_hits[edge]
        == two.edge_hits[edge] by {
        lemma_edge_reordered(start, calls, others, edge);
    }
    assert(one.edge_hits.dom() =~= two.edge_hits.dom());
    assert(one.edge_hits =~= two.edge_hits);
}

proof fn lemma_total_reordered(
    calls: Seq<Calls>,
    others: Seq<Calls>,
    which: spec_fn(Calls) -> bool,
)
    requires
        calls.to_multiset() == others.to_multiset(),
    ensures
        total(calls, which) == total(others, which),
        any(calls, which) == any(others, which),
{
    hits::lemma_sum_reordered(
        calls,
        others,
        |each: Calls|
            if which(each) {
                each.count as int
            } else {
                0
            },
    );
    if any(calls, which) {
        lemma_any_reordered(calls, others, which);
    }
    if any(others, which) {
        lemma_any_reordered(others, calls, which);
    }
}

proof fn lemma_node_reordered(
    start: trace::TraceModel,
    calls: Seq<Calls>,
    others: Seq<Calls>,
    node: usize,
)
    requires
        room_for(start, calls),
        calls.to_multiset() == others.to_multiset(),
    ensures
        ({
            let one = recorded_all(start, calls).node_hits;
            let two = recorded_all(start, others).node_hits;
            &&& one.contains_key(node) == two.contains_key(node)
            &&& hits::count_of(one, node) == hits::count_of(two, node)
        }),
{
    lemma_total_reordered(calls, others, into_node(node));
    lemma_node_total(start, calls, node);
    lemma_node_total(start, others, node);
}

proof fn lemma_edge_reordered(
    start: trace::TraceModel,
    calls: Seq<Calls>,
    others: Seq<Calls>,
    edge: (usize, usize),
)
    requires
        trace::edges_covered(start),
        room_for(start, calls),
        calls.to_multiset() == others.to_multiset(),
    ensures
        ({
            let one = recorded_all(start, calls).edge_hits;
            let two = recorded_all(start, others).edge_hits;
            &&& one.contains_key(edge) == two.contains_key(edge)
            &&& hits::count_of(one, edge) == hits::count_of(two, edge)
        }),
{
    lemma_total_reordered(calls, others, along_edge(edge));
    trace::lemma_edge_covered(start, edge.0, edge.1);
    lemma_edge_within_node(calls, edge);
    assert(hits::count_of(start.node_hits, edge.1) + total(calls, into_node(edge.1)) <= u64::MAX);
    lemma_edge_total(start, calls, edge);
    lemma_edge_total(start, others, edge);
}

/// Calls that are recorded one after another keep the edges covered.
pub proof fn lemma_all_covered(start: trace::TraceModel, calls: Seq<Calls>)
    requires
        trace::edges_covered(start),
        room_for(start, calls),
    ensures
        trace::edges_covered(recorded_all(start, calls)),
    decreases calls.len(),
{
    if calls.len() > 0 {
        let front = calls.drop_last();
        let last = calls.last();
        assert forall|node: usize|
            hits::count_of(start.node_hits, node) + #[trigger] total(front, into_node(node))
                <= u64::MAX by {
            lemma_total_step(calls, into_node(node));
            assert(hits::count_of(start.node_hits, node) + total(calls, into_node(node))
                <= u64::MAX);
        }
        lemma_all_covered(start, front);
        lemma_total_step(calls, into_node(last.callee));
        lemma_node_total(start, front, last.callee);
        assert(hits::count_of(start.node_hits, last.callee) + total(
            calls,
            into_node(last.callee),
        ) <= u64::MAX);
        trace::lemma_recorded_covered(
            recorded_all(start, front),
            last.caller,
            last.callee,
            last.count,
        );
    }
}

/// Two calls along one edge come to the same as one with both counts.
pub proof fn lemma_calls_merge(
    start: trace::TraceModel,
    caller: Option<usize>,
    callee: usize,
    first: u64,
    second: u64,
)
    requires
        trace::edges_covered(start),
        hits::count_of(start.node_hits, callee) + first + second <= u64::MAX,
    ensures
        trace::recorded(
            trace::recorded(start, caller, callee, first),
            caller,
            callee,
            second,
        ) == trace::recorded(start, caller, callee, (first + second) as u64),
{
    let twice = trace::recorded(
        trace::recorded(start, caller, callee, first),
        caller,
        callee,
        second,
    );
    let once = trace::recorded(start, caller, callee, (first + second) as u64);
    if let Some(from) = caller {
        trace::lemma_edge_covered(start, from, callee);
    }
    assert(twice.node_hits =~= once.node_hits);
    assert(twice.edge_hits =~= once.edge_hits);
}

} // verus!
