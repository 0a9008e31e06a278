//! The call graph of a binary and the table of its functions, from the calls that were found.
use std::collections::HashMap;
use vstd::prelude::*;
use vstd::string::StringExecFns;

use crate::binary;
use crate::binary::Function;
use crate::callgraph;
use crate::callgraph::CallGraph;
use crate::callgraph::NodeKind;
use crate::order;
use crate::text;
use crate::text::Descending;

verus! {

broadcast use vstd::std_specs::hash::group_hash_axioms;

/// How many of the calls go to `target`.
pub open spec fn times_called(calls: Seq<(u64, u64)>, target: u64) -> nat
    decreases calls.len(),
{
    if calls.len() == 0 {
        0
    } else {
        times_called(calls.drop_last(), target) + if calls.last().1 == target {
            1nat
        } else {
            0nat
        }
    }
}

/// The number of calls to each target that is called.
pub open spec fn incoming(calls: Seq<(u64, u64)>) -> Map<u64, u32> {
    Map::new(
        |target: u64| times_called(calls, target) > 0,
        |target: u64| times_called(calls, target) as u32,
    )
}

proof fn lemma_times_called_take(calls: Seq<(u64, u64)>, i: int, target: u64)
    requires
        0 <= i <= calls.len(),
    ensures
        times_called(calls.take(i), target) <= times_called(calls, target),
    decreases calls.len(),
{
    if i < calls.len() {
        lemma_times_called_take(calls.drop_last(), i, target);
        assert(calls.drop_last().take(i) =~= calls.take(i));
    } else {
        assert(calls.take(i) =~= calls);
    }
}

/// No target is called more often than a count can hold.
pub open spec fn incoming_fits(calls: Seq<(u64, u64)>) -> bool {
    forall|target: u64| #[trigger] times_called(calls, target) <= u32::MAX
}

/// Counts the calls to each target; `None` where a count would overflow.
pub fn count_incoming(calls: &Vec<(u64, u64)>) -> (r: Option<HashMap<u64, u32>>)
    ensures
        match r {
            Some(counts) => incoming_fits(calls@) && counts@ == incoming(calls@),
            None => !incoming_fits(calls@),
        },
{
    let mut counts: HashMap<u64, u32> = HashMap::new();
    let mut i: usize = 0;
    assert(calls@.take(0) =~= Seq::empty());
    assert(counts@ =~= incoming(calls@.take(0)));
    while i < calls.len()
        invariant
            i <= calls.len(),
            incoming_fits(calls@.take(i as int)),
            counts@ == incoming(calls@.take(i as int)),
        decreases calls.len() - i,
    {
        let target = calls[i].1;
        proof {
            assert(calls@.take(i + 1).drop_last() =~= calls@.take(i as int));
            assert(calls@.take(i + 1).last() == calls@[i as int]);
            lemma_times_called_take(calls@, i + 1, target);
            assert forall|t: u64| #[trigger]
                times_called(calls@.take(i + 1), t) == times_called(calls@.take(i as int), t)
                    + if t == target {
                    1nat
                } else {
                    0nat
                } by {}
            assert(times_called(calls@.take(i as int), target) <= u32::MAX);
        }
        let seen: u32 = match counts.get(&target) {
            Some(n) => *n,
            None => 0,
        };
        assert(seen == times_called(calls@.take(i as int), target));
        if seen == u32::MAX {
            assert(times_called(calls@, target) > u32::MAX);
            return None;
        }
        counts.insert(target, seen + 1);
        proof {
            assert forall|t: u64| #[trigger] times_called(calls@.take(i + 1), t) <= u32::MAX by {
                assert(times_called(calls@.take(i as int), t) <= u32::MAX);
            }
        }
        i = i + 1;
        assert(counts@ =~= incoming(calls@.take(i as int)));
    }
    assert(calls@.take(i as int) =~= calls@);
    Some(counts)
}

/// The number of calls to the function, by the count.
pub open spec fn calls_in(f: binary::FunctionModel, counts: Map<u64, u32>) -> u32 {
    if counts.contains_key(f.address) {
        counts[f.address]
    } else {
        0
    }
}

/// The functions from the most called down; those called equally often in the order in which they
/// came.
pub open spec fn most_called_first(
    functions: Seq<binary::FunctionModel>,
    counts: Map<u64, u32>,
) -> Seq<binary::FunctionModel> {
    order::stable_sort(
        functions,
        |f: binary::FunctionModel| calls_in(f, counts) as u64,
        order::rank_lt::<Descending>(),
    )
}

fn read_count(f: &Function, counts: &HashMap<u64, u32>) -> (n: u32)
    ensures
        n == calls_in(f@, counts@),
{
    match counts.get(&f.address) {
        Some(n) => *n,
        None => 0,
    }
}

/// The functions from the most called down.
pub fn rank_by_calls_in(functions: &[Function], counts: &HashMap<u64, u32>) -> (r: Vec<Function>)
    ensures
        binary::function_models(r@) == most_called_first(
            binary::function_models(functions@),
            counts@,
        ),
{
    let mut keys: Vec<Descending> = Vec::new();
    let mut i: usize = 0;
    let ghost key = |f: binary::FunctionModel| calls_in(f, counts@) as u64;
    while i < functions.len()
        invariant
            i <= functions@.len(),
            keys.len() == i,
            forall|k: int|
                0 <= k < i ==> (#[trigger] keys@[k]).0 == calls_in(functions@[k]@, counts@),
        decreases functions@.len() - i,
    {
        keys.push(Descending(read_count(&functions[i], counts) as u64));
        i = i + 1;
    }
    assert(order::ranks(keys@) =~= binary::function_models(functions@).map_values(key));
    let order = order::order_by_rank(&keys);
    binary::reordered(functions, &order)
}

/// The row of one function.
pub open spec fn row_text(f: binary::FunctionModel, counts: Map<u64, u32>) -> Seq<char> {
    "  "@ + text::pad_right(f.name, 24) + " "@ + text::prefixed_hex_padded(f.address as nat, 10)
        + " "@ + text::pad_left(text::dec(f.size as nat), 6) + " "@ + text::pad_left(
        text::dec(f.instructions as nat),
        7,
    ) + " "@ + text::pad_left(text::dec(calls_in(f, counts) as nat), 5) + " "@ + text::pad_left(
        text::dec(f.calls_out as nat),
        5,
    ) + "\n"@
}

/// The row of each function.
pub open spec fn rows_text(functions: Seq<binary::FunctionModel>, counts: Map<u64, u32>) -> Seq<
    char,
>
    decreases functions.len(),
{
    if functions.len() == 0 {
        Seq::empty()
    } else {
        rows_text(functions.drop_last(), counts) + row_text(functions.last(), counts)
    }
}

/// The head of the table.
pub open spec fn table_head() -> Seq<char> {
    "Functions:\n  NAME                           ADDR   SIZE  INSTRS    IN   OUT\n"@
}

/// The table of the functions, the most called first.
pub open spec fn table_text(
    functions: Seq<binary::FunctionModel>,
    counts: Map<u64, u32>,
) -> Seq<char> {
    table_head() + rows_text(most_called_first(functions, counts), counts)
}

fn push_row(out: &mut String, f: &Function, counts: &HashMap<u64, u32>)
    ensures
        final(out)@ == old(out)@ + row_text(f@, counts@),
{
    let ghost before = out@;
    out.append("  ");
    text::push_pad_right(out, f.name.as_str(), 24);
    out.append(" ");
    text::push_prefixed_hex_padded(out, f.address, 10);
    out.append(" ");
    text::push_dec_padded(out, f.size, 6);
    let ghost half = "  "@ + text::pad_right(f.name@, 24) + " "@ + text::prefixed_hex_padded(
        f.address as nat,
        10,
    ) + " "@ + text::pad_left(text::dec(f.size as nat), 6);
    assert(out@ =~= before + half);
    out.append(" ");
    text::push_dec_padded(out, f.instructions as u64, 7);
    out.append(" ");
    text::push_dec_padded(out, read_count(f, counts) as u64, 5);
    out.append(" ");
    text::push_dec_padded(out, f.calls_out as u64, 5);
    out.append("\n");
    assert(out@ =~= before + row_text(f@, counts@));
}

/// The table of the functions, the most called first.
pub fn function_table(functions: &[Function], counts: &HashMap<u64, u32>) -> (out: String)
    ensures
        out@ == table_text(binary::function_models(functions@), counts@),
{
    let ranked = rank_by_calls_in(functions, counts);
    let mut out = String::new();
    out.append("Functions:\n  NAME                           ADDR   SIZE  INSTRS    IN   OUT\n");
    let ghost rows = binary::function_models(ranked@);
    let mut i: usize = 0;
    assert(out@ =~= table_head() + rows_text(rows.take(0), counts@));
    while i < ranked.len()
        invariant
            i <= ranked.len(),
            rows == binary::function_models(ranked@),
            out@ == table_head() + rows_text(rows.take(i as int), counts@),
        decreases ranked.len() - i,
    {
        push_row(&mut out, &ranked[i], counts);
        assert(rows.take(i + 1).drop_last() =~= rows.take(i as int));
        assert(rows.take(i + 1).last() == ranked@[i as int]@);
        i = i + 1;
        assert(out@ =~= table_head() + rows_text(rows.take(i as int), counts@));
    }
    assert(rows.take(i as int) =~= rows);
    out
}

/// The closing lines of the report.
pub open spec fn summary_text(
    path: Seq<char>,
    functions: nat,
    plt_entries: nat,
    calls: nat,
    nodes: nat,
    edges: nat,
) -> Seq<char> {
    "Binary: "@ + path + "\n  functions:    "@ + text::dec(functions) + "\n  plt entries:  "@
        + text::dec(plt_entries) + "\n  direct calls: "@ + text::dec(calls) + "\nGraph: "@
        + text::dec(nodes) + " nodes, "@ + text::dec(edges) + " edges\n"@
}

/// The closing lines of the report.
pub fn summary(
    path: &str,
    functions: usize,
    plt_entries: usize,
    calls: usize,
    nodes: usize,
    edges: usize,
) -> (out: String)
    ensures
        out@ == summary_text(
            path@,
            functions as nat,
            plt_entries as nat,
            calls as nat,
            nodes as nat,
            edges as nat,
        ),
{
    let mut out = String::new();
    out.append("Binary: ");
    out.append(path);
    out.append("\n  functions:    ");
    text::push_dec(&mut out, functions as u64);
    out.append("\n  plt entries:  ");
    text::push_dec(&mut out, plt_entries as u64);
    let ghost half = "Binary: "@ + path@ + "\n  functions:    "@ + text::dec(functions as nat)
        + "\n  plt entries:  "@ + text::dec(plt_entries as nat);
    assert(out@ =~= half);
    out.append("\n  direct calls: ");
    text::push_dec(&mut out, calls as u64);
    out.append("\nGraph: ");
    text::push_dec(&mut out, nodes as u64);
    out.append(" nodes, ");
    text::push_dec(&mut out, edges as u64);
    out.append(" edges\n");
    assert(out@ =~= summary_text(
        path@,
        functions as nat,
        plt_entries as nat,
        calls as nat,
        nodes as nat,
        edges as nat,
    ));
    out
}

/// The graph of the calls whose caller has a name; each callee under what it resolves to.
pub open spec fn call_graph(
    calls: Seq<(u64, u64)>,
    functions_by_addr: Map<u64, Seq<char>>,
    plt_names: Map<u64, Seq<char>>,
) -> callgraph::GraphModel
    decreases calls.len(),
{
    if calls.len() == 0 {
        callgraph::GraphModel { nodes: Seq::empty(), edges: Seq::empty() }
    } else {
        let rest = call_graph(calls.drop_last(), functions_by_addr, plt_names);
        let (caller, target) = calls.last();
        if functions_by_addr.contains_key(caller) {
            let (callee, kind) = binary::resolved(target, functions_by_addr, plt_names);
            callgraph::with_call(rest, functions_by_addr[caller], NodeKind::Local, callee, kind)
        } else {
            rest
        }
    }
}

proof fn lemma_call_graph_grows(
    calls: Seq<(u64, u64)>,
    functions_by_addr: Map<u64, Seq<char>>,
    plt_names: Map<u64, Seq<char>>,
    i: int,
)
    requires
        0 <= i <= calls.len(),
    ensures
        call_graph(calls.take(i), functions_by_addr, plt_names).nodes.len() <= call_graph(
            calls,
            functions_by_addr,
            plt_names,
        ).nodes.len(),
        call_graph(calls.take(i), functions_by_addr, plt_names).edges.len() <= call_graph(
            calls,
            functions_by_addr,
            plt_names,
        ).edges.len(),
    decreases calls.len(),
{
    if i < calls.len() {
        lemma_call_graph_grows(calls.drop_last(), functions_by_addr, plt_names, i);
        assert(calls.drop_last().take(i) =~= calls.take(i));
    } else {
        assert(calls.take(i) =~= calls);
    }
}

/// The numbers of a graph's nodes and edges suffice for this one.
pub open spec fn graph_fits(graph: callgraph::GraphModel) -> bool {
    graph.nodes.len() <= u32::MAX && graph.edges.len() <= u32::MAX
}

/// Builds the graph of the calls; `None` where it would have more nodes or edges than can be
/// numbered.
pub fn build_call_graph(
    calls: &Vec<(u64, u64)>,
    functions_by_addr: &HashMap<u64, String>,
    plt_names: &HashMap<u64, String>,
) -> (r: Option<CallGraph>)
    ensures
        ({
            let graph = call_graph(
                calls@,
                text::text_map(functions_by_addr@),
                text::text_map(plt_names@),
            );
            match r {
                Some(built) => graph_fits(graph) && built.wf() && built@ == graph,
                None => !graph_fits(graph),
            }
        }),
{
    let ghost fm = text::text_map(functions_by_addr@);
    let ghost pm = text::text_map(plt_names@);
    let mut graph = CallGraph::new();
    let mut i: usize = 0;
    assert(graph@ =~= call_graph(calls@.take(0), fm, pm));
    while i < calls.len()
        invariant
            i <= calls.len(),
            fm == text::text_map(functions_by_addr@),
            pm == text::text_map(plt_names@),
            graph.wf(),
            graph_fits(graph@),
            graph@ == call_graph(calls@.take(i as int), fm, pm),
        decreases calls.len() - i,
    {
        let (caller, target) = calls[i];
        proof {
            assert(calls@.take(i + 1).drop_last() =~= calls@.take(i as int));
            assert(calls@.take(i + 1).last() == calls@[i as int]);
            lemma_call_graph_grows(calls@, fm, pm, i + 1);
            assert(fm.contains_key(caller) == functions_by_addr@.contains_key(caller));
        }
        if let Some(caller_name) = functions_by_addr.get(&caller) {
            let (callee, kind) = binary::resolve_target(target, functions_by_addr, plt_names);
            let ghost next = callgraph::with_call(
                graph@,
                caller_name@,
                NodeKind::Local,
                callee@,
                kind,
            );
            assert(next == call_graph(calls@.take(i + 1), fm, pm));
            if !graph.has_room(caller_name.as_str(), callee.as_str()) {
                assert(next.nodes.len() > u32::MAX || next.edges.len() > u32::MAX);
                return None;
            }
            graph.add_call(caller_name.as_str(), NodeKind::Local, callee.as_str(), kind);
        }
        i = i + 1;
    }
    assert(calls@.take(i as int) =~= calls@);
    Some(graph)
}

/// How many of the calls have a caller with a name.
pub open spec fn named_calls(calls: Seq<(u64, u64)>, functions_by_addr: Map<u64, Seq<char>>) -> nat
    decreases calls.len(),
{
    if calls.len() == 0 {
        0
    } else {
        named_calls(calls.drop_last(), functions_by_addr) + if functions_by_addr.contains_key(
            calls.last().0,
        ) {
            1nat
        } else {
            0nat
        }
    }
}

/// The graph has one edge for each call whose caller has a name, so no more edges than there are
/// calls, and no more than two nodes for each.
pub proof fn lemma_call_graph_size(
    calls: Seq<(u64, u64)>,
    functions_by_addr: Map<u64, Seq<char>>,
    plt_names: Map<u64, Seq<char>>,
)
    ensures
        ({
            let graph = call_graph(calls, functions_by_addr, plt_names);
            &&& graph.edges.len() == named_calls(calls, functions_by_addr)
            &&& graph.edges.len() <= calls.len()
            &&& graph.nodes.len() <= 2 * graph.edges.len()
        }),
    decreases calls.len(),
{
    if calls.len() > 0 {
        lemma_call_graph_size(calls.drop_last(), functions_by_addr, plt_names);
    }
}

/// Where the functions whose calls were listed are also those that the names come from, every call
/// is an edge of the graph.
pub proof fn lemma_every_call_drawn(
    functions: Seq<binary::FunctionModel>,
    section: Option<crate::image::SectionModel>,
    plt_names: Map<u64, Seq<char>>,
)
    ensures
        call_graph(
            crate::calls::calls_of_all(functions, section),
            binary::name_index(functions),
            plt_names,
        ).edges.len() == crate::calls::calls_of_all(functions, section).len(),
{
    let calls = crate::calls::calls_of_all(functions, section);
    let names = binary::name_index(functions);
    assert forall|i: int| 0 <= i < calls.len() implies names.contains_key(
        (#[trigger] calls[i]).0,
    ) by {
        crate::calls::lemma_callers_are_functions(functions, section, i);
        binary::lemma_named_addresses(functions, calls[i].0);
    }
    lemma_call_graph_size(calls, names, plt_names);
    lemma_all_named(calls, names);
}

proof fn lemma_all_named(calls: Seq<(u64, u64)>, names: Map<u64, Seq<char>>)
    requires
        forall|i: int| 0 <= i < calls.len() ==> names.contains_key((#[trigger] calls[i]).0),
    ensures
        named_calls(calls, names) == calls.len(),
    decreases calls.len(),
{
    if calls.len() > 0 {
        let front = calls.drop_last();
        assert forall|i: int| 0 <= i < front.len() implies names.contains_key(
            (#[trigger] front[i]).0,
        ) by {
            assert(front[i] == calls[i]);
        }
        lemma_all_named(front, names);
        assert(names.contains_key(calls[calls.len() - 1].0));
    }
}

/// The table lists the functions, none before one that is called more often.
pub proof fn lemma_most_called_first(
    functions: Seq<binary::FunctionModel>,
    counts: Map<u64, u32>,
)
    requires
        functions.len() <= usize::MAX,
    ensures
        ({
            let listed = most_called_first(functions, counts);
            &&& listed.len() == functions.len()
            &&& forall|f: binary::FunctionModel| listed.contains(f) <==> functions.contains(f)
            &&& forall|i: int, j: int|
                0 <= i < j < listed.len() ==> calls_in(#[trigger] listed[i], counts) >= calls_in(
                    #[trigger] listed[j],
                    counts,
                )
        }),
{
    let key = |f: binary::FunctionModel| calls_in(f, counts) as u64;
    <Descending as order::Ranked>::lemma_strict();
    order::lemma_stable_sort(functions, key, order::rank_lt::<Descending>());
    let listed = most_called_first(functions, counts);
    assert forall|i: int, j: int| 0 <= i < j < listed.len() implies calls_in(
        #[trigger] listed[i],
        counts,
    ) >= calls_in(#[trigger] listed[j], counts) by {
        assert(!order::rank_lt::<Descending>()(key(listed[j]), key(listed[i])));
    }
}

/// The name of what stands at a target: that of the function there, else that of the stub, else one
/// made of the address.
pub open spec fn callee_name(
    target: u64,
    functions_by_addr: Map<u64, Seq<char>>,
    plt_names: Map<u64, Seq<char>>,
) -> Seq<char> {
    if functions_by_addr.contains_key(target) {
        functions_by_addr[target]
    } else if plt_names.contains_key(target) {
        plt_names[target]
    } else {
        seq!['s', 'u', 'b', '_'] + text::hex(target as nat)
    }
}

/// The kind of what stands at a target: a function of the file, else a stub, else unknown.
pub open spec fn callee_kind(
    target: u64,
    functions_by_addr: Map<u64, Seq<char>>,
    plt_names: Map<u64, Seq<char>>,
) -> NodeKind {
    if functions_by_addr.contains_key(target) {
        NodeKind::Local
    } else if plt_names.contains_key(target) {
        NodeKind::Plt
    } else {
        NodeKind::Unknown
    }
}

proof fn lemma_callee(
    target: u64,
    functions_by_addr: Map<u64, Seq<char>>,
    plt_names: Map<u64, Seq<char>>,
)
    ensures
        binary::resolved(target, functions_by_addr, plt_names) == (
            callee_name(target, functions_by_addr, plt_names),
            callee_kind(target, functions_by_addr, plt_names),
        ),
{
    binary::lemma_resolved_name(target, functions_by_addr, plt_names);
    binary::lemma_resolved_kind(target, functions_by_addr, plt_names);
}

/// The calls whose caller has a name, each from that name as a local function to the name and kind
/// of what stands at its target.
pub open spec fn drawn_calls(
    calls: Seq<(u64, u64)>,
    functions_by_addr: Map<u64, Seq<char>>,
    plt_names: Map<u64, Seq<char>>,
) -> Seq<callgraph::CallModel> {
    calls.filter(|call: (u64, u64)| functions_by_addr.contains_key(call.0)).map_values(
        |call: (u64, u64)|
            callgraph::CallModel {
                caller: callgraph::NodeModel {
                    name: functions_by_addr[call.0],
                    kind: NodeKind::Local,
                },
                callee: callgraph::NodeModel {
                    name: callee_name(call.1, functions_by_addr, plt_names),
                    kind: callee_kind(call.1, functions_by_addr, plt_names),
                },
            },
    )
}

/// The graph is that of the calls whose caller has a name, added in turn: each from its caller, as
/// a local function, to what stands at its target.
pub proof fn lemma_graph_of_calls(
    calls: Seq<(u64, u64)>,
    functions_by_addr: Map<u64, Seq<char>>,
    plt_names: Map<u64, Seq<char>>,
)
    ensures
        call_graph(calls, functions_by_addr, plt_names) == callgraph::graph_of(
            drawn_calls(calls, functions_by_addr, plt_names),
        ),
    decreases calls.len(),
{
    reveal(Seq::filter);
    let drawn = drawn_calls(calls, functions_by_addr, plt_names);
    if calls.len() > 0 {
        let front = calls.drop_last();
        let before = drawn_calls(front, functions_by_addr, plt_names);
        let (caller, target) = calls.last();
        lemma_graph_of_calls(front, functions_by_addr, plt_names);
        lemma_callee(target, functions_by_addr, plt_names);
        if functions_by_addr.contains_key(caller) {
            assert(drawn.drop_last() =~= before);
            assert(drawn.last().caller.name == functions_by_addr[caller]);
        } else {
            assert(drawn =~= before);
        }
    } else {
        assert(drawn =~= Seq::empty());
    }
}

/// The call at `k` has a caller with a name and mentions this name, as its caller's or as that of
/// what it calls.
pub open spec fn mentions_name(
    calls: Seq<(u64, u64)>,
    functions_by_addr: Map<u64, Seq<char>>,
    plt_names: Map<u64, Seq<char>>,
    k: int,
    name: Seq<char>,
) -> bool {
    &&& 0 <= k < calls.len()
    &&& functions_by_addr.contains_key(calls[k].0)
    &&& functions_by_addr[calls[k].0] == name || callee_name(
        calls[k].1,
        functions_by_addr,
        plt_names,
    ) == name
}

/// There is a node of this name and this kind.
pub open spec fn has_node(nodes: Seq<callgraph::NodeModel>, name: Seq<char>, kind: NodeKind) -> bool {
    exists|i: int| 0 <= i < nodes.len() && #[trigger] nodes[i] == (callgraph::NodeModel { name, kind })
}

proof fn lemma_unmentioned(
    calls: Seq<(u64, u64)>,
    functions_by_addr: Map<u64, Seq<char>>,
    plt_names: Map<u64, Seq<char>>,
    name: Seq<char>,
)
    requires
        forall|k: int|
            !(#[trigger] mentions_name(calls, functions_by_addr, plt_names, k, name)),
    ensures
        callgraph::node_position(call_graph(calls, functions_by_addr, plt_names).nodes, name) is None,
    decreases calls.len(),
{
    if calls.len() > 0 {
        let front = calls.drop_last();
        let last = calls.len() - 1;
        let (caller, target) = calls.last();
        assert forall|k: int|
            !(#[trigger] mentions_name(front, functions_by_addr, plt_names, k, name)) by {
            if mentions_name(front, functions_by_addr, plt_names, k, name) {
                assert(mentions_name(calls, functions_by_addr, plt_names, k, name));
            }
        }
        lemma_unmentioned(front, functions_by_addr, plt_names, name);
        assert(!mentions_name(calls, functions_by_addr, plt_names, last, name));
        lemma_callee(target, functions_by_addr, plt_names);
        if functions_by_addr.contains_key(caller) {
            let rest = call_graph(front, functions_by_addr, plt_names).nodes;
            let (callee, kind) = binary::resolved(target, functions_by_addr, plt_names);
            let first = callgraph::with_node(rest, functions_by_addr[caller], NodeKind::Local);
            let second = callgraph::with_node(first, callee, kind);
            if first != rest {
                assert(first.drop_last() =~= rest);
            }
            assert(callgraph::node_position(first, name) is None);
            if second != first {
                assert(second.drop_last() =~= first);
            }
        }
    }
}

proof fn lemma_node_added(
    nodes: Seq<callgraph::NodeModel>,
    node: callgraph::NodeModel,
    name: Seq<char>,
    kind: NodeKind,
)
    ensures
        has_node(nodes, name, kind) ==> has_node(
            callgraph::with_node(nodes, node.name, node.kind),
            name,
            kind,
        ),
        callgraph::node_position(nodes, node.name) is None ==> has_node(
            callgraph::with_node(nodes, node.name, node.kind),
            node.name,
            node.kind,
        ),
{
    let after = callgraph::with_node(nodes, node.name, node.kind);
    if has_node(nodes, name, kind) {
        let i = choose|i: int|
            0 <= i < nodes.len() && #[trigger] nodes[i] == (callgraph::NodeModel { name, kind });
        assert(after[i] == (callgraph::NodeModel { name, kind }));
    }
    if callgraph::node_position(nodes, node.name) is None {
        assert(after[nodes.len() as int] == node);
    }
}

/// A name that is first mentioned by the call at `k` has a node: of a local function where it is
/// the name of that call's caller, whatever is called, and else of the kind of what stands at the
/// call's target.
pub proof fn lemma_kind_of_first_mention(
    calls: Seq<(u64, u64)>,
    functions_by_addr: Map<u64, Seq<char>>,
    plt_names: Map<u64, Seq<char>>,
    k: int,
    name: Seq<char>,
)
    requires
        mentions_name(calls, functions_by_addr, plt_names, k, name),
        forall|j: int|
            j < k ==> !(#[trigger] mentions_name(calls, functions_by_addr, plt_names, j, name)),
    ensures
        has_node(
            call_graph(calls, functions_by_addr, plt_names).nodes,
            name,
            if functions_by_addr[calls[k].0] == name {
                NodeKind::Local
            } else {
                callee_kind(calls[k].1, functions_by_addr, plt_names)
            },
        ),
    decreases calls.len(),
{
    let front = calls.drop_last();
    let (caller, target) = calls.last();
    let rest = call_graph(front, functions_by_addr, plt_names).nodes;
    let (callee, kind) = binary::resolved(target, functions_by_addr, plt_names);
    let first = callgraph::with_node(rest, functions_by_addr[caller], NodeKind::Local);
    let want = if functions_by_addr[calls[k].0] == name {
        NodeKind::Local
    } else {
        callee_kind(calls[k].1, functions_by_addr, plt_names)
    };
    let one = callgraph::NodeModel { name: functions_by_addr[caller], kind: NodeKind::Local };
    let two = callgraph::NodeModel { name: callee, kind };
    lemma_callee(target, functions_by_addr, plt_names);
    if k < front.len() {
        assert(mentions_name(front, functions_by_addr, plt_names, k, name));
        assert forall|j: int| j < k implies !(#[trigger] mentions_name(
            front,
            functions_by_addr,
            plt_names,
            j,
            name,
        )) by {
            if mentions_name(front, functions_by_addr, plt_names, j, name) {
                assert(mentions_name(calls, functions_by_addr, plt_names, j, name));
            }
        }
        lemma_kind_of_first_mention(front, functions_by_addr, plt_names, k, name);
        assert(has_node(rest, name, want));
        lemma_node_added(rest, one, name, want);
        lemma_node_added(first, two, name, want);
    } else {
        assert forall|j: int|
            !(#[trigger] mentions_name(front, functions_by_addr, plt_names, j, name)) by {
            if mentions_name(front, functions_by_addr, plt_names, j, name) {
                assert(mentions_name(calls, functions_by_addr, plt_names, j, name));
            }
        }
        lemma_unmentioned(front, functions_by_addr, plt_names, name);
        lemma_node_added(rest, one, name, want);
        if functions_by_addr[caller] == name {
            lemma_node_added(first, two, name, want);
        } else {
            if first != rest {
                assert(first.drop_last() =~= rest);
            }
            lemma_node_added(first, two, name, want);
        }
    }
}

/// How many of the calls lead to the target.
pub open spec fn calls_to(calls: Seq<(u64, u64)>, target: u64) -> nat {
    calls.filter(|call: (u64, u64)| call.1 == target).len()
}

/// A target has a count exactly where it is called, and it is the number of calls that lead there,
/// whoever makes them; the counting gives up exactly where one is too large.
pub proof fn lemma_incoming(calls: Seq<(u64, u64)>, target: u64)
    ensures
        times_called(calls, target) == calls_to(calls, target),
        incoming(calls).contains_key(target) <==> exists|i: int|
            0 <= i < calls.len() && (#[trigger] calls[i]).1 == target,
        incoming_fits(calls) && incoming(calls).contains_key(target) ==> incoming(calls)[target]
            == calls_to(calls, target),
        incoming_fits(calls) ==> calls_to(calls, target)
            <= u32::MAX,
    decreases calls.len(),
{
    reveal(Seq::filter);
    if calls.len() > 0 {
        let front = calls.drop_last();
        let last = calls.len() - 1;
        lemma_times_filtered(front, target);
        lemma_times_filtered(calls, target);
        lemma_incoming(front, target);
        assert(calls[last] == calls.last());
        if exists|i: int| 0 <= i < front.len() && (#[trigger] front[i]).1 == target {
            let i = choose|i: int| 0 <= i < front.len() && (#[trigger] front[i]).1 == target;
            assert(calls[i].1 == target);
        }
        if exists|i: int| 0 <= i < calls.len() && (#[trigger] calls[i]).1 == target {
            let i = choose|i: int| 0 <= i < calls.len() && (#[trigger] calls[i]).1 == target;
            if i < last {
                assert(front[i].1 == target);
            }
        }
    }
    if incoming_fits(calls) {
        assert(times_called(calls, target) <= u32::MAX);
    }
}

proof fn lemma_times_filtered(calls: Seq<(u64, u64)>, target: u64)
    ensures
        times_called(calls, target) == calls_to(calls, target),
    decreases calls.len(),
{
    reveal(Seq::filter);
    if calls.len() > 0 {
        lemma_times_filtered(calls.drop_last(), target);
    }
}

/// The counting succeeds exactly where no target is called more often than a count can hold.
pub proof fn lemma_incoming_held(calls: Seq<(u64, u64)>)
    ensures
        incoming_fits(calls) <==> forall|target: u64| #[trigger]
            calls_to(calls, target) <= u32::MAX,
{
    assert forall|target: u64| #[trigger] calls_to(calls, target) == times_called(
        calls,
        target,
    ) by {
        lemma_times_filtered(calls, target);
    }
    assert forall|target: u64| #[trigger] times_called(calls, target) == calls_to(
        calls,
        target,
    ) by {
        lemma_times_filtered(calls, target);
    }
}

/// The table ranks each function by how often its address is called, from the most often down, and
/// those called equally often stay in the order in which they came: `order` is where each row's
/// function stood.
pub proof fn lemma_table_order(
    functions: Seq<binary::FunctionModel>,
    counts: Map<u64, u32>,
) -> (order: Seq<usize>)
    requires
        functions.len() <= usize::MAX,
    ensures
        ({
            let listed = most_called_first(functions, counts);
            let times = |f: binary::FunctionModel|
                if counts.contains_key(f.address) {
                    counts[f.address] as int
                } else {
                    0
                };
            &&& order.len() == functions.len() && listed.len() == functions.len()
            &&& order.no_duplicates()
            &&& forall|i: int|
                0 <= i < order.len() ==> #[trigger] order[i] < functions.len() && listed[i]
                    == functions[order[i] as int]
            &&& forall|i: int, j: int|
                0 <= i < j < order.len() ==> {
                    let (a, b) = (#[trigger] order[i], #[trigger] order[j]);
                    times(functions[a as int]) > times(functions[b as int]) || (times(
                        functions[a as int],
                    ) == times(functions[b as int]) && a < b)
                }
        }),
{
    let key = |f: binary::FunctionModel| calls_in(f, counts) as u64;
    let lt = order::rank_lt::<Descending>();
    let ranks = functions.map_values(key);
    let order = order::stable_order(ranks, lt);
    <Descending as order::Ranked>::lemma_strict();
    order::lemma_stable_order(ranks, lt);
    let p = |i: usize, j: usize| order::precedes(ranks, lt, i, j);
    assert forall|i: int, j: int| 0 <= i < j < order.len() implies {
        let (a, b) = (#[trigger] order[i], #[trigger] order[j]);
        calls_in(functions[a as int], counts) > calls_in(functions[b as int], counts) || (calls_in(
            functions[a as int],
            counts,
        ) == calls_in(functions[b as int], counts) && a < b)
    } by {
        assert(p(order[i], order[j]));
        assert(order[i] < functions.len() && order[j] < functions.len());
    }
    order
}

/// The table is its head and a row for each function, in the order of the ranking, and a row behind
/// the others changes none of them.
pub proof fn lemma_table(
    functions: Seq<binary::FunctionModel>,
    counts: Map<u64, u32>,
    rows: Seq<binary::FunctionModel>,
    f: binary::FunctionModel,
)
    ensures
        table_text(functions, counts)
            == "Functions:\n  NAME                           ADDR   SIZE  INSTRS    IN   OUT\n"@
            + rows_text(most_called_first(functions, counts), counts),
        rows_text(Seq::empty(), counts) == Seq::<char>::empty(),
        rows_text(rows.push(f), counts) == rows_text(rows, counts) + row_text(f, counts),
{
    assert(rows.push(f).drop_last() =~= rows);
}

/// The row of a function holds its name, its address, its size, its instructions, the calls of it
/// and the calls that it makes, in columns of their own.
pub proof fn lemma_row(f: binary::FunctionModel, counts: Map<u64, u32>)
    ensures
        row_text(f, counts) == "  "@ + text::pad_right(f.name, 24) + " "@
            + text::prefixed_hex_padded(f.address as nat, 10) + " "@ + text::pad_left(
            text::dec(f.size as nat),
            6,
        ) + " "@ + text::pad_left(text::dec(f.instructions as nat), 7) + " "@ + text::pad_left(
            text::dec(
                if counts.contains_key(f.address) {
                    counts[f.address] as nat
                } else {
                    0
                },
            ),
            5,
        ) + " "@ + text::pad_left(text::dec(f.calls_out as nat), 5) + "\n"@,
{
}

/// The closing lines hold the path, and the numbers of functions, stubs, calls, nodes and edges, in
/// this order.
pub proof fn lemma_summary(
    path: Seq<char>,
    functions: nat,
    plt_entries: nat,
    calls: nat,
    nodes: nat,
    edges: nat,
)
    ensures
        summary_text(path, functions, plt_entries, calls, nodes, edges) == "Binary: "@ + path
            + "\n  functions:    "@ + text::dec(functions) + "\n  plt entries:  "@ + text::dec(
            plt_entries,
        ) + "\n  direct calls: "@ + text::dec(calls) + "\nGraph: "@ + text::dec(nodes)
            + " nodes, "@ + text::dec(edges) + " edges\n"@,
{
}

} // verus!
