//! What the requests of the web page are answered from: the graph, laid out by its nodes.
use vstd::hash_map::StringHashMap;
use vstd::prelude::*;
use vstd::string::StringExecFns;

use crate::adjacency;
use crate::binary;
use crate::binary::Function;
use crate::callgraph;
use crate::callgraph::GraphExport;
use crate::callgraph::Node;
use crate::callgraph::NodeKind;
use crate::info::BinaryInfo;
use crate::order;
use crate::overview;
use crate::text;
use crate::trace::Target;
use crate::walk;

verus! {

/// The analysed binary and its call graph, laid out for the requests.
pub struct AppState {
    pub binary: String,
    pub info: BinaryInfo,
    pub functions: Vec<Function>,
    pub names: Vec<String>,
    pub kinds: Vec<NodeKind>,
    pub out_adj: Vec<Vec<usize>>,
    pub in_adj: Vec<Vec<usize>>,
    pub name_to_idx: StringHashMap<usize>,
    pub in_degree: Vec<usize>,
    pub out_degree: Vec<usize>,
    pub edge_count: usize,
    pub report_json: String,
    pub roots_json: String,
    pub target: Target,
}

/// The last position of each name.
pub open spec fn index_names(names: Seq<Seq<char>>) -> Map<Seq<char>, usize>
    decreases names.len(),
{
    if names.len() == 0 {
        Map::empty()
    } else {
        index_names(names.drop_last()).insert(names.last(), (names.len() - 1) as usize)
    }
}

/// The names of the nodes.
pub open spec fn node_names(graph: callgraph::GraphModel) -> Seq<Seq<char>> {
    graph.nodes.map_values(|node: callgraph::NodeModel| node.name)
}

/// The kinds of the nodes.
pub open spec fn node_kinds(graph: callgraph::GraphModel) -> Seq<NodeKind> {
    graph.nodes.map_values(|node: callgraph::NodeModel| node.kind)
}

/// The state holds this graph: its names and kinds, the neighbours of each node, and how many edges
/// leave and enter it, one for each call site.
pub open spec fn holds_graph(state: AppState, graph: callgraph::GraphModel) -> bool {
    &&& text::texts(state.names@) == node_names(graph)
    &&& state.kinds@ == node_kinds(graph)
    &&& adjacency::rows(state.out_adj@) == Seq::new(
        graph.nodes.len(),
        |i: int| adjacency::successors(graph.edges, i as usize),
    )
    &&& adjacency::rows(state.in_adj@) == Seq::new(
        graph.nodes.len(),
        |i: int| adjacency::predecessors(graph.edges, i as usize),
    )
    &&& state.out_degree@ == Seq::new(
        graph.nodes.len(),
        |i: int| adjacency::leaving(graph.edges, i as usize).len() as usize,
    )
    &&& state.in_degree@ == Seq::new(
        graph.nodes.len(),
        |i: int| adjacency::entering(graph.edges, i as usize).len() as usize,
    )
    &&& state.edge_count == graph.edges.len()
    &&& state.name_to_idx@ == index_names(node_names(graph))
}

proof fn lemma_names_within(names: Seq<Seq<char>>)
    requires
        names.len() <= usize::MAX,
    ensures
        forall|name: Seq<char>| #[trigger]
            index_names(names).contains_key(name) ==> index_names(names)[name] < names.len()
                && names[index_names(names)[name] as int] == name,
    decreases names.len(),
{
    if names.len() > 0 {
        let front = names.drop_last();
        lemma_names_within(front);
        assert forall|name: Seq<char>| #[trigger]
            index_names(names).contains_key(name) implies index_names(names)[name] < names.len()
            && names[index_names(names)[name] as int] == name by {
            if name != names.last() {
                assert(index_names(front).contains_key(name));
                assert(front[index_names(front)[name] as int] == name);
            }
        }
    }
}

/// The positions of the nodes by their names.
pub fn index_nodes(nodes: &[Node]) -> (r: StringHashMap<usize>)
    ensures
        r@ == index_names(
            callgraph::node_models(nodes@).map_values(|node: callgraph::NodeModel| node.name),
        ),
{
    let mut index: StringHashMap<usize> = StringHashMap::new();
    let ghost all = callgraph::node_models(nodes@).map_values(
        |node: callgraph::NodeModel| node.name,
    );
    let mut i: usize = 0;
    assert(index@ =~= index_names(all.take(0)));
    while i < nodes.len()
        invariant
            i <= nodes@.len(),
            all == callgraph::node_models(nodes@).map_values(
                |node: callgraph::NodeModel| node.name,
            ),
            index@ == index_names(all.take(i as int)),
        decreases nodes@.len() - i,
    {
        proof {
            assert(all.take(i + 1).drop_last() =~= all.take(i as int));
            assert(all.take(i + 1).last() == nodes@[i as int].name@);
        }
        index.insert(nodes[i].name.clone(), i);
        i = i + 1;
    }
    assert(all.take(i as int) =~= all);
    index
}

impl AppState {
    /// The neighbours of each node.
    pub open spec fn links(&self) -> walk::Links {
        walk::Links {
            forward: adjacency::rows(self.out_adj@),
            backward: adjacency::rows(self.in_adj@),
        }
    }

    /// Every list has an entry for each node, and every number in them stands for one.
    pub open spec fn wf(&self) -> bool {
        let n = self.names@.len() as int;
        &&& self.kinds@.len() == n
        &&& self.in_degree@.len() == n
        &&& self.out_degree@.len() == n
        &&& walk::links_within(self.links(), n)
        &&& forall|name: Seq<char>| #[trigger]
            self.name_to_idx@.contains_key(name) ==> self.name_to_idx@[name] < n
        &&& self.target.symbols.wf()
    }

    pub fn new(
        binary: String,
        info: BinaryInfo,
        functions: Vec<Function>,
        target: Target,
        export: GraphExport,
        report_json: String,
    ) -> (r: Self)
        requires
            adjacency::edges_within(export.edges@, export.nodes.len() as int),
            target.symbols.wf(),
        ensures
            r.wf(),
            holds_graph(r, export@),
            r.binary == binary,
            r.info == info,
            r.functions == functions,
            r.target == target,
            r.report_json == report_json,
            r.roots_json@ == overview::roots_text(overview::roots_of(r)),
    {
        let ghost graph = export@;
        let GraphExport { nodes, edges } = export;
        let n = nodes.len();
        let mut names: Vec<String> = Vec::new();
        let mut kinds: Vec<NodeKind> = Vec::new();
        let mut i: usize = 0;
        while i < nodes.len()
            invariant
                i <= nodes.len(),
                n == nodes.len(),
                names.len() == i,
                graph.nodes == callgraph::node_models(nodes@),
                forall|k: int|
                    0 <= k < i ==> (#[trigger] names@[k])@ == node_names(graph)[k],
                kinds@ == node_kinds(graph).take(i as int),
            decreases nodes.len() - i,
        {
            names.push(nodes[i].name.clone());
            kinds.push(nodes[i].kind);
            i = i + 1;
            assert(kinds@ =~= node_kinds(graph).take(i as int));
        }
        assert(kinds@ =~= node_kinds(graph));
        assert(text::texts(names@) =~= node_names(graph));

        let leaving = adjacency::group_edges(&edges, n);
        let turned = adjacency::reverse_edges(&edges);
        assert(adjacency::edges_within(turned@, n as int)) by {
            assert forall|k: int| 0 <= k < turned@.len() implies (#[trigger] turned@[k]).0 < n
                && turned@[k].1 < n by {
                assert(edges@[k].0 < n);
            }
        }
        let entering = adjacency::group_edges(&turned, n);
        // Degrees count the call sites, so they are taken before what repeats is dropped.
        let out_degree = adjacency::list_lengths(&leaving);
        let in_degree = adjacency::list_lengths(&entering);
        let out_adj = adjacency::sort_lists(&leaving);
        let in_adj = adjacency::sort_lists(&entering);
        let name_to_idx = index_nodes(nodes.as_slice());
        proof {
            lemma_names_within(text::texts(names@));
            assert forall|k: int, j: int|
                0 <= k < n && 0 <= j < adjacency::rows(out_adj@)[k].len() implies
                #[trigger] adjacency::rows(out_adj@)[k][j] < n by {
                adjacency::lemma_leaving_within(edges@, k as usize, n as int);
                adjacency::lemma_sorted_within(leaving@[k]@, n as int);
            }
            assert forall|k: int, j: int|
                0 <= k < n && 0 <= j < adjacency::rows(in_adj@)[k].len() implies
                #[trigger] adjacency::rows(in_adj@)[k][j] < n by {
                adjacency::lemma_leaving_within(turned@, k as usize, n as int);
                adjacency::lemma_sorted_within(entering@[k]@, n as int);
            }
        }
        let mut state = AppState {
            binary,
            info,
            functions,
            names,
            kinds,
            out_adj,
            in_adj,
            name_to_idx,
            in_degree,
            out_degree,
            edge_count: edges.len(),
            report_json,
            roots_json: String::new(),
            target,
        };
        proof {
            assert(adjacency::rows(state.out_adj@) =~= Seq::new(
                graph.nodes.len(),
                |i: int| adjacency::successors(graph.edges, i as usize),
            ));
            assert(adjacency::rows(state.in_adj@) =~= Seq::new(
                graph.nodes.len(),
                |i: int| adjacency::predecessors(graph.edges, i as usize),
            ));
            assert(state.out_degree@ =~= Seq::new(
                graph.nodes.len(),
                |i: int| adjacency::leaving(graph.edges, i as usize).len() as usize,
            ));
            assert(state.in_degree@ =~= Seq::new(
                graph.nodes.len(),
                |i: int| adjacency::entering(graph.edges, i as usize).len() as usize,
            ));
        }
        // No answer with the roots depends on its request, so there is one text for all of them.
        let ghost bare = state;
        state.roots_json = overview::roots_body(&state);
        assert(overview::roots_of(state) == overview::roots_of(bare));
        state
    }
}

/// Why a request is turned down.
#[derive(Clone, Copy, Debug, PartialEq, Eq, Structural)]
pub enum Refusal {
    UnknownNode,
    UnknownDir,
    UnknownEngine,
    NotBase64,
    RunFailed,
}

impl Refusal {
    /// The status code of the answer.
    pub open spec fn code(self) -> u16 {
        match self {
            Refusal::UnknownNode => 404,
            Refusal::UnknownDir | Refusal::UnknownEngine | Refusal::NotBase64 => 400,
            Refusal::RunFailed => 500,
        }
    }

    /// The text of the answer.
    pub open spec fn text(self) -> Seq<char> {
        match self {
            Refusal::UnknownNode => "unknown node"@,
            Refusal::UnknownDir => "unknown dir"@,
            Refusal::UnknownEngine => "unknown engine"@,
            Refusal::NotBase64 => "input_file is not base64"@,
            Refusal::RunFailed => "run failed"@,
        }
    }

    pub fn status(self) -> (r: u16)
        ensures
            r == self.code(),
    {
        match self {
            Refusal::UnknownNode => 404,
            Refusal::UnknownDir | Refusal::UnknownEngine | Refusal::NotBase64 => 400,
            Refusal::RunFailed => 500,
        }
    }

    pub fn message(self) -> (r: &'static str)
        ensures
            r@ == self.text(),
    {
        match self {
            Refusal::UnknownNode => "unknown node",
            Refusal::UnknownDir => "unknown dir",
            Refusal::UnknownEngine => "unknown engine",
            Refusal::NotBase64 => "input_file is not base64",
            Refusal::RunFailed => "run failed",
        }
    }
}

/// In a state that holds a graph, a node's list of successors names another exactly when the graph
/// has an edge from the one to the other, and exactly when the other's list of predecessors names
/// the one.
pub proof fn lemma_lists_hold_edges(
    state: AppState,
    graph: callgraph::GraphModel,
    from: usize,
    to: usize,
)
    requires
        holds_graph(state, graph),
        from < graph.nodes.len(),
        to < graph.nodes.len(),
    ensures
        state.links().forward[from as int].contains(to) <==> graph.edges.contains((from, to)),
        state.links().backward[to as int].contains(from) <==> graph.edges.contains((from, to)),
{
    adjacency::lemma_neighbours(graph.edges, from, to);
}

/// The order in which the edges of a graph are listed makes no difference: the neighbours, the
/// degrees and the number of edges are the same, and so are the nodes to start from, where the
/// functions and the entry point are.
pub proof fn lemma_order_of_edges(
    state: AppState,
    graph: callgraph::GraphModel,
    other: AppState,
    reordered: callgraph::GraphModel,
)
    requires
        holds_graph(state, graph),
        holds_graph(other, reordered),
        graph.nodes == reordered.nodes,
        graph.edges.to_multiset() == reordered.edges.to_multiset(),
    ensures
        state.links() == other.links(),
        state.out_degree@ == other.out_degree@,
        state.in_degree@ == other.in_degree@,
        state.edge_count == other.edge_count,
        binary::function_models(state.functions@) == binary::function_models(other.functions@)
            && state.info.entry_point == other.info.entry_point ==> overview::roots_of(state)
            == overview::roots_of(other),
{
    order::lemma_same_items(graph.edges, reordered.edges);
    assert forall|i: int| 0 <= i < graph.nodes.len() implies state.links().forward[i]
        == other.links().forward[i] && state.links().backward[i] == other.links().backward[i] by {
        adjacency::lemma_same_neighbours(graph.edges, reordered.edges, i as usize);
    }
    assert forall|i: int| 0 <= i < graph.nodes.len() implies state.out_degree@[i]
        == other.out_degree@[i] && state.in_degree@[i] == other.in_degree@[i] by {
        adjacency::lemma_same_degrees(graph.edges, reordered.edges, i as usize);
    }
    assert(state.links().forward =~= other.links().forward);
    assert(state.links().backward =~= other.links().backward);
    assert(state.out_degree@ =~= other.out_degree@);
    assert(state.in_degree@ =~= other.in_degree@);
}

/// An edge that is there once more changes no list of neighbours: there is one edge more, one more
/// leaves its source, and one more enters its target.
pub proof fn lemma_repeated_edge(
    state: AppState,
    graph: callgraph::GraphModel,
    other: AppState,
    longer: callgraph::GraphModel,
    edge: (usize, usize),
)
    requires
        holds_graph(state, graph),
        holds_graph(other, longer),
        graph.nodes == longer.nodes,
        graph.nodes.len() <= usize::MAX,
        graph.edges.contains(edge),
        longer.edges.to_multiset() == graph.edges.to_multiset().insert(edge),
    ensures
        state.links() == other.links(),
        other.edge_count == state.edge_count + 1,
        forall|i: int|
            0 <= i < graph.nodes.len() ==> #[trigger] other.out_degree@[i] == state.out_degree@[i]
                + if i == edge.0 {
                1int
            } else {
                0
            },
        forall|i: int|
            0 <= i < graph.nodes.len() ==> #[trigger] other.in_degree@[i] == state.in_degree@[i]
                + if i == edge.1 {
                1int
            } else {
                0
            },
{
    let more = graph.edges.push(edge);
    vstd::seq_lib::to_multiset_build(graph.edges, edge);
    order::lemma_same_items(longer.edges, more);
    assert(more.to_set() =~= graph.edges.to_set()) by {
        assert forall|e: (usize, usize)| more.contains(e) == graph.edges.contains(e) by {
            vstd::seq_lib::to_multiset_contains(more, e);
            vstd::seq_lib::to_multiset_contains(graph.edges, e);
            vstd::seq_lib::to_multiset_contains(graph.edges, edge);
        }
    }
    assert forall|i: int| 0 <= i < graph.nodes.len() implies state.links().forward[i]
        == other.links().forward[i] && state.links().backward[i] == other.links().backward[i] by {
        adjacency::lemma_same_neighbours(graph.edges, longer.edges, i as usize);
    }
    assert(state.links().forward =~= other.links().forward);
    assert(state.links().backward =~= other.links().backward);
    assert forall|i: int| 0 <= i < graph.nodes.len() implies #[trigger] other.out_degree@[i]
        == state.out_degree@[i] + if i == edge.0 {
        1int
    } else {
        0
    } by {
        adjacency::lemma_same_degrees(longer.edges, more, i as usize);
        adjacency::lemma_one_more(graph.edges, edge, i as usize);
        lemma_leaving_len(longer.edges, i as usize);
    }
    assert forall|i: int| 0 <= i < graph.nodes.len() implies #[trigger] other.in_degree@[i]
        == state.in_degree@[i] + if i == edge.1 {
        1int
    } else {
        0
    } by {
        adjacency::lemma_same_degrees(longer.edges, more, i as usize);
        adjacency::lemma_one_more(graph.edges, edge, i as usize);
        lemma_leaving_len(adjacency::reversed(longer.edges), i as usize);
    }
}

/// The numbers in a list, added up.
pub open spec fn total(numbers: Seq<usize>) -> nat
    decreases numbers.len(),
{
    if numbers.len() == 0 {
        0
    } else {
        total(numbers.drop_last()) + numbers.last() as nat
    }
}

/// Over all nodes, the edges that leave them and the edges that enter them are as many as the graph
/// has.
pub proof fn lemma_degrees_add_up(state: AppState, graph: callgraph::GraphModel)
    requires
        holds_graph(state, graph),
        adjacency::edges_within(graph.edges, graph.nodes.len() as int),
        graph.nodes.len() <= usize::MAX,
        graph.edges.len() <= usize::MAX,
    ensures
        total(state.out_degree@) == state.edge_count,
        total(state.in_degree@) == state.edge_count,
{
    let n = graph.nodes.len();
    let turned = adjacency::reversed(graph.edges);
    assert(adjacency::edges_within(turned, n as int)) by {
        assert forall|k: int| 0 <= k < turned.len() implies (#[trigger] turned[k]).0 < n
            && turned[k].1 < n by {
            assert(graph.edges[k].0 < n);
        }
    }
    lemma_leaving_add_up(graph.edges, n);
    lemma_leaving_add_up(turned, n);
    assert(state.out_degree@ =~= out_degrees(graph.edges, n));
    assert(state.in_degree@ =~= out_degrees(turned, n));
}

/// How many edges leave each of the first `n` nodes.
spec fn out_degrees(edges: Seq<(usize, usize)>, n: nat) -> Seq<usize> {
    Seq::new(n, |i: int| adjacency::leaving(edges, i as usize).len() as usize)
}

proof fn lemma_leaving_len(edges: Seq<(usize, usize)>, node: usize)
    ensures
        adjacency::leaving(edges, node).len() <= edges.len(),
    decreases edges.len(),
{
    if edges.len() > 0 {
        lemma_leaving_len(edges.drop_last(), node);
    }
}

proof fn lemma_total_bumped(numbers: Seq<usize>, more: Seq<usize>, at: int)
    requires
        numbers.len() == more.len(),
        0 <= at < numbers.len(),
        forall|i: int|
            0 <= i < numbers.len() && i != at ==> #[trigger] more[i] == numbers[i],
        more[at] == numbers[at] + 1,
    ensures
        total(more) == total(numbers) + 1,
    decreases numbers.len(),
{
    if at == numbers.len() - 1 {
        assert(more.drop_last() =~= numbers.drop_last());
    } else {
        assert(more[more.len() - 1] == numbers[numbers.len() - 1]);
        lemma_total_bumped(numbers.drop_last(), more.drop_last(), at);
    }
}

proof fn lemma_total_zero(numbers: Seq<usize>)
    requires
        forall|i: int| 0 <= i < numbers.len() ==> #[trigger] numbers[i] == 0,
    ensures
        total(numbers) == 0,
    decreases numbers.len(),
{
    if numbers.len() > 0 {
        assert(numbers[numbers.len() - 1] == 0);
        lemma_total_zero(numbers.drop_last());
    }
}

proof fn lemma_leaving_add_up(edges: Seq<(usize, usize)>, n: nat)
    requires
        adjacency::edges_within(edges, n as int),
        n <= usize::MAX,
        edges.len() <= usize::MAX,
    ensures
        total(out_degrees(edges, n)) == edges.len(),
    decreases edges.len(),
{
    if edges.len() == 0 {
        lemma_total_zero(out_degrees(edges, n));
    } else {
        let front = edges.drop_last();
        assert forall|i: int| 0 <= i < front.len() implies (#[trigger] front[i]).0 < n
            && front[i].1 < n by {
            assert(edges[i].0 < n);
        }
        lemma_leaving_add_up(front, n);
        let from = edges[edges.len() - 1].0;
        assert(from < n);
        lemma_leaving_len(front, from);
        let numbers = out_degrees(front, n);
        let more = out_degrees(edges, n);
        assert forall|i: int| 0 <= i < n && i != from implies #[trigger] more[i] == numbers[i] by {}
        lemma_total_bumped(numbers, more, from as int);
    }
}

/// Where no two nodes share a name, each node is found under its own.
pub proof fn lemma_found_by_name(state: AppState, graph: callgraph::GraphModel, id: int)
    requires
        holds_graph(state, graph),
        graph.nodes.len() <= usize::MAX,
        0 <= id < graph.nodes.len(),
        forall|i: int, j: int|
            0 <= i < j < graph.nodes.len() ==> (#[trigger] graph.nodes[i]).name != (
            #[trigger] graph.nodes[j]).name,
    ensures
        state.name_to_idx@.contains_key(graph.nodes[id].name),
        state.name_to_idx@[graph.nodes[id].name] == id,
{
    let names = node_names(graph);
    lemma_names_listed(names, id);
    lemma_names_within(names);
    let k = index_names(names)[names[id]];
    assert(names[k as int] == names[id]);
    if k < id {
        assert(graph.nodes[k as int].name != graph.nodes[id].name);
    } else if id < k {
        assert(graph.nodes[id].name != graph.nodes[k as int].name);
    }
}

proof fn lemma_names_listed(names: Seq<Seq<char>>, i: int)
    requires
        0 <= i < names.len(),
    ensures
        index_names(names).contains_key(names[i]),
    decreases names.len(),
{
    if i < names.len() - 1 {
        lemma_names_listed(names.drop_last(), i);
    }
}

/// A state that holds a graph has its nodes' names and kinds, each at the node's number, and counts
/// at each node the edges that leave it and those that enter it, one for each call site.
pub proof fn lemma_state_holds(state: AppState, graph: callgraph::GraphModel, i: int)
    requires
        holds_graph(state, graph),
        graph.nodes.len() <= usize::MAX,
    ensures
        state.names@.len() == graph.nodes.len(),
        state.kinds@.len() == graph.nodes.len(),
        state.out_degree@.len() == graph.nodes.len(),
        state.in_degree@.len() == graph.nodes.len(),
        state.edge_count == graph.edges.len(),
        0 <= i < graph.nodes.len() ==> {
            &&& state.names@[i]@ == graph.nodes[i].name
            &&& state.kinds@[i] == graph.nodes[i].kind
            &&& state.out_degree@[i] == graph.edges.filter(
                |edge: (usize, usize)| edge.0 == i as usize,
            ).len()
            &&& state.in_degree@[i] == graph.edges.filter(
                |edge: (usize, usize)| edge.1 == i as usize,
            ).len()
        },
{
    assert(text::texts(state.names@).len() == node_names(graph).len());
    if 0 <= i < graph.nodes.len() {
        let node = i as usize;
        assert(text::texts(state.names@)[i] == node_names(graph)[i]);
        adjacency::lemma_leaving_is(graph.edges, node);
        adjacency::lemma_entering_is(graph.edges, node);
        lemma_leaving_len(graph.edges, node);
        lemma_leaving_len(adjacency::reversed(graph.edges), node);
    }
}

/// A name that is found has its own node's number, and a name that no node has is not found.
pub proof fn lemma_found_is_named(state: AppState, graph: callgraph::GraphModel, name: Seq<char>)
    requires
        holds_graph(state, graph),
        graph.nodes.len() <= usize::MAX,
    ensures
        state.name_to_idx@.contains_key(name) <==> exists|i: int|
            0 <= i < graph.nodes.len() && (#[trigger] graph.nodes[i]).name == name,
        state.name_to_idx@.contains_key(name) ==> state.name_to_idx@[name] < graph.nodes.len()
            && graph.nodes[state.name_to_idx@[name] as int].name == name,
{
    let names = node_names(graph);
    lemma_names_within(names);
    if state.name_to_idx@.contains_key(name) {
        let k = index_names(names)[name] as int;
        assert(names[k] == name);
        assert(graph.nodes[k].name == name);
    }
    if exists|i: int| 0 <= i < graph.nodes.len() && (#[trigger] graph.nodes[i]).name == name {
        let i = choose|i: int| 0 <= i < graph.nodes.len() && (#[trigger] graph.nodes[i]).name == name;
        lemma_names_listed(names, i);
        assert(names[i] == name);
    }
}

/// What a request is refused with: an unknown node is not found, a run that failed is the server's
/// fault, and everything else is the request's.
pub proof fn lemma_refusals(refusal: Refusal)
    ensures
        refusal.code() == 404 <==> refusal == Refusal::UnknownNode,
        refusal.code() == 500 <==> refusal == Refusal::RunFailed,
        refusal.code() == 400 || refusal.code() == 404 || refusal.code() == 500,
        refusal == Refusal::UnknownNode ==> refusal.text() == "unknown node"@,
        refusal == Refusal::UnknownDir ==> refusal.text() == "unknown dir"@,
        refusal == Refusal::UnknownEngine ==> refusal.text() == "unknown engine"@,
        refusal == Refusal::NotBase64 ==> refusal.text() == "input_file is not base64"@,
        refusal == Refusal::RunFailed ==> refusal.text() == "run failed"@,
{
}

/// Of the nodes of one name the last one is found under it.
pub proof fn lemma_last_of_name(names: Seq<Seq<char>>, i: int)
    requires
        names.len() <= usize::MAX,
        0 <= i < names.len(),
        forall|k: int| i < k < names.len() ==> #[trigger] names[k] != names[i],
    ensures
        index_names(names).contains_key(names[i]),
        index_names(names)[names[i]] == i,
    decreases names.len(),
{
    if i < names.len() - 1 {
        let front = names.drop_last();
        assert(names[names.len() - 1] != names[i]);
        assert forall|k: int| i < k < front.len() implies #[trigger] front[k] != front[i] by {
            assert(names[k] != names[i]);
        }
        lemma_last_of_name(front, i);
    }
}

} // verus!
