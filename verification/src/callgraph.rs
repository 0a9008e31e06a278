//! The call graph: one node per function name, one edge per call site.
use petgraph::dot::Config;
use petgraph::dot::Dot;
use petgraph::graph::DiGraph;
use petgraph::graph::EdgeIndex;
use petgraph::graph::NodeIndex;
use vstd::hash_map::StringHashMap;
use vstd::prelude::*;
use vstd::string::StringExecFns;

use crate::text;

verus! {

#[derive(Debug, Clone, Copy, PartialEq, Eq, Structural)]
pub enum NodeKind {
    Local,
    Plt,
    Unknown,
}

#[derive(Debug, Clone)]
pub struct Node {
    pub name: String,
    pub kind: NodeKind,
}

/// The values of a [`Node`].
pub struct NodeModel {
    pub name: Seq<char>,
    pub kind: NodeKind,
}

impl View for Node {
    type V = NodeModel;

    open spec fn view(&self) -> NodeModel {
        NodeModel { name: self.name@, kind: self.kind }
    }
}

/// The values of the nodes in a list.
pub open spec fn node_models(list: Seq<Node>) -> Seq<NodeModel> {
    list.map_values(|n: Node| n@)
}

#[verifier::external_type_specification]
#[verifier::external_body]
#[verifier::reject_recursive_types(N)]
#[verifier::reject_recursive_types(E)]
#[verifier::reject_recursive_types(Ty)]
#[verifier::reject_recursive_types(Ix)]
pub struct ExGraph<N, E, Ty, Ix>(petgraph::graph::Graph<N, E, Ty, Ix>);

#[verifier::external_type_specification]
#[verifier::external_body]
pub struct ExDirected(petgraph::Directed);

/// The nodes that a `petgraph` graph holds, by their indices.
pub uninterp spec fn graph_nodes(graph: DiGraph<Node, ()>) -> Seq<NodeModel>;

/// The end points of the edges that a `petgraph` graph holds, by the edges' indices.
pub uninterp spec fn graph_edges(graph: DiGraph<Node, ()>) -> Seq<(usize, usize)>;

/// `Graph::new` holds no node and no edge.
#[verifier::external_body]
fn empty_graph() -> (graph: DiGraph<Node, ()>)
    ensures
        graph_nodes(graph) == Seq::<NodeModel>::empty(),
        graph_edges(graph) == Seq::<(usize, usize)>::empty(),
{
    DiGraph::new()
}

/// `Graph::add_node` puts the node behind the others and returns its index. It panics on a graph
/// that holds as many nodes as its 32-bit indices can tell apart.
#[verifier::external_body]
fn push_node(graph: &mut DiGraph<Node, ()>, node: Node) -> (index: usize)
    requires
        graph_nodes(*old(graph)).len() < u32::MAX,
    ensures
        index == graph_nodes(*old(graph)).len(),
        graph_nodes(*final(graph)) == graph_nodes(*old(graph)).push(node@),
        graph_edges(*final(graph)) == graph_edges(*old(graph)),
{
    graph.add_node(node).index()
}

/// `Graph::add_edge` puts the edge behind the others, whether or not there is one like it. It
/// panics where an end point does not exist, and on a graph that holds as many edges as its 32-bit
/// indices can tell apart.
#[verifier::external_body]
fn push_edge(graph: &mut DiGraph<Node, ()>, from: usize, to: usize)
    requires
        from < graph_nodes(*old(graph)).len(),
        to < graph_nodes(*old(graph)).len(),
        graph_nodes(*old(graph)).len() <= u32::MAX,
        graph_edges(*old(graph)).len() < u32::MAX,
    ensures
        graph_nodes(*final(graph)) == graph_nodes(*old(graph)),
        graph_edges(*final(graph)) == graph_edges(*old(graph)).push((from, to)),
{
    graph.add_edge(NodeIndex::new(from), NodeIndex::new(to), ());
}

/// `Graph::node_count` is the number of nodes.
#[verifier::external_body]
fn count_nodes(graph: &DiGraph<Node, ()>) -> (n: usize)
    ensures
        n == graph_nodes(*graph).len(),
{
    graph.node_count()
}

/// `Graph::edge_count` is the number of edges.
#[verifier::external_body]
fn count_edges(graph: &DiGraph<Node, ()>) -> (n: usize)
    ensures
        n == graph_edges(*graph).len(),
{
    graph.edge_count()
}

/// `Graph::node_weight` is the node with that index.
#[verifier::external_body]
fn node_at(graph: &DiGraph<Node, ()>, index: usize) -> (node: &Node)
    requires
        index < graph_nodes(*graph).len(),
        index < u32::MAX,
    ensures
        node@ == graph_nodes(*graph)[index as int],
{
    graph.node_weight(NodeIndex::new(index)).unwrap()
}

/// `Graph::edge_endpoints` is the source and the target of the edge with that index.
#[verifier::external_body]
fn edge_at(graph: &DiGraph<Node, ()>, index: usize) -> (ends: (usize, usize))
    requires
        index < graph_edges(*graph).len(),
        index < u32::MAX,
    ensures
        ends == graph_edges(*graph)[index as int],
{
    let (from, to) = graph.edge_endpoints(EdgeIndex::new(index)).unwrap();
    (from.index(), to.index())
}

/// The attributes with which a node is drawn.
pub open spec fn attributes(node: NodeModel) -> Seq<char> {
    let (fill, shape) = match node.kind {
        NodeKind::Local => ("#a8d5ff"@, "ellipse"@),
        NodeKind::Plt => ("#ffcc99"@, "box"@),
        NodeKind::Unknown => ("#dddddd"@, "ellipse"@),
    };
    "label = \""@ + node.name + "\", style = filled, fillcolor = \""@ + fill + "\", shape = "@
        + shape
}

/// The lines that declare the nodes.
pub open spec fn node_lines(nodes: Seq<NodeModel>) -> Seq<char>
    decreases nodes.len(),
{
    if nodes.len() == 0 {
        Seq::empty()
    } else {
        node_lines(nodes.drop_last()) + "    "@ + text::dec((nodes.len() - 1) as nat) + " [ "@
            + attributes(nodes.last()) + "]\n"@
    }
}

/// The lines that draw the edges.
pub open spec fn edge_lines(edges: Seq<(usize, usize)>) -> Seq<char>
    decreases edges.len(),
{
    if edges.len() == 0 {
        Seq::empty()
    } else {
        edge_lines(edges.drop_last()) + "    "@ + text::dec(edges.last().0 as nat) + " -> "@
            + text::dec(edges.last().1 as nat) + " [ ]\n"@
    }
}

/// The graph in the DOT language.
pub open spec fn dot_text(graph: GraphModel) -> Seq<char> {
    "digraph {\n"@ + node_lines(graph.nodes) + edge_lines(graph.edges) + "}\n"@
}

/// The attributes with which a node is drawn.
fn node_attributes(node: &Node) -> (out: String)
    ensures
        out@ == attributes(node@),
{
    let (fill, shape) = match node.kind {
        NodeKind::Local => ("#a8d5ff", "ellipse"),
        NodeKind::Plt => ("#ffcc99", "box"),
        NodeKind::Unknown => ("#dddddd", "ellipse"),
    };
    let mut out = String::new();
    out.append("label = \"");
    out.append(node.name.as_str());
    out.append("\", style = filled, fillcolor = \"");
    out.append(fill);
    out.append("\", shape = ");
    out.append(shape);
    assert(out@ =~= attributes(node@));
    out
}

/// `Dot::with_attr_getters` and its `Debug`, without labels of its own: a line for each node with
/// its index and what the first getter makes of it, and a line for each edge with its end points.
#[verifier::external_body]
fn render_dot(graph: &DiGraph<Node, ()>) -> (out: String)
    ensures
        out@ == dot_text(GraphModel { nodes: graph_nodes(*graph), edges: graph_edges(*graph) }),
{
    let dot = Dot::with_attr_getters(
        graph,
        &[Config::EdgeNoLabel, Config::NodeNoLabel],
        &|_, _| String::new(),
        &|_, (_, node)| node_attributes(node),
    );
    format!("{:?}", dot)
}

/// A call graph as its nodes and the end points of its edges.
#[verifier::ext_equal]
pub struct GraphModel {
    pub nodes: Seq<NodeModel>,
    pub edges: Seq<(usize, usize)>,
}

/// The position of the node with that name.
pub open spec fn node_position(nodes: Seq<NodeModel>, name: Seq<char>) -> Option<usize>
    decreases nodes.len(),
{
    if nodes.len() == 0 {
        None
    } else if nodes.last().name == name {
        Some((nodes.len() - 1) as usize)
    } else {
        node_position(nodes.drop_last(), name)
    }
}

/// The nodes with one of that name: a new one of that kind where there was none.
pub open spec fn with_node(nodes: Seq<NodeModel>, name: Seq<char>, kind: NodeKind) -> Seq<NodeModel> {
    if node_position(nodes, name) is Some {
        nodes
    } else {
        nodes.push(NodeModel { name, kind })
    }
}

/// The graph with one more call.
pub open spec fn with_call(
    graph: GraphModel,
    caller: Seq<char>,
    caller_kind: NodeKind,
    callee: Seq<char>,
    callee_kind: NodeKind,
) -> GraphModel {
    let nodes = with_node(with_node(graph.nodes, caller, caller_kind), callee, callee_kind);
    GraphModel {
        nodes,
        edges: graph.edges.push(
            (node_position(nodes, caller)->0, node_position(nodes, callee)->0),
        ),
    }
}

/// No two nodes have the same name, and every edge joins two nodes.
pub open spec fn graph_wf(graph: GraphModel) -> bool {
    &&& graph.nodes.len() <= u32::MAX
    &&& graph.edges.len() <= u32::MAX
    &&& forall|i: int, j: int|
        0 <= i < j < graph.nodes.len() ==> (#[trigger] graph.nodes[i]).name != (
        #[trigger] graph.nodes[j]).name
    &&& forall|i: int|
        0 <= i < graph.edges.len() ==> (#[trigger] graph.edges[i]).0 < graph.nodes.len()
            && graph.edges[i].1 < graph.nodes.len()
}

/// The nodes and edges of a call graph, handed out.
pub struct GraphExport {
    pub nodes: Vec<Node>,
    pub edges: Vec<(usize, usize)>,
}

impl View for GraphExport {
    type V = GraphModel;

    open spec fn view(&self) -> GraphModel {
        GraphModel { nodes: node_models(self.nodes@), edges: self.edges@ }
    }
}

proof fn lemma_node_position(nodes: Seq<NodeModel>, name: Seq<char>)
    requires
        nodes.len() <= u32::MAX,
    ensures
        match node_position(nodes, name) {
            Some(i) => i < nodes.len() && nodes[i as int].name == name,
            None => forall|i: int| 0 <= i < nodes.len() ==> (#[trigger] nodes[i]).name != name,
        },
    decreases nodes.len(),
{
    if nodes.len() > 0 && nodes.last().name != name {
        lemma_node_position(nodes.drop_last(), name);
        if node_position(nodes, name) is None {
            assert forall|i: int| 0 <= i < nodes.len() implies (#[trigger] nodes[i]).name != name by {
                if i < nodes.len() - 1 {
                    assert(nodes[i] == nodes.drop_last()[i]);
                }
            }
        }
    }
}

pub struct CallGraph {
    graph: DiGraph<Node, ()>,
    node_index: StringHashMap<usize>,
}

impl View for CallGraph {
    type V = GraphModel;

    closed spec fn view(&self) -> GraphModel {
        GraphModel { nodes: graph_nodes(self.graph), edges: graph_edges(self.graph) }
    }
}

impl CallGraph {
    /// The graph is in order, and the index knows each name's node.
    pub closed spec fn wf(&self) -> bool {
        &&& graph_wf(self@)
        &&& forall|name: Seq<char>| #[trigger]
            self.node_index@.contains_key(name) <==> node_position(self@.nodes, name) is Some
        &&& forall|name: Seq<char>| #[trigger]
            self.node_index@.contains_key(name) ==> node_position(self@.nodes, name)
                == Some(self.node_index@[name])
    }

    pub fn new() -> (r: Self)
        ensures
            r.wf(),
            r@.nodes.len() == 0,
            r@.edges.len() == 0,
    {
        CallGraph { graph: empty_graph(), node_index: StringHashMap::new() }
    }

    fn get_or_add(&mut self, name: &str, kind: NodeKind) -> (index: usize)
        requires
            old(self).wf(),
            with_node(old(self)@.nodes, name@, kind).len() <= u32::MAX,
        ensures
            final(self).wf(),
            final(self)@.nodes == with_node(old(self)@.nodes, name@, kind),
            final(self)@.edges == old(self)@.edges,
            Some(index) == node_position(final(self)@.nodes, name@),
            index < final(self)@.nodes.len(),
    {
        proof {
            lemma_node_position(self@.nodes, name@);
        }
        match self.node_index.get(name) {
            Some(index) => *index,
            None => {
                let ghost before = self@;
                let index = push_node(&mut self.graph, Node { name: name.to_owned(), kind });
                self.node_index.insert(name.to_owned(), index);
                proof {
                    assert(self@.nodes.drop_last() =~= before.nodes);
                    assert forall|other: Seq<char>|
                        node_position(self@.nodes, other) == (if other == name@ {
                            Some(index)
                        } else {
                            node_position(before.nodes, other)
                        }) by {}
                }
                index
            },
        }
    }

    /// Adds a call from `caller` to `callee`. Where one of them has a node already, that node keeps
    /// its kind.
    pub fn add_call(
        &mut self,
        caller: &str,
        caller_kind: NodeKind,
        callee: &str,
        callee_kind: NodeKind,
    )
        requires
            old(self).wf(),
            with_call(old(self)@, caller@, caller_kind, callee@, callee_kind).nodes.len()
                <= u32::MAX,
            old(self)@.edges.len() < u32::MAX,
        ensures
            final(self).wf(),
            final(self)@ == with_call(old(self)@, caller@, caller_kind, callee@, callee_kind),
    {
        let ghost before = self@;
        let caller_idx = self.get_or_add(caller, caller_kind);
        let ghost mid = self@.nodes;
        let callee_idx = self.get_or_add(callee, callee_kind);
        proof {
            if mid != self@.nodes {
                assert(self@.nodes.drop_last() =~= mid);
                assert(caller@ != callee@);
            }
            assert(node_position(self@.nodes, caller@) == Some(caller_idx));
        }
        push_edge(&mut self.graph, caller_idx, callee_idx);
        assert(self@ =~= with_call(before, caller@, caller_kind, callee@, callee_kind));
    }

    /// Whether the graph's numbers suffice for a call between these names.
    pub fn has_room(&self, caller: &str, callee: &str) -> (r: bool)
        requires
            self.wf(),
        ensures
            forall|caller_kind: NodeKind, callee_kind: NodeKind|
                r == (#[trigger] with_call(
                    self@,
                    caller@,
                    caller_kind,
                    callee@,
                    callee_kind,
                ).nodes.len() <= u32::MAX && self@.edges.len() < u32::MAX),
    {
        let mut more: usize = 0;
        if !self.node_index.contains_key(caller) {
            more = more + 1;
        }
        if !self.node_index.contains_key(callee) && !text::same_text(caller, callee) {
            more = more + 1;
        }
        proof {
            lemma_node_position(self@.nodes, caller@);
            lemma_node_position(self@.nodes, callee@);
            assert forall|kind: NodeKind|
                node_position(
                    #[trigger] with_node(self@.nodes, caller@, kind),
                    callee@,
                ) is Some == (node_position(self@.nodes, callee@) is Some || caller@ == callee@) by {
                let nodes = with_node(self@.nodes, caller@, kind);
                if node_position(self@.nodes, caller@) is None {
                    assert(nodes.drop_last() =~= self@.nodes);
                }
            }
        }
        count_nodes(&self.graph) <= u32::MAX as usize - more && count_edges(&self.graph)
            < u32::MAX as usize
    }

    pub fn node_count(&self) -> (n: usize)
        ensures
            n == self@.nodes.len(),
    {
        count_nodes(&self.graph)
    }

    pub fn edge_count(&self) -> (n: usize)
        ensures
            n == self@.edges.len(),
    {
        count_edges(&self.graph)
    }

    /// The graph in the DOT language.
    pub fn to_dot(&self) -> (out: String)
        ensures
            out@ == dot_text(self@),
    {
        render_dot(&self.graph)
    }

    /// The nodes by their indices, and the edges in the order in which they were added.
    pub fn export(&self) -> (r: GraphExport)
        requires
            self.wf(),
        ensures
            r@ == self@,
            graph_wf(r@),
    {
        let mut nodes: Vec<Node> = Vec::new();
        let mut i: usize = 0;
        let n = self.node_count();
        while i < n
            invariant
                i <= n,
                n == self@.nodes.len(),
                self.wf(),
                node_models(nodes@) == self@.nodes.take(i as int),
            decreases n - i,
        {
            let node = node_at(&self.graph, i);
            let ghost before = nodes@;
            nodes.push(Node { name: node.name.clone(), kind: node.kind });
            i = i + 1;
            assert(node_models(nodes@) =~= node_models(before).push(node@));
            assert(node_models(nodes@) =~= self@.nodes.take(i as int));
        }
        assert(self@.nodes.take(n as int) =~= self@.nodes);
        let mut edges: Vec<(usize, usize)> = Vec::new();
        let mut j: usize = 0;
        let m = self.edge_count();
        while j < m
            invariant
                j <= m,
                m == self@.edges.len(),
                self.wf(),
                edges@ == self@.edges.take(j as int),
            decreases m - j,
        {
            edges.push(edge_at(&self.graph, j));
            j = j + 1;
            assert(edges@ =~= self@.edges.take(j as int));
        }
        assert(self@.edges.take(m as int) =~= self@.edges);
        GraphExport { nodes, edges }
    }
}

impl Default for CallGraph {
    fn default() -> (r: Self)
        ensures
            r.wf(),
            r@.nodes.len() == 0,
            r@.edges.len() == 0,
    {
        Self::new()
    }
}

/// Adding a call keeps the nodes and edges that are there, with their numbers and kinds, and adds
/// one edge, between the nodes of the two names.
pub proof fn lemma_call_added(
    graph: GraphModel,
    caller: Seq<char>,
    caller_kind: NodeKind,
    callee: Seq<char>,
    callee_kind: NodeKind,
)
    requires
        with_call(graph, caller, caller_kind, callee, callee_kind).nodes.len() <= u32::MAX,
    ensures
        ({
            let after = with_call(graph, caller, caller_kind, callee, callee_kind);
            let edge = after.edges.last();
            &&& graph.nodes.is_prefix_of(after.nodes)
            &&& after.edges.drop_last() == graph.edges
            &&& edge.0 < after.nodes.len() && after.nodes[edge.0 as int].name == caller
            &&& edge.1 < after.nodes.len() && after.nodes[edge.1 as int].name == callee
        }),
{
    let first = with_node(graph.nodes, caller, caller_kind);
    let after = with_call(graph, caller, caller_kind, callee, callee_kind);
    lemma_node_position(graph.nodes, caller);
    lemma_node_position(first, callee);
    lemma_node_position(after.nodes, caller);
    lemma_node_position(after.nodes, callee);
    assert(after.edges.drop_last() =~= graph.edges);
    if node_position(after.nodes, caller) is None {
        if node_position(graph.nodes, caller) is Some {
            let i = node_position(graph.nodes, caller)->0 as int;
            assert(after.nodes[i].name == caller);
        } else {
            assert(after.nodes[graph.nodes.len() as int].name == caller);
        }
    }
    if node_position(after.nodes, callee) is None {
        if node_position(first, callee) is Some {
            let i = node_position(first, callee)->0 as int;
            assert(after.nodes[i].name == callee);
        } else {
            assert(after.nodes[first.len() as int].name == callee);
        }
    }
}

/// A call graph has one node for each name, and its edges join nodes.
pub proof fn lemma_one_node_per_name(graph: &CallGraph)
    requires
        graph.wf(),
    ensures
        graph_wf(graph@),
{
}

/// A call between two names, each with the kind that it is said to have.
pub struct CallModel {
    pub caller: NodeModel,
    pub callee: NodeModel,
}

/// The graph that calls lead to, added one after another to an empty one.
pub open spec fn graph_of(calls: Seq<CallModel>) -> GraphModel
    decreases calls.len(),
{
    if calls.len() == 0 {
        GraphModel { nodes: Seq::empty(), edges: Seq::empty() }
    } else {
        let call = calls.last();
        with_call(
            graph_of(calls.drop_last()),
            call.caller.name,
            call.caller.kind,
            call.callee.name,
            call.callee.kind,
        )
    }
}

/// The callers and callees of calls, in the order in which they are named.
pub open spec fn mentions(calls: Seq<CallModel>) -> Seq<NodeModel>
    decreases calls.len(),
{
    if calls.len() == 0 {
        Seq::empty()
    } else {
        mentions(calls.drop_last()).push(calls.last().caller).push(calls.last().callee)
    }
}

/// The names of nodes.
pub open spec fn names(nodes: Seq<NodeModel>) -> Seq<Seq<char>> {
    nodes.map_values(|node: NodeModel| node.name)
}

/// The mention at `m` is the first with its name.
pub open spec fn is_first(mentioned: Seq<NodeModel>, m: int) -> bool {
    &&& 0 <= m < mentioned.len()
    &&& forall|k: int| 0 <= k < m ==> (#[trigger] mentioned[k]).name != mentioned[m].name
}

/// The node is the first mention of its name.
pub open spec fn first_mention(mentioned: Seq<NodeModel>, node: NodeModel) -> bool {
    exists|m: int| #[trigger] is_first(mentioned, m) && mentioned[m] == node
}

/// There is one node for each name that is mentioned, with the kind of the first mention.
pub open spec fn holds_firsts(nodes: Seq<NodeModel>, mentioned: Seq<NodeModel>) -> bool {
    &&& names(nodes).no_duplicates()
    &&& names(nodes).to_set() == names(mentioned).to_set()
    &&& forall|i: int| 0 <= i < nodes.len() ==> first_mention(mentioned, #[trigger] nodes[i])
}

proof fn lemma_names_pushed(nodes: Seq<NodeModel>, node: NodeModel)
    ensures
        names(nodes.push(node)) == names(nodes).push(node.name),
        names(nodes.push(node)).to_set() == names(nodes).to_set().insert(node.name),
{
    let before = names(nodes);
    let after = before.push(node.name);
    assert(names(nodes.push(node)) =~= after);
    assert forall|name: Seq<char>| after.contains(name) == (before.contains(name) || name
        == node.name) by {
        if before.contains(name) {
            let i = choose|i: int| 0 <= i < before.len() && before[i] == name;
            assert(after[i] == name);
        }
        if name == node.name {
            assert(after[before.len() as int] == name);
        }
    }
    assert(after.to_set() =~= before.to_set().insert(node.name));
}

proof fn lemma_first_stays(mentioned: Seq<NodeModel>, more: NodeModel, node: NodeModel)
    requires
        first_mention(mentioned, node),
    ensures
        first_mention(mentioned.push(more), node),
{
    let m = choose|m: int| #[trigger] is_first(mentioned, m) && mentioned[m] == node;
    let longer = mentioned.push(more);
    assert forall|k: int| 0 <= k < m implies (#[trigger] longer[k]).name != longer[m].name by {
        assert(longer[k] == mentioned[k]);
    }
    assert(is_first(longer, m) && longer[m] == node);
}

proof fn lemma_first_added(mentioned: Seq<NodeModel>, node: NodeModel)
    requires
        !names(mentioned).to_set().contains(node.name),
    ensures
        first_mention(mentioned.push(node), node),
{
    let m = mentioned.len() as int;
    let longer = mentioned.push(node);
    assert forall|k: int| 0 <= k < m implies (#[trigger] longer[k]).name != longer[m].name by {
        assert(names(mentioned)[k] == longer[k].name);
        assert(names(mentioned).contains(longer[k].name));
    }
    assert(is_first(longer, m) && longer[m] == node);
}

proof fn lemma_mentioned(nodes: Seq<NodeModel>, mentioned: Seq<NodeModel>, node: NodeModel)
    requires
        nodes.len() <= u32::MAX,
        holds_firsts(nodes, mentioned),
    ensures
        holds_firsts(with_node(nodes, node.name, node.kind), mentioned.push(node)),
{
    let after = with_node(nodes, node.name, node.kind);
    let longer = mentioned.push(node);
    lemma_node_position(nodes, node.name);
    lemma_names_pushed(mentioned, node);
    if node_position(nodes, node.name) is Some {
        let i = node_position(nodes, node.name)->0 as int;
        assert(names(nodes)[i] == node.name);
        assert(names(nodes).to_set().contains(node.name));
        assert(names(nodes).to_set() =~= names(longer).to_set());
        assert forall|j: int| 0 <= j < after.len() implies first_mention(
            longer,
            #[trigger] after[j],
        ) by {
            lemma_first_stays(mentioned, node, nodes[j]);
        }
    } else {
        assert(after == nodes.push(node));
        lemma_names_pushed(nodes, node);
        assert(!names(nodes).contains(node.name)) by {
            if names(nodes).contains(node.name) {
                let i = choose|i: int| 0 <= i < nodes.len() && names(nodes)[i] == node.name;
                assert(nodes[i].name == node.name);
            }
        }
        assert(names(after).no_duplicates());
        assert(!names(mentioned).to_set().contains(node.name)) by {
            assert(!names(nodes).to_set().contains(node.name));
        }
        assert forall|j: int| 0 <= j < after.len() implies first_mention(
            longer,
            #[trigger] after[j],
        ) by {
            if j < nodes.len() {
                lemma_first_stays(mentioned, node, nodes[j]);
            } else {
                lemma_first_added(mentioned, node);
            }
        }
    }
}

/// However calls are added to an empty graph, it has one edge for each call, between the nodes of
/// the call's two names, as many nodes as there are distinct names among the callers and callees,
/// and each node has the kind with which its name was first given.
pub proof fn lemma_calls_added(calls: Seq<CallModel>)
    requires
        graph_of(calls).nodes.len() <= u32::MAX,
    ensures
        ({
            let graph = graph_of(calls);
            &&& graph.edges.len() == calls.len()
            &&& forall|i: int|
                0 <= i < calls.len() ==> {
                    let edge = #[trigger] graph.edges[i];
                    &&& edge.0 < graph.nodes.len() && edge.1 < graph.nodes.len()
                    &&& graph.nodes[edge.0 as int].name == calls[i].caller.name
                    &&& graph.nodes[edge.1 as int].name == calls[i].callee.name
                }
            &&& holds_firsts(graph.nodes, mentions(calls))
            &&& names(mentions(calls)).to_set().finite()
            &&& graph.nodes.len() == names(mentions(calls)).to_set().len()
        }),
    decreases calls.len(),
{
    let graph = graph_of(calls);
    if calls.len() > 0 {
        let front = calls.drop_last();
        let before = graph_of(front);
        let call = calls.last();
        let first = with_node(before.nodes, call.caller.name, call.caller.kind);
        lemma_calls_added(front);
        lemma_call_added(
            before,
            call.caller.name,
            call.caller.kind,
            call.callee.name,
            call.callee.kind,
        );
        lemma_mentioned(before.nodes, mentions(front), call.caller);
        lemma_mentioned(first, mentions(front).push(call.caller), call.callee);
        assert forall|i: int| 0 <= i < calls.len() implies {
            let edge = #[trigger] graph.edges[i];
            &&& edge.0 < graph.nodes.len() && edge.1 < graph.nodes.len()
            &&& graph.nodes[edge.0 as int].name == calls[i].caller.name
            &&& graph.nodes[edge.1 as int].name == calls[i].callee.name
        } by {
            if i < front.len() {
                assert(graph.edges[i] == before.edges[i]);
                assert(front[i] == calls[i]);
            } else {
                assert(graph.edges[i] == graph.edges.last());
            }
        }
    }
    let mentioned = names(mentions(calls));
    if calls.len() == 0 {
        assert(names(graph.nodes) =~= mentioned);
    }
    names(graph.nodes).unique_seq_to_set();
    vstd::seq_lib::seq_to_set_is_finite(mentioned);
}

/// A drawing has a line for each node, behind those of the nodes before it: its number, its name as
/// the label, and the colour and shape of its kind.
pub proof fn lemma_node_line(nodes: Seq<NodeModel>, node: NodeModel)
    ensures
        node_lines(Seq::empty()) == Seq::<char>::empty(),
        node_lines(nodes.push(node)) == node_lines(nodes) + "    "@ + text::dec(nodes.len()) + " [ "@
            + ("label = \""@ + node.name + "\", style = filled, fillcolor = \""@ + (
        if node.kind == NodeKind::Local {
            "#a8d5ff"@
        } else if node.kind == NodeKind::Plt {
            "#ffcc99"@
        } else {
            "#dddddd"@
        }) + "\", shape = "@ + (if node.kind == NodeKind::Plt {
            "box"@
        } else {
            "ellipse"@
        })) + "]\n"@,
{
    assert(nodes.push(node).drop_last() =~= nodes);
}

/// A drawing has a line for each edge, behind those of the edges before it: the numbers of the node
/// that it leaves and of the one that it enters.
pub proof fn lemma_edge_line(edges: Seq<(usize, usize)>, edge: (usize, usize))
    ensures
        edge_lines(Seq::empty()) == Seq::<char>::empty(),
        edge_lines(edges.push(edge)) == edge_lines(edges) + "    "@ + text::dec(edge.0 as nat)
            + " -> "@ + text::dec(edge.1 as nat) + " [ ]\n"@,
{
    assert(edges.push(edge).drop_last() =~= edges);
}

/// A drawing is a directed graph with the lines of the nodes before those of the edges.
pub proof fn lemma_drawing(graph: GraphModel)
    ensures
        dot_text(graph) == "digraph {\n"@ + node_lines(graph.nodes) + edge_lines(graph.edges)
            + "}\n"@,
{
}

} // verus!
