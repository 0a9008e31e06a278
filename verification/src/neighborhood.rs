//! The neighbourhood of a node: what a walk from it lists, and the edges between that.
use vstd::prelude::*;
use vstd::string::StringExecFns;

use crate::adjacency;
use crate::callgraph;
use crate::order;
use crate::server;
use crate::server::AppState;
use crate::server::Refusal;
use crate::text;
use crate::walk;
use crate::walk::Dir;

verus! {

/// How many steps a neighbourhood spans where the request does not say.
pub fn default_depth() -> (r: u32)
    ensures
        r == 1,
{
    1
}

/// Which edges are followed where the request does not say.
pub fn default_dir() -> (r: String)
    ensures
        r@ == "both"@,
{
    "both".to_owned()
}

/// How many nodes a neighbourhood holds at most where the request does not say.
pub fn default_budget() -> (r: usize)
    ensures
        r == 200,
{
    200
}

/// Where one step leads from a node.
pub fn step_targets(state: &AppState, id: usize, dir: Dir) -> (r: Vec<usize>)
    requires
        state.wf(),
        id < state.names.len(),
    ensures
        r@ == walk::step(state.links(), id, dir),
{
    walk::targets(&state.out_adj, &state.in_adj, id, dir)
}

/// The nodes within `depth` steps of the seed in breadth-first order, as far as the budget goes;
/// which nodes those are; and whether the budget left any out. The seed takes a place of its own
/// in the budget.
pub fn walk(state: &AppState, seed: usize, depth: u32, dir: Dir, budget: usize) -> (r: (
    Vec<usize>,
    Vec<bool>,
    bool,
))
    requires
        state.wf(),
        seed < state.names.len(),
    ensures
        r.0@ == walk::up_to(walk::reach(state.links(), seed, dir, depth as nat), budget as int),
        r.1.len() == state.names.len(),
        walk::marks(r.1@, r.0@),
        r.2 == (walk::reach(state.links(), seed, dir, depth as nat).len() > budget),
{
    walk::walk_links(&state.out_adj, &state.in_adj, seed, depth, dir, budget)
}

/// A neighbour of the node, in either direction, is not among those that were visited.
pub open spec fn continues(links: walk::Links, node: usize, visited: Seq<bool>) -> bool {
    exists|i: int|
        0 <= i < walk::step(links, node, Dir::Both).len() && !visited[#[trigger] walk::step(
            links,
            node,
            Dir::Both,
        )[i] as int]
}

/// Whether the graph goes on past a node, also where the walk did not follow it.
pub fn has_more(state: &AppState, id: usize, visited: &[bool]) -> (r: bool)
    requires
        state.wf(),
        id < state.names.len(),
        visited@.len() == state.names.len(),
    ensures
        r == continues(state.links(), id, visited@),
{
    let around = step_targets(state, id, Dir::Both);
    let ghost all = walk::step(state.links(), id, Dir::Both);
    proof {
        walk::lemma_step_within(state.links(), id, Dir::Both, state.names.len() as int);
    }
    let mut i: usize = 0;
    while i < around.len()
        invariant
            i <= around.len(),
            around@ == all,
            all == walk::step(state.links(), id, Dir::Both),
            forall|k: int| 0 <= k < all.len() ==> #[trigger] all[k] < visited@.len(),
            forall|k: int| 0 <= k < i ==> visited@[#[trigger] all[k] as int],
        decreases around.len() - i,
    {
        assert(all[i as int] < visited@.len());
        if !visited[around[i]] {
            return true;
        }
        i = i + 1;
    }
    false
}

#[derive(Clone, Copy, Debug, PartialEq, Eq, Structural)]
pub struct NeighborNode {
    pub id: usize,
    pub has_more: bool,
}

pub struct Neighborhood {
    pub nodes: Vec<NeighborNode>,
    pub edges: Vec<(usize, usize)>,
    pub truncated: bool,
}

/// The values of a [`Neighborhood`].
#[verifier::ext_equal]
pub struct NeighborhoodModel {
    pub nodes: Seq<NeighborNode>,
    pub edges: Seq<(usize, usize)>,
    pub truncated: bool,
}

impl View for Neighborhood {
    type V = NeighborhoodModel;

    open spec fn view(&self) -> NeighborhoodModel {
        NeighborhoodModel {
            nodes: self.nodes@,
            edges: self.edges@,
            truncated: self.truncated,
        }
    }
}

/// A neighbour of the node, in either direction, is not in the list.
pub open spec fn leads_out(links: walk::Links, node: usize, listed: Seq<usize>) -> bool {
    exists|i: int|
        0 <= i < walk::step(links, node, Dir::Both).len() && !listed.contains(
            #[trigger] walk::step(links, node, Dir::Both)[i],
        )
}

/// The edges from a node to those of its successors that are in the list.
pub open spec fn edges_into(
    from: usize,
    successors: Seq<usize>,
    listed: Seq<usize>,
) -> Seq<(usize, usize)>
    decreases successors.len(),
{
    if successors.len() == 0 {
        Seq::empty()
    } else {
        let rest = edges_into(from, successors.drop_last(), listed);
        if listed.contains(successors.last()) {
            rest.push((from, successors.last()))
        } else {
            rest
        }
    }
}

/// The edges from these nodes, in turn, to nodes in the list.
pub open spec fn edges_among(
    links: walk::Links,
    sources: Seq<usize>,
    listed: Seq<usize>,
) -> Seq<(usize, usize)>
    decreases sources.len(),
{
    if sources.len() == 0 {
        Seq::empty()
    } else {
        edges_among(links, sources.drop_last(), listed) + edges_into(
            sources.last(),
            links.forward[sources.last() as int],
            listed,
        )
    }
}

/// What is drawn around a node: the nodes that the walk lists, each with a mark where the graph
/// goes on past it, and the edges between them, by their ends.
pub open spec fn neighborhood_of(
    links: walk::Links,
    seed: usize,
    depth: nat,
    dir: Dir,
    budget: int,
) -> NeighborhoodModel {
    let all = walk::reach(links, seed, dir, depth);
    let listed = walk::up_to(all, budget);
    NeighborhoodModel {
        nodes: listed.map_values(
            |id: usize| NeighborNode { id, has_more: leads_out(links, id, listed) },
        ),
        edges: edges_among(
            links,
            order::sorted_distinct(listed, order::rank_lt::<usize>()),
            listed,
        ),
        truncated: all.len() > budget,
    }
}

proof fn lemma_marks_lead_out(
    links: walk::Links,
    node: usize,
    visited: Seq<bool>,
    listed: Seq<usize>,
)
    requires
        walk::marks(visited, listed),
        walk::links_within(links, visited.len() as int),
        node < visited.len(),
        visited.len() <= usize::MAX,
    ensures
        continues(links, node, visited) == leads_out(links, node, listed),
{
    let around = walk::step(links, node, Dir::Both);
    walk::lemma_step_within(links, node, Dir::Both, visited.len() as int);
    assert forall|i: int| 0 <= i < around.len() implies visited[#[trigger] around[i] as int]
        == listed.contains(around[i]) by {
        assert(around[i] < visited.len());
    }
    if continues(links, node, visited) {
        let i = choose|i: int|
            0 <= i < around.len() && !visited[#[trigger] around[i] as int];
        assert(!listed.contains(around[i]));
    }
    if leads_out(links, node, listed) {
        let i = choose|i: int| 0 <= i < around.len() && !listed.contains(#[trigger] around[i]);
        assert(!visited[around[i] as int]);
    }
}

/// The edges between the nodes that were visited, from the sources in turn.
fn list_edges(state: &AppState, sources: &Vec<usize>, visited: &Vec<bool>, listed: Ghost<Seq<usize>>)
    -> (r: Vec<(usize, usize)>)
    requires
        state.wf(),
        visited.len() == state.names.len(),
        walk::marks(visited@, listed@),
        forall|i: int| 0 <= i < sources.len() ==> #[trigger] sources@[i] < state.names.len(),
    ensures
        r@ == edges_among(state.links(), sources@, listed@),
{
    let ghost links = state.links();
    let ghost n = state.names@.len() as int;
    let mut edges: Vec<(usize, usize)> = Vec::new();
    let mut i: usize = 0;
    while i < sources.len()
        invariant
            i <= sources.len(),
            n == state.names@.len(),
            n == visited.len(),
            links == state.links(),
            walk::links_within(links, n),
            walk::marks(visited@, listed@),
            forall|i: int| 0 <= i < sources.len() ==> #[trigger] sources@[i] < n,
            edges@ == edges_among(links, sources@.take(i as int), listed@),
        decreases sources.len() - i,
    {
        let from = sources[i];
        assert(from < n);
        let successors = &state.out_adj[from];
        let ghost before = edges@;
        assert(links.forward[from as int] == successors@);
        let mut j: usize = 0;
        assert(edges@ =~= before + edges_into(from, successors@.take(0), listed@));
        while j < successors.len()
            invariant
                j <= successors.len(),
                n == visited.len(),
                from < n,
                walk::links_within(links, n),
                links.forward[from as int] == successors@,
                walk::marks(visited@, listed@),
                edges@ == before + edges_into(from, successors@.take(j as int), listed@),
            decreases successors.len() - j,
        {
            let to = successors[j];
            proof {
                assert(links.forward[from as int][j as int] < n);
                assert(successors@.take(j + 1).drop_last() =~= successors@.take(j as int));
                assert(visited@[to as int] == listed@.contains(to));
            }
            if visited[to] {
                edges.push((from, to));
            }
            j = j + 1;
            assert(edges@ =~= before + edges_into(from, successors@.take(j as int), listed@));
        }
        proof {
            assert(successors@.take(j as int) =~= successors@);
            assert(sources@.take(i + 1).drop_last() =~= sources@.take(i as int));
        }
        i = i + 1;
    }
    assert(sources@.take(i as int) =~= sources@);
    edges
}

/// The neighbourhood of a node.
pub fn neighbors(state: &AppState, id: Option<usize>, depth: u32, dir: &str, budget: usize) -> (r:
    Result<Neighborhood, Refusal>)
    requires
        state.wf(),
    ensures
        match r {
            Ok(found) => id is Some && id->0 < state.names.len() && walk::dir_named(dir@) is Some
                && found@ == neighborhood_of(
                state.links(),
                id->0,
                depth as nat,
                walk::dir_named(dir@)->0,
                budget as int,
            ),
            Err(refusal) => if id is None || id->0 >= state.names.len() {
                refusal == Refusal::UnknownNode
            } else {
                refusal == Refusal::UnknownDir && walk::dir_named(dir@) is None
            },
        },
{
    let id = match id {
        Some(id) => id,
        None => {
            return Err(Refusal::UnknownNode);
        },
    };
    if id >= state.names.len() {
        return Err(Refusal::UnknownNode);
    }
    let dir = match walk::parse_dir(dir) {
        Some(dir) => dir,
        None => {
            return Err(Refusal::UnknownDir);
        },
    };
    let (listed, visited, truncated) = walk(state, id, depth, dir, budget);
    let ghost links = state.links();
    proof {
        lemma_listed_within(links, id, dir, depth as nat, budget as int, state.names@.len() as int);
    }
    let mut nodes: Vec<NeighborNode> = Vec::new();
    let ghost drawn = listed@.map_values(
        |id: usize| NeighborNode { id, has_more: leads_out(links, id, listed@) },
    );
    let mut i: usize = 0;
    while i < listed.len()
        invariant
            i <= listed.len(),
            state.wf(),
            links == state.links(),
            visited.len() == state.names.len(),
            walk::marks(visited@, listed@),
            forall|k: int| 0 <= k < listed.len() ==> #[trigger] listed@[k] < state.names.len(),
            drawn == listed@.map_values(
                |id: usize| NeighborNode { id, has_more: leads_out(links, id, listed@) },
            ),
            nodes@ == drawn.take(i as int),
        decreases listed.len() - i,
    {
        let node = listed[i];
        assert(node < state.names.len());
        proof {
            assert(visited.len() <= usize::MAX);
            lemma_marks_lead_out(links, node, visited@, listed@);
        }
        nodes.push(
            NeighborNode { id: node, has_more: has_more(state, node, visited.as_slice()) },
        );
        i = i + 1;
        assert(nodes@ =~= drawn.take(i as int));
    }
    assert(drawn.take(i as int) =~= drawn);
    let sorted = order::sorted_numbers(&listed);
    proof {
        adjacency::lemma_sorted_within(listed@, state.names@.len() as int);
    }
    let edges = list_edges(state, &sorted, &visited, Ghost(listed@));
    Ok(Neighborhood { nodes, edges, truncated })
}

proof fn lemma_listed_within(
    links: walk::Links,
    seed: usize,
    dir: Dir,
    depth: nat,
    budget: int,
    n: int,
)
    requires
        walk::links_within(links, n),
        seed < n,
        budget >= 0,
    ensures
        forall|i: int|
            0 <= i < walk::up_to(walk::reach(links, seed, dir, depth), budget).len()
                ==> #[trigger] walk::up_to(walk::reach(links, seed, dir, depth), budget)[i] < n,
{
    let all = walk::reach(links, seed, dir, depth);
    walk::lemma_spread_within(links, seed, dir, depth, n);
    assert forall|i: int| 0 <= i < walk::up_to(all, budget).len() implies #[trigger] walk::up_to(
        all,
        budget,
    )[i] < n by {
        assert(all[i] < n);
    }
}

proof fn lemma_edges_into(from: usize, successors: Seq<usize>, listed: Seq<usize>, edge: (usize, usize))
    ensures
        edges_into(from, successors, listed).contains(edge) <==> edge.0 == from
            && successors.contains(edge.1) && listed.contains(edge.1),
    decreases successors.len(),
{
    if successors.len() > 0 {
        let front = successors.drop_last();
        let last = successors.last();
        let rest = edges_into(from, front, listed);
        let all = edges_into(from, successors, listed);
        lemma_edges_into(from, front, listed, edge);
        if successors.contains(edge.1) && edge.1 != last {
            let i = choose|i: int| 0 <= i < successors.len() && successors[i] == edge.1;
            assert(front[i] == edge.1);
        }
        if front.contains(edge.1) {
            let i = choose|i: int| 0 <= i < front.len() && front[i] == edge.1;
            assert(successors[i] == edge.1);
        }
        assert(successors[successors.len() - 1] == last);
        if listed.contains(last) {
            assert(all[rest.len() as int] == (from, last));
            if rest.contains(edge) {
                let i = choose|i: int| 0 <= i < rest.len() && rest[i] == edge;
                assert(all[i] == edge);
            }
            if all.contains(edge) && edge != (from, last) {
                let i = choose|i: int| 0 <= i < all.len() && all[i] == edge;
                assert(rest[i] == edge);
            }
        }
    }
}

proof fn lemma_edges_among(
    links: walk::Links,
    sources: Seq<usize>,
    listed: Seq<usize>,
    edge: (usize, usize),
)
    ensures
        edges_among(links, sources, listed).contains(edge) <==> sources.contains(edge.0)
            && links.forward[edge.0 as int].contains(edge.1) && listed.contains(edge.1),
    decreases sources.len(),
{
    if sources.len() > 0 {
        let front = sources.drop_last();
        let last = sources.last();
        let rest = edges_among(links, front, listed);
        let more = edges_into(last, links.forward[last as int], listed);
        lemma_edges_among(links, front, listed, edge);
        lemma_edges_into(last, links.forward[last as int], listed, edge);
        let all = rest + more;
        if sources.contains(edge.0) && edge.0 != last {
            let i = choose|i: int| 0 <= i < sources.len() && sources[i] == edge.0;
            assert(front[i] == edge.0);
        }
        if front.contains(edge.0) {
            let i = choose|i: int| 0 <= i < front.len() && front[i] == edge.0;
            assert(sources[i] == edge.0);
        }
        assert(sources[sources.len() - 1] == last);
        if rest.contains(edge) {
            let i = choose|i: int| 0 <= i < rest.len() && rest[i] == edge;
            assert(all[i] == edge);
        }
        if more.contains(edge) {
            let i = choose|i: int| 0 <= i < more.len() && more[i] == edge;
            assert(all[rest.len() + i] == edge);
        }
        if all.contains(edge) {
            let i = choose|i: int| 0 <= i < all.len() && all[i] == edge;
            if i < rest.len() {
                assert(rest[i] == edge);
            } else {
                assert(more[i - rest.len()] == edge);
            }
        }
    }
}

/// A neighbourhood has an edge exactly when both of its ends are listed and the graph leads from
/// the one to the other, whichever way the walk went.
pub proof fn lemma_neighborhood_edges(
    links: walk::Links,
    seed: usize,
    depth: nat,
    dir: Dir,
    budget: int,
    edge: (usize, usize),
)
    ensures
        ({
            let listed = walk::up_to(walk::reach(links, seed, dir, depth), budget);
            neighborhood_of(links, seed, depth, dir, budget).edges.contains(edge)
                <==> listed.contains(edge.0) && listed.contains(edge.1)
                && links.forward[edge.0 as int].contains(edge.1)
        }),
{
    let listed = walk::up_to(walk::reach(links, seed, dir, depth), budget);
    let sorted = order::sorted_distinct(listed, order::rank_lt::<usize>());
    <usize as order::Ranked>::lemma_strict();
    order::lemma_sorted_distinct(listed, order::rank_lt::<usize>());
    lemma_edges_among(links, sorted, listed, edge);
    assert(sorted.to_set().contains(edge.0) == listed.to_set().contains(edge.0));
}

/// A neighbourhood has the seed as its first node, unless the budget is empty.
pub proof fn lemma_seed_first(
    links: walk::Links,
    seed: usize,
    depth: nat,
    dir: Dir,
    budget: int,
)
    requires
        budget >= 0,
    ensures
        budget == 0 ==> neighborhood_of(links, seed, depth, dir, budget).nodes.len() == 0
            && neighborhood_of(links, seed, depth, dir, budget).truncated,
        budget > 0 ==> neighborhood_of(links, seed, depth, dir, budget).nodes.len() > 0
            && neighborhood_of(links, seed, depth, dir, budget).nodes[0].id == seed,
{
    walk::lemma_reach_starts(links, seed, dir, depth);
}

/// The edges of a neighbourhood are listed by their ends, each once: a function that another calls
/// twice is drawn with one arrow.
pub proof fn lemma_neighborhood_edges_ascend(
    state: AppState,
    graph: callgraph::GraphModel,
    seed: usize,
    depth: nat,
    dir: Dir,
    budget: int,
)
    requires
        state.wf(),
        server::holds_graph(state, graph),
        seed < state.names.len(),
        budget >= 0,
    ensures
        order::ascending(
            neighborhood_of(state.links(), seed, depth, dir, budget).edges,
            order::rank_lt::<(usize, usize)>(),
        ),
{
    let links = state.links();
    let n = state.names@.len() as int;
    let listed = walk::up_to(walk::reach(links, seed, dir, depth), budget);
    let sorted = order::sorted_distinct(listed, order::rank_lt::<usize>());
    <usize as order::Ranked>::lemma_strict();
    order::lemma_sorted_distinct(listed, order::rank_lt::<usize>());
    lemma_listed_within(links, seed, dir, depth, budget, n);
    adjacency::lemma_sorted_within(listed, n);
    assert(text::texts(state.names@).len() == server::node_names(graph).len());
    assert forall|i: int| 0 <= i < sorted.len() implies order::ascending(
        links.forward[#[trigger] sorted[i] as int],
        order::rank_lt::<usize>(),
    ) by {
        assert(sorted[i] < n);
        adjacency::lemma_neighbours_ascend(graph.edges, sorted[i]);
    }
    lemma_edges_among_ascend(links, sorted, listed);
}

proof fn lemma_edges_among_ascend(links: walk::Links, sources: Seq<usize>, listed: Seq<usize>)
    requires
        order::ascending(sources, order::rank_lt::<usize>()),
        forall|i: int|
            0 <= i < sources.len() ==> order::ascending(
                links.forward[#[trigger] sources[i] as int],
                order::rank_lt::<usize>(),
            ),
    ensures
        order::ascending(
            edges_among(links, sources, listed),
            order::rank_lt::<(usize, usize)>(),
        ),
    decreases sources.len(),
{
    if sources.len() > 0 {
        let front = sources.drop_last();
        let last = sources.last();
        let rest = edges_among(links, front, listed);
        let more = edges_into(last, links.forward[last as int], listed);
        let all = rest + more;
        let lt = order::rank_lt::<(usize, usize)>();
        assert forall|i: int, j: int| 0 <= i < j < front.len() implies order::rank_lt::<usize>()(
            #[trigger] front[i],
            #[trigger] front[j],
        ) by {
            assert(order::rank_lt::<usize>()(sources[i], sources[j]));
        }
        assert forall|i: int| 0 <= i < front.len() implies order::ascending(
            links.forward[#[trigger] front[i] as int],
            order::rank_lt::<usize>(),
        ) by {
            assert(front[i] == sources[i]);
        }
        lemma_edges_among_ascend(links, front, listed);
        assert(sources[sources.len() - 1] == last);
        lemma_edges_into_ascend(last, links.forward[last as int], listed);
        assert forall|i: int, j: int| 0 <= i < j < all.len() implies lt(
            #[trigger] all[i],
            #[trigger] all[j],
        ) by {
            if j < rest.len() {
                assert(lt(rest[i], rest[j]));
            } else if i >= rest.len() {
                assert(lt(more[i - rest.len()], more[j - rest.len()]));
            } else {
                assert(rest.contains(rest[i]));
                lemma_edges_among(links, front, listed, rest[i]);
                let k = choose|k: int| 0 <= k < front.len() && front[k] == rest[i].0;
                assert(order::rank_lt::<usize>()(sources[k], sources[sources.len() - 1]));
                assert(more.contains(more[j - rest.len()]));
                lemma_edges_into(last, links.forward[last as int], listed, more[j - rest.len()]);
            }
        }
    }
}

proof fn lemma_edges_into_ascend(from: usize, successors: Seq<usize>, listed: Seq<usize>)
    requires
        order::ascending(successors, order::rank_lt::<usize>()),
    ensures
        order::ascending(
            edges_into(from, successors, listed),
            order::rank_lt::<(usize, usize)>(),
        ),
    decreases successors.len(),
{
    if successors.len() > 0 {
        let front = successors.drop_last();
        let rest = edges_into(from, front, listed);
        let all = edges_into(from, successors, listed);
        let lt = order::rank_lt::<(usize, usize)>();
        assert forall|i: int, j: int| 0 <= i < j < front.len() implies order::rank_lt::<usize>()(
            #[trigger] front[i],
            #[trigger] front[j],
        ) by {
            assert(order::rank_lt::<usize>()(successors[i], successors[j]));
        }
        lemma_edges_into_ascend(from, front, listed);
        assert forall|i: int, j: int| 0 <= i < j < all.len() implies lt(
            #[trigger] all[i],
            #[trigger] all[j],
        ) by {
            if j < rest.len() {
                assert(lt(rest[i], rest[j]));
            } else {
                assert(rest.contains(rest[i]));
                lemma_edges_into(from, front, listed, rest[i]);
                let k = choose|k: int| 0 <= k < front.len() && front[k] == rest[i].1;
                assert(order::rank_lt::<usize>()(successors[k], successors[successors.len() - 1]));
            }
        }
    }
}

/// Of every node that a neighbourhood lists, the seed too, the mark says whether some caller or
/// callee of that node is not listed.
pub proof fn lemma_marked_where_more(
    links: walk::Links,
    seed: usize,
    depth: nat,
    dir: Dir,
    budget: int,
    k: int,
)
    requires
        0 <= k < neighborhood_of(links, seed, depth, dir, budget).nodes.len(),
    ensures
        ({
            let nodes = neighborhood_of(links, seed, depth, dir, budget).nodes;
            let ids = nodes.map_values(|node: NeighborNode| node.id);
            let id = nodes[k].id as int;
            nodes[k].has_more <==> exists|other: usize|
                (links.forward[id].contains(other) || links.backward[id].contains(other))
                    && !(#[trigger] ids.contains(other))
        }),
{
    let nodes = neighborhood_of(links, seed, depth, dir, budget).nodes;
    let ids = nodes.map_values(|node: NeighborNode| node.id);
    let listed = walk::up_to(walk::reach(links, seed, dir, depth), budget);
    let id = listed[k];
    let around = walk::step(links, id, Dir::Both);
    let (forward, backward) = (links.forward[id as int], links.backward[id as int]);
    assert(ids =~= listed);
    if leads_out(links, id, listed) {
        let i = choose|i: int| 0 <= i < around.len() && !listed.contains(#[trigger] around[i]);
        if i < forward.len() {
            assert(forward[i] == around[i]);
        } else {
            assert(backward[i - forward.len()] == around[i]);
        }
        assert(!ids.contains(around[i]));
    }
    if exists|other: usize|
        (forward.contains(other) || backward.contains(other)) && !(#[trigger] ids.contains(other)) {
        let other = choose|other: usize|
            (forward.contains(other) || backward.contains(other)) && !(#[trigger] ids.contains(
                other,
            ));
        if forward.contains(other) {
            let i = choose|i: int| 0 <= i < forward.len() && forward[i] == other;
            assert(around[i] == other);
        } else {
            let i = choose|i: int| 0 <= i < backward.len() && backward[i] == other;
            assert(around[forward.len() + i] == other);
        }
    }
}

/// The graph goes on past a node exactly where some caller or callee of it was not visited.
pub proof fn lemma_goes_on(links: walk::Links, node: usize, visited: Seq<bool>)
    ensures
        continues(links, node, visited) <==> exists|other: usize|
            (links.forward[node as int].contains(other) || links.backward[node as int].contains(
                other,
            )) && !(#[trigger] visited[other as int]),
{
    let around = walk::step(links, node, Dir::Both);
    let (forward, backward) = (links.forward[node as int], links.backward[node as int]);
    if continues(links, node, visited) {
        let i = choose|i: int| 0 <= i < around.len() && !visited[#[trigger] around[i] as int];
        if i < forward.len() {
            assert(forward[i] == around[i]);
        } else {
            assert(backward[i - forward.len()] == around[i]);
        }
        assert(!visited[around[i] as int]);
    }
    if exists|other: usize|
        (forward.contains(other) || backward.contains(other))
            && !(#[trigger] visited[other as int]) {
        let other = choose|other: usize|
            (forward.contains(other) || backward.contains(other))
                && !(#[trigger] visited[other as int]);
        if forward.contains(other) {
            let i = choose|i: int| 0 <= i < forward.len() && forward[i] == other;
            assert(around[i] == other);
        } else {
            let i = choose|i: int| 0 <= i < backward.len() && backward[i] == other;
            assert(around[forward.len() + i] == other);
        }
    }
}

/// A neighbourhood lists each node once and no more than the budget allows. A node that is listed
/// is at the end of a path from the seed with no more steps than the depth; where nothing was cut
/// off every such node is listed, and something was cut off exactly where the budget is used up and
/// one is not.
pub proof fn lemma_neighborhood_nodes(
    links: walk::Links,
    seed: usize,
    depth: nat,
    dir: Dir,
    budget: int,
    node: usize,
)
    requires
        budget >= 0,
    ensures
        ({
            let found = neighborhood_of(links, seed, depth, dir, budget);
            let ids = found.nodes.map_values(|node: NeighborNode| node.id);
            &&& ids.no_duplicates()
            &&& ids.len() <= budget
            &&& ids.contains(node) ==> walk::reachable(links, dir, seed, node, depth)
            &&& !found.truncated && walk::reachable(links, dir, seed, node, depth) ==> ids.contains(
                node,
            )
            &&& found.truncated <==> ids.len() == budget && exists|other: usize| #[trigger]
                walk::reachable(links, dir, seed, other, depth) && !ids.contains(other)
        }),
{
    let found = neighborhood_of(links, seed, depth, dir, budget);
    let ids = found.nodes.map_values(|node: NeighborNode| node.id);
    let all = walk::reach(links, seed, dir, depth);
    let listed = walk::up_to(all, budget);
    assert(ids =~= listed);
    walk::lemma_reach_no_duplicates(links, seed, dir, depth);
    walk::lemma_reach_by_paths(links, seed, dir, depth, node);
    if ids.contains(node) {
        let i = choose|i: int| 0 <= i < ids.len() && ids[i] == node;
        assert(all[i] == node);
    }
    if found.truncated {
        let other = all[budget];
        assert(all.contains(other));
        walk::lemma_reach_by_paths(links, seed, dir, depth, other);
        if ids.contains(other) {
            let i = choose|i: int| 0 <= i < ids.len() && ids[i] == other;
            assert(all[i] == other);
        }
        assert(walk::reachable(links, dir, seed, other, depth) && !ids.contains(other));
    } else if exists|other: usize| #[trigger]
        walk::reachable(links, dir, seed, other, depth) && !ids.contains(other) {
        let other = choose|other: usize| #[trigger]
            walk::reachable(links, dir, seed, other, depth) && !ids.contains(other);
        walk::lemma_reach_by_paths(links, seed, dir, depth, other);
    }
}

} // verus!
