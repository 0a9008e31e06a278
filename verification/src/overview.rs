//! The overview of the graph, and the nodes to start from.
use vstd::prelude::*;
use vstd::string::StringExecFns;

use crate::binary;
use crate::callgraph::NodeKind;
use crate::order;
use crate::server::AppState;
use crate::text;
use crate::text::Descending;
use crate::walk;

verus! {

/// A node in the overview of the graph.
pub struct MetaNode {
    pub name: String,
    pub kind: NodeKind,
    pub in_degree: usize,
    pub out_degree: usize,
}

/// The values of a [`MetaNode`].
pub struct MetaNodeModel {
    pub name: Seq<char>,
    pub kind: NodeKind,
    pub in_degree: usize,
    pub out_degree: usize,
}

impl View for MetaNode {
    type V = MetaNodeModel;

    open spec fn view(&self) -> MetaNodeModel {
        MetaNodeModel {
            name: self.name@,
            kind: self.kind,
            in_degree: self.in_degree,
            out_degree: self.out_degree,
        }
    }
}

#[derive(Clone, Copy, Debug, PartialEq, Eq, Structural)]
pub struct Stats {
    pub nodes: usize,
    pub edges: usize,
}

/// The overview of the graph.
pub struct Meta {
    pub nodes: Vec<MetaNode>,
    pub stats: Stats,
}

/// The nodes of a state, with their degrees.
pub open spec fn meta_nodes(state: AppState) -> Seq<MetaNodeModel> {
    Seq::new(
        state.names@.len(),
        |i: int|
            MetaNodeModel {
                name: state.names@[i]@,
                kind: state.kinds@[i],
                in_degree: state.in_degree@[i],
                out_degree: state.out_degree@[i],
            },
    )
}

/// The overview of the graph: its nodes with their degrees, and how many nodes and edges it has.
pub fn meta(state: &AppState) -> (r: Meta)
    requires
        state.wf(),
    ensures
        r.nodes@.map_values(|node: MetaNode| node@) == meta_nodes(*state),
        r.stats == (Stats { nodes: state.names.len(), edges: state.edge_count }),
{
    let mut nodes: Vec<MetaNode> = Vec::new();
    let mut i: usize = 0;
    while i < state.names.len()
        invariant
            i <= state.names.len(),
            state.wf(),
            nodes.len() == i,
            forall|k: int| 0 <= k < i ==> (#[trigger] nodes@[k])@ == meta_nodes(*state)[k],
        decreases state.names.len() - i,
    {
        nodes.push(
            MetaNode {
                name: state.names[i].clone(),
                kind: state.kinds[i],
                in_degree: state.in_degree[i],
                out_degree: state.out_degree[i],
            },
        );
        i = i + 1;
    }
    assert(nodes@.map_values(|node: MetaNode| node@) =~= meta_nodes(*state));
    Meta { nodes, stats: Stats { nodes: state.names.len(), edges: state.edge_count } }
}

/// How many of the most called functions are offered to start from.
pub const TOP_LIMIT: usize = 10;

/// The nodes to start from: the entry point's, the exported functions', and those of the functions
/// that are called most.
pub struct Roots {
    pub entry: Vec<usize>,
    pub exported: Vec<usize>,
    pub top: Vec<usize>,
}

/// The values of [`Roots`].
#[verifier::ext_equal]
pub struct RootsModel {
    pub entry: Seq<usize>,
    pub exported: Seq<usize>,
    pub top: Seq<usize>,
}

impl View for Roots {
    type V = RootsModel;

    open spec fn view(&self) -> RootsModel {
        RootsModel { entry: self.entry@, exported: self.exported@, top: self.top@ }
    }
}

/// The node of this name, as a list.
pub open spec fn node_named(index: Map<Seq<char>, usize>, name: Seq<char>) -> Seq<usize> {
    if index.contains_key(name) {
        seq![index[name]]
    } else {
        Seq::empty()
    }
}

/// The node of the first function at the entry point, where it has one.
pub open spec fn entry_nodes(
    functions: Seq<binary::FunctionModel>,
    index: Map<Seq<char>, usize>,
    entry_point: u64,
) -> Seq<usize>
    decreases functions.len(),
{
    if functions.len() == 0 {
        Seq::empty()
    } else if functions[0].address == entry_point {
        node_named(index, functions[0].name)
    } else {
        entry_nodes(functions.drop_first(), index, entry_point)
    }
}

/// The nodes of the exported functions that have one.
pub open spec fn exported_nodes(
    functions: Seq<binary::FunctionModel>,
    index: Map<Seq<char>, usize>,
) -> Seq<usize>
    decreases functions.len(),
{
    if functions.len() == 0 {
        Seq::empty()
    } else {
        let rest = exported_nodes(functions.drop_last(), index);
        if functions.last().exported {
            rest + node_named(index, functions.last().name)
        } else {
            rest
        }
    }
}

/// The first `n` nodes, without those that are not local or that nothing calls.
pub open spec fn called_locals(kinds: Seq<NodeKind>, in_degree: Seq<usize>, n: int) -> Seq<usize>
    decreases n,
{
    if n <= 0 {
        Seq::empty()
    } else {
        let rest = called_locals(kinds, in_degree, n - 1);
        if kinds[n - 1] == NodeKind::Local && in_degree[n - 1] > 0 {
            rest.push((n - 1) as usize)
        } else {
            rest
        }
    }
}

/// The local nodes that are called, the most called first, and the one with the lower number first
/// where two are called as often; only the first of them.
pub open spec fn top_nodes(kinds: Seq<NodeKind>, in_degree: Seq<usize>) -> Seq<usize> {
    walk::up_to(
        order::stable_sort(
            called_locals(kinds, in_degree, kinds.len() as int),
            |id: usize| in_degree[id as int] as u64,
            order::rank_lt::<Descending>(),
        ),
        TOP_LIMIT as int,
    )
}

/// The nodes to start from in a state.
pub open spec fn roots_of(state: AppState) -> RootsModel {
    let functions = binary::function_models(state.functions@);
    RootsModel {
        entry: entry_nodes(functions, state.name_to_idx@, state.info.entry_point),
        exported: exported_nodes(functions, state.name_to_idx@),
        top: top_nodes(state.kinds@, state.in_degree@),
    }
}

fn find_entry(state: &AppState) -> (r: Vec<usize>)
    ensures
        r@ == entry_nodes(
            binary::function_models(state.functions@),
            state.name_to_idx@,
            state.info.entry_point,
        ),
{
    let ghost all = binary::function_models(state.functions@);
    let mut out: Vec<usize> = Vec::new();
    let mut i: usize = 0;
    assert(all.skip(0) =~= all);
    while i < state.functions.len()
        invariant
            i <= state.functions.len(),
            out.len() == 0,
            all == binary::function_models(state.functions@),
            entry_nodes(all, state.name_to_idx@, state.info.entry_point) == entry_nodes(
                all.skip(i as int),
                state.name_to_idx@,
                state.info.entry_point,
            ),
        decreases state.functions.len() - i,
    {
        let function = &state.functions[i];
        assert(all.skip(i as int).drop_first() =~= all.skip(i + 1));
        assert(all.skip(i as int)[0] == function@);
        if function.address == state.info.entry_point {
            if let Some(id) = state.name_to_idx.get(function.name.as_str()) {
                out.push(*id);
            }
            assert(out@ =~= node_named(state.name_to_idx@, function.name@));
            return out;
        }
        i = i + 1;
    }
    assert(out@ =~= Seq::empty());
    out
}

fn find_exported(state: &AppState) -> (r: Vec<usize>)
    ensures
        r@ == exported_nodes(binary::function_models(state.functions@), state.name_to_idx@),
{
    let ghost all = binary::function_models(state.functions@);
    let mut out: Vec<usize> = Vec::new();
    let mut i: usize = 0;
    assert(out@ =~= exported_nodes(all.take(0), state.name_to_idx@));
    while i < state.functions.len()
        invariant
            i <= state.functions.len(),
            all == binary::function_models(state.functions@),
            out@ == exported_nodes(all.take(i as int), state.name_to_idx@),
        decreases state.functions.len() - i,
    {
        let function = &state.functions[i];
        let ghost before = out@;
        assert(all.take(i + 1).drop_last() =~= all.take(i as int));
        assert(all.take(i + 1).last() == function@);
        if function.exported {
            if let Some(id) = state.name_to_idx.get(function.name.as_str()) {
                out.push(*id);
            }
            assert(out@ =~= before + node_named(state.name_to_idx@, function.name@));
        }
        i = i + 1;
    }
    assert(all.take(i as int) =~= all);
    out
}

fn find_top(state: &AppState) -> (r: Vec<usize>)
    requires
        state.wf(),
    ensures
        r@ == top_nodes(state.kinds@, state.in_degree@),
{
    let n = state.kinds.len();
    let ghost degrees = state.in_degree@;
    let mut ids: Vec<usize> = Vec::new();
    let mut keys: Vec<Descending> = Vec::new();
    let ghost key = |id: usize| degrees[id as int] as u64;
    let mut i: usize = 0;
    while i < n
        invariant
            i <= n,
            n == state.kinds.len(),
            state.wf(),
            degrees == state.in_degree@,
            ids@ == called_locals(state.kinds@, degrees, i as int),
            keys.len() == ids.len(),
            forall|k: int|
                0 <= k < ids.len() ==> (#[trigger] keys@[k]).0 == degrees[ids@[k] as int] as u64,
        decreases n - i,
    {
        let local = match state.kinds[i] {
            NodeKind::Local => true,
            _ => false,
        };
        if local && state.in_degree[i] > 0 {
            ids.push(i);
            keys.push(Descending(state.in_degree[i] as u64));
        }
        i = i + 1;
    }
    assert(order::ranks(keys@) =~= ids@.map_values(key));
    let sorted = order::order_by_rank(&keys);
    let ghost at = |i: usize| ids@[i as int];
    let ghost all = sorted@.map_values(at);
    let mut top: Vec<usize> = Vec::new();
    let mut k: usize = 0;
    while k < sorted.len() && k < TOP_LIMIT
        invariant
            k <= sorted.len(),
            k <= TOP_LIMIT,
            at == (|i: usize| ids@[i as int]),
            all == sorted@.map_values(at),
            forall|m: int| 0 <= m < sorted.len() ==> #[trigger] sorted@[m] < ids.len(),
            top@ == all.take(k as int),
        decreases sorted.len() - k,
    {
        top.push(ids[sorted[k]]);
        k = k + 1;
        assert(top@ =~= all.take(k as int));
    }
    assert(top@ =~= walk::up_to(all, TOP_LIMIT as int));
    top
}

/// The nodes to start from.
pub fn roots(state: &AppState) -> (r: Roots)
    requires
        state.wf(),
    ensures
        r@ == roots_of(*state),
{
    Roots { entry: find_entry(state), exported: find_exported(state), top: find_top(state) }
}

/// Numbers with commas between them.
pub open spec fn comma_separated(numbers: Seq<usize>) -> Seq<char>
    decreases numbers.len(),
{
    if numbers.len() == 0 {
        Seq::empty()
    } else if numbers.len() == 1 {
        text::dec(numbers[0] as nat)
    } else {
        comma_separated(numbers.drop_last()) + ","@ + text::dec(numbers.last() as nat)
    }
}

/// A list of numbers in JSON.
pub open spec fn list_text(numbers: Seq<usize>) -> Seq<char> {
    "["@ + comma_separated(numbers) + "]"@
}

/// The nodes to start from in JSON: an object with the three lists.
pub open spec fn roots_text(roots: RootsModel) -> Seq<char> {
    "{\"entry\":"@ + list_text(roots.entry) + ",\"exported\":"@ + list_text(roots.exported)
        + ",\"top\":"@ + list_text(roots.top) + "}"@
}

/// Appends a list of numbers in JSON.
fn push_list(out: &mut String, numbers: &Vec<usize>)
    ensures
        final(out)@ == old(out)@ + list_text(numbers@),
{
    let ghost before = out@;
    out.append("[");
    let ghost start = out@;
    let mut i: usize = 0;
    assert(out@ =~= start + comma_separated(numbers@.take(0)));
    while i < numbers.len()
        invariant
            i <= numbers.len(),
            out@ == start + comma_separated(numbers@.take(i as int)),
        decreases numbers.len() - i,
    {
        let ghost so_far = out@;
        let ghost part = numbers@.take(i + 1);
        if i > 0 {
            out.append(",");
        }
        text::push_dec(out, numbers[i] as u64);
        proof {
            assert(part.drop_last() =~= numbers@.take(i as int));
            assert(part.last() == numbers@[i as int]);
            assert(out@ =~= start + comma_separated(part));
        }
        i = i + 1;
    }
    assert(numbers@.take(i as int) =~= numbers@);
    out.append("]");
    assert(out@ =~= before + list_text(numbers@));
}

/// The nodes to start from, as the body of an answer in JSON.
pub fn roots_body(state: &AppState) -> (r: String)
    requires
        state.wf(),
    ensures
        r@ == roots_text(roots_of(*state)),
{
    let found = roots(state);
    let mut out = String::new();
    out.append("{\"entry\":");
    push_list(&mut out, &found.entry);
    let ghost entry = "{\"entry\":"@ + list_text(found.entry@);
    assert(out@ =~= entry);
    out.append(",\"exported\":");
    push_list(&mut out, &found.exported);
    let ghost exported = entry + ",\"exported\":"@ + list_text(found.exported@);
    assert(out@ =~= exported);
    out.append(",\"top\":");
    push_list(&mut out, &found.top);
    out.append("}");
    assert(out@ =~= exported + ",\"top\":"@ + list_text(found.top@) + "}"@);
    out
}

/// The nodes that are offered first are local functions that are called, as many as the limit at
/// most, and none of them is called less often than one that is left out.
pub proof fn lemma_top_nodes(kinds: Seq<NodeKind>, in_degree: Seq<usize>)
    requires
        kinds.len() == in_degree.len(),
        kinds.len() <= usize::MAX,
    ensures
        top_nodes(kinds, in_degree).len() <= TOP_LIMIT,
        forall|i: int|
            0 <= i < top_nodes(kinds, in_degree).len() ==> {
                let id = #[trigger] top_nodes(kinds, in_degree)[i];
                id < kinds.len() && kinds[id as int] == NodeKind::Local && in_degree[id as int] > 0
            },
        forall|i: int, other: usize|
            0 <= i < top_nodes(kinds, in_degree).len() && other < kinds.len() && kinds[other as int]
                == NodeKind::Local && in_degree[other as int] > 0 && !(#[trigger] top_nodes(
                kinds,
                in_degree,
            ).contains(other)) ==> in_degree[(#[trigger] top_nodes(
                kinds,
                in_degree,
            )[i]) as int] >= in_degree[other as int],
{
    let ids = called_locals(kinds, in_degree, kinds.len() as int);
    let key = |id: usize| in_degree[id as int] as u64;
    let lt = order::rank_lt::<Descending>();
    let sorted = order::stable_sort(ids, key, lt);
    let top = top_nodes(kinds, in_degree);
    lemma_called_locals(kinds, in_degree, kinds.len() as int);
    <Descending as order::Ranked>::lemma_strict();
    order::lemma_stable_sort(ids, key, lt);
    assert forall|i: int| 0 <= i < top.len() implies {
        let id = #[trigger] top[i];
        id < kinds.len() && kinds[id as int] == NodeKind::Local && in_degree[id as int] > 0
    } by {
        assert(top[i] == sorted[i]);
        assert(sorted.contains(sorted[i]));
        assert(ids.contains(sorted[i]));
    }
    assert forall|i: int, other: usize|
        0 <= i < top.len() && other < kinds.len() && kinds[other as int] == NodeKind::Local
            && in_degree[other as int] > 0 && !(#[trigger] top.contains(other)) implies in_degree[(
    #[trigger] top[i]) as int] >= in_degree[other as int] by {
        assert(ids.contains(other));
        assert(sorted.contains(other));
        let k = choose|k: int| 0 <= k < sorted.len() && sorted[k] == other;
        if k < top.len() {
            assert(top[k] == other);
        }
        assert(!lt(key(sorted[k]), key(sorted[i])));
        assert(top[i] == sorted[i]);
    }
}

proof fn lemma_called_locals(kinds: Seq<NodeKind>, in_degree: Seq<usize>, n: int)
    requires
        0 <= n <= kinds.len(),
        kinds.len() == in_degree.len(),
        kinds.len() <= usize::MAX,
    ensures
        called_locals(kinds, in_degree, n).len() <= n,
        forall|id: usize| #[trigger]
            called_locals(kinds, in_degree, n).contains(id) <==> id < n && kinds[id as int]
                == NodeKind::Local && in_degree[id as int] > 0,
    decreases n,
{
    if n > 0 {
        let rest = called_locals(kinds, in_degree, n - 1);
        let all = called_locals(kinds, in_degree, n);
        lemma_called_locals(kinds, in_degree, n - 1);
        assert forall|id: usize| #[trigger]
            all.contains(id) <==> id < n && kinds[id as int] == NodeKind::Local
                && in_degree[id as int] > 0 by {
            if all.contains(id) {
                let k = choose|k: int| 0 <= k < all.len() && all[k] == id;
                if k < rest.len() {
                    assert(rest[k] == id);
                    assert(rest.contains(id));
                }
            }
            if rest.contains(id) {
                let k = choose|k: int| 0 <= k < rest.len() && rest[k] == id;
                assert(all[k] == id);
            }
            if id == n - 1 && kinds[id as int] == NodeKind::Local && in_degree[id as int] > 0 {
                assert(all[rest.len() as int] == id);
            }
        }
    } else {
        assert(called_locals(kinds, in_degree, n) =~= Seq::empty());
    }
}

/// The overview lists every node of the state with its own name, kind and degrees.
pub proof fn lemma_meta_nodes(state: AppState, i: int)
    ensures
        meta_nodes(state).len() == state.names@.len(),
        0 <= i < state.names@.len() ==> {
            let node = meta_nodes(state)[i];
            &&& node.name == state.names@[i]@
            &&& node.kind == state.kinds@[i]
            &&& node.in_degree == state.in_degree@[i]
            &&& node.out_degree == state.out_degree@[i]
        },
{
}

/// The first function at the entry point gives the node to start from, where its name has one; no
/// other does.
pub proof fn lemma_entry_root(
    functions: Seq<binary::FunctionModel>,
    index: Map<Seq<char>, usize>,
    entry_point: u64,
    i: int,
)
    ensures
        (forall|k: int|
            0 <= k < functions.len() ==> (#[trigger] functions[k]).address != entry_point)
            ==> entry_nodes(functions, index, entry_point) == Seq::<usize>::empty(),
        0 <= i < functions.len() && functions[i].address == entry_point && (forall|k: int|
            0 <= k < i ==> (#[trigger] functions[k]).address != entry_point) ==> entry_nodes(
            functions,
            index,
            entry_point,
        ) == if index.contains_key(functions[i].name) {
            seq![index[functions[i].name]]
        } else {
            Seq::empty()
        },
    decreases functions.len(),
{
    if functions.len() > 0 && functions[0].address != entry_point {
        let rest = functions.drop_first();
        lemma_entry_root(rest, index, entry_point, i - 1);
        if forall|k: int|
            0 <= k < functions.len() ==> (#[trigger] functions[k]).address != entry_point {
            assert forall|k: int| 0 <= k < rest.len() implies (#[trigger] rest[k]).address
                != entry_point by {
                assert(rest[k] == functions[k + 1]);
            }
        }
        if 0 <= i < functions.len() && functions[i].address == entry_point && (forall|k: int|
            0 <= k < i ==> (#[trigger] functions[k]).address != entry_point) {
            assert(i > 0);
            assert(rest[i - 1] == functions[i]);
            assert forall|k: int| 0 <= k < i - 1 implies (#[trigger] rest[k]).address
                != entry_point by {
                assert(rest[k] == functions[k + 1]);
            }
        }
    } else if functions.len() > 0 {
        if i > 0 {
            assert(functions[0].address == entry_point);
        }
    }
}

/// The exported functions that have a node are offered, all of them and in their order, and no
/// others.
pub proof fn lemma_exported_roots(
    functions: Seq<binary::FunctionModel>,
    index: Map<Seq<char>, usize>,
)
    ensures
        exported_nodes(functions, index) == functions.filter(
            |f: binary::FunctionModel| f.exported && index.contains_key(f.name),
        ).map_values(|f: binary::FunctionModel| index[f.name]),
    decreases functions.len(),
{
    let offered = |f: binary::FunctionModel| f.exported && index.contains_key(f.name);
    let node = |f: binary::FunctionModel| index[f.name];
    reveal(Seq::filter);
    if functions.len() > 0 {
        let front = functions.drop_last();
        let last = functions.last();
        lemma_exported_roots(front, index);
        if offered(last) {
            assert(functions.filter(offered).map_values(node) =~= front.filter(offered).map_values(
                node,
            ).push(node(last)));
            assert(exported_nodes(functions, index) =~= exported_nodes(front, index).push(
                node(last),
            ));
        } else {
            assert(exported_nodes(functions, index) =~= exported_nodes(front, index));
        }
    } else {
        assert(functions.filter(offered).map_values(node) =~= Seq::empty());
    }
}

/// One node is offered before another: it is called more often, or as often and has the lower
/// number.
pub open spec fn offered_before(in_degree: Seq<usize>, a: usize, b: usize) -> bool {
    in_degree[a as int] > in_degree[b as int] || (in_degree[a as int] == in_degree[b as int] && a
        < b)
}

/// The most called functions are local nodes that are called, listed from the most called down and
/// by their numbers where two are called as often; there are no more than ten, and one that is left
/// out comes behind all ten.
pub proof fn lemma_top_order(kinds: Seq<NodeKind>, in_degree: Seq<usize>, other: usize)
    requires
        kinds.len() == in_degree.len(),
        kinds.len() <= usize::MAX,
    ensures
        ({
            let top = top_nodes(kinds, in_degree);
            let called = other < kinds.len() && kinds[other as int] == NodeKind::Local
                && in_degree[other as int] > 0;
            &&& top.len() <= 10
            &&& top.contains(other) ==> called
            &&& forall|i: int, j: int|
                0 <= i < j < top.len() ==> offered_before(
                    in_degree,
                    #[trigger] top[i],
                    #[trigger] top[j],
                )
            &&& called && !top.contains(other) ==> top.len() == 10 && forall|i: int|
                0 <= i < 10 ==> offered_before(in_degree, #[trigger] top[i], other)
        }),
{
    let n = kinds.len() as int;
    let ids = called_locals(kinds, in_degree, n);
    let key = |id: usize| in_degree[id as int] as u64;
    let lt = order::rank_lt::<Descending>();
    let sorted = order::stable_sort(ids, key, lt);
    let top = top_nodes(kinds, in_degree);
    lemma_called_locals(kinds, in_degree, n);
    lemma_called_ascend(kinds, in_degree, n);
    <Descending as order::Ranked>::lemma_strict();
    order::lemma_stable_sort(ids, key, lt);
    let order = order::lemma_sorted_positions(ids, key, lt);
    assert forall|i: int, j: int| 0 <= i < j < sorted.len() implies offered_before(
        in_degree,
        #[trigger] sorted[i],
        #[trigger] sorted[j],
    ) by {
        let (a, b) = (order[i], order[j]);
        assert(sorted[i] == ids[a as int] && sorted[j] == ids[b as int]);
        if a < b {
            assert(ids[a as int] < ids[b as int]);
        }
    }
    assert forall|i: int, j: int| 0 <= i < j < top.len() implies offered_before(
        in_degree,
        #[trigger] top[i],
        #[trigger] top[j],
    ) by {
        assert(top[i] == sorted[i] && top[j] == sorted[j]);
    }
    if top.contains(other) {
        let i = choose|i: int| 0 <= i < top.len() && top[i] == other;
        assert(sorted[i] == other);
        assert(sorted.contains(other));
        assert(ids.contains(other));
    }
    if other < n && kinds[other as int] == NodeKind::Local && in_degree[other as int] > 0
        && !top.contains(other) {
        assert(ids.contains(other));
        assert(sorted.contains(other));
        let m = choose|m: int| 0 <= m < sorted.len() && sorted[m] == other;
        if m < top.len() {
            assert(top[m] == other);
        }
        assert forall|i: int| 0 <= i < 10 implies offered_before(
            in_degree,
            #[trigger] top[i],
            other,
        ) by {
            assert(top[i] == sorted[i]);
            assert(offered_before(in_degree, sorted[i], sorted[m]));
        }
    }
}

proof fn lemma_called_ascend(kinds: Seq<NodeKind>, in_degree: Seq<usize>, n: int)
    requires
        0 <= n <= kinds.len(),
        kinds.len() == in_degree.len(),
        kinds.len() <= usize::MAX,
    ensures
        forall|i: int, j: int|
            0 <= i < j < called_locals(kinds, in_degree, n).len() ==> (#[trigger] called_locals(
                kinds,
                in_degree,
                n,
            )[i]) < (#[trigger] called_locals(kinds, in_degree, n)[j]),
    decreases n,
{
    if n > 0 {
        let rest = called_locals(kinds, in_degree, n - 1);
        let all = called_locals(kinds, in_degree, n);
        lemma_called_ascend(kinds, in_degree, n - 1);
        lemma_called_locals(kinds, in_degree, n - 1);
        assert forall|i: int, j: int| 0 <= i < j < all.len() implies (#[trigger] all[i]) < (
        #[trigger] all[j]) by {
            assert(all[i] == rest[i]);
            if j < rest.len() {
                assert(all[j] == rest[j]);
            } else {
                assert(rest.contains(rest[i]));
            }
        }
    }
}

/// The nodes to start from in a state come from its functions, its entry point, the numbers of its
/// names, and the kinds and degrees of its nodes.
pub proof fn lemma_roots_of(state: AppState)
    ensures
        ({
            let functions = binary::function_models(state.functions@);
            let roots = roots_of(state);
            &&& roots.entry == entry_nodes(functions, state.name_to_idx@, state.info.entry_point)
            &&& roots.exported == exported_nodes(functions, state.name_to_idx@)
            &&& roots.top == top_nodes(state.kinds@, state.in_degree@)
        }),
{
}

/// The answer is an object with the three lists under their names, each a list of the numbers in
/// decimal.
pub proof fn lemma_roots_text(roots: RootsModel)
    ensures
        roots_text(roots) == "{\"entry\":["@ + decimals(roots.entry) + "],\"exported\":["@ + decimals(
            roots.exported,
        ) + "],\"top\":["@ + decimals(roots.top) + "]}"@,
{
    lemma_decimals(roots.entry);
    lemma_decimals(roots.exported);
    lemma_decimals(roots.top);
    reveal_strlit("{\"entry\":");
    reveal_strlit("[");
    reveal_strlit("]");
    reveal_strlit("}");
    reveal_strlit(",\"exported\":");
    reveal_strlit(",\"top\":");
    reveal_strlit("{\"entry\":[");
    reveal_strlit("],\"exported\":[");
    reveal_strlit("],\"top\":[");
    reveal_strlit("]}");
    assert("{\"entry\":["@ =~= "{\"entry\":"@ + "["@);
    assert("],\"exported\":["@ =~= "]"@ + ",\"exported\":"@ + "["@);
    assert("],\"top\":["@ =~= "]"@ + ",\"top\":"@ + "["@);
    assert("]}"@ =~= "]"@ + "}"@);
    let (e, x, t) = (decimals(roots.entry), decimals(roots.exported), decimals(roots.top));
    assert(list_text(roots.entry) =~= "["@ + e + "]"@);
    assert(list_text(roots.exported) =~= "["@ + x + "]"@);
    assert(list_text(roots.top) =~= "["@ + t + "]"@);
    let left = "{\"entry\":"@ + ("["@ + e + "]"@) + ",\"exported\":"@ + ("["@ + x + "]"@)
        + ",\"top\":"@ + ("["@ + t + "]"@) + "}"@;
    let right = ("{\"entry\":"@ + "["@) + e + ("]"@ + ",\"exported\":"@ + "["@) + x + ("]"@
        + ",\"top\":"@ + "["@) + t + ("]"@ + "}"@);
    assert(left =~= right);
}

/// The numbers in decimal, with commas between them.
pub open spec fn decimals(numbers: Seq<usize>) -> Seq<char> {
    text::joined(numbers.map_values(|n: usize| text::dec(n as nat)), seq![','])
}

proof fn lemma_decimals(numbers: Seq<usize>)
    ensures
        comma_separated(numbers) == decimals(numbers),
    decreases numbers.len(),
{
    let digits = numbers.map_values(|n: usize| text::dec(n as nat));
    reveal_strlit(",");
    assert(","@ =~= seq![',']);
    if numbers.len() > 1 {
        lemma_decimals(numbers.drop_last());
        assert(digits.drop_last() =~= numbers.drop_last().map_values(
            |n: usize| text::dec(n as nat),
        ));
    }
}

} // verus!
