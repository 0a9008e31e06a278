//! The neighbours of each node of a graph, from the list of its edges.
use vstd::prelude::*;

use crate::order;

verus! {

/// Where the edges that leave a node lead, one entry per edge.
pub open spec fn leaving(edges: Seq<(usize, usize)>, node: usize) -> Seq<usize>
    decreases edges.len(),
{
    if edges.len() == 0 {
        Seq::empty()
    } else {
        let rest = leaving(edges.drop_last(), node);
        if edges.last().0 == node {
            rest.push(edges.last().1)
        } else {
            rest
        }
    }
}

/// The edges the other way round.
pub open spec fn reversed(edges: Seq<(usize, usize)>) -> Seq<(usize, usize)> {
    edges.map_values(|edge: (usize, usize)| (edge.1, edge.0))
}

/// Where the edges that enter a node come from, one entry per edge.
pub open spec fn entering(edges: Seq<(usize, usize)>, node: usize) -> Seq<usize> {
    leaving(reversed(edges), node)
}

/// The nodes that an edge leads to from this one, each once, from the least on.
pub open spec fn successors(edges: Seq<(usize, usize)>, node: usize) -> Seq<usize> {
    order::sorted_distinct(leaving(edges, node), order::rank_lt::<usize>())
}

/// The nodes that an edge leads from to this one, each once, from the least on.
pub open spec fn predecessors(edges: Seq<(usize, usize)>, node: usize) -> Seq<usize> {
    order::sorted_distinct(entering(edges, node), order::rank_lt::<usize>())
}

/// The contents of lists.
pub open spec fn rows(lists: Seq<Vec<usize>>) -> Seq<Seq<usize>> {
    lists.map_values(|list: Vec<usize>| list@)
}

/// The neighbours that the lists give each node are nodes.
pub open spec fn rows_within(lists: Seq<Seq<usize>>, n: int) -> bool {
    &&& lists.len() == n
    &&& forall|i: int, j: int|
        0 <= i < lists.len() && 0 <= j < lists[i].len() ==> #[trigger] lists[i][j] < n
}

/// The ends of the edges are nodes.
pub open spec fn edges_within(edges: Seq<(usize, usize)>, n: int) -> bool {
    forall|i: int|
        0 <= i < edges.len() ==> (#[trigger] edges[i]).0 < n && edges[i].1 < n
}

/// Where the edges that leave each node lead.
pub fn group_edges(edges: &Vec<(usize, usize)>, n: usize) -> (r: Vec<Vec<usize>>)
    requires
        edges_within(edges@, n as int),
    ensures
        r.len() == n,
        forall|k: int| 0 <= k < n ==> (#[trigger] r@[k])@ == leaving(edges@, k as usize),
{
    let mut lists: Vec<Vec<usize>> = Vec::new();
    let mut k: usize = 0;
    while k < n
        invariant
            k <= n,
            lists.len() == k,
            forall|m: int| 0 <= m < k ==> (#[trigger] lists@[m])@ == Seq::<usize>::empty(),
        decreases n - k,
    {
        lists.push(Vec::new());
        k = k + 1;
    }
    let mut i: usize = 0;
    while i < edges.len()
        invariant
            i <= edges.len(),
            edges_within(edges@, n as int),
            lists.len() == n,
            forall|m: int|
                0 <= m < n ==> (#[trigger] lists@[m])@ == leaving(edges@.take(i as int), m as usize),
        decreases edges.len() - i,
    {
        let (from, to) = edges[i];
        let ghost before = lists@;
        assert(edges@.take(i + 1).drop_last() =~= edges@.take(i as int));
        lists[from].push(to);
        i = i + 1;
        assert forall|m: int| 0 <= m < n implies (#[trigger] lists@[m])@ == leaving(
            edges@.take(i as int),
            m as usize,
        ) by {
            if m != from {
                assert(lists@[m] == before[m]);
            }
        }
    }
    assert(edges@.take(i as int) =~= edges@);
    lists
}

/// The lists, each sorted and without repetition.
pub fn sort_lists(lists: &Vec<Vec<usize>>) -> (r: Vec<Vec<usize>>)
    ensures
        r.len() == lists.len(),
        forall|k: int|
            0 <= k < r.len() ==> (#[trigger] r@[k])@ == order::sorted_distinct(
                lists@[k]@,
                order::rank_lt::<usize>(),
            ),
{
    let mut out: Vec<Vec<usize>> = Vec::new();
    let mut k: usize = 0;
    while k < lists.len()
        invariant
            k <= lists.len(),
            out.len() == k,
            forall|m: int|
                0 <= m < k ==> (#[trigger] out@[m])@ == order::sorted_distinct(
                    lists@[m]@,
                    order::rank_lt::<usize>(),
                ),
        decreases lists.len() - k,
    {
        out.push(order::sorted_numbers(&lists[k]));
        k = k + 1;
    }
    out
}

/// How long each list is.
pub fn list_lengths(lists: &Vec<Vec<usize>>) -> (r: Vec<usize>)
    ensures
        r.len() == lists.len(),
        forall|k: int| 0 <= k < r.len() ==> #[trigger] r@[k] == lists@[k].len(),
{
    let mut out: Vec<usize> = Vec::new();
    let mut k: usize = 0;
    while k < lists.len()
        invariant
            k <= lists.len(),
            out.len() == k,
            forall|m: int| 0 <= m < k ==> #[trigger] out@[m] == lists@[m].len(),
        decreases lists.len() - k,
    {
        out.push(lists[k].len());
        k = k + 1;
    }
    out
}

/// The edges the other way round.
pub fn reverse_edges(edges: &Vec<(usize, usize)>) -> (r: Vec<(usize, usize)>)
    ensures
        r@ == reversed(edges@),
{
    let mut out: Vec<(usize, usize)> = Vec::new();
    let mut i: usize = 0;
    while i < edges.len()
        invariant
            i <= edges.len(),
            out@ == reversed(edges@).take(i as int),
        decreases edges.len() - i,
    {
        let (from, to) = edges[i];
        out.push((to, from));
        i = i + 1;
        assert(out@ =~= reversed(edges@).take(i as int));
    }
    assert(reversed(edges@).take(i as int) =~= reversed(edges@));
    out
}

/// A node is among those that the edges of another lead to exactly when there is such an edge.
pub proof fn lemma_leaving(edges: Seq<(usize, usize)>, from: usize, to: usize)
    ensures
        leaving(edges, from).contains(to) <==> edges.contains((from, to)),
    decreases edges.len(),
{
    if edges.len() > 0 {
        let front = edges.drop_last();
        let rest = leaving(front, from);
        lemma_leaving(front, from, to);
        if edges.contains((from, to)) && edges.last() != (from, to) {
            let i = choose|i: int| 0 <= i < edges.len() && edges[i] == (from, to);
            assert(front[i] == (from, to));
        }
        if front.contains((from, to)) {
            let i = choose|i: int| 0 <= i < front.len() && front[i] == (from, to);
            assert(edges[i] == (from, to));
        }
        if edges.last().0 == from {
            let list = rest.push(edges.last().1);
            assert(list[rest.len() as int] == edges.last().1);
            if rest.contains(to) {
                let i = choose|i: int| 0 <= i < rest.len() && rest[i] == to;
                assert(list[i] == to);
            }
            if list.contains(to) && !rest.contains(to) {
                let i = choose|i: int| 0 <= i < list.len() && list[i] == to;
                if i < rest.len() {
                    assert(rest[i] == to);
                }
                assert(edges[edges.len() - 1] == (from, to));
            }
            if edges.last() == (from, to) {
                assert(list.contains(to));
            }
        } else {
            assert(edges.last() != (from, to));
        }
    } else {
        assert(!edges.contains((from, to)));
    }
}

proof fn lemma_reversed(edges: Seq<(usize, usize)>, from: usize, to: usize)
    ensures
        reversed(edges).contains((to, from)) <==> edges.contains((from, to)),
{
    let other = reversed(edges);
    if other.contains((to, from)) {
        let i = choose|i: int| 0 <= i < other.len() && other[i] == (to, from);
        assert(edges[i] == (from, to));
    }
    if edges.contains((from, to)) {
        let i = choose|i: int| 0 <= i < edges.len() && edges[i] == (from, to);
        assert(other[i] == (to, from));
    }
}

/// A node is a successor of another exactly when there is an edge between them, and then the other
/// is a predecessor of it.
pub proof fn lemma_neighbours(edges: Seq<(usize, usize)>, from: usize, to: usize)
    ensures
        successors(edges, from).contains(to) <==> edges.contains((from, to)),
        predecessors(edges, to).contains(from) <==> edges.contains((from, to)),
{
    let lt = order::rank_lt::<usize>();
    <usize as order::Ranked>::lemma_strict();
    lemma_leaving(edges, from, to);
    lemma_reversed(edges, from, to);
    lemma_leaving(reversed(edges), to, from);
    order::lemma_sorted_distinct(leaving(edges, from), lt);
    order::lemma_sorted_distinct(entering(edges, to), lt);
    assert(successors(edges, from).contains(to) <==> successors(edges, from).to_set().contains(to));
    assert(leaving(edges, from).contains(to) <==> leaving(edges, from).to_set().contains(to));
    assert(predecessors(edges, to).contains(from) <==> predecessors(edges, to).to_set().contains(
        from,
    ));
    assert(entering(edges, to).contains(from) <==> entering(edges, to).to_set().contains(from));
}

/// The neighbours of a node are listed from the least on, each once.
pub proof fn lemma_neighbours_ascend(edges: Seq<(usize, usize)>, node: usize)
    ensures
        order::ascending(successors(edges, node), order::rank_lt::<usize>()),
        order::ascending(predecessors(edges, node), order::rank_lt::<usize>()),
{
    <usize as order::Ranked>::lemma_strict();
    order::lemma_sorted_distinct(leaving(edges, node), order::rank_lt::<usize>());
    order::lemma_sorted_distinct(entering(edges, node), order::rank_lt::<usize>());
}

/// A node has no more successors than edges that leave it, and no more predecessors than edges
/// that enter it.
pub proof fn lemma_degrees(edges: Seq<(usize, usize)>, node: usize)
    ensures
        successors(edges, node).len() <= leaving(edges, node).len(),
        predecessors(edges, node).len() <= entering(edges, node).len(),
{
    lemma_sorted_len(leaving(edges, node));
    lemma_sorted_len(entering(edges, node));
}

proof fn lemma_sorted_len(s: Seq<usize>)
    ensures
        order::sorted_distinct(s, order::rank_lt::<usize>()).len() <= s.len(),
    decreases s.len(),
{
    if s.len() > 0 {
        lemma_sorted_len(s.drop_last());
        lemma_insert_len(
            order::sorted_distinct(s.drop_last(), order::rank_lt::<usize>()),
            s.last(),
        );
    }
}

proof fn lemma_insert_len(s: Seq<usize>, x: usize)
    ensures
        order::insert_sorted(s, x, order::rank_lt::<usize>()).len() <= s.len() + 1,
    decreases s.len(),
{
    if s.len() > 0 {
        lemma_insert_len(s.drop_last(), x);
    }
}

/// The edges that leave a node lead to nodes.
pub proof fn lemma_leaving_within(edges: Seq<(usize, usize)>, node: usize, n: int)
    requires
        edges_within(edges, n),
    ensures
        forall|i: int|
            0 <= i < leaving(edges, node).len() ==> #[trigger] leaving(
                edges,
                node,
            )[i] < n,
    decreases edges.len(),
{
    if edges.len() > 0 {
        assert forall|i: int| 0 <= i < edges.drop_last().len() implies (
        #[trigger] edges.drop_last()[i]).0 < n && edges.drop_last()[i].1 < n by {
            assert(edges[i].0 < n);
        }
        lemma_leaving_within(edges.drop_last(), node, n);
        let rest = leaving(edges.drop_last(), node);
        assert(edges[edges.len() - 1].1 < n);
        assert forall|i: int|
            0 <= i < leaving(edges, node).len() implies #[trigger] leaving(
            edges,
            node,
        )[i] < n by {
            if i < rest.len() {
                assert(rest[i] < n);
            }
        }
    }
}

/// Sorting a list of nodes gives nodes.
pub proof fn lemma_sorted_within(s: Seq<usize>, n: int)
    requires
        forall|i: int| 0 <= i < s.len() ==> #[trigger] s[i] < n,
    ensures
        forall|i: int|
            0 <= i < order::sorted_distinct(s, order::rank_lt::<usize>()).len()
                ==> #[trigger] order::sorted_distinct(s, order::rank_lt::<usize>())[i] < n,
{
    let sorted = order::sorted_distinct(s, order::rank_lt::<usize>());
    <usize as order::Ranked>::lemma_strict();
    order::lemma_sorted_distinct(s, order::rank_lt::<usize>());
    assert forall|i: int| 0 <= i < sorted.len() implies #[trigger] sorted[i] < n by {
        assert(sorted.to_set().contains(sorted[i]));
        assert(s.to_set().contains(sorted[i]));
        let k = choose|k: int| 0 <= k < s.len() && s[k] == sorted[i];
        assert(s[k] < n);
    }
}

/// Of the edges that leave a node, as many lead to another as there are edges between the two.
pub proof fn lemma_leaving_count(edges: Seq<(usize, usize)>, from: usize, to: usize)
    ensures
        leaving(edges, from).to_multiset().count(to) == edges.to_multiset().count((from, to)),
    decreases edges.len(),
{
    broadcast use vstd::seq_lib::group_to_multiset_ensures;

    if edges.len() == 0 {
        assert(!edges.contains((from, to)));
        assert(!leaving(edges, from).contains(to));
    } else {
        let front = edges.drop_last();
        lemma_leaving_count(front, from, to);
        assert(front.push(edges.last()) =~= edges);
    }
}

/// Of the edges that enter a node, as many come from another as there are edges between the two.
pub proof fn lemma_entering_count(edges: Seq<(usize, usize)>, from: usize, to: usize)
    ensures
        entering(edges, to).to_multiset().count(from) == edges.to_multiset().count((from, to)),
{
    lemma_leaving_count(reversed(edges), to, from);
    lemma_reversed_count(edges, from, to);
}

proof fn lemma_reversed_count(edges: Seq<(usize, usize)>, from: usize, to: usize)
    ensures
        reversed(edges).to_multiset().count((to, from)) == edges.to_multiset().count((from, to)),
    decreases edges.len(),
{
    broadcast use vstd::seq_lib::group_to_multiset_ensures;

    if edges.len() == 0 {
        assert(!edges.contains((from, to)));
        assert(!reversed(edges).contains((to, from)));
    } else {
        let front = edges.drop_last();
        let turned = (edges.last().1, edges.last().0);
        lemma_reversed_count(front, from, to);
        assert(front.push(edges.last()) =~= edges);
        assert(reversed(front).push(turned) =~= reversed(edges));
    }
}

proof fn lemma_listed(edges: Seq<(usize, usize)>, edge: (usize, usize))
    ensures
        edges.to_set().contains(edge) == edges.contains(edge),
{
}

/// The neighbours of a node depend only on which edges there are, not on their order or on how
/// often each is there.
pub proof fn lemma_same_neighbours(
    edges: Seq<(usize, usize)>,
    others: Seq<(usize, usize)>,
    node: usize,
)
    requires
        edges.to_set() == others.to_set(),
    ensures
        successors(edges, node) == successors(others, node),
        predecessors(edges, node) == predecessors(others, node),
{
    <usize as order::Ranked>::lemma_strict();
    lemma_neighbours_ascend(edges, node);
    lemma_neighbours_ascend(others, node);
    assert forall|other: usize|
        successors(edges, node).contains(other) == successors(others, node).contains(other) by {
        lemma_neighbours(edges, node, other);
        lemma_neighbours(others, node, other);
        lemma_listed(edges, (node, other));
        lemma_listed(others, (node, other));
    }
    assert forall|other: usize|
        predecessors(edges, node).contains(other) == predecessors(others, node).contains(other) by {
        lemma_neighbours(edges, other, node);
        lemma_neighbours(others, other, node);
        lemma_listed(edges, (other, node));
        lemma_listed(others, (other, node));
    }
    assert(successors(edges, node).to_set() =~= successors(others, node).to_set());
    assert(predecessors(edges, node).to_set() =~= predecessors(others, node).to_set());
    order::lemma_ascending_unique(
        successors(edges, node),
        successors(others, node),
        order::rank_lt::<usize>(),
    );
    order::lemma_ascending_unique(
        predecessors(edges, node),
        predecessors(others, node),
        order::rank_lt::<usize>(),
    );
}

/// How many edges leave and enter a node does not depend on the order of the edges.
pub proof fn lemma_same_degrees(
    edges: Seq<(usize, usize)>,
    others: Seq<(usize, usize)>,
    node: usize,
)
    requires
        edges.to_multiset() == others.to_multiset(),
    ensures
        leaving(edges, node).len() == leaving(others, node).len(),
        entering(edges, node).len() == entering(others, node).len(),
{
    assert forall|other: usize|
        leaving(edges, node).to_multiset().count(other) == leaving(
            others,
            node,
        ).to_multiset().count(other) by {
        lemma_leaving_count(edges, node, other);
        lemma_leaving_count(others, node, other);
    }
    assert forall|other: usize|
        entering(edges, node).to_multiset().count(other) == entering(
            others,
            node,
        ).to_multiset().count(other) by {
        lemma_entering_count(edges, other, node);
        lemma_entering_count(others, other, node);
    }
    assert(leaving(edges, node).to_multiset() =~= leaving(others, node).to_multiset());
    assert(entering(edges, node).to_multiset() =~= entering(others, node).to_multiset());
    order::lemma_same_items(leaving(edges, node), leaving(others, node));
    order::lemma_same_items(entering(edges, node), entering(others, node));
}

/// One more edge adds one to what leaves its source and to what enters its target.
pub proof fn lemma_one_more(edges: Seq<(usize, usize)>, edge: (usize, usize), node: usize)
    ensures
        leaving(edges.push(edge), node).len() == leaving(edges, node).len() + if node == edge.0 {
            1int
        } else {
            0
        },
        entering(edges.push(edge), node).len() == entering(edges, node).len() + if node == edge.1 {
            1int
        } else {
            0
        },
{
    let more = edges.push(edge);
    assert(more.drop_last() =~= edges);
    assert(reversed(more).drop_last() =~= reversed(edges));
}

/// Where the edges that leave a node lead, in the order of the edges.
pub proof fn lemma_leaving_is(edges: Seq<(usize, usize)>, node: usize)
    ensures
        leaving(edges, node) == edges.filter(|edge: (usize, usize)| edge.0 == node).map_values(
            |edge: (usize, usize)| edge.1,
        ),
        leaving(edges, node).len() == edges.filter(|edge: (usize, usize)| edge.0 == node).len(),
    decreases edges.len(),
{
    let own = |edge: (usize, usize)| edge.0 == node;
    let end = |edge: (usize, usize)| edge.1;
    reveal(Seq::filter);
    if edges.len() > 0 {
        let front = edges.drop_last();
        lemma_leaving_is(front, node);
        if own(edges.last()) {
            assert(edges.filter(own).map_values(end) =~= front.filter(own).map_values(end).push(
                end(edges.last()),
            ));
        }
    } else {
        assert(edges.filter(own).map_values(end) =~= Seq::empty());
    }
}

/// Where the edges that enter a node come from, in the order of the edges.
pub proof fn lemma_entering_is(edges: Seq<(usize, usize)>, node: usize)
    ensures
        entering(edges, node) == edges.filter(|edge: (usize, usize)| edge.1 == node).map_values(
            |edge: (usize, usize)| edge.0,
        ),
        entering(edges, node).len() == edges.filter(|edge: (usize, usize)| edge.1 == node).len(),
    decreases edges.len(),
{
    let own = |edge: (usize, usize)| edge.1 == node;
    let start = |edge: (usize, usize)| edge.0;
    reveal(Seq::filter);
    if edges.len() > 0 {
        let front = edges.drop_last();
        lemma_entering_is(front, node);
        assert(reversed(edges).drop_last() =~= reversed(front));
        if own(edges.last()) {
            assert(edges.filter(own).map_values(start) =~= front.filter(own).map_values(start).push(
                start(edges.last()),
            ));
        }
    } else {
        assert(edges.filter(own).map_values(start) =~= Seq::empty());
        assert(reversed(edges) =~= Seq::empty());
    }
}

/// Turning edges round swaps the ends of each, and turning them round twice gives them back.
pub proof fn lemma_turned(edges: Seq<(usize, usize)>, i: int)
    ensures
        reversed(edges).len() == edges.len(),
        0 <= i < edges.len() ==> reversed(edges)[i] == (edges[i].1, edges[i].0),
        reversed(reversed(edges)) == edges,
{
    assert(reversed(reversed(edges)) =~= edges);
}

} // verus!
