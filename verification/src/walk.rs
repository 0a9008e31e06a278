//! The breadth-first walk through a graph: what it lists within a number of steps, and what is
//! left of that under a budget.
use vstd::prelude::*;

use crate::adjacency;
use crate::order;
use crate::text;

verus! {

/// Which edges a walk follows.
#[derive(Clone, Copy, Debug, PartialEq, Eq, Structural)]
pub enum Dir {
    Out,
    In,
    Both,
}

/// The direction of this name.
pub open spec fn dir_named(raw: Seq<char>) -> Option<Dir> {
    if raw == "out"@ {
        Some(Dir::Out)
    } else if raw == "in"@ {
        Some(Dir::In)
    } else if raw == "both"@ {
        Some(Dir::Both)
    } else {
        None
    }
}

pub fn parse_dir(raw: &str) -> (r: Option<Dir>)
    ensures
        r == dir_named(raw@),
{
    if text::same_text(raw, "out") {
        Some(Dir::Out)
    } else if text::same_text(raw, "in") {
        Some(Dir::In)
    } else if text::same_text(raw, "both") {
        Some(Dir::Both)
    } else {
        None
    }
}

/// The neighbours of each node: those that its edges lead to, and those that edges come from.
#[verifier::ext_equal]
pub struct Links {
    pub forward: Seq<Seq<usize>>,
    pub backward: Seq<Seq<usize>>,
}

/// All neighbours are among the `n` nodes.
pub open spec fn links_within(links: Links, n: int) -> bool {
    adjacency::rows_within(links.forward, n) && adjacency::rows_within(links.backward, n)
}

/// Where one step leads from a node.
pub open spec fn step(links: Links, node: usize, dir: Dir) -> Seq<usize> {
    match dir {
        Dir::Out => links.forward[node as int],
        Dir::In => links.backward[node as int],
        Dir::Both => links.forward[node as int] + links.backward[node as int],
    }
}

/// Where one step leads from each of the nodes in turn.
pub open spec fn steps(links: Links, nodes: Seq<usize>, dir: Dir) -> Seq<usize>
    decreases nodes.len(),
{
    if nodes.len() == 0 {
        Seq::empty()
    } else {
        steps(links, nodes.drop_last(), dir) + step(links, nodes.last(), dir)
    }
}

/// What is found that is not known yet, each item once, in the order in which it is found first.
pub open spec fn fresh(found: Seq<usize>, known: Seq<usize>) -> Seq<usize>
    decreases found.len(),
{
    if found.len() == 0 {
        Seq::empty()
    } else {
        let rest = fresh(found.drop_last(), known);
        if known.contains(found.last()) || rest.contains(found.last()) {
            rest
        } else {
            rest.push(found.last())
        }
    }
}

/// The nodes within `depth` steps of the seed, in the order in which a breadth-first walk comes to
/// them, and those of them that it comes to in the last step.
pub open spec fn spread(links: Links, seed: usize, dir: Dir, depth: nat) -> (Seq<usize>, Seq<usize>)
    decreases depth,
{
    if depth == 0 {
        (seq![seed], seq![seed])
    } else {
        let (known, ring) = spread(links, seed, dir, (depth - 1) as nat);
        let next = fresh(steps(links, ring, dir), known);
        (known + next, next)
    }
}

/// The nodes within `depth` steps of the seed, in breadth-first order.
pub open spec fn reach(links: Links, seed: usize, dir: Dir, depth: nat) -> Seq<usize> {
    spread(links, seed, dir, depth).0
}

/// The first `budget` items.
pub open spec fn up_to(items: Seq<usize>, budget: int) -> Seq<usize> {
    if items.len() <= budget {
        items
    } else {
        items.take(budget)
    }
}

proof fn lemma_fresh_extends(a: Seq<usize>, b: Seq<usize>, known: Seq<usize>)
    ensures
        fresh(a, known).len() <= fresh(a + b, known).len(),
        fresh(a + b, known).take(fresh(a, known).len() as int) == fresh(a, known),
    decreases b.len(),
{
    if b.len() == 0 {
        assert(a + b =~= a);
        assert(fresh(a, known).take(fresh(a, known).len() as int) =~= fresh(a, known));
    } else {
        lemma_fresh_extends(a, b.drop_last(), known);
        assert((a + b).drop_last() =~= a + b.drop_last());
        assert(fresh(a + b, known).take(fresh(a, known).len() as int) =~= fresh(a, known));
    }
}

proof fn lemma_steps_extend(links: Links, nodes: Seq<usize>, i: int, dir: Dir)
    requires
        0 <= i <= nodes.len(),
    ensures
        exists|rest: Seq<usize>|
            steps(links, nodes, dir) == #[trigger] (steps(links, nodes.take(i), dir) + rest),
    decreases nodes.len(),
{
    let first = steps(links, nodes.take(i), dir);
    if i == nodes.len() {
        assert(nodes.take(i) =~= nodes);
        assert(steps(links, nodes, dir) =~= first + Seq::<usize>::empty());
    } else {
        let front = nodes.drop_last();
        lemma_steps_extend(links, front, i, dir);
        assert(front.take(i) =~= nodes.take(i));
        let rest = choose|rest: Seq<usize>|
            steps(links, front, dir) == #[trigger] (first + rest);
        assert(steps(links, nodes, dir) =~= first + (rest + step(links, nodes.last(), dir)));
    }
}

/// A deeper walk starts with what a shallower one lists.
pub proof fn lemma_reach_extends(links: Links, seed: usize, dir: Dir, d: nat, depth: nat)
    requires
        d <= depth,
    ensures
        reach(links, seed, dir, d).len() <= reach(links, seed, dir, depth).len(),
        reach(links, seed, dir, depth).take(reach(links, seed, dir, d).len() as int) == reach(
            links,
            seed,
            dir,
            d,
        ),
    decreases depth,
{
    let shorter = reach(links, seed, dir, d);
    if d == depth {
        assert(shorter.take(shorter.len() as int) =~= shorter);
    } else {
        lemma_reach_extends(links, seed, dir, d, (depth - 1) as nat);
        assert(reach(links, seed, dir, depth).take(shorter.len() as int) =~= reach(
            links,
            seed,
            dir,
            (depth - 1) as nat,
        ).take(shorter.len() as int));
    }
}

proof fn lemma_reach_done(links: Links, seed: usize, dir: Dir, d: nat, depth: nat)
    requires
        d <= depth,
        spread(links, seed, dir, d).1.len() == 0,
    ensures
        reach(links, seed, dir, depth) == reach(links, seed, dir, d),
        spread(links, seed, dir, depth).1.len() == 0,
    decreases depth,
{
    if d < depth {
        lemma_reach_done(links, seed, dir, d, (depth - 1) as nat);
        assert(steps(links, spread(links, seed, dir, (depth - 1) as nat).1, dir) =~= Seq::empty());
        assert(reach(links, seed, dir, depth) =~= reach(links, seed, dir, (depth - 1) as nat));
    }
}

/// The marks say which nodes are in the list.
pub open spec fn marks(visited: Seq<bool>, order: Seq<usize>) -> bool {
    forall|i: int| 0 <= i < visited.len() ==> #[trigger] visited[i] == order.contains(i as usize)
}

/// Where one step leads from a node.
pub fn targets(
    forward: &Vec<Vec<usize>>,
    backward: &Vec<Vec<usize>>,
    node: usize,
    dir: Dir,
) -> (r: Vec<usize>)
    requires
        node < forward.len(),
        node < backward.len(),
    ensures
        r@ == step(
            Links { forward: adjacency::rows(forward@), backward: adjacency::rows(backward@) },
            node,
            dir,
        ),
{
    let mut out: Vec<usize> = Vec::new();
    match dir {
        Dir::Out => append_numbers(&mut out, &forward[node]),
        Dir::In => append_numbers(&mut out, &backward[node]),
        Dir::Both => {
            append_numbers(&mut out, &forward[node]);
            append_numbers(&mut out, &backward[node]);
        },
    }
    assert(out@ =~= step(
        Links { forward: adjacency::rows(forward@), backward: adjacency::rows(backward@) },
        node,
        dir,
    ));
    out
}

fn append_numbers(out: &mut Vec<usize>, list: &Vec<usize>)
    ensures
        final(out)@ == old(out)@ + list@,
{
    let ghost before = out@;
    let mut i: usize = 0;
    while i < list.len()
        invariant
            i <= list.len(),
            out@ == before + list@.take(i as int),
        decreases list.len() - i,
    {
        out.push(list[i]);
        i = i + 1;
        assert(out@ =~= before + list@.take(i as int));
    }
    assert(list@.take(i as int) =~= list@);
}

/// Visits what one more step leads to, as long as the budget lasts. The second result says that
/// it did not last.
fn visit(
    forward: &Vec<Vec<usize>>,
    backward: &Vec<Vec<usize>>,
    frontier: &Vec<usize>,
    dir: Dir,
    budget: usize,
    order: &mut Vec<usize>,
    visited: &mut Vec<bool>,
) -> (r: (Vec<usize>, bool))
    requires
        links_within(
            Links { forward: adjacency::rows(forward@), backward: adjacency::rows(backward@) },
            old(visited).len() as int,
        ),
        forall|i: int| 0 <= i < frontier.len() ==> #[trigger] frontier@[i] < old(visited).len(),
        old(order).len() <= budget,
        marks(old(visited)@, old(order)@),
    ensures
        ({
            let links = Links {
                forward: adjacency::rows(forward@),
                backward: adjacency::rows(backward@),
            };
            let all = old(order)@ + fresh(steps(links, frontier@, dir), old(order)@);
            &&& final(order)@ == up_to(all, budget as int)
            &&& r.1 == (all.len() > budget)
            &&& !r.1 ==> r.0@ == fresh(steps(links, frontier@, dir), old(order)@)
        }),
        final(visited).len() == old(visited).len(),
        marks(final(visited)@, final(order)@),
        forall|i: int| 0 <= i < r.0.len() ==> #[trigger] r.0@[i] < final(visited).len(),
{
    let ghost links = Links {
        forward: adjacency::rows(forward@),
        backward: adjacency::rows(backward@),
    };
    let ghost base = order@;
    let ghost every = steps(links, frontier@, dir);
    let n = visited.len();
    let mut next: Vec<usize> = Vec::new();
    let mut i: usize = 0;
    while i < frontier.len()
        invariant
            i <= frontier.len(),
            n == visited.len(),
            n == old(visited).len(),
            base == old(order)@,
            links == (Links {
                forward: adjacency::rows(forward@),
                backward: adjacency::rows(backward@),
            }),
            links_within(links, n as int),
            forall|i: int| 0 <= i < frontier.len() ==> #[trigger] frontier@[i] < n,
            every == steps(links, frontier@, dir),
            order.len() <= budget,
            next@ == fresh(steps(links, frontier@.take(i as int), dir), base),
            order@ == base + next@,
            marks(visited@, order@),
            forall|k: int| 0 <= k < next.len() ==> #[trigger] next@[k] < n,
        decreases frontier.len() - i,
    {
        let node = frontier[i];
        assert(node < n);
        let found = targets(forward, backward, node, dir);
        let ghost so_far = steps(links, frontier@.take(i as int), dir);
        let ghost with_node = steps(links, frontier@.take(i + 1), dir);
        proof {
            assert(frontier@.take(i + 1).drop_last() =~= frontier@.take(i as int));
            assert(with_node == so_far + found@);
            lemma_step_within(links, node, dir, n as int);
        }
        let mut j: usize = 0;
        assert(so_far + found@.take(0) =~= so_far);
        while j < found.len()
            invariant
                j <= found.len(),
                n == visited.len(),
                n == old(visited).len(),
                base == old(order)@,
                i < frontier.len(),
                links == (Links {
                    forward: adjacency::rows(forward@),
                    backward: adjacency::rows(backward@),
                }),
                every == steps(links, frontier@, dir),
                with_node == so_far + found@,
                with_node == steps(links, frontier@.take(i + 1), dir),
                forall|k: int| 0 <= k < found.len() ==> #[trigger] found@[k] < n,
                order.len() <= budget,
                next@ == fresh(so_far + found@.take(j as int), base),
                order@ == base + next@,
                marks(visited@, order@),
                forall|k: int| 0 <= k < next.len() ==> #[trigger] next@[k] < n,
            decreases found.len() - j,
        {
            let target = found[j];
            let ghost part = so_far + found@.take(j as int);
            let ghost longer = so_far + found@.take(j + 1);
            proof {
                assert(longer.drop_last() =~= part);
                assert(longer.last() == target);
                lemma_contains_sum(base, next@, target);
            }
            assert(visited@[target as int] == order@.contains(target));
            if !visited[target] {
                if order.len() == budget {
                    proof {
                        let rest = found@.skip(j + 1);
                        assert(longer + rest =~= with_node);
                        lemma_fresh_extends(longer, rest, base);
                        lemma_steps_extend(links, frontier@, i + 1, dir);
                        let tail = choose|tail: Seq<usize>|
                            every == #[trigger] (with_node + tail);
                        lemma_fresh_extends(with_node, tail, base);
                        let all = fresh(every, base);
                        assert(fresh(longer, base) == next@.push(target));
                        assert(fresh(with_node, base).take(next@.len() as int) =~= next@) by {
                            assert(fresh(with_node, base).take(
                                fresh(longer, base).len() as int,
                            ).take(next@.len() as int) =~= next@);
                        }
                        assert(all.take(next@.len() as int) =~= next@) by {
                            assert(all.take(fresh(with_node, base).len() as int).take(
                                next@.len() as int,
                            ) =~= all.take(next@.len() as int));
                        }
                        assert((base + all).take(budget as int) =~= base + next@);
                    }
                    return (next, true);
                }
                let ghost before = visited@;
                let ghost listed = order@;
                visited.set(target, true);
                order.push(target);
                next.push(target);
                proof {
                    lemma_marked(before, listed, target);
                    assert(order@ =~= base + next@);
                }
            }
            j = j + 1;
        }
        assert(so_far + found@.take(j as int) =~= with_node);
        i = i + 1;
    }
    assert(frontier@.take(i as int) =~= frontier@);
    (next, false)
}

proof fn lemma_contains_sum(a: Seq<usize>, b: Seq<usize>, x: usize)
    ensures
        (a + b).contains(x) == (a.contains(x) || b.contains(x)),
{
    if a.contains(x) {
        let i = choose|i: int| 0 <= i < a.len() && a[i] == x;
        assert((a + b)[i] == x);
    }
    if b.contains(x) {
        let i = choose|i: int| 0 <= i < b.len() && b[i] == x;
        assert((a + b)[a.len() + i] == x);
    }
    if (a + b).contains(x) {
        let i = choose|i: int| 0 <= i < (a + b).len() && (a + b)[i] == x;
        if i < a.len() {
            assert(a[i] == x);
        } else {
            assert(b[i - a.len()] == x);
        }
    }
}

proof fn lemma_marked(visited: Seq<bool>, order: Seq<usize>, target: usize)
    requires
        marks(visited, order),
        target < visited.len(),
        visited.len() <= usize::MAX,
    ensures
        marks(visited.update(target as int, true), order.push(target)),
{
    let after = visited.update(target as int, true);
    assert forall|i: int| 0 <= i < after.len() implies #[trigger] after[i] == order.push(
        target,
    ).contains(i as usize) by {
        assert(order.push(target) =~= order + seq![target]);
        lemma_contains_sum(order, seq![target], i as usize);
        assert(seq![target].contains(target)) by {
            assert(seq![target][0] == target);
        }
        assert(visited[i] == order.contains(i as usize));
    }
}

/// A step from a node leads to nodes.
pub proof fn lemma_step_within(links: Links, node: usize, dir: Dir, n: int)
    requires
        links_within(links, n),
        node < n,
    ensures
        forall|i: int|
            0 <= i < step(links, node, dir).len() ==> #[trigger] step(links, node, dir)[i] < n,
{
    assert forall|i: int| 0 <= i < step(links, node, dir).len() implies #[trigger] step(
        links,
        node,
        dir,
    )[i] < n by {
        let f = links.forward[node as int];
        let b = links.backward[node as int];
        match dir {
            Dir::Out => {
                assert(links.forward[node as int][i] < n);
            },
            Dir::In => {
                assert(links.backward[node as int][i] < n);
            },
            Dir::Both => {
                if i < f.len() {
                    assert(links.forward[node as int][i] < n);
                } else {
                    assert(links.backward[node as int][i - f.len()] < n);
                }
            },
        }
    }
}

proof fn lemma_fresh_within(found: Seq<usize>, known: Seq<usize>, n: int)
    requires
        forall|i: int| 0 <= i < found.len() ==> #[trigger] found[i] < n,
    ensures
        forall|i: int|
            0 <= i < fresh(found, known).len() ==> #[trigger] fresh(found, known)[i] < n,
    decreases found.len(),
{
    if found.len() > 0 {
        let front = found.drop_last();
        assert forall|i: int| 0 <= i < front.len() implies #[trigger] front[i] < n by {
            assert(found[i] < n);
        }
        lemma_fresh_within(front, known, n);
        assert(found[found.len() - 1] < n);
        let rest = fresh(front, known);
        assert forall|i: int| 0 <= i < fresh(found, known).len() implies #[trigger] fresh(
            found,
            known,
        )[i] < n by {
            if i < rest.len() {
                assert(rest[i] < n);
            }
        }
    }
}

proof fn lemma_steps_within(links: Links, nodes: Seq<usize>, dir: Dir, n: int)
    requires
        links_within(links, n),
        forall|i: int| 0 <= i < nodes.len() ==> #[trigger] nodes[i] < n,
    ensures
        forall|i: int|
            0 <= i < steps(links, nodes, dir).len() ==> #[trigger] steps(links, nodes, dir)[i] < n,
    decreases nodes.len(),
{
    if nodes.len() > 0 {
        let front = nodes.drop_last();
        assert forall|i: int| 0 <= i < front.len() implies #[trigger] front[i] < n by {
            assert(nodes[i] < n);
        }
        lemma_steps_within(links, front, dir, n);
        assert(nodes[nodes.len() - 1] < n);
        lemma_step_within(links, nodes.last(), dir, n);
        let first = steps(links, front, dir);
        let more = step(links, nodes.last(), dir);
        assert forall|i: int| 0 <= i < steps(links, nodes, dir).len() implies #[trigger] steps(
            links,
            nodes,
            dir,
        )[i] < n by {
            if i < first.len() {
                assert(first[i] < n);
            } else {
                assert(more[i - first.len()] < n);
            }
        }
    }
}

/// A walk from a node lists nodes.
pub proof fn lemma_spread_within(links: Links, seed: usize, dir: Dir, depth: nat, n: int)
    requires
        links_within(links, n),
        seed < n,
    ensures
        forall|i: int|
            0 <= i < reach(links, seed, dir, depth).len() ==> #[trigger] reach(
                links,
                seed,
                dir,
                depth,
            )[i] < n,
        forall|i: int|
            0 <= i < spread(links, seed, dir, depth).1.len() ==> #[trigger] spread(
                links,
                seed,
                dir,
                depth,
            ).1[i] < n,
    decreases depth,
{
    if depth > 0 {
        let (known, ring) = spread(links, seed, dir, (depth - 1) as nat);
        lemma_spread_within(links, seed, dir, (depth - 1) as nat, n);
        assert(known == reach(links, seed, dir, (depth - 1) as nat));
        lemma_steps_within(links, ring, dir, n);
        lemma_fresh_within(steps(links, ring, dir), known, n);
        let next = fresh(steps(links, ring, dir), known);
        assert forall|i: int| 0 <= i < reach(links, seed, dir, depth).len() implies
            #[trigger] reach(links, seed, dir, depth)[i] < n by {
            if i < known.len() {
                assert(known[i] < n);
            } else {
                assert(next[i - known.len()] < n);
            }
        }
    }
}

/// The nodes within `depth` steps of the seed in breadth-first order, as far as the budget goes;
/// which nodes those are; and whether the budget left any out.
pub fn walk_links(
    forward: &Vec<Vec<usize>>,
    backward: &Vec<Vec<usize>>,
    seed: usize,
    depth: u32,
    dir: Dir,
    budget: usize,
) -> (r: (Vec<usize>, Vec<bool>, bool))
    requires
        links_within(
            Links { forward: adjacency::rows(forward@), backward: adjacency::rows(backward@) },
            forward.len() as int,
        ),
        seed < forward.len(),
    ensures
        ({
            let links = Links {
                forward: adjacency::rows(forward@),
                backward: adjacency::rows(backward@),
            };
            let all = reach(links, seed, dir, depth as nat);
            &&& r.0@ == up_to(all, budget as int)
            &&& r.2 == (all.len() > budget)
        }),
        r.1.len() == forward.len(),
        marks(r.1@, r.0@),
{
    let ghost links = Links {
        forward: adjacency::rows(forward@),
        backward: adjacency::rows(backward@),
    };
    let mut visited: Vec<bool> = Vec::new();
    let mut k: usize = 0;
    while k < forward.len()
        invariant
            k <= forward.len(),
            visited.len() == k,
            forall|m: int| 0 <= m < k ==> !(#[trigger] visited@[m]),
        decreases forward.len() - k,
    {
        visited.push(false);
        k = k + 1;
    }
    let mut order: Vec<usize> = Vec::new();
    proof {
        lemma_reach_extends(links, seed, dir, 0, depth as nat);
    }
    if budget == 0 {
        assert(order@ =~= up_to(reach(links, seed, dir, depth as nat), 0));
        return (order, visited, true);
    }
    assert(visited.len() <= usize::MAX);
    proof {
        lemma_marked(visited@, order@, seed);
    }
    visited.set(seed, true);
    order.push(seed);
    let mut frontier: Vec<usize> = Vec::new();
    frontier.push(seed);
    assert(order@ =~= seq![seed]);
    let mut round: u32 = 0;
    while round < depth
        invariant
            round <= depth,
            visited.len() == forward.len(),
            links == (Links {
                forward: adjacency::rows(forward@),
                backward: adjacency::rows(backward@),
            }),
            links_within(links, forward.len() as int),
            order.len() <= budget,
            order@ == reach(links, seed, dir, round as nat),
            frontier@ == spread(links, seed, dir, round as nat).1,
            marks(visited@, order@),
            forall|i: int| 0 <= i < frontier.len() ==> #[trigger] frontier@[i] < forward.len(),
        decreases depth - round,
    {
        let (next, over) = visit(
            forward,
            backward,
            &frontier,
            dir,
            budget,
            &mut order,
            &mut visited,
        );
        proof {
            lemma_reach_extends(links, seed, dir, (round + 1) as nat, depth as nat);
        }
        if over {
            assert(order@ =~= up_to(reach(links, seed, dir, depth as nat), budget as int)) by {
                let all = reach(links, seed, dir, depth as nat);
                let part = reach(links, seed, dir, (round + 1) as nat);
                assert(all.take(part.len() as int).take(budget as int) =~= all.take(
                    budget as int,
                ));
            }
            return (order, visited, true);
        }
        if next.len() == 0 {
            proof {
                lemma_reach_done(links, seed, dir, (round + 1) as nat, depth as nat);
            }
            return (order, visited, false);
        }
        frontier = next;
        round = round + 1;
    }
    (order, visited, false)
}

/// The nodes that one step from a node of the set leads to.
pub open spec fn neighbours_of(links: Links, nodes: Set<usize>, dir: Dir) -> Set<usize> {
    Set::new(
        |node: usize|
            exists|via: usize| #[trigger]
                nodes.contains(via) && step(links, via, dir).contains(node),
    )
}

/// The nodes within `depth` steps of the seed.
pub open spec fn ball(links: Links, seed: usize, dir: Dir, depth: nat) -> Set<usize>
    decreases depth,
{
    if depth == 0 {
        Set::empty().insert(seed)
    } else {
        let inner = ball(links, seed, dir, (depth - 1) as nat);
        inner.union(neighbours_of(links, inner, dir))
    }
}

/// A node is within `depth` steps of the seed.
pub open spec fn within(links: Links, seed: usize, dir: Dir, depth: nat, node: usize) -> bool {
    ball(links, seed, dir, depth).contains(node)
}

proof fn lemma_fresh(found: Seq<usize>, known: Seq<usize>, x: usize)
    ensures
        fresh(found, known).contains(x) <==> found.contains(x) && !known.contains(x),
        fresh(found, known).no_duplicates(),
    decreases found.len(),
{
    if found.len() > 0 {
        let front = found.drop_last();
        let rest = fresh(front, known);
        let last = found.last();
        lemma_fresh(front, known, x);
        assert(found =~= front + seq![last]);
        lemma_contains_sum(front, seq![last], x);
        assert(seq![last].contains(x) == (x == last)) by {
            assert(seq![last][0] == last);
        }
        if !known.contains(last) && !rest.contains(last) {
            assert(rest.push(last) =~= rest + seq![last]);
            lemma_contains_sum(rest, seq![last], x);
            assert(rest.push(last).no_duplicates());
        } else if x == last {
            lemma_fresh(front, known, last);
        }
    }
}

proof fn lemma_steps(links: Links, nodes: Seq<usize>, dir: Dir, x: usize)
    ensures
        steps(links, nodes, dir).contains(x) <==> exists|i: int|
            0 <= i < nodes.len() && step(links, #[trigger] nodes[i], dir).contains(x),
    decreases nodes.len(),
{
    if nodes.len() > 0 {
        let front = nodes.drop_last();
        lemma_steps(links, front, dir, x);
        lemma_contains_sum(steps(links, front, dir), step(links, nodes.last(), dir), x);
        if steps(links, front, dir).contains(x) {
            let i = choose|i: int|
                0 <= i < front.len() && step(links, #[trigger] front[i], dir).contains(x);
            assert(step(links, nodes[i], dir).contains(x));
        }
        if step(links, nodes.last(), dir).contains(x) {
            assert(step(links, nodes[nodes.len() - 1], dir).contains(x));
        }
        if exists|i: int|
            0 <= i < nodes.len() && step(links, #[trigger] nodes[i], dir).contains(x) {
            let i = choose|i: int|
                0 <= i < nodes.len() && step(links, #[trigger] nodes[i], dir).contains(x);
            if i < front.len() {
                assert(step(links, front[i], dir).contains(x));
            }
        }
    }
}

/// One more step from a node that the walk has come to earlier leads to nothing new.
proof fn lemma_closed(links: Links, seed: usize, dir: Dir, depth: nat, node: usize, target: usize)
    requires
        reach(links, seed, dir, depth).contains(node),
        step(links, node, dir).contains(target),
    ensures
        spread(links, seed, dir, depth).1.contains(node) || reach(
            links,
            seed,
            dir,
            depth,
        ).contains(target),
    decreases depth,
{
    if depth > 0 {
        let (known, ring) = spread(links, seed, dir, (depth - 1) as nat);
        let found = steps(links, ring, dir);
        let next = fresh(found, known);
        lemma_contains_sum(known, next, node);
        lemma_contains_sum(known, next, target);
        if !next.contains(node) {
            lemma_closed(links, seed, dir, (depth - 1) as nat, node, target);
            if !known.contains(target) {
                let i = choose|i: int| 0 <= i < ring.len() && ring[i] == node;
                assert(step(links, ring[i], dir).contains(target));
                lemma_steps(links, ring, dir, target);
                lemma_fresh(found, known, target);
            }
        }
    } else {
        assert(spread(links, seed, dir, depth).1.contains(node));
    }
}

proof fn lemma_ring_reached(links: Links, seed: usize, dir: Dir, depth: nat, node: usize)
    requires
        spread(links, seed, dir, depth).1.contains(node),
    ensures
        reach(links, seed, dir, depth).contains(node),
{
    if depth > 0 {
        let (known, ring) = spread(links, seed, dir, (depth - 1) as nat);
        lemma_contains_sum(known, fresh(steps(links, ring, dir), known), node);
    }
}

/// The walk comes to a node within its depth exactly when the node is that many steps from the
/// seed, or fewer.
pub proof fn lemma_reach_is_within(links: Links, seed: usize, dir: Dir, depth: nat, node: usize)
    ensures
        reach(links, seed, dir, depth).contains(node) <==> within(links, seed, dir, depth, node),
    decreases depth,
{
    if depth == 0 {
        assert(seq![seed][0] == seed);
    } else {
        let less = (depth - 1) as nat;
        let (known, ring) = spread(links, seed, dir, less);
        let found = steps(links, ring, dir);
        lemma_contains_sum(known, fresh(found, known), node);
        lemma_fresh(found, known, node);
        lemma_steps(links, ring, dir, node);
        lemma_reach_is_within(links, seed, dir, less, node);
        if found.contains(node) {
            let i = choose|i: int|
                0 <= i < ring.len() && step(links, #[trigger] ring[i], dir).contains(node);
            assert(ring.contains(ring[i]));
            lemma_ring_reached(links, seed, dir, less, ring[i]);
            lemma_reach_is_within(links, seed, dir, less, ring[i]);
            assert(ball(links, seed, dir, less).contains(ring[i]));
        }
        if within(links, seed, dir, depth, node) && !within(links, seed, dir, less, node) {
            let inner = ball(links, seed, dir, less);
            assert(neighbours_of(links, inner, dir).contains(node));
            let via = choose|via: usize| #[trigger]
                inner.contains(via) && step(links, via, dir).contains(node);
            lemma_reach_is_within(links, seed, dir, less, via);
            lemma_closed(links, seed, dir, less, via, node);
            if ring.contains(via) {
                let i = choose|i: int| 0 <= i < ring.len() && ring[i] == via;
                assert(step(links, ring[i], dir).contains(node));
            }
        }
    }
}

/// The walk lists no node twice.
pub proof fn lemma_reach_no_duplicates(links: Links, seed: usize, dir: Dir, depth: nat)
    ensures
        reach(links, seed, dir, depth).no_duplicates(),
    decreases depth,
{
    if depth > 0 {
        let (known, ring) = spread(links, seed, dir, (depth - 1) as nat);
        let next = fresh(steps(links, ring, dir), known);
        lemma_reach_no_duplicates(links, seed, dir, (depth - 1) as nat);
        lemma_fresh(steps(links, ring, dir), known, seed);
        assert forall|i: int, j: int|
            0 <= i < j < (known + next).len() implies (known + next)[i] != (known + next)[j] by {
            if i < known.len() && j >= known.len() {
                let x = next[j - known.len()];
                assert(next.contains(x));
                lemma_fresh(steps(links, ring, dir), known, x);
                assert(known.contains(known[i]));
            }
        }
    }
}

/// The walk starts at the seed.
pub proof fn lemma_reach_starts(links: Links, seed: usize, dir: Dir, depth: nat)
    ensures
        reach(links, seed, dir, depth).len() > 0,
        reach(links, seed, dir, depth)[0] == seed,
    decreases depth,
{
    if depth > 0 {
        lemma_reach_starts(links, seed, dir, (depth - 1) as nat);
    }
}

/// What the walk lists: no node twice, no more nodes than the budget, each within the depth. Where
/// nothing was left out these are all the nodes within the depth; otherwise there are as many as
/// the budget, and a node within the depth is missing.
pub proof fn lemma_walk_lists(links: Links, seed: usize, dir: Dir, depth: nat, budget: int)
    requires
        budget >= 0,
    ensures
        ({
            let all = reach(links, seed, dir, depth);
            let listed = up_to(all, budget);
            &&& listed.no_duplicates()
            &&& listed.len() <= budget
            &&& forall|node: usize| #[trigger]
                listed.contains(node) ==> within(links, seed, dir, depth, node)
            &&& all.len() <= budget ==> forall|node: usize|
                within(links, seed, dir, depth, node) ==> #[trigger] listed.contains(node)
            &&& all.len() > budget ==> listed.len() == budget && exists|node: usize|
                within(links, seed, dir, depth, node) && !(#[trigger] listed.contains(node))
        }),
{
    let all = reach(links, seed, dir, depth);
    let listed = up_to(all, budget);
    lemma_reach_no_duplicates(links, seed, dir, depth);
    assert forall|node: usize| #[trigger] listed.contains(node) implies within(
        links,
        seed,
        dir,
        depth,
        node,
    ) by {
        let i = choose|i: int| 0 <= i < listed.len() && listed[i] == node;
        assert(all[i] == node);
        lemma_reach_is_within(links, seed, dir, depth, node);
    }
    if all.len() <= budget {
        assert forall|node: usize| within(links, seed, dir, depth, node) implies
            #[trigger] listed.contains(node) by {
            lemma_reach_is_within(links, seed, dir, depth, node);
        }
    } else {
        let left = all[budget];
        assert(all.contains(left));
        lemma_reach_is_within(links, seed, dir, depth, left);
        if listed.contains(left) {
            let i = choose|i: int| 0 <= i < listed.len() && listed[i] == left;
            assert(all[i] == all[budget]);
        }
        assert(!listed.contains(left));
    }
}

/// A walk with no less depth and no smaller budget starts with what the other lists.
pub proof fn lemma_walk_extends(
    links: Links,
    seed: usize,
    dir: Dir,
    depth: nat,
    budget: int,
    more_depth: nat,
    more_budget: int,
)
    requires
        depth <= more_depth,
        0 <= budget <= more_budget,
    ensures
        up_to(reach(links, seed, dir, depth), budget).is_prefix_of(
            up_to(reach(links, seed, dir, more_depth), more_budget),
        ),
{
    let near = reach(links, seed, dir, depth);
    let far = reach(links, seed, dir, more_depth);
    lemma_reach_extends(links, seed, dir, depth, more_depth);
    assert forall|i: int| 0 <= i < near.len() implies near[i] == far[i] by {
        assert(near[i] == far.take(near.len() as int)[i]);
    }
    let listed = up_to(near, budget);
    let more = up_to(far, more_budget);
    assert(listed =~= more.take(listed.len() as int));
}

/// The walk comes to nearer nodes first: a node that is listed before another is within as few
/// steps of the seed.
pub proof fn lemma_nearer_first(
    links: Links,
    seed: usize,
    dir: Dir,
    depth: nat,
    near: nat,
    i: int,
    j: int,
)
    requires
        0 <= i < j < reach(links, seed, dir, depth).len(),
        within(links, seed, dir, near, reach(links, seed, dir, depth)[j]),
    ensures
        within(links, seed, dir, near, reach(links, seed, dir, depth)[i]),
    decreases depth,
{
    let all = reach(links, seed, dir, depth);
    if near >= depth {
        assert(all.contains(all[i]));
        lemma_reach_is_within(links, seed, dir, depth, all[i]);
        lemma_within_more(links, seed, dir, depth, near, all[i]);
    } else {
        let less = (depth - 1) as nat;
        let known = reach(links, seed, dir, less);
        lemma_reach_extends(links, seed, dir, less, depth);
        lemma_reach_no_duplicates(links, seed, dir, depth);
        lemma_within_more(links, seed, dir, near, less, all[j]);
        lemma_reach_is_within(links, seed, dir, less, all[j]);
        let k = choose|k: int| 0 <= k < known.len() && known[k] == all[j];
        assert(all.take(known.len() as int)[k] == all[j]);
        assert(k == j);
        assert(all.take(known.len() as int)[i] == known[i]);
        lemma_nearer_first(links, seed, dir, less, near, i, j);
    }
}

proof fn lemma_within_more(links: Links, seed: usize, dir: Dir, d: nat, depth: nat, node: usize)
    requires
        d <= depth,
        within(links, seed, dir, d, node),
    ensures
        within(links, seed, dir, depth, node),
    decreases depth,
{
    if d < depth {
        lemma_within_more(links, seed, dir, d, (depth - 1) as nat, node);
    }
}

/// A step the given way leads from the one node to the other: along an edge, against one, or
/// either.
pub open spec fn leads(links: Links, dir: Dir, from: usize, to: usize) -> bool {
    match dir {
        Dir::Out => links.forward[from as int].contains(to),
        Dir::In => links.backward[from as int].contains(to),
        Dir::Both => links.forward[from as int].contains(to) || links.backward[from as int].contains(
            to,
        ),
    }
}

/// Each node of the path leads to the next one.
pub open spec fn is_path(links: Links, dir: Dir, path: Seq<usize>) -> bool {
    forall|i: int| 0 <= i < path.len() - 1 ==> leads(links, dir, #[trigger] path[i], path[i + 1])
}

/// A path leads from the one node to the other with no more than so many steps.
pub open spec fn reachable(links: Links, dir: Dir, from: usize, to: usize, depth: nat) -> bool {
    exists|path: Seq<usize>|
        {
            &&& 1 <= path.len() <= depth + 1
            &&& path[0] == from
            &&& path.last() == to
            &&& #[trigger] is_path(links, dir, path)
        }
}

/// One step leads out along the edges that leave a node, in along those that enter it, and both
/// ways along either, first along those that leave it.
pub proof fn lemma_step(links: Links, node: usize)
    ensures
        step(links, node, Dir::Out) == links.forward[node as int],
        step(links, node, Dir::In) == links.backward[node as int],
        step(links, node, Dir::Both) == links.forward[node as int] + links.backward[node as int],
{
}

proof fn lemma_leads(links: Links, dir: Dir, from: usize, to: usize)
    ensures
        leads(links, dir, from, to) <==> step(links, from, dir).contains(to),
{
    let (forward, backward) = (links.forward[from as int], links.backward[from as int]);
    let both = forward + backward;
    if forward.contains(to) {
        let i = choose|i: int| 0 <= i < forward.len() && forward[i] == to;
        assert(both[i] == to);
    }
    if backward.contains(to) {
        let i = choose|i: int| 0 <= i < backward.len() && backward[i] == to;
        assert(both[forward.len() + i] == to);
    }
    if both.contains(to) {
        let i = choose|i: int| 0 <= i < both.len() && both[i] == to;
        if i < forward.len() {
            assert(forward[i] == to);
        } else {
            assert(backward[i - forward.len()] == to);
        }
    }
}

proof fn lemma_path_within(links: Links, seed: usize, dir: Dir, path: Seq<usize>)
    requires
        path.len() >= 1,
        path[0] == seed,
        is_path(links, dir, path),
    ensures
        within(links, seed, dir, (path.len() - 1) as nat, path.last()),
    decreases path.len(),
{
    if path.len() > 1 {
        let front = path.drop_last();
        let d = (path.len() - 1) as nat;
        assert forall|i: int| 0 <= i < front.len() - 1 implies leads(
            links,
            dir,
            #[trigger] front[i],
            front[i + 1],
        ) by {
            assert(leads(links, dir, path[i], path[i + 1]));
        }
        lemma_path_within(links, seed, dir, front);
        let via = front.last();
        assert(leads(links, dir, path[path.len() - 2], path[path.len() - 1]));
        lemma_leads(links, dir, via, path.last());
        let inner = ball(links, seed, dir, (d - 1) as nat);
        assert(inner.contains(via) && step(links, via, dir).contains(path.last()));
        assert(neighbours_of(links, inner, dir).contains(path.last()));
    }
}

proof fn lemma_ball_grows(links: Links, seed: usize, dir: Dir, d: nat, depth: nat, node: usize)
    requires
        d <= depth,
        within(links, seed, dir, d, node),
    ensures
        within(links, seed, dir, depth, node),
    decreases depth,
{
    if d < depth {
        lemma_ball_grows(links, seed, dir, d, (depth - 1) as nat, node);
    }
}

proof fn lemma_within_path(links: Links, seed: usize, dir: Dir, depth: nat, node: usize)
    requires
        within(links, seed, dir, depth, node),
    ensures
        reachable(links, dir, seed, node, depth),
    decreases depth,
{
    if depth == 0 {
        let path = seq![seed];
        assert(is_path(links, dir, path));
        assert(path.last() == node);
    } else {
        let less = (depth - 1) as nat;
        let inner = ball(links, seed, dir, less);
        if inner.contains(node) {
            lemma_within_path(links, seed, dir, less, node);
            let path = choose|path: Seq<usize>|
                {
                    &&& 1 <= path.len() <= less + 1
                    &&& path[0] == seed
                    &&& path.last() == node
                    &&& #[trigger] is_path(links, dir, path)
                };
            assert(path.len() <= depth + 1);
        } else {
            let via = choose|via: usize| #[trigger]
                inner.contains(via) && step(links, via, dir).contains(node);
            lemma_within_path(links, seed, dir, less, via);
            lemma_leads(links, dir, via, node);
            let path = choose|path: Seq<usize>|
                {
                    &&& 1 <= path.len() <= less + 1
                    &&& path[0] == seed
                    &&& path.last() == via
                    &&& #[trigger] is_path(links, dir, path)
                };
            let longer = path.push(node);
            assert forall|i: int| 0 <= i < longer.len() - 1 implies leads(
                links,
                dir,
                #[trigger] longer[i],
                longer[i + 1],
            ) by {
                if i < path.len() - 1 {
                    assert(leads(links, dir, path[i], path[i + 1]));
                }
            }
            assert(is_path(links, dir, longer));
            assert(longer[0] == seed && longer.last() == node);
        }
    }
}

/// The walk comes to a node within its depth exactly where a path leads there from the seed with no
/// more steps than that.
pub proof fn lemma_reach_by_paths(links: Links, seed: usize, dir: Dir, depth: nat, node: usize)
    ensures
        reach(links, seed, dir, depth).contains(node) <==> reachable(links, dir, seed, node, depth),
{
    lemma_reach_is_within(links, seed, dir, depth, node);
    if within(links, seed, dir, depth, node) {
        lemma_within_path(links, seed, dir, depth, node);
    }
    if reachable(links, dir, seed, node, depth) {
        let path = choose|path: Seq<usize>|
            {
                &&& 1 <= path.len() <= depth + 1
                &&& path[0] == seed
                &&& path.last() == node
                &&& #[trigger] is_path(links, dir, path)
            };
        lemma_path_within(links, seed, dir, path);
        lemma_ball_grows(links, seed, dir, (path.len() - 1) as nat, depth, node);
    }
}

/// The three directions go by their names, and nothing else names one.
pub proof fn lemma_dir_names(raw: Seq<char>)
    ensures
        dir_named(raw) == Some(Dir::Out) <==> raw == seq!['o', 'u', 't'],
        dir_named(raw) == Some(Dir::In) <==> raw == seq!['i', 'n'],
        dir_named(raw) == Some(Dir::Both) <==> raw == seq!['b', 'o', 't', 'h'],
{
    reveal_strlit("out");
    reveal_strlit("in");
    reveal_strlit("both");
    assert("out"@ =~= seq!['o', 'u', 't']);
    assert("in"@ =~= seq!['i', 'n']);
    assert("both"@ =~= seq!['b', 'o', 't', 'h']);
    assert("out"@.len() == 3 && "in"@.len() == 2 && "both"@.len() == 4);
}

/// The item stands in the list first at the position `i`.
pub open spec fn first_at(items: Seq<usize>, item: usize, i: int) -> bool {
    &&& 0 <= i < items.len()
    &&& items[i] == item
    &&& forall|k: int| 0 <= k < i ==> #[trigger] items[k] != item
}

/// What is new in a list is what is in it and not known yet, each item once, in the order in which
/// the items first stand in the list.
pub proof fn lemma_new_items(found: Seq<usize>, known: Seq<usize>, item: usize)
    ensures
        fresh(found, known).contains(item) <==> found.contains(item) && !known.contains(item),
        fresh(found, known).no_duplicates(),
        forall|i: int, j: int, a: int, b: int|
            0 <= i < j < fresh(found, known).len() && #[trigger] first_at(
                found,
                fresh(found, known)[i],
                a,
            ) && #[trigger] first_at(found, fresh(found, known)[j], b) ==> a < b,
    decreases found.len(),
{
    lemma_fresh(found, known, item);
    if found.len() > 0 {
        let front = found.drop_last();
        let last = found.len() - 1;
        let rest = fresh(front, known);
        let all = fresh(found, known);
        lemma_new_items(front, known, item);
        assert forall|i: int, j: int, a: int, b: int|
            0 <= i < j < all.len() && #[trigger] first_at(found, all[i], a) && #[trigger] first_at(
                found,
                all[j],
                b,
            ) implies a < b by {
            assert(all[i] == rest[i]);
            assert(rest.contains(rest[i]));
            lemma_fresh(front, known, rest[i]);
            lemma_first_in_front(found, rest[i], a);
            if j < rest.len() {
                assert(all[j] == rest[j]);
                assert(rest.contains(rest[j]));
                lemma_fresh(front, known, rest[j]);
                lemma_first_in_front(found, rest[j], b);
                assert(first_at(front, rest[i], a) && first_at(front, rest[j], b));
            } else {
                assert(all[j] == found.last());
                if b < last {
                    assert(front[b] == found.last());
                    assert(front.contains(found.last()));
                    lemma_fresh(front, known, found.last());
                    assert(all.contains(all[j]));
                    lemma_fresh(found, known, found.last());
                }
            }
        }
    }
}

proof fn lemma_first_in_front(found: Seq<usize>, item: usize, a: int)
    requires
        found.len() > 0,
        found.drop_last().contains(item),
        first_at(found, item, a),
    ensures
        first_at(found.drop_last(), item, a),
{
    let front = found.drop_last();
    let k = choose|k: int| 0 <= k < front.len() && front[k] == item;
    if k < a {
        assert(found[k] == item);
    }
    assert forall|m: int| 0 <= m < a implies #[trigger] front[m] != item by {
        assert(found[m] != item);
    }
}

/// The steps from two lists of nodes, one behind the other, are those from the first and then those
/// from the second; from a single node they are its own.
pub proof fn lemma_steps_in_turn(
    links: Links,
    nodes: Seq<usize>,
    more: Seq<usize>,
    node: usize,
    dir: Dir,
)
    ensures
        steps(links, nodes + more, dir) == steps(links, nodes, dir) + steps(links, more, dir),
        steps(links, seq![node], dir) == step(links, node, dir),
    decreases more.len(),
{
    let one = seq![node];
    assert(one.drop_last() =~= Seq::empty());
    reveal_with_fuel(steps, 2);
    assert(steps(links, one, dir) =~= step(links, node, dir));
    if more.len() == 0 {
        assert(nodes + more =~= nodes);
        assert(steps(links, nodes, dir) =~= steps(links, nodes, dir) + steps(links, more, dir));
    } else {
        lemma_steps_in_turn(links, nodes, more.drop_last(), node, dir);
        assert((nodes + more).drop_last() =~= nodes + more.drop_last());
        assert(steps(links, nodes + more, dir) =~= steps(links, nodes, dir) + steps(
            links,
            more,
            dir,
        ));
    }
}

/// A walk with no steps lists the seed alone. With one step more it goes on with what is new among
/// the steps from the nodes that it came to last, in their order.
pub proof fn lemma_one_step_more(links: Links, seed: usize, dir: Dir, depth: nat)
    ensures
        reach(links, seed, dir, 0) == seq![seed],
        reach(links, seed, dir, 1) == seq![seed] + fresh(step(links, seed, dir), seq![seed]),
        ({
            let near = reach(links, seed, dir, depth);
            let far = reach(links, seed, dir, depth + 1);
            let newest = far.skip(near.len() as int);
            reach(links, seed, dir, depth + 2) == far + fresh(steps(links, newest, dir), far)
        }),
{
    let near = reach(links, seed, dir, depth);
    let (far, ring) = spread(links, seed, dir, depth + 1);
    assert(far.skip(near.len() as int) =~= ring);
    lemma_steps_in_turn(links, Seq::empty(), Seq::empty(), seed, dir);
    reveal_with_fuel(spread, 2);
}

/// A node is marked exactly where it is in the list.
pub proof fn lemma_marked_are_listed(visited: Seq<bool>, order: Seq<usize>, node: usize)
    requires
        marks(visited, order),
        node < visited.len(),
    ensures
        visited[node as int] <==> exists|i: int| 0 <= i < order.len() && #[trigger] order[i] == node,
{
    assert(visited[node as int] == order.contains(node));
    if exists|i: int| 0 <= i < order.len() && #[trigger] order[i] == node {
        let i = choose|i: int| 0 <= i < order.len() && #[trigger] order[i] == node;
        assert(order.contains(order[i]));
    }
}

} // verus!
