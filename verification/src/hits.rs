//! How often each edge of a graph was taken.
use vstd::prelude::*;

use crate::order;
use crate::text;

verus! {

/// How often a key was counted.
pub open spec fn count_of<K>(counts: Map<K, u64>, key: K) -> u64 {
    if counts.contains_key(key) {
        counts[key]
    } else {
        0
    }
}

/// The counts with `more` added to that of `key`.
pub open spec fn bumped<K>(counts: Map<K, u64>, key: K, more: u64) -> Map<K, u64> {
    counts.insert(key, (count_of(counts, key) + more) as u64)
}

/// What the items of a list weigh, added up.
pub open spec fn sum_of<A>(items: Seq<A>, weight: spec_fn(A) -> int) -> int
    decreases items.len(),
{
    if items.len() == 0 {
        0
    } else {
        sum_of(items.drop_last(), weight) + weight(items.last())
    }
}

proof fn lemma_sum_without<A>(items: Seq<A>, weight: spec_fn(A) -> int, i: int)
    requires
        0 <= i < items.len(),
    ensures
        sum_of(items, weight) == sum_of(items.remove(i), weight) + weight(items[i]),
    decreases items.len(),
{
    if i == items.len() - 1 {
        assert(items.remove(i) =~= items.drop_last());
    } else {
        lemma_sum_without(items.drop_last(), weight, i);
        assert(items.remove(i).drop_last() =~= items.drop_last().remove(i));
        assert(items.remove(i).last() == items.last());
    }
}

/// The order of the items does not change the sum.
pub proof fn lemma_sum_reordered<A>(items: Seq<A>, others: Seq<A>, weight: spec_fn(A) -> int)
    requires
        items.to_multiset() == others.to_multiset(),
    ensures
        sum_of(items, weight) == sum_of(others, weight),
    decreases items.len(),
{
    order::lemma_same_items(items, others);
    if items.len() > 0 {
        let last = items.last();
        let n = items.len() - 1;
        assert(others.contains(last)) by {
            assert(items[n] == last);
            vstd::seq_lib::to_multiset_contains(items, last);
            vstd::seq_lib::to_multiset_contains(others, last);
        }
        let i = choose|i: int| 0 <= i < others.len() && others[i] == last;
        vstd::seq_lib::to_multiset_remove(items, n);
        vstd::seq_lib::to_multiset_remove(others, i);
        assert(items.remove(n) =~= items.drop_last());
        lemma_sum_reordered(items.drop_last(), others.remove(i), weight);
        lemma_sum_without(others, weight, i);
    }
}

/// Counts of edges, listed by the edges' ends.
pub struct EdgeHits {
    entries: Vec<((usize, usize), u64)>,
}

/// Each edge comes before the later ones.
spec fn listed(entries: Seq<((usize, usize), u64)>) -> bool {
    forall|i: int, j: int|
        0 <= i < j < entries.len() ==> text::pair_lt(
            (#[trigger] entries[i]).0,
            (#[trigger] entries[j]).0,
        )
}

/// The edge stands at the position.
spec fn stands_at(entries: Seq<((usize, usize), u64)>, edge: (usize, usize), i: int) -> bool {
    0 <= i < entries.len() && entries[i].0 == edge
}

/// The counts of a list.
spec fn counts(entries: Seq<((usize, usize), u64)>) -> Map<(usize, usize), u64> {
    Map::new(
        |edge: (usize, usize)| exists|i: int| stands_at(entries, edge, i),
        |edge: (usize, usize)| entries[choose|i: int| stands_at(entries, edge, i)].1,
    )
}

proof fn lemma_counts(entries: Seq<((usize, usize), u64)>, i: int)
    requires
        listed(entries),
        0 <= i < entries.len(),
    ensures
        counts(entries).contains_key(entries[i].0),
        counts(entries)[entries[i].0] == entries[i].1,
{
    let edge = entries[i].0;
    assert(stands_at(entries, edge, i));
    let j = choose|j: int| stands_at(entries, edge, j);
    if i < j {
        assert(text::pair_lt(entries[i].0, entries[j].0));
    } else if j < i {
        assert(text::pair_lt(entries[j].0, entries[i].0));
    }
}

impl View for EdgeHits {
    type V = Map<(usize, usize), u64>;

    closed spec fn view(&self) -> Map<(usize, usize), u64> {
        counts(self.entries@)
    }
}

impl EdgeHits {
    /// The edges are listed in their order, each once.
    pub closed spec fn wf(&self) -> bool {
        listed(self.entries@)
    }

    /// No edge was taken.
    pub fn new() -> (r: Self)
        ensures
            r.wf(),
            r@ == Map::<(usize, usize), u64>::empty(),
    {
        let r = EdgeHits { entries: Vec::new() };
        assert(r@ =~= Map::<(usize, usize), u64>::empty());
        r
    }

    /// The first position whose edge does not come before `edge`.
    fn place(&self, edge: (usize, usize)) -> (r: usize)
        requires
            self.wf(),
        ensures
            r <= self.entries.len(),
            forall|i: int| 0 <= i < r ==> text::pair_lt((#[trigger] self.entries@[i]).0, edge),
            forall|i: int|
                r <= i < self.entries.len() ==> !text::pair_lt(
                    (#[trigger] self.entries@[i]).0,
                    edge,
                ),
    {
        let mut lo: usize = 0;
        let mut hi: usize = self.entries.len();
        while lo < hi
            invariant
                lo <= hi <= self.entries.len(),
                listed(self.entries@),
                forall|i: int| 0 <= i < lo ==> text::pair_lt((#[trigger] self.entries@[i]).0, edge),
                forall|i: int|
                    hi <= i < self.entries.len() ==> !text::pair_lt(
                        (#[trigger] self.entries@[i]).0,
                        edge,
                    ),
            decreases hi - lo,
        {
            let mid: usize = lo + (hi - lo) / 2;
            let at = self.entries[mid].0;
            if at.0 < edge.0 || (at.0 == edge.0 && at.1 < edge.1) {
                lo = mid + 1;
            } else {
                hi = mid;
            }
        }
        lo
    }

    /// Counts an edge `more` times.
    pub fn add(&mut self, edge: (usize, usize), more: u64)
        requires
            old(self).wf(),
            count_of(old(self)@, edge) + more <= u64::MAX,
        ensures
            final(self).wf(),
            final(self)@ == bumped(old(self)@, edge, more),
    {
        let at = self.place(edge);
        let ghost before = self.entries@;
        if at < self.entries.len() && self.entries[at].0.0 == edge.0 && self.entries[at].0.1
            == edge.1 {
            proof {
                lemma_counts(before, at as int);
            }
            let sum: u64 = self.entries[at].1 + more;
            self.entries[at] = (edge, sum);
            let ghost after = self.entries@;
            proof {
                assert(after == before.update(at as int, (edge, sum)));
                lemma_same_edges(before, after, at as int);
                assert(counts(after) =~= bumped(counts(before), edge, more));
            }
        } else {
            proof {
                assert forall|i: int| !stands_at(before, edge, i) by {
                    if stands_at(before, edge, i) {
                        assert(before[i].0 == edge);
                        if i > at {
                            assert(text::pair_lt(before[at as int].0, before[i].0));
                        }
                    }
                }
            }
            self.entries.insert(at, (edge, more));
            let ghost after = self.entries@;
            proof {
                assert(after == before.insert(at as int, (edge, more)));
                lemma_inserted(before, after, at as int, edge, more);
            }
        }
    }

    /// How often an edge was counted, where it was.
    pub fn get(&self, edge: (usize, usize)) -> (r: Option<u64>)
        requires
            self.wf(),
        ensures
            r == if self@.contains_key(edge) {
                Some(self@[edge])
            } else {
                None
            },
    {
        let at = self.place(edge);
        if at < self.entries.len() && self.entries[at].0.0 == edge.0 && self.entries[at].0.1
            == edge.1 {
            proof {
                lemma_counts(self.entries@, at as int);
            }
            Some(self.entries[at].1)
        } else {
            proof {
                let entries = self.entries@;
                assert forall|i: int| !stands_at(entries, edge, i) by {
                    if stands_at(entries, edge, i) {
                        assert(entries[i].0 == edge);
                        if i > at {
                            assert(text::pair_lt(entries[at as int].0, entries[i].0));
                        }
                    }
                }
            }
            None
        }
    }

    /// The edges that were counted, by their ends.
    pub fn edges(&self) -> (r: Vec<(usize, usize)>)
        requires
            self.wf(),
        ensures
            crate::order::ascending(r@, crate::order::rank_lt::<(usize, usize)>()),
            r@.to_set() == self@.dom(),
    {
        let mut out: Vec<(usize, usize)> = Vec::new();
        let mut i: usize = 0;
        while i < self.entries.len()
            invariant
                i <= self.entries.len(),
                out.len() == i,
                forall|k: int| 0 <= k < i ==> #[trigger] out@[k] == self.entries@[k].0,
            decreases self.entries.len() - i,
        {
            out.push(self.entries[i].0);
            i = i + 1;
        }
        proof {
            assert forall|edge: (usize, usize)| out@.to_set().contains(edge) == self@.dom().contains(
                edge,
            ) by {
                if out@.contains(edge) {
                    let k = choose|k: int| 0 <= k < out.len() && out@[k] == edge;
                    assert(stands_at(self.entries@, edge, k));
                }
                if self@.dom().contains(edge) {
                    let k = choose|k: int| stands_at(self.entries@, edge, k);
                    assert(out@[k] == edge);
                }
            }
            assert(out@.to_set() =~= self@.dom());
        }
        out
    }
}

proof fn lemma_same_edges(
    before: Seq<((usize, usize), u64)>,
    after: Seq<((usize, usize), u64)>,
    at: int,
)
    requires
        listed(before),
        0 <= at < before.len(),
        after == before.update(at, (before[at].0, after[at].1)),
    ensures
        listed(after),
        counts(after) == counts(before).insert(before[at].0, after[at].1),
{
    assert forall|i: int, j: int| 0 <= i < j < after.len() implies text::pair_lt(
        (#[trigger] after[i]).0,
        (#[trigger] after[j]).0,
    ) by {
        assert(text::pair_lt(before[i].0, before[j].0));
    }
    assert forall|edge: (usize, usize), i: int|
        stands_at(before, edge, i) == #[trigger] stands_at(after, edge, i) by {}
    lemma_counts(after, at);
    assert forall|edge: (usize, usize)| #[trigger]
        counts(after).contains_key(edge) == counts(before).insert(
            before[at].0,
            after[at].1,
        ).contains_key(edge) by {
        if counts(before).contains_key(edge) {
            let i = choose|i: int| stands_at(before, edge, i);
            assert(stands_at(after, edge, i));
        }
        if counts(after).contains_key(edge) {
            let i = choose|i: int| stands_at(after, edge, i);
            assert(stands_at(before, edge, i));
        }
    }
    assert forall|edge: (usize, usize)| #[trigger] counts(after).contains_key(edge) && edge
        != before[at].0 implies counts(after)[edge] == counts(before)[edge] by {
        let i = choose|i: int| stands_at(after, edge, i);
        lemma_counts(after, i);
        lemma_counts(before, i);
    }
    assert(counts(after) =~= counts(before).insert(before[at].0, after[at].1));
}

proof fn lemma_inserted(
    before: Seq<((usize, usize), u64)>,
    after: Seq<((usize, usize), u64)>,
    at: int,
    edge: (usize, usize),
    more: u64,
)
    requires
        listed(before),
        0 <= at <= before.len(),
        after == before.insert(at, (edge, more)),
        forall|i: int| 0 <= i < at ==> text::pair_lt((#[trigger] before[i]).0, edge),
        forall|i: int|
            at <= i < before.len() ==> !text::pair_lt((#[trigger] before[i]).0, edge),
        forall|i: int| !stands_at(before, edge, i),
    ensures
        listed(after),
        counts(after) == bumped(counts(before), edge, more),
{
    assert forall|i: int, j: int| 0 <= i < j < after.len() implies text::pair_lt(
        (#[trigger] after[i]).0,
        (#[trigger] after[j]).0,
    ) by {
        let x = if i < at {
            i
        } else {
            i - 1
        };
        let y = if j < at {
            j
        } else {
            j - 1
        };
        if i != at && j != at {
            assert(text::pair_lt(before[x].0, before[y].0));
        } else if i == at {
            assert(!stands_at(before, edge, y));
            assert(!text::pair_lt(before[y].0, edge));
        } else {
            assert(text::pair_lt(before[x].0, edge));
        }
    }
    lemma_counts(after, at);
    assert forall|other: (usize, usize)| other != edge implies #[trigger] counts(
        after,
    ).contains_key(other) == counts(before).contains_key(other) && (counts(before).contains_key(
        other,
    ) ==> counts(after)[other] == counts(before)[other]) by {
        if counts(before).contains_key(other) {
            let i = choose|i: int| stands_at(before, other, i);
            let k = if i < at {
                i
            } else {
                i + 1
            };
            assert(stands_at(after, other, k));
            lemma_counts(after, k);
            lemma_counts(before, i);
        }
        if counts(after).contains_key(other) {
            let k = choose|k: int| stands_at(after, other, k);
            let i = if k < at {
                k
            } else {
                k - 1
            };
            assert(stands_at(before, other, i));
        }
    }
    assert(counts(after) =~= bumped(counts(before), edge, more));
}

} // verus!
