//! Sorting by rank: the sorted list of a set, the stable sort of a list, and the merge sort that
//! computes both.
use vstd::prelude::*;

use crate::text;

verus! {

/// `lt` is a strict total order.
pub open spec fn strict_order<A>(lt: spec_fn(A, A) -> bool) -> bool {
    &&& forall|a: A| !(#[trigger] lt(a, a))
    &&& forall|a: A, b: A, c: A| #[trigger] lt(a, b) && #[trigger] lt(b, c) ==> lt(a, c)
    &&& forall|a: A, b: A| a != b ==> #[trigger] lt(a, b) || lt(b, a)
}

/// Every item of `s` comes before all later ones under `lt`.
pub open spec fn ascending<A>(s: Seq<A>, lt: spec_fn(A, A) -> bool) -> bool {
    forall|i: int, j: int| 0 <= i < j < s.len() ==> lt(#[trigger] s[i], #[trigger] s[j])
}

/// The ascending list `s` with `x` put where it belongs, or `s` itself where `x` is in it already.
pub open spec fn insert_sorted<A>(s: Seq<A>, x: A, lt: spec_fn(A, A) -> bool) -> Seq<A>
    decreases s.len(),
{
    if s.len() == 0 {
        seq![x]
    } else if s.last() == x {
        s
    } else if lt(s.last(), x) {
        s.push(x)
    } else {
        insert_sorted(s.drop_last(), x, lt).push(s.last())
    }
}

/// What occurs in `s`, each item once, in ascending order.
pub open spec fn sorted_distinct<A>(s: Seq<A>, lt: spec_fn(A, A) -> bool) -> Seq<A>
    decreases s.len(),
{
    if s.len() == 0 {
        Seq::empty()
    } else {
        insert_sorted(sorted_distinct(s.drop_last(), lt), s.last(), lt)
    }
}

/// The position `i` goes before the position `j` in a stable sort of items with these ranks.
pub open spec fn precedes<V>(ranks: Seq<V>, lt: spec_fn(V, V) -> bool, i: usize, j: usize) -> bool {
    lt(ranks[i as int], ranks[j as int]) || (!lt(ranks[j as int], ranks[i as int]) && i < j)
}

/// The positions `0 .. n` in their own order.
pub open spec fn positions(n: nat) -> Seq<usize> {
    Seq::new(n, |i: int| i as usize)
}

/// The order in which a stable sort lists the positions of items with these ranks.
pub open spec fn stable_order<V>(ranks: Seq<V>, lt: spec_fn(V, V) -> bool) -> Seq<usize> {
    sorted_distinct(positions(ranks.len()), |i: usize, j: usize| precedes(ranks, lt, i, j))
}

/// `s` sorted by `key`; items of one rank keep the order that they have in `s`.
pub open spec fn stable_sort<T, V>(
    s: Seq<T>,
    key: spec_fn(T) -> V,
    lt: spec_fn(V, V) -> bool,
) -> Seq<T> {
    stable_order(s.map_values(key), lt).map_values(|i: usize| s[i as int])
}

proof fn lemma_insert_sorted<A>(s: Seq<A>, x: A, lt: spec_fn(A, A) -> bool)
    requires
        strict_order(lt),
        ascending(s, lt),
    ensures
        ascending(insert_sorted(s, x, lt), lt),
        insert_sorted(s, x, lt).to_set() == s.to_set().insert(x),
    decreases s.len(),
{
    let r = insert_sorted(s, x, lt);
    if s.len() == 0 {
        assert(r.to_set() =~= s.to_set().insert(x)) by {
            assert(r[0] == x);
        }
    } else if s.last() == x {
        assert(s.contains(x));
        assert(r.to_set() =~= s.to_set().insert(x));
    } else if lt(s.last(), x) {
        assert forall|i: int, j: int| 0 <= i < j < r.len() implies lt(
            #[trigger] r[i],
            #[trigger] r[j],
        ) by {
            if j == s.len() && i < s.len() - 1 {
                assert(lt(s[i], s.last()));
            }
        }
        assert(r.to_set() =~= s.to_set().insert(x)) by {
            assert forall|a: A| r.contains(a) == (s.contains(a) || a == x) by {
                if s.contains(a) {
                    let k = choose|k: int| 0 <= k < s.len() && s[k] == a;
                    assert(r[k] == a);
                }
                assert(r[s.len() as int] == x);
            }
        }
    } else {
        let front = s.drop_last();
        let q = insert_sorted(front, x, lt);
        lemma_insert_sorted(front, x, lt);
        assert forall|i: int| 0 <= i < q.len() implies lt(#[trigger] q[i], s.last()) by {
            assert(q.to_set().contains(q[i]));
            if q[i] != x {
                assert(front.contains(q[i]));
                let k = choose|k: int| 0 <= k < front.len() && front[k] == q[i];
                assert(lt(s[k], s[s.len() - 1]));
            }
        }
        assert forall|i: int, j: int| 0 <= i < j < r.len() implies lt(
            #[trigger] r[i],
            #[trigger] r[j],
        ) by {
            if j < q.len() {
                assert(r[i] == q[i] && r[j] == q[j]);
            } else {
                assert(r[i] == q[i]);
            }
        }
        assert(r.to_set() =~= s.to_set().insert(x)) by {
            assert forall|a: A| r.contains(a) == (s.contains(a) || a == x) by {
                assert(q.to_set().contains(a) == q.contains(a));
                assert(front.to_set().contains(a) == front.contains(a));
                assert(r[q.len() as int] == s.last());
                if r.contains(a) {
                    let k = choose|k: int| 0 <= k < r.len() && r[k] == a;
                    if k < q.len() {
                        assert(q[k] == a);
                        if front.contains(a) {
                            let m = choose|m: int| 0 <= m < front.len() && front[m] == a;
                            assert(s[m] == a);
                        }
                    }
                }
                if q.contains(a) {
                    let k = choose|k: int| 0 <= k < q.len() && q[k] == a;
                    assert(r[k] == a);
                }
                if s.contains(a) && a != s.last() {
                    let k = choose|k: int| 0 <= k < s.len() && s[k] == a;
                    assert(front[k] == a);
                }
            }
        }
    }
}

/// The sorted list of a set is ascending and holds what occurs in the list it was made from.
pub proof fn lemma_sorted_distinct<A>(s: Seq<A>, lt: spec_fn(A, A) -> bool)
    requires
        strict_order(lt),
    ensures
        ascending(sorted_distinct(s, lt), lt),
        sorted_distinct(s, lt).to_set() == s.to_set(),
    decreases s.len(),
{
    if s.len() == 0 {
        assert(sorted_distinct(s, lt).to_set() =~= s.to_set());
    } else {
        let front = s.drop_last();
        lemma_sorted_distinct(front, lt);
        lemma_insert_sorted(sorted_distinct(front, lt), s.last(), lt);
        assert(front.to_set().insert(s.last()) =~= s.to_set()) by {
            assert forall|a: A| s.contains(a) == (front.contains(a) || a == s.last()) by {
                if s.contains(a) && a != s.last() {
                    let k = choose|k: int| 0 <= k < s.len() && s[k] == a;
                    assert(front[k] == a);
                }
                if front.contains(a) {
                    let k = choose|k: int| 0 <= k < front.len() && front[k] == a;
                    assert(s[k] == a);
                }
            }
        }
    }
}

/// An ascending list is determined by what occurs in it.
pub proof fn lemma_ascending_unique<A>(s: Seq<A>, t: Seq<A>, lt: spec_fn(A, A) -> bool)
    requires
        strict_order(lt),
        ascending(s, lt),
        ascending(t, lt),
        s.to_set() == t.to_set(),
    ensures
        s == t,
    decreases s.len(),
{
    if s.len() == 0 {
        if t.len() > 0 {
            assert(t.contains(t[0]));
            assert(s.to_set().contains(t[0]));
        }
        assert(s =~= t);
    } else {
        assert(s.contains(s.last()));
        assert(t.to_set().contains(s.last()));
        assert(t.contains(t.last()));
        assert(s.to_set().contains(t.last()));
        let i = choose|i: int| 0 <= i < s.len() && s[i] == t.last();
        let j = choose|j: int| 0 <= j < t.len() && t[j] == s.last();
        if s.last() != t.last() {
            assert(lt(s[i], s[s.len() - 1]));
            assert(lt(t[j], t[t.len() - 1]));
            assert(lt(s.last(), s.last()));
        }
        let sf = s.drop_last();
        let tf = t.drop_last();
        assert forall|a: A| sf.contains(a) == tf.contains(a) by {
            assert(s.to_set().contains(a) == t.to_set().contains(a));
            if sf.contains(a) {
                let k = choose|k: int| 0 <= k < sf.len() && sf[k] == a;
                assert(s[k] == a);
                assert(lt(s[k], s[s.len() - 1]));
                assert(s.contains(a));
                assert(t.to_set().contains(a));
                let m = choose|m: int| 0 <= m < t.len() && t[m] == a;
                assert(tf[m] == a);
            }
            if tf.contains(a) {
                let k = choose|k: int| 0 <= k < tf.len() && tf[k] == a;
                assert(t[k] == a);
                assert(lt(t[k], t[t.len() - 1]));
                assert(t.contains(a));
                assert(s.to_set().contains(a));
                let m = choose|m: int| 0 <= m < s.len() && s[m] == a;
                assert(sf[m] == a);
            }
        }
        assert(sf.to_set() =~= tf.to_set());
        lemma_ascending_unique(sf, tf, lt);
        assert(s =~= sf.push(s.last()));
        assert(t =~= tf.push(t.last()));
    }
}

/// A value that can stand as a sort key: its rank lies in a strict total order, and two ranks can
/// be held against each other at run time.
pub trait Ranked: Sized {
    type Rank;

    spec fn rank(&self) -> Self::Rank;

    spec fn ranks_before(a: Self::Rank, b: Self::Rank) -> bool;

    proof fn lemma_strict()
        ensures
            strict_order(|a: Self::Rank, b: Self::Rank| Self::ranks_before(a, b)),
    ;

    fn is_before(&self, other: &Self) -> (r: bool)
        ensures
            r == Self::ranks_before(self.rank(), other.rank()),
    ;
}

/// The order on the ranks of `K`.
pub open spec fn rank_lt<K: Ranked>() -> spec_fn(K::Rank, K::Rank) -> bool {
    |a: K::Rank, b: K::Rank| K::ranks_before(a, b)
}

/// The ranks of the keys in a list.
pub open spec fn ranks<K: Ranked>(keys: Seq<K>) -> Seq<K::Rank> {
    keys.map_values(|k: K| k.rank())
}

proof fn lemma_precedes_strict<V>(ranks: Seq<V>, lt: spec_fn(V, V) -> bool)
    requires
        strict_order(lt),
    ensures
        strict_order(|i: usize, j: usize| precedes(ranks, lt, i, j)),
{
    let p = |i: usize, j: usize| precedes(ranks, lt, i, j);
    assert forall|a: usize, b: usize, c: usize| #[trigger] p(a, b) && #[trigger] p(b, c) implies p(
        a,
        c,
    ) by {
        let (x, y, z) = (ranks[a as int], ranks[b as int], ranks[c as int]);
        if !lt(x, y) && !lt(y, z) {
            assert(x == y && y == z);
        }
    }
    assert forall|a: usize| !(#[trigger] p(a, a)) by {
        assert(!lt(ranks[a as int], ranks[a as int]));
    }
}

/// A stable sort lists every position once, those of lower rank first, and of equal rank in their
/// own order.
pub proof fn lemma_stable_order<V>(ranks: Seq<V>, lt: spec_fn(V, V) -> bool)
    requires
        strict_order(lt),
        ranks.len() <= usize::MAX,
    ensures
        ascending(stable_order(ranks, lt), |i: usize, j: usize| precedes(ranks, lt, i, j)),
        stable_order(ranks, lt).no_duplicates(),
        stable_order(ranks, lt).len() == ranks.len(),
        forall|i: int| 0 <= i < ranks.len() ==> #[trigger] stable_order(ranks, lt)[i] < ranks.len(),
        forall|k: usize| k < ranks.len() ==> #[trigger] stable_order(ranks, lt).contains(k),
{
    let p = |i: usize, j: usize| precedes(ranks, lt, i, j);
    let all = positions(ranks.len());
    let sorted = stable_order(ranks, lt);
    lemma_precedes_strict(ranks, lt);
    lemma_sorted_distinct(all, p);
    lemma_ascending_no_duplicates(sorted, p);
    sorted.unique_seq_to_set();
    all.unique_seq_to_set();
    assert forall|i: int| 0 <= i < ranks.len() implies #[trigger] sorted[i] < ranks.len() by {
        assert(sorted.to_set().contains(sorted[i]));
        assert(all.contains(sorted[i]));
    }
    assert forall|k: usize| k < ranks.len() implies #[trigger] sorted.contains(k) by {
        assert(all[k as int] == k);
        assert(all.to_set().contains(k));
        assert(sorted.to_set().contains(k));
    }
}

/// A stable sort keeps what is in a list, and puts no item before one of lower rank.
pub proof fn lemma_stable_sort<T, V>(s: Seq<T>, key: spec_fn(T) -> V, lt: spec_fn(V, V) -> bool)
    requires
        strict_order(lt),
        s.len() <= usize::MAX,
    ensures
        stable_sort(s, key, lt).len() == s.len(),
        forall|i: int, j: int|
            0 <= i < j < s.len() ==> !lt(
                key(#[trigger] stable_sort(s, key, lt)[j]),
                key(#[trigger] stable_sort(s, key, lt)[i]),
            ),
        forall|x: T| stable_sort(s, key, lt).contains(x) <==> s.contains(x),
{
    let ranks = s.map_values(key);
    let sorted = stable_order(ranks, lt);
    let r = stable_sort(s, key, lt);
    lemma_stable_order(ranks, lt);
    let p = |i: usize, j: usize| precedes(ranks, lt, i, j);
    assert forall|i: int, j: int| 0 <= i < j < s.len() implies !lt(
        key(#[trigger] r[j]),
        key(#[trigger] r[i]),
    ) by {
        assert(p(sorted[i], sorted[j]));
        assert(sorted[i] < ranks.len() && sorted[j] < ranks.len());
        assert(ranks[sorted[i] as int] == key(r[i]));
        assert(ranks[sorted[j] as int] == key(r[j]));
        if lt(key(r[i]), key(r[j])) && lt(key(r[j]), key(r[i])) {
            assert(lt(key(r[i]), key(r[i])));
        }
    }
    assert forall|x: T| r.contains(x) <==> s.contains(x) by {
        if r.contains(x) {
            let i = choose|i: int| 0 <= i < r.len() && r[i] == x;
            assert(sorted[i] < ranks.len());
            assert(s[sorted[i] as int] == x);
        }
        if s.contains(x) {
            let k = choose|k: int| 0 <= k < s.len() && s[k] == x;
            assert(sorted.contains(k as usize));
            let i = choose|i: int| 0 <= i < sorted.len() && sorted[i] == k as usize;
            assert(r[i] == x);
        }
    }
}

fn merge<K: Ranked>(keys: &Vec<K>, a: Vec<usize>, b: Vec<usize>, mid: Ghost<int>) -> (out: Vec<
    usize,
>)
    requires
        forall|i: int| 0 <= i < a.len() ==> 0 <= #[trigger] a[i] < mid@,
        forall|i: int| 0 <= i < b.len() ==> mid@ <= #[trigger] b[i] < keys.len(),
        0 <= mid@ <= keys.len(),
        ascending(a@, |i: usize, j: usize| precedes(ranks(keys@), rank_lt::<K>(), i, j)),
        ascending(b@, |i: usize, j: usize| precedes(ranks(keys@), rank_lt::<K>(), i, j)),
    ensures
        ascending(out@, |i: usize, j: usize| precedes(ranks(keys@), rank_lt::<K>(), i, j)),
        out@.to_set() == a@.to_set() + b@.to_set(),
{
    let ghost p = |i: usize, j: usize| precedes(ranks(keys@), rank_lt::<K>(), i, j);
    proof {
        K::lemma_strict();
        lemma_precedes_strict(ranks(keys@), rank_lt::<K>());
    }
    let mut out: Vec<usize> = Vec::with_capacity(keys.len());
    let mut i: usize = 0;
    let mut j: usize = 0;
    while i < a.len() || j < b.len()
        invariant
            i <= a.len(),
            j <= b.len(),
            forall|i: int| 0 <= i < a.len() ==> 0 <= #[trigger] a[i] < mid@,
            forall|i: int| 0 <= i < b.len() ==> mid@ <= #[trigger] b[i] < keys.len(),
            0 <= mid@ <= keys.len(),
            strict_order(p),
            p == (|i: usize, j: usize| precedes(ranks(keys@), rank_lt::<K>(), i, j)),
            ascending(a@, p),
            ascending(b@, p),
            ascending(out@, p),
            forall|m: int, n: int|
                0 <= m < out.len() && i <= n < a.len() ==> p(#[trigger] out[m], #[trigger] a[n]),
            forall|m: int, n: int|
                0 <= m < out.len() && j <= n < b.len() ==> p(#[trigger] out[m], #[trigger] b[n]),
            out@.to_set() == a@.take(i as int).to_set() + b@.take(j as int).to_set(),
        decreases a.len() - i + b.len() - j,
    {
        let from_b = if i < a.len() && j < b.len() {
            keys[b[j]].is_before(&keys[a[i]])
        } else {
            i == a.len()
        };
        let ghost before = out@;
        if from_b {
            let x = b[j];
            proof {
                if i < a.len() {
                    assert(p(x, a[i as int]));
                }
                assert(b@.take(j + 1) =~= b@.take(j as int).push(x));
                lemma_push_set(b@.take(j as int), x);
                lemma_push_set(before, x);
            }
            out.push(x);
            j = j + 1;
        } else {
            let x = a[i];
            proof {
                if j < b.len() {
                    assert(p(x, b[j as int]));
                }
                assert(a@.take(i + 1) =~= a@.take(i as int).push(x));
                lemma_push_set(a@.take(i as int), x);
                lemma_push_set(before, x);
            }
            out.push(x);
            i = i + 1;
        }
        proof {
            assert(out@.to_set() =~= a@.take(i as int).to_set() + b@.take(j as int).to_set());
        }
    }
    proof {
        assert(a@.take(i as int) =~= a@);
        assert(b@.take(j as int) =~= b@);
    }
    out
}

pub proof fn lemma_push_set<A>(s: Seq<A>, x: A)
    ensures
        s.push(x).to_set() == s.to_set().insert(x),
{
    let r = s.push(x);
    assert forall|a: A| r.contains(a) == (s.contains(a) || a == x) by {
        assert(r[s.len() as int] == x);
        if s.contains(a) {
            let k = choose|k: int| 0 <= k < s.len() && s[k] == a;
            assert(r[k] == a);
        }
    }
    assert(r.to_set() =~= s.to_set().insert(x));
}

fn sort_range<K: Ranked>(keys: &Vec<K>, lo: usize, hi: usize) -> (out: Vec<usize>)
    requires
        lo <= hi <= keys.len(),
    ensures
        ascending(out@, |i: usize, j: usize| precedes(ranks(keys@), rank_lt::<K>(), i, j)),
        out@.to_set() == Set::new(|i: usize| lo <= i < hi),
    decreases hi - lo,
{
    if hi - lo <= 1 {
        let mut out: Vec<usize> = Vec::new();
        if lo < hi {
            out.push(lo);
            assert(out@[0] == lo);
        }
        assert(out@.to_set() =~= Set::new(|i: usize| lo <= i < hi));
        out
    } else {
        let mid: usize = lo + (hi - lo) / 2;
        let a = sort_range(keys, lo, mid);
        let b = sort_range(keys, mid, hi);
        assert forall|i: int| 0 <= i < a.len() implies 0 <= #[trigger] a[i] < mid by {
            assert(a@.to_set().contains(a@[i]));
        }
        assert forall|i: int| 0 <= i < b.len() implies mid <= #[trigger] b[i] < keys.len() by {
            assert(b@.to_set().contains(b@[i]));
        }
        let ghost sets = a@.to_set() + b@.to_set();
        let out = merge(keys, a, b, Ghost(mid as int));
        assert(sets =~= Set::new(|i: usize| lo <= i < hi));
        out
    }
}

/// The positions of `keys` in the order of a stable sort.
pub fn order_by_rank<K: Ranked>(keys: &Vec<K>) -> (out: Vec<usize>)
    ensures
        out@ == stable_order(ranks(keys@), rank_lt::<K>()),
        out.len() == keys.len(),
        forall|i: int| 0 <= i < out.len() ==> #[trigger] out[i] < keys.len(),
{
    let out = sort_range(keys, 0, keys.len());
    proof {
        let p = |i: usize, j: usize| precedes(ranks(keys@), rank_lt::<K>(), i, j);
        K::lemma_strict();
        lemma_precedes_strict(ranks(keys@), rank_lt::<K>());
        assert(ranks(keys@).len() == keys.len());
        lemma_stable_order(ranks(keys@), rank_lt::<K>());
        let sorted = stable_order(ranks(keys@), rank_lt::<K>());
        assert(sorted.to_set() =~= out@.to_set()) by {
            assert forall|i: usize| sorted.contains(i) == (0 <= i < keys.len()) by {
                if sorted.contains(i) {
                    let k = choose|k: int| 0 <= k < sorted.len() && sorted[k] == i;
                    assert(sorted[k] < keys.len());
                }
            }
        }
        lemma_ascending_unique(out@, sorted, p);
    }
    out
}

/// Positions of `keys` that name each rank once, in ascending order.
pub fn distinct_by_rank<K: Ranked>(keys: &Vec<K>) -> (out: Vec<usize>)
    ensures
        forall|i: int| 0 <= i < out.len() ==> #[trigger] out[i] < keys.len(),
        out@.map_values(|i: usize| keys[i as int].rank()) == sorted_distinct(
            ranks(keys@),
            rank_lt::<K>(),
        ),
{
    let order = sort_range(keys, 0, keys.len());
    let ghost lt = rank_lt::<K>();
    let ghost p = |i: usize, j: usize| precedes(ranks(keys@), lt, i, j);
    let ghost at = |i: usize| keys[i as int].rank();
    proof {
        K::lemma_strict();
        assert forall|i: int| 0 <= i < order.len() implies #[trigger] order[i] < keys.len() by {
            assert(order@.to_set().contains(order@[i]));
        }
    }
    let mut out: Vec<usize> = Vec::new();
    let mut i: usize = 0;
    while i < order.len()
        invariant
            i <= order.len(),
            strict_order(lt),
            lt == rank_lt::<K>(),
            p == (|i: usize, j: usize| precedes(ranks(keys@), lt, i, j)),
            at == (|i: usize| keys[i as int].rank()),
            ascending(order@, p),
            forall|k: int| 0 <= k < order.len() ==> #[trigger] order[k] < keys.len(),
            forall|k: int| 0 <= k < out.len() ==> #[trigger] out[k] < keys.len(),
            ascending(out@.map_values(at), lt),
            out.len() == 0 <==> i == 0,
            i > 0 ==> at(out@.last()) == at(order@[i - 1]),
            forall|k: int| 0 <= k < i ==> out@.map_values(at).contains(at(#[trigger] order@[k])),
        decreases order.len() - i,
    {
        let next = order[i];
        let ghost before = out@;
        let fresh = if out.len() == 0 {
            true
        } else {
            keys[out[out.len() - 1]].is_before(&keys[next])
        };
        proof {
            if i > 0 {
                let prev = order@[i - 1];
                assert(p(prev, next));
                assert(ranks(keys@)[prev as int] == at(prev));
                assert(ranks(keys@)[next as int] == at(next));
                assert(!fresh ==> at(prev) == at(next));
            }
        }
        if fresh {
            out.push(next);
            proof {
                let s = before.map_values(at);
                let t = out@.map_values(at);
                assert(t =~= s.push(at(next)));
                assert forall|a: int, b: int| 0 <= a < b < t.len() implies lt(
                    #[trigger] t[a],
                    #[trigger] t[b],
                ) by {
                    if b == s.len() && a < s.len() - 1 {
                        assert(lt(s[a], s[s.len() - 1]));
                    }
                }
                assert forall|k: int| 0 <= k < i + 1 implies t.contains(
                    at(#[trigger] order@[k]),
                ) by {
                    if k < i {
                        let m = choose|m: int| 0 <= m < s.len() && s[m] == at(order@[k]);
                        assert(t[m] == at(order@[k]));
                    } else {
                        assert(t[s.len() as int] == at(next));
                    }
                }
            }
        } else {
            proof {
                let s = before.map_values(at);
                assert(s[s.len() - 1] == at(next));
            }
        }
        i = i + 1;
    }
    proof {
        let s = out@.map_values(at);
        let all = ranks(keys@);
        assert(s.to_set() =~= all.to_set()) by {
            assert forall|r: K::Rank| s.contains(r) == all.contains(r) by {
                if s.contains(r) {
                    let m = choose|m: int| 0 <= m < s.len() && s[m] == r;
                    assert(all[out@[m] as int] == r);
                }
                if all.contains(r) {
                    let m = choose|m: int| 0 <= m < all.len() && all[m] == r;
                    assert(order@.to_set().contains(m as usize));
                    let k = choose|k: int| 0 <= k < order@.len() && order@[k] == m as usize;
                    assert(at(order@[k]) == r);
                }
            }
        }
        lemma_sorted_distinct(all, lt);
        lemma_ascending_unique(s, sorted_distinct(all, lt), lt);
    }
    out
}

/// The numbers in a list, each once, from the smallest up.
pub fn sorted_numbers(list: &Vec<usize>) -> (r: Vec<usize>)
    ensures
        r@ == sorted_distinct(list@, rank_lt::<usize>()),
{
    let picked = distinct_by_rank(list);
    let mut r: Vec<usize> = Vec::new();
    let mut i: usize = 0;
    let ghost at = |i: usize| list[i as int].rank();
    while i < picked.len()
        invariant
            i <= picked.len(),
            forall|k: int| 0 <= k < picked.len() ==> #[trigger] picked[k] < list.len(),
            at == (|i: usize| list[i as int].rank()),
            r@ == picked@.take(i as int).map_values(at),
        decreases picked.len() - i,
    {
        r.push(list[picked[i]]);
        i = i + 1;
        assert(picked@.take(i as int) =~= picked@.take(i - 1).push(picked@[i - 1]));
        assert(r@ =~= picked@.take(i as int).map_values(at));
    }
    assert(picked@.take(i as int) =~= picked@);
    assert(ranks(list@) =~= list@);
    r
}

/// The texts in a list, each once, in ascending order.
pub fn sorted_texts(list: &Vec<String>) -> (r: Vec<String>)
    ensures
        text::texts(r@) == sorted_distinct(text::texts(list@), rank_lt::<String>()),
{
    let picked = distinct_by_rank(list);
    let mut r: Vec<String> = Vec::new();
    let mut i: usize = 0;
    let ghost at = |i: usize| list[i as int].rank();
    while i < picked.len()
        invariant
            i <= picked.len(),
            forall|k: int| 0 <= k < picked.len() ==> #[trigger] picked[k] < list.len(),
            at == (|i: usize| list[i as int].rank()),
            text::texts(r@) == picked@.take(i as int).map_values(at),
        decreases picked.len() - i,
    {
        let ghost before = r@;
        r.push(list[picked[i]].clone());
        i = i + 1;
        assert(picked@.take(i as int) =~= picked@.take(i - 1).push(picked@[i - 1]));
        assert(text::texts(r@) =~= text::texts(before).push(list[picked@[i - 1] as int]@));
        assert(text::texts(r@) =~= picked@.take(i as int).map_values(at));
    }
    assert(picked@.take(i as int) =~= picked@);
    assert(ranks(list@) =~= text::texts(list@));
    r
}

proof fn lemma_ascending_no_duplicates<A>(s: Seq<A>, lt: spec_fn(A, A) -> bool)
    requires
        strict_order(lt),
        ascending(s, lt),
    ensures
        s.no_duplicates(),
{
    assert forall|i: int, j: int| 0 <= i < s.len() && 0 <= j < s.len() && i != j implies s[i]
        != s[j] by {
        if i < j {
            assert(lt(s[i], s[j]));
        } else {
            assert(lt(s[j], s[i]));
        }
    }
}

/// Lists that hold the same items equally often are equally long and hold the same items.
pub proof fn lemma_same_items<A>(s: Seq<A>, t: Seq<A>)
    requires
        s.to_multiset() == t.to_multiset(),
    ensures
        s.to_set() == t.to_set(),
        s.len() == t.len(),
{
    vstd::seq_lib::to_multiset_len(s);
    vstd::seq_lib::to_multiset_len(t);
    assert forall|a: A| s.contains(a) == t.contains(a) by {
        vstd::seq_lib::to_multiset_contains(s, a);
        vstd::seq_lib::to_multiset_contains(t, a);
    }
    assert(s.to_set() =~= t.to_set());
}

/// A stable sort lists each position once: by rank, and the positions of one rank in their own
/// order.
pub proof fn lemma_sorted_positions<T, V>(
    s: Seq<T>,
    key: spec_fn(T) -> V,
    lt: spec_fn(V, V) -> bool,
) -> (order: Seq<usize>)
    requires
        strict_order(lt),
        s.len() <= usize::MAX,
    ensures
        order.len() == s.len(),
        stable_sort(s, key, lt).len() == s.len(),
        order.no_duplicates(),
        forall|i: int|
            0 <= i < order.len() ==> #[trigger] order[i] < s.len() && stable_sort(s, key, lt)[i]
                == s[order[i] as int],
        forall|i: int, j: int|
            0 <= i < j < order.len() ==> {
                let (a, b) = (#[trigger] order[i], #[trigger] order[j]);
                lt(key(s[a as int]), key(s[b as int])) || (key(s[a as int]) == key(s[b as int]) && a
                    < b)
            },
{
    let ranks = s.map_values(key);
    let order = stable_order(ranks, lt);
    lemma_stable_order(ranks, lt);
    let p = |i: usize, j: usize| precedes(ranks, lt, i, j);
    assert forall|i: int, j: int| 0 <= i < j < order.len() implies {
        let (a, b) = (#[trigger] order[i], #[trigger] order[j]);
        lt(key(s[a as int]), key(s[b as int])) || (key(s[a as int]) == key(s[b as int]) && a < b)
    } by {
        assert(p(order[i], order[j]));
        assert(order[i] < s.len() && order[j] < s.len());
    }
    order
}

/// A list that holds the items of another at positions that are all different and as many as there
/// are items holds the same items equally often.
pub proof fn lemma_rearranged<T>(s: Seq<T>, t: Seq<T>, order: Seq<usize>)
    requires
        order.len() == s.len(),
        t.len() == s.len(),
        order.no_duplicates(),
        forall|i: int|
            0 <= i < order.len() ==> #[trigger] order[i] < s.len() && t[i] == s[order[i] as int],
    ensures
        t.to_multiset() == s.to_multiset(),
    decreases s.len(),
{
    if s.len() == 0 {
        assert(t =~= s);
    } else {
        let last = order.len() - 1;
        let gap = order[last] as int;
        let less = s.remove(gap);
        let front = t.drop_last();
        let moved = Seq::new(
            last as nat,
            |i: int|
                if order[i] < gap {
                    order[i]
                } else {
                    (order[i] - 1) as usize
                },
        );
        assert forall|i: int| 0 <= i < last implies #[trigger] moved[i] < less.len() && front[i]
            == less[moved[i] as int] by {
            assert(order[i] != order[last]);
            assert(order[i] < s.len());
        }
        assert forall|i: int, j: int| 0 <= i < last && 0 <= j < last && i != j implies moved[i]
            != moved[j] by {
            assert(order[i] != order[j]);
            assert(order[i] != order[last] && order[j] != order[last]);
        }
        lemma_rearranged(less, front, moved);
        vstd::seq_lib::to_multiset_remove(s, gap);
        vstd::seq_lib::to_multiset_build(front, t.last());
        assert(front.push(t.last()) =~= t);
        assert(t.last() == s[gap]);
        vstd::seq_lib::to_multiset_contains(s, s[gap]);
        assert(s.contains(s[gap]));
        assert(s.to_multiset().remove(s[gap]).insert(s[gap]) =~= s.to_multiset());
    }
}

} // verus!
