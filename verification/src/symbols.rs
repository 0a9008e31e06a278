//! The addresses of a program: which function an address lies in, and where nodes are entered.
use std::collections::HashMap;
use vstd::hash_map::StringHashMap;
use vstd::prelude::*;

use crate::binary;
use crate::binary::Function;
use crate::order;
use crate::tables;
use crate::text;

verus! {

broadcast use vstd::std_specs::hash::group_hash_axioms;

/// The addresses of one function: from `start` to before `end`.
#[derive(Clone, Copy)]
pub struct Range {
    pub start: u64,
    pub end: u64,
    pub node: usize,
}

/// The nodes at the addresses of a program, as its file states them.
pub struct Symbols {
    ranges: Vec<Range>,
    stubs: HashMap<u64, usize>,
}

/// The values of [`Symbols`]: the ranges by their starts, and the nodes of the stubs.
#[verifier::ext_equal]
pub struct SymbolsModel {
    pub ranges: Seq<Range>,
    pub stubs: Map<u64, usize>,
}

impl View for Symbols {
    type V = SymbolsModel;

    closed spec fn view(&self) -> SymbolsModel {
        SymbolsModel { ranges: self.ranges@, stubs: self.stubs@ }
    }
}

/// Each range starts behind the one before it.
pub open spec fn starts_ascend(ranges: Seq<Range>) -> bool {
    forall|i: int, j: int|
        0 <= i < j < ranges.len() ==> (#[trigger] ranges[i]).start < (#[trigger] ranges[j]).start
}

/// No end address of a function that has a node overflows.
pub open spec fn ends_fit(
    functions: Seq<binary::FunctionModel>,
    name_to_idx: Map<Seq<char>, usize>,
) -> bool {
    forall|i: int|
        0 <= i < functions.len() && name_to_idx.contains_key((#[trigger] functions[i]).name)
            ==> functions[i].address + functions[i].size <= u64::MAX
}

/// The range of each function that has a node, by its start; of two at one address the last one's.
pub open spec fn function_ranges(
    functions: Seq<binary::FunctionModel>,
    name_to_idx: Map<Seq<char>, usize>,
) -> Map<u64, Range>
    decreases functions.len(),
{
    if functions.len() == 0 {
        Map::empty()
    } else {
        let rest = function_ranges(functions.drop_last(), name_to_idx);
        let f = functions.last();
        if name_to_idx.contains_key(f.name) {
            rest.insert(
                f.address,
                Range {
                    start: f.address,
                    end: (f.address + f.size) as u64,
                    node: name_to_idx[f.name],
                },
            )
        } else {
            rest
        }
    }
}

/// The ranges are those of the map, each once, by their starts.
pub open spec fn lists_ranges(ranges: Seq<Range>, by_start: Map<u64, Range>) -> bool {
    &&& starts_ascend(ranges)
    &&& forall|i: int|
        0 <= i < ranges.len() ==> by_start.contains_key((#[trigger] ranges[i]).start)
            && by_start[ranges[i].start] == ranges[i]
    &&& forall|start: u64| #[trigger]
        by_start.contains_key(start) ==> exists|i: int|
            0 <= i < ranges.len() && (#[trigger] ranges[i]).start == start
}

/// The node of each stub whose name has one.
pub open spec fn stub_nodes(
    plt_names: Map<u64, Seq<char>>,
    name_to_idx: Map<Seq<char>, usize>,
) -> Map<u64, usize> {
    Map::new(
        |address: u64| plt_names.contains_key(address) && name_to_idx.contains_key(
            plt_names[address],
        ),
        |address: u64| name_to_idx[plt_names[address]],
    )
}

/// The last range that starts at or before the address.
pub open spec fn range_before(ranges: Seq<Range>, address: u64) -> Option<Range>
    decreases ranges.len(),
{
    if ranges.len() == 0 {
        None
    } else if ranges.last().start <= address {
        Some(ranges.last())
    } else {
        range_before(ranges.drop_last(), address)
    }
}

/// The node of the function that the address lies in.
pub open spec fn node_of(ranges: Seq<Range>, address: u64) -> Option<usize> {
    match range_before(ranges, address) {
        Some(range) => if address < range.end {
            Some(range.node)
        } else {
            None
        },
        None => None,
    }
}

proof fn lemma_range_before(ranges: Seq<Range>, address: u64, k: int)
    requires
        starts_ascend(ranges),
        0 <= k <= ranges.len(),
        forall|i: int| 0 <= i < k ==> (#[trigger] ranges[i]).start <= address,
        forall|i: int| k <= i < ranges.len() ==> (#[trigger] ranges[i]).start > address,
    ensures
        range_before(ranges, address) == if k > 0 {
            Some(ranges[k - 1])
        } else {
            None
        },
    decreases ranges.len(),
{
    if ranges.len() > 0 && k < ranges.len() {
        assert(ranges.last().start > address);
        lemma_range_before(ranges.drop_last(), address, k);
    }
}

/// The ranges of the functions that have a node, by their starts.
fn collect_ranges(functions: &[Function], name_to_idx: &StringHashMap<usize>) -> (r: HashMap<
    u64,
    Range,
>)
    requires
        ends_fit(binary::function_models(functions@), name_to_idx@),
    ensures
        r@ == function_ranges(binary::function_models(functions@), name_to_idx@),
{
    let mut by_start: HashMap<u64, Range> = HashMap::new();
    let ghost all = binary::function_models(functions@);
    let mut i: usize = 0;
    assert(by_start@ =~= function_ranges(all.take(0), name_to_idx@));
    while i < functions.len()
        invariant
            i <= functions@.len(),
            all == binary::function_models(functions@),
            ends_fit(all, name_to_idx@),
            by_start@ == function_ranges(all.take(i as int), name_to_idx@),
        decreases functions@.len() - i,
    {
        let function = &functions[i];
        proof {
            assert(all[i as int] == function@);
            assert(all.take(i + 1).drop_last() =~= all.take(i as int));
            assert(all.take(i + 1).last() == functions@[i as int]@);
        }
        if let Some(node) = name_to_idx.get(function.name.as_str()) {
            by_start.insert(
                function.address,
                Range {
                    start: function.address,
                    end: function.address + function.size,
                    node: *node,
                },
            );
        }
        i = i + 1;
    }
    assert(all.take(i as int) =~= all);
    by_start
}

proof fn lemma_function_ranges_starts(
    functions: Seq<binary::FunctionModel>,
    name_to_idx: Map<Seq<char>, usize>,
)
    ensures
        forall|start: u64| #[trigger]
            function_ranges(functions, name_to_idx).contains_key(start) ==> function_ranges(
                functions,
                name_to_idx,
            )[start].start == start,
    decreases functions.len(),
{
    if functions.len() > 0 {
        let rest = function_ranges(functions.drop_last(), name_to_idx);
        lemma_function_ranges_starts(functions.drop_last(), name_to_idx);
        assert forall|start: u64| #[trigger]
            function_ranges(functions, name_to_idx).contains_key(start) implies function_ranges(
            functions,
            name_to_idx,
        )[start].start == start by {
            if start != functions.last().address {
                assert(rest.contains_key(start));
            }
        }
    }
}

/// The ranges of a map, by their starts.
fn sort_ranges(by_start: &HashMap<u64, Range>) -> (ranges: Vec<Range>)
    requires
        forall|start: u64| #[trigger]
            by_start@.contains_key(start) ==> by_start@[start].start == start,
    ensures
        lists_ranges(ranges@, by_start@),
{
    let keys = tables::keys_u64(by_start);
    let order = order::distinct_by_rank(&keys);
    let ghost at = |i: usize| keys[i as int];
    let ghost sorted = order@.map_values(at);
    proof {
        use_u64_order();
        assert(order::ranks(keys@) =~= keys@);
        assert(sorted =~= order@.map_values(|i: usize| order::Ranked::rank(&keys[i as int])));
        order::lemma_sorted_distinct(keys@, order::rank_lt::<u64>());
    }
    let mut ranges: Vec<Range> = Vec::new();
    let mut i: usize = 0;
    while i < order.len()
        invariant
            i <= order.len(),
            at == (|i: usize| keys[i as int]),
            sorted == order@.map_values(at),
            keys@.to_set() == by_start@.dom(),
            forall|k: int| 0 <= k < order.len() ==> #[trigger] order[k] < keys.len(),
            ranges.len() == i,
            forall|start: u64| #[trigger]
                by_start@.contains_key(start) ==> by_start@[start].start == start,
            forall|k: int|
                0 <= k < i ==> by_start@.contains_key(sorted[k]) && (#[trigger] ranges@[k])
                    == by_start@[sorted[k]],
        decreases order.len() - i,
    {
        let key = keys[order[i]];
        assert(keys@.to_set().contains(key));
        assert(sorted[i as int] == key);
        match by_start.get(&key) {
            Some(range) => ranges.push(*range),
            None => {
                assert(false);
            },
        }
        i = i + 1;
    }
    proof {
        assert forall|start: u64| #[trigger] by_start@.contains_key(start) implies exists|i: int|
            0 <= i < ranges.len() && (#[trigger] ranges@[i]).start == start by {
            assert(keys@.to_set().contains(start));
            assert(sorted.to_set().contains(start));
            let k = choose|k: int| 0 <= k < sorted.len() && sorted[k] == start;
            assert(ranges@[k].start == start);
        }
        assert forall|i: int, j: int| 0 <= i < j < ranges.len() implies (
        #[trigger] ranges@[i]).start < (#[trigger] ranges@[j]).start by {
            let lt = order::rank_lt::<u64>();
            assert(lt(sorted[i], sorted[j]));
        }
    }
    ranges
}

proof fn use_u64_order()
    ensures
        order::strict_order(order::rank_lt::<u64>()),
{
    <u64 as order::Ranked>::lemma_strict();
}

/// The nodes of the stubs.
fn collect_stubs(plt_names: &HashMap<u64, String>, name_to_idx: &StringHashMap<usize>) -> (r:
    HashMap<u64, usize>)
    ensures
        r@ == stub_nodes(text::text_map(plt_names@), name_to_idx@),
{
    let ghost names = text::text_map(plt_names@);
    let ghost want = stub_nodes(names, name_to_idx@);
    let mut stubs: HashMap<u64, usize> = HashMap::new();
    let keys = tables::keys_u64(plt_names);
    let mut i: usize = 0;
    while i < keys.len()
        invariant
            i <= keys.len(),
            keys@.to_set() == plt_names@.dom(),
            names == text::text_map(plt_names@),
            want == stub_nodes(names, name_to_idx@),
            forall|address: u64| #[trigger]
                stubs@.contains_key(address) <==> want.contains_key(address) && keys@.take(
                    i as int,
                ).contains(address),
            forall|address: u64| #[trigger]
                stubs@.contains_key(address) ==> stubs@[address] == want[address],
        decreases keys.len() - i,
    {
        let address = keys[i];
        assert(keys@.to_set().contains(address));
        let ghost done = keys@.take(i as int);
        assert(keys@.take(i + 1) =~= done.push(address));
        proof {
            order::lemma_push_set(done, address);
        }
        if let Some(name) = plt_names.get(&address) {
            if let Some(node) = name_to_idx.get(name.as_str()) {
                stubs.insert(address, *node);
            }
        }
        i = i + 1;
        assert forall|k: u64| #[trigger]
            stubs@.contains_key(k) <==> want.contains_key(k) && keys@.take(i as int).contains(k) by {
            assert(done.push(address).contains(k) <==> done.push(address).to_set().contains(k));
            assert(done.contains(k) <==> done.to_set().contains(k));
        }
    }
    proof {
        assert(keys@.take(i as int) =~= keys@);
        assert forall|k: u64| want.contains_key(k) implies keys@.contains(k) by {
            assert(keys@.to_set().contains(k));
        }
        assert(stubs@ =~= want);
    }
    stubs
}

impl Symbols {
    /// The ranges are listed by their starts.
    pub open spec fn wf(&self) -> bool {
        starts_ascend(self@.ranges)
    }

    pub fn new(
        functions: &[Function],
        plt_names: &HashMap<u64, String>,
        name_to_idx: &StringHashMap<usize>,
    ) -> (r: Self)
        requires
            ends_fit(binary::function_models(functions@), name_to_idx@),
        ensures
            r.wf(),
            lists_ranges(
                r@.ranges,
                function_ranges(binary::function_models(functions@), name_to_idx@),
            ),
            r@.stubs == stub_nodes(text::text_map(plt_names@), name_to_idx@),
    {
        let by_start = collect_ranges(functions, name_to_idx);
        proof {
            lemma_function_ranges_starts(binary::function_models(functions@), name_to_idx@);
        }
        let ranges = sort_ranges(&by_start);
        let stubs = collect_stubs(plt_names, name_to_idx);
        Symbols { ranges, stubs }
    }

    /// Like [`Symbols::new`], on any functions: `None` where the end of a function that has a node
    /// overflows.
    pub fn try_new(
        functions: &[Function],
        plt_names: &HashMap<u64, String>,
        name_to_idx: &StringHashMap<usize>,
    ) -> (r: Option<Self>)
        ensures
            match r {
                Some(symbols) => {
                    &&& symbols.wf()
                    &&& ends_fit(binary::function_models(functions@), name_to_idx@)
                    &&& lists_ranges(
                        symbols@.ranges,
                        function_ranges(binary::function_models(functions@), name_to_idx@),
                    )
                    &&& symbols@.stubs == stub_nodes(text::text_map(plt_names@), name_to_idx@)
                },
                None => !ends_fit(binary::function_models(functions@), name_to_idx@),
            },
    {
        let ghost all = binary::function_models(functions@);
        let mut i: usize = 0;
        while i < functions.len()
            invariant
                i <= functions@.len(),
                all == binary::function_models(functions@),
                forall|k: int|
                    0 <= k < i && name_to_idx@.contains_key((#[trigger] all[k]).name)
                        ==> all[k].address + all[k].size <= u64::MAX,
            decreases functions@.len() - i,
        {
            let function = &functions[i];
            assert(all[i as int] == function@);
            if function.size > u64::MAX - function.address && name_to_idx.contains_key(
                function.name.as_str(),
            ) {
                return None;
            }
            i = i + 1;
        }
        Some(Symbols::new(functions, plt_names, name_to_idx))
    }

    /// The addresses at which the nodes are entered: the starts of the ranges in their order, then
    /// the stubs in no particular order.
    pub fn entries(&self) -> (r: Vec<(u64, usize)>)
        ensures
            r.len() >= self@.ranges.len(),
            forall|i: int|
                0 <= i < self@.ranges.len() ==> #[trigger] r@[i] == (
                    self@.ranges[i].start,
                    self@.ranges[i].node,
                ),
            forall|i: int|
                self@.ranges.len() <= i < r.len() ==> self@.stubs.contains_key((#[trigger] r@[i]).0)
                    && self@.stubs[r@[i].0] == r@[i].1,
            forall|i: int, j: int|
                self@.ranges.len() <= i < j < r.len() ==> (#[trigger] r@[i]).0 != (
                #[trigger] r@[j]).0,
            forall|address: u64| #[trigger]
                self@.stubs.contains_key(address) ==> exists|i: int|
                    self@.ranges.len() <= i < r.len() && (#[trigger] r@[i]).0 == address,
    {
        let mut out: Vec<(u64, usize)> = Vec::new();
        let mut i: usize = 0;
        while i < self.ranges.len()
            invariant
                i <= self.ranges.len(),
                out.len() == i,
                forall|k: int|
                    0 <= k < i ==> #[trigger] out@[k] == (
                        self.ranges@[k].start,
                        self.ranges@[k].node,
                    ),
            decreases self.ranges.len() - i,
        {
            out.push((self.ranges[i].start, self.ranges[i].node));
            i = i + 1;
        }
        let keys = tables::keys_u64(&self.stubs);
        let ghost n = self.ranges@.len();
        let mut j: usize = 0;
        while j < keys.len()
            invariant
                j <= keys.len(),
                n == self.ranges@.len(),
                out.len() == n + j,
                keys@.no_duplicates(),
                keys@.to_set() == self.stubs@.dom(),
                forall|k: int|
                    0 <= k < n ==> #[trigger] out@[k] == (
                        self.ranges@[k].start,
                        self.ranges@[k].node,
                    ),
                forall|k: int|
                    n <= k < out.len() ==> (#[trigger] out@[k]).0 == keys@[k - n]
                        && self.stubs@.contains_key(out@[k].0) && self.stubs@[out@[k].0]
                        == out@[k].1,
            decreases keys.len() - j,
        {
            let address = keys[j];
            assert(keys@.to_set().contains(address));
            match self.stubs.get(&address) {
                Some(node) => out.push((address, *node)),
                None => {
                    assert(false);
                },
            }
            j = j + 1;
        }
        proof {
            assert forall|address: u64| #[trigger]
                self.stubs@.contains_key(address) implies exists|i: int|
                n <= i < out.len() && (#[trigger] out@[i]).0 == address by {
                assert(keys@.to_set().contains(address));
                let k = choose|k: int| 0 <= k < keys@.len() && keys@[k] == address;
                assert(out@[n + k].0 == address);
            }
        }
        out
    }

    /// The node of the function that the address lies in.
    pub fn node_at(&self, address: u64) -> (r: Option<usize>)
        requires
            self.wf(),
        ensures
            r == node_of(self@.ranges, address),
    {
        let mut lo: usize = 0;
        let mut hi: usize = self.ranges.len();
        while lo < hi
            invariant
                lo <= hi <= self.ranges.len(),
                starts_ascend(self.ranges@),
                forall|i: int| 0 <= i < lo ==> (#[trigger] self.ranges@[i]).start <= address,
                forall|i: int|
                    hi <= i < self.ranges@.len() ==> (#[trigger] self.ranges@[i]).start > address,
            decreases hi - lo,
        {
            let mid: usize = lo + (hi - lo) / 2;
            if self.ranges[mid].start <= address {
                lo = mid + 1;
            } else {
                hi = mid;
            }
        }
        proof {
            lemma_range_before(self.ranges@, address, lo as int);
        }
        if lo == 0 {
            return None;
        }
        let range = &self.ranges[lo - 1];
        if address < range.end {
            Some(range.node)
        } else {
            None
        }
    }
}

/// An address has the node of a range exactly when it lies in that range and no later range starts
/// at or before it.
pub proof fn lemma_node_of(ranges: Seq<Range>, address: u64, node: usize)
    requires
        starts_ascend(ranges),
    ensures
        node_of(ranges, address) == Some(node) <==> exists|i: int|
            {
                &&& 0 <= i < ranges.len()
                &&& (#[trigger] ranges[i]).start <= address < ranges[i].end
                &&& ranges[i].node == node
                &&& i + 1 < ranges.len() ==> address < ranges[i + 1].start
            },
    decreases ranges.len(),
{
    if ranges.len() > 0 {
        if ranges.last().start <= address {
            if node_of(ranges, address) == Some(node) {
                assert(ranges[ranges.len() - 1].start <= address < ranges[ranges.len() - 1].end);
            }
            if exists|i: int|
                {
                    &&& 0 <= i < ranges.len()
                    &&& (#[trigger] ranges[i]).start <= address < ranges[i].end
                    &&& ranges[i].node == node
                    &&& i + 1 < ranges.len() ==> address < ranges[i + 1].start
                } {
                let i = choose|i: int|
                    {
                        &&& 0 <= i < ranges.len()
                        &&& (#[trigger] ranges[i]).start <= address < ranges[i].end
                        &&& ranges[i].node == node
                        &&& i + 1 < ranges.len() ==> address < ranges[i + 1].start
                    };
                if i + 1 < ranges.len() {
                    if i + 1 < ranges.len() - 1 {
                        assert(ranges[i + 1].start < ranges[ranges.len() - 1].start);
                    }
                }
            }
        } else {
            let front = ranges.drop_last();
            lemma_node_of(front, address, node);
            if node_of(ranges, address) == Some(node) {
                let i = choose|i: int|
                    {
                        &&& 0 <= i < front.len()
                        &&& (#[trigger] front[i]).start <= address < front[i].end
                        &&& front[i].node == node
                        &&& i + 1 < front.len() ==> address < front[i + 1].start
                    };
                assert(ranges[i].start <= address < ranges[i].end);
            }
            if exists|i: int|
                {
                    &&& 0 <= i < ranges.len()
                    &&& (#[trigger] ranges[i]).start <= address < ranges[i].end
                    &&& ranges[i].node == node
                    &&& i + 1 < ranges.len() ==> address < ranges[i + 1].start
                } {
                let i = choose|i: int|
                    {
                        &&& 0 <= i < ranges.len()
                        &&& (#[trigger] ranges[i]).start <= address < ranges[i].end
                        &&& ranges[i].node == node
                        &&& i + 1 < ranges.len() ==> address < ranges[i + 1].start
                    };
                assert(front[i].start <= address < front[i].end);
            }
        }
    }
}

/// Of two functions at one address the last one that has a node has the range.
pub proof fn lemma_last_function_wins(
    functions: Seq<binary::FunctionModel>,
    name_to_idx: Map<Seq<char>, usize>,
    i: int,
)
    requires
        0 <= i < functions.len(),
        name_to_idx.contains_key(functions[i].name),
        forall|j: int|
            i < j < functions.len() && (#[trigger] functions[j]).address == functions[i].address
                ==> !name_to_idx.contains_key(functions[j].name),
    ensures
        function_ranges(functions, name_to_idx).contains_key(functions[i].address),
        function_ranges(functions, name_to_idx)[functions[i].address] == (Range {
            start: functions[i].address,
            end: (functions[i].address + functions[i].size) as u64,
            node: name_to_idx[functions[i].name],
        }),
    decreases functions.len(),
{
    let last = functions.last();
    if i < functions.len() - 1 {
        let front = functions.drop_last();
        assert forall|j: int|
            i < j < front.len() && (#[trigger] front[j]).address == front[i].address implies
            !name_to_idx.contains_key(front[j].name) by {
            assert(functions[j].address == functions[i].address);
        }
        lemma_last_function_wins(front, name_to_idx, i);
        if last.address == functions[i].address {
            assert(functions[functions.len() - 1].address == functions[i].address);
        }
    }
}

/// A run takes an address for the same function as the call graph does: where several functions
/// stand there, for the last one.
pub proof fn lemma_same_function_as_graph(
    functions: Seq<binary::FunctionModel>,
    name_to_idx: Map<Seq<char>, usize>,
    i: int,
)
    requires
        0 <= i < functions.len(),
        forall|j: int|
            i < j < functions.len() ==> (#[trigger] functions[j]).address != functions[i].address,
        name_to_idx.contains_key(functions[i].name),
    ensures
        binary::name_index(functions)[functions[i].address] == functions[i].name,
        function_ranges(functions, name_to_idx)[functions[i].address].node
            == name_to_idx[functions[i].name],
{
    binary::lemma_last_name_wins(functions, i);
    lemma_last_function_wins(functions, name_to_idx, i);
}

/// A range starts at an address exactly where a function that has a node stands there, and it is
/// that of the last such function.
pub proof fn lemma_ranges_of_functions(
    functions: Seq<binary::FunctionModel>,
    name_to_idx: Map<Seq<char>, usize>,
    start: u64,
)
    ensures
        function_ranges(functions, name_to_idx).contains_key(start) <==> exists|i: int|
            0 <= i < functions.len() && (#[trigger] functions[i]).address == start
                && name_to_idx.contains_key(functions[i].name),
    decreases functions.len(),
{
    if functions.len() > 0 {
        let front = functions.drop_last();
        let last = functions.len() - 1;
        lemma_ranges_of_functions(front, name_to_idx, start);
        assert(functions[last] == functions.last());
        if exists|i: int|
            0 <= i < front.len() && (#[trigger] front[i]).address == start
                && name_to_idx.contains_key(front[i].name) {
            let i = choose|i: int|
                0 <= i < front.len() && (#[trigger] front[i]).address == start
                    && name_to_idx.contains_key(front[i].name);
            assert(functions[i] == front[i]);
        }
        if exists|i: int|
            0 <= i < functions.len() && (#[trigger] functions[i]).address == start
                && name_to_idx.contains_key(functions[i].name) {
            let i = choose|i: int|
                0 <= i < functions.len() && (#[trigger] functions[i]).address == start
                    && name_to_idx.contains_key(functions[i].name);
            if i < last {
                assert(front[i] == functions[i]);
            }
        }
    }
}

/// A stub is entered for a node exactly where its name has one.
pub proof fn lemma_stub_nodes(
    plt_names: Map<u64, Seq<char>>,
    name_to_idx: Map<Seq<char>, usize>,
    address: u64,
)
    ensures
        stub_nodes(plt_names, name_to_idx).contains_key(address) <==> plt_names.contains_key(
            address,
        ) && name_to_idx.contains_key(plt_names[address]),
        stub_nodes(plt_names, name_to_idx).contains_key(address) ==> stub_nodes(
            plt_names,
            name_to_idx,
        )[address] == name_to_idx[plt_names[address]],
{
}

/// An address inside a function that has a node, with no other such function starting between the
/// function's start and the address, has that function's node.
pub proof fn lemma_address_in_function(
    ranges: Seq<Range>,
    functions: Seq<binary::FunctionModel>,
    name_to_idx: Map<Seq<char>, usize>,
    i: int,
    address: u64,
)
    requires
        lists_ranges(ranges, function_ranges(functions, name_to_idx)),
        0 <= i < functions.len(),
        name_to_idx.contains_key(functions[i].name),
        functions[i].address + functions[i].size <= u64::MAX,
        functions[i].address <= address < functions[i].address + functions[i].size,
        forall|j: int|
            0 <= j < functions.len() && name_to_idx.contains_key((#[trigger] functions[j]).name)
                && j != i ==> functions[j].address < functions[i].address || functions[j].address
                > address || (functions[j].address == functions[i].address && j < i),
    ensures
        node_of(ranges, address) == Some(name_to_idx[functions[i].name]),
{
    let by_start = function_ranges(functions, name_to_idx);
    let start = functions[i].address;
    assert forall|j: int|
        i < j < functions.len() && (#[trigger] functions[j]).address == start implies
        !name_to_idx.contains_key(functions[j].name) by {}
    lemma_last_function_wins(functions, name_to_idx, i);
    let k = choose|k: int| 0 <= k < ranges.len() && (#[trigger] ranges[k]).start == start;
    assert(by_start[ranges[k].start] == ranges[k]);
    if k + 1 < ranges.len() {
        let next = ranges[k + 1].start;
        assert(ranges[k].start < next);
        assert(by_start.contains_key(ranges[k + 1].start));
        lemma_ranges_of_functions(functions, name_to_idx, next);
        let j = choose|j: int|
            0 <= j < functions.len() && (#[trigger] functions[j]).address == next
                && name_to_idx.contains_key(functions[j].name);
        assert(functions[j].address > address);
    }
    lemma_node_of(ranges, address, name_to_idx[functions[i].name]);
}

/// The symbols of a program can be laid out exactly where the end of every function that has a node
/// is an address.
pub proof fn lemma_ends_fit(
    functions: Seq<binary::FunctionModel>,
    name_to_idx: Map<Seq<char>, usize>,
)
    ensures
        ends_fit(functions, name_to_idx) <==> forall|i: int|
            0 <= i < functions.len() && (#[trigger] functions[i]).address + functions[i].size
                > u64::MAX ==> !name_to_idx.contains_key(functions[i].name),
{
}

} // verus!
