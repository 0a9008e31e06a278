//! The search for functions and nodes by name.
use vstd::hash_set::StringHashSet;
use vstd::prelude::*;
use vstd::string::StringExecFns;

use crate::binary;
use crate::callgraph::NodeKind;
use crate::order;
use crate::server::AppState;
use crate::text;

verus! {

/// How many matches are listed.
pub const MATCH_LIMIT: usize = 50;

/// A name that was found.
pub struct Match {
    pub name: String,
    pub kind: NodeKind,
    pub id: Option<usize>,
    pub address: Option<u64>,
}

/// The values of a [`Match`].
pub struct MatchModel {
    pub name: Seq<char>,
    pub kind: NodeKind,
    pub id: Option<usize>,
    pub address: Option<u64>,
}

impl View for Match {
    type V = MatchModel;

    open spec fn view(&self) -> MatchModel {
        MatchModel { name: self.name@, kind: self.kind, id: self.id, address: self.address }
    }
}

/// The first matches, and how many there are in all.
pub struct SearchResult {
    pub matches: Vec<Match>,
    pub total: usize,
}

/// The values of the matches in a list.
pub open spec fn match_models(list: Seq<Match>) -> Seq<MatchModel> {
    list.map_values(|m: Match| m@)
}

/// What is searched: the functions, and the names and kinds of the nodes.
#[verifier::ext_equal]
pub struct Lexicon {
    pub functions: Seq<binary::FunctionModel>,
    pub names: Seq<Seq<char>>,
    pub kinds: Seq<NodeKind>,
    pub index: Map<Seq<char>, usize>,
}

/// What a state has to search.
pub open spec fn lexicon(state: AppState) -> Lexicon {
    Lexicon {
        functions: binary::function_models(state.functions@),
        names: text::texts(state.names@),
        kinds: state.kinds@,
        index: state.name_to_idx@,
    }
}

/// How a function is listed: with its node, where it has one, and with its address.
pub open spec fn function_match(lexicon: Lexicon, i: int) -> MatchModel {
    let function = lexicon.functions[i];
    let id = if lexicon.index.contains_key(function.name) {
        Some(lexicon.index[function.name])
    } else {
        None
    };
    MatchModel {
        name: function.name,
        kind: match id {
            Some(id) => lexicon.kinds[id as int],
            None => NodeKind::Local,
        },
        id,
        address: Some(function.address),
    }
}

/// How a node is listed.
pub open spec fn node_match(lexicon: Lexicon, i: int) -> MatchModel {
    MatchModel {
        name: lexicon.names[i],
        kind: lexicon.kinds[i],
        id: Some(i as usize),
        address: None,
    }
}

/// What can be found, the functions first: the text that is searched, and how it is listed.
pub open spec fn entries(
    lexicon: Lexicon,
    lower_functions: Seq<Seq<char>>,
    lower_names: Seq<Seq<char>>,
) -> Seq<(Seq<char>, MatchModel)> {
    Seq::new(
        lexicon.functions.len(),
        |i: int| (lower_functions[i], function_match(lexicon, i)),
    ) + Seq::new(lexicon.names.len(), |i: int| (lower_names[i], node_match(lexicon, i)))
}

/// A hit has this name.
pub open spec fn is_listed(hits: Seq<(usize, MatchModel)>, name: Seq<char>) -> bool {
    exists|i: int| 0 <= i < hits.len() && (#[trigger] hits[i]).1.name == name
}

/// The entries in which the needle is found, with the byte at which it is found first; of those
/// with one name only the first.
pub open spec fn hits(
    entries: Seq<(Seq<char>, MatchModel)>,
    needle: Seq<char>,
) -> Seq<(usize, MatchModel)>
    decreases entries.len(),
{
    if entries.len() == 0 {
        Seq::empty()
    } else {
        let rest = hits(entries.drop_last(), needle);
        let (lower, entry) = entries.last();
        match text::find_text(lower, needle) {
            Some(at) => if is_listed(rest, entry.name) {
                rest
            } else {
                rest.push((at as usize, entry))
            },
            None => rest,
        }
    }
}

/// All hits; an empty needle is found nowhere.
pub open spec fn all_hits(
    lexicon: Lexicon,
    needle: Seq<char>,
    lower_functions: Seq<Seq<char>>,
    lower_names: Seq<Seq<char>>,
) -> Seq<(usize, MatchModel)> {
    if needle.len() == 0 {
        Seq::empty()
    } else {
        hits(entries(lexicon, lower_functions, lower_names), needle)
    }
}

/// The hits by where the needle was found, and by name where that is the same.
pub open spec fn ranked(hits: Seq<(usize, MatchModel)>) -> Seq<(usize, MatchModel)> {
    order::stable_sort(
        hits,
        |hit: (usize, MatchModel)| (hit.0, hit.1.name),
        order::rank_lt::<(usize, String)>(),
    )
}

/// The first ones of a list of hits, as matches.
pub open spec fn first_matches(hits: Seq<(usize, MatchModel)>) -> Seq<MatchModel> {
    let n = if hits.len() <= MATCH_LIMIT {
        hits.len() as int
    } else {
        MATCH_LIMIT as int
    };
    hits.take(n).map_values(|hit: (usize, MatchModel)| hit.1)
}

/// The result holds the first of the hits, by their rank, and how many there are.
pub open spec fn answers(result: SearchResult, hits: Seq<(usize, MatchModel)>) -> bool {
    &&& match_models(result.matches@) == first_matches(ranked(hits))
    &&& result.total == hits.len()
}

/// The values of hits.
spec fn hit_models(list: Seq<(usize, Match)>) -> Seq<(usize, MatchModel)> {
    list.map_values(|hit: (usize, Match)| (hit.0, hit.1@))
}

/// Adds an entry to the hits, where the needle is found in it and its name is new.
fn consider(
    found: &mut Vec<(usize, Match)>,
    seen: &mut StringHashSet,
    lower: &str,
    needle: &str,
    entry: Match,
    before: Ghost<Seq<(Seq<char>, MatchModel)>>,
)
    requires
        hit_models(old(found)@) == hits(before@, needle@),
        forall|name: Seq<char>| #[trigger]
            old(seen)@.contains(name) == is_listed(hit_models(old(found)@), name),
    ensures
        hit_models(final(found)@) == hits(before@.push((lower@, entry@)), needle@),
        forall|name: Seq<char>| #[trigger]
            final(seen)@.contains(name) == is_listed(hit_models(final(found)@), name),
{
    let ghost longer = before@.push((lower@, entry@));
    let ghost rest = hit_models(found@);
    assert(longer.drop_last() =~= before@);
    if let Some(at) = text::find(lower, needle) {
        if !seen.contains(entry.name.as_str()) {
            seen.insert(entry.name.clone());
            found.push((at, entry));
            proof {
                let now = rest.push((at, entry@));
                assert(hit_models(found@) =~= now);
                assert forall|name: Seq<char>| #[trigger]
                    seen@.contains(name) == is_listed(now, name) by {
                    assert(now[rest.len() as int].1.name == entry.name@);
                    if is_listed(rest, name) {
                        let i = choose|i: int|
                            0 <= i < rest.len() && (#[trigger] rest[i]).1.name == name;
                        assert(now[i].1.name == name);
                    }
                    if is_listed(now, name) && name != entry.name@ {
                        let i = choose|i: int|
                            0 <= i < now.len() && (#[trigger] now[i]).1.name == name;
                        assert(rest[i].1.name == name);
                    }
                }
            }
        }
    }
}

/// How the function at this position is listed.
fn describe_function(state: &AppState, i: usize) -> (r: Match)
    requires
        state.wf(),
        i < state.functions.len(),
    ensures
        r@ == function_match(lexicon(*state), i as int),
{
    let function = &state.functions[i];
    let id = match state.name_to_idx.get(function.name.as_str()) {
        Some(id) => Some(*id),
        None => None,
    };
    let kind = match id {
        Some(id) => state.kinds[id],
        None => NodeKind::Local,
    };
    Match { name: function.name.clone(), kind, id, address: Some(function.address) }
}

/// The hits in what a state has to search.
fn collect_hits(
    state: &AppState,
    needle: &str,
    lower_functions: &Vec<String>,
    lower_names: &Vec<String>,
) -> (found: Vec<(usize, Match)>)
    requires
        state.wf(),
        lower_functions.len() == state.functions.len(),
        lower_names.len() == state.names.len(),
    ensures
        hit_models(found@) == hits(
            entries(lexicon(*state), text::texts(lower_functions@), text::texts(lower_names@)),
            needle@,
        ),
{
    let ghost all = entries(
        lexicon(*state),
        text::texts(lower_functions@),
        text::texts(lower_names@),
    );
    let ghost nf = state.functions@.len();
    let mut found: Vec<(usize, Match)> = Vec::new();
    let mut seen = StringHashSet::new();
    assert(hit_models(found@) =~= hits(all.take(0), needle@));
    let mut i: usize = 0;
    while i < state.functions.len()
        invariant
            i <= state.functions.len(),
            state.wf(),
            lower_functions.len() == state.functions.len(),
            nf == state.functions@.len(),
            all == entries(
                lexicon(*state),
                text::texts(lower_functions@),
                text::texts(lower_names@),
            ),
            hit_models(found@) == hits(all.take(i as int), needle@),
            forall|name: Seq<char>| #[trigger]
                seen@.contains(name) == is_listed(hit_models(found@), name),
        decreases state.functions.len() - i,
    {
        let entry = describe_function(state, i);
        assert(all.take(i + 1) =~= all.take(i as int).push(
            (lower_functions@[i as int]@, entry@),
        ));
        consider(
            &mut found,
            &mut seen,
            lower_functions[i].as_str(),
            needle,
            entry,
            Ghost(all.take(i as int)),
        );
        i = i + 1;
    }
    let mut j: usize = 0;
    while j < state.names.len()
        invariant
            j <= state.names.len(),
            state.wf(),
            lower_names.len() == state.names.len(),
            nf == state.functions@.len(),
            all == entries(
                lexicon(*state),
                text::texts(lower_functions@),
                text::texts(lower_names@),
            ),
            hit_models(found@) == hits(all.take(nf + j), needle@),
            forall|name: Seq<char>| #[trigger]
                seen@.contains(name) == is_listed(hit_models(found@), name),
        decreases state.names.len() - j,
    {
        let entry = Match {
            name: state.names[j].clone(),
            kind: state.kinds[j],
            id: Some(j),
            address: None,
        };
        assert(all.take(nf + j + 1) =~= all.take(nf + j).push((lower_names@[j as int]@, entry@)));
        consider(
            &mut found,
            &mut seen,
            lower_names[j].as_str(),
            needle,
            entry,
            Ghost(all.take(nf + j)),
        );
        j = j + 1;
    }
    assert(all.take(nf + j) =~= all);
    found
}

/// The first of the hits, by their rank.
fn pick_matches(found: &Vec<(usize, Match)>) -> (r: Vec<Match>)
    ensures
        match_models(r@) == first_matches(ranked(hit_models(found@))),
{
    let ghost all = hit_models(found@);
    let mut keys: Vec<(usize, String)> = Vec::new();
    let ghost key = |hit: (usize, MatchModel)| (hit.0, hit.1.name);
    let mut i: usize = 0;
    while i < found.len()
        invariant
            i <= found.len(),
            keys.len() == i,
            forall|k: int|
                0 <= k < i ==> (#[trigger] keys@[k]).0 == found@[k].0 && keys@[k].1@
                    == found@[k].1.name@,
        decreases found.len() - i,
    {
        keys.push((found[i].0, found[i].1.name.clone()));
        i = i + 1;
    }
    assert(order::ranks(keys@) =~= all.map_values(key));
    let sorted = order::order_by_rank(&keys);
    let ghost at = |i: usize| all[i as int];
    let ghost by_rank = sorted@.map_values(at);
    assert(by_rank == ranked(all));
    let mut matches: Vec<Match> = Vec::new();
    let mut k: usize = 0;
    while k < sorted.len() && k < MATCH_LIMIT
        invariant
            k <= sorted.len(),
            k <= MATCH_LIMIT,
            all == hit_models(found@),
            at == (|i: usize| all[i as int]),
            by_rank == sorted@.map_values(at),
            forall|m: int| 0 <= m < sorted.len() ==> #[trigger] sorted@[m] < found.len(),
            matches.len() == k,
            forall|m: int| 0 <= m < k ==> (#[trigger] matches@[m])@ == by_rank[m].1,
        decreases sorted.len() - k,
    {
        let hit = &found[sorted[k]].1;
        matches.push(
            Match { name: hit.name.clone(), kind: hit.kind, id: hit.id, address: hit.address },
        );
        k = k + 1;
    }
    assert(match_models(matches@) =~= first_matches(by_rank));
    matches
}

/// Searches names that are already in lower case for a needle that is, too. The texts stand for the
/// state's functions and names, in their order.
pub fn search_lowered(
    state: &AppState,
    needle: &str,
    lower_functions: &Vec<String>,
    lower_names: &Vec<String>,
) -> (r: SearchResult)
    requires
        state.wf(),
        lower_functions.len() == state.functions.len(),
        lower_names.len() == state.names.len(),
    ensures
        answers(
            r,
            all_hits(
                lexicon(*state),
                needle@,
                text::texts(lower_functions@),
                text::texts(lower_names@),
            ),
        ),
{
    let found = if needle.is_empty() {
        let none: Vec<(usize, Match)> = Vec::new();
        assert(hit_models(none@) =~= Seq::empty());
        none
    } else {
        collect_hits(state, needle, lower_functions, lower_names)
    };
    SearchResult { matches: pick_matches(&found), total: found.len() }
}

/// The texts in lower case.
pub open spec fn lowered(list: Seq<Seq<char>>) -> Seq<Seq<char>> {
    list.map_values(|s: Seq<char>| text::lowercase(s))
}

/// The names of the functions.
pub open spec fn function_names(functions: Seq<binary::FunctionModel>) -> Seq<Seq<char>> {
    functions.map_values(|f: binary::FunctionModel| f.name)
}

/// The functions and nodes whose names hold the query, whatever the case; no query finds nothing.
pub fn search(state: &AppState, query: Option<&str>) -> (r: SearchResult)
    requires
        state.wf(),
    ensures
        answers(
            r,
            all_hits(
                lexicon(*state),
                match query {
                    Some(query) => text::lowercase(query@),
                    None => Seq::empty(),
                },
                lowered(function_names(binary::function_models(state.functions@))),
                lowered(text::texts(state.names@)),
            ),
        ),
{
    let needle = match query {
        Some(query) => query.to_lowercase(),
        None => String::new(),
    };
    assert(query is None ==> needle@ =~= Seq::empty());
    let mut lower_functions: Vec<String> = Vec::new();
    let mut i: usize = 0;
    while i < state.functions.len()
        invariant
            i <= state.functions.len(),
            lower_functions.len() == i,
            forall|k: int|
                0 <= k < i ==> (#[trigger] lower_functions@[k])@ == text::lowercase(
                    state.functions@[k].name@,
                ),
        decreases state.functions.len() - i,
    {
        lower_functions.push(state.functions[i].name.as_str().to_lowercase());
        i = i + 1;
    }
    let mut lower_names: Vec<String> = Vec::new();
    let mut j: usize = 0;
    while j < state.names.len()
        invariant
            j <= state.names.len(),
            lower_names.len() == j,
            forall|k: int|
                0 <= k < j ==> (#[trigger] lower_names@[k])@ == text::lowercase(state.names@[k]@),
        decreases state.names.len() - j,
    {
        lower_names.push(state.names[j].as_str().to_lowercase());
        j = j + 1;
    }
    assert(text::texts(lower_functions@) =~= lowered(
        function_names(binary::function_models(state.functions@)),
    ));
    assert(text::texts(lower_names@) =~= lowered(text::texts(state.names@)));
    search_lowered(state, needle.as_str(), &lower_functions, &lower_names)
}

/// The hit is what the needle was found in at the entry `k`, with the byte at which it was found.
pub open spec fn comes_from(
    hit: (usize, MatchModel),
    entries: Seq<(Seq<char>, MatchModel)>,
    needle: Seq<char>,
    k: int,
) -> bool {
    &&& 0 <= k < entries.len()
    &&& text::find_text(entries[k].0, needle) is Some
    &&& hit == (text::find_text(entries[k].0, needle)->0 as usize, entries[k].1)
}

/// The hit comes from one of the entries.
pub open spec fn was_found(
    hit: (usize, MatchModel),
    entries: Seq<(Seq<char>, MatchModel)>,
    needle: Seq<char>,
) -> bool {
    exists|k: int| comes_from(hit, entries, needle, k)
}

proof fn lemma_hits_once(entries: Seq<(Seq<char>, MatchModel)>, needle: Seq<char>)
    ensures
        forall|i: int, j: int|
            0 <= i < j < hits(entries, needle).len() ==> (#[trigger] hits(
                entries,
                needle,
            )[i]).1.name != (#[trigger] hits(entries, needle)[j]).1.name,
    decreases entries.len(),
{
    if entries.len() > 0 {
        let rest = hits(entries.drop_last(), needle);
        let all = hits(entries, needle);
        lemma_hits_once(entries.drop_last(), needle);
        assert forall|i: int, j: int| 0 <= i < j < all.len() implies (#[trigger] all[i]).1.name
            != (#[trigger] all[j]).1.name by {
            assert(all[i] == rest[i]);
            if j < rest.len() {
                assert(all[j] == rest[j]);
            } else {
                assert(rest[i].1.name != entries.last().1.name);
            }
        }
    }
}

proof fn lemma_hit_found(entries: Seq<(Seq<char>, MatchModel)>, needle: Seq<char>, i: int)
    requires
        0 <= i < hits(entries, needle).len(),
    ensures
        was_found(hits(entries, needle)[i], entries, needle),
    decreases entries.len(),
{
    let front = entries.drop_last();
    let hit = hits(entries, needle)[i];
    if i < hits(front, needle).len() {
        lemma_hit_found(front, needle, i);
        let k = choose|k: int| comes_from(hits(front, needle)[i], front, needle, k);
        assert(entries[k] == front[k]);
        assert(comes_from(hit, entries, needle, k));
    } else {
        assert(comes_from(hit, entries, needle, entries.len() - 1));
    }
}

proof fn lemma_entry_listed(entries: Seq<(Seq<char>, MatchModel)>, needle: Seq<char>, k: int)
    requires
        0 <= k < entries.len(),
        text::find_text(entries[k].0, needle) is Some,
    ensures
        is_listed(hits(entries, needle), entries[k].1.name),
    decreases entries.len(),
{
    let front = entries.drop_last();
    let rest = hits(front, needle);
    let all = hits(entries, needle);
    let name = entries[k].1.name;
    if k < front.len() {
        assert(front[k] == entries[k]);
        lemma_entry_listed(front, needle, k);
    }
    if is_listed(rest, name) {
        let i = choose|i: int| 0 <= i < rest.len() && (#[trigger] rest[i]).1.name == name;
        assert(all[i].1.name == name);
    } else {
        assert(all[rest.len() as int].1.name == name);
    }
}

/// The hits hold each name once; each of them is an entry in which the needle was found at that
/// byte; and the name of every entry in which the needle is found is among them.
pub proof fn lemma_hits(entries: Seq<(Seq<char>, MatchModel)>, needle: Seq<char>)
    ensures
        forall|i: int, j: int|
            0 <= i < j < hits(entries, needle).len() ==> (#[trigger] hits(
                entries,
                needle,
            )[i]).1.name != (#[trigger] hits(entries, needle)[j]).1.name,
        forall|i: int|
            0 <= i < hits(entries, needle).len() ==> was_found(
                #[trigger] hits(entries, needle)[i],
                entries,
                needle,
            ),
        forall|k: int|
            0 <= k < entries.len() && text::find_text((#[trigger] entries[k]).0, needle) is Some
                ==> is_listed(hits(entries, needle), entries[k].1.name),
{
    lemma_hits_once(entries, needle);
    assert forall|i: int| 0 <= i < hits(entries, needle).len() implies was_found(
        #[trigger] hits(entries, needle)[i],
        entries,
        needle,
    ) by {
        lemma_hit_found(entries, needle, i);
    }
    assert forall|k: int|
        0 <= k < entries.len() && text::find_text(
            (#[trigger] entries[k]).0,
            needle,
        ) is Some implies is_listed(hits(entries, needle), entries[k].1.name) by {
        lemma_entry_listed(entries, needle, k);
    }
}

/// The ranking keeps the hits, and puts none before one whose needle was found earlier, or as early
/// under a lower name.
pub proof fn lemma_ranked(hits: Seq<(usize, MatchModel)>)
    requires
        hits.len() <= usize::MAX,
    ensures
        ranked(hits).len() == hits.len(),
        forall|hit: (usize, MatchModel)| ranked(hits).contains(hit) <==> hits.contains(hit),
        forall|i: int, j: int|
            0 <= i < j < hits.len() ==> !text::hit_lt(
                ((#[trigger] ranked(hits)[j]).0, ranked(hits)[j].1.name),
                ((#[trigger] ranked(hits)[i]).0, ranked(hits)[i].1.name),
            ),
{
    let key = |hit: (usize, MatchModel)| (hit.0, hit.1.name);
    let lt = order::rank_lt::<(usize, String)>();
    <(usize, String) as order::Ranked>::lemma_strict();
    order::lemma_stable_sort(hits, key, lt);
    assert forall|i: int, j: int| 0 <= i < j < hits.len() implies !text::hit_lt(
        ((#[trigger] ranked(hits)[j]).0, ranked(hits)[j].1.name),
        ((#[trigger] ranked(hits)[i]).0, ranked(hits)[i].1.name),
    ) by {
        assert(!lt(key(ranked(hits)[j]), key(ranked(hits)[i])));
    }
}

/// As many matches are listed as there are hits, up to the limit.
pub proof fn lemma_match_count(result: SearchResult, hits: Seq<(usize, MatchModel)>)
    requires
        answers(result, hits),
    ensures
        result.matches.len() <= MATCH_LIMIT,
        result.matches.len() == if result.total <= MATCH_LIMIT {
            result.total
        } else {
            MATCH_LIMIT
        },
{
    lemma_ranked(hits);
    assert(match_models(result.matches@).len() == result.matches.len());
}

/// What can be found are the functions, in their order, and behind them the nodes: a function with
/// its address, its node's number and kind where it has a node, and as a local one where it has
/// none; a node with its number and kind.
pub proof fn lemma_entries(
    lexicon: Lexicon,
    lower_functions: Seq<Seq<char>>,
    lower_names: Seq<Seq<char>>,
    i: int,
)
    ensures
        ({
            let all = entries(lexicon, lower_functions, lower_names);
            let n = lexicon.functions.len();
            &&& all.len() == n + lexicon.names.len()
            &&& 0 <= i < n ==> {
                let f = lexicon.functions[i];
                let found = all[i].1;
                &&& all[i].0 == lower_functions[i]
                &&& found.name == f.name
                &&& found.address == Some(f.address)
                &&& lexicon.index.contains_key(f.name) ==> found.id == Some(lexicon.index[f.name])
                    && found.kind == lexicon.kinds[lexicon.index[f.name] as int]
                &&& !lexicon.index.contains_key(f.name) ==> found.id is None && found.kind
                    == NodeKind::Local
            }
            &&& 0 <= i < lexicon.names.len() ==> {
                let found = all[n + i].1;
                &&& all[n + i].0 == lower_names[i]
                &&& found.name == lexicon.names[i]
                &&& found.kind == lexicon.kinds[i]
                &&& found.id == Some(i as usize)
                &&& found.address is None
            }
        }),
{
}

/// What a state has to search: its functions, its names and kinds, and the numbers of the names.
pub proof fn lemma_lexicon(state: AppState)
    ensures
        lexicon(state).functions == binary::function_models(state.functions@),
        lexicon(state).names == text::texts(state.names@),
        lexicon(state).kinds == state.kinds@,
        lexicon(state).index == state.name_to_idx@,
{
}

/// The needle stands in the text that is searched of the entry `k`.
pub open spec fn holds_needle(
    entries: Seq<(Seq<char>, MatchModel)>,
    needle: Seq<char>,
    k: int,
) -> bool {
    0 <= k < entries.len() && exists|at: int| text::stands_at(entries[k].0, needle, at)
}

/// Of the entries of one name in which the needle stands the first one is listed, with the byte at
/// which the needle first stands in it; the hits are in the order of the entries.
pub proof fn lemma_first_entry_listed(
    entries: Seq<(Seq<char>, MatchModel)>,
    needle: Seq<char>,
    k: int,
)
    requires
        holds_needle(entries, needle, k),
        forall|j: int|
            0 <= j < k && #[trigger] holds_needle(entries, needle, j) ==> entries[j].1.name
                != entries[k].1.name,
    ensures
        hits(entries, needle).contains(
            (text::find_text(entries[k].0, needle)->0 as usize, entries[k].1),
        ),
    decreases entries.len(),
{
    let front = entries.drop_last();
    let rest = hits(front, needle);
    let all = hits(entries, needle);
    let hit = (text::find_text(entries[k].0, needle)->0 as usize, entries[k].1);
    text::lemma_found_first(entries[k].0, needle);
    if k < front.len() {
        assert(front[k] == entries[k]);
        assert(holds_needle(front, needle, k));
        assert forall|j: int|
            0 <= j < k && #[trigger] holds_needle(front, needle, j) implies front[j].1.name
            != front[k].1.name by {
            assert(front[j] == entries[j]);
            assert(holds_needle(entries, needle, j));
        }
        lemma_first_entry_listed(front, needle, k);
        let i = choose|i: int| 0 <= i < rest.len() && rest[i] == hit;
        assert(all[i] == hit);
    } else {
        if is_listed(rest, entries[k].1.name) {
            let i = choose|i: int|
                0 <= i < rest.len() && (#[trigger] rest[i]).1.name == entries[k].1.name;
            lemma_hit_found(front, needle, i);
            let j = choose|j: int| comes_from(rest[i], front, needle, j);
            assert(front[j] == entries[j]);
            text::lemma_found_first(entries[j].0, needle);
            assert(holds_needle(entries, needle, j));
        }
        assert(all[rest.len() as int] == hit);
    }
}

/// A hit stands for an entry of its name in which the needle stands, and no two hits share a name.
pub proof fn lemma_hit_holds_needle(
    entries: Seq<(Seq<char>, MatchModel)>,
    needle: Seq<char>,
    i: int,
)
    requires
        0 <= i < hits(entries, needle).len(),
    ensures
        exists|k: int| #[trigger]
            holds_needle(entries, needle, k) && entries[k].1 == hits(entries, needle)[i].1,
        forall|j: int|
            0 <= j < hits(entries, needle).len() && j != i ==> (#[trigger] hits(
                entries,
                needle,
            )[j]).1.name != hits(entries, needle)[i].1.name,
{
    lemma_hit_found(entries, needle, i);
    let k = choose|k: int| comes_from(hits(entries, needle)[i], entries, needle, k);
    text::lemma_found_first(entries[k].0, needle);
    assert(holds_needle(entries, needle, k));
    lemma_hits_once(entries, needle);
    assert forall|j: int| 0 <= j < hits(entries, needle).len() && j != i implies (#[trigger] hits(
        entries,
        needle,
    )[j]).1.name != hits(entries, needle)[i].1.name by {
        if j < i {
            assert(hits(entries, needle)[j].1.name != hits(entries, needle)[i].1.name);
        } else {
            assert(hits(entries, needle)[i].1.name != hits(entries, needle)[j].1.name);
        }
    }
}

/// An empty needle finds nothing; any other is looked for in all that can be found.
pub proof fn lemma_empty_needle(
    lexicon: Lexicon,
    needle: Seq<char>,
    lower_functions: Seq<Seq<char>>,
    lower_names: Seq<Seq<char>>,
)
    ensures
        needle.len() == 0 ==> all_hits(lexicon, needle, lower_functions, lower_names) == Seq::<
            (usize, MatchModel),
        >::empty(),
        needle.len() > 0 ==> all_hits(lexicon, needle, lower_functions, lower_names) == hits(
            entries(lexicon, lower_functions, lower_names),
            needle,
        ),
{
}

/// An answer counts all hits and lists the first fifty of them: by the byte at which the needle
/// was found, and by name where that is the same. A hit that is left out comes behind all fifty.
pub proof fn lemma_answer(result: SearchResult, hits: Seq<(usize, MatchModel)>)
    requires
        answers(result, hits),
    ensures
        ({
            let matches = match_models(result.matches@);
            &&& result.total == hits.len()
            &&& result.matches.len() == if hits.len() < 50 {
                hits.len()
            } else {
                50
            }
            &&& exists|listed: Seq<(usize, MatchModel)>|
                {
                    &&& listed.len() == hits.len()
                    &&& listed.to_multiset() == hits.to_multiset()
                    &&& #[trigger] ranks_ascend(listed)
                    &&& forall|i: int|
                        0 <= i < matches.len() ==> #[trigger] matches[i] == listed[i].1
                }
        }),
{
    let listed = ranked(hits);
    let matches = match_models(result.matches@);
    lemma_ranked(hits);
    assert(matches.len() == result.matches.len());
    lemma_ranked_same(hits);
    assert(ranks_ascend(listed)) by {
        assert forall|i: int, j: int| 0 <= i < j < listed.len() implies (#[trigger] listed[i]).0 < (
        #[trigger] listed[j]).0 || (listed[i].0 == listed[j].0 && !exists|k: int|
            text::differs_at(listed[j].1.name, listed[i].1.name, k)) by {
            text::lemma_text_before(listed[j].1.name, listed[i].1.name);
            assert(!text::hit_lt(
                (listed[j].0, listed[j].1.name),
                (listed[i].0, listed[i].1.name),
            ));
        }
    }
    assert forall|i: int| 0 <= i < matches.len() implies #[trigger] matches[i] == listed[i].1 by {}
}

/// The hits are listed by the byte at which the needle was found, and none before one of a lower
/// name for which that is the same.
pub open spec fn ranks_ascend(hits: Seq<(usize, MatchModel)>) -> bool {
    forall|i: int, j: int|
        0 <= i < j < hits.len() ==> (#[trigger] hits[i]).0 < (#[trigger] hits[j]).0 || (hits[i].0
            == hits[j].0 && !exists|k: int|
            text::differs_at(hits[j].1.name, hits[i].1.name, k))
}

proof fn lemma_ranked_same(hits: Seq<(usize, MatchModel)>)
    requires
        hits.len() <= usize::MAX,
    ensures
        ranked(hits).to_multiset() == hits.to_multiset(),
{
    let key = |hit: (usize, MatchModel)| (hit.0, hit.1.name);
    let lt = order::rank_lt::<(usize, String)>();
    <(usize, String) as order::Ranked>::lemma_strict();
    let order = order::lemma_sorted_positions(hits, key, lt);
    order::lemma_rearranged(hits, ranked(hits), order);
}

/// The texts that are searched are the names, each in lower case.
pub proof fn lemma_lowered(functions: Seq<binary::FunctionModel>, names: Seq<Seq<char>>, i: int)
    ensures
        lowered(function_names(functions)).len() == functions.len(),
        lowered(names).len() == names.len(),
        0 <= i < functions.len() ==> lowered(function_names(functions))[i] == text::lowercase(
            functions[i].name,
        ),
        0 <= i < names.len() ==> lowered(names)[i] == text::lowercase(names[i]),
{
}

} // verus!
