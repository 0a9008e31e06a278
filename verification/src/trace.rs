//! Traced runs: what a run has hit, how it ended, and what is handed to and taken from the traced
//! process.
use std::collections::HashMap;
use vstd::prelude::*;
use vstd::string::StringExecFns;

use crate::bytes;
use crate::hits;
use crate::hits::EdgeHits;
use crate::image;
use crate::order;
use crate::symbols::Symbols;
use crate::tables;
use crate::text;

verus! {

broadcast use vstd::std_specs::hash::group_hash_axioms;

/// How long a run may take, in seconds.
pub const TIMEOUT: u64 = 10;

/// How many bytes of each output stream are kept.
pub const OUTPUT_LIMIT: usize = 16384;

/// What a run is fed with.
pub struct InputSpec {
    pub stdin: Option<String>,
    pub args: Vec<String>,
    pub input_file: Option<Vec<u8>>,
}

/// What is run: the program, its first arguments, the entry point that its file states, its
/// symbols, and how many seconds it may take.
pub struct Target {
    pub path: String,
    pub args: Vec<String>,
    pub entry_point: u64,
    pub symbols: Symbols,
    pub timeout: u64,
}

/// What a run has hit so far.
pub struct Trace {
    node_hits: HashMap<usize, u64>,
    edge_hits: EdgeHits,
}

/// How often each node was entered, and each edge taken.
#[verifier::ext_equal]
pub struct TraceModel {
    pub node_hits: Map<usize, u64>,
    pub edge_hits: Map<(usize, usize), u64>,
}

/// A trace in which nothing was hit.
pub open spec fn empty_trace() -> TraceModel {
    TraceModel { node_hits: Map::empty(), edge_hits: Map::empty() }
}

/// The trace after `count` calls of `callee`, from `caller` where it is known.
pub open spec fn recorded(
    trace: TraceModel,
    caller: Option<usize>,
    callee: usize,
    count: u64,
) -> TraceModel {
    TraceModel {
        node_hits: hits::bumped(trace.node_hits, callee, count),
        edge_hits: match caller {
            Some(caller) => hits::bumped(trace.edge_hits, (caller, callee), count),
            None => trace.edge_hits,
        },
    }
}

/// How often a node was entered from these callers.
pub open spec fn entered_from(trace: TraceModel, callers: Seq<usize>, node: usize) -> int {
    hits::sum_of(
        callers,
        |caller: usize| hits::count_of(trace.edge_hits, (caller, node)) as int,
    )
}

/// The node that an edge leads to was entered where the edge was taken, and the edges from whatever
/// callers to a node were together taken no more often than the node was entered.
pub open spec fn edges_covered(trace: TraceModel) -> bool {
    &&& forall|from: usize, to: usize| #[trigger]
        trace.edge_hits.contains_key((from, to)) ==> trace.node_hits.contains_key(to)
    &&& forall|callers: Seq<usize>, node: usize|
        callers.no_duplicates() ==> #[trigger] entered_from(trace, callers, node)
            <= hits::count_of(trace.node_hits, node)
}

impl View for Trace {
    type V = TraceModel;

    closed spec fn view(&self) -> TraceModel {
        TraceModel { node_hits: self.node_hits@, edge_hits: self.edge_hits@ }
    }
}

impl Trace {
    pub closed spec fn wf(&self) -> bool {
        self.edge_hits.wf() && edges_covered(self@)
    }

    pub fn new() -> (r: Self)
        ensures
            r.wf(),
            r@ == empty_trace(),
    {
        let r = Trace { node_hits: HashMap::new(), edge_hits: EdgeHits::new() };
        assert(r@ =~= empty_trace());
        proof {
            lemma_empty_covered();
        }
        r
    }

    /// How often the node was entered.
    pub fn entered(&self, node: usize) -> (r: u64)
        ensures
            r == hits::count_of(self@.node_hits, node),
    {
        match self.node_hits.get(&node) {
            Some(count) => *count,
            None => 0,
        }
    }

    /// Records `count` calls of `callee`.
    pub fn call(&mut self, caller: Option<usize>, callee: usize, count: u64)
        requires
            old(self).wf(),
            hits::count_of(old(self)@.node_hits, callee) + count <= u64::MAX,
        ensures
            final(self).wf(),
            final(self)@ == recorded(old(self)@, caller, callee, count),
    {
        let ghost before = self@;
        let sum: u64 = self.entered(callee) + count;
        self.node_hits.insert(callee, sum);
        if let Some(caller) = caller {
            proof {
                lemma_edge_covered(before, caller, callee);
            }
            self.edge_hits.add((caller, callee), count);
        }
        proof {
            assert(self@ =~= recorded(before, caller, callee, count));
            lemma_recorded_covered(before, caller, callee, count);
        }
    }

    /// The result of a run that has ended.
    pub fn finish(self, outcome: Outcome, stdout: String, stderr: String) -> (r: TraceResult)
        requires
            self.wf(),
        ensures
            r@ == result_of(self@, outcome@, stdout@, stderr@, r@.executed_nodes, r@.executed_edges),
            lists_executed(self@, r@.executed_nodes, r@.executed_edges),
            edges_covered(r@.trace),
            r.edge_hits.wf(),
    {
        let keys = tables::keys_usize(&self.node_hits);
        let executed_nodes = order::sorted_numbers(&keys);
        proof {
            <usize as order::Ranked>::lemma_strict();
            order::lemma_sorted_distinct(keys@, order::rank_lt::<usize>());
        }
        let executed_edges = self.edge_hits.edges();
        let r = TraceResult {
            executed_nodes,
            executed_edges,
            node_hits: self.node_hits,
            edge_hits: self.edge_hits,
            exit_code: outcome.exit_code,
            stdout,
            stderr,
            error: outcome.error,
        };
        assert(r@ =~= result_of(
            self@,
            outcome@,
            stdout@,
            stderr@,
            r@.executed_nodes,
            r@.executed_edges,
        ));
        r
    }
}

impl Default for Trace {
    fn default() -> (r: Self)
        ensures
            r.wf(),
            r@ == empty_trace(),
    {
        Trace::new()
    }
}

/// What a traced run comes to.
pub struct TraceResult {
    pub executed_nodes: Vec<usize>,
    pub executed_edges: Vec<(usize, usize)>,
    pub node_hits: HashMap<usize, u64>,
    pub edge_hits: EdgeHits,
    pub exit_code: Option<i32>,
    pub stdout: String,
    pub stderr: String,
    pub error: Option<String>,
}

/// The values of a [`TraceResult`].
#[verifier::ext_equal]
pub struct ResultModel {
    pub executed_nodes: Seq<usize>,
    pub executed_edges: Seq<(usize, usize)>,
    pub trace: TraceModel,
    pub outcome: OutcomeModel,
    pub stdout: Seq<char>,
    pub stderr: Seq<char>,
}

impl View for TraceResult {
    type V = ResultModel;

    open spec fn view(&self) -> ResultModel {
        ResultModel {
            executed_nodes: self.executed_nodes@,
            executed_edges: self.executed_edges@,
            trace: TraceModel { node_hits: self.node_hits@, edge_hits: self.edge_hits@ },
            outcome: OutcomeModel {
                exit_code: self.exit_code,
                error: image::text_option(self.error),
            },
            stdout: self.stdout@,
            stderr: self.stderr@,
        }
    }
}

/// The nodes and edges that were hit, each once, from the least on.
pub open spec fn lists_executed(
    trace: TraceModel,
    nodes: Seq<usize>,
    edges: Seq<(usize, usize)>,
) -> bool {
    &&& order::ascending(nodes, order::rank_lt::<usize>())
    &&& nodes.to_set() == trace.node_hits.dom()
    &&& order::ascending(edges, order::rank_lt::<(usize, usize)>())
    &&& edges.to_set() == trace.edge_hits.dom()
}

/// The result of a run with this trace, this outcome and this output.
pub open spec fn result_of(
    trace: TraceModel,
    outcome: OutcomeModel,
    stdout: Seq<char>,
    stderr: Seq<char>,
    nodes: Seq<usize>,
    edges: Seq<(usize, usize)>,
) -> ResultModel {
    ResultModel { executed_nodes: nodes, executed_edges: edges, trace, outcome, stdout, stderr }
}

/// How a run ended.
pub struct Outcome {
    pub exit_code: Option<i32>,
    pub error: Option<String>,
}

/// The values of an [`Outcome`].
#[verifier::ext_equal]
pub struct OutcomeModel {
    pub exit_code: Option<i32>,
    pub error: Option<Seq<char>>,
}

impl View for Outcome {
    type V = OutcomeModel;

    open spec fn view(&self) -> OutcomeModel {
        OutcomeModel { exit_code: self.exit_code, error: image::text_option(self.error) }
    }
}

/// A run that ended with an exit code.
pub open spec fn exit_outcome(code: i32) -> OutcomeModel {
    OutcomeModel { exit_code: Some(code), error: None }
}

/// A run that failed.
pub open spec fn failed_outcome(message: Seq<char>) -> OutcomeModel {
    OutcomeModel { exit_code: None, error: Some(message) }
}

/// A run that a signal ended.
pub open spec fn signaled_outcome(signal: Seq<char>) -> OutcomeModel {
    failed_outcome("killed by "@ + signal)
}

/// Two texts, one behind the other.
pub(crate) fn joined(a: &str, b: &str) -> (r: String)
    ensures
        r@ == a@ + b@,
{
    let mut out = a.to_owned();
    out.append(b);
    out
}

impl Outcome {
    pub fn exited(code: i32) -> (r: Self)
        ensures
            r@ == exit_outcome(code),
    {
        Outcome { exit_code: Some(code), error: None }
    }

    pub fn failed(message: String) -> (r: Self)
        ensures
            r@ == failed_outcome(message@),
    {
        Outcome { exit_code: None, error: Some(message) }
    }

    pub fn duplicate(&self) -> (r: Self)
        ensures
            r@ == self@,
    {
        Outcome {
            exit_code: self.exit_code,
            error: match &self.error {
                Some(message) => Some(message.clone()),
                None => None,
            },
        }
    }

    /// The outcome of a run that was ended by the signal of this name.
    pub fn signaled(signal: &str) -> (r: Self)
        ensures
            r@ == signaled_outcome(signal@),
    {
        Outcome::failed(joined("killed by ", signal))
    }
}

/// The outcome of a run whose time may have run out: an exit code stands, anything else does not.
pub open spec fn outcome_in_time(
    outcome: OutcomeModel,
    timed_out: bool,
    timeout: u64,
) -> OutcomeModel {
    if timed_out && outcome.exit_code is None {
        failed_outcome("timed out after "@ + text::dec(timeout as nat) + " s"@)
    } else {
        outcome
    }
}

pub fn timed_out_outcome(outcome: Outcome, timed_out: bool, target: &Target) -> (r: Outcome)
    ensures
        r@ == outcome_in_time(outcome@, timed_out, target.timeout),
{
    if timed_out && outcome.exit_code.is_none() {
        let mut message = "timed out after ".to_owned();
        text::push_dec(&mut message, target.timeout);
        message.append(" s");
        Outcome::failed(message)
    } else {
        outcome
    }
}

/// The result of a run whose input file could not be written.
pub fn input_failed(error: &str) -> (r: TraceResult)
    ensures
        r@ == result_of(
            empty_trace(),
            failed_outcome("can't write input file: "@ + error@),
            Seq::empty(),
            Seq::empty(),
            Seq::empty(),
            Seq::empty(),
        ),
        r.edge_hits.wf(),
{
    failed_run(joined("can't write input file: ", error))
}

/// The result of a run whose program could not be started.
pub fn launch_failed(target: &Target, error: &str) -> (r: TraceResult)
    ensures
        r@ == result_of(
            empty_trace(),
            failed_outcome("can't run "@ + target.path@ + ": "@ + error@),
            Seq::empty(),
            Seq::empty(),
            Seq::empty(),
            Seq::empty(),
        ),
        r.edge_hits.wf(),
{
    let mut message = joined("can't run ", target.path.as_str());
    message.append(": ");
    message.append(error);
    failed_run(message)
}

/// The result of a run in which nothing happened.
fn failed_run(message: String) -> (r: TraceResult)
    ensures
        r@ == result_of(
            empty_trace(),
            failed_outcome(message@),
            Seq::empty(),
            Seq::empty(),
            Seq::empty(),
            Seq::empty(),
        ),
        r.edge_hits.wf(),
{
    let r = Trace::new().finish(Outcome::failed(message), String::new(), String::new());
    proof {
        assert(r@.executed_nodes.to_set() =~= Set::empty());
        assert(r@.executed_nodes =~= Seq::empty()) by {
            if r@.executed_nodes.len() > 0 {
                assert(r@.executed_nodes.to_set().contains(r@.executed_nodes[0]));
            }
        }
        assert(r@.executed_edges =~= Seq::empty()) by {
            if r@.executed_edges.len() > 0 {
                assert(r@.executed_edges.to_set().contains(r@.executed_edges[0]));
            }
        }
        assert(r.stdout@ =~= Seq::empty());
        assert(r.stderr@ =~= Seq::empty());
    }
    r
}

/// The result of a run that was started: what the session came to, and whether the time ran out.
pub fn conclude(
    trace: Trace,
    session: Result<Outcome, String>,
    timed_out: bool,
    target: &Target,
    stdout: String,
    stderr: String,
) -> (r: TraceResult)
    requires
        trace.wf(),
    ensures
        r@ == result_of(
            trace@,
            outcome_in_time(
                match session {
                    Ok(outcome) => outcome@,
                    Err(message) => failed_outcome(message@),
                },
                timed_out,
                target.timeout,
            ),
            stdout@,
            stderr@,
            r@.executed_nodes,
            r@.executed_edges,
        ),
        lists_executed(trace@, r@.executed_nodes, r@.executed_edges),
        edges_covered(r@.trace),
        r.edge_hits.wf(),
{
    let outcome = match session {
        Ok(outcome) => outcome,
        Err(message) => Outcome::failed(message),
    };
    trace.finish(timed_out_outcome(outcome, timed_out, target), stdout, stderr)
}

/// The name of an edge.
pub open spec fn edge_name(from: usize, to: usize) -> Seq<char> {
    text::dec(from as nat) + "-"@ + text::dec(to as nat)
}

/// The key under which the count of an edge is listed.
pub fn edge_key(from: usize, to: usize) -> (r: String)
    ensures
        r@ == edge_name(from, to),
{
    let mut out = String::new();
    text::push_dec(&mut out, from as u64);
    out.append("-");
    text::push_dec(&mut out, to as u64);
    assert(out@ =~= edge_name(from, to));
    out
}

/// The name of the file that holds the input of a run.
pub fn input_name(process: u32, counter: usize) -> (r: String)
    ensures
        r@ == "binary2graph-input-"@ + text::dec(process as nat) + "-"@ + text::dec(counter as nat),
{
    let mut out = "binary2graph-input-".to_owned();
    text::push_dec(&mut out, process as u64);
    out.append("-");
    text::push_dec(&mut out, counter as u64);
    out
}

/// The arguments with the file's name in place of each `@@`, or behind the others where there is
/// none.
pub open spec fn placed(args: Seq<Seq<char>>, file: Seq<char>) -> Seq<Seq<char>> {
    if args.contains("@@"@) {
        args.map_values(
            |arg: Seq<char>|
                if arg == "@@"@ {
                    file
                } else {
                    arg
                },
        )
    } else {
        args.push(file)
    }
}

/// The arguments of a run: those of the target, those of the input, and the input file, whose name
/// is `file`, where there is one.
pub open spec fn arguments(
    target: Seq<Seq<char>>,
    input: Seq<Seq<char>>,
    has_file: bool,
    file: Seq<char>,
) -> Seq<Seq<char>> {
    if has_file {
        placed(target + input, file)
    } else {
        target + input
    }
}

/// Copies the texts of a list behind those of another.
fn append_texts(out: &mut Vec<String>, list: &Vec<String>)
    ensures
        text::texts(final(out)@) == text::texts(old(out)@) + text::texts(list@),
{
    let ghost before = text::texts(out@);
    let mut i: usize = 0;
    while i < list.len()
        invariant
            i <= list.len(),
            text::texts(out@) =~= before + text::texts(list@).take(i as int),
        decreases list.len() - i,
    {
        let ghost prev = text::texts(out@);
        out.push(list[i].clone());
        assert(text::texts(out@) =~= prev.push(list@[i as int]@));
        assert(text::texts(list@).take(i + 1) =~= text::texts(list@).take(i as int).push(
            list@[i as int]@,
        ));
        i = i + 1;
    }
    assert(text::texts(list@).take(i as int) =~= text::texts(list@));
}

/// The arguments of a run. `file` is the name of the input file, where there is one.
pub fn prepare_args(target: &Target, input: &InputSpec, file: &str) -> (r: Vec<String>)
    ensures
        text::texts(r@) == arguments(
            text::texts(target.args@),
            text::texts(input.args@),
            input.input_file is Some,
            file@,
        ),
{
    let mut args: Vec<String> = Vec::new();
    append_texts(&mut args, &target.args);
    append_texts(&mut args, &input.args);
    let ghost all = text::texts(target.args@) + text::texts(input.args@);
    assert(text::texts(args@) =~= all);
    if input.input_file.is_none() {
        return args;
    }
    let mut out: Vec<String> = Vec::new();
    let mut found = false;
    let mut i: usize = 0;
    while i < args.len()
        invariant
            i <= args.len(),
            all == text::texts(args@),
            out.len() == i,
            found == exists|k: int| 0 <= k < i && #[trigger] all[k] == "@@"@,
            forall|k: int|
                0 <= k < i ==> (#[trigger] out@[k])@ == if all[k] == "@@"@ {
                    file@
                } else {
                    all[k]
                },
        decreases args.len() - i,
    {
        assert(all[i as int] == args@[i as int]@);
        if text::same_text(args[i].as_str(), "@@") {
            out.push(file.to_owned());
            found = true;
        } else {
            out.push(args[i].clone());
        }
        i = i + 1;
    }
    if found {
        assert(all.contains("@@"@));
        assert(text::texts(out@) =~= placed(all, file@));
    } else {
        out.push(file.to_owned());
        assert(!all.contains("@@"@));
        assert(text::texts(out@) =~= placed(all, file@));
    }
    out
}

/// What is kept of an output stream.
pub open spec fn first_bytes(stream: Seq<u8>) -> Seq<u8> {
    if stream.len() <= OUTPUT_LIMIT {
        stream
    } else {
        stream.take(OUTPUT_LIMIT as int)
    }
}

/// Keeps the next part of an output stream, as far as there is room.
pub fn keep_output(kept: &mut Vec<u8>, chunk: &[u8])
    requires
        old(kept).len() <= OUTPUT_LIMIT,
    ensures
        final(kept).len() <= OUTPUT_LIMIT,
        final(kept)@ == first_bytes(old(kept)@ + chunk@),
{
    let ghost before = kept@;
    let mut i: usize = 0;
    while i < chunk.len() && kept.len() < OUTPUT_LIMIT
        invariant
            i <= chunk@.len(),
            kept.len() <= OUTPUT_LIMIT,
            kept@ == before + chunk@.take(i as int),
        decreases chunk@.len() - i,
    {
        kept.push(chunk[i]);
        i = i + 1;
        assert(kept@ =~= before + chunk@.take(i as int));
    }
    assert(kept@ =~= first_bytes(before + chunk@));
}

/// The text of what was kept of an output stream.
pub fn output_text(kept: &Vec<u8>) -> (r: String)
    ensures
        r@ == text::lossy_text(kept@),
        vstd::utf8::valid_utf8(kept@) ==> r@ == vstd::utf8::decode_utf8(kept@),
{
    text::lossy(kept.as_slice())
}

/// The key of the entry point in the auxiliary vector.
pub const AT_ENTRY: u64 = 9;

/// The value of the first pair with this key.
pub open spec fn first_value(pairs: Seq<(u64, u64)>, key: u64) -> Option<u64>
    decreases pairs.len(),
{
    if pairs.len() == 0 {
        None
    } else if pairs[0].0 == key {
        Some(pairs[0].1)
    } else {
        first_value(pairs.drop_first(), key)
    }
}

/// The difference of two addresses, as it wraps.
pub open spec fn address_minus(a: u64, b: u64) -> u64 {
    if a >= b {
        (a - b) as u64
    } else {
        (a - b + 0x1_0000_0000_0000_0000) as u64
    }
}

/// The sum of two addresses, as it wraps.
pub open spec fn address_plus(a: u64, b: u64) -> u64 {
    if a + b <= u64::MAX {
        (a + b) as u64
    } else {
        (a + b - 0x1_0000_0000_0000_0000) as u64
    }
}

/// How far from where its file puts it the program was loaded: the entry point in the auxiliary
/// vector, a list of pairs of little-endian words, against that of the file.
pub open spec fn bias_of(auxv: Seq<u8>, entry_point: u64) -> Option<u64> {
    match first_value(bytes::word_pairs(auxv), AT_ENTRY) {
        Some(entry) => Some(address_minus(entry, entry_point)),
        None => None,
    }
}

pub fn load_bias(auxv: &[u8], entry_point: u64) -> (r: Result<u64, String>)
    ensures
        match r {
            Ok(bias) => bias_of(auxv@, entry_point) == Some(bias),
            Err(message) => bias_of(auxv@, entry_point) is None && message@
                == "no AT_ENTRY in auxv"@,
        },
{
    let pairs = bytes::read_word_pairs(auxv);
    let mut i: usize = 0;
    assert(pairs@.skip(0) =~= pairs@);
    while i < pairs.len()
        invariant
            i <= pairs.len(),
            pairs@ == bytes::word_pairs(auxv@),
            first_value(pairs@, AT_ENTRY) == first_value(pairs@.skip(i as int), AT_ENTRY),
        decreases pairs.len() - i,
    {
        assert(pairs@.skip(i as int).drop_first() =~= pairs@.skip(i + 1));
        if pairs[i].0 == AT_ENTRY {
            return Ok(pairs[i].1.wrapping_sub(entry_point));
        }
        i = i + 1;
    }
    Err("no AT_ENTRY in auxv".to_owned())
}

/// The word with its lowest byte replaced.
pub open spec fn patched(word: u64, byte: u8) -> u64 {
    (word - word % 0x100 + byte) as u64
}

pub fn patch_word(word: u64, byte: u8) -> (r: u64)
    ensures
        r == patched(word, byte),
{
    let low: u64 = byte as u64;
    assert((word & !0xffu64) | low == word - word % 0x100 + low) by (bit_vector)
        requires
            low < 0x100,
    ;
    (word & !0xffu64) | low
}

/// The lowest byte of a word.
pub fn low_byte(word: u64) -> (r: u8)
    ensures
        r == word % 0x100,
{
    (word % 0x100) as u8
}

/// A way to follow a run.
#[derive(Clone, Copy, Debug, PartialEq, Eq, Structural)]
pub enum Engine {
    Ptrace,
}

/// The engine of this name.
pub open spec fn engine_named(raw: Seq<char>) -> Option<Engine> {
    if raw == "ptrace"@ {
        Some(Engine::Ptrace)
    } else {
        None
    }
}

impl Engine {
    pub fn parse(raw: &str) -> (r: Option<Engine>)
        ensures
            r == engine_named(raw@),
    {
        if text::same_text(raw, "ptrace") {
            Some(Engine::Ptrace)
        } else {
            None
        }
    }
}

/// What is kept of a stream that comes in parts, each kept in turn.
pub open spec fn kept_in_turn(chunks: Seq<Seq<u8>>) -> Seq<u8>
    decreases chunks.len(),
{
    if chunks.len() == 0 {
        Seq::empty()
    } else {
        first_bytes(kept_in_turn(chunks.drop_last()) + chunks.last())
    }
}

/// The whole of a stream that comes in parts.
pub open spec fn whole(chunks: Seq<Seq<u8>>) -> Seq<u8>
    decreases chunks.len(),
{
    if chunks.len() == 0 {
        Seq::empty()
    } else {
        whole(chunks.drop_last()) + chunks.last()
    }
}

/// However a stream is cut into parts, its first bytes up to the limit are what is kept of it.
pub proof fn lemma_output_in_parts(chunks: Seq<Seq<u8>>)
    ensures
        kept_in_turn(chunks) == first_bytes(whole(chunks)),
    decreases chunks.len(),
{
    if chunks.len() > 0 {
        lemma_output_in_parts(chunks.drop_last());
        let front = whole(chunks.drop_last());
        assert(first_bytes(first_bytes(front) + chunks.last()) =~= first_bytes(
            front + chunks.last(),
        ));
    }
}

/// A patched word has the new byte lowest and its other bytes as they were, and the byte that was
/// replaced undoes the patch.
pub proof fn lemma_patch(word: u64, byte: u8)
    ensures
        patched(word, byte) % 0x100 == byte,
        patched(word, byte) / 0x100 == word / 0x100,
        patched(patched(word, byte), (word % 0x100) as u8) == word,
{
}

/// In a trace whose edges are covered, no edge was taken more often than the node that it leads to
/// was entered.
pub proof fn lemma_edge_covered(trace: TraceModel, from: usize, to: usize)
    requires
        edges_covered(trace),
    ensures
        hits::count_of(trace.edge_hits, (from, to)) <= hits::count_of(trace.node_hits, to),
{
    let callers = seq![from];
    reveal_with_fuel(hits::sum_of, 2);
    assert(entered_from(trace, callers, to) <= hits::count_of(trace.node_hits, to));
    assert(callers.drop_last() =~= Seq::empty());
    assert(callers.last() == from);
}

proof fn lemma_empty_covered()
    ensures
        edges_covered(empty_trace()),
{
    assert forall|callers: Seq<usize>, node: usize|
        callers.no_duplicates() implies #[trigger] entered_from(empty_trace(), callers, node)
        <= hits::count_of(empty_trace().node_hits, node) by {
        lemma_never_entered(callers, node);
    }
}

proof fn lemma_never_entered(callers: Seq<usize>, node: usize)
    ensures
        entered_from(empty_trace(), callers, node) == 0,
    decreases callers.len(),
{
    if callers.len() > 0 {
        lemma_never_entered(callers.drop_last(), node);
    }
}

/// Recording a call of a node adds its count to how often the node was entered from any callers
/// among which the call's is, and to nothing else.
pub proof fn lemma_entered_from(
    trace: TraceModel,
    caller: Option<usize>,
    callee: usize,
    count: u64,
    callers: Seq<usize>,
    node: usize,
)
    requires
        edges_covered(trace),
        hits::count_of(trace.node_hits, callee) + count <= u64::MAX,
        callers.no_duplicates(),
    ensures
        entered_from(recorded(trace, caller, callee, count), callers, node) == entered_from(
            trace,
            callers,
            node,
        ) + if node == callee && caller is Some && callers.contains(caller->0) {
            count as int
        } else {
            0
        },
    decreases callers.len(),
{
    let after = recorded(trace, caller, callee, count);
    if callers.len() > 0 {
        let front = callers.drop_last();
        let last = callers.last();
        lemma_entered_from(trace, caller, callee, count, front, node);
        lemma_edge_covered(trace, last, node);
        assert forall|from: usize| callers.contains(from) == (front.contains(from) || from
            == last) by {
            if callers.contains(from) && from != last {
                let i = choose|i: int| 0 <= i < callers.len() && callers[i] == from;
                assert(front[i] == from);
            }
            if front.contains(from) {
                let i = choose|i: int| 0 <= i < front.len() && front[i] == from;
                assert(callers[i] == from);
            }
            assert(callers[callers.len() - 1] == last);
        }
        assert(!front.contains(last));
        assert(hits::count_of(after.edge_hits, (last, node)) == hits::count_of(
            trace.edge_hits,
            (last, node),
        ) + if node == callee && caller == Some(last) {
            count as int
        } else {
            0
        });
    }
}

/// Recording a call keeps the edges covered.
pub proof fn lemma_recorded_covered(
    trace: TraceModel,
    caller: Option<usize>,
    callee: usize,
    count: u64,
)
    requires
        edges_covered(trace),
        hits::count_of(trace.node_hits, callee) + count <= u64::MAX,
    ensures
        edges_covered(recorded(trace, caller, callee, count)),
{
    let after = recorded(trace, caller, callee, count);
    assert forall|callers: Seq<usize>, node: usize|
        callers.no_duplicates() implies #[trigger] entered_from(after, callers, node)
        <= hits::count_of(after.node_hits, node) by {
        lemma_entered_from(trace, caller, callee, count, callers, node);
        assert(entered_from(trace, callers, node) <= hits::count_of(trace.node_hits, node));
    }
    assert forall|from: usize, to: usize| #[trigger]
        after.edge_hits.contains_key((from, to)) implies after.node_hits.contains_key(to) by {
        if trace.edge_hits.contains_key((from, to)) {
            assert(trace.node_hits.contains_key(to));
        }
    }
}

/// In every trace that was recorded call by call, the edges from whatever callers to a node were
/// together taken no more often than the node was entered, and none was taken to a node that was
/// not.
pub proof fn lemma_trace_covered(trace: &Trace)
    requires
        trace.wf(),
    ensures
        edges_covered(trace@),
{
}

/// Both ends of an executed edge need not be executed nodes, but the one that it leads to is.
pub proof fn lemma_executed_edges(
    trace: TraceModel,
    nodes: Seq<usize>,
    edges: Seq<(usize, usize)>,
    i: int,
)
    requires
        edges_covered(trace),
        lists_executed(trace, nodes, edges),
        0 <= i < edges.len(),
    ensures
        nodes.contains(edges[i].1),
{
    assert(edges.to_set().contains(edges[i]));
    assert(trace.edge_hits.contains_key((edges[i].0, edges[i].1)));
    assert(nodes.to_set().contains(edges[i].1));
}

/// The file's name is among the arguments of a run that has an input file, and no marker is left
/// unless the file has the marker's name.
pub proof fn lemma_file_placed(target: Seq<Seq<char>>, input: Seq<Seq<char>>, file: Seq<char>)
    ensures
        arguments(target, input, true, file).contains(file),
        file != "@@"@ ==> !arguments(target, input, true, file).contains("@@"@),
{
    let all = target + input;
    let args = placed(all, file);
    if all.contains("@@"@) {
        let k = choose|k: int| 0 <= k < all.len() && all[k] == "@@"@;
        assert(args[k] == file);
    } else {
        assert(args[all.len() as int] == file);
        if file != "@@"@ && args.contains("@@"@) {
            let k = choose|k: int| 0 <= k < args.len() && args[k] == "@@"@;
            assert(all[k] == "@@"@);
        }
    }
}

/// Two edges have different keys.
pub proof fn lemma_edge_names_differ(a: (usize, usize), b: (usize, usize))
    requires
        edge_name(a.0, a.1) == edge_name(b.0, b.1),
    ensures
        a == b,
{
    let dash = '-';
    reveal_strlit("-");
    let (x, y) = (text::dec(a.0 as nat), text::dec(b.0 as nat));
    let (v, w) = (text::dec(a.1 as nat), text::dec(b.1 as nat));
    let name = edge_name(a.0, a.1);
    text::lemma_dec_digits(a.0 as nat);
    text::lemma_dec_digits(b.0 as nat);
    assert(name[x.len() as int] == dash);
    assert(edge_name(b.0, b.1)[y.len() as int] == dash);
    if x.len() < y.len() {
        assert(edge_name(b.0, b.1)[x.len() as int] == y[x.len() as int]);
    } else if y.len() < x.len() {
        assert(name[y.len() as int] == x[y.len() as int]);
    }
    assert(name.take(x.len() as int) =~= x);
    assert(name.take(x.len() as int) =~= y);
    assert(name.skip(x.len() as int + 1) =~= v);
    assert(name.skip(x.len() as int + 1) =~= w);
    text::lemma_dec_injective(a.0 as nat, b.0 as nat);
    text::lemma_dec_injective(a.1 as nat, b.1 as nat);
}

/// A program that was loaded where its file puts it has no bias.
pub proof fn lemma_no_bias(auxv: Seq<u8>, entry_point: u64)
    requires
        first_value(bytes::word_pairs(auxv), AT_ENTRY) == Some(entry_point),
    ensures
        bias_of(auxv, entry_point) == Some(0u64),
{
}

/// An exit code stands, however long the run took; and a run that was in time is left as it is.
pub proof fn lemma_exit_code_stands(outcome: OutcomeModel, timed_out: bool, timeout: u64)
    requires
        outcome.exit_code is Some || !timed_out,
    ensures
        outcome_in_time(outcome, timed_out, timeout) == outcome,
{
}

/// Recording calls adds their count to that of the node that is called and, where the caller is
/// known, to that of the edge between the two, and changes no other count.
pub proof fn lemma_recorded(
    trace: TraceModel,
    caller: Option<usize>,
    callee: usize,
    count: u64,
    node: usize,
    edge: (usize, usize),
)
    requires
        edges_covered(trace),
        hits::count_of(trace.node_hits, callee) + count <= u64::MAX,
    ensures
        ({
            let after = recorded(trace, caller, callee, count);
            let old_node = if trace.node_hits.contains_key(node) {
                trace.node_hits[node] as int
            } else {
                0
            };
            let old_edge = if trace.edge_hits.contains_key(edge) {
                trace.edge_hits[edge] as int
            } else {
                0
            };
            &&& after.node_hits.contains_key(node) <==> trace.node_hits.contains_key(node) || node
                == callee
            &&& after.edge_hits.contains_key(edge) <==> trace.edge_hits.contains_key(edge) || (
            caller == Some(edge.0) && callee == edge.1)
            &&& node == callee ==> after.node_hits[node] == old_node + count
            &&& node != callee && trace.node_hits.contains_key(node) ==> after.node_hits[node]
                == old_node
            &&& caller == Some(edge.0) && callee == edge.1 ==> after.edge_hits[edge] == old_edge
                + count
            &&& !(caller == Some(edge.0) && callee == edge.1) && trace.edge_hits.contains_key(edge)
                ==> after.edge_hits[edge] == old_edge
        }),
{
    lemma_edge_covered(trace, edge.0, edge.1);
}

/// A trace in which nothing was hit has no counts.
pub proof fn lemma_nothing_hit(node: usize, edge: (usize, usize))
    ensures
        !empty_trace().node_hits.contains_key(node),
        !empty_trace().edge_hits.contains_key(edge),
{
}

/// The executed nodes and edges are those with a count, each once; nodes are listed from the least
/// on, edges by where they come from and then by where they lead.
pub proof fn lemma_executed(
    trace: TraceModel,
    nodes: Seq<usize>,
    edges: Seq<(usize, usize)>,
    node: usize,
    edge: (usize, usize),
)
    requires
        lists_executed(trace, nodes, edges),
    ensures
        nodes.contains(node) <==> trace.node_hits.contains_key(node),
        edges.contains(edge) <==> trace.edge_hits.contains_key(edge),
        forall|i: int, j: int|
            0 <= i < j < nodes.len() ==> (#[trigger] nodes[i]) < (#[trigger] nodes[j]),
        forall|i: int, j: int|
            0 <= i < j < edges.len() ==> (#[trigger] edges[i]).0 < (#[trigger] edges[j]).0 || (
            edges[i].0 == edges[j].0 && edges[i].1 < edges[j].1),
{
    let lt = order::rank_lt::<usize>();
    let pair_lt = order::rank_lt::<(usize, usize)>();
    assert(nodes.to_set().contains(node) == trace.node_hits.dom().contains(node));
    assert(edges.to_set().contains(edge) == trace.edge_hits.dom().contains(edge));
    assert forall|i: int, j: int| 0 <= i < j < nodes.len() implies (#[trigger] nodes[i]) < (
    #[trigger] nodes[j]) by {
        assert(lt(nodes[i], nodes[j]));
    }
    assert forall|i: int, j: int| 0 <= i < j < edges.len() implies (#[trigger] edges[i]).0 < (
    #[trigger] edges[j]).0 || (edges[i].0 == edges[j].0 && edges[i].1 < edges[j].1) by {
        assert(pair_lt(edges[i], edges[j]));
    }
}

/// A result holds the trace, how the run ended, and its output, as they are.
pub proof fn lemma_result(
    trace: TraceModel,
    outcome: OutcomeModel,
    stdout: Seq<char>,
    stderr: Seq<char>,
    nodes: Seq<usize>,
    edges: Seq<(usize, usize)>,
)
    ensures
        ({
            let result = result_of(trace, outcome, stdout, stderr, nodes, edges);
            &&& result.trace == trace && result.outcome == outcome
            &&& result.stdout == stdout && result.stderr == stderr
            &&& result.executed_nodes == nodes && result.executed_edges == edges
        }),
{
}

/// An outcome is an exit code or an error, never both: an exit gives its code, a failure its
/// message, and a signal a message with its name.
pub proof fn lemma_outcomes(code: i32, message: Seq<char>)
    ensures
        exit_outcome(code).exit_code == Some(code) && exit_outcome(code).error is None,
        failed_outcome(message).exit_code is None && failed_outcome(message).error == Some(message),
        signaled_outcome(message).exit_code is None && signaled_outcome(message).error == Some(
            "killed by "@ + message,
        ),
{
}

/// A run may take ten seconds. Where the time ran out before an exit, the outcome is an error that
/// says after how many seconds; otherwise it stays.
pub proof fn lemma_time_ran_out(outcome: OutcomeModel, timed_out: bool, timeout: u64)
    ensures
        TIMEOUT == 10,
        !timed_out || outcome.exit_code is Some ==> outcome_in_time(outcome, timed_out, timeout)
            == outcome,
        timed_out && outcome.exit_code is None ==> {
            let late = outcome_in_time(outcome, timed_out, timeout);
            late.exit_code is None && late.error == Some(
                "timed out after "@ + text::dec(timeout as nat) + " s"@,
            )
        },
{
}

/// The name of an edge is its two ends in decimal with a hyphen between them.
pub proof fn lemma_edge_name(from: usize, to: usize)
    ensures
        ({
            let name = edge_name(from, to);
            let n = text::dec(from as nat).len() as int;
            &&& n < name.len() && name[n] == '-'
            &&& text::value_of(name.take(n), 10) == from
            &&& text::value_of(name.skip(n + 1), 10) == to
        }),
{
    reveal_strlit("-");
    let name = edge_name(from, to);
    let n = text::dec(from as nat).len() as int;
    assert(name.take(n) =~= text::dec(from as nat));
    assert(name.skip(n + 1) =~= text::dec(to as nat));
    text::lemma_numbers(from as nat);
    text::lemma_numbers(to as nat);
}

/// Without an input file the arguments are those of the target and then those of the input. With
/// one, each marker among them becomes the file's name and the others stay; where there is no
/// marker the name goes behind them.
pub proof fn lemma_arguments(
    target: Seq<Seq<char>>,
    input: Seq<Seq<char>>,
    file: Seq<char>,
    i: int,
)
    ensures
        ({
            let all = target + input;
            let marked = exists|k: int| 0 <= k < all.len() && #[trigger] all[k] == seq!['@', '@'];
            let with = arguments(target, input, true, file);
            &&& arguments(target, input, false, file) == all
            &&& with.len() == all.len() + if marked {
                0int
            } else {
                1
            }
            &&& 0 <= i < all.len() ==> with[i] == if all[i] == seq!['@', '@'] {
                file
            } else {
                all[i]
            }
            &&& !marked ==> with.last() == file
        }),
{
    reveal_strlit("@@");
    assert("@@"@ =~= seq!['@', '@']);
    let all = target + input;
    if all.contains("@@"@) {
        let k = choose|k: int| 0 <= k < all.len() && all[k] == "@@"@;
        assert(all[k] == seq!['@', '@']);
    } else {
        assert forall|k: int| 0 <= k < all.len() implies #[trigger] all[k] != seq!['@', '@'] by {
            if all[k] == seq!['@', '@'] {
                assert(all.contains("@@"@));
            }
        }
    }
}

/// Of a stream its first sixteen kibibytes are kept, or all of it where it is no longer.
pub proof fn lemma_output_kept(stream: Seq<u8>)
    ensures
        first_bytes(stream).is_prefix_of(stream),
        first_bytes(stream).len() == if stream.len() < 16384 {
            stream.len() as int
        } else {
            16384
        },
{
    assert(first_bytes(stream) =~= stream.take(first_bytes(stream).len() as int));
}

/// Addresses are added and subtracted as they wrap.
pub proof fn lemma_addresses_wrap(a: u64, b: u64)
    ensures
        address_plus(a, b) == (a + b) % 0x1_0000_0000_0000_0000,
        address_minus(a, b) == (a - b) % 0x1_0000_0000_0000_0000,
{
}

/// The bias is what has to be added to the entry point of the file, as addresses wrap, to get the
/// value of the first entry of the auxiliary vector for the entry point; without such an entry
/// there is none.
pub proof fn lemma_bias(auxv: Seq<u8>, entry_point: u64, i: int)
    ensures
        ({
            let pairs = bytes::word_pairs(auxv);
            &&& (forall|k: int| 0 <= k < pairs.len() ==> (#[trigger] pairs[k]).0 != 9) ==> bias_of(
                auxv,
                entry_point,
            ) is None
            &&& 0 <= i < pairs.len() && pairs[i].0 == 9 && (forall|k: int|
                0 <= k < i ==> (#[trigger] pairs[k]).0 != 9) ==> {
                &&& bias_of(auxv, entry_point) is Some
                &&& (bias_of(auxv, entry_point)->0 + entry_point) % 0x1_0000_0000_0000_0000
                    == pairs[i].1
            }
        }),
{
    lemma_first_value(bytes::word_pairs(auxv), 9, i);
}

proof fn lemma_first_value(pairs: Seq<(u64, u64)>, key: u64, i: int)
    ensures
        (forall|k: int| 0 <= k < pairs.len() ==> (#[trigger] pairs[k]).0 != key) ==> first_value(
            pairs,
            key,
        ) is None,
        0 <= i < pairs.len() && pairs[i].0 == key && (forall|k: int|
            0 <= k < i ==> (#[trigger] pairs[k]).0 != key) ==> first_value(pairs, key) == Some(
            pairs[i].1,
        ),
    decreases pairs.len(),
{
    if pairs.len() > 0 && pairs[0].0 != key {
        let rest = pairs.drop_first();
        lemma_first_value(rest, key, i - 1);
        assert forall|k: int| 0 <= k < rest.len() implies #[trigger] rest[k] == pairs[k + 1] by {}
        if forall|k: int| 0 <= k < pairs.len() ==> (#[trigger] pairs[k]).0 != key {
            assert forall|k: int| 0 <= k < rest.len() implies (#[trigger] rest[k]).0 != key by {
                assert(pairs[k + 1].0 != key);
            }
        }
        if 0 <= i < pairs.len() && pairs[i].0 == key && (forall|k: int|
            0 <= k < i ==> (#[trigger] pairs[k]).0 != key) {
            assert(i > 0);
            assert(rest[i - 1] == pairs[i]);
            assert forall|k: int| 0 <= k < i - 1 implies (#[trigger] rest[k]).0 != key by {
                assert(pairs[k + 1].0 != key);
            }
        }
    } else if pairs.len() > 0 {
        if i > 0 {
            assert(pairs[0].0 == key);
        }
    }
}

/// There is one engine, and it goes by its name alone.
pub proof fn lemma_engine_names(raw: Seq<char>)
    ensures
        engine_named(raw) is Some <==> raw == seq!['p', 't', 'r', 'a', 'c', 'e'],
{
    reveal_strlit("ptrace");
    assert("ptrace"@ =~= seq!['p', 't', 'r', 'a', 'c', 'e']);
}

} // verus!
