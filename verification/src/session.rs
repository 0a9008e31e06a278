//! The course of a traced run, as a machine: each event of the traced processes leads to the next
//! thing to do, from the stop before the program's first instruction to the last process's end.
use std::collections::HashMap;
use vstd::prelude::*;
use vstd::string::StringExecFns;

use crate::hits;
use crate::symbols;
use crate::symbols::Symbols;
use crate::text;
use crate::trace;
use crate::trace::Outcome;
use crate::trace::Trace;

verus! {

broadcast use vstd::std_specs::hash::group_hash_axioms;

/// The instruction that stops a process.
pub const TRAP: u8 = 0xcc;

/// A signal. The two that the machine tells apart have names of their own.
#[derive(Clone, Copy, Debug, PartialEq, Eq, Structural)]
pub enum Signal {
    Trap,
    Stop,
    Other(i32),
}

/// What a wait reports of a process or thread.
pub enum Status {
    Exited { who: i32, code: i32 },
    Signaled { who: i32, name: String },
    Stopped { who: i32, signal: Signal },
    Other { source: Option<i32> },
}

/// Why a request failed.
#[derive(Clone, Copy, Debug, PartialEq, Eq, Structural)]
pub enum FailureKind {
    NoChild,
    Interrupted,
    Gone,
    Other,
}

/// What came of the last action.
pub enum Event {
    /// A wait reported this; `shown` is how the report is printed.
    Status { status: Status, shown: String },
    Failed { kind: FailureKind, message: String },
    Auxv(Vec<u8>),
    /// A byte was placed where `original` stood.
    Placed { original: u8 },
    Registers { ip: u64, sp: u64 },
    Word(u64),
    Done,
}

/// What to do next.
pub enum Action {
    WaitRoot,
    ReadAuxv,
    PlaceByte { who: i32, address: u64, byte: u8 },
    SetOptions,
    Start,
    WaitGroup,
    KillGroup,
    Resume { who: i32, signal: Option<Signal> },
    ReadRegisters { who: i32 },
    ReadWord { who: i32, address: u64 },
    /// Puts the instruction pointer of a stopped thread to `address`.
    Rewind { who: i32, address: u64 },
    Step { who: i32 },
    WaitThread { who: i32 },
    End(Result<Outcome, String>),
}

/// The values of an [`Action`].
#[verifier::ext_equal]
pub enum ActionModel {
    WaitRoot,
    ReadAuxv,
    PlaceByte { who: i32, address: u64, byte: u8 },
    SetOptions,
    Start,
    WaitGroup,
    KillGroup,
    Resume { who: i32, signal: Option<Signal> },
    ReadRegisters { who: i32 },
    ReadWord { who: i32, address: u64 },
    Rewind { who: i32, address: u64 },
    Step { who: i32 },
    WaitThread { who: i32 },
    End(Result<trace::OutcomeModel, Seq<char>>),
}

impl View for Action {
    type V = ActionModel;

    open spec fn view(&self) -> ActionModel {
        match *self {
            Action::WaitRoot => ActionModel::WaitRoot,
            Action::ReadAuxv => ActionModel::ReadAuxv,
            Action::PlaceByte { who, address, byte } => ActionModel::PlaceByte {
                who,
                address,
                byte,
            },
            Action::SetOptions => ActionModel::SetOptions,
            Action::Start => ActionModel::Start,
            Action::WaitGroup => ActionModel::WaitGroup,
            Action::KillGroup => ActionModel::KillGroup,
            Action::Resume { who, signal } => ActionModel::Resume { who, signal },
            Action::ReadRegisters { who } => ActionModel::ReadRegisters { who },
            Action::ReadWord { who, address } => ActionModel::ReadWord { who, address },
            Action::Rewind { who, address } => ActionModel::Rewind { who, address },
            Action::Step { who } => ActionModel::Step { who },
            Action::WaitThread { who } => ActionModel::WaitThread { who },
            Action::End(Ok(outcome)) => ActionModel::End(Ok(outcome@)),
            Action::End(Err(message)) => ActionModel::End(Err(message@)),
        }
    }
}

/// What the machine waits for.
#[derive(Clone, Copy, Debug, PartialEq, Eq, Structural)]
pub enum Phase {
    /// The root process has been started and stops before its first instruction.
    Launched,
    /// The auxiliary vector is being read.
    Loading,
    /// The trap at the site `next` is being placed.
    Arming { next: usize },
    Configuring,
    Starting,
    /// Any process of the group is waited for.
    Waiting,
    /// A request whose failure does not matter is under way.
    Settling,
    /// A thread stopped at a trap: first its registers are read, then the word on top of its stack;
    /// the byte under the trap is put back, the thread goes back to it and steps over it; then the
    /// trap is placed again.
    Trapped { who: i32 },
    Calling { who: i32, address: u64 },
    Restoring { who: i32, address: u64 },
    Rewinding { who: i32, address: u64 },
    Stepping { who: i32, address: u64 },
    Stepped { who: i32, address: u64 },
    Rearming { who: i32, pending: Option<Signal> },
    /// The session went wrong, and what is left of the group is being killed.
    Failing,
    Ended,
}

/// A trap: the node that it stands for and the byte that it replaced.
#[derive(Clone, Copy)]
pub struct Breakpoint {
    pub node: usize,
    pub original: u8,
}

/// The state of a traced run.
pub struct Session {
    root: i32,
    entry_point: u64,
    bias: u64,
    sites: Vec<(u64, usize)>,
    breakpoints: HashMap<u64, Breakpoint>,
    outcome: Option<Outcome>,
    error: Option<String>,
    phase: Phase,
}

/// The values of a [`Session`].
#[verifier::ext_equal]
pub struct SessionModel {
    pub root: i32,
    pub entry_point: u64,
    pub bias: u64,
    pub sites: Seq<(u64, usize)>,
    pub breakpoints: Map<u64, Breakpoint>,
    pub outcome: Option<trace::OutcomeModel>,
    pub error: Option<Seq<char>>,
    pub phase: Phase,
}

/// The values of an outcome, where there is one.
pub open spec fn outcome_option(outcome: Option<Outcome>) -> Option<trace::OutcomeModel> {
    match outcome {
        Some(outcome) => Some(outcome@),
        None => None,
    }
}

/// The text of a message, where there is one.
pub open spec fn message_option(message: Option<String>) -> Option<Seq<char>> {
    match message {
        Some(message) => Some(message@),
        None => None,
    }
}

impl View for Session {
    type V = SessionModel;

    closed spec fn view(&self) -> SessionModel {
        SessionModel {
            root: self.root,
            entry_point: self.entry_point,
            bias: self.bias,
            sites: self.sites@,
            breakpoints: self.breakpoints@,
            outcome: outcome_option(self.outcome),
            error: message_option(self.error),
            phase: self.phase,
        }
    }
}

/// A range starts at the address.
pub open spec fn starts_at(ranges: Seq<symbols::Range>, address: u64, i: int) -> bool {
    0 <= i < ranges.len() && ranges[i].start == address
}

/// The node that is entered at an address of the file, if any: that of the function that starts
/// there, else that of the stub.
pub open spec fn entered_at(symbols: symbols::SymbolsModel, address: u64) -> Option<usize> {
    if exists|i: int| starts_at(symbols.ranges, address, i) {
        Some(symbols.ranges[choose|i: int| starts_at(symbols.ranges, address, i)].node)
    } else if symbols.stubs.contains_key(address) {
        Some(symbols.stubs[address])
    } else {
        None
    }
}

/// The sites are the addresses at which a node is entered in the loaded program, each once, with
/// that node: the starts of the functions in their order, then what is left of the stubs.
pub open spec fn lists_sites(
    sites: Seq<(u64, usize)>,
    symbols: symbols::SymbolsModel,
    bias: u64,
) -> bool {
    &&& symbols.ranges.len() <= sites.len()
    &&& forall|i: int|
        0 <= i < symbols.ranges.len() ==> #[trigger] sites[i] == (
            trace::address_plus(symbols.ranges[i].start, bias),
            symbols.ranges[i].node,
        )
    &&& forall|i: int, j: int|
        0 <= i < j < sites.len() ==> (#[trigger] sites[i]).0 != (#[trigger] sites[j]).0
    &&& forall|i: int|
        0 <= i < sites.len() ==> entered_at(
            symbols,
            trace::address_minus((#[trigger] sites[i]).0, bias),
        ) == Some(sites[i].1)
    &&& forall|address: u64|
        (#[trigger] entered_at(symbols, address)) is Some ==> exists|i: int|
            0 <= i < sites.len() && (#[trigger] sites[i]).0 == trace::address_plus(address, bias)
}

/// The addresses of the loaded program at which its nodes are entered, each once.
pub fn breakpoint_sites(symbols: &Symbols, bias: u64) -> (r: Vec<(u64, usize)>)
    requires
        symbols.wf(),
    ensures
        lists_sites(r@, symbols@, bias),
{
    let entries = symbols.entries();
    let ghost n = symbols@.ranges.len();
    let mut seen: HashMap<u64, usize> = HashMap::new();
    let mut sites: Vec<(u64, usize)> = Vec::new();
    let ghost mut from: Seq<int> = Seq::empty();
    let mut i: usize = 0;
    while i < entries.len()
        invariant
            i <= entries.len(),
            n == symbols@.ranges.len() <= entries.len(),
            symbols::starts_ascend(symbols@.ranges),
            forall|k: int|
                0 <= k < n ==> #[trigger] entries@[k] == (
                    symbols@.ranges[k].start,
                    symbols@.ranges[k].node,
                ),
            i <= n ==> sites.len() == i,
            n <= i ==> n <= sites.len(),
            forall|k: int|
                0 <= k < n && k < sites.len() ==> #[trigger] sites@[k] == (
                    trace::address_plus(symbols@.ranges[k].start, bias),
                    symbols@.ranges[k].node,
                ),
            sites.len() == from.len(),
            forall|k: int|
                0 <= k < sites.len() ==> 0 <= #[trigger] from[k] < i && sites@[k].0
                    == trace::address_plus(entries@[from[k]].0, bias) && sites@[k].1
                    == entries@[from[k]].1,
            forall|k: int, m: int|
                0 <= k < sites.len() && 0 <= m < #[trigger] from[k] ==> (
                #[trigger] entries@[m]).0 != entries@[from[k]].0,
            forall|k: int, m: int|
                0 <= k < m < sites.len() ==> (#[trigger] sites@[k]).0 != (#[trigger] sites@[m]).0,
            forall|k: int| 0 <= k < sites.len() ==> seen@.contains_key((#[trigger] sites@[k]).0),
            forall|address: u64| #[trigger]
                seen@.contains_key(address) ==> exists|k: int|
                    0 <= k < sites.len() && (#[trigger] sites@[k]).0 == address,
            forall|m: int|
                0 <= m < i ==> seen@.contains_key(
                    trace::address_plus((#[trigger] entries@[m]).0, bias),
                ),
        decreases entries.len() - i,
    {
        let (place, node) = entries[i];
        let address: u64 = place.wrapping_add(bias);
        assert(address == trace::address_plus(place, bias));
        let ghost before = sites@;
        let ghost known = seen@;
        proof {
            if i < n && seen@.contains_key(address) {
                let k = choose|k: int| 0 <= k < sites.len() && (#[trigger] sites@[k]).0 == address;
                assert(sites@[k].0 == trace::address_plus(symbols@.ranges[k].start, bias));
                assert(entries@[i as int].0 == symbols@.ranges[i as int].start);
                assert(false);
            }
        }
        if !seen.contains_key(&address) {
            proof {
                assert forall|m: int| 0 <= m < i implies (#[trigger] entries@[m]).0 != place by {}
                from = from.push(i as int);
            }
            seen.insert(address, node);
            sites.push((address, node));
            proof {
                assert forall|a: u64| #[trigger] seen@.contains_key(a) implies exists|k: int|
                    0 <= k < sites.len() && (#[trigger] sites@[k]).0 == a by {
                    if a == address {
                        assert(sites@[before.len() as int].0 == address);
                    } else {
                        assert(known.contains_key(a));
                        let k = choose|k: int|
                            0 <= k < before.len() && (#[trigger] before[k]).0 == a;
                        assert(sites@[k].0 == a);
                    }
                }
            }
        }
        i = i + 1;
    }
    proof {
        assert forall|k: int| 0 <= k < sites.len() implies entered_at(
            symbols@,
            trace::address_minus((#[trigger] sites@[k]).0, bias),
        ) == Some(sites@[k].1) by {
            let f = from[k];
            let place = entries@[f].0;
            assert(trace::address_minus(sites@[k].0, bias) == place);
            if exists|m: int| starts_at(symbols@.ranges, place, m) {
                let m = choose|m: int| starts_at(symbols@.ranges, place, m);
                assert(entries@[m].0 == place);
                assert(m >= f);
                if f < m {
                    assert(symbols@.ranges[f].start < symbols@.ranges[m].start);
                }
            } else {
                if f < n {
                    assert(starts_at(symbols@.ranges, place, f));
                }
            }
        }
        assert forall|address: u64| (#[trigger] entered_at(symbols@, address)) is Some implies exists|
            k: int,
        | 0 <= k < sites.len() && (#[trigger] sites@[k]).0 == trace::address_plus(address, bias) by {
            if exists|m: int| starts_at(symbols@.ranges, address, m) {
                let m = choose|m: int| starts_at(symbols@.ranges, address, m);
                assert(entries@[m].0 == address);
            } else {
                let m = choose|m: int| n <= m < entries.len() && (#[trigger] entries@[m]).0 == address;
                assert(entries@[m].0 == address);
            }
            assert(seen@.contains_key(trace::address_plus(address, bias)));
        }
    }
    sites
}

/// The event can follow in this phase.
pub open spec fn fits(phase: Phase, event: Event) -> bool {
    match phase {
        Phase::Launched | Phase::Waiting | Phase::Stepped { .. } => event is Status
            || event is Failed,
        Phase::Loading => event is Auxv || event is Failed,
        Phase::Arming { .. } | Phase::Restoring { .. } | Phase::Rearming { .. } => event is Placed
            || event is Failed,
        Phase::Configuring
        | Phase::Starting
        | Phase::Rewinding { .. }
        | Phase::Stepping { .. } => event is Done || event is Failed,
        Phase::Trapped { .. } => event is Registers || event is Failed,
        Phase::Calling { .. } => event is Word || event is Failed,
        Phase::Settling | Phase::Failing => event is Done,
        Phase::Ended => false,
    }
}

/// The state in another phase.
pub open spec fn in_phase(s: SessionModel, phase: Phase) -> SessionModel {
    SessionModel { phase, ..s }
}

/// A session that went wrong: the group is killed, then the session ends.
pub open spec fn broken(s: SessionModel, message: Seq<char>) -> (SessionModel, ActionModel) {
    (
        SessionModel { error: Some(message), phase: Phase::Failing, ..s },
        ActionModel::KillGroup,
    )
}

/// Any process of the group is waited for next.
pub open spec fn waiting(s: SessionModel) -> (SessionModel, ActionModel) {
    (in_phase(s, Phase::Waiting), ActionModel::WaitGroup)
}

/// A request whose failure does not matter comes next.
pub open spec fn settling(s: SessionModel, action: ActionModel) -> (SessionModel, ActionModel) {
    (in_phase(s, Phase::Settling), action)
}

/// A process of the group has ended. The outcome of the root process is that of the run, and what
/// is left of the group is killed.
pub open spec fn process_ended(
    s: SessionModel,
    who: i32,
    outcome: trace::OutcomeModel,
) -> (SessionModel, ActionModel) {
    if who == s.root {
        settling(SessionModel { outcome: Some(outcome), ..s }, ActionModel::KillGroup)
    } else {
        waiting(s)
    }
}

/// What a report of the group leads to.
pub open spec fn dispatched(s: SessionModel, status: Status) -> (SessionModel, ActionModel) {
    match status {
        Status::Exited { who, code } => process_ended(s, who, trace::exit_outcome(code)),
        Status::Signaled { who, name } => process_ended(s, who, trace::signaled_outcome(name@)),
        Status::Stopped { who, signal: Signal::Trap } => (
            in_phase(s, Phase::Trapped { who }),
            ActionModel::ReadRegisters { who },
        ),
        Status::Stopped { who, signal: Signal::Stop } => settling(
            s,
            ActionModel::Resume { who, signal: None },
        ),
        Status::Stopped { who, signal } => settling(
            s,
            ActionModel::Resume { who, signal: Some(signal) },
        ),
        Status::Other { source: Some(who) } => settling(
            s,
            ActionModel::Resume { who, signal: None },
        ),
        Status::Other { source: None } => waiting(s),
    }
}

/// What a failed request leads to.
pub open spec fn after_failure(
    s: SessionModel,
    kind: FailureKind,
    message: Seq<char>,
) -> (SessionModel, ActionModel) {
    match s.phase {
        Phase::Launched => broken(s, "waitpid: "@ + message),
        Phase::Loading => broken(s, "can't read auxv: "@ + message),
        Phase::Arming { next } => broken(
            s,
            "can't set breakpoint at "@ + text::prefixed_hex(s.sites[next as int].0 as nat) + ": "@
                + message,
        ),
        Phase::Configuring => broken(s, "setoptions: "@ + message),
        Phase::Starting => broken(s, "cont: "@ + message),
        Phase::Waiting => match kind {
            FailureKind::NoChild => match s.outcome {
                Some(outcome) => (in_phase(s, Phase::Ended), ActionModel::End(Ok(outcome))),
                None => broken(s, "lost track of the process"@),
            },
            FailureKind::Interrupted => waiting(s),
            _ => broken(s, "waitpid: "@ + message),
        },
        _ => match kind {
            FailureKind::Gone => waiting(s),
            _ => broken(s, "ptrace: "@ + message),
        },
    }
}

/// The next trap is placed, or, where all are, the root process goes on.
pub open spec fn arming(s: SessionModel, next: int) -> (SessionModel, ActionModel) {
    if next < s.sites.len() {
        (
            in_phase(s, Phase::Arming { next: next as usize }),
            ActionModel::PlaceByte { who: s.root, address: s.sites[next].0, byte: TRAP },
        )
    } else {
        (in_phase(s, Phase::Configuring), ActionModel::SetOptions)
    }
}

/// The node that the byte before a return address lies in: the return address of a call at the
/// very end of a function lies in the next one.
pub open spec fn calling_node(
    symbols: symbols::SymbolsModel,
    return_address: u64,
    bias: u64,
) -> Option<usize> {
    symbols::node_of(
        symbols.ranges,
        trace::address_minus(trace::address_minus(return_address, 1), bias),
    )
}

/// What an event leads to. `sites` is the order in which the traps are placed, once they are
/// known.
pub open spec fn transition(
    s: SessionModel,
    symbols: symbols::SymbolsModel,
    event: Event,
    sites: Seq<(u64, usize)>,
) -> (SessionModel, ActionModel) {
    match (s.phase, event) {
        (_, Event::Failed { kind, message }) => after_failure(s, kind, message@),
        (Phase::Launched, Event::Status { status, shown }) => match status {
            Status::Stopped { signal: Signal::Trap, .. } => (
                in_phase(s, Phase::Loading),
                ActionModel::ReadAuxv,
            ),
            _ => broken(s, "unexpected state before exec: "@ + shown@),
        },
        (Phase::Loading, Event::Auxv(auxv)) => match trace::bias_of(auxv@, s.entry_point) {
            Some(bias) => arming(SessionModel { bias, sites, ..s }, 0),
            None => broken(s, "no AT_ENTRY in auxv"@),
        },
        (Phase::Arming { next }, Event::Placed { original }) => arming(
            SessionModel {
                breakpoints: s.breakpoints.insert(
                    s.sites[next as int].0,
                    Breakpoint { node: s.sites[next as int].1, original },
                ),
                ..s
            },
            next + 1,
        ),
        (Phase::Configuring, _) => (in_phase(s, Phase::Starting), ActionModel::Start),
        (Phase::Waiting, Event::Status { status, .. }) => dispatched(s, status),
        (Phase::Trapped { who }, Event::Registers { ip, sp }) => {
            let address = trace::address_minus(ip, 1);
            if s.breakpoints.contains_key(address) {
                (
                    in_phase(s, Phase::Calling { who, address }),
                    ActionModel::ReadWord { who, address: sp },
                )
            } else {
                settling(s, ActionModel::Resume { who, signal: None })
            }
        },
        (Phase::Calling { who, address }, Event::Word(_)) => (
            in_phase(s, Phase::Restoring { who, address }),
            ActionModel::PlaceByte { who, address, byte: s.breakpoints[address].original },
        ),
        (Phase::Restoring { who, address }, Event::Placed { .. }) => (
            in_phase(s, Phase::Rewinding { who, address }),
            ActionModel::Rewind { who, address },
        ),
        (Phase::Rewinding { who, address }, Event::Done) => (
            in_phase(s, Phase::Stepping { who, address }),
            ActionModel::Step { who },
        ),
        (Phase::Stepping { who, address }, Event::Done) => (
            in_phase(s, Phase::Stepped { who, address }),
            ActionModel::WaitThread { who },
        ),
        (Phase::Stepped { who, address }, Event::Status { status, .. }) => match status {
            Status::Stopped { signal, .. } => (
                in_phase(
                    s,
                    Phase::Rearming {
                        who,
                        pending: if signal == Signal::Trap {
                            None
                        } else {
                            Some(signal)
                        },
                    },
                ),
                ActionModel::PlaceByte { who, address, byte: TRAP },
            ),
            _ => dispatched(s, status),
        },
        (Phase::Rearming { who, pending }, Event::Placed { .. }) => settling(
            s,
            ActionModel::Resume { who, signal: pending },
        ),
        (Phase::Failing, _) => match s.error {
            Some(message) => (in_phase(s, Phase::Ended), ActionModel::End(Err(message))),
            None => waiting(s),
        },
        _ => waiting(s),
    }
}

/// What an event adds to the trace: a call, once the word on top of the stack is known.
pub open spec fn traced(
    s: SessionModel,
    symbols: symbols::SymbolsModel,
    event: Event,
    t: trace::TraceModel,
) -> trace::TraceModel {
    match (s.phase, event) {
        (Phase::Calling { address, .. }, Event::Word(return_address)) => trace::recorded(
            t,
            calling_node(symbols, return_address, s.bias),
            s.breakpoints[address].node,
            1,
        ),
        _ => t,
    }
}

/// The count that the next event may add to does not overflow.
pub open spec fn has_room(s: SessionModel, t: trace::TraceModel) -> bool {
    match s.phase {
        Phase::Calling { address, .. } => hits::count_of(
            t.node_hits,
            s.breakpoints[address].node,
        ) < u64::MAX,
        _ => true,
    }
}

/// The traps at the first `n` sites, and no others, are in place.
pub open spec fn armed(s: SessionModel, n: int) -> bool {
    &&& 0 <= n <= s.sites.len()
    &&& forall|i: int|
        0 <= i < n ==> s.breakpoints.contains_key((#[trigger] s.sites[i]).0)
            && s.breakpoints[s.sites[i].0].node == s.sites[i].1
    &&& forall|address: u64| #[trigger]
        s.breakpoints.contains_key(address) ==> exists|i: int|
            0 <= i < n && (#[trigger] s.sites[i]).0 == address
}

/// The sites can be counted, and no two of them are at one address.
pub open spec fn sites_differ(sites: Seq<(u64, usize)>) -> bool {
    &&& sites.len() <= usize::MAX
    &&& forall|i: int, j: int|
        0 <= i < j < sites.len() ==> (#[trigger] sites[i]).0 != (#[trigger] sites[j]).0
}

/// What holds in every state that the machine reaches.
pub open spec fn session_wf(s: SessionModel) -> bool {
    &&& sites_differ(s.sites)
    &&& match s.phase {
        Phase::Launched | Phase::Loading => s.sites.len() == 0 && armed(s, 0),
        Phase::Arming { next } => next < s.sites.len() && armed(s, next as int),
        Phase::Calling { address, .. }
        | Phase::Restoring { address, .. }
        | Phase::Rewinding { address, .. }
        | Phase::Stepping { address, .. }
        | Phase::Stepped { address, .. } => s.breakpoints.contains_key(address) && armed(
            s,
            s.sites.len() as int,
        ),
        Phase::Failing => s.error is Some,
        Phase::Ended => true,
        _ => armed(s, s.sites.len() as int),
    }
}

/// The state right after the start: the first thing to do is to wait for the root process.
pub open spec fn launched(root: i32, entry_point: u64) -> SessionModel {
    SessionModel {
        root,
        entry_point,
        bias: 0,
        sites: Seq::empty(),
        breakpoints: Map::empty(),
        outcome: None,
        error: None,
        phase: Phase::Launched,
    }
}

impl Session {
    pub open spec fn wf(&self) -> bool {
        session_wf(self@)
    }

    /// A session with a process that was just started, and the first thing to do.
    pub fn new(root: i32, entry_point: u64) -> (r: (Self, Action))
        ensures
            r.0.wf(),
            r.0@ == launched(root, entry_point),
            r.1@ == ActionModel::WaitRoot,
    {
        let session = Session {
            root,
            entry_point,
            bias: 0,
            sites: Vec::new(),
            breakpoints: HashMap::new(),
            outcome: None,
            error: None,
            phase: Phase::Launched,
        };
        assert(session@ =~= launched(root, entry_point));
        (session, Action::WaitRoot)
    }

    /// What the machine waits for.
    pub fn phase(&self) -> (r: Phase)
        ensures
            r == self@.phase,
    {
        self.phase
    }

    /// The next event cannot make a count overflow.
    pub fn has_room(&self, t: &Trace) -> (r: bool)
        requires
            self.wf(),
        ensures
            r == has_room(self@, t@),
    {
        match self.phase {
            Phase::Calling { who: _, address } => match self.breakpoints.get(&address) {
                Some(breakpoint) => t.entered(breakpoint.node) < u64::MAX,
                None => true,
            },
            _ => true,
        }
    }

    /// Kills the group, before the session ends with an error.
    fn fail(&mut self, message: String) -> (r: Action)
        ensures
            (final(self)@, r@) == broken(old(self)@, message@),
    {
        self.error = Some(message);
        self.phase = Phase::Failing;
        Action::KillGroup
    }

    fn wait(&mut self) -> (r: Action)
        ensures
            (final(self)@, r@) == waiting(old(self)@),
    {
        self.phase = Phase::Waiting;
        Action::WaitGroup
    }

    fn process_ended(&mut self, who: i32, outcome: Outcome) -> (r: Action)
        ensures
            (final(self)@, r@) == process_ended(old(self)@, who, outcome@),
    {
        if who == self.root {
            self.outcome = Some(outcome);
            self.phase = Phase::Settling;
            Action::KillGroup
        } else {
            self.wait()
        }
    }

    fn dispatch(&mut self, status: Status) -> (r: Action)
        ensures
            (final(self)@, r@) == dispatched(old(self)@, status),
    {
        match status {
            Status::Exited { who, code } => self.process_ended(who, Outcome::exited(code)),
            Status::Signaled { who, name } => self.process_ended(
                who,
                Outcome::signaled(name.as_str()),
            ),
            Status::Stopped { who, signal } => match signal {
                Signal::Trap => {
                    self.phase = Phase::Trapped { who };
                    Action::ReadRegisters { who }
                },
                Signal::Stop => {
                    self.phase = Phase::Settling;
                    Action::Resume { who, signal: None }
                },
                Signal::Other(_) => {
                    self.phase = Phase::Settling;
                    Action::Resume { who, signal: Some(signal) }
                },
            },
            Status::Other { source: Some(who) } => {
                self.phase = Phase::Settling;
                Action::Resume { who, signal: None }
            },
            Status::Other { source: None } => self.wait(),
        }
    }

    fn failed(&mut self, kind: FailureKind, message: &str) -> (r: Action)
        requires
            old(self).wf(),
        ensures
            (final(self)@, r@) == after_failure(old(self)@, kind, message@),
    {
        match self.phase {
            Phase::Launched => self.fail(trace::joined("waitpid: ", message)),
            Phase::Loading => self.fail(trace::joined("can't read auxv: ", message)),
            Phase::Arming { next } => {
                let mut out = "can't set breakpoint at ".to_owned();
                text::push_prefixed_hex(&mut out, self.sites[next].0);
                out.append(": ");
                out.append(message);
                self.fail(out)
            },
            Phase::Configuring => self.fail(trace::joined("setoptions: ", message)),
            Phase::Starting => self.fail(trace::joined("cont: ", message)),
            Phase::Waiting => match kind {
                FailureKind::NoChild => match &self.outcome {
                    Some(outcome) => {
                        let outcome = outcome.duplicate();
                        self.phase = Phase::Ended;
                        Action::End(Ok(outcome))
                    },
                    None => self.fail("lost track of the process".to_owned()),
                },
                FailureKind::Interrupted => self.wait(),
                _ => self.fail(trace::joined("waitpid: ", message)),
            },
            _ => match kind {
                FailureKind::Gone => self.wait(),
                _ => self.fail(trace::joined("ptrace: ", message)),
            },
        }
    }

    fn arm(&mut self, next: usize) -> (r: Action)
        ensures
            (final(self)@, r@) == arming(old(self)@, next as int),
    {
        if next < self.sites.len() {
            self.phase = Phase::Arming { next };
            Action::PlaceByte { who: self.root, address: self.sites[next].0, byte: TRAP }
        } else {
            self.phase = Phase::Configuring;
            Action::SetOptions
        }
    }

    /// Takes an event to the next thing to do, and records a call in the trace where there is one.
    pub fn advance(&mut self, symbols: &Symbols, t: &mut Trace, event: Event) -> (r: Action)
        requires
            old(self).wf(),
            fits(old(self)@.phase, event),
            symbols.wf(),
            old(t).wf(),
            has_room(old(self)@, old(t)@),
        ensures
            final(self).wf(),
            final(t).wf(),
            (final(self)@, r@) == transition(
                old(self)@,
                symbols@,
                event,
                final(self)@.sites,
            ),
            final(t)@ == traced(old(self)@, symbols@, event, old(t)@),
            old(self)@.phase is Loading && !(final(self)@.phase is Failing) ==> lists_sites(
                final(self)@.sites,
                symbols@,
                final(self)@.bias,
            ),
    {
        let ghost before = self@;
        let r = self.react(symbols, t, event);
        proof {
            assert(self.sites.len() <= usize::MAX);
            lemma_keeps_wf(before, symbols@, event, self@.sites);
        }
        r
    }

    fn react(&mut self, symbols: &Symbols, t: &mut Trace, event: Event) -> (r: Action)
        requires
            old(self).wf(),
            fits(old(self)@.phase, event),
            symbols.wf(),
            old(t).wf(),
            has_room(old(self)@, old(t)@),
        ensures
            final(t).wf(),
            (final(self)@, r@) == transition(
                old(self)@,
                symbols@,
                event,
                final(self)@.sites,
            ),
            final(t)@ == traced(old(self)@, symbols@, event, old(t)@),
            old(self)@.phase is Loading && !(final(self)@.phase is Failing) ==> lists_sites(
                final(self)@.sites,
                symbols@,
                final(self)@.bias,
            ),
    {
        match event {
            Event::Failed { kind, message } => self.failed(kind, message.as_str()),
            Event::Status { status, shown } => match self.phase {
                Phase::Launched => match status {
                    Status::Stopped { who: _, signal: Signal::Trap } => {
                        self.phase = Phase::Loading;
                        Action::ReadAuxv
                    },
                    _ => self.fail(
                        trace::joined("unexpected state before exec: ", shown.as_str()),
                    ),
                },
                Phase::Stepped { who, address } => match status {
                    Status::Stopped { who: _, signal } => {
                        let pending = match signal {
                            Signal::Trap => None,
                            _ => Some(signal),
                        };
                        self.phase = Phase::Rearming { who, pending };
                        Action::PlaceByte { who, address, byte: TRAP }
                    },
                    _ => self.dispatch(status),
                },
                _ => self.dispatch(status),
            },
            Event::Auxv(auxv) => match trace::load_bias(auxv.as_slice(), self.entry_point) {
                Ok(bias) => {
                    self.bias = bias;
                    self.sites = breakpoint_sites(symbols, bias);
                    self.arm(0)
                },
                Err(message) => self.fail(message),
            },
            Event::Placed { original } => self.byte_placed(original),
            Event::Registers { ip, sp } => match self.phase {
                Phase::Trapped { who } => {
                    let address: u64 = ip.wrapping_sub(1);
                    if self.breakpoints.contains_key(&address) {
                        self.phase = Phase::Calling { who, address };
                        Action::ReadWord { who, address: sp }
                    } else {
                        self.phase = Phase::Settling;
                        Action::Resume { who, signal: None }
                    }
                },
                _ => self.wait(),
            },
            Event::Word(return_address) => match self.phase {
                Phase::Calling { who, address } => match self.breakpoints.get(&address) {
                    Some(found) => {
                        let breakpoint = *found;
                        let inside: u64 = return_address.wrapping_sub(1).wrapping_sub(self.bias);
                        let caller = symbols.node_at(inside);
                        t.call(caller, breakpoint.node, 1);
                        self.phase = Phase::Restoring { who, address };
                        Action::PlaceByte { who, address, byte: breakpoint.original }
                    },
                    None => self.wait(),
                },
                _ => self.wait(),
            },
            Event::Done => match self.phase {
                Phase::Configuring => {
                    self.phase = Phase::Starting;
                    Action::Start
                },
                Phase::Rewinding { who, address } => {
                    self.phase = Phase::Stepping { who, address };
                    Action::Step { who }
                },
                Phase::Stepping { who, address } => {
                    self.phase = Phase::Stepped { who, address };
                    Action::WaitThread { who }
                },
                Phase::Failing => match &self.error {
                    Some(message) => {
                        let message = message.as_str().to_owned();
                        self.phase = Phase::Ended;
                        Action::End(Err(message))
                    },
                    None => self.wait(),
                },
                _ => self.wait(),
            },
        }
    }

    fn byte_placed(&mut self, original: u8) -> (r: Action)
        requires
            old(self).wf(),
            old(self)@.phase is Arming || old(self)@.phase is Restoring
                || old(self)@.phase is Rearming,
        ensures
            forall|symbols: symbols::SymbolsModel, sites: Seq<(u64, usize)>|
                (final(self)@, r@) == #[trigger] transition(
                    old(self)@,
                    symbols,
                    Event::Placed { original },
                    sites,
                ),
    {
        match self.phase {
            Phase::Arming { next } => {
                let (address, node) = self.sites[next];
                assert(next < self.sites.len() <= usize::MAX);
                self.breakpoints.insert(address, Breakpoint { node, original });
                self.arm(next + 1)
            },
            Phase::Restoring { who, address } => {
                self.phase = Phase::Rewinding { who, address };
                Action::Rewind { who, address }
            },
            Phase::Rearming { who, pending } => {
                self.phase = Phase::Settling;
                Action::Resume { who, signal: pending }
            },
            _ => self.wait(),
        }
    }
}

/// Whatever happens, the machine stays in a state in which its invariant holds.
pub proof fn lemma_keeps_wf(
    s: SessionModel,
    symbols: symbols::SymbolsModel,
    event: Event,
    sites: Seq<(u64, usize)>,
)
    requires
        session_wf(s),
        fits(s.phase, event),
        s.phase is Loading ==> sites_differ(sites),
    ensures
        session_wf(transition(s, symbols, event, sites).0),
{
    let next = transition(s, symbols, event, sites).0;
    match (s.phase, event) {
        (Phase::Arming { next: k }, Event::Placed { original }) => {
            assert forall|address: u64| #[trigger]
                next.breakpoints.contains_key(address) implies exists|i: int|
                0 <= i < k + 1 && (#[trigger] next.sites[i]).0 == address by {
                if address == s.sites[k as int].0 {
                    assert(next.sites[k as int].0 == address);
                } else {
                    let i = choose|i: int| 0 <= i < k && (#[trigger] s.sites[i]).0 == address;
                    assert(next.sites[i].0 == address);
                }
            }
            assert(armed(next, k + 1));
        },
        _ => {},
    }
}

/// The state and the actions that a list of events leads to.
pub open spec fn played(
    s: SessionModel,
    symbols: symbols::SymbolsModel,
    events: Seq<Event>,
    sites: Seq<(u64, usize)>,
) -> (SessionModel, Seq<ActionModel>)
    decreases events.len(),
{
    if events.len() == 0 {
        (s, Seq::empty())
    } else {
        let (before, actions) = played(s, symbols, events.drop_last(), sites);
        let (after, action) = transition(before, symbols, events.last(), sites);
        (after, actions.push(action))
    }
}

/// The trace that a list of events leads to.
pub open spec fn played_trace(
    s: SessionModel,
    symbols: symbols::SymbolsModel,
    events: Seq<Event>,
    sites: Seq<(u64, usize)>,
    t: trace::TraceModel,
) -> trace::TraceModel
    decreases events.len(),
{
    if events.len() == 0 {
        t
    } else {
        let front = events.drop_last();
        traced(
            played(s, symbols, front, sites).0,
            symbols,
            events.last(),
            played_trace(s, symbols, front, sites, t),
        )
    }
}

/// The events of a hit that nothing interrupts: the registers, the word on top of the stack, the
/// byte put back, the thread taken back, the step, the stop behind it, and the trap placed again.
pub open spec fn hit_events(
    ip: u64,
    sp: u64,
    word: u64,
    replaced: u8,
    stop: Event,
    put_back: u8,
) -> Seq<Event> {
    seq![
        Event::Registers { ip, sp },
        Event::Word(word),
        Event::Placed { original: replaced },
        Event::Done,
        Event::Done,
        stop,
        Event::Placed { original: put_back },
    ]
}

/// A hit that nothing interrupts puts back the byte under the trap before the thread steps over
/// it, places the trap again behind the step, lets the same thread go on, with the signal that it
/// stopped with unless that is the trap's own, and records one call of the trap's node, from the
/// function that the byte before the return address lies in.
pub proof fn lemma_hit(
    s: SessionModel,
    symbols: symbols::SymbolsModel,
    sites: Seq<(u64, usize)>,
    t: trace::TraceModel,
    who: i32,
    address: u64,
    sp: u64,
    word: u64,
    replaced: u8,
    stop: Event,
    put_back: u8,
)
    requires
        s.phase == (Phase::Trapped { who }),
        s.breakpoints.contains_key(address),
        stop is Status,
        stop->status is Stopped,
    ensures
        ({
            let signal = stop->status->signal;
            let events = hit_events(
                trace::address_plus(address, 1),
                sp,
                word,
                replaced,
                stop,
                put_back,
            );
            let pending = if signal == Signal::Trap {
                None
            } else {
                Some(signal)
            };
            &&& played(s, symbols, events, sites).1 == seq![
                ActionModel::ReadWord { who, address: sp },
                ActionModel::PlaceByte { who, address, byte: s.breakpoints[address].original },
                ActionModel::Rewind { who, address },
                ActionModel::Step { who },
                ActionModel::WaitThread { who },
                ActionModel::PlaceByte { who, address, byte: TRAP },
                ActionModel::Resume { who, signal: pending },
            ]
            &&& played(s, symbols, events, sites).0 == in_phase(s, Phase::Settling)
            &&& played_trace(s, symbols, events, sites, t) == trace::recorded(
                t,
                calling_node(symbols, word, s.bias),
                s.breakpoints[address].node,
                1,
            )
        }),
{
    let events = hit_events(trace::address_plus(address, 1), sp, word, replaced, stop, put_back);
    assert(events.len() == 7);
    reveal_with_fuel(played, 8);
    reveal_with_fuel(played_trace, 8);
    assert(events.take(7) =~= events);
    assert(events.drop_last() =~= events.take(6));
    assert(events.take(6).drop_last() =~= events.take(5));
    assert(events.take(5).drop_last() =~= events.take(4));
    assert(events.take(4).drop_last() =~= events.take(3));
    assert(events.take(3).drop_last() =~= events.take(2));
    assert(events.take(2).drop_last() =~= events.take(1));
    assert(events.take(1).drop_last() =~= events.take(0));
    assert(trace::address_minus(trace::address_plus(address, 1), 1) == address);
}

/// A stop where no trap stands records nothing, and the thread goes on as if it had not stopped.
pub proof fn lemma_foreign_trap(
    s: SessionModel,
    symbols: symbols::SymbolsModel,
    sites: Seq<(u64, usize)>,
    t: trace::TraceModel,
    who: i32,
    ip: u64,
    sp: u64,
)
    requires
        s.phase == (Phase::Trapped { who }),
        !s.breakpoints.contains_key(trace::address_minus(ip, 1)),
    ensures
        transition(s, symbols, Event::Registers { ip, sp }, sites) == settling(
            s,
            ActionModel::Resume { who, signal: None },
        ),
        traced(s, symbols, Event::Registers { ip, sp }, t) == t,
{
}

/// The outcome that an event reports of the root process, where it reports one.
pub open spec fn root_outcome(s: SessionModel, event: Event) -> Option<trace::OutcomeModel> {
    match event {
        Event::Status { status: Status::Exited { who, code }, .. } if who == s.root => Some(
            trace::exit_outcome(code),
        ),
        Event::Status { status: Status::Signaled { who, name }, .. } if who == s.root => Some(
            trace::signaled_outcome(name@),
        ),
        _ => None,
    }
}

/// The outcome of the run changes only with a report of the root process's end, once it runs; such
/// a report kills what is left of the group.
pub proof fn lemma_outcome_is_roots(
    s: SessionModel,
    symbols: symbols::SymbolsModel,
    event: Event,
    sites: Seq<(u64, usize)>,
)
    requires
        fits(s.phase, event),
    ensures
        transition(s, symbols, event, sites).0.outcome != s.outcome ==> root_outcome(
            s,
            event,
        ) is Some && transition(s, symbols, event, sites).0.outcome == root_outcome(s, event),
        !(s.phase is Launched) && root_outcome(s, event) is Some ==> transition(
            s,
            symbols,
            event,
            sites,
        ) == settling(
            SessionModel { outcome: root_outcome(s, event), ..s },
            ActionModel::KillGroup,
        ),
{
}

/// A session succeeds exactly when no process is left to wait for and the end of the root process
/// was reported, and with that outcome.
pub proof fn lemma_success(
    s: SessionModel,
    symbols: symbols::SymbolsModel,
    event: Event,
    sites: Seq<(u64, usize)>,
    outcome: trace::OutcomeModel,
)
    requires
        fits(s.phase, event),
    ensures
        transition(s, symbols, event, sites).1 == ActionModel::End(Ok(outcome)) <==> s.phase
            is Waiting && event is Failed && event->kind == FailureKind::NoChild && s.outcome
            == Some(outcome),
{
}

/// A session that goes wrong kills what is left of the group, and nothing but the end follows, with
/// the message of what went wrong; no session ends with an error otherwise.
pub proof fn lemma_failure(
    s: SessionModel,
    symbols: symbols::SymbolsModel,
    event: Event,
    sites: Seq<(u64, usize)>,
    message: Seq<char>,
)
    requires
        session_wf(s),
        fits(s.phase, event),
    ensures
        ({
            let (after, action) = transition(s, symbols, event, sites);
            &&& after.phase is Failing ==> action == ActionModel::KillGroup && after.error is Some
            &&& s.phase is Failing ==> after == in_phase(s, Phase::Ended) && action
                == ActionModel::End(Err(s.error->0))
            &&& action == ActionModel::End(Err(message)) <==> s.phase is Failing && s.error == Some(
                message,
            )
        }),
{
}

/// The memory of the traced program is changed in two ways only: a trap is placed at a site, or the
/// byte that a trap replaced is put back where it stood.
pub proof fn lemma_bytes_placed(
    s: SessionModel,
    symbols: symbols::SymbolsModel,
    event: Event,
    sites: Seq<(u64, usize)>,
    who: i32,
    address: u64,
    byte: u8,
)
    requires
        session_wf(s),
        fits(s.phase, event),
        s.phase is Loading ==> sites_differ(sites),
        transition(s, symbols, event, sites).1 == (ActionModel::PlaceByte { who, address, byte }),
    ensures
        ({
            let after = transition(s, symbols, event, sites).0;
            &&& exists|i: int| 0 <= i < after.sites.len() && (#[trigger] after.sites[i]).0 == address
            &&& byte == TRAP || (s.breakpoints.contains_key(address) && byte
                == s.breakpoints[address].original)
        }),
{
    let after = transition(s, symbols, event, sites).0;
    match (s.phase, event) {
        (Phase::Loading, _) => {
            assert(after.sites[0].0 == address);
        },
        (Phase::Arming { next }, _) => {
            assert(after.sites[next + 1].0 == address);
        },
        _ => {
            assert(s.breakpoints.contains_key(address));
            assert(after.sites == s.sites);
        },
    }
}

/// Adding the load bias to an address of the file and taking it off again gives the address back,
/// and the other way round.
pub proof fn lemma_bias_round_trip(address: u64, bias: u64)
    ensures
        trace::address_minus(trace::address_plus(address, bias), bias) == address,
        trace::address_plus(trace::address_minus(address, bias), bias) == address,
{
}

/// A call whose return address is in a function, or right behind it, is taken for a call from that
/// function, as long as no later function starts before the byte that the call ends with.
pub proof fn lemma_call_at_the_end(
    symbols: symbols::SymbolsModel,
    i: int,
    return_address: u64,
    bias: u64,
)
    requires
        symbols::starts_ascend(symbols.ranges),
        0 <= i < symbols.ranges.len(),
        symbols.ranges[i].start < trace::address_minus(return_address, bias)
            <= symbols.ranges[i].end,
        i + 1 < symbols.ranges.len() ==> trace::address_minus(return_address, bias)
            <= symbols.ranges[i + 1].start,
    ensures
        calling_node(symbols, return_address, bias) == Some(symbols.ranges[i].node),
{
    let inside = trace::address_minus(trace::address_minus(return_address, 1), bias);
    assert(inside == trace::address_minus(return_address, bias) - 1);
    assert(symbols.ranges[i].start <= inside < symbols.ranges[i].end);
    symbols::lemma_node_of(symbols.ranges, inside, symbols.ranges[i].node);
}

/// While any process is waited for, a stop leads to the signal being handed on to the same thread;
/// the stop of a new thread or process, which stands for nothing else, is not handed on.
pub proof fn lemma_signals_handed_on(
    s: SessionModel,
    symbols: symbols::SymbolsModel,
    sites: Seq<(u64, usize)>,
    who: i32,
    signal: Signal,
    shown: String,
)
    requires
        s.phase is Waiting,
        signal != Signal::Trap,
    ensures
        transition(
            s,
            symbols,
            Event::Status { status: Status::Stopped { who, signal }, shown },
            sites,
        ) == settling(
            s,
            ActionModel::Resume {
                who,
                signal: if signal == Signal::Stop {
                    None
                } else {
                    Some(signal)
                },
            },
        ),
{
}

/// The root process stays the same; the sites and the bias do once they are known, and the traps
/// once they are in place.
pub proof fn lemma_traps_stay(
    s: SessionModel,
    symbols: symbols::SymbolsModel,
    event: Event,
    sites: Seq<(u64, usize)>,
)
    requires
        fits(s.phase, event),
    ensures
        ({
            let after = transition(s, symbols, event, sites).0;
            &&& after.root == s.root && after.entry_point == s.entry_point
            &&& !(s.phase is Loading) ==> after.bias == s.bias && after.sites == s.sites
            &&& !(s.phase is Arming) ==> after.breakpoints == s.breakpoints
        }),
{
}

/// Where all traps are in place, one stands at an address exactly when a node is entered there in
/// the loaded program, and it stands for that node.
pub proof fn lemma_traps_at_entries(
    s: SessionModel,
    symbols: symbols::SymbolsModel,
    address: u64,
)
    requires
        armed(s, s.sites.len() as int),
        lists_sites(s.sites, symbols, s.bias),
    ensures
        entered_at(symbols, trace::address_minus(address, s.bias))
            == if s.breakpoints.contains_key(address) {
            Some(s.breakpoints[address].node)
        } else {
            None
        },
{
    let place = trace::address_minus(address, s.bias);
    lemma_bias_round_trip(address, s.bias);
    if s.breakpoints.contains_key(address) {
        let i = choose|i: int| 0 <= i < s.sites.len() && (#[trigger] s.sites[i]).0 == address;
        assert(entered_at(symbols, trace::address_minus(s.sites[i].0, s.bias)) == Some(
            s.sites[i].1,
        ));
    } else if entered_at(symbols, place) is Some {
        let i = choose|i: int|
            0 <= i < s.sites.len() && (#[trigger] s.sites[i]).0 == trace::address_plus(
                place,
                s.bias,
            );
        assert(s.breakpoints.contains_key(s.sites[i].0));
    }
}

/// A session starts with nothing known but its root process and the entry point of the file.
pub proof fn lemma_launched(root: i32, entry_point: u64)
    ensures
        ({
            let s = launched(root, entry_point);
            &&& s.root == root && s.entry_point == entry_point
            &&& s.phase is Launched
            &&& s.sites.len() == 0 && s.outcome is None && s.error is None
            &&& s.breakpoints == Map::<u64, Breakpoint>::empty()
        }),
{
}

/// The root process has to stop with a trap before its first instruction; then the auxiliary vector
/// is read. Any other report ends the session with an error that shows it.
pub proof fn lemma_before_exec(
    s: SessionModel,
    symbols: symbols::SymbolsModel,
    sites: Seq<(u64, usize)>,
    status: Status,
    shown: String,
)
    requires
        s.phase is Launched,
    ensures
        ({
            let (after, action) = transition(s, symbols, Event::Status { status, shown }, sites);
            let trapped = status is Stopped && status->signal == Signal::Trap;
            &&& trapped ==> after == SessionModel { phase: Phase::Loading, ..s } && action
                == ActionModel::ReadAuxv
            &&& !trapped ==> after.phase is Failing && after.error == Some(
                "unexpected state before exec: "@ + shown@,
            ) && action == ActionModel::KillGroup
        }),
{
}

/// Once the load bias is known the traps are placed at the sites, from the first on, and nothing is
/// placed where there are none; without a bias the session ends with an error.
pub proof fn lemma_loaded(
    s: SessionModel,
    symbols: symbols::SymbolsModel,
    sites: Seq<(u64, usize)>,
    auxv: Vec<u8>,
)
    requires
        s.phase is Loading,
    ensures
        ({
            let (after, action) = transition(s, symbols, Event::Auxv(auxv), sites);
            let bias = trace::bias_of(auxv@, s.entry_point);
            &&& bias is None ==> after.phase is Failing && after.error == Some(
                "no AT_ENTRY in auxv"@,
            ) && action == ActionModel::KillGroup
            &&& bias is Some ==> after.bias == bias->0 && after.sites == sites && after.breakpoints
                == s.breakpoints
            &&& bias is Some && sites.len() > 0 ==> after.phase == (Phase::Arming { next: 0 })
                && action == (ActionModel::PlaceByte {
                who: s.root,
                address: sites[0].0,
                byte: 0xcc,
            })
            &&& bias is Some && sites.len() == 0 ==> after.phase is Configuring && action
                == ActionModel::SetOptions
        }),
{
}

/// A trap that was placed stands for its site's node and keeps the byte that it replaced; then the
/// next one is placed in the root process, and behind the last one the options are set.
pub proof fn lemma_trap_placed(
    s: SessionModel,
    symbols: symbols::SymbolsModel,
    sites: Seq<(u64, usize)>,
    next: usize,
    original: u8,
)
    requires
        s.phase == (Phase::Arming { next }),
        next < s.sites.len() <= usize::MAX,
    ensures
        ({
            let (after, action) = transition(s, symbols, Event::Placed { original }, sites);
            let (address, node) = s.sites[next as int];
            &&& after.breakpoints == s.breakpoints.insert(address, Breakpoint { node, original })
            &&& after.sites == s.sites && after.bias == s.bias && after.outcome == s.outcome
            &&& next + 1 < s.sites.len() ==> after.phase == (Phase::Arming {
                next: (next + 1) as usize,
            }) && action == (ActionModel::PlaceByte {
                who: s.root,
                address: s.sites[next + 1].0,
                byte: 0xcc,
            })
            &&& next + 1 == s.sites.len() ==> after.phase is Configuring && action
                == ActionModel::SetOptions
        }),
{
}

/// With the options set the root process goes on, and from then on any process of the group is
/// waited for, as it is once a request whose failure does not matter is done.
pub proof fn lemma_set_going(
    s: SessionModel,
    symbols: symbols::SymbolsModel,
    sites: Seq<(u64, usize)>,
)
    ensures
        s.phase is Configuring ==> transition(s, symbols, Event::Done, sites) == (
            SessionModel { phase: Phase::Starting, ..s },
            ActionModel::Start,
        ),
        s.phase is Starting || s.phase is Settling ==> transition(s, symbols, Event::Done, sites)
            == (SessionModel { phase: Phase::Waiting, ..s }, ActionModel::WaitGroup),
{
}

/// While any process of the group is waited for: the end of one that is not the root changes
/// nothing; a trap has the thread's registers read; and a report of anything else lets the thread
/// that it comes from go on, or, where it comes from none, changes nothing. The same holds of a
/// report other than a stop that comes while a thread steps.
pub proof fn lemma_reports(
    s: SessionModel,
    symbols: symbols::SymbolsModel,
    sites: Seq<(u64, usize)>,
    status: Status,
    shown: String,
)
    requires
        s.phase is Waiting || (s.phase is Stepped && !(status is Stopped)),
    ensures
        ({
            let result = transition(s, symbols, Event::Status { status, shown }, sites);
            let wait = (SessionModel { phase: Phase::Waiting, ..s }, ActionModel::WaitGroup);
            match status {
                Status::Exited { who, code } => if who != s.root {
                    result == wait
                } else {
                    result.0.outcome == Some(trace::exit_outcome(code)) && result.0.phase
                        is Settling && result.1 == ActionModel::KillGroup
                },
                Status::Signaled { who, name } => if who != s.root {
                    result == wait
                } else {
                    result.0.outcome == Some(trace::signaled_outcome(name@)) && result.0.phase
                        is Settling && result.1 == ActionModel::KillGroup
                },
                Status::Stopped { who, signal } => signal == Signal::Trap ==> result == (
                    SessionModel { phase: Phase::Trapped { who }, ..s },
                    ActionModel::ReadRegisters { who },
                ),
                Status::Other { source: Some(who) } => result == (
                    SessionModel { phase: Phase::Settling, ..s },
                    ActionModel::Resume { who, signal: None },
                ),
                Status::Other { source: None } => result == wait,
            }
        }),
{
}

/// What a request that failed leads to: while the run is set up, an error that names the step; while
/// any process is waited for, the end where none is left, nothing where the wait was interrupted,
/// and an error otherwise; and while a hit is handled, nothing where the thread is gone, and an
/// error otherwise.
pub proof fn lemma_failures(
    s: SessionModel,
    symbols: symbols::SymbolsModel,
    sites: Seq<(u64, usize)>,
    kind: FailureKind,
    message: String,
)
    requires
        session_wf(s),
        fits(s.phase, Event::Failed { kind, message }),
    ensures
        ({
            let (after, action) = transition(s, symbols, Event::Failed { kind, message }, sites);
            let fails = |text: Seq<char>|
                after == (SessionModel { error: Some(text), phase: Phase::Failing, ..s }) && action
                    == ActionModel::KillGroup;
            let waits = after == (SessionModel { phase: Phase::Waiting, ..s }) && action
                == ActionModel::WaitGroup;
            match s.phase {
                Phase::Launched => fails("waitpid: "@ + message@),
                Phase::Loading => fails("can't read auxv: "@ + message@),
                Phase::Arming { next } => fails(
                    "can't set breakpoint at "@ + text::prefixed_hex(
                        s.sites[next as int].0 as nat,
                    ) + ": "@ + message@,
                ),
                Phase::Configuring => fails("setoptions: "@ + message@),
                Phase::Starting => fails("cont: "@ + message@),
                Phase::Waiting => match kind {
                    FailureKind::NoChild => if s.outcome is Some {
                        after == (SessionModel { phase: Phase::Ended, ..s }) && action
                            == ActionModel::End(Ok(s.outcome->0))
                    } else {
                        fails("lost track of the process"@)
                    },
                    FailureKind::Interrupted => waits,
                    _ => fails("waitpid: "@ + message@),
                },
                _ => if kind == FailureKind::Gone {
                    waits
                } else {
                    fails("ptrace: "@ + message@)
                },
            }
        }),
{
}

/// A call is recorded exactly where the word on top of a thread's stack becomes known behind a trap:
/// one call of the trap's node, from the function that holds the byte before the return address,
/// with the bias taken off. Nothing else is recorded.
pub proof fn lemma_recorded_once(
    s: SessionModel,
    symbols: symbols::SymbolsModel,
    event: Event,
    t: trace::TraceModel,
)
    ensures
        s.phase is Calling && event is Word ==> traced(s, symbols, event, t) == trace::recorded(
            t,
            symbols::node_of(
                symbols.ranges,
                ((event->Word_0 - 1 - s.bias) % 0x1_0000_0000_0000_0000) as u64,
            ),
            s.breakpoints[s.phase->Calling_address].node,
            1,
        ),
        !(s.phase is Calling && event is Word) ==> traced(s, symbols, event, t) == t,
{
    if s.phase is Calling && event is Word {
        let word = event->Word_0;
        trace::lemma_addresses_wrap(word, 1);
        trace::lemma_addresses_wrap(trace::address_minus(word, 1), s.bias);
        let w = 0x1_0000_0000_0000_0000int;
        assert(((word - 1) % w - s.bias) % w == (word - 1 - s.bias) % w);
    }
}

/// The sites are, in the loaded program, the starts of the functions in their order, each with its
/// node, and behind them the stubs that stand where no function starts, each with its node and
/// each once.
pub proof fn lemma_sites(
    sites: Seq<(u64, usize)>,
    symbols: symbols::SymbolsModel,
    bias: u64,
    i: int,
    stub: u64,
)
    requires
        lists_sites(sites, symbols, bias),
        symbols::starts_ascend(symbols.ranges),
    ensures
        ({
            let n = symbols.ranges.len();
            let starts = |address: u64|
                exists|k: int| 0 <= k < n && (#[trigger] symbols.ranges[k]).start == address;
            let moved = |address: u64| (address + bias) % 0x1_0000_0000_0000_0000;
            &&& n <= sites.len()
            &&& 0 <= i < n ==> sites[i].0 == moved(symbols.ranges[i].start) && sites[i].1
                == symbols.ranges[i].node
            &&& n <= i < sites.len() ==> exists|address: u64| #[trigger]
                symbols.stubs.contains_key(address) && !starts(address) && sites[i].0 == moved(
                    address,
                ) && sites[i].1 == symbols.stubs[address]
            &&& symbols.stubs.contains_key(stub) && !starts(stub) ==> exists|k: int|
                n <= k < sites.len() && (#[trigger] sites[k]).0 == moved(stub) && sites[k].1
                    == symbols.stubs[stub]
        }),
{
    let n = symbols.ranges.len();
    if 0 <= i < n {
        trace::lemma_addresses_wrap(symbols.ranges[i].start, bias);
        assert(sites[i].1 == symbols.ranges[i].node);
    }
    if n <= i < sites.len() {
        let address = trace::address_minus(sites[i].0, bias);
        lemma_bias_round_trip(sites[i].0, bias);
        trace::lemma_addresses_wrap(address, bias);
        assert(entered_at(symbols, address) == Some(sites[i].1));
        if exists|k: int| starts_at(symbols.ranges, address, k) {
            let k = choose|k: int| starts_at(symbols.ranges, address, k);
            assert(sites[k].0 == trace::address_plus(address, bias));
            assert(sites[k].0 != sites[i].0);
        }
        if exists|k: int| 0 <= k < n && (#[trigger] symbols.ranges[k]).start == address {
            let k = choose|k: int| 0 <= k < n && (#[trigger] symbols.ranges[k]).start == address;
            assert(starts_at(symbols.ranges, address, k));
        }
        assert(symbols.stubs.contains_key(address));
    }
    if symbols.stubs.contains_key(stub) && !(exists|k: int|
        0 <= k < n && (#[trigger] symbols.ranges[k]).start == stub) {
        if exists|k: int| starts_at(symbols.ranges, stub, k) {
            let k = choose|k: int| starts_at(symbols.ranges, stub, k);
            assert(symbols.ranges[k].start == stub);
        }
        assert(entered_at(symbols, stub) == Some(symbols.stubs[stub]));
        let k = choose|k: int|
            0 <= k < sites.len() && (#[trigger] sites[k]).0 == trace::address_plus(stub, bias);
        trace::lemma_addresses_wrap(stub, bias);
        lemma_bias_round_trip(stub, bias);
        assert(entered_at(symbols, trace::address_minus(sites[k].0, bias)) == Some(sites[k].1));
        if k < n {
            lemma_bias_round_trip(symbols.ranges[k].start, bias);
            assert(sites[k].0 == trace::address_plus(symbols.ranges[k].start, bias));
            assert(symbols.ranges[k].start == stub);
        }
    }
}

/// There is room for the next event unless it can record a call of a node whose count is as large
/// as a count can be.
pub proof fn lemma_room(s: SessionModel, t: trace::TraceModel)
    ensures
        !(s.phase is Calling) ==> has_room(s, t),
        s.phase is Calling ==> (has_room(s, t) <==> ({
            let node = s.breakpoints[s.phase->Calling_address].node;
            !t.node_hits.contains_key(node) || t.node_hits[node] < 0xffff_ffff_ffff_ffff
        })),
{
}

/// Which events can follow: a wait is answered with a report, a reading with what was read, a byte
/// that is placed with the one that it replaced, and other requests with nothing; all but those
/// whose failure does not matter can also fail, and nothing follows the end.
pub proof fn lemma_fitting_events(phase: Phase, event: Event)
    ensures
        phase is Ended ==> !fits(phase, event),
        event is Failed ==> (fits(phase, event) <==> !(phase is Settling || phase is Failing
            || phase is Ended)),
        event is Status ==> (fits(phase, event) <==> phase is Launched || phase is Waiting || phase
            is Stepped),
        event is Auxv ==> (fits(phase, event) <==> phase is Loading),
        event is Placed ==> (fits(phase, event) <==> phase is Arming || phase is Restoring || phase
            is Rearming),
        event is Registers ==> (fits(phase, event) <==> phase is Trapped),
        event is Word ==> (fits(phase, event) <==> phase is Calling),
        event is Done ==> (fits(phase, event) <==> phase is Configuring || phase is Starting || phase
            is Rewinding || phase is Stepping || phase is Settling || phase is Failing),
{
}

} // verus!
