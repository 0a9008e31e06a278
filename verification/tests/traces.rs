use binary2graph::binary::Function;
use binary2graph::hits::EdgeHits;
use binary2graph::session::{
    breakpoint_sites, Action, Event, FailureKind, Phase, Session, Signal, Status, TRAP,
};
use binary2graph::symbols::Symbols;
use binary2graph::trace::{
    conclude, edge_key, input_failed, input_name, keep_output, launch_failed, load_bias, low_byte,
    output_text, patch_word, prepare_args, timed_out_outcome, InputSpec, Outcome, Target, Trace,
    OUTPUT_LIMIT,
};
use std::collections::HashMap;
use vstd::hash_map::StringHashMap;

fn function(name: &str, address: u64, size: u64) -> Function {
    Function { name: name.to_string(), address, size, instructions: 0, calls_out: 0, exported: false }
}

fn index(names: &[&str]) -> StringHashMap<usize> {
    let mut map = StringHashMap::new();
    for (i, name) in names.iter().enumerate() {
        map.insert(name.to_string(), i);
    }
    map
}

/// `main` at 0x1000 to 0x1010, `helper` at 0x1010 to 0x1020, and the stub of `puts` at 0x2000.
fn symbols() -> Symbols {
    let mut plt: HashMap<u64, String> = HashMap::new();
    plt.insert(0x2000, "puts".to_string());
    plt.insert(0x2010, "unknown".to_string());
    Symbols::new(
        &[
            function("helper", 0x1010, 0x10),
            function("alias", 0x1000, 0x8),
            function("main", 0x1000, 0x10),
            function("absent", 0x1000, 0x4),
        ],
        &plt,
        &index(&["main", "helper", "puts", "alias"]),
    )
}

fn target(args: &[&str]) -> Target {
    Target {
        path: "./a.out".to_string(),
        args: args.iter().map(|a| a.to_string()).collect(),
        entry_point: 0x1000,
        symbols: symbols(),
        timeout: 10,
    }
}

#[test]
fn an_address_belongs_to_the_function_around_it() {
    let s = symbols();
    assert_eq!(s.node_at(0xfff), None);
    assert_eq!(s.node_at(0x1000), Some(0));
    assert_eq!(s.node_at(0x100f), Some(0));
    assert_eq!(s.node_at(0x1010), Some(1));
    assert_eq!(s.node_at(0x1020), None);
    assert_eq!(s.node_at(0x2000), None);
}

#[test]
fn nodes_are_entered_at_functions_and_stubs() {
    assert_eq!(symbols().entries(), vec![(0x1000, 0), (0x1010, 1), (0x2000, 2)]);
    let sites = breakpoint_sites(&symbols(), 0x5000);
    assert_eq!(sites, vec![(0x6000, 0), (0x6010, 1), (0x7000, 2)]);
    let wrapped = breakpoint_sites(&symbols(), u64::MAX);
    assert_eq!(wrapped, vec![(0xfff, 0), (0x100f, 1), (0x1fff, 2)]);
}

#[test]
fn functions_are_entered_in_their_order_before_the_stubs() {
    let mut plt: HashMap<u64, String> = HashMap::new();
    plt.insert(0x10, "puts".to_string());
    plt.insert(0x20, "exit".to_string());
    plt.insert(0x3000, "main".to_string());
    let functions = [function("main", 0x3000, 4), function("helper", 0x1000, 4)];
    let s = Symbols::new(&functions, &plt, &index(&["main", "helper", "puts", "exit"]));
    let mut sites = breakpoint_sites(&s, u64::MAX - 0x1fff);
    assert_eq!(sites[..2], [(u64::MAX - 0xfff, 1), (0x1000, 0)]);
    sites[2..].sort();
    assert_eq!(sites[2..], [(u64::MAX - 0x1fef, 2), (u64::MAX - 0x1fdf, 3)]);
}

#[test]
fn a_stub_at_a_functions_address_is_that_function() {
    let mut plt: HashMap<u64, String> = HashMap::new();
    plt.insert(0x1000, "puts".to_string());
    let s = Symbols::new(&[function("main", 0x1000, 4)], &plt, &index(&["main", "puts"]));
    assert_eq!(s.entries(), vec![(0x1000, 0), (0x1000, 1)]);
    assert_eq!(breakpoint_sites(&s, 0), vec![(0x1000, 0)]);
}

#[test]
fn a_function_whose_end_overflows_has_no_range() {
    let long = [function("main", 0x1000, u64::MAX)];
    assert!(Symbols::try_new(&long, &HashMap::new(), &index(&["main"])).is_none());
    let unknown = Symbols::try_new(&long, &HashMap::new(), &index(&["other"])).unwrap();
    assert_eq!(unknown.entries(), vec![]);
    let fits = [function("main", 0x1000, u64::MAX - 0x1000)];
    let s = Symbols::try_new(&fits, &HashMap::new(), &index(&["main"])).unwrap();
    assert_eq!(s.node_at(u64::MAX - 1), Some(0));
    assert_eq!(s.node_at(u64::MAX), None);
}

#[test]
fn edges_are_counted_by_their_ends() {
    let mut hits = EdgeHits::new();
    hits.add((3, 1), 2);
    hits.add((0, 9), 1);
    hits.add((3, 0), 5);
    hits.add((3, 1), 40);
    assert_eq!(hits.get((3, 1)), Some(42));
    assert_eq!(hits.get((3, 0)), Some(5));
    assert_eq!(hits.get((1, 3)), None);
    assert_eq!(hits.edges(), vec![(0, 9), (3, 0), (3, 1)]);
}

#[test]
fn a_trace_counts_nodes_and_edges() {
    let mut t = Trace::default();
    t.call(None, 4, 1);
    t.call(Some(4), 2, 3);
    t.call(Some(1), 2, 1);
    t.call(Some(4), 2, 1);
    assert_eq!(t.entered(2), 5);
    assert_eq!(t.entered(9), 0);
    let r = t.finish(Outcome::exited(7), "out".to_string(), "err".to_string());
    assert_eq!(r.executed_nodes, vec![2, 4]);
    assert_eq!(r.executed_edges, vec![(1, 2), (4, 2)]);
    assert_eq!(r.node_hits.get(&2), Some(&5));
    assert_eq!(r.edge_hits.get((4, 2)), Some(4));
    assert_eq!(r.exit_code, Some(7));
    assert_eq!(r.error, None);
    assert_eq!((r.stdout.as_str(), r.stderr.as_str()), ("out", "err"));
}

fn recorded(calls: &[(Option<usize>, usize, u64)]) -> Vec<(usize, usize, u64)> {
    let mut t = Trace::new();
    for &(caller, callee, count) in calls {
        t.call(caller, callee, count);
    }
    let r = t.finish(Outcome::exited(0), String::new(), String::new());
    for node in &r.executed_nodes {
        let taken: u64 = r
            .executed_edges
            .iter()
            .filter(|edge| edge.1 == *node)
            .map(|edge| r.edge_hits.get(*edge).unwrap())
            .sum();
        assert!(taken <= r.node_hits[node]);
    }
    let mut all: Vec<(usize, usize, u64)> =
        r.executed_edges.iter().map(|&(a, b)| (a, b, r.edge_hits.get((a, b)).unwrap())).collect();
    all.extend(r.executed_nodes.iter().map(|n| (*n, usize::MAX, r.node_hits[n])));
    all
}

#[test]
fn the_order_of_the_calls_makes_no_difference() {
    let calls =
        [(None, 2, 1), (Some(1), 2, 3), (Some(3), 2, 4), (Some(1), 2, 5), (Some(2), 1, 0)];
    let one = recorded(&calls);
    assert_eq!(one, vec![(1, 2, 8), (2, 1, 0), (3, 2, 4), (1, usize::MAX, 0), (2, usize::MAX, 13)]);
    for first in 0..calls.len() {
        let mut turned = calls;
        turned.rotate_left(first);
        assert_eq!(recorded(&turned), one);
        turned.reverse();
        assert_eq!(recorded(&turned), one);
    }
}

#[test]
fn calls_along_one_edge_add_up() {
    assert_eq!(
        recorded(&[(Some(1), 2, 3), (Some(1), 2, 4)]),
        recorded(&[(Some(1), 2, 7)])
    );
    assert_eq!(
        recorded(&[(None, 2, u64::MAX - 1), (None, 2, 1)]),
        recorded(&[(None, 2, u64::MAX)])
    );
}

#[test]
fn outcomes_say_what_went_wrong() {
    assert_eq!(Outcome::signaled("SIGSEGV").error.as_deref(), Some("killed by SIGSEGV"));
    assert_eq!(Outcome::failed("x".to_string()).exit_code, None);
    let late = timed_out_outcome(Outcome::signaled("SIGKILL"), true, &target(&[]));
    assert_eq!(late.error.as_deref(), Some("timed out after 10 s"));
    let in_time = timed_out_outcome(Outcome::signaled("SIGKILL"), false, &target(&[]));
    assert_eq!(in_time.error.as_deref(), Some("killed by SIGKILL"));
    let exited = timed_out_outcome(Outcome::exited(3), true, &target(&[]));
    assert_eq!((exited.exit_code, exited.error), (Some(3), None));
}

#[test]
fn runs_that_never_start_have_an_error_and_nothing_else() {
    let r = input_failed("disk full");
    assert_eq!(r.error.as_deref(), Some("can't write input file: disk full"));
    assert!(r.executed_nodes.is_empty() && r.node_hits.is_empty() && r.stdout.is_empty());
    let r = launch_failed(&target(&[]), "not found");
    assert_eq!(r.error.as_deref(), Some("can't run ./a.out: not found"));
    let r = conclude(Trace::new(), Err("cont: gone".to_string()), true, &target(&[]), String::new(), String::new());
    assert_eq!(r.error.as_deref(), Some("timed out after 10 s"));
    let r = conclude(Trace::new(), Err("cont: gone".to_string()), false, &target(&[]), String::new(), String::new());
    assert_eq!(r.error.as_deref(), Some("cont: gone"));
}

#[test]
fn edges_and_inputs_have_names() {
    assert_eq!(edge_key(12, 3), "12-3");
    assert_ne!(edge_key(1, 23), edge_key(12, 3));
    assert_eq!(input_name(77, 0), "binary2graph-input-77-0");
}

fn input(args: &[&str], file: bool) -> InputSpec {
    InputSpec {
        stdin: None,
        args: args.iter().map(|a| a.to_string()).collect(),
        input_file: if file { Some(vec![1]) } else { None },
    }
}

#[test]
fn the_input_file_takes_the_place_of_its_markers() {
    let t = target(&["-i", "@@"]);
    assert_eq!(prepare_args(&t, &input(&["x", "@@"], true), "/tmp/f"), vec!["-i", "/tmp/f", "x", "/tmp/f"]);
    assert_eq!(prepare_args(&t, &input(&["x"], false), "/tmp/f"), vec!["-i", "@@", "x"]);
    assert_eq!(prepare_args(&target(&["a"]), &input(&["@@@"], true), "/tmp/f"), vec!["a", "@@@", "/tmp/f"]);
}

#[test]
fn output_is_kept_up_to_the_limit() {
    let mut kept: Vec<u8> = Vec::new();
    keep_output(&mut kept, b"ab");
    keep_output(&mut kept, b"");
    assert_eq!(kept, b"ab");
    keep_output(&mut kept, &vec![b'x'; OUTPUT_LIMIT - 3]);
    keep_output(&mut kept, b"yz");
    keep_output(&mut kept, b"more");
    assert_eq!(kept.len(), OUTPUT_LIMIT);
    assert_eq!(kept[OUTPUT_LIMIT - 1], b'y');
    assert_eq!(output_text(&b"a\xc3\xb1\xff".to_vec()), "a\u{f1}\u{fffd}");
}

fn auxv(list: &[(u64, u64)]) -> Vec<u8> {
    let mut out = Vec::new();
    for (key, value) in list {
        out.extend_from_slice(&key.to_le_bytes());
        out.extend_from_slice(&value.to_le_bytes());
    }
    out
}

#[test]
fn the_bias_is_the_distance_of_the_entry_points() {
    assert_eq!(load_bias(&auxv(&[(3, 1), (9, 0x6000), (9, 1)]), 0x1000), Ok(0x5000));
    assert_eq!(load_bias(&auxv(&[(9, 0x1000)]), 0x1000), Ok(0));
    assert_eq!(load_bias(&auxv(&[(9, 0)]), 1), Ok(u64::MAX));
    assert_eq!(load_bias(&auxv(&[(3, 9)]), 1), Err("no AT_ENTRY in auxv".to_string()));
    let short = auxv(&[(9, 5)]);
    assert!(load_bias(&short[..15], 1).is_err());
}

#[test]
fn a_byte_is_patched_into_its_word_and_back() {
    let word = 0xfedc_ba98_7654_3210;
    assert_eq!(patch_word(word, TRAP), 0xfedc_ba98_7654_32cc);
    assert_eq!(low_byte(word), 0x10);
    assert_eq!(patch_word(patch_word(word, TRAP), low_byte(word)), word);
}

fn status(status: Status) -> Event {
    Event::Status { status, shown: "shown".to_string() }
}

fn failed(kind: FailureKind, message: &str) -> Event {
    Event::Failed { kind, message: message.to_string() }
}

/// A session whose traps are placed and whose root process runs.
fn running(symbols: &Symbols, t: &mut Trace) -> Session {
    let (mut s, first) = Session::new(100, 0x1000);
    assert!(matches!(first, Action::WaitRoot));
    let next = s.advance(symbols, t, status(Status::Stopped { who: 100, signal: Signal::Trap }));
    assert!(matches!(next, Action::ReadAuxv));
    let mut next = s.advance(symbols, t, Event::Auxv(auxv(&[(9, 0x6000)])));
    let mut placed = Vec::new();
    while let Action::PlaceByte { who, address, byte } = next {
        assert_eq!((who, byte), (100, TRAP));
        placed.push(address);
        next = s.advance(symbols, t, Event::Placed { original: (address >> 4) as u8 });
    }
    assert_eq!(placed, vec![0x6000, 0x6010, 0x7000]);
    assert!(matches!(next, Action::SetOptions));
    assert!(matches!(s.advance(symbols, t, Event::Done), Action::Start));
    assert!(matches!(s.advance(symbols, t, Event::Done), Action::WaitGroup));
    assert_eq!(s.phase(), Phase::Waiting);
    s
}

/// What a session that goes wrong with this event ends with, once the group was killed.
fn error_of(s: &mut Session, symbols: &Symbols, t: &mut Trace, event: Event) -> String {
    assert!(matches!(s.advance(symbols, t, event), Action::KillGroup));
    assert_eq!(s.phase(), Phase::Failing);
    match s.advance(symbols, t, Event::Done) {
        Action::End(Err(message)) => {
            assert_eq!(s.phase(), Phase::Ended);
            message
        }
        _ => panic!("not the end"),
    }
}

#[test]
fn a_hit_is_recorded_and_its_trap_placed_again() {
    let symbols = symbols();
    let mut t = Trace::new();
    let mut s = running(&symbols, &mut t);
    let stop = status(Status::Stopped { who: 101, signal: Signal::Trap });
    assert!(matches!(s.advance(&symbols, &mut t, stop), Action::ReadRegisters { who: 101 }));
    let registers = Event::Registers { ip: 0x6011, sp: 0xbeef };
    assert!(matches!(
        s.advance(&symbols, &mut t, registers),
        Action::ReadWord { who: 101, address: 0xbeef }
    ));
    assert!(s.has_room(&t));
    assert!(matches!(
        s.advance(&symbols, &mut t, Event::Word(0x6010)),
        Action::PlaceByte { who: 101, address: 0x6010, byte: 0x01 }
    ));
    assert!(matches!(
        s.advance(&symbols, &mut t, Event::Placed { original: TRAP }),
        Action::Rewind { who: 101, address: 0x6010 }
    ));
    assert!(matches!(s.advance(&symbols, &mut t, Event::Done), Action::Step { who: 101 }));
    assert!(matches!(s.advance(&symbols, &mut t, Event::Done), Action::WaitThread { who: 101 }));
    let stepped = status(Status::Stopped { who: 101, signal: Signal::Other(10) });
    assert!(matches!(
        s.advance(&symbols, &mut t, stepped),
        Action::PlaceByte { who: 101, address: 0x6010, byte: TRAP }
    ));
    assert!(matches!(
        s.advance(&symbols, &mut t, Event::Placed { original: 0x01 }),
        Action::Resume { who: 101, signal: Some(Signal::Other(10)) }
    ));
    assert!(matches!(s.advance(&symbols, &mut t, Event::Done), Action::WaitGroup));
    // The return address is the first byte of `helper`, so the call ended `main`.
    assert_eq!(t.entered(1), 1);
    let r = t.finish(Outcome::exited(0), String::new(), String::new());
    assert_eq!(r.executed_edges, vec![(0, 1)]);
}

#[test]
fn a_trap_that_is_not_ours_is_passed_over() {
    let symbols = symbols();
    let mut t = Trace::new();
    let mut s = running(&symbols, &mut t);
    s.advance(&symbols, &mut t, status(Status::Stopped { who: 100, signal: Signal::Trap }));
    assert!(matches!(
        s.advance(&symbols, &mut t, Event::Registers { ip: 0x6000, sp: 0 }),
        Action::Resume { who: 100, signal: None }
    ));
}

#[test]
fn signals_reach_the_thread_but_for_the_attach_stop() {
    let symbols = symbols();
    let mut t = Trace::new();
    let mut s = running(&symbols, &mut t);
    let stop = status(Status::Stopped { who: 7, signal: Signal::Stop });
    assert!(matches!(
        s.advance(&symbols, &mut t, stop),
        Action::Resume { who: 7, signal: None }
    ));
    s.advance(&symbols, &mut t, Event::Done);
    let usr = status(Status::Stopped { who: 7, signal: Signal::Other(12) });
    assert!(matches!(
        s.advance(&symbols, &mut t, usr),
        Action::Resume { who: 7, signal: Some(Signal::Other(12)) }
    ));
    s.advance(&symbols, &mut t, Event::Done);
    let other = status(Status::Other { source: Some(8) });
    assert!(matches!(s.advance(&symbols, &mut t, other), Action::Resume { who: 8, signal: None }));
    s.advance(&symbols, &mut t, Event::Done);
    let nobody = status(Status::Other { source: None });
    assert!(matches!(s.advance(&symbols, &mut t, nobody), Action::WaitGroup));
}

#[test]
fn the_root_process_decides_the_outcome() {
    let symbols = symbols();
    let mut t = Trace::new();
    let mut s = running(&symbols, &mut t);
    let child = status(Status::Exited { who: 101, code: 9 });
    assert!(matches!(s.advance(&symbols, &mut t, child), Action::WaitGroup));
    let root = status(Status::Exited { who: 100, code: 3 });
    assert!(matches!(s.advance(&symbols, &mut t, root), Action::KillGroup));
    assert!(matches!(s.advance(&symbols, &mut t, Event::Done), Action::WaitGroup));
    let interrupted = failed(FailureKind::Interrupted, "EINTR");
    assert!(matches!(s.advance(&symbols, &mut t, interrupted), Action::WaitGroup));
    match s.advance(&symbols, &mut t, failed(FailureKind::NoChild, "ECHILD")) {
        Action::End(Ok(outcome)) => assert_eq!(outcome.exit_code, Some(3)),
        _ => panic!("not the end"),
    }
    assert_eq!(s.phase(), Phase::Ended);
}

#[test]
fn a_root_process_that_is_killed_has_no_exit_code() {
    let symbols = symbols();
    let mut t = Trace::new();
    let mut s = running(&symbols, &mut t);
    let killed = status(Status::Signaled { who: 100, name: "SIGSEGV".to_string() });
    assert!(matches!(s.advance(&symbols, &mut t, killed), Action::KillGroup));
    s.advance(&symbols, &mut t, Event::Done);
    match s.advance(&symbols, &mut t, failed(FailureKind::NoChild, "ECHILD")) {
        Action::End(Ok(outcome)) => assert_eq!(outcome.error.as_deref(), Some("killed by SIGSEGV")),
        _ => panic!("not the end"),
    }
}

#[test]
fn a_thread_that_vanishes_is_let_go() {
    let symbols = symbols();
    let mut t = Trace::new();
    let mut s = running(&symbols, &mut t);
    s.advance(&symbols, &mut t, status(Status::Stopped { who: 100, signal: Signal::Trap }));
    let gone = failed(FailureKind::Gone, "ESRCH");
    assert!(matches!(s.advance(&symbols, &mut t, gone), Action::WaitGroup));
    s.advance(&symbols, &mut t, status(Status::Stopped { who: 100, signal: Signal::Trap }));
    let broken = failed(FailureKind::Other, "EIO");
    assert_eq!(error_of(&mut s, &symbols, &mut t, broken), "ptrace: EIO");
}

#[test]
fn an_end_in_the_middle_of_a_step_is_taken_up() {
    let symbols = symbols();
    let mut t = Trace::new();
    let mut s = running(&symbols, &mut t);
    s.advance(&symbols, &mut t, status(Status::Stopped { who: 100, signal: Signal::Trap }));
    s.advance(&symbols, &mut t, Event::Registers { ip: 0x6001, sp: 0 });
    s.advance(&symbols, &mut t, Event::Word(0));
    s.advance(&symbols, &mut t, Event::Placed { original: TRAP });
    s.advance(&symbols, &mut t, Event::Done);
    s.advance(&symbols, &mut t, Event::Done);
    let root = status(Status::Exited { who: 100, code: 0 });
    assert!(matches!(s.advance(&symbols, &mut t, root), Action::KillGroup));
    assert_eq!(t.entered(0), 1);
}

#[test]
fn every_step_of_the_start_can_fail() {
    let symbols = symbols();
    let mut t = Trace::new();
    let oops = || failed(FailureKind::Other, "oops");

    let (mut s, _) = Session::new(1, 0x1000);
    assert_eq!(error_of(&mut s, &symbols, &mut t, oops()), "waitpid: oops");

    let (mut s, _) = Session::new(1, 0x1000);
    let exited = status(Status::Exited { who: 1, code: 1 });
    assert_eq!(error_of(&mut s, &symbols, &mut t, exited), "unexpected state before exec: shown");

    let loading = |t: &mut Trace| {
        let (mut s, _) = Session::new(1, 0x1000);
        s.advance(&symbols, t, status(Status::Stopped { who: 1, signal: Signal::Trap }));
        s
    };
    let mut s = loading(&mut t);
    assert_eq!(error_of(&mut s, &symbols, &mut t, oops()), "can't read auxv: oops");
    let mut s = loading(&mut t);
    assert_eq!(error_of(&mut s, &symbols, &mut t, Event::Auxv(Vec::new())), "no AT_ENTRY in auxv");
    let mut s = loading(&mut t);
    s.advance(&symbols, &mut t, Event::Auxv(auxv(&[(9, 0x1000)])));
    assert_eq!(
        error_of(&mut s, &symbols, &mut t, oops()),
        "can't set breakpoint at 0x1000: oops"
    );

    let empty = Symbols::new(&[], &HashMap::new(), &StringHashMap::new());
    let mut s = loading(&mut t);
    let next = s.advance(&empty, &mut t, Event::Auxv(auxv(&[(9, 0x1000)])));
    assert!(matches!(next, Action::SetOptions));
    assert_eq!(error_of(&mut s, &empty, &mut t, oops()), "setoptions: oops");
    let mut s = loading(&mut t);
    s.advance(&empty, &mut t, Event::Auxv(auxv(&[(9, 0x1000)])));
    s.advance(&empty, &mut t, Event::Done);
    assert_eq!(error_of(&mut s, &empty, &mut t, oops()), "cont: oops");
}

#[test]
fn a_process_without_a_report_is_lost() {
    let symbols = symbols();
    let mut t = Trace::new();
    let mut s = running(&symbols, &mut t);
    let none = failed(FailureKind::NoChild, "ECHILD");
    assert_eq!(error_of(&mut s, &symbols, &mut t, none), "lost track of the process");
    let mut s = running(&symbols, &mut t);
    let other = failed(FailureKind::Other, "EINVAL");
    assert_eq!(error_of(&mut s, &symbols, &mut t, other), "waitpid: EINVAL");
}
