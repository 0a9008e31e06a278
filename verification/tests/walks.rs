use binary2graph::binary::Function;
use binary2graph::callgraph::{GraphExport, Node, NodeKind};
use binary2graph::info::BinaryInfo;
use binary2graph::neighborhood::{
    default_budget, default_depth, default_dir, has_more, neighbors, step_targets, walk,
};
use binary2graph::overview::{meta, roots, roots_body};
use binary2graph::runs::{accept_run, prepare_run, RunRequest};
use binary2graph::search::{search, search_lowered};
use binary2graph::server::{index_nodes, AppState, Refusal};
use binary2graph::symbols::Symbols;
use binary2graph::trace::{Engine, Target, TIMEOUT};
use binary2graph::walk::{parse_dir, walk_links, Dir};
use std::collections::HashMap;
use vstd::hash_map::StringHashMap;

fn info(entry_point: u64) -> BinaryInfo {
    BinaryInfo {
        format: "Elf".to_string(),
        architecture: "X86_64".to_string(),
        bits: 64,
        endianness: "Little".to_string(),
        kind: "Executable".to_string(),
        entry_point,
        interpreter: None,
        compiler: Vec::new(),
        needed_libs: Vec::new(),
        stripped: false,
        instrumentation: Vec::new(),
        sections: Vec::new(),
        hardening: None,
    }
}

fn target() -> Target {
    Target {
        path: "a.out".to_string(),
        args: Vec::new(),
        entry_point: 0,
        symbols: Symbols::new(&[], &HashMap::new(), &StringHashMap::new()),
        timeout: TIMEOUT,
    }
}

fn function(name: &str, address: u64, exported: bool) -> Function {
    Function { name: name.to_string(), address, size: 1, instructions: 0, calls_out: 0, exported }
}

fn state(nodes: &[(&str, NodeKind)], edges: &[(usize, usize)], functions: Vec<Function>) -> AppState {
    let export = GraphExport {
        nodes: nodes.iter().map(|&(name, kind)| Node { name: name.to_string(), kind }).collect(),
        edges: edges.to_vec(),
    };
    AppState::new("a.out".to_string(), info(0x10), functions, target(), export, "{}".to_string())
}

/// A small program: `main` calls `parse` twice and `print`, both of which call on.
fn sample_state() -> AppState {
    state(
        &[
            ("main", NodeKind::Local),
            ("parse", NodeKind::Local),
            ("print", NodeKind::Local),
            ("Printf", NodeKind::Plt),
            ("sub_77", NodeKind::Unknown),
        ],
        &[(0, 1), (0, 2), (0, 1), (1, 3), (2, 3), (3, 4)],
        vec![
            function("parse", 0x20, true),
            function("main", 0x10, true),
            function("unused_print", 0x30, false),
            function("gone", 0x40, true),
        ],
    )
}

#[test]
fn directions_have_three_names() {
    assert_eq!(parse_dir("out"), Some(Dir::Out));
    assert_eq!(parse_dir("in"), Some(Dir::In));
    assert_eq!(parse_dir("both"), Some(Dir::Both));
    assert_eq!(parse_dir("Out"), None);
    assert_eq!(parse_dir(""), None);
}

#[test]
fn walk_is_breadth_first() {
    let forward = vec![vec![1, 2], vec![3], vec![3], vec![]];
    let backward = vec![vec![], vec![0], vec![0], vec![1, 2]];
    let (order, visited, truncated) = walk_links(&forward, &backward, 0, 5, Dir::Out, 10);
    assert_eq!(order, vec![0, 1, 2, 3]);
    assert_eq!(visited, vec![true; 4]);
    assert!(!truncated);
}

#[test]
fn the_state_lists_neighbours_and_degrees() {
    let s = sample_state();
    assert_eq!(s.out_adj, vec![vec![1, 2], vec![3], vec![3], vec![4], vec![]]);
    assert_eq!(s.in_adj, vec![vec![], vec![0], vec![0], vec![1, 2], vec![3]]);
    assert_eq!(s.out_degree, vec![3, 1, 1, 1, 0]);
    assert_eq!(s.in_degree, vec![0, 2, 1, 2, 1]);
    assert_eq!(s.edge_count, 6);
    assert_eq!(s.name_to_idx.get("Printf"), Some(&3));
    assert_eq!(s.name_to_idx.get("gone"), None);
}

#[test]
fn a_name_that_occurs_twice_leads_to_its_last_node() {
    let s = state(&[("a", NodeKind::Local), ("a", NodeKind::Plt)], &[], Vec::new());
    assert_eq!(s.name_to_idx.get("a"), Some(&1));
    let nodes = [
        Node { name: "x".to_string(), kind: NodeKind::Local },
        Node { name: "y".to_string(), kind: NodeKind::Plt },
        Node { name: "x".to_string(), kind: NodeKind::Plt },
    ];
    let index = index_nodes(&nodes);
    assert_eq!((index.get("x"), index.get("y"), index.get("z")), (Some(&2), Some(&1), None));
}

#[test]
fn one_step_goes_where_it_is_asked_to() {
    let s = sample_state();
    assert_eq!(step_targets(&s, 3, Dir::Out), vec![4]);
    assert_eq!(step_targets(&s, 3, Dir::In), vec![1, 2]);
    assert_eq!(step_targets(&s, 3, Dir::Both), vec![4, 1, 2]);
}

#[test]
fn a_walk_stops_at_its_depth() {
    let s = sample_state();
    let (order, visited, truncated) = walk(&s, 0, 1, Dir::Out, 200);
    assert_eq!(order, vec![0, 1, 2]);
    assert_eq!(visited, vec![true, true, true, false, false]);
    assert!(!truncated);
    assert_eq!(walk(&s, 0, 0, Dir::Out, 200).0, vec![0]);
    assert_eq!(walk(&s, 3, u32::MAX, Dir::In, 200).0, vec![3, 1, 2, 0]);
}

#[test]
fn a_walk_stops_at_its_budget() {
    let s = sample_state();
    let (order, visited, truncated) = walk(&s, 0, 9, Dir::Out, 4);
    assert_eq!(order, vec![0, 1, 2, 3]);
    assert!(!visited[4]);
    assert!(truncated);
    assert_eq!(walk(&s, 0, 9, Dir::Out, 5), (vec![0, 1, 2, 3, 4], vec![true; 5], false));
    assert_eq!(walk(&s, 0, 9, Dir::Out, 0), (vec![], vec![false; 5], true));
    assert_eq!(walk(&s, 0, 0, Dir::Out, 1), (vec![0], vec![true, false, false, false, false], false));
}

#[test]
fn a_node_goes_on_where_a_neighbour_was_not_visited() {
    let s = sample_state();
    assert!(has_more(&s, 1, &[true, true, true, false, false]));
    assert!(!has_more(&s, 0, &[true, true, true, false, false]));
    assert!(has_more(&s, 4, &[true, true, true, false, true]));
}

#[test]
fn a_neighborhood_has_nodes_marks_and_edges() {
    let s = sample_state();
    let found = neighbors(&s, Some(1), 1, "both", 200).unwrap();
    let nodes: Vec<(usize, bool)> = found.nodes.iter().map(|n| (n.id, n.has_more)).collect();
    assert_eq!(nodes, vec![(1, false), (3, true), (0, true)]);
    assert_eq!(found.edges, vec![(0, 1), (1, 3)]);
    assert!(!found.truncated);

    let cut = neighbors(&s, Some(0), 2, "out", 2).unwrap();
    assert_eq!(cut.nodes.len(), 2);
    assert_eq!(cut.edges, vec![(0, 1)]);
    assert!(cut.truncated);

    let empty = neighbors(&s, Some(0), 2, "out", 0).unwrap();
    assert!(empty.nodes.is_empty() && empty.edges.is_empty() && empty.truncated);
}

#[test]
fn a_neighborhood_needs_a_node_and_a_direction() {
    let s = sample_state();
    assert_eq!(neighbors(&s, None, 1, "both", 9).err(), Some(Refusal::UnknownNode));
    assert_eq!(neighbors(&s, Some(5), 1, "nowhere", 9).err(), Some(Refusal::UnknownNode));
    assert_eq!(neighbors(&s, Some(4), 1, "nowhere", 9).err(), Some(Refusal::UnknownDir));
    assert_eq!(default_depth(), 1);
    assert_eq!(default_dir(), "both");
    assert_eq!(default_budget(), 200);
}

#[test]
fn refusals_have_a_status_and_a_text() {
    let all = [
        (Refusal::UnknownNode, 404, "unknown node"),
        (Refusal::UnknownDir, 400, "unknown dir"),
        (Refusal::UnknownEngine, 400, "unknown engine"),
        (Refusal::NotBase64, 400, "input_file is not base64"),
        (Refusal::RunFailed, 500, "run failed"),
    ];
    for (refusal, status, text) in all {
        assert_eq!(refusal.status(), status);
        assert_eq!(refusal.message(), text);
    }
}

#[test]
fn a_search_ranks_by_place_and_then_by_name() {
    let s = sample_state();
    let found = search(&s, Some("PRINT"));
    let names: Vec<&str> = found.matches.iter().map(|m| m.name.as_str()).collect();
    assert_eq!(names, vec!["Printf", "print", "unused_print"]);
    assert_eq!(found.total, 3);
    assert_eq!(found.matches[0].id, Some(3));
    assert_eq!(found.matches[0].kind, NodeKind::Plt);
    assert_eq!(found.matches[0].address, None);
    assert_eq!(found.matches[2].id, None);
    assert_eq!(found.matches[2].kind, NodeKind::Local);
    assert_eq!(found.matches[2].address, Some(0x30));
}

#[test]
fn a_function_is_found_once_and_with_its_address() {
    let s = sample_state();
    let found = search(&s, Some("parse"));
    assert_eq!(found.total, 1);
    assert_eq!(found.matches[0].id, Some(1));
    assert_eq!(found.matches[0].address, Some(0x20));
    assert_eq!(search(&s, Some("")).total, 0);
    assert_eq!(search(&s, None).total, 0);
    assert_eq!(search(&s, Some("zzz")).total, 0);
}

#[test]
fn a_search_lists_fifty_matches_at_most() {
    let names: Vec<String> = (0..60).map(|i| format!("f{:02}", 59 - i)).collect();
    let nodes: Vec<(&str, NodeKind)> = names.iter().map(|n| (n.as_str(), NodeKind::Local)).collect();
    let s = state(&nodes, &[], Vec::new());
    let found = search(&s, Some("f"));
    assert_eq!(found.total, 60);
    assert_eq!(found.matches.len(), 50);
    assert_eq!(found.matches[0].name, "f00");
    assert_eq!(found.matches[49].name, "f49");
}

#[test]
fn a_search_in_lowered_texts_goes_by_those() {
    let s = state(&[("A", NodeKind::Local), ("B", NodeKind::Plt)], &[], Vec::new());
    let lower = vec!["needle".to_string(), "no".to_string()];
    let found = search_lowered(&s, "dle", &Vec::new(), &lower);
    assert_eq!(found.total, 1);
    assert_eq!(found.matches[0].name, "A");
    assert_eq!(search_lowered(&s, "", &Vec::new(), &lower).total, 0);
}

#[test]
fn the_overview_counts_nodes_and_edges() {
    let s = sample_state();
    let m = meta(&s);
    assert_eq!((m.stats.nodes, m.stats.edges), (5, 6));
    assert_eq!(m.nodes[1].name, "parse");
    assert_eq!((m.nodes[1].in_degree, m.nodes[1].out_degree), (2, 1));
    assert_eq!(m.nodes[3].kind, NodeKind::Plt);
}

#[test]
fn the_roots_are_entry_exports_and_the_most_called() {
    let s = sample_state();
    let r = roots(&s);
    assert_eq!(r.entry, vec![0]);
    assert_eq!(r.exported, vec![1, 0]);
    assert_eq!(r.top, vec![1, 2]);

    let nodes: Vec<(String, NodeKind)> =
        (0..12).map(|i| (format!("n{}", i), NodeKind::Local)).collect();
    let named: Vec<(&str, NodeKind)> = nodes.iter().map(|(n, k)| (n.as_str(), *k)).collect();
    let mut edges: Vec<(usize, usize)> = (0..12).map(|i| (0, i)).collect();
    edges.push((1, 11));
    let top = roots(&state(&named, &edges, Vec::new())).top;
    assert_eq!(top, vec![11, 0, 1, 2, 3, 4, 5, 6, 7, 8]);
    assert!(roots(&state(&[], &[], vec![function("x", 0x10, true)])).entry.is_empty());
}

#[test]
fn the_roots_are_answered_in_json() {
    let body = roots_body(&sample_state());
    assert_eq!(body, "{\"entry\":[0],\"exported\":[1,0],\"top\":[1,2]}");
    let value: serde_json::Value = serde_json::from_str(&body).unwrap();
    assert_eq!(serde_json::to_string(&value).unwrap(), body);
    let none = roots_body(&state(&[], &[], Vec::new()));
    assert_eq!(none, "{\"entry\":[],\"exported\":[],\"top\":[]}");
}

#[test]
fn a_state_holds_the_answer_with_its_roots() {
    let s = sample_state();
    assert_eq!(s.roots_json, "{\"entry\":[0],\"exported\":[1,0],\"top\":[1,2]}");
    assert_eq!(s.roots_json, roots_body(&s));
    let none = state(&[], &[], Vec::new());
    assert_eq!(none.roots_json, "{\"entry\":[],\"exported\":[],\"top\":[]}");
}

const THREE: [(&str, NodeKind); 3] =
    [("a", NodeKind::Local), ("b", NodeKind::Local), ("c", NodeKind::Local)];

#[test]
fn the_order_of_the_edges_makes_no_difference() {
    let one = state(&THREE, &[(0, 1), (0, 2), (1, 2), (0, 1)], Vec::new());
    let two = state(&THREE, &[(1, 2), (0, 1), (0, 1), (0, 2)], Vec::new());
    assert_eq!(one.out_adj, vec![vec![1, 2], vec![2], vec![]]);
    assert_eq!(one.out_degree, vec![3, 1, 0]);
    assert_eq!((&one.out_adj, &one.in_adj), (&two.out_adj, &two.in_adj));
    assert_eq!((&one.out_degree, &one.in_degree), (&two.out_degree, &two.in_degree));
    assert_eq!((one.edge_count, one.roots_json), (two.edge_count, two.roots_json));
}

#[test]
fn an_edge_that_is_repeated_adds_to_degrees_alone() {
    let one = state(&THREE, &[(0, 1), (1, 2)], Vec::new());
    let two = state(&THREE, &[(0, 1), (1, 2), (0, 1)], Vec::new());
    assert_eq!((&one.out_adj, &one.in_adj), (&two.out_adj, &two.in_adj));
    assert_eq!((one.edge_count, two.edge_count), (2, 3));
    assert_eq!((one.out_degree, two.out_degree), (vec![1, 1, 0], vec![2, 1, 0]));
    assert_eq!((one.in_degree, two.in_degree), (vec![0, 1, 1], vec![0, 2, 1]));
}

#[test]
fn a_longer_walk_starts_with_the_shorter_one() {
    let forward = vec![vec![1, 2], vec![3], vec![3, 4], vec![], vec![0]];
    let backward = vec![vec![4], vec![0], vec![0], vec![1, 2], vec![2]];
    let (all, _, _) = walk_links(&forward, &backward, 0, 9, Dir::Out, 9);
    assert_eq!(all, vec![0, 1, 2, 3, 4]);
    for depth in 0..4 {
        for budget in 0..7 {
            let (part, _, _) = walk_links(&forward, &backward, 0, depth, Dir::Out, budget);
            assert!(all.starts_with(&part));
        }
    }
}

fn request(engine: &str, input_file: Option<&str>) -> RunRequest {
    RunRequest {
        engine: engine.to_string(),
        stdin: Some("in".to_string()),
        args: vec!["-v".to_string()],
        input_file: input_file.map(str::to_string),
    }
}

#[test]
fn a_run_needs_a_known_engine_and_decodable_input() {
    assert_eq!(prepare_run(request("gdb", Some("***"))).err(), Some(Refusal::UnknownEngine));
    assert_eq!(prepare_run(request("ptrace", Some("***"))).err(), Some(Refusal::NotBase64));
    assert_eq!(prepare_run(request("ptrace", Some("aGk"))).err(), Some(Refusal::NotBase64));
    let (engine, input) = prepare_run(request("ptrace", Some("aGkhCg=="))).ok().unwrap();
    assert_eq!(engine, Engine::Ptrace);
    assert_eq!(input.input_file, Some(b"hi!\n".to_vec()));
    assert_eq!(input.stdin.as_deref(), Some("in"));
    assert_eq!(input.args, vec!["-v"]);
    let (_, input) = prepare_run(request("ptrace", None)).ok().unwrap();
    assert_eq!(input.input_file, None);
}

#[test]
fn a_run_is_accepted_with_what_was_decoded() {
    assert_eq!(accept_run(request("", None), None).err(), Some(Refusal::UnknownEngine));
    assert_eq!(accept_run(request("ptrace", None), Some(None)).err(), Some(Refusal::NotBase64));
    let (_, input) = accept_run(request("ptrace", None), Some(Some(vec![1, 2]))).ok().unwrap();
    assert_eq!(input.input_file, Some(vec![1, 2]));
    assert_eq!(Engine::parse("ptrace"), Some(Engine::Ptrace));
    assert_eq!(Engine::parse("Ptrace"), None);
}
