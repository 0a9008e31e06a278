use binary2graph::adjacency::{group_edges, list_lengths, reverse_edges, sort_lists};
use binary2graph::binary::{name_stubs, plt_stubs, Function};
use binary2graph::callgraph::{CallGraph, NodeKind};
use binary2graph::decode::{Insn, Line, Mnemonic, OpKind};
use binary2graph::report::{build_call_graph, count_incoming, rank_by_calls_in};
use std::collections::HashMap;

fn function(name: &str, address: u64) -> Function {
    Function {
        name: name.to_string(),
        address,
        size: 1,
        instructions: 0,
        calls_out: 0,
        exported: false,
    }
}

#[test]
fn a_name_has_one_node_and_keeps_its_kind() {
    let mut graph = CallGraph::new();
    graph.add_call("main", NodeKind::Local, "puts", NodeKind::Plt);
    graph.add_call("main", NodeKind::Unknown, "puts", NodeKind::Local);
    graph.add_call("puts", NodeKind::Local, "puts", NodeKind::Local);
    assert_eq!(graph.node_count(), 2);
    assert_eq!(graph.edge_count(), 3);
    assert!(graph.has_room("new", "other"));
    let export = graph.export();
    assert_eq!(export.nodes[0].kind, NodeKind::Local);
    assert_eq!(export.nodes[1].kind, NodeKind::Plt);
    assert_eq!(export.edges, vec![(0, 1), (0, 1), (1, 1)]);
}

#[test]
fn there_is_an_edge_for_each_call_and_a_node_for_each_name() {
    let calls = [("a", "b"), ("b", "a"), ("a", "b"), ("c", "c"), ("a", "d")];
    let mut graph = CallGraph::new();
    for (caller, callee) in calls {
        graph.add_call(caller, NodeKind::Local, callee, NodeKind::Plt);
    }
    assert_eq!((graph.node_count(), graph.edge_count()), (4, 5));
    let export = graph.export();
    let names: Vec<&str> = export.nodes.iter().map(|node| node.name.as_str()).collect();
    assert_eq!(names, vec!["a", "b", "c", "d"]);
    let kinds: Vec<NodeKind> = export.nodes.iter().map(|node| node.kind).collect();
    assert_eq!(kinds, vec![NodeKind::Local, NodeKind::Plt, NodeKind::Local, NodeKind::Plt]);
    for (i, (from, to)) in export.edges.iter().enumerate() {
        assert_eq!((names[*from], names[*to]), calls[i]);
    }
}

#[test]
fn an_empty_graph_is_drawn_empty() {
    let graph = CallGraph::default();
    assert_eq!((graph.node_count(), graph.edge_count()), (0, 0));
    assert_eq!(graph.to_dot(), "digraph {\n}\n");
}

#[test]
fn a_graph_is_drawn_with_its_kinds() {
    let mut graph = CallGraph::new();
    graph.add_call("main", NodeKind::Local, "puts", NodeKind::Plt);
    graph.add_call("main", NodeKind::Local, "sub_10", NodeKind::Unknown);
    assert_eq!(
        graph.to_dot(),
        "digraph {\n    \
         0 [ label = \"main\", style = filled, fillcolor = \"#a8d5ff\", shape = ellipse]\n    \
         1 [ label = \"puts\", style = filled, fillcolor = \"#ffcc99\", shape = box]\n    \
         2 [ label = \"sub_10\", style = filled, fillcolor = \"#dddddd\", shape = ellipse]\n    \
         0 -> 1 [ ]\n    0 -> 2 [ ]\n}\n"
    );
}

#[test]
fn calls_without_a_named_caller_are_not_drawn() {
    let mut by_addr: HashMap<u64, String> = HashMap::new();
    by_addr.insert(1, "a".to_string());
    by_addr.insert(2, "b".to_string());
    let calls = vec![(1, 2), (9, 1), (2, 1), (1, 2)];
    let graph = build_call_graph(&calls, &by_addr, &HashMap::new()).unwrap();
    let export = graph.export();
    assert_eq!(export.nodes.len(), 2);
    assert_eq!(export.edges, vec![(0, 1), (1, 0), (0, 1)]);
}

#[test]
fn the_most_called_come_first_and_ties_keep_their_order() {
    let functions = vec![function("a", 1), function("b", 2), function("c", 3), function("d", 4)];
    let counts = count_incoming(&vec![(1, 3), (1, 3), (2, 4), (4, 1), (4, 77)]).unwrap();
    assert_eq!(counts.get(&3), Some(&2));
    assert_eq!(counts.get(&2), None);
    let ranked = rank_by_calls_in(&functions, &counts);
    let names: Vec<&str> = ranked.iter().map(|f| f.name.as_str()).collect();
    assert_eq!(names, vec!["c", "a", "d", "b"]);
}

#[test]
fn neighbours_are_sorted_and_degrees_count_call_sites() {
    let edges = vec![(0, 2), (0, 1), (0, 2), (2, 0), (1, 1)];
    let leaving = group_edges(&edges, 3);
    assert_eq!(leaving, vec![vec![2, 1, 2], vec![1], vec![0]]);
    assert_eq!(sort_lists(&leaving), vec![vec![1, 2], vec![1], vec![0]]);
    assert_eq!(list_lengths(&leaving), vec![3, 1, 1]);
    let entering = group_edges(&reverse_edges(&edges), 3);
    assert_eq!(sort_lists(&entering), vec![vec![2], vec![0, 1], vec![0]]);
    assert_eq!(list_lengths(&entering).iter().sum::<usize>(), edges.len());
}

fn line(ip: u64, mnemonic: Mnemonic, op0: OpKind, displacement: u64) -> Line {
    Line { ip, insn: Insn { len: 4, mnemonic, op0, displacement, target: 0 } }
}

#[test]
fn a_stub_starts_at_the_last_landing_mark() {
    let lines = vec![
        line(0x10, Mnemonic::Jmp, OpKind::Memory, 0x100),
        line(0x14, Mnemonic::Endbr64, OpKind::Other, 0),
        line(0x18, Mnemonic::Jmp, OpKind::NearBranch64, 0x200),
        line(0x1c, Mnemonic::Jmp, OpKind::Memory, 0x300),
        line(0x20, Mnemonic::Call, OpKind::Memory, 0x400),
    ];
    let stubs = plt_stubs(&lines, 0x10);
    assert_eq!(stubs.len(), 2);
    assert_eq!(stubs[&0x10], 0x100);
    assert_eq!(stubs[&0x14], 0x300);
    let mut slots: HashMap<u64, String> = HashMap::new();
    slots.insert(0x300, "puts".to_string());
    let names = name_stubs(&stubs, &slots);
    assert_eq!(names.len(), 1);
    assert_eq!(names[&0x14], "puts");
}
