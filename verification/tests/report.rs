use call_stack::graph::{CallGraph, Node};
use call_stack::propagate::propagate;
use call_stack::report::{decimal, dot, label, ranking, top};
use call_stack::usage::{Local, Max};

#[test]
fn numbers_are_written_in_decimal() {
    assert_eq!(decimal(0), "0");
    assert_eq!(decimal(7), "7");
    assert_eq!(decimal(10), "10");
    assert_eq!(decimal(1234567890), "1234567890");
    assert_eq!(decimal(u64::MAX), "18446744073709551615");
}

#[test]
fn usage_and_bounds_are_written() {
    assert_eq!(Local::Exact(12).render(), "12");
    assert_eq!(Local::Unknown.render(), "?");
    assert_eq!(Max::Exact(0).render(), "= 0");
    assert_eq!(Max::LowerBound(48).render(), ">= 48");
}

#[test]
fn labels_are_demangled_and_escaped() {
    assert_eq!(label("main"), "main");
    assert_eq!(label("_ZN3foo3barE"), "foo::bar");
    assert_eq!(label("say \"hi\""), "say \\\"hi\\\"");
}

fn sample() -> CallGraph {
    let mut g = CallGraph::new();
    g.add_node(Node("a".to_string(), Some(8), false));
    g.add_node(Node("S*".to_string(), Some(0), true));
    g.add_node(Node("_ZN3foo3barE".to_string(), None, false));
    g.add_node(Node("b".to_string(), Some(8), false));
    g.add_edge(0, 1);
    g.add_edge(1, 2);
    g.add_edge(3, 3);
    g
}

#[test]
fn dot_document() {
    let mut g = sample();
    let cycles = propagate(&mut g);
    let text = dot(&g, &cycles);
    let wanted = "digraph {\n    node [fontname=monospace shape=box]\n    0 [label=\"a\\nmax >= 8\\nlocal = 8\"]\n    1 [label=\"S*\\nmax >= 0\\nlocal = 0\" style=dashed]\n    2 [label=\"foo::bar\\nmax >= 0\\nlocal = ?\"]\n    3 [label=\"b\\nmax >= 8\\nlocal = 8\"]\n    0 -> 1\n    1 -> 2\n    3 -> 3\n\n    subgraph cluster_0 {\n        style=dashed\n        fontname=monospace\n        label=\"SCC0\"\n        3\n    }\n}\n";
    assert_eq!(text, wanted);
}

#[test]
fn dot_document_without_bounds() {
    let mut g = CallGraph::new();
    g.add_node(Node("a".to_string(), None, false));
    let text = dot(&g, &Vec::new());
    assert_eq!(
        text,
        "digraph {\n    node [fontname=monospace shape=box]\n    0 [label=\"a\\nlocal = ?\"]\n}\n"
    );
    assert_eq!(
        dot(&CallGraph::new(), &Vec::new()),
        "digraph {\n    node [fontname=monospace shape=box]\n}\n"
    );
}

#[test]
fn table_is_sorted_by_falling_usage() {
    let mut g = sample();
    g.add_node(Node("c".to_string(), Some(30), false));
    propagate(&mut g);
    assert_eq!(ranking(&g), vec![4, 0, 3, 1, 2]);
    let (text, order) = top(&g);
    assert_eq!(order, vec![4, 0, 3, 1, 2]);
    assert_eq!(text, "30 MAX\nUsage Function\n30 c\n8 a\n8 b\n0 S*\n0 foo::bar\n");
}

#[test]
fn table_of_an_empty_graph_is_its_heading() {
    let (text, order) = top(&CallGraph::new());
    assert!(order.is_empty());
    assert_eq!(text, "Usage Function\n");
}

#[test]
fn table_counts_missing_bounds_as_zero() {
    let mut g = CallGraph::new();
    g.add_node(Node("a".to_string(), Some(3), false));
    g.add_node(Node("b".to_string(), Some(5), false));
    let (text, _) = top(&g);
    assert_eq!(text, "0 MAX\nUsage Function\n5 b\n3 a\n");
}

/// The nodes and the edges that a document for `dot` holds.
fn read_back(text: &str) -> (Vec<(usize, String)>, Vec<(usize, usize)>) {
    let mut nodes = Vec::new();
    let mut edges = Vec::new();
    for line in text.lines() {
        let line = line.trim();
        if let Some((index, rest)) = line.split_once(" [label=\"") {
            if let Ok(index) = index.parse::<usize>() {
                let name = rest.split("\\n").next().unwrap().to_string();
                nodes.push((index, name));
            }
        } else if let Some((a, b)) = line.split_once(" -> ") {
            edges.push((a.parse::<usize>().unwrap(), b.parse::<usize>().unwrap()));
        }
    }
    (nodes, edges)
}

#[test]
fn dot_document_reads_back_as_the_graph() {
    let mut g = sample();
    g.add_edge(0, 3);
    g.add_edge(2, 0);
    let cycles = propagate(&mut g);
    let (mut nodes, mut edges) = read_back(&dot(&g, &cycles));
    nodes.sort();
    edges.sort();
    let mut wanted_nodes: Vec<(usize, String)> =
        (0..g.node_count()).map(|i| (i, label(&g.node(i).name))).collect();
    wanted_nodes.sort();
    let mut wanted_edges: Vec<(usize, usize)> = (0..g.edge_count()).map(|k| g.edge(k)).collect();
    wanted_edges.sort();
    assert_eq!(nodes, wanted_nodes);
    assert_eq!(edges, wanted_edges);
}
