use petgraph::graph::DiGraph;
use topcat::layer_graph::count_nodes;
use topcat::stable_topo::{name_lt, stable_order, StableTopo};

fn keys(names: &[&str]) -> Vec<String> {
    names.iter().map(|s| s.to_string()).collect()
}

#[test]
fn test_stable_topo() {
    let mut graph: DiGraph<usize, ()> = DiGraph::new();
    let node1 = graph.add_node(0);
    let node2 = graph.add_node(1);
    let node3 = graph.add_node(2);
    let node4 = graph.add_node(3);
    graph.add_edge(node1, node2, ());
    graph.add_edge(node2, node3, ());
    graph.add_edge(node2, node4, ());
    graph.add_edge(node3, node4, ());
    let names = keys(&["Node 1", "Node 2", "Node 3", "Node 4"]);
    let topo_order = stable_order(&graph, &names);
    assert_eq!(
        topo_order,
        vec![node1.index(), node2.index(), node3.index(), node4.index()]
    );
}

#[test]
fn test_stable_topo_with_weights() {
    let mut graph: DiGraph<usize, ()> = DiGraph::new();
    let node4 = graph.add_node(0);
    let node3 = graph.add_node(1);
    let node2 = graph.add_node(2);
    let node1 = graph.add_node(3);
    graph.add_edge(node1, node2, ());
    graph.add_edge(node2, node3, ());
    graph.add_edge(node2, node4, ());
    graph.add_edge(node3, node4, ());
    let names = keys(&["Node 4", "Node 3", "Node 2", "Node 1"]);
    let topo_order = stable_order(&graph, &names);
    assert_eq!(
        topo_order,
        vec![node1.index(), node2.index(), node3.index(), node4.index()]
    );
}

#[test]
fn independent_nodes_come_greatest_name_first() {
    let mut graph: DiGraph<usize, ()> = DiGraph::new();
    graph.add_node(0);
    graph.add_node(1);
    graph.add_node(2);
    let names = keys(&["b", "c", "a"]);
    assert_eq!(stable_order(&graph, &names), vec![1, 0, 2]);
}

#[test]
fn order_does_not_depend_on_insertion_order() {
    let mut g1: DiGraph<usize, ()> = DiGraph::new();
    let a = g1.add_node(0);
    let b = g1.add_node(1);
    let c = g1.add_node(2);
    let d = g1.add_node(3);
    g1.add_edge(a, b, ());
    g1.add_edge(a, c, ());
    g1.add_edge(c, d, ());
    let k1 = keys(&["a", "b", "c", "d"]);
    let o1: Vec<String> = stable_order(&g1, &k1).into_iter().map(|i| k1[i].clone()).collect();

    let mut g2: DiGraph<usize, ()> = DiGraph::new();
    let d2 = g2.add_node(0);
    let c2 = g2.add_node(1);
    let b2 = g2.add_node(2);
    let a2 = g2.add_node(3);
    g2.add_edge(c2, d2, ());
    g2.add_edge(a2, c2, ());
    g2.add_edge(a2, b2, ());
    let k2 = keys(&["d", "c", "b", "a"]);
    let o2: Vec<String> = stable_order(&g2, &k2).into_iter().map(|i| k2[i].clone()).collect();

    assert_eq!(o1, o2);
    assert_eq!(o1, keys(&["a", "c", "d", "b"]));
}

#[test]
fn cycle_leaves_its_nodes_out() {
    let mut graph: DiGraph<usize, ()> = DiGraph::new();
    let a = graph.add_node(0);
    let b = graph.add_node(1);
    let c = graph.add_node(2);
    graph.add_edge(a, b, ());
    graph.add_edge(b, a, ());
    let _ = c;
    let names = keys(&["a", "b", "c"]);
    assert_eq!(stable_order(&graph, &names), vec![2]);
}

#[test]
fn names_compare_lexicographically() {
    assert!(name_lt("a", "b"));
    assert!(name_lt("a", "ab"));
    assert!(!name_lt("ab", "a"));
    assert!(!name_lt("abc", "abc"));
    assert!(name_lt("", "a"));
    assert!(name_lt("Z", "a"));
}

#[test]
fn stepping_emits_each_node_then_stays_done() {
    let mut graph: DiGraph<usize, ()> = DiGraph::new();
    let n1 = graph.add_node(0);
    let n2 = graph.add_node(1);
    let n3 = graph.add_node(2);
    let n4 = graph.add_node(3);
    graph.add_edge(n1, n2, ());
    graph.add_edge(n2, n3, ());
    graph.add_edge(n2, n4, ());
    graph.add_edge(n4, n3, ());
    let names = keys(&["1", "2", "3", "4"]);
    assert_eq!(count_nodes(&graph), names.len());
    let mut topo = StableTopo::new(&graph);
    let mut seen = Vec::new();
    while let Some(v) = topo.next(&graph, &names) {
        seen.push(v);
    }
    assert_eq!(seen, vec![n1.index(), n2.index(), n4.index(), n3.index()]);
    assert_eq!(topo.next(&graph, &names), None);
}
