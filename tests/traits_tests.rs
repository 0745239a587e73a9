use devil::graph::SimpleMapGraph;
use devil::keys::NodeIdx;
use devil::traits::{DirectedGraph, Graph};
use std::collections::HashSet;

fn build_path<G: Graph<u32, u32>>(g: &mut G) -> Vec<NodeIdx> {
    let a = g.add_node(1);
    let b = g.add_node(2);
    let c = g.add_node(3);
    g.add_edge(a, b, 10).unwrap();
    g.add_edge(b, c, 20).unwrap();
    vec![a, b, c]
}

#[test]
fn generic_graph_code_sees_the_same_graph() {
    let mut g = SimpleMapGraph::<u32, u32, false>::new();
    let ns = build_path(&mut g);
    assert!(!Graph::is_directed(&g));
    assert!(!Graph::is_multigraph(&g));
    assert_eq!(Graph::node_count(&g), 3);
    assert_eq!(Graph::edge_count(&g), 2);
    assert_eq!(Graph::degree(&g, ns[1]), 2);
    assert!(Graph::contains_edge_between(&g, ns[2], ns[1]));
    assert_eq!(Graph::find_node(&g, &3), Some(ns[2]));
    assert_eq!(
        Graph::neighbors(&g, ns[1]).into_iter().collect::<HashSet<NodeIdx>>(),
        [ns[0], ns[2]].into()
    );
    assert_eq!(Graph::remove_node(&mut g, ns[1]), Some(2));
    assert_eq!(Graph::edge_count(&g), 0);
    assert_eq!(
        Graph::isolated(&g).into_iter().collect::<HashSet<NodeIdx>>(),
        [ns[0], ns[2]].into()
    );
}

#[test]
fn generic_directed_code() {
    let mut g = SimpleMapGraph::<u32, u32, true>::new();
    let ns = build_path(&mut g);
    assert_eq!(DirectedGraph::in_degree(&g, ns[1]), 1);
    assert_eq!(DirectedGraph::out_degree(&g, ns[0]), 1);
    assert_eq!(DirectedGraph::sources(&g), vec![ns[0]]);
    assert_eq!(DirectedGraph::sinks(&g), vec![ns[2]]);
    DirectedGraph::reverse(&mut g);
    assert_eq!(DirectedGraph::sources(&g), vec![ns[2]]);
    assert_eq!(DirectedGraph::out_neighbors(&g, ns[1]), vec![ns[0]]);
    let e = Graph::find_edge(&g, &10).unwrap();
    assert!(DirectedGraph::reverse_edge(&mut g, e));
    let f = Graph::find_edge(&g, &20).unwrap();
    assert_eq!(
        DirectedGraph::incoming_edges_of(&g, ns[1]).into_iter().collect::<HashSet<_>>(),
        [e, f].into()
    );
    assert_eq!(DirectedGraph::outgoing_edges_of(&g, ns[0]), vec![e]);
}
