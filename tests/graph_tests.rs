use devil::graph::SimpleMapGraph;
use devil::keys::{EdgeIdx, NodeIdx};
use std::collections::HashSet;

fn set<T: std::hash::Hash + Eq>(v: Vec<T>) -> HashSet<T> {
    v.into_iter().collect()
}

#[test]
fn removed_node_index_never_resolves_again() {
    let mut g = SimpleMapGraph::<u32, u32, true>::new();
    let a = g.add_node(1);
    let b = g.add_node(2);
    assert_eq!(g.remove_node(a), Some(1));
    let c = g.add_node(3);
    assert_ne!(a, c);
    assert!(!g.contains_node(a));
    assert_eq!(g.node(a), None);
    assert_eq!(g.node(b), Some(&2));
    assert_eq!(g.node(c), Some(&3));
    assert_eq!(g.remove_node(a), None);
    assert_eq!(g.node_count(), 2);
}

#[test]
fn added_edge_connects_directed_only_one_way() {
    let mut g = SimpleMapGraph::<u32, u32, true>::new();
    let a = g.add_node(1);
    let b = g.add_node(2);
    let e = g.add_edge(a, b, 5).unwrap();
    assert!(g.contains_edge_between(a, b));
    assert!(!g.contains_edge_between(b, a));
    assert_eq!(g.edge(e), Some(&5));
    let f = g.add_edge(b, a, 6).unwrap();
    assert!(g.contains_edge_between(b, a));
    assert_ne!(e, f);
}

#[test]
fn added_edge_connects_undirected_both_ways() {
    let mut g = SimpleMapGraph::<u32, u32, false>::new();
    let a = g.add_node(1);
    let b = g.add_node(2);
    g.add_edge(a, b, 5).unwrap();
    assert!(g.contains_edge_between(a, b));
    assert!(g.contains_edge_between(b, a));
}

#[test]
fn add_edge_refusals() {
    let mut g = SimpleMapGraph::<u32, u32, true>::new();
    let a = g.add_node(1);
    let b = g.add_node(2);
    let gone = g.add_node(3);
    g.remove_node(gone);
    assert_eq!(g.add_edge(a, a, 1), None);
    assert_eq!(g.add_edge(a, gone, 1), None);
    assert_eq!(g.add_edge(gone, a, 1), None);
    assert!(g.add_edge(a, b, 1).is_some());
    assert_eq!(g.add_edge(a, b, 2), None);
    assert_eq!(g.edge_count(), 1);

    let mut u = SimpleMapGraph::<u32, u32, false>::new();
    let x = u.add_node(1);
    let y = u.add_node(2);
    assert!(u.add_edge(x, y, 1).is_some());
    assert_eq!(u.add_edge(y, x, 2), None);
    assert_eq!(u.edge_count(), 1);
}

#[test]
fn degree_is_in_plus_out_directed() {
    let mut g = SimpleMapGraph::<u32, u32, true>::new();
    let a = g.add_node(1);
    let b = g.add_node(2);
    let c = g.add_node(3);
    g.add_edge(a, b, 0).unwrap();
    g.add_edge(c, b, 0).unwrap();
    g.add_edge(b, a, 0).unwrap();
    for n in [a, b, c] {
        assert_eq!(g.degree(n), g.in_degree(n) + g.out_degree(n));
    }
    assert_eq!(g.in_degree(b), 2);
    assert_eq!(g.out_degree(b), 1);
    assert_eq!(g.degree(b), 3);
}

#[test]
fn degree_is_neighbor_count_undirected() {
    let mut g = SimpleMapGraph::<u32, u32, false>::new();
    let a = g.add_node(1);
    let b = g.add_node(2);
    let c = g.add_node(3);
    g.add_edge(a, b, 0).unwrap();
    g.add_edge(c, a, 0).unwrap();
    assert_eq!(g.degree(a), 2);
    assert_eq!(g.neighbors(a).len(), 2);
    assert_eq!(set(g.neighbors(a)), [b, c].into());
    assert_eq!(g.degree(b), g.neighbors(b).len());
}

#[test]
fn remove_node_drops_exactly_its_edges() {
    let mut g = SimpleMapGraph::<u32, u32, true>::new();
    let a = g.add_node(1);
    let b = g.add_node(2);
    let c = g.add_node(3);
    let d = g.add_node(4);
    let ab = g.add_edge(a, b, 0).unwrap();
    let cb = g.add_edge(c, b, 0).unwrap();
    let cd = g.add_edge(c, d, 0).unwrap();
    let before = g.edge_count();
    let deg = g.degree(b);
    assert_eq!(g.remove_node(b), Some(2));
    assert_eq!(g.edge_count(), before - deg);
    assert_eq!(set(g.edge_indices()), HashSet::<EdgeIdx>::from([cd]));
    assert!(!g.contains_edge(ab));
    assert!(!g.contains_edge(cb));
    assert!(g.contains_edge_between(c, d));
    assert_eq!(g.out_degree(c), 1);
    assert_eq!(g.degree(a), 0);
}

#[test]
fn reverse_twice_restores() {
    let mut g = SimpleMapGraph::<u32, u32, true>::new();
    let a = g.add_node(1);
    let b = g.add_node(2);
    let c = g.add_node(3);
    g.add_edge(a, b, 0).unwrap();
    g.add_edge(b, c, 0).unwrap();
    let sources = set(g.sources());
    let sinks = set(g.sinks());
    g.reverse();
    assert_eq!(set(g.sources()), sinks);
    assert_eq!(set(g.sinks()), sources);
    assert!(g.contains_edge_between(b, a));
    g.reverse();
    assert_eq!(set(g.sources()), sources);
    assert_eq!(set(g.sinks()), sinks);
    assert!(g.contains_edge_between(a, b));
    assert!(!g.contains_edge_between(b, a));
}

#[test]
fn reverse_edge_twice_restores() {
    let mut g = SimpleMapGraph::<u32, u32, true>::new();
    let a = g.add_node(1);
    let b = g.add_node(2);
    let e = g.add_edge(a, b, 9).unwrap();
    assert!(g.reverse_edge(e));
    assert!(g.contains_edge_between(b, a));
    assert!(!g.contains_edge_between(a, b));
    assert_eq!(g.in_degree(a), 1);
    assert!(g.reverse_edge(e));
    assert!(g.contains_edge_between(a, b));
    assert!(!g.contains_edge_between(b, a));
    assert_eq!(g.edge(e), Some(&9));
}

#[test]
fn reverse_edge_refusals() {
    let mut g = SimpleMapGraph::<u32, u32, true>::new();
    let a = g.add_node(1);
    let b = g.add_node(2);
    let e = g.add_edge(a, b, 0).unwrap();
    let f = g.add_edge(b, a, 0).unwrap();
    assert!(!g.reverse_edge(e));
    assert!(g.contains_edge_between(a, b));
    g.remove_edge(f);
    assert!(!g.reverse_edge(f));
    assert!(g.reverse_edge(e));
}

#[test]
fn remove_edge_returns_payload_once() {
    let mut g = SimpleMapGraph::<u32, u32, false>::new();
    let a = g.add_node(1);
    let b = g.add_node(2);
    let e = g.add_edge(a, b, 42).unwrap();
    assert_eq!(g.remove_edge(e), Some(42));
    assert_eq!(g.remove_edge(e), None);
    assert!(!g.contains_edge_between(a, b));
    assert_eq!(g.edge_count(), 0);
    assert_eq!(set(g.isolated()), HashSet::<NodeIdx>::from([a, b]));
}

#[test]
fn friends_scenario() {
    let mut g = SimpleMapGraph::<&str, i32, true>::new();
    let jakob = g.add_node("Jakob");
    let edgar = g.add_node("Edgar");
    let bernhard = g.add_node("Bernhard");
    let manny = g.add_node("NoFriendsManny");
    g.add_edge(jakob, edgar, 12).unwrap();
    g.add_edge(edgar, bernhard, 7).unwrap();
    assert_eq!(set(g.sources()), [jakob, manny].into());
    assert_eq!(set(g.sinks()), [bernhard, manny].into());
    assert_eq!(g.in_degree(edgar), 1);
    assert_eq!(g.out_degree(edgar), 1);
    g.reverse();
    assert_eq!(set(g.sources()), [bernhard, manny].into());
    g.remove_node(edgar);
    assert_eq!(g.node_count(), 3);
    assert_eq!(g.edge_count(), 0);
}

#[test]
fn sources_sinks_isolated_list_each_node_once() {
    let mut g = SimpleMapGraph::<&str, i32, true>::new();
    let jakob = g.add_node("Jakob");
    let edgar = g.add_node("Edgar");
    let bernhard = g.add_node("Bernhard");
    let manny = g.add_node("No Friends Manny");
    g.add_edge(jakob, edgar, 12).unwrap();
    g.add_edge(edgar, bernhard, 7).unwrap();
    let sources = g.sources();
    assert_eq!(sources.len(), 2);
    assert_eq!(set(sources), [jakob, manny].into());
    let sinks = g.sinks();
    assert_eq!(sinks.len(), 2);
    assert_eq!(set(sinks), [bernhard, manny].into());
    assert_eq!(g.isolated(), vec![manny]);
    g.reverse();
    let sources = g.sources();
    assert_eq!(sources.len(), 2);
    assert_eq!(set(sources), [bernhard, manny].into());
}

#[test]
fn neighbors_lists_a_peer_once_per_edge() {
    let mut g = SimpleMapGraph::<u32, u32, true>::new();
    let a = g.add_node(1);
    let b = g.add_node(2);
    let c = g.add_node(3);
    g.add_edge(a, b, 0).unwrap();
    g.add_edge(b, a, 0).unwrap();
    g.add_edge(c, a, 0).unwrap();
    let mut ns = g.neighbors(a);
    ns.sort_by_key(|n| n.slot);
    assert_eq!(ns, vec![b, b, c]);
    assert_eq!(g.edges_of(a).len(), 3);
}
