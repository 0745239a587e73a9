use devil::graph::SimpleMapGraph;
use devil::iters::{NodesByIdx, ZipOutDegree};

#[test]
fn nodes_by_idx_skips_missing_nodes() {
    let mut g = SimpleMapGraph::<&str, u32, false>::new();
    let a = g.add_node("a");
    let b = g.add_node("b");
    let c = g.add_node("c");
    g.remove_node(b);
    let mut it = NodesByIdx::new(vec![c, b, a], &g);
    assert_eq!(it.next(), Some(&"c"));
    assert_eq!(it.next(), Some(&"a"));
    assert_eq!(it.next(), None);
    assert_eq!(it.next(), None);
}

#[test]
fn nodes_by_idx_into_indices_gives_the_rest() {
    let mut g = SimpleMapGraph::<&str, u32, true>::new();
    let a = g.add_node("a");
    let b = g.add_node("b");
    let mut it = NodesByIdx::new(vec![a, b, a], &g);
    assert_eq!(it.next(), Some(&"a"));
    assert_eq!(it.into_indices(), vec![b, a]);
}

#[test]
fn zip_out_degree_pairs_items_with_degrees() {
    let mut g = SimpleMapGraph::<&str, u32, true>::new();
    let a = g.add_node("a");
    let b = g.add_node("b");
    let c = g.add_node("c");
    g.add_edge(a, b, 0).unwrap();
    g.add_edge(a, c, 0).unwrap();
    g.add_edge(c, b, 0).unwrap();
    let mut it = ZipOutDegree::new(vec![(a, 'x'), (b, 'y'), (c, 'z')], &g);
    assert_eq!(it.next(), Some(((a, 'x'), 2)));
    assert_eq!(it.next(), Some(((b, 'y'), 0)));
    assert_eq!(it.next(), Some(((c, 'z'), 1)));
    assert_eq!(it.next(), None);
}

#[test]
fn zip_out_degree_undirected_uses_degree() {
    let mut g = SimpleMapGraph::<&str, i32, false>::new();
    let j = g.add_node("Jakob");
    let e = g.add_node("Edgar");
    let b = g.add_node("Bernhard");
    g.add_edge(j, e, 12).unwrap();
    g.add_edge(e, b, 7).unwrap();
    let mut it = ZipOutDegree::new(vec![(j, "Jakob"), (e, "Edgar")], &g);
    assert_eq!(it.next(), Some(((j, "Jakob"), 1)));
    assert_eq!(it.next(), Some(((e, "Edgar"), 2)));
    assert_eq!(it.next(), None);
    assert_eq!(g.degree(e), g.neighbors(e).len());
}
