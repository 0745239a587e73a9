use devil::vecmap::VecMap;

fn sample() -> Vec<(u32, &'static str)> {
    vec![(3, "c"), (1, "a"), (2, "b")]
}

#[test]
fn get_value_finds_first_entry_with_key() {
    let mut m = sample();
    m.push((1, "again"));
    assert_eq!(m.get_value(1), Some(&"a"));
    assert_eq!(m.get_value(2), Some(&"b"));
    assert_eq!(m.get_value(9), None);
}

#[test]
fn get_value_mut_changes_only_that_entry() {
    let mut m = sample();
    *m.get_value_mut(1).unwrap() = "z";
    assert_eq!(m, vec![(3, "c"), (1, "z"), (2, "b")]);
    assert!(m.get_value_mut(7).is_none());
    assert_eq!(m, vec![(3, "c"), (1, "z"), (2, "b")]);
}

#[test]
fn get_value_or_inserts_only_when_missing() {
    let mut m = sample();
    assert_eq!(*m.get_value_or(2, || "new"), "b");
    assert_eq!(m.len(), 3);
    assert_eq!(*m.get_value_or(5, || "new"), "new");
    assert_eq!(m, vec![(3, "c"), (1, "a"), (2, "b"), (5, "new")]);
}

#[test]
fn get_value_or_mut_inserts_then_mutates() {
    let mut m: Vec<(u32, Vec<u32>)> = Vec::new();
    m.get_value_or_mut(4, Vec::new).push(10);
    m.get_value_or_mut(4, Vec::new).push(11);
    m.get_value_or_mut(6, Vec::new).push(1);
    assert_eq!(m, vec![(4, vec![10, 11]), (6, vec![1])]);
}

#[test]
fn get_value_or_default_variants() {
    let mut m: Vec<(u32, u32)> = vec![(1, 5)];
    assert_eq!(*m.get_value_or_default(1), 5);
    assert_eq!(*m.get_value_or_default(2), 0);
    *m.get_value_or_default_mut(3) += 7;
    *m.get_value_or_default_mut(1) += 1;
    assert_eq!(m, vec![(1, 6), (2, 0), (3, 7)]);
}

#[test]
fn contains_and_index_by_key() {
    let m = sample();
    assert!(m.contains_key(2));
    assert!(!m.contains_key(4));
    assert_eq!(m.index_by_key(&3), Some(0));
    assert_eq!(m.index_by_key(&2), Some(2));
    assert_eq!(m.index_by_key(&8), None);
    let empty: Vec<(u32, u32)> = Vec::new();
    assert!(!empty.contains_key(0));
    assert_eq!(empty.index_by_key(&0), None);
}

#[test]
fn remove_by_key_keeps_order_of_the_rest() {
    let mut m = sample();
    assert_eq!(m.remove_by_key(1), Some("a"));
    assert_eq!(m, vec![(3, "c"), (2, "b")]);
    assert_eq!(m.remove_by_key(1), None);
    assert_eq!(m, vec![(3, "c"), (2, "b")]);
}

#[test]
fn cursors_walk_in_order() {
    let m = sample();
    let mut k = m.keys();
    assert_eq!(k.next(), Some(&3));
    assert_eq!(k.next(), Some(&1));
    assert_eq!(k.next(), Some(&2));
    assert_eq!(k.next(), None);
    assert_eq!(k.next(), None);
    let mut v = m.values();
    assert_eq!(v.next(), Some(&"c"));
    assert_eq!(v.next(), Some(&"a"));
    assert_eq!(v.next(), Some(&"b"));
    assert_eq!(v.next(), None);
    let mut t = m.tuple_iter();
    assert_eq!(t.next(), Some((&3, &"c")));
    assert_eq!(t.next(), Some((&1, &"a")));
    assert_eq!(t.next(), Some((&2, &"b")));
    assert_eq!(t.next(), None);
}
