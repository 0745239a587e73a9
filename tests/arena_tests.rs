use devil::arena::Arena;

#[test]
fn arena_insert_get_remove() {
    let mut a: Arena<&str> = Arena::new();
    assert_eq!(a.len(), 0);
    let x = a.insert("x");
    let y = a.insert("y");
    assert_ne!(x, y);
    assert_eq!(a.len(), 2);
    assert_eq!(a.get(x), Some(&"x"));
    assert_eq!(a.remove(x), Some("x"));
    assert_eq!(a.get(x), None);
    assert_eq!(a.remove(x), None);
    assert_eq!(a.len(), 1);
    assert!(!a.contains_key(x));
    assert!(a.contains_key(y));
}

#[test]
fn arena_reused_slot_gets_new_generation() {
    let mut a: Arena<u32> = Arena::new();
    let x = a.insert(1);
    a.remove(x);
    let z = a.insert(2);
    assert_eq!(z.0, x.0);
    assert_ne!(z.1, x.1);
    assert_eq!(a.get(x), None);
    assert_eq!(a.get(z), Some(&2));
}

#[test]
fn arena_get_mut_and_keys() {
    let mut a: Arena<u32> = Arena::new();
    let x = a.insert(1);
    let y = a.insert(2);
    *a.get_mut(y).unwrap() = 20;
    assert_eq!(a.get(y), Some(&20));
    assert_eq!(a.get(x), Some(&1));
    a.remove(x);
    assert!(a.get_mut(x).is_none());
    assert_eq!(a.keys(), vec![y]);
}
