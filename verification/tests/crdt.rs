use lau_constitutive_compute::{verify_crdt_laws, zero_cost_check, GCounter, GSet, LwwRegister};

#[test]
fn test_gcounter_idempotent() {
    let mut a = GCounter::new();
    a.increment("node1", 5);
    a.increment("node2", 3);
    assert_eq!(a.join(&a), a, "Join with self = self");
}

#[test]
fn test_gcounter_commutative() {
    let mut a = GCounter::new();
    a.increment("node1", 5);
    let mut b = GCounter::new();
    b.increment("node1", 3);
    b.increment("node2", 7);
    assert_eq!(a.join(&b), b.join(&a));
}

#[test]
fn test_gcounter_associative() {
    let mut a = GCounter::new();
    a.increment("n1", 1);
    let mut b = GCounter::new();
    b.increment("n2", 2);
    let mut c = GCounter::new();
    c.increment("n1", 5);
    c.increment("n3", 3);
    assert_eq!(a.join(&b.join(&c)), a.join(&b).join(&c));
}

#[test]
fn test_gcounter_crdt_laws() {
    let mut a = GCounter::new();
    a.increment("n1", 5);
    let mut b = GCounter::new();
    b.increment("n1", 3);
    b.increment("n2", 7);
    let mut c = GCounter::new();
    c.increment("n3", 2);
    let v = verify_crdt_laws(&a, &b, &c);
    assert!(v.is_valid_crdt);
}

#[test]
fn test_crdt_zero_cost_converged() {
    let mut all = GCounter::new();
    all.increment("n1", 5);
    all.increment("n2", 3);
    assert!(zero_cost_check(&all, &all));
}

#[test]
fn test_crdt_nonzero_cost_unconverged() {
    let mut state = GCounter::new();
    state.increment("n1", 5);
    let mut all = GCounter::new();
    all.increment("n1", 5);
    all.increment("n2", 3);
    assert!(!zero_cost_check(&state, &all));
}

#[test]
fn test_gcounter_zero_cost_higher_count() {
    let mut state = GCounter::new();
    state.increment("n1", 6);
    let mut all = GCounter::new();
    all.increment("n1", 5);
    // `state` already holds more than `all` knows: merging changes nothing.
    assert!(zero_cost_check(&state, &all));
    // The other way round, `all` lacks the higher count.
    assert!(!zero_cost_check(&all, &state));
}

#[test]
fn test_gcounter_total_and_increment() {
    let mut a = GCounter::new();
    assert_eq!(a.total(), 0);
    a.increment("b", 2);
    a.increment("a", 3);
    a.increment("b", 4);
    a.increment("c", 0);
    assert_eq!(a.total(), 9);
}

#[test]
fn test_gcounter_join_takes_max_per_node() {
    let mut a = GCounter::new();
    a.increment("x", 5);
    a.increment("y", 1);
    let mut b = GCounter::new();
    b.increment("y", 4);
    b.increment("z", 2);
    let j = a.join(&b);
    assert_eq!(j.total(), 11);
    let mut expected = GCounter::new();
    expected.increment("z", 2);
    expected.increment("x", 5);
    expected.increment("y", 4);
    assert_eq!(j, expected);
}

#[test]
fn test_gcounter_idempotent_apply_copies() {
    let mut a = GCounter::new();
    a.increment("k", 7);
    assert_eq!(a.idempotent_apply(), a);
    assert_eq!(GCounter::new().idempotent_apply(), GCounter::new());
}

#[test]
fn test_gcounter_insertion_order_irrelevant() {
    let mut a = GCounter::new();
    a.increment("beta", 1);
    a.increment("alpha", 2);
    a.increment("gamma", 3);
    let mut b = GCounter::new();
    b.increment("gamma", 3);
    b.increment("alpha", 2);
    b.increment("beta", 1);
    assert_eq!(a, b);
}

#[test]
fn test_gset_idempotent() {
    let mut a = GSet::new();
    a.insert(1);
    a.insert(2);
    assert_eq!(a.join(&a), a);
}

#[test]
fn test_gset_commutative() {
    let mut a = GSet::new();
    a.insert(1);
    let mut b = GSet::new();
    b.insert(2);
    assert_eq!(a.join(&b), b.join(&a));
    let merged = a.join(&b);
    assert!(merged.contains(&1));
    assert!(merged.contains(&2));
}

#[test]
fn test_gset_laws() {
    let mut a: GSet<i32> = GSet::new();
    a.insert(1);
    let mut b: GSet<i32> = GSet::new();
    b.insert(2);
    let mut c: GSet<i32> = GSet::new();
    c.insert(3);
    let v = GSet::verify_laws(&a, &b, &c);
    assert!(v.is_valid_crdt);
}

#[test]
fn test_gset_join_is_union() {
    let mut a: GSet<i32> = GSet::new();
    a.insert(1);
    a.insert(2);
    let mut b: GSet<i32> = GSet::new();
    b.insert(2);
    b.insert(3);
    let j = a.join(&b);
    assert_eq!(j.elements.len(), 3);
    assert!(j.contains(&1) && j.contains(&2) && j.contains(&3));
    assert!(!j.contains(&4));
}

#[test]
fn test_lww_idempotent() {
    let reg = LwwRegister::new("hello", 100);
    assert_eq!(reg.idempotent_apply(), reg);
}

#[test]
fn test_lww_last_writer_wins() {
    let a = LwwRegister::new("old", 1);
    let b = LwwRegister::new("new", 2);
    let merged = a.join(&b);
    assert_eq!(merged.value, "new");
    assert_eq!(merged.timestamp, 2);
}

#[test]
fn test_lww_laws() {
    let a = LwwRegister::new("a", 1);
    let b = LwwRegister::new("b", 2);
    assert!(LwwRegister::verify_laws(&a, &b));
}

#[test]
fn test_lww_tie_keeps_left_and_breaks_commutativity() {
    let a = LwwRegister::new("a", 5);
    let b = LwwRegister::new("b", 5);
    assert_eq!(a.join(&b).value, "a");
    assert_eq!(b.join(&a).value, "b");
    assert!(!LwwRegister::verify_laws(&a, &b));
    assert!(LwwRegister::verify_laws(&a, &a.clone()));
}

#[test]
fn test_lww_join_associative() {
    let a = LwwRegister::new(1, 3);
    let b = LwwRegister::new(2, 7);
    let c = LwwRegister::new(3, 5);
    assert_eq!(a.join(&b.join(&c)), a.join(&b).join(&c));
    assert_eq!(a.join(&b.join(&c)).value, 2);
}

#[test]
fn test_lww_laws_on_strings() {
    let a = LwwRegister::new(String::from("a"), 1);
    let b = LwwRegister::new(String::from("b"), 2);
    assert!(LwwRegister::verify_laws(&a, &b));
    let c = LwwRegister::new(String::from("c"), 1);
    assert!(!LwwRegister::verify_laws(&a, &c));
}

#[test]
fn test_gcounter_clone_keeps_counts() {
    let mut a = GCounter::new();
    a.increment("x", 2);
    a.increment("y", 5);
    let b = a.clone();
    assert_eq!(b, a);
    assert_eq!(b.total(), 7);
}
