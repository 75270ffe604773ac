use verust::cown::{CallState, Cown, CownTable};

#[test]
fn destructor_once_under_interleaved_drops() {
    // one cown, four clones, dropped in a scrambled order
    let mut t: CownTable<i32> = CownTable::new();
    let original = Cown::new(&mut t, 42);
    let id = original.id();
    let c1 = t.clone_cown(&original);
    let c2 = t.clone_cown(&original);
    let c3 = t.clone_cown(&original);
    let c4 = t.clone_cown(&original);
    assert_eq!(t.handle_count(id), 5);

    t.drop_cown(c2);
    t.drop_cown(original);
    t.drop_cown(c4);
    t.drop_cown(c1);
    assert_eq!(t.destructor_count(id), 0);
    assert!(t.is_live(id));
    t.drop_cown(c3);
    assert_eq!(t.destructor_count(id), 1);
    assert!(!t.is_live(id));
}

#[test]
fn no_lost_update_with_opposite_orders() {
    // behavior A on (x, y) adds 1 to x and reads y; behavior B on (y, x)
    // adds 1 to y and reads x; both complete, neither update is lost
    let mut t: CownTable<i64> = CownTable::new();
    let x = Cown::new(&mut t, 10);
    let y = Cown::new(&mut t, 20);
    let a = t.when2(&x, &y);
    let b = t.when2(&y, &x);

    let mut grants = 0;
    loop {
        match t.step_behavior() {
            Some(g) => {
                grants += 1;
                if g == a {
                    let v = *t.read(g, x.id());
                    t.write(g, x.id(), v + 1);
                    let _peek = *t.read(g, y.id());
                } else {
                    let v = *t.read(g, y.id());
                    t.write(g, y.id(), v + 1);
                    let _peek = *t.read(g, x.id());
                }
                t.release(g);
            }
            None => break,
        }
    }
    assert_eq!(grants, 2);
    assert_eq!(t.call_state(a), CallState::Done);
    assert_eq!(t.call_state(b), CallState::Done);

    // observe the final values under a fresh grant
    let w = t.when2(&x, &y);
    let g = t.step_behavior().unwrap();
    assert_eq!(g, w);
    assert_eq!(*t.read(g, x.id()), 11);
    assert_eq!(*t.read(g, y.id()), 21);
    t.release(g);
}

#[test]
fn acquisition_order_is_canonical() {
    // the same pair requested in opposite orders stores identical,
    // ascending target lists
    let mut t: CownTable<u8> = CownTable::new();
    let x = Cown::new(&mut t, 1);
    let y = Cown::new(&mut t, 2);
    let a = t.when2(&x, &y);
    let b = t.when2(&y, &x);

    assert_eq!(t.target_count(a), 2);
    assert_eq!(t.target_count(b), 2);
    assert_eq!(t.target_at(a, 0), t.target_at(b, 0));
    assert_eq!(t.target_at(a, 1), t.target_at(b, 1));
    assert!(t.target_at(a, 0) < t.target_at(a, 1));
}

#[test]
fn duplicate_targets_collapse() {
    // a pair naming the same cown twice is a single-target request
    let mut t: CownTable<u8> = CownTable::new();
    let x = Cown::new(&mut t, 1);
    let b = t.when2(&x, &x);
    assert_eq!(t.target_count(b), 1);
    assert_eq!(t.target_at(b, 0), x.id());
}

#[test]
fn when_all_sorts_and_collapses_targets() {
    // a many-cown request is stored sorted and without duplicates, and is
    // granted and released as one unit
    let mut t: CownTable<i32> = CownTable::new();
    let a = Cown::new(&mut t, 1);
    let b = Cown::new(&mut t, 2);
    let c = Cown::new(&mut t, 3);
    let w = t.when_all(vec![&c, &a, &b, &a]);

    assert_eq!(t.target_count(w), 3);
    assert_eq!(t.target_at(w, 0), a.id());
    assert_eq!(t.target_at(w, 1), b.id());
    assert_eq!(t.target_at(w, 2), c.id());

    let g = t.step_behavior().unwrap();
    assert_eq!(g, w);
    let total = *t.read(g, a.id()) + *t.read(g, b.id()) + *t.read(g, c.id());
    assert_eq!(total, 6);
    t.write(g, b.id(), 20);
    t.release(g);
    assert_eq!(t.call_state(w), CallState::Done);

    let again = t.when(&b);
    let g2 = t.step_behavior().unwrap();
    assert_eq!(g2, again);
    assert_eq!(*t.read(g2, b.id()), 20);
    t.release(g2);
}

#[test]
fn destruction_deferred_while_held() {
    // dropping the last handle while a behavior holds the cown defers the
    // destructor to the release
    let mut t: CownTable<i32> = CownTable::new();
    let x = Cown::new(&mut t, 7);
    let xid = x.id();
    let b = t.when(&x);
    let g = t.step_behavior().unwrap();
    assert_eq!(g, b);

    t.drop_cown(x);
    assert!(t.is_live(xid));
    assert_eq!(t.destructor_count(xid), 0);
    assert_eq!(*t.read(g, xid), 7);

    t.release(g);
    assert!(!t.is_live(xid));
    assert_eq!(t.destructor_count(xid), 1);
}

#[test]
fn overlapping_behaviors_wait_then_run() {
    // while one behavior holds the pair, the overlapping one is blocked;
    // it is granted right after the release
    let mut t: CownTable<i32> = CownTable::new();
    let x = Cown::new(&mut t, 0);
    let y = Cown::new(&mut t, 0);
    let a = t.when2(&x, &y);
    let b = t.when2(&y, &x);

    let g1 = t.step_behavior().unwrap();
    assert_eq!(g1, a);
    assert_eq!(t.step_behavior(), None);
    t.release(g1);

    let g2 = t.step_behavior().unwrap();
    assert_eq!(g2, b);
    t.release(g2);
    assert_eq!(t.call_state(a), CallState::Done);
    assert_eq!(t.call_state(b), CallState::Done);
}

#[test]
fn disjoint_behaviors_hold_together() {
    // behaviors over disjoint cown sets can be granted at the same time
    let mut t: CownTable<i32> = CownTable::new();
    let a1 = Cown::new(&mut t, 1);
    let a2 = Cown::new(&mut t, 2);
    let b1 = Cown::new(&mut t, 3);
    let b2 = Cown::new(&mut t, 4);
    let first = t.when2(&a1, &a2);
    let second = t.when2(&b1, &b2);

    let g1 = t.step_behavior().unwrap();
    let g2 = t.step_behavior().unwrap();
    assert_eq!(g1, first);
    assert_eq!(g2, second);
    assert_eq!(t.call_state(first), CallState::Granted);
    assert_eq!(t.call_state(second), CallState::Granted);
    t.release(g2);
    t.release(g1);
}

#[test]
fn many_cowns_all_destroyed_exactly_once() {
    // ten thousand cowns holding distinct values, each cloned once;
    // originals dropped first, then the clones: every destructor fires
    // exactly once
    let mut t: CownTable<usize> = CownTable::new();
    let mut originals = Vec::new();
    for i in 0..10000 {
        originals.push(Cown::new(&mut t, i));
    }
    let clones: Vec<_> = originals.iter().map(|c| t.clone_cown(c)).collect();

    for c in originals {
        t.drop_cown(c);
    }
    for i in 0..10000 {
        assert_eq!(t.destructor_count(i), 0);
    }
    for c in clones {
        t.drop_cown(c);
    }
    for i in 0..10000 {
        assert_eq!(t.destructor_count(i), 1);
        assert!(!t.is_live(i));
    }
}
