use std::sync::atomic::{AtomicUsize, Ordering};
use std::sync::Arc;
use verust::cown::{Cown, CownTable};

struct ZeroSized;

struct Node {
    value: i32,
    next: Option<Box<Node>>,
}

struct ComplexData {
    strings: Vec<String>,
    numbers: Vec<i32>,
    nested: Vec<Vec<u8>>,
}

struct Tracker {
    count: Arc<AtomicUsize>,
}

impl Drop for Tracker {
    fn drop(&mut self) {
        self.count.fetch_add(1, Ordering::SeqCst);
    }
}

#[test]
fn test_cown_empty_string() {
    let mut t: CownTable<String> = CownTable::new();
    let cown = Cown::new(&mut t, String::new());
    t.drop_cown(cown);
    assert!(true);
}

#[test]
fn test_cown_empty_vec() {
    let mut t: CownTable<Vec<i32>> = CownTable::new();
    let cown = Cown::new(&mut t, Vec::<i32>::new());
    t.drop_cown(cown);
    assert!(true);
}

#[test]
fn test_cown_zero_sized_type() {
    let mut t: CownTable<ZeroSized> = CownTable::new();
    let cown = Cown::new(&mut t, ZeroSized);
    let _clone = t.clone_cown(&cown);

    assert!(true);
}

#[test]
fn test_cown_unit_type() {
    let mut t: CownTable<()> = CownTable::new();
    let cown = Cown::new(&mut t, ());
    let _clone = t.clone_cown(&cown);
    assert!(true);
}

#[test]
fn test_cown_recursive_drop() {
    // Create a linked list
    let mut head = Node { value: 0, next: None };

    for i in 1..100 {
        head = Node { value: i, next: Some(Box::new(head)) };
    }

    let mut t: CownTable<Node> = CownTable::new();
    let cown = Cown::new(&mut t, head);
    t.drop_cown(cown);

    assert!(true);
}

#[test]
fn test_cown_with_references_via_arc() {
    let shared_data = Arc::new(vec![1, 2, 3, 4, 5]);

    // Create multiple cowns sharing the same Arc
    let mut t: CownTable<Arc<Vec<i32>>> = CownTable::new();
    let cown1 = Cown::new(&mut t, shared_data.clone());
    let cown2 = Cown::new(&mut t, shared_data.clone());
    let cown3 = Cown::new(&mut t, shared_data);

    t.drop_cown(cown1);
    t.drop_cown(cown2);
    t.drop_cown(cown3);

    assert!(true);
}

#[test]
fn test_cown_with_complex_lifetime() {
    let complex = ComplexData {
        strings: (0..100).map(|i| format!("string_{}", i)).collect(),
        numbers: (0..1000).collect(),
        nested: (0..50).map(|i| vec![i as u8; 100]).collect(),
    };

    let mut t: CownTable<ComplexData> = CownTable::new();
    let cown = Cown::new(&mut t, complex);

    // Clone multiple times
    let clones: Vec<_> = (0..10).map(|_| t.clone_cown(&cown)).collect();

    t.drop_cown(cown);
    for c in clones {
        t.drop_cown(c);
    }

    assert!(true);
}

#[test]
fn test_cown_extreme_clone_counts() {
    let mut t: CownTable<i32> = CownTable::new();
    let original = Cown::new(&mut t, 42i32);
    let mut clones = Vec::new();

    // Create an extreme number of clones
    for _ in 0..10000 {
        clones.push(t.clone_cown(&original));
    }

    // Drop random half, replacing each with a new clone
    for i in (0..clones.len()).step_by(2) {
        let fresh = t.clone_cown(&original);
        let old = std::mem::replace(&mut clones[i], fresh);
        t.drop_cown(old);
    }

    for c in clones {
        t.drop_cown(c);
    }
    let id = original.id();
    t.drop_cown(original);
    assert_eq!(t.destructor_count(id), 1);

    assert!(true);
}

#[test]
fn test_cown_clone_chain() {
    let mut t: CownTable<String> = CownTable::new();
    let c1 = Cown::new(&mut t, String::from("test"));
    let c2 = t.clone_cown(&c1);
    let c3 = t.clone_cown(&c2);
    let c4 = t.clone_cown(&c3);
    let c5 = t.clone_cown(&c4);

    // Drop in reverse order
    t.drop_cown(c5);
    t.drop_cown(c4);
    t.drop_cown(c3);
    t.drop_cown(c2);
    t.drop_cown(c1);

    assert!(true);
}

#[test]
fn test_cown_alternating_create_drop() {
    for _ in 0..1000 {
        let mut t: CownTable<Vec<i32>> = CownTable::new();
        let cown = Cown::new(&mut t, vec![1, 2, 3]);
        let clone = t.clone_cown(&cown);
        // Both are dropped here
        t.drop_cown(cown);
        t.drop_cown(clone);
    }

    assert!(true);
}

#[test]
fn test_cown_with_destructors() {
    let drop_count = Arc::new(AtomicUsize::new(0));

    let mut t: CownTable<Tracker> = CownTable::new();
    {
        let tracker = Tracker { count: drop_count.clone() };

        let cown = Cown::new(&mut t, tracker);
        let clone1 = t.clone_cown(&cown);
        let clone2 = t.clone_cown(&cown);

        t.drop_cown(cown);
        t.drop_cown(clone1);
        // clone2 is dropped last
        t.drop_cown(clone2);
    }

    // The destructor runs synchronously on the last release, exactly once
    assert_eq!(drop_count.load(Ordering::SeqCst), 1);
    assert!(true);
}

#[test]
fn test_cown_immediate_drop() {
    // Create and immediately drop
    let mut t_i32: CownTable<i32> = CownTable::new();
    let mut t_string: CownTable<String> = CownTable::new();
    let mut t_vec: CownTable<Vec<i32>> = CownTable::new();

    let c1 = Cown::new(&mut t_i32, 42);
    t_i32.drop_cown(c1);
    let c2 = Cown::new(&mut t_string, String::from("test"));
    t_string.drop_cown(c2);
    let c3 = Cown::new(&mut t_vec, vec![1, 2, 3]);
    t_vec.drop_cown(c3);

    assert!(true);
}

#[test]
fn test_cown_clone_immediate_drop() {
    let mut t: CownTable<i32> = CownTable::new();
    let cown = Cown::new(&mut t, 42);
    let c1 = t.clone_cown(&cown);
    t.drop_cown(c1);
    let c2 = t.clone_cown(&cown);
    t.drop_cown(c2);
    let c3 = t.clone_cown(&cown);
    t.drop_cown(c3);
    t.drop_cown(cown);

    assert!(true);
}

#[test]
fn test_cown_nested_cowns_via_vec() {
    // Create a vector of cowns (not cowns containing vectors)
    let mut t: CownTable<usize> = CownTable::new();
    let mut cown_vec = Vec::new();

    for i in 0..100 {
        cown_vec.push(Cown::new(&mut t, i));
    }

    // Clone some
    let mut extra = Vec::new();
    for i in 0..50 {
        extra.push(t.clone_cown(&cown_vec[i]));
    }

    for c in cown_vec {
        t.drop_cown(c);
    }
    for c in extra {
        t.drop_cown(c);
    }
    assert!(true);
}
