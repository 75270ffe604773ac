use std::sync::atomic::{AtomicUsize, Ordering};
use std::sync::Arc;
use verust::cown::{Cown, CownTable};

fn assert_send<T: Send>() {}

#[derive(Debug)]
struct Point {
    x: i32,
    y: i32,
}

struct DropCounter {
    count: Arc<AtomicUsize>,
    id: usize,
}

impl Drop for DropCounter {
    fn drop(&mut self) {
        self.count.fetch_add(1, Ordering::SeqCst);
    }
}

#[derive(Debug)]
struct Nested {
    data: Vec<String>,
    inner: Option<Box<Nested>>,
}

#[test]
fn test_cown_creation_primitive_types() {
    // Test with various primitive types
    let mut t_i32: CownTable<i32> = CownTable::new();
    let mut t_i64: CownTable<i64> = CownTable::new();
    let mut t_u32: CownTable<u32> = CownTable::new();
    let mut t_f64: CownTable<f64> = CownTable::new();
    let mut t_bool: CownTable<bool> = CownTable::new();
    let mut t_char: CownTable<char> = CownTable::new();

    let _cown_i32 = Cown::new(&mut t_i32, 42i32);
    let _cown_i64 = Cown::new(&mut t_i64, 100i64);
    let _cown_u32 = Cown::new(&mut t_u32, 255u32);
    let _cown_f64 = Cown::new(&mut t_f64, 3.14f64);
    let _cown_bool = Cown::new(&mut t_bool, true);
    let _cown_char = Cown::new(&mut t_char, 'A');

    // If we reach here without crashing, creation worked
    assert!(true);
}

#[test]
fn test_cown_creation_string() {
    let mut t: CownTable<String> = CownTable::new();
    let message = String::from("Hello, Cowns!");
    let cown = Cown::new(&mut t, message);

    // Verify the cown was created without panic
    t.drop_cown(cown);
    assert!(true);
}

#[test]
fn test_cown_creation_vec() {
    let mut t: CownTable<Vec<i32>> = CownTable::new();
    let data = vec![1, 2, 3, 4, 5];
    let cown = Cown::new(&mut t, data);

    t.drop_cown(cown);
    assert!(true);
}

#[test]
fn test_cown_creation_custom_struct() {
    let mut t: CownTable<Point> = CownTable::new();
    let point = Point { x: 10, y: 20 };
    let cown = Cown::new(&mut t, point);

    t.drop_cown(cown);
    assert!(true);
}

#[test]
fn test_cown_clone() {
    let mut t: CownTable<i32> = CownTable::new();
    let cown1 = Cown::new(&mut t, 42i32);

    // Clone the cown - should increment reference count
    let cown2 = t.clone_cown(&cown1);
    let cown3 = t.clone_cown(&cown1);
    assert_eq!(t.handle_count(cown1.id()), 3);

    // All three should be valid
    t.drop_cown(cown1);
    t.drop_cown(cown2);
    t.drop_cown(cown3);

    // If we reach here, ref counting worked correctly
    assert!(true);
}

#[test]
fn test_cown_clone_different_types() {
    let mut t_string: CownTable<String> = CownTable::new();
    let mut t_vec: CownTable<Vec<i32>> = CownTable::new();
    let cown_string = Cown::new(&mut t_string, String::from("test"));
    let cown_vec = Cown::new(&mut t_vec, vec![1, 2, 3]);

    let _clone1 = t_string.clone_cown(&cown_string);
    let _clone2 = t_vec.clone_cown(&cown_vec);

    assert!(true);
}

#[test]
fn test_cown_drop_order() {
    // Create a counter to track drops
    let drop_count = Arc::new(AtomicUsize::new(0));

    let mut t: CownTable<DropCounter> = CownTable::new();
    {
        let counter1 = DropCounter { count: drop_count.clone(), id: 1 };
        let cown = Cown::new(&mut t, counter1);

        // Clone it multiple times
        let clone1 = t.clone_cown(&cown);
        let clone2 = t.clone_cown(&cown);

        // All clones are dropped here
        t.drop_cown(clone1);
        t.drop_cown(clone2);
        t.drop_cown(cown);
    }

    // The destructor runs synchronously on the last release, exactly once
    assert_eq!(drop_count.load(Ordering::SeqCst), 1);
    assert_eq!(t.destructor_count(0), 1);
    assert!(true);
}

#[test]
fn test_cown_with_option() {
    let mut t: CownTable<Option<i32>> = CownTable::new();
    let cown_some = Cown::new(&mut t, Some(42i32));
    let cown_none = Cown::new(&mut t, None);

    t.drop_cown(cown_some);
    t.drop_cown(cown_none);

    assert!(true);
}

#[test]
fn test_cown_with_result() {
    let mut t: CownTable<Result<i32, String>> = CownTable::new();
    let cown_ok = Cown::new(&mut t, Ok(42));
    let cown_err = Cown::new(&mut t, Err("error".to_string()));

    t.drop_cown(cown_ok);
    t.drop_cown(cown_err);

    assert!(true);
}

#[test]
fn test_cown_large_data() {
    // Test with a large vector to ensure memory handling works
    let mut t: CownTable<Vec<u8>> = CownTable::new();
    let large_vec: Vec<u8> = vec![0u8; 1024 * 1024]; // 1MB
    let cown = Cown::new(&mut t, large_vec);

    t.drop_cown(cown);
    assert!(true);
}

#[test]
fn test_cown_nested_structures() {
    let mut t: CownTable<Nested> = CownTable::new();
    let nested = Nested {
        data: vec!["hello".to_string(), "world".to_string()],
        inner: Some(Box::new(Nested { data: vec!["nested".to_string()], inner: None })),
    };

    let cown = Cown::new(&mut t, nested);
    t.drop_cown(cown);

    assert!(true);
}

#[test]
fn test_multiple_cowns_independent() {
    // Create multiple independent cowns
    let mut t: CownTable<i32> = CownTable::new();
    let cown1 = Cown::new(&mut t, 1i32);
    let cown2 = Cown::new(&mut t, 2i32);
    let cown3 = Cown::new(&mut t, 3i32);

    // Drop them in different order
    t.drop_cown(cown2);
    t.drop_cown(cown1);
    t.drop_cown(cown3);

    assert!(true);
}

#[test]
fn test_cown_send_trait() {
    // Verify Cown implements Send
    assert_send::<Cown<i32>>();
    assert_send::<Cown<String>>();
    assert_send::<Cown<Vec<u8>>>();
}
