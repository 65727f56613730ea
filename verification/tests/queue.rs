use worldbox::coord::Coord;
use worldbox::queue::{distance_key, Queue};

fn c(x: i32, y: i32, z: i32) -> Coord {
    Coord::new(x, y, z)
}

#[test]
fn queue_keeps_insertion_order() {
    let mut q = Queue::new();
    assert_eq!(q.len(), 0);
    assert!(q.insert(c(3, 0, 0)));
    assert!(q.insert(c(1, 0, 0)));
    assert!(q.insert(c(2, 0, 0)));
    assert_eq!(q.to_vec(), vec![c(3, 0, 0), c(1, 0, 0), c(2, 0, 0)]);
    assert_eq!(q.get_index(0), Some(c(3, 0, 0)));
    assert_eq!(q.get_index(2), Some(c(2, 0, 0)));
    assert_eq!(q.get_index(3), None);
    assert_eq!(q.len(), 3);
}

#[test]
fn queue_holds_no_coordinate_twice() {
    let mut q = Queue::new();
    assert!(q.insert(c(1, 2, 3)));
    assert!(q.insert(c(4, 5, 6)));
    assert!(!q.insert(c(1, 2, 3)));
    assert_eq!(q.to_vec(), vec![c(1, 2, 3), c(4, 5, 6)]);
    assert!(q.contains(c(1, 2, 3)));
    assert!(!q.contains(c(3, 2, 1)));
}

#[test]
fn remove_keeps_the_order_of_the_rest() {
    let mut q = Queue::new();
    for x in 0..5 {
        q.insert(c(x, 0, 0));
    }
    assert!(q.remove(c(1, 0, 0)));
    assert!(!q.remove(c(9, 0, 0)));
    assert_eq!(q.to_vec(), vec![c(0, 0, 0), c(2, 0, 0), c(3, 0, 0), c(4, 0, 0)]);
    assert!(q.remove(c(0, 0, 0)));
    assert!(q.remove(c(4, 0, 0)));
    assert_eq!(q.to_vec(), vec![c(2, 0, 0), c(3, 0, 0)]);
}

#[test]
fn extend_skips_what_is_queued() {
    let mut q = Queue::new();
    q.insert(c(1, 0, 0));
    q.extend(&vec![c(2, 0, 0), c(1, 0, 0), c(3, 0, 0), c(2, 0, 0)]);
    assert_eq!(q.to_vec(), vec![c(1, 0, 0), c(2, 0, 0), c(3, 0, 0)]);
}

#[test]
fn sort_puts_the_nearest_first() {
    let mut q = Queue::new();
    q.insert(c(5, 0, 0));
    q.insert(c(0, 3, 0));
    q.insert(c(1, 1, 1));
    q.insert(c(0, 0, -4));
    q.sort(c(0, 0, 0));
    assert_eq!(q.to_vec(), vec![c(1, 1, 1), c(0, 3, 0), c(0, 0, -4), c(5, 0, 0)]);
    q.sort(c(5, 0, 0));
    assert_eq!(q.to_vec(), vec![c(5, 0, 0), c(1, 1, 1), c(0, 3, 0), c(0, 0, -4)]);
}

#[test]
fn sort_keeps_the_order_of_ties() {
    let mut q = Queue::new();
    q.insert(c(0, 0, 2));
    q.insert(c(1, 0, 0));
    q.insert(c(0, -1, 0));
    q.insert(c(-2, 0, 0));
    q.insert(c(0, 0, 1));
    q.insert(c(0, 2, 0));
    q.sort(c(0, 0, 0));
    assert_eq!(
        q.to_vec(),
        vec![c(1, 0, 0), c(0, -1, 0), c(0, 0, 1), c(0, 0, 2), c(-2, 0, 0), c(0, 2, 0)]
    );
}

#[test]
fn distance_key_is_the_squared_distance() {
    assert_eq!(distance_key(&(1, 2, 3), c(0, 0, 0)), 14);
    assert_eq!(distance_key(&(1, 2, 3), c(1, 2, 3)), 0);
    assert_eq!(distance_key(&(-1, 0, 0), c(2, 0, 0)), 9);
}
