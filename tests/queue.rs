use sudoku_core::{Branch, GetKey, Point, PriorityQueue};

fn branch(n: u32, x: u8, y: u8) -> Branch {
    Branch { num_possible: n, point: Point::new(x, y) }
}

#[test]
fn pop_yields_smallest_key_first() {
    let mut q = PriorityQueue::new();
    q.insert(branch(5, 0, 0));
    q.insert(branch(2, 1, 0));
    q.insert(branch(7, 2, 0));
    q.insert(branch(3, 3, 0));
    assert_eq!(q.len(), 4);
    let keys: Vec<u32> = (0..4).map(|_| q.pop().unwrap().get_key()).collect();
    assert_eq!(keys, vec![2, 3, 5, 7]);
    assert!(q.pop().is_none());
}

#[test]
fn queue_keeps_descending_order_inside() {
    let mut q = PriorityQueue::new();
    q.insert_all(vec![branch(4, 0, 0), branch(9, 0, 1), branch(1, 0, 2), branch(4, 0, 3)]);
    let keys: Vec<u32> = q.iter().iter().map(|b| b.num_possible).collect();
    assert_eq!(keys, vec![9, 4, 4, 1]);
    assert_eq!(q.index(0).num_possible, 9);
}

#[test]
fn remove_by_drops_matching_entries() {
    let mut q = PriorityQueue::new();
    q.insert_all(vec![branch(4, 0, 0), branch(9, 0, 1), branch(1, 0, 2), branch(6, 0, 3)]);
    q.remove_by(|b| b.num_possible % 2 == 0);
    let keys: Vec<u32> = q.iter().iter().map(|b| b.num_possible).collect();
    assert_eq!(keys, vec![9, 1]);
}

#[test]
fn update_keeps_sorted_queue_and_entries() {
    let mut q = PriorityQueue::new();
    q.insert_all(vec![branch(3, 0, 0), branch(8, 0, 1), branch(5, 0, 2)]);
    q.update();
    let keys: Vec<u32> = q.iter().iter().map(|b| b.num_possible).collect();
    assert_eq!(keys, vec![8, 5, 3]);
}

#[test]
fn drain_hands_out_smallest_first() {
    let mut q = PriorityQueue::new();
    q.insert_all(vec![branch(3, 0, 0), branch(8, 0, 1), branch(5, 0, 2)]);
    let mut drain = q.into_iter();
    let mut keys = Vec::new();
    while let Some(b) = drain.next() {
        keys.push(b.num_possible);
    }
    assert_eq!(keys, vec![3, 5, 8]);
}

#[test]
fn empty_queue_pops_none() {
    let mut q: PriorityQueue<Branch> = PriorityQueue::new();
    assert_eq!(q.len(), 0);
    assert!(q.pop().is_none());
}

#[test]
fn update_leaves_a_sorted_queue_as_it_is() {
    let mut q = PriorityQueue::new();
    q.insert_all(vec![branch(4, 0, 0), branch(4, 1, 1), branch(2, 2, 2), branch(4, 3, 3)]);
    let before: Vec<(u32, u8, u8)> = q.iter().iter().map(|b| (b.num_possible, b.point.x, b.point.y)).collect();
    q.update();
    let after: Vec<(u32, u8, u8)> = q.iter().iter().map(|b| (b.num_possible, b.point.x, b.point.y)).collect();
    assert_eq!(before, after);
}

#[test]
fn insert_keeps_the_order_of_the_others() {
    let mut q = PriorityQueue::new();
    q.insert_all(vec![branch(6, 0, 0), branch(3, 1, 1), branch(3, 2, 2)]);
    let before: Vec<(u8, u8)> = q.iter().iter().map(|b| (b.point.x, b.point.y)).collect();
    q.insert(branch(3, 5, 5));
    let after: Vec<(u8, u8)> =
        q.iter().iter().map(|b| (b.point.x, b.point.y)).filter(|p| *p != (5, 5)).collect();
    assert_eq!(before, after);
    assert_eq!(q.len(), 4);
}
