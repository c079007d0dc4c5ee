use glib_native::queue::GQueue;

fn check_integrity(queue: &GQueue<i32>) {
    assert!(queue.get_length() < 4_000_000_000);
    let count = queue.foreach(|_, count: u32| count + 1, 0);
    assert_eq!(queue.get_length(), count);
    if queue.is_empty() {
        assert!(queue.peek_head().is_none());
        assert!(queue.peek_tail().is_none());
    } else {
        assert!(queue.peek_head().is_some());
        assert!(queue.peek_tail().is_some());
    }
}

fn pushed(value: i32, mut values: Vec<i32>) -> Vec<i32> {
    values.push(value);
    values
}

#[test]
fn new_and_static_init_are_empty() {
    let q = GQueue::<i32>::new();
    check_integrity(&q);
    assert!(q.is_empty());

    let q2 = GQueue::<i32>::default();
    check_integrity(&q2);
    assert!(q2.is_empty());
}

#[test]
fn basic_push_pop_peek() {
    let mut q = GQueue::new();

    assert!(q.is_empty());
    q.push_head(2);
    check_integrity(&q);
    assert_eq!(q.peek_head(), Some(&2));
    assert!(!q.is_empty());

    q.push_head(1);
    check_integrity(&q);
    assert_eq!(q.peek_head(), Some(&1));
    assert_eq!(q.peek_tail(), Some(&2));
    assert_eq!(q.get_length(), 2);

    q.push_tail(3);
    q.push_tail(4);
    q.push_tail(5);
    check_integrity(&q);
    assert_eq!(q.get_length(), 5);
    assert_eq!(q.peek_head(), Some(&1));
    assert_eq!(q.peek_tail(), Some(&5));

    assert_eq!(q.pop_head(), Some(1));
    check_integrity(&q);
    assert_eq!(q.get_length(), 4);

    assert_eq!(q.pop_tail(), Some(5));
    check_integrity(&q);
    assert_eq!(q.get_length(), 3);

    assert_eq!(q.pop_head(), Some(2));
    assert_eq!(q.pop_tail(), Some(4));
    assert_eq!(q.pop_head(), Some(3));
    check_integrity(&q);
    assert!(q.is_empty());

    assert_eq!(q.pop_head(), None);
    assert_eq!(q.pop_tail(), None);
    check_integrity(&q);
}

#[test]
fn clear_empties_queue() {
    let mut q = GQueue::new();
    q.push_tail(1234);
    q.push_tail(1);
    q.push_tail(2);
    assert_eq!(q.get_length(), 3);

    q.clear();
    check_integrity(&q);
    assert!(q.is_empty());
}

#[test]
fn reverse_reorders_elements() {
    let mut q = GQueue::new();
    q.push_tail(1);
    q.push_tail(2);
    q.push_tail(3);
    q.reverse();
    check_integrity(&q);
    assert_eq!(q.pop_head(), Some(3));
    assert_eq!(q.pop_head(), Some(2));
    assert_eq!(q.pop_head(), Some(1));
    assert!(q.is_empty());

    q.reverse();
    check_integrity(&q);
    assert!(q.is_empty());
}

#[test]
fn find_existing_and_missing() {
    let mut q = GQueue::new();
    q.push_tail(1234);
    q.push_tail(1);
    q.push_tail(2);

    assert_eq!(q.find(&1), Some(1));
    assert_eq!(q.find(&2), Some(2));
    assert_eq!(q.find(&3), None);

    assert_eq!(q.find_custom(|v| *v == 1234), Some(0));
    assert_eq!(q.find_custom(|v| *v == 99), None);
}

#[test]
fn foreach_visits_all_elements() {
    let mut q = GQueue::new();
    for i in 0..5 {
        q.push_tail(i);
    }

    let sum = q.foreach(|v, sum: i32| sum + v, 0);
    assert_eq!(sum, 10);
}

#[test]
fn clear_full_runs_callback() {
    let mut q = GQueue::new();
    q.push_tail(1);
    q.push_tail(2);
    q.push_tail(3);
    q.push_tail(4);
    assert_eq!(q.get_length(), 4);

    let freed = q.clear_full(pushed, Vec::new());

    assert_eq!(freed, vec![1, 2, 3, 4]);
    assert!(q.is_empty());
    check_integrity(&q);
}

#[test]
fn free_full_runs_callback() {
    let mut q = GQueue::new();
    q.push_tail(10);
    q.push_tail(20);
    q.push_tail(30);

    let freed = q.free_full(pushed, Vec::new());

    assert_eq!(freed, vec![10, 20, 30]);
}

#[test]
fn init_resets_queue() {
    let mut q = GQueue::new();
    q.push_tail(1);
    q.init();
    check_integrity(&q);
    assert!(q.is_empty());
}

#[test]
fn off_by_one_length_bounds() {
    let mut q = GQueue::new();
    q.push_tail(1234);
    check_integrity(&q);
    assert_eq!(q.peek_tail(), Some(&1234));
    assert_eq!(q.get_length(), 1);
    assert_eq!(q.pop_tail(), Some(1234));
    assert_eq!(q.pop_tail(), None);
    check_integrity(&q);
}

#[test]
fn reversing_twice_keeps_the_order() {
    let mut q = GQueue::new();
    for i in [7, 8, 9] {
        q.push_tail(i);
    }
    q.reverse();
    q.push_head(1);
    assert_eq!(q.pop_head(), Some(1));
    q.reverse();
    assert_eq!(q.foreach(|v, seen| pushed(*v, seen), Vec::new()), vec![7, 8, 9]);
    q.free();
}

#[test]
fn find_goes_by_the_equality_of_the_elements() {
    let mut q = GQueue::new();
    for v in [f64::NAN, 0.5, -0.0] {
        q.push_tail(v);
    }
    assert_eq!(q.find(&f64::NAN), None);
    assert_eq!(q.find(&0.0), Some(2));
    assert_eq!(q.find(&0.5), Some(1));
}
