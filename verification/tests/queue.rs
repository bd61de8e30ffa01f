use timer_queue::{Order, TQHandle, TimerQueue};

fn smallest_first<T>() -> TimerQueue<u64, T> {
    TimerQueue::new(Order::SmallestFirst)
}

fn drain<T>(q: &mut TimerQueue<u64, T>) -> Vec<T> {
    let mut out = Vec::new();
    while let Some(x) = q.pop() {
        out.push(x);
    }
    out
}

#[test]
fn it_works() {
    assert_eq!(2 + 2, 4);
}

#[test]
fn peek_and_pop_follow_priority() {
    let mut q = smallest_first();
    q.insert("A", 5);
    q.insert("B", 3);
    q.insert("C", 8);
    assert_eq!(q.peek(), Some(3));
    assert_eq!(q.pop(), Some("B"));
    assert_eq!(q.peek(), Some(5));
}

#[test]
fn handle_is_stale_after_pop() {
    let mut q = smallest_first();
    let h = q.insert("X", 10);
    assert_eq!(q.pop(), Some("X"));
    assert_eq!(q.change_priority(&h, 1), None);
}

#[test]
fn change_priority_returns_previous() {
    let mut q = smallest_first();
    let h = q.insert("X", 10);
    assert_eq!(q.change_priority(&h, 1), Some(10));
    assert_eq!(q.peek(), Some(1));
}

#[test]
fn remove_from_the_middle() {
    let mut q = smallest_first();
    let mut handles = Vec::new();
    for p in [5u64, 1, 9, 3, 7] {
        handles.push((p, q.insert(p, p)));
    }
    let h = handles.iter().find(|(p, _)| *p == 9).map(|(_, h)| *h).unwrap();
    assert_eq!(q.rm(&h), Some(9));
    assert_eq!(drain(&mut q), vec![1, 3, 5, 7]);
}

#[test]
fn equal_priorities_each_come_out_once() {
    let mut q = smallest_first();
    q.insert("A", 4);
    q.insert("B", 4);
    let mut out = drain(&mut q);
    out.sort();
    assert_eq!(out, vec!["A", "B"]);
}

#[test]
fn empty_queue_gives_nothing() {
    let mut other = smallest_first();
    let foreign: TQHandle<u64, &str> = other.insert("elsewhere", 1);
    let mut q: TimerQueue<u64, &str> = smallest_first();
    assert_eq!(q.peek(), None);
    assert_eq!(q.pop(), None);
    assert_eq!(q.change_priority(&foreign, 2), None);
    assert_eq!(q.rm(&foreign), None);
    assert_eq!(q.pop(), None);
}

#[test]
fn largest_first_reverses_the_order() {
    let mut q: TimerQueue<i32, i32> = TimerQueue::new(Order::LargestFirst);
    for p in [5, -1, 9, 3, 7, 9] {
        q.insert(p, p);
    }
    assert_eq!(q.peek(), Some(9));
    let mut out = Vec::new();
    while let Some(x) = q.pop() {
        out.push(x);
    }
    assert_eq!(out, vec![9, 9, 7, 5, 3, -1]);
}

#[test]
fn single_element_round_trip() {
    let mut q = smallest_first();
    q.insert(String::from("payload"), 42);
    assert_eq!(q.pop(), Some(String::from("payload")));
    assert_eq!(q.pop(), None);
}

#[test]
fn improving_a_leaf_brings_it_to_the_front() {
    let mut q = smallest_first();
    let mut last = None;
    for p in 10..30u64 {
        last = Some(q.insert(p, p));
    }
    let h = last.unwrap();
    assert_eq!(q.change_priority(&h, 0), Some(29));
    assert_eq!(q.peek(), Some(0));
    assert_eq!(q.pop(), Some(29));
    assert_eq!(q.peek(), Some(10));
}

#[test]
fn worsening_the_root_sends_it_back() {
    let mut q = smallest_first();
    let first = q.insert(0u64, 0);
    for p in 1..20u64 {
        q.insert(p, p);
    }
    assert_eq!(q.change_priority(&first, 100), Some(0));
    assert_eq!(q.peek(), Some(1));
    let out = drain(&mut q);
    let mut expected: Vec<u64> = (1..20).collect();
    expected.push(0);
    assert_eq!(out, expected);
}

#[test]
fn change_to_equal_priority_keeps_the_element() {
    let mut q = smallest_first();
    let a = q.insert("a", 2);
    q.insert("b", 1);
    assert_eq!(q.change_priority(&a, 2), Some(2));
    assert_eq!(drain(&mut q), vec!["b", "a"]);
}

#[test]
fn remove_the_last_leaf() {
    let mut q = smallest_first();
    q.insert(1u64, 1);
    q.insert(2u64, 2);
    let h = q.insert(3u64, 3);
    assert_eq!(q.rm(&h), Some(3));
    assert_eq!(drain(&mut q), vec![1, 2]);
}

#[test]
fn remove_the_root() {
    let mut q = smallest_first();
    let h = q.insert(1u64, 1);
    q.insert(2u64, 2);
    q.insert(3u64, 3);
    assert_eq!(q.rm(&h), Some(1));
    assert_eq!(q.peek(), Some(2));
    assert_eq!(drain(&mut q), vec![2, 3]);
}

#[test]
fn removal_may_move_an_element_up() {
    // The last leaf hangs below 1; it replaces a leaf below 100 and has to rise.
    let mut q = smallest_first();
    let mut hs = Vec::new();
    for p in [0u64, 100, 1, 101, 102, 2, 3] {
        hs.push(q.insert(p, p));
    }
    assert_eq!(q.rm(&hs[3]), Some(101));
    assert_eq!(drain(&mut q), vec![0, 1, 2, 3, 100, 102]);
}

#[test]
fn copied_handle_names_the_same_element() {
    let mut q = smallest_first();
    let h = q.insert("x", 7);
    let copy = h;
    let clone = h.clone();
    assert_eq!(q.change_priority(&copy, 8), Some(7));
    assert_eq!(q.rm(&clone), Some("x"));
    assert_eq!(q.rm(&h), None);
}
