use timer_queue::{Order, TQHandle, TimerQueue};

#[test]
fn tied_insert_keeps_the_front() {
    let mut q: TimerQueue<u64, &str> = TimerQueue::new(Order::SmallestFirst);
    q.insert("first", 4);
    q.insert("second", 4);
    q.insert("third", 4);
    assert_eq!(q.pop(), Some("first"));
}

#[test]
fn better_insert_takes_the_front() {
    let mut q: TimerQueue<u64, &str> = TimerQueue::new(Order::SmallestFirst);
    q.insert("first", 4);
    q.insert("second", 3);
    assert_eq!(q.pop(), Some("second"));
    assert_eq!(q.pop(), Some("first"));
}

#[test]
fn ties_do_not_move_on_the_way_down() {
    let mut q: TimerQueue<u64, &str> = TimerQueue::new(Order::SmallestFirst);
    q.insert("a", 1);
    q.insert("b", 2);
    q.insert("c", 2);
    assert_eq!(q.pop(), Some("a"));
    // "c" took the root and ties with its only child "b": it stays.
    assert_eq!(q.pop(), Some("c"));
    assert_eq!(q.pop(), Some("b"));
}

#[test]
fn the_right_child_is_taken_only_where_it_is_better() {
    let mut q: TimerQueue<u64, &str> = TimerQueue::new(Order::SmallestFirst);
    q.insert("root", 0);
    q.insert("left", 5);
    q.insert("right", 5);
    q.insert("leaf", 9);
    assert_eq!(q.pop(), Some("root"));
    // "leaf" took the root; its children tie, so it goes below the left one.
    assert_eq!(q.pop(), Some("left"));
    assert_eq!(q.pop(), Some("right"));
    assert_eq!(q.pop(), Some("leaf"));
}

#[test]
fn stale_calls_leave_the_arrangement_alone() {
    let mut q: TimerQueue<u64, &str> = TimerQueue::new(Order::SmallestFirst);
    let gone = q.insert("gone", 0);
    assert_eq!(q.pop(), Some("gone"));
    q.insert("x", 7);
    q.insert("y", 7);
    q.insert("z", 7);
    assert_eq!(q.change_priority(&gone, 1), None);
    assert_eq!(q.rm(&gone), None);
    assert_eq!(q.pop(), Some("x"));
    assert_eq!(q.change_priority(&gone, 1), None);
    assert_eq!(q.rm(&gone), None);
    assert_eq!(q.pop(), Some("z"));
    assert_eq!(q.pop(), Some("y"));
}

// A plain binary heap with the same rules for each exchange, to compare with.
struct Plain {
    items: Vec<(u32, u32)>,
}

impl Plain {
    fn up(&mut self, mut k: usize) -> usize {
        while k > 0 && self.items[k].0 < self.items[(k - 1) / 2].0 {
            self.items.swap(k, (k - 1) / 2);
            k = (k - 1) / 2;
        }
        k
    }

    fn down(&mut self, mut k: usize) {
        loop {
            let left = 2 * k + 1;
            if left >= self.items.len() {
                return;
            }
            let right = left + 1;
            let c = if right < self.items.len() && self.items[right].0 < self.items[left].0 {
                right
            } else {
                left
            };
            if !(self.items[c].0 < self.items[k].0) {
                return;
            }
            self.items.swap(k, c);
            k = c;
        }
    }

    fn take(&mut self, k: usize) -> u32 {
        let id = self.items.swap_remove(k).1;
        if k < self.items.len() {
            let r = self.up(k);
            self.down(r);
        }
        id
    }

    fn find(&self, id: u32) -> usize {
        self.items.iter().position(|e| e.1 == id).unwrap()
    }
}

#[test]
fn arrangement_follows_the_sift_rules() {
    let mut q: TimerQueue<u32, u32> = TimerQueue::new(Order::SmallestFirst);
    let mut plain = Plain { items: Vec::new() };
    let mut handles: Vec<(u32, TQHandle<u32, u32>)> = Vec::new();
    let mut state: u32 = 2024;
    let mut next_id: u32 = 0;
    for _ in 0..6000 {
        state = state.wrapping_mul(1664525).wrapping_add(1013904223);
        let choice = (state >> 24) % 7;
        // Few distinct priorities, so that ties abound.
        let arg = (state >> 8) % 4;
        match choice {
            0 | 1 | 2 => {
                handles.push((next_id, q.insert(next_id, arg)));
                plain.items.push((arg, next_id));
                let at = plain.items.len() - 1;
                plain.up(at);
                next_id += 1;
            }
            3 => {
                let expected = if plain.items.is_empty() { None } else { Some(plain.take(0)) };
                assert_eq!(q.pop(), expected);
                if let Some(id) = expected {
                    handles.retain(|e| e.0 != id);
                }
            }
            4 | 5 => {
                if !handles.is_empty() {
                    let (id, h) = handles[(state as usize >> 3) % handles.len()];
                    let k = plain.find(id);
                    let old = plain.items[k].0;
                    plain.items[k].0 = arg;
                    let r = plain.up(k);
                    plain.down(r);
                    assert_eq!(q.change_priority(&h, arg), Some(old));
                }
            }
            _ => {
                if !handles.is_empty() {
                    let (id, h) = handles.remove((state as usize >> 3) % handles.len());
                    let k = plain.find(id);
                    assert_eq!(plain.take(k), id);
                    assert_eq!(q.rm(&h), Some(id));
                }
            }
        }
        assert_eq!(q.peek(), plain.items.first().map(|e| e.0));
    }
    while !plain.items.is_empty() {
        assert_eq!(q.pop(), Some(plain.take(0)));
    }
    assert_eq!(q.pop(), None);
}
