use timer_queue::{Order, TQHandle, TimerQueue};

#[test]
fn stale_handle_stays_stale_when_its_slot_is_reused() {
    let mut q: TimerQueue<u64, u64> = TimerQueue::new(Order::SmallestFirst);
    let old = q.insert(1, 1);
    assert_eq!(q.pop(), Some(1));
    assert_eq!(q.rm(&old), None);
    let mut fresh = Vec::new();
    for round in 0..50u64 {
        let h = q.insert(round + 10, round);
        assert_eq!(q.change_priority(&old, 0), None);
        assert_eq!(q.rm(&old), None);
        if round % 2 == 0 {
            assert_eq!(q.rm(&h), Some(round + 10));
            assert_eq!(q.rm(&h), None);
        } else {
            fresh.push((h, round + 10));
        }
        for (g, _) in fresh.iter() {
            assert!(q.change_priority(g, 5).is_some());
        }
    }
    assert_eq!(q.rm(&old), None);
    for (g, data) in fresh {
        assert_eq!(q.rm(&g), Some(data));
        assert_eq!(q.rm(&g), None);
    }
    assert_eq!(q.pop(), None);
}

#[test]
fn remove_takes_exactly_one_element() {
    let mut q: TimerQueue<u64, u64> = TimerQueue::new(Order::SmallestFirst);
    let mut hs: Vec<TQHandle<u64, u64>> = Vec::new();
    for p in 0..16u64 {
        hs.push(q.insert(p * 10, p));
    }
    assert_eq!(q.rm(&hs[7]), Some(70));
    let mut left = Vec::new();
    while let Some(x) = q.pop() {
        left.push(x);
    }
    let expected: Vec<u64> = (0..16u64).filter(|p| *p != 7).map(|p| p * 10).collect();
    assert_eq!(left, expected);
}

#[test]
fn handles_survive_every_move_of_their_elements() {
    let mut q: TimerQueue<u64, usize> = TimerQueue::new(Order::SmallestFirst);
    let mut hs = Vec::new();
    let mut prio = Vec::new();
    // Descending priorities make every insertion travel to the root.
    for i in 0..64usize {
        let p = 1000 - i as u64;
        hs.push(q.insert(i, p));
        prio.push(p);
    }
    for i in 0..64usize {
        let new = (i as u64 * 37) % 101;
        assert_eq!(q.change_priority(&hs[i], new), Some(prio[i]));
        prio[i] = new;
    }
    for i in (0..64usize).step_by(3) {
        assert_eq!(q.rm(&hs[i]), Some(i));
        assert_eq!(q.change_priority(&hs[i], 0), None);
    }
    let mut last = 0u64;
    let mut seen = 0;
    while let Some(p) = q.peek() {
        let i = q.pop().unwrap();
        assert!(i % 3 != 0);
        assert_eq!(prio[i], p);
        assert!(last <= p);
        last = p;
        seen += 1;
    }
    assert_eq!(seen, 64 - 22);
}

#[test]
fn queue_agrees_with_a_sorted_list() {
    let mut q: TimerQueue<u32, u32> = TimerQueue::new(Order::SmallestFirst);
    let mut model: Vec<(u32, u32, TQHandle<u32, u32>)> = Vec::new();
    let mut dead: Vec<TQHandle<u32, u32>> = Vec::new();
    let mut state: u32 = 12345;
    let mut next_id: u32 = 0;
    for _ in 0..4000 {
        state = state.wrapping_mul(1664525).wrapping_add(1013904223);
        let choice = (state >> 24) % 8;
        let arg = (state >> 8) % 50;
        match choice {
            0 | 1 | 2 => {
                let h = q.insert(next_id, arg);
                model.push((arg, next_id, h));
                next_id += 1;
            }
            3 => {
                let best = model.iter().map(|e| e.0).min();
                assert_eq!(q.peek(), best);
                match q.pop() {
                    None => assert!(model.is_empty()),
                    Some(id) => {
                        let k = model.iter().position(|e| e.1 == id).unwrap();
                        assert_eq!(Some(model[k].0), best);
                        dead.push(model.remove(k).2);
                    }
                }
            }
            4 | 5 => {
                if !model.is_empty() {
                    let k = (state as usize >> 3) % model.len();
                    let old = model[k].0;
                    assert_eq!(q.change_priority(&model[k].2, arg), Some(old));
                    model[k].0 = arg;
                }
            }
            6 => {
                if !model.is_empty() {
                    let k = (state as usize >> 3) % model.len();
                    let e = model.remove(k);
                    assert_eq!(q.rm(&e.2), Some(e.1));
                    dead.push(e.2);
                }
            }
            _ => {
                if !dead.is_empty() {
                    let k = (state as usize >> 3) % dead.len();
                    assert_eq!(q.rm(&dead[k]), None);
                    assert_eq!(q.change_priority(&dead[k], arg), None);
                }
            }
        }
        assert_eq!(q.peek(), model.iter().map(|e| e.0).min());
    }
    let mut last = 0;
    let mut count = 0;
    while let Some(id) = q.pop() {
        let k = model.iter().position(|e| e.1 == id).unwrap();
        assert!(last <= model[k].0);
        last = model[k].0;
        model.remove(k);
        count += 1;
    }
    assert!(model.is_empty());
    assert!(count <= 4000);
}
