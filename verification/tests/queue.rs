use realtime_queue::rtqueue::{Queue, QueueIter};
use realtime_queue::store::Store;
use std::collections::VecDeque;

#[test]
fn test_queue() {
    let mut s = Store::new();
    let a = Queue::new().push_back(&mut s, 1).push_back(&mut s, 2);
    let b = a.push_back(&mut s, 3).push_back(&mut s, 4);
    let c = a.push_back(&mut s, 5).push_back(&mut s, 6);
    let b1 = b
        .pop_front(&mut s)
        .unwrap()
        .0
        .pop_front(&mut s)
        .unwrap()
        .0;
    let c1 = c
        .pop_front(&mut s)
        .unwrap()
        .0
        .pop_front(&mut s)
        .unwrap()
        .0;

    assert!(a.to_vec(&mut s) == vec![1, 2]);
    assert!(b.to_vec(&mut s) == vec![1, 2, 3, 4]);
    assert!(c.to_vec(&mut s) == vec![1, 2, 5, 6]);
    assert!(b1.to_vec(&mut s) == vec![3, 4]);
    assert!(c1.to_vec(&mut s) == vec![5, 6]);
}

#[test]
fn single_element_and_two_branches() {
    let mut s = Store::new();
    let a: Queue<i32> = Queue::new().push_back(&mut s, 3);
    assert_eq!(a.to_vec(&mut s), vec![3]);
    let b1 = a.push_back(&mut s, 4);
    let b2 = a.push_back(&mut s, 5);
    assert_eq!(a.to_vec(&mut s), vec![3]);
    assert_eq!(b1.to_vec(&mut s), vec![3, 4]);
    assert_eq!(b2.to_vec(&mut s), vec![3, 5]);
}

#[test]
fn pop_on_new_queue_is_none() {
    let mut s: Store<u8> = Store::new();
    let q: Queue<u8> = Queue::new();
    assert!(q.pop_front(&mut s).is_none());
    assert_eq!(s.node_count(), 0);
    assert_eq!(q.to_vec(&mut s), Vec::<u8>::new());
}

#[test]
fn default_queue_is_empty() {
    let mut s: Store<u8> = Store::new();
    let q: Queue<u8> = Default::default();
    assert!(q.pop_front(&mut s).is_none());
    assert_eq!(q.push_back(&mut s, 9).to_vec(&mut s), vec![9]);
}

#[test]
fn pops_come_in_push_order_then_none() {
    for n in 0..40u32 {
        let mut s = Store::new();
        let mut q = Queue::new();
        for v in 0..n {
            q = q.push_back(&mut s, v);
        }
        for v in 0..n {
            let (rest, x) = q.pop_front(&mut s).unwrap();
            assert_eq!(x, v);
            q = rest;
        }
        assert!(q.pop_front(&mut s).is_none());
        assert!(q.pop_front(&mut s).is_none());
    }
}

#[test]
fn round_trip_of_lengths_zero_one_and_many() {
    let mut s = Store::new();
    let empty: Vec<i64> = vec![];
    let q0 = Queue::from_vec(&mut s, empty.clone());
    assert_eq!(q0.to_vec(&mut s), empty);
    let q1 = Queue::from_vec(&mut s, vec![-7]);
    assert_eq!(q1.to_vec(&mut s), vec![-7]);
    let many: Vec<i64> = (0..1000).map(|i| i * i - 17).collect();
    let qn = Queue::from_vec(&mut s, many.clone());
    assert_eq!(qn.to_vec(&mut s), many);
    assert_eq!(q1.to_vec(&mut s), vec![-7]);
    assert_eq!(q0.to_vec(&mut s), empty);
}

#[test]
fn reading_out_twice_gives_the_same() {
    let mut s = Store::new();
    let q = Queue::from_vec(&mut s, vec![1, 2, 3, 4, 5, 6, 7]);
    let first = q.to_vec(&mut s);
    let second = q.to_vec(&mut s);
    assert_eq!(first, vec![1, 2, 3, 4, 5, 6, 7]);
    assert_eq!(second, first);
}

#[test]
fn every_version_keeps_its_contents() {
    let mut s = Store::new();
    let mut versions: Vec<(Queue<u32>, Vec<u32>)> = Vec::new();
    let mut q = Queue::new();
    let mut model: VecDeque<u32> = VecDeque::new();
    versions.push((q, vec![]));
    let mut seed: u32 = 12345;
    for step in 0..400u32 {
        seed = seed.wrapping_mul(1664525).wrapping_add(1013904223);
        if (seed >> 16) % 3 != 0 {
            q = q.push_back(&mut s, step);
            model.push_back(step);
        } else {
            match q.pop_front(&mut s) {
                None => assert!(model.is_empty()),
                Some((rest, x)) => {
                    assert_eq!(Some(x), model.pop_front());
                    q = rest;
                }
            }
        }
        versions.push((q, model.iter().copied().collect()));
    }
    for (v, expected) in versions.iter() {
        assert_eq!(&v.to_vec(&mut s), expected);
    }
    // branch off every tenth version and check that its neighbours do not see it
    for i in (0..versions.len()).step_by(10) {
        let (v, expected) = versions[i].clone();
        let w = v.push_back(&mut s, 777_777);
        let mut longer = expected.clone();
        longer.push(777_777);
        assert_eq!(w.to_vec(&mut s), longer);
        assert_eq!(v.to_vec(&mut s), expected);
    }
    for (v, expected) in versions.iter() {
        assert_eq!(&v.to_vec(&mut s), expected);
    }
}

#[test]
fn an_old_version_can_be_used_after_its_rotation_was_forced_elsewhere() {
    let mut s = Store::new();
    let a = Queue::from_vec(&mut s, vec![1, 2, 3]);
    let b = a.push_back(&mut s, 4);
    let b2 = b.push_back(&mut s, 5).push_back(&mut s, 6).push_back(&mut s, 7);
    let c = b.pop_front(&mut s).unwrap().0;
    let c2 = c.pop_front(&mut s).unwrap().0.push_back(&mut s, 8);
    assert_eq!(a.to_vec(&mut s), vec![1, 2, 3]);
    assert_eq!(b.to_vec(&mut s), vec![1, 2, 3, 4]);
    assert_eq!(b2.to_vec(&mut s), vec![1, 2, 3, 4, 5, 6, 7]);
    assert_eq!(c.to_vec(&mut s), vec![2, 3, 4]);
    assert_eq!(c2.to_vec(&mut s), vec![3, 4, 8]);
}

#[test]
fn each_call_makes_a_bounded_number_of_nodes() {
    let mut s = Store::new();
    let mut q = Queue::new();
    for v in 0..5000u32 {
        let before = s.node_count();
        q = q.push_back(&mut s, v);
        let made = s.node_count() - before;
        assert!(made >= 1 && made <= 3);
    }
    for _ in 0..5000u32 {
        let before = s.node_count();
        q = q.pop_front(&mut s).unwrap().0;
        assert!(s.node_count() - before <= 2);
    }
    let before = s.node_count();
    assert!(q.pop_front(&mut s).is_none());
    assert_eq!(s.node_count(), before);
}

#[test]
fn node_counts_of_the_first_pushes() {
    let mut s = Store::new();
    assert_eq!(s.node_count(), 0);
    let q1 = Queue::new().push_back(&mut s, 'a');
    // an empty front chain: the new node itself is the result
    assert_eq!(s.node_count(), 1);
    let q2 = q1.push_back(&mut s, 'b');
    // the pending marker walks over a clean node: one node for the value
    assert_eq!(s.node_count(), 2);
    let q3 = q2.push_back(&mut s, 'c');
    // one node for the value and one dirty head of the rotation
    assert_eq!(s.node_count(), 4);
    let q4 = q3.push_back(&mut s, 'd');
    // one node for the value and two for the step that is forced
    assert_eq!(s.node_count(), 7);
    assert_eq!(q4.to_vec(&mut s), vec!['a', 'b', 'c', 'd']);
    assert_eq!(q3.to_vec(&mut s), vec!['a', 'b', 'c']);
}

#[test]
fn cursor_hands_out_items_in_order() {
    let mut s = Store::new();
    let q = Queue::from_vec(&mut s, vec![10, 20, 30]);
    let mut it: QueueIter<i32> = q.iter();
    assert_eq!(it.next(&mut s), Some(10));
    assert_eq!(it.next(&mut s), Some(20));
    assert_eq!(it.next(&mut s), Some(30));
    assert_eq!(it.next(&mut s), None);
    assert_eq!(it.next(&mut s), None);
    assert_eq!(q.to_vec(&mut s), vec![10, 20, 30]);
    let mut again = q.iter();
    assert_eq!(again.next(&mut s), Some(10));
}

#[test]
fn values_that_are_not_copy() {
    let mut s = Store::new();
    let a = Queue::new()
        .push_back(&mut s, String::from("one"))
        .push_back(&mut s, String::from("two"));
    let b = a.push_back(&mut s, String::from("three"));
    let (rest, x) = b.pop_front(&mut s).unwrap();
    assert_eq!(x, "one");
    assert_eq!(rest.to_vec(&mut s), vec!["two".to_string(), "three".to_string()]);
    assert_eq!(a.to_vec(&mut s), vec!["one".to_string(), "two".to_string()]);
}

#[test]
fn clone_of_a_queue_is_the_same_queue() {
    let mut s = Store::new();
    let a = Queue::from_vec(&mut s, vec![1u8, 2, 3]);
    let b = a.clone();
    let a2 = a.pop_front(&mut s).unwrap().0;
    assert_eq!(b.to_vec(&mut s), vec![1, 2, 3]);
    assert_eq!(a2.to_vec(&mut s), vec![2, 3]);
}

#[test]
fn queues_of_two_runs_share_a_store() {
    let mut s = Store::new();
    let a = Queue::from_vec(&mut s, vec![1, 2, 3, 4, 5]);
    let b = Queue::from_vec(&mut s, vec![6, 7]);
    let a2 = a.pop_front(&mut s).unwrap().0.push_back(&mut s, 8);
    assert_eq!(b.to_vec(&mut s), vec![6, 7]);
    assert_eq!(a2.to_vec(&mut s), vec![2, 3, 4, 5, 8]);
    assert_eq!(a.to_vec(&mut s), vec![1, 2, 3, 4, 5]);
}
