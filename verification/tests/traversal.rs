use ring_buffer::{IntoIter, Iter, RingBuffer};

#[test]
fn iter_of_a_full_buffer_yields_capacity_elements_at_any_offset() {
    for cap in 1..=6usize {
        for offset in 0..cap {
            let mut rb = RingBuffer::with_capacity(cap);
            for v in 0..offset {
                rb.push(v).unwrap();
            }
            for _ in 0..offset {
                rb.pop().unwrap();
            }
            for v in 0..cap {
                rb.push(100 + v).unwrap();
            }
            assert!(rb.is_full());
            let seen: Vec<usize> = rb.iter().copied().collect();
            assert_eq!(seen.len(), cap);
            assert_eq!(seen, (100..100 + cap).collect::<Vec<usize>>());
        }
    }
}

#[test]
fn iter_stays_ended() {
    let mut rb = RingBuffer::with_capacity(3);
    rb.push(1).unwrap();
    rb.push(2).unwrap();
    rb.push(3).unwrap();
    let mut it: Iter<'_, i32> = rb.iter();
    assert_eq!(it.next(), Some(&1));
    assert_eq!(it.next(), Some(&2));
    assert_eq!(it.next(), Some(&3));
    assert_eq!(it.next(), None);
    assert_eq!(it.next(), None);
}

#[test]
fn iter_of_an_empty_buffer_yields_nothing() {
    let mut rb = RingBuffer::with_capacity(3);
    assert_eq!(rb.iter().next(), None);
    rb.push(1).unwrap();
    rb.pop();
    assert_eq!(rb.iter().next(), None);
    assert_eq!(rb.iter().count(), 0);
}

#[test]
fn iter_of_a_partly_filled_buffer_wraps() {
    let mut rb = RingBuffer::with_capacity(4);
    for v in 1..=4 {
        rb.push(v).unwrap();
    }
    rb.pop();
    rb.pop();
    rb.pop();
    rb.push(5).unwrap();
    rb.push(6).unwrap();
    assert_eq!(rb.slots(), &[5, 6, 0, 4]);
    let seen: Vec<i32> = rb.iter().copied().collect();
    assert_eq!(seen, vec![4, 5, 6]);
}

#[test]
fn iter_can_be_started_again_and_leaves_the_buffer() {
    let mut rb = RingBuffer::with_capacity(3);
    rb.push_ignore(1);
    rb.push_ignore(2);
    rb.push_ignore(3);
    rb.push_ignore(4);
    let first: Vec<i32> = rb.iter().copied().collect();
    let second: Vec<i32> = rb.iter().copied().collect();
    assert_eq!(first, vec![2, 3, 4]);
    assert_eq!(second, first);
    assert_eq!(rb.len(), 3);
    assert_eq!(rb.pop(), Some(2));
}

#[test]
fn borrowed_buffer_goes_into_a_for_loop() {
    let mut rb = RingBuffer::with_capacity(3);
    for v in [4, 5, 6, 7] {
        rb.push_ignore(v);
    }
    let mut seen = Vec::new();
    for v in &rb {
        seen.push(*v);
    }
    assert_eq!(seen, vec![5, 6, 7]);
    for (&i, &v) in [5, 6, 7].iter().zip(&rb) {
        assert_eq!(i, v);
    }
}

#[test]
fn into_iter_drains_in_order() {
    let mut rb = RingBuffer::with_capacity(4);
    for v in 1..=6 {
        rb.push_ignore(v);
    }
    let mut it: IntoIter<i32> = rb.into_iter();
    assert_eq!(it.next(), Some(3));
    assert_eq!(it.next(), Some(4));
    assert_eq!(it.next(), Some(5));
    assert_eq!(it.next(), Some(6));
    assert_eq!(it.next(), None);
    assert_eq!(it.next(), None);
}

#[test]
fn owned_buffer_goes_into_a_for_loop() {
    let mut rb = RingBuffer::with_capacity(3);
    rb.push(String::from("x")).unwrap();
    rb.push(String::from("y")).unwrap();
    let mut seen = Vec::new();
    for s in rb {
        seen.push(s);
    }
    assert_eq!(seen, vec![String::from("x"), String::from("y")]);
}

#[test]
fn buffer_from_a_sequence_is_full_and_in_order() {
    let rb = RingBuffer::from_iter(vec![3, 1, 4, 1, 5].into_iter());
    assert_eq!(rb.capacity(), 5);
    assert_eq!(rb.len(), 5);
    assert!(rb.is_full());
    assert!(!rb.is_empty());
    assert_eq!(rb.slots(), &[3, 1, 4, 1, 5]);
    let seen: Vec<i32> = rb.into_iter().collect();
    assert_eq!(seen, vec![3, 1, 4, 1, 5]);
}

#[test]
fn buffer_from_a_sequence_refuses_and_overwrites() {
    let mut rb = RingBuffer::from_iter(1..=3);
    assert!(rb.push(4).is_err());
    rb.push_ignore(4);
    assert_eq!(rb.pop(), Some(2));
    assert_eq!(rb.push(5), Ok(()));
    let seen: Vec<i32> = rb.iter().copied().collect();
    assert_eq!(seen, vec![3, 4, 5]);
}

#[test]
fn buffer_from_a_vec_is_full_and_in_order() {
    let mut rb = RingBuffer::from_vec(vec![String::from("a"), String::from("b")]);
    assert_eq!(rb.capacity(), 2);
    assert!(rb.is_full());
    assert_eq!(rb.pop(), Some(String::from("a")));
    assert_eq!(rb.pop(), Some(String::from("b")));
    assert_eq!(rb.pop(), None);
}

#[test]
fn buffer_from_nothing_has_no_slots() {
    let mut rb: RingBuffer<u8> = RingBuffer::from_iter(Vec::new().into_iter());
    assert_eq!(rb.capacity(), 0);
    assert!(rb.is_empty());
    assert!(rb.is_full());
    assert!(rb.push(1).is_err());
    assert_eq!(rb.pop(), None);
}
