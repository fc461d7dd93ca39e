use ripstruct::seg_buffer::raw::RawBuffer;
use ripstruct::SegBuffer;
use std::collections::HashMap;
use std::sync::atomic::{AtomicUsize, Ordering};

#[test]
fn pops_return_pushes_in_order_then_none() {
    let mut buffer = SegBuffer::new();
    for value in [5, 1, 9, 1, 7] {
        buffer.push(value);
    }
    assert_eq!(buffer.pop(), Some(5));
    assert_eq!(buffer.pop(), Some(1));
    assert_eq!(buffer.pop(), Some(9));
    assert_eq!(buffer.pop(), Some(1));
    assert_eq!(buffer.pop(), Some(7));
    assert_eq!(buffer.pop(), None);
    assert_eq!(buffer.pop(), None);
}

#[test]
fn new_buffer_is_empty_and_stays_empty() {
    let mut buffer: SegBuffer<String> = SegBuffer::new();
    for _ in 0..10 {
        assert_eq!(buffer.pop(), None);
    }
    let mut slices = buffer.iter_slices();
    assert_eq!(slices.next(), Some(&[][..]));
    assert_eq!(slices.next(), None);
}

#[test]
fn default_buffer_is_a_new_buffer() {
    let mut buffer: SegBuffer<u8> = SegBuffer::default();
    assert_eq!(buffer.pop(), None);
    buffer.push(3);
    assert_eq!(buffer.pop(), Some(3));
    assert_eq!(buffer.pop(), None);
}

#[test]
fn drained_buffer_stays_empty() {
    let mut buffer = SegBuffer::new();
    for value in 0..200 {
        buffer.push(value);
    }
    for value in 0..200 {
        assert_eq!(buffer.pop(), Some(value));
    }
    for _ in 0..10 {
        assert_eq!(buffer.pop(), None);
    }
    buffer.push(7);
    assert_eq!(buffer.pop(), Some(7));
    assert_eq!(buffer.pop(), None);
}

#[test]
fn pushes_and_pops_take_turns_across_segments() {
    let mut buffer = SegBuffer::new();
    let mut next_in = 0;
    let mut next_out = 0;
    for round in 0..50 {
        for _ in 0..round * 7 + 1 {
            buffer.push(next_in);
            next_in += 1;
        }
        for _ in 0..round * 5 + 1 {
            assert_eq!(buffer.pop(), Some(next_out));
            next_out += 1;
        }
    }
    while next_out < next_in {
        assert_eq!(buffer.pop(), Some(next_out));
        next_out += 1;
    }
    assert_eq!(buffer.pop(), None);
}

#[test]
fn from_iter_round_trip() {
    let mut buffer = SegBuffer::from_iter(0..300);
    for value in 0..300 {
        assert_eq!(buffer.pop(), Some(value));
    }
    assert_eq!(buffer.pop(), None);
}

#[test]
fn from_iter_of_nothing_is_empty() {
    let mut buffer: SegBuffer<u32> = SegBuffer::from_iter(Vec::new().into_iter());
    assert_eq!(buffer.pop(), None);
}

#[test]
fn from_iter_keeps_the_order_of_a_vector() {
    let words = vec!["c".to_string(), "a".to_string(), "b".to_string()];
    let mut buffer = SegBuffer::from_iter(words.into_iter());
    assert_eq!(buffer.pop(), Some("c".to_string()));
    assert_eq!(buffer.pop(), Some("a".to_string()));
    assert_eq!(buffer.pop(), Some("b".to_string()));
    assert_eq!(buffer.pop(), None);
}

#[test]
fn producers_taking_turns_are_all_served() {
    let producers = 5;
    let each = 300;
    let mut buffer = SegBuffer::new();
    let mut progress = vec![0; producers];
    let mut turn = 0;
    let mut left = producers * each;
    while left > 0 {
        turn = (turn * 7 + 3) % producers;
        if progress[turn] < each {
            buffer.push(progress[turn]);
            progress[turn] += 1;
            left -= 1;
        } else {
            turn += 1;
        }
    }

    let mut seen = HashMap::new();
    let mut last = vec![None; each];
    let mut count = 0;
    while let Some(value) = buffer.pop() {
        *seen.entry(value).or_insert(0) += 1;
        last[value] = Some(count);
        count += 1;
    }
    assert_eq!(count, producers * each);
    assert_eq!(seen.len(), each);
    for value in 0..each {
        assert_eq!(seen[&value], producers);
    }
}

#[test]
fn room_is_left_after_many_pushes() {
    let mut buffer = SegBuffer::new();
    assert!(buffer.has_room());
    for value in 0..1000 {
        buffer.push(value);
        assert!(buffer.has_room());
    }
    let mut raw = RawBuffer::new();
    assert!(raw.has_room());
    raw.push(1);
    assert!(raw.has_room());
}

static LEFT_OVER: AtomicUsize = AtomicUsize::new(0);

struct Counted(usize);

impl Drop for Counted {
    fn drop(&mut self) {
        LEFT_OVER.fetch_add(self.0, Ordering::Relaxed);
    }
}

#[test]
fn values_left_in_the_buffer_are_dropped_once() {
    let mut buffer = SegBuffer::new();
    for value in 0..500 {
        buffer.push(Counted(value));
    }
    assert_eq!(LEFT_OVER.load(Ordering::Relaxed), 0);

    let mut popped = 0;
    for _ in 0..200 {
        let value = buffer.pop().unwrap();
        popped += value.0;
    }
    assert_eq!(LEFT_OVER.load(Ordering::Relaxed), popped);
    assert_eq!(popped, (0..200).sum::<usize>());

    drop(buffer);
    assert_eq!(LEFT_OVER.load(Ordering::Relaxed), (0..500).sum::<usize>());
}
