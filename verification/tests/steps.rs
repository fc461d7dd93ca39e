use ripstruct::seg_buffer::raw::{Push, RawBuffer};
use std::collections::HashMap;

fn filled(count: usize) -> RawBuffer<usize> {
    let mut buffer = RawBuffer::new();
    for value in 0..count {
        buffer.push(value);
    }
    buffer
}

fn drain(buffer: &mut RawBuffer<usize>) -> Vec<usize> {
    let mut values = Vec::new();
    while let Some(value) = buffer.pop() {
        values.push(value);
    }
    values
}

fn steps_to_finish(buffer: &mut RawBuffer<usize>, push: &mut Push<usize>) -> usize {
    let mut steps = 0;
    while !push.is_done() {
        buffer.step(push);
        steps += 1;
    }
    steps
}

#[test]
fn a_push_into_a_free_slot_takes_two_steps() {
    let mut buffer = filled(0);
    let mut push = buffer.begin(7);
    assert!(!push.is_done());
    assert_eq!(steps_to_finish(&mut buffer, &mut push), 2);
    assert!(buffer.is_settled());
    assert_eq!(drain(&mut buffer), vec![7]);
}

#[test]
fn a_push_that_grows_the_chain_takes_ten_steps() {
    let mut buffer = filled(64);
    let mut push = buffer.begin(64);
    assert_eq!(steps_to_finish(&mut buffer, &mut push), 10);
    assert!(buffer.is_settled());
    let mut push = buffer.begin(65);
    assert_eq!(steps_to_finish(&mut buffer, &mut push), 2);
    assert_eq!(drain(&mut buffer), (0..66).collect::<Vec<usize>>());
}

#[test]
fn a_finished_push_has_no_step_left() {
    let mut buffer = filled(3);
    let mut push = buffer.begin(3);
    steps_to_finish(&mut buffer, &mut push);
    buffer.step(&mut push);
    buffer.step(&mut push);
    assert!(push.is_done());
    assert_eq!(drain(&mut buffer), vec![0, 1, 2, 3]);
}

#[test]
fn the_value_goes_in_where_the_slot_is_claimed() {
    let mut buffer = filled(0);
    let mut first = buffer.begin(1);
    let mut second = buffer.begin(2);
    // The first push reads the head, then the second push takes all its steps.
    buffer.step(&mut first);
    steps_to_finish(&mut buffer, &mut second);
    steps_to_finish(&mut buffer, &mut first);
    assert_eq!(drain(&mut buffer), vec![2, 1]);
}

#[test]
fn two_pushes_that_both_allocate_link_one_segment() {
    let mut buffer = filled(64);
    let mut first = buffer.begin(100);
    let mut second = buffer.begin(200);
    // Both read the head, find the segment full and its link empty, and
    // allocate a successor.
    for _ in 0..3 {
        buffer.step(&mut first);
        buffer.step(&mut second);
    }
    // The first one links its segment. The second one comes too late.
    buffer.step(&mut first);
    assert!(!buffer.is_settled());
    buffer.step(&mut second);
    assert!(!buffer.is_settled());
    steps_to_finish(&mut buffer, &mut second);
    assert!(buffer.is_settled());
    steps_to_finish(&mut buffer, &mut first);
    assert!(buffer.is_settled());

    let mut slices = buffer.iter();
    assert_eq!(slices.next().unwrap().len(), 64);
    assert_eq!(slices.next().unwrap(), &mut [200, 100][..]);
    assert!(slices.next().is_none());

    let mut expected: Vec<usize> = (0..64).collect();
    expected.push(200);
    expected.push(100);
    assert_eq!(drain(&mut buffer), expected);
}

#[test]
fn a_push_that_read_an_old_head_catches_up() {
    let mut buffer = filled(63);
    let mut late = buffer.begin(1000);
    // The late push reads the head, and then others fill the segment and
    // grow the chain.
    buffer.step(&mut late);
    buffer.push(63);
    buffer.push(64);
    buffer.push(65);
    // It finds the segment full, the head gone on, and follows.
    let steps = steps_to_finish(&mut buffer, &mut late);
    assert_eq!(steps, 5);
    assert!(buffer.is_settled());

    let mut expected: Vec<usize> = (0..66).collect();
    expected.push(1000);
    assert_eq!(drain(&mut buffer), expected);
}

#[test]
fn a_push_that_would_move_the_head_finds_it_moved() {
    let mut buffer = filled(64);
    let mut first = buffer.begin(100);
    let mut second = buffer.begin(200);
    // The first push links a segment.
    for _ in 0..4 {
        buffer.step(&mut first);
    }
    // Both find the successor and set out to move the head.
    for _ in 0..3 {
        buffer.step(&mut first);
        buffer.step(&mut second);
    }
    buffer.step(&mut second);
    buffer.step(&mut first);
    steps_to_finish(&mut buffer, &mut first);
    steps_to_finish(&mut buffer, &mut second);
    assert!(buffer.is_settled());

    let mut expected: Vec<usize> = (0..64).collect();
    expected.push(100);
    expected.push(200);
    assert_eq!(drain(&mut buffer), expected);
}

#[test]
fn producers_stepping_in_turns_lose_and_repeat_nothing() {
    let producers = 7;
    let each = 400;
    let mut buffer = RawBuffer::new();
    let mut next = vec![0; producers];
    let mut under_way: Vec<Option<Push<(usize, usize)>>> = Vec::new();
    for _ in 0..producers {
        under_way.push(None);
    }
    let mut finished = 0;
    let mut state: u64 = 12345;
    while finished < producers {
        state = state
            .wrapping_mul(6364136223846793005)
            .wrapping_add(1442695040888963407);
        let turn = (state >> 33) as usize % producers;
        match under_way[turn].take() {
            None => {
                if next[turn] < each {
                    under_way[turn] = Some(buffer.begin((turn, next[turn])));
                    next[turn] += 1;
                }
            }
            Some(mut push) => {
                buffer.step(&mut push);
                if push.is_done() {
                    if next[turn] == each {
                        finished += 1;
                    }
                } else {
                    under_way[turn] = Some(push);
                }
            }
        }
    }
    assert!(buffer.is_settled());

    let mut seen = HashMap::new();
    let mut last = vec![None; producers];
    let mut count = 0;
    while let Some((producer, value)) = buffer.pop() {
        *seen.entry(value).or_insert(0) += 1;
        // The values of one producer come out in the order it pushed them.
        assert_eq!(last[producer].map_or(0, |last: usize| last + 1), value);
        last[producer] = Some(value);
        count += 1;
    }
    assert_eq!(count, producers * each);
    assert_eq!(seen.len(), each);
    for value in 0..each {
        assert_eq!(seen[&value], producers);
    }
}
