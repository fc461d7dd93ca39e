use ripstruct::seg_buffer::{Iter, IterMut, SliceIterMut};
use ripstruct::SegBuffer;

fn filled(count: usize) -> SegBuffer<usize> {
    let mut buffer = SegBuffer::new();
    for value in 0..count {
        buffer.push(value);
    }
    buffer
}

fn values(buffer: &mut SegBuffer<usize>) -> Vec<usize> {
    let mut values = Vec::new();
    let mut it = buffer.iter();
    while let Some(value) = it.next() {
        values.push(*value);
    }
    values
}

#[test]
fn iterating_twice_yields_the_same_values() {
    let mut buffer = filled(300);
    let first = values(&mut buffer);
    let second = values(&mut buffer);
    assert_eq!(first, (0..300).collect::<Vec<usize>>());
    assert_eq!(first, second);
}

#[test]
fn iterating_leaves_the_buffer_as_it_is() {
    let mut buffer = filled(100);
    assert_eq!(values(&mut buffer).len(), 100);
    for value in 0..100 {
        assert_eq!(buffer.pop(), Some(value));
    }
    assert_eq!(buffer.pop(), None);
}

#[test]
fn iterating_starts_at_the_oldest_value_left() {
    let mut buffer = filled(100);
    for _ in 0..70 {
        buffer.pop();
    }
    assert_eq!(values(&mut buffer), (70..100).collect::<Vec<usize>>());
}

#[test]
fn iterating_an_empty_buffer_yields_nothing() {
    let mut buffer = filled(0);
    let mut it = buffer.iter();
    assert_eq!(it.next(), None);
    assert_eq!(it.next(), None);
    let mut it = buffer.iter_mut();
    assert!(it.next().is_none());
    assert!(it.next().is_none());
}

#[test]
fn writes_through_iter_mut_are_seen_afterwards() {
    let mut buffer = filled(300);
    let mut it = buffer.iter_mut();
    while let Some(value) = it.next() {
        *value = *value * 3 + 1;
    }
    let expected: Vec<usize> = (0..300).map(|x| x * 3 + 1).collect();
    assert_eq!(values(&mut buffer), expected);
    for value in expected {
        assert_eq!(buffer.pop(), Some(value));
    }
}

#[test]
fn values_not_reached_by_iter_mut_stay() {
    let mut buffer = filled(100);
    let mut it = buffer.iter_mut();
    for _ in 0..70 {
        *it.next().unwrap() = 0;
    }
    drop(it);
    let mut expected = vec![0; 70];
    expected.extend(70..100);
    assert_eq!(values(&mut buffer), expected);
}

#[test]
fn writes_through_mutable_slices_are_seen_afterwards() {
    let mut buffer = filled(200);
    let mut slices = buffer.iter_slices_mut();
    let first = slices.next().unwrap();
    assert_eq!(first.len(), 64);
    assert_eq!(first[5], 5);
    first.reverse();
    let second = slices.next().unwrap();
    assert_eq!(second.len(), 128);
    second[0] = 7;
    let third = slices.next().unwrap();
    assert_eq!(third, &mut [192, 193, 194, 195, 196, 197, 198, 199][..]);
    assert!(slices.next().is_none());

    let mut expected: Vec<usize> = (0..64).rev().collect();
    expected.push(7);
    expected.extend(65..200);
    assert_eq!(values(&mut buffer), expected);
}

#[test]
fn mutable_slices_start_at_the_oldest_value_left() {
    let mut buffer = filled(60);
    for _ in 0..20 {
        buffer.pop();
    }
    for value in 60..64 {
        buffer.push(value);
    }
    let mut slices = buffer.iter_slices_mut();
    let only = slices.next().unwrap();
    assert_eq!(only.to_vec(), (20..64).collect::<Vec<usize>>());
    assert!(slices.next().is_none());
}

#[test]
fn iterators_can_be_built_from_slices() {
    let mut buffer = filled(70);
    let mut it = Iter::over(buffer.iter_slices());
    assert_eq!(it.next(), Some(&0));
    let mut it = IterMut::over(buffer.iter_slices_mut());
    *it.next().unwrap() = 9;
    drop(it);
    assert_eq!(buffer.pop(), Some(9));
    let mut slices = buffer.iter_slices();
    let rest = slices.split_off(1);
    assert_eq!(slices.len(), 1);
    assert_eq!(rest.len(), 1);
    let mut raw = ripstruct::seg_buffer::raw::RawBuffer::new();
    raw.push(4);
    let mut it = SliceIterMut::over(raw.iter());
    assert_eq!(it.next().unwrap(), &mut [4][..]);
}
