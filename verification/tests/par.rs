use rayon::iter::{IntoParallelIterator, ParallelIterator};
use ripstruct::SegBuffer;
use std::collections::HashSet;
use std::sync::Mutex;

#[test]
fn from_par_iter() {
    let buffer: Mutex<SegBuffer<i32>> = Mutex::new(SegBuffer::new());
    (0..1_000_000)
        .into_par_iter()
        .for_each(|x| buffer.lock().unwrap().push(x));
    let mut buffer = buffer.into_inner().unwrap();

    let mut results = HashSet::new();
    for _ in 0..1_000_000 {
        results.insert(buffer.pop().unwrap());
    }

    assert_eq!(buffer.pop(), None);

    for x in 0..1_000_000 {
        assert!(results.contains(&x));
    }

    assert_eq!(results.len(), 1_000_000);
}

fn filled(count: usize) -> SegBuffer<usize> {
    let mut buffer = SegBuffer::new();
    for value in 0..count {
        buffer.push(value);
    }
    buffer
}

#[test]
fn par_iter() {
    let mut buffer = filled(100_000);

    let it = buffer.par_iter_mut();
    it.fold_with((), |(), x| *x *= 2);

    let mut values = buffer.iter();
    let mut i = 0;
    while let Some(x) = values.next() {
        assert_eq!(i * 2, *x);
        i += 1;
    }
    assert_eq!(i, 100_000);
}

#[test]
fn split_halves_the_slices() {
    let mut buffer = filled(2000);
    // Slices of 64, 128, 256, 512, 1024 and 16 values.
    let whole = buffer.par_iter_slices();
    let (left, right) = whole.split();
    let right = right.unwrap();
    let lengths = |lengths: Vec<usize>, slice: &[usize]| {
        let mut lengths = lengths;
        lengths.push(slice.len());
        lengths
    };
    let (left_left, left_right) = left.split();
    assert_eq!(left_left.fold_with(Vec::new(), lengths), vec![64]);
    assert_eq!(
        left_right.unwrap().fold_with(Vec::new(), lengths),
        vec![128, 256]
    );
    assert_eq!(right.fold_with(Vec::new(), lengths), vec![512, 1024, 16]);
}

#[test]
fn a_single_slice_is_not_split() {
    let mut buffer = filled(10);
    let (left, right) = buffer.par_iter_slices().split();
    assert!(right.is_none());
    let (left, right) = left.split();
    assert!(right.is_none());
    assert_eq!(left.fold_with(0, |sum, slice| sum + slice.len()), 10);

    let (left, right) = buffer.par_iter_slices_mut().split();
    assert!(right.is_none());
    assert_eq!(left.fold_with(0, |sum, slice| sum + slice.len()), 10);

    let (left, right) = buffer.par_iter().split();
    assert!(right.is_none());
    assert_eq!(left.fold_with(0, |sum, value| sum + value), 45);

    let (left, right) = buffer.par_iter_mut().split();
    assert!(right.is_none());
    assert_eq!(left.fold_with(0, |sum, value| sum + *value), 45);
}

#[test]
fn two_slices_split_into_one_and_one() {
    let mut buffer = filled(65);
    let (left, right) = buffer.par_iter_slices().split();
    assert_eq!(left.fold_with(0, |sum, slice| sum + slice.len()), 64);
    assert_eq!(right.unwrap().fold_with(0, |sum, slice| sum + slice.len()), 1);
}

#[test]
fn fold_visits_every_value_in_order() {
    let mut buffer = filled(500);
    let seen = buffer.par_iter().fold_with(Vec::new(), |seen, value| {
        let mut seen = seen;
        seen.push(*value);
        seen
    });
    assert_eq!(seen, (0..500).collect::<Vec<usize>>());

    let seen = buffer
        .par_iter_slices()
        .fold_with(Vec::new(), |seen, slice| {
            let mut seen = seen;
            seen.extend_from_slice(slice);
            seen
        });
    assert_eq!(seen, (0..500).collect::<Vec<usize>>());
}

#[test]
fn halves_can_be_folded_by_different_workers() {
    let mut buffer = filled(10_000);
    let (left, right) = buffer.par_iter_mut().split();
    let right = right.unwrap();
    let (low, high) = rayon::join(
        || left.fold_with(0, |sum, value| {
            *value += 1;
            sum + *value
        }),
        || right.fold_with(0, |sum, value| {
            *value += 1;
            sum + *value
        }),
    );
    assert_eq!(low + high, (1..=10_000).sum::<usize>());
    for value in 1..=10_000 {
        assert_eq!(buffer.pop(), Some(value));
    }
}

#[test]
fn mutable_slices_can_be_folded_by_different_workers() {
    let mut buffer = filled(1000);
    let (left, right) = buffer.par_iter_slices_mut().split();
    let right = right.unwrap();
    let (low, high) = rayon::join(
        || left.fold_with(0, |count, slice| {
            slice.iter_mut().for_each(|value| *value *= 10);
            count + slice.len()
        }),
        || right.fold_with(0, |count, slice| {
            slice.iter_mut().for_each(|value| *value *= 10);
            count + slice.len()
        }),
    );
    assert_eq!(low, 64 + 128);
    assert_eq!(high, 256 + 512 + 40);
    for value in 0..1000 {
        assert_eq!(buffer.pop(), Some(value * 10));
    }
}

#[test]
fn producers_turn_into_iterators() {
    let mut buffer = filled(100);
    let mut slices = buffer.par_iter_slices().into_iter();
    assert_eq!(slices.next().unwrap().len(), 64);
    let mut values = buffer.par_iter().into_iter();
    assert_eq!(values.next(), Some(&0));
    let mut values = buffer.par_iter_mut().into_iter();
    *values.next().unwrap() = 5;
    drop(values);
    let mut slices = buffer.par_iter_slices_mut().into_iter();
    assert_eq!(slices.next().unwrap()[0], 5);
}
