use ripstruct::seg_buffer::raw::RawBuffer;
use ripstruct::SegBuffer;

fn slice_lengths(buffer: &mut SegBuffer<usize>) -> Vec<usize> {
    let mut lengths = Vec::new();
    let mut slices = buffer.iter_slices();
    while let Some(slice) = slices.next() {
        lengths.push(slice.len());
    }
    lengths
}

fn filled(count: usize) -> SegBuffer<usize> {
    let mut buffer = SegBuffer::new();
    for value in 0..count {
        buffer.push(value);
    }
    buffer
}

#[test]
fn first_segment_holds_64_values() {
    assert_eq!(slice_lengths(&mut filled(0)), vec![0]);
    assert_eq!(slice_lengths(&mut filled(1)), vec![1]);
    assert_eq!(slice_lengths(&mut filled(63)), vec![63]);
    assert_eq!(slice_lengths(&mut filled(64)), vec![64]);
}

#[test]
fn segments_double_in_capacity() {
    assert_eq!(slice_lengths(&mut filled(65)), vec![64, 1]);
    assert_eq!(slice_lengths(&mut filled(191)), vec![64, 127]);
    assert_eq!(slice_lengths(&mut filled(192)), vec![64, 128]);
    assert_eq!(slice_lengths(&mut filled(193)), vec![64, 128, 1]);
    assert_eq!(slice_lengths(&mut filled(448)), vec![64, 128, 256]);
    assert_eq!(slice_lengths(&mut filled(449)), vec![64, 128, 256, 1]);
    assert_eq!(
        slice_lengths(&mut filled(5000)),
        vec![64, 128, 256, 512, 1024, 2048, 968]
    );
}

#[test]
fn slices_hold_the_values_in_order() {
    let mut buffer = filled(200);
    let mut slices = buffer.iter_slices();
    let first: Vec<usize> = (0..64).collect();
    let second: Vec<usize> = (64..192).collect();
    let third: Vec<usize> = (192..200).collect();
    assert_eq!(slices.len(), 3);
    assert_eq!(slices.next(), Some(&first[..]));
    assert_eq!(slices.len(), 2);
    assert_eq!(slices.next(), Some(&second[..]));
    assert_eq!(slices.next(), Some(&third[..]));
    assert_eq!(slices.len(), 0);
    assert_eq!(slices.next(), None);
    assert_eq!(slices.next(), None);
}

#[test]
fn popping_shortens_the_first_slice() {
    let mut buffer = filled(70);
    for value in 0..10 {
        assert_eq!(buffer.pop(), Some(value));
    }
    assert_eq!(slice_lengths(&mut buffer), vec![54, 6]);
    for value in 10..64 {
        assert_eq!(buffer.pop(), Some(value));
    }
    assert_eq!(slice_lengths(&mut buffer), vec![0, 6]);
    assert_eq!(buffer.pop(), Some(64));
    assert_eq!(slice_lengths(&mut buffer), vec![5]);
    for value in 65..70 {
        assert_eq!(buffer.pop(), Some(value));
    }
    assert_eq!(slice_lengths(&mut buffer), vec![0]);
    assert_eq!(buffer.pop(), None);
    assert_eq!(slice_lengths(&mut buffer), vec![0]);
}

#[test]
fn a_segment_is_not_refilled_after_pops() {
    let mut buffer = filled(60);
    for value in 0..30 {
        assert_eq!(buffer.pop(), Some(value));
    }
    for value in 60..70 {
        buffer.push(value);
    }
    assert_eq!(slice_lengths(&mut buffer), vec![34, 6]);
    let mut slices = buffer.iter_slices();
    let first: Vec<usize> = (30..64).collect();
    let second: Vec<usize> = (64..70).collect();
    assert_eq!(slices.next(), Some(&first[..]));
    assert_eq!(slices.next(), Some(&second[..]));
    assert_eq!(slices.next(), None);
}

#[test]
fn a_drained_buffer_grows_where_it_left_off() {
    let mut buffer = filled(64);
    for value in 0..64 {
        assert_eq!(buffer.pop(), Some(value));
    }
    assert_eq!(slice_lengths(&mut buffer), vec![0]);
    buffer.push(64);
    assert_eq!(slice_lengths(&mut buffer), vec![0, 1]);
    for value in 65..192 {
        buffer.push(value);
    }
    assert_eq!(slice_lengths(&mut buffer), vec![0, 128]);
    buffer.push(192);
    assert_eq!(slice_lengths(&mut buffer), vec![0, 128, 1]);
    assert_eq!(buffer.pop(), Some(64));
    assert_eq!(slice_lengths(&mut buffer), vec![127, 1]);
}

#[test]
fn raw_buffer_hands_out_its_slices() {
    let mut buffer = RawBuffer::new();
    for value in 0..100 {
        buffer.push(value);
    }
    let mut slices = buffer.iter();
    let first = slices.next().unwrap();
    assert_eq!(first.len(), 64);
    assert_eq!(first[0], 0);
    assert_eq!(first[63], 63);
    first[0] = 1000;
    let second = slices.next().unwrap();
    assert_eq!(second.len(), 36);
    assert_eq!(second[35], 99);
    assert!(slices.next().is_none());
    assert_eq!(buffer.pop(), Some(1000));
    assert_eq!(buffer.pop(), Some(1));
}
