use ripstruct::seg_buffer::raw::RawBuffer;

#[test]
fn basic() {
    let mut buffer = RawBuffer::new();

    for i in 0..1024 {
        buffer.push(i);
    }

    for i in 0..65536 {
        buffer.push(i);
    }

    for i in 0..1024 {
        assert_eq!(buffer.pop(), Some(i));
    }

    for i in 0..65536 {
        assert_eq!(buffer.pop(), Some(i));
    }

    assert_eq!(buffer.pop(), None);
}
