use baffa::iter::Iter;
use baffa::stack::{Buffer, Ring};
use baffa::{ReadBuf, WriteBuf};

#[test]
fn iter_walks_buffer_front_to_back() {
    let mut buffer = Buffer::new(4);
    assert_eq!(buffer.write_slice(&[10u8, 20, 30]), 3);
    let mut it = buffer.iter();
    assert_eq!(it.len(), 3);
    assert_eq!(it.size_hint(), (3, Some(3)));
    assert_eq!(it.next(), Some(10));
    assert_eq!(it.next(), Some(20));
    assert_eq!(it.next(), Some(30));
    assert_eq!(it.next(), None);
    assert_eq!(it.len(), 0);
}

#[test]
fn iter_walks_back_to_front() {
    let mut buffer = Buffer::new(4);
    assert_eq!(buffer.write_slice(&[1u8, 2, 3]), 3);
    let mut it = buffer.iter();
    assert_eq!(it.next_back(), Some(3));
    assert_eq!(it.next(), Some(1));
    assert_eq!(it.next_back(), Some(2));
    assert_eq!(it.next_back(), None);
}

#[test]
fn iter_respects_construction_range() {
    let mut buffer = Buffer::new(8);
    assert_eq!(buffer.write_slice(&[0u8, 1, 2, 3, 4, 5]), 6);
    assert_eq!(Iter::new(&buffer, 2, 5).count(), 3);
    let mut it = Iter::new(&buffer, 2, 5);
    assert_eq!(it.next(), Some(2));
    assert_eq!(it.next(), Some(3));
    assert_eq!(it.next(), Some(4));
    assert_eq!(it.next(), None);
}

#[test]
fn iter_last_and_count() {
    let mut buffer = Buffer::new(4);
    assert_eq!(buffer.write_slice(&[6u8, 7]), 2);
    assert_eq!(buffer.iter().last(), Some(7));
    assert_eq!(buffer.iter().count(), 2);
    let empty = Buffer::new(4);
    assert_eq!(empty.iter().last(), None);
    assert_eq!(empty.iter().count(), 0);
}

#[test]
fn iter_sees_ring_in_logical_order() {
    let mut ring = Ring::new(4);
    assert_eq!(ring.write_slice(&[1u8, 2, 3, 4]), 4);
    ring.consume(3);
    assert_eq!(ring.write_slice(&[5u8, 6]), 2);
    let mut it = ring.iter();
    assert_eq!(it.next(), Some(4));
    assert_eq!(it.next(), Some(5));
    assert_eq!(it.next(), Some(6));
    assert_eq!(it.next(), None);
}
