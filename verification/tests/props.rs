use baffa::stack::{Buffer, Ring};
use baffa::{Buf, ContBuf, ReadBuf, ReadBufExt, WriteBuf, WriteBufExt};

#[test]
fn capacity_bounds_length() {
    let mut buffer = Buffer::new(4);
    assert!(buffer.len() <= buffer.capacity());
    assert_eq!(buffer.write_slice(&[1u8, 2, 3, 4, 5, 6]), 4);
    assert!(buffer.len() <= buffer.capacity());
    assert_eq!(buffer.read_slice(&mut vec![0u8; 3]), 3);
    assert!(buffer.len() <= buffer.capacity());

    let mut ring = Ring::new(4);
    for round in 0..5u8 {
        assert_eq!(ring.write_slice(&[round; 3]), 3);
        assert!(ring.available() <= ring.capacity());
    }
}

#[test]
fn write_read_round_trip_stack() {
    let mut buffer = Buffer::new(8);
    let src = [9u8, 8, 7, 6, 5];
    assert!(src.len() <= buffer.remaining());
    assert_eq!(buffer.write_slice(&src), 5);
    let mut dst = vec![0u8; 5];
    assert_eq!(buffer.read_slice(&mut dst), 5);
    assert_eq!(dst, vec![9u8, 8, 7, 6, 5]);
    assert_eq!(buffer.len(), 0);
}

#[test]
fn write_read_round_trip_ring() {
    let mut ring = Ring::new(8);
    let src = [1u8, 2, 3, 4, 5, 6, 7];
    assert!(src.len() <= ring.remaining());
    assert_eq!(ring.write_slice(&src), 7);
    let mut dst = vec![0u8; 7];
    assert_eq!(ring.read_slice(&mut dst), 7);
    assert_eq!(dst, vec![1u8, 2, 3, 4, 5, 6, 7]);
    assert!(ring.is_empty());
}

#[test]
fn partial_write_clamps_to_remaining() {
    let mut buffer = Buffer::new(4);
    assert_eq!(buffer.write_slice(&[1u8]), 1);
    let long = [10u8, 20, 30, 40, 50, 60];
    assert_eq!(buffer.write_slice(&long), 3);
    assert_eq!(buffer.as_slice(), &[1u8, 10, 20, 30][..]);
    assert_eq!(buffer.remaining(), 0);
    assert_eq!(buffer.write_slice(&long), 0);
}

#[test]
fn consume_shifts_remaining_bytes() {
    let mut buffer = Buffer::new(8);
    assert_eq!(buffer.write_slice(&[0xAAu8, 0xBB, 0xCC, 0xDD]), 4);
    buffer.consume(1);
    assert_eq!(buffer.len(), 3);
    assert_eq!(buffer.as_slice(), &[0xBBu8, 0xCC, 0xDD][..]);
    buffer.consume(0);
    assert_eq!(buffer.as_slice(), &[0xBBu8, 0xCC, 0xDD][..]);
    buffer.consume(3);
    assert_eq!(buffer.len(), 0);
}

#[test]
fn ring_overwrites_oldest_when_full() {
    let mut ring = Ring::new(8);
    assert_eq!(ring.write_slice(&[0xFFu8; 8]), 8);
    assert!(ring.is_full());
    assert_eq!(ring.write_slice(&[0x00u8; 4]), 4);
    assert_eq!(ring.available(), 8);
    for idx in 0..4 {
        assert_eq!(ring.get(idx), 0xFF);
    }
    for idx in 4..8 {
        assert_eq!(ring.get(idx), 0x00);
    }
}

#[test]
fn ring_write_wraps_across_physical_end() {
    let mut ring = Ring::new(8);
    assert_eq!(ring.write_slice(&[1u8, 2, 3, 4, 5, 6]), 6);
    let mut dst = vec![0u8; 4];
    assert_eq!(ring.read_slice(&mut dst), 4);
    assert_eq!(dst, vec![1u8, 2, 3, 4]);
    // The physical write offset is 6; these four bytes cross the end of
    // the storage and wrap to the front.
    assert_eq!(ring.write_slice(&[7u8, 8, 9, 10]), 4);
    assert_eq!(ring.available(), 6);
    let mut dst = vec![0u8; 6];
    assert_eq!(ring.read_slice(&mut dst), 6);
    assert_eq!(dst, vec![5u8, 6, 7, 8, 9, 10]);
}

#[test]
fn ring_write_longer_than_capacity_keeps_last_bytes() {
    let mut ring = Ring::new(4);
    ring.write(&[0u8, 1, 2, 3, 4, 5, 6, 7, 8, 9]);
    assert_eq!(ring.available(), 4);
    let mut dst = vec![0u8; 4];
    assert_eq!(ring.read_slice(&mut dst), 4);
    assert_eq!(dst, vec![6u8, 7, 8, 9]);
}

#[test]
fn truncate_is_idempotent() {
    let mut buffer = Buffer::new(8);
    assert_eq!(buffer.write_slice(&[5u8, 6, 7, 8]), 4);
    buffer.truncate(9);
    assert_eq!(buffer.as_slice(), &[5u8, 6, 7, 8][..]);
    buffer.truncate(4);
    assert_eq!(buffer.as_slice(), &[5u8, 6, 7, 8][..]);
    buffer.truncate(2);
    assert_eq!(buffer.as_slice(), &[5u8, 6][..]);
    buffer.truncate(2);
    assert_eq!(buffer.as_slice(), &[5u8, 6][..]);
    buffer.truncate(0);
    assert_eq!(buffer.len(), 0);
}

#[test]
fn value_write_without_room_reports_zero() {
    let mut buffer = Buffer::new(3);
    assert_eq!(buffer.write_value(&0xDEADBEEFu32), 0);
    assert_eq!(buffer.len(), 0);
    assert_eq!(buffer.write_value(&0x1234u16), 2);
    assert_eq!(buffer.write_value(&0x5678u16), 0);
    assert_eq!(buffer.len(), 2);
}

#[test]
fn value_round_trip_exact_bit_pattern() {
    let mut buffer = Buffer::new(8);
    assert_eq!(buffer.write_value(&u32::MAX), 4);
    let mut res: u32 = 0;
    assert_eq!(buffer.read_value(&mut res), 4);
    assert_eq!(res, u32::MAX);

    assert_eq!(buffer.write_value(&0xA1B2C3D4E5F60718u64), 8);
    let mut res: u64 = 0;
    assert_eq!(buffer.read_value(&mut res), 8);
    assert_eq!(res, 0xA1B2C3D4E5F60718);

    let mut ring = Ring::new(8);
    assert_eq!(ring.write_value(&0x8001u16), 2);
    let mut res: u16 = 0;
    assert_eq!(ring.read_value(&mut res), 2);
    assert_eq!(res, 0x8001);
}

#[test]
fn empty_buffer_reads_nothing() {
    let mut buffer = Buffer::new(4);
    let mut dst = vec![7u8; 4];
    assert_eq!(buffer.read_slice(&mut dst), 0);
    assert_eq!(dst, vec![7u8; 4]);
    let mut res: u8 = 3;
    assert_eq!(buffer.read_value(&mut res), 0);
    assert_eq!(res, 3);

    let mut ring = Ring::new(4);
    assert_eq!(ring.read_slice(&mut dst), 0);
    assert!(ring.is_empty());
    assert!(!ring.is_full());
}

#[test]
fn zero_capacity_buffer_accepts_nothing() {
    let mut buffer = Buffer::new(0);
    assert_eq!(buffer.capacity(), 0);
    assert_eq!(buffer.write_slice(&[1u8, 2]), 0);
    assert_eq!(buffer.write_value(&1u8), 0);
    assert_eq!(buffer.len(), 0);
}

#[test]
fn single_byte_ring_keeps_only_the_last_byte() {
    let mut ring = Ring::new(1);
    assert_eq!(ring.capacity(), 1);
    assert_eq!(ring.remaining(), 1);
    assert_eq!(ring.write_slice(&[1u8]), 1);
    assert!(ring.is_full());
    ring.write(&[2u8, 3]);
    assert_eq!(ring.available(), 1);
    assert_eq!(ring.get(0), 3);
    ring.consume(1);
    assert!(ring.is_empty());
}

#[test]
fn get_and_set_single_bytes() {
    let mut buffer = Buffer::new(4);
    assert_eq!(buffer.write_slice(&[1u8, 2, 3]), 3);
    assert_eq!(buffer.get(1), 2);
    buffer.set(1, 42);
    assert_eq!(buffer.as_slice(), &[1u8, 42, 3][..]);

    let mut ring = Ring::new(4);
    assert_eq!(ring.write_slice(&[9u8, 9, 9, 9]), 4);
    ring.consume(2);
    assert_eq!(ring.write_slice(&[5u8, 6]), 2);
    // Logical index 2 sits physically at the front of the storage.
    assert_eq!(ring.get(2), 5);
    ring.set(2, 77);
    assert_eq!(ring.get(2), 77);
    assert_eq!(ring.get(3), 6);
}

#[test]
fn write_slice_then_set_len_exposes_filled_bytes() {
    let mut buffer = Buffer::new(4);
    {
        let tail = buffer.as_write_slice();
        assert_eq!(tail.len(), 4);
        tail[0] = 11;
        tail[1] = 22;
    }
    buffer.set_len(2);
    assert_eq!(buffer.as_slice(), &[11u8, 22][..]);
}

#[test]
fn as_read_slice_mut_edits_in_place() {
    let mut buffer = Buffer::new(4);
    assert_eq!(buffer.write_slice(&[1u8, 2, 3]), 3);
    {
        let s = buffer.as_read_slice_mut();
        s[2] = 30;
    }
    assert_eq!(buffer.as_read_slice(), &[1u8, 2, 30][..]);
}

#[test]
fn buffer_parts_round_trip() {
    let mut buffer = Buffer::new(4);
    assert_eq!(buffer.write_slice(&[8u8, 9]), 2);
    let (inner, cursor) = buffer.into_parts();
    assert_eq!(cursor, 2);
    assert_eq!(inner.len(), 4);
    let rebuilt = Buffer::from_parts(inner, cursor);
    assert_eq!(rebuilt.as_slice(), &[8u8, 9][..]);
}

#[test]
fn ring_parts_round_trip() {
    let mut buffer = Buffer::new(4);
    assert_eq!(buffer.write_slice(&[3u8, 4, 5]), 3);
    let mut ring = Ring::from_parts(buffer, 1);
    assert_eq!(ring.available(), 2);
    assert_eq!(ring.get(0), 4);
    assert_eq!(ring.get(1), 5);
    let (buffer, read) = ring.into_parts();
    assert_eq!(read, 1);
    assert_eq!(buffer.len(), 3);
}

#[test]
fn into_circular_keeps_written_bytes() {
    let mut buffer = Buffer::new(8);
    assert_eq!(buffer.write_slice(&[4u8, 5, 6]), 3);
    let mut ring = buffer.into_circular();
    assert_eq!(ring.available(), 3);
    assert_eq!(ring.remaining(), 8);
    let mut dst = vec![0u8; 3];
    assert_eq!(ring.read_slice(&mut dst), 3);
    assert_eq!(dst, vec![4u8, 5, 6]);
}
