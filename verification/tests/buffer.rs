use o_dns::ByteBuf;
use o_dns::DnsError;

#[test]
fn numbers_are_big_endian() {
    let mut buf = ByteBuf::new_empty(Some(4));
    buf.write_u8(0x12);
    buf.write_u16(0x3456).unwrap();
    assert_eq!(buf.as_slice(), &[0x12, 0x34, 0x56]);
    assert_eq!(buf.len(), 3);
    assert_eq!(buf.read_u8(), Ok(0x12));
    assert_eq!(buf.read_u16(), Ok(0x3456));
    assert_eq!(buf.pos(), 3);
    assert_eq!(buf.read_u8(), Err(DnsError::MalformedPacket));
    assert_eq!(buf.read_u16(), Err(DnsError::MalformedPacket));
    assert_eq!(buf.pos(), 3);
}

#[test]
fn reads_take_bytes_at_the_cursor() {
    let mut buf = ByteBuf::new(&[1, 2, 3, 4, 5]);
    assert_eq!(buf.read_bytes(2), Ok(vec![1, 2]));
    assert_eq!(buf.read_bytes(4), Err(DnsError::MalformedPacket));
    assert_eq!(buf.pos(), 2);
    assert_eq!(buf.read_bytes(3), Ok(vec![3, 4, 5]));
    assert_eq!(buf.read_bytes(0), Ok(vec![]));
    buf.reset_pos();
    assert_eq!(buf.pos(), 0);
    assert_eq!(buf.peek_u16(3), Ok(0x0405));
    assert_eq!(buf.peek_bytes(1, 2).unwrap(), &[2, 3]);
    assert_eq!(buf.peek_u16(4), Err(DnsError::MalformedPacket));
    assert_eq!(buf.pos(), 0);
    assert_eq!(buf.get_range(3, 2).unwrap(), &[4, 5]);
    assert!(buf.get_range(3, 3).is_none());
    assert_eq!(buf.ensure_length(5, None), Ok(()));
    assert_eq!(buf.ensure_length(2, Some(4)), Err(DnsError::MalformedPacket));
}

#[test]
fn peeking_needs_the_bytes_at_the_cursor_too() {
    let mut buf = ByteBuf::new(&[1, 2, 3, 4]);
    buf.set_pos(3);
    assert_eq!(buf.peek_u16(0), Err(DnsError::MalformedPacket));
}

#[test]
fn patches_overwrite_and_grow() {
    let mut buf = ByteBuf::new_from_vec(vec![1, 2, 3, 4]);
    assert_eq!(buf.set_u8(1, 9), Ok(()));
    assert_eq!(buf.set_u8(4, 9), Err(DnsError::OutOfBounds));
    assert_eq!(buf.set_u16(2, 0xabcd), Ok(()));
    assert_eq!(buf.as_slice(), &[1, 9, 0xab, 0xcd]);
    // A patch that reaches past the end grows the buffer with zeros
    assert_eq!(buf.set_u16(5, 0x0102), Ok(()));
    assert_eq!(buf.as_slice(), &[1, 9, 0xab, 0xcd, 0, 1, 2]);
    assert_eq!(buf.write_bytes(&[7, 8], Some(6)), Ok(()));
    assert_eq!(buf.as_slice(), &[1, 9, 0xab, 0xcd, 0, 1, 7, 8]);
    assert_eq!(buf.write_bytes(&[5], None), Ok(()));
    assert_eq!(buf.len(), 9);
    assert_eq!(buf.write_bytes(&[5], Some(usize::MAX)), Err(DnsError::OutOfBounds));
}

#[test]
fn resize_clear_and_truncate() {
    let mut buf = ByteBuf::new_from_vec(vec![1, 2, 3]);
    buf.resize(5);
    assert_eq!(buf.as_slice(), &[1, 2, 3, 0, 0]);
    buf.resize(2);
    assert_eq!(buf.as_slice(), &[1, 2]);
    buf.get_inner_mut().push(4);
    assert_eq!(buf.as_slice(), &[1, 2, 4]);
    buf.truncate(1);
    assert_eq!(buf.as_slice(), &[1]);
    buf.truncate(10);
    assert_eq!(buf.as_slice(), &[1]);
    buf.set_pos(1);
    buf.clear();
    assert_eq!(buf.len(), 0);
    assert_eq!(buf.pos(), 1);
    assert_eq!(buf.read_u8(), Err(DnsError::MalformedPacket));
    assert_eq!(buf.into_inner(), Vec::<u8>::new());
}
