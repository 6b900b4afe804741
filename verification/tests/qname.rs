use o_dns::ByteBuf;
use o_dns::DnsError;
use o_dns::LabelCache;

#[test]
fn read_empty_qname() {
    let qname = &[0x0];
    let mut buf = ByteBuf::new(qname);
    let result = buf.read_qname().expect("shouldn't have failed");
    assert_eq!(result, "");
}

#[test]
fn read_valid_qname() {
    let qname = &[0x6, 0x67, 0x6f, 0x6f, 0x67, 0x6c, 0x65, 0x3, 0x63, 0x6f, 0x6d, 0x0];
    let mut buf = ByteBuf::new(qname);
    let result = buf.read_qname().expect("shouldn't have failed");
    assert_eq!(result, "google.com");
}

#[test]
#[should_panic]
fn read_invalid_qname() {
    let qname = &[0x1, 0x67, 0x6f];
    let mut buf = ByteBuf::new(qname);
    buf.read_qname().unwrap();
}

#[test]
#[should_panic]
fn read_qname_without_zero_byte() {
    let qname = &[0x2, 0x67, 0x6f];
    let mut buf = ByteBuf::new(qname);
    buf.read_qname().unwrap();
}

#[test]
fn write_empty_qname() {
    let mut buf = ByteBuf::new_empty(None);
    buf.write_qname("", &mut LabelCache::disabled())
        .expect("shouldn't have failed");
    assert_eq!(buf.as_slice(), &[0x0])
}

#[test]
fn write_qname() {
    let qname = "google.com";
    let mut buf = ByteBuf::new_empty(None);
    buf.write_qname(qname, &mut LabelCache::disabled())
        .expect("shouldn't have failed");
    assert_eq!(
        buf.as_slice(),
        &[0x6, 0x67, 0x6f, 0x6f, 0x67, 0x6c, 0x65, 0x3, 0x63, 0x6f, 0x6d, 0x0,]
    )
}

#[test]
fn write_qname_with_cache() {
    let qname = "api.google.com";
    let domain = qname.split_once('.').unwrap().1;
    let mut buf = ByteBuf::new_empty(None);
    let mut cache = LabelCache::new();

    // Should write 'google.com' and add it to cache, and 'com' with it
    buf.write_qname(domain, &mut cache)
        .expect("shouldn't have failed");
    assert_eq!(cache.len(), 2);
    assert!(cache.get(domain).is_some_and(|pos| pos == 0));
    assert!(cache.get("com").is_some_and(|pos| pos == 7));

    // Should write 'api' and point to the rest of the qname using a jump ptr
    buf.write_qname(qname, &mut cache).expect("shouldn't have failed");
    // Should have cached a new label
    assert_eq!(cache.len(), 3);
    assert!(cache.get(qname).is_some_and(|pos| pos == 12));

    assert_eq!(
        buf.as_slice(),
        &[0x6, 0x67, 0x6f, 0x6f, 0x67, 0x6c, 0x65, 0x3, 0x63, 0x6f, 0x6d, 0x0, 0x3, 0x61, 0x70, 0x69, 0xc0, 0x0]
    )
}

#[test]
#[should_panic]
fn write_qname_with_long_label() {
    let qname = "very_very_very_very_very_very_long_label_that_exceeds_max_length.com";
    let mut buf = ByteBuf::new_empty(None);
    buf.write_qname(qname, &mut LabelCache::disabled()).unwrap();
}

#[test]
fn qname_roundtrip() {
    let qname = "google.com";
    let mut buf = ByteBuf::new_empty(None);
    buf.write_qname(qname, &mut LabelCache::disabled())
        .expect("shouldn't have failed");
    let roundtripped = buf.read_qname().expect("shouldn't have failed");
    assert_eq!(qname, roundtripped);
}

#[test]
fn long_label_is_refused_and_leaves_the_buffer() {
    let qname = "ok.very_very_very_very_very_very_long_label_that_exceeds_max_length.com";
    let mut buf = ByteBuf::new_from_vec(vec![7, 7]);
    let mut cache = LabelCache::new();
    assert_eq!(buf.write_qname(qname, &mut cache), Err(DnsError::LabelTooLong));
    assert_eq!(buf.as_slice(), &[7, 7]);
    assert_eq!(cache.len(), 0);
}

#[test]
fn label_of_63_bytes_is_written() {
    let label = "a".repeat(63);
    let mut buf = ByteBuf::new_empty(None);
    let written = buf
        .write_qname(&label, &mut LabelCache::disabled())
        .expect("shouldn't have failed");
    assert_eq!(written, 65);
    assert_eq!(buf.as_slice()[0], 63);
    assert_eq!(buf.read_qname().unwrap(), label);
}

#[test]
fn empty_labels_are_passed_over() {
    let mut buf = ByteBuf::new_empty(None);
    buf.write_qname(".a..b.", &mut LabelCache::disabled()).unwrap();
    assert_eq!(buf.as_slice(), &[1, b'a', 1, b'b', 0]);
}

#[test]
fn repeated_name_is_a_pointer_of_two_bytes() {
    let mut buf = ByteBuf::new_from_vec(vec![0; 12]);
    let mut cache = LabelCache::new();
    assert_eq!(buf.write_qname("example.org", &mut cache), Ok(13));
    assert_eq!(buf.write_qname("example.org", &mut cache), Ok(2));
    assert_eq!(&buf.as_slice()[25..], &[0xc0, 12]);
    // A pointer records nothing
    assert_eq!(cache.get("example.org"), Some(12));
    assert_eq!(cache.len(), 2);
    assert_eq!(buf.write_qname("www.example.org", &mut cache), Ok(6));
    assert_eq!(&buf.as_slice()[27..], &[3, b'w', b'w', b'w', 0xc0, 12]);
    assert_eq!(cache.get("www.example.org"), Some(27));
}

#[test]
fn equal_trailing_suffixes_share_their_bytes() {
    let mut buf = ByteBuf::new_empty(None);
    let mut cache = LabelCache::new();
    assert_eq!(buf.write_qname("a.x.com", &mut cache), Ok(9));
    assert_eq!(cache.get("a.x.com"), Some(0));
    assert_eq!(cache.get("x.com"), Some(2));
    assert_eq!(cache.get("com"), Some(4));
    assert_eq!(cache.len(), 3);
    // 'x.com' is written once; the second name points to it
    assert_eq!(buf.write_qname("b.x.com", &mut cache), Ok(4));
    assert_eq!(&buf.as_slice()[9..], &[1, b'b', 0xc0, 2]);
    assert_eq!(buf.write_qname("y.com", &mut cache), Ok(4));
    assert_eq!(&buf.as_slice()[13..], &[1, b'y', 0xc0, 4]);
    assert_eq!(buf.write_qname("com", &mut cache), Ok(2));
    assert_eq!(&buf.as_slice()[17..], &[0xc0, 4]);
    assert_eq!(cache.len(), 5);
    buf.set_pos(9);
    assert_eq!(buf.read_qname().unwrap(), "b.x.com");
    assert_eq!(buf.read_qname().unwrap(), "y.com");
    assert_eq!(buf.read_qname().unwrap(), "com");
}

#[test]
fn disabled_cache_records_nothing() {
    let mut buf = ByteBuf::new_empty(None);
    let mut cache = LabelCache::disabled();
    assert!(!cache.records());
    assert_eq!(buf.write_qname("a.b", &mut cache), Ok(5));
    assert_eq!(buf.write_qname("a.b", &mut cache), Ok(5));
    assert_eq!(cache.len(), 0);
    assert_eq!(cache.get("a.b"), None);
}

#[test]
fn name_behind_the_reach_of_pointers_is_not_recorded() {
    let mut buf = ByteBuf::new_from_vec(vec![0; 0x4000]);
    let mut cache = LabelCache::new();
    assert_eq!(buf.write_qname("a.b", &mut cache), Ok(5));
    assert_eq!(cache.len(), 0);
    // Only the first label starts where a pointer can name it
    let mut buf = ByteBuf::new_from_vec(vec![0; 0x3fff]);
    assert_eq!(buf.write_qname("a.b", &mut cache), Ok(5));
    assert_eq!(cache.get("a.b"), Some(0x3fff));
    assert_eq!(cache.get("b"), None);
    assert_eq!(cache.len(), 1);
}

#[test]
fn pointer_is_followed_and_cursor_stops_behind_it() {
    // "com" at 0, then "a" + pointer to 0 at 5, then one more byte
    let bytes = &[3, b'c', b'o', b'm', 0, 1, b'a', 0xc0, 0, 9];
    let mut buf = ByteBuf::new(bytes);
    buf.set_pos(5);
    assert_eq!(buf.read_qname().unwrap(), "a.com");
    assert_eq!(buf.pos(), 9);
    assert_eq!(buf.read_u8(), Ok(9));
}

#[test]
fn pointer_loop_is_malformed() {
    let bytes = &[0xc0, 0];
    let mut buf = ByteBuf::new(bytes);
    assert_eq!(buf.read_qname(), Err(DnsError::MalformedPacket));
    assert_eq!(buf.pos(), 0);
    let bytes = &[1, b'a', 0xc0, 0];
    let mut buf = ByteBuf::new(bytes);
    assert_eq!(buf.read_qname(), Err(DnsError::MalformedPacket));
}

#[test]
fn malformed_names() {
    // A length byte above 63 that is no pointer
    let mut buf = ByteBuf::new(&[64, 0]);
    assert_eq!(buf.read_qname(), Err(DnsError::MalformedPacket));
    // A pointer without its second byte
    let mut buf = ByteBuf::new(&[0xc0]);
    assert_eq!(buf.read_qname(), Err(DnsError::MalformedPacket));
    // Bytes that are not UTF-8
    let mut buf = ByteBuf::new(&[1, 0xff, 0]);
    assert_eq!(buf.read_qname(), Err(DnsError::MalformedPacket));
    assert_eq!(buf.pos(), 0);
    // Nothing at all
    let mut buf = ByteBuf::new(&[]);
    assert_eq!(buf.read_qname(), Err(DnsError::MalformedPacket));
}

#[test]
fn utf8_labels_come_back() {
    let mut buf = ByteBuf::new_empty(None);
    buf.write_qname("bücher.example", &mut LabelCache::disabled()).unwrap();
    assert_eq!(buf.read_qname().unwrap(), "bücher.example");
}

#[test]
fn qname_length_at_the_cursor() {
    let bytes = &[3, b'c', b'o', b'm', 0, 1, b'a', 0xc0, 0, 9];
    let mut buf = ByteBuf::new(bytes);
    assert_eq!(buf.get_qname_length(), Ok(5));
    buf.set_pos(5);
    assert_eq!(buf.get_qname_length(), Ok(4));
    buf.set_pos(9);
    assert_eq!(buf.get_qname_length(), Err(DnsError::MalformedPacket));
}

#[test]
fn size_of_a_name_before_it_is_written() {
    let mut cache = LabelCache::new();
    assert_eq!(o_dns::utils::get_max_encoded_qname_size("", &cache), 1);
    assert_eq!(o_dns::utils::get_max_encoded_qname_size("test.com", &cache), 10);
    let mut buf = ByteBuf::new_empty(None);
    buf.write_qname("test.com", &mut cache).unwrap();
    assert_eq!(o_dns::utils::get_max_encoded_qname_size("test.com", &cache), 2);
    assert_eq!(o_dns::utils::get_max_encoded_qname_size("www.test.com", &cache), 6);
    assert_eq!(o_dns::utils::get_max_encoded_qname_size("com", &cache), 2);
    assert_eq!(o_dns::utils::get_max_encoded_qname_size("org", &cache), 5);
}

#[test]
fn cache_entries_by_hand() {
    let mut cache = LabelCache::new();
    assert!(cache.records());
    cache.insert_bytes(b"a.b", 5);
    cache.insert_bytes(b"c", 0x3fff);
    // An offset that no pointer can name is not recorded
    cache.insert_bytes(b"d", 0x4000);
    assert_eq!(cache.len(), 2);
    assert_eq!(cache.get_bytes(b"a.b"), Some(5));
    assert_eq!(cache.get("c"), Some(0x3fff));
    assert_eq!(cache.get("d"), None);
    cache.insert_bytes(b"a.b", 6);
    assert_eq!(cache.len(), 2);
    assert_eq!(cache.get("a.b"), Some(6));
    let mut buf = ByteBuf::new_empty(None);
    assert_eq!(buf.write_qname("x.a.b", &mut cache), Ok(4));
    assert_eq!(buf.as_slice(), &[1, b'x', 0xc0, 6]);
    assert_eq!(cache.get("x.a.b"), Some(0));
    assert_eq!(cache.len(), 3);
    let mut buf = ByteBuf::new_empty(None);
    assert_eq!(buf.write_qname("c", &mut cache), Ok(2));
    assert_eq!(buf.as_slice(), &[0xff, 0xff]);
}
