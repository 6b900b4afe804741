use o_dns::ByteBuf;
use o_dns::DnsError;
use o_dns::EdnsData;
use o_dns::EdnsOption;
use o_dns::EncodeToBuf;
use o_dns::EncodedSize;
use o_dns::FromBuf;
use o_dns::LabelCache;
use o_dns::QueryType;
use o_dns::Question;
use o_dns::ResourceData;
use o_dns::ResourceRecord;

#[test]
fn query_type_numbers() {
    assert_eq!(QueryType::from(1), QueryType::A);
    assert_eq!(QueryType::from(2), QueryType::NS);
    assert_eq!(QueryType::from(5), QueryType::CNAME);
    assert_eq!(QueryType::from(28), QueryType::AAAA);
    assert_eq!(QueryType::from(41), QueryType::OPT);
    assert_eq!(QueryType::from(255), QueryType::ANY);
    assert_eq!(QueryType::from(0), QueryType::UNKNOWN(0));
    assert_eq!(QueryType::from(46), QueryType::UNKNOWN(46));
    for code in 0..=u16::MAX {
        assert_eq!(QueryType::from(code).code(), code);
    }
}

#[test]
fn question_on_the_wire() {
    let question = Question::new("test.com", QueryType::AAAA, None);
    assert_eq!(question.qclass, 1);
    assert_eq!(question.qname, "test.com");
    let mut buf = ByteBuf::new_empty(None);
    assert_eq!(question.encode_to_buf(&mut buf, None), Ok(14));
    assert_eq!(
        buf.as_slice(),
        &[4, b't', b'e', b's', b't', 3, b'c', b'o', b'm', 0, 0, 28, 0, 1]
    );
    assert_eq!(Question::from_buf(&mut buf), Ok(question.clone()));
    assert_eq!(question.clone().into_owned(), question);
    let mut buf = ByteBuf::new_empty(None);
    assert_eq!(question.encode_to_buf(&mut buf, Some(13)), Ok(0));
    assert_eq!(buf.len(), 0);
    assert_eq!(question.encode_to_buf(&mut buf, Some(14)), Ok(14));
    assert_eq!(question.get_encoded_size(&LabelCache::new()), 14);
}

#[test]
fn question_without_its_class_is_malformed() {
    let mut buf = ByteBuf::new(&[1, b'a', 0, 0, 1, 0]);
    assert_eq!(Question::from_buf(&mut buf), Err(DnsError::MalformedPacket));
    assert_eq!(buf.pos(), 0);
}

#[test]
fn record_on_the_wire() {
    let rr = ResourceRecord::new(
        "a.b",
        ResourceData::A { address: [1, 2, 3, 4] },
        Some(0x0102_0304),
        Some(0x0506),
    );
    let mut buf = ByteBuf::new_empty(None);
    assert_eq!(rr.encode_to_buf(&mut buf, None), Ok(19));
    assert_eq!(
        buf.as_slice(),
        &[1, b'a', 1, b'b', 0, 0, 1, 5, 6, 1, 2, 3, 4, 0, 4, 1, 2, 3, 4]
    );
    assert_eq!(ResourceRecord::from_buf(&mut buf), Ok(rr.clone()));
    let defaults = ResourceRecord::new("a.b", ResourceData::A { address: [1, 2, 3, 4] }, None, None);
    assert_eq!(defaults.ttl, 0);
    assert_eq!(defaults.class, 1);
}

#[test]
fn size_computed_in_advance_decides_and_is_reported() {
    // The target ends in the name of the record, which shortens it, but
    // the size is computed before the name of the record is written
    let rr = ResourceRecord::new(
        "a.com",
        ResourceData::CNAME { cname: "x.a.com".to_string() },
        None,
        None,
    );
    let mut cache = LabelCache::new();
    assert_eq!(rr.get_encoded_size(&cache), 7 + 8 + 2 + 9);
    let mut buf = ByteBuf::new_empty(None);
    assert_eq!(rr.encode_to_buf_with_cache(&mut buf, &mut cache, Some(25)), Ok(0));
    assert_eq!(buf.len(), 0);
    assert_eq!(rr.encode_to_buf_with_cache(&mut buf, &mut cache, Some(26)), Ok(26));
    assert_eq!(buf.len(), 7 + 8 + 2 + 4);
    assert_eq!(&buf.as_slice()[15..], &[0, 4, 1, b'x', 0xc0, 0]);
    assert_eq!(ResourceRecord::from_buf(&mut buf), Ok(rr));
}

#[test]
fn bodies_come_back_from_the_wire() {
    let bodies = vec![
        ResourceData::UNKNOWN { qtype: 65535, rdata: vec![9; 70] },
        ResourceData::UNKNOWN { qtype: 16, rdata: vec![] },
        ResourceData::A { address: [255, 0, 1, 2] },
        ResourceData::AAAA { address: [7; 16] },
        ResourceData::NS { ns_domain_name: "ns1.example.net".to_string() },
        ResourceData::CNAME { cname: String::new() },
        ResourceData::OPT { options: None },
        ResourceData::OPT {
            options: Some(vec![
                EdnsOption { code: 8, data: vec![0, 1, 24, 0, 1, 2, 3] },
                EdnsOption { code: 65001, data: vec![0xde, 0xad] },
            ]),
        },
    ];
    for body in bodies {
        let qtype = body.get_query_type();
        let mut buf = ByteBuf::new_empty(None);
        let size = body.encode_to_buf(&mut buf, None).expect("shouldn't have failed");
        assert_eq!(size, buf.len());
        assert_eq!(size, body.get_encoded_size(&LabelCache::new()));
        let back = ResourceData::from_buf_with_type(&mut buf, qtype).expect("shouldn't have failed");
        assert_eq!(back, body);
        assert_eq!(buf.pos(), buf.len());
    }
}

#[test]
fn bodies_that_are_malformed() {
    // An address of the wrong length
    let mut buf = ByteBuf::new(&[0, 5, 1, 2, 3, 4, 5]);
    assert_eq!(
        ResourceData::from_buf_with_type(&mut buf, QueryType::A),
        Err(DnsError::MalformedPacket)
    );
    assert_eq!(buf.pos(), 0);
    let mut buf = ByteBuf::new(&[0, 4, 1, 2, 3, 4]);
    assert_eq!(
        ResourceData::from_buf_with_type(&mut buf, QueryType::AAAA),
        Err(DnsError::MalformedPacket)
    );
    // No record is of type ANY
    let mut buf = ByteBuf::new(&[0, 0]);
    assert_eq!(
        ResourceData::from_buf_with_type(&mut buf, QueryType::ANY),
        Err(DnsError::MalformedPacket)
    );
    // Data shorter than its length says
    let mut buf = ByteBuf::new(&[0, 3, 1, 2]);
    assert_eq!(
        ResourceData::from_buf_with_type(&mut buf, QueryType::UNKNOWN(99)),
        Err(DnsError::MalformedPacket)
    );
    // An option that reaches past the options
    let mut buf = ByteBuf::new(&[0, 5, 0, 1, 0, 2, 7, 7]);
    assert_eq!(
        ResourceData::from_buf_with_type(&mut buf, QueryType::OPT),
        Err(DnsError::MalformedPacket)
    );
    assert_eq!(buf.pos(), 0);
}

#[test]
fn later_option_takes_the_place_of_an_earlier_one() {
    let mut buf = ByteBuf::new(&[0, 15, 0, 1, 0, 1, 7, 0, 2, 0, 0, 0, 1, 0, 2, 8, 9]);
    let body = ResourceData::from_buf_with_type(&mut buf, QueryType::OPT).unwrap();
    assert_eq!(
        body,
        ResourceData::OPT {
            options: Some(vec![
                EdnsOption { code: 1, data: vec![8, 9] },
                EdnsOption { code: 2, data: vec![] },
            ]),
        }
    );
}

#[test]
fn data_too_long_for_its_length_field() {
    let body = ResourceData::UNKNOWN { qtype: 99, rdata: vec![0; 65536] };
    let mut buf = ByteBuf::new_from_vec(vec![1]);
    assert_eq!(body.encode_to_buf(&mut buf, None), Err(DnsError::DataTooLong));
    assert_eq!(buf.as_slice(), &[1]);
    let body = ResourceData::UNKNOWN { qtype: 99, rdata: vec![0; 65535] };
    assert_eq!(body.encode_to_buf(&mut buf, None), Ok(65537));
    let rr = ResourceRecord::new(
        "a",
        ResourceData::OPT { options: Some(vec![EdnsOption { code: 1, data: vec![0; 65532] }]) },
        None,
        None,
    );
    let mut buf = ByteBuf::new_from_vec(vec![1]);
    assert_eq!(rr.encode_to_buf(&mut buf, None), Err(DnsError::DataTooLong));
    assert_eq!(buf.as_slice(), &[1]);
}

#[test]
fn long_label_in_a_body_leaves_the_buffer() {
    let rr = ResourceRecord::new(
        "a",
        ResourceData::NS { ns_domain_name: "b".repeat(64) },
        None,
        None,
    );
    let mut buf = ByteBuf::new_from_vec(vec![3, 3]);
    assert_eq!(rr.encode_to_buf(&mut buf, None), Err(DnsError::LabelTooLong));
    assert_eq!(buf.as_slice(), &[3, 3]);
}

#[test]
fn edns_data_of_an_opt_record() {
    let rr = ResourceRecord::new(
        "",
        ResourceData::OPT { options: None },
        Some(0x0102_8000),
        Some(4096),
    );
    assert_eq!(
        rr.get_edns_data(),
        Some(EdnsData {
            udp_payload_size: 4096,
            extended_rcode: Some(1),
            dnssec_ok_bit: true,
            version: 2,
        })
    );
    let rr = ResourceRecord::new("", ResourceData::OPT { options: None }, Some(0x7fff), Some(512));
    assert_eq!(
        rr.get_edns_data(),
        Some(EdnsData {
            udp_payload_size: 512,
            extended_rcode: None,
            dnssec_ok_bit: false,
            version: 0,
        })
    );
    let rr = ResourceRecord::new("", ResourceData::A { address: [0; 4] }, Some(0x8000), None);
    assert_eq!(rr.get_edns_data(), None);
}
