use o_dns::ByteBuf;
use o_dns::DnsError;
use o_dns::DnsHeader;
use o_dns::DnsPacket;
use o_dns::EdnsOption;
use o_dns::EncodeToBuf;
use o_dns::EncodedSize;
use o_dns::FromBuf;
use o_dns::LabelCache;
use o_dns::QueryType;
use o_dns::Question;
use o_dns::ResourceData;
use o_dns::ResourceRecord;

const LOCALHOST_V4: [u8; 4] = [127, 0, 0, 1];
const LOCALHOST_V6: [u8; 16] = [0, 0, 0, 0, 0, 0, 0, 0, 0, 0, 0, 0, 0, 0, 0, 1];

fn get_empty_dns_packet(id: u16) -> DnsPacket {
    let mut dns_packet = DnsPacket::new();
    dns_packet.header.id = id;
    dns_packet.header.is_response = true;
    dns_packet.header.is_authoritative = true;
    dns_packet.header.recursion_desired = true;
    dns_packet.header.recursion_available = true;
    dns_packet.header.z = [true, true, true];
    dns_packet
}

fn assert_common_dns_header_fields(h1: &DnsHeader, h2: &DnsHeader) {
    assert_eq!(h1.id, h2.id);
    assert_eq!(h1.is_response, h2.is_response);
    assert_eq!(h1.opcode, h2.opcode);
    assert_eq!(h1.is_authoritative, h2.is_authoritative);
    assert_eq!(h1.recursion_desired, h2.recursion_desired);
    assert_eq!(h1.recursion_available, h2.recursion_available);
    assert_eq!(h1.z, h2.z);
    assert_eq!(h1.response_code, h2.response_code);
}

#[should_panic]
#[test]
fn dns_packet_header_truncation_low_size() {
    let dns_packet = get_empty_dns_packet(10);

    let mut buf = ByteBuf::new_empty(None);
    dns_packet
        // Header requires 12 bytes
        .encode_to_buf(&mut buf, Some(0))
        .unwrap();
}

#[test]
fn dns_packet_question_truncation() {
    let mut dns_packet = get_empty_dns_packet(10);
    // Add counts
    dns_packet.header.question_count = 1;
    // Add questions
    dns_packet.questions.push(Question::new("test.com", QueryType::A, None));

    let mut buf = ByteBuf::new_empty(None);
    // 12 bytes are enough only for the header
    let encoded_size = dns_packet
        .encode_to_buf(&mut buf, Some(12))
        .expect("shouldn't have failed");
    // Should be exactly 12 bytes in size
    assert_eq!(encoded_size, 12);
    let parsed_packet = DnsPacket::from_buf(&mut buf).expect("shouldn't have failed");
    // Check that header was correctly handled during truncation
    assert_common_dns_header_fields(&dns_packet.header, &parsed_packet.header);
    // Should've been truncated
    assert!(parsed_packet.header.truncation);
    assert_eq!(parsed_packet.header.question_count, 0);
    assert!(parsed_packet.questions.is_empty());
}

#[test]
fn dns_packet_answer_truncation() {
    let mut dns_packet = get_empty_dns_packet(10);
    // Add counts
    dns_packet.header.question_count = 1;
    dns_packet.header.answer_rr_count = 1;
    // Add questions
    dns_packet.questions.push(Question::new("test.com", QueryType::A, None));
    // Add answers
    dns_packet.answers.push(ResourceRecord::new(
        "test.com",
        ResourceData::A {
            address: LOCALHOST_V4,
        },
        Some(16),
        None,
    ));

    let mut buf = ByteBuf::new_empty(None);
    let encoded_size = dns_packet
        // 12 /* header */ + 14 /* question */
        .encode_to_buf(&mut buf, Some(26))
        .expect("shouldn't have failed");
    // Should be exactly 26 bytes in size
    assert_eq!(encoded_size, 26);
    let parsed_packet = DnsPacket::from_buf(&mut buf).expect("shouldn't have failed");
    // Check that header was correctly handled during truncation
    assert_common_dns_header_fields(&dns_packet.header, &parsed_packet.header);
    // Should've been truncated
    assert!(parsed_packet.header.truncation);
    assert_eq!(parsed_packet.header.question_count, 1);
    assert_eq!(parsed_packet.questions, dns_packet.questions);
    assert_eq!(parsed_packet.header.answer_rr_count, 0);
    assert!(parsed_packet.answers.is_empty());
}

#[test]
fn dns_packet_authority_truncation() {
    let mut dns_packet = get_empty_dns_packet(10);
    // Add counts
    dns_packet.header.question_count = 1;
    dns_packet.header.answer_rr_count = 1;
    dns_packet.header.authority_rr_count = 1;
    // Add questions
    dns_packet.questions.push(Question::new("test.com", QueryType::A, None));
    // Add answers
    dns_packet.answers.push(ResourceRecord::new(
        "test.com",
        ResourceData::A {
            address: LOCALHOST_V4,
        },
        Some(16),
        None,
    ));
    // Add authority RRs
    dns_packet.authorities.push(dns_packet.answers[0].clone());

    let mut buf = ByteBuf::new_empty(None);
    let encoded_size = dns_packet
        // 12 /* header */ + 14 /* question */ + 16 /* answer RR */
        .encode_to_buf(&mut buf, Some(42))
        .expect("shouldn't have failed");
    // Should be exactly 42 bytes in size
    assert_eq!(encoded_size, 42);
    let parsed_packet = DnsPacket::from_buf(&mut buf).expect("shouldn't have failed");
    // Check that header was correctly handled during truncation
    assert_common_dns_header_fields(&dns_packet.header, &parsed_packet.header);
    // Should've been truncated
    assert!(parsed_packet.header.truncation);
    assert_eq!(parsed_packet.header.question_count, 1);
    assert_eq!(parsed_packet.questions, dns_packet.questions);
    assert_eq!(parsed_packet.header.answer_rr_count, 1);
    assert_eq!(parsed_packet.answers, dns_packet.answers);
    assert_eq!(parsed_packet.header.authority_rr_count, 0);
    assert!(parsed_packet.authorities.is_empty());
}

#[test]
fn dns_packet_additional_truncation() {
    let mut dns_packet = get_empty_dns_packet(10);
    // Add counts
    dns_packet.header.question_count = 1;
    dns_packet.header.answer_rr_count = 1;
    dns_packet.header.authority_rr_count = 1;
    dns_packet.header.additional_rr_count = 1;
    // Add questions
    dns_packet.questions.push(Question::new("test.com", QueryType::A, None));
    // Add answers
    dns_packet.answers.push(ResourceRecord::new(
        "test.com",
        ResourceData::A {
            address: LOCALHOST_V4,
        },
        Some(16),
        None,
    ));
    // Add authority RRs
    dns_packet.authorities.push(dns_packet.answers[0].clone());
    // Add additional RR
    dns_packet.additionals.push(dns_packet.answers[0].clone());

    let mut buf = ByteBuf::new_empty(None);
    let encoded_size = dns_packet
        // 12 /* header */ + 14 /* question */ + 16 /* answer RR */ 16 /* additional RR */
        .encode_to_buf(&mut buf, Some(58))
        .expect("shouldn't have failed");
    // Should be exactly 58 bytes in size
    assert_eq!(encoded_size, 58);
    let parsed_packet = DnsPacket::from_buf(&mut buf).expect("shouldn't have failed");
    // Check that header was correctly handled during truncation
    assert_common_dns_header_fields(&dns_packet.header, &parsed_packet.header);
    // Should've been truncated
    assert!(parsed_packet.header.truncation);
    assert_eq!(parsed_packet.header.question_count, 1);
    assert_eq!(parsed_packet.questions, dns_packet.questions);
    assert_eq!(parsed_packet.header.answer_rr_count, 1);
    assert_eq!(parsed_packet.answers, dns_packet.answers);
    assert_eq!(parsed_packet.header.authority_rr_count, 1);
    assert_eq!(parsed_packet.authorities, dns_packet.authorities);
    assert_eq!(parsed_packet.header.additional_rr_count, 0);
    assert!(parsed_packet.additionals.is_empty());
}

#[test]
fn dns_packet_multiple_answers_truncation() {
    let mut dns_packet = get_empty_dns_packet(10);
    // Add counts
    dns_packet.header.question_count = 1;
    dns_packet.header.answer_rr_count = 2;
    // Add questions
    dns_packet.questions.push(Question::new("test.com", QueryType::A, None));
    // Add answers
    dns_packet.answers.push(ResourceRecord::new(
        "test.com",
        ResourceData::A {
            address: LOCALHOST_V4,
        },
        Some(16),
        None,
    ));
    dns_packet.answers.push(ResourceRecord::new(
        "test.com",
        ResourceData::AAAA {
            address: LOCALHOST_V6,
        },
        Some(16),
        None,
    ));

    let mut buf = ByteBuf::new_empty(None);
    let encoded_size = dns_packet
        // 12 /* header */ + 14 /* question */ + 16 /* first answer RR */
        .encode_to_buf(&mut buf, Some(42))
        .expect("shouldn't have failed");
    // Should be exactly 42 bytes in size
    assert_eq!(encoded_size, 42);
    let parsed_packet = DnsPacket::from_buf(&mut buf).expect("shouldn't have failed");
    // Check that header was correctly handled during truncation
    assert_common_dns_header_fields(&dns_packet.header, &parsed_packet.header);
    // Should've been truncated
    assert!(parsed_packet.header.truncation);
    assert_eq!(parsed_packet.header.question_count, 1);
    assert_eq!(parsed_packet.questions, dns_packet.questions);
    assert_eq!(parsed_packet.header.answer_rr_count, 1);
    assert_eq!(parsed_packet.answers.get(0), dns_packet.answers.get(0));
}

#[should_panic]
#[test]
fn dns_packet_opt_rr_truncation_low_size() {
    let mut dns_packet = get_empty_dns_packet(10);
    dns_packet.header.additional_rr_count = 1;
    // Add OPT RR
    dns_packet.additionals.push(ResourceRecord::new(
        "test.com",
        ResourceData::OPT { options: None },
        Some(1232),
        None,
    ));
    dns_packet.edns = Some(0);

    let mut buf = ByteBuf::new_empty(None);
    dns_packet.encode_to_buf(&mut buf, Some(12)).unwrap();
}

#[test]
fn dns_packet_truncation_should_prioritize_opt_rr() {
    let mut dns_packet = get_empty_dns_packet(10);
    // Add counts
    dns_packet.header.question_count = 1;
    dns_packet.header.additional_rr_count = 1;
    // Add questions
    dns_packet.questions.push(Question::new("test.com", QueryType::A, None));
    // Add OPT RR
    dns_packet.additionals.push(ResourceRecord::new(
        "",
        ResourceData::OPT { options: None },
        Some(1232),
        None,
    ));
    dns_packet.edns = Some(0);

    let mut buf = ByteBuf::new_empty(None);
    let encoded_size = dns_packet
        .encode_to_buf(&mut buf, Some(26))
        .expect("shouldn't have failed");
    // Should be exactly 23 bytes in size: 12 /* header */ + 11 /* OPT RR */
    assert_eq!(encoded_size, 23);
    let parsed_packet = DnsPacket::from_buf(&mut buf).expect("shouldn't have failed");
    // Check that header was correctly handled during truncation
    assert_common_dns_header_fields(&dns_packet.header, &parsed_packet.header);
    // Should've been truncated
    assert!(parsed_packet.header.truncation);
    // Should've discarded the question to preserve OPT RR
    assert_eq!(parsed_packet.header.question_count, 0);
    assert!(parsed_packet.questions.is_empty());
    assert_eq!(parsed_packet.header.additional_rr_count, 1);
    assert_eq!(parsed_packet.additionals, dns_packet.additionals);
    assert_eq!(parsed_packet.edns, dns_packet.edns);
}

#[test]
fn size_errors_name_the_limit() {
    let mut dns_packet = get_empty_dns_packet(10);
    let mut buf = ByteBuf::new_from_vec(vec![1, 2, 3]);
    assert_eq!(dns_packet.encode_to_buf(&mut buf, Some(11)), Err(DnsError::SizeTooSmall));
    assert_eq!(buf.as_slice(), &[1, 2, 3]);
    dns_packet.header.additional_rr_count = 1;
    dns_packet.additionals.push(ResourceRecord::new(
        "",
        ResourceData::OPT { options: None },
        Some(1232),
        None,
    ));
    dns_packet.edns = Some(0);
    assert_eq!(dns_packet.encode_to_buf(&mut buf, Some(22)), Err(DnsError::SizeTooSmall));
    let mut buf = ByteBuf::new_empty(None);
    assert_eq!(dns_packet.encode_to_buf(&mut buf, Some(23)), Ok(23));
    assert_eq!(buf.len(), 23);
}

fn full_packet() -> DnsPacket {
    let mut p = get_empty_dns_packet(0x1234);
    p.header.truncation = false;
    p.questions.push(Question::new("www.example.com", QueryType::ANY, Some(3)));
    p.answers.push(ResourceRecord::new(
        "www.example.com",
        ResourceData::CNAME { cname: "example.com".to_string() },
        Some(300),
        None,
    ));
    p.answers.push(ResourceRecord::new(
        "example.com",
        ResourceData::A { address: [93, 184, 216, 34] },
        Some(0xdead_beef),
        Some(1),
    ));
    p.answers.push(ResourceRecord::new(
        "example.com",
        ResourceData::AAAA { address: LOCALHOST_V6 },
        None,
        Some(0xffff),
    ));
    p.authorities.push(ResourceRecord::new(
        "com",
        ResourceData::NS { ns_domain_name: "ns.example.com".to_string() },
        Some(7),
        None,
    ));
    p.authorities.push(ResourceRecord::new(
        "",
        ResourceData::UNKNOWN { qtype: 6, rdata: vec![1, 2, 3, 4, 5] },
        Some(8),
        None,
    ));
    p.additionals.push(ResourceRecord::new(
        "ns.example.com",
        ResourceData::A { address: [10, 0, 0, 1] },
        Some(9),
        None,
    ));
    p.additionals.push(ResourceRecord::new(
        "",
        ResourceData::OPT {
            options: Some(vec![
                EdnsOption { code: 10, data: vec![1, 2, 3, 4, 5, 6, 7, 8] },
                EdnsOption { code: 3, data: vec![] },
            ]),
        },
        Some(0x0000_8000),
        Some(1232),
    ));
    p.edns = Some(1);
    p.header.question_count = 1;
    p.header.answer_rr_count = 3;
    p.header.authority_rr_count = 2;
    p.header.additional_rr_count = 2;
    p
}

#[test]
fn whole_packet_comes_back_from_the_wire() {
    let p = full_packet();
    let mut buf = ByteBuf::new_empty(None);
    let size = p.encode_to_buf(&mut buf, None).expect("shouldn't have failed");
    assert_eq!(size, buf.len());
    let back = DnsPacket::from_buf(&mut buf).expect("shouldn't have failed");
    assert_eq!(back, p);
    assert_eq!(buf.pos(), buf.len());
}

#[test]
fn names_of_a_packet_share_their_bytes() {
    let p = full_packet();
    let mut compressed = ByteBuf::new_empty(None);
    p.encode_to_buf(&mut compressed, None).unwrap();
    let mut plain = ByteBuf::new_empty(None);
    p.encode_to_buf_with_cache(&mut plain, &mut LabelCache::disabled(), None)
        .unwrap();
    assert!(compressed.len() < plain.len());
    assert_eq!(DnsPacket::from_buf(&mut plain).unwrap(), p);
    // The name of the first answer is a pointer to the name of the question
    assert_eq!(&compressed.as_slice()[12 + 17 + 4..12 + 17 + 4 + 2], &[0xc0, 12]);
}

#[test]
fn every_limit_is_kept() {
    let p = full_packet();
    let mut whole = ByteBuf::new_empty(None);
    let full_size = p.encode_to_buf(&mut whole, None).unwrap();
    let opt_size = p.additionals[1].get_encoded_size(&LabelCache::disabled());
    for limit in 0..full_size + 5 {
        let mut buf = ByteBuf::new_empty(None);
        let result = p.encode_to_buf(&mut buf, Some(limit));
        if limit < 12 + opt_size {
            assert_eq!(result, Err(DnsError::SizeTooSmall));
            assert_eq!(buf.len(), 0);
            continue;
        }
        let size = result.expect("shouldn't have failed");
        assert!(buf.len() <= limit);
        assert!(size <= limit);
        let back = DnsPacket::from_buf(&mut buf).expect("shouldn't have failed");
        assert_common_dns_header_fields(&p.header, &back.header);
        let removed = back.questions.len() < p.questions.len()
            || back.answers.len() < p.answers.len()
            || back.authorities.len() < p.authorities.len()
            || back.additionals.len() < p.additionals.len();
        assert_eq!(back.header.truncation, removed);
        assert_eq!(back.header.question_count as usize, back.questions.len());
        assert_eq!(back.header.answer_rr_count as usize, back.answers.len());
        assert_eq!(back.header.authority_rr_count as usize, back.authorities.len());
        assert_eq!(back.header.additional_rr_count as usize, back.additionals.len());
        // The OPT record is never left out
        assert!(back.additionals.contains(&p.additionals[1]));
        assert_eq!(back.edns, Some(back.additionals.len() - 1));
        for rr in back.answers.iter() {
            assert!(p.answers.contains(rr));
        }
        if limit >= full_size {
            assert_eq!(back, p);
        }
    }
}

#[test]
fn smaller_record_behind_a_larger_one_is_kept() {
    let mut p = get_empty_dns_packet(1);
    p.answers.push(ResourceRecord::new(
        "a",
        ResourceData::UNKNOWN { qtype: 99, rdata: vec![0; 100] },
        None,
        None,
    ));
    p.answers.push(ResourceRecord::new(
        "a",
        ResourceData::A { address: LOCALHOST_V4 },
        None,
        None,
    ));
    p.header.answer_rr_count = 2;
    let mut buf = ByteBuf::new_empty(None);
    assert_eq!(p.encode_to_buf(&mut buf, Some(40)), Ok(29));
    let back = DnsPacket::from_buf(&mut buf).unwrap();
    assert!(back.header.truncation);
    assert_eq!(back.answers, vec![p.answers[1].clone()]);
}

#[test]
fn udp_truncation_fills_the_limit_in_order() {
    let mut p = get_empty_dns_packet(7);
    p.questions.push(Question::new("x.com", QueryType::A, None));
    p.header.question_count = 1;
    for i in 0..6u8 {
        p.answers.push(ResourceRecord::new(
            "x.com",
            ResourceData::UNKNOWN { qtype: 99, rdata: vec![i; 151] },
            Some(60),
            None,
        ));
    }
    p.header.answer_rr_count = 6;
    let mut whole = ByteBuf::new_empty(None);
    assert_eq!(p.encode_to_buf(&mut whole, None), Ok(12 + 11 + 6 * 163));
    let mut buf = ByteBuf::new_empty(None);
    assert_eq!(p.encode_to_buf(&mut buf, Some(512)), Ok(512));
    assert_eq!(buf.len(), 512);
    let back = DnsPacket::from_buf(&mut buf).unwrap();
    assert!(back.header.truncation);
    assert_eq!(back.questions, p.questions);
    assert_eq!(back.answers.len(), 3);
    assert_eq!(&back.answers[..], &p.answers[..3]);
}

#[test]
fn two_opt_records_are_malformed() {
    let mut p = get_empty_dns_packet(1);
    for _ in 0..2 {
        p.additionals.push(ResourceRecord::new(
            "",
            ResourceData::OPT { options: None },
            None,
            Some(512),
        ));
    }
    p.header.additional_rr_count = 2;
    p.edns = Some(0);
    let mut buf = ByteBuf::new_empty(None);
    p.encode_to_buf(&mut buf, None).unwrap();
    assert_eq!(DnsPacket::from_buf(&mut buf), Err(DnsError::MalformedPacket));
    assert_eq!(buf.pos(), 0);
}

#[test]
fn short_packets_are_malformed() {
    let p = full_packet();
    let mut whole = ByteBuf::new_empty(None);
    p.encode_to_buf(&mut whole, None).unwrap();
    let bytes = whole.into_inner();
    for cut in 0..bytes.len() {
        let mut buf = ByteBuf::new(&bytes[..cut]);
        assert_eq!(DnsPacket::from_buf(&mut buf), Err(DnsError::MalformedPacket));
        assert_eq!(buf.pos(), 0);
    }
}

#[test]
fn default_packet_is_empty() {
    let p = DnsPacket::new();
    assert_eq!(p.header, DnsHeader::new());
    assert_eq!(p.edns, None);
    assert!(p.questions.is_empty() && p.answers.is_empty());
    assert!(p.authorities.is_empty() && p.additionals.is_empty());
    assert_eq!(p, DnsPacket::default());
    let mut buf = ByteBuf::new_empty(None);
    assert_eq!(p.encode_to_buf(&mut buf, None), Ok(12));
    assert_eq!(buf.as_slice(), &[0; 12]);
}
