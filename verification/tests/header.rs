use o_dns::ByteBuf;
use o_dns::DnsError;
use o_dns::DnsHeader;
use o_dns::EncodeToBuf;
use o_dns::EncodedSize;
use o_dns::FromBuf;
use o_dns::LabelCache;
use o_dns::QueryOpcode;
use o_dns::ResponseCode;

#[test]
fn dns_header_parsing() {
    let stub_header = &mut [
        0x0, 0xff, 0x95, 0xa4, 0x0, 0x6, 0x0, 0x7, 0x0, 0x8, 0x0, 0x9,
    ];
    let mut buf = ByteBuf::new(stub_header);
    let header = DnsHeader::from_buf(&mut buf).expect("shouldn't have failed");

    assert_eq!(header.id, 255);
    assert!(header.is_response);
    assert_eq!(header.opcode, QueryOpcode::STATUS);
    assert!(header.is_authoritative);
    assert!(!header.truncation);
    assert!(header.recursion_desired);
    assert!(header.recursion_available);
    assert!(!header.z[0]);
    assert!(header.z[1]);
    assert!(!header.z[2]);
    assert_eq!(header.question_count, 6);
    assert_eq!(header.answer_rr_count, 7);
    assert_eq!(header.authority_rr_count, 8);
    assert_eq!(header.additional_rr_count, 9);
    assert_eq!(header.response_code, ResponseCode::NotImplemented);
    assert_eq!(buf.pos(), 12);
}

#[test]
fn flags_word_has_the_bits_in_their_places() {
    let mut header = DnsHeader::new();
    assert_eq!(header.get_flags(), 0);
    header.is_response = true;
    assert_eq!(header.get_flags(), 0x8000);
    header.opcode = QueryOpcode::STATUS;
    assert_eq!(header.get_flags(), 0x9000);
    header.is_authoritative = true;
    header.truncation = true;
    header.recursion_desired = true;
    assert_eq!(header.get_flags(), 0x9700);
    header.recursion_available = true;
    header.z = [true, false, true];
    header.response_code = ResponseCode::Refused;
    assert_eq!(header.get_flags(), 0x97d5);
    header.opcode = QueryOpcode::UNKNOWN;
    header.response_code = ResponseCode::Unknown;
    assert_eq!(header.get_flags(), 0x9fd6);
}

#[test]
fn every_flag_comes_back_from_the_wire() {
    let opcodes = [
        QueryOpcode::QUERY,
        QueryOpcode::IQUERY,
        QueryOpcode::STATUS,
        QueryOpcode::UNKNOWN,
    ];
    let rcodes = [
        ResponseCode::Success,
        ResponseCode::FormatError,
        ResponseCode::ServerFailure,
        ResponseCode::NameError,
        ResponseCode::NotImplemented,
        ResponseCode::Refused,
        ResponseCode::Unknown,
    ];
    for bits in 0..512u32 {
        for opcode in opcodes {
            for response_code in rcodes {
                let header = DnsHeader {
                    id: 0xbeef,
                    is_response: bits & 1 != 0,
                    opcode,
                    is_authoritative: bits & 2 != 0,
                    truncation: bits & 4 != 0,
                    recursion_desired: bits & 8 != 0,
                    recursion_available: bits & 16 != 0,
                    z: [bits & 32 != 0, bits & 64 != 0, bits & 128 != 0],
                    response_code,
                    question_count: 1,
                    answer_rr_count: 2,
                    authority_rr_count: 3,
                    additional_rr_count: if bits & 256 != 0 { 0xffff } else { 4 },
                };
                let mut buf = ByteBuf::new_empty(None);
                assert_eq!(header.encode_to_buf(&mut buf, None), Ok(12));
                assert_eq!(buf.len(), 12);
                assert_eq!(DnsHeader::from_buf(&mut buf), Ok(header));
            }
        }
    }
}

#[test]
fn code_numbers_of_the_header() {
    assert_eq!(QueryOpcode::from(0), QueryOpcode::QUERY);
    assert_eq!(QueryOpcode::from(1), QueryOpcode::IQUERY);
    assert_eq!(QueryOpcode::from(2), QueryOpcode::STATUS);
    assert_eq!(QueryOpcode::from(3), QueryOpcode::UNKNOWN);
    assert_eq!(QueryOpcode::from(15), QueryOpcode::UNKNOWN);
    assert_eq!(QueryOpcode::UNKNOWN.code(), 3);
    assert_eq!(ResponseCode::from(0), ResponseCode::Success);
    assert_eq!(ResponseCode::from(3), ResponseCode::NameError);
    assert_eq!(ResponseCode::from(5), ResponseCode::Refused);
    assert_eq!(ResponseCode::from(6), ResponseCode::Unknown);
    assert_eq!(ResponseCode::from(15), ResponseCode::Unknown);
    assert_eq!(ResponseCode::Unknown.code(), 6);
    assert_eq!(QueryOpcode::default(), QueryOpcode::QUERY);
    assert_eq!(ResponseCode::default(), ResponseCode::Success);
    assert_eq!(DnsHeader::default(), DnsHeader::new());
}

#[test]
fn short_header_is_malformed() {
    let mut buf = ByteBuf::new(&[0; 11]);
    assert_eq!(DnsHeader::from_buf(&mut buf), Err(DnsError::MalformedPacket));
    assert_eq!(buf.pos(), 0);
}

#[test]
fn header_that_does_not_fit_is_not_written() {
    let header = DnsHeader::new();
    let mut buf = ByteBuf::new_empty(None);
    let mut cache = LabelCache::new();
    assert_eq!(header.get_encoded_size(&cache), 12);
    assert_eq!(header.encode_to_buf_with_cache(&mut buf, &mut cache, Some(11)), Ok(0));
    assert_eq!(buf.len(), 0);
    assert_eq!(header.encode_to_buf_with_cache(&mut buf, &mut cache, Some(12)), Ok(12));
    assert_eq!(buf.len(), 12);
}
