use o_dns::cache::CacheFlags;
use o_dns::cache::CachedQuery;
use o_dns::cache::CachedRecord;
use o_dns::cache::seconds_since;
use o_dns::packet_util::get_caching_duration_for_packet;
use o_dns::packet_util::get_edns_rr;
use o_dns::packet_util::get_minimum_ttl_for_packet;
use o_dns::packet_util::is_dnssec_qtype;
use o_dns::Cache;
use o_dns::DnsError;
use o_dns::DnsPacket;
use o_dns::QueryType;
use o_dns::Question;
use o_dns::ResourceData;
use o_dns::ResourceRecord;
use o_dns::ResponseCode;

fn upstream_answer(dnssec: bool) -> DnsPacket {
    let mut p = DnsPacket::new();
    p.header.is_response = true;
    p.questions.push(Question::new("x.com", QueryType::A, None));
    p.header.question_count = 1;
    p.answers.push(ResourceRecord::new(
        "x.com",
        ResourceData::A { address: [1, 2, 3, 4] },
        Some(300),
        None,
    ));
    p.header.answer_rr_count = 1;
    p.additionals.push(get_edns_rr(1232, None, if dnssec { Some(0x8000) } else { None }));
    p.header.additional_rr_count = 1;
    p.edns = Some(0);
    p
}

#[test]
fn cached_answer_is_served_with_what_is_left_of_its_ttl() {
    let mut cache = Cache::default();
    let question = Question::new("x.com", QueryType::A, None);
    let mut response = DnsPacket::new();
    assert!(!cache.question_lookup(&question, &mut response, false, 1000));
    assert_eq!(cache.cache_response(&upstream_answer(false), 1000), Ok(()));
    for (now, ttl) in [(1000, 300), (1001, 299), (1100, 200), (1299, 1)] {
        let mut response = DnsPacket::new();
        response.questions.push(question.clone());
        assert!(cache.question_lookup(&question, &mut response, false, now));
        assert_eq!(
            response.answers,
            vec![ResourceRecord::new(
                "x.com",
                ResourceData::A { address: [1, 2, 3, 4] },
                Some(ttl),
                None
            )]
        );
        assert_eq!(response.header.answer_rr_count, 1);
        // The OPT record was not cached
        assert!(response.additionals.is_empty());
        assert_eq!(response.header.additional_rr_count, 0);
        assert!(!response.header.z[1]);
    }
    // Stale from the 300th second on
    let mut response = DnsPacket::new();
    assert!(!cache.question_lookup(&question, &mut response, false, 1300));
    assert!(!cache.question_lookup(&question, &mut response, false, 99999));
    assert_eq!(response, DnsPacket::new());
    // Another type or name is another question
    let other = Question::new("x.com", QueryType::AAAA, None);
    assert!(!cache.question_lookup(&other, &mut response, false, 1000));
}

#[test]
fn query_with_do_misses_an_answer_fetched_without() {
    let mut cache = Cache::with_capacity(4);
    let question = Question::new("x.com", QueryType::A, None);
    cache.cache_response(&upstream_answer(false), 50).unwrap();
    let mut response = DnsPacket::new();
    assert!(!cache.question_lookup(&question, &mut response, true, 60));
    assert_eq!(response, DnsPacket::new());
    assert!(cache.question_lookup(&question, &mut response, false, 60));
    // Fetched with DNSSEC it serves both
    cache.cache_response(&upstream_answer(true), 70).unwrap();
    let mut response = DnsPacket::new();
    assert!(cache.question_lookup(&question, &mut response, true, 80));
    assert_eq!(response.answers[0].ttl, 290);
    let mut response = DnsPacket::new();
    assert!(cache.question_lookup(&question, &mut response, false, 80));
}

#[test]
fn authenticated_answers_need_authenticated_records() {
    let mut cache = Cache::default();
    let question = Question::new("x.com", QueryType::A, None);
    let mut signed = upstream_answer(false);
    signed.header.z[1] = true;
    cache.cache_response(&signed, 0).unwrap();
    let mut response = DnsPacket::new();
    assert!(cache.question_lookup(&question, &mut response, false, 1));
    assert!(response.header.z[1]);
    // Another response puts the same record into the cache without the AD bit
    let mut other = upstream_answer(false);
    other.questions[0] = Question::new("y.com", QueryType::A, None);
    cache.cache_response(&other, 2).unwrap();
    let mut response = DnsPacket::new();
    assert!(!cache.question_lookup(&question, &mut response, false, 3));
    assert_eq!(response, DnsPacket::new());
}

#[test]
fn dnssec_records_are_served_only_when_asked_for() {
    let mut cache = Cache::default();
    let mut p = upstream_answer(true);
    p.answers.push(ResourceRecord::new(
        "x.com",
        ResourceData::UNKNOWN { qtype: 46, rdata: vec![1, 2, 3] },
        Some(400),
        None,
    ));
    p.authorities.push(ResourceRecord::new(
        "com",
        ResourceData::NS { ns_domain_name: "ns.com".to_string() },
        Some(500),
        None,
    ));
    cache.cache_response(&p, 0).unwrap();
    let question = Question::new("x.com", QueryType::A, None);
    let mut response = DnsPacket::new();
    assert!(cache.question_lookup(&question, &mut response, false, 10));
    assert_eq!(response.answers.len(), 1);
    assert_eq!(response.authorities.len(), 1);
    assert_eq!(response.authorities[0].ttl, 490);
    assert_eq!(response.header.authority_rr_count, 1);
    let mut response = DnsPacket::new();
    assert!(cache.question_lookup(&question, &mut response, true, 10));
    assert_eq!(response.answers.len(), 2);
    assert_eq!(response.answers[1].ttl, 390);
    assert_eq!(response.header.answer_rr_count, 2);
    // The answer is good for the smallest time to live: 300 seconds
    assert!(!cache.question_lookup(&question, &mut response, true, 300));
}

#[test]
fn caching_durations() {
    let mut p = upstream_answer(false);
    assert_eq!(get_minimum_ttl_for_packet(&p), Some(300));
    assert_eq!(get_caching_duration_for_packet(&p), 300);
    p.authorities.push(ResourceRecord::new("a", ResourceData::A { address: [0; 4] }, Some(20), None));
    p.additionals.push(ResourceRecord::new("a", ResourceData::A { address: [0; 4] }, Some(25), None));
    assert_eq!(get_minimum_ttl_for_packet(&p), Some(20));
    p.answers.clear();
    p.authorities.clear();
    p.additionals.truncate(1);
    // Only the OPT record is left, which does not count
    assert_eq!(get_minimum_ttl_for_packet(&p), None);
    assert_eq!(get_caching_duration_for_packet(&p), 300);
    for (code, seconds) in [
        (ResponseCode::Refused, 60),
        (ResponseCode::NameError, 60),
        (ResponseCode::ServerFailure, 30),
        (ResponseCode::NotImplemented, 300),
        (ResponseCode::FormatError, 0),
        (ResponseCode::Unknown, 0),
    ] {
        p.header.response_code = code;
        assert_eq!(get_caching_duration_for_packet(&p), seconds);
    }
    for qtype in 0..=u16::MAX {
        assert_eq!(is_dnssec_qtype(qtype), [43, 46, 47, 48, 50].contains(&qtype));
    }
}

#[test]
fn short_lived_answers_are_not_cached() {
    let mut cache = Cache::default();
    let question = Question::new("x.com", QueryType::A, None);
    let mut p = upstream_answer(false);
    p.answers[0].ttl = 14;
    assert_eq!(cache.cache_response(&p, 0), Ok(()));
    let mut response = DnsPacket::new();
    assert!(!cache.question_lookup(&question, &mut response, false, 0));
    p.answers[0].ttl = 15;
    assert_eq!(cache.cache_response(&p, 0), Ok(()));
    assert!(cache.question_lookup(&question, &mut response, false, 14));
    assert!(!cache.question_lookup(&question, &mut response, false, 15));
    // A format error is never cached, and a response without a question is refused
    let mut p = upstream_answer(false);
    p.questions.clear();
    assert_eq!(cache.cache_response(&p, 0), Err(DnsError::MalformedPacket));
    p.header.response_code = ResponseCode::FormatError;
    assert_eq!(cache.cache_response(&p, 0), Ok(()));
}

#[test]
fn failures_are_cached_for_their_time() {
    let mut cache = Cache::default();
    let question = Question::new("x.com", QueryType::A, None);
    let mut p = DnsPacket::new();
    p.questions.push(question.clone());
    p.header.response_code = ResponseCode::ServerFailure;
    cache.cache_response(&p, 100).unwrap();
    let mut response = DnsPacket::new();
    assert!(cache.question_lookup(&question, &mut response, false, 129));
    assert!(response.answers.is_empty());
    assert!(!cache.question_lookup(&question, &mut response, false, 130));
}

#[test]
fn cached_record_parts() {
    let rr = ResourceRecord::new("x.com", ResourceData::A { address: [1, 2, 3, 4] }, Some(10), Some(3));
    let cached = CachedRecord::new(rr.clone(), true, 5);
    assert_eq!(cached.flags, CacheFlags { ad: true, dnssec: false });
    assert_eq!(cached.added, 5);
    assert_eq!(cached.as_rr(5), rr);
    assert_eq!(cached.as_rr(4), rr);
    assert_eq!(cached.as_rr(14).ttl, 1);
    assert_eq!(cached.as_rr(15).ttl, 0);
    assert_eq!(cached.as_rr(u64::MAX).ttl, 0);
    let other = CachedRecord::new(
        ResourceRecord::new("x.com", ResourceData::A { address: [1, 2, 3, 5] }, Some(10), Some(3)),
        true,
        5,
    );
    assert_ne!(cached.get_hash(), other.get_hash());
    // sha1("x.com" 0001 0003 01020304), first sixteen bytes
    assert_eq!(
        CachedRecord::new(rr, false, 9).get_hash(),
        cached.get_hash()
    );
    assert_eq!(seconds_since(7, 9), 0);
    assert_eq!(seconds_since(9, 7), 2);
    let query = CachedQuery::new(&upstream_answer(true), 77, 3);
    assert_eq!(query.flags, CacheFlags { ad: false, dnssec: true });
    assert_eq!((query.added, query.ttd), (3, 77));
    assert!(query.answers.is_none() && query.authorities.is_none() && query.additionals.is_none());
}
