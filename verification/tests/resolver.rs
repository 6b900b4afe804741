use o_dns::list_entry::hash_domain;
use o_dns::list_entry::process_command;
use o_dns::list_entry::AccessListEntryKind;
use o_dns::list_entry::DnsServerCommand;
use o_dns::packet_util::get_query_dns_packet;
use o_dns::query_log::LogEntry;
use o_dns::resolver::after_stage;
use o_dns::resolver::allowlist_lookup;
use o_dns::resolver::apply_upstream;
use o_dns::resolver::begin_response;
use o_dns::resolver::denylist_lookup;
use o_dns::resolver::dnssec_requested;
use o_dns::resolver::ensure_questions;
use o_dns::resolver::first_stage;
use o_dns::resolver::is_resolvable;
use o_dns::resolver::response_size_limit;
use o_dns::resolver::Next;
use o_dns::resolver::ResponseSource;
use o_dns::resolver::Stage;
use o_dns::upstream::build_upstream_query;
use o_dns::upstream::choose_transport;
use o_dns::upstream::frame_tcp;
use o_dns::upstream::framed_length;
use o_dns::upstream::judge_response;
use o_dns::upstream::verdict_error;
use o_dns::upstream::Transport;
use o_dns::upstream::Verdict;
use o_dns::ByteBuf;
use o_dns::Cache;
use o_dns::Denylist;
use o_dns::DnsError;
use o_dns::DnsPacket;
use o_dns::EncodeToBuf;
use o_dns::FromBuf;
use o_dns::Hosts;
use o_dns::QueryType;
use o_dns::Question;
use o_dns::ResourceData;
use o_dns::ResourceRecord;
use o_dns::ResponseCode;

fn query(id: u16, qname: &str, qtype: QueryType) -> DnsPacket {
    let mut p = DnsPacket::new();
    p.header.id = id;
    p.header.recursion_desired = true;
    p.questions.push(Question::new(qname, qtype, None));
    p.header.question_count = 1;
    p
}

/// Runs a query through the stages as a server does, with an upstream
/// resolver that answers `upstream` if it is asked.
fn resolve(
    denylist: &Denylist,
    hosts: &Hosts,
    cache: &mut Cache,
    request: Option<&DnsPacket>,
    upstream: Result<DnsPacket, DnsError>,
    now: u64,
) -> (DnsPacket, Option<ResponseSource>) {
    let (mut response, mut next) = begin_response(request);
    let mut upstream = Some(upstream);
    loop {
        match next {
            Next::Try(stage) => {
                let request = request.unwrap();
                let question = &request.questions[0];
                let hit = match stage {
                    Stage::Denylist => denylist_lookup(denylist, question, &mut response),
                    Stage::Allowlist => allowlist_lookup(hosts, question, &mut response),
                    Stage::Cache => {
                        cache.question_lookup(question, &mut response, dnssec_requested(request), now)
                    }
                    Stage::Upstream => {
                        apply_upstream(&mut response, upstream.take().unwrap());
                        true
                    }
                };
                next = after_stage(stage, hit, request.header.recursion_desired);
            }
            Next::Respond { source, cache_response } => {
                ensure_questions(&mut response, request);
                if cache_response {
                    cache.cache_response(&response, now).unwrap();
                }
                return (response, source);
            }
        }
    }
}

#[test]
fn denylist_a_query() {
    let mut denylist = Denylist::new();
    denylist.add_entry(hash_domain("ads.example.com"));
    let request = query(0x1234, "ads.example.com", QueryType::A);
    let (response, source) = resolve(
        &denylist,
        &Hosts::new(),
        &mut Cache::default(),
        Some(&request),
        Err(DnsError::UpstreamFailure),
        0,
    );
    assert_eq!(source, Some(ResponseSource::Denylist));
    assert_eq!(response.header.id, 0x1234);
    assert!(response.header.is_response);
    assert!(response.header.is_authoritative);
    assert!(response.header.recursion_desired);
    assert!(response.header.recursion_available);
    assert_eq!(response.header.response_code, ResponseCode::Success);
    assert_eq!(
        response.answers,
        vec![ResourceRecord::new(
            "ads.example.com",
            ResourceData::A { address: [0, 0, 0, 0] },
            Some(180),
            None
        )]
    );
    assert_eq!(response.header.answer_rr_count, 1);
    assert_eq!(response.questions, request.questions);
    assert_eq!(response.header.question_count, 1);
    // As a UDP response that a client reads
    let mut buf = ByteBuf::new_empty(None);
    let limit = response_size_limit(false, Some(&request));
    assert_eq!(limit, Some(512));
    response.encode_to_buf(&mut buf, limit).unwrap();
    assert_eq!(DnsPacket::from_buf(&mut buf), Ok(response));
}

#[test]
fn denylist_wildcard_aaaa_query() {
    let mut denylist = Denylist::new();
    denylist.add_entry(hash_domain("*.tracker.net"));
    let request = query(1, "px.tracker.net", QueryType::AAAA);
    let (response, source) = resolve(
        &denylist,
        &Hosts::new(),
        &mut Cache::default(),
        Some(&request),
        Err(DnsError::UpstreamFailure),
        0,
    );
    assert_eq!(source, Some(ResponseSource::Denylist));
    assert!(response.header.is_authoritative);
    assert_eq!(
        response.answers,
        vec![ResourceRecord::new(
            "px.tracker.net",
            ResourceData::AAAA { address: [0; 16] },
            Some(180),
            None
        )]
    );
}

#[test]
fn denied_names_get_no_answer_for_other_types() {
    let mut denylist = Denylist::new();
    denylist.add_entry(hash_domain("ads.example.com"));
    let mut response = DnsPacket::new();
    let question = Question::new("ads.example.com", QueryType::CNAME, None);
    assert!(denylist_lookup(&denylist, &question, &mut response));
    assert!(response.answers.is_empty());
    assert!(response.header.is_authoritative);
    assert_eq!(response.header.answer_rr_count, 0);
    let question = Question::new("ads.example.com", QueryType::ANY, None);
    assert!(denylist_lookup(&denylist, &question, &mut response));
    assert_eq!(response.answers[0].resource_data, ResourceData::A { address: [0; 4] });
    let mut untouched = DnsPacket::new();
    let question = Question::new("fine.example.com", QueryType::A, None);
    assert!(!denylist_lookup(&denylist, &question, &mut untouched));
    assert_eq!(untouched, DnsPacket::new());
}

#[test]
fn hosts_cname() {
    let mut hosts = Hosts::new();
    hosts
        .add_entry(
            hash_domain("shop.local"),
            ResourceData::CNAME { cname: "shop.internal".to_string() },
        )
        .unwrap();
    hosts
        .add_entry(hash_domain("shop.local"), ResourceData::A { address: [10, 0, 0, 7] })
        .unwrap();
    let request = query(2, "shop.local", QueryType::CNAME);
    let (response, source) = resolve(
        &Denylist::new(),
        &hosts,
        &mut Cache::default(),
        Some(&request),
        Err(DnsError::UpstreamFailure),
        0,
    );
    assert_eq!(source, Some(ResponseSource::Allowlist));
    assert!(response.header.is_authoritative);
    assert_eq!(
        response.answers,
        vec![ResourceRecord::new(
            "shop.local",
            ResourceData::CNAME { cname: "shop.internal".to_string() },
            Some(180),
            None
        )]
    );
    // ANY gets every record stored
    let request = query(2, "shop.local", QueryType::ANY);
    let (response, _) = resolve(
        &Denylist::new(),
        &hosts,
        &mut Cache::default(),
        Some(&request),
        Err(DnsError::UpstreamFailure),
        0,
    );
    assert_eq!(response.answers.len(), 2);
    assert_eq!(response.header.answer_rr_count, 2);
    // The name is held, but nothing of the type asked: still a hit, with no answer
    let request = query(2, "shop.local", QueryType::AAAA);
    let (response, source) = resolve(
        &Denylist::new(),
        &hosts,
        &mut Cache::default(),
        Some(&request),
        Err(DnsError::UpstreamFailure),
        0,
    );
    assert_eq!(source, Some(ResponseSource::Allowlist));
    assert!(response.header.is_authoritative);
    assert!(response.answers.is_empty());
    assert_eq!(response.header.answer_rr_count, 0);
    assert_eq!(response.header.response_code, ResponseCode::Success);
    // A name that is not held goes on to the next stage, without authority
    let request = query(2, "other.local", QueryType::A);
    let (response, source) = resolve(
        &Denylist::new(),
        &hosts,
        &mut Cache::default(),
        Some(&request),
        Err(DnsError::UpstreamFailure),
        0,
    );
    assert_eq!(source, Some(ResponseSource::Upstream));
    assert!(!response.header.is_authoritative);
    assert_eq!(response.header.response_code, ResponseCode::ServerFailure);
    // A response that holds an answer already is no hit by that
    let mut response = DnsPacket::new();
    response.answers.push(ResourceRecord::new("a", ResourceData::A { address: [1; 4] }, None, None));
    let mut before = DnsPacket::new();
    before.answers.push(ResourceRecord::new("a", ResourceData::A { address: [1; 4] }, None, None));
    assert!(!allowlist_lookup(&hosts, &Question::new("other.local", QueryType::A, None), &mut response));
    assert_eq!(response, before);
}

fn upstream_answer(request: &DnsPacket) -> DnsPacket {
    let mut up = DnsPacket::new();
    up.header.id = request.header.id;
    up.header.is_response = true;
    up.header.z[1] = true;
    up.questions = request.questions.clone();
    up.header.question_count = 1;
    up.answers.push(ResourceRecord::new(
        "x.com",
        ResourceData::A { address: [1, 2, 3, 4] },
        Some(300),
        None,
    ));
    up.header.answer_rr_count = 1;
    up.additionals.push(ResourceRecord::new(
        "",
        ResourceData::OPT { options: None },
        None,
        Some(4096),
    ));
    up.additionals.push(ResourceRecord::new(
        "ns.x.com",
        ResourceData::A { address: [5, 6, 7, 8] },
        Some(900),
        None,
    ));
    up.header.additional_rr_count = 2;
    up.edns = Some(0);
    up
}

#[test]
fn cache_hit_respecting_dnssec() {
    let denylist = Denylist::new();
    let hosts = Hosts::new();
    let mut cache = Cache::default();
    let request = query(3, "x.com", QueryType::A);
    let (response, source) = resolve(
        &denylist,
        &hosts,
        &mut cache,
        Some(&request),
        Ok(upstream_answer(&request)),
        1000,
    );
    assert_eq!(source, Some(ResponseSource::Upstream));
    assert_eq!(response.answers.len(), 1);
    assert!(response.header.z[1]);
    // The OPT record of the upstream response is not taken over
    assert_eq!(response.additionals.len(), 1);
    assert_eq!(response.additionals[0].name, "ns.x.com");
    assert_eq!(response.header.additional_rr_count, 1);
    // The same question again is served from the cache
    let (response, source) = resolve(
        &denylist,
        &hosts,
        &mut cache,
        Some(&request),
        Err(DnsError::UpstreamFailure),
        1010,
    );
    assert_eq!(source, Some(ResponseSource::Cache));
    assert_eq!(response.answers[0].ttl, 290);
    assert_eq!(response.additionals[0].ttl, 890);
    // With DO set it must miss the cache and go upstream
    let mut with_do = query(4, "x.com", QueryType::A);
    with_do.additionals.push(ResourceRecord::new(
        "",
        ResourceData::OPT { options: None },
        Some(0x8000),
        Some(1400),
    ));
    with_do.header.additional_rr_count = 1;
    with_do.edns = Some(0);
    assert!(dnssec_requested(&with_do));
    let (response, source) = resolve(
        &denylist,
        &hosts,
        &mut cache,
        Some(&with_do),
        Err(DnsError::UpstreamFailure),
        1010,
    );
    assert_eq!(source, Some(ResponseSource::Upstream));
    assert_eq!(response.header.response_code, ResponseCode::ServerFailure);
    // The response repeats the DO bit in an OPT record of its own
    assert_eq!(response.additionals.len(), 1);
    assert_eq!(response.additionals[0].ttl, 0x8000);
    assert_eq!(response.additionals[0].class, 1232);
    assert_eq!(response.edns, Some(0));
    assert_eq!(response_size_limit(false, Some(&with_do)), Some(1232));
}

#[test]
fn only_upstream_responses_are_cached() {
    for stage in [Stage::Denylist, Stage::Allowlist, Stage::Cache, Stage::Upstream] {
        for hit in [false, true] {
            for rd in [false, true] {
                if let Next::Respond { source, cache_response } = after_stage(stage, hit, rd) {
                    assert_eq!(cache_response, source == Some(ResponseSource::Upstream));
                }
            }
        }
    }
    assert_eq!(first_stage(true), Next::Try(Stage::Denylist));
    assert_eq!(first_stage(false), Next::Respond { source: None, cache_response: false });
    assert_eq!(after_stage(Stage::Denylist, false, true), Next::Try(Stage::Allowlist));
    assert_eq!(after_stage(Stage::Allowlist, false, true), Next::Try(Stage::Cache));
    assert_eq!(
        after_stage(Stage::Allowlist, false, false),
        Next::Respond { source: Some(ResponseSource::NoRecurse), cache_response: false }
    );
    assert_eq!(after_stage(Stage::Cache, false, true), Next::Try(Stage::Upstream));
    assert_eq!(
        after_stage(Stage::Upstream, false, true),
        Next::Respond { source: Some(ResponseSource::Upstream), cache_response: true }
    );
}

#[test]
fn refused_requests_get_a_format_error() {
    let (response, next) = begin_response(None);
    assert_eq!(response.header.response_code, ResponseCode::FormatError);
    assert!(response.header.is_response && response.header.recursion_available);
    assert!(response.answers.is_empty());
    assert_eq!(next, Next::Respond { source: None, cache_response: false });
    let mut none = query(5, "a.com", QueryType::A);
    none.questions.clear();
    none.header.question_count = 0;
    let (response, next) = begin_response(Some(&none));
    assert_eq!(response.header.response_code, ResponseCode::FormatError);
    assert_eq!(response.header.id, 5);
    assert_eq!(next, Next::Respond { source: None, cache_response: false });
    let one = query(6, "a.com", QueryType::A);
    let (response, next) = begin_response(Some(&one));
    assert_eq!(response.header.response_code, ResponseCode::Success);
    assert_eq!(response.header.id, 6);
    assert_eq!(next, Next::Try(Stage::Denylist));
}

#[test]
fn requests_that_cannot_be_resolved() {
    let (response, source) = resolve(
        &Denylist::new(),
        &Hosts::new(),
        &mut Cache::default(),
        None,
        Err(DnsError::UpstreamFailure),
        0,
    );
    assert_eq!(source, None);
    assert_eq!(response.header.response_code, ResponseCode::FormatError);
    assert!(response.header.is_response);
    assert!(response.questions.is_empty());
    let mut two = query(5, "a.com", QueryType::A);
    two.questions.push(Question::new("b.com", QueryType::A, None));
    two.header.question_count = 2;
    assert!(!is_resolvable(Some(&two)));
    let (response, _) = resolve(
        &Denylist::new(),
        &Hosts::new(),
        &mut Cache::default(),
        Some(&two),
        Err(DnsError::UpstreamFailure),
        0,
    );
    assert_eq!(response.header.response_code, ResponseCode::FormatError);
    assert_eq!(response.questions, two.questions);
    assert_eq!(response.header.id, 5);
    let mut none = query(5, "a.com", QueryType::A);
    none.questions.clear();
    assert!(!is_resolvable(Some(&none)));
    none.header.question_count = 0;
    assert!(!is_resolvable(Some(&none)));
}

#[test]
fn query_without_recursion_is_answered_empty() {
    let mut request = query(6, "x.com", QueryType::A);
    request.header.recursion_desired = false;
    request.header.z[2] = true;
    let (response, source) = resolve(
        &Denylist::new(),
        &Hosts::new(),
        &mut Cache::default(),
        Some(&request),
        Err(DnsError::UpstreamFailure),
        0,
    );
    assert_eq!(source, Some(ResponseSource::NoRecurse));
    assert!(response.answers.is_empty());
    assert!(!response.header.recursion_desired);
    assert!(response.header.z[2]);
    assert_eq!(response.header.response_code, ResponseCode::Success);
}

#[test]
fn upstream_tcp_fallback() {
    let question = Question::new("x.com", QueryType::A, None);
    let packet = build_upstream_query(&question, 77, true);
    assert_eq!(packet, {
        let mut p = get_query_dns_packet(Some(77), true);
        p.questions.push(question.clone());
        p.header.question_count = 1;
        p
    });
    assert!(packet.header.recursion_desired && packet.header.z[1]);
    assert_eq!(packet.additionals[0].ttl, 0x8000);
    assert_eq!(build_upstream_query(&question, 77, false).additionals[0].ttl, 0);
    let mut buf = ByteBuf::new_empty(None);
    let len = packet.encode_to_buf(&mut buf, None).unwrap();
    assert!(len < 512);
    // UDP is tried first
    let transport = choose_transport(len, false);
    assert_eq!(transport, Transport::Udp);
    let mut truncated = DnsPacket::new();
    truncated.header.truncation = true;
    let verdict = judge_response(&truncated, transport);
    assert_eq!(verdict, Verdict::RetryOverTcp);
    assert_eq!(verdict_error(verdict), None);
    // The retry goes over TCP, to the same upstream
    let transport = choose_transport(len, true);
    assert_eq!(transport, Transport::Tcp);
    let whole = DnsPacket::new();
    assert_eq!(judge_response(&whole, transport), Verdict::Accept);
    // Cut short over TCP there is no further retry
    let verdict = judge_response(&truncated, transport);
    assert_eq!(verdict, Verdict::Fail);
    assert_eq!(verdict_error(verdict), Some(DnsError::UpstreamTruncation));
    assert_eq!(choose_transport(512, false), Transport::Udp);
    assert_eq!(choose_transport(513, false), Transport::Tcp);
    assert_eq!(frame_tcp(&[9, 8, 7]), Ok(vec![0, 3, 9, 8, 7]));
    assert_eq!(frame_tcp(&vec![0; 65536]), Err(DnsError::DataTooLong));
    assert_eq!(frame_tcp(&vec![1; 0x0102]).unwrap()[..3], [1, 2, 1]);
    assert_eq!(framed_length(1, 2), 258);
}

#[test]
fn command_mutates_live_state() {
    let mut denylist = Denylist::new();
    let mut hosts = Hosts::new();
    let mut cache = Cache::default();
    let request = query(8, "foo.test", QueryType::A);
    let (_, source) = resolve(
        &denylist,
        &hosts,
        &mut cache,
        Some(&request),
        Err(DnsError::UpstreamFailure),
        0,
    );
    assert_eq!(source, Some(ResponseSource::Upstream));
    process_command(
        &mut denylist,
        &mut hosts,
        DnsServerCommand::AddNewListEntry(AccessListEntryKind::DenyDomain(hash_domain("foo.test"))),
    )
    .unwrap();
    let (response, source) = resolve(
        &denylist,
        &hosts,
        &mut cache,
        Some(&request),
        Err(DnsError::UpstreamFailure),
        1,
    );
    assert_eq!(source, Some(ResponseSource::Denylist));
    assert_eq!(response.answers[0].resource_data, ResourceData::A { address: [0; 4] });
    process_command(
        &mut denylist,
        &mut hosts,
        DnsServerCommand::RemoveListEntry(AccessListEntryKind::DenyDomain(hash_domain("foo.test"))),
    )
    .unwrap();
    let mut response = DnsPacket::new();
    assert!(!denylist_lookup(&denylist, &request.questions[0], &mut response));
}

#[test]
fn size_limits_of_responses() {
    let mut request = query(9, "x.com", QueryType::A);
    assert_eq!(response_size_limit(true, Some(&request)), None);
    assert_eq!(response_size_limit(false, None), Some(512));
    assert_eq!(response_size_limit(false, Some(&request)), Some(512));
    for (offered, limit) in [(4096, 1232), (1232, 1232), (1231, 1231), (600, 600), (100, 100)] {
        request.additionals = vec![ResourceRecord::new(
            "",
            ResourceData::OPT { options: None },
            None,
            Some(offered),
        )];
        request.edns = Some(0);
        assert_eq!(response_size_limit(false, Some(&request)), Some(limit));
        assert_eq!(response_size_limit(true, Some(&request)), None);
    }
}

#[test]
fn log_entries() {
    let mut response = DnsPacket::new();
    assert_eq!(
        LogEntry::new_from_response(&response, None, 5, None, 1),
        Err(DnsError::MalformedPacket)
    );
    response.questions.push(Question::new("x.com", QueryType::AAAA, None));
    response.header.response_code = ResponseCode::NameError;
    let entry = LogEntry::new_from_response(
        &response,
        Some("10.1.2.3".to_string()),
        17,
        Some(ResponseSource::Cache),
        1700000000,
    )
    .unwrap();
    assert_eq!(
        entry,
        LogEntry {
            id: 0,
            timestamp: 1700000000,
            domain: "x.com".to_string(),
            qtype: 28,
            client: Some("10.1.2.3".to_string()),
            response_code: 3,
            response_delay_ms: 17,
            source: Some(2),
        }
    );
    let codes = [
        (ResponseSource::Denylist, 0),
        (ResponseSource::Allowlist, 1),
        (ResponseSource::Cache, 2),
        (ResponseSource::NoRecurse, 3),
        (ResponseSource::Upstream, 4),
    ];
    for (source, code) in codes {
        assert_eq!(source.code(), code);
    }
    let entry = LogEntry::new_from_response(&response, None, 0, None, 0).unwrap();
    assert_eq!((entry.client, entry.source), (None, None));
}
