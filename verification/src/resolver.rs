use vstd::prelude::*;
use crate::denylist::Denylist;
use crate::denylist::denies;
use crate::error::DnsError;
use crate::header::DnsHeader;
use crate::header::ResponseCode;
use crate::hosts::Hosts;
use crate::hosts::bodies_view;
use crate::hosts::hosts_lookup;
use crate::hosts::same_type;
use crate::packet::DnsPacket;
use crate::packet::DnsPacketView;
use crate::packet::at_most_one_opt;
use crate::packet::is_opt;
use crate::packet::questions_view;
use crate::packet::records_view;
use crate::packet_util::DEFAULT_EDNS_BUF_CAPACITY;
use crate::packet_util::MAX_STANDARD_DNS_MSG_SIZE;
use crate::packet_util::edns_of;
use crate::packet_util::get_response_dns_packet;
use crate::packet_util::response_to;
use crate::packet_util::wants_dnssec;
use crate::question::IN_CLASS;
use crate::question::QueryType;
use crate::question::Question;
use crate::question::QuestionView;
use crate::resource_record::ResourceData;
use crate::resource_record::ResourceDataView;
use crate::resource_record::ResourceRecord;
use crate::resource_record::ResourceRecordView;

verus! {

/// The time to live of the records that the lists answer with.
pub const LOCAL_TTL: u32 = 180;

/// Where a response came from.
#[derive(Debug, Clone, Copy, PartialEq, Eq, Structural)]
pub enum ResponseSource {
    Denylist,
    Allowlist,
    Cache,
    NoRecurse,
    Upstream,
}

impl ResponseSource {
    /// The number under which the source is logged.
    pub open spec fn spec_code(self) -> u8 {
        match self {
            ResponseSource::Denylist => 0,
            ResponseSource::Allowlist => 1,
            ResponseSource::Cache => 2,
            ResponseSource::NoRecurse => 3,
            ResponseSource::Upstream => 4,
        }
    }

    #[verifier::when_used_as_spec(spec_code)]
    pub fn code(self) -> (r: u8)
        ensures
            r == self.spec_code(),
    {
        match self {
            ResponseSource::Denylist => 0,
            ResponseSource::Allowlist => 1,
            ResponseSource::Cache => 2,
            ResponseSource::NoRecurse => 3,
            ResponseSource::Upstream => 4,
        }
    }
}

/// A stage of resolving a query that looks something up or asks outside.
#[derive(Debug, Clone, Copy, PartialEq, Eq, Structural)]
pub enum Stage {
    Denylist,
    Allowlist,
    Cache,
    Upstream,
}

/// What to do next with a query: try a stage, or respond.
#[derive(Debug, Clone, Copy, PartialEq, Eq, Structural)]
pub enum Next {
    Try(Stage),
    /// Encode and send the response as it stands; `cache_response` says
    /// whether it goes into the cache afterwards.
    Respond { source: Option<ResponseSource>, cache_response: bool },
}

/// Whether a request can be resolved: it was decoded, its header counts
/// one question, and it holds one.
pub open spec fn resolvable(request: Option<DnsPacketView>) -> bool {
    match request {
        Some(q) => q.header.question_count == 1 && q.questions.len() == 1,
        None => false,
    }
}

/// Whether the request can be resolved.
pub fn is_resolvable(request: Option<&DnsPacket>) -> (r: bool)
    ensures
        r == resolvable(
            match request {
                Some(q) => Some(q@),
                None => None,
            },
        ),
{
    match request {
        Some(q) => q.header.question_count == 1 && q.questions.len() == 1,
        None => false,
    }
}

/// What comes first: a request that cannot be resolved is answered at
/// once, with a format error and from no source; any other goes to the
/// denylist.
pub open spec fn first_step(valid: bool) -> Next {
    if valid {
        Next::Try(Stage::Denylist)
    } else {
        Next::Respond { source: None, cache_response: false }
    }
}

/// What comes after `stage`: a hit is answered from the stage; after a
/// miss the next stage is tried, in the order denylist, allowlist, cache,
/// upstream, but a query that does not ask for recursion is answered
/// empty after the allowlist. What the upstream stage yields is the
/// response in any case, and the only one that is cached.
pub open spec fn step_after(stage: Stage, hit: bool, recursion_desired: bool) -> Next {
    match stage {
        Stage::Denylist => if hit {
            Next::Respond { source: Some(ResponseSource::Denylist), cache_response: false }
        } else {
            Next::Try(Stage::Allowlist)
        },
        Stage::Allowlist => if hit {
            Next::Respond { source: Some(ResponseSource::Allowlist), cache_response: false }
        } else if !recursion_desired {
            Next::Respond { source: Some(ResponseSource::NoRecurse), cache_response: false }
        } else {
            Next::Try(Stage::Cache)
        },
        Stage::Cache => if hit {
            Next::Respond { source: Some(ResponseSource::Cache), cache_response: false }
        } else {
            Next::Try(Stage::Upstream)
        },
        Stage::Upstream => Next::Respond {
            source: Some(ResponseSource::Upstream),
            cache_response: true,
        },
    }
}

/// What to do first with a request.
pub fn first_stage(valid: bool) -> (r: Next)
    ensures
        r == first_step(valid),
{
    if valid {
        Next::Try(Stage::Denylist)
    } else {
        Next::Respond { source: None, cache_response: false }
    }
}

/// What to do after `stage` has hit or missed.
pub fn after_stage(stage: Stage, hit: bool, recursion_desired: bool) -> (r: Next)
    ensures
        r == step_after(stage, hit, recursion_desired),
{
    match stage {
        Stage::Denylist => if hit {
            Next::Respond { source: Some(ResponseSource::Denylist), cache_response: false }
        } else {
            Next::Try(Stage::Allowlist)
        },
        Stage::Allowlist => if hit {
            Next::Respond { source: Some(ResponseSource::Allowlist), cache_response: false }
        } else if !recursion_desired {
            Next::Respond { source: Some(ResponseSource::NoRecurse), cache_response: false }
        } else {
            Next::Try(Stage::Cache)
        },
        Stage::Cache => if hit {
            Next::Respond { source: Some(ResponseSource::Cache), cache_response: false }
        } else {
            Next::Try(Stage::Upstream)
        },
        Stage::Upstream => Next::Respond {
            source: Some(ResponseSource::Upstream),
            cache_response: true,
        },
    }
}

/// The response that resolving a request starts from, and what to do
/// first: the empty response to the request; for a request that cannot be
/// resolved it says so with a format error and is sent as it stands.
pub open spec fn opening(request: Option<DnsPacketView>) -> (DnsPacketView, Next) {
    if resolvable(request) {
        (response_to(request, None), first_step(true))
    } else {
        (response_to(request, Some(ResponseCode::FormatError)), first_step(false))
    }
}

/// Starts resolving a request: gives the response to fill in and what to
/// do first. A request that was not decoded, or that does not hold
/// exactly one question, is refused with a format error, and no list,
/// cache or upstream resolver is asked.
pub fn begin_response(request: Option<&DnsPacket>) -> (r: (DnsPacket, Next))
    ensures
        r.0@ == opening(
            match request {
                Some(q) => Some(q@),
                None => None,
            },
        ).0,
        r.1 == opening(
            match request {
                Some(q) => Some(q@),
                None => None,
            },
        ).1,
{
    if is_resolvable(request) {
        (get_response_dns_packet(request, None), first_stage(true))
    } else {
        (get_response_dns_packet(request, Some(ResponseCode::FormatError)), first_stage(false))
    }
}

/// A request that cannot be resolved is answered with a format error and
/// without answers, from no source, and its response is not cached.
pub proof fn lemma_refused_request(request: Option<DnsPacketView>)
    requires
        !resolvable(request),
    ensures
        opening(request).0.header.response_code == ResponseCode::FormatError,
        opening(request).0.header.is_response,
        opening(request).0.answers.len() == 0,
        opening(request).1 == (Next::Respond { source: None, cache_response: false }),
{
}

/// A response goes into the cache only if it comes from upstream.
pub proof fn lemma_only_upstream_is_cached(stage: Stage, hit: bool, recursion_desired: bool)
    ensures
        first_step(false) == (Next::Respond { source: None, cache_response: false }),
        first_step(true) is Try,
        match step_after(stage, hit, recursion_desired) {
            Next::Respond { source, cache_response } => cache_response <==> source == Some(
                ResponseSource::Upstream,
            ),
            Next::Try(_) => true,
        },
{
}

/// The record that a list answers with: the name of the question, the
/// class IN, and a time to live of three minutes.
pub open spec fn local_record(name: Seq<char>, rd: ResourceDataView) -> ResourceRecordView {
    ResourceRecordView { name: name, class: IN_CLASS, ttl: LOCAL_TTL, resource_data: rd }
}

/// What a denied name is answered with: the unspecified IPv4 address to a
/// query for A or ANY, the unspecified IPv6 address to a query for AAAA,
/// nothing to others.
pub open spec fn denial_answers(q: QuestionView) -> Seq<ResourceRecordView> {
    match q.query_type {
        QueryType::A => seq![
            local_record(q.qname, ResourceDataView::A { address: seq![0u8, 0u8, 0u8, 0u8] }),
        ],
        QueryType::ANY => seq![
            local_record(q.qname, ResourceDataView::A { address: seq![0u8, 0u8, 0u8, 0u8] }),
        ],
        QueryType::AAAA => seq![
            local_record(q.qname, ResourceDataView::AAAA { address: Seq::new(16, |i: int| 0u8) }),
        ],
        _ => Seq::empty(),
    }
}

/// `p` as an authoritative response with `answers` behind its answers.
pub open spec fn answered(p: DnsPacketView, answers: Seq<ResourceRecordView>) -> DnsPacketView {
    DnsPacketView {
        header: DnsHeader {
            is_authoritative: true,
            answer_rr_count: crate::cache::count_plus(p.header.answer_rr_count, answers.len()),
            ..p.header
        },
        answers: p.answers + answers,
        ..p
    }
}

/// Looks the name of `question` up in the denylist. A denied name is
/// answered with authority: with the unspecified address of the family
/// asked for, or with nothing where no address is asked for.
pub fn denylist_lookup(denylist: &Denylist, question: &Question, response_packet: &mut DnsPacket) -> (r:
    bool)
    ensures
        r == denies(denylist@.keys, denylist@.regexes, question@.qname),
        final(response_packet)@ == if r {
            answered(old(response_packet)@, denial_answers(question@))
        } else {
            old(response_packet)@
        },
{
    let is_in_denylist: bool = denylist.contains_entry(question.qname.as_str());
    if is_in_denylist {
        response_packet.header.is_authoritative = true;
        let rdata: Option<ResourceData> = match question.query_type {
            // Send only A records to ANY queries if blacklisted
            QueryType::A | QueryType::ANY => Some(ResourceData::A { address: [0u8, 0u8, 0u8, 0u8] }),
            QueryType::AAAA => Some(ResourceData::AAAA { address: [0u8; 16] }),
            // Return an empty response for all other query types
            _ => None,
        };
        let ghost before = records_view(response_packet.answers@);
        match rdata {
            Some(rdata) => {
                proof {
                    match rdata {
                        ResourceData::A { address } => {
                            assert(address@ =~= seq![0u8, 0u8, 0u8, 0u8]);
                        },
                        ResourceData::AAAA { address } => {
                            assert(address@ =~= Seq::new(16, |i: int| 0u8));
                        },
                        _ => {},
                    }
                }
                let rr = ResourceRecord::new(
                    question.qname.as_str(),
                    rdata,
                    Some(LOCAL_TTL),
                    None,
                );
                response_packet.answers.push(rr);
                response_packet.header.answer_rr_count = bump(
                    response_packet.header.answer_rr_count,
                );
                assert(records_view(response_packet.answers@) =~= before + denial_answers(
                    question@,
                ));
            },
            None => {
                assert(records_view(response_packet.answers@) =~= before + denial_answers(
                    question@,
                ));
            },
        }
    }
    is_in_denylist
}

/// `count` and one more, but not more than a count can hold.
fn bump(count: u16) -> (r: u16)
    ensures
        r == crate::cache::count_plus(count, 1),
{
    if count == 0xFFFF {
        count
    } else {
        count + 1
    }
}

/// Whether a stored record body answers a query of type `query_type`: any
/// body answers ANY, else the types must agree.
pub open spec fn answers_type(rd: ResourceDataView, query_type: QueryType) -> bool {
    query_type == QueryType::ANY || rd.query_type() == query_type
}

/// Of `bodies`, those that answer a query of type `query_type`, each as a
/// record for `name`.
pub open spec fn local_answers(bodies: Seq<ResourceDataView>, name: Seq<char>, query_type: QueryType) -> Seq<
    ResourceRecordView,
>
    decreases bodies.len(),
{
    if bodies.len() == 0 {
        Seq::empty()
    } else if answers_type(bodies.last(), query_type) {
        local_answers(bodies.drop_last(), name, query_type).push(local_record(name, bodies.last()))
    } else {
        local_answers(bodies.drop_last(), name, query_type)
    }
}

/// What the hosts list answers `q` with.
pub open spec fn hosts_answers(hosts: Map<u128, Seq<ResourceDataView>>, q: QuestionView) -> Seq<
    ResourceRecordView,
> {
    match hosts_lookup(hosts, q.qname) {
        Some(bodies) => local_answers(bodies, q.qname, q.query_type),
        None => Seq::empty(),
    }
}

/// Looks the name of `question` up in the hosts list. Where the list
/// holds the name, it is a hit: the response becomes authoritative and
/// gets a record for each body stored that answers the type of the
/// question, which may be none.
pub fn allowlist_lookup(hosts: &Hosts, question: &Question, response_packet: &mut DnsPacket) -> (r:
    bool)
    ensures
        r == (hosts_lookup(hosts@, question@.qname) is Some),
        final(response_packet)@ == if r {
            answered(old(response_packet)@, hosts_answers(hosts@, question@))
        } else {
            old(response_packet)@
        },
{
    match hosts.get_entry(question.qname.as_str()) {
        Some(records) => {
            let ghost bodies = bodies_view(records@);
            let ghost before = records_view(response_packet.answers@);
            response_packet.header.is_authoritative = true;
            let mut i: usize = 0;
            assert(bodies.subrange(0, 0) =~= Seq::<ResourceDataView>::empty());
            assert(records_view(response_packet.answers@) =~= before + local_answers(
                bodies.subrange(0, 0),
                question@.qname,
                question@.query_type,
            ));
            while i < records.len()
                invariant
                    i <= records@.len(),
                    bodies == bodies_view(records@),
                    before == records_view(old(response_packet).answers@),
                    response_packet.questions == old(response_packet).questions,
                    response_packet.authorities == old(response_packet).authorities,
                    response_packet.additionals == old(response_packet).additionals,
                    response_packet.edns == old(response_packet).edns,
                    response_packet.header == (DnsHeader {
                        is_authoritative: true,
                        answer_rr_count: crate::cache::count_plus(
                            old(response_packet).header.answer_rr_count,
                            local_answers(
                                bodies.subrange(0, i as int),
                                question@.qname,
                                question@.query_type,
                            ).len(),
                        ),
                        ..old(response_packet).header
                    }),
                    records_view(response_packet.answers@) == before + local_answers(
                        bodies.subrange(0, i as int),
                        question@.qname,
                        question@.query_type,
                    ),
                decreases records@.len() - i,
            {
                assert(bodies.subrange(0, i + 1).drop_last() =~= bodies.subrange(0, i as int));
                assert(bodies.subrange(0, i + 1).last() == records@[i as int]@);
                let ghost so_far = local_answers(
                    bodies.subrange(0, i as int),
                    question@.qname,
                    question@.query_type,
                );
                let fits: bool = match question.query_type {
                    QueryType::ANY => true,
                    qtype => same_type(records[i].get_query_type(), qtype),
                };
                if fits {
                    let rr = ResourceRecord::new(
                        question.qname.as_str(),
                        records[i].clone(),
                        Some(LOCAL_TTL),
                        None,
                    );
                    let ghost prev = records_view(response_packet.answers@);
                    let ghost added = rr@;
                    response_packet.answers.push(rr);
                    response_packet.header.answer_rr_count = bump(
                        response_packet.header.answer_rr_count,
                    );
                    assert(records_view(response_packet.answers@) =~= prev.push(added));
                    assert(prev.push(added) =~= before + so_far.push(
                        local_record(question@.qname, records@[i as int]@),
                    ));
                }
                i = i + 1;
            }
            assert(bodies.subrange(0, i as int) =~= bodies);
            true
        },
        None => false,
    }
}

/// The additional records of an upstream response that are taken over:
/// all but OPT records.
pub open spec fn taken_over(records: Seq<ResourceRecordView>) -> Seq<ResourceRecordView>
    decreases records.len(),
{
    if records.len() == 0 {
        Seq::empty()
    } else if is_opt(records.last()) {
        taken_over(records.drop_last())
    } else {
        taken_over(records.drop_last()).push(records.last())
    }
}

/// The response `p` after the upstream resolver answered with `up`: its
/// questions, answers and authority records with their counts are those
/// of `up`; the additional records of `up` that are not OPT records stand
/// behind its own; its AD bit is set where that of `up` is.
pub open spec fn merged(p: DnsPacketView, up: DnsPacketView) -> DnsPacketView {
    DnsPacketView {
        header: DnsHeader {
            question_count: up.header.question_count,
            answer_rr_count: up.header.answer_rr_count,
            authority_rr_count: up.header.authority_rr_count,
            additional_rr_count: crate::cache::count_plus(
                p.header.additional_rr_count,
                taken_over(up.additionals).len(),
            ),
            z: [p.header.z[0], p.header.z[1] || up.header.z[1], p.header.z[2]],
            ..p.header
        },
        edns: p.edns,
        questions: up.questions,
        answers: up.answers,
        authorities: up.authorities,
        additionals: p.additionals + taken_over(up.additionals),
    }
}

/// The response `p` after the upstream resolver failed: a server failure.
pub open spec fn failed(p: DnsPacketView) -> DnsPacketView {
    DnsPacketView {
        header: DnsHeader { response_code: ResponseCode::ServerFailure, ..p.header },
        ..p
    }
}

/// Takes what the upstream resolver yielded into the response: its
/// answer, or a server failure where it yielded none.
pub fn apply_upstream(response_packet: &mut DnsPacket, upstream: Result<DnsPacket, DnsError>)
    ensures
        final(response_packet)@ == match upstream {
            Ok(up) => merged(old(response_packet)@, up@),
            Err(_) => failed(old(response_packet)@),
        },
{
    match upstream {
        Ok(up) => {
            let ghost before = response_packet@;
            let ghost from = up@;
            let DnsPacket { header, edns: _, questions, answers, authorities, additionals } = up;
            response_packet.questions = questions;
            response_packet.header.question_count = header.question_count;
            response_packet.answers = answers;
            response_packet.header.answer_rr_count = header.answer_rr_count;
            let ghost mine = records_view(response_packet.additionals@);
            let ghost theirs = records_view(additionals@);
            let mut i: usize = 0;
            assert(theirs.subrange(0, 0) =~= Seq::<ResourceRecordView>::empty());
            assert(records_view(response_packet.additionals@) =~= mine + taken_over(
                theirs.subrange(0, 0),
            ));
            while i < additionals.len()
                invariant
                    i <= additionals@.len(),
                    theirs == records_view(additionals@),
                    mine == before.additionals,
                    response_packet.edns == before.edns,
                    response_packet@.questions == from.questions,
                    response_packet@.answers == from.answers,
                    response_packet@.authorities == before.authorities,
                    response_packet.header == (DnsHeader {
                        question_count: from.header.question_count,
                        answer_rr_count: from.header.answer_rr_count,
                        additional_rr_count: crate::cache::count_plus(
                            before.header.additional_rr_count,
                            taken_over(theirs.subrange(0, i as int)).len(),
                        ),
                        ..before.header
                    }),
                    records_view(response_packet.additionals@) == mine + taken_over(
                        theirs.subrange(0, i as int),
                    ),
                decreases additionals@.len() - i,
            {
                assert(theirs.subrange(0, i + 1).drop_last() =~= theirs.subrange(0, i as int));
                assert(theirs.subrange(0, i + 1).last() == additionals@[i as int]@);
                let ghost so_far = taken_over(theirs.subrange(0, i as int));
                // OPT RR is already present if EDNS is supported by the requestor
                if !additionals[i].resource_data.is_opt() {
                    let ghost prev = records_view(response_packet.additionals@);
                    let copy = additionals[i].clone();
                    let ghost added = copy@;
                    response_packet.additionals.push(copy);
                    response_packet.header.additional_rr_count = bump(
                        response_packet.header.additional_rr_count,
                    );
                    assert(records_view(response_packet.additionals@) =~= prev.push(added));
                    assert(prev.push(added) =~= mine + so_far.push(additionals@[i as int]@));
                }
                i = i + 1;
            }
            assert(theirs.subrange(0, i as int) =~= theirs);
            response_packet.authorities = authorities;
            response_packet.header.authority_rr_count = header.authority_rr_count;
            // AD bit
            if header.z[1] {
                response_packet.header.z[1] = true;
            }
            assert(response_packet@.header.z =~= merged(before, from).header.z);
        },
        Err(_) => {
            response_packet.header.response_code = ResponseCode::ServerFailure;
        },
    }
}

/// The response `p` with the questions of the request, where it has none
/// of its own and a request was decoded.
pub open spec fn with_questions(p: DnsPacketView, request: Option<DnsPacketView>) -> DnsPacketView {
    if p.questions.len() == 0 && request is Some {
        DnsPacketView {
            header: DnsHeader {
                question_count: request.unwrap().header.question_count,
                ..p.header
            },
            questions: request.unwrap().questions,
            ..p
        }
    } else {
        p
    }
}

/// Copies a list of questions.
fn clone_questions(questions: &Vec<Question>) -> (r: Vec<Question>)
    ensures
        questions_view(r@) == questions_view(questions@),
{
    let mut out: Vec<Question> = Vec::new();
    let mut i: usize = 0;
    while i < questions.len()
        invariant
            i <= questions@.len(),
            out@.len() == i,
            forall|k: int| 0 <= k < i ==> out@[k]@ == questions@[k]@,
        decreases questions@.len() - i,
    {
        out.push(questions[i].clone());
        i = i + 1;
    }
    assert(questions_view(out@) =~= questions_view(questions@));
    out
}

/// Adds the questions of the request to a response that has none.
pub fn ensure_questions(response_packet: &mut DnsPacket, request: Option<&DnsPacket>)
    ensures
        final(response_packet)@ == with_questions(
            old(response_packet)@,
            match request {
                Some(q) => Some(q@),
                None => None,
            },
        ),
{
    if response_packet.questions.len() == 0 {
        match request {
            Some(packet) => {
                response_packet.questions = clone_questions(&packet.questions);
                response_packet.header.question_count = packet.header.question_count;
            },
            None => {},
        }
    }
}

/// The limit on the size of a response: none over TCP; over UDP what the
/// requestor offers, up to what this server offers itself, or 512 bytes
/// where the requestor offers nothing.
pub open spec fn size_limit(is_tcp: bool, requestor_size: Option<usize>) -> Option<usize> {
    if is_tcp {
        None
    } else {
        match requestor_size {
            Some(s) => Some(
                if s > DEFAULT_EDNS_BUF_CAPACITY {
                    DEFAULT_EDNS_BUF_CAPACITY
                } else {
                    s
                },
            ),
            None => Some(MAX_STANDARD_DNS_MSG_SIZE),
        }
    }
}

/// The limit on the size of the response to a request.
pub fn response_size_limit(is_tcp: bool, request: Option<&DnsPacket>) -> (r: Option<usize>)
    ensures
        r == size_limit(
            is_tcp,
            match request {
                Some(q) => match edns_of(q@) {
                    Some(data) => Some(data.udp_payload_size),
                    None => None,
                },
                None => None,
            },
        ),
{
    if is_tcp {
        return None;
    }
    let requestor_size: Option<usize> = match request {
        Some(q) => match q.get_edns_data() {
            Some(data) => Some(data.udp_payload_size),
            None => None,
        },
        None => None,
    };
    match requestor_size {
        Some(s) => Some(
            if s > DEFAULT_EDNS_BUF_CAPACITY {
                DEFAULT_EDNS_BUF_CAPACITY
            } else {
                s
            },
        ),
        None => Some(MAX_STANDARD_DNS_MSG_SIZE),
    }
}

/// Whether the sender of the request asks for DNSSEC records.
pub fn dnssec_requested(request: &DnsPacket) -> (r: bool)
    ensures
        r == wants_dnssec(request@),
{
    match request.get_edns_data() {
        Some(data) => data.dnssec_ok_bit,
        None => false,
    }
}

/// None of the records taken over from upstream is an OPT record.
pub proof fn lemma_taken_over_no_opt(records: Seq<ResourceRecordView>)
    ensures
        forall|i: int| 0 <= i < taken_over(records).len() ==> !is_opt(#[trigger] taken_over(records)[i]),
    decreases records.len(),
{
    if records.len() > 0 {
        lemma_taken_over_no_opt(records.drop_last());
        let before = taken_over(records.drop_last());
        let all = taken_over(records);
        assert forall|i: int| 0 <= i < all.len() implies !is_opt(#[trigger] all[i]) by {
            if i < before.len() {
                assert(all[i] == before[i]);
            }
        }
    }
}

/// At most one OPT record ever stands among the additional records of a
/// response: the empty response to a request has at most one, and what
/// the lists and the upstream resolver add to it is no OPT record.
pub proof fn lemma_response_has_single_opt(
    request: Option<DnsPacketView>,
    response_code: Option<ResponseCode>,
    p: DnsPacketView,
    up: DnsPacketView,
    answers: Seq<ResourceRecordView>,
)
    requires
        at_most_one_opt(p.additionals),
    ensures
        at_most_one_opt(response_to(request, response_code).additionals),
        at_most_one_opt(answered(p, answers).additionals),
        at_most_one_opt(merged(p, up).additionals),
        at_most_one_opt(failed(p).additionals),
        at_most_one_opt(with_questions(p, request).additionals),
{
    lemma_taken_over_no_opt(up.additionals);
    crate::cache::lemma_single_opt_kept(p.additionals, taken_over(up.additionals));
}

} // verus!
