use vstd::prelude::*;
use crate::header::DnsHeader;
use crate::header::ResponseCode;
use crate::header::default_header;
use crate::packet::DnsPacket;
use crate::packet::DnsPacketView;
use crate::packet::is_opt;
use crate::packet::records_view;
use crate::resource_record::EDNS_DO_BIT;
use crate::resource_record::EdnsData;
use crate::resource_record::EdnsOption;
use crate::resource_record::ResourceData;
use crate::resource_record::ResourceDataView;
use crate::resource_record::ResourceRecord;
use crate::resource_record::ResourceRecordView;
use crate::resource_record::edns_data_of;
use crate::resource_record::options_view;

verus! {

/// Recommended EDNS buffer size
pub const DEFAULT_EDNS_BUF_CAPACITY: usize = 1232;

/// The largest message that fits UDP without EDNS
pub const MAX_STANDARD_DNS_MSG_SIZE: usize = 512;

/// What the OPT record of `p` says of its sender: that of the additional
/// record `edns` names, if it is an OPT record.
pub open spec fn edns_of(p: DnsPacketView) -> Option<EdnsData> {
    match p.edns {
        Some(i) => if i < p.additionals.len() {
            edns_data_of(p.additionals[i as int])
        } else {
            None
        },
        None => None,
    }
}

/// Whether the sender of `p` asks for DNSSEC records.
pub open spec fn wants_dnssec(p: DnsPacketView) -> bool {
    match edns_of(p) {
        Some(data) => data.dnssec_ok_bit,
        None => false,
    }
}

/// An OPT record: the root name, the buffer size as class, the flags as
/// time to live.
pub open spec fn edns_rr_view(
    buf_size: u16,
    options: Option<Seq<(u16, Seq<u8>)>>,
    flags: Option<u32>,
) -> ResourceRecordView {
    ResourceRecordView {
        name: Seq::empty(),
        class: buf_size,
        ttl: match flags {
            Some(f) => f,
            None => 0,
        },
        resource_data: ResourceDataView::OPT { options: options },
    }
}

/// An OPT record that offers a buffer of `buf_size` bytes.
pub fn get_edns_rr(buf_size: u16, options: Option<Vec<EdnsOption>>, flags: Option<u32>) -> (r:
    ResourceRecord)
    ensures
        r@ == edns_rr_view(
            buf_size,
            match options {
                Some(o) => Some(options_view(o@)),
                None => None,
            },
            flags,
        ),
{
    let r = ResourceRecord::new("", ResourceData::OPT { options }, flags, Some(buf_size));
    proof {
        reveal_strlit("");
        assert(r@.name =~= Seq::<char>::empty());
    }
    r
}

impl DnsPacket {
    /// What the OPT record of this message says of its sender.
    pub fn get_edns_data(&self) -> (r: Option<EdnsData>)
        ensures
            r == edns_of(self@),
    {
        match self.edns {
            Some(i) => {
                if i < self.additionals.len() {
                    self.additionals[i].get_edns_data()
                } else {
                    None
                }
            },
            None => None,
        }
    }
}

/// The header of an empty response to `request`: a response that offers
/// recursion, with the id, the RD bit and the CD bit of the request.
pub open spec fn response_header(request: Option<DnsPacketView>, response_code: Option<ResponseCode>) -> DnsHeader {
    let h = default_header();
    DnsHeader {
        id: match request {
            Some(q) => q.header.id,
            None => 0,
        },
        is_response: true,
        recursion_available: true,
        recursion_desired: match request {
            Some(q) => q.header.recursion_desired,
            None => false,
        },
        z: [
            false,
            false,
            match request {
                Some(q) => q.header.z[2],
                None => false,
            },
        ],
        response_code: match response_code {
            Some(c) => c,
            None => ResponseCode::Success,
        },
        additional_rr_count: match request {
            Some(q) => if edns_of(q) is Some {
                1
            } else {
                0
            },
            None => 0,
        },
        ..h
    }
}

/// The empty response to `request`: no question and no record, but an OPT
/// record where the request has one, which repeats its DO bit.
pub open spec fn response_to(request: Option<DnsPacketView>, response_code: Option<ResponseCode>) -> DnsPacketView {
    let with_opt = request is Some && edns_of(request.unwrap()) is Some;
    DnsPacketView {
        header: response_header(request, response_code),
        edns: if with_opt {
            Some(0usize)
        } else {
            None
        },
        questions: Seq::empty(),
        answers: Seq::empty(),
        authorities: Seq::empty(),
        additionals: if with_opt {
            seq![
                edns_rr_view(
                    DEFAULT_EDNS_BUF_CAPACITY as u16,
                    None,
                    if wants_dnssec(request.unwrap()) {
                        Some(EDNS_DO_BIT)
                    } else {
                        None
                    },
                ),
            ]
        } else {
            Seq::empty()
        },
    }
}

/// An empty response to `request_packet`, with `response_code` where one
/// is given.
pub fn get_response_dns_packet(
    request_packet: Option<&DnsPacket>,
    response_code: Option<ResponseCode>,
) -> (r: DnsPacket)
    ensures
        r@ == response_to(
            match request_packet {
                Some(q) => Some(q@),
                None => None,
            },
            response_code,
        ),
{
    let mut packet = DnsPacket::new();
    packet.header.is_response = true;
    packet.header.recursion_available = true;
    match request_packet {
        Some(request) => {
            packet.header.id = request.header.id;
            packet.header.recursion_desired = request.header.recursion_desired;
            // CD bit
            packet.header.z[2] = request.header.z[2];
            // Include OPT RR if requestor supports EDNS
            match request.get_edns_data() {
                Some(data) => {
                    let flags: Option<u32> = if data.dnssec_ok_bit {
                        Some(EDNS_DO_BIT)
                    } else {
                        None
                    };
                    packet.additionals.push(
                        get_edns_rr(DEFAULT_EDNS_BUF_CAPACITY as u16, None, flags),
                    );
                    packet.header.additional_rr_count = 1;
                    packet.edns = Some(0);
                },
                None => {},
            }
        },
        None => {},
    }
    match response_code {
        Some(rcode) => {
            packet.header.response_code = rcode;
        },
        None => {},
    }
    proof {
        let want = response_to(
            match request_packet {
                Some(q) => Some(q@),
                None => None,
            },
            response_code,
        );
        assert(packet@.header.z =~= want.header.z);
        assert(packet@.questions =~= want.questions);
        assert(packet@.answers =~= want.answers);
        assert(packet@.authorities =~= want.authorities);
        assert(packet@.additionals =~= want.additionals);
    }
    packet
}

/// The query sent upstream, before its question is added: recursion
/// desired, the AD bit set, and an OPT record with the DO bit where DNSSEC
/// is asked for.
pub open spec fn upstream_query(id: Option<u16>, enable_dnssec: bool) -> DnsPacketView {
    let h = default_header();
    DnsPacketView {
        header: DnsHeader {
            id: match id {
                Some(i) => i,
                None => 0,
            },
            recursion_desired: true,
            z: [false, true, false],
            additional_rr_count: 1,
            ..h
        },
        edns: Some(0usize),
        questions: Seq::empty(),
        answers: Seq::empty(),
        authorities: Seq::empty(),
        additionals: seq![
            edns_rr_view(
                DEFAULT_EDNS_BUF_CAPACITY as u16,
                None,
                if enable_dnssec {
                    Some(EDNS_DO_BIT)
                } else {
                    None
                },
            ),
        ],
    }
}

/// A query for the upstream resolver, without its question.
pub fn get_query_dns_packet(id: Option<u16>, enable_dnssec: bool) -> (r: DnsPacket)
    ensures
        r@ == upstream_query(id, enable_dnssec),
{
    let mut packet = DnsPacket::new();
    packet.header.id = match id {
        Some(i) => i,
        None => 0,
    };
    packet.header.recursion_desired = true;
    // AD bit
    packet.header.z[1] = true;
    // EDNS
    let flags: Option<u32> = if enable_dnssec {
        Some(EDNS_DO_BIT)
    } else {
        None
    };
    packet.additionals.push(get_edns_rr(DEFAULT_EDNS_BUF_CAPACITY as u16, None, flags));
    packet.header.additional_rr_count = 1;
    packet.edns = Some(0);
    proof {
        let want = upstream_query(id, enable_dnssec);
        assert(packet@.header.z =~= want.header.z);
        assert(packet@.questions =~= want.questions);
        assert(packet@.answers =~= want.answers);
        assert(packet@.authorities =~= want.authorities);
        assert(packet@.additionals =~= want.additionals);
    }
    packet
}

/// Whether `qtype` is the number of a record type of DNSSEC: DS, RRSIG,
/// NSEC, DNSKEY or NSEC3.
pub open spec fn dnssec_qtype(qtype: u16) -> bool {
    qtype == 43 || qtype == 46 || qtype == 47 || qtype == 48 || qtype == 50
}

#[verifier::when_used_as_spec(dnssec_qtype)]
pub fn is_dnssec_qtype(qtype: u16) -> (r: bool)
    ensures
        r == dnssec_qtype(qtype),
{
    qtype == 43 || qtype == 46 || qtype == 47 || qtype == 48 || qtype == 50
}

/// The smaller of `acc` and the times to live of the records that are not
/// OPT records.
pub open spec fn min_ttl(records: Seq<ResourceRecordView>, acc: Option<u32>) -> Option<u32>
    decreases records.len(),
{
    if records.len() == 0 {
        acc
    } else {
        let before = min_ttl(records.drop_last(), acc);
        let rr = records.last();
        if is_opt(rr) {
            before
        } else {
            match before {
                Some(m) => Some(
                    if rr.ttl < m {
                        rr.ttl
                    } else {
                        m
                    },
                ),
                None => Some(rr.ttl),
            }
        }
    }
}

/// The smallest time to live among the records of `p` that are not OPT
/// records, if there is such a record.
pub open spec fn minimum_ttl(p: DnsPacketView) -> Option<u32> {
    min_ttl(p.additionals, min_ttl(p.authorities, min_ttl(p.answers, None)))
}

fn section_min_ttl(records: &Vec<ResourceRecord>, acc: Option<u32>) -> (r: Option<u32>)
    ensures
        r == min_ttl(records_view(records@), acc),
{
    let ghost view = records_view(records@);
    let mut out: Option<u32> = acc;
    let mut i: usize = 0;
    assert(view.subrange(0, 0) =~= Seq::<ResourceRecordView>::empty());
    while i < records.len()
        invariant
            i <= records@.len(),
            view == records_view(records@),
            out == min_ttl(view.subrange(0, i as int), acc),
        decreases records@.len() - i,
    {
        assert(view.subrange(0, i + 1).drop_last() =~= view.subrange(0, i as int));
        assert(view.subrange(0, i + 1).last() == records@[i as int]@);
        if !records[i].resource_data.is_opt() {
            let ttl: u32 = records[i].ttl;
            out = match out {
                Some(m) => Some(
                    if ttl < m {
                        ttl
                    } else {
                        m
                    },
                ),
                None => Some(ttl),
            };
        }
        i = i + 1;
    }
    assert(view.subrange(0, i as int) =~= view);
    out
}

pub fn get_minimum_ttl_for_packet(packet: &DnsPacket) -> (r: Option<u32>)
    ensures
        r == minimum_ttl(packet@),
{
    section_min_ttl(
        &packet.additionals,
        section_min_ttl(&packet.authorities, section_min_ttl(&packet.answers, None)),
    )
}

/// For how many seconds a response is cached: a successful one for the
/// smallest time to live of its records, or five minutes if it has none;
/// a refusal or a missing name for a minute; a server failure for half a
/// minute; an unsupported query for five minutes; others not at all.
pub open spec fn caching_duration(p: DnsPacketView) -> u32 {
    match p.header.response_code {
        ResponseCode::Success => match minimum_ttl(p) {
            Some(t) => t,
            None => 300,
        },
        ResponseCode::Refused => 60,
        ResponseCode::NameError => 60,
        ResponseCode::ServerFailure => 30,
        ResponseCode::NotImplemented => 300,
        ResponseCode::FormatError => 0,
        ResponseCode::Unknown => 0,
    }
}

pub fn get_caching_duration_for_packet(packet: &DnsPacket) -> (r: u32)
    ensures
        r == caching_duration(packet@),
{
    match packet.header.response_code {
        // Cache for the lowest TTL from all response RRs OR for 5 minutes
        ResponseCode::Success => match get_minimum_ttl_for_packet(packet) {
            Some(t) => t,
            None => 300,
        },
        ResponseCode::Refused | ResponseCode::NameError => 60,
        ResponseCode::ServerFailure => 30,
        ResponseCode::NotImplemented => 300,
        // Don't cache these responses
        ResponseCode::FormatError | ResponseCode::Unknown => 0,
    }
}

} // verus!
