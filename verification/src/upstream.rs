use vstd::prelude::*;
use crate::error::DnsError;
use crate::header::DnsHeader;
use crate::packet::DnsPacket;
use crate::packet::DnsPacketView;
use crate::packet_util::MAX_STANDARD_DNS_MSG_SIZE;
use crate::packet_util::get_query_dns_packet;
use crate::packet_util::upstream_query;
use crate::question::Question;
use crate::question::QuestionView;
use crate::resource_record::MAX_U16;

verus! {

/// How a query is carried to the upstream resolver.
#[derive(Debug, Clone, Copy, PartialEq, Eq, Structural)]
pub enum Transport {
    Udp,
    Tcp,
}

/// What to do with a response of the upstream resolver.
#[derive(Debug, Clone, Copy, PartialEq, Eq, Structural)]
pub enum Verdict {
    /// The response is the answer.
    Accept,
    /// The response was cut short: ask again over TCP.
    RetryOverTcp,
    /// The response was cut short even over TCP: give up.
    Fail,
}

/// The query for `q` that goes upstream: recursion desired, the AD bit
/// set, the OPT record with the DO bit where DNSSEC is asked for, and the
/// question.
pub open spec fn upstream_query_for(q: QuestionView, id: u16, dnssec: bool) -> DnsPacketView {
    let base = upstream_query(Some(id), dnssec);
    DnsPacketView {
        header: DnsHeader { question_count: 1, ..base.header },
        questions: seq![q],
        ..base
    }
}

/// The query for `question` that goes to the upstream resolver.
pub fn build_upstream_query(question: &Question, id: u16, enable_dnssec: bool) -> (r: DnsPacket)
    ensures
        r@ == upstream_query_for(question@, id, enable_dnssec),
{
    let mut packet = get_query_dns_packet(Some(id), enable_dnssec);
    packet.questions.push(question.clone());
    packet.header.question_count = 1;
    assert(packet@.questions =~= seq![question@]);
    packet
}

/// The transport for a query of `encoded_len` bytes: TCP where it is
/// forced or the query is larger than fits a plain UDP message.
pub open spec fn transport_for(encoded_len: usize, force_tcp: bool) -> Transport {
    if force_tcp || encoded_len > MAX_STANDARD_DNS_MSG_SIZE {
        Transport::Tcp
    } else {
        Transport::Udp
    }
}

pub fn choose_transport(encoded_len: usize, force_tcp: bool) -> (r: Transport)
    ensures
        r == transport_for(encoded_len, force_tcp),
{
    if force_tcp || encoded_len > MAX_STANDARD_DNS_MSG_SIZE {
        Transport::Tcp
    } else {
        Transport::Udp
    }
}

/// What to do with a response that came over `transport`: accept one
/// that is whole; ask again over TCP for one cut short over UDP; give up
/// on one cut short over TCP.
pub open spec fn verdict_for(truncated: bool, transport: Transport) -> Verdict {
    if !truncated {
        Verdict::Accept
    } else if transport == Transport::Udp {
        Verdict::RetryOverTcp
    } else {
        Verdict::Fail
    }
}

pub fn judge_response(response: &DnsPacket, transport: Transport) -> (r: Verdict)
    ensures
        r == verdict_for(response@.header.truncation, transport),
{
    if !response.header.truncation {
        Verdict::Accept
    } else {
        match transport {
            Transport::Udp => Verdict::RetryOverTcp,
            Transport::Tcp => Verdict::Fail,
        }
    }
}

/// The error that a verdict to give up becomes.
pub fn verdict_error(verdict: Verdict) -> (r: Option<DnsError>)
    ensures
        r == if verdict == Verdict::Fail {
            Some(DnsError::UpstreamTruncation)
        } else {
            None
        },
{
    match verdict {
        Verdict::Fail => Some(DnsError::UpstreamTruncation),
        _ => None,
    }
}

/// Asking again after a response cut short over UDP goes over TCP, and
/// there it is not asked a third time.
pub proof fn lemma_one_retry(encoded_len: usize, truncated: bool)
    ensures
        verdict_for(truncated, transport_for(encoded_len, true)) != Verdict::RetryOverTcp,
        transport_for(encoded_len, true) == Transport::Tcp,
{
}

/// A message as it goes over TCP: its length in two bytes, then the message.
pub open spec fn framed(payload: Seq<u8>) -> Seq<u8> {
    crate::buf::u16_bytes(payload.len() as u16) + payload
}

/// Frames a message for TCP. A message too long for the length field is
/// refused.
pub fn frame_tcp(payload: &[u8]) -> (r: Result<Vec<u8>, DnsError>)
    ensures
        match r {
            Ok(v) => payload@.len() <= MAX_U16 && v@ == framed(payload@),
            Err(e) => payload@.len() > MAX_U16 && e == DnsError::DataTooLong,
        },
{
    if payload.len() > MAX_U16 {
        return Err(DnsError::DataTooLong);
    }
    let len: u16 = payload.len() as u16;
    let mut out: Vec<u8> = Vec::new();
    out.push((len / 256) as u8);
    out.push((len % 256) as u8);
    out.extend_from_slice(payload);
    assert(out@ =~= framed(payload@));
    Ok(out)
}

/// The length that the two bytes before a message over TCP announce.
pub fn framed_length(high: u8, low: u8) -> (r: usize)
    ensures
        r == high as usize * 256 + low as usize,
        r == crate::buf::u16_at(seq![high, low], 0),
{
    (high as usize) * 256 + (low as usize)
}

} // verus!
