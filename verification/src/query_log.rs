use vstd::prelude::*;
use crate::error::DnsError;
use crate::packet::DnsPacket;
use crate::packet::DnsPacketView;
use crate::resolver::ResponseSource;

verus! {

/// One line of the query log.
#[derive(Debug, PartialEq, Eq)]
pub struct LogEntry {
    pub id: u32,
    /// Seconds since the Unix epoch
    pub timestamp: u32,
    pub domain: String,
    pub qtype: u16,
    pub client: Option<String>,
    pub response_code: u8,
    pub response_delay_ms: u32,
    pub source: Option<u8>,
}

/// The query log, as the server writes it.
pub type QueryLog = LogEntry;

/// What a [`LogEntry`] holds.
pub struct LogEntryView {
    pub id: u32,
    pub timestamp: u32,
    pub domain: Seq<char>,
    pub qtype: u16,
    pub client: Option<Seq<char>>,
    pub response_code: u8,
    pub response_delay_ms: u32,
    pub source: Option<u8>,
}

/// What an optional text holds.
pub open spec fn text_view(text: Option<String>) -> Option<Seq<char>> {
    match text {
        Some(t) => Some(t@),
        None => None,
    }
}

impl View for LogEntry {
    type V = LogEntryView;

    open spec fn view(&self) -> LogEntryView {
        LogEntryView {
            id: self.id,
            timestamp: self.timestamp,
            domain: self.domain@,
            qtype: self.qtype,
            client: text_view(self.client),
            response_code: self.response_code,
            response_delay_ms: self.response_delay_ms,
            source: self.source,
        }
    }
}

/// The number under which a source is logged, if there is a source.
pub open spec fn source_code(source: Option<ResponseSource>) -> Option<u8> {
    match source {
        Some(s) => Some(s.spec_code()),
        None => None,
    }
}

/// The log entry for a response: the name and the type of its first
/// question, its response code, and where it came from.
pub open spec fn log_entry_for(
    response: DnsPacketView,
    client: Option<Seq<char>>,
    response_delay_ms: u32,
    source: Option<ResponseSource>,
    timestamp: u32,
) -> LogEntryView {
    LogEntryView {
        id: 0,
        timestamp: timestamp,
        domain: response.questions[0].qname,
        qtype: response.questions[0].query_type.spec_code(),
        client: client,
        response_code: response.header.response_code.spec_code(),
        response_delay_ms: response_delay_ms,
        source: source_code(source),
    }
}

impl LogEntry {
    /// The log entry for a response sent at `timestamp`. A response
    /// without a question has none.
    pub fn new_from_response(
        response: &DnsPacket,
        client: Option<String>,
        response_delay_ms: u32,
        source: Option<ResponseSource>,
        timestamp: u32,
    ) -> (r: Result<LogEntry, DnsError>)
        ensures
            match r {
                Ok(entry) => response@.questions.len() > 0 && entry@ == log_entry_for(
                    response@,
                    text_view(client),
                    response_delay_ms,
                    source,
                    timestamp,
                ),
                Err(e) => response@.questions.len() == 0 && e == DnsError::MalformedPacket,
            },
    {
        if response.questions.len() == 0 {
            return Err(DnsError::MalformedPacket);
        }
        let question = &response.questions[0];
        Ok(
            LogEntry {
                id: 0,
                timestamp,
                domain: question.qname.clone(),
                qtype: question.query_type.code(),
                client,
                response_code: response.header.response_code.code(),
                response_delay_ms,
                source: match source {
                    Some(s) => Some(s.code()),
                    None => None,
                },
            },
        )
    }
}

} // verus!
