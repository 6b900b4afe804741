use vstd::prelude::*;
use vstd::string::StringExecFns;
use crate::buf::ByteBuf;
use crate::buf::u16_at;
use crate::buf::u16_bytes;
use crate::codec::EncCtx;
use crate::codec::EncodeToBuf;
use crate::codec::Encoded;
use crate::codec::EncodedSize;
use crate::codec::FromBuf;
use crate::codec::exceeds;
use crate::codec::over_limit;
use crate::codec::skipped;
use crate::error::DnsError;
use crate::label_cache::LabelCache;
use crate::name::cache_after;
use crate::name::decode_name;
use crate::name::name_bytes;
use crate::name::name_size;
use crate::name::name_wire;
use crate::utils::get_max_encoded_qname_size;

verus! {

/// The class of the Internet.
pub const IN_CLASS: u16 = 1;

/// The type of a query or of a record.
#[derive(Debug, PartialEq, Eq, Clone, Copy, Structural)]
pub enum QueryType {
    UNKNOWN(u16),
    A,
    NS,
    CNAME,
    AAAA,
    OPT,
    ANY,
}

/// The type that the number `value` stands for: the named type where there
/// is one, else `UNKNOWN` with the number.
pub open spec fn query_type_of(value: u16) -> QueryType {
    if value == 1 {
        QueryType::A
    } else if value == 2 {
        QueryType::NS
    } else if value == 5 {
        QueryType::CNAME
    } else if value == 28 {
        QueryType::AAAA
    } else if value == 41 {
        QueryType::OPT
    } else if value == 255 {
        QueryType::ANY
    } else {
        QueryType::UNKNOWN(value)
    }
}

impl QueryType {
    /// The number written for this type.
    pub open spec fn spec_code(self) -> u16 {
        match self {
            QueryType::A => 1,
            QueryType::NS => 2,
            QueryType::CNAME => 5,
            QueryType::AAAA => 28,
            QueryType::OPT => 41,
            QueryType::ANY => 255,
            QueryType::UNKNOWN(qtype) => qtype,
        }
    }

    #[verifier::when_used_as_spec(spec_code)]
    pub fn code(self) -> (r: u16)
        ensures
            r == self.spec_code(),
    {
        match self {
            QueryType::A => 1,
            QueryType::NS => 2,
            QueryType::CNAME => 5,
            QueryType::AAAA => 28,
            QueryType::OPT => 41,
            QueryType::ANY => 255,
            QueryType::UNKNOWN(qtype) => qtype,
        }
    }

    /// The number of a type gives the type back, but for an `UNKNOWN` that
    /// carries the number of a named type.
    pub proof fn lemma_code_round_trip(self)
        requires
            self is UNKNOWN ==> query_type_of(self->0) is UNKNOWN,
        ensures
            query_type_of(self.spec_code()) == self,
    {
    }

    /// A number read as a type and written again is the same number.
    pub proof fn lemma_number_round_trip(value: u16)
        ensures
            query_type_of(value).spec_code() == value,
    {
    }
}

impl From<u16> for QueryType {
    fn from(value: u16) -> (r: QueryType) {
        match value {
            1 => QueryType::A,
            2 => QueryType::NS,
            5 => QueryType::CNAME,
            28 => QueryType::AAAA,
            41 => QueryType::OPT,
            255 => QueryType::ANY,
            _ => QueryType::UNKNOWN(value),
        }
    }
}

impl vstd::std_specs::convert::FromSpecImpl<u16> for QueryType {
    open spec fn obeys_from_spec() -> bool {
        true
    }

    open spec fn from_spec(value: u16) -> QueryType {
        query_type_of(value)
    }
}

impl From<QueryType> for u16 {
    fn from(val: QueryType) -> (r: u16) {
        val.code()
    }
}

impl vstd::std_specs::convert::FromSpecImpl<QueryType> for u16 {
    open spec fn obeys_from_spec() -> bool {
        true
    }

    open spec fn from_spec(val: QueryType) -> u16 {
        val.spec_code()
    }
}

/// One entry of the question section.
#[derive(Debug, PartialEq, Eq)]
pub struct Question {
    pub qname: String,
    pub query_type: QueryType,
    pub qclass: u16,
}

/// What a [`Question`] holds.
pub struct QuestionView {
    pub qname: Seq<char>,
    pub query_type: QueryType,
    pub qclass: u16,
}

impl View for Question {
    type V = QuestionView;

    open spec fn view(&self) -> QuestionView {
        QuestionView { qname: self.qname@, query_type: self.query_type, qclass: self.qclass }
    }
}

impl Clone for Question {
    fn clone(&self) -> (r: Question)
        ensures
            r@ == self@,
    {
        Question { qname: self.qname.clone(), query_type: self.query_type, qclass: self.qclass }
    }
}

/// The question at `pos` and the offset behind it: a name, a type and a class.
pub open spec fn parse_question(bytes: Seq<u8>, pos: int) -> Option<(QuestionView, int)> {
    match decode_name(bytes, pos) {
        Some((name, next)) => if next + 4 <= bytes.len() {
            Some(
                (
                    QuestionView {
                        qname: name,
                        query_type: query_type_of(u16_at(bytes, next)),
                        qclass: u16_at(bytes, next + 2),
                    },
                    next + 4,
                ),
            )
        } else {
            None
        },
        None => None,
    }
}

/// An upper bound, which for a question is exact, of the size of `q` on
/// the wire.
pub open spec fn question_size_bound(q: QuestionView, cache: Map<Seq<u8>, usize>) -> nat {
    name_size(name_bytes(q.qname), cache) + 4
}

/// What encoding the question `q` in context `ctx` appends, with no limit
/// on its size: name, type, class. The size reported is the one computed
/// in advance.
pub open spec fn question_wire(q: QuestionView, ctx: EncCtx) -> Result<Encoded, DnsError> {
    match name_wire(name_bytes(q.qname), ctx.cache) {
        Some(w) => Ok(
            Encoded {
                bytes: w + u16_bytes(q.query_type.spec_code()) + u16_bytes(q.qclass),
                cache: cache_after(ctx.cache, ctx.recording, name_bytes(q.qname), ctx.start),
                size: question_size_bound(q, ctx.cache),
            },
        ),
        None => Err(DnsError::LabelTooLong),
    }
}

/// What encoding the question `q` in context `ctx` under the limit
/// `max_size` appends: nothing where its size exceeds the limit.
#[verifier::opaque]
pub open spec fn question_encoded(q: QuestionView, ctx: EncCtx, max_size: Option<usize>) -> Result<
    Encoded,
    DnsError,
> {
    if exceeds(question_size_bound(q, ctx.cache), max_size) {
        Ok(skipped(ctx))
    } else {
        question_wire(q, ctx)
    }
}

impl Question {
    /// A question for `qname`, of class IN where `qclass` names no other.
    pub fn new(qname: &str, query_type: QueryType, qclass: Option<u16>) -> (r: Question)
        ensures
            r@ == (QuestionView {
                qname: qname@,
                query_type: query_type,
                qclass: match qclass {
                    Some(c) => c,
                    None => IN_CLASS,
                },
            }),
    {
        Question {
            qname: String::from_str(qname),
            query_type,
            qclass: match qclass {
                Some(c) => c,
                None => IN_CLASS,
            },
        }
    }

    pub fn into_owned(self) -> (r: Question)
        ensures
            r@ == self@,
    {
        self
    }
}

impl FromBuf for Question {
    open spec fn decodable(bytes: Seq<u8>, pos: int) -> bool {
        parse_question(bytes, pos) is Some
    }

    open spec fn decoded(bytes: Seq<u8>, pos: int, value: Question, next: int) -> bool {
        parse_question(bytes, pos) == Some((value@, next))
    }

    fn from_buf(buf: &mut ByteBuf) -> (r: Result<Question, DnsError>) {
        let saved: usize = buf.pos();
        let qname = match buf.read_qname() {
            Ok(n) => n,
            Err(e) => {
                return Err(e);
            },
        };
        let qtype_raw: u16 = match buf.read_u16() {
            Ok(v) => v,
            Err(e) => {
                buf.set_pos(saved);
                return Err(e);
            },
        };
        let class: u16 = match buf.read_u16() {
            Ok(v) => v,
            Err(e) => {
                buf.set_pos(saved);
                return Err(e);
            },
        };
        Ok(Question { qname, query_type: QueryType::from(qtype_raw), qclass: class })
    }
}

impl EncodedSize for Question {
    open spec fn size_bound(&self, cache: Map<Seq<u8>, usize>) -> nat {
        question_size_bound(self@, cache)
    }

    fn get_encoded_size(&self, label_cache: &LabelCache) -> (r: usize) {
        get_max_encoded_qname_size(self.qname.as_str(), label_cache).saturating_add(4)
    }
}

impl EncodeToBuf for Question {
    open spec fn encoded(&self, ctx: EncCtx, max_size: Option<usize>) -> Result<Encoded, DnsError> {
        question_encoded(self@, ctx, max_size)
    }

    open spec fn compresses() -> bool {
        false
    }

    fn encode_to_buf_with_cache(
        &self,
        buf: &mut ByteBuf,
        label_cache: &mut LabelCache,
        max_size: Option<usize>,
    ) -> (r: Result<usize, DnsError>) {
        reveal(question_encoded);
        let encoded_size: usize = self.get_encoded_size(label_cache);
        if over_limit(encoded_size, max_size) {
            assert(buf@.bytes =~= old(buf)@.bytes + Seq::<u8>::empty());
            return Ok(0);
        }
        match buf.write_qname(self.qname.as_str(), label_cache) {
            Ok(_) => {},
            Err(e) => {
                return Err(e);
            },
        }
        let ghost w = name_wire(name_bytes(self.qname@), old(label_cache)@).unwrap();
        let _ = buf.write_u16(self.query_type.code());
        let _ = buf.write_u16(self.qclass);
        assert(buf@.bytes =~= old(buf)@.bytes + (w + u16_bytes(self.query_type.spec_code())
            + u16_bytes(self.qclass)));
        Ok(encoded_size)
    }

    fn encode_to_buf(&self, buf: &mut ByteBuf, max_size: Option<usize>) -> (r: Result<
        usize,
        DnsError,
    >) {
        let mut cache = LabelCache::disabled();
        self.encode_to_buf_with_cache(buf, &mut cache, max_size)
    }
}

} // verus!
