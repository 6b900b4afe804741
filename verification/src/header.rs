use vstd::prelude::*;
use crate::buf::ByteBuf;
use crate::buf::u16_at;
use crate::buf::u16_bytes;
use crate::codec::EncCtx;
use crate::codec::EncodeToBuf;
use crate::codec::Encoded;
use crate::codec::EncodedSize;
use crate::codec::FromBuf;
use crate::codec::exceeds;
use crate::codec::skipped;
use crate::error::DnsError;
use crate::label_cache::LabelCache;

verus! {

/// The size of a header on the wire.
pub const HEADER_SIZE: usize = 12;

/// The kind of a query.
#[derive(Debug, PartialEq, Eq, Clone, Copy, Structural)]
pub enum QueryOpcode {
    /// Standard query
    QUERY,
    /// Inverse query
    IQUERY,
    /// Status request
    STATUS,
    /// Opcodes 3 to 15
    UNKNOWN,
}

/// The opcode that the four bits `value` stand for.
pub open spec fn opcode_of(value: u8) -> QueryOpcode {
    if value == 0 {
        QueryOpcode::QUERY
    } else if value == 1 {
        QueryOpcode::IQUERY
    } else if value == 2 {
        QueryOpcode::STATUS
    } else {
        QueryOpcode::UNKNOWN
    }
}

impl QueryOpcode {
    /// The number written for this opcode.
    pub open spec fn spec_code(self) -> u8 {
        match self {
            QueryOpcode::QUERY => 0,
            QueryOpcode::IQUERY => 1,
            QueryOpcode::STATUS => 2,
            QueryOpcode::UNKNOWN => 3,
        }
    }

    #[verifier::when_used_as_spec(spec_code)]
    pub fn code(self) -> (r: u8)
        ensures
            r == self.spec_code(),
    {
        match self {
            QueryOpcode::QUERY => 0,
            QueryOpcode::IQUERY => 1,
            QueryOpcode::STATUS => 2,
            QueryOpcode::UNKNOWN => 3,
        }
    }
}

impl Default for QueryOpcode {
    fn default() -> (r: QueryOpcode)
        ensures
            r == QueryOpcode::QUERY,
    {
        QueryOpcode::QUERY
    }
}

impl From<u8> for QueryOpcode {
    fn from(value: u8) -> (r: QueryOpcode) {
        match value {
            0 => QueryOpcode::QUERY,
            1 => QueryOpcode::IQUERY,
            2 => QueryOpcode::STATUS,
            _ => QueryOpcode::UNKNOWN,
        }
    }
}

impl vstd::std_specs::convert::FromSpecImpl<u8> for QueryOpcode {
    open spec fn obeys_from_spec() -> bool {
        true
    }

    open spec fn from_spec(value: u8) -> QueryOpcode {
        opcode_of(value)
    }
}

/// The status of a response.
#[derive(Debug, PartialEq, Eq, Clone, Copy, Structural)]
pub enum ResponseCode {
    Success,
    /// Server was unable to interpret the query
    FormatError,
    /// Server was unable to process the query due to an internal error
    ServerFailure,
    /// Domain name referenced in the query does not exist
    NameError,
    /// Requested type of query is not supported by the server
    NotImplemented,
    /// Server refuses to complete the specified operation
    Refused,
    /// Codes 6 to 15
    Unknown,
}

/// The response code that the four bits `value` stand for.
pub open spec fn rcode_of(value: u8) -> ResponseCode {
    if value == 0 {
        ResponseCode::Success
    } else if value == 1 {
        ResponseCode::FormatError
    } else if value == 2 {
        ResponseCode::ServerFailure
    } else if value == 3 {
        ResponseCode::NameError
    } else if value == 4 {
        ResponseCode::NotImplemented
    } else if value == 5 {
        ResponseCode::Refused
    } else {
        ResponseCode::Unknown
    }
}

impl ResponseCode {
    /// The number written for this response code.
    pub open spec fn spec_code(self) -> u8 {
        match self {
            ResponseCode::Success => 0,
            ResponseCode::FormatError => 1,
            ResponseCode::ServerFailure => 2,
            ResponseCode::NameError => 3,
            ResponseCode::NotImplemented => 4,
            ResponseCode::Refused => 5,
            ResponseCode::Unknown => 6,
        }
    }

    #[verifier::when_used_as_spec(spec_code)]
    pub fn code(self) -> (r: u8)
        ensures
            r == self.spec_code(),
    {
        match self {
            ResponseCode::Success => 0,
            ResponseCode::FormatError => 1,
            ResponseCode::ServerFailure => 2,
            ResponseCode::NameError => 3,
            ResponseCode::NotImplemented => 4,
            ResponseCode::Refused => 5,
            ResponseCode::Unknown => 6,
        }
    }
}

impl Default for ResponseCode {
    fn default() -> (r: ResponseCode)
        ensures
            r == ResponseCode::Success,
    {
        ResponseCode::Success
    }
}

impl From<u8> for ResponseCode {
    fn from(value: u8) -> (r: ResponseCode) {
        match value {
            0 => ResponseCode::Success,
            1 => ResponseCode::FormatError,
            2 => ResponseCode::ServerFailure,
            3 => ResponseCode::NameError,
            4 => ResponseCode::NotImplemented,
            5 => ResponseCode::Refused,
            _ => ResponseCode::Unknown,
        }
    }
}

impl vstd::std_specs::convert::FromSpecImpl<u8> for ResponseCode {
    open spec fn obeys_from_spec() -> bool {
        true
    }

    open spec fn from_spec(value: u8) -> ResponseCode {
        rcode_of(value)
    }
}

/// The header of a DNS message.
#[derive(Debug, PartialEq, Eq, Clone, Copy)]
pub struct DnsHeader {
    /// Unique ID of this request.
    /// A query and its response **must have the same ID**.
    pub id: u16,
    /// Query/Response
    pub is_response: bool,
    /// Kind of query
    pub opcode: QueryOpcode,
    /// Set by the server. Indicates whether a server is authoritative
    pub is_authoritative: bool,
    /// Is set if the message was shortened to fit its transport
    pub truncation: bool,
    /// Set by the sender. Enables recursive resolution
    pub recursion_desired: bool,
    /// Set by the server. Indicates whether recursion is allowed
    pub recursion_available: bool,
    /// The three bits after RA: reserved, AD, CD
    pub z: [bool; 3],
    /// Set by the server. Indicates status of the response
    pub response_code: ResponseCode,
    /// Number of entries in the *Question* section
    pub question_count: u16,
    /// Number of entries in the *Answer* section
    pub answer_rr_count: u16,
    /// Number of entries in the *Authority* section
    pub authority_rr_count: u16,
    /// Number of entries in the *Additional* section
    pub additional_rr_count: u16,
}

/// One if the flag is set, else zero.
pub open spec fn bit(b: bool) -> int {
    if b {
        1
    } else {
        0
    }
}

/// The first byte of the flags of `h`: QR, the opcode in four bits, AA,
/// TC and RD, from the most significant bit down.
pub open spec fn flags_high(h: DnsHeader) -> int {
    bit(h.is_response) * 128 + h.opcode.spec_code() * 8 + bit(h.is_authoritative) * 4 + bit(
        h.truncation,
    ) * 2 + bit(h.recursion_desired)
}

/// The second byte of the flags of `h`: RA, the three Z bits, and the
/// response code in four bits.
pub open spec fn flags_low(h: DnsHeader) -> int {
    bit(h.recursion_available) * 128 + bit(h.z[0]) * 64 + bit(h.z[1]) * 32 + bit(h.z[2]) * 16
        + h.response_code.spec_code()
}

/// The flags word of `h`: QR in bit 15, the opcode in bits 14 to 11, then
/// AA, TC, RD, RA and the three Z bits, and the response code in bits 3 to 0.
pub open spec fn flags_of(h: DnsHeader) -> u16 {
    (flags_high(h) * 256 + flags_low(h)) as u16
}

/// Whether the bit of weight `weight` (a power of two) is set in `byte`.
pub open spec fn flag_set(byte: int, weight: int) -> bool {
    (byte / weight) % 2 == 1
}

/// The header that an id, a flags word and four counts stand for.
pub open spec fn header_of(
    id: u16,
    flags: u16,
    question_count: u16,
    answer_rr_count: u16,
    authority_rr_count: u16,
    additional_rr_count: u16,
) -> DnsHeader {
    let high = flags as int / 256;
    let low = flags as int % 256;
    DnsHeader {
        id: id,
        is_response: flag_set(high, 128),
        opcode: opcode_of(((high / 8) % 16) as u8),
        is_authoritative: flag_set(high, 4),
        truncation: flag_set(high, 2),
        recursion_desired: flag_set(high, 1),
        recursion_available: flag_set(low, 128),
        z: [flag_set(low, 64), flag_set(low, 32), flag_set(low, 16)],
        response_code: rcode_of((low % 16) as u8),
        question_count: question_count,
        answer_rr_count: answer_rr_count,
        authority_rr_count: authority_rr_count,
        additional_rr_count: additional_rr_count,
    }
}

/// The twelve bytes of `h` on the wire.
pub open spec fn header_wire(h: DnsHeader) -> Seq<u8> {
    u16_bytes(h.id) + u16_bytes(flags_of(h)) + u16_bytes(h.question_count) + u16_bytes(
        h.answer_rr_count,
    ) + u16_bytes(h.authority_rr_count) + u16_bytes(h.additional_rr_count)
}

/// The header that the twelve bytes at `pos` hold, if there are twelve.
pub open spec fn parse_header(bytes: Seq<u8>, pos: int) -> Option<DnsHeader> {
    if 0 <= pos && pos + HEADER_SIZE <= bytes.len() {
        Some(
            header_of(
                u16_at(bytes, pos),
                u16_at(bytes, pos + 2),
                u16_at(bytes, pos + 4),
                u16_at(bytes, pos + 6),
                u16_at(bytes, pos + 8),
                u16_at(bytes, pos + 10),
            ),
        )
    } else {
        None
    }
}

/// The default header: a standard query with id zero, no flag set and all
/// counts zero.
pub open spec fn default_header() -> DnsHeader {
    DnsHeader {
        id: 0,
        is_response: false,
        opcode: QueryOpcode::QUERY,
        is_authoritative: false,
        truncation: false,
        recursion_desired: false,
        recursion_available: false,
        z: [false, false, false],
        response_code: ResponseCode::Success,
        question_count: 0,
        answer_rr_count: 0,
        authority_rr_count: 0,
        additional_rr_count: 0,
    }
}

impl Default for DnsHeader {
    fn default() -> (r: DnsHeader)
        ensures
            r == default_header(),
    {
        let r = DnsHeader {
            id: 0,
            is_response: false,
            opcode: QueryOpcode::QUERY,
            is_authoritative: false,
            truncation: false,
            recursion_desired: false,
            recursion_available: false,
            z: [false, false, false],
            response_code: ResponseCode::Success,
            question_count: 0,
            answer_rr_count: 0,
            authority_rr_count: 0,
            additional_rr_count: 0,
        };
        assert(r.z =~= default_header().z);
        r
    }
}

fn bit_of(b: bool) -> (r: u16)
    ensures
        r == bit(b),
{
    if b {
        1
    } else {
        0
    }
}

impl DnsHeader {
    pub fn new() -> (r: DnsHeader)
        ensures
            r == default_header(),
    {
        DnsHeader::default()
    }

    /// The flags word of this header.
    pub fn get_flags(&self) -> (r: u16)
        ensures
            r == flags_of(*self),
    {
        let high: u16 = self.high_flags();
        let low: u16 = self.low_flags();
        high * 256 + low
    }

    fn high_flags(&self) -> (r: u16)
        ensures
            r == flags_high(*self),
            r < 256,
    {
        let qr: u16 = bit_of(self.is_response);
        let op: u16 = self.opcode.code() as u16;
        let aa: u16 = bit_of(self.is_authoritative);
        let tc: u16 = bit_of(self.truncation);
        let rd: u16 = bit_of(self.recursion_desired);
        assert(qr <= 1 && op <= 3 && aa <= 1 && tc <= 1 && rd <= 1);
        qr * 128 + op * 8 + aa * 4 + tc * 2 + rd
    }

    fn low_flags(&self) -> (r: u16)
        ensures
            r == flags_low(*self),
            r < 256,
    {
        let ra: u16 = bit_of(self.recursion_available);
        let z0: u16 = bit_of(self.z[0]);
        let z1: u16 = bit_of(self.z[1]);
        let z2: u16 = bit_of(self.z[2]);
        let rcode: u16 = self.response_code.code() as u16;
        assert(ra <= 1 && z0 <= 1 && z1 <= 1 && z2 <= 1 && rcode <= 6);
        ra * 128 + z0 * 64 + z1 * 32 + z2 * 16 + rcode
    }

    /// The header that an id, a flags word and four counts stand for.
    pub fn from_parts(
        id: u16,
        flags: u16,
        question_count: u16,
        answer_rr_count: u16,
        authority_rr_count: u16,
        additional_rr_count: u16,
    ) -> (r: DnsHeader)
        ensures
            r == header_of(
                id,
                flags,
                question_count,
                answer_rr_count,
                authority_rr_count,
                additional_rr_count,
            ),
    {
        let high: u16 = flags / 256;
        let low: u16 = flags % 256;
        let r = DnsHeader {
            id,
            is_response: (high / 128) % 2 == 1,
            opcode: QueryOpcode::from(((high / 8) % 16) as u8),
            is_authoritative: (high / 4) % 2 == 1,
            truncation: (high / 2) % 2 == 1,
            recursion_desired: (high / 1) % 2 == 1,
            recursion_available: (low / 128) % 2 == 1,
            z: [(low / 64) % 2 == 1, (low / 32) % 2 == 1, (low / 16) % 2 == 1],
            response_code: ResponseCode::from((low % 16) as u8),
            question_count,
            answer_rr_count,
            authority_rr_count,
            additional_rr_count,
        };
        assert(r.z =~= header_of(
            id,
            flags,
            question_count,
            answer_rr_count,
            authority_rr_count,
            additional_rr_count,
        ).z);
        r
    }
}

proof fn lemma_high_byte(a: int, op: int, b: int, c: int, d: int)
    requires
        0 <= a <= 1,
        0 <= op <= 3,
        0 <= b <= 1,
        0 <= c <= 1,
        0 <= d <= 1,
    ensures
        ({
            let x = a * 128 + op * 8 + b * 4 + c * 2 + d;
            &&& 0 <= x < 256
            &&& (x / 128) % 2 == a
            &&& (x / 8) % 16 == op
            &&& (x / 4) % 2 == b
            &&& (x / 2) % 2 == c
            &&& (x / 1) % 2 == d
        }),
{
}

proof fn lemma_low_byte(a: int, b: int, c: int, d: int, rc: int)
    requires
        0 <= a <= 1,
        0 <= b <= 1,
        0 <= c <= 1,
        0 <= d <= 1,
        0 <= rc <= 6,
    ensures
        ({
            let x = a * 128 + b * 64 + c * 32 + d * 16 + rc;
            &&& 0 <= x < 256
            &&& (x / 128) % 2 == a
            &&& (x / 64) % 2 == b
            &&& (x / 32) % 2 == c
            &&& (x / 16) % 2 == d
            &&& x % 16 == rc
        }),
{
}

/// Header flags survive the wire bit for bit: the header read back from
/// the flags word of a header, with its id and counts, is that header.
pub proof fn lemma_flags_round_trip(h: DnsHeader)
    ensures
        header_of(
            h.id,
            flags_of(h),
            h.question_count,
            h.answer_rr_count,
            h.authority_rr_count,
            h.additional_rr_count,
        ) == h,
{
    let g = header_of(
        h.id,
        flags_of(h),
        h.question_count,
        h.answer_rr_count,
        h.authority_rr_count,
        h.additional_rr_count,
    );
    let high = flags_high(h);
    let low = flags_low(h);
    lemma_high_byte(
        bit(h.is_response),
        h.opcode.spec_code() as int,
        bit(h.is_authoritative),
        bit(h.truncation),
        bit(h.recursion_desired),
    );
    lemma_low_byte(
        bit(h.recursion_available),
        bit(h.z[0]),
        bit(h.z[1]),
        bit(h.z[2]),
        h.response_code.spec_code() as int,
    );
    assert(flags_of(h) as int == high * 256 + low);
    assert(flags_of(h) as int / 256 == high);
    assert(flags_of(h) as int % 256 == low);
    assert(g.z =~= h.z);
}

/// A header written to the wire and read back is the same header.
pub proof fn lemma_header_round_trip(h: DnsHeader, before: Seq<u8>, after: Seq<u8>)
    ensures
        parse_header(before + header_wire(h) + after, before.len() as int) == Some(h),
{
    let bytes = before + header_wire(h) + after;
    let p = before.len() as int;
    lemma_flags_round_trip(h);
    assert(header_wire(h).len() == 12);
    assert forall|k: int| 0 <= k < 12 implies bytes[p + k] == header_wire(h)[k] by {}
    assert(u16_at(bytes, p) == h.id);
    assert(u16_at(bytes, p + 2) == flags_of(h));
    assert(u16_at(bytes, p + 4) == h.question_count);
    assert(u16_at(bytes, p + 6) == h.answer_rr_count);
    assert(u16_at(bytes, p + 8) == h.authority_rr_count);
    assert(u16_at(bytes, p + 10) == h.additional_rr_count);
}

impl FromBuf for DnsHeader {
    open spec fn decodable(bytes: Seq<u8>, pos: int) -> bool {
        parse_header(bytes, pos) is Some
    }

    open spec fn decoded(bytes: Seq<u8>, pos: int, value: DnsHeader, next: int) -> bool {
        parse_header(bytes, pos) == Some(value) && next == pos + HEADER_SIZE
    }

    fn from_buf(buf: &mut ByteBuf) -> (r: Result<DnsHeader, DnsError>) {
        if buf.pos() > buf.len() || buf.len() - buf.pos() < HEADER_SIZE {
            return Err(DnsError::MalformedPacket);
        }
        let id: u16 = buf.read_u16().unwrap();
        let flags: u16 = buf.read_u16().unwrap();
        let question_count: u16 = buf.read_u16().unwrap();
        let answer_rr_count: u16 = buf.read_u16().unwrap();
        let authority_rr_count: u16 = buf.read_u16().unwrap();
        let additional_rr_count: u16 = buf.read_u16().unwrap();
        Ok(
            DnsHeader::from_parts(
                id,
                flags,
                question_count,
                answer_rr_count,
                authority_rr_count,
                additional_rr_count,
            ),
        )
    }
}

impl EncodedSize for DnsHeader {
    open spec fn size_bound(&self, cache: Map<Seq<u8>, usize>) -> nat {
        HEADER_SIZE as nat
    }

    fn get_encoded_size(&self, label_cache: &LabelCache) -> (r: usize) {
        HEADER_SIZE
    }
}

impl EncodeToBuf for DnsHeader {
    open spec fn encoded(&self, ctx: EncCtx, max_size: Option<usize>) -> Result<Encoded, DnsError> {
        if exceeds(HEADER_SIZE as nat, max_size) {
            Ok(skipped(ctx))
        } else {
            Ok(Encoded { bytes: header_wire(*self), cache: ctx.cache, size: HEADER_SIZE as nat })
        }
    }

    open spec fn compresses() -> bool {
        false
    }

    fn encode_to_buf_with_cache(
        &self,
        buf: &mut ByteBuf,
        label_cache: &mut LabelCache,
        max_size: Option<usize>,
    ) -> (r: Result<usize, DnsError>) {
        match max_size {
            Some(m) => {
                if HEADER_SIZE > m {
                    assert(buf@.bytes =~= old(buf)@.bytes + Seq::<u8>::empty());
                    return Ok(0);
                }
            },
            None => {},
        }
        let _ = buf.write_u16(self.id);
        let _ = buf.write_u16(self.get_flags());
        let _ = buf.write_u16(self.question_count);
        let _ = buf.write_u16(self.answer_rr_count);
        let _ = buf.write_u16(self.authority_rr_count);
        let _ = buf.write_u16(self.additional_rr_count);
        assert(buf@.bytes =~= old(buf)@.bytes + header_wire(*self));
        Ok(HEADER_SIZE)
    }

    fn encode_to_buf(&self, buf: &mut ByteBuf, max_size: Option<usize>) -> (r: Result<
        usize,
        DnsError,
    >) {
        let mut cache = LabelCache::disabled();
        self.encode_to_buf_with_cache(buf, &mut cache, max_size)
    }
}

} // verus!
