use vstd::prelude::*;
use vstd::string::StringExecFns;
use crate::buf::ByteBuf;
use crate::buf::u16_at;
use crate::buf::patched;
use crate::buf::u16_bytes;
use crate::codec::EncCtx;
use crate::codec::EncodeToBuf;
use crate::codec::Encoded;
use crate::codec::EncodedSize;
use crate::codec::FromBuf;
use crate::codec::clip;
use crate::codec::ctx_of;
use crate::codec::exceeds;
use crate::codec::over_limit;
use crate::codec::skipped;
use crate::error::DnsError;
use crate::label_cache::LabelCache;
use crate::name::cache_after;
use crate::name::decode_name;
use crate::name::name_bytes;
use crate::name::name_size;
use crate::name::name_wire;
use crate::question::IN_CLASS;
use crate::question::QueryType;
use crate::question::query_type_of;
use crate::utils::get_max_encoded_qname_size;

verus! {

/// The largest number a 16-bit length field can hold.
pub const MAX_U16: usize = 0xFFFF;

/// One option of an OPT record: its code and its data.
#[derive(Debug, PartialEq, Eq)]
pub struct EdnsOption {
    pub code: u16,
    pub data: Vec<u8>,
}

impl View for EdnsOption {
    type V = (u16, Seq<u8>);

    open spec fn view(&self) -> (u16, Seq<u8>) {
        (self.code, self.data@)
    }
}

impl Clone for EdnsOption {
    fn clone(&self) -> (r: EdnsOption)
        ensures
            r@ == self@,
    {
        EdnsOption { code: self.code, data: self.data.clone() }
    }
}

/// What the options of an OPT record hold, in their order.
pub open spec fn options_view(options: Seq<EdnsOption>) -> Seq<(u16, Seq<u8>)> {
    Seq::new(options.len(), |i: int| options[i]@)
}

/// No option code occurs twice.
pub open spec fn distinct_codes(options: Seq<(u16, Seq<u8>)>) -> bool {
    forall|i: int, j: int|
        0 <= i < j < options.len() ==> (#[trigger] options[i]).0 != (#[trigger] options[j]).0
}

/// Whether an option with `code` is among `options`.
pub open spec fn has_code(options: Seq<(u16, Seq<u8>)>, code: u16) -> bool {
    exists|i: int| 0 <= i < options.len() && (#[trigger] options[i]).0 == code
}

/// The place of an option with `code` among `options`.
pub open spec fn code_index(options: Seq<(u16, Seq<u8>)>, code: u16) -> int {
    choose|i: int| 0 <= i < options.len() && (#[trigger] options[i]).0 == code
}

/// `options` with the data of `code` set: in place where the code is
/// there, else at the end.
pub open spec fn options_put(options: Seq<(u16, Seq<u8>)>, code: u16, data: Seq<u8>) -> Seq<
    (u16, Seq<u8>),
> {
    if has_code(options, code) {
        options.update(code_index(options, code), (code, data))
    } else {
        options.push((code, data))
    }
}

/// The body of a resource record.
#[derive(Debug, PartialEq, Eq)]
#[allow(inconsistent_fields)]
pub enum ResourceData {
    UNKNOWN { qtype: u16, rdata: Vec<u8> },
    A { address: [u8; 4] },
    NS { ns_domain_name: String },
    CNAME { cname: String },
    AAAA { address: [u8; 16] },
    OPT { options: Option<Vec<EdnsOption>> },
}

/// What a [`ResourceData`] holds.
#[allow(inconsistent_fields)]
pub enum ResourceDataView {
    UNKNOWN { qtype: u16, rdata: Seq<u8> },
    A { address: Seq<u8> },
    NS { ns_domain_name: Seq<char> },
    CNAME { cname: Seq<char> },
    AAAA { address: Seq<u8> },
    OPT { options: Option<Seq<(u16, Seq<u8>)>> },
}

impl View for ResourceData {
    type V = ResourceDataView;

    open spec fn view(&self) -> ResourceDataView {
        match self {
            ResourceData::UNKNOWN { qtype, rdata } => ResourceDataView::UNKNOWN {
                qtype: *qtype,
                rdata: rdata@,
            },
            ResourceData::A { address } => ResourceDataView::A { address: address@ },
            ResourceData::NS { ns_domain_name } => ResourceDataView::NS {
                ns_domain_name: ns_domain_name@,
            },
            ResourceData::CNAME { cname } => ResourceDataView::CNAME { cname: cname@ },
            ResourceData::AAAA { address } => ResourceDataView::AAAA { address: address@ },
            ResourceData::OPT { options } => ResourceDataView::OPT {
                options: match options {
                    Some(o) => Some(options_view(o@)),
                    None => None,
                },
            },
        }
    }
}

impl ResourceDataView {
    /// The type of record that this body belongs to.
    pub open spec fn query_type(self) -> QueryType {
        match self {
            ResourceDataView::UNKNOWN { qtype, .. } => QueryType::UNKNOWN(qtype),
            ResourceDataView::A { .. } => QueryType::A,
            ResourceDataView::NS { .. } => QueryType::NS,
            ResourceDataView::CNAME { .. } => QueryType::CNAME,
            ResourceDataView::AAAA { .. } => QueryType::AAAA,
            ResourceDataView::OPT { .. } => QueryType::OPT,
        }
    }
}

/// Copies a list of options.
pub fn clone_options(options: &Vec<EdnsOption>) -> (r: Vec<EdnsOption>)
    ensures
        options_view(r@) == options_view(options@),
{
    let mut out: Vec<EdnsOption> = Vec::new();
    let mut i: usize = 0;
    while i < options.len()
        invariant
            i <= options@.len(),
            out@.len() == i,
            forall|k: int| 0 <= k < i ==> out@[k]@ == options@[k]@,
        decreases options@.len() - i,
    {
        out.push(options[i].clone());
        i = i + 1;
    }
    assert(options_view(out@) =~= options_view(options@));
    out
}

impl Clone for ResourceData {
    fn clone(&self) -> (r: ResourceData)
        ensures
            r@ == self@,
    {
        match self {
            ResourceData::UNKNOWN { qtype, rdata } => ResourceData::UNKNOWN {
                qtype: *qtype,
                rdata: rdata.clone(),
            },
            ResourceData::A { address } => ResourceData::A { address: *address },
            ResourceData::NS { ns_domain_name } => ResourceData::NS {
                ns_domain_name: ns_domain_name.clone(),
            },
            ResourceData::CNAME { cname } => ResourceData::CNAME { cname: cname.clone() },
            ResourceData::AAAA { address } => ResourceData::AAAA { address: *address },
            ResourceData::OPT { options } => ResourceData::OPT {
                options: match options {
                    Some(o) => Some(clone_options(o)),
                    None => None,
                },
            },
        }
    }
}

impl ResourceData {
    /// The type of record that this body belongs to.
    pub fn get_query_type(&self) -> (r: QueryType)
        ensures
            r == self@.query_type(),
    {
        match self {
            ResourceData::UNKNOWN { qtype, .. } => QueryType::UNKNOWN(*qtype),
            ResourceData::A { .. } => QueryType::A,
            ResourceData::NS { .. } => QueryType::NS,
            ResourceData::CNAME { .. } => QueryType::CNAME,
            ResourceData::AAAA { .. } => QueryType::AAAA,
            ResourceData::OPT { .. } => QueryType::OPT,
        }
    }

    /// Whether this is the body of an OPT record.
    pub fn is_opt(&self) -> (r: bool)
        ensures
            r == (self@ is OPT),
    {
        match self {
            ResourceData::OPT { .. } => true,
            _ => false,
        }
    }
}

/// A resource record. In an OPT record `class` carries the UDP payload
/// size of the sender, and `ttl` the extended response code in its first
/// byte, the EDNS version in its second, and the DO bit on top of its third.
#[derive(Debug, PartialEq, Eq)]
pub struct ResourceRecord {
    pub name: String,
    pub class: u16,
    pub ttl: u32,
    pub resource_data: ResourceData,
}

/// What a [`ResourceRecord`] holds.
pub struct ResourceRecordView {
    pub name: Seq<char>,
    pub class: u16,
    pub ttl: u32,
    pub resource_data: ResourceDataView,
}

impl View for ResourceRecord {
    type V = ResourceRecordView;

    open spec fn view(&self) -> ResourceRecordView {
        ResourceRecordView {
            name: self.name@,
            class: self.class,
            ttl: self.ttl,
            resource_data: self.resource_data@,
        }
    }
}

impl Clone for ResourceRecord {
    fn clone(&self) -> (r: ResourceRecord)
        ensures
            r@ == self@,
    {
        ResourceRecord {
            name: self.name.clone(),
            class: self.class,
            ttl: self.ttl,
            resource_data: self.resource_data.clone(),
        }
    }
}

/// What an OPT record says of its sender.
#[derive(Debug, PartialEq, Eq, Clone, Copy)]
pub struct EdnsData {
    pub udp_payload_size: usize,
    /// The upper bits of the response code, where they are not zero.
    pub extended_rcode: Option<u8>,
    /// Is set to `true` by DNSSEC-aware clients
    pub dnssec_ok_bit: bool,
    pub version: u8,
}

/// The bit of an OPT record's `ttl` that asks for DNSSEC records.
pub const EDNS_DO_BIT: u32 = 0x8000;

/// What the OPT record `rr` says of its sender; nothing for other records.
pub open spec fn edns_data_of(rr: ResourceRecordView) -> Option<EdnsData> {
    if rr.resource_data is OPT {
        Some(
            EdnsData {
                udp_payload_size: rr.class as usize,
                extended_rcode: if rr.ttl / 0x1000000 == 0 {
                    None
                } else {
                    Some((rr.ttl / 0x1000000) as u8)
                },
                dnssec_ok_bit: (rr.ttl / 0x8000) % 2 == 1,
                version: ((rr.ttl / 0x10000) % 256) as u8,
            },
        )
    } else {
        None
    }
}

impl ResourceRecord {
    /// A record for `name`, with a time to live of zero and the class IN
    /// where none is given.
    pub fn new(name: &str, resource_data: ResourceData, ttl: Option<u32>, class: Option<u16>) -> (r:
        ResourceRecord)
        ensures
            r@ == (ResourceRecordView {
                name: name@,
                class: match class {
                    Some(c) => c,
                    None => IN_CLASS,
                },
                ttl: match ttl {
                    Some(t) => t,
                    None => 0,
                },
                resource_data: resource_data@,
            }),
    {
        ResourceRecord {
            name: String::from_str(name),
            ttl: match ttl {
                Some(t) => t,
                None => 0,
            },
            class: match class {
                Some(c) => c,
                None => IN_CLASS,
            },
            resource_data,
        }
    }

    /// What this record says of its sender, if it is an OPT record.
    pub fn get_edns_data(&self) -> (r: Option<EdnsData>)
        ensures
            r == edns_data_of(self@),
    {
        if self.resource_data.is_opt() {
            let ext: u8 = (self.ttl / 0x1000000) as u8;
            Some(
                EdnsData {
                    udp_payload_size: self.class as usize,
                    extended_rcode: if ext == 0 {
                        None
                    } else {
                        Some(ext)
                    },
                    dnssec_ok_bit: (self.ttl / 0x8000) % 2 == 1,
                    version: ((self.ttl / 0x10000) % 256) as u8,
                },
            )
        } else {
            None
        }
    }
}

/// The big-endian 32-bit number held by the four bytes at `pos`.
pub open spec fn u32_at(bytes: Seq<u8>, pos: int) -> u32 {
    (u16_at(bytes, pos) as int * 0x10000 + u16_at(bytes, pos + 2) as int) as u32
}

/// The four bytes of `v`, most significant first.
pub open spec fn u32_bytes(v: u32) -> Seq<u8> {
    u16_bytes((v / 0x10000) as u16) + u16_bytes((v % 0x10000) as u16)
}

/// The options that take up the `remaining` bytes at `pos`, put one after
/// the other into `acc`, and the offset behind them.
pub open spec fn parse_options(
    bytes: Seq<u8>,
    pos: int,
    remaining: int,
    acc: Seq<(u16, Seq<u8>)>,
) -> Option<(Seq<(u16, Seq<u8>)>, int)>
    decreases remaining,
{
    if remaining <= 0 {
        Some((acc, pos))
    } else if pos < 0 || pos + 4 > bytes.len() {
        None
    } else {
        let code = u16_at(bytes, pos);
        let length = u16_at(bytes, pos + 2) as int;
        if 4 + length > remaining || pos + 4 + length > bytes.len() {
            None
        } else {
            parse_options(
                bytes,
                pos + 4 + length,
                remaining - 4 - length,
                options_put(acc, code, bytes.subrange(pos + 4, pos + 4 + length)),
            )
        }
    }
}

/// The body of a record of type `query_type` at `pos`, which starts with
/// its 16-bit length, and the offset behind it.
pub open spec fn parse_rdata(bytes: Seq<u8>, pos: int, query_type: QueryType) -> Option<
    (ResourceDataView, int),
> {
    if pos < 0 || pos + 2 > bytes.len() {
        None
    } else {
        let length = u16_at(bytes, pos) as int;
        let p = pos + 2;
        match query_type {
            QueryType::UNKNOWN(t) => if p + length <= bytes.len() {
                Some(
                    (
                        ResourceDataView::UNKNOWN { qtype: t, rdata: bytes.subrange(p, p + length) },
                        p + length,
                    ),
                )
            } else {
                None
            },
            QueryType::A => if length == 4 && p + 4 <= bytes.len() {
                Some((ResourceDataView::A { address: bytes.subrange(p, p + 4) }, p + 4))
            } else {
                None
            },
            QueryType::NS => match decode_name(bytes, p) {
                Some((name, next)) => Some((ResourceDataView::NS { ns_domain_name: name }, next)),
                None => None,
            },
            QueryType::CNAME => match decode_name(bytes, p) {
                Some((name, next)) => Some((ResourceDataView::CNAME { cname: name }, next)),
                None => None,
            },
            QueryType::AAAA => if length == 16 && p + 16 <= bytes.len() {
                Some((ResourceDataView::AAAA { address: bytes.subrange(p, p + 16) }, p + 16))
            } else {
                None
            },
            QueryType::OPT => match parse_options(bytes, p, length, Seq::empty()) {
                Some((options, next)) => Some(
                    (
                        ResourceDataView::OPT {
                            options: if length == 0 {
                                None
                            } else {
                                Some(options)
                            },
                        },
                        next,
                    ),
                ),
                None => None,
            },
            QueryType::ANY => None,
        }
    }
}

/// The record at `pos` and the offset behind it: a name, a type, a class,
/// a time to live and a body.
pub open spec fn parse_rr(bytes: Seq<u8>, pos: int) -> Option<(ResourceRecordView, int)> {
    match decode_name(bytes, pos) {
        Some((name, p)) => if p + 8 <= bytes.len() {
            match parse_rdata(bytes, p + 8, query_type_of(u16_at(bytes, p))) {
                Some((rd, next)) => Some(
                    (
                        ResourceRecordView {
                            name: name,
                            class: u16_at(bytes, p + 2),
                            ttl: u32_at(bytes, p + 4),
                            resource_data: rd,
                        },
                        next,
                    ),
                ),
                None => None,
            }
        } else {
            None
        },
        None => None,
    }
}

/// Setting the data of a code keeps the codes distinct.
pub proof fn lemma_put_keeps_distinct(options: Seq<(u16, Seq<u8>)>, code: u16, data: Seq<u8>)
    requires
        distinct_codes(options),
    ensures
        distinct_codes(options_put(options, code, data)),
{
    let after = options_put(options, code, data);
    if has_code(options, code) {
        let at = code_index(options, code);
        assert forall|i: int, j: int| 0 <= i < j < after.len() implies (#[trigger] after[i]).0 != (
        #[trigger] after[j]).0 by {
            assert(after[i].0 == options[i].0);
            assert(after[j].0 == options[j].0);
        }
    } else {
        assert forall|i: int, j: int| 0 <= i < j < after.len() implies (#[trigger] after[i]).0 != (
        #[trigger] after[j]).0 by {
            if j == options.len() {
                assert(after[i] == options[i]);
            } else {
                assert(after[i] == options[i]);
                assert(after[j] == options[j]);
            }
        }
    }
}

/// Sets the data of `code` among `options`: in place where the code is
/// there, else at the end.
pub(crate) fn put_option(options: &mut Vec<EdnsOption>, code: u16, data: Vec<u8>)
    requires
        distinct_codes(options_view(old(options)@)),
    ensures
        distinct_codes(options_view(final(options)@)),
        options_view(final(options)@) == options_put(options_view(old(options)@), code, data@),
{
    let ghost before = options_view(options@);
    proof {
        lemma_put_keeps_distinct(before, code, data@);
    }
    let mut i: usize = 0;
    while i < options.len()
        invariant
            i <= options@.len(),
            options@ == old(options)@,
            before == options_view(options@),
            distinct_codes(before),
            distinct_codes(options_put(before, code, data@)),
            forall|k: int| 0 <= k < i ==> (#[trigger] before[k]).0 != code,
        decreases options@.len() - i,
    {
        if options[i].code == code {
            assert(before[i as int].0 == code);
            assert(has_code(before, code));
            let ghost at = code_index(before, code);
            assert(at == i) by {
                if at < i {
                    assert(before[at].0 != code);
                } else if at > i {
                    assert(before[i as int].0 != before[at].0);
                }
            }
            options[i] = EdnsOption { code, data };
            assert(options_view(options@) =~= options_put(before, code, data@));
            return ;
        }
        i = i + 1;
    }
    assert(!has_code(before, code));
    options.push(EdnsOption { code, data });
    assert(options_view(options@) =~= options_put(before, code, data@));
}

impl ResourceData {
    /// Decodes the body of a record of type `query_type` at the cursor and
    /// moves the cursor behind it. Where none can be decoded the cursor stays.
    pub fn from_buf_with_type(buf: &mut ByteBuf, query_type: QueryType) -> (r: Result<
        ResourceData,
        DnsError,
    >)
        ensures
            final(buf)@.bytes == old(buf)@.bytes,
            match parse_rdata(old(buf)@.bytes, old(buf)@.pos as int, query_type) {
                Some((rd, next)) => r is Ok && r.unwrap()@ == rd && final(buf)@.pos == next,
                None => r is Err && r.unwrap_err() == DnsError::MalformedPacket && final(buf)@.pos
                    == old(buf)@.pos,
            },
    {
        let saved: usize = buf.pos();
        let ghost bytes = buf@.bytes;
        let rd_length: u16 = match buf.read_u16() {
            Ok(v) => v,
            Err(e) => {
                return Err(e);
            },
        };
        match query_type {
            QueryType::UNKNOWN(t) => {
                match buf.read_bytes(rd_length as usize) {
                    Ok(data) => Ok(ResourceData::UNKNOWN { qtype: t, rdata: data }),
                    Err(e) => {
                        buf.set_pos(saved);
                        Err(e)
                    },
                }
            },
            QueryType::A => {
                if rd_length != 4 {
                    buf.set_pos(saved);
                    return Err(DnsError::MalformedPacket);
                }
                match buf.read_bytes(4) {
                    Ok(v) => {
                        let address: [u8; 4] = [v[0], v[1], v[2], v[3]];
                        assert(address@ =~= v@);
                        Ok(ResourceData::A { address })
                    },
                    Err(e) => {
                        buf.set_pos(saved);
                        Err(e)
                    },
                }
            },
            QueryType::NS => {
                match buf.read_qname() {
                    Ok(name) => Ok(ResourceData::NS { ns_domain_name: name }),
                    Err(e) => {
                        buf.set_pos(saved);
                        Err(e)
                    },
                }
            },
            QueryType::CNAME => {
                match buf.read_qname() {
                    Ok(name) => Ok(ResourceData::CNAME { cname: name }),
                    Err(e) => {
                        buf.set_pos(saved);
                        Err(e)
                    },
                }
            },
            QueryType::AAAA => {
                if rd_length != 16 {
                    buf.set_pos(saved);
                    return Err(DnsError::MalformedPacket);
                }
                match buf.read_bytes(16) {
                    Ok(v) => {
                        let address: [u8; 16] = [
                            v[0],
                            v[1],
                            v[2],
                            v[3],
                            v[4],
                            v[5],
                            v[6],
                            v[7],
                            v[8],
                            v[9],
                            v[10],
                            v[11],
                            v[12],
                            v[13],
                            v[14],
                            v[15],
                        ];
                        assert(address@ =~= v@);
                        Ok(ResourceData::AAAA { address })
                    },
                    Err(e) => {
                        buf.set_pos(saved);
                        Err(e)
                    },
                }
            },
            QueryType::OPT => {
                let mut remaining: u16 = rd_length;
                let mut options: Vec<EdnsOption> = Vec::new();
                assert(options_view(options@) =~= Seq::<(u16, Seq<u8>)>::empty());
                while remaining != 0
                    invariant
                        buf@.bytes == bytes,
                        bytes == old(buf)@.bytes,
                        saved == old(buf)@.pos,
                        saved + 2 <= bytes.len(),
                        rd_length == u16_at(bytes, saved as int),
                        query_type == QueryType::OPT,
                        distinct_codes(options_view(options@)),
                        parse_options(bytes, saved + 2, rd_length as int, Seq::empty())
                            == parse_options(
                            bytes,
                            buf@.pos as int,
                            remaining as int,
                            options_view(options@),
                        ),
                    decreases remaining,
                {
                    let code: u16 = match buf.read_u16() {
                        Ok(v) => v,
                        Err(e) => {
                            buf.set_pos(saved);
                            return Err(e);
                        },
                    };
                    let length: u16 = match buf.read_u16() {
                        Ok(v) => v,
                        Err(e) => {
                            buf.set_pos(saved);
                            return Err(e);
                        },
                    };
                    if remaining < 4 || length > remaining - 4 {
                        buf.set_pos(saved);
                        return Err(DnsError::MalformedPacket);
                    }
                    let data = match buf.read_bytes(length as usize) {
                        Ok(v) => v,
                        Err(e) => {
                            buf.set_pos(saved);
                            return Err(e);
                        },
                    };
                    put_option(&mut options, code, data);
                    remaining = remaining - 4 - length;
                }
                if rd_length == 0 {
                    Ok(ResourceData::OPT { options: None })
                } else {
                    Ok(ResourceData::OPT { options: Some(options) })
                }
            },
            QueryType::ANY => {
                buf.set_pos(saved);
                Err(DnsError::MalformedPacket)
            },
        }
    }
}

impl FromBuf for ResourceRecord {
    open spec fn decodable(bytes: Seq<u8>, pos: int) -> bool {
        parse_rr(bytes, pos) is Some
    }

    open spec fn decoded(bytes: Seq<u8>, pos: int, value: ResourceRecord, next: int) -> bool {
        parse_rr(bytes, pos) == Some((value@, next))
    }

    fn from_buf(buf: &mut ByteBuf) -> (r: Result<ResourceRecord, DnsError>) {
        let saved: usize = buf.pos();
        let name = match buf.read_qname() {
            Ok(n) => n,
            Err(e) => {
                return Err(e);
            },
        };
        let ghost p = buf@.pos as int;
        let qtype_raw: u16 = match buf.read_u16() {
            Ok(v) => v,
            Err(e) => {
                buf.set_pos(saved);
                return Err(e);
            },
        };
        let class: u16 = match buf.read_u16() {
            Ok(v) => v,
            Err(e) => {
                buf.set_pos(saved);
                return Err(e);
            },
        };
        let msb: u16 = match buf.read_u16() {
            Ok(v) => v,
            Err(e) => {
                buf.set_pos(saved);
                return Err(e);
            },
        };
        let lsb: u16 = match buf.read_u16() {
            Ok(v) => v,
            Err(e) => {
                buf.set_pos(saved);
                return Err(e);
            },
        };
        let ttl: u32 = (msb as u32) * 0x10000 + (lsb as u32);
        let resource_data = match ResourceData::from_buf_with_type(buf, QueryType::from(qtype_raw)) {
            Ok(rd) => rd,
            Err(e) => {
                buf.set_pos(saved);
                return Err(e);
            },
        };
        Ok(ResourceRecord { name, ttl, resource_data, class })
    }
}

/// One option on the wire: its code, the length of its data, its data.
pub open spec fn option_wire(option: (u16, Seq<u8>)) -> Seq<u8> {
    u16_bytes(option.0) + u16_bytes(option.1.len() as u16) + option.1
}

/// The options on the wire, one after the other.
pub open spec fn options_wire(options: Seq<(u16, Seq<u8>)>) -> Seq<u8>
    decreases options.len(),
{
    if options.len() == 0 {
        Seq::empty()
    } else {
        options_wire(options.drop_last()) + option_wire(options.last())
    }
}

/// The size of the options on the wire.
pub open spec fn options_size(options: Seq<(u16, Seq<u8>)>) -> nat
    decreases options.len(),
{
    if options.len() == 0 {
        0
    } else {
        options_size(options.drop_last()) + 4 + options.last().1.len()
    }
}

/// The data of every option fits its length field.
pub open spec fn options_fit(options: Seq<(u16, Seq<u8>)>) -> bool {
    forall|i: int| 0 <= i < options.len() ==> (#[trigger] options[i]).1.len() <= MAX_U16
}

/// The options of an OPT body, none where it holds none.
pub open spec fn options_of(options: Option<Seq<(u16, Seq<u8>)>>) -> Seq<(u16, Seq<u8>)> {
    match options {
        Some(o) => o,
        None => Seq::empty(),
    }
}

/// An upper bound of the size of the body `rd` on the wire, its length
/// field included; exact but for a name that another name shortens.
pub open spec fn rdata_size_bound(rd: ResourceDataView, cache: Map<Seq<u8>, usize>) -> nat {
    2 + match rd {
        ResourceDataView::UNKNOWN { rdata, .. } => rdata.len(),
        ResourceDataView::A { .. } => 4,
        ResourceDataView::NS { ns_domain_name } => name_size(name_bytes(ns_domain_name), cache),
        ResourceDataView::CNAME { cname } => name_size(name_bytes(cname), cache),
        ResourceDataView::AAAA { .. } => 16,
        ResourceDataView::OPT { options } => options_size(options_of(options)),
    }
}

/// A name as the body of a record: its length on the wire, then the name.
pub open spec fn name_rdata_wire(target: Seq<char>, ctx: EncCtx) -> Result<Encoded, DnsError> {
    match name_wire(name_bytes(target), ctx.cache) {
        Some(w) => if w.len() > MAX_U16 {
            Err(DnsError::DataTooLong)
        } else {
            Ok(
                Encoded {
                    bytes: u16_bytes(w.len() as u16) + w,
                    cache: cache_after(
                        ctx.cache,
                        ctx.recording,
                        name_bytes(target),
                        ctx.start + 2,
                    ),
                    size: 2 + name_size(name_bytes(target), ctx.cache),
                },
            )
        },
        None => Err(DnsError::LabelTooLong),
    }
}

/// What encoding the body `rd` in context `ctx` appends, with no limit on
/// its size: the 16-bit length of the data, then the data. The size
/// reported is the one computed in advance.
pub open spec fn rdata_wire(rd: ResourceDataView, ctx: EncCtx) -> Result<Encoded, DnsError> {
    match rd {
        ResourceDataView::UNKNOWN { rdata, .. } => if rdata.len() > MAX_U16 {
            Err(DnsError::DataTooLong)
        } else {
            Ok(
                Encoded {
                    bytes: u16_bytes(rdata.len() as u16) + rdata,
                    cache: ctx.cache,
                    size: 2 + rdata.len(),
                },
            )
        },
        ResourceDataView::A { address } => Ok(
            Encoded { bytes: u16_bytes(4) + address, cache: ctx.cache, size: 6 },
        ),
        ResourceDataView::NS { ns_domain_name } => name_rdata_wire(ns_domain_name, ctx),
        ResourceDataView::CNAME { cname } => name_rdata_wire(cname, ctx),
        ResourceDataView::AAAA { address } => Ok(
            Encoded { bytes: u16_bytes(16) + address, cache: ctx.cache, size: 18 },
        ),
        ResourceDataView::OPT { options } => {
            let opts = options_of(options);
            if !options_fit(opts) || options_size(opts) > MAX_U16 {
                Err(DnsError::DataTooLong)
            } else {
                Ok(
                    Encoded {
                        bytes: u16_bytes(options_size(opts) as u16) + options_wire(opts),
                        cache: ctx.cache,
                        size: 2 + options_size(opts),
                    },
                )
            }
        },
    }
}

/// An upper bound of the size of the record `rr` on the wire.
pub open spec fn rr_size_bound(rr: ResourceRecordView, cache: Map<Seq<u8>, usize>) -> nat {
    name_size(name_bytes(rr.name), cache) + 8 + rdata_size_bound(rr.resource_data, cache)
}

/// What encoding the body `rd` in context `ctx` under the limit
/// `max_size` appends: nothing where its size exceeds the limit.
pub open spec fn rdata_encoded(rd: ResourceDataView, ctx: EncCtx, max_size: Option<usize>) -> Result<
    Encoded,
    DnsError,
> {
    if exceeds(rdata_size_bound(rd, ctx.cache), max_size) {
        Ok(skipped(ctx))
    } else {
        rdata_wire(rd, ctx)
    }
}

/// What encoding the record `rr` in context `ctx` appends, with no limit
/// on its size: name, type, class, time to live, body. The size reported
/// is the one computed in advance.
pub open spec fn rr_wire(rr: ResourceRecordView, ctx: EncCtx) -> Result<Encoded, DnsError> {
    match name_wire(name_bytes(rr.name), ctx.cache) {
        Some(w) => {
            let head = w + u16_bytes(rr.resource_data.query_type().spec_code()) + u16_bytes(
                rr.class,
            ) + u32_bytes(rr.ttl);
            let ctx1 = EncCtx {
                start: ctx.start + head.len(),
                cache: cache_after(ctx.cache, ctx.recording, name_bytes(rr.name), ctx.start),
                recording: ctx.recording,
            };
            match rdata_wire(rr.resource_data, ctx1) {
                Ok(out) => Ok(
                    Encoded {
                        bytes: head + out.bytes,
                        cache: out.cache,
                        size: rr_size_bound(rr, ctx.cache),
                    },
                ),
                Err(e) => Err(e),
            }
        },
        None => Err(DnsError::LabelTooLong),
    }
}

/// What encoding the record `rr` in context `ctx` under the limit
/// `max_size` appends: nothing where its size exceeds the limit.
#[verifier::opaque]
pub open spec fn rr_encoded(rr: ResourceRecordView, ctx: EncCtx, max_size: Option<usize>) -> Result<
    Encoded,
    DnsError,
> {
    if exceeds(rr_size_bound(rr, ctx.cache), max_size) {
        Ok(skipped(ctx))
    } else {
        rr_wire(rr, ctx)
    }
}

/// The options on the wire take up as many bytes as their size says.
pub proof fn lemma_options_wire_len(options: Seq<(u16, Seq<u8>)>)
    ensures
        options_wire(options).len() == options_size(options),
    decreases options.len(),
{
    if options.len() > 0 {
        lemma_options_wire_len(options.drop_last());
    }
}

/// The size on the wire of a list of options, counted up to the largest `usize`.
pub fn get_options_size(options: &Vec<EdnsOption>) -> (r: usize)
    ensures
        r == clip(options_size(options_view(options@))),
{
    let ghost view = options_view(options@);
    let mut size: usize = 0;
    let mut i: usize = 0;
    assert(view.subrange(0, 0) =~= Seq::<(u16, Seq<u8>)>::empty());
    while i < options.len()
        invariant
            i <= options@.len(),
            view == options_view(options@),
            size == clip(options_size(view.subrange(0, i as int))),
        decreases options@.len() - i,
    {
        assert(view.subrange(0, i + 1).drop_last() =~= view.subrange(0, i as int));
        assert(view.subrange(0, i + 1).last() == options@[i as int]@);
        size = size.saturating_add(4).saturating_add(options[i].data.len());
        i = i + 1;
    }
    assert(view.subrange(0, i as int) =~= view);
    size
}

/// Appends a name as the body of a record: its length on the wire, then
/// the name.
fn write_name_rdata(target: &str, buf: &mut ByteBuf, label_cache: &mut LabelCache) -> (r: Result<
    (),
    DnsError,
>)
    requires
        old(label_cache).wf(),
    ensures
        final(label_cache).wf(),
        final(label_cache).is_recording() == old(label_cache).is_recording(),
        final(buf)@.pos == old(buf)@.pos,
        match name_rdata_wire(target@, ctx_of(old(buf)@, old(label_cache))) {
            Ok(out) => r is Ok && final(buf)@.bytes == old(buf)@.bytes + out.bytes && final(label_cache)@ == out.cache,
            Err(e) => r == Err::<(), DnsError>(e) && final(buf)@.bytes == old(buf)@.bytes,
        },
{
    let rdata_pos: usize = buf.len();
    let _ = buf.write_u16(0);
    let written: usize = match buf.write_qname(target, label_cache) {
        Ok(n) => n,
        Err(e) => {
            buf.truncate(rdata_pos);
            assert(buf@.bytes =~= old(buf)@.bytes);
            return Err(e);
        },
    };
    let ghost w = name_wire(name_bytes(target@), old(label_cache)@).unwrap();
    if written > MAX_U16 {
        buf.truncate(rdata_pos);
        assert(buf@.bytes =~= old(buf)@.bytes);
        return Err(DnsError::DataTooLong);
    }
    let ghost stubbed = buf@.bytes;
    assert(stubbed == old(buf)@.bytes + u16_bytes(0) + w);
    proof {
        buf.lemma_len_fits();
    }
    let _ = buf.set_u16(rdata_pos, written as u16);
    assert(buf@.bytes == patched(stubbed, rdata_pos as int, u16_bytes(w.len() as u16)));
    assert(buf@.bytes =~= old(buf)@.bytes + (u16_bytes(w.len() as u16) + w));
    Ok(())
}

/// Appends the options of an OPT body, one after the other.
fn write_options(options: &Vec<EdnsOption>, buf: &mut ByteBuf)
    requires
        options_fit(options_view(options@)),
    ensures
        final(buf)@.pos == old(buf)@.pos,
        final(buf)@.bytes == old(buf)@.bytes + options_wire(options_view(options@)),
{
    let ghost view = options_view(options@);
    let mut i: usize = 0;
    assert(view.subrange(0, 0) =~= Seq::<(u16, Seq<u8>)>::empty());
    assert(buf@.bytes =~= old(buf)@.bytes + Seq::<u8>::empty());
    while i < options.len()
        invariant
            i <= options@.len(),
            view == options_view(options@),
            options_fit(view),
            buf@.pos == old(buf)@.pos,
            buf@.bytes == old(buf)@.bytes + options_wire(view.subrange(0, i as int)),
        decreases options@.len() - i,
    {
        let ghost before = buf@.bytes;
        assert(view.subrange(0, i + 1).drop_last() =~= view.subrange(0, i as int));
        assert(view.subrange(0, i + 1).last() == options@[i as int]@);
        assert(view[i as int].1.len() <= MAX_U16);
        let _ = buf.write_u16(options[i].code);
        let _ = buf.write_u16(options[i].data.len() as u16);
        let _ = buf.write_bytes(options[i].data.as_slice(), None);
        assert(buf@.bytes =~= before + option_wire(options@[i as int]@));
        assert(buf@.bytes =~= old(buf)@.bytes + options_wire(view.subrange(0, i + 1)));
        i = i + 1;
    }
    assert(view.subrange(0, i as int) =~= view);
}

/// Whether the data of every option fits its length field.
fn check_options_fit(options: &Vec<EdnsOption>) -> (r: bool)
    ensures
        r == options_fit(options_view(options@)),
{
    let mut i: usize = 0;
    while i < options.len()
        invariant
            i <= options@.len(),
            forall|k: int| 0 <= k < i ==> (#[trigger] options_view(options@)[k]).1.len() <= MAX_U16,
        decreases options@.len() - i,
    {
        if options[i].data.len() > MAX_U16 {
            assert(options_view(options@)[i as int].1.len() > MAX_U16);
            return false;
        }
        i = i + 1;
    }
    true
}

impl ResourceData {
    /// Appends this body to `buf`, whatever its size.
    pub fn write_to(&self, buf: &mut ByteBuf, label_cache: &mut LabelCache) -> (r: Result<
        (),
        DnsError,
    >)
        requires
            old(label_cache).wf(),
        ensures
            final(label_cache).wf(),
            final(label_cache).is_recording() == old(label_cache).is_recording(),
            final(buf)@.pos == old(buf)@.pos,
            match rdata_wire(self@, ctx_of(old(buf)@, old(label_cache))) {
                Ok(out) => r is Ok && final(buf)@.bytes == old(buf)@.bytes + out.bytes && final(label_cache)@ == out.cache,
                Err(e) => r == Err::<(), DnsError>(e) && final(buf)@.bytes == old(buf)@.bytes,
            },
    {
        match self {
            ResourceData::UNKNOWN { rdata, .. } => {
                if rdata.len() > MAX_U16 {
                    return Err(DnsError::DataTooLong);
                }
                let _ = buf.write_u16(rdata.len() as u16);
                let _ = buf.write_bytes(rdata.as_slice(), None);
                assert(buf@.bytes =~= old(buf)@.bytes + (u16_bytes(rdata@.len() as u16) + rdata@));
                Ok(())
            },
            ResourceData::A { address } => {
                let _ = buf.write_u16(4);
                let _ = buf.write_bytes(address.as_slice(), None);
                assert(buf@.bytes =~= old(buf)@.bytes + (u16_bytes(4) + address@));
                Ok(())
            },
            ResourceData::NS { ns_domain_name } => write_name_rdata(
                ns_domain_name.as_str(),
                buf,
                label_cache,
            ),
            ResourceData::CNAME { cname } => write_name_rdata(cname.as_str(), buf, label_cache),
            ResourceData::AAAA { address } => {
                let _ = buf.write_u16(16);
                let _ = buf.write_bytes(address.as_slice(), None);
                assert(buf@.bytes =~= old(buf)@.bytes + (u16_bytes(16) + address@));
                Ok(())
            },
            ResourceData::OPT { options } => {
                match options {
                    Some(o) => {
                        let size: usize = get_options_size(o);
                        if !check_options_fit(o) || size > MAX_U16 {
                            return Err(DnsError::DataTooLong);
                        }
                        let _ = buf.write_u16(size as u16);
                        write_options(o, buf);
                        assert(buf@.bytes =~= old(buf)@.bytes + (u16_bytes(size as u16)
                            + options_wire(options_view(o@))));
                        Ok(())
                    },
                    None => {
                        let _ = buf.write_u16(0);
                        assert(options_wire(Seq::<(u16, Seq<u8>)>::empty()) =~= Seq::<u8>::empty());
                        assert(buf@.bytes =~= old(buf)@.bytes + (u16_bytes(0) + Seq::<u8>::empty()));
                        Ok(())
                    },
                }
            },
        }
    }
}

impl EncodedSize for ResourceData {
    open spec fn size_bound(&self, cache: Map<Seq<u8>, usize>) -> nat {
        rdata_size_bound(self@, cache)
    }

    fn get_encoded_size(&self, label_cache: &LabelCache) -> (r: usize) {
        let payload: usize = match self {
            ResourceData::UNKNOWN { rdata, .. } => rdata.len(),
            ResourceData::A { .. } => 4,
            ResourceData::NS { ns_domain_name } => get_max_encoded_qname_size(
                ns_domain_name.as_str(),
                label_cache,
            ),
            ResourceData::CNAME { cname } => get_max_encoded_qname_size(cname.as_str(), label_cache),
            ResourceData::AAAA { .. } => 16,
            ResourceData::OPT { options } => match options {
                Some(o) => get_options_size(o),
                None => 0,
            },
        };
        payload.saturating_add(2)
    }
}

impl EncodeToBuf for ResourceData {
    open spec fn encoded(&self, ctx: EncCtx, max_size: Option<usize>) -> Result<Encoded, DnsError> {
        rdata_encoded(self@, ctx, max_size)
    }

    open spec fn compresses() -> bool {
        false
    }

    fn encode_to_buf_with_cache(
        &self,
        buf: &mut ByteBuf,
        label_cache: &mut LabelCache,
        max_size: Option<usize>,
    ) -> (r: Result<usize, DnsError>) {
        let encoded_size: usize = self.get_encoded_size(label_cache);
        if over_limit(encoded_size, max_size) {
            assert(buf@.bytes =~= old(buf)@.bytes + Seq::<u8>::empty());
            return Ok(0);
        }
        match self.write_to(buf, label_cache) {
            Ok(_) => Ok(encoded_size),
            Err(e) => Err(e),
        }
    }

    fn encode_to_buf(&self, buf: &mut ByteBuf, max_size: Option<usize>) -> (r: Result<
        usize,
        DnsError,
    >) {
        let mut cache = LabelCache::disabled();
        self.encode_to_buf_with_cache(buf, &mut cache, max_size)
    }
}

impl EncodedSize for ResourceRecord {
    open spec fn size_bound(&self, cache: Map<Seq<u8>, usize>) -> nat {
        rr_size_bound(self@, cache)
    }

    fn get_encoded_size(&self, label_cache: &LabelCache) -> (r: usize) {
        get_max_encoded_qname_size(self.name.as_str(), label_cache).saturating_add(
            8,
        ).saturating_add(self.resource_data.get_encoded_size(label_cache))
    }
}

impl EncodeToBuf for ResourceRecord {
    open spec fn encoded(&self, ctx: EncCtx, max_size: Option<usize>) -> Result<Encoded, DnsError> {
        rr_encoded(self@, ctx, max_size)
    }

    open spec fn compresses() -> bool {
        false
    }

    fn encode_to_buf_with_cache(
        &self,
        buf: &mut ByteBuf,
        label_cache: &mut LabelCache,
        max_size: Option<usize>,
    ) -> (r: Result<usize, DnsError>) {
        reveal(rr_encoded);
        let encoded_size: usize = self.get_encoded_size(label_cache);
        if over_limit(encoded_size, max_size) {
            assert(buf@.bytes =~= old(buf)@.bytes + Seq::<u8>::empty());
            return Ok(0);
        }
        let start: usize = buf.len();
        match buf.write_qname(self.name.as_str(), label_cache) {
            Ok(_) => {},
            Err(e) => {
                return Err(e);
            },
        }
        let ghost w = name_wire(name_bytes(self.name@), old(label_cache)@).unwrap();
        let _ = buf.write_u16(self.resource_data.get_query_type().code());
        let _ = buf.write_u16(self.class);
        let _ = buf.write_u16((self.ttl / 0x10000) as u16);
        let _ = buf.write_u16((self.ttl % 0x10000) as u16);
        let ghost head = w + u16_bytes(self@.resource_data.query_type().spec_code()) + u16_bytes(
            self.class,
        ) + u32_bytes(self.ttl);
        assert(buf@.bytes =~= old(buf)@.bytes + head);
        match self.resource_data.write_to(buf, label_cache) {
            Ok(_) => {
                let ghost out = rr_wire(self@, ctx_of(old(buf)@, old(label_cache))).unwrap();
                assert(buf@.bytes =~= old(buf)@.bytes + out.bytes);
                Ok(encoded_size)
            },
            Err(e) => {
                buf.truncate(start);
                assert(buf@.bytes =~= old(buf)@.bytes);
                Err(e)
            },
        }
    }

    fn encode_to_buf(&self, buf: &mut ByteBuf, max_size: Option<usize>) -> (r: Result<
        usize,
        DnsError,
    >) {
        let mut cache = LabelCache::disabled();
        self.encode_to_buf_with_cache(buf, &mut cache, max_size)
    }
}

} // verus!
