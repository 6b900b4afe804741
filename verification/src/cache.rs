use std::collections::hash_map::RandomState;
use hashlink::LinkedHashMap;
use vstd::prelude::*;
use crate::buf::u16_bytes;
use crate::error::DnsError;
use crate::hash::digest_key;
use crate::hash::get_dns_query_hash;
use crate::hash::key_of;
use crate::hash::query_fingerprint;
use crate::name::name_bytes;
use crate::packet::DnsPacket;
use crate::packet::DnsPacketView;
use crate::packet::at_most_one_opt;
use crate::packet::has_two_opts;
use crate::packet::is_opt;
use crate::packet::records_view;
use crate::packet_util::caching_duration;
use crate::packet_util::dnssec_qtype;
use crate::packet_util::get_caching_duration_for_packet;
use crate::packet_util::is_dnssec_qtype;
use crate::packet_util::wants_dnssec;
use crate::question::Question;
use crate::question::QuestionView;
use crate::resource_record::ResourceData;
use crate::resource_record::ResourceDataView;
use crate::resource_record::ResourceRecord;
use crate::resource_record::ResourceRecordView;

verus! {

/// `LinkedHashMap` of the hashlink crate: a hash map that keeps its
/// entries in the order in which they were inserted.
#[verifier::external_type_specification]
#[verifier::external_body]
#[verifier::reject_recursive_types(K)]
#[verifier::reject_recursive_types(V)]
#[verifier::reject_recursive_types(S)]
pub struct ExLinkedHashMap<K, V, S>(LinkedHashMap<K, V, S>);

/// The number of entries a cache is laid out for when nothing else is said.
pub const DEFAULT_CACHE_CAPACITY: usize = 1000;

/// The largest number of entries a cache is laid out for in advance.
pub const MAX_INITIAL_CAPACITY: usize = 0x100_0000;

/// Responses that are good for less than this many seconds are not cached.
pub const MIN_CACHING_SECONDS: u32 = 15;

/// What is known of a cached response or record.
#[derive(Debug, PartialEq, Eq, Clone, Copy, Structural)]
pub struct CacheFlags {
    /// The data was authenticated by the upstream resolver.
    pub ad: bool,
    /// The response was asked for with DNSSEC records.
    pub dnssec: bool,
}

/// A cached response: for each section the keys of its records, none
/// where the section held no record to cache.
pub struct CachedQuery {
    pub answers: Option<Vec<u128>>,
    pub authorities: Option<Vec<u128>>,
    pub additionals: Option<Vec<u128>>,
    pub flags: CacheFlags,
    /// When the response was cached, in seconds.
    pub added: u64,
    /// For how many seconds the response is good.
    pub ttd: u32,
}

/// What a [`CachedQuery`] holds.
pub struct CachedQueryView {
    pub answers: Option<Seq<u128>>,
    pub authorities: Option<Seq<u128>>,
    pub additionals: Option<Seq<u128>>,
    pub flags: CacheFlags,
    pub added: u64,
    pub ttd: u32,
}

/// What an optional list of keys holds.
pub open spec fn keys_view(keys: Option<Vec<u128>>) -> Option<Seq<u128>> {
    match keys {
        Some(v) => Some(v@),
        None => None,
    }
}

impl View for CachedQuery {
    type V = CachedQueryView;

    open spec fn view(&self) -> CachedQueryView {
        CachedQueryView {
            answers: keys_view(self.answers),
            authorities: keys_view(self.authorities),
            additionals: keys_view(self.additionals),
            flags: self.flags,
            added: self.added,
            ttd: self.ttd,
        }
    }
}

/// A cached record.
pub struct CachedRecord {
    pub qname: String,
    pub resource_data: ResourceData,
    pub ttl: u32,
    pub class: u16,
    pub flags: CacheFlags,
    /// When the record was cached, in seconds.
    pub added: u64,
}

/// What a [`CachedRecord`] holds.
pub struct CachedRecordView {
    pub qname: Seq<char>,
    pub resource_data: ResourceDataView,
    pub ttl: u32,
    pub class: u16,
    pub flags: CacheFlags,
    pub added: u64,
}

impl View for CachedRecord {
    type V = CachedRecordView;

    open spec fn view(&self) -> CachedRecordView {
        CachedRecordView {
            qname: self.qname@,
            resource_data: self.resource_data@,
            ttl: self.ttl,
            class: self.class,
            flags: self.flags,
            added: self.added,
        }
    }
}

/// The bytes of a record body that go into the key of the record: the
/// data, the address, or the text of the name.
pub open spec fn canonical_rdata(rd: ResourceDataView) -> Seq<u8> {
    match rd {
        ResourceDataView::UNKNOWN { rdata, .. } => rdata,
        ResourceDataView::A { address } => address,
        ResourceDataView::NS { ns_domain_name } => name_bytes(ns_domain_name),
        ResourceDataView::CNAME { cname } => name_bytes(cname),
        ResourceDataView::AAAA { address } => address,
        ResourceDataView::OPT { .. } => Seq::empty(),
    }
}

/// The bytes that identify a record: its name, its type, its class and
/// its body.
pub open spec fn record_fingerprint(name: Seq<char>, rd: ResourceDataView, class: u16) -> Seq<u8> {
    name_bytes(name) + u16_bytes(rd.query_type().spec_code()) + u16_bytes(class) + canonical_rdata(
        rd,
    )
}

/// The key under which the record `rr` is cached.
pub open spec fn record_key(rr: ResourceRecordView) -> u128 {
    key_of(record_fingerprint(rr.name, rr.resource_data, rr.class))
}

/// The seconds gone by at `now` since `added`.
pub open spec fn elapsed(now: u64, added: u64) -> u64 {
    if now >= added {
        (now - added) as u64
    } else {
        0
    }
}

/// What is left of a time to live after `gone` seconds: the difference,
/// but not less than zero.
pub open spec fn ttl_left(ttl: u32, gone: u64) -> u32 {
    if gone >= ttl {
        0
    } else {
        (ttl - gone) as u32
    }
}

/// What the record `rr` is cached as at `now`.
pub open spec fn cached_record_of(rr: ResourceRecordView, ad: bool, now: u64) -> CachedRecordView {
    CachedRecordView {
        qname: rr.name,
        resource_data: rr.resource_data,
        ttl: rr.ttl,
        class: rr.class,
        flags: CacheFlags { ad: ad, dnssec: false },
        added: now,
    }
}

/// The record served at `now` for the cached record `cr`: its time to
/// live is what is left of the stored one.
pub open spec fn served_record(cr: CachedRecordView, now: u64) -> ResourceRecordView {
    ResourceRecordView {
        name: cr.qname,
        class: cr.class,
        ttl: ttl_left(cr.ttl, elapsed(now, cr.added)),
        resource_data: cr.resource_data,
    }
}

/// The seconds gone by at `now` since `added`.
pub fn seconds_since(now: u64, added: u64) -> (r: u64)
    ensures
        r == elapsed(now, added),
{
    if now >= added {
        now - added
    } else {
        0
    }
}

impl CachedRecord {
    /// The record as it is cached at `now`.
    pub fn new(value: ResourceRecord, authenticated_data: bool, now: u64) -> (r: CachedRecord)
        ensures
            r@ == cached_record_of(value@, authenticated_data, now),
    {
        CachedRecord {
            qname: value.name,
            resource_data: value.resource_data,
            ttl: value.ttl,
            class: value.class,
            flags: CacheFlags { ad: authenticated_data, dnssec: false },
            added: now,
        }
    }

    /// The key under which this record is cached. OPT records are not
    /// cached and have none.
    pub fn get_hash(&self) -> (r: u128)
        requires
            !(self@.resource_data is OPT),
        ensures
            r == key_of(record_fingerprint(self@.qname, self@.resource_data, self@.class)),
    {
        let mut all: Vec<u8> = Vec::new();
        all.extend_from_slice(self.qname.as_str().as_bytes());
        let code: u16 = self.resource_data.get_query_type().code();
        all.push((code / 256) as u8);
        all.push((code % 256) as u8);
        all.push((self.class / 256) as u8);
        all.push((self.class % 256) as u8);
        match &self.resource_data {
            ResourceData::UNKNOWN { rdata, .. } => {
                all.extend_from_slice(rdata.as_slice());
            },
            ResourceData::A { address } => {
                all.extend_from_slice(address.as_slice());
            },
            ResourceData::NS { ns_domain_name } => {
                all.extend_from_slice(ns_domain_name.as_str().as_bytes());
            },
            ResourceData::CNAME { cname } => {
                all.extend_from_slice(cname.as_str().as_bytes());
            },
            ResourceData::AAAA { address } => {
                all.extend_from_slice(address.as_slice());
            },
            ResourceData::OPT { .. } => {},
        }
        assert(all@ =~= record_fingerprint(self@.qname, self@.resource_data, self@.class));
        digest_key(all.as_slice())
    }

    /// The record as it is served at `now`.
    pub fn as_rr(&self, now: u64) -> (r: ResourceRecord)
        ensures
            r@ == served_record(self@, now),
    {
        let gone: u64 = seconds_since(now, self.added);
        let ttl: u32 = if gone >= self.ttl as u64 {
            0
        } else {
            self.ttl - gone as u32
        };
        ResourceRecord {
            name: self.qname.clone(),
            class: self.class,
            ttl,
            resource_data: self.resource_data.clone(),
        }
    }
}

/// What the response `p` is cached as at `now`, for `ttd` seconds, before
/// the keys of its records are filled in.
pub open spec fn cached_query_flags(p: DnsPacketView) -> CacheFlags {
    CacheFlags { ad: p.header.z[1], dnssec: wants_dnssec(p) }
}

impl CachedQuery {
    /// A cached response without records: its flags are the AD bit of the
    /// response and the DO bit of its OPT record.
    pub fn new(response_packet: &DnsPacket, ttd: u32, now: u64) -> (r: CachedQuery)
        ensures
            r@ == (CachedQueryView {
                answers: None,
                authorities: None,
                additionals: None,
                flags: cached_query_flags(response_packet@),
                added: now,
                ttd: ttd,
            }),
    {
        let dnssec: bool = match response_packet.get_edns_data() {
            Some(data) => data.dnssec_ok_bit,
            None => false,
        };
        CachedQuery {
            answers: None,
            authorities: None,
            additionals: None,
            flags: CacheFlags { ad: response_packet.header.z[1], dnssec },
            added: now,
            ttd,
        }
    }
}

/// A map of cached responses by the key of their question, in the order
/// in which they were cached.
pub type QueryMap = LinkedHashMap<u128, CachedQuery, RandomState>;

/// A map of cached records by their key, in the order in which they were
/// cached.
pub type RecordMap = LinkedHashMap<u128, CachedRecord, RandomState>;

/// What a map of cached responses holds.
pub uninterp spec fn query_entries(m: QueryMap) -> Map<u128, CachedQuery>;

/// What a map of cached records holds.
pub uninterp spec fn record_entries(m: RecordMap) -> Map<u128, CachedRecord>;

/// `LinkedHashMap::with_capacity_and_hasher` of the hashlink crate, for
/// cached responses: a map that holds nothing. It is asked only for a
/// capacity that the table behind the map can lay out.
#[verifier::external_body]
fn new_query_map(capacity: usize) -> (r: QueryMap)
    requires
        capacity <= MAX_INITIAL_CAPACITY,
    ensures
        forall|k: u128| !query_entries(r).contains_key(k),
{
    LinkedHashMap::with_capacity_and_hasher(capacity, RandomState::new())
}

/// `LinkedHashMap::with_capacity_and_hasher` of the hashlink crate, for
/// cached records: a map that holds nothing. It is asked only for a
/// capacity that the table behind the map can lay out.
#[verifier::external_body]
fn new_record_map(capacity: usize) -> (r: RecordMap)
    requires
        capacity <= MAX_INITIAL_CAPACITY,
    ensures
        forall|k: u128| !record_entries(r).contains_key(k),
{
    LinkedHashMap::with_capacity_and_hasher(capacity, RandomState::new())
}

/// `LinkedHashMap::insert` of the hashlink crate, for cached responses:
/// afterwards the map holds `value` under `key`, and all else as before.
#[verifier::external_body]
fn query_map_insert(
    m: &mut QueryMap,
    key: u128,
    value: CachedQuery,
)
    ensures
        query_entries(*final(m)) == query_entries(*old(m)).insert(key, value),
{
    m.insert(key, value);
}

/// `LinkedHashMap::insert` of the hashlink crate, for cached records:
/// afterwards the map holds `value` under `key`, and all else as before.
#[verifier::external_body]
fn record_map_insert(
    m: &mut RecordMap,
    key: u128,
    value: CachedRecord,
)
    ensures
        record_entries(*final(m)) == record_entries(*old(m)).insert(key, value),
{
    m.insert(key, value);
}

/// `LinkedHashMap::get` of the hashlink crate, for cached responses: what
/// the map holds under `key`, if it holds anything there.
#[verifier::external_body]
fn query_map_get(m: &QueryMap, key: u128) -> (r: Option<
    &CachedQuery,
>)
    ensures
        match r {
            Some(v) => query_entries(*m).contains_key(key) && *v == query_entries(*m)[key],
            None => !query_entries(*m).contains_key(key),
        },
{
    m.get(&key)
}

/// `LinkedHashMap::get` of the hashlink crate, for cached records: what
/// the map holds under `key`, if it holds anything there.
#[verifier::external_body]
fn record_map_get(m: &RecordMap, key: u128) -> (r: Option<
    &CachedRecord,
>)
    ensures
        match r {
            Some(v) => record_entries(*m).contains_key(key) && *v == record_entries(*m)[key],
            None => !record_entries(*m).contains_key(key),
        },
{
    m.get(&key)
}

/// Cached responses by the key of their question, and cached records by
/// the key of the record.
pub struct Cache {
    query_cache: QueryMap,
    rr_cache: RecordMap,
}

/// What a [`Cache`] holds.
pub struct CacheView {
    pub queries: Map<u128, CachedQueryView>,
    pub records: Map<u128, CachedRecordView>,
}

impl View for Cache {
    type V = CacheView;

    closed spec fn view(&self) -> CacheView {
        CacheView {
            queries: Map::new(
                |k: u128| query_entries(self.query_cache).contains_key(k),
                |k: u128| query_entries(self.query_cache)[k]@,
            ),
            records: Map::new(
                |k: u128| record_entries(self.rr_cache).contains_key(k),
                |k: u128| record_entries(self.rr_cache)[k]@,
            ),
        }
    }
}

/// The keys of the records that are not OPT records, in their order.
pub open spec fn keys_of(records: Seq<ResourceRecordView>) -> Seq<u128>
    decreases records.len(),
{
    if records.len() == 0 {
        Seq::empty()
    } else if is_opt(records.last()) {
        keys_of(records.drop_last())
    } else {
        keys_of(records.drop_last()).push(record_key(records.last()))
    }
}

/// The keys of a section as a cached response holds them: none where the
/// section has no record to cache.
pub open spec fn section_keys(records: Seq<ResourceRecordView>) -> Option<Seq<u128>> {
    if keys_of(records).len() == 0 {
        None
    } else {
        Some(keys_of(records))
    }
}

/// `stored` with each of `records` that is not an OPT record put under its
/// key, a later one in place of an earlier one with the same key.
pub open spec fn with_records(
    stored: Map<u128, CachedRecordView>,
    records: Seq<ResourceRecordView>,
    ad: bool,
    now: u64,
) -> Map<u128, CachedRecordView>
    decreases records.len(),
{
    if records.len() == 0 {
        stored
    } else {
        let before = with_records(stored, records.drop_last(), ad, now);
        if is_opt(records.last()) {
            before
        } else {
            before.insert(record_key(records.last()), cached_record_of(records.last(), ad, now))
        }
    }
}

/// What the response `p` is cached as at `now`, for `ttd` seconds.
pub open spec fn cached_query_of(p: DnsPacketView, ttd: u32, now: u64) -> CachedQueryView {
    CachedQueryView {
        answers: section_keys(p.answers),
        authorities: section_keys(p.authorities),
        additionals: section_keys(p.additionals),
        flags: cached_query_flags(p),
        added: now,
        ttd: ttd,
    }
}

/// The cache after the response `p` was cached at `now`: the response
/// under the key of its first question, and its records under their keys.
pub open spec fn cache_with(cache: CacheView, p: DnsPacketView, now: u64) -> CacheView {
    CacheView {
        queries: cache.queries.insert(
            key_of(query_fingerprint(p.questions[0])),
            cached_query_of(p, caching_duration(p), now),
        ),
        records: with_records(
            with_records(
                with_records(cache.records, p.answers, p.header.z[1], now),
                p.authorities,
                p.header.z[1],
                now,
            ),
            p.additionals,
            p.header.z[1],
            now,
        ),
    }
}

/// The records served for the first `upto` of `keys`, or nothing where
/// the section cannot be served: each key must be in `stored`; a record of
/// a DNSSEC type is passed over unless such records are asked for; of the
/// others each must be authenticated where that is required.
pub open spec fn serve_keys(
    stored: Map<u128, CachedRecordView>,
    keys: Seq<u128>,
    upto: int,
    include_dnssec: bool,
    require_ad: bool,
    now: u64,
) -> Option<Seq<ResourceRecordView>>
    decreases upto,
{
    if upto <= 0 {
        Some(Seq::empty())
    } else {
        match serve_keys(stored, keys, upto - 1, include_dnssec, require_ad, now) {
            Some(before) => {
                let key = keys[upto - 1];
                if !stored.contains_key(key) {
                    None
                } else {
                    let cr = stored[key];
                    if !include_dnssec && dnssec_qtype(cr.resource_data.query_type().spec_code()) {
                        Some(before)
                    } else if require_ad && !cr.flags.ad {
                        None
                    } else {
                        Some(before.push(served_record(cr, now)))
                    }
                }
            },
            None => None,
        }
    }
}

/// The records served for a section of a cached response.
pub open spec fn serve_section(
    stored: Map<u128, CachedRecordView>,
    keys: Option<Seq<u128>>,
    include_dnssec: bool,
    require_ad: bool,
    now: u64,
) -> Option<Seq<ResourceRecordView>> {
    match keys {
        Some(k) => serve_keys(stored, k, k.len() as int, include_dnssec, require_ad, now),
        None => Some(Seq::empty()),
    }
}

/// What a cache hit adds to a response.
pub struct CacheHit {
    pub ad: bool,
    pub answers: Seq<ResourceRecordView>,
    pub authorities: Seq<ResourceRecordView>,
    pub additionals: Seq<ResourceRecordView>,
}

/// What the cache serves at `now` for the question `q`: nothing where no
/// response is cached for it, where the response is as old as it may get
/// or older, where DNSSEC is asked for and the response was fetched
/// without, or where a section cannot be served.
pub open spec fn cache_lookup(cache: CacheView, q: QuestionView, dnssec: bool, now: u64) -> Option<
    CacheHit,
> {
    let key = key_of(query_fingerprint(q));
    if !cache.queries.contains_key(key) {
        None
    } else {
        let cq = cache.queries[key];
        if elapsed(now, cq.added) >= cq.ttd {
            None
        } else if dnssec && !cq.flags.dnssec {
            None
        } else {
            let with_dnssec = dnssec || dnssec_qtype(q.query_type.spec_code());
            match serve_section(cache.records, cq.answers, with_dnssec, cq.flags.ad, now) {
                Some(a) => match serve_section(
                    cache.records,
                    cq.authorities,
                    with_dnssec,
                    cq.flags.ad,
                    now,
                ) {
                    Some(n) => match serve_section(
                        cache.records,
                        cq.additionals,
                        with_dnssec,
                        cq.flags.ad,
                        now,
                    ) {
                        Some(r) => Some(
                            CacheHit { ad: cq.flags.ad, answers: a, authorities: n, additionals: r },
                        ),
                        None => None,
                    },
                    None => None,
                },
                None => None,
            }
        }
    }
}

/// `count` and `by` more, but not more than a count can hold.
pub open spec fn count_plus(count: u16, by: nat) -> u16 {
    if count + by > 0xFFFF {
        0xFFFF
    } else {
        (count + by) as u16
    }
}

/// The response `p` after a cache hit: the AD bit as cached, the records
/// served behind those of each section, and the counts raised by their
/// numbers.
pub open spec fn with_hit(p: DnsPacketView, hit: CacheHit) -> DnsPacketView {
    DnsPacketView {
        header: crate::header::DnsHeader {
            z: [p.header.z[0], hit.ad, p.header.z[2]],
            answer_rr_count: count_plus(p.header.answer_rr_count, hit.answers.len()),
            authority_rr_count: count_plus(p.header.authority_rr_count, hit.authorities.len()),
            additional_rr_count: count_plus(p.header.additional_rr_count, hit.additionals.len()),
            ..p.header
        },
        edns: p.edns,
        questions: p.questions,
        answers: p.answers + hit.answers,
        authorities: p.authorities + hit.authorities,
        additionals: p.additionals + hit.additionals,
    }
}

/// `count` and `by` more, but not more than a count can hold.
fn raise_count(count: u16, by: usize) -> (r: u16)
    ensures
        r == count_plus(count, by as nat),
{
    if by >= (0xFFFF - count) as usize {
        0xFFFF
    } else {
        count + by as u16
    }
}

/// Puts the records of `from` behind those of `to`.
fn append_records(to: &mut Vec<ResourceRecord>, from: Vec<ResourceRecord>)
    ensures
        records_view(final(to)@) == records_view(old(to)@) + records_view(from@),
{
    let mut rest = from;
    to.append(&mut rest);
    assert(records_view(to@) =~= records_view(old(to)@) + records_view(from@));
}

impl Cache {
    /// An empty cache laid out for a thousand responses and as many records.
    pub fn new() -> (r: Cache)
        ensures
            r@.queries == Map::<u128, CachedQueryView>::empty(),
            r@.records == Map::<u128, CachedRecordView>::empty(),
            no_opt_stored(r@.records),
    {
        Cache::with_capacity(DEFAULT_CACHE_CAPACITY)
    }

    /// An empty cache laid out for `capacity` responses and as many
    /// records, or for as many as can be laid out in advance.
    pub fn with_capacity(capacity: usize) -> (r: Cache)
        ensures
            r@.queries == Map::<u128, CachedQueryView>::empty(),
            r@.records == Map::<u128, CachedRecordView>::empty(),
            no_opt_stored(r@.records),
    {
        let capacity: usize = if capacity > MAX_INITIAL_CAPACITY {
            MAX_INITIAL_CAPACITY
        } else {
            capacity
        };
        let r = Cache { query_cache: new_query_map(capacity), rr_cache: new_record_map(capacity) };
        assert(r@.queries =~= Map::<u128, CachedQueryView>::empty());
        assert(r@.records =~= Map::<u128, CachedRecordView>::empty());
        r
    }

    /// Caches the records of a section that are not OPT records, and
    /// returns their keys.
    fn cache_section(&mut self, records: &Vec<ResourceRecord>, ad: bool, now: u64) -> (r: Option<
        Vec<u128>,
    >)
        ensures
            final(self)@.queries == old(self)@.queries,
            final(self)@.records == with_records(
                old(self)@.records,
                records_view(records@),
                ad,
                now,
            ),
            keys_view(r) == section_keys(records_view(records@)),
    {
        let ghost view = records_view(records@);
        let mut keys: Vec<u128> = Vec::new();
        let mut i: usize = 0;
        assert(view.subrange(0, 0) =~= Seq::<ResourceRecordView>::empty());
        assert(self@.records =~= with_records(old(self)@.records, view.subrange(0, 0), ad, now));
        while i < records.len()
            invariant
                i <= records@.len(),
                view == records_view(records@),
                self.query_cache == old(self).query_cache,
                keys@ == keys_of(view.subrange(0, i as int)),
                self@.records == with_records(
                    old(self)@.records,
                    view.subrange(0, i as int),
                    ad,
                    now,
                ),
            decreases records@.len() - i,
        {
            assert(view.subrange(0, i + 1).drop_last() =~= view.subrange(0, i as int));
            assert(view.subrange(0, i + 1).last() == records@[i as int]@);
            // Don't cache OPT RRs
            if !records[i].resource_data.is_opt() {
                let ghost before = self@.records;
                let cached_rr = CachedRecord::new(records[i].clone(), ad, now);
                let hash: u128 = cached_rr.get_hash();
                keys.push(hash);
                record_map_insert(&mut self.rr_cache, hash, cached_rr);
                assert(self@.records =~= before.insert(
                    record_key(records@[i as int]@),
                    cached_record_of(records@[i as int]@, ad, now),
                ));
            }
            i = i + 1;
        }
        assert(view.subrange(0, i as int) =~= view);
        if keys.len() == 0 {
            None
        } else {
            Some(keys)
        }
    }

    /// Caches a response at `now`, unless it is good for less than fifteen
    /// seconds: the response under the key of its first question, and each
    /// of its records that is not an OPT record under its own key. A
    /// response to cache that has no question is refused.
    pub fn cache_response(&mut self, response: &DnsPacket, now: u64) -> (r: Result<(), DnsError>)
        ensures
            match r {
                Ok(_) => if caching_duration(response@) < MIN_CACHING_SECONDS {
                    final(self)@ == old(self)@
                } else {
                    response@.questions.len() > 0 && final(self)@ == cache_with(
                        old(self)@,
                        response@,
                        now,
                    )
                },
                Err(e) => caching_duration(response@) >= MIN_CACHING_SECONDS
                    && response@.questions.len() == 0 && e == DnsError::MalformedPacket && final(self)@ == old(self)@,
            },
    {
        let cache_for: u32 = get_caching_duration_for_packet(response);
        if cache_for < MIN_CACHING_SECONDS {
            return Ok(());
        }
        if response.questions.len() == 0 {
            return Err(DnsError::MalformedPacket);
        }
        let ad: bool = response.header.z[1];
        let mut cached_query = CachedQuery::new(response, cache_for, now);
        cached_query.answers = self.cache_section(&response.answers, ad, now);
        cached_query.authorities = self.cache_section(&response.authorities, ad, now);
        cached_query.additionals = self.cache_section(&response.additionals, ad, now);
        let hash: u128 = get_dns_query_hash(&response.questions[0]);
        let ghost before = self@;
        let ghost entry = cached_query@;
        assert(entry == cached_query_of(response@, cache_for, now));
        query_map_insert(&mut self.query_cache, hash, cached_query);
        assert(self@.queries =~= before.queries.insert(hash, entry));
        assert(self@.records =~= before.records);
        Ok(())
    }

    /// The records served at `now` for the keys of a section.
    fn collect_section(
        &self,
        keys: &Option<Vec<u128>>,
        include_dnssec: bool,
        require_ad: bool,
        now: u64,
    ) -> (r: Option<Vec<ResourceRecord>>)
        ensures
            match serve_section(self@.records, keys_view(*keys), include_dnssec, require_ad, now) {
                Some(served) => r is Some && records_view(r.unwrap()@) == served,
                None => r is None,
            },
    {
        let mut out: Vec<ResourceRecord> = Vec::new();
        assert(records_view(out@) =~= Seq::<ResourceRecordView>::empty());
        let list: &Vec<u128> = match keys {
            Some(list) => list,
            None => {
                return Some(out);
            },
        };
        let mut i: usize = 0;
        while i < list.len()
            invariant
                i <= list@.len(),
                keys_view(*keys) == Some(list@),
                serve_keys(self@.records, list@, i as int, include_dnssec, require_ad, now) == Some(
                    records_view(out@),
                ),
            decreases list@.len() - i,
        {
            let ghost before = records_view(out@);
            let cached_rr = match record_map_get(&self.rr_cache, list[i]) {
                Some(rr) => rr,
                None => {
                    assert(!self@.records.contains_key(list@[i as int]));
                    proof {
                        lemma_unserved_stays(
                            self@.records,
                            list@,
                            i + 1,
                            list@.len() as int,
                            include_dnssec,
                            require_ad,
                            now,
                        );
                    }
                    return None;
                },
            };
            assert(self@.records.contains_key(list@[i as int]));
            assert(self@.records[list@[i as int]] == cached_rr@);
            if !include_dnssec && is_dnssec_qtype(cached_rr.resource_data.get_query_type().code()) {
            } else if require_ad && !cached_rr.flags.ad {
                proof {
                    lemma_unserved_stays(
                        self@.records,
                        list@,
                        i + 1,
                        list@.len() as int,
                        include_dnssec,
                        require_ad,
                        now,
                    );
                }
                return None;
            } else {
                let rr = cached_rr.as_rr(now);
                out.push(rr);
                assert(records_view(out@) =~= before.push(served_record(cached_rr@, now)));
            }
            i = i + 1;
        }
        Some(out)
    }

    /// Looks up at `now` the cached response to `question`. On a hit the
    /// records served are put behind those of `response_packet`, whose AD
    /// bit is set as cached; on a miss it stays as it was.
    pub fn question_lookup(
        &self,
        question: &Question,
        response_packet: &mut DnsPacket,
        dnssec: bool,
        now: u64,
    ) -> (r: bool)
        ensures
            match cache_lookup(self@, question@, dnssec, now) {
                Some(hit) => r && final(response_packet)@ == with_hit(old(response_packet)@, hit),
                None => !r && final(response_packet)@ == old(response_packet)@,
            },
    {
        let hash: u128 = get_dns_query_hash(question);
        let cached_query = match query_map_get(&self.query_cache, hash) {
            Some(q) => q,
            None => {
                return false;
            },
        };
        assert(self@.queries[hash] == cached_query@);
        if seconds_since(now, cached_query.added) >= cached_query.ttd as u64 {
            return false;
        }
        if dnssec && !cached_query.flags.dnssec {
            return false;
        }
        // Check whether other queries didn't override authenticated data that we need
        let require_ad: bool = cached_query.flags.ad;
        let include_dnssec_rrs: bool = dnssec || is_dnssec_qtype(question.query_type.code());
        let answers = match self.collect_section(
            &cached_query.answers,
            include_dnssec_rrs,
            require_ad,
            now,
        ) {
            Some(v) => v,
            None => {
                return false;
            },
        };
        let authorities = match self.collect_section(
            &cached_query.authorities,
            include_dnssec_rrs,
            require_ad,
            now,
        ) {
            Some(v) => v,
            None => {
                return false;
            },
        };
        let additionals = match self.collect_section(
            &cached_query.additionals,
            include_dnssec_rrs,
            require_ad,
            now,
        ) {
            Some(v) => v,
            None => {
                return false;
            },
        };
        let ghost hit = cache_lookup(self@, question@, dnssec, now).unwrap();
        response_packet.header.z[1] = require_ad;
        response_packet.header.answer_rr_count = raise_count(
            response_packet.header.answer_rr_count,
            answers.len(),
        );
        response_packet.header.authority_rr_count = raise_count(
            response_packet.header.authority_rr_count,
            authorities.len(),
        );
        response_packet.header.additional_rr_count = raise_count(
            response_packet.header.additional_rr_count,
            additionals.len(),
        );
        append_records(&mut response_packet.answers, answers);
        append_records(&mut response_packet.authorities, authorities);
        append_records(&mut response_packet.additionals, additionals);
        proof {
            assert(response_packet@.header.z =~= with_hit(old(response_packet)@, hit).header.z);
        }
        true
    }
}

impl Default for Cache {
    fn default() -> (r: Cache)
        ensures
            r@.queries == Map::<u128, CachedQueryView>::empty(),
            r@.records == Map::<u128, CachedRecordView>::empty(),
            no_opt_stored(r@.records),
    {
        Cache::new()
    }
}

/// A section that cannot be served up to one of its keys cannot be served
/// up to a later one.
pub proof fn lemma_unserved_stays(
    stored: Map<u128, CachedRecordView>,
    keys: Seq<u128>,
    from: int,
    upto: int,
    include_dnssec: bool,
    require_ad: bool,
    now: u64,
)
    requires
        0 < from <= upto,
        serve_keys(stored, keys, from, include_dnssec, require_ad, now) is None,
    ensures
        serve_keys(stored, keys, upto, include_dnssec, require_ad, now) is None,
    decreases upto - from,
{
    if from < upto {
        lemma_unserved_stays(stored, keys, from, upto - 1, include_dnssec, require_ad, now);
    }
}

/// A query that asks for DNSSEC records misses a cached response that was
/// fetched without them.
pub proof fn lemma_dnssec_gating(cache: CacheView, q: QuestionView, now: u64)
    requires
        cache.queries.contains_key(key_of(query_fingerprint(q))),
        !cache.queries[key_of(query_fingerprint(q))].flags.dnssec,
    ensures
        cache_lookup(cache, q, true, now) is None,
{
}

/// Each record served from the cache is a stored record whose time to
/// live was lowered by the time gone by since it was stored, but not
/// below zero.
pub proof fn lemma_served_ttl(
    stored: Map<u128, CachedRecordView>,
    keys: Seq<u128>,
    upto: int,
    include_dnssec: bool,
    require_ad: bool,
    now: u64,
)
    requires
        0 <= upto <= keys.len(),
        serve_keys(stored, keys, upto, include_dnssec, require_ad, now) is Some,
    ensures
        forall|i: int|
            0 <= i < serve_keys(stored, keys, upto, include_dnssec, require_ad, now).unwrap().len()
                ==> exists|k: int|
                0 <= k < upto && stored.contains_key(keys[k]) && #[trigger] serve_keys(
                    stored,
                    keys,
                    upto,
                    include_dnssec,
                    require_ad,
                    now,
                ).unwrap()[i] == served_record(stored[keys[k]], now) && serve_keys(
                    stored,
                    keys,
                    upto,
                    include_dnssec,
                    require_ad,
                    now,
                ).unwrap()[i].ttl == ttl_left(
                    stored[keys[k]].ttl,
                    elapsed(now, stored[keys[k]].added),
                ),
    decreases upto,
{
    if upto > 0 {
        lemma_served_ttl(stored, keys, upto - 1, include_dnssec, require_ad, now);
        let before = serve_keys(stored, keys, upto - 1, include_dnssec, require_ad, now).unwrap();
        let served = serve_keys(stored, keys, upto, include_dnssec, require_ad, now).unwrap();
        assert forall|i: int| 0 <= i < served.len() implies exists|k: int|
            0 <= k < upto && stored.contains_key(keys[k]) && #[trigger] served[i] == served_record(
                stored[keys[k]],
                now,
            ) && served[i].ttl == ttl_left(stored[keys[k]].ttl, elapsed(now, stored[keys[k]].added)) by {
            if i < before.len() {
                let k = choose|k: int|
                    0 <= k < upto - 1 && stored.contains_key(keys[k]) && before[i] == served_record(
                        stored[keys[k]],
                        now,
                    );
                assert(served[i] == before[i]);
                assert(0 <= k < upto && stored.contains_key(keys[k]) && served[i] == served_record(
                    stored[keys[k]],
                    now,
                ));
            } else {
                let k = upto - 1;
                assert(0 <= k < upto && stored.contains_key(keys[k]) && served[i] == served_record(
                    stored[keys[k]],
                    now,
                ));
            }
        }
    }
}

/// No record that the cache holds is an OPT record.
pub open spec fn no_opt_stored(stored: Map<u128, CachedRecordView>) -> bool {
    forall|k: u128| #[trigger] stored.contains_key(k) ==> !(stored[k].resource_data is OPT)
}

/// Caching records puts no OPT record into the cache.
pub proof fn lemma_no_opt_cached(
    stored: Map<u128, CachedRecordView>,
    records: Seq<ResourceRecordView>,
    ad: bool,
    now: u64,
)
    requires
        no_opt_stored(stored),
    ensures
        no_opt_stored(with_records(stored, records, ad, now)),
    decreases records.len(),
{
    if records.len() > 0 {
        lemma_no_opt_cached(stored, records.drop_last(), ad, now);
    }
}

/// A cache that holds no OPT record holds none after a response was cached.
pub proof fn lemma_cache_stays_without_opt(cache: CacheView, p: DnsPacketView, now: u64)
    requires
        no_opt_stored(cache.records),
    ensures
        no_opt_stored(cache_with(cache, p, now).records),
{
    let ad = p.header.z[1];
    lemma_no_opt_cached(cache.records, p.answers, ad, now);
    let a = with_records(cache.records, p.answers, ad, now);
    lemma_no_opt_cached(a, p.authorities, ad, now);
    let n = with_records(a, p.authorities, ad, now);
    lemma_no_opt_cached(n, p.additionals, ad, now);
}

/// From a cache that holds no OPT record none is served.
pub proof fn lemma_no_opt_served(
    stored: Map<u128, CachedRecordView>,
    keys: Seq<u128>,
    upto: int,
    include_dnssec: bool,
    require_ad: bool,
    now: u64,
)
    requires
        no_opt_stored(stored),
        serve_keys(stored, keys, upto, include_dnssec, require_ad, now) is Some,
    ensures
        forall|i: int|
            0 <= i < serve_keys(stored, keys, upto, include_dnssec, require_ad, now).unwrap().len()
                ==> !is_opt(
                #[trigger] serve_keys(
                    stored,
                    keys,
                    upto,
                    include_dnssec,
                    require_ad,
                    now,
                ).unwrap()[i],
            ),
    decreases upto,
{
    if upto > 0 {
        lemma_no_opt_served(stored, keys, upto - 1, include_dnssec, require_ad, now);
    }
}

/// Records that are not OPT records, put behind records of which at most
/// one is an OPT record, leave it at that.
pub proof fn lemma_single_opt_kept(mine: Seq<ResourceRecordView>, more: Seq<ResourceRecordView>)
    requires
        at_most_one_opt(mine),
        forall|i: int| 0 <= i < more.len() ==> !is_opt(#[trigger] more[i]),
    ensures
        at_most_one_opt(mine + more),
{
    let all = mine + more;
    if has_two_opts(all) {
        let (a, b) = choose|a: int, b: int|
            0 <= a < b < all.len() && is_opt(#[trigger] all[a]) && is_opt(#[trigger] all[b]);
        if b >= mine.len() {
            assert(all[b] == more[b - mine.len()]);
        } else {
            assert(all[a] == mine[a]);
            assert(all[b] == mine[b]);
        }
    }
}

/// A cache hit leaves a response with at most one OPT record among its
/// additional records, if the cache holds no OPT record.
pub proof fn lemma_hit_keeps_single_opt(
    cache: CacheView,
    q: QuestionView,
    dnssec: bool,
    now: u64,
    p: DnsPacketView,
)
    requires
        no_opt_stored(cache.records),
        at_most_one_opt(p.additionals),
        cache_lookup(cache, q, dnssec, now) is Some,
    ensures
        at_most_one_opt(with_hit(p, cache_lookup(cache, q, dnssec, now).unwrap()).additionals),
{
    let cq = cache.queries[key_of(query_fingerprint(q))];
    let with_dnssec = dnssec || dnssec_qtype(q.query_type.spec_code());
    match cq.additionals {
        Some(keys) => {
            lemma_no_opt_served(
                cache.records,
                keys,
                keys.len() as int,
                with_dnssec,
                cq.flags.ad,
                now,
            );
        },
        None => {},
    }
    lemma_single_opt_kept(p.additionals, cache_lookup(cache, q, dnssec, now).unwrap().additionals);
}

} // verus!
