use vstd::prelude::*;
use vstd::utf8::encode_utf8_decode_utf8;
use vstd::utf8::encode_utf8_valid_utf8;
use crate::buf::u16_at;
use crate::buf::u16_bytes;
use crate::codec::EncCtx;
use crate::codec::Encoded;
use crate::codec::ctx_after;
use crate::name::name_size_from;
use crate::question::question_size_bound;
use crate::resource_record::rdata_size_bound;
use crate::resource_record::rr_size_bound;
use crate::codec::skipped;
use crate::error::DnsError;
use crate::packet::exempt;
use crate::packet::has_opt;
use crate::packet::has_two_opts;
use crate::packet::is_opt;
use crate::packet::remaining;
use crate::header::HEADER_SIZE;
use crate::header::header_wire;
use crate::header::lemma_header_round_trip;
use crate::header::parse_header;
use crate::packet::BodyOut;
use crate::packet::DnsPacketView;
use crate::packet::SectionOut;
use crate::packet::at_most_one_opt;
use crate::packet::body_encoded;
use crate::packet::ctx_next;
use crate::packet::encode_questions;
use crate::packet::encode_records;
use crate::packet::opt_position;
use crate::packet::opt_reserve;
use crate::packet::packet_encoded;
use crate::packet::parse_packet;
use crate::packet::parse_questions;
use crate::packet::parse_records;
use crate::packet::truncated_header;
use crate::question::question_encoded;
use crate::resource_record::rr_encoded;
use crate::label_cache::POINTER_LIMIT;
use crate::question::QueryType;
use crate::question::QuestionView;
use crate::question::parse_question;
use crate::question::query_type_of;
use crate::question::question_wire;
use crate::resource_record::MAX_U16;
use crate::resource_record::ResourceDataView;
use crate::resource_record::ResourceRecordView;
use crate::resource_record::distinct_codes;
use crate::resource_record::has_code;
use crate::resource_record::name_rdata_wire;
use crate::resource_record::option_wire;
use crate::resource_record::options_fit;
use crate::resource_record::options_of;
use crate::resource_record::options_put;
use crate::resource_record::options_size;
use crate::resource_record::options_wire;
use crate::resource_record::parse_options;
use crate::resource_record::parse_rdata;
use crate::resource_record::parse_rr;
use crate::resource_record::rdata_wire;
use crate::resource_record::rr_wire;
use crate::resource_record::u32_at;
use crate::resource_record::u32_bytes;
use crate::name::decode_name;
use crate::name::name_bytes;
use crate::name::name_wire;
use crate::name::DOT;
use crate::name::MAX_JUMPS;
use crate::name::MAX_LABEL_LEN;
use crate::name::POINTER_TAG;
use crate::name::ParsedName;
use crate::name::cache_after;
use crate::name::join_labels;
use crate::name::label_len;
use crate::name::lemma_label_ends;
use crate::name::lemma_recorded_grows;
use crate::name::recorded_from;
use crate::name::name_wire_from;
use crate::name::parse_name;
use crate::name::pointer_bytes;
use crate::name::pointer_target;

verus! {

/// The labels of the name `n` that are not empty, from the label that
/// starts at `i` on.
pub open spec fn labels_from(n: Seq<u8>, i: int) -> Seq<Seq<u8>>
    decreases n.len() - i,
{
    if i < 0 || i >= n.len() {
        Seq::empty()
    } else {
        let l = label_len(n, i);
        if l == 0 {
            labels_from(n, i + 1)
        } else if i + l >= n.len() {
            seq![n.subrange(i, i + l)]
        } else {
            seq![n.subrange(i, i + l)] + labels_from(n, i + l + 1)
        }
    }
}

/// A name in the form in which it comes back from the wire: empty, or
/// labels that are not empty with one dot between each two.
pub open spec fn canonical(n: Seq<u8>) -> bool {
    n.len() == 0 || (n[0] != DOT && n[n.len() - 1] != DOT && forall|j: int|
        0 <= j < n.len() - 1 ==> !(#[trigger] n[j] == DOT && n[j + 1] == DOT))
}

/// No label of `n` is longer than 63 bytes.
pub open spec fn short_labels(n: Seq<u8>) -> bool {
    forall|i: int| 0 <= i < n.len() ==> #[trigger] label_len(n, i) <= MAX_LABEL_LEN
}

/// Every entry of `cache` names an offset of `bytes` that a pointer can
/// name and at which the name of the entry can be read, with no more
/// pointers to follow than the offset is large.
pub open spec fn cache_ok(cache: Map<Seq<u8>, usize>, bytes: Seq<u8>) -> bool {
    forall|k: Seq<u8>| #[trigger]
        cache.contains_key(k) ==> {
            &&& cache[k] < POINTER_LIMIT
            &&& cache[k] < bytes.len()
            &&& parse_name(bytes, cache[k] as int, cache[k] as nat) is Some
            &&& parse_name(bytes, cache[k] as int, cache[k] as nat).unwrap().labels == labels_from(
                k,
                0,
            )
        }
}

/// `whole` starts with `bytes`.
#[verifier::opaque]
pub open spec fn extends(whole: Seq<u8>, bytes: Seq<u8>) -> bool {
    bytes.len() <= whole.len() && forall|i: int| 0 <= i < bytes.len() ==> whole[i] == bytes[i]
}

/// Every sequence starts with itself.
pub proof fn lemma_extends_self(a: Seq<u8>)
    ensures
        extends(a, a),
{
    reveal(extends);
}

/// A sequence with more behind it starts with itself.
pub proof fn lemma_extends_append(a: Seq<u8>, b: Seq<u8>)
    ensures
        extends(a + b, a),
{
    reveal(extends);
}

/// A name that can be read can be read as well with more pointers
/// allowed and with more bytes behind it.
pub proof fn lemma_parse_stable(bytes: Seq<u8>, whole: Seq<u8>, pos: int, fuel: nat, more: nat)
    requires
        extends(whole, bytes),
        fuel <= more,
        parse_name(bytes, pos, fuel) is Some,
    ensures
        parse_name(whole, pos, more) == parse_name(bytes, pos, fuel),
    decreases fuel, bytes.len() - pos,
{
    reveal(extends);
    let b = bytes[pos];
    if b >= POINTER_TAG {
        lemma_parse_stable(
            bytes,
            whole,
            pointer_target(b, bytes[pos + 1]),
            (fuel - 1) as nat,
            (more - 1) as nat,
        );
    } else if b == 0 {
    } else {
        lemma_parse_stable(bytes, whole, pos + 1 + b, fuel, more);
        assert(whole.subrange(pos + 1, pos + 1 + b) =~= bytes.subrange(pos + 1, pos + 1 + b));
    }
}

/// A cache that fits some bytes fits them still with more bytes behind.
pub proof fn lemma_cache_ok_extends(cache: Map<Seq<u8>, usize>, bytes: Seq<u8>, whole: Seq<u8>)
    requires
        cache_ok(cache, bytes),
        extends(whole, bytes),
    ensures
        cache_ok(cache, whole),
{
    assert forall|k: Seq<u8>| #[trigger] cache.contains_key(k) implies {
        &&& cache[k] < POINTER_LIMIT
        &&& cache[k] < whole.len()
        &&& parse_name(whole, cache[k] as int, cache[k] as nat) is Some
        &&& parse_name(whole, cache[k] as int, cache[k] as nat).unwrap().labels == labels_from(k, 0)
    } by {
        lemma_parse_stable(bytes, whole, cache[k] as int, cache[k] as nat, cache[k] as nat);
    }
}

/// The length of a label does not depend on what stands before it.
pub proof fn lemma_label_len_shift(n: Seq<u8>, i: int, j: int)
    requires
        0 <= i <= n.len(),
        0 <= j,
    ensures
        label_len(n.subrange(i, n.len() as int), j) == label_len(n, i + j),
    decreases n.len() - i - j,
{
    let tail = n.subrange(i, n.len() as int);
    if j < tail.len() && tail[j] != DOT {
        lemma_label_len_shift(n, i, j + 1);
    }
}

/// The labels of a name from a label on are the labels of what is left of
/// the name from there.
pub proof fn lemma_labels_shift(n: Seq<u8>, i: int, j: int)
    requires
        0 <= i <= n.len(),
        0 <= j,
    ensures
        labels_from(n.subrange(i, n.len() as int), j) == labels_from(n, i + j),
    decreases n.len() - i - j,
{
    let tail = n.subrange(i, n.len() as int);
    if j < tail.len() {
        lemma_label_len_shift(n, i, j);
        lemma_label_ends(n, i + j);
        let l = label_len(n, i + j);
        if l == 0 {
            lemma_labels_shift(n, i, j + 1);
        } else {
            assert(tail.subrange(j, j + l) =~= n.subrange(i + j, i + j + l));
            if i + j + l < n.len() {
                lemma_labels_shift(n, i, j + l + 1);
            }
        }
    }
}

/// The wire form of a name, read where it stands, gives the labels of the
/// name, and reading goes on behind it.
pub proof fn lemma_name_parses(
    whole: Seq<u8>,
    pos: int,
    n: Seq<u8>,
    i: int,
    cache: Map<Seq<u8>, usize>,
    wire: Seq<u8>,
    fuel: nat,
)
    requires
        cache_ok(cache, whole),
        forall|k: Seq<u8>| #[trigger] cache.contains_key(k) ==> cache[k] < fuel,
        0 <= i,
        name_wire_from(n, i, cache) == Some(wire),
        0 <= pos,
        pos + wire.len() <= whole.len(),
        whole.subrange(pos, pos + wire.len()) == wire,
    ensures
        parse_name(whole, pos, fuel) == Some(
            ParsedName { labels: labels_from(n, i), next: pos + wire.len() },
        ),
    decreases n.len() - i,
{
    if i >= n.len() {
        assert(wire == seq![0u8]);
        assert(whole[pos] == whole.subrange(pos, pos + wire.len())[0]);
        assert(whole[pos] == wire[0]);
    } else {
        lemma_label_ends(n, i);
        let l = label_len(n, i);
        if l == 0 {
            lemma_name_parses(whole, pos, n, i + 1, cache, wire, fuel);
        } else {
            let key = n.subrange(i, n.len() as int);
            if cache.contains_key(key) {
                let o = cache[key];
                assert(wire == pointer_bytes(o));
                assert(whole[pos] == whole.subrange(pos, pos + wire.len())[0]);
                assert(whole[pos] == wire[0]);
                assert(whole[pos + 1] == whole.subrange(pos, pos + wire.len())[1]);
                assert(whole[pos + 1] == wire[1]);
                assert(o / 256 < 64 && o % 256 < 256);
                assert(pointer_target(whole[pos], whole[pos + 1]) == o) by {
                    assert(whole[pos] == (POINTER_TAG + o / 256) as u8);
                    assert(whole[pos + 1] == (o % 256) as u8);
                    assert((o / 256) * 256 + o % 256 == o);
                }
                lemma_extends_self(whole);
                lemma_parse_stable(whole, whole, o as int, o as nat, (fuel - 1) as nat);
                lemma_labels_shift(n, i, 0);
            } else {
                let rest = if i + l >= n.len() {
                    seq![0u8]
                } else {
                    name_wire_from(n, i + l + 1, cache).unwrap()
                };
                assert(wire == seq![l as u8] + n.subrange(i, i + l) + rest);
                assert(whole[pos] == whole.subrange(pos, pos + wire.len())[0]);
                assert(whole[pos] == wire[0]);
                assert(whole[pos] == l as u8);
                let next = pos + 1 + l;
                assert(whole.subrange(next, next + rest.len()) =~= wire.subrange(
                    1 + l as int,
                    wire.len() as int,
                ));
                assert(wire.subrange(1 + l as int, wire.len() as int) =~= rest);
                assert(whole.subrange(pos + 1, pos + 1 + l) =~= wire.subrange(1, 1 + l as int));
                assert(wire.subrange(1, 1 + l as int) =~= n.subrange(i, i + l));
                if i + l >= n.len() {
                    assert(whole[next] == whole.subrange(next, next + rest.len())[0]);
                    assert(whole[next] == rest[0]);
                    assert(parse_name(whole, next, fuel) == Some(
                        ParsedName { labels: Seq::empty(), next: next + 1 },
                    ));
                    assert(seq![n.subrange(i, i + l)] + Seq::<Seq<u8>>::empty() =~= seq![
                        n.subrange(i, i + l),
                    ]);
                } else {
                    lemma_name_parses(whole, next, n, i + l + 1, cache, rest, fuel);
                }
            }
        }
    }
}

/// The labels put behind a first label are joined with a dot after it.
pub proof fn lemma_join_first(first: Seq<u8>, rest: Seq<Seq<u8>>)
    ensures
        join_labels(seq![first] + rest) == if rest.len() == 0 {
            first
        } else {
            first + seq![DOT] + join_labels(rest)
        },
    decreases rest.len(),
{
    let all = seq![first] + rest;
    if rest.len() == 0 {
        assert(all =~= seq![first]);
    } else {
        assert(all.drop_last() =~= seq![first] + rest.drop_last());
        assert(all.last() == rest.last());
        lemma_join_first(first, rest.drop_last());
        if rest.len() == 1 {
            assert(rest.drop_last().len() == 0);
            assert(join_labels(rest) == rest[0]);
        } else {
            assert(join_labels(all) =~= first + seq![DOT] + join_labels(rest));
        }
    }
}

/// The labels of a canonical name, joined by dots, are the name.
pub proof fn lemma_join_labels_from(n: Seq<u8>, i: int)
    requires
        0 <= i < n.len(),
        n[i] != DOT,
        n[n.len() - 1] != DOT,
        forall|j: int| i <= j < n.len() - 1 ==> !(#[trigger] n[j] == DOT && n[j + 1] == DOT),
    ensures
        labels_from(n, i).len() > 0,
        join_labels(labels_from(n, i)) == n.subrange(i, n.len() as int),
    decreases n.len() - i,
{
    lemma_label_ends(n, i);
    let l = label_len(n, i);
    assert(l >= 1);
    let first = n.subrange(i, i + l);
    if i + l >= n.len() {
        assert(first =~= n.subrange(i, n.len() as int));
    } else {
        assert(n[i + l] == DOT);
        assert(i + l + 1 < n.len());
        assert(!(n[i + l] == DOT && n[i + l + 1] == DOT));
        lemma_join_labels_from(n, i + l + 1);
        lemma_join_first(first, labels_from(n, i + l + 1));
        assert(first + seq![DOT] + n.subrange(i + l + 1, n.len() as int) =~= n.subrange(
            i,
            n.len() as int,
        ));
    }
}

/// The labels of a canonical name, joined by dots, are the name.
pub proof fn lemma_join_labels(n: Seq<u8>)
    requires
        canonical(n),
    ensures
        join_labels(labels_from(n, 0)) == n,
{
    if n.len() > 0 {
        lemma_join_labels_from(n, 0);
        assert(n.subrange(0, n.len() as int) =~= n);
    } else {
        assert(join_labels(labels_from(n, 0)) =~= n);
    }
}

/// A name that survives the wire: its text is canonical and none of its
/// labels is longer than 63 bytes.
pub open spec fn valid_name(name: Seq<char>) -> bool {
    canonical(name_bytes(name)) && short_labels(name_bytes(name))
}

/// A name with short labels has a wire form, which is at most two bytes
/// longer than what is left of the name.
pub proof fn lemma_name_wire_exists(n: Seq<u8>, i: int, cache: Map<Seq<u8>, usize>)
    requires
        short_labels(n),
        0 <= i,
    ensures
        name_wire_from(n, i, cache) is Some,
        name_wire_from(n, i, cache).unwrap().len() >= 1,
        i <= n.len() ==> name_wire_from(n, i, cache).unwrap().len() <= n.len() - i + 2,
    decreases n.len() - i,
{
    if i < n.len() {
        lemma_label_ends(n, i);
        let l = label_len(n, i);
        assert(l <= MAX_LABEL_LEN);
        if l == 0 {
            lemma_name_wire_exists(n, i + 1, cache);
        } else if !cache.contains_key(n.subrange(i, n.len() as int)) {
            if i + l < n.len() {
                lemma_name_wire_exists(n, i + l + 1, cache);
            }
        }
    }
}

/// The two bytes of a number, read where they stand, give the number.
pub proof fn lemma_u16_at(whole: Seq<u8>, pos: int, v: u16)
    requires
        0 <= pos,
        pos + 2 <= whole.len(),
        whole.subrange(pos, pos + 2) == u16_bytes(v),
    ensures
        u16_at(whole, pos) == v,
{
    assert(whole[pos] == whole.subrange(pos, pos + 2)[0]);
    assert(whole[pos + 1] == whole.subrange(pos, pos + 2)[1]);
}

/// A valid name written to the wire and read back where it stands is the
/// same name, whatever the label cache shortened it to; and the cache
/// with the name recorded fits the bytes written so far.
pub proof fn lemma_name_round_trip(
    before: Seq<u8>,
    whole: Seq<u8>,
    name: Seq<char>,
    cache: Map<Seq<u8>, usize>,
    recording: bool,
)
    requires
        valid_name(name),
        cache_ok(cache, before),
        extends(whole, before + name_wire(name_bytes(name), cache).unwrap()),
    ensures
        name_wire(name_bytes(name), cache) is Some,
        decode_name(whole, before.len() as int) == Some(
            (name, (before.len() + name_wire(name_bytes(name), cache).unwrap().len()) as int),
        ),
        cache_ok(
            cache_after(cache, recording, name_bytes(name), before.len()),
            before + name_wire(name_bytes(name), cache).unwrap(),
        ),
{
    let n = name_bytes(name);
    lemma_name_wire_exists(n, 0, cache);
    let wire = name_wire(n, cache).unwrap();
    let written = before + wire;
    let pos = before.len() as int;
    let none = Seq::<u8>::empty();
    assert(before + wire + none =~= before + wire);
    lemma_piece(whole, before, wire, none);
    lemma_extends_append(before, wire);
    lemma_cache_ok_extends(cache, before, whole);
    lemma_cache_ok_extends(cache, before, written);
    lemma_name_parses(whole, pos, n, 0, cache, wire, MAX_JUMPS as nat);
    lemma_join_labels(n);
    encode_utf8_valid_utf8(name);
    encode_utf8_decode_utf8(name);
    assert(written.subrange(pos, pos + wire.len()) =~= wire);
    lemma_recorded_ok(written, n, 0, cache, cache, recording, before.len(), wire, before.len());
}

/// A cache that fits the bytes written fits them still with what a name
/// written there records: at the offset of each label written in full
/// the name from that label on is read.
pub proof fn lemma_recorded_ok(
    whole: Seq<u8>,
    n: Seq<u8>,
    i: int,
    known: Map<Seq<u8>, usize>,
    acc: Map<Seq<u8>, usize>,
    recording: bool,
    pos: nat,
    wire: Seq<u8>,
    bound: nat,
)
    requires
        0 <= i,
        cache_ok(known, whole),
        cache_ok(acc, whole),
        forall|k: Seq<u8>| #[trigger] known.contains_key(k) ==> known[k] < bound,
        bound <= pos,
        name_wire_from(n, i, known) == Some(wire),
        pos + wire.len() <= whole.len(),
        whole.subrange(pos as int, (pos + wire.len()) as int) == wire,
    ensures
        cache_ok(recorded_from(n, i, known, acc, recording, pos), whole),
    decreases n.len() - i,
{
    if i < n.len() {
        lemma_label_ends(n, i);
        let l = label_len(n, i);
        let key = n.subrange(i, n.len() as int);
        if l == 0 {
            lemma_recorded_ok(whole, n, i + 1, known, acc, recording, pos, wire, bound);
        } else if !known.contains_key(key) {
            let with = if recording && pos < POINTER_LIMIT {
                acc.insert(key, pos as usize)
            } else {
                acc
            };
            if recording && pos < POINTER_LIMIT {
                lemma_name_parses(whole, pos as int, n, i, known, wire, pos);
                lemma_labels_shift(n, i, 0);
                assert forall|k: Seq<u8>| #[trigger] with.contains_key(k) implies {
                    &&& with[k] < POINTER_LIMIT
                    &&& with[k] < whole.len()
                    &&& parse_name(whole, with[k] as int, with[k] as nat) is Some
                    &&& parse_name(whole, with[k] as int, with[k] as nat).unwrap().labels
                        == labels_from(k, 0)
                } by {
                    if k == key {
                    } else {
                        assert(acc.contains_key(k));
                    }
                }
            }
            if i + l < n.len() {
                let rest = name_wire_from(n, i + l + 1, known).unwrap();
                assert(wire == seq![l as u8] + n.subrange(i, i + l) + rest);
                assert(whole.subrange((pos + 1 + l) as int, (pos + 1 + l + rest.len()) as int) =~= wire.subrange(
                    1 + l as int,
                    wire.len() as int,
                ));
                assert(wire.subrange(1 + l as int, wire.len() as int) =~= rest);
                lemma_recorded_ok(
                    whole,
                    n,
                    i + l + 1,
                    known,
                    with,
                    recording,
                    pos + 1 + l,
                    rest,
                    bound,
                );
            }
        }
    }
}

/// A type that survives the wire: not an `UNKNOWN` that carries the
/// number of a named type.
pub open spec fn valid_type(t: QueryType) -> bool {
    t is UNKNOWN ==> query_type_of(t->0) is UNKNOWN
}

/// A question that survives the wire.
pub open spec fn valid_question(q: QuestionView) -> bool {
    valid_name(q.qname) && valid_type(q.query_type)
}

/// A record body that survives the wire: its data fits the length field,
/// an address has the length of its family, a name is valid, and the
/// options of an OPT body, where it holds any, are not empty and carry no
/// code twice.
pub open spec fn valid_rdata(rd: ResourceDataView) -> bool {
    match rd {
        ResourceDataView::UNKNOWN { qtype, rdata } => query_type_of(qtype) is UNKNOWN
            && rdata.len() <= MAX_U16,
        ResourceDataView::A { address } => address.len() == 4,
        ResourceDataView::NS { ns_domain_name } => valid_name(ns_domain_name) && name_bytes(
            ns_domain_name,
        ).len() + 2 <= MAX_U16,
        ResourceDataView::CNAME { cname } => valid_name(cname) && name_bytes(cname).len() + 2
            <= MAX_U16,
        ResourceDataView::AAAA { address } => address.len() == 16,
        ResourceDataView::OPT { options } => match options {
            Some(o) => o.len() > 0 && distinct_codes(o) && options_fit(o) && options_size(o)
                <= MAX_U16,
            None => true,
        },
    }
}

/// A record that survives the wire.
pub open spec fn valid_record(rr: ResourceRecordView) -> bool {
    valid_name(rr.name) && valid_rdata(rr.resource_data)
}

/// What was written is found in what extends it.
pub proof fn lemma_piece(whole: Seq<u8>, before: Seq<u8>, piece: Seq<u8>, behind: Seq<u8>)
    requires
        extends(whole, before + piece + behind),
    ensures
        before.len() + piece.len() <= whole.len(),
        whole.subrange(before.len() as int, (before.len() + piece.len()) as int) == piece,
        extends(whole, before + piece),
        extends(whole, before),
{
    reveal(extends);
    let all = before + piece + behind;
    assert forall|k: int| 0 <= k < piece.len() implies #[trigger] whole[before.len() + k]
        == piece[k] by {
        assert(all[before.len() + k] == piece[k]);
    }
    assert(whole.subrange(before.len() as int, (before.len() + piece.len()) as int) =~= piece);
    assert forall|k: int| 0 <= k < (before + piece).len() implies whole[k] == (before + piece)[k] by {
        assert(all[k] == (before + piece)[k]);
    }
    assert forall|k: int| 0 <= k < before.len() implies whole[k] == before[k] by {
        assert(all[k] == before[k]);
    }
}

/// A number written in two bytes is read back where it stands.
pub proof fn lemma_u16_round_trip(whole: Seq<u8>, before: Seq<u8>, v: u16, behind: Seq<u8>)
    requires
        extends(whole, before + u16_bytes(v) + behind),
    ensures
        before.len() + 2 <= whole.len(),
        u16_at(whole, before.len() as int) == v,
{
    lemma_piece(whole, before, u16_bytes(v), behind);
    lemma_u16_at(whole, before.len() as int, v);
}

/// A number written in four bytes is read back where it stands.
pub proof fn lemma_u32_round_trip(whole: Seq<u8>, before: Seq<u8>, v: u32, behind: Seq<u8>)
    requires
        extends(whole, before + u32_bytes(v) + behind),
    ensures
        before.len() + 4 <= whole.len(),
        u32_at(whole, before.len() as int) == v,
{
    let high = u16_bytes((v / 0x10000) as u16);
    let low = u16_bytes((v % 0x10000) as u16);
    assert(before + u32_bytes(v) + behind =~= before + high + (low + behind));
    lemma_u16_round_trip(whole, before, (v / 0x10000) as u16, low + behind);
    assert(before + u32_bytes(v) + behind =~= (before + high) + low + behind);
    lemma_u16_round_trip(whole, before + high, (v % 0x10000) as u16, behind);
}

/// A valid question written to the wire and read back where it stands is
/// the same question; and the cache afterwards fits the bytes written.
pub proof fn lemma_question_round_trip(
    before: Seq<u8>,
    whole: Seq<u8>,
    q: QuestionView,
    ctx: EncCtx,
)
    requires
        valid_question(q),
        cache_ok(ctx.cache, before),
        ctx.start == before.len(),
        extends(whole, before + question_wire(q, ctx).unwrap().bytes),
    ensures
        question_wire(q, ctx) is Ok,
        question_wire(q, ctx).unwrap().size > 0,
        parse_question(whole, before.len() as int) == Some(
            (q, (before.len() + question_wire(q, ctx).unwrap().bytes.len()) as int),
        ),
        cache_ok(question_wire(q, ctx).unwrap().cache, before + question_wire(q, ctx).unwrap().bytes),
{
    let n = name_bytes(q.qname);
    lemma_name_wire_exists(n, 0, ctx.cache);
    let w = name_wire(n, ctx.cache).unwrap();
    let out = question_wire(q, ctx).unwrap();
    let code = u16_bytes(q.query_type.spec_code());
    let class = u16_bytes(q.qclass);
    assert(before + out.bytes =~= before + w + (code + class));
    lemma_piece(whole, before, w, code + class);
    lemma_name_round_trip(before, whole, q.qname, ctx.cache, ctx.recording);
    assert(before + out.bytes =~= (before + w) + code + class);
    lemma_u16_round_trip(whole, before + w, q.query_type.spec_code(), class);
    assert(before + out.bytes =~= (before + w + code) + class + Seq::<u8>::empty());
    lemma_u16_round_trip(whole, before + w + code, q.qclass, Seq::<u8>::empty());
    assert(before + out.bytes =~= (before + w) + (code + class));
    lemma_extends_append(before + w, code + class);
    lemma_cache_ok_extends(out.cache, before + w, before + out.bytes);
}

/// The options behind a first option are written behind it.
pub proof fn lemma_options_wire_first(first: (u16, Seq<u8>), rest: Seq<(u16, Seq<u8>)>)
    ensures
        options_wire(seq![first] + rest) == option_wire(first) + options_wire(rest),
        options_size(seq![first] + rest) == 4 + first.1.len() + options_size(rest),
    decreases rest.len(),
{
    let all = seq![first] + rest;
    if rest.len() == 0 {
        let none = Seq::<(u16, Seq<u8>)>::empty();
        assert(all.drop_last() =~= none);
        assert(all.last() == first);
        assert(options_wire(none) =~= Seq::<u8>::empty());
        assert(options_size(none) == 0);
        assert(rest =~= none);
        assert(options_wire(all) =~= option_wire(first) + options_wire(rest));
    } else {
        assert(all.drop_last() =~= seq![first] + rest.drop_last());
        assert(all.last() == rest.last());
        lemma_options_wire_first(first, rest.drop_last());
        assert(options_wire(all) =~= option_wire(first) + options_wire(rest));
    }
}

/// One option written to the wire is read back where it stands: its
/// code, the length of its data, and its data.
pub proof fn lemma_option_read(whole: Seq<u8>, before: Seq<u8>, option: (u16, Seq<u8>), behind: Seq<u8>)
    requires
        option.1.len() <= MAX_U16,
        extends(whole, before + (option_wire(option) + behind)),
    ensures
        before.len() + 4 + option.1.len() <= whole.len(),
        u16_at(whole, before.len() as int) == option.0,
        u16_at(whole, (before.len() + 2) as int) == option.1.len(),
        whole.subrange((before.len() + 4) as int, (before.len() + 4 + option.1.len()) as int)
            == option.1,
        extends(whole, (before + option_wire(option)) + behind),
{
    let code = u16_bytes(option.0);
    let length = u16_bytes(option.1.len() as u16);
    assert(before + (option_wire(option) + behind) =~= before + code + (length + option.1 + behind));
    lemma_u16_round_trip(whole, before, option.0, length + option.1 + behind);
    assert(before + (option_wire(option) + behind) =~= (before + code) + length + (option.1
        + behind));
    lemma_u16_round_trip(whole, before + code, option.1.len() as u16, option.1 + behind);
    assert(before + (option_wire(option) + behind) =~= (before + code + length) + option.1
        + behind);
    lemma_piece(whole, before + code + length, option.1, behind);
    assert(before + (option_wire(option) + behind) =~= (before + option_wire(option)) + behind);
}

/// An option whose code is not among those read so far is put behind them.
pub proof fn lemma_put_new(acc: Seq<(u16, Seq<u8>)>, rest: Seq<(u16, Seq<u8>)>)
    requires
        rest.len() > 0,
        distinct_codes(acc + rest),
    ensures
        options_put(acc, rest[0].0, rest[0].1) == acc.push(rest[0]),
        acc.push(rest[0]) + rest.subrange(1, rest.len() as int) == acc + rest,
{
    let first = rest[0];
    assert(!has_code(acc, first.0)) by {
        if has_code(acc, first.0) {
            let i = choose|i: int| 0 <= i < acc.len() && (#[trigger] acc[i]).0 == first.0;
            assert((acc + rest)[i] == acc[i]);
            assert((acc + rest)[acc.len() as int] == first);
        }
    }
    assert(acc.push(first) + rest.subrange(1, rest.len() as int) =~= acc + rest);
}

/// Options with distinct codes, written to the wire and read back where
/// they stand, are the same options in the same order.
pub proof fn lemma_options_round_trip(
    whole: Seq<u8>,
    before: Seq<u8>,
    acc: Seq<(u16, Seq<u8>)>,
    rest: Seq<(u16, Seq<u8>)>,
)
    requires
        distinct_codes(acc + rest),
        options_fit(rest),
        extends(whole, before + options_wire(rest)),
    ensures
        parse_options(whole, before.len() as int, options_size(rest) as int, acc) == Some(
            (acc + rest, (before.len() + options_size(rest)) as int),
        ),
    decreases rest.len(),
{
    if rest.len() == 0 {
        assert(acc + rest =~= acc);
    } else {
        let first = rest[0];
        let tail = rest.subrange(1, rest.len() as int);
        assert(rest =~= seq![first] + tail);
        lemma_options_wire_first(first, tail);
        crate::resource_record::lemma_options_wire_len(tail);
        assert(first.1.len() <= MAX_U16);
        lemma_option_read(whole, before, first, options_wire(tail));
        lemma_put_new(acc, rest);
        assert(options_fit(tail)) by {
            assert forall|i: int| 0 <= i < tail.len() implies (#[trigger] tail[i]).1.len()
                <= MAX_U16 by {
                assert(tail[i] == rest[i + 1]);
            }
        }
        let next = before + option_wire(first);
        lemma_options_round_trip(whole, next, acc.push(first), tail);
        assert(next.len() == before.len() + 4 + first.1.len());
    }
}

/// A name as the body of a record, written to the wire and read back
/// where it stands, is the same name.
pub proof fn lemma_name_rdata_round_trip(
    before: Seq<u8>,
    whole: Seq<u8>,
    target: Seq<char>,
    ctx: EncCtx,
)
    requires
        valid_name(target),
        name_bytes(target).len() + 2 <= MAX_U16,
        cache_ok(ctx.cache, before),
        ctx.start == before.len(),
        extends(whole, before + name_rdata_wire(target, ctx).unwrap().bytes),
    ensures
        name_rdata_wire(target, ctx) is Ok,
        before.len() + 2 <= whole.len(),
        decode_name(whole, (before.len() + 2) as int) == Some(
            (target, (before.len() + name_rdata_wire(target, ctx).unwrap().bytes.len()) as int),
        ),
        cache_ok(
            name_rdata_wire(target, ctx).unwrap().cache,
            before + name_rdata_wire(target, ctx).unwrap().bytes,
        ),
{
    let n = name_bytes(target);
    lemma_name_wire_exists(n, 0, ctx.cache);
    let w = name_wire(n, ctx.cache).unwrap();
    let out = name_rdata_wire(target, ctx).unwrap();
    let length = u16_bytes(w.len() as u16);
    assert(before + out.bytes =~= before + length + w);
    lemma_piece(whole, before, length, w);
    lemma_extends_append(before, length);
    lemma_cache_ok_extends(ctx.cache, before, before + length);
    assert(before + out.bytes =~= (before + length) + w);
    lemma_name_round_trip(before + length, whole, target, ctx.cache, ctx.recording);
}

/// A valid record body written to the wire and read back where it stands
/// is the same body; and the cache afterwards fits the bytes written.
pub proof fn lemma_rdata_round_trip(
    before: Seq<u8>,
    whole: Seq<u8>,
    rd: ResourceDataView,
    ctx: EncCtx,
)
    requires
        valid_rdata(rd),
        cache_ok(ctx.cache, before),
        ctx.start == before.len(),
        extends(whole, before + rdata_wire(rd, ctx).unwrap().bytes),
    ensures
        rdata_wire(rd, ctx) is Ok,
        parse_rdata(whole, before.len() as int, rd.query_type()) == Some(
            (rd, (before.len() + rdata_wire(rd, ctx).unwrap().bytes.len()) as int),
        ),
        cache_ok(rdata_wire(rd, ctx).unwrap().cache, before + rdata_wire(rd, ctx).unwrap().bytes),
{
    let none = Seq::<u8>::empty();
    match rd {
        ResourceDataView::UNKNOWN { qtype, rdata } => {
            let out = rdata_wire(rd, ctx).unwrap();
            let length = u16_bytes(rdata.len() as u16);
            assert(before + out.bytes =~= before + length + rdata);
            lemma_u16_round_trip(whole, before, rdata.len() as u16, rdata);
            assert(before + out.bytes =~= (before + length) + rdata + none);
            lemma_piece(whole, before + length, rdata, none);
            lemma_extends_append(before, out.bytes);
            lemma_cache_ok_extends(ctx.cache, before, before + out.bytes);
        },
        ResourceDataView::A { address } => {
            let out = rdata_wire(rd, ctx).unwrap();
            let length = u16_bytes(4);
            assert(before + out.bytes =~= before + length + address);
            lemma_u16_round_trip(whole, before, 4, address);
            assert(before + out.bytes =~= (before + length) + address + none);
            lemma_piece(whole, before + length, address, none);
            lemma_extends_append(before, out.bytes);
            lemma_cache_ok_extends(ctx.cache, before, before + out.bytes);
        },
        ResourceDataView::NS { ns_domain_name } => {
            lemma_name_rdata_round_trip(before, whole, ns_domain_name, ctx);
        },
        ResourceDataView::CNAME { cname } => {
            lemma_name_rdata_round_trip(before, whole, cname, ctx);
        },
        ResourceDataView::AAAA { address } => {
            let out = rdata_wire(rd, ctx).unwrap();
            let length = u16_bytes(16);
            assert(before + out.bytes =~= before + length + address);
            lemma_u16_round_trip(whole, before, 16, address);
            assert(before + out.bytes =~= (before + length) + address + none);
            lemma_piece(whole, before + length, address, none);
            lemma_extends_append(before, out.bytes);
            lemma_cache_ok_extends(ctx.cache, before, before + out.bytes);
        },
        ResourceDataView::OPT { options } => {
            let opts = options_of(options);
            let out = rdata_wire(rd, ctx).unwrap();
            let length = u16_bytes(options_size(opts) as u16);
            let no_options = Seq::<(u16, Seq<u8>)>::empty();
            if options is None {
                assert(options_size(no_options) == 0);
                assert(options_fit(no_options));
            }
            crate::resource_record::lemma_options_wire_len(opts);
            assert(before + out.bytes =~= before + length + options_wire(opts));
            lemma_u16_round_trip(whole, before, options_size(opts) as u16, options_wire(opts));
            assert(before + out.bytes =~= (before + length) + options_wire(opts));
            assert(no_options + opts =~= opts);
            if options is None {
                assert(distinct_codes(no_options + opts));
            }
            lemma_options_round_trip(whole, before + length, no_options, opts);
            if options is Some {
                lemma_options_wire_first(opts[0], opts.subrange(1, opts.len() as int));
                assert(opts =~= seq![opts[0]] + opts.subrange(1, opts.len() as int));
                assert(options_size(opts) > 0);
            }
            lemma_extends_append(before, out.bytes);
            lemma_cache_ok_extends(ctx.cache, before, before + out.bytes);
        },
    }
}

/// The bytes of a record before its body: name, type, class, time to live.
pub open spec fn record_head(rr: ResourceRecordView, cache: Map<Seq<u8>, usize>) -> Seq<u8> {
    name_wire(name_bytes(rr.name), cache).unwrap() + u16_bytes(
        rr.resource_data.query_type().spec_code(),
    ) + u16_bytes(rr.class) + u32_bytes(rr.ttl)
}

/// The context in which the body of a record is encoded.
pub open spec fn body_ctx(rr: ResourceRecordView, ctx: EncCtx) -> EncCtx {
    EncCtx {
        start: ctx.start + record_head(rr, ctx.cache).len(),
        cache: cache_after(ctx.cache, ctx.recording, name_bytes(rr.name), ctx.start),
        recording: ctx.recording,
    }
}

/// What stands before the body of a record is read back where it stands.
pub proof fn lemma_record_head(
    before: Seq<u8>,
    whole: Seq<u8>,
    rr: ResourceRecordView,
    ctx: EncCtx,
    behind: Seq<u8>,
)
    requires
        valid_name(rr.name),
        cache_ok(ctx.cache, before),
        ctx.start == before.len(),
        extends(whole, before + (record_head(rr, ctx.cache) + behind)),
    ensures
        name_wire(name_bytes(rr.name), ctx.cache) is Some,
        decode_name(whole, before.len() as int) == Some(
            (
                rr.name,
                (before.len() + name_wire(name_bytes(rr.name), ctx.cache).unwrap().len()) as int,
            ),
        ),
        before.len() + record_head(rr, ctx.cache).len() <= whole.len(),
        record_head(rr, ctx.cache).len() == name_wire(name_bytes(rr.name), ctx.cache).unwrap().len()
            + 8,
        u16_at(
            whole,
            (before.len() + name_wire(name_bytes(rr.name), ctx.cache).unwrap().len()) as int,
        ) == rr.resource_data.query_type().spec_code(),
        u16_at(
            whole,
            (before.len() + name_wire(name_bytes(rr.name), ctx.cache).unwrap().len() + 2) as int,
        ) == rr.class,
        u32_at(
            whole,
            (before.len() + name_wire(name_bytes(rr.name), ctx.cache).unwrap().len() + 4) as int,
        ) == rr.ttl,
        cache_ok(body_ctx(rr, ctx).cache, before + record_head(rr, ctx.cache)),
        extends(whole, (before + record_head(rr, ctx.cache)) + behind),
{
    let n = name_bytes(rr.name);
    lemma_name_wire_exists(n, 0, ctx.cache);
    let w = name_wire(n, ctx.cache).unwrap();
    let code = u16_bytes(rr.resource_data.query_type().spec_code());
    let class = u16_bytes(rr.class);
    let ttl = u32_bytes(rr.ttl);
    let head = record_head(rr, ctx.cache);
    let all = before + (head + behind);
    assert(all =~= before + w + (code + class + ttl + behind));
    lemma_piece(whole, before, w, code + class + ttl + behind);
    lemma_name_round_trip(before, whole, rr.name, ctx.cache, ctx.recording);
    assert(all =~= (before + w) + code + (class + ttl + behind));
    lemma_u16_round_trip(
        whole,
        before + w,
        rr.resource_data.query_type().spec_code(),
        class + ttl + behind,
    );
    assert(all =~= (before + w + code) + class + (ttl + behind));
    lemma_u16_round_trip(whole, before + w + code, rr.class, ttl + behind);
    assert(all =~= (before + w + code + class) + ttl + behind);
    lemma_u32_round_trip(whole, before + w + code + class, rr.ttl, behind);
    assert(before + head =~= (before + w) + (code + class + ttl));
    lemma_extends_append(before + w, code + class + ttl);
    lemma_cache_ok_extends(body_ctx(rr, ctx).cache, before + w, before + head);
    assert(all =~= (before + head) + behind);
}

/// A valid record written to the wire and read back where it stands is
/// the same record; and the cache afterwards fits the bytes written.
pub proof fn lemma_record_round_trip(
    before: Seq<u8>,
    whole: Seq<u8>,
    rr: ResourceRecordView,
    ctx: EncCtx,
)
    requires
        valid_record(rr),
        cache_ok(ctx.cache, before),
        ctx.start == before.len(),
        extends(whole, before + rr_wire(rr, ctx).unwrap().bytes),
    ensures
        rr_wire(rr, ctx) is Ok,
        rr_wire(rr, ctx).unwrap().size > 0,
        parse_rr(whole, before.len() as int) == Some(
            (rr, (before.len() + rr_wire(rr, ctx).unwrap().bytes.len()) as int),
        ),
        cache_ok(rr_wire(rr, ctx).unwrap().cache, before + rr_wire(rr, ctx).unwrap().bytes),
{
    lemma_name_wire_exists(name_bytes(rr.name), 0, ctx.cache);
    let head = record_head(rr, ctx.cache);
    let ctx1 = body_ctx(rr, ctx);
    lemma_body_exists(before + head, rr.resource_data, ctx1);
    let tail = rdata_wire(rr.resource_data, ctx1).unwrap().bytes;
    let out = rr_wire(rr, ctx).unwrap();
    assert(out.bytes == head + tail);
    lemma_record_head(before, whole, rr, ctx, tail);
    lemma_rdata_round_trip(before + head, whole, rr.resource_data, ctx1);
    lemma_type_round_trip(rr.resource_data);
    assert(before + out.bytes =~= (before + head) + tail);
}

/// The number of the type of a valid record body gives the type back.
pub proof fn lemma_type_round_trip(rd: ResourceDataView)
    requires
        valid_rdata(rd),
    ensures
        query_type_of(rd.query_type().spec_code()) == rd.query_type(),
{
}

/// A valid record body has a wire form.
pub proof fn lemma_body_exists(before: Seq<u8>, rd: ResourceDataView, ctx: EncCtx)
    requires
        valid_rdata(rd),
    ensures
        rdata_wire(rd, ctx) is Ok,
{
    match rd {
        ResourceDataView::NS { ns_domain_name } => {
            lemma_name_wire_exists(name_bytes(ns_domain_name), 0, ctx.cache);
        },
        ResourceDataView::CNAME { cname } => {
            lemma_name_wire_exists(name_bytes(cname), 0, ctx.cache);
        },
        ResourceDataView::OPT { options } => {
            if options is None {
                let no_options = Seq::<(u16, Seq<u8>)>::empty();
                assert(options_size(no_options) == 0);
                assert(options_fit(no_options));
            }
        },
        _ => {},
    }
}

/// Every question of the list survives the wire.
pub open spec fn valid_questions(questions: Seq<QuestionView>) -> bool {
    forall|k: int| 0 <= k < questions.len() ==> valid_question(#[trigger] questions[k])
}

/// Every record of the list survives the wire.
pub open spec fn valid_records(records: Seq<ResourceRecordView>) -> bool {
    forall|k: int| 0 <= k < records.len() ==> valid_record(#[trigger] records[k])
}

/// A message that survives the wire: the counts of its header are the
/// lengths of its sections, its questions and records are valid, at most
/// one of its additional records is an OPT record, and `edns` says where
/// that one stands.
pub open spec fn valid_packet(p: DnsPacketView) -> bool {
    &&& p.header.question_count == p.questions.len()
    &&& p.header.answer_rr_count == p.answers.len()
    &&& p.header.authority_rr_count == p.authorities.len()
    &&& p.header.additional_rr_count == p.additionals.len()
    &&& valid_questions(p.questions)
    &&& valid_records(p.answers)
    &&& valid_records(p.authorities)
    &&& valid_records(p.additionals)
    &&& at_most_one_opt(p.additionals)
    &&& p.edns == opt_position(p.additionals)
}

/// What a valid record is encoded as under a limit: nothing, with size
/// zero, or its wire form, with a size above zero.
pub proof fn lemma_record_step(rr: ResourceRecordView, ctx: EncCtx, limit: Option<usize>)
    requires
        valid_record(rr),
    ensures
        rr_wire(rr, ctx) is Ok,
        rr_wire(rr, ctx).unwrap().size > 0,
        rr_encoded(rr, ctx, limit) == Ok::<Encoded, DnsError>(skipped(ctx)) || rr_encoded(
            rr,
            ctx,
            limit,
        ) == rr_wire(rr, ctx),
        limit is None ==> rr_encoded(rr, ctx, limit) == rr_wire(rr, ctx),
{
    reveal(rr_encoded);
    lemma_name_wire_exists(name_bytes(rr.name), 0, ctx.cache);
    lemma_body_exists(Seq::empty(), rr.resource_data, body_ctx(rr, ctx));
}

/// What a valid question is encoded as under a limit: nothing, with size
/// zero, or its wire form, with a size above zero.
pub proof fn lemma_question_step(q: QuestionView, ctx: EncCtx, limit: Option<usize>)
    requires
        valid_question(q),
    ensures
        question_wire(q, ctx) is Ok,
        question_wire(q, ctx).unwrap().size > 0,
        question_encoded(q, ctx, limit) == Ok::<Encoded, DnsError>(skipped(ctx))
            || question_encoded(q, ctx, limit) == question_wire(q, ctx),
        limit is None ==> question_encoded(q, ctx, limit) == question_wire(q, ctx),
{
    reveal(question_encoded);
    lemma_name_wire_exists(name_bytes(q.qname), 0, ctx.cache);
}

/// Of the questions from the `i`-th on, those that are written under the
/// limit, in their order.
pub open spec fn kept_questions(
    questions: Seq<QuestionView>,
    i: int,
    ctx: EncCtx,
    used: nat,
    max_size: Option<usize>,
) -> Seq<QuestionView>
    decreases questions.len() - i,
{
    if i < 0 || i >= questions.len() {
        Seq::empty()
    } else {
        match question_encoded(questions[i], ctx, remaining(max_size, used)) {
            Ok(out) => (if out.size == 0 {
                Seq::empty()
            } else {
                seq![questions[i]]
            }) + kept_questions(questions, i + 1, ctx_after(ctx, out), used + out.size, max_size),
            Err(_) => Seq::empty(),
        }
    }
}

/// The running size behind a record that was encoded as `out`.
pub open spec fn used_after(
    rr: ResourceRecordView,
    spare_opt: bool,
    used: nat,
    out: Encoded,
) -> nat {
    if exempt(rr, spare_opt) {
        used
    } else {
        used + out.size
    }
}

/// The limit under which a record is encoded.
pub open spec fn limit_for(
    rr: ResourceRecordView,
    spare_opt: bool,
    used: nat,
    max_size: Option<usize>,
) -> Option<usize> {
    if exempt(rr, spare_opt) {
        None
    } else {
        remaining(max_size, used)
    }
}

/// Of the records from the `i`-th on, those that are written under the
/// limit, in their order.
pub open spec fn kept_records(
    records: Seq<ResourceRecordView>,
    i: int,
    ctx: EncCtx,
    used: nat,
    max_size: Option<usize>,
    spare_opt: bool,
) -> Seq<ResourceRecordView>
    decreases records.len() - i,
{
    if i < 0 || i >= records.len() {
        Seq::empty()
    } else {
        match rr_encoded(records[i], ctx, limit_for(records[i], spare_opt, used, max_size)) {
            Ok(out) => (if out.size == 0 {
                Seq::empty()
            } else {
                seq![records[i]]
            }) + kept_records(
                records,
                i + 1,
                ctx_after(ctx, out),
                used_after(records[i], spare_opt, used, out),
                max_size,
                spare_opt,
            ),
            Err(_) => Seq::empty(),
        }
    }
}

/// Valid questions are encoded without error; each is written or left
/// out, and with no limit all are written.
pub proof fn lemma_questions_written(
    questions: Seq<QuestionView>,
    i: int,
    ctx: EncCtx,
    used: nat,
    max_size: Option<usize>,
)
    requires
        valid_questions(questions),
        0 <= i <= questions.len(),
    ensures
        encode_questions(questions, i, ctx, used, max_size) is Ok,
        encode_questions(questions, i, ctx, used, max_size).unwrap().skipped + kept_questions(
            questions,
            i,
            ctx,
            used,
            max_size,
        ).len() == questions.len() - i,
        max_size is None ==> kept_questions(questions, i, ctx, used, max_size)
            == questions.subrange(i, questions.len() as int),
    decreases questions.len() - i,
{
    if i < questions.len() {
        let limit = remaining(max_size, used);
        lemma_question_step(questions[i], ctx, limit);
        let out = question_encoded(questions[i], ctx, limit).unwrap();
        lemma_questions_written(questions, i + 1, ctx_after(ctx, out), used + out.size, max_size);
        if max_size is None {
            assert(seq![questions[i]] + questions.subrange(i + 1, questions.len() as int)
                =~= questions.subrange(i, questions.len() as int));
        }
    } else {
        assert(questions.subrange(i, questions.len() as int) =~= Seq::<QuestionView>::empty());
    }
}

/// Valid records are encoded without error; each is written or left out,
/// and with no limit all are written.
pub proof fn lemma_records_written(
    records: Seq<ResourceRecordView>,
    i: int,
    ctx: EncCtx,
    used: nat,
    max_size: Option<usize>,
    spare_opt: bool,
)
    requires
        valid_records(records),
        0 <= i <= records.len(),
    ensures
        encode_records(records, i, ctx, used, max_size, spare_opt) is Ok,
        encode_records(records, i, ctx, used, max_size, spare_opt).unwrap().skipped
            + kept_records(records, i, ctx, used, max_size, spare_opt).len() == records.len() - i,
        max_size is None ==> kept_records(records, i, ctx, used, max_size, spare_opt)
            == records.subrange(i, records.len() as int),
    decreases records.len() - i,
{
    if i < records.len() {
        let rr = records[i];
        let limit = limit_for(rr, spare_opt, used, max_size);
        lemma_record_step(rr, ctx, limit);
        let out = rr_encoded(rr, ctx, limit).unwrap();
        lemma_records_written(
            records,
            i + 1,
            ctx_after(ctx, out),
            used_after(rr, spare_opt, used, out),
            max_size,
            spare_opt,
        );
        if max_size is None {
            assert(seq![rr] + records.subrange(i + 1, records.len() as int) =~= records.subrange(
                i,
                records.len() as int,
            ));
        }
    } else {
        assert(records.subrange(i, records.len() as int) =~= Seq::<ResourceRecordView>::empty());
    }
}

/// The questions written to the wire under a limit and read back where
/// they stand are the questions that were written; and the cache
/// afterwards fits the bytes written.
pub proof fn lemma_questions_round_trip(
    before: Seq<u8>,
    whole: Seq<u8>,
    questions: Seq<QuestionView>,
    i: int,
    ctx: EncCtx,
    used: nat,
    max_size: Option<usize>,
)
    requires
        valid_questions(questions),
        0 <= i <= questions.len(),
        cache_ok(ctx.cache, before),
        ctx.start == before.len(),
        extends(
            whole,
            before + encode_questions(questions, i, ctx, used, max_size).unwrap().bytes,
        ),
    ensures
        parse_questions(
            whole,
            before.len() as int,
            kept_questions(questions, i, ctx, used, max_size).len(),
        ) == Some(
            (
                kept_questions(questions, i, ctx, used, max_size),
                (before.len() + encode_questions(
                    questions,
                    i,
                    ctx,
                    used,
                    max_size,
                ).unwrap().bytes.len()) as int,
            ),
        ),
        cache_ok(
            encode_questions(questions, i, ctx, used, max_size).unwrap().cache,
            before + encode_questions(questions, i, ctx, used, max_size).unwrap().bytes,
        ),
    decreases questions.len() - i,
{
    lemma_questions_written(questions, i, ctx, used, max_size);
    let sec = encode_questions(questions, i, ctx, used, max_size).unwrap();
    let kept = kept_questions(questions, i, ctx, used, max_size);
    if i < questions.len() {
        let q = questions[i];
        let limit = remaining(max_size, used);
        lemma_question_step(q, ctx, limit);
        let out = question_encoded(q, ctx, limit).unwrap();
        let ctx1 = ctx_after(ctx, out);
        lemma_questions_written(questions, i + 1, ctx1, used + out.size, max_size);
        let rest = encode_questions(questions, i + 1, ctx1, used + out.size, max_size).unwrap();
        let kept_rest = kept_questions(questions, i + 1, ctx1, used + out.size, max_size);
        assert(sec.bytes == out.bytes + rest.bytes);
        assert(before + sec.bytes =~= before + out.bytes + rest.bytes);
        lemma_piece(whole, before, out.bytes, rest.bytes);
        assert(before + sec.bytes =~= (before + out.bytes) + rest.bytes);
        if out.size == 0 {
            assert(before + out.bytes =~= before);
            lemma_questions_round_trip(before, whole, questions, i + 1, ctx1, used, max_size);
            assert(kept =~= kept_rest);
        } else {
            lemma_question_round_trip(before, whole, q, ctx);
            lemma_questions_round_trip(
                before + out.bytes,
                whole,
                questions,
                i + 1,
                ctx1,
                used + out.size,
                max_size,
            );
            assert(kept == seq![q] + kept_rest);
        }
    } else {
        assert(before + sec.bytes =~= before);
    }
}

/// The records written to the wire under a limit and read back where
/// they stand are the records that were written; and the cache afterwards
/// fits the bytes written.
pub proof fn lemma_records_round_trip(
    before: Seq<u8>,
    whole: Seq<u8>,
    records: Seq<ResourceRecordView>,
    i: int,
    ctx: EncCtx,
    used: nat,
    max_size: Option<usize>,
    spare_opt: bool,
)
    requires
        valid_records(records),
        0 <= i <= records.len(),
        cache_ok(ctx.cache, before),
        ctx.start == before.len(),
        extends(
            whole,
            before + encode_records(records, i, ctx, used, max_size, spare_opt).unwrap().bytes,
        ),
    ensures
        parse_records(
            whole,
            before.len() as int,
            kept_records(records, i, ctx, used, max_size, spare_opt).len(),
        ) == Some(
            (
                kept_records(records, i, ctx, used, max_size, spare_opt),
                (before.len() + encode_records(
                    records,
                    i,
                    ctx,
                    used,
                    max_size,
                    spare_opt,
                ).unwrap().bytes.len()) as int,
            ),
        ),
        cache_ok(
            encode_records(records, i, ctx, used, max_size, spare_opt).unwrap().cache,
            before + encode_records(records, i, ctx, used, max_size, spare_opt).unwrap().bytes,
        ),
    decreases records.len() - i,
{
    lemma_records_written(records, i, ctx, used, max_size, spare_opt);
    let sec = encode_records(records, i, ctx, used, max_size, spare_opt).unwrap();
    let kept = kept_records(records, i, ctx, used, max_size, spare_opt);
    if i < records.len() {
        let rr = records[i];
        let limit = limit_for(rr, spare_opt, used, max_size);
        lemma_record_step(rr, ctx, limit);
        let out = rr_encoded(rr, ctx, limit).unwrap();
        let ctx1 = ctx_after(ctx, out);
        let next_used = used_after(rr, spare_opt, used, out);
        lemma_records_written(records, i + 1, ctx1, next_used, max_size, spare_opt);
        let rest = encode_records(records, i + 1, ctx1, next_used, max_size, spare_opt).unwrap();
        let kept_rest = kept_records(records, i + 1, ctx1, next_used, max_size, spare_opt);
        assert(sec.bytes == out.bytes + rest.bytes);
        assert(before + sec.bytes =~= before + out.bytes + rest.bytes);
        lemma_piece(whole, before, out.bytes, rest.bytes);
        assert(before + sec.bytes =~= (before + out.bytes) + rest.bytes);
        if out.size == 0 {
            assert(before + out.bytes =~= before);
            lemma_records_round_trip(
                before,
                whole,
                records,
                i + 1,
                ctx1,
                next_used,
                max_size,
                spare_opt,
            );
            assert(kept =~= kept_rest);
        } else {
            lemma_record_round_trip(before, whole, rr, ctx);
            lemma_records_round_trip(
                before + out.bytes,
                whole,
                records,
                i + 1,
                ctx1,
                next_used,
                max_size,
                spare_opt,
            );
            assert(kept == seq![rr] + kept_rest);
        }
    } else {
        assert(before + sec.bytes =~= before);
    }
}

/// The context in which the sections of a message are encoded: behind
/// the header.
pub open spec fn behind_header(ctx: EncCtx) -> EncCtx {
    EncCtx { start: ctx.start + HEADER_SIZE as nat, cache: ctx.cache, recording: ctx.recording }
}

/// The running size with which the sections of `p` start: the header and
/// what is set aside for the OPT record.
pub open spec fn used_at_start(p: DnsPacketView) -> nat {
    HEADER_SIZE as nat + opt_reserve(p)
}

/// The questions of `p` that are written under the limit.
pub open spec fn kept_q(p: DnsPacketView, ctx: EncCtx, max_size: Option<usize>) -> Seq<QuestionView> {
    kept_questions(p.questions, 0, behind_header(ctx), used_at_start(p), max_size)
}

/// What encoding the questions of `p` yields.
pub open spec fn out_q(p: DnsPacketView, ctx: EncCtx, max_size: Option<usize>) -> SectionOut {
    encode_questions(p.questions, 0, behind_header(ctx), used_at_start(p), max_size).unwrap()
}

/// The answers of `p` that are written under the limit.
pub open spec fn kept_a(p: DnsPacketView, ctx: EncCtx, max_size: Option<usize>) -> Seq<
    ResourceRecordView,
> {
    kept_records(
        p.answers,
        0,
        ctx_next(behind_header(ctx), out_q(p, ctx, max_size)),
        out_q(p, ctx, max_size).used,
        max_size,
        false,
    )
}

/// What encoding the answers of `p` yields.
pub open spec fn out_a(p: DnsPacketView, ctx: EncCtx, max_size: Option<usize>) -> SectionOut {
    encode_records(
        p.answers,
        0,
        ctx_next(behind_header(ctx), out_q(p, ctx, max_size)),
        out_q(p, ctx, max_size).used,
        max_size,
        false,
    ).unwrap()
}

/// The context in which the authority records of `p` are encoded.
pub open spec fn ctx_n(p: DnsPacketView, ctx: EncCtx, max_size: Option<usize>) -> EncCtx {
    ctx_next(ctx_next(behind_header(ctx), out_q(p, ctx, max_size)), out_a(p, ctx, max_size))
}

/// The authority records of `p` that are written under the limit.
pub open spec fn kept_n(p: DnsPacketView, ctx: EncCtx, max_size: Option<usize>) -> Seq<
    ResourceRecordView,
> {
    kept_records(
        p.authorities,
        0,
        ctx_n(p, ctx, max_size),
        out_a(p, ctx, max_size).used,
        max_size,
        false,
    )
}

/// What encoding the authority records of `p` yields.
pub open spec fn out_n(p: DnsPacketView, ctx: EncCtx, max_size: Option<usize>) -> SectionOut {
    encode_records(
        p.authorities,
        0,
        ctx_n(p, ctx, max_size),
        out_a(p, ctx, max_size).used,
        max_size,
        false,
    ).unwrap()
}

/// The additional records of `p` that are written under the limit.
pub open spec fn kept_r(p: DnsPacketView, ctx: EncCtx, max_size: Option<usize>) -> Seq<
    ResourceRecordView,
> {
    kept_records(
        p.additionals,
        0,
        ctx_next(ctx_n(p, ctx, max_size), out_n(p, ctx, max_size)),
        out_n(p, ctx, max_size).used,
        max_size,
        true,
    )
}

/// What encoding the additional records of `p` yields.
pub open spec fn out_r(p: DnsPacketView, ctx: EncCtx, max_size: Option<usize>) -> SectionOut {
    encode_records(
        p.additionals,
        0,
        ctx_next(ctx_n(p, ctx, max_size), out_n(p, ctx, max_size)),
        out_n(p, ctx, max_size).used,
        max_size,
        true,
    ).unwrap()
}

/// The message that is left of `p` when it is encoded under the limit:
/// of each section the entries that are written, in their order, and the
/// header that says how many were left out.
pub open spec fn kept_packet(p: DnsPacketView, ctx: EncCtx, max_size: Option<usize>) -> DnsPacketView {
    DnsPacketView {
        header: truncated_header(
            p.header,
            out_q(p, ctx, max_size).skipped,
            out_a(p, ctx, max_size).skipped,
            out_n(p, ctx, max_size).skipped,
            out_r(p, ctx, max_size).skipped,
        ),
        edns: opt_position(kept_r(p, ctx, max_size)),
        questions: kept_q(p, ctx, max_size),
        answers: kept_a(p, ctx, max_size),
        authorities: kept_n(p, ctx, max_size),
        additionals: kept_r(p, ctx, max_size),
    }
}

/// The sections of a valid message are encoded without error.
pub proof fn lemma_body_written(p: DnsPacketView, ctx: EncCtx, max_size: Option<usize>)
    requires
        valid_packet(p),
    ensures
        body_encoded(p, behind_header(ctx), used_at_start(p), max_size) == Ok::<BodyOut, DnsError>(
            BodyOut {
                bytes: out_q(p, ctx, max_size).bytes + out_a(p, ctx, max_size).bytes + out_n(
                    p,
                    ctx,
                    max_size,
                ).bytes + out_r(p, ctx, max_size).bytes,
                cache: out_r(p, ctx, max_size).cache,
                used: out_r(p, ctx, max_size).used,
                questions: out_q(p, ctx, max_size).skipped,
                answers: out_a(p, ctx, max_size).skipped,
                authorities: out_n(p, ctx, max_size).skipped,
                additionals: out_r(p, ctx, max_size).skipped,
            },
        ),
        out_q(p, ctx, max_size).skipped + kept_q(p, ctx, max_size).len() == p.questions.len(),
        out_a(p, ctx, max_size).skipped + kept_a(p, ctx, max_size).len() == p.answers.len(),
        out_n(p, ctx, max_size).skipped + kept_n(p, ctx, max_size).len() == p.authorities.len(),
        out_r(p, ctx, max_size).skipped + kept_r(p, ctx, max_size).len() == p.additionals.len(),
        max_size is None ==> kept_packet(p, ctx, max_size) == p,
{
    reveal(body_encoded);
    let ctx0 = behind_header(ctx);
    lemma_questions_written(p.questions, 0, ctx0, used_at_start(p), max_size);
    let q = out_q(p, ctx, max_size);
    let ctx1 = ctx_next(ctx0, q);
    lemma_records_written(p.answers, 0, ctx1, q.used, max_size, false);
    let a = out_a(p, ctx, max_size);
    let ctx2 = ctx_n(p, ctx, max_size);
    lemma_records_written(p.authorities, 0, ctx2, a.used, max_size, false);
    let n = out_n(p, ctx, max_size);
    let ctx3 = ctx_next(ctx2, n);
    lemma_records_written(p.additionals, 0, ctx3, n.used, max_size, true);
    if max_size is None {
        assert(p.questions.subrange(0, p.questions.len() as int) =~= p.questions);
        assert(p.answers.subrange(0, p.answers.len() as int) =~= p.answers);
        assert(p.authorities.subrange(0, p.authorities.len() as int) =~= p.authorities);
        assert(p.additionals.subrange(0, p.additionals.len() as int) =~= p.additionals);
    }
}

/// Whether the four sections of `p` are read from `pos` on, one behind
/// the other, up to `end`.
pub open spec fn sections_read(whole: Seq<u8>, pos: int, p: DnsPacketView, end: int) -> bool {
    match parse_questions(whole, pos, p.questions.len()) {
        Some((questions, behind_questions)) => questions == p.questions && match parse_records(
            whole,
            behind_questions,
            p.answers.len(),
        ) {
            Some((answers, behind_answers)) => answers == p.answers && match parse_records(
                whole,
                behind_answers,
                p.authorities.len(),
            ) {
                Some((authorities, behind_authorities)) => authorities == p.authorities && parse_records(
                    whole,
                    behind_authorities,
                    p.additionals.len(),
                ) == Some((p.additionals, end)),
                None => false,
            },
            None => false,
        },
        None => false,
    }
}

/// The sections of a valid message written to the wire under a limit
/// and read back where they stand are the sections that were written.
pub proof fn lemma_body_round_trip(
    before: Seq<u8>,
    whole: Seq<u8>,
    p: DnsPacketView,
    ctx: EncCtx,
    max_size: Option<usize>,
)
    requires
        valid_packet(p),
        cache_ok(ctx.cache, before),
        ctx.start + HEADER_SIZE == before.len(),
        extends(
            whole,
            before + body_encoded(p, behind_header(ctx), used_at_start(p), max_size).unwrap().bytes,
        ),
    ensures
        sections_read(
            whole,
            before.len() as int,
            kept_packet(p, ctx, max_size),
            (before.len() + body_encoded(
                p,
                behind_header(ctx),
                used_at_start(p),
                max_size,
            ).unwrap().bytes.len()) as int,
        ),
{
    lemma_body_written(p, ctx, max_size);
    let ctx0 = behind_header(ctx);
    let body = body_encoded(p, ctx0, used_at_start(p), max_size).unwrap();
    let q = out_q(p, ctx, max_size);
    let ctx1 = ctx_next(ctx0, q);
    let a = out_a(p, ctx, max_size);
    let ctx2 = ctx_n(p, ctx, max_size);
    let n = out_n(p, ctx, max_size);
    let ctx3 = ctx_next(ctx2, n);
    let r = out_r(p, ctx, max_size);
    let b1 = before + q.bytes;
    let b2 = b1 + a.bytes;
    let b3 = b2 + n.bytes;
    assert(before + body.bytes =~= before + q.bytes + (a.bytes + n.bytes + r.bytes));
    lemma_piece(whole, before, q.bytes, a.bytes + n.bytes + r.bytes);
    lemma_questions_round_trip(before, whole, p.questions, 0, ctx0, used_at_start(p), max_size);
    assert(before + body.bytes =~= b1 + a.bytes + (n.bytes + r.bytes));
    lemma_piece(whole, b1, a.bytes, n.bytes + r.bytes);
    lemma_records_round_trip(b1, whole, p.answers, 0, ctx1, q.used, max_size, false);
    assert(before + body.bytes =~= b2 + n.bytes + r.bytes);
    lemma_piece(whole, b2, n.bytes, r.bytes);
    lemma_records_round_trip(b2, whole, p.authorities, 0, ctx2, a.used, max_size, false);
    assert(before + body.bytes =~= b3 + r.bytes);
    lemma_records_round_trip(b3, whole, p.additionals, 0, ctx3, n.used, max_size, true);
}

/// An OPT record among the records written is an OPT record among the
/// records given.
pub proof fn lemma_kept_opt(
    records: Seq<ResourceRecordView>,
    i: int,
    ctx: EncCtx,
    used: nat,
    max_size: Option<usize>,
    spare_opt: bool,
)
    requires
        0 <= i <= records.len(),
        has_opt(kept_records(records, i, ctx, used, max_size, spare_opt)),
    ensures
        exists|k: int| i <= k < records.len() && is_opt(#[trigger] records[k]),
    decreases records.len() - i,
{
    let kept = kept_records(records, i, ctx, used, max_size, spare_opt);
    if i < records.len() {
        let rr = records[i];
        let encoded = rr_encoded(rr, ctx, limit_for(rr, spare_opt, used, max_size));
        if encoded is Ok {
            let out = encoded.unwrap();
            let rest = kept_records(
                records,
                i + 1,
                ctx_after(ctx, out),
                used_after(rr, spare_opt, used, out),
                max_size,
                spare_opt,
            );
            let at = choose|a: int| 0 <= a < kept.len() && is_opt(#[trigger] kept[a]);
            if out.size != 0 && at == 0 {
                assert(kept[0] == rr);
                assert(is_opt(records[i]));
            } else {
                let shift: int = if out.size == 0 {
                    0
                } else {
                    1
                };
                assert(kept[at] == rest[at - shift]);
                assert(is_opt(rest[at - shift]));
                lemma_kept_opt(
                    records,
                    i + 1,
                    ctx_after(ctx, out),
                    used_after(rr, spare_opt, used, out),
                    max_size,
                    spare_opt,
                );
            }
        }
    }
}

/// Where the records given hold at most one OPT record, the records
/// written hold at most one.
pub proof fn lemma_kept_single_opt(
    records: Seq<ResourceRecordView>,
    i: int,
    ctx: EncCtx,
    used: nat,
    max_size: Option<usize>,
    spare_opt: bool,
)
    requires
        0 <= i <= records.len(),
        at_most_one_opt(records),
    ensures
        at_most_one_opt(kept_records(records, i, ctx, used, max_size, spare_opt)),
    decreases records.len() - i,
{
    let kept = kept_records(records, i, ctx, used, max_size, spare_opt);
    if i < records.len() {
        let rr = records[i];
        let encoded = rr_encoded(rr, ctx, limit_for(rr, spare_opt, used, max_size));
        if encoded is Ok {
            let out = encoded.unwrap();
            let ctx1 = ctx_after(ctx, out);
            let next_used = used_after(rr, spare_opt, used, out);
            let rest = kept_records(records, i + 1, ctx1, next_used, max_size, spare_opt);
            lemma_kept_single_opt(records, i + 1, ctx1, next_used, max_size, spare_opt);
            if has_two_opts(kept) {
                let (a, b) = choose|a: int, b: int|
                    0 <= a < b < kept.len() && is_opt(#[trigger] kept[a]) && is_opt(
                        #[trigger] kept[b],
                    );
                if out.size == 0 {
                    assert(kept =~= rest);
                } else if a == 0 {
                    assert(kept[0] == rr);
                    assert(kept[b] == rest[b - 1]);
                    assert(is_opt(rest[b - 1]));
                    lemma_kept_opt(records, i + 1, ctx1, next_used, max_size, spare_opt);
                    let k = choose|k: int| i + 1 <= k < records.len() && is_opt(
                        #[trigger] records[k],
                    );
                    assert(is_opt(records[i]) && is_opt(records[k]));
                } else {
                    assert(kept[a] == rest[a - 1]);
                    assert(kept[b] == rest[b - 1]);
                    assert(is_opt(rest[a - 1]) && is_opt(rest[b - 1]));
                }
            }
        }
    }
}

/// The header of what is left of a valid message counts what is left,
/// and has the TC bit set if the message had it set or an entry was left
/// out.
pub proof fn lemma_kept_header(p: DnsPacketView, ctx: EncCtx, max_size: Option<usize>)
    requires
        valid_packet(p),
    ensures
        kept_packet(p, ctx, max_size).header.question_count == kept_q(p, ctx, max_size).len(),
        kept_packet(p, ctx, max_size).header.answer_rr_count == kept_a(p, ctx, max_size).len(),
        kept_packet(p, ctx, max_size).header.authority_rr_count == kept_n(p, ctx, max_size).len(),
        kept_packet(p, ctx, max_size).header.additional_rr_count == kept_r(p, ctx, max_size).len(),
        kept_packet(p, ctx, max_size).header.truncation == (p.header.truncation || kept_q(
            p,
            ctx,
            max_size,
        ).len() < p.questions.len() || kept_a(p, ctx, max_size).len() < p.answers.len() || kept_n(
            p,
            ctx,
            max_size,
        ).len() < p.authorities.len() || kept_r(p, ctx, max_size).len() < p.additionals.len()),
{
    lemma_body_written(p, ctx, max_size);
}

/// The bytes of a message: its header and its sections.
pub proof fn lemma_encoded_bytes(p: DnsPacketView, ctx: EncCtx, max_size: Option<usize>)
    requires
        valid_packet(p),
        packet_encoded(p, ctx, max_size) is Ok,
    ensures
        packet_encoded(p, ctx, max_size).unwrap().bytes == header_wire(
            kept_packet(p, ctx, max_size).header,
        ) + body_encoded(p, behind_header(ctx), used_at_start(p), max_size).unwrap().bytes,
        body_encoded(p, behind_header(ctx), used_at_start(p), max_size) is Ok,
        header_wire(kept_packet(p, ctx, max_size).header).len() == HEADER_SIZE,
{
    lemma_body_written(p, ctx, max_size);
}

/// A message is read where its header is read and its sections are read
/// behind it, if at most one of its additional records is an OPT record.
pub proof fn lemma_parse_packet(whole: Seq<u8>, pos: int, p: DnsPacketView, end: int)
    requires
        parse_header(whole, pos) == Some(p.header),
        p.header.question_count == p.questions.len(),
        p.header.answer_rr_count == p.answers.len(),
        p.header.authority_rr_count == p.authorities.len(),
        p.header.additional_rr_count == p.additionals.len(),
        sections_read(whole, pos + HEADER_SIZE, p, end),
        at_most_one_opt(p.additionals),
        p.edns == opt_position(p.additionals),
    ensures
        parse_packet(whole, pos) == Some((p, end)),
{
}

/// A valid message, encoded under a limit that it does not fail and
/// decoded again, is what is left of the message: of each section the
/// entries that fit, in their order, and the header with the counts of
/// what is left. This holds wherever in a buffer the message is written,
/// if the label cache fits what stands before it.
pub proof fn lemma_encoded_round_trip(
    before: Seq<u8>,
    p: DnsPacketView,
    ctx: EncCtx,
    max_size: Option<usize>,
)
    requires
        valid_packet(p),
        cache_ok(ctx.cache, before),
        ctx.start == before.len(),
        packet_encoded(p, ctx, max_size) is Ok,
    ensures
        parse_packet(
            before + packet_encoded(p, ctx, max_size).unwrap().bytes,
            before.len() as int,
        ) == Some(
            (
                kept_packet(p, ctx, max_size),
                (before.len() + packet_encoded(p, ctx, max_size).unwrap().bytes.len()) as int,
            ),
        ),
{
    let ctx0 = behind_header(ctx);
    lemma_encoded_bytes(p, ctx, max_size);
    let body = body_encoded(p, ctx0, used_at_start(p), max_size).unwrap();
    let out = packet_encoded(p, ctx, max_size).unwrap();
    let kept = kept_packet(p, ctx, max_size);
    let head = header_wire(kept.header);
    let whole = before + out.bytes;
    assert(whole =~= before + head + body.bytes);
    lemma_header_round_trip(kept.header, before, body.bytes);
    let b0 = before + head;
    lemma_extends_append(before, head);
    lemma_cache_ok_extends(ctx.cache, before, b0);
    lemma_extends_self(whole);
    assert(whole =~= b0 + body.bytes);
    lemma_body_round_trip(b0, whole, p, ctx, max_size);
    lemma_kept_single_opt(
        p.additionals,
        0,
        ctx_next(ctx_n(p, ctx, max_size), out_n(p, ctx, max_size)),
        out_n(p, ctx, max_size).used,
        max_size,
        true,
    );
    lemma_kept_header(p, ctx, max_size);
    lemma_parse_packet(
        whole,
        before.len() as int,
        kept,
        (before.len() + out.bytes.len()) as int,
    );
}

/// For every valid message: encoded with no limit on its size and decoded
/// again, it is the same message, with the flags of its header, the
/// order of its sections and the body of every record.
pub proof fn lemma_packet_round_trip(before: Seq<u8>, p: DnsPacketView, ctx: EncCtx)
    requires
        valid_packet(p),
        cache_ok(ctx.cache, before),
        ctx.start == before.len(),
    ensures
        packet_encoded(p, ctx, None) is Ok,
        parse_packet(
            before + packet_encoded(p, ctx, None).unwrap().bytes,
            before.len() as int,
        ) == Some(
            (p, (before.len() + packet_encoded(p, ctx, None).unwrap().bytes.len()) as int),
        ),
{
    lemma_body_written(p, ctx, None);
    lemma_encoded_round_trip(before, p, ctx, None);
}

/// Every name that `small` holds is held by `large`.
pub open spec fn holds_all(large: Map<Seq<u8>, usize>, small: Map<Seq<u8>, usize>) -> bool {
    forall|k: Seq<u8>| #[trigger] small.contains_key(k) ==> large.contains_key(k)
}

/// With more names in the cache a name does not get longer on the wire.
pub proof fn lemma_name_size_shrinks(
    n: Seq<u8>,
    i: int,
    small: Map<Seq<u8>, usize>,
    large: Map<Seq<u8>, usize>,
)
    requires
        holds_all(large, small),
        0 <= i,
    ensures
        name_size_from(n, i, large) <= name_size_from(n, i, small),
        name_size_from(n, i, large) >= 1,
    decreases n.len() - i,
{
    if i < n.len() {
        lemma_label_ends(n, i);
        let l = label_len(n, i);
        if l == 0 {
            lemma_name_size_shrinks(n, i + 1, small, large);
        } else {
            let key = n.subrange(i, n.len() as int);
            if i + l < n.len() {
                lemma_name_size_shrinks(n, i + l + 1, small, large);
                lemma_name_size_shrinks(n, i + l + 1, small, small);
            }
            if small.contains_key(key) {
                assert(large.contains_key(key));
            }
        }
    }
}

/// The wire form of a name is as long as its size says.
pub proof fn lemma_name_wire_len(n: Seq<u8>, i: int, cache: Map<Seq<u8>, usize>)
    requires
        0 <= i,
        name_wire_from(n, i, cache) is Some,
    ensures
        name_wire_from(n, i, cache).unwrap().len() == name_size_from(n, i, cache),
    decreases n.len() - i,
{
    if i < n.len() {
        lemma_label_ends(n, i);
        let l = label_len(n, i);
        if l == 0 {
            lemma_name_wire_len(n, i + 1, cache);
        } else if !cache.contains_key(n.subrange(i, n.len() as int)) {
            if i + l < n.len() {
                lemma_name_wire_len(n, i + l + 1, cache);
            }
        }
    }
}

/// The wire form of a valid question is as long as the size computed in
/// advance.
pub proof fn lemma_question_fits(q: QuestionView, ctx: EncCtx)
    requires
        valid_question(q),
    ensures
        question_wire(q, ctx) is Ok,
        question_wire(q, ctx).unwrap().bytes.len() == question_size_bound(q, ctx.cache),
        question_wire(q, ctx).unwrap().size == question_size_bound(q, ctx.cache),
{
    lemma_name_wire_exists(name_bytes(q.qname), 0, ctx.cache);
    lemma_name_wire_len(name_bytes(q.qname), 0, ctx.cache);
}

/// The wire form of a valid record body is not longer than the size
/// computed in advance with a cache that held no more names.
pub proof fn lemma_body_fits(rd: ResourceDataView, ctx: EncCtx, earlier: Map<Seq<u8>, usize>)
    requires
        valid_rdata(rd),
        holds_all(ctx.cache, earlier),
    ensures
        rdata_wire(rd, ctx) is Ok,
        rdata_wire(rd, ctx).unwrap().bytes.len() <= rdata_size_bound(rd, earlier),
{
    lemma_body_exists(Seq::empty(), rd, ctx);
    match rd {
        ResourceDataView::NS { ns_domain_name } => {
            lemma_name_wire_len(name_bytes(ns_domain_name), 0, ctx.cache);
            lemma_name_size_shrinks(name_bytes(ns_domain_name), 0, earlier, ctx.cache);
        },
        ResourceDataView::CNAME { cname } => {
            lemma_name_wire_len(name_bytes(cname), 0, ctx.cache);
            lemma_name_size_shrinks(name_bytes(cname), 0, earlier, ctx.cache);
        },
        ResourceDataView::OPT { options } => {
            crate::resource_record::lemma_options_wire_len(options_of(options));
        },
        _ => {},
    }
}

/// The wire form of a valid record is not longer than the size computed
/// in advance, and that size is not larger than the size computed with an
/// empty cache.
pub proof fn lemma_record_fits(rr: ResourceRecordView, ctx: EncCtx)
    requires
        valid_record(rr),
    ensures
        rr_wire(rr, ctx) is Ok,
        rr_wire(rr, ctx).unwrap().bytes.len() <= rr_size_bound(rr, ctx.cache),
        rr_wire(rr, ctx).unwrap().size == rr_size_bound(rr, ctx.cache),
        rr_size_bound(rr, ctx.cache) <= rr_size_bound(rr, Map::empty()),
{
    let n = name_bytes(rr.name);
    lemma_name_wire_exists(n, 0, ctx.cache);
    lemma_name_wire_len(n, 0, ctx.cache);
    let ctx1 = body_ctx(rr, ctx);
    lemma_recorded_grows(n, 0, ctx.cache, ctx.cache, ctx.recording, ctx.start);
    assert(holds_all(ctx1.cache, ctx.cache));
    lemma_body_fits(rr.resource_data, ctx1, ctx.cache);
    let none = Map::<Seq<u8>, usize>::empty();
    assert(holds_all(ctx.cache, none));
    lemma_name_size_shrinks(n, 0, none, ctx.cache);
    match rr.resource_data {
        ResourceDataView::NS { ns_domain_name } => {
            lemma_name_size_shrinks(name_bytes(ns_domain_name), 0, none, ctx.cache);
        },
        ResourceDataView::CNAME { cname } => {
            lemma_name_size_shrinks(name_bytes(cname), 0, none, ctx.cache);
        },
        _ => {},
    }
}

/// The questions written under a limit take up no more than the running
/// size grows by, and the running size stays within the limit.
pub proof fn lemma_questions_fit(
    questions: Seq<QuestionView>,
    i: int,
    ctx: EncCtx,
    used: nat,
    limit: usize,
)
    requires
        valid_questions(questions),
        0 <= i <= questions.len(),
        1 <= used <= limit,
    ensures
        encode_questions(questions, i, ctx, used, Some(limit)) is Ok,
        used <= encode_questions(questions, i, ctx, used, Some(limit)).unwrap().used <= limit,
        encode_questions(questions, i, ctx, used, Some(limit)).unwrap().bytes.len()
            <= encode_questions(questions, i, ctx, used, Some(limit)).unwrap().used - used,
    decreases questions.len() - i,
{
    lemma_questions_written(questions, i, ctx, used, Some(limit));
    if i < questions.len() {
        let q = questions[i];
        let left = remaining(Some(limit), used);
        lemma_question_step(q, ctx, left);
        lemma_question_fits(q, ctx);
        reveal(question_encoded);
        let out = question_encoded(q, ctx, left).unwrap();
        lemma_questions_fit(questions, i + 1, ctx_after(ctx, out), used + out.size, limit);
    }
}

/// The sizes set aside for the records from the `i`-th on that are
/// written whatever the limit.
pub open spec fn spared_sizes(records: Seq<ResourceRecordView>, i: int, spare_opt: bool) -> nat
    decreases records.len() - i,
{
    if i < 0 || i >= records.len() {
        0
    } else {
        (if exempt(records[i], spare_opt) {
            rr_size_bound(records[i], Map::empty())
        } else {
            0
        }) + spared_sizes(records, i + 1, spare_opt)
    }
}

/// The records written under a limit take up no more than the running
/// size grows by and what was set aside for those written whatever the
/// limit, and the running size stays within the limit.
pub proof fn lemma_records_fit(
    records: Seq<ResourceRecordView>,
    i: int,
    ctx: EncCtx,
    used: nat,
    limit: usize,
    spare_opt: bool,
)
    requires
        valid_records(records),
        0 <= i <= records.len(),
        1 <= used <= limit,
    ensures
        encode_records(records, i, ctx, used, Some(limit), spare_opt) is Ok,
        used <= encode_records(records, i, ctx, used, Some(limit), spare_opt).unwrap().used
            <= limit,
        encode_records(records, i, ctx, used, Some(limit), spare_opt).unwrap().bytes.len()
            <= encode_records(records, i, ctx, used, Some(limit), spare_opt).unwrap().used - used
            + spared_sizes(records, i, spare_opt),
    decreases records.len() - i,
{
    lemma_records_written(records, i, ctx, used, Some(limit), spare_opt);
    if i < records.len() {
        let rr = records[i];
        let left = limit_for(rr, spare_opt, used, Some(limit));
        lemma_record_step(rr, ctx, left);
        lemma_record_fits(rr, ctx);
        reveal(rr_encoded);
        let out = rr_encoded(rr, ctx, left).unwrap();
        lemma_records_fit(
            records,
            i + 1,
            ctx_after(ctx, out),
            used_after(rr, spare_opt, used, out),
            limit,
            spare_opt,
        );
    }
}

/// Without records written whatever the limit nothing is set aside.
pub proof fn lemma_nothing_spared(records: Seq<ResourceRecordView>, i: int)
    requires
        0 <= i,
    ensures
        spared_sizes(records, i, false) == 0,
    decreases records.len() - i,
{
    if i < records.len() {
        lemma_nothing_spared(records, i + 1);
    }
}

/// Where at most one record is an OPT record, what is set aside from the
/// `i`-th record on is the size of that record, if it stands there or
/// behind, and else nothing.
pub proof fn lemma_one_spared(records: Seq<ResourceRecordView>, i: int)
    requires
        0 <= i,
        records.len() <= 0xFFFF,
        at_most_one_opt(records),
    ensures
        spared_sizes(records, i, true) == match opt_position(records) {
            Some(at) => if at >= i {
                rr_size_bound(records[at as int], Map::empty())
            } else {
                0
            },
            None => 0,
        },
    decreases records.len() - i,
{
    if has_opt(records) {
        let at = choose|k: int| 0 <= k < records.len() && is_opt(#[trigger] records[k]);
        assert(opt_position(records) == Some(at as usize));
        assert((at as usize) as int == at);
    }
    if i < records.len() {
        lemma_one_spared(records, i + 1);
        if is_opt(records[i]) {
            assert(has_opt(records));
            let at = choose|k: int| 0 <= k < records.len() && is_opt(#[trigger] records[k]);
            if at != i {
                if at < i {
                    assert(is_opt(records[at]) && is_opt(records[i]));
                } else {
                    assert(is_opt(records[i]) && is_opt(records[at]));
                }
            }
        } else if has_opt(records) {
            let at = choose|k: int| 0 <= k < records.len() && is_opt(#[trigger] records[k]);
            assert(at != i);
        }
    }
}

/// For every valid message and every limit that holds its header and its
/// OPT record: the bytes that encoding under the limit produces are no
/// more than the limit, and so is the size reported.
pub proof fn lemma_encoded_fits(p: DnsPacketView, ctx: EncCtx, limit: usize)
    requires
        valid_packet(p),
        packet_encoded(p, ctx, Some(limit)) is Ok,
    ensures
        packet_encoded(p, ctx, Some(limit)).unwrap().bytes.len() <= limit,
        packet_encoded(p, ctx, Some(limit)).unwrap().size <= limit,
{
    let max_size = Some(limit);
    lemma_encoded_bytes(p, ctx, max_size);
    lemma_body_written(p, ctx, max_size);
    let ctx0 = behind_header(ctx);
    let used0 = used_at_start(p);
    let q = out_q(p, ctx, max_size);
    let a = out_a(p, ctx, max_size);
    let n = out_n(p, ctx, max_size);
    let r = out_r(p, ctx, max_size);
    lemma_questions_fit(p.questions, 0, ctx0, used0, limit);
    lemma_records_fit(p.answers, 0, ctx_next(ctx0, q), q.used, limit, false);
    lemma_nothing_spared(p.answers, 0);
    lemma_records_fit(p.authorities, 0, ctx_n(p, ctx, max_size), a.used, limit, false);
    lemma_nothing_spared(p.authorities, 0);
    lemma_records_fit(
        p.additionals,
        0,
        ctx_next(ctx_n(p, ctx, max_size), n),
        n.used,
        limit,
        true,
    );
    lemma_one_spared(p.additionals, 0);
    assert(spared_sizes(p.additionals, 0, true) <= opt_reserve(p));
}

/// Whether `part` is `all` with some of its entries removed: the entries
/// of `part` stand in `all`, in the same order.
pub open spec fn is_part<T>(part: Seq<T>, all: Seq<T>) -> bool
    decreases all.len(),
{
    if part.len() == 0 {
        true
    } else if all.len() == 0 {
        false
    } else {
        (part[0] == all[0] && is_part(part.drop_first(), all.drop_first())) || is_part(
            part,
            all.drop_first(),
        )
    }
}

/// The questions written are the questions given with some removed.
pub proof fn lemma_kept_questions_are_part(
    questions: Seq<QuestionView>,
    i: int,
    ctx: EncCtx,
    used: nat,
    max_size: Option<usize>,
)
    requires
        0 <= i <= questions.len(),
    ensures
        is_part(
            kept_questions(questions, i, ctx, used, max_size),
            questions.subrange(i, questions.len() as int),
        ),
    decreases questions.len() - i,
{
    let kept = kept_questions(questions, i, ctx, used, max_size);
    let all = questions.subrange(i, questions.len() as int);
    if i < questions.len() {
        let encoded = question_encoded(questions[i], ctx, remaining(max_size, used));
        if encoded is Ok {
            let out = encoded.unwrap();
            let rest = kept_questions(questions, i + 1, ctx_after(ctx, out), used + out.size, max_size);
            lemma_kept_questions_are_part(
                questions,
                i + 1,
                ctx_after(ctx, out),
                used + out.size,
                max_size,
            );
            assert(all.drop_first() =~= questions.subrange(i + 1, questions.len() as int));
            if out.size == 0 {
                assert(kept =~= rest);
            } else {
                assert(kept.drop_first() =~= rest);
                assert(kept[0] == all[0]);
            }
        }
    }
}

/// The records written are the records given with some removed.
pub proof fn lemma_kept_records_are_part(
    records: Seq<ResourceRecordView>,
    i: int,
    ctx: EncCtx,
    used: nat,
    max_size: Option<usize>,
    spare_opt: bool,
)
    requires
        0 <= i <= records.len(),
    ensures
        is_part(
            kept_records(records, i, ctx, used, max_size, spare_opt),
            records.subrange(i, records.len() as int),
        ),
    decreases records.len() - i,
{
    let kept = kept_records(records, i, ctx, used, max_size, spare_opt);
    let all = records.subrange(i, records.len() as int);
    if i < records.len() {
        let rr = records[i];
        let encoded = rr_encoded(rr, ctx, limit_for(rr, spare_opt, used, max_size));
        if encoded is Ok {
            let out = encoded.unwrap();
            let ctx1 = ctx_after(ctx, out);
            let next_used = used_after(rr, spare_opt, used, out);
            let rest = kept_records(records, i + 1, ctx1, next_used, max_size, spare_opt);
            lemma_kept_records_are_part(records, i + 1, ctx1, next_used, max_size, spare_opt);
            assert(all.drop_first() =~= records.subrange(i + 1, records.len() as int));
            if out.size == 0 {
                assert(kept =~= rest);
            } else {
                assert(kept.drop_first() =~= rest);
                assert(kept[0] == all[0]);
            }
        }
    }
}

/// What is left of a message encoded under a limit is the message with
/// some entries of each section removed.
pub proof fn lemma_kept_packet_is_part(p: DnsPacketView, ctx: EncCtx, max_size: Option<usize>)
    ensures
        is_part(kept_packet(p, ctx, max_size).questions, p.questions),
        is_part(kept_packet(p, ctx, max_size).answers, p.answers),
        is_part(kept_packet(p, ctx, max_size).authorities, p.authorities),
        is_part(kept_packet(p, ctx, max_size).additionals, p.additionals),
{
    let ctx0 = behind_header(ctx);
    lemma_kept_questions_are_part(p.questions, 0, ctx0, used_at_start(p), max_size);
    assert(p.questions.subrange(0, p.questions.len() as int) =~= p.questions);
    lemma_kept_records_are_part(
        p.answers,
        0,
        ctx_next(ctx0, out_q(p, ctx, max_size)),
        out_q(p, ctx, max_size).used,
        max_size,
        false,
    );
    assert(p.answers.subrange(0, p.answers.len() as int) =~= p.answers);
    lemma_kept_records_are_part(
        p.authorities,
        0,
        ctx_n(p, ctx, max_size),
        out_a(p, ctx, max_size).used,
        max_size,
        false,
    );
    assert(p.authorities.subrange(0, p.authorities.len() as int) =~= p.authorities);
    lemma_kept_records_are_part(
        p.additionals,
        0,
        ctx_next(ctx_n(p, ctx, max_size), out_n(p, ctx, max_size)),
        out_n(p, ctx, max_size).used,
        max_size,
        true,
    );
    assert(p.additionals.subrange(0, p.additionals.len() as int) =~= p.additionals);
}

/// The context in which a message is encoded into an empty buffer with a
/// label cache of its own.
pub open spec fn fresh_ctx() -> EncCtx {
    EncCtx { start: 0, cache: Map::empty(), recording: true }
}

/// For every valid message: encoded into an empty buffer with no limit on
/// its size and decoded again, it is the same message.
pub proof fn lemma_round_trip(p: DnsPacketView)
    requires
        valid_packet(p),
    ensures
        packet_encoded(p, fresh_ctx(), None) is Ok,
        parse_packet(packet_encoded(p, fresh_ctx(), None).unwrap().bytes, 0) == Some(
            (p, packet_encoded(p, fresh_ctx(), None).unwrap().bytes.len() as int),
        ),
{
    let none = Seq::<u8>::empty();
    lemma_packet_round_trip(none, p, fresh_ctx());
    assert(none + packet_encoded(p, fresh_ctx(), None).unwrap().bytes =~= packet_encoded(
        p,
        fresh_ctx(),
        None,
    ).unwrap().bytes);
}

/// For every valid message and every limit that holds its header and
/// what is set aside for its OPT record: encoding into an empty buffer
/// under the limit succeeds and produces no more bytes than the limit;
/// decoded again they are the message with some entries of each section
/// removed, and its header has the TC bit set if the message had it set
/// or an entry was removed.
pub proof fn lemma_truncated_round_trip(p: DnsPacketView, limit: usize)
    requires
        valid_packet(p),
        limit >= HEADER_SIZE + opt_reserve(p),
    ensures
        packet_encoded(p, fresh_ctx(), Some(limit)) is Ok,
        packet_encoded(p, fresh_ctx(), Some(limit)).unwrap().bytes.len() <= limit,
        parse_packet(packet_encoded(p, fresh_ctx(), Some(limit)).unwrap().bytes, 0) == Some(
            (
                kept_packet(p, fresh_ctx(), Some(limit)),
                packet_encoded(p, fresh_ctx(), Some(limit)).unwrap().bytes.len() as int,
            ),
        ),
        is_part(kept_packet(p, fresh_ctx(), Some(limit)).questions, p.questions),
        is_part(kept_packet(p, fresh_ctx(), Some(limit)).answers, p.answers),
        is_part(kept_packet(p, fresh_ctx(), Some(limit)).authorities, p.authorities),
        is_part(kept_packet(p, fresh_ctx(), Some(limit)).additionals, p.additionals),
        kept_packet(p, fresh_ctx(), Some(limit)).header.truncation == (p.header.truncation
            || kept_packet(p, fresh_ctx(), Some(limit)).questions.len() < p.questions.len()
            || kept_packet(p, fresh_ctx(), Some(limit)).answers.len() < p.answers.len()
            || kept_packet(p, fresh_ctx(), Some(limit)).authorities.len() < p.authorities.len()
            || kept_packet(p, fresh_ctx(), Some(limit)).additionals.len() < p.additionals.len()),
{
    let ctx = fresh_ctx();
    let none = Seq::<u8>::empty();
    lemma_body_written(p, ctx, Some(limit));
    lemma_encoded_round_trip(none, p, ctx, Some(limit));
    assert(none + packet_encoded(p, ctx, Some(limit)).unwrap().bytes =~= packet_encoded(
        p,
        ctx,
        Some(limit),
    ).unwrap().bytes);
    lemma_encoded_fits(p, ctx, limit);
    lemma_kept_packet_is_part(p, ctx, Some(limit));
    lemma_kept_header(p, ctx, Some(limit));
}

/// The running size does not get smaller while questions are encoded.
pub proof fn lemma_questions_use_more(
    questions: Seq<QuestionView>,
    i: int,
    ctx: EncCtx,
    used: nat,
)
    requires
        valid_questions(questions),
        0 <= i <= questions.len(),
    ensures
        encode_questions(questions, i, ctx, used, None) is Ok,
        encode_questions(questions, i, ctx, used, None).unwrap().used >= used,
    decreases questions.len() - i,
{
    lemma_questions_written(questions, i, ctx, used, None);
    if i < questions.len() {
        lemma_question_step(questions[i], ctx, None);
        let out = question_wire(questions[i], ctx).unwrap();
        lemma_questions_use_more(questions, i + 1, ctx_after(ctx, out), used + out.size);
    }
}

/// The running size does not get smaller while records are encoded.
pub proof fn lemma_records_use_more(
    records: Seq<ResourceRecordView>,
    i: int,
    ctx: EncCtx,
    used: nat,
    spare_opt: bool,
)
    requires
        valid_records(records),
        0 <= i <= records.len(),
    ensures
        encode_records(records, i, ctx, used, None, spare_opt) is Ok,
        encode_records(records, i, ctx, used, None, spare_opt).unwrap().used >= used,
    decreases records.len() - i,
{
    lemma_records_written(records, i, ctx, used, None, spare_opt);
    if i < records.len() {
        let rr = records[i];
        lemma_record_step(rr, ctx, None);
        let out = rr_wire(rr, ctx).unwrap();
        lemma_records_use_more(
            records,
            i + 1,
            ctx_after(ctx, out),
            used_after(rr, spare_opt, used, out),
            spare_opt,
        );
    }
}

/// Questions whose running size stays within the limit are encoded under
/// the limit as they are without one.
pub proof fn lemma_questions_whole(
    questions: Seq<QuestionView>,
    i: int,
    ctx: EncCtx,
    used: nat,
    limit: usize,
)
    requires
        valid_questions(questions),
        0 <= i <= questions.len(),
        encode_questions(questions, i, ctx, used, None).unwrap().used <= limit,
    ensures
        encode_questions(questions, i, ctx, used, Some(limit)) == encode_questions(
            questions,
            i,
            ctx,
            used,
            None,
        ),
    decreases questions.len() - i,
{
    lemma_questions_use_more(questions, i, ctx, used);
    if i < questions.len() {
        let q = questions[i];
        lemma_question_step(q, ctx, None);
        lemma_question_fits(q, ctx);
        let out = question_wire(q, ctx).unwrap();
        lemma_questions_use_more(questions, i + 1, ctx_after(ctx, out), used + out.size);
        reveal(question_encoded);
        assert(question_encoded(q, ctx, remaining(Some(limit), used)) == question_wire(q, ctx));
        lemma_questions_whole(questions, i + 1, ctx_after(ctx, out), used + out.size, limit);
    }
}

/// Records whose running size stays within the limit are encoded under
/// the limit as they are without one.
pub proof fn lemma_records_whole(
    records: Seq<ResourceRecordView>,
    i: int,
    ctx: EncCtx,
    used: nat,
    limit: usize,
    spare_opt: bool,
)
    requires
        valid_records(records),
        0 <= i <= records.len(),
        encode_records(records, i, ctx, used, None, spare_opt).unwrap().used <= limit,
    ensures
        encode_records(records, i, ctx, used, Some(limit), spare_opt) == encode_records(
            records,
            i,
            ctx,
            used,
            None,
            spare_opt,
        ),
    decreases records.len() - i,
{
    lemma_records_use_more(records, i, ctx, used, spare_opt);
    if i < records.len() {
        let rr = records[i];
        lemma_record_step(rr, ctx, None);
        lemma_record_fits(rr, ctx);
        let out = rr_wire(rr, ctx).unwrap();
        let next_used = used_after(rr, spare_opt, used, out);
        lemma_records_use_more(records, i + 1, ctx_after(ctx, out), next_used, spare_opt);
        reveal(rr_encoded);
        assert(rr_encoded(rr, ctx, limit_for(rr, spare_opt, used, Some(limit))) == rr_wire(
            rr,
            ctx,
        ));
        lemma_records_whole(records, i + 1, ctx_after(ctx, out), next_used, limit, spare_opt);
    }
}

/// A valid message that fits is written whole: where the size that
/// encoding with no limit reports is within the limit, encoding under the
/// limit appends the same bytes, and leaves nothing out.
pub proof fn lemma_fitting_packet_is_whole(p: DnsPacketView, ctx: EncCtx, limit: usize)
    requires
        valid_packet(p),
        packet_encoded(p, ctx, None).unwrap().size <= limit,
    ensures
        packet_encoded(p, ctx, None) is Ok,
        packet_encoded(p, ctx, Some(limit)) == packet_encoded(p, ctx, None),
        kept_packet(p, ctx, Some(limit)) == p,
{
    reveal(body_encoded);
    lemma_body_written(p, ctx, None);
    lemma_body_written(p, ctx, Some(limit));
    let ctx0 = behind_header(ctx);
    let used0 = used_at_start(p);
    let q = out_q(p, ctx, None);
    let a = out_a(p, ctx, None);
    let n = out_n(p, ctx, None);
    let r = out_r(p, ctx, None);
    let ctx1 = ctx_next(ctx0, q);
    let ctx2 = ctx_n(p, ctx, None);
    let ctx3 = ctx_next(ctx2, n);
    lemma_questions_use_more(p.questions, 0, ctx0, used0);
    lemma_records_use_more(p.answers, 0, ctx1, q.used, false);
    lemma_records_use_more(p.authorities, 0, ctx2, a.used, false);
    lemma_records_use_more(p.additionals, 0, ctx3, n.used, true);
    lemma_questions_whole(p.questions, 0, ctx0, used0, limit);
    lemma_records_whole(p.answers, 0, ctx1, q.used, limit, false);
    lemma_records_whole(p.authorities, 0, ctx2, a.used, limit, false);
    lemma_records_whole(p.additionals, 0, ctx3, n.used, limit, true);
    lemma_kept_same(p, ctx, limit);
}

/// Where the sections are encoded under a limit as without one, what is
/// left of the message is the message.
proof fn lemma_kept_same(p: DnsPacketView, ctx: EncCtx, limit: usize)
    requires
        valid_packet(p),
        encode_questions(p.questions, 0, behind_header(ctx), used_at_start(p), Some(limit))
            == encode_questions(p.questions, 0, behind_header(ctx), used_at_start(p), None),
        out_a(p, ctx, Some(limit)) == out_a(p, ctx, None),
        out_n(p, ctx, Some(limit)) == out_n(p, ctx, None),
        out_r(p, ctx, Some(limit)) == out_r(p, ctx, None),
    ensures
        kept_packet(p, ctx, Some(limit)) == p,
{
    lemma_body_written(p, ctx, None);
    lemma_body_written(p, ctx, Some(limit));
    let kept = kept_packet(p, ctx, Some(limit));
    // Nothing was left out, so each section has its length, and a part of
    // a sequence that is as long as the sequence is the sequence
    lemma_kept_packet_is_part(p, ctx, Some(limit));
    lemma_whole_part(kept.questions, p.questions);
    lemma_whole_part(kept.answers, p.answers);
    lemma_whole_part(kept.authorities, p.authorities);
    lemma_whole_part(kept.additionals, p.additionals);
}

/// A part of a sequence that is as long as the sequence is the sequence.
pub proof fn lemma_whole_part<T>(part: Seq<T>, all: Seq<T>)
    requires
        is_part(part, all),
        part.len() == all.len(),
    ensures
        part == all,
    decreases all.len(),
{
    if all.len() > 0 {
        lemma_part_is_shorter(part, all.drop_first());
        lemma_whole_part(part.drop_first(), all.drop_first());
        assert(part =~= seq![part[0]] + part.drop_first());
        assert(all =~= seq![all[0]] + all.drop_first());
    } else {
        assert(part =~= all);
    }
}

/// A part of a sequence is not longer than the sequence.
pub proof fn lemma_part_is_shorter<T>(part: Seq<T>, all: Seq<T>)
    ensures
        is_part(part, all) ==> part.len() <= all.len(),
    decreases all.len(),
{
    if part.len() > 0 && all.len() > 0 {
        lemma_part_is_shorter(part.drop_first(), all.drop_first());
        lemma_part_is_shorter(part, all.drop_first());
    }
}

/// For every valid message whose size is within the limit: encoded into
/// an empty buffer under the limit and decoded again, it is the same
/// message, with its TC bit as it was.
pub proof fn lemma_fitting_round_trip(p: DnsPacketView, limit: usize)
    requires
        valid_packet(p),
        packet_encoded(p, fresh_ctx(), None).unwrap().size <= limit,
    ensures
        packet_encoded(p, fresh_ctx(), Some(limit)) is Ok,
        parse_packet(packet_encoded(p, fresh_ctx(), Some(limit)).unwrap().bytes, 0) == Some(
            (p, packet_encoded(p, fresh_ctx(), Some(limit)).unwrap().bytes.len() as int),
        ),
{
    lemma_fitting_packet_is_whole(p, fresh_ctx(), limit);
    lemma_round_trip(p);
}

} // verus!
