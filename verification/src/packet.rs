use vstd::prelude::*;
use crate::buf::ByteBuf;
use crate::buf::patched;
use crate::codec::EncCtx;
use crate::codec::EncodeToBuf;
use crate::codec::Encoded;
use crate::codec::EncodedSize;
use crate::codec::FromBuf;
use crate::codec::clip;
use crate::codec::ctx_after;
use crate::codec::ctx_of;
use crate::error::DnsError;
use crate::header::DnsHeader;
use crate::header::HEADER_SIZE;
use crate::header::default_header;
use crate::header::header_wire;
use crate::header::parse_header;
use crate::label_cache::LabelCache;
use crate::question::Question;
use crate::question::QuestionView;
use crate::question::parse_question;
use crate::question::question_encoded;
use crate::resource_record::ResourceRecord;
use crate::resource_record::ResourceRecordView;
use crate::resource_record::parse_rr;
use crate::resource_record::rr_encoded;
use crate::resource_record::rr_size_bound;

verus! {

/// A DNS message: a header and four sections.
#[derive(Debug, PartialEq, Eq)]
pub struct DnsPacket {
    pub header: DnsHeader,
    /// Idx of the OPT RR, if present
    pub edns: Option<usize>,
    pub questions: Vec<Question>,
    pub answers: Vec<ResourceRecord>,
    pub authorities: Vec<ResourceRecord>,
    pub additionals: Vec<ResourceRecord>,
}

/// What a [`DnsPacket`] holds.
pub struct DnsPacketView {
    pub header: DnsHeader,
    pub edns: Option<usize>,
    pub questions: Seq<QuestionView>,
    pub answers: Seq<ResourceRecordView>,
    pub authorities: Seq<ResourceRecordView>,
    pub additionals: Seq<ResourceRecordView>,
}

/// What a list of questions holds.
pub open spec fn questions_view(questions: Seq<Question>) -> Seq<QuestionView> {
    Seq::new(questions.len(), |i: int| questions[i]@)
}

/// What a list of records holds.
pub open spec fn records_view(records: Seq<ResourceRecord>) -> Seq<ResourceRecordView> {
    Seq::new(records.len(), |i: int| records[i]@)
}

impl View for DnsPacket {
    type V = DnsPacketView;

    open spec fn view(&self) -> DnsPacketView {
        DnsPacketView {
            header: self.header,
            edns: self.edns,
            questions: questions_view(self.questions@),
            answers: records_view(self.answers@),
            authorities: records_view(self.authorities@),
            additionals: records_view(self.additionals@),
        }
    }
}

/// Whether `rr` is an OPT record.
pub open spec fn is_opt(rr: ResourceRecordView) -> bool {
    rr.resource_data is OPT
}

/// Two of the records are OPT records.
pub open spec fn has_two_opts(records: Seq<ResourceRecordView>) -> bool {
    exists|i: int, j: int|
        0 <= i < j < records.len() && is_opt(#[trigger] records[i]) && is_opt(
            #[trigger] records[j],
        )
}

/// At most one of the records is an OPT record.
pub open spec fn at_most_one_opt(records: Seq<ResourceRecordView>) -> bool {
    !has_two_opts(records)
}

/// One of the records is an OPT record.
pub open spec fn has_opt(records: Seq<ResourceRecordView>) -> bool {
    exists|i: int| 0 <= i < records.len() && is_opt(#[trigger] records[i])
}

/// Where the OPT record stands among `records`, if one does.
pub open spec fn opt_position(records: Seq<ResourceRecordView>) -> Option<usize> {
    if has_opt(records) {
        Some((choose|i: int| 0 <= i < records.len() && is_opt(#[trigger] records[i])) as usize)
    } else {
        None
    }
}

/// The `count` questions that follow one another from `pos` on, and the
/// offset behind them.
pub open spec fn parse_questions(bytes: Seq<u8>, pos: int, count: nat) -> Option<
    (Seq<QuestionView>, int),
>
    decreases count,
{
    if count == 0 {
        Some((Seq::empty(), pos))
    } else {
        match parse_question(bytes, pos) {
            Some((q, next)) => match parse_questions(bytes, next, (count - 1) as nat) {
                Some((rest, end)) => Some((seq![q] + rest, end)),
                None => None,
            },
            None => None,
        }
    }
}

/// The `count` records that follow one another from `pos` on, and the
/// offset behind them.
pub open spec fn parse_records(bytes: Seq<u8>, pos: int, count: nat) -> Option<
    (Seq<ResourceRecordView>, int),
>
    decreases count,
{
    if count == 0 {
        Some((Seq::empty(), pos))
    } else {
        match parse_rr(bytes, pos) {
            Some((rr, next)) => match parse_records(bytes, next, (count - 1) as nat) {
                Some((rest, end)) => Some((seq![rr] + rest, end)),
                None => None,
            },
            None => None,
        }
    }
}

/// The message at `pos` and the offset behind it: a header, then as many
/// questions, answers, authority records and additional records as the
/// header counts. There is none where a part cannot be read or the
/// additional records hold two OPT records.
pub open spec fn parse_packet(bytes: Seq<u8>, pos: int) -> Option<(DnsPacketView, int)> {
    match parse_header(bytes, pos) {
        Some(header) => match parse_questions(
            bytes,
            pos + HEADER_SIZE,
            header.question_count as nat,
        ) {
            Some((questions, behind_questions)) => match parse_records(
                bytes,
                behind_questions,
                header.answer_rr_count as nat,
            ) {
                Some((answers, behind_answers)) => match parse_records(
                    bytes,
                    behind_answers,
                    header.authority_rr_count as nat,
                ) {
                    Some((authorities, behind_authorities)) => match parse_records(
                        bytes,
                        behind_authorities,
                        header.additional_rr_count as nat,
                    ) {
                        Some((additionals, end)) => if has_two_opts(additionals) {
                            None
                        } else {
                            Some(
                                (
                                    DnsPacketView {
                                        header: header,
                                        edns: opt_position(additionals),
                                        questions: questions,
                                        answers: answers,
                                        authorities: authorities,
                                        additionals: additionals,
                                    },
                                    end,
                                ),
                            )
                        },
                        None => None,
                    },
                    None => None,
                },
                None => None,
            },
            None => None,
        },
        None => None,
    }
}

/// The questions read so far put before what the rest of the section yields.
pub open spec fn questions_then(
    acc: Seq<QuestionView>,
    rest: Option<(Seq<QuestionView>, int)>,
) -> Option<(Seq<QuestionView>, int)> {
    match rest {
        Some((r, end)) => Some((acc + r, end)),
        None => None,
    }
}

/// The records read so far put before what the rest of the section yields.
pub open spec fn records_then(
    acc: Seq<ResourceRecordView>,
    rest: Option<(Seq<ResourceRecordView>, int)>,
) -> Option<(Seq<ResourceRecordView>, int)> {
    match rest {
        Some((r, end)) => Some((acc + r, end)),
        None => None,
    }
}

/// Reads `count` questions at the cursor. Where one of them cannot be
/// read, the cursor is left where reading stopped.
fn read_questions(buf: &mut ByteBuf, count: u16) -> (r: Result<Vec<Question>, DnsError>)
    ensures
        final(buf)@.bytes == old(buf)@.bytes,
        match parse_questions(old(buf)@.bytes, old(buf)@.pos as int, count as nat) {
            Some((qs, end)) => r is Ok && questions_view(r.unwrap()@) == qs && final(buf)@.pos
                == end,
            None => r is Err && r.unwrap_err() == DnsError::MalformedPacket,
        },
{
    let ghost bytes = buf@.bytes;
    let ghost start = buf@.pos as int;
    let mut out: Vec<Question> = Vec::new();
    let mut i: u16 = 0;
    proof {
        let all = parse_questions(bytes, start, count as nat);
        if all is Some {
            assert(questions_view(out@) + all.unwrap().0 =~= all.unwrap().0);
        }
    }
    while i < count
        invariant
            i <= count,
            buf@.bytes == bytes,
            bytes == old(buf)@.bytes,
            start == old(buf)@.pos,
            parse_questions(bytes, start, count as nat) == questions_then(
                questions_view(out@),
                parse_questions(bytes, buf@.pos as int, (count - i) as nat),
            ),
        decreases count - i,
    {
        let ghost acc = questions_view(out@);
        let ghost at = buf@.pos as int;
        let q = match Question::from_buf(buf) {
            Ok(q) => q,
            Err(e) => {
                return Err(e);
            },
        };
        out.push(q);
        proof {
            assert(questions_view(out@) =~= acc.push(q@));
            let rest = parse_questions(bytes, buf@.pos as int, (count - i - 1) as nat);
            if rest is Some {
                assert(acc.push(q@) + rest.unwrap().0 =~= acc + (seq![q@] + rest.unwrap().0));
            }
        }
        i = i + 1;
    }
    proof {
        assert(questions_view(out@) + Seq::<QuestionView>::empty() =~= questions_view(out@));
    }
    Ok(out)
}

/// Reads `count` records at the cursor. Where one of them cannot be read,
/// the cursor is left where reading stopped.
fn read_records(buf: &mut ByteBuf, count: u16) -> (r: Result<Vec<ResourceRecord>, DnsError>)
    ensures
        final(buf)@.bytes == old(buf)@.bytes,
        match parse_records(old(buf)@.bytes, old(buf)@.pos as int, count as nat) {
            Some((rrs, end)) => r is Ok && records_view(r.unwrap()@) == rrs && final(buf)@.pos
                == end,
            None => r is Err && r.unwrap_err() == DnsError::MalformedPacket,
        },
{
    let ghost bytes = buf@.bytes;
    let ghost start = buf@.pos as int;
    let mut out: Vec<ResourceRecord> = Vec::new();
    let mut i: u16 = 0;
    proof {
        let all = parse_records(bytes, start, count as nat);
        if all is Some {
            assert(records_view(out@) + all.unwrap().0 =~= all.unwrap().0);
        }
    }
    while i < count
        invariant
            i <= count,
            buf@.bytes == bytes,
            bytes == old(buf)@.bytes,
            start == old(buf)@.pos,
            parse_records(bytes, start, count as nat) == records_then(
                records_view(out@),
                parse_records(bytes, buf@.pos as int, (count - i) as nat),
            ),
        decreases count - i,
    {
        let ghost acc = records_view(out@);
        let rr = match ResourceRecord::from_buf(buf) {
            Ok(rr) => rr,
            Err(e) => {
                return Err(e);
            },
        };
        out.push(rr);
        proof {
            assert(records_view(out@) =~= acc.push(rr@));
            let rest = parse_records(bytes, buf@.pos as int, (count - i - 1) as nat);
            if rest is Some {
                assert(acc.push(rr@) + rest.unwrap().0 =~= acc + (seq![rr@] + rest.unwrap().0));
            }
        }
        i = i + 1;
    }
    proof {
        assert(records_view(out@) + Seq::<ResourceRecordView>::empty() =~= records_view(out@));
    }
    Ok(out)
}

/// Looks for OPT records: where the single one stands, or that there are two.
fn find_opt(records: &Vec<ResourceRecord>) -> (r: Result<Option<usize>, DnsError>)
    ensures
        match r {
            Ok(at) => !has_two_opts(records_view(records@)) && at == opt_position(
                records_view(records@),
            ),
            Err(e) => has_two_opts(records_view(records@)) && e == DnsError::MalformedPacket,
        },
{
    let ghost view = records_view(records@);
    let mut found: Option<usize> = None;
    let mut i: usize = 0;
    while i < records.len()
        invariant
            i <= records@.len(),
            view == records_view(records@),
            match found {
                Some(at) => at < i && is_opt(view[at as int]) && forall|k: int|
                    0 <= k < i && k != at ==> !is_opt(#[trigger] view[k]),
                None => forall|k: int| 0 <= k < i ==> !is_opt(#[trigger] view[k]),
            },
        decreases records@.len() - i,
    {
        if records[i].resource_data.is_opt() {
            assert(is_opt(view[i as int]));
            match found {
                Some(at) => {
                    assert(is_opt(view[at as int]) && is_opt(view[i as int]));
                    return Err(DnsError::MalformedPacket);
                },
                None => {
                    found = Some(i);
                },
            }
        }
        i = i + 1;
    }
    proof {
        match found {
            Some(at) => {
                assert(is_opt(view[at as int]));
                assert(has_opt(view));
                let c = choose|k: int| 0 <= k < view.len() && is_opt(#[trigger] view[k]);
                assert(c == at);
            },
            None => {},
        }
    }
    Ok(found)
}

impl Default for DnsPacket {
    fn default() -> (r: DnsPacket)
        ensures
            r@ == (DnsPacketView {
                header: default_header(),
                edns: None,
                questions: Seq::empty(),
                answers: Seq::empty(),
                authorities: Seq::empty(),
                additionals: Seq::empty(),
            }),
    {
        let r = DnsPacket {
            header: DnsHeader::default(),
            edns: None,
            questions: Vec::new(),
            answers: Vec::new(),
            authorities: Vec::new(),
            additionals: Vec::new(),
        };
        assert(questions_view(r.questions@) =~= Seq::empty());
        assert(records_view(r.answers@) =~= Seq::empty());
        assert(records_view(r.authorities@) =~= Seq::empty());
        assert(records_view(r.additionals@) =~= Seq::empty());
        r
    }
}

impl DnsPacket {
    /// An empty message with the default header.
    pub fn new() -> (r: DnsPacket)
        ensures
            r@ == (DnsPacketView {
                header: default_header(),
                edns: None,
                questions: Seq::empty(),
                answers: Seq::empty(),
                authorities: Seq::empty(),
                additionals: Seq::empty(),
            }),
    {
        DnsPacket::default()
    }
}

impl FromBuf for DnsPacket {
    open spec fn decodable(bytes: Seq<u8>, pos: int) -> bool {
        parse_packet(bytes, pos) is Some
    }

    open spec fn decoded(bytes: Seq<u8>, pos: int, value: DnsPacket, next: int) -> bool {
        &&& parse_packet(bytes, pos) == Some((value@, next))
        &&& at_most_one_opt(value@.additionals)
    }

    fn from_buf(buf: &mut ByteBuf) -> (r: Result<DnsPacket, DnsError>) {
        let saved: usize = buf.pos();
        let header = match DnsHeader::from_buf(buf) {
            Ok(h) => h,
            Err(e) => {
                return Err(e);
            },
        };
        let questions = match read_questions(buf, header.question_count) {
            Ok(v) => v,
            Err(e) => {
                buf.set_pos(saved);
                return Err(e);
            },
        };
        let answers = match read_records(buf, header.answer_rr_count) {
            Ok(v) => v,
            Err(e) => {
                buf.set_pos(saved);
                return Err(e);
            },
        };
        let authorities = match read_records(buf, header.authority_rr_count) {
            Ok(v) => v,
            Err(e) => {
                buf.set_pos(saved);
                return Err(e);
            },
        };
        let additionals = match read_records(buf, header.additional_rr_count) {
            Ok(v) => v,
            Err(e) => {
                buf.set_pos(saved);
                return Err(e);
            },
        };
        let edns = match find_opt(&additionals) {
            Ok(at) => at,
            Err(e) => {
                buf.set_pos(saved);
                return Err(e);
            },
        };
        Ok(DnsPacket { header, edns, questions, answers, authorities, additionals })
    }
}

/// What is left of the limit after `used` bytes.
pub open spec fn remaining(max_size: Option<usize>, used: nat) -> Option<usize> {
    match max_size {
        Some(m) => Some(
            if used <= m {
                (m - used) as usize
            } else {
                0
            },
        ),
        None => None,
    }
}

/// What encoding a section produces: the bytes it appends, the label cache
/// afterwards, the running size of the message, and how many entries were
/// left out.
pub struct SectionOut {
    pub bytes: Seq<u8>,
    pub cache: Map<Seq<u8>, usize>,
    pub used: nat,
    pub skipped: nat,
}

/// The context in which the next section is encoded.
pub open spec fn ctx_next(ctx: EncCtx, out: SectionOut) -> EncCtx {
    EncCtx { start: ctx.start + out.bytes.len(), cache: out.cache, recording: ctx.recording }
}

/// One if the entry was left out (its size is reported as zero), else zero.
pub open spec fn left_out(out: Encoded) -> nat {
    if out.size == 0 {
        1
    } else {
        0
    }
}

/// The questions from the `i`-th on, encoded one after the other, each
/// under what is left of the limit; one that does not fit is left out.
pub open spec fn encode_questions(
    questions: Seq<QuestionView>,
    i: int,
    ctx: EncCtx,
    used: nat,
    max_size: Option<usize>,
) -> Result<SectionOut, DnsError>
    decreases questions.len() - i,
{
    if i < 0 || i >= questions.len() {
        Ok(SectionOut { bytes: Seq::empty(), cache: ctx.cache, used: used, skipped: 0 })
    } else {
        match question_encoded(questions[i], ctx, remaining(max_size, used)) {
            Ok(out) => match encode_questions(
                questions,
                i + 1,
                ctx_after(ctx, out),
                used + out.size,
                max_size,
            ) {
                Ok(rest) => Ok(
                    SectionOut {
                        bytes: out.bytes + rest.bytes,
                        cache: rest.cache,
                        used: rest.used,
                        skipped: left_out(out) + rest.skipped,
                    },
                ),
                Err(e) => Err(e),
            },
            Err(e) => Err(e),
        }
    }
}

/// Whether `rr` is written whatever the limit: an OPT record among the
/// additional records, whose size was set aside beforehand.
pub open spec fn exempt(rr: ResourceRecordView, spare_opt: bool) -> bool {
    spare_opt && is_opt(rr)
}

/// The records from the `i`-th on, encoded one after the other, each under
/// what is left of the limit; one that does not fit is left out. With
/// `spare_opt`, OPT records are written whatever the limit and do not
/// count towards the running size.
pub open spec fn encode_records(
    records: Seq<ResourceRecordView>,
    i: int,
    ctx: EncCtx,
    used: nat,
    max_size: Option<usize>,
    spare_opt: bool,
) -> Result<SectionOut, DnsError>
    decreases records.len() - i,
{
    if i < 0 || i >= records.len() {
        Ok(SectionOut { bytes: Seq::empty(), cache: ctx.cache, used: used, skipped: 0 })
    } else {
        let rr = records[i];
        let limit = if exempt(rr, spare_opt) {
            None
        } else {
            remaining(max_size, used)
        };
        match rr_encoded(rr, ctx, limit) {
            Ok(out) => match encode_records(
                records,
                i + 1,
                ctx_after(ctx, out),
                if exempt(rr, spare_opt) {
                    used
                } else {
                    used + out.size
                },
                max_size,
                spare_opt,
            ) {
                Ok(rest) => Ok(
                    SectionOut {
                        bytes: out.bytes + rest.bytes,
                        cache: rest.cache,
                        used: rest.used,
                        skipped: left_out(out) + rest.skipped,
                    },
                ),
                Err(e) => Err(e),
            },
            Err(e) => Err(e),
        }
    }
}

/// `count` less `by`, but not below zero.
pub open spec fn count_less(count: u16, by: nat) -> u16 {
    if by >= count {
        0
    } else {
        (count - by) as u16
    }
}

/// The header of a message of which so many entries of each section were
/// left out: as it was where none was, else with the TC bit set and each
/// count lowered by what was left out.
pub open spec fn truncated_header(
    h: DnsHeader,
    questions: nat,
    answers: nat,
    authorities: nat,
    additionals: nat,
) -> DnsHeader {
    if questions + answers + authorities + additionals == 0 {
        h
    } else {
        DnsHeader {
            truncation: true,
            question_count: count_less(h.question_count, questions),
            answer_rr_count: count_less(h.answer_rr_count, answers),
            authority_rr_count: count_less(h.authority_rr_count, authorities),
            additional_rr_count: count_less(h.additional_rr_count, additionals),
            ..h
        }
    }
}

/// The size set aside for the OPT record of `p`: that of the additional
/// record that `edns` names, with no name shortened.
pub open spec fn opt_reserve(p: DnsPacketView) -> nat {
    match p.edns {
        Some(i) => if i < p.additionals.len() {
            clip(rr_size_bound(p.additionals[i as int], Map::empty())) as nat
        } else {
            0
        },
        None => 0,
    }
}

/// What encoding the four sections produces: the bytes appended, the
/// label cache afterwards, the running size of the message, and how many
/// entries of each section were left out.
pub struct BodyOut {
    pub bytes: Seq<u8>,
    pub cache: Map<Seq<u8>, usize>,
    pub used: nat,
    pub questions: nat,
    pub answers: nat,
    pub authorities: nat,
    pub additionals: nat,
}

/// The four sections of `p` encoded in order, each entry under what is
/// left of the limit after the `used` bytes before it; OPT records among
/// the additional records are written whatever is left.
#[verifier::opaque]
pub open spec fn body_encoded(p: DnsPacketView, ctx: EncCtx, used: nat, max_size: Option<usize>) -> Result<
    BodyOut,
    DnsError,
> {
    match encode_questions(p.questions, 0, ctx, used, max_size) {
        Ok(q) => {
            let ctx1 = ctx_next(ctx, q);
            match encode_records(p.answers, 0, ctx1, q.used, max_size, false) {
                Ok(a) => {
                    let ctx2 = ctx_next(ctx1, a);
                    match encode_records(p.authorities, 0, ctx2, a.used, max_size, false) {
                        Ok(n) => {
                            let ctx3 = ctx_next(ctx2, n);
                            match encode_records(p.additionals, 0, ctx3, n.used, max_size, true) {
                                Ok(r) => Ok(
                                    BodyOut {
                                        bytes: q.bytes + a.bytes + n.bytes + r.bytes,
                                        cache: r.cache,
                                        used: r.used,
                                        questions: q.skipped,
                                        answers: a.skipped,
                                        authorities: n.skipped,
                                        additionals: r.skipped,
                                    },
                                ),
                                Err(e) => Err(e),
                            }
                        },
                        Err(e) => Err(e),
                    }
                },
                Err(e) => Err(e),
            }
        },
        Err(e) => Err(e),
    }
}

/// What encoding the message `p` in context `ctx` under the limit
/// `max_size` appends and reports: an error where the limit cannot hold
/// the header and the OPT record; else the header, then of each section
/// the entries that fit what is left, in order. Where an entry was left
/// out, the header says so. The size reported is the running size: the
/// header, what was set aside for the OPT record, and the sizes of the
/// entries written.
pub open spec fn packet_encoded(p: DnsPacketView, ctx: EncCtx, max_size: Option<usize>) -> Result<
    Encoded,
    DnsError,
> {
    if max_size is Some && max_size.unwrap() < HEADER_SIZE {
        Err(DnsError::SizeTooSmall)
    } else if max_size is Some && opt_reserve(p) + HEADER_SIZE > max_size.unwrap() {
        Err(DnsError::SizeTooSmall)
    } else {
        let ctx0 = EncCtx {
            start: ctx.start + HEADER_SIZE as nat,
            cache: ctx.cache,
            recording: ctx.recording,
        };
        match body_encoded(p, ctx0, HEADER_SIZE as nat + opt_reserve(p), max_size) {
            Ok(b) => Ok(
                Encoded {
                    bytes: header_wire(
                        truncated_header(
                            p.header,
                            b.questions,
                            b.answers,
                            b.authorities,
                            b.additionals,
                        ),
                    ) + b.bytes,
                    cache: b.cache,
                    size: b.used,
                },
            ),
            Err(e) => Err(e),
        }
    }
}

/// What was written of a section put before what the rest of it yields.
pub open spec fn section_then(bytes: Seq<u8>, skipped: nat, rest: Result<SectionOut, DnsError>) -> Result<
    SectionOut,
    DnsError,
> {
    match rest {
        Ok(r) => Ok(
            SectionOut {
                bytes: bytes + r.bytes,
                cache: r.cache,
                used: r.used,
                skipped: skipped + r.skipped,
            },
        ),
        Err(e) => Err(e),
    }
}

/// `bytes` starts with `prefix`.
pub open spec fn starts_with(bytes: Seq<u8>, prefix: Seq<u8>) -> bool {
    bytes.len() >= prefix.len() && bytes.subrange(0, prefix.len() as int) == prefix
}

/// What starts with a sequence also starts with what that sequence starts with.
pub proof fn lemma_starts_with_trans(a: Seq<u8>, b: Seq<u8>, c: Seq<u8>)
    requires
        starts_with(b, a),
        starts_with(c, b),
    ensures
        starts_with(c, a),
{
    assert(c.subrange(0, a.len() as int) =~= c.subrange(0, b.len() as int).subrange(
        0,
        a.len() as int,
    ));
}

/// Laying a new header over an old one of the same size leaves what
/// stands before and behind it.
pub proof fn lemma_patch_header(before: Seq<u8>, old_header: Seq<u8>, new_header: Seq<u8>, body: Seq<u8>)
    requires
        old_header.len() == new_header.len(),
    ensures
        patched(before + old_header + body, before.len() as int, new_header) == before + (new_header
            + body),
{
    assert(patched(before + old_header + body, before.len() as int, new_header) =~= before + (
    new_header + body));
}

/// What is left of the limit after `used` bytes.
fn limit_left(max_size: Option<usize>, used: usize, Ghost(exact): Ghost<nat>) -> (r: Option<usize>)
    requires
        used == clip(exact),
    ensures
        r == remaining(max_size, exact),
{
    match max_size {
        Some(m) => Some(
            if used <= m {
                m - used
            } else {
                0
            },
        ),
        None => None,
    }
}

/// Appends the questions that fit. Returns the running size and the
/// number of questions left out.
fn write_questions(
    questions: &Vec<Question>,
    buf: &mut ByteBuf,
    label_cache: &mut LabelCache,
    used: usize,
    Ghost(used_exact): Ghost<nat>,
    max_size: Option<usize>,
) -> (r: Result<(usize, usize), DnsError>)
    requires
        old(label_cache).wf(),
        used == clip(used_exact),
    ensures
        final(label_cache).wf(),
        final(label_cache).is_recording() == old(label_cache).is_recording(),
        final(buf)@.pos == old(buf)@.pos,
        starts_with(final(buf)@.bytes, old(buf)@.bytes),
        match encode_questions(
            questions_view(questions@),
            0,
            ctx_of(old(buf)@, old(label_cache)),
            used_exact,
            max_size,
        ) {
            Ok(out) => r is Ok && r.unwrap().0 == clip(out.used) && r.unwrap().1 == out.skipped
                && final(buf)@.bytes == old(buf)@.bytes + out.bytes && final(label_cache)@
                == out.cache,
            Err(e) => r == Err::<(usize, usize), DnsError>(e),
        },
{
    let ghost view = questions_view(questions@);
    let ghost ctx0 = ctx_of(old(buf)@, old(label_cache));
    let ghost mut exact: nat = used_exact;
    let mut used: usize = used;
    let mut skipped: usize = 0;
    let mut i: usize = 0;
    proof {
        let all = encode_questions(view, 0, ctx0, used_exact, max_size);
        if all is Ok {
            assert(Seq::<u8>::empty() + all.unwrap().bytes =~= all.unwrap().bytes);
        }
        assert(buf@.bytes =~= old(buf)@.bytes + Seq::<u8>::empty());
        assert(buf@.bytes.subrange(0, old(buf)@.bytes.len() as int) =~= old(buf)@.bytes);
    }
    while i < questions.len()
        invariant
            i <= questions@.len(),
            view == questions_view(questions@),
            ctx0 == ctx_of(old(buf)@, old(label_cache)),
            label_cache.wf(),
            label_cache.is_recording() == old(label_cache).is_recording(),
            buf@.pos == old(buf)@.pos,
            starts_with(buf@.bytes, old(buf)@.bytes),
            used == clip(exact),
            skipped <= i,
            encode_questions(view, 0, ctx0, used_exact, max_size) == section_then(
                buf@.bytes.subrange(old(buf)@.bytes.len() as int, buf@.bytes.len() as int),
                skipped as nat,
                encode_questions(view, i as int, ctx_of(buf@, label_cache), exact, max_size),
            ),
        decreases questions@.len() - i,
    {
        let ghost before = buf@.bytes;
        let ghost written = buf@.bytes.subrange(
            old(buf)@.bytes.len() as int,
            buf@.bytes.len() as int,
        );
        let ghost ctx = ctx_of(buf@, label_cache);
        let limit = limit_left(max_size, used, Ghost(exact));
        let size: usize = match questions[i].encode_to_buf_with_cache(buf, label_cache, limit) {
            Ok(n) => n,
            Err(e) => {
                assert(buf@.bytes.subrange(0, old(buf)@.bytes.len() as int) =~= old(buf)@.bytes);
                return Err(e);
            },
        };
        proof {
            let out = question_encoded(view[i as int], ctx, remaining(max_size, exact)).unwrap();
            assert(buf@.bytes == before + out.bytes);
            assert(buf@.bytes.subrange(0, old(buf)@.bytes.len() as int) =~= old(buf)@.bytes);
            assert(buf@.bytes.subrange(old(buf)@.bytes.len() as int, buf@.bytes.len() as int)
                =~= written + out.bytes);
            assert(ctx_of(buf@, label_cache) == ctx_after(ctx, out));
            let rest = encode_questions(
                view,
                i + 1,
                ctx_after(ctx, out),
                exact + out.size,
                max_size,
            );
            if rest is Ok {
                assert((written + out.bytes) + rest.unwrap().bytes =~= written + (out.bytes
                    + rest.unwrap().bytes));
            }
            exact = exact + out.size;
        }
        if size == 0 {
            skipped = skipped + 1;
        }
        used = used.saturating_add(size);
        i = i + 1;
    }
    proof {
        let written = buf@.bytes.subrange(old(buf)@.bytes.len() as int, buf@.bytes.len() as int);
        assert(written + Seq::<u8>::empty() =~= written);
        assert(buf@.bytes =~= old(buf)@.bytes + written);
    }
    Ok((used, skipped))
}

/// Appends the records that fit. With `spare_opt`, OPT records are
/// written whatever the limit. Returns the running size and the number of
/// records left out.
fn write_records(
    records: &Vec<ResourceRecord>,
    buf: &mut ByteBuf,
    label_cache: &mut LabelCache,
    used: usize,
    Ghost(used_exact): Ghost<nat>,
    max_size: Option<usize>,
    spare_opt: bool,
) -> (r: Result<(usize, usize), DnsError>)
    requires
        old(label_cache).wf(),
        used == clip(used_exact),
    ensures
        final(label_cache).wf(),
        final(label_cache).is_recording() == old(label_cache).is_recording(),
        final(buf)@.pos == old(buf)@.pos,
        starts_with(final(buf)@.bytes, old(buf)@.bytes),
        match encode_records(
            records_view(records@),
            0,
            ctx_of(old(buf)@, old(label_cache)),
            used_exact,
            max_size,
            spare_opt,
        ) {
            Ok(out) => r is Ok && r.unwrap().0 == clip(out.used) && r.unwrap().1 == out.skipped
                && final(buf)@.bytes == old(buf)@.bytes + out.bytes && final(label_cache)@
                == out.cache,
            Err(e) => r == Err::<(usize, usize), DnsError>(e),
        },
{
    let ghost view = records_view(records@);
    let ghost ctx0 = ctx_of(old(buf)@, old(label_cache));
    let ghost mut exact: nat = used_exact;
    let mut used: usize = used;
    let mut skipped: usize = 0;
    let mut i: usize = 0;
    proof {
        let all = encode_records(view, 0, ctx0, used_exact, max_size, spare_opt);
        if all is Ok {
            assert(Seq::<u8>::empty() + all.unwrap().bytes =~= all.unwrap().bytes);
        }
        assert(buf@.bytes =~= old(buf)@.bytes + Seq::<u8>::empty());
        assert(buf@.bytes.subrange(0, old(buf)@.bytes.len() as int) =~= old(buf)@.bytes);
    }
    while i < records.len()
        invariant
            i <= records@.len(),
            view == records_view(records@),
            ctx0 == ctx_of(old(buf)@, old(label_cache)),
            label_cache.wf(),
            label_cache.is_recording() == old(label_cache).is_recording(),
            buf@.pos == old(buf)@.pos,
            starts_with(buf@.bytes, old(buf)@.bytes),
            used == clip(exact),
            skipped <= i,
            encode_records(view, 0, ctx0, used_exact, max_size, spare_opt) == section_then(
                buf@.bytes.subrange(old(buf)@.bytes.len() as int, buf@.bytes.len() as int),
                skipped as nat,
                encode_records(
                    view,
                    i as int,
                    ctx_of(buf@, label_cache),
                    exact,
                    max_size,
                    spare_opt,
                ),
            ),
        decreases records@.len() - i,
    {
        let ghost before = buf@.bytes;
        let ghost written = buf@.bytes.subrange(
            old(buf)@.bytes.len() as int,
            buf@.bytes.len() as int,
        );
        let ghost ctx = ctx_of(buf@, label_cache);
        let spared: bool = spare_opt && records[i].resource_data.is_opt();
        let limit = if spared {
            None
        } else {
            limit_left(max_size, used, Ghost(exact))
        };
        let size: usize = match records[i].encode_to_buf_with_cache(buf, label_cache, limit) {
            Ok(n) => n,
            Err(e) => {
                assert(buf@.bytes.subrange(0, old(buf)@.bytes.len() as int) =~= old(buf)@.bytes);
                return Err(e);
            },
        };
        proof {
            let out = rr_encoded(view[i as int], ctx, limit).unwrap();
            assert(buf@.bytes == before + out.bytes);
            assert(buf@.bytes.subrange(0, old(buf)@.bytes.len() as int) =~= old(buf)@.bytes);
            assert(buf@.bytes.subrange(old(buf)@.bytes.len() as int, buf@.bytes.len() as int)
                =~= written + out.bytes);
            assert(ctx_of(buf@, label_cache) == ctx_after(ctx, out));
            let next_exact = if spared {
                exact
            } else {
                exact + out.size
            };
            let rest = encode_records(
                view,
                i + 1,
                ctx_after(ctx, out),
                next_exact,
                max_size,
                spare_opt,
            );
            if rest is Ok {
                assert((written + out.bytes) + rest.unwrap().bytes =~= written + (out.bytes
                    + rest.unwrap().bytes));
            }
            exact = next_exact;
        }
        if size == 0 {
            skipped = skipped + 1;
        }
        if !spared {
            used = used.saturating_add(size);
        }
        i = i + 1;
    }
    proof {
        let written = buf@.bytes.subrange(old(buf)@.bytes.len() as int, buf@.bytes.len() as int);
        assert(written + Seq::<u8>::empty() =~= written);
        assert(buf@.bytes =~= old(buf)@.bytes + written);
    }
    Ok((used, skipped))
}

/// `count` less `by`, but not below zero.
fn lower_count(count: u16, by: usize) -> (r: u16)
    ensures
        r == count_less(count, by as nat),
{
    if by >= count as usize {
        0
    } else {
        count - by as u16
    }
}

impl DnsPacket {
    /// The size set aside for the OPT record.
    fn reserve_for_opt(&self) -> (r: usize)
        ensures
            r == opt_reserve(self@),
    {
        match self.edns {
            Some(i) => {
                if i < self.additionals.len() {
                    let cache = LabelCache::disabled();
                    self.additionals[i].get_encoded_size(&cache)
                } else {
                    0
                }
            },
            None => 0,
        }
    }
}

/// The numbers of entries left out of the four sections.
#[derive(Debug, Clone, Copy)]
pub struct LeftOut {
    pub questions: usize,
    pub answers: usize,
    pub authorities: usize,
    pub additionals: usize,
}

impl DnsPacket {
    /// Appends the four sections, each entry where it fits. Returns the
    /// running size and the numbers of entries left out.
    fn write_sections(
        &self,
        buf: &mut ByteBuf,
        label_cache: &mut LabelCache,
        used: usize,
        Ghost(used_exact): Ghost<nat>,
        max_size: Option<usize>,
    ) -> (r: Result<(usize, LeftOut), DnsError>)
        requires
            old(label_cache).wf(),
            used == clip(used_exact),
        ensures
            final(label_cache).wf(),
            final(label_cache).is_recording() == old(label_cache).is_recording(),
            final(buf)@.pos == old(buf)@.pos,
            starts_with(final(buf)@.bytes, old(buf)@.bytes),
            match body_encoded(self@, ctx_of(old(buf)@, old(label_cache)), used_exact, max_size) {
                Ok(b) => r is Ok && r.unwrap().0 == clip(b.used) && r.unwrap().1.questions
                    == b.questions && r.unwrap().1.answers == b.answers && r.unwrap().1.authorities
                    == b.authorities && r.unwrap().1.additionals == b.additionals && final(buf)@.bytes == old(buf)@.bytes + b.bytes && final(label_cache)@ == b.cache,
                Err(e) => r is Err && r.unwrap_err() == e,
            },
    {
        reveal(body_encoded);
        let ghost ctx0 = ctx_of(buf@, label_cache);
        let (used1, skipped_q) = match write_questions(
            &self.questions,
            buf,
            label_cache,
            used,
            Ghost(used_exact),
            max_size,
        ) {
            Ok(v) => v,
            Err(e) => {
                return Err(e);
            },
        };
        let ghost q = encode_questions(self@.questions, 0, ctx0, used_exact, max_size).unwrap();
        let ghost ctx1 = ctx_of(buf@, label_cache);
        assert(ctx1 == ctx_next(ctx0, q));
        let ghost bytes1 = buf@.bytes;
        let (used2, skipped_a) = match write_records(
            &self.answers,
            buf,
            label_cache,
            used1,
            Ghost(q.used),
            max_size,
            false,
        ) {
            Ok(v) => v,
            Err(e) => {
                proof {
                    lemma_starts_with_trans(old(buf)@.bytes, bytes1, buf@.bytes);
                }
                return Err(e);
            },
        };
        let ghost a = encode_records(self@.answers, 0, ctx1, q.used, max_size, false).unwrap();
        let ghost ctx2 = ctx_of(buf@, label_cache);
        assert(ctx2 == ctx_next(ctx1, a));
        let ghost bytes2 = buf@.bytes;
        proof {
            lemma_starts_with_trans(old(buf)@.bytes, bytes1, bytes2);
        }
        let (used3, skipped_n) = match write_records(
            &self.authorities,
            buf,
            label_cache,
            used2,
            Ghost(a.used),
            max_size,
            false,
        ) {
            Ok(v) => v,
            Err(e) => {
                proof {
                    lemma_starts_with_trans(old(buf)@.bytes, bytes2, buf@.bytes);
                }
                return Err(e);
            },
        };
        let ghost n = encode_records(self@.authorities, 0, ctx2, a.used, max_size, false).unwrap();
        let ghost ctx3 = ctx_of(buf@, label_cache);
        assert(ctx3 == ctx_next(ctx2, n));
        let ghost bytes3 = buf@.bytes;
        proof {
            lemma_starts_with_trans(old(buf)@.bytes, bytes2, bytes3);
        }
        let (used4, skipped_r) = match write_records(
            &self.additionals,
            buf,
            label_cache,
            used3,
            Ghost(n.used),
            max_size,
            true,
        ) {
            Ok(v) => v,
            Err(e) => {
                proof {
                    lemma_starts_with_trans(old(buf)@.bytes, bytes3, buf@.bytes);
                }
                return Err(e);
            },
        };
        let ghost r = encode_records(self@.additionals, 0, ctx3, n.used, max_size, true).unwrap();
        assert(buf@.bytes =~= old(buf)@.bytes + (q.bytes + a.bytes + n.bytes + r.bytes));
        assert(buf@.bytes.subrange(0, old(buf)@.bytes.len() as int) =~= old(buf)@.bytes);
        Ok(
            (
                used4,
                LeftOut {
                    questions: skipped_q,
                    answers: skipped_a,
                    authorities: skipped_n,
                    additionals: skipped_r,
                },
            ),
        )
    }
}

/// Lays the twelve bytes of `header` over the buffer at `start`.
fn rewrite_header(buf: &mut ByteBuf, start: usize, header: &DnsHeader)
    requires
        start + HEADER_SIZE <= old(buf)@.bytes.len(),
    ensures
        final(buf)@.pos == old(buf)@.pos,
        final(buf)@.bytes == patched(old(buf)@.bytes, start as int, header_wire(*header)),
{
    let mut scratch = ByteBuf::new_empty(Some(HEADER_SIZE));
    let mut idle = LabelCache::disabled();
    let _ = header.encode_to_buf_with_cache(&mut scratch, &mut idle, None);
    assert(scratch@.bytes =~= header_wire(*header));
    proof {
        buf.lemma_len_fits();
    }
    let _ = buf.write_bytes(scratch.as_slice(), Some(start));
}

/// The header of a message of which `left_out` was left out.
fn shorten_header(h: &DnsHeader, left_out: &LeftOut) -> (r: DnsHeader)
    ensures
        r == truncated_header(
            *h,
            left_out.questions as nat,
            left_out.answers as nat,
            left_out.authorities as nat,
            left_out.additionals as nat,
        ),
{
    if left_out.questions == 0 && left_out.answers == 0 && left_out.authorities == 0
        && left_out.additionals == 0 {
        *h
    } else {
        let mut header = *h;
        header.truncation = true;
        header.question_count = lower_count(h.question_count, left_out.questions);
        header.answer_rr_count = lower_count(h.answer_rr_count, left_out.answers);
        header.authority_rr_count = lower_count(h.authority_rr_count, left_out.authorities);
        header.additional_rr_count = lower_count(h.additional_rr_count, left_out.additionals);
        header
    }
}

impl EncodeToBuf for DnsPacket {
    open spec fn encoded(&self, ctx: EncCtx, max_size: Option<usize>) -> Result<Encoded, DnsError> {
        packet_encoded(self@, ctx, max_size)
    }

    open spec fn compresses() -> bool {
        true
    }

    fn encode_to_buf_with_cache(
        &self,
        buf: &mut ByteBuf,
        label_cache: &mut LabelCache,
        max_size: Option<usize>,
    ) -> (r: Result<usize, DnsError>) {
        let reserve: usize = self.reserve_for_opt();
        match max_size {
            Some(m) => {
                if m < HEADER_SIZE {
                    return Err(DnsError::SizeTooSmall);
                }
                if reserve > m - HEADER_SIZE {
                    return Err(DnsError::SizeTooSmall);
                }
            },
            None => {},
        }
        let used0: usize = reserve.saturating_add(HEADER_SIZE);
        let start: usize = buf.len();
        let _ = self.header.encode_to_buf_with_cache(buf, label_cache, None);
        let ghost headed = buf@.bytes;
        assert(headed == old(buf)@.bytes + header_wire(self.header));
        let ghost ctx0 = ctx_of(buf@, label_cache);
        let (used, left_out) = match self.write_sections(
            buf,
            label_cache,
            used0,
            Ghost(HEADER_SIZE as nat + opt_reserve(self@)),
            max_size,
        ) {
            Ok(v) => v,
            Err(e) => {
                buf.truncate(start);
                assert(buf@.bytes =~= old(buf)@.bytes);
                return Err(e);
            },
        };
        let ghost b = body_encoded(
            self@,
            ctx0,
            HEADER_SIZE as nat + opt_reserve(self@),
            max_size,
        ).unwrap();
        assert(buf@.bytes == headed + b.bytes);
        let header = shorten_header(&self.header, &left_out);
        rewrite_header(buf, start, &header);
        proof {
            lemma_patch_header(
                old(buf)@.bytes,
                header_wire(self.header),
                header_wire(header),
                b.bytes,
            );
        }
        Ok(used)
    }

    fn encode_to_buf(&self, buf: &mut ByteBuf, max_size: Option<usize>) -> (r: Result<
        usize,
        DnsError,
    >) {
        let mut cache = LabelCache::new();
        self.encode_to_buf_with_cache(buf, &mut cache, max_size)
    }
}

} // verus!
