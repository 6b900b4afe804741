use vstd::prelude::*;
use vstd::slice::slice_subrange;
use vstd::slice::slice_to_vec;
use vstd::utf8::decode_utf8;
use vstd::utf8::valid_utf8;
use crate::buf::string_from_utf8;
use crate::error::DnsError;
use crate::hash::sha1;
use crate::hash::sha1_digest;
use crate::list_entry::EntryKind;
use crate::list_entry::HostAddr;
use crate::list_entry::ListEntry;
use crate::list_entry::ListEntryView;
use crate::list_entry::compile_regex;
use crate::list_entry::regex_compiled;
use crate::list_util::lower;
use crate::list_util::lowercase;
use crate::name::DOT;

verus! {

pub const LINE_FEED: u8 = 0x0A;

pub const HASH_SIGN: u8 = 0x23;

pub const SLASH: u8 = 0x2F;

pub const BACKSLASH: u8 = 0x5C;

pub const ASTERISK: u8 = 0x2A;

pub const HYPHEN: u8 = 0x2D;

pub const OPEN_BRACKET: u8 = 0x5B;

pub const CLOSE_BRACKET: u8 = 0x5D;

pub const SPACE: u8 = 0x20;

/// The checksum of a list file: the SHA-1 digest of its bytes.
pub fn file_checksum(data: &[u8]) -> (r: [u8; 20])
    ensures
        r@ == sha1_digest(data@),
{
    sha1(data)
}

/// Whether a list file has to be read again: it has if no checksum of it
/// is known or its checksum is another.
pub fn list_changed(checksum: &[u8; 20], expected: Option<&[u8; 20]>) -> (r: bool)
    ensures
        r == match expected {
            Some(e) => e@ != checksum@,
            None => true,
        },
{
    match expected {
        Some(e) => !crate::label_cache::bytes_eq(e.as_slice(), checksum.as_slice()),
        None => true,
    }
}

/// The offset of the first byte `b` of `s` at or behind `from`, or the
/// length of `s` if there is none.
pub open spec fn first_index(s: Seq<u8>, b: u8, from: int) -> int
    decreases s.len() - from,
{
    if from < 0 || from >= s.len() {
        s.len() as int
    } else if s[from] == b {
        from
    } else {
        first_index(s, b, from + 1)
    }
}

/// The offset of the first byte `b` of `s` at or behind `from`, or the
/// length of `s` if there is none.
pub fn find_byte(s: &[u8], b: u8, from: usize) -> (r: usize)
    ensures
        r == first_index(s@, b, from as int),
        from <= s@.len() ==> from <= r <= s@.len(),
        r < s@.len() ==> s@[r as int] == b,
{
    if from >= s.len() {
        return s.len();
    }
    let mut i: usize = from;
    while i < s.len() && s[i] != b
        invariant
            from <= i <= s@.len(),
            first_index(s@, b, from as int) == first_index(s@, b, i as int),
        decreases s@.len() - i,
    {
        i = i + 1;
    }
    i
}

/// Whether a byte is ASCII white space.
pub open spec fn is_space(b: u8) -> bool {
    b == 0x20 || (0x09 <= b <= 0x0D)
}

/// The offset of the first byte of `s` at or behind `from` that is not
/// white space, or the length of `s`.
pub open spec fn skip_space(s: Seq<u8>, from: int) -> int
    decreases s.len() - from,
{
    if from < 0 || from >= s.len() {
        s.len() as int
    } else if !is_space(s[from]) {
        from
    } else {
        skip_space(s, from + 1)
    }
}

/// The offset of the first byte at or behind `from` that is not white space.
pub fn trim_start(s: &[u8], from: usize) -> (r: usize)
    ensures
        r == skip_space(s@, from as int),
        from <= s@.len() ==> from <= r <= s@.len(),
{
    if from >= s.len() {
        return s.len();
    }
    let mut i: usize = from;
    while i < s.len() && (s[i] == 0x20 || (0x09 <= s[i] && s[i] <= 0x0D))
        invariant
            from <= i <= s@.len(),
            skip_space(s@, from as int) == skip_space(s@, i as int),
        decreases s@.len() - i,
    {
        i = i + 1;
    }
    i
}

/// A line of a list file: where its text starts behind leading white
/// space, where it ends, and where the next line starts.
#[derive(Debug, Clone, Copy, PartialEq, Eq)]
pub struct Line {
    pub start: usize,
    pub end: usize,
    pub next: usize,
}

/// The line of `data` that starts at `from`: it ends at the next line
/// feed or at the end of the data.
pub open spec fn line_at(data: Seq<u8>, from: int) -> Line {
    let end = first_index(data, LINE_FEED, from);
    let start = skip_space(data.subrange(0, end), from);
    Line {
        start: start as usize,
        end: end as usize,
        next: if end < data.len() {
            (end + 1) as usize
        } else {
            end as usize
        },
    }
}

/// Whether a line holds an entry: it is not empty and no comment.
pub open spec fn holds_entry(data: Seq<u8>, line: Line) -> bool {
    line.start < line.end && data[line.start as int] != HASH_SIGN
}

/// The line that starts at `from`, if a line starts there.
pub fn next_line(data: &[u8], from: usize) -> (r: Option<Line>)
    ensures
        r == if from < data@.len() {
            Some(line_at(data@, from as int))
        } else {
            None
        },
        r is Some ==> from <= r.unwrap().start <= r.unwrap().end <= data@.len() && from
            < r.unwrap().next <= data@.len(),
{
    if from >= data.len() {
        return None;
    }
    let end: usize = find_byte(data, LINE_FEED, from);
    let start: usize = trim_start(slice_subrange(data, 0, end), from);
    let next: usize = if end < data.len() {
        end + 1
    } else {
        end
    };
    Some(Line { start, end, next })
}

/// Whether the line holds an entry.
pub fn is_entry_line(data: &[u8], line: &Line) -> (r: bool)
    ensures
        r == (line.end <= data@.len() && holds_entry(data@, *line)),
{
    line.end <= data.len() && line.start < line.end && data[line.start] != HASH_SIGN
}

/// The label of a line: what stands between the first opening bracket
/// and the first closing bracket behind it.
pub open spec fn label_in(line: Seq<u8>) -> Option<Seq<u8>> {
    let open = first_index(line, OPEN_BRACKET, 0);
    let close = first_index(line, CLOSE_BRACKET, open);
    if open < line.len() && close < line.len() {
        Some(line.subrange(open + 1, close))
    } else {
        None
    }
}

/// The label of a line, if it has one.
pub fn parse_label(line: &[u8]) -> (r: Option<Vec<u8>>)
    ensures
        match r {
            Some(label) => label_in(line@) == Some(label@),
            None => label_in(line@) is None,
        },
{
    let open: usize = find_byte(line, OPEN_BRACKET, 0);
    if open >= line.len() {
        return None;
    }
    let close: usize = find_byte(line, CLOSE_BRACKET, open);
    if close >= line.len() {
        return None;
    }
    Some(slice_to_vec(slice_subrange(line, open + 1, close)))
}

/// Where a pattern that is read from `i` on ends: at the first slash
/// that no backslash escapes, or at the end of the line.
pub open spec fn regex_end(line: Seq<u8>, i: int, escaped: bool) -> int
    decreases line.len() - i,
{
    if i < 0 || i >= line.len() {
        line.len() as int
    } else if line[i] == SLASH && !escaped {
        i
    } else {
        regex_end(line, i + 1, line[i] == BACKSLASH && !escaped)
    }
}

/// The pattern of a line and where the rest of the line starts: the line
/// starts with a slash, and the pattern runs to the next slash that is
/// not escaped.
pub open spec fn regex_in(line: Seq<u8>) -> Option<(Seq<u8>, int)> {
    if line.len() == 0 || line[0] != SLASH {
        None
    } else {
        let end = regex_end(line, 1, false);
        if end >= line.len() {
            None
        } else {
            Some((line.subrange(1, end), end + 1))
        }
    }
}

/// Parses a pattern written like `/<re>/`. Returns the pattern and where
/// the rest of the line starts.
pub fn parse_regex(line: &[u8]) -> (r: Result<(Vec<u8>, usize), DnsError>)
    ensures
        match r {
            Ok((re, rest)) => regex_in(line@) == Some((re@, rest as int)) && rest <= line@.len(),
            Err(e) => regex_in(line@) is None && e == DnsError::InvalidListEntry,
        },
{
    if line.len() == 0 || line[0] != SLASH {
        return Err(DnsError::InvalidListEntry);
    }
    let mut i: usize = 1;
    let mut escaped: bool = false;
    while i < line.len() && !(line[i] == SLASH && !escaped)
        invariant
            1 <= i <= line@.len(),
            regex_end(line@, 1, false) == regex_end(line@, i as int, escaped),
        decreases line@.len() - i,
    {
        escaped = line[i] == BACKSLASH && !escaped;
        i = i + 1;
    }
    if i >= line.len() {
        // A pattern with a missing closing delimiter
        return Err(DnsError::InvalidListEntry);
    }
    Ok((slice_to_vec(slice_subrange(line, 1, i)), i + 1))
}

/// Whether a byte is an ASCII letter.
pub open spec fn is_alpha(b: u8) -> bool {
    (0x41 <= b <= 0x5A) || (0x61 <= b <= 0x7A)
}

/// Whether a byte is an ASCII letter or digit.
pub open spec fn is_alnum(b: u8) -> bool {
    is_alpha(b) || (0x30 <= b <= 0x39)
}

/// Whether `b` can stand at offset `idx` of a domain: a letter or a digit
/// anywhere, a dot or a hyphen behind the first byte, an asterisk as
/// the first byte.
pub open spec fn domain_byte(b: u8, idx: int) -> bool {
    is_alnum(b) || (idx > 0 && (b == DOT || b == HYPHEN)) || (idx == 0 && b == ASTERISK)
}

/// Where the domain that is read from `i` on ends.
pub open spec fn domain_end(line: Seq<u8>, i: int) -> int
    decreases line.len() - i,
{
    if i < 0 || i >= line.len() || !domain_byte(line[i], i) {
        i
    } else {
        domain_end(line, i + 1)
    }
}

/// The offset of the last dot before `upto`, or -1.
pub open spec fn last_dot(line: Seq<u8>, upto: int) -> int
    decreases upto,
{
    if upto <= 0 {
        -1
    } else if line[upto - 1] == DOT {
        upto - 1
    } else {
        last_dot(line, upto - 1)
    }
}

/// All bytes of `s` from `from` up to `upto` are letters.
pub open spec fn all_alpha(s: Seq<u8>, from: int, upto: int) -> bool {
    forall|k: int| from <= k < upto ==> is_alpha(#[trigger] s[k])
}

/// The domain at the start of a line, in lower case, and where the rest
/// of the line starts behind white space. There is none where an
/// asterisk is not a label of its own, where the domain has no dot, or
/// where what stands behind its last dot is not two letters or more.
pub open spec fn domain_in(line: Seq<u8>) -> Option<(Seq<u8>, int)> {
    let end = domain_end(line, 0);
    let dot = last_dot(line, end);
    if line.len() > 1 && line[0] == ASTERISK && line[1] != DOT {
        None
    } else if dot < 0 || end - dot - 1 < 2 || !all_alpha(line, dot + 1, end) {
        None
    } else {
        Some((lower(line.subrange(0, end)), skip_space(line, end)))
    }
}

fn alpha(b: u8) -> (r: bool)
    ensures
        r == is_alpha(b),
{
    (0x41 <= b && b <= 0x5A) || (0x61 <= b && b <= 0x7A)
}

fn alnum(b: u8) -> (r: bool)
    ensures
        r == is_alnum(b),
{
    alpha(b) || (0x30 <= b && b <= 0x39)
}

/// Parses the domain at the start of a line. Returns the domain in lower
/// case and where the rest of the line starts.
pub fn parse_domain_name(line: &[u8]) -> (r: Option<(Vec<u8>, usize)>)
    ensures
        match r {
            Some((domain, rest)) => domain_in(line@) == Some((domain@, rest as int)) && rest
                <= line@.len(),
            None => domain_in(line@) is None,
        },
{
    // Protect against entries like '*test.abc'
    if line.len() > 1 && line[0] == ASTERISK && line[1] != DOT {
        return None;
    }
    let mut end: usize = 0;
    while end < line.len() && (alnum(line[end]) || (end > 0 && (line[end] == DOT || line[end]
        == HYPHEN)) || (end == 0 && line[end] == ASTERISK))
        invariant
            end <= line@.len(),
            domain_end(line@, 0) == domain_end(line@, end as int),
        decreases line@.len() - end,
    {
        end = end + 1;
    }
    // The last dot of the domain
    let mut dot: usize = end;
    while dot > 0 && line[dot - 1] != DOT
        invariant
            dot <= end <= line@.len(),
            last_dot(line@, end as int) == last_dot(line@, dot as int),
        decreases dot,
    {
        dot = dot - 1;
    }
    if dot == 0 {
        // A single label
        return None;
    }
    // The dot stands at `dot - 1`, and what follows it starts at `dot`
    if end - dot < 2 {
        return None;
    }
    let mut k: usize = dot;
    while k < end
        invariant
            0 < dot <= k <= end <= line@.len(),
            last_dot(line@, end as int) == dot - 1,
            domain_end(line@, 0) == end,
            !(line@.len() > 1 && line@[0] == ASTERISK && line@[1] != DOT),
            all_alpha(line@, dot as int, k as int),
        decreases end - k,
    {
        if !alpha(line[k]) {
            assert(!is_alpha(line@[k as int]));
            assert(last_dot(line@, end as int) == dot - 1);
            assert(!all_alpha(line@, dot as int, end as int));
            return None;
        }
        k = k + 1;
    }
    let domain = lowercase(slice_subrange(line, 0, end));
    let rest: usize = trim_start(line, end);
    Some((domain, rest))
}

/// What a line of a denylist file holds.
pub struct LineParts {
    pub domain: Option<Seq<u8>>,
    pub kind: EntryKind,
    pub data: Option<Seq<u8>>,
    pub label: Option<Seq<u8>>,
}

/// What a line of a denylist file holds: a pattern between slashes, which
/// must compile, or a domain; and behind it a label, if there is one.
pub open spec fn denylist_line(line: Seq<u8>) -> Option<LineParts> {
    if line.len() > 0 && line[0] == SLASH {
        match regex_in(line) {
            Some((re, rest)) => if valid_utf8(re) && regex_compiled(decode_utf8(re)) is Some {
                Some(
                    LineParts {
                        domain: None,
                        kind: EntryKind::DenyRegex,
                        data: Some(re),
                        label: label_in(line.subrange(rest, line.len() as int)),
                    },
                )
            } else {
                None
            },
            None => None,
        }
    } else {
        match domain_in(line) {
            Some((domain, rest)) => Some(
                LineParts {
                    domain: Some(domain),
                    kind: EntryKind::Deny,
                    data: None,
                    label: label_in(line.subrange(rest, line.len() as int)),
                },
            ),
            None => None,
        }
    }
}

/// What a line of a hosts file holds: a domain, behind it the text of an
/// address up to the next space, and behind that a label, if there is one.
pub open spec fn hosts_line(line: Seq<u8>) -> Option<LineParts> {
    match domain_in(line) {
        Some((domain, rest)) => {
            let stop = first_index(line, SPACE, rest);
            Some(
                LineParts {
                    domain: Some(domain),
                    kind: EntryKind::AllowA,
                    data: Some(line.subrange(rest, stop)),
                    label: if stop < line.len() {
                        label_in(line.subrange(stop + 1, line.len() as int))
                    } else {
                        None
                    },
                },
            )
        },
        None => None,
    }
}

/// The text that optional bytes spell.
pub open spec fn spelled(bytes: Option<Seq<u8>>) -> Option<Seq<char>> {
    match bytes {
        Some(b) => Some(decode_utf8(b)),
        None => None,
    }
}

/// Whether optional bytes, where there are any, are well-formed UTF-8.
pub open spec fn spells_text(bytes: Option<Seq<u8>>) -> bool {
    match bytes {
        Some(b) => valid_utf8(b),
        None => true,
    }
}

/// All parts of a line are text.
pub open spec fn parts_are_text(parts: LineParts) -> bool {
    spells_text(parts.domain) && spells_text(parts.data) && spells_text(parts.label)
}

/// The list entry that the parts of a line make at `timestamp`.
pub open spec fn entry_of(parts: LineParts, kind: EntryKind, timestamp: u32) -> ListEntryView {
    ListEntryView {
        id: 0,
        timestamp: timestamp,
        domain: spelled(parts.domain),
        kind: kind,
        data: spelled(parts.data),
        label: spelled(parts.label),
    }
}

/// The text that optional bytes spell; `Err` where they spell none.
fn to_text(bytes: Option<Vec<u8>>) -> (r: Result<Option<String>, DnsError>)
    ensures
        match r {
            Ok(text) => spells_text(
                match bytes {
                    Some(b) => Some(b@),
                    None => None,
                },
            ) && crate::query_log::text_view(text) == spelled(
                match bytes {
                    Some(b) => Some(b@),
                    None => None,
                },
            ),
            Err(e) => !spells_text(
                match bytes {
                    Some(b) => Some(b@),
                    None => None,
                },
            ) && e == DnsError::InvalidListEntry,
        },
{
    match bytes {
        Some(b) => match string_from_utf8(b) {
            Some(s) => Ok(Some(s)),
            None => Err(DnsError::InvalidListEntry),
        },
        None => Ok(None),
    }
}

/// Reads a line of a denylist file as a list entry made at `timestamp`.
pub fn parse_denylist_line(line: &[u8], timestamp: u32) -> (r: Result<ListEntry, DnsError>)
    ensures
        match r {
            Ok(entry) => denylist_line(line@) is Some && parts_are_text(
                denylist_line(line@).unwrap(),
            ) && entry@ == entry_of(
                denylist_line(line@).unwrap(),
                denylist_line(line@).unwrap().kind,
                timestamp,
            ),
            Err(e) => (denylist_line(line@) is None || !parts_are_text(
                denylist_line(line@).unwrap(),
            )) && e == DnsError::InvalidListEntry,
        },
{
    if line.len() > 0 && line[0] == SLASH {
        // Handle a pattern
        let (re, rest) = match parse_regex(line) {
            Ok(v) => v,
            Err(e) => {
                return Err(e);
            },
        };
        let pattern = match string_from_utf8(re) {
            Some(p) => p,
            None => {
                return Err(DnsError::InvalidListEntry);
            },
        };
        // Check if the pattern is okay
        if compile_regex(pattern.as_str()).is_none() {
            return Err(DnsError::InvalidListEntry);
        }
        let label = match to_text(parse_label(slice_subrange(line, rest, line.len()))) {
            Ok(l) => l,
            Err(e) => {
                return Err(e);
            },
        };
        Ok(
            ListEntry {
                id: 0,
                timestamp,
                domain: None,
                kind: EntryKind::DenyRegex,
                data: Some(pattern),
                label,
            },
        )
    } else {
        // Handle a domain
        let (domain, rest) = match parse_domain_name(line) {
            Some(v) => v,
            None => {
                return Err(DnsError::InvalidListEntry);
            },
        };
        let domain = match string_from_utf8(domain) {
            Some(d) => d,
            None => {
                return Err(DnsError::InvalidListEntry);
            },
        };
        let label = match to_text(parse_label(slice_subrange(line, rest, line.len()))) {
            Ok(l) => l,
            Err(e) => {
                return Err(e);
            },
        };
        Ok(
            ListEntry {
                id: 0,
                timestamp,
                domain: Some(domain),
                kind: EntryKind::Deny,
                data: None,
                label,
            },
        )
    }
}

/// What a line of a hosts file holds: the domain, the text of the
/// address, and the label.
#[derive(Debug, PartialEq, Eq)]
pub struct HostsLine {
    pub domain: String,
    pub address: String,
    pub label: Option<String>,
}

/// Reads a line of a hosts file.
pub fn parse_hosts_line(line: &[u8]) -> (r: Result<HostsLine, DnsError>)
    ensures
        match r {
            Ok(parts) => hosts_line(line@) is Some && parts_are_text(hosts_line(line@).unwrap())
                && Some(parts.domain@) == spelled(hosts_line(line@).unwrap().domain) && Some(
                parts.address@,
            ) == spelled(hosts_line(line@).unwrap().data) && crate::query_log::text_view(
                parts.label,
            ) == spelled(hosts_line(line@).unwrap().label),
            Err(e) => (hosts_line(line@) is None || !parts_are_text(hosts_line(line@).unwrap()))
                && e == DnsError::InvalidListEntry,
        },
{
    let (domain, rest) = match parse_domain_name(line) {
        Some(v) => v,
        None => {
            return Err(DnsError::InvalidListEntry);
        },
    };
    let domain = match string_from_utf8(domain) {
        Some(d) => d,
        None => {
            return Err(DnsError::InvalidListEntry);
        },
    };
    let stop: usize = find_byte(line, SPACE, rest);
    let address = match string_from_utf8(slice_to_vec(slice_subrange(line, rest, stop))) {
        Some(a) => a,
        None => {
            return Err(DnsError::InvalidListEntry);
        },
    };
    let raw_label: Option<Vec<u8>> = if stop < line.len() {
        parse_label(slice_subrange(line, stop + 1, line.len()))
    } else {
        None
    };
    let label = match to_text(raw_label) {
        Ok(l) => l,
        Err(e) => {
            return Err(e);
        },
    };
    Ok(HostsLine { domain, address, label })
}

/// The kind of a hosts entry with this address.
pub fn kind_of_address(address: HostAddr) -> (r: EntryKind)
    ensures
        address.fits(r),
{
    match address {
        HostAddr::V4(_) => EntryKind::AllowA,
        HostAddr::V6(_) => EntryKind::AllowAAAA,
    }
}

} // verus!
