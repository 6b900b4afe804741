use vstd::prelude::*;
use vstd::utf8::decode_utf8;
use vstd::utf8::encode_utf8;
use vstd::utf8::valid_utf8;
use crate::label_cache::POINTER_LIMIT;

verus! {

/// The byte that separates the labels of a name in its text form.
pub const DOT: u8 = 0x2E;

/// The longest label the wire format can carry.
pub const MAX_LABEL_LEN: usize = 63;

/// The first byte of a compression pointer is at least this.
pub const POINTER_TAG: u8 = 0xC0;

/// How many pointers the decoder follows for one name. A walk that follows
/// more has come back to an offset it has already visited and would never
/// end.
pub const MAX_JUMPS: usize = 16384;

/// The bytes of a name's text.
pub open spec fn name_bytes(name: Seq<char>) -> Seq<u8> {
    encode_utf8(name)
}

/// The number of bytes from `i` up to the next dot or the end of `n`.
pub open spec fn label_len(n: Seq<u8>, i: int) -> nat
    decreases n.len() - i,
{
    if i < 0 || i >= n.len() || n[i] == DOT {
        0
    } else {
        1 + label_len(n, i + 1)
    }
}

/// The offset the two bytes of a pointer name.
pub open spec fn pointer_target(b0: u8, b1: u8) -> int {
    (b0 - POINTER_TAG) * 256 + b1
}

/// The two bytes of a pointer to `offset`.
pub open spec fn pointer_bytes(offset: usize) -> Seq<u8> {
    seq![(POINTER_TAG + offset / 256) as u8, (offset % 256) as u8]
}

/// The wire form of the part of name `n` that starts with the label at
/// `i`: each label that is not empty as its length and its bytes, up to
/// the first label from which on the rest of the name is in `cache`,
/// which becomes a pointer and ends the name; a zero byte ends a name
/// that no pointer ended. `None` where a label met on the way is longer
/// than 63 bytes.
pub open spec fn name_wire_from(n: Seq<u8>, i: int, cache: Map<Seq<u8>, usize>) -> Option<Seq<u8>>
    decreases n.len() - i,
{
    if i < 0 || i >= n.len() {
        Some(seq![0u8])
    } else {
        let l = label_len(n, i);
        if l > MAX_LABEL_LEN {
            None
        } else if l == 0 {
            name_wire_from(n, i + 1, cache)
        } else if cache.contains_key(n.subrange(i, n.len() as int)) {
            Some(pointer_bytes(cache[n.subrange(i, n.len() as int)]))
        } else {
            let rest = if i + l >= n.len() {
                Some(seq![0u8])
            } else {
                name_wire_from(n, i + l + 1, cache)
            };
            match rest {
                Some(rest) => Some(seq![l as u8] + n.subrange(i, i + l) + rest),
                None => None,
            }
        }
    }
}

/// The wire form of the whole name `n`.
pub open spec fn name_wire(n: Seq<u8>, cache: Map<Seq<u8>, usize>) -> Option<Seq<u8>> {
    name_wire_from(n, 0, cache)
}

/// The size of the wire form of the part of `n` from the label at `i` on,
/// computed without looking at how long the labels are.
pub open spec fn name_size_from(n: Seq<u8>, i: int, cache: Map<Seq<u8>, usize>) -> nat
    decreases n.len() - i,
{
    if i < 0 || i >= n.len() {
        1
    } else {
        let l = label_len(n, i);
        if l == 0 {
            name_size_from(n, i + 1, cache)
        } else if cache.contains_key(n.subrange(i, n.len() as int)) {
            2
        } else {
            1 + l + if i + l >= n.len() {
                1
            } else {
                name_size_from(n, i + l + 1, cache)
            }
        }
    }
}

/// The size of the wire form of the whole name `n`.
pub open spec fn name_size(n: Seq<u8>, cache: Map<Seq<u8>, usize>) -> nat {
    name_size_from(n, 0, cache)
}

/// What the cache `acc` holds after the part of the name `n` from the
/// label at `i` on was written at offset `pos`: for each label that was
/// written as its length and its bytes, the name from that label on is
/// recorded at the offset of the label, if the cache records and a
/// pointer can name the offset. Nothing is recorded from the first label
/// on from which the name was in `known`, the cache before the name was
/// written, where a pointer ended the name.
pub open spec fn recorded_from(
    n: Seq<u8>,
    i: int,
    known: Map<Seq<u8>, usize>,
    acc: Map<Seq<u8>, usize>,
    recording: bool,
    pos: nat,
) -> Map<Seq<u8>, usize>
    decreases n.len() - i,
{
    if i < 0 || i >= n.len() {
        acc
    } else {
        let l = label_len(n, i);
        let key = n.subrange(i, n.len() as int);
        if l > MAX_LABEL_LEN {
            acc
        } else if l == 0 {
            recorded_from(n, i + 1, known, acc, recording, pos)
        } else if known.contains_key(key) {
            acc
        } else {
            let with = if recording && pos < POINTER_LIMIT {
                acc.insert(key, pos as usize)
            } else {
                acc
            };
            if i + l >= n.len() {
                with
            } else {
                recorded_from(n, i + l + 1, known, with, recording, pos + 1 + l)
            }
        }
    }
}

/// The cache after the name `n` was written at offset `start`: each of
/// its trailing parts that starts with a label written in full is
/// recorded at the offset of that label.
pub open spec fn cache_after(
    cache: Map<Seq<u8>, usize>,
    recording: bool,
    n: Seq<u8>,
    start: nat,
) -> Map<Seq<u8>, usize> {
    recorded_from(n, 0, cache, cache, recording, start)
}

/// A name read off the wire: its labels in order, and the offset just
/// behind the part of it that lies at the place where it was read (behind
/// its first pointer, if it has one, else behind its closing zero byte).
pub struct ParsedName {
    pub labels: Seq<Seq<u8>>,
    pub next: int,
}

/// Reads a name at `pos`, following at most `fuel` pointers. `None` where
/// the bytes end too early, a length byte is between 64 and 191, or more
/// pointers follow one another than `fuel` allows.
pub open spec fn parse_name(bytes: Seq<u8>, pos: int, fuel: nat) -> Option<ParsedName>
    decreases fuel, bytes.len() - pos,
{
    if pos < 0 || pos >= bytes.len() {
        None
    } else {
        let b = bytes[pos];
        if b >= POINTER_TAG {
            if pos + 1 >= bytes.len() || fuel == 0 {
                None
            } else {
                match parse_name(bytes, pointer_target(b, bytes[pos + 1]), (fuel - 1) as nat) {
                    Some(p) => Some(ParsedName { labels: p.labels, next: pos + 2 }),
                    None => None,
                }
            }
        } else if b > MAX_LABEL_LEN {
            None
        } else if b == 0 {
            Some(ParsedName { labels: Seq::empty(), next: pos + 1 })
        } else if pos + 1 + b > bytes.len() {
            None
        } else {
            match parse_name(bytes, pos + 1 + b, fuel) {
                Some(p) => Some(
                    ParsedName {
                        labels: seq![bytes.subrange(pos + 1, pos + 1 + b)] + p.labels,
                        next: p.next,
                    },
                ),
                None => None,
            }
        }
    }
}

/// The labels joined by dots.
pub open spec fn join_labels(labels: Seq<Seq<u8>>) -> Seq<u8>
    decreases labels.len(),
{
    if labels.len() == 0 {
        Seq::empty()
    } else if labels.len() == 1 {
        labels[0]
    } else {
        join_labels(labels.drop_last()) + seq![DOT] + labels.last()
    }
}

/// A name decoded at `pos`: its text, and the offset at which decoding goes
/// on. `None` where no name can be read there or its bytes are not UTF-8.
pub open spec fn decode_name(bytes: Seq<u8>, pos: int) -> Option<(Seq<char>, int)> {
    match parse_name(bytes, pos, MAX_JUMPS as nat) {
        Some(p) => if valid_utf8(join_labels(p.labels)) {
            Some((decode_utf8(join_labels(p.labels)), p.next))
        } else {
            None
        },
        None => None,
    }
}

/// The number of bytes that the name at `pos` takes up there: its labels
/// up to and with the closing zero byte or the first pointer.
pub open spec fn name_span(bytes: Seq<u8>, pos: int) -> Option<nat>
    decreases bytes.len() - pos,
{
    if pos < 0 || pos >= bytes.len() {
        None
    } else {
        let b = bytes[pos];
        if b >= POINTER_TAG {
            if pos + 1 >= bytes.len() {
                None
            } else {
                Some(2nat)
            }
        } else if b > MAX_LABEL_LEN {
            None
        } else if b == 0 {
            Some(1nat)
        } else if pos + 1 + b > bytes.len() {
            None
        } else {
            match name_span(bytes, pos + 1 + b) {
                Some(s) => Some(1 + b as nat + s),
                None => None,
            }
        }
    }
}

/// From `i` on, the label runs to `j`.
pub proof fn lemma_label_len(n: Seq<u8>, i: int, j: int)
    requires
        0 <= i <= j <= n.len(),
        forall|k: int| i <= k < j ==> n[k] != DOT,
        j == n.len() || n[j] == DOT,
    ensures
        label_len(n, i) == j - i,
    decreases j - i,
{
    if i < j {
        lemma_label_len(n, i + 1, j);
    }
}

/// A label ends at the next dot or at the end of the name.
pub proof fn lemma_label_ends(n: Seq<u8>, i: int)
    requires
        0 <= i <= n.len(),
    ensures
        i + label_len(n, i) <= n.len(),
        i + label_len(n, i) < n.len() ==> n[i + label_len(n, i)] == DOT,
        forall|k: int| i <= k < i + label_len(n, i) ==> n[k] != DOT,
    decreases n.len() - i,
{
    if i < n.len() && n[i] != DOT {
        lemma_label_ends(n, i + 1);
    }
}

/// Writing a name takes nothing out of the cache, and leaves every entry
/// as it was that is longer than what is still to be written.
pub proof fn lemma_recorded_grows(
    n: Seq<u8>,
    i: int,
    known: Map<Seq<u8>, usize>,
    acc: Map<Seq<u8>, usize>,
    recording: bool,
    pos: nat,
)
    requires
        0 <= i,
    ensures
        forall|k: Seq<u8>| #[trigger]
            acc.contains_key(k) ==> recorded_from(n, i, known, acc, recording, pos).contains_key(k),
        forall|k: Seq<u8>|
            acc.contains_key(k) && k.len() > n.len() - i ==> #[trigger] recorded_from(
                n,
                i,
                known,
                acc,
                recording,
                pos,
            )[k] == acc[k],
    decreases n.len() - i,
{
    let after = recorded_from(n, i, known, acc, recording, pos);
    if i < n.len() {
        lemma_label_ends(n, i);
        let l = label_len(n, i);
        let key = n.subrange(i, n.len() as int);
        assert(key.len() == n.len() - i);
        if l > MAX_LABEL_LEN {
        } else if l == 0 {
            lemma_recorded_grows(n, i + 1, known, acc, recording, pos);
        } else if !known.contains_key(key) {
            let with = if recording && pos < POINTER_LIMIT {
                acc.insert(key, pos as usize)
            } else {
                acc
            };
            if i + l < n.len() {
                lemma_recorded_grows(n, i + l + 1, known, with, recording, pos + 1 + l);
            }
            assert forall|k: Seq<u8>| #[trigger] acc.contains_key(k) implies after.contains_key(
                k,
            ) by {
                assert(with.contains_key(k));
            }
            assert forall|k: Seq<u8>| acc.contains_key(k) && k.len() > n.len() - i implies #[trigger] after[k]
                == acc[k] by {
                assert(with.contains_key(k));
                assert(k != key);
                assert(with[k] == acc[k]);
            }
        }
    }
}

/// Whether a label of the name `n` starts at `j`, seen from the label
/// that starts at `i`.
pub open spec fn label_starts(n: Seq<u8>, i: int, j: int) -> bool {
    i <= j < n.len() && (j == i || n[j - 1] == DOT)
}

/// After a name was written, each of its trailing parts that starts with
/// a label is in the cache, if none of its trailing parts up to there
/// was in the cache before and a pointer can name where the part starts.
pub proof fn lemma_suffixes_recorded(
    n: Seq<u8>,
    i: int,
    j: int,
    known: Map<Seq<u8>, usize>,
    acc: Map<Seq<u8>, usize>,
    pos: nat,
)
    requires
        0 <= i,
        label_starts(n, i, j),
        label_len(n, j) >= 1,
        name_wire_from(n, i, known) is Some,
        forall|k: int| label_starts(n, i, k) && k <= j ==> !known.contains_key(
            #[trigger] n.subrange(k, n.len() as int),
        ),
        pos + (j - i) < POINTER_LIMIT,
    ensures
        recorded_from(n, i, known, acc, true, pos).contains_key(n.subrange(j, n.len() as int)),
    decreases n.len() - i,
{
    lemma_label_ends(n, i);
    let l = label_len(n, i);
    let key = n.subrange(i, n.len() as int);
    assert(label_starts(n, i, i));
    assert(!known.contains_key(key));
    assert(l <= MAX_LABEL_LEN);
    if l == 0 {
        assert(j != i);
        assert(name_wire_from(n, i + 1, known) is Some);
        assert(label_starts(n, i + 1, j));
        assert forall|k: int| label_starts(n, i + 1, k) && k <= j implies !known.contains_key(
            #[trigger] n.subrange(k, n.len() as int),
        ) by {
            assert(label_starts(n, i, k));
        }
        lemma_suffixes_recorded(n, i + 1, j, known, acc, pos);
    } else {
        let with = acc.insert(key, pos as usize);
        assert(with.contains_key(key));
        if j == i {
            if i + l < n.len() {
                lemma_recorded_grows(n, i + l + 1, known, with, true, pos + 1 + l);
            }
        } else {
            assert(i + l < n.len());
            assert(name_wire_from(n, i + l + 1, known) is Some);
            assert(j > i + l) by {
                if j <= i + l {
                    assert(n[j - 1] != DOT);
                }
            }
            assert(label_starts(n, i + l + 1, j));
            assert forall|k: int| label_starts(n, i + l + 1, k) && k <= j implies !known.contains_key(
                #[trigger] n.subrange(k, n.len() as int),
            ) by {
                assert(label_starts(n, i, k));
            }
            lemma_suffixes_recorded(n, i + l + 1, j, known, with, pos + 1 + l);
        }
    }
}

/// A name that starts with a label and was written at `start` is written
/// the next time as the two bytes of a pointer: to `start`, or to where
/// the cache held the name before.
pub proof fn lemma_repeated_name_is_pointer(n: Seq<u8>, cache: Map<Seq<u8>, usize>, start: nat)
    requires
        name_wire(n, cache) is Some,
        start < POINTER_LIMIT,
        n.len() > 0,
        n[0] != DOT,
    ensures
        cache_after(cache, true, n, start).contains_key(n),
        cache_after(cache, true, n, start)[n] == if cache.contains_key(n) {
            cache[n]
        } else {
            start as usize
        },
        name_wire(n, cache_after(cache, true, n, start)) == Some(
            pointer_bytes(cache_after(cache, true, n, start)[n]),
        ),
{
    assert(n.subrange(0, n.len() as int) =~= n);
    lemma_label_ends(n, 0);
    let l = label_len(n, 0);
    assert(l >= 1);
    assert(l <= MAX_LABEL_LEN);
    if !cache.contains_key(n) {
        let with = cache.insert(n, start as usize);
        assert(with.contains_key(n));
        if l < n.len() {
            lemma_recorded_grows(n, l as int + 1, cache, with, true, start + 1 + l);
        }
    }
}

/// Two names that end in the same labels share their bytes: after a name
/// was written, a name that ends from one of its labels on in a trailing
/// part of the first is written from that label on as the two bytes of a
/// pointer.
pub proof fn lemma_equal_suffixes_share_bytes(
    first: Seq<u8>,
    j: int,
    cache: Map<Seq<u8>, usize>,
    start: nat,
    second: Seq<u8>,
    i: int,
)
    requires
        label_starts(first, 0, j),
        label_len(first, j) >= 1,
        name_wire(first, cache) is Some,
        forall|k: int| label_starts(first, 0, k) && k <= j ==> !cache.contains_key(
            #[trigger] first.subrange(k, first.len() as int),
        ),
        start + j < POINTER_LIMIT,
        0 <= i < second.len(),
        second.subrange(i, second.len() as int) == first.subrange(j, first.len() as int),
    ensures
        cache_after(cache, true, first, start).contains_key(first.subrange(j, first.len() as int)),
        name_wire_from(second, i, cache_after(cache, true, first, start)) == Some(
            pointer_bytes(
                cache_after(cache, true, first, start)[first.subrange(j, first.len() as int)],
            ),
        ),
        pointer_bytes(
            cache_after(cache, true, first, start)[first.subrange(j, first.len() as int)],
        ).len() == 2,
{
    lemma_suffixes_recorded(first, 0, j, cache, cache, start);
    let after = cache_after(cache, true, first, start);
    // The label of the second name is that of the first
    lemma_label_same(first, j, second, i);
    assert(name_wire_from(first, j, cache) is Some) by {
        lemma_wire_reaches(first, 0, j, cache);
    }
}

/// Equal trailing parts of two names start with labels of the same length.
pub proof fn lemma_label_same(a: Seq<u8>, j: int, b: Seq<u8>, i: int)
    requires
        0 <= j <= a.len(),
        0 <= i <= b.len(),
        b.subrange(i, b.len() as int) == a.subrange(j, a.len() as int),
    ensures
        label_len(a, j) == label_len(b, i),
    decreases a.len() - j,
{
    let x = a.subrange(j, a.len() as int);
    let y = b.subrange(i, b.len() as int);
    assert(x.len() == a.len() - j);
    assert(y.len() == b.len() - i);
    if j < a.len() {
        assert(a[j] == x[0]);
        assert(b[i] == y[0]);
        if a[j] != DOT {
            assert(b.subrange(i + 1, b.len() as int) =~= y.subrange(1, y.len() as int));
            assert(a.subrange(j + 1, a.len() as int) =~= x.subrange(1, x.len() as int));
            lemma_label_same(a, j + 1, b, i + 1);
        }
    }
}

/// Where a name has a wire form and none of its trailing parts up to a
/// label is in the cache, the name from that label on has a wire form.
pub proof fn lemma_wire_reaches(n: Seq<u8>, i: int, j: int, cache: Map<Seq<u8>, usize>)
    requires
        0 <= i,
        label_starts(n, i, j),
        name_wire_from(n, i, cache) is Some,
        forall|k: int| label_starts(n, i, k) && k < j ==> !cache.contains_key(
            #[trigger] n.subrange(k, n.len() as int),
        ),
    ensures
        name_wire_from(n, j, cache) is Some,
    decreases n.len() - i,
{
    if i < j {
        lemma_label_ends(n, i);
        let l = label_len(n, i);
        assert(label_starts(n, i, i));
        if l == 0 {
            assert(label_starts(n, i + 1, j));
            assert forall|k: int| label_starts(n, i + 1, k) && k < j implies !cache.contains_key(
                #[trigger] n.subrange(k, n.len() as int),
            ) by {
                assert(label_starts(n, i, k));
            }
            lemma_wire_reaches(n, i + 1, j, cache);
        } else {
            assert(j > i + l) by {
                if j <= i + l {
                    assert(n[j - 1] != DOT);
                }
            }
            assert(label_starts(n, i + l + 1, j));
            assert forall|k: int| label_starts(n, i + l + 1, k) && k < j implies !cache.contains_key(
                #[trigger] n.subrange(k, n.len() as int),
            ) by {
                assert(label_starts(n, i, k));
            }
            lemma_wire_reaches(n, i + l + 1, j, cache);
        }
    }
}

/// A name that ends, from one of its labels on, in a name that the cache
/// holds is written from that label on as the two bytes of a pointer.
pub proof fn lemma_shared_suffix_is_pointer(n: Seq<u8>, i: int, cache: Map<Seq<u8>, usize>)
    requires
        0 <= i < n.len(),
        1 <= label_len(n, i) <= MAX_LABEL_LEN,
        cache.contains_key(n.subrange(i, n.len() as int)),
    ensures
        name_wire_from(n, i, cache) == Some(pointer_bytes(cache[n.subrange(i, n.len() as int)])),
{
}

} // verus!
