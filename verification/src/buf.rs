use vstd::prelude::*;
use vstd::slice::slice_subrange;
use vstd::slice::slice_to_vec;
use vstd::utf8::decode_utf8;
use vstd::utf8::valid_utf8;
use crate::error::DnsError;
use crate::label_cache::LabelCache;
use crate::name::DOT;
use crate::name::MAX_JUMPS;
use crate::name::MAX_LABEL_LEN;
use crate::name::POINTER_TAG;
use crate::name::ParsedName;
use crate::name::cache_after;
use crate::name::decode_name;
use crate::name::join_labels;
use crate::name::label_len;
use crate::name::lemma_label_len;
use crate::name::name_bytes;
use crate::name::name_span;
use crate::name::name_wire;
use crate::name::name_wire_from;
use crate::name::parse_name;
use crate::name::pointer_bytes;
use crate::name::pointer_target;
use crate::name::recorded_from;

verus! {

/// The abstract state of a [`ByteBuf`]: its bytes and its read cursor.
pub struct ByteBufView {
    pub bytes: Seq<u8>,
    pub pos: nat,
}

/// A growable byte buffer with a read cursor. Reads start at the cursor and
/// advance it; writes append at the end or patch at a given offset.
pub struct ByteBuf {
    buf: Vec<u8>,
    pos: usize,
}

impl View for ByteBuf {
    type V = ByteBufView;

    closed spec fn view(&self) -> ByteBufView {
        ByteBufView { bytes: self.buf@, pos: self.pos as nat }
    }
}

/// The big-endian 16-bit number held by the two bytes at `pos`.
pub open spec fn u16_at(bytes: Seq<u8>, pos: int) -> u16 {
    (bytes[pos] as int * 256 + bytes[pos + 1] as int) as u16
}

/// The two bytes of `v`, most significant first.
pub open spec fn u16_bytes(v: u16) -> Seq<u8> {
    seq![(v / 256) as u8, (v % 256) as u8]
}

/// `bytes` with `data` laid over it at `pos`, zero-filled and grown where
/// `data` reaches past the end.
pub open spec fn patched(bytes: Seq<u8>, pos: int, data: Seq<u8>) -> Seq<u8> {
    Seq::new(
        if bytes.len() > pos + data.len() { bytes.len() } else { (pos + data.len()) as nat },
        |i: int|
            if pos <= i < pos + data.len() {
                data[i - pos]
            } else if i < bytes.len() {
                bytes[i]
            } else {
                0u8
            },
    )
}

/// `String::from_utf8` of std: the text that the bytes encode, where they
/// are well-formed UTF-8, and nothing where they are not.
#[verifier::external_body]
pub(crate) fn string_from_utf8(bytes: Vec<u8>) -> (r: Option<String>)
    ensures
        r is Some <==> valid_utf8(bytes@),
        r is Some ==> r.unwrap()@ == decode_utf8(bytes@),
{
    match String::from_utf8(bytes) {
        Ok(s) => Some(s),
        Err(_) => None,
    }
}

/// What is known of a name during a walk: the labels read so far and the
/// resume offset, if a pointer has fixed it, put before what the rest of
/// the walk yields.
pub open spec fn graft(labels: Seq<Seq<u8>>, next: Option<usize>, rest: Option<ParsedName>) -> Option<
    ParsedName,
> {
    match rest {
        Some(p) => Some(
            ParsedName {
                labels: labels + p.labels,
                next: match next {
                    Some(n) => n as int,
                    None => p.next,
                },
            },
        ),
        None => None,
    }
}

/// The written bytes put before what is still to be written.
pub open spec fn wire_after(written: Seq<u8>, rest: Option<Seq<u8>>) -> Option<Seq<u8>> {
    match rest {
        Some(r) => Some(written + r),
        None => None,
    }
}

/// The offset at which the label that starts at `i` ends: that of the next
/// dot, or the end of the name.
pub(crate) fn label_end(n: &[u8], i: usize) -> (j: usize)
    requires
        i <= n@.len(),
    ensures
        i <= j <= n@.len(),
        j - i == label_len(n@, i as int),
{
    let mut j: usize = i;
    while j < n.len() && n[j] != DOT
        invariant
            i <= j <= n@.len(),
            forall|k: int| i <= k < j ==> n@[k] != DOT,
        decreases n@.len() - j,
    {
        j = j + 1;
    }
    proof {
        lemma_label_len(n@, i as int, j as int);
    }
    j
}

/// Whether the name `n` has a wire form with `label_cache`: whether none
/// of its labels is longer than 63 bytes, up to the first label from
/// which on the name is in the cache.
fn labels_fit(n: &[u8], label_cache: &LabelCache) -> (r: bool)
    requires
        label_cache.wf(),
    ensures
        r == (name_wire(n@, label_cache@) is Some),
{
    let len: usize = n.len();
    let mut i: usize = 0;
    while i < len
        invariant
            i <= len,
            len == n@.len(),
            label_cache.wf(),
            (name_wire(n@, label_cache@) is Some) == (name_wire_from(
                n@,
                i as int,
                label_cache@,
            ) is Some),
        decreases len - i,
    {
        let j: usize = label_end(n, i);
        if j - i > MAX_LABEL_LEN {
            return false;
        }
        if j > i {
            if label_cache.get_bytes(slice_subrange(n, i, len)).is_some() {
                return true;
            }
            if j >= len {
                return true;
            }
        }
        i = j + 1;
    }
    true
}

impl ByteBuf {
    /// The bytes of a buffer fit the memory of the machine.
    pub proof fn lemma_len_fits(&self)
        ensures
            self@.bytes.len() <= usize::MAX,
    {
        assert(self.buf.len() == self.buf@.len());
    }

    pub fn new(src: &[u8]) -> (r: ByteBuf)
        ensures
            r@.bytes == src@,
            r@.pos == 0,
    {
        ByteBuf { buf: slice_to_vec(src), pos: 0 }
    }

    pub fn new_from_vec(src: Vec<u8>) -> (r: ByteBuf)
        ensures
            r@.bytes == src@,
            r@.pos == 0,
    {
        ByteBuf { buf: src, pos: 0 }
    }

    pub fn new_empty(capacity: Option<usize>) -> (r: ByteBuf)
        ensures
            r@.bytes == Seq::<u8>::empty(),
            r@.pos == 0,
    {
        let cap: usize = match capacity {
            Some(c) => c,
            None => 512,
        };
        ByteBuf { buf: Vec::with_capacity(cap), pos: 0 }
    }

    pub fn into_inner(self) -> (r: Vec<u8>)
        ensures
            r@ == self@.bytes,
    {
        self.buf
    }

    pub fn get_inner_mut(&mut self) -> (r: &mut Vec<u8>)
        ensures
            r@ == old(self)@.bytes,
            final(self)@.bytes == final(r)@,
            final(self)@.pos == old(self)@.pos,
    {
        &mut self.buf
    }

    /// The bytes held, as a slice.
    pub fn as_slice(&self) -> (r: &[u8])
        ensures
            r@ == self@.bytes,
    {
        self.buf.as_slice()
    }

    /// The number of bytes held.
    pub fn len(&self) -> (r: usize)
        ensures
            r == self@.bytes.len(),
    {
        self.buf.len()
    }

    /// The read cursor.
    pub fn pos(&self) -> (r: usize)
        ensures
            r == self@.pos,
    {
        self.pos
    }

    pub fn clear(&mut self)
        ensures
            final(self)@.bytes == Seq::<u8>::empty(),
            final(self)@.pos == old(self)@.pos,
    {
        self.buf.clear();
    }

    /// Moves the read cursor to `pos`.
    pub fn set_pos(&mut self, pos: usize)
        ensures
            final(self)@.bytes == old(self)@.bytes,
            final(self)@.pos == pos,
    {
        self.pos = pos;
    }

    /// Drops the bytes from offset `len` on, if there are any.
    pub fn truncate(&mut self, len: usize)
        ensures
            final(self)@.pos == old(self)@.pos,
            final(self)@.bytes == if len <= old(self)@.bytes.len() {
                old(self)@.bytes.subrange(0, len as int)
            } else {
                old(self)@.bytes
            },
    {
        self.buf.truncate(len);
    }

    pub fn reset_pos(&mut self)
        ensures
            final(self)@.bytes == old(self)@.bytes,
            final(self)@.pos == 0,
    {
        self.pos = 0;
    }

    pub fn resize(&mut self, new_len: usize)
        ensures
            final(self)@.pos == old(self)@.pos,
            final(self)@.bytes.len() == new_len,
            forall|i: int|
                0 <= i < new_len ==> final(self)@.bytes[i] == if i < old(self)@.bytes.len() {
                    old(self)@.bytes[i]
                } else {
                    0u8
                },
    {
        self.buf.resize(new_len, 0u8);
    }

    /// The number of bytes that the name at the cursor takes up there,
    /// pointers not followed.
    pub fn get_qname_length(&self) -> (r: Result<usize, DnsError>)
        ensures
            match name_span(self@.bytes, self@.pos as int) {
                Some(n) => r == Ok::<usize, DnsError>(n as usize),
                None => r == Err::<usize, DnsError>(DnsError::MalformedPacket),
            },
    {
        let len: usize = self.buf.len();
        let mut pos: usize = self.pos;
        loop
            invariant
                len == self.buf@.len(),
                self.pos <= pos,
                pos <= len || pos == self.pos,
                match name_span(self.buf@, pos as int) {
                    Some(n) => name_span(self.buf@, self.pos as int) == Some(
                        (pos - self.pos + n) as nat,
                    ),
                    None => name_span(self.buf@, self.pos as int).is_none(),
                },
            decreases len - pos,
        {
            if pos >= len {
                return Err(DnsError::MalformedPacket);
            }
            let b: u8 = self.buf[pos];
            if b >= POINTER_TAG {
                if len - pos < 2 {
                    return Err(DnsError::MalformedPacket);
                }
                return Ok(pos - self.pos + 2);
            } else if b as usize > MAX_LABEL_LEN {
                return Err(DnsError::MalformedPacket);
            } else if b == 0 {
                return Ok(pos - self.pos + 1);
            } else {
                if len - pos - 1 < b as usize {
                    return Err(DnsError::MalformedPacket);
                }
                pos = pos + 1 + b as usize;
            }
        }
    }

    /// Reads the name at the cursor, following compression pointers, and
    /// moves the cursor behind the part of the name that lies there.
    pub fn read_qname(&mut self) -> (r: Result<String, DnsError>)
        ensures
            final(self)@.bytes == old(self)@.bytes,
            match decode_name(old(self)@.bytes, old(self)@.pos as int) {
                Some((name, next)) => r is Ok && r.unwrap()@ == name && final(self)@.pos == next,
                None => r is Err && r.unwrap_err() == DnsError::MalformedPacket && final(self)@.pos
                    == old(self)@.pos,
            },
    {
        let ghost bytes = self.buf@;
        let start: usize = self.pos;
        let len: usize = self.buf.len();
        let mut pos: usize = self.pos;
        let mut jumps: usize = 0;
        let mut next: Option<usize> = None;
        let mut acc: Vec<u8> = Vec::new();
        let mut any: bool = false;
        let ghost mut labels: Seq<Seq<u8>> = Seq::empty();
        proof {
            let whole_name = parse_name(bytes, start as int, MAX_JUMPS as nat);
            if whole_name is Some {
                assert(labels + whole_name.unwrap().labels =~= whole_name.unwrap().labels);
            }
        }
        loop
            invariant
                self.buf@ == bytes,
                self.pos == start,
                len == bytes.len(),
                jumps <= MAX_JUMPS,
                acc@ == join_labels(labels),
                any == (labels.len() > 0),
                next is Some ==> next.unwrap() <= len,
                parse_name(bytes, start as int, MAX_JUMPS as nat) == graft(
                    labels,
                    next,
                    parse_name(bytes, pos as int, (MAX_JUMPS - jumps) as nat),
                ),
            ensures
                next is Some,
                parse_name(bytes, start as int, MAX_JUMPS as nat) == Some(
                    ParsedName { labels: labels, next: next.unwrap() as int },
                ),
            decreases MAX_JUMPS - jumps, len - pos,
        {
            if pos >= len {
                return Err(DnsError::MalformedPacket);
            }
            let b: u8 = self.buf[pos];
            if b >= POINTER_TAG {
                if len - pos < 2 || jumps >= MAX_JUMPS {
                    return Err(DnsError::MalformedPacket);
                }
                let target: usize = ((b - POINTER_TAG) as usize) * 256 + (self.buf[pos + 1] as usize);
                assert(target == pointer_target(b, bytes[pos + 1]));
                if next.is_none() {
                    next = Some(pos + 2);
                }
                pos = target;
                jumps = jumps + 1;
            } else if b as usize > MAX_LABEL_LEN {
                return Err(DnsError::MalformedPacket);
            } else if b == 0 {
                if next.is_none() {
                    next = Some(pos + 1);
                }
                proof {
                    assert(labels + Seq::<Seq<u8>>::empty() =~= labels);
                }
                break ;
            } else {
                if len - pos - 1 < b as usize {
                    return Err(DnsError::MalformedPacket);
                }
                let ghost label = bytes.subrange(pos + 1, pos + 1 + b);
                if any {
                    acc.push(DOT);
                }
                acc.extend_from_slice(
                    slice_subrange(self.buf.as_slice(), pos + 1, pos + 1 + b as usize),
                );
                proof {
                    let longer = labels.push(label);
                    assert(longer.drop_last() =~= labels);
                    assert(longer.last() == label);
                    if labels.len() > 0 {
                        assert(acc@ =~= join_labels(labels) + seq![DOT] + label);
                    }
                    assert(acc@ =~= join_labels(longer));
                    let rest = parse_name(bytes, pos + 1 + b, (MAX_JUMPS - jumps) as nat);
                    if rest is Some {
                        assert(longer + rest.unwrap().labels =~= labels + (seq![label]
                            + rest.unwrap().labels));
                    }
                    labels = longer;
                }
                any = true;
                pos = pos + 1 + b as usize;
            }
        }
        match string_from_utf8(acc) {
            Some(name) => {
                self.pos = next.unwrap();
                Ok(name)
            },
            None => Err(DnsError::MalformedPacket),
        }
    }

    /// Writes `qname` at the end of the buffer, in the wire form that
    /// `label_cache` gives it, and records the name in the cache. Returns
    /// the number of bytes written.
    pub fn write_qname(&mut self, qname: &str, label_cache: &mut LabelCache) -> (r: Result<
        usize,
        DnsError,
    >)
        requires
            old(label_cache).wf(),
        ensures
            final(label_cache).wf(),
            final(label_cache).is_recording() == old(label_cache).is_recording(),
            final(self)@.pos == old(self)@.pos,
            match name_wire(name_bytes(qname@), old(label_cache)@) {
                Some(w) => r is Ok && r.unwrap() == w.len() && final(self)@.bytes
                    == old(self)@.bytes + w && final(label_cache)@ == cache_after(
                    old(label_cache)@,
                    old(label_cache).is_recording(),
                    name_bytes(qname@),
                    old(self)@.bytes.len(),
                ),
                None => r == Err::<usize, DnsError>(DnsError::LabelTooLong) && final(self)@.bytes
                    == old(self)@.bytes && final(label_cache)@ == old(label_cache)@,
            },
    {
        let n: &[u8] = qname.as_bytes();
        let len: usize = n.len();
        let start: usize = self.buf.len();
        let ghost cache = label_cache@;
        let ghost recording = label_cache.is_recording();
        if !labels_fit(n, label_cache) {
            return Err(DnsError::LabelTooLong);
        }
        let mut i: usize = 0;
        let mut done: bool = false;
        let mut pointed: bool = false;
        while !done
            invariant
                n@ == name_bytes(qname@),
                len == n@.len(),
                self.pos == old(self).pos,
                label_cache.wf(),
                label_cache.is_recording() == recording,
                recording == old(label_cache).is_recording(),
                cache == old(label_cache)@,
                start == old(self).buf@.len(),
                self.buf@.len() >= start,
                self.buf@.subrange(0, start as int) == old(self).buf@,
                i <= len,
                pointed ==> done,
                name_wire(n@, cache) is Some,
                !done ==> name_wire(n@, cache) == wire_after(
                    self.buf@.subrange(start as int, self.buf@.len() as int),
                    name_wire_from(n@, i as int, cache),
                ),
                done && !pointed ==> name_wire(n@, cache) == Some(
                    self.buf@.subrange(start as int, self.buf@.len() as int) + seq![0u8],
                ),
                pointed ==> name_wire(n@, cache) == Some(
                    self.buf@.subrange(start as int, self.buf@.len() as int),
                ),
                // What is recorded so far, and what the labels to come add to it
                cache_after(cache, recording, n@, start as nat) == if done {
                    label_cache@
                } else {
                    recorded_from(
                        n@,
                        i as int,
                        cache,
                        label_cache@,
                        recording,
                        self.buf@.len() as nat,
                    )
                },
                // What was recorded is longer than what is still looked up
                forall|k: Seq<u8>|
                    !done && k.len() <= len - i ==> (#[trigger] label_cache@.contains_key(k)
                        == cache.contains_key(k)),
                forall|k: Seq<u8>|
                    !done && k.len() <= len - i && cache.contains_key(k)
                        ==> #[trigger] label_cache@[k] == cache[k],
            decreases len - i, if done { 0int } else { 1int },
        {
            if i >= len {
                done = true;
            } else {
                let j: usize = label_end(n, i);
                let ghost before = self.buf@.subrange(start as int, self.buf@.len() as int);
                assert(j - i <= MAX_LABEL_LEN);
                if j > i {
                    let ghost key = n@.subrange(i as int, len as int);
                    assert(key.len() == len - i);
                    match label_cache.get_bytes(slice_subrange(n, i, len)) {
                        Some(offset) => {
                            proof {
                                label_cache.lemma_offsets_in_reach();
                                assert(cache.contains_key(key));
                                assert(label_cache@[key] == cache[key]);
                            }
                            self.buf.push(POINTER_TAG + (offset / 256) as u8);
                            self.buf.push((offset % 256) as u8);
                            pointed = true;
                            done = true;
                            assert(self.buf@.subrange(start as int, self.buf@.len() as int)
                                =~= before + pointer_bytes(offset));
                            assert(self.buf@.subrange(0, start as int) =~= old(self).buf@);
                        },
                        None => {
                            assert(!cache.contains_key(key));
                            let at: usize = self.buf.len();
                            self.buf.push((j - i) as u8);
                            self.buf.extend_from_slice(slice_subrange(n, i, j));
                            label_cache.insert_bytes(slice_subrange(n, i, len), at);
                            let ghost piece = seq![(j - i) as u8] + n@.subrange(i as int, j as int);
                            assert(self.buf@.subrange(start as int, self.buf@.len() as int)
                                =~= before + piece);
                            assert(self.buf@.subrange(0, start as int) =~= old(self).buf@);
                            proof {
                                let rest = if j >= len {
                                    Some(seq![0u8])
                                } else {
                                    name_wire_from(n@, j + 1, cache)
                                };
                                if rest is Some {
                                    assert(before + (piece + rest.unwrap()) =~= (before + piece)
                                        + rest.unwrap());
                                }
                            }
                            if j >= len {
                                done = true;
                            } else {
                                i = j + 1;
                            }
                        },
                    }
                } else {
                    i = j + 1;
                }
            }
        }
        if !pointed {
            self.buf.push(0u8);
            assert(self.buf@.subrange(0, start as int) =~= old(self).buf@);
        }
        let total: usize = self.buf.len() - start;
        assert(self.buf@ =~= old(self).buf@ + self.buf@.subrange(
            start as int,
            self.buf@.len() as int,
        ));
        Ok(total)
    }

    /// Whether `n` bytes are present from `at` on.
    pub fn ensure_length(&self, n: usize, at: Option<usize>) -> (r: Result<(), DnsError>)
        ensures
            r is Ok <==> (match at {
                Some(p) => p,
                None => self@.pos as usize,
            }) + n <= self@.bytes.len(),
            r is Err ==> r == Err::<(), DnsError>(DnsError::MalformedPacket),
    {
        let start: usize = match at {
            Some(p) => p,
            None => self.pos,
        };
        if start > self.buf.len() || n > self.buf.len() - start {
            Err(DnsError::MalformedPacket)
        } else {
            Ok(())
        }
    }

    pub fn read_u8(&mut self) -> (r: Result<u8, DnsError>)
        ensures
            final(self)@.bytes == old(self)@.bytes,
            match r {
                Ok(v) => old(self)@.pos < old(self)@.bytes.len() && v == old(self)@.bytes[old(self)@.pos as int] && final(self)@.pos == old(self)@.pos + 1,
                Err(e) => old(self)@.pos >= old(self)@.bytes.len() && e == DnsError::MalformedPacket
                    && final(self)@.pos == old(self)@.pos,
            },
    {
        if self.pos >= self.buf.len() {
            return Err(DnsError::MalformedPacket);
        }
        let v: u8 = self.buf[self.pos];
        self.pos = self.pos + 1;
        Ok(v)
    }

    pub fn write_u8(&mut self, data: u8)
        ensures
            final(self)@.bytes == old(self)@.bytes.push(data),
            final(self)@.pos == old(self)@.pos,
    {
        self.buf.push(data);
    }

    pub fn set_u8(&mut self, pos: usize, data: u8) -> (r: Result<(), DnsError>)
        ensures
            final(self)@.pos == old(self)@.pos,
            match r {
                Ok(_) => pos < old(self)@.bytes.len() && final(self)@.bytes == old(self)@.bytes.update(pos as int, data),
                Err(e) => pos >= old(self)@.bytes.len() && e == DnsError::OutOfBounds && final(self)@.bytes == old(self)@.bytes,
            },
    {
        if pos >= self.buf.len() {
            return Err(DnsError::OutOfBounds);
        }
        self.buf[pos] = data;
        Ok(())
    }

    pub fn read_u16(&mut self) -> (r: Result<u16, DnsError>)
        ensures
            final(self)@.bytes == old(self)@.bytes,
            match r {
                Ok(v) => old(self)@.pos + 2 <= old(self)@.bytes.len() && v == u16_at(
                    old(self)@.bytes,
                    old(self)@.pos as int,
                ) && final(self)@.pos == old(self)@.pos + 2,
                Err(e) => old(self)@.pos + 2 > old(self)@.bytes.len() && e
                    == DnsError::MalformedPacket && final(self)@.pos == old(self)@.pos,
            },
    {
        if self.pos > self.buf.len() || self.buf.len() - self.pos < 2 {
            return Err(DnsError::MalformedPacket);
        }
        let hi: u16 = self.buf[self.pos] as u16;
        let lo: u16 = self.buf[self.pos + 1] as u16;
        self.pos = self.pos + 2;
        Ok(hi * 256 + lo)
    }

    /// The 16-bit number at `pos`, read without moving the cursor. It is
    /// there only where two bytes lie at `pos` and two more at the cursor.
    pub fn peek_u16(&self, pos: usize) -> (r: Result<u16, DnsError>)
        ensures
            match r {
                Ok(v) => pos + 2 <= self@.bytes.len() && self@.pos + 2 <= self@.bytes.len() && v
                    == u16_at(self@.bytes, pos as int),
                Err(e) => (pos + 2 > self@.bytes.len() || self@.pos + 2 > self@.bytes.len()) && e
                    == DnsError::MalformedPacket,
            },
    {
        match self.peek_bytes(pos, 2) {
            Ok(b) => Ok((b[0] as u16) * 256 + (b[1] as u16)),
            Err(e) => Err(e),
        }
    }

    pub fn write_u16(&mut self, data: u16) -> (r: Result<(), DnsError>)
        ensures
            r is Ok,
            final(self)@.bytes == old(self)@.bytes + u16_bytes(data),
            final(self)@.pos == old(self)@.pos,
    {
        self.buf.push((data / 256) as u8);
        self.buf.push((data % 256) as u8);
        assert(self.buf@ =~= old(self).buf@ + u16_bytes(data));
        Ok(())
    }

    /// Lays the two bytes of `data` over the buffer at `pos`, growing it
    /// with zeros where they reach past the end.
    pub fn set_u16(&mut self, pos: usize, data: u16) -> (r: Result<(), DnsError>)
        ensures
            final(self)@.pos == old(self)@.pos,
            match r {
                Ok(_) => pos + 2 <= usize::MAX && final(self)@.bytes == patched(
                    old(self)@.bytes,
                    pos as int,
                    u16_bytes(data),
                ),
                Err(e) => pos + 2 > usize::MAX && e == DnsError::OutOfBounds && final(self)@.bytes
                    == old(self)@.bytes,
            },
    {
        let bytes: [u8; 2] = [(data / 256) as u8, (data % 256) as u8];
        assert(bytes@ =~= u16_bytes(data));
        self.write_bytes(bytes.as_slice(), Some(pos))
    }

    /// Takes the next `n` bytes at the cursor and moves the cursor past them.
    pub fn read_bytes(&mut self, n: usize) -> (r: Result<Vec<u8>, DnsError>)
        ensures
            final(self)@.bytes == old(self)@.bytes,
            match r {
                Ok(v) => old(self)@.pos + n <= old(self)@.bytes.len() && v@ == old(self)@.bytes.subrange(old(self)@.pos as int, old(self)@.pos + n) && final(self)@.pos
                    == old(self)@.pos + n,
                Err(e) => old(self)@.pos + n > old(self)@.bytes.len() && e
                    == DnsError::MalformedPacket && final(self)@.pos == old(self)@.pos,
            },
    {
        if self.pos > self.buf.len() || n > self.buf.len() - self.pos {
            return Err(DnsError::MalformedPacket);
        }
        let out = slice_to_vec(slice_subrange(self.buf.as_slice(), self.pos, self.pos + n));
        self.pos = self.pos + n;
        Ok(out)
    }

    /// The `n` bytes at `pos`, read without moving the cursor. They are
    /// there only where `n` bytes lie at `pos` and `n` more at the cursor.
    pub fn peek_bytes(&self, pos: usize, n: usize) -> (r: Result<&[u8], DnsError>)
        ensures
            match r {
                Ok(v) => pos + n <= self@.bytes.len() && self@.pos + n <= self@.bytes.len() && v@
                    == self@.bytes.subrange(pos as int, pos + n),
                Err(e) => (pos + n > self@.bytes.len() || self@.pos + n > self@.bytes.len()) && e
                    == DnsError::MalformedPacket,
            },
    {
        if self.pos > self.buf.len() || n > self.buf.len() - self.pos {
            return Err(DnsError::MalformedPacket);
        }
        match self.get_range(pos, n) {
            Some(b) => Ok(b),
            None => Err(DnsError::MalformedPacket),
        }
    }

    /// Appends `data`, or with `at_pos` lays it over the buffer from that
    /// offset on, growing the buffer with zeros where `data` reaches past
    /// the end.
    pub fn write_bytes(&mut self, data: &[u8], at_pos: Option<usize>) -> (r: Result<(), DnsError>)
        ensures
            final(self)@.pos == old(self)@.pos,
            match r {
                Ok(_) => match at_pos {
                    Some(p) => p + data@.len() <= usize::MAX && final(self)@.bytes == patched(
                        old(self)@.bytes,
                        p as int,
                        data@,
                    ),
                    None => final(self)@.bytes == old(self)@.bytes + data@,
                },
                Err(e) => at_pos is Some && at_pos.unwrap() + data@.len() > usize::MAX && e
                    == DnsError::OutOfBounds && final(self)@.bytes == old(self)@.bytes,
            },
    {
        match at_pos {
            Some(p) => {
                if data.len() > usize::MAX - p {
                    return Err(DnsError::OutOfBounds);
                }
                let end: usize = p + data.len();
                if self.buf.len() < end {
                    self.buf.resize(end, 0u8);
                }
                let mut i: usize = 0;
                while i < data.len()
                    invariant
                        i <= data@.len(),
                        end == p + data@.len(),
                        self.pos == old(self).pos,
                        self.buf@.len() >= end,
                        self.buf@.len() == patched(old(self).buf@, p as int, data@).len(),
                        forall|k: int|
                            0 <= k < self.buf@.len() ==> self.buf@[k] == if p <= k < p + i {
                                data@[k - p]
                            } else if k < old(self).buf@.len() {
                                old(self).buf@[k]
                            } else {
                                0u8
                            },
                    decreases data@.len() - i,
                {
                    self.buf[p + i] = data[i];
                    i = i + 1;
                }
                assert(self.buf@ =~= patched(old(self).buf@, p as int, data@));
                Ok(())
            },
            None => {
                self.buf.extend_from_slice(data);
                Ok(())
            },
        }
    }

    /// The `len` bytes from `pos` on, where the buffer holds them all.
    pub fn get_range(&self, pos: usize, len: usize) -> (r: Option<&[u8]>)
        ensures
            r is Some <==> pos + len <= self@.bytes.len(),
            r is Some ==> r.unwrap()@ == self@.bytes.subrange(pos as int, pos + len),
    {
        if pos > self.buf.len() || len > self.buf.len() - pos {
            None
        } else {
            Some(slice_subrange(self.buf.as_slice(), pos, pos + len))
        }
    }
}

} // verus!
