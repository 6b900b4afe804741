use vstd::prelude::*;
use crate::buf::ByteBuf;
use crate::buf::ByteBufView;
use crate::error::DnsError;
use crate::label_cache::LabelCache;

verus! {

/// What an encoder starts from: the offset in the message at which it
/// writes, and the label cache as it stands.
pub struct EncCtx {
    pub start: nat,
    pub cache: Map<Seq<u8>, usize>,
    pub recording: bool,
}

/// What an encoder produces: the bytes it appends, the label cache
/// afterwards, and the size it reports.
pub struct Encoded {
    pub bytes: Seq<u8>,
    pub cache: Map<Seq<u8>, usize>,
    pub size: nat,
}

/// The context in which the next value is encoded, after `out` was
/// appended in context `ctx`.
pub open spec fn ctx_after(ctx: EncCtx, out: Encoded) -> EncCtx {
    EncCtx { start: ctx.start + out.bytes.len(), cache: out.cache, recording: ctx.recording }
}

/// What is encoded where a value does not fit the limit: nothing.
pub open spec fn skipped(ctx: EncCtx) -> Encoded {
    Encoded { bytes: Seq::empty(), cache: ctx.cache, size: 0 }
}

/// `n`, or the largest `usize` where `n` is larger: sizes are counted up
/// to there.
pub open spec fn clip(n: nat) -> usize {
    if n > usize::MAX {
        usize::MAX
    } else {
        n as usize
    }
}

/// Whether a value of `size` bytes exceeds the limit.
pub open spec fn exceeds(size: nat, max_size: Option<usize>) -> bool {
    match max_size {
        Some(m) => clip(size) > m,
        None => false,
    }
}

/// Whether `size` exceeds the limit `max_size`.
pub fn over_limit(size: usize, max_size: Option<usize>) -> (r: bool)
    ensures
        r == match max_size {
            Some(m) => size > m,
            None => false,
        },
{
    match max_size {
        Some(m) => size > m,
        None => false,
    }
}

/// The context that a buffer and a cache make.
pub open spec fn ctx_of(buf: ByteBufView, cache: &LabelCache) -> EncCtx {
    EncCtx { start: buf.bytes.len(), cache: cache@, recording: cache.is_recording() }
}

/// A value that can be decoded from a buffer at its cursor.
pub trait FromBuf: Sized {
    /// Whether a value can be decoded from `bytes` at `pos`.
    spec fn decodable(bytes: Seq<u8>, pos: int) -> bool;

    /// Whether decoding `bytes` at `pos` yields `value` and goes on at `next`.
    spec fn decoded(bytes: Seq<u8>, pos: int, value: Self, next: int) -> bool;

    /// Decodes a value at the cursor and moves the cursor behind it. Where
    /// none can be decoded the cursor stays.
    fn from_buf(buf: &mut ByteBuf) -> (r: Result<Self, DnsError>)
        ensures
            final(buf)@.bytes == old(buf)@.bytes,
            match r {
                Ok(v) => Self::decodable(old(buf)@.bytes, old(buf)@.pos as int) && Self::decoded(
                    old(buf)@.bytes,
                    old(buf)@.pos as int,
                    v,
                    final(buf)@.pos as int,
                ),
                Err(e) => !Self::decodable(old(buf)@.bytes, old(buf)@.pos as int) && e
                    == DnsError::MalformedPacket && final(buf)@.pos == old(buf)@.pos,
            },
    ;
}

/// A value whose encoded size can be told before it is written.
pub trait EncodedSize {
    /// An upper bound of the bytes that encoding with `cache` appends,
    /// exact where no name of the value ends in another name of it.
    spec fn size_bound(&self, cache: Map<Seq<u8>, usize>) -> nat;

    fn get_encoded_size(&self, label_cache: &LabelCache) -> (r: usize)
        requires
            label_cache.wf(),
        ensures
            r == clip(self.size_bound(label_cache@)),
    ;
}

/// A value that can be appended to a buffer in wire form.
pub trait EncodeToBuf {
    /// What encoding in context `ctx` under the limit `max_size` appends
    /// and reports, or the error it ends in.
    spec fn encoded(&self, ctx: EncCtx, max_size: Option<usize>) -> Result<Encoded, DnsError>;

    /// Whether `encode_to_buf` shortens names by compression pointers.
    spec fn compresses() -> bool;

    /// Appends the value to `buf`, shortening names by `label_cache` and
    /// recording in it the names written. Where it fails, the buffer stays
    /// as it was; the cache may then hold names that were not kept.
    fn encode_to_buf_with_cache(
        &self,
        buf: &mut ByteBuf,
        label_cache: &mut LabelCache,
        max_size: Option<usize>,
    ) -> (r: Result<usize, DnsError>)
        requires
            old(label_cache).wf(),
        ensures
            final(label_cache).wf(),
            final(label_cache).is_recording() == old(label_cache).is_recording(),
            final(buf)@.pos == old(buf)@.pos,
            match self.encoded(ctx_of(old(buf)@, old(label_cache)), max_size) {
                Ok(out) => r == Ok::<usize, DnsError>(clip(out.size)) && final(buf)@.bytes == old(buf)@.bytes + out.bytes && final(label_cache)@ == out.cache,
                Err(e) => r == Err::<usize, DnsError>(e) && final(buf)@.bytes == old(buf)@.bytes,
            },
    ;

    /// Appends the value to `buf`, with a label cache of its own.
    fn encode_to_buf(&self, buf: &mut ByteBuf, max_size: Option<usize>) -> (r: Result<
        usize,
        DnsError,
    >)
        ensures
            final(buf)@.pos == old(buf)@.pos,
            match self.encoded(
                EncCtx {
                    start: old(buf)@.bytes.len(),
                    cache: Map::empty(),
                    recording: Self::compresses(),
                },
                max_size,
            ) {
                Ok(out) => r == Ok::<usize, DnsError>(clip(out.size)) && final(buf)@.bytes == old(buf)@.bytes + out.bytes,
                Err(e) => r == Err::<usize, DnsError>(e) && final(buf)@.bytes == old(buf)@.bytes,
            },
    ;
}

} // verus!
