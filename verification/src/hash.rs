use sha1::Digest;
use vstd::prelude::*;
use crate::buf::u16_bytes;
use crate::name::name_bytes;
use crate::question::Question;
use crate::question::QuestionView;

verus! {

/// The SHA-1 digest of a byte string: twenty bytes.
pub uninterp spec fn sha1_digest(data: Seq<u8>) -> Seq<u8>;

/// `Sha1::digest` of the sha1 crate: the SHA-1 digest of `data`, which is
/// a function of the bytes alone and twenty bytes long.
#[verifier::external_body]
pub(crate) fn sha1(data: &[u8]) -> (r: [u8; 20])
    ensures
        r@ == sha1_digest(data@),
{
    let digest = sha1::Sha1::digest(data);
    let mut out = [0u8; 20];
    out.copy_from_slice(digest.as_slice());
    out
}

/// The number that the first `n` bytes of `bytes` spell, most significant
/// byte first.
pub open spec fn be_u128(bytes: Seq<u8>, n: nat) -> u128
    decreases n,
{
    if n == 0 {
        0
    } else {
        (be_u128(bytes, (n - 1) as nat) << 8) | (bytes[n - 1] as u128)
    }
}

/// The key of a byte string: the first sixteen bytes of its SHA-1 digest,
/// read as one big-endian number.
pub open spec fn key_of(data: Seq<u8>) -> u128 {
    be_u128(sha1_digest(data), 16)
}

/// The key of `data` after the optional `prefix`.
pub open spec fn prefixed_key(data: Seq<u8>, prefix: Option<Seq<u8>>) -> u128 {
    match prefix {
        Some(p) => key_of(p + data),
        None => key_of(data),
    }
}

/// The first sixteen bytes of the SHA-1 digest of `data` as a number.
pub fn digest_key(data: &[u8]) -> (r: u128)
    ensures
        r == key_of(data@),
{
    let digest: [u8; 20] = sha1(data);
    let mut key: u128 = 0;
    let mut i: usize = 0;
    while i < 16
        invariant
            i <= 16,
            digest@ == sha1_digest(data@),
            key == be_u128(digest@, i as nat),
        decreases 16 - i,
    {
        key = (key << 8) | (digest[i] as u128);
        i = i + 1;
    }
    key
}

/// Hashes `data`, after `prefix` where one is given, to a 128-bit key.
pub fn hash_to_u128(data: &[u8], prefix: Option<&[u8]>) -> (r: u128)
    ensures
        r == prefixed_key(
            data@,
            match prefix {
                Some(p) => Some(p@),
                None => None,
            },
        ),
{
    match prefix {
        Some(p) => {
            let mut all: Vec<u8> = Vec::new();
            all.extend_from_slice(p);
            all.extend_from_slice(data);
            assert(all@ =~= p@ + data@);
            digest_key(all.as_slice())
        },
        None => digest_key(data),
    }
}

/// The bytes that identify a question: its name, its type and its class.
pub open spec fn query_fingerprint(q: QuestionView) -> Seq<u8> {
    name_bytes(q.qname) + u16_bytes(q.query_type.spec_code()) + u16_bytes(q.qclass)
}

/// The key under which the answer to a question is cached.
pub fn get_dns_query_hash(question: &Question) -> (r: u128)
    ensures
        r == key_of(query_fingerprint(question@)),
{
    let mut all: Vec<u8> = Vec::new();
    all.extend_from_slice(question.qname.as_str().as_bytes());
    let code: u16 = question.query_type.code();
    all.push((code / 256) as u8);
    all.push((code % 256) as u8);
    all.push((question.qclass / 256) as u8);
    all.push((question.qclass % 256) as u8);
    assert(all@ =~= query_fingerprint(question@));
    digest_key(all.as_slice())
}

} // verus!
