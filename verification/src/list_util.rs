use vstd::prelude::*;
use crate::name::DOT;
use crate::name::name_bytes;

verus! {

/// The lower-case form of an ASCII capital letter; other bytes as they are.
pub open spec fn lower_byte(b: u8) -> u8 {
    if 0x41 <= b <= 0x5A {
        (b + 32) as u8
    } else {
        b
    }
}

/// `n` with its ASCII capital letters in lower case.
pub open spec fn lower(n: Seq<u8>) -> Seq<u8> {
    Seq::new(n.len(), |i: int| lower_byte(n[i]))
}

/// `n` with its ASCII capital letters in lower case.
pub fn lowercase(n: &[u8]) -> (r: Vec<u8>)
    ensures
        r@ == lower(n@),
{
    let mut out: Vec<u8> = Vec::new();
    let mut i: usize = 0;
    while i < n.len()
        invariant
            i <= n@.len(),
            out@.len() == i,
            forall|k: int| 0 <= k < i ==> out@[k] == lower_byte(n@[k]),
        decreases n@.len() - i,
    {
        let b: u8 = n[i];
        if 0x41 <= b && b <= 0x5A {
            out.push(b + 32);
        } else {
            out.push(b);
        }
        i = i + 1;
    }
    assert(out@ =~= lower(n@));
    out
}

/// Whether a parent suffix of the name `n` starts at `p`: a label that is
/// not empty starts there, and it is not the first label.
pub open spec fn is_wildcard_start(n: Seq<u8>, p: int) -> bool {
    0 < p < n.len() && n[p - 1] == DOT && n[p] != DOT
}

/// The offsets at which the parent suffixes of the name `n` start, from
/// the longest suffix to the shortest.
pub fn wildcard_starts(n: &[u8]) -> (r: Vec<usize>)
    ensures
        forall|k: int| 0 <= k < r@.len() ==> is_wildcard_start(n@, #[trigger] r@[k] as int),
        forall|j: int, k: int| 0 <= j < k < r@.len() ==> r@[j] < r@[k],
        forall|p: int| is_wildcard_start(n@, p) ==> exists|k: int| 0 <= k < r@.len() && r@[k] == p,
{
    let mut out: Vec<usize> = Vec::new();
    let mut p: usize = 1;
    while p < n.len()
        invariant
            1 <= p,
            forall|k: int| 0 <= k < out@.len() ==> is_wildcard_start(n@, #[trigger] out@[k] as int),
            forall|k: int| 0 <= k < out@.len() ==> #[trigger] out@[k] < p,
            forall|j: int, k: int| 0 <= j < k < out@.len() ==> out@[j] < out@[k],
            forall|q: int|
                is_wildcard_start(n@, q) && q < p ==> exists|k: int|
                    0 <= k < out@.len() && out@[k] == q,
        decreases n@.len() - p,
    {
        if n[p - 1] == DOT && n[p] != DOT {
            let ghost before = out@;
            out.push(p);
            assert forall|q: int| is_wildcard_start(n@, q) && q < p + 1 implies exists|k: int|
                0 <= k < out@.len() && out@[k] == q by {
                if q < p {
                    let k = choose|k: int| 0 <= k < before.len() && before[k] == q;
                    assert(out@[k] == q);
                } else {
                    assert(out@[before.len() as int] == q);
                }
            }
        }
        p = p + 1;
    }
    out
}

/// The offsets at which the parent suffixes of `qname` start: for each
/// label but the first that is not empty, the offset of the label, from
/// the longest suffix to the shortest.
pub fn find_wildcard_parts(qname: &str) -> (r: Vec<usize>)
    ensures
        forall|k: int|
            0 <= k < r@.len() ==> is_wildcard_start(name_bytes(qname@), #[trigger] r@[k] as int),
        forall|j: int, k: int| 0 <= j < k < r@.len() ==> r@[j] < r@[k],
        forall|p: int|
            is_wildcard_start(name_bytes(qname@), p) ==> exists|k: int|
                0 <= k < r@.len() && r@[k] == p,
{
    wildcard_starts(qname.as_bytes())
}

} // verus!
