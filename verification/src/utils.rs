use vstd::prelude::*;
use vstd::slice::slice_subrange;
use crate::buf::label_end;
use crate::codec::clip;
use crate::label_cache::LabelCache;
use crate::name::name_bytes;
use crate::name::name_size;
use crate::name::name_size_from;

verus! {

/// The number of bytes that `qname` takes on the wire with `label_cache`:
/// a length byte and the label for each label that is not empty, up to the
/// first label from which on the name is in the cache, which costs the two
/// bytes of a pointer; else one closing byte.
pub fn get_max_encoded_qname_size(qname: &str, label_cache: &LabelCache) -> (r: usize)
    requires
        label_cache.wf(),
    ensures
        r == clip(name_size(name_bytes(qname@), label_cache@)),
{
    let n: &[u8] = qname.as_bytes();
    let len: usize = n.len();
    let mut size: usize = 0;
    let mut i: usize = 0;
    while i < len
        invariant
            n@ == name_bytes(qname@),
            len == n@.len(),
            label_cache.wf(),
            i <= len,
            size <= i,
            name_size(n@, label_cache@) == size + name_size_from(n@, i as int, label_cache@),
        decreases len - i,
    {
        let j: usize = label_end(n, i);
        if j > i {
            if label_cache.get_bytes(slice_subrange(n, i, len)).is_some() {
                return size.saturating_add(2);
            }
            if j >= len {
                return size.saturating_add(j - i).saturating_add(2);
            }
            size = size + 1 + (j - i);
        }
        i = j + 1;
    }
    size.saturating_add(1)
}

} // verus!
