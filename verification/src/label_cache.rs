use vstd::prelude::*;
use vstd::slice::slice_to_vec;
use vstd::utf8::encode_utf8;

verus! {

/// The largest offset a compression pointer can name, plus one.
pub const POINTER_LIMIT: usize = 0x4000;

/// For one message being encoded: the names written so far, each with the
/// offset at which its encoding starts. A later name that ends in one of
/// them is written as its leading labels and a pointer to that offset.
pub struct LabelCache {
    keys: Vec<Vec<u8>>,
    offsets: Vec<usize>,
    recording: bool,
}

impl View for LabelCache {
    type V = Map<Seq<u8>, usize>;

    closed spec fn view(&self) -> Map<Seq<u8>, usize> {
        Map::new(
            |k: Seq<u8>| exists|i: int| 0 <= i < self.keys@.len() && #[trigger] self.keys@[i]@ == k,
            |k: Seq<u8>|
                self.offsets@[choose|i: int|
                    0 <= i < self.keys@.len() && #[trigger] self.keys@[i]@ == k],
        )
    }
}

impl LabelCache {
    /// No name is held twice, and every offset can be named by a pointer.
    pub closed spec fn wf(&self) -> bool {
        &&& self.keys@.len() == self.offsets@.len()
        &&& !self.recording ==> self.keys@.len() == 0
        &&& forall|i: int, j: int|
            0 <= i < j < self.keys@.len() ==> #[trigger] self.keys@[i]@ != #[trigger] self.keys@[j]@
        &&& forall|i: int| 0 <= i < self.offsets@.len() ==> #[trigger] self.offsets@[i] < POINTER_LIMIT
    }

    pub proof fn lemma_offsets_in_reach(&self)
        requires
            self.wf(),
        ensures
            forall|k: Seq<u8>| #[trigger] self@.contains_key(k) ==> self@[k] < POINTER_LIMIT,
    {
    }

    /// Whether names are recorded. A cache that does not record stays
    /// empty, and names written with it are never shortened.
    pub closed spec fn is_recording(&self) -> bool {
        self.recording
    }

    /// An empty cache that records.
    pub fn new() -> (r: LabelCache)
        ensures
            r.wf(),
            r.is_recording(),
            r@ == Map::<Seq<u8>, usize>::empty(),
    {
        let r = LabelCache { keys: Vec::new(), offsets: Vec::new(), recording: true };
        assert(r@ =~= Map::<Seq<u8>, usize>::empty());
        r
    }

    /// A cache that records nothing: with it every name is written in full.
    pub fn disabled() -> (r: LabelCache)
        ensures
            r.wf(),
            !r.is_recording(),
            r@ == Map::<Seq<u8>, usize>::empty(),
    {
        let r = LabelCache { keys: Vec::new(), offsets: Vec::new(), recording: false };
        assert(r@ =~= Map::<Seq<u8>, usize>::empty());
        r
    }

    /// Whether this cache records names.
    pub fn records(&self) -> (r: bool)
        ensures
            r == self.is_recording(),
    {
        self.recording
    }

    fn find(&self, key: &[u8]) -> (r: Option<usize>)
        requires
            self.wf(),
        ensures
            match r {
                Some(i) => i < self.keys@.len() && self.keys@[i as int]@ == key@,
                None => forall|i: int| 0 <= i < self.keys@.len() ==> self.keys@[i]@ != key@,
            },
    {
        let mut i: usize = 0;
        while i < self.keys.len()
            invariant
                i <= self.keys@.len(),
                forall|k: int| 0 <= k < i ==> self.keys@[k]@ != key@,
            decreases self.keys@.len() - i,
        {
            if bytes_eq(self.keys[i].as_slice(), key) {
                return Some(i);
            }
            i = i + 1;
        }
        None
    }

    /// The number of names recorded.
    pub fn len(&self) -> (r: usize)
        requires
            self.wf(),
        ensures
            self@.dom().finite(),
            r == self@.dom().len(),
    {
        proof {
            lemma_key_count(self.keys@, self.keys@.len() as int);
            assert(self@.dom() =~= key_set(self.keys@, self.keys@.len() as int));
        }
        self.keys.len()
    }

    /// The offset recorded for the name `qname`, if any.
    pub fn get(&self, qname: &str) -> (r: Option<usize>)
        requires
            self.wf(),
        ensures
            r == if self@.contains_key(encode_utf8(qname@)) {
                Some(self@[encode_utf8(qname@)])
            } else {
                None
            },
    {
        self.get_bytes(qname.as_bytes())
    }

    /// The offset recorded for `key`, if any.
    pub fn get_bytes(&self, key: &[u8]) -> (r: Option<usize>)
        requires
            self.wf(),
        ensures
            r == if self@.contains_key(key@) { Some(self@[key@]) } else { None },
    {
        match self.find(key) {
            Some(i) => {
                assert(self@.contains_key(key@));
                Some(self.offsets[i])
            },
            None => None,
        }
    }

    /// Records `key` at `offset`, in place of what was recorded for it. A
    /// cache that does not record stays as it is, and so does any cache
    /// where no pointer can name the offset.
    pub fn insert_bytes(&mut self, key: &[u8], offset: usize)
        requires
            old(self).wf(),
        ensures
            final(self).wf(),
            final(self).is_recording() == old(self).is_recording(),
            final(self)@ == if old(self).is_recording() && offset < POINTER_LIMIT {
                old(self)@.insert(key@, offset)
            } else {
                old(self)@
            },
    {
        if !self.recording || offset >= POINTER_LIMIT {
            return ;
        }
        match self.find(key) {
            Some(i) => {
                self.offsets[i] = offset;
                assert(self.keys@ == old(self).keys@);
                assert(self@ =~= old(self)@.insert(key@, offset));
            },
            None => {
                self.keys.push(slice_to_vec(key));
                self.offsets.push(offset);
                assert(forall|i: int| 0 <= i < old(self).keys@.len() ==> self.keys@[i] == old(self).keys@[i]);
                assert(self.keys@[old(self).keys@.len() as int]@ == key@);
                assert(self@ =~= old(self)@.insert(key@, offset));
            },
        }
    }
}

/// The names among the first `upto` of `keys`.
spec fn key_set(keys: Seq<Vec<u8>>, upto: int) -> Set<Seq<u8>> {
    Set::new(|k: Seq<u8>| exists|i: int| 0 <= i < upto && #[trigger] keys[i]@ == k)
}

/// As many names stand among the first `upto` keys as there are keys, if
/// no name stands there twice.
proof fn lemma_key_count(keys: Seq<Vec<u8>>, upto: int)
    requires
        0 <= upto <= keys.len(),
        forall|i: int, j: int| 0 <= i < j < keys.len() ==> #[trigger] keys[i]@ != #[trigger] keys[j]@,
    ensures
        key_set(keys, upto).finite(),
        key_set(keys, upto).len() == upto,
    decreases upto,
{
    if upto == 0 {
        assert(key_set(keys, upto) =~= Set::<Seq<u8>>::empty());
    } else {
        lemma_key_count(keys, upto - 1);
        let before = key_set(keys, upto - 1);
        let last = keys[upto - 1]@;
        assert(!before.contains(last)) by {
            if before.contains(last) {
                let i = choose|i: int| 0 <= i < upto - 1 && #[trigger] keys[i]@ == last;
                assert(keys[i]@ != keys[upto - 1]@);
            }
        }
        assert(key_set(keys, upto) =~= before.insert(last)) by {
            assert forall|k: Seq<u8>| key_set(keys, upto).contains(k) <==> before.insert(
                last,
            ).contains(k) by {
                if key_set(keys, upto).contains(k) {
                    let i = choose|i: int| 0 <= i < upto && #[trigger] keys[i]@ == k;
                    if i < upto - 1 {
                        assert(before.contains(k));
                    }
                }
                if before.contains(k) {
                    let i = choose|i: int| 0 <= i < upto - 1 && #[trigger] keys[i]@ == k;
                    assert(0 <= i < upto && keys[i]@ == k);
                }
                if k == last {
                    assert(keys[upto - 1]@ == k);
                }
            }
        }
    }
}

/// Whether two byte strings are equal.
pub fn bytes_eq(a: &[u8], b: &[u8]) -> (r: bool)
    ensures
        r == (a@ == b@),
{
    if a.len() != b.len() {
        return false;
    }
    let mut i: usize = 0;
    while i < a.len()
        invariant
            a@.len() == b@.len(),
            i <= a@.len(),
            forall|k: int| 0 <= k < i ==> a@[k] == b@[k],
        decreases a@.len() - i,
    {
        if a[i] != b[i] {
            return false;
        }
        i = i + 1;
    }
    assert(a@ =~= b@);
    true
}

} // verus!
