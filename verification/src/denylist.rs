use std::collections::HashSet;
use vstd::prelude::*;
use vstd::slice::slice_subrange;
use crate::hash::hash_to_u128;
use crate::hash::prefixed_key;
use crate::list_util::is_wildcard_start;
use crate::list_util::lower;
use crate::list_util::lowercase;
use crate::list_util::wildcard_starts;
use crate::name::name_bytes;

verus! {

broadcast use vstd::std_specs::hash::group_hash_axioms;

/// `Regex` of the regex crate: a compiled pattern, carried as it is.
#[verifier::external_type_specification]
#[verifier::external_body]
pub struct ExRegex(regex::Regex);

/// Whether the compiled pattern `re` matches somewhere in `text`.
pub uninterp spec fn regex_matches(re: regex::Regex, text: Seq<char>) -> bool;

/// `Regex::is_match` of the regex crate: whether the pattern has a match
/// anywhere in `text`, which the pattern and the text alone decide.
#[verifier::external_body]
pub(crate) fn regex_is_match(re: &regex::Regex, text: &str) -> (r: bool)
    ensures
        r == regex_matches(*re, text@),
{
    re.is_match(text)
}

/// The two bytes put before a parent suffix to make the key of a wildcard
/// entry: an asterisk and a dot.
pub open spec fn wildcard_prefix() -> Seq<u8> {
    seq![0x2Au8, 0x2Eu8]
}

/// The key of the name `n` itself.
pub open spec fn exact_key(n: Seq<u8>) -> u128 {
    prefixed_key(n, None)
}

/// The key of the wildcard entry for the parent suffix of `n` that starts
/// at `p`.
pub open spec fn wildcard_key(n: Seq<u8>, p: int) -> u128 {
    prefixed_key(n.subrange(p, n.len() as int), Some(wildcard_prefix()))
}

/// Whether the wildcard entry of a parent suffix of `n` is among `keys`.
pub open spec fn wildcard_hit(keys: Set<u128>, n: Seq<u8>) -> bool {
    exists|p: int| is_wildcard_start(n, p) && keys.contains(#[trigger] wildcard_key(n, p))
}

/// Whether one of the patterns matches `text`.
pub open spec fn regex_hit(regexes: Seq<(u32, regex::Regex)>, text: Seq<char>) -> bool {
    exists|i: int| 0 <= i < regexes.len() && regex_matches((#[trigger] regexes[i]).1, text)
}

/// Whether a list with the keys `keys` and the patterns `regexes` denies
/// `qname`: the key of its lower-case form is there, or the wildcard entry
/// of one of its parent suffixes, or a pattern matches the name.
pub open spec fn denies(keys: Set<u128>, regexes: Seq<(u32, regex::Regex)>, qname: Seq<char>) -> bool {
    let n = lower(name_bytes(qname));
    keys.contains(exact_key(n)) || wildcard_hit(keys, n) || regex_hit(regexes, qname)
}

/// `regexes` without the patterns of the id `id`, the others in their order.
pub open spec fn without_id(regexes: Seq<(u32, regex::Regex)>, id: u32) -> Seq<(u32, regex::Regex)>
    decreases regexes.len(),
{
    if regexes.len() == 0 {
        Seq::empty()
    } else if regexes.last().0 == id {
        without_id(regexes.drop_last(), id)
    } else {
        without_id(regexes.drop_last(), id).push(regexes.last())
    }
}

/// The names that are denied: hashed domains, exact or with a leading
/// wildcard label, and patterns, each with the id it was stored under.
pub struct Denylist {
    entries: HashSet<u128>,
    regexes: Vec<(u32, regex::Regex)>,
}

/// What a [`Denylist`] holds.
pub struct DenylistView {
    pub keys: Set<u128>,
    pub regexes: Seq<(u32, regex::Regex)>,
}

impl View for Denylist {
    type V = DenylistView;

    closed spec fn view(&self) -> DenylistView {
        DenylistView { keys: self.entries@, regexes: self.regexes@ }
    }
}

/// Whether the wildcard entry of one of the parent suffixes of `n` that
/// start at `starts[0..upto]` is among `keys`.
spec fn hit_among(keys: Set<u128>, n: Seq<u8>, starts: Seq<usize>, upto: int) -> bool {
    exists|k: int| 0 <= k < upto && keys.contains(#[trigger] wildcard_key(n, starts[k] as int))
}

impl Denylist {
    pub fn new() -> (r: Denylist)
        ensures
            r@.keys == Set::<u128>::empty(),
            r@.regexes == Seq::<(u32, regex::Regex)>::empty(),
    {
        Denylist { entries: HashSet::new(), regexes: Vec::new() }
    }

    /// Adds the key of a domain.
    pub fn add_entry(&mut self, qname_hash: u128)
        ensures
            final(self)@.keys == old(self)@.keys.insert(qname_hash),
            final(self)@.regexes == old(self)@.regexes,
    {
        self.entries.insert(qname_hash);
    }

    /// Removes the key of a domain.
    pub fn remove_entry(&mut self, qname_hash: u128)
        ensures
            final(self)@.keys == old(self)@.keys.remove(qname_hash),
            final(self)@.regexes == old(self)@.regexes,
    {
        self.entries.remove(&qname_hash);
    }

    /// Adds a pattern under `id`, behind the patterns already there.
    pub fn add_regex(&mut self, id: u32, re: regex::Regex)
        ensures
            final(self)@.keys == old(self)@.keys,
            final(self)@.regexes == old(self)@.regexes.push((id, re)),
    {
        self.regexes.push((id, re));
    }

    /// Removes the patterns stored under `id_to_delete`; the others keep
    /// their order.
    pub fn remove_regex(&mut self, id_to_delete: u32)
        ensures
            final(self)@.keys == old(self)@.keys,
            final(self)@.regexes == without_id(old(self)@.regexes, id_to_delete),
    {
        let ghost all = self.regexes@;
        let mut i: usize = 0;
        let ghost mut seen: int = 0;
        assert(all.subrange(0, 0) =~= Seq::<(u32, regex::Regex)>::empty());
        assert(self.regexes@ =~= without_id(all.subrange(0, 0), id_to_delete) + all.subrange(
            0,
            all.len() as int,
        ));
        while i < self.regexes.len()
            invariant
                self.entries == old(self).entries,
                all == old(self).regexes@,
                0 <= seen <= all.len(),
                i <= self.regexes@.len(),
                i == without_id(all.subrange(0, seen), id_to_delete).len(),
                self.regexes@ == without_id(all.subrange(0, seen), id_to_delete) + all.subrange(
                    seen,
                    all.len() as int,
                ),
            decreases self.regexes@.len() - i,
        {
            let ghost kept = without_id(all.subrange(0, seen), id_to_delete);
            assert(seen < all.len());
            assert(self.regexes@[i as int] == all[seen]);
            assert(all.subrange(0, seen + 1).drop_last() =~= all.subrange(0, seen));
            assert(all.subrange(0, seen + 1).last() == all[seen]);
            if self.regexes[i].0 == id_to_delete {
                let _ = self.regexes.remove(i);
                assert(self.regexes@ =~= kept + all.subrange(seen + 1, all.len() as int));
            } else {
                assert(self.regexes@ =~= kept.push(all[seen]) + all.subrange(
                    seen + 1,
                    all.len() as int,
                ));
                i = i + 1;
            }
            proof {
                seen = seen + 1;
            }
        }
        assert(all.subrange(0, seen) =~= all);
        assert(self.regexes@ =~= without_id(all, id_to_delete));
    }

    /// Whether the list denies `qname`.
    pub fn contains_entry(&self, qname: &str) -> (r: bool)
        ensures
            r == denies(self@.keys, self@.regexes, qname@),
    {
        let n = lowercase(qname.as_bytes());
        // Look for a direct match first
        if self.entries.contains(&hash_to_u128(n.as_slice(), None)) {
            return true;
        }
        // Look for a wildcard match
        if self.find_wildcard_match(n.as_slice()) {
            return true;
        }
        // Compare the qname against all patterns that we have
        let mut i: usize = 0;
        while i < self.regexes.len()
            invariant
                i <= self.regexes@.len(),
                forall|k: int| 0 <= k < i ==> !regex_matches((#[trigger] self.regexes@[k]).1, qname@),
            decreases self.regexes@.len() - i,
        {
            if regex_is_match(&self.regexes[i].1, qname) {
                assert(regex_matches(self.regexes@[i as int].1, qname@));
                return true;
            }
            i = i + 1;
        }
        false
    }

    /// Whether the wildcard entry of a parent suffix of `n` is in the list.
    fn find_wildcard_match(&self, n: &[u8]) -> (r: bool)
        ensures
            r == wildcard_hit(self@.keys, n@),
    {
        let starts = wildcard_starts(n);
        let prefix: [u8; 2] = [0x2A, 0x2E];
        assert(prefix@ =~= wildcard_prefix());
        let mut k: usize = 0;
        while k < starts.len()
            invariant
                k <= starts@.len(),
                prefix@ == wildcard_prefix(),
                forall|j: int|
                    0 <= j < starts@.len() ==> is_wildcard_start(n@, #[trigger] starts@[j] as int),
                !hit_among(self.entries@, n@, starts@, k as int),
            decreases starts@.len() - k,
        {
            let p: usize = starts[k];
            assert(is_wildcard_start(n@, starts@[k as int] as int));
            let key: u128 = hash_to_u128(slice_subrange(n, p, n.len()), Some(prefix.as_slice()));
            if self.entries.contains(&key) {
                assert(self.entries@.contains(wildcard_key(n@, p as int)));
                return true;
            }
            k = k + 1;
        }
        assert(!wildcard_hit(self.entries@, n@)) by {
            if wildcard_hit(self.entries@, n@) {
                let p = choose|p: int|
                    is_wildcard_start(n@, p) && self.entries@.contains(
                        #[trigger] wildcard_key(n@, p),
                    );
                let j = choose|j: int| 0 <= j < starts@.len() && starts@[j] == p;
                assert(self.entries@.contains(wildcard_key(n@, starts@[j] as int)));
            }
        }
        false
    }
}

} // verus!
