use std::collections::HashMap;
use vstd::prelude::*;
use vstd::slice::slice_subrange;
use crate::denylist::exact_key;
use crate::denylist::wildcard_key;
use crate::denylist::wildcard_prefix;
use crate::error::DnsError;
use crate::hash::hash_to_u128;
use crate::list_util::is_wildcard_start;
use crate::list_util::lower;
use crate::list_util::lowercase;
use crate::list_util::wildcard_starts;
use crate::name::name_bytes;
use crate::question::QueryType;
use crate::resource_record::ResourceData;
use crate::resource_record::ResourceDataView;

verus! {

broadcast use vstd::std_specs::hash::group_hash_axioms;

/// What a list of record bodies holds.
pub open spec fn bodies_view(bodies: Seq<ResourceData>) -> Seq<ResourceDataView> {
    Seq::new(bodies.len(), |i: int| bodies[i]@)
}

/// Whether a hosts list can hold a record body of this type: A, AAAA and
/// CNAME only.
pub open spec fn admissible(query_type: QueryType) -> bool {
    query_type == QueryType::A || query_type == QueryType::AAAA || query_type == QueryType::CNAME
}

/// `bodies` without those of type `query_type`, the others in their order.
pub open spec fn without_type(bodies: Seq<ResourceDataView>, query_type: QueryType) -> Seq<
    ResourceDataView,
>
    decreases bodies.len(),
{
    if bodies.len() == 0 {
        Seq::empty()
    } else if bodies.last().query_type() == query_type {
        without_type(bodies.drop_last(), query_type)
    } else {
        without_type(bodies.drop_last(), query_type).push(bodies.last())
    }
}

/// What is stored under `key`, nothing where the key is not there.
pub open spec fn stored(m: Map<u128, Seq<ResourceDataView>>, key: u128) -> Seq<ResourceDataView> {
    if m.contains_key(key) {
        m[key]
    } else {
        Seq::empty()
    }
}

/// Whether `p` is where the longest parent suffix of `n` starts whose
/// wildcard entry is among `keys`.
pub open spec fn first_wildcard_at(keys: Set<u128>, n: Seq<u8>, p: int) -> bool {
    &&& is_wildcard_start(n, p)
    &&& keys.contains(wildcard_key(n, p))
    &&& forall|q: int|
        is_wildcard_start(n, q) && q < p ==> !keys.contains(#[trigger] wildcard_key(n, q))
}

/// What a list holds for `qname`: what is stored under the key of its
/// lower-case form; else what is stored under the wildcard entry of its
/// longest parent suffix that has one; else nothing.
pub open spec fn hosts_lookup(m: Map<u128, Seq<ResourceDataView>>, qname: Seq<char>) -> Option<
    Seq<ResourceDataView>,
> {
    let n = lower(name_bytes(qname));
    if m.contains_key(exact_key(n)) {
        Some(m[exact_key(n)])
    } else if exists|p: int| first_wildcard_at(m.dom(), n, p) {
        Some(m[wildcard_key(n, choose|p: int| first_wildcard_at(m.dom(), n, p))])
    } else {
        None
    }
}

/// Local records for names: under the key of a domain, exact or with a
/// leading wildcard label, the record bodies to answer with, in the order
/// in which they were added.
pub struct Hosts {
    map: HashMap<u128, Vec<ResourceData>>,
}

impl View for Hosts {
    type V = Map<u128, Seq<ResourceDataView>>;

    closed spec fn view(&self) -> Map<u128, Seq<ResourceDataView>> {
        Map::new(|k: u128| self.map@.contains_key(k), |k: u128| bodies_view(self.map@[k]@))
    }
}

/// Keeps of `bodies` those whose type is not `query_type`.
fn drop_type(bodies: &mut Vec<ResourceData>, query_type: QueryType)
    ensures
        bodies_view(final(bodies)@) == without_type(bodies_view(old(bodies)@), query_type),
{
    let ghost all = bodies_view(bodies@);
    let mut i: usize = 0;
    let ghost mut seen: int = 0;
    assert(all.subrange(0, 0) =~= Seq::<ResourceDataView>::empty());
    assert(bodies_view(bodies@) =~= without_type(all.subrange(0, 0), query_type) + all.subrange(
        0,
        all.len() as int,
    ));
    while i < bodies.len()
        invariant
            all == bodies_view(old(bodies)@),
            0 <= seen <= all.len(),
            i <= bodies@.len(),
            i == without_type(all.subrange(0, seen), query_type).len(),
            bodies_view(bodies@) == without_type(all.subrange(0, seen), query_type) + all.subrange(
                seen,
                all.len() as int,
            ),
        decreases bodies@.len() - i,
    {
        let ghost kept = without_type(all.subrange(0, seen), query_type);
        let ghost now = bodies_view(bodies@);
        assert(now.len() == bodies@.len());
        assert(seen < all.len());
        assert(now[i as int] == all[seen]);
        assert(bodies@[i as int]@ == all[seen]);
        assert(all.subrange(0, seen + 1).drop_last() =~= all.subrange(0, seen));
        assert(all.subrange(0, seen + 1).last() == all[seen]);
        if same_type(bodies[i].get_query_type(), query_type) {
            let _ = bodies.remove(i);
            assert(bodies_view(bodies@) =~= now.remove(i as int));
            assert(bodies_view(bodies@) =~= kept + all.subrange(seen + 1, all.len() as int));
        } else {
            assert(bodies_view(bodies@) =~= kept.push(all[seen]) + all.subrange(
                seen + 1,
                all.len() as int,
            ));
            i = i + 1;
        }
        proof {
            seen = seen + 1;
        }
    }
    assert(all.subrange(0, seen) =~= all);
    assert(bodies_view(bodies@) =~= without_type(all, query_type));
}

/// Whether two types are the same.
pub fn same_type(a: QueryType, b: QueryType) -> (r: bool)
    ensures
        r == (a == b),
{
    a == b
}

impl Hosts {
    pub fn new() -> (r: Hosts)
        ensures
            r@ == Map::<u128, Seq<ResourceDataView>>::empty(),
    {
        let r = Hosts { map: HashMap::new() };
        assert(r@ =~= Map::<u128, Seq<ResourceDataView>>::empty());
        r
    }

    /// Adds a record body under the key of a domain, behind those already
    /// there. Only A, AAAA and CNAME bodies are taken.
    pub fn add_entry(&mut self, qname_hash: u128, rdata: ResourceData) -> (r: Result<(), DnsError>)
        ensures
            match r {
                Ok(_) => admissible(rdata@.query_type()) && final(self)@ == old(self)@.insert(
                    qname_hash,
                    stored(old(self)@, qname_hash).push(rdata@),
                ),
                Err(e) => !admissible(rdata@.query_type()) && e == DnsError::InvalidKind && final(self)@ == old(self)@,
            },
    {
        match rdata.get_query_type() {
            QueryType::A | QueryType::AAAA | QueryType::CNAME => {
                let mut records: Vec<ResourceData> = match self.map.remove(&qname_hash) {
                    Some(v) => v,
                    None => Vec::new(),
                };
                let ghost before = bodies_view(records@);
                assert(before =~= stored(old(self)@, qname_hash));
                records.push(rdata);
                assert(bodies_view(records@) =~= before.push(rdata@));
                self.map.insert(qname_hash, records);
                assert(self@ =~= old(self)@.insert(
                    qname_hash,
                    stored(old(self)@, qname_hash).push(rdata@),
                ));
                Ok(())
            },
            _ => Err(DnsError::InvalidKind),
        }
    }

    /// Removes, of what is stored under the key of a domain, the record
    /// bodies of type `qtype`.
    pub fn remove_entry(&mut self, qname_hash: u128, qtype: QueryType)
        ensures
            final(self)@ == if old(self)@.contains_key(qname_hash) {
                old(self)@.insert(qname_hash, without_type(old(self)@[qname_hash], qtype))
            } else {
                old(self)@
            },
    {
        match self.map.remove(&qname_hash) {
            Some(v) => {
                let mut records: Vec<ResourceData> = v;
                drop_type(&mut records, qtype);
                self.map.insert(qname_hash, records);
                assert(self@ =~= old(self)@.insert(
                    qname_hash,
                    without_type(old(self)@[qname_hash], qtype),
                ));
            },
            None => {
                assert(self@ =~= old(self)@);
            },
        }
    }

    /// What the list holds for `qname`.
    pub fn get_entry(&self, qname: &str) -> (r: Option<&[ResourceData]>)
        ensures
            match hosts_lookup(self@, qname@) {
                Some(bodies) => r is Some && bodies_view(r.unwrap()@) == bodies,
                None => r is None,
            },
    {
        let n = lowercase(qname.as_bytes());
        match self.map.get(&hash_to_u128(n.as_slice(), None)) {
            Some(records) => Some(records.as_slice()),
            None => self.find_wildcard_match(n.as_slice()),
        }
    }

    /// What is stored under the wildcard entry of the longest parent
    /// suffix of `n` that has one.
    fn find_wildcard_match(&self, n: &[u8]) -> (r: Option<&[ResourceData]>)
        ensures
            match r {
                Some(bodies) => exists|p: int|
                    first_wildcard_at(self@.dom(), n@, p) && bodies_view(bodies@) == self@[wildcard_key(
                        n@,
                        p,
                    )],
                None => forall|p: int| !first_wildcard_at(self@.dom(), n@, p),
            },
    {
        let starts = wildcard_starts(n);
        let prefix: [u8; 2] = [0x2A, 0x2E];
        assert(prefix@ =~= wildcard_prefix());
        let mut k: usize = 0;
        while k < starts.len()
            invariant
                k <= starts@.len(),
                prefix@ == wildcard_prefix(),
                forall|j: int|
                    0 <= j < starts@.len() ==> is_wildcard_start(n@, #[trigger] starts@[j] as int),
                forall|i: int, j: int| 0 <= i < j < starts@.len() ==> starts@[i] < starts@[j],
                forall|p: int|
                    is_wildcard_start(n@, p) ==> exists|j: int|
                        0 <= j < starts@.len() && starts@[j] == p,
                forall|j: int|
                    0 <= j < k ==> !self@.dom().contains(
                        #[trigger] wildcard_key(n@, starts@[j] as int),
                    ),
            decreases starts@.len() - k,
        {
            let p: usize = starts[k];
            assert(is_wildcard_start(n@, starts@[k as int] as int));
            let key: u128 = hash_to_u128(slice_subrange(n, p, n.len()), Some(prefix.as_slice()));
            match self.map.get(&key) {
                Some(records) => {
                    assert(self@.dom().contains(wildcard_key(n@, p as int)));
                    assert forall|q: int| is_wildcard_start(n@, q) && q < p implies !self@.dom().contains(
                        #[trigger] wildcard_key(n@, q),
                    ) by {
                        let j = choose|j: int| 0 <= j < starts@.len() && starts@[j] == q;
                        assert(j < k) by {
                            if j >= k {
                                if j > k {
                                    assert(starts@[k as int] < starts@[j]);
                                }
                            }
                        }
                        assert(!self@.dom().contains(wildcard_key(n@, starts@[j] as int)));
                    }
                    assert(first_wildcard_at(self@.dom(), n@, p as int));
                    return Some(records.as_slice());
                },
                None => {},
            }
            k = k + 1;
        }
        assert forall|p: int| !first_wildcard_at(self@.dom(), n@, p) by {
            if first_wildcard_at(self@.dom(), n@, p) {
                let j = choose|j: int| 0 <= j < starts@.len() && starts@[j] == p;
                assert(!self@.dom().contains(wildcard_key(n@, starts@[j] as int)));
            }
        }
        None
    }
}

} // verus!
