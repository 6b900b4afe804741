use vstd::prelude::*;
use crate::denylist::Denylist;
use crate::denylist::DenylistView;
use crate::denylist::exact_key;
use crate::denylist::without_id;
use crate::error::DnsError;
use crate::hash::hash_to_u128;
use crate::hosts::Hosts;
use crate::hosts::stored;
use crate::hosts::without_type;
use crate::list_util::lower;
use crate::list_util::lowercase;
use crate::name::name_bytes;
use crate::query_log::text_view;
use crate::question::QueryType;
use crate::resource_record::ResourceData;
use crate::resource_record::ResourceDataView;

verus! {

/// The kind of a list entry.
#[derive(Debug, Clone, Copy, PartialEq, Eq, Structural)]
pub enum EntryKind {
    Deny,
    DenyRegex,
    AllowA,
    AllowAAAA,
}

/// The kind that the number `value` stands for, if it stands for one.
pub open spec fn entry_kind_of(value: u8) -> Option<EntryKind> {
    if value == 0 {
        Some(EntryKind::Deny)
    } else if value == 1 {
        Some(EntryKind::DenyRegex)
    } else if value == 2 {
        Some(EntryKind::AllowA)
    } else if value == 3 {
        Some(EntryKind::AllowAAAA)
    } else {
        None
    }
}

impl EntryKind {
    /// The number under which the kind is stored.
    pub open spec fn spec_code(self) -> u8 {
        match self {
            EntryKind::Deny => 0,
            EntryKind::DenyRegex => 1,
            EntryKind::AllowA => 2,
            EntryKind::AllowAAAA => 3,
        }
    }

    #[verifier::when_used_as_spec(spec_code)]
    pub fn code(self) -> (r: u8)
        ensures
            r == self.spec_code(),
    {
        match self {
            EntryKind::Deny => 0,
            EntryKind::DenyRegex => 1,
            EntryKind::AllowA => 2,
            EntryKind::AllowAAAA => 3,
        }
    }

    /// The kind that the number `value` stands for.
    pub fn from_code(value: u8) -> (r: Result<EntryKind, DnsError>)
        ensures
            match r {
                Ok(kind) => entry_kind_of(value) == Some(kind),
                Err(e) => entry_kind_of(value) is None && e == DnsError::InvalidListEntry,
            },
    {
        match value {
            0 => Ok(EntryKind::Deny),
            1 => Ok(EntryKind::DenyRegex),
            2 => Ok(EntryKind::AllowA),
            3 => Ok(EntryKind::AllowAAAA),
            _ => Err(DnsError::InvalidListEntry),
        }
    }

    /// The number of a kind gives the kind back.
    pub proof fn lemma_code_round_trip(self)
        ensures
            entry_kind_of(self.spec_code()) == Some(self),
    {
    }
}

impl TryFrom<u8> for EntryKind {
    type Error = DnsError;

    fn try_from(value: u8) -> (r: Result<EntryKind, DnsError>) {
        EntryKind::from_code(value)
    }
}

impl vstd::std_specs::convert::TryFromSpecImpl<u8> for EntryKind {
    open spec fn obeys_try_from_spec() -> bool {
        true
    }

    open spec fn try_from_spec(value: u8) -> Result<EntryKind, DnsError> {
        match entry_kind_of(value) {
            Some(kind) => Ok(kind),
            None => Err(DnsError::InvalidListEntry),
        }
    }
}

/// What a list entry of this kind must carry: a deny entry its domain, a
/// pattern entry its pattern as data, an allow entry its domain and its
/// address as data.
pub open spec fn fields_present(kind: EntryKind, has_domain: bool, has_data: bool) -> bool {
    match kind {
        EntryKind::Deny => has_domain,
        EntryKind::DenyRegex => has_data,
        EntryKind::AllowA => has_domain && has_data,
        EntryKind::AllowAAAA => has_domain && has_data,
    }
}

/// An entry of the deny list or of the hosts list, as it is stored.
#[derive(Debug, PartialEq, Eq)]
pub struct ListEntry {
    pub id: u32,
    /// Seconds since the Unix epoch
    pub timestamp: u32,
    pub domain: Option<String>,
    pub kind: EntryKind,
    pub data: Option<String>,
    pub label: Option<String>,
}

/// What a [`ListEntry`] holds.
pub struct ListEntryView {
    pub id: u32,
    pub timestamp: u32,
    pub domain: Option<Seq<char>>,
    pub kind: EntryKind,
    pub data: Option<Seq<char>>,
    pub label: Option<Seq<char>>,
}

impl View for ListEntry {
    type V = ListEntryView;

    open spec fn view(&self) -> ListEntryView {
        ListEntryView {
            id: self.id,
            timestamp: self.timestamp,
            domain: text_view(self.domain),
            kind: self.kind,
            data: text_view(self.data),
            label: text_view(self.label),
        }
    }
}

impl ListEntry {
    /// An entry not yet stored, made at `timestamp`. It must carry what
    /// its kind requires.
    pub fn new(
        domain: Option<String>,
        kind: EntryKind,
        data: Option<String>,
        label: Option<String>,
        timestamp: u32,
    ) -> (r: Result<ListEntry, DnsError>)
        ensures
            match r {
                Ok(entry) => fields_present(kind, domain is Some, data is Some) && entry@ == (
                ListEntryView {
                    id: 0,
                    timestamp: timestamp,
                    domain: text_view(domain),
                    kind: kind,
                    data: text_view(data),
                    label: text_view(label),
                }),
                Err(e) => !fields_present(kind, domain is Some, data is Some) && e
                    == DnsError::InvalidListEntry,
            },
    {
        let complete: bool = match kind {
            EntryKind::Deny => domain.is_some(),
            EntryKind::DenyRegex => data.is_some(),
            EntryKind::AllowA | EntryKind::AllowAAAA => domain.is_some() && data.is_some(),
        };
        if !complete {
            return Err(DnsError::InvalidListEntry);
        }
        Ok(ListEntry { id: 0, timestamp, domain, kind, data, label })
    }
}

/// A change to a stored list entry.
#[derive(Debug, PartialEq, Eq)]
pub struct ListEntryUpdateRequest {
    pub kind: EntryKind,
    pub domain: Option<String>,
    pub data: Option<String>,
    pub label: Option<String>,
}

impl ListEntryUpdateRequest {
    pub fn new(kind: EntryKind, domain: Option<String>, data: Option<String>, label: Option<String>) -> (r:
        ListEntryUpdateRequest)
        ensures
            r.kind == kind,
            r.domain == domain,
            r.data == data,
            r.label == label,
    {
        ListEntryUpdateRequest { kind, domain, data, label }
    }

    /// Whether the request changes nothing: it carries no domain, no data
    /// and no label.
    pub fn is_empty(&self) -> (r: bool)
        ensures
            r == (self.domain is None && self.data is None && self.label is None),
    {
        self.domain.is_none() && self.data.is_none() && self.label.is_none()
    }
}

/// The address of a hosts entry.
#[derive(Debug, Clone, Copy, PartialEq, Eq)]
pub enum HostAddr {
    V4([u8; 4]),
    V6([u8; 16]),
}

impl HostAddr {
    /// Whether the address is of the family that the kind names.
    pub open spec fn fits(self, kind: EntryKind) -> bool {
        match self {
            HostAddr::V4(_) => kind == EntryKind::AllowA,
            HostAddr::V6(_) => kind == EntryKind::AllowAAAA,
        }
    }

    /// The record body that answers for this address.
    pub open spec fn body(self) -> ResourceDataView {
        match self {
            HostAddr::V4(a) => ResourceDataView::A { address: a@ },
            HostAddr::V6(a) => ResourceDataView::AAAA { address: a@ },
        }
    }

    /// The type of the records that answer for this address.
    pub open spec fn record_type(self) -> QueryType {
        match self {
            HostAddr::V4(_) => QueryType::A,
            HostAddr::V6(_) => QueryType::AAAA,
        }
    }

    /// The record body that answers for this address.
    pub fn to_rdata(self) -> (r: ResourceData)
        ensures
            r@ == self.body(),
    {
        match self {
            HostAddr::V4(address) => ResourceData::A { address },
            HostAddr::V6(address) => ResourceData::AAAA { address },
        }
    }

    /// The type of the records that answer for this address.
    pub fn query_type(self) -> (r: QueryType)
        ensures
            r == self.record_type(),
    {
        match self {
            HostAddr::V4(_) => QueryType::A,
            HostAddr::V6(_) => QueryType::AAAA,
        }
    }
}

/// A list entry as the server holds it: the key of a denied domain, a
/// pattern with the id it is stored under, or the key of a domain with
/// its address.
#[derive(Debug)]
pub enum AccessListEntryKind {
    DenyRegex(u32, Option<regex::Regex>),
    DenyDomain(u128),
    Hosts(u128, HostAddr),
}

/// A shorter name for an entry of a list.
pub type ListEntryKind = AccessListEntryKind;

/// What the server is told to do with its lists.
#[derive(Debug)]
pub enum DnsServerCommand {
    AddNewListEntry(AccessListEntryKind),
    RemoveListEntry(AccessListEntryKind),
}

/// The list that an entry belongs to.
#[derive(Debug, Clone, Copy, PartialEq, Eq, Structural)]
pub enum ListTarget {
    Denylist,
    Hosts,
}

impl AccessListEntryKind {
    /// The list that the entry belongs to.
    pub open spec fn spec_target(&self) -> ListTarget {
        match self {
            AccessListEntryKind::DenyRegex(_, _) => ListTarget::Denylist,
            AccessListEntryKind::DenyDomain(_) => ListTarget::Denylist,
            AccessListEntryKind::Hosts(_, _) => ListTarget::Hosts,
        }
    }

    #[verifier::when_used_as_spec(spec_target)]
    pub fn target(&self) -> (r: ListTarget)
        ensures
            r == self.spec_target(),
    {
        match self {
            AccessListEntryKind::DenyRegex(_, _) => ListTarget::Denylist,
            AccessListEntryKind::DenyDomain(_) => ListTarget::Denylist,
            AccessListEntryKind::Hosts(_, _) => ListTarget::Hosts,
        }
    }
}

/// The pattern that a text compiles to, if it is a pattern.
pub uninterp spec fn regex_compiled(pattern: Seq<char>) -> Option<regex::Regex>;

/// `Regex::new` of the regex crate: the compiled pattern, which the text
/// alone decides, or nothing where the text is no pattern.
#[verifier::external_body]
pub(crate) fn compile_regex(pattern: &str) -> (r: Option<regex::Regex>)
    ensures
        r == regex_compiled(pattern@),
{
    match regex::Regex::new(pattern) {
        Ok(re) => Some(re),
        Err(_) => None,
    }
}

/// The key of a domain as the lists hold it: that of its lower-case form.
pub open spec fn domain_key(domain: Seq<char>) -> u128 {
    exact_key(lower(name_bytes(domain)))
}

/// The key of a domain as the lists hold it.
pub fn hash_domain(domain: &str) -> (r: u128)
    ensures
        r == domain_key(domain@),
{
    let n = lowercase(domain.as_bytes());
    hash_to_u128(n.as_slice(), None)
}

/// The entry that the server holds for what a request carries: for a
/// deny entry the key of its domain; for a pattern entry the compiled
/// pattern, under `id`; for an allow entry the key of its domain with the
/// address, which must be of the family that the kind names. Nothing
/// where a field is missing or not what the kind requires.
pub open spec fn command_for(
    kind: EntryKind,
    id: u32,
    domain: Option<Seq<char>>,
    data: Option<Seq<char>>,
    address: Option<HostAddr>,
) -> Option<AccessListEntryKind> {
    match kind {
        EntryKind::Deny => match domain {
            Some(d) => Some(AccessListEntryKind::DenyDomain(domain_key(d))),
            None => None,
        },
        EntryKind::DenyRegex => match data {
            Some(d) => match regex_compiled(d) {
                Some(re) => Some(AccessListEntryKind::DenyRegex(id, Some(re))),
                None => None,
            },
            None => None,
        },
        _ => if data is Some && address is Some && address.unwrap().fits(kind) && domain is Some {
            Some(AccessListEntryKind::Hosts(domain_key(domain.unwrap()), address.unwrap()))
        } else {
            None
        },
    }
}

/// The entry that the server holds for what a stored entry or a request
/// carries. `address` is the address that the data of an allow entry
/// spells, if it spells one.
pub fn list_entry_command(
    kind: EntryKind,
    id: u32,
    domain: Option<&str>,
    data: Option<&str>,
    address: Option<HostAddr>,
) -> (r: Result<AccessListEntryKind, DnsError>)
    ensures
        match command_for(
            kind,
            id,
            match domain {
                Some(d) => Some(d@),
                None => None,
            },
            match data {
                Some(d) => Some(d@),
                None => None,
            },
            address,
        ) {
            Some(cmd) => r is Ok && r.unwrap() == cmd,
            None => r is Err && r.unwrap_err() == DnsError::InvalidListEntry,
        },
{
    match kind {
        EntryKind::Deny => match domain {
            Some(d) => Ok(AccessListEntryKind::DenyDomain(hash_domain(d))),
            None => Err(DnsError::InvalidListEntry),
        },
        EntryKind::DenyRegex => match data {
            Some(d) => match compile_regex(d) {
                Some(re) => Ok(AccessListEntryKind::DenyRegex(id, Some(re))),
                None => Err(DnsError::InvalidListEntry),
            },
            None => Err(DnsError::InvalidListEntry),
        },
        EntryKind::AllowA | EntryKind::AllowAAAA => {
            if data.is_none() {
                return Err(DnsError::InvalidListEntry);
            }
            let addr = match address {
                Some(a) => a,
                None => {
                    return Err(DnsError::InvalidListEntry);
                },
            };
            let fits: bool = match addr {
                HostAddr::V4(_) => match kind {
                    EntryKind::AllowA => true,
                    _ => false,
                },
                HostAddr::V6(_) => match kind {
                    EntryKind::AllowAAAA => true,
                    _ => false,
                },
            };
            if !fits {
                return Err(DnsError::InvalidListEntry);
            }
            match domain {
                Some(d) => Ok(AccessListEntryKind::Hosts(hash_domain(d), addr)),
                None => Err(DnsError::InvalidListEntry),
            }
        },
    }
}

/// The entry to remove from the server for a stored entry: a pattern by
/// its id alone; a domain by its key; a hosts entry by its key and the
/// family of its address.
pub open spec fn removal_for(
    kind: EntryKind,
    id: u32,
    domain: Option<Seq<char>>,
    address: Option<HostAddr>,
) -> Option<AccessListEntryKind> {
    match kind {
        EntryKind::Deny => match domain {
            Some(d) => Some(AccessListEntryKind::DenyDomain(domain_key(d))),
            None => None,
        },
        EntryKind::DenyRegex => Some(AccessListEntryKind::DenyRegex(id, None)),
        _ => if domain is Some && address is Some {
            Some(AccessListEntryKind::Hosts(domain_key(domain.unwrap()), address.unwrap()))
        } else {
            None
        },
    }
}

/// The entry to remove from the server for a stored entry.
pub fn removal_command(kind: EntryKind, id: u32, domain: Option<&str>, address: Option<HostAddr>) -> (r:
    Result<AccessListEntryKind, DnsError>)
    ensures
        match removal_for(
            kind,
            id,
            match domain {
                Some(d) => Some(d@),
                None => None,
            },
            address,
        ) {
            Some(cmd) => r is Ok && r.unwrap() == cmd,
            None => r is Err && r.unwrap_err() == DnsError::InvalidListEntry,
        },
{
    match kind {
        EntryKind::Deny => match domain {
            Some(d) => Ok(AccessListEntryKind::DenyDomain(hash_domain(d))),
            None => Err(DnsError::InvalidListEntry),
        },
        EntryKind::DenyRegex => Ok(AccessListEntryKind::DenyRegex(id, None)),
        EntryKind::AllowA | EntryKind::AllowAAAA => match domain {
            Some(d) => match address {
                Some(a) => Ok(AccessListEntryKind::Hosts(hash_domain(d), a)),
                None => Err(DnsError::InvalidListEntry),
            },
            None => Err(DnsError::InvalidListEntry),
        },
    }
}

/// The two lists of a server.
pub struct Lists {
    pub denylist: DenylistView,
    pub hosts: Map<u128, Seq<ResourceDataView>>,
}

/// Whether an entry can be added: all but a pattern entry without its
/// pattern.
pub open spec fn addable(entry: AccessListEntryKind) -> bool {
    !(entry matches AccessListEntryKind::DenyRegex(_, None))
}

/// The lists after `entry` was added: the key of a domain among the keys
/// of the denylist; a pattern behind the patterns of the denylist; the
/// address of a hosts entry behind what the hosts list holds for its key.
pub open spec fn lists_with(lists: Lists, entry: AccessListEntryKind) -> Lists {
    match entry {
        AccessListEntryKind::DenyDomain(key) => Lists {
            denylist: DenylistView {
                keys: lists.denylist.keys.insert(key),
                regexes: lists.denylist.regexes,
            },
            hosts: lists.hosts,
        },
        AccessListEntryKind::DenyRegex(id, Some(re)) => Lists {
            denylist: DenylistView {
                keys: lists.denylist.keys,
                regexes: lists.denylist.regexes.push((id, re)),
            },
            hosts: lists.hosts,
        },
        AccessListEntryKind::DenyRegex(_, None) => lists,
        AccessListEntryKind::Hosts(key, addr) => Lists {
            denylist: lists.denylist,
            hosts: lists.hosts.insert(key, stored(lists.hosts, key).push(addr.body())),
        },
    }
}

/// The lists after `entry` was removed: the denylist without the key of
/// a domain, or without the patterns of an id; the hosts list without the
/// records of the family of the address under the key of a hosts entry.
pub open spec fn lists_without(lists: Lists, entry: AccessListEntryKind) -> Lists {
    match entry {
        AccessListEntryKind::DenyDomain(key) => Lists {
            denylist: DenylistView {
                keys: lists.denylist.keys.remove(key),
                regexes: lists.denylist.regexes,
            },
            hosts: lists.hosts,
        },
        AccessListEntryKind::DenyRegex(id, _) => Lists {
            denylist: DenylistView {
                keys: lists.denylist.keys,
                regexes: without_id(lists.denylist.regexes, id),
            },
            hosts: lists.hosts,
        },
        AccessListEntryKind::Hosts(key, addr) => Lists {
            denylist: lists.denylist,
            hosts: if lists.hosts.contains_key(key) {
                lists.hosts.insert(key, without_type(lists.hosts[key], addr.record_type()))
            } else {
                lists.hosts
            },
        },
    }
}

/// Adds an entry to the list it belongs to. A pattern entry without its
/// pattern is refused.
pub fn add_list_entry(denylist: &mut Denylist, hosts: &mut Hosts, entry: AccessListEntryKind) -> (r:
    Result<(), DnsError>)
    ensures
        (Lists { denylist: final(denylist)@, hosts: final(hosts)@ }) == lists_with(
            (Lists { denylist: old(denylist)@, hosts: old(hosts)@ }),
            entry,
        ),
        match r {
            Ok(_) => addable(entry),
            Err(e) => !addable(entry) && e == DnsError::InvalidListEntry,
        },
{
    match entry {
        AccessListEntryKind::DenyDomain(key) => {
            denylist.add_entry(key);
            Ok(())
        },
        AccessListEntryKind::DenyRegex(id, regex) => match regex {
            Some(re) => {
                denylist.add_regex(id, re);
                Ok(())
            },
            None => Err(DnsError::InvalidListEntry),
        },
        AccessListEntryKind::Hosts(key, addr) => {
            let rdata = addr.to_rdata();
            hosts.add_entry(key, rdata)
        },
    }
}

/// Removes an entry from the list it belongs to: a domain by its key, a
/// pattern by its id, and of a hosts entry the records of the family of
/// its address.
pub fn remove_list_entry(denylist: &mut Denylist, hosts: &mut Hosts, entry: AccessListEntryKind)
    ensures
        (Lists { denylist: final(denylist)@, hosts: final(hosts)@ }) == lists_without(
            (Lists { denylist: old(denylist)@, hosts: old(hosts)@ }),
            entry,
        ),
{
    match entry {
        AccessListEntryKind::DenyDomain(key) => {
            denylist.remove_entry(key);
        },
        AccessListEntryKind::DenyRegex(id, _) => {
            denylist.remove_regex(id);
        },
        AccessListEntryKind::Hosts(key, addr) => {
            hosts.remove_entry(key, addr.query_type());
        },
    }
}

/// Carries out a command on the lists.
pub fn process_command(denylist: &mut Denylist, hosts: &mut Hosts, command: DnsServerCommand) -> (r:
    Result<(), DnsError>)
    ensures
        (Lists { denylist: final(denylist)@, hosts: final(hosts)@ }) == match command {
            DnsServerCommand::AddNewListEntry(entry) => lists_with(
                (Lists { denylist: old(denylist)@, hosts: old(hosts)@ }),
                entry,
            ),
            DnsServerCommand::RemoveListEntry(entry) => lists_without(
                (Lists { denylist: old(denylist)@, hosts: old(hosts)@ }),
                entry,
            ),
        },
        match r {
            Ok(_) => command matches DnsServerCommand::AddNewListEntry(entry) ==> addable(entry),
            Err(e) => command matches DnsServerCommand::AddNewListEntry(entry) && !addable(entry)
                && e == DnsError::InvalidListEntry,
        },
{
    match command {
        DnsServerCommand::AddNewListEntry(entry) => add_list_entry(denylist, hosts, entry),
        DnsServerCommand::RemoveListEntry(entry) => {
            remove_list_entry(denylist, hosts, entry);
            Ok(())
        },
    }
}

/// A name whose key a command has added to the denylist is denied from
/// then on, and one whose key is there stays denied whatever is added.
pub proof fn lemma_added_domain_is_denied(lists: Lists, key: u128, qname: Seq<char>)
    requires
        key == domain_key(qname),
    ensures
        crate::denylist::denies(
            lists_with(lists, AccessListEntryKind::DenyDomain(key)).denylist.keys,
            lists_with(lists, AccessListEntryKind::DenyDomain(key)).denylist.regexes,
            qname,
        ),
{
}

/// Whether two optional texts are the same.
pub fn same_text(a: Option<&str>, b: Option<&str>) -> (r: bool)
    ensures
        r == (match a {
            Some(x) => Some(x@),
            None => None,
        } == match b {
            Some(x) => Some(x@),
            None => None,
        }),
{
    match a {
        Some(x) => match b {
            Some(y) => {
                proof {
                    vstd::utf8::encode_utf8_decode_utf8(x@);
                    vstd::utf8::encode_utf8_decode_utf8(y@);
                }
                crate::label_cache::bytes_eq(x.as_bytes(), y.as_bytes())
            },
            None => false,
        },
        None => b.is_none(),
    }
}

} // verus!
