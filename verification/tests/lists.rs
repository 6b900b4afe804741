use o_dns::denylist::Denylist;
use o_dns::hash::get_dns_query_hash;
use o_dns::hash::hash_to_u128;
use o_dns::hosts::Hosts;
use o_dns::list_entry::add_list_entry;
use o_dns::list_entry::hash_domain;
use o_dns::list_entry::list_entry_command;
use o_dns::list_entry::process_command;
use o_dns::list_entry::remove_list_entry;
use o_dns::list_entry::removal_command;
use o_dns::list_entry::same_text;
use o_dns::list_entry::AccessListEntryKind;
use o_dns::list_entry::DnsServerCommand;
use o_dns::list_entry::EntryKind;
use o_dns::list_entry::HostAddr;
use o_dns::list_entry::ListEntry;
use o_dns::list_entry::ListEntryUpdateRequest;
use o_dns::list_entry::ListTarget;
use o_dns::list_util::find_wildcard_parts;
use o_dns::list_util::lowercase;
use o_dns::DnsError;
use o_dns::QueryType;
use o_dns::Question;
use o_dns::ResourceData;

#[test]
fn keys_are_the_first_sixteen_bytes_of_sha1() {
    assert_eq!(
        hash_to_u128(b"hello world", None),
        0x2aae6c35c94fcfb415dbe95f408b9ce9
    );
    assert_eq!(
        hash_to_u128(b"tracker.net", Some(b"*.")),
        152403361030497776681297580531045499580
    );
    assert_eq!(
        hash_to_u128(b"tracker.net", Some(b"*.")),
        hash_to_u128(b"*.tracker.net", None)
    );
    assert_ne!(hash_to_u128(b"", None), 0);
    assert_eq!(
        get_dns_query_hash(&Question::new("x.com", QueryType::A, None)),
        292535420310424993196436316346273302596
    );
    assert_ne!(
        get_dns_query_hash(&Question::new("x.com", QueryType::A, None)),
        get_dns_query_hash(&Question::new("x.com", QueryType::AAAA, None))
    );
    assert_eq!(hash_domain("ADS.Example.COM"), 215772426778321937873833960034569031459);
}

#[test]
fn parent_suffixes_of_a_name() {
    assert_eq!(find_wildcard_parts("px.tracker.net"), vec![3, 11]);
    assert_eq!(find_wildcard_parts("net"), Vec::<usize>::new());
    assert_eq!(find_wildcard_parts(""), Vec::<usize>::new());
    assert_eq!(find_wildcard_parts("a..b."), vec![3]);
    assert_eq!(find_wildcard_parts(".a"), vec![1]);
    assert_eq!(lowercase(b"aZ09-.[`{"), b"az09-.[`{".to_vec());
}

#[test]
fn denylist_membership() {
    let mut denylist = Denylist::new();
    assert!(!denylist.contains_entry("ads.example.com"));
    denylist.add_entry(hash_domain("ads.example.com"));
    denylist.add_entry(hash_domain("*.tracker.net"));
    // An exact match
    assert!(denylist.contains_entry("ads.example.com"));
    assert!(denylist.contains_entry("ADS.example.COM"));
    assert!(!denylist.contains_entry("example.com"));
    assert!(!denylist.contains_entry("www.ads.example.com"));
    // A wildcard match on a parent suffix
    assert!(denylist.contains_entry("px.tracker.net"));
    assert!(denylist.contains_entry("a.b.tracker.net"));
    assert!(!denylist.contains_entry("tracker.net"));
    assert!(!denylist.contains_entry("tracker.net.org"));
    // A pattern
    denylist.add_regex(7, regex::Regex::new(r"^ad[0-9]+\.").unwrap());
    denylist.add_regex(8, regex::Regex::new(r"doubleclick").unwrap());
    assert!(denylist.contains_entry("ad42.host.org"));
    assert!(denylist.contains_entry("x.doubleclick.net"));
    assert!(!denylist.contains_entry("bad42.host.org"));
    denylist.remove_regex(7);
    assert!(!denylist.contains_entry("ad42.host.org"));
    assert!(denylist.contains_entry("x.doubleclick.net"));
    denylist.remove_regex(7);
    denylist.remove_regex(8);
    assert!(!denylist.contains_entry("x.doubleclick.net"));
    denylist.remove_entry(hash_domain("ads.example.com"));
    assert!(!denylist.contains_entry("ads.example.com"));
    assert!(denylist.contains_entry("px.tracker.net"));
}

#[test]
fn hosts_records_in_their_order() {
    let mut hosts = Hosts::new();
    assert!(hosts.get_entry("shop.local").is_none());
    let key = hash_domain("shop.local");
    let a = ResourceData::A { address: [10, 0, 0, 7] };
    let aaaa = ResourceData::AAAA { address: [1; 16] };
    let cname = ResourceData::CNAME { cname: "shop.internal".to_string() };
    assert_eq!(hosts.add_entry(key, a.clone()), Ok(()));
    assert_eq!(hosts.add_entry(key, cname.clone()), Ok(()));
    assert_eq!(hosts.add_entry(key, aaaa.clone()), Ok(()));
    assert_eq!(hosts.add_entry(key, a.clone()), Ok(()));
    assert_eq!(
        hosts.get_entry("Shop.Local").unwrap(),
        &[a.clone(), cname.clone(), aaaa.clone(), a.clone()]
    );
    // Other kinds are refused
    assert_eq!(
        hosts.add_entry(key, ResourceData::NS { ns_domain_name: "n".to_string() }),
        Err(DnsError::InvalidKind)
    );
    assert_eq!(
        hosts.add_entry(key, ResourceData::OPT { options: None }),
        Err(DnsError::InvalidKind)
    );
    assert_eq!(
        hosts.add_entry(key, ResourceData::UNKNOWN { qtype: 1, rdata: vec![] }),
        Err(DnsError::InvalidKind)
    );
    hosts.remove_entry(key, QueryType::A);
    assert_eq!(hosts.get_entry("shop.local").unwrap(), &[cname.clone(), aaaa.clone()]);
    hosts.remove_entry(hash_domain("other.local"), QueryType::A);
    hosts.remove_entry(key, QueryType::CNAME);
    hosts.remove_entry(key, QueryType::AAAA);
    // The name stays known, with nothing under it
    assert!(hosts.get_entry("shop.local").unwrap().is_empty());
}

#[test]
fn hosts_wildcards_take_the_longest_suffix() {
    let mut hosts = Hosts::new();
    let wide = ResourceData::A { address: [1, 1, 1, 1] };
    let narrow = ResourceData::A { address: [2, 2, 2, 2] };
    let exact = ResourceData::A { address: [3, 3, 3, 3] };
    hosts.add_entry(hash_domain("*.lan"), wide.clone()).unwrap();
    hosts.add_entry(hash_domain("*.dev.lan"), narrow.clone()).unwrap();
    hosts.add_entry(hash_domain("a.dev.lan"), exact.clone()).unwrap();
    assert_eq!(hosts.get_entry("a.dev.lan").unwrap(), &[exact]);
    assert_eq!(hosts.get_entry("b.dev.lan").unwrap(), &[narrow.clone()]);
    assert_eq!(hosts.get_entry("x.y.dev.lan").unwrap(), &[narrow]);
    assert_eq!(hosts.get_entry("dev.lan").unwrap(), &[wide]);
    assert!(hosts.get_entry("lan").is_none());
}

#[test]
fn entry_kinds_and_their_fields() {
    assert_eq!(EntryKind::from_code(0), Ok(EntryKind::Deny));
    assert_eq!(EntryKind::from_code(1), Ok(EntryKind::DenyRegex));
    assert_eq!(EntryKind::from_code(2), Ok(EntryKind::AllowA));
    assert_eq!(EntryKind::from_code(3), Ok(EntryKind::AllowAAAA));
    assert_eq!(EntryKind::from_code(4), Err(DnsError::InvalidListEntry));
    assert_eq!(EntryKind::AllowAAAA.code(), 3);
    let entry = ListEntry::new(
        Some("a.b".to_string()),
        EntryKind::Deny,
        None,
        Some("ads".to_string()),
        1700000000,
    )
    .unwrap();
    assert_eq!(entry.id, 0);
    assert_eq!(entry.timestamp, 1700000000);
    assert_eq!(entry.domain.as_deref(), Some("a.b"));
    assert_eq!(entry.label.as_deref(), Some("ads"));
    assert_eq!(
        ListEntry::new(None, EntryKind::Deny, Some("x".to_string()), None, 0),
        Err(DnsError::InvalidListEntry)
    );
    assert_eq!(
        ListEntry::new(Some("a.b".to_string()), EntryKind::DenyRegex, None, None, 0),
        Err(DnsError::InvalidListEntry)
    );
    assert!(ListEntry::new(None, EntryKind::DenyRegex, Some("x".to_string()), None, 0).is_ok());
    assert_eq!(
        ListEntry::new(Some("a.b".to_string()), EntryKind::AllowA, None, None, 0),
        Err(DnsError::InvalidListEntry)
    );
    assert_eq!(
        ListEntry::new(None, EntryKind::AllowAAAA, Some("::1".to_string()), None, 0),
        Err(DnsError::InvalidListEntry)
    );
    let update = ListEntryUpdateRequest::new(EntryKind::Deny, None, None, None);
    assert!(update.is_empty());
    let update = ListEntryUpdateRequest::new(EntryKind::Deny, None, None, Some("l".to_string()));
    assert!(!update.is_empty());
    assert!(same_text(None, None));
    assert!(same_text(Some("a"), Some("a")));
    assert!(!same_text(Some("a"), Some("b")));
    assert!(!same_text(Some("a"), None));
}

#[test]
fn commands_for_entries() {
    let v4 = HostAddr::V4([1, 2, 3, 4]);
    let v6 = HostAddr::V6([9; 16]);
    match list_entry_command(EntryKind::Deny, 5, Some("Foo.Test"), None, None) {
        Ok(AccessListEntryKind::DenyDomain(key)) => assert_eq!(key, hash_domain("foo.test")),
        other => panic!("unexpected {:?}", other),
    }
    assert!(matches!(
        list_entry_command(EntryKind::Deny, 5, None, None, None),
        Err(DnsError::InvalidListEntry)
    ));
    match list_entry_command(EntryKind::DenyRegex, 5, None, Some("^a+$"), None) {
        Ok(AccessListEntryKind::DenyRegex(5, Some(re))) => {
            assert!(re.is_match("aaa"));
            assert!(!re.is_match("ab"));
        }
        other => panic!("unexpected {:?}", other),
    }
    assert!(matches!(
        list_entry_command(EntryKind::DenyRegex, 5, None, Some("(unclosed"), None),
        Err(DnsError::InvalidListEntry)
    ));
    assert!(matches!(
        list_entry_command(EntryKind::DenyRegex, 5, Some("a.b"), None, None),
        Err(DnsError::InvalidListEntry)
    ));
    match list_entry_command(EntryKind::AllowA, 0, Some("h.lan"), Some("1.2.3.4"), Some(v4)) {
        Ok(AccessListEntryKind::Hosts(key, addr)) => {
            assert_eq!(key, hash_domain("h.lan"));
            assert_eq!(addr, v4);
        }
        other => panic!("unexpected {:?}", other),
    }
    // The family of the address must be that of the kind
    assert!(list_entry_command(EntryKind::AllowA, 0, Some("h.lan"), Some("::9"), Some(v6)).is_err());
    assert!(list_entry_command(EntryKind::AllowAAAA, 0, Some("h.lan"), Some("::9"), Some(v6)).is_ok());
    assert!(list_entry_command(EntryKind::AllowAAAA, 0, Some("h.lan"), Some("bad"), None).is_err());
    assert!(list_entry_command(EntryKind::AllowAAAA, 0, None, Some("::9"), Some(v6)).is_err());
    assert!(list_entry_command(EntryKind::AllowAAAA, 0, Some("h.lan"), None, Some(v6)).is_err());
    assert!(matches!(
        removal_command(EntryKind::DenyRegex, 9, None, None),
        Ok(AccessListEntryKind::DenyRegex(9, None))
    ));
    assert!(matches!(
        removal_command(EntryKind::Deny, 9, Some("a.b"), None),
        Ok(AccessListEntryKind::DenyDomain(_))
    ));
    assert!(removal_command(EntryKind::Deny, 9, None, None).is_err());
    assert!(removal_command(EntryKind::AllowA, 9, Some("a.b"), None).is_err());
    assert!(removal_command(EntryKind::AllowA, 9, Some("a.b"), Some(v4)).is_ok());
    assert_eq!(AccessListEntryKind::DenyDomain(1).target(), ListTarget::Denylist);
    assert_eq!(AccessListEntryKind::DenyRegex(1, None).target(), ListTarget::Denylist);
    assert_eq!(AccessListEntryKind::Hosts(1, v4).target(), ListTarget::Hosts);
    assert_eq!(v4.query_type(), QueryType::A);
    assert_eq!(v6.to_rdata(), ResourceData::AAAA { address: [9; 16] });
}

#[test]
fn commands_change_the_lists() {
    let mut denylist = Denylist::new();
    let mut hosts = Hosts::new();
    let v4 = HostAddr::V4([1, 2, 3, 4]);
    let v6 = HostAddr::V6([9; 16]);
    let key = hash_domain("h.lan");
    add_list_entry(&mut denylist, &mut hosts, AccessListEntryKind::Hosts(key, v4)).unwrap();
    add_list_entry(&mut denylist, &mut hosts, AccessListEntryKind::Hosts(key, v6)).unwrap();
    assert_eq!(hosts.get_entry("h.lan").unwrap().len(), 2);
    remove_list_entry(&mut denylist, &mut hosts, AccessListEntryKind::Hosts(key, v4));
    assert_eq!(hosts.get_entry("h.lan").unwrap(), &[ResourceData::AAAA { address: [9; 16] }]);
    assert_eq!(
        add_list_entry(&mut denylist, &mut hosts, AccessListEntryKind::DenyRegex(3, None)),
        Err(DnsError::InvalidListEntry)
    );
    let re = regex::Regex::new("spy").unwrap();
    process_command(
        &mut denylist,
        &mut hosts,
        DnsServerCommand::AddNewListEntry(AccessListEntryKind::DenyRegex(3, Some(re))),
    )
    .unwrap();
    assert!(denylist.contains_entry("spy.net"));
    process_command(
        &mut denylist,
        &mut hosts,
        DnsServerCommand::RemoveListEntry(AccessListEntryKind::DenyRegex(3, None)),
    )
    .unwrap();
    assert!(!denylist.contains_entry("spy.net"));
}
