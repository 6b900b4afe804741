use o_dns::list_entry::EntryKind;
use o_dns::list_entry::HostAddr;
use o_dns::list_parse::file_checksum;
use o_dns::list_parse::find_byte;
use o_dns::list_parse::is_entry_line;
use o_dns::list_parse::kind_of_address;
use o_dns::list_parse::list_changed;
use o_dns::list_parse::next_line;
use o_dns::list_parse::parse_denylist_line;
use o_dns::list_parse::parse_domain_name;
use o_dns::list_parse::parse_hosts_line;
use o_dns::list_parse::parse_label;
use o_dns::list_parse::parse_regex;
use o_dns::list_parse::trim_start;
use o_dns::list_parse::HostsLine;
use o_dns::DnsError;

#[test]
fn checksum_of_a_file() {
    let sum = file_checksum(b"hello world");
    assert_eq!(
        sum,
        [
            0x2a, 0xae, 0x6c, 0x35, 0xc9, 0x4f, 0xcf, 0xb4, 0x15, 0xdb, 0xe9, 0x5f, 0x40, 0x8b, 0x9c,
            0xe9, 0x1e, 0xe8, 0x46, 0xed
        ]
    );
    assert!(list_changed(&sum, None));
    assert!(!list_changed(&sum, Some(&sum)));
    assert!(list_changed(&sum, Some(&[0; 20])));
}

#[test]
fn lines_of_a_file() {
    let data = b"a.com\n  # note\n\n\t b.org [x]\nlast";
    let mut from = 0;
    let mut entries = Vec::new();
    while let Some(line) = next_line(data, from) {
        if is_entry_line(data, &line) {
            entries.push(&data[line.start..line.end]);
        }
        from = line.next;
    }
    assert_eq!(from, data.len());
    assert_eq!(next_line(data, data.len()), None);
    assert_eq!(entries, vec![&b"a.com"[..], &b"b.org [x]"[..], &b"last"[..]]);
    assert_eq!(find_byte(b"abc", b'c', 0), 2);
    assert_eq!(find_byte(b"abc", b'a', 1), 3);
    assert_eq!(find_byte(b"abc", b'a', 9), 3);
    assert_eq!(trim_start(b" \t\r x ", 0), 4);
    assert_eq!(trim_start(b"   ", 1), 3);
}

#[test]
fn labels() {
    assert_eq!(parse_label(b"[ads]"), Some(b"ads".to_vec()));
    assert_eq!(parse_label(b"  x [my label] y [z]"), Some(b"my label".to_vec()));
    assert_eq!(parse_label(b"] [a]"), Some(b"a".to_vec()));
    assert_eq!(parse_label(b"[]"), Some(vec![]));
    assert_eq!(parse_label(b"[open"), None);
    assert_eq!(parse_label(b"none"), None);
    assert_eq!(parse_label(b"]["), None);
}

#[test]
fn patterns_between_slashes() {
    assert_eq!(parse_regex(b"/ab+/ [l]"), Ok((b"ab+".to_vec(), 5)));
    assert_eq!(parse_regex(b"//"), Ok((vec![], 2)));
    // An escaped slash does not end the pattern
    assert_eq!(parse_regex(br"/a\/b/x"), Ok((br"a\/b".to_vec(), 6)));
    // An escaped backslash does not escape the slash behind it
    assert_eq!(parse_regex(br"/a\\/b/"), Ok((br"a\\".to_vec(), 5)));
    assert_eq!(parse_regex(b"/open"), Err(DnsError::InvalidListEntry));
    assert_eq!(parse_regex(br"/open\/"), Err(DnsError::InvalidListEntry));
    assert_eq!(parse_regex(b"a/b/"), Err(DnsError::InvalidListEntry));
    assert_eq!(parse_regex(b""), Err(DnsError::InvalidListEntry));
}

#[test]
fn domains() {
    assert_eq!(parse_domain_name(b"Example.COM"), Some((b"example.com".to_vec(), 11)));
    assert_eq!(parse_domain_name(b"a-1.b2.org   [x]"), Some((b"a-1.b2.org".to_vec(), 13)));
    assert_eq!(parse_domain_name(b"*.tracker.net # c"), Some((b"*.tracker.net".to_vec(), 14)));
    assert_eq!(parse_domain_name(b"a.bc"), Some((b"a.bc".to_vec(), 4)));
    // An asterisk must be a label of its own, and the first
    assert_eq!(parse_domain_name(b"*test.abc"), None);
    assert_eq!(parse_domain_name(b"*"), None);
    assert_eq!(parse_domain_name(b"a.*.com"), None);
    // A single label, an empty last label, a last label too short or with a digit
    assert_eq!(parse_domain_name(b"localhost"), None);
    assert_eq!(parse_domain_name(b"example."), None);
    assert_eq!(parse_domain_name(b"example.b"), None);
    assert_eq!(parse_domain_name(b"example.t3st"), None);
    assert_eq!(parse_domain_name(b""), None);
    assert_eq!(parse_domain_name(b"-a.com"), None);
    assert_eq!(parse_domain_name(b".com"), None);
}

#[test]
fn denylist_lines() {
    let entry = parse_denylist_line(b"Ads.Example.com  [ad servers]", 42).unwrap();
    assert_eq!(entry.kind, EntryKind::Deny);
    assert_eq!(entry.domain.as_deref(), Some("ads.example.com"));
    assert_eq!(entry.data, None);
    assert_eq!(entry.label.as_deref(), Some("ad servers"));
    assert_eq!(entry.timestamp, 42);
    assert_eq!(entry.id, 0);
    let entry = parse_denylist_line(br"/^ad[0-9]\/x$/", 1).unwrap();
    assert_eq!(entry.kind, EntryKind::DenyRegex);
    assert_eq!(entry.domain, None);
    assert_eq!(entry.data.as_deref(), Some(r"^ad[0-9]\/x$"));
    assert_eq!(entry.label, None);
    // A pattern that does not compile
    assert_eq!(parse_denylist_line(b"/(a/", 1), Err(DnsError::InvalidListEntry));
    assert_eq!(parse_denylist_line(b"/a", 1), Err(DnsError::InvalidListEntry));
    assert_eq!(parse_denylist_line(b"nodot", 1), Err(DnsError::InvalidListEntry));
    // A label that is no text
    assert_eq!(parse_denylist_line(b"a.com [\xff]", 1), Err(DnsError::InvalidListEntry));
}

#[test]
fn hosts_lines() {
    assert_eq!(
        parse_hosts_line(b"Shop.Local 10.0.0.7 [shop]"),
        Ok(HostsLine {
            domain: "shop.local".to_string(),
            address: "10.0.0.7".to_string(),
            label: Some("shop".to_string()),
        })
    );
    assert_eq!(
        parse_hosts_line(b"v6.lan   ::1"),
        Ok(HostsLine { domain: "v6.lan".to_string(), address: "::1".to_string(), label: None })
    );
    assert_eq!(
        parse_hosts_line(b"no.addr"),
        Ok(HostsLine { domain: "no.addr".to_string(), address: String::new(), label: None })
    );
    assert_eq!(parse_hosts_line(b"10.0.0.7 shop.local"), Err(DnsError::InvalidListEntry));
    assert_eq!(kind_of_address(HostAddr::V4([0; 4])), EntryKind::AllowA);
    assert_eq!(kind_of_address(HostAddr::V6([0; 16])), EntryKind::AllowAAAA);
}
