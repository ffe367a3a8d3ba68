//! Textual forms: names, numbers, addresses and record-set lines.

use xdns::name::Name;
use xdns::rrset::{RRset, RRType, RData};
use xdns::text::{parse_u32, parse_ipv4};

#[test]
fn test_name_text_round_trip() {
    for text in [&b"a.example.com"[..], b"example.com.", b"com", b"."] {
        let n = Name::from_text(text).unwrap();
        let rendered = n.to_text();
        let again = Name::from_text(&rendered).unwrap();
        assert_eq!(n, again);
    }
}

#[test]
fn test_name_case_insensitive() {
    let a = Name::from_text(b"Example.COM").unwrap();
    let b = Name::from_text(b"example.com.").unwrap();
    assert!(a.equals(&b));
    assert_eq!(a.to_text(), b"example.com.".to_vec());
}

#[test]
fn test_name_rejects_bad_text() {
    assert!(Name::from_text(b"").is_none());
    assert!(Name::from_text(b"a..b").is_none());
    assert!(Name::from_text(b".a").is_none());
    assert!(Name::from_text(b"has space.com").is_none());
    let sixtyfour = [b'a'; 64];
    let mut long_label = sixtyfour.to_vec();
    long_label.extend_from_slice(b".com");
    assert!(Name::from_text(&long_label).is_none());
}

#[test]
fn test_subdomain() {
    let zone = Name::from_text(b"example.com").unwrap();
    let inside = Name::from_text(b"a.b.example.com").unwrap();
    let outside = Name::from_text(b"example.net").unwrap();
    assert!(inside.is_subdomain(&zone));
    assert!(zone.is_subdomain(&zone));
    assert!(!outside.is_subdomain(&zone));
    assert!(!zone.is_subdomain(&inside));
}

#[test]
fn test_parse_u32() {
    assert_eq!(parse_u32(b"0"), Some(0));
    assert_eq!(parse_u32(b"3600"), Some(3600));
    assert_eq!(parse_u32(b"4294967295"), Some(4294967295));
    assert_eq!(parse_u32(b"4294967296"), None);
    assert_eq!(parse_u32(b""), None);
    assert_eq!(parse_u32(b"12x"), None);
}

#[test]
fn test_parse_ipv4() {
    assert_eq!(parse_ipv4(b"1.1.1.1"), Some(0x01010101));
    assert_eq!(parse_ipv4(b"192.0.2.2"), Some(0xC0000202));
    assert_eq!(parse_ipv4(b"255.255.255.255"), Some(0xFFFFFFFF));
    assert_eq!(parse_ipv4(b"256.1.1.1"), None);
    assert_eq!(parse_ipv4(b"1.1.1"), None);
    assert_eq!(parse_ipv4(b"1.1.1.1.1"), None);
    assert_eq!(parse_ipv4(b"1.1.1."), None);
}

#[test]
fn test_rrset_line_round_trip() {
    // Rendering uses tabs between the fields; parsing takes any whitespace.
    let lines = [
        &b"a.com.\t900\tIN\tA\t1.1.1.1\n"[..],
        b"b.com.\t900\tIN\tNS\tns1.b.com.\n",
        b"com.\t3600\tIN\tSOA\thd.fuxi. root.fuxi. 1 600 300 2419200 600\n",
    ];
    for line in lines {
        let rr = RRset::from_text(line).unwrap();
        assert_eq!(rr.to_text(), line.to_vec());
        let spaced = line
            .iter()
            .map(|b| if *b == 9 { 32u8 } else { *b })
            .collect::<Vec<u8>>();
        let rr2 = RRset::from_text(&spaced).unwrap();
        assert_eq!(rr2, rr);
    }
}

#[test]
fn test_rrset_rejects_bad_lines() {
    assert!(RRset::from_text(b"a.com. 900 IN A").is_none());
    assert!(RRset::from_text(b"a.com. 900 XX A 1.1.1.1").is_none());
    assert!(RRset::from_text(b"a.com. abc IN A 1.1.1.1").is_none());
    assert!(RRset::from_text(b"a.com. 900 IN A 1.1.1.299").is_none());
    assert!(RRset::from_text(b"a..com. 900 IN A 1.1.1.1").is_none());
}

#[test]
fn test_rrset_from_texts_merges() {
    let rr = RRset::from_texts(&vec![
        b"ns.com. 3600 IN A 1.1.1.1".to_vec(),
        b"ns.com. 3600 IN A 2.2.2.2".to_vec(),
    ])
    .unwrap();
    assert_eq!(rr.rr_count(), 2);
    assert_eq!(rr.typ, RRType::A);
    assert_eq!(rr.rdatas, vec![RData::A(0x01010101), RData::A(0x02020202)]);
    // Mismatched owners do not merge.
    assert!(RRset::from_texts(&vec![
        b"ns.com. 3600 IN A 1.1.1.1".to_vec(),
        b"other.com. 3600 IN A 2.2.2.2".to_vec(),
    ])
    .is_none());
}
