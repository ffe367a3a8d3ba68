//! Zone store and default-content behaviour.

use xdns::name::Name;
use xdns::rrset::{RRset, RRType, RData};
use xdns::zone::{MemoryZone, FindMode, FindResult};
use xdns::zone_content_generator::{default_soa, default_ns_and_glue};

#[test]
fn test_zone_find() {
    let mut zone = MemoryZone::new(Name::from_text(b"com").unwrap());
    zone.add_rrset(
        RRset::from_text(
            b"com. 900 IN SOA a.gtld-servers.net. nstld.verisign-grs.com. 1653038001 1800 900 604800 86400",
        )
        .unwrap(),
    );

    let a_com_rrset = RRset::from_text(b"a.com. 900 IN A 1.1.1.1").unwrap();
    zone.add_rrset(a_com_rrset.clone());
    let b_com_ns = RRset::from_text(b"b.com. 900 IN NS ns1.b.com.").unwrap();
    zone.add_rrset(b_com_ns.clone());

    let a_com = Name::from_text(b"a.com").unwrap();
    let result = zone.find(&a_com, RRType::A, FindMode::DefaultFind);
    assert!(matches!(result, FindResult::Success(rrset) if rrset.eq(&a_com_rrset)));

    let a_b_com = Name::from_text(b"a.b.com").unwrap();
    let result = zone.find(&a_b_com, RRType::A, FindMode::DefaultFind);
    assert!(matches!(result, FindResult::Delegation(rrset) if rrset.eq(&b_com_ns)));
}

#[test]
fn test_default_soa() {
    let name = Name::from_text(b"com").unwrap();
    let soa = default_soa(&name);
    assert_eq!(
        soa.to_text(),
        b"com.\t3600\tIN\tSOA\thd.fuxi. root.fuxi. 1 600 300 2419200 600\n".to_vec()
    );
    let (ns, glue) =
        default_ns_and_glue(&name, &vec![b"1.1.1.1".to_vec(), b"2.2.2.2".to_vec()]).unwrap();
    assert_eq!(ns.to_text(), b"com.\t3600\tIN\tNS\tns.com.\n".to_vec());
    assert_eq!(glue.rr_count(), 2);
    assert_eq!(
        glue.to_text(),
        b"ns.com.\t3600\tIN\tA\t1.1.1.1\nns.com.\t3600\tIN\tA\t2.2.2.2\n".to_vec()
    );
}

#[test]
fn test_glue_ok_find_reaches_below_cut() {
    let mut zone = MemoryZone::new(Name::from_text(b"example.com").unwrap());
    zone.add_rrset(RRset::from_text(b"sub.example.com. 300 IN NS ns1.sub.example.com.").unwrap());
    zone.add_rrset(RRset::from_text(b"ns1.sub.example.com. 300 IN A 7.7.7.7").unwrap());

    let glue_name = Name::from_text(b"ns1.sub.example.com").unwrap();
    // The default walk stops at the cut above the glue name.
    let r = zone.find(&glue_name, RRType::A, FindMode::DefaultFind);
    assert!(matches!(r, FindResult::Delegation(_)));
    // The glue-ok walk reads through it.
    let r = zone.find(&glue_name, RRType::A, FindMode::GlueOkFind);
    assert!(matches!(r, FindResult::Success(rrset) if rrset.rdatas == vec![RData::A(0x07070707)]));
}

#[test]
fn test_glue_ignores_out_of_zone_targets() {
    let mut zone = MemoryZone::new(Name::from_text(b"example.com").unwrap());
    zone.add_rrset(RRset::from_text(b"sub.example.com. 300 IN NS ns.elsewhere.net.").unwrap());
    let ns = RRset::from_text(b"sub.example.com. 300 IN NS ns.elsewhere.net.").unwrap();
    let glues = zone.get_glue_for_ns(&ns).unwrap();
    assert_eq!(glues.len(), 0);
}

#[test]
fn test_add_rrset_replaces_same_type() {
    let mut zone = MemoryZone::new(Name::from_text(b"com").unwrap());
    zone.add_rrset(RRset::from_text(b"a.com. 900 IN A 1.1.1.1").unwrap());
    zone.add_rrset(RRset::from_text(b"a.com. 900 IN A 2.2.2.2").unwrap());
    let a_com = Name::from_text(b"a.com").unwrap();
    let r = zone.find(&a_com, RRType::A, FindMode::DefaultFind);
    match r {
        FindResult::Success(rrset) => {
            assert_eq!(rrset.rdatas, vec![RData::A(0x02020202)]);
        },
        _ => panic!(),
    }
}

#[test]
fn test_add_rrset_idempotent() {
    let mut zone = MemoryZone::new(Name::from_text(b"com").unwrap());
    let rr = RRset::from_text(b"a.com. 900 IN A 1.1.1.1").unwrap();
    zone.add_rrset(rr.clone());
    zone.add_rrset(rr.clone());
    let a_com = Name::from_text(b"a.com").unwrap();
    let r = zone.find(&a_com, RRType::A, FindMode::DefaultFind);
    assert!(matches!(r, FindResult::Success(rrset) if rrset.eq(&rr)));
    assert_eq!(zone.domains.nodes.len(), 1);
    assert_eq!(zone.domains.nodes[0].value.len(), 1);
}

#[test]
fn test_zero_ip_zone_has_no_glue() {
    let name = Name::from_text(b"example.com").unwrap();
    let (ns, glue) = default_ns_and_glue(&name, &Vec::new()).unwrap();
    assert_eq!(glue.rr_count(), 0);
    let mut zone = MemoryZone::new(name.clone());
    zone.add_rrset(default_soa(&name));
    zone.add_rrset(ns.clone());
    let r = zone.find(&name, RRType::SOA, FindMode::DefaultFind);
    assert!(matches!(r, FindResult::Success(_)));
    let r = zone.find(&name, RRType::NS, FindMode::DefaultFind);
    assert!(matches!(r, FindResult::Success(_)));
    let glues = zone.get_glue_for_ns(&ns).unwrap();
    assert_eq!(glues.len(), 0);
}
