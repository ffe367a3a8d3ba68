//! End-to-end authoritative behaviour through `Auth::resolve`.

use xdns::auth::{Auth, AuthError};
use xdns::name::Name;
use xdns::rrset::{RRset, RRType, RData};
use xdns::message::{Request, Rcode, HeaderFlag, SectionType, is_flag_set};

fn seeded_auth() -> Auth {
    let mut auth = Auth::new();
    auth.add_zone(
        Name::from_text(b"example.com").unwrap(),
        &vec![b"1.1.1.1".to_vec()],
    )
    .unwrap();
    auth
}

fn query(auth: &Auth, name: &[u8], typ: RRType) -> xdns::message::Response {
    let mut req = Request::new(Name::from_text(name).unwrap(), typ);
    req.header.id = 4242;
    auth.resolve(&req)
}

#[test]
fn test_exact_apex_match() {
    let auth = seeded_auth();
    let resp = query(&auth, b"example.com", RRType::NS);
    assert_eq!(resp.header.rcode, Rcode::NoError);
    assert_eq!(resp.header.id, 4242);
    assert!(is_flag_set(resp.header.flag, HeaderFlag::QueryResponse));
    let answers = resp.section(SectionType::Answer);
    assert_eq!(answers.len(), 1);
    assert_eq!(
        answers[0].to_text(),
        b"example.com.\t3600\tIN\tNS\tns.example.com.\n".to_vec()
    );
    // Glue accompanies delegations only; an apex NS answered from the
    // Answer section carries no additional records.
    assert_eq!(resp.section(SectionType::Additional).len(), 0);
    // The glue itself is served from the zone.
    let resp = query(&auth, b"ns.example.com", RRType::A);
    assert_eq!(resp.header.rcode, Rcode::NoError);
    let answers = resp.section(SectionType::Answer);
    assert_eq!(answers.len(), 1);
    assert_eq!(
        answers[0].to_text(),
        b"ns.example.com.\t3600\tIN\tA\t1.1.1.1\n".to_vec()
    );
}

#[test]
fn test_in_zone_success() {
    let mut auth = seeded_auth();
    auth.add_rrset(
        &Name::from_text(b"example.com").unwrap(),
        RRset::from_text(b"a.example.com. 300 IN A 9.9.9.9").unwrap(),
    )
    .unwrap();
    let resp = query(&auth, b"a.example.com", RRType::A);
    assert_eq!(resp.header.rcode, Rcode::NoError);
    let answers = resp.section(SectionType::Answer);
    assert_eq!(answers.len(), 1);
    assert_eq!(answers[0].rdatas, vec![RData::A(0x09090909)]);
}

#[test]
fn test_delegation() {
    let mut auth = seeded_auth();
    auth.add_rrset(
        &Name::from_text(b"example.com").unwrap(),
        RRset::from_text(b"sub.example.com. 300 IN NS ns1.sub.example.com.").unwrap(),
    )
    .unwrap();
    let resp = query(&auth, b"x.sub.example.com", RRType::A);
    assert_eq!(resp.header.rcode, Rcode::NoError);
    assert_eq!(resp.section(SectionType::Answer).len(), 0);
    let authority = resp.section(SectionType::Authority);
    assert_eq!(authority.len(), 1);
    assert_eq!(
        authority[0].to_text(),
        b"sub.example.com.\t300\tIN\tNS\tns1.sub.example.com.\n".to_vec()
    );
    // The NS target has no address record, so no glue is available.
    assert_eq!(resp.section(SectionType::Additional).len(), 0);
}

#[test]
fn test_nxdomain() {
    let auth = seeded_auth();
    let resp = query(&auth, b"nope.example.com", RRType::A);
    assert_eq!(resp.header.rcode, Rcode::NXDomain);
    assert_eq!(resp.section(SectionType::Answer).len(), 0);
    let authority = resp.section(SectionType::Authority);
    assert_eq!(authority.len(), 1);
    assert_eq!(authority[0].typ, RRType::SOA);
    assert_eq!(
        authority[0].to_text(),
        b"example.com.\t3600\tIN\tSOA\thd.fuxi. root.fuxi. 1 600 300 2419200 600\n".to_vec()
    );
}

#[test]
fn test_nxrrset() {
    let mut auth = seeded_auth();
    auth.add_rrset(
        &Name::from_text(b"example.com").unwrap(),
        RRset::from_text(b"a.example.com. 300 IN A 9.9.9.9").unwrap(),
    )
    .unwrap();
    let resp = query(&auth, b"a.example.com", RRType::AAAA);
    assert_eq!(resp.header.rcode, Rcode::NoError);
    assert_eq!(resp.section(SectionType::Answer).len(), 0);
    assert_eq!(resp.section(SectionType::Authority).len(), 0);
}

#[test]
fn test_unknown_zone_refused() {
    let auth = seeded_auth();
    let resp = query(&auth, b"www.unrelated.net", RRType::A);
    assert_eq!(resp.header.rcode, Rcode::Refused);
    assert_eq!(resp.section(SectionType::Answer).len(), 0);
}

#[test]
fn test_duplicate_zone_rejected() {
    let mut auth = seeded_auth();
    let r = auth.add_zone(Name::from_text(b"example.com").unwrap(), &Vec::new());
    assert_eq!(r, Err(AuthError::DuplicateZone));
}

#[test]
fn test_add_rrset_unknown_zone_rejected() {
    let mut auth = seeded_auth();
    let r = auth.add_rrset(
        &Name::from_text(b"other.net").unwrap(),
        RRset::from_text(b"a.other.net. 300 IN A 9.9.9.9").unwrap(),
    );
    assert_eq!(r, Err(AuthError::UnknownZone));
}

#[test]
fn test_bad_address_rejected() {
    let mut auth = Auth::new();
    let r = auth.add_zone(
        Name::from_text(b"bad.example").unwrap(),
        &vec![b"1.2.3.256".to_vec()],
    );
    assert_eq!(r, Err(AuthError::BadAddress));
}

#[test]
fn test_delegation_at_cut_owner() {
    let mut auth = seeded_auth();
    auth.add_rrset(
        &Name::from_text(b"example.com").unwrap(),
        RRset::from_text(b"sub.example.com. 300 IN NS ns1.sub.example.com.").unwrap(),
    )
    .unwrap();
    // A query for the cut owner itself is also answered as a delegation.
    let resp = query(&auth, b"sub.example.com", RRType::A);
    assert_eq!(resp.header.rcode, Rcode::NoError);
    assert_eq!(resp.section(SectionType::Answer).len(), 0);
    assert_eq!(resp.section(SectionType::Authority).len(), 1);
}

#[test]
fn test_delegation_with_in_zone_glue() {
    let mut auth = seeded_auth();
    let zone = Name::from_text(b"example.com").unwrap();
    auth.add_rrset(
        &zone,
        RRset::from_text(b"sub.example.com. 300 IN NS ns1.sub.example.com.").unwrap(),
    )
    .unwrap();
    auth.add_rrset(
        &zone,
        RRset::from_text(b"ns1.sub.example.com. 300 IN A 7.7.7.7").unwrap(),
    )
    .unwrap();
    let resp = query(&auth, b"x.sub.example.com", RRType::A);
    assert_eq!(resp.header.rcode, Rcode::NoError);
    let additional = resp.section(SectionType::Additional);
    assert_eq!(additional.len(), 1);
    assert_eq!(additional[0].rdatas, vec![RData::A(0x07070707)]);
}
