//! Message cache behaviour: entries, TTL decay, the positive/negative
//! split, and the LRU bound.

use xdns::name::Name;
use xdns::rrset::{RRset, RRType};
use xdns::message::{Request, Response, Rcode, HeaderFlag, SectionType, is_flag_set};
use xdns::message_cache::MessageLruCache;
use xdns::message_cache_entry::MessageEntry;

fn build_positive_response() -> Response {
    let mut resp = Response::with_question(
        Name::from_text(b"test.example.com.").unwrap(),
        RRType::A,
    );
    let answer = RRset::from_texts(&vec![
        b"test.example.com. 3600 IN A 192.0.2.2".to_vec(),
        b"test.example.com. 3600 IN A 192.0.2.1".to_vec(),
    ])
    .unwrap();
    resp.add_rrset(SectionType::Answer, answer);
    resp.add_rrset(
        SectionType::Authority,
        RRset::from_text(b"example.com. 100 IN NS ns1.example.com.").unwrap(),
    );
    resp.add_rrset(
        SectionType::Additional,
        RRset::from_text(b"ns1.example.com. 3600 IN A 2.2.2.2").unwrap(),
    );
    resp.set_id(1200);
    resp.set_rcode(Rcode::NoError);
    resp.set_header_flag(HeaderFlag::RecursionDesired);
    resp
}

fn build_negative_response() -> Response {
    let mut resp = Response::with_question(
        Name::from_text(b"test.example.com.").unwrap(),
        RRType::A,
    );
    resp.add_rrset(
        SectionType::Authority,
        RRset::from_text(
            b"example.com. 30 IN SOA a.gtld-servers.net. nstld.verisign-grs.com. 1563935574 1800 900 604800 86400",
        )
        .unwrap(),
    );
    resp.set_id(1200);
    resp.set_rcode(Rcode::NXDomain);
    resp.set_header_flag(HeaderFlag::RecursionDesired);
    resp
}

#[test]
fn test_message_cache() {
    let mut cache = MessageLruCache::new(100);
    let req = Request::new(Name::from_text(b"test.example.com.").unwrap(), RRType::A);
    assert!(cache.gen_response(&req, 0).is_none());
    cache.add_response(build_positive_response(), 0);
    let response = cache.gen_response(&req, 1).unwrap();
    assert_eq!(response.header.rcode, Rcode::NoError);
    assert!(is_flag_set(response.header.flag, HeaderFlag::QueryResponse));
    assert!(!is_flag_set(response.header.flag, HeaderFlag::AuthenticData));
    assert_eq!(response.header.an_count, 2);
    let answers = response.section(SectionType::Answer);
    assert_eq!(answers.len(), 1);
    assert_eq!(answers[0].rdatas[0], xdns::rrset::RData::A(0xC0000202));

    let req = Request::new(Name::from_text(b"example.com.").unwrap(), RRType::NS);
    assert!(cache.gen_response(&req, 1).is_none());
}

#[test]
fn test_positive_message() {
    let resp = build_positive_response();
    let entry = MessageEntry::new(&resp, 0);
    assert_eq!(entry.answer_rrset_count, 1);
    assert_eq!(entry.auth_rrset_count, 0);
    assert_eq!(entry.rrsets.len(), 1);
    assert!(entry.expire_time <= 3600);

    let req = Request::new(Name::from_text(b"test.example.com.").unwrap(), RRType::A);
    let response = entry.gen_response(&req, 1).unwrap();
    assert_eq!(response.header.qd_count, resp.header.qd_count);

    let gen_message_sections = response.section(SectionType::Answer);
    for (i, rrset) in resp.section(SectionType::Answer).iter().enumerate() {
        assert_eq!(rrset.typ, gen_message_sections[i].typ);
        assert_eq!(rrset.rdatas, gen_message_sections[i].rdatas);
        assert_eq!(rrset.name, gen_message_sections[i].name);
        assert!(rrset.ttl.0 > gen_message_sections[i].ttl.0);
    }
}

#[test]
fn test_negative_message() {
    let resp = build_negative_response();
    let entry = MessageEntry::new(&resp, 0);
    assert_eq!(entry.answer_rrset_count, 0);
    assert_eq!(entry.auth_rrset_count, 1);
    assert_eq!(entry.rrsets.len(), 1);
    assert!(entry.expire_time < 31);
    assert!(entry.expire_time > 20);

    let req = Request::new(Name::from_text(b"test.example.com.").unwrap(), RRType::A);
    let response = entry.gen_response(&req, 1).unwrap();
    assert_eq!(response.header.qd_count, resp.header.qd_count);
    assert_eq!(response.header.an_count, resp.header.an_count);
    assert_eq!(response.header.ns_count, resp.header.ns_count);

    for section in vec![SectionType::Authority] {
        let gen_message_sections = response.section(section);
        for (i, rrset) in resp.section(section).iter().enumerate() {
            assert_eq!(rrset.typ, gen_message_sections[i].typ);
            assert_eq!(rrset.rdatas, gen_message_sections[i].rdatas);
            assert_eq!(rrset.name, gen_message_sections[i].name);
            assert!(rrset.ttl.0 >= gen_message_sections[i].ttl.0);
        }
    }
}

#[test]
fn test_expired_entry_yields_nothing() {
    let mut cache = MessageLruCache::new(100);
    cache.add_response(build_negative_response(), 0);
    let req = Request::new(Name::from_text(b"test.example.com.").unwrap(), RRType::A);
    // The negative entry expires 30 seconds after insertion.
    assert!(cache.gen_response(&req, 29).is_some());
    assert!(cache.gen_response(&req, 30).is_none());
}

#[test]
fn test_ttl_clamps_at_one() {
    let resp = build_positive_response();
    let entry = MessageEntry::new(&resp, 0);
    // Replay in the last second before expiry: 3600 - 3599 = 1.
    let req = Request::new(Name::from_text(b"test.example.com.").unwrap(), RRType::A);
    let response = entry.gen_response(&req, 3599).unwrap();
    assert_eq!(response.section(SectionType::Answer)[0].ttl.0, 1);
    assert!(entry.gen_response(&req, 3600).is_none());
}

#[test]
fn test_lru_capacity_bound() {
    let mut cache = MessageLruCache::new(1);
    cache.add_response(build_positive_response(), 0);
    assert_eq!(cache.len(), 1);
    let mut other = Response::with_question(
        Name::from_text(b"other.example.com.").unwrap(),
        RRType::A,
    );
    other.add_rrset(
        SectionType::Answer,
        RRset::from_text(b"other.example.com. 60 IN A 9.9.9.9").unwrap(),
    );
    cache.add_response(other, 0);
    // The bound holds and the older key was the victim.
    assert_eq!(cache.len(), 1);
    let req = Request::new(Name::from_text(b"test.example.com.").unwrap(), RRType::A);
    assert!(cache.gen_response(&req, 1).is_none());
    let req = Request::new(Name::from_text(b"other.example.com.").unwrap(), RRType::A);
    assert!(cache.gen_response(&req, 1).is_some());
}

#[test]
fn test_duplicate_answer_keeps_live_entry() {
    let mut cache = MessageLruCache::new(10);
    cache.add_response(build_positive_response(), 0);
    // A second answer within the TTL does not refresh the entry.
    cache.add_response(build_positive_response(), 100);
    let req = Request::new(Name::from_text(b"test.example.com.").unwrap(), RRType::A);
    // The entry still expires 3600 seconds after the first insertion.
    assert!(cache.gen_response(&req, 3599).is_some());
    assert!(cache.gen_response(&req, 3600).is_none());
}
