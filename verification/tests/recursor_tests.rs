//! Recursor behaviour: query counting, forwarder lookup, and the cache on
//! the resolve path.

use xdns::name::Name;
use xdns::rrset::{RRset, RRType, RData};
use xdns::message::{Request, Response, Rcode, SectionType};
use xdns::recursor::{RecursorInner, LocalAction};
use xdns::query_statistic::QueryStatistic;

#[test]
fn test_query_info() {
    let mut info = QueryStatistic::new(10);
    let a_com = Name::from_text(b"a.com.").unwrap();
    let b_com = Name::from_text(b"b.com.").unwrap();
    let c_com = Name::from_text(b"c.com.").unwrap();
    info.add_query(&a_com);
    info.add_query(&a_com);
    info.add_query(&a_com);
    info.add_query(&b_com);
    info.add_query(&b_com);
    info.add_query(&c_com);
    let v = info.sort_and_clear();
    assert_eq!(v.len(), 3);
    assert_eq!(v[0].1, 3);
    assert_eq!(v[1].1, 2);
    assert_eq!(v[2].1, 1);
    assert_eq!(v[0].0, a_com);
    assert_eq!(info.len(), 0);
}

#[test]
fn test_sort_and_clear_twice_yields_empty() {
    let mut info = QueryStatistic::new(10);
    info.add_query(&Name::from_text(b"a.com.").unwrap());
    let first = info.sort_and_clear();
    assert_eq!(first.len(), 1);
    let second = info.sort_and_clear();
    assert_eq!(second.len(), 0);
}

#[test]
fn test_query_counter_capacity() {
    let mut info = QueryStatistic::new(2);
    info.add_query(&Name::from_text(b"a.com.").unwrap());
    info.add_query(&Name::from_text(b"b.com.").unwrap());
    info.add_query(&Name::from_text(b"c.com.").unwrap());
    assert_eq!(info.len(), 2);
}

fn upstream_answer() -> Response {
    let mut resp = Response::with_question(
        Name::from_text(b"a.example.com.").unwrap(),
        RRType::A,
    );
    resp.add_rrset(
        SectionType::Answer,
        RRset::from_text(b"a.example.com. 300 IN A 9.9.9.9").unwrap(),
    );
    resp.set_id(777);
    resp
}

#[test]
fn test_recursor_cache() {
    let mut rec = RecursorInner::new();
    rec.add_forward(
        Name::from_text(b"example.com").unwrap(),
        b"127.0.0.1:5300".to_vec(),
    );

    let mut req = Request::new(Name::from_text(b"a.example.com.").unwrap(), RRType::A);
    req.header.id = 51;

    // First query misses the cache and names the forwarder to ask.
    let addr = match rec.resolve_locally(&req, 0) {
        LocalAction::Forward(addr) => addr,
        LocalAction::Answered(_) => panic!(),
    };
    assert_eq!(addr, b"127.0.0.1:5300".to_vec());

    // The upstream reply is cached and handed back under the client's id.
    let reply = rec.on_forward_reply(&req, upstream_answer(), 0);
    assert_eq!(reply.header.id, 51);
    assert_eq!(reply.section(SectionType::Answer)[0].rdatas, vec![RData::A(0x09090909)]);

    // A second query within the TTL is answered from the cache with the
    // same data and a strictly smaller TTL.
    let answered = match rec.resolve_locally(&req, 5) {
        LocalAction::Answered(resp) => resp,
        LocalAction::Forward(_) => panic!(),
    };
    assert_eq!(answered.header.id, 51);
    let answers = answered.section(SectionType::Answer);
    assert_eq!(answers[0].rdatas, vec![RData::A(0x09090909)]);
    assert_eq!(answers[0].ttl.0, 295);
    assert!(answers[0].ttl.0 < 300);
}

#[test]
fn test_no_forwarder_is_server_failure() {
    let mut rec = RecursorInner::new();
    let mut req = Request::new(Name::from_text(b"a.example.com.").unwrap(), RRType::A);
    req.header.id = 9;
    match rec.resolve_locally(&req, 0) {
        LocalAction::Answered(resp) => {
            assert_eq!(resp.header.rcode, Rcode::ServFail);
            assert_eq!(resp.header.id, 9);
        },
        LocalAction::Forward(_) => panic!(),
    }
}

#[test]
fn test_longest_forwarder_wins() {
    let mut rec = RecursorInner::new();
    rec.add_forward(Name::from_text(b"com").unwrap(), b"10.0.0.1:53".to_vec());
    rec.add_forward(
        Name::from_text(b"example.com").unwrap(),
        b"10.0.0.2:53".to_vec(),
    );
    let deep = Name::from_text(b"a.example.com").unwrap();
    assert_eq!(rec.get_forward(&deep), Some(b"10.0.0.2:53".to_vec()));
    let shallow = Name::from_text(b"other.com").unwrap();
    assert_eq!(rec.get_forward(&shallow), Some(b"10.0.0.1:53".to_vec()));
    let outside = Name::from_text(b"example.net").unwrap();
    assert_eq!(rec.get_forward(&outside), None);
}
