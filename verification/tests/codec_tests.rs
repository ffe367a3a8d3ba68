//! Wire codec behaviour: encoding, decoding, and the round trip.

use xdns::name::Name;
use xdns::rrset::{RRset, RRType};
use xdns::message::{Request, Response, Rcode, SectionType};
use xdns::codec::{encode_request, encode_response, decode_request, decode_response};

fn single_record_response() -> Response {
    let mut resp = Response::with_question(
        Name::from_text(b"a.example.com").unwrap(),
        RRType::A,
    );
    resp.set_id(77);
    resp.make_response();
    resp.add_rrset(
        SectionType::Answer,
        RRset::from_text(b"a.example.com. 300 IN A 9.9.9.9").unwrap(),
    );
    resp.add_rrset(
        SectionType::Authority,
        RRset::from_text(b"example.com. 600 IN NS ns.example.com.").unwrap(),
    );
    resp.add_rrset(
        SectionType::Additional,
        RRset::from_text(b"ns.example.com. 600 IN A 1.1.1.1").unwrap(),
    );
    resp
}

#[test]
fn test_request_round_trip() {
    let mut req = Request::new(Name::from_text(b"a.example.com").unwrap(), RRType::AAAA);
    req.header.id = 321;
    let wire = encode_request(&req);
    let back = decode_request(&wire).unwrap();
    assert_eq!(back.header, req.header);
    assert!(back.question.name.equals(&req.question.name));
    assert_eq!(back.question.typ, req.question.typ);
}

#[test]
fn test_response_round_trip() {
    let resp = single_record_response();
    let wire = encode_response(&resp);
    let back = decode_response(&wire).unwrap();
    assert_eq!(back.header, resp.header);
    assert!(back.question.name.equals(&resp.question.name));
    assert_eq!(back.answers, resp.answers);
    assert_eq!(back.authorities, resp.authorities);
    assert_eq!(back.additionals, resp.additionals);
    // A second trip over the wire is bit-identical.
    let wire2 = encode_response(&back);
    assert_eq!(wire2, wire);
}

#[test]
fn test_decode_rejects_garbage() {
    assert!(decode_request(b"").is_none());
    assert!(decode_request(&[0u8; 11]).is_none());
    // A lone header without its question.
    let mut hdr = vec![0u8; 12];
    hdr[5] = 1;
    assert!(decode_request(&hdr).is_none());
    // A compression pointer in the name fails the parse.
    let mut msg = vec![0u8; 12];
    msg[5] = 1;
    msg.extend_from_slice(&[0xC0, 0x0C, 0, 1, 0, 1]);
    assert!(decode_request(&msg).is_none());
}

#[test]
fn test_decode_normalises_case() {
    let mut wire: Vec<u8> = vec![0, 7, 0, 0, 0, 1, 0, 0, 0, 0, 0, 0];
    wire.extend_from_slice(&[3, b'C', b'o', b'M', 0, 0, 1, 0, 1]);
    let req = decode_request(&wire).unwrap();
    assert!(req.question.name.equals(&Name::from_text(b"com").unwrap()));
}

#[test]
fn test_unmodelled_type_kept_raw() {
    // A TXT record: the codec carries its RDATA through as raw bytes.
    let mut wire: Vec<u8> = vec![0, 9, 0, 0, 0, 1, 0, 1, 0, 0, 0, 0];
    wire.extend_from_slice(&[1, b'a', 0, 0, 16, 0, 1]);
    wire.extend_from_slice(&[1, b'a', 0, 0, 16, 0, 1, 0, 0, 0, 60, 0, 4, 1, 2, 3, 4]);
    let resp = decode_response(&wire).unwrap();
    assert_eq!(resp.answers.len(), 1);
    assert_eq!(resp.answers[0].typ, RRType::TXT);
    assert_eq!(
        resp.answers[0].rdatas,
        vec![xdns::rrset::RData::Raw(vec![1, 2, 3, 4])]
    );
    // Re-encoding a decoded message is bit-exact.
    assert_eq!(encode_response(&resp), wire);
}
