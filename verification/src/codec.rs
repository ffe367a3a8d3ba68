//! The DNS wire codec: messages to and from their RFC 1035 byte form.
//!
//! The encoder writes names uncompressed and each RDATA item as one
//! resource record. The decoder reads uncompressed names (a compression
//! pointer fails the parse) and yields one record set per resource record,
//! with names normalised to lower case.

use vstd::prelude::*;
use crate::name::{Name, valid_labels, valid_label, labels_wire_len, lower_bytes, labels_view};
use crate::rrset::{
    RRset, RRsetV, RRType, RRTtl, RData, RDataV, SoaRdata, SoaV, type_code, type_of_code,
    rdata_wf, rrset_wf,
};
use crate::message::{Header, Question, QuestionV, Request, Response, ResponseV, Rcode,
    rcode_code, rcode_of_code, rcode_wf, total_rrs, section_view};

verus! {

pub open spec fn enc_u16(v: u16) -> Seq<u8> {
    seq![(v / 256) as u8, (v % 256) as u8]
}

pub open spec fn enc_u32(v: u32) -> Seq<u8> {
    seq![
        (v / 0x1000000) as u8,
        ((v / 0x10000) % 256) as u8,
        ((v / 0x100) % 256) as u8,
        (v % 256) as u8,
    ]
}

/// Labels in wire form: a length byte before each label.
pub open spec fn enc_labels(ls: Seq<Seq<u8>>) -> Seq<u8>
    decreases ls.len(),
{
    if ls.len() == 0 {
        Seq::empty()
    } else {
        seq![ls[0].len() as u8] + ls[0] + enc_labels(ls.skip(1))
    }
}

/// A name in wire form: its labels, then the root byte.
pub open spec fn enc_name(ls: Seq<Seq<u8>>) -> Seq<u8> {
    enc_labels(ls) + seq![0u8]
}

/// The 16-bit flag word: the stored flag bits with the response code in
/// the low nibble.
pub open spec fn flags_word(h: Header) -> u16 {
    h.flag | (rcode_code(h.rcode) as u16)
}

pub open spec fn enc_header(h: Header) -> Seq<u8> {
    enc_u16(h.id) + enc_u16(flags_word(h)) + enc_u16(h.qd_count) + enc_u16(h.an_count) + enc_u16(
        h.ns_count,
    ) + enc_u16(h.ar_count)
}

pub open spec fn enc_question(q: QuestionV) -> Seq<u8> {
    enc_name(q.name) + enc_u16(type_code(q.typ)) + enc_u16(1)
}

pub open spec fn enc_rdata(d: RDataV) -> Seq<u8> {
    match d {
        RDataV::A(a) => enc_u32(a),
        RDataV::Ns(n) => enc_name(n),
        RDataV::Soa(s) => enc_name(s.mname) + enc_name(s.rname) + enc_u32(s.serial) + enc_u32(
            s.refresh,
        ) + enc_u32(s.retry) + enc_u32(s.expire) + enc_u32(s.minimum),
        RDataV::Raw(b) => b,
    }
}

/// One resource record.
pub open spec fn enc_rr(owner: Seq<Seq<u8>>, typ: RRType, ttl: u32, d: RDataV) -> Seq<u8> {
    enc_name(owner) + enc_u16(type_code(typ)) + enc_u16(1) + enc_u32(ttl) + enc_u16(
        enc_rdata(d).len() as u16,
    ) + enc_rdata(d)
}

/// A record set: one resource record per RDATA item.
pub open spec fn enc_rrs(owner: Seq<Seq<u8>>, typ: RRType, ttl: u32, ds: Seq<RDataV>) -> Seq<u8>
    decreases ds.len(),
{
    if ds.len() == 0 {
        Seq::empty()
    } else {
        enc_rr(owner, typ, ttl, ds[0]) + enc_rrs(owner, typ, ttl, ds.skip(1))
    }
}

pub open spec fn enc_section(s: Seq<RRsetV>) -> Seq<u8>
    decreases s.len(),
{
    if s.len() == 0 {
        Seq::empty()
    } else {
        enc_rrs(s[0].name, s[0].typ, s[0].ttl, s[0].rdatas) + enc_section(s.skip(1))
    }
}

/// A whole response on the wire.
pub open spec fn enc_response(r: ResponseV) -> Seq<u8> {
    enc_header(r.header) + enc_question(r.question) + enc_section(r.answers) + enc_section(
        r.authorities,
    ) + enc_section(r.additionals)
}

/// A whole request on the wire: header and question.
pub open spec fn enc_request(h: Header, q: QuestionV) -> Seq<u8> {
    enc_header(h) + enc_question(q)
}

fn put_u16(out: &mut Vec<u8>, v: u16)
    ensures
        final(out)@ == old(out)@ + enc_u16(v),
{
    out.push((v / 256) as u8);
    out.push((v % 256) as u8);
    proof {
        assert(final(out)@ =~= old(out)@ + enc_u16(v));
    }
}

fn put_u32(out: &mut Vec<u8>, v: u32)
    ensures
        final(out)@ == old(out)@ + enc_u32(v),
{
    out.push((v / 0x1000000) as u8);
    out.push(((v / 0x10000) % 256) as u8);
    out.push(((v / 0x100) % 256) as u8);
    out.push((v % 256) as u8);
    proof {
        assert(final(out)@ =~= old(out)@ + enc_u32(v));
    }
}

proof fn lemma_enc_labels_concat(a: Seq<Seq<u8>>, b: Seq<Seq<u8>>)
    ensures
        enc_labels(a + b) == enc_labels(a) + enc_labels(b),
    decreases a.len(),
{
    if a.len() == 0 {
        assert(a + b =~= b);
        assert(enc_labels(a) + enc_labels(b) =~= enc_labels(b));
    } else {
        lemma_enc_labels_concat(a.skip(1), b);
        assert((a + b).skip(1) =~= a.skip(1) + b);
        assert((a + b)[0] == a[0]);
        assert(seq![a[0].len() as u8] + a[0] + (enc_labels(a.skip(1)) + enc_labels(b)) =~= (seq![
            a[0].len() as u8
        ] + a[0] + enc_labels(a.skip(1))) + enc_labels(b));
    }
}

/// The wire form of a name is exactly its wire length.
pub proof fn lemma_enc_name_len(ls: Seq<Seq<u8>>)
    ensures
        enc_name(ls).len() == labels_wire_len(ls),
    decreases ls.len(),
{
    if ls.len() == 0 {
    } else {
        lemma_enc_name_len(ls.skip(1));
    }
}

fn put_name(out: &mut Vec<u8>, name: &Name)
    requires
        valid_labels(name@),
    ensures
        final(out)@ == old(out)@ + enc_name(name@),
{
    let mut i: usize = 0;
    proof {
        assert(enc_labels(name@.take(0)) =~= Seq::<u8>::empty());
        assert(out@ =~= old(out)@ + enc_labels(name@.take(0)));
    }
    while i < name.labels.len()
        invariant
            i <= name.labels@.len(),
            name@.len() == name.labels@.len(),
            valid_labels(name@),
            out@ == old(out)@ + enc_labels(name@.take(i as int)),
        decreases name.labels@.len() - i,
    {
        let l = &name.labels[i];
        proof {
            assert(l@ == name@[i as int]);
            assert(valid_label(name@[i as int]));
        }
        out.push(l.len() as u8);
        crate::rrset::append_bytes(out, l);
        proof {
            assert(name@.take(i as int + 1) =~= name@.take(i as int) + seq![name@[i as int]]);
            lemma_enc_labels_concat(name@.take(i as int), seq![name@[i as int]]);
            assert(seq![name@[i as int]].skip(1) =~= Seq::<Seq<u8>>::empty());
            assert(enc_labels(Seq::<Seq<u8>>::empty()) =~= Seq::<u8>::empty());
            assert(enc_labels(seq![name@[i as int]]) =~= seq![name@[i as int].len() as u8]
                + name@[i as int]);
            assert(out@ =~= old(out)@ + enc_labels(name@.take(i as int + 1)));
        }
        i += 1;
    }
    out.push(0);
    proof {
        assert(name@.take(name.labels@.len() as int) =~= name@);
        assert(final(out)@ =~= old(out)@ + enc_name(name@));
    }
}

fn put_rdata(out: &mut Vec<u8>, d: &RData)
    requires
        rdata_wf(d@),
    ensures
        final(out)@ == old(out)@ + enc_rdata(d@),
{
    match d {
        RData::A(a) => {
            put_u32(out, *a);
        },
        RData::Ns(n) => {
            put_name(out, n);
        },
        RData::Soa(s) => {
            put_name(out, &s.mname);
            put_name(out, &s.rname);
            put_u32(out, s.serial);
            put_u32(out, s.refresh);
            put_u32(out, s.retry);
            put_u32(out, s.expire);
            put_u32(out, s.minimum);
        },
        RData::Raw(b) => {
            crate::rrset::append_bytes(out, b);
        },
    }
    proof {
        assert(final(out)@ =~= old(out)@ + enc_rdata(d@));
    }
}

/// The wire form of well-formed RDATA fits the 16-bit length field.
pub proof fn lemma_enc_rdata_len(d: RDataV)
    requires
        rdata_wf(d),
    ensures
        enc_rdata(d).len() <= 0xFFFF,
{
    match d {
        RDataV::A(_) => {},
        RDataV::Ns(n) => {
            lemma_enc_name_len(n);
        },
        RDataV::Soa(s) => {
            lemma_enc_name_len(s.mname);
            lemma_enc_name_len(s.rname);
        },
        RDataV::Raw(_) => {},
    }
}

fn put_rrset(out: &mut Vec<u8>, r: &RRset)
    requires
        rrset_wf(r@),
    ensures
        final(out)@ == old(out)@ + enc_rrs(r@.name, r@.typ, r@.ttl, r@.rdatas),
{
    let mut k: usize = 0;
    proof {
        assert(enc_rrs(r@.name, r@.typ, r@.ttl, r@.rdatas.take(0)) =~= Seq::<u8>::empty());
        assert(out@ =~= old(out)@ + enc_rrs(r@.name, r@.typ, r@.ttl, r@.rdatas.take(0)));
    }
    while k < r.rdatas.len()
        invariant
            k <= r.rdatas@.len(),
            r@.rdatas.len() == r.rdatas@.len(),
            rrset_wf(r@),
            out@ == old(out)@ + enc_rrs(r@.name, r@.typ, r@.ttl, r@.rdatas.take(k as int)),
        decreases r.rdatas@.len() - k,
    {
        let ghost pre = out@;
        put_name(out, &r.name);
        put_u16(out, r.typ.code());
        put_u16(out, 1);
        put_u32(out, r.ttl.0);
        let mut rd: Vec<u8> = Vec::new();
        put_rdata(&mut rd, &r.rdatas[k]);
        proof {
            assert(rd@ =~= enc_rdata(r@.rdatas[k as int]));
            lemma_enc_rdata_len(r@.rdatas[k as int]);
        }
        put_u16(out, rd.len() as u16);
        crate::rrset::append_bytes(out, &rd);
        proof {
            assert(out@ =~= pre + enc_rr(r@.name, r@.typ, r@.ttl, r@.rdatas[k as int]));
            lemma_enc_rrs_concat(
                r@.name,
                r@.typ,
                r@.ttl,
                r@.rdatas.take(k as int),
                seq![r@.rdatas[k as int]],
            );
            assert(seq![r@.rdatas[k as int]].skip(1) =~= Seq::<RDataV>::empty());
            assert(enc_rrs(r@.name, r@.typ, r@.ttl, Seq::<RDataV>::empty())
                =~= Seq::<u8>::empty());
            assert(enc_rrs(r@.name, r@.typ, r@.ttl, seq![r@.rdatas[k as int]]) =~= enc_rr(
                r@.name,
                r@.typ,
                r@.ttl,
                r@.rdatas[k as int],
            ));
            assert(r@.rdatas.take(k as int + 1) =~= r@.rdatas.take(k as int) + seq![
                r@.rdatas[k as int]
            ]);
            assert(out@ =~= old(out)@ + enc_rrs(
                r@.name,
                r@.typ,
                r@.ttl,
                r@.rdatas.take(k as int + 1),
            ));
        }
        k += 1;
    }
    proof {
        assert(r@.rdatas.take(r.rdatas@.len() as int) =~= r@.rdatas);
    }
}

proof fn lemma_enc_rrs_concat(
    owner: Seq<Seq<u8>>,
    typ: RRType,
    ttl: u32,
    a: Seq<RDataV>,
    b: Seq<RDataV>,
)
    ensures
        enc_rrs(owner, typ, ttl, a + b) == enc_rrs(owner, typ, ttl, a) + enc_rrs(
            owner,
            typ,
            ttl,
            b,
        ),
    decreases a.len(),
{
    if a.len() == 0 {
        assert(a + b =~= b);
        assert(enc_rrs(owner, typ, ttl, a) + enc_rrs(owner, typ, ttl, b) =~= enc_rrs(
            owner,
            typ,
            ttl,
            b,
        ));
    } else {
        lemma_enc_rrs_concat(owner, typ, ttl, a.skip(1), b);
        assert((a + b).skip(1) =~= a.skip(1) + b);
        assert((a + b)[0] == a[0]);
        assert(enc_rr(owner, typ, ttl, a[0]) + (enc_rrs(owner, typ, ttl, a.skip(1)) + enc_rrs(
            owner,
            typ,
            ttl,
            b,
        )) =~= (enc_rr(owner, typ, ttl, a[0]) + enc_rrs(owner, typ, ttl, a.skip(1))) + enc_rrs(
            owner,
            typ,
            ttl,
            b,
        ));
    }
}

proof fn lemma_enc_section_concat(a: Seq<RRsetV>, b: Seq<RRsetV>)
    ensures
        enc_section(a + b) == enc_section(a) + enc_section(b),
    decreases a.len(),
{
    if a.len() == 0 {
        assert(a + b =~= b);
        assert(enc_section(a) + enc_section(b) =~= enc_section(b));
    } else {
        lemma_enc_section_concat(a.skip(1), b);
        assert((a + b).skip(1) =~= a.skip(1) + b);
        assert((a + b)[0] == a[0]);
        let h = enc_rrs(a[0].name, a[0].typ, a[0].ttl, a[0].rdatas);
        assert(h + (enc_section(a.skip(1)) + enc_section(b)) =~= (h + enc_section(a.skip(1)))
            + enc_section(b));
    }
}

fn put_section(out: &mut Vec<u8>, s: &Vec<RRset>)
    requires
        forall|k: int| 0 <= k < s@.len() ==> rrset_wf((#[trigger] s@[k])@),
    ensures
        final(out)@ == old(out)@ + enc_section(section_view(*s)),
{
    let ghost sv = section_view(*s);
    let mut k: usize = 0;
    proof {
        assert(enc_section(sv.take(0)) =~= Seq::<u8>::empty());
        assert(out@ =~= old(out)@ + enc_section(sv.take(0)));
    }
    while k < s.len()
        invariant
            k <= s@.len(),
            sv == section_view(*s),
            sv.len() == s@.len(),
            forall|t: int| 0 <= t < s@.len() ==> rrset_wf((#[trigger] s@[t])@),
            out@ == old(out)@ + enc_section(sv.take(k as int)),
        decreases s@.len() - k,
    {
        let ghost pre = out@;
        put_rrset(out, &s[k]);
        proof {
            assert(s@[k as int]@ == sv[k as int]);
            lemma_enc_section_concat(sv.take(k as int), seq![sv[k as int]]);
            assert(seq![sv[k as int]].skip(1) =~= Seq::<RRsetV>::empty());
            assert(enc_section(Seq::<RRsetV>::empty()) =~= Seq::<u8>::empty());
            assert(enc_section(seq![sv[k as int]]) =~= enc_rrs(
                sv[k as int].name,
                sv[k as int].typ,
                sv[k as int].ttl,
                sv[k as int].rdatas,
            ));
            assert(sv.take(k as int + 1) =~= sv.take(k as int) + seq![sv[k as int]]);
            assert(out@ =~= old(out)@ + enc_section(sv.take(k as int + 1)));
        }
        k += 1;
    }
    proof {
        assert(sv.take(s@.len() as int) =~= sv);
    }
}

fn put_header(out: &mut Vec<u8>, h: &Header)
    requires
        rcode_wf(h.rcode),
    ensures
        final(out)@ == old(out)@ + enc_header(*h),
{
    put_u16(out, h.id);
    let word = h.flag | (h.rcode.code() as u16);
    put_u16(out, word);
    put_u16(out, h.qd_count);
    put_u16(out, h.an_count);
    put_u16(out, h.ns_count);
    put_u16(out, h.ar_count);
    proof {
        assert(final(out)@ =~= old(out)@ + enc_header(*h));
    }
}

/// Encode a response for the wire.
pub fn encode_response(resp: &Response) -> (r: Vec<u8>)
    requires
        resp.wf(),
    ensures
        r@ == enc_response(resp@),
{
    let mut out: Vec<u8> = Vec::new();
    proof {
        assert forall|k: int| 0 <= k < resp.answers@.len() implies rrset_wf(
            (#[trigger] resp.answers@[k])@,
        ) by {
            assert(resp@.answers[k] == resp.answers@[k]@);
        }
        assert forall|k: int| 0 <= k < resp.authorities@.len() implies rrset_wf(
            (#[trigger] resp.authorities@[k])@,
        ) by {
            assert(resp@.authorities[k] == resp.authorities@[k]@);
        }
        assert forall|k: int| 0 <= k < resp.additionals@.len() implies rrset_wf(
            (#[trigger] resp.additionals@[k])@,
        ) by {
            assert(resp@.additionals[k] == resp.additionals@[k]@);
        }
    }
    put_header(&mut out, &resp.header);
    put_name(&mut out, &resp.question.name);
    put_u16(&mut out, resp.question.typ.code());
    put_u16(&mut out, 1);
    put_section(&mut out, &resp.answers);
    put_section(&mut out, &resp.authorities);
    put_section(&mut out, &resp.additionals);
    proof {
        assert(out@ =~= enc_response(resp@));
    }
    out
}

/// Encode a request for the wire.
pub fn encode_request(req: &Request) -> (r: Vec<u8>)
    requires
        req.wf(),
        rcode_wf(req.header.rcode),
    ensures
        r@ == enc_request(req.header, req.question@),
{
    let mut out: Vec<u8> = Vec::new();
    put_header(&mut out, &req.header);
    put_name(&mut out, &req.question.name);
    put_u16(&mut out, req.question.typ.code());
    put_u16(&mut out, 1);
    proof {
        assert(out@ =~= enc_request(req.header, req.question@));
    }
    out
}


pub open spec fn dec_u16(b: Seq<u8>, p: int) -> int {
    b[p] * 256 + b[p + 1]
}

pub open spec fn dec_u32(b: Seq<u8>, p: int) -> int {
    b[p] * 0x1000000 + b[p + 1] * 0x10000 + b[p + 2] * 0x100 + b[p + 3]
}

/// Read an uncompressed name at `p`: length-prefixed labels, lower-cased,
/// up to the root byte. A compression pointer or truncated label fails.
pub open spec fn dec_name(b: Seq<u8>, p: int) -> Option<(Seq<Seq<u8>>, int)>
    decreases b.len() - p,
{
    if p < 0 || p >= b.len() {
        None
    } else if b[p] == 0 {
        Some((Seq::<Seq<u8>>::empty(), p + 1))
    } else if 1 <= b[p] <= 63 && p + 1 + b[p] <= b.len() {
        let lab = lower_bytes(b.subrange(p + 1, p + 1 + b[p]));
        match dec_name(b, p + 1 + b[p]) {
            None => None,
            Some(pr) => Some((seq![lab] + pr.0, pr.1)),
        }
    } else {
        None
    }
}

pub open spec fn dec_header(b: Seq<u8>) -> Option<Header> {
    if b.len() >= 12 {
        let w = dec_u16(b, 2);
        Some(
            Header {
                id: dec_u16(b, 0) as u16,
                flag: (w as u16) & 0xFFF0,
                rcode: rcode_of_code((w % 16) as u8),
                qd_count: dec_u16(b, 4) as u16,
                an_count: dec_u16(b, 6) as u16,
                ns_count: dec_u16(b, 8) as u16,
                ar_count: dec_u16(b, 10) as u16,
            },
        )
    } else {
        None
    }
}

pub open spec fn dec_question(b: Seq<u8>, p: int) -> Option<(QuestionV, int)> {
    match dec_name(b, p) {
        None => None,
        Some(pr) => if valid_labels(pr.0) && pr.1 + 4 <= b.len() && dec_u16(b, pr.1 + 2) == 1 {
            Some((QuestionV { name: pr.0, typ: type_of_code(dec_u16(b, pr.1) as u16) }, pr.1 + 4))
        } else {
            None
        },
    }
}

/// Read the RDATA of one record. Types the library models are decoded;
/// other types are kept as raw bytes.
pub open spec fn dec_rdata(b: Seq<u8>, typ: RRType, p: int, rdlen: int) -> Option<RDataV> {
    match typ {
        RRType::A => if rdlen == 4 {
            Some(RDataV::A(dec_u32(b, p) as u32))
        } else {
            None
        },
        RRType::NS => match dec_name(b, p) {
            Some(pr) => if pr.1 == p + rdlen && valid_labels(pr.0) {
                Some(RDataV::Ns(pr.0))
            } else {
                None
            },
            None => None,
        },
        RRType::SOA => match dec_name(b, p) {
            Some(m) => match dec_name(b, m.1) {
                Some(rn) => if rn.1 + 20 == p + rdlen && valid_labels(m.0) && valid_labels(rn.0) {
                    Some(
                        RDataV::Soa(
                            SoaV {
                                mname: m.0,
                                rname: rn.0,
                                serial: dec_u32(b, rn.1) as u32,
                                refresh: dec_u32(b, rn.1 + 4) as u32,
                                retry: dec_u32(b, rn.1 + 8) as u32,
                                expire: dec_u32(b, rn.1 + 12) as u32,
                                minimum: dec_u32(b, rn.1 + 16) as u32,
                            },
                        ),
                    )
                } else {
                    None
                },
                None => None,
            },
            None => None,
        },
        _ => Some(RDataV::Raw(b.subrange(p, p + rdlen))),
    }
}

/// Read one resource record as a record set with a single RDATA item.
pub open spec fn dec_rr(b: Seq<u8>, p: int) -> Option<(RRsetV, int)> {
    match dec_name(b, p) {
        None => None,
        Some(pr) => {
            let p1 = pr.1;
            if valid_labels(pr.0) && p1 + 10 <= b.len() && dec_u16(b, p1 + 2) == 1 && p1 + 10
                + dec_u16(b, p1 + 8) <= b.len() {
                let typ = type_of_code(dec_u16(b, p1) as u16);
                let rdlen = dec_u16(b, p1 + 8);
                match dec_rdata(b, typ, p1 + 10, rdlen) {
                    None => None,
                    Some(d) => Some(
                        (
                            RRsetV {
                                name: pr.0,
                                typ,
                                ttl: dec_u32(b, p1 + 4) as u32,
                                rdatas: seq![d],
                            },
                            p1 + 10 + rdlen,
                        ),
                    ),
                }
            } else {
                None
            }
        },
    }
}

/// Read `n` resource records.
pub open spec fn dec_rrs(b: Seq<u8>, p: int, n: int) -> Option<(Seq<RRsetV>, int)>
    decreases n,
{
    if n <= 0 {
        Some((Seq::<RRsetV>::empty(), p))
    } else {
        match dec_rr(b, p) {
            None => None,
            Some(pr) => match dec_rrs(b, pr.1, n - 1) {
                None => None,
                Some(rest) => Some((seq![pr.0] + rest.0, rest.1)),
            },
        }
    }
}

/// What a whole wire response denotes, when every byte is consumed.
pub open spec fn dec_response(b: Seq<u8>) -> Option<ResponseV> {
    match dec_header(b) {
        None => None,
        Some(h) => if h.qd_count != 1 {
            None
        } else {
            match dec_question(b, 12) {
                None => None,
                Some(q) => match dec_rrs(b, q.1, h.an_count as int) {
                    None => None,
                    Some(ans) => match dec_rrs(b, ans.1, h.ns_count as int) {
                        None => None,
                        Some(auth) => match dec_rrs(b, auth.1, h.ar_count as int) {
                            None => None,
                            Some(add) => if add.1 == b.len() {
                                Some(
                                    ResponseV {
                                        header: h,
                                        question: q.0,
                                        answers: ans.0,
                                        authorities: auth.0,
                                        additionals: add.0,
                                    },
                                )
                            } else {
                                None
                            },
                        },
                    },
                },
            }
        },
    }
}

/// What a wire request denotes: header and question; anything after the
/// question (such as an EDNS additional record) is ignored.
pub open spec fn dec_request(b: Seq<u8>) -> Option<(Header, QuestionV)> {
    match dec_header(b) {
        None => None,
        Some(h) => if h.qd_count != 1 {
            None
        } else {
            match dec_question(b, 12) {
                None => None,
                Some(q) => Some((h, q.0)),
            }
        },
    }
}

/// A decoded name consumes at least its root byte.
proof fn lemma_dec_name_advances(b: Seq<u8>, p: int)
    requires
        dec_name(b, p) is Some,
    ensures
        p < dec_name(b, p)->Some_0.1 <= b.len(),
    decreases b.len() - p,
{
    if b[p] == 0 {
    } else {
        lemma_dec_name_advances(b, p + 1 + b[p]);
    }
}

fn read_u16(b: &[u8], p: usize) -> (r: u16)
    requires
        p + 2 <= b@.len(),
    ensures
        r == dec_u16(b@, p as int),
{
    (b[p] as u16) * 256 + (b[p + 1] as u16)
}

fn read_u32(b: &[u8], p: usize) -> (r: u32)
    requires
        p + 4 <= b@.len(),
    ensures
        r == dec_u32(b@, p as int),
{
    (b[p] as u32) * 0x1000000 + (b[p + 1] as u32) * 0x10000 + (b[p + 2] as u32) * 0x100 + (b[p
        + 3] as u32)
}

/// Read an uncompressed name, yielding its lower-cased labels and the
/// position after the root byte.
fn read_name_labels(b: &[u8], p: usize) -> (r: Option<(Vec<Vec<u8>>, usize)>)
    ensures
        match r {
            Some(pr) => dec_name(b@, p as int) == Some((labels_view(pr.0), pr.1 as int))
                && pr.1 <= b@.len(),
            None => dec_name(b@, p as int) is None,
        },
{
    let mut labels: Vec<Vec<u8>> = Vec::new();
    let mut pos: usize = p;
    proof {
        assert(labels_view(labels) =~= Seq::<Seq<u8>>::empty());
    }
    loop
        invariant
            p <= pos,
            dec_name(b@, p as int) == match dec_name(b@, pos as int) {
                Some(pr) => Some::<(Seq<Seq<u8>>, int)>((labels_view(labels) + pr.0, pr.1)),
                None => None::<(Seq<Seq<u8>>, int)>,
            },
        decreases b@.len() - pos,
    {
        if pos >= b.len() {
            return None;
        }
        let lb = b[pos];
        if lb == 0 {
            proof {
                assert(labels_view(labels) + Seq::<Seq<u8>>::empty() =~= labels_view(labels));
            }
            return Some((labels, pos + 1));
        }
        if lb > 63 {
            return None;
        }
        if b.len() - pos - 1 < lb as usize {
            return None;
        }
        let end = pos + 1 + lb as usize;
        let mut lab: Vec<u8> = Vec::new();
        let mut j: usize = pos + 1;
        proof {
            assert(lab@ =~= lower_bytes(b@.subrange(pos as int + 1, pos as int + 1)));
        }
        while j < end
            invariant
                pos + 1 <= j <= end <= b@.len(),
                lab@ == lower_bytes(b@.subrange(pos as int + 1, j as int)),
            decreases end - j,
        {
            lab.push(crate::name::lower_byte_x(b[j]));
            proof {
                assert(lab@ =~= lower_bytes(b@.subrange(pos as int + 1, j as int + 1)));
            }
            j += 1;
        }
        let ghost lv = labels_view(labels);
        let ghost labv = lab@;
        labels.push(lab);
        proof {
            assert(labels_view(labels) =~= lv + seq![labv]);
            if dec_name(b@, end as int) is Some {
                let pr = dec_name(b@, end as int)->Some_0;
                assert(lv + (seq![labv] + pr.0) =~= (lv + seq![labv]) + pr.0);
            }
        }
        pos = end;
    }
}

/// Clearing the low nibble leaves it clear, and the low nibble of a word
/// is below sixteen.
proof fn lemma_flag_nibble(w: u16)
    ensures
        (w & 0xFFF0) & 0xF == 0,
        w % 16 < 16,
        (w & 0xFFF0) | ((w % 16) as u16) == w,
        (w & 0xFFF0) | (((w % 16) as u16) as u16) == w,
{
    assert((w & 0xFFF0) & 0xF == 0) by (bit_vector);
    assert((w & 0xFFF0) | (w % 16) == w) by (bit_vector);
}

fn read_header(b: &[u8]) -> (r: Option<Header>)
    ensures
        r == dec_header(b@),
        r is Some ==> rcode_wf(r->Some_0.rcode) && r->Some_0.flag & 0xF == 0,
{
    if b.len() < 12 {
        return None;
    }
    let w = read_u16(b, 2);
    proof {
        lemma_flag_nibble(w);
    }
    Some(
        Header {
            id: read_u16(b, 0),
            flag: w & 0xFFF0,
            rcode: Rcode::from_code((w % 16) as u8),
            qd_count: read_u16(b, 4),
            an_count: read_u16(b, 6),
            ns_count: read_u16(b, 8),
            ar_count: read_u16(b, 10),
        },
    )
}

fn read_question(b: &[u8], p: usize) -> (r: Option<(Question, usize)>)
    ensures
        match r {
            Some(pr) => {
                &&& dec_question(b@, p as int) == Some((pr.0@, pr.1 as int))
                &&& pr.0.wf()
                &&& pr.1 <= b@.len()
            },
            None => dec_question(b@, p as int) is None,
        },
{
    let (labels, p1) = match read_name_labels(b, p) {
        Some(pr) => pr,
        None => {
            return None;
        },
    };
    let name = match Name::from_labels(labels) {
        Some(n) => n,
        None => {
            return None;
        },
    };
    if b.len() - p1 < 4 {
        return None;
    }
    if read_u16(b, p1 + 2) != 1 {
        return None;
    }
    let typ = RRType::from_code(read_u16(b, p1));
    Some((Question::new(name, typ), p1 + 4))
}

fn read_rr(b: &[u8], p: usize) -> (r: Option<(RRset, usize)>)
    ensures
        match r {
            Some(pr) => {
                &&& dec_rr(b@, p as int) == Some((pr.0@, pr.1 as int))
                &&& rrset_wf(pr.0@)
                &&& pr.0@.rdatas.len() == 1
                &&& p < pr.1 <= b@.len()
            },
            None => dec_rr(b@, p as int) is None,
        },
{
    let (labels, p1) = match read_name_labels(b, p) {
        Some(pr) => pr,
        None => {
            return None;
        },
    };
    let owner = match Name::from_labels(labels) {
        Some(n) => n,
        None => {
            return None;
        },
    };
    if b.len() - p1 < 10 {
        return None;
    }
    if read_u16(b, p1 + 2) != 1 {
        return None;
    }
    let rdlen = read_u16(b, p1 + 8) as usize;
    if b.len() - p1 - 10 < rdlen {
        return None;
    }
    let typ = RRType::from_code(read_u16(b, p1));
    let ttl = read_u32(b, p1 + 4);
    let p2 = p1 + 10;
    let rdata: RData = match typ {
        RRType::A => {
            if rdlen != 4 {
                return None;
            }
            RData::A(read_u32(b, p2))
        },
        RRType::NS => {
            let (nls, q) = match read_name_labels(b, p2) {
                Some(pr) => pr,
                None => {
                    return None;
                },
            };
            if q != p2 + rdlen {
                return None;
            }
            match Name::from_labels(nls) {
                Some(n) => RData::Ns(n),
                None => {
                    return None;
                },
            }
        },
        RRType::SOA => {
            let (mls, q1) = match read_name_labels(b, p2) {
                Some(pr) => pr,
                None => {
                    return None;
                },
            };
            let (rls, q2) = match read_name_labels(b, q1) {
                Some(pr) => pr,
                None => {
                    return None;
                },
            };
            if q2 > usize::MAX - 20 || q2 + 20 != p2 + rdlen {
                return None;
            }
            let mname = match Name::from_labels(mls) {
                Some(n) => n,
                None => {
                    return None;
                },
            };
            let rname = match Name::from_labels(rls) {
                Some(n) => n,
                None => {
                    return None;
                },
            };
            RData::Soa(
                SoaRdata {
                    mname,
                    rname,
                    serial: read_u32(b, q2),
                    refresh: read_u32(b, q2 + 4),
                    retry: read_u32(b, q2 + 8),
                    expire: read_u32(b, q2 + 12),
                    minimum: read_u32(b, q2 + 16),
                },
            )
        },
        _ => {
            RData::Raw(crate::text::copy_range(b, p2, p2 + rdlen))
        },
    };
    let mut rdatas: Vec<RData> = Vec::new();
    rdatas.push(rdata);
    let rr = RRset { name: owner, typ, ttl: RRTtl(ttl), rdatas };
    proof {
        lemma_dec_name_advances(b@, p as int);
        assert(rr@.rdatas =~= seq![rr@.rdatas[0]]);
        assert(dec_rdata(b@, typ, p2 as int, rdlen as int) == Some(rr@.rdatas[0]));
    }
    Some((rr, p2 + rdlen))
}

fn read_rrs(b: &[u8], p: usize, n: u16) -> (r: Option<(Vec<RRset>, usize)>)
    requires
        p <= b@.len(),
    ensures
        match r {
            Some(pr) => {
                &&& dec_rrs(b@, p as int, n as int) == Some((section_view(pr.0), pr.1 as int))
                &&& pr.1 <= b@.len()
                &&& section_view(pr.0).len() == n
                &&& total_rrs(section_view(pr.0)) == n
                &&& forall|k: int|
                    0 <= k < section_view(pr.0).len() ==> rrset_wf(
                        #[trigger] section_view(pr.0)[k],
                    )
            },
            None => dec_rrs(b@, p as int, n as int) is None,
        },
{
    let mut out: Vec<RRset> = Vec::new();
    let mut pos: usize = p;
    let mut i: u16 = 0;
    proof {
        assert(section_view(out) =~= Seq::<RRsetV>::empty());
        assert(total_rrs(Seq::<RRsetV>::empty()) == 0);
    }
    while i < n
        invariant
            i <= n,
            p <= pos <= b@.len(),
            section_view(out).len() == i,
            total_rrs(section_view(out)) == i,
            forall|k: int|
                0 <= k < section_view(out).len() ==> rrset_wf(#[trigger] section_view(out)[k]),
            dec_rrs(b@, p as int, n as int) == match dec_rrs(b@, pos as int, n - i) {
                Some(pr) => Some::<(Seq<RRsetV>, int)>((section_view(out) + pr.0, pr.1)),
                None => None::<(Seq<RRsetV>, int)>,
            },
        decreases n - i,
    {
        let ghost ov = section_view(out);
        let (rr, q) = match read_rr(b, pos) {
            Some(pr) => pr,
            None => {
                return None;
            },
        };
        let ghost rrv = rr@;
        proof {
            crate::message::lemma_total_rrs_parts(ov, seq![rrv]);
            assert(seq![rrv].skip(1) =~= Seq::<RRsetV>::empty());
            assert(total_rrs(Seq::<RRsetV>::empty()) == 0);
            if dec_rrs(b@, q as int, n - i - 1) is Some {
                let rest = dec_rrs(b@, q as int, n - i - 1)->Some_0;
                assert(ov + (seq![rrv] + rest.0) =~= (ov + seq![rrv]) + rest.0);
            }
        }
        out.push(rr);
        proof {
            assert(section_view(out) =~= ov + seq![rrv]);
            assert(ov + seq![rrv] =~= ov.push(rrv));
        }
        pos = q;
        i += 1;
    }
    proof {
        assert(section_view(out) + Seq::<RRsetV>::empty() =~= section_view(out));
    }
    Some((out, pos))
}

/// Decode a wire response. The result is well formed; its header counts
/// come from the wire and match the decoded sections.
pub fn decode_response(b: &[u8]) -> (r: Option<Response>)
    ensures
        match r {
            Some(resp) => dec_response(b@) == Some(resp@) && resp.wf(),
            None => dec_response(b@) is None,
        },
{
    let h = match read_header(b) {
        Some(h) => h,
        None => {
            return None;
        },
    };
    if h.qd_count != 1 {
        return None;
    }
    let (question, p1) = match read_question(b, 12) {
        Some(pr) => pr,
        None => {
            return None;
        },
    };
    let (answers, p2) = match read_rrs(b, p1, h.an_count) {
        Some(pr) => pr,
        None => {
            return None;
        },
    };
    let (authorities, p3) = match read_rrs(b, p2, h.ns_count) {
        Some(pr) => pr,
        None => {
            return None;
        },
    };
    let (additionals, p4) = match read_rrs(b, p3, h.ar_count) {
        Some(pr) => pr,
        None => {
            return None;
        },
    };
    if p4 != b.len() {
        return None;
    }
    let resp = Response { header: h, question, answers, authorities, additionals };
    Some(resp)
}

/// Decode a wire request: header and question; trailing records are
/// ignored.
pub fn decode_request(b: &[u8]) -> (r: Option<Request>)
    ensures
        match r {
            Some(req) => dec_request(b@) == Some((req.header, req.question@)) && req.wf()
                && req.header.flag & 0xF == 0 && rcode_wf(req.header.rcode),
            None => dec_request(b@) is None,
        },
{
    let h = match read_header(b) {
        Some(h) => h,
        None => {
            return None;
        },
    };
    if h.qd_count != 1 {
        return None;
    }
    let (question, _p1) = match read_question(b, 12) {
        Some(pr) => pr,
        None => {
            return None;
        },
    };
    Some(Request { header: h, question })
}


/// Lower-casing leaves an already-normalised label unchanged.
proof fn lemma_lower_of_valid(l: Seq<u8>)
    requires
        valid_label(l),
    ensures
        lower_bytes(l) == l,
{
    assert(lower_bytes(l) =~= l);
}

/// Decoding reads back exactly the name that was encoded at `p`.
proof fn lemma_dec_enc_name(b: Seq<u8>, p: int, ls: Seq<Seq<u8>>)
    requires
        valid_labels(ls),
        0 <= p,
        p + enc_name(ls).len() <= b.len(),
        b.subrange(p, p + enc_name(ls).len()) == enc_name(ls),
    ensures
        dec_name(b, p) == Some((ls, p + enc_name(ls).len())),
    decreases ls.len(),
{
    let e = enc_name(ls);
    if ls.len() == 0 {
        assert(e =~= seq![0u8]);
        assert(b[p] == e[0]);
    } else {
        assert(valid_label(ls[0]));
        let l0 = ls[0].len() as int;
        assert(e[0] == l0 as u8);
        assert(b[p] == l0 as u8);
        assert(1 <= b[p] <= 63);
        assert forall|t: int| 0 <= t < l0 implies b[p + 1 + t] == ls[0][t] by {
            assert(e[1 + t] == (seq![ls[0].len() as u8] + ls[0] + enc_labels(ls.skip(1)))[1 + t]);
            assert(e[1 + t] == ls[0][t]);
            assert(b[p + 1 + t] == e[1 + t]);
        }
        assert(b.subrange(p + 1, p + 1 + l0) =~= ls[0]);
        lemma_lower_of_valid(ls[0]);
        let rest = ls.skip(1);
        assert(valid_labels(rest)) by {
            assert forall|t: int| 0 <= t < rest.len() implies valid_label(
                #[trigger] rest[t],
            ) by {
                assert(rest[t] == ls[t + 1]);
            }
            crate::name::lemma_wire_len_parts(seq![ls[0]], rest);
            assert(seq![ls[0]] + rest =~= ls);
        }
        let re = enc_name(rest);
        assert(e =~= seq![ls[0].len() as u8] + ls[0] + enc_labels(rest) + seq![0u8]);
        assert forall|t: int| 0 <= t < re.len() implies b[p + 1 + l0 + t] == re[t] by {
            assert(re[t] == (enc_labels(rest) + seq![0u8])[t]);
            assert(e[1 + l0 + t] == (enc_labels(rest) + seq![0u8])[t]);
            assert(b[p + 1 + l0 + t] == e[1 + l0 + t]);
        }
        assert(b.subrange(p + 1 + l0, p + 1 + l0 + re.len()) =~= re);
        lemma_dec_enc_name(b, p + 1 + l0, rest);
        assert(seq![lower_bytes(b.subrange(p + 1, p + 1 + l0))] + rest =~= ls);
        assert(e.len() == 1 + l0 + re.len());
    }
}

/// Every RDATA item carries the variant its record type calls for (raw
/// bytes for types the library does not model).
pub open spec fn rdata_matches(typ: RRType, d: RDataV) -> bool {
    match typ {
        RRType::A => d is A,
        RRType::NS => d is Ns,
        RRType::SOA => d is Soa,
        _ => d is Raw,
    }
}

/// The single-record form that decoding yields: one RDATA item per record
/// set, with the matching variant.
pub open spec fn single_record_form(s: Seq<RRsetV>) -> bool {
    forall|k: int|
        0 <= k < s.len() ==> (#[trigger] s[k]).rdatas.len() == 1 && rdata_matches(
            s[k].typ,
            s[k].rdatas[0],
        )
}

proof fn lemma_dec_enc_u16(b: Seq<u8>, p: int, v: u16)
    requires
        0 <= p,
        p + 2 <= b.len(),
        b.subrange(p, p + 2) == enc_u16(v),
    ensures
        dec_u16(b, p) == v,
{
    assert(b[p] == enc_u16(v)[0]);
    assert(b[p + 1] == enc_u16(v)[1]);
}

proof fn lemma_dec_enc_u32(b: Seq<u8>, p: int, v: u32)
    requires
        0 <= p,
        p + 4 <= b.len(),
        b.subrange(p, p + 4) == enc_u32(v),
    ensures
        dec_u32(b, p) == v,
{
    assert(b[p] == enc_u32(v)[0]);
    assert(b[p + 1] == enc_u32(v)[1]);
    assert(b[p + 2] == enc_u32(v)[2]);
    assert(b[p + 3] == enc_u32(v)[3]);
}

/// Decoding reads back exactly the RDATA that was encoded at `p`.
#[verifier::rlimit(100)]
#[verifier::spinoff_prover]
proof fn lemma_dec_enc_rdata(b: Seq<u8>, p: int, typ: RRType, d: RDataV)
    requires
        rdata_wf(d),
        rdata_matches(typ, d),
        0 <= p,
        p + enc_rdata(d).len() <= b.len(),
        b.subrange(p, p + enc_rdata(d).len()) == enc_rdata(d),
    ensures
        dec_rdata(b, typ, p, enc_rdata(d).len() as int) == Some(d),
{
    let rde = enc_rdata(d);
    let p2 = p;
    assert forall|t: int| 0 <= t < rde.len() implies (#[trigger] b[p2 + t]) == rde[t] by {}
    match d {
        RDataV::A(a) => {
            assert(b.subrange(p2, p2 + 4) =~= enc_u32(a));
            lemma_dec_enc_u32(b, p2, a);
        },
        RDataV::Ns(n) => {
            lemma_dec_enc_name(b, p2, n);
        },
        RDataV::Soa(sv) => {
            let m1 = enc_name(sv.mname);
            let m2 = enc_name(sv.rname);
            assert forall|t: int| 0 <= t < m1.len() implies (#[trigger] b[p2 + t]) == m1[t] by {
                assert(rde[t] == m1[t]);
            }
            assert(b.subrange(p2, p2 + m1.len() as int) =~= m1);
            lemma_dec_enc_name(b, p2, sv.mname);
            let q1 = p2 + m1.len() as int;
            assert forall|t: int| 0 <= t < m2.len() implies (#[trigger] b[q1 + t]) == m2[t] by {
                assert(rde[m1.len() + t] == (m1 + m2)[m1.len() + t]);
                assert((m1 + m2)[m1.len() + t] == m2[t]);
            }
            assert(rde.len() == m1.len() + m2.len() + 20);
            assert forall|t: int|
                0 <= t < m2.len() implies b.subrange(q1, q1 + m2.len() as int)[t] == m2[t] by {
                assert(b.subrange(q1, q1 + m2.len() as int)[t] == b[q1 + t]);
            }
            assert(b.subrange(q1, q1 + m2.len() as int) =~= m2);
            lemma_dec_enc_name(b, q1, sv.rname);
            let q2 = q1 + m2.len() as int;
            assert forall|t: int| 0 <= t < 20 implies (#[trigger] b[q2 + t]) == rde[m1.len()
                + m2.len() + t] by {}
            assert(rde[m1.len() as int + m2.len() as int + 0] == enc_u32(sv.serial)[0]);
            assert(rde[m1.len() as int + m2.len() as int + 1] == enc_u32(sv.serial)[1]);
            assert(rde[m1.len() as int + m2.len() as int + 2] == enc_u32(sv.serial)[2]);
            assert(rde[m1.len() as int + m2.len() as int + 3] == enc_u32(sv.serial)[3]);
            assert(rde[m1.len() as int + m2.len() as int + 4] == enc_u32(sv.refresh)[0]);
            assert(rde[m1.len() as int + m2.len() as int + 5] == enc_u32(sv.refresh)[1]);
            assert(rde[m1.len() as int + m2.len() as int + 6] == enc_u32(sv.refresh)[2]);
            assert(rde[m1.len() as int + m2.len() as int + 7] == enc_u32(sv.refresh)[3]);
            assert(rde[m1.len() as int + m2.len() as int + 8] == enc_u32(sv.retry)[0]);
            assert(rde[m1.len() as int + m2.len() as int + 9] == enc_u32(sv.retry)[1]);
            assert(rde[m1.len() as int + m2.len() as int + 10] == enc_u32(sv.retry)[2]);
            assert(rde[m1.len() as int + m2.len() as int + 11] == enc_u32(sv.retry)[3]);
            assert(rde[m1.len() as int + m2.len() as int + 12] == enc_u32(sv.expire)[0]);
            assert(rde[m1.len() as int + m2.len() as int + 13] == enc_u32(sv.expire)[1]);
            assert(rde[m1.len() as int + m2.len() as int + 14] == enc_u32(sv.expire)[2]);
            assert(rde[m1.len() as int + m2.len() as int + 15] == enc_u32(sv.expire)[3]);
            assert(rde[m1.len() as int + m2.len() as int + 16] == enc_u32(sv.minimum)[0]);
            assert(rde[m1.len() as int + m2.len() as int + 17] == enc_u32(sv.minimum)[1]);
            assert(rde[m1.len() as int + m2.len() as int + 18] == enc_u32(sv.minimum)[2]);
            assert(rde[m1.len() as int + m2.len() as int + 19] == enc_u32(sv.minimum)[3]);
            assert(b.subrange(q2, q2 + 4) =~= enc_u32(sv.serial));
            lemma_dec_enc_u32(b, q2, sv.serial);
            assert(b.subrange(q2 + 4, q2 + 8) =~= enc_u32(sv.refresh));
            lemma_dec_enc_u32(b, q2 + 4, sv.refresh);
            assert(b.subrange(q2 + 8, q2 + 12) =~= enc_u32(sv.retry));
            lemma_dec_enc_u32(b, q2 + 8, sv.retry);
            assert(b.subrange(q2 + 12, q2 + 16) =~= enc_u32(sv.expire));
            lemma_dec_enc_u32(b, q2 + 12, sv.expire);
            assert(b.subrange(q2 + 16, q2 + 20) =~= enc_u32(sv.minimum));
            lemma_dec_enc_u32(b, q2 + 16, sv.minimum);
            assert(dec_rdata(b, typ, p2, rde.len() as int) == Some(d));
        },
        RDataV::Raw(raw) => {
            assert(dec_rdata(b, typ, p2, rde.len() as int) == Some(RDataV::Raw(
                b.subrange(p2, p2 + rde.len() as int),
            )));
            assert(b.subrange(p2, p2 + rde.len() as int) == raw);
        },
    }
}

/// Decoding reads back exactly the record that was encoded at `p`.
#[verifier::rlimit(100)]
#[verifier::spinoff_prover]
proof fn lemma_dec_enc_rr(b: Seq<u8>, p: int, r: RRsetV)
    requires
        rrset_wf(r),
        r.rdatas.len() == 1,
        rdata_matches(r.typ, r.rdatas[0]),
        0 <= p,
        p + enc_rrs(r.name, r.typ, r.ttl, r.rdatas).len() <= b.len(),
        b.subrange(p, p + enc_rrs(r.name, r.typ, r.ttl, r.rdatas).len()) == enc_rrs(
            r.name,
            r.typ,
            r.ttl,
            r.rdatas,
        ),
    ensures
        dec_rr(b, p) == Some((r, p + enc_rrs(r.name, r.typ, r.ttl, r.rdatas).len())),
{
    let d = r.rdatas[0];
    let e1 = enc_rr(r.name, r.typ, r.ttl, d);
    assert(r.rdatas.skip(1) =~= Seq::<RDataV>::empty());
    assert(enc_rrs(r.name, r.typ, r.ttl, Seq::<RDataV>::empty()) =~= Seq::<u8>::empty());
    assert(r.rdatas =~= seq![d]);
    let e = enc_rrs(r.name, r.typ, r.ttl, r.rdatas);
    assert(e =~= e1);
    let ne = enc_name(r.name);
    let rde = enc_rdata(d);
    lemma_enc_rdata_len(d);
    assert forall|t: int| 0 <= t < ne.len() implies b[p + t] == ne[t] by {
        assert(e1[t] == ne[t]);
        assert(b[p + t] == e[t]);
    }
    assert(b.subrange(p, p + ne.len()) =~= ne);
    lemma_dec_enc_name(b, p, r.name);
    let p1 = p + ne.len();
    assert forall|t: int| 0 <= t < 10 + rde.len() implies (#[trigger] b[p1 + t]) == e1[ne.len() + t] by {
        assert(b[p1 + t] == e[ne.len() + t]);
    }
    assert(e1[ne.len() as int] == enc_u16(type_code(r.typ))[0]);
    assert(e1[ne.len() as int + 1] == enc_u16(type_code(r.typ))[1]);
    assert(e1[ne.len() as int + 2] == enc_u16(1)[0]);
    assert(e1[ne.len() as int + 3] == enc_u16(1)[1]);
    assert(e1[ne.len() as int + 4] == enc_u32(r.ttl)[0]);
    assert(e1[ne.len() as int + 5] == enc_u32(r.ttl)[1]);
    assert(e1[ne.len() as int + 6] == enc_u32(r.ttl)[2]);
    assert(e1[ne.len() as int + 7] == enc_u32(r.ttl)[3]);
    assert(e1[ne.len() as int + 8] == enc_u16(rde.len() as u16)[0]);
    assert(e1[ne.len() as int + 9] == enc_u16(rde.len() as u16)[1]);
    assert(b.subrange(p1, p1 + 2) =~= enc_u16(type_code(r.typ)));
    lemma_dec_enc_u16(b, p1, type_code(r.typ));
    assert(b.subrange(p1 + 2, p1 + 4) =~= enc_u16(1));
    lemma_dec_enc_u16(b, p1 + 2, 1);
    assert(b.subrange(p1 + 4, p1 + 8) =~= enc_u32(r.ttl));
    lemma_dec_enc_u32(b, p1 + 4, r.ttl);
    assert(b.subrange(p1 + 8, p1 + 10) =~= enc_u16(rde.len() as u16));
    lemma_dec_enc_u16(b, p1 + 8, rde.len() as u16);
    let p2 = p1 + 10;
    assert forall|t: int| 0 <= t < rde.len() implies b[p2 + t] == rde[t] by {
        assert(e1[ne.len() + 10 + t] == rde[t]);
    }
    assert(b.subrange(p2, p2 + rde.len()) =~= rde);
    assert(type_of_code(dec_u16(b, p1) as u16) == r.typ);
    lemma_dec_enc_rdata(b, p2, r.typ, d);
    assert(dec_rr(b, p) == Some((r, p2 + rde.len())));
    assert(e.len() == ne.len() + 10 + rde.len());
}

/// Decoding reads back exactly the section that was encoded at `p`.
proof fn lemma_dec_enc_section(b: Seq<u8>, p: int, s: Seq<RRsetV>)
    requires
        forall|k: int| 0 <= k < s.len() ==> rrset_wf(#[trigger] s[k]),
        single_record_form(s),
        0 <= p,
        p + enc_section(s).len() <= b.len(),
        b.subrange(p, p + enc_section(s).len()) == enc_section(s),
    ensures
        dec_rrs(b, p, s.len() as int) == Some((s, p + enc_section(s).len())),
    decreases s.len(),
{
    if s.len() == 0 {
    } else {
        let r0 = s[0];
        let e0 = enc_rrs(r0.name, r0.typ, r0.ttl, r0.rdatas);
        let e = enc_section(s);
        assert forall|t: int| 0 <= t < e0.len() implies b[p + t] == e0[t] by {
            assert(e[t] == e0[t]);
        }
        assert(b.subrange(p, p + e0.len()) =~= e0);
        lemma_dec_enc_rr(b, p, r0);
        let rest = s.skip(1);
        assert(forall|k: int| 0 <= k < rest.len() ==> rrset_wf(#[trigger] rest[k])
            && rest[k] == s[k + 1]);
        assert(single_record_form(rest)) by {
            assert forall|k: int|
                0 <= k < rest.len() implies (#[trigger] rest[k]).rdatas.len() == 1
                && rdata_matches(rest[k].typ, rest[k].rdatas[0]) by {
                assert(rest[k] == s[k + 1]);
            }
        }
        let er = enc_section(rest);
        assert forall|t: int| 0 <= t < er.len() implies b[p + e0.len() + t] == er[t] by {
            assert(e[e0.len() + t] == er[t]);
        }
        assert(b.subrange(p + e0.len(), p + e0.len() + er.len()) =~= er);
        lemma_dec_enc_section(b, p + e0.len(), rest);
        assert(seq![r0] + rest =~= s);
    }
}

/// The header decodes to itself from its own twelve bytes.
#[verifier::spinoff_prover]
proof fn lemma_dec_enc_header(b: Seq<u8>, h: Header)
    requires
        h.flag & 0xF == 0,
        rcode_wf(h.rcode),
        12 <= b.len(),
        b.subrange(0, 12) == enc_header(h),
    ensures
        dec_header(b) == Some(h),
{
    let he = enc_header(h);
    assert forall|t: int| 0 <= t < 12 implies (#[trigger] b[t]) == he[t] by {
        assert(b.subrange(0, 12)[t] == b[t]);
    }
    let w = flags_word(h);
    assert(b.subrange(0, 2) =~= enc_u16(h.id));
    lemma_dec_enc_u16(b, 0, h.id);
    assert(b.subrange(2, 4) =~= enc_u16(w));
    lemma_dec_enc_u16(b, 2, w);
    assert(b.subrange(4, 6) =~= enc_u16(h.qd_count));
    lemma_dec_enc_u16(b, 4, h.qd_count);
    assert(b.subrange(6, 8) =~= enc_u16(h.an_count));
    lemma_dec_enc_u16(b, 6, h.an_count);
    assert(b.subrange(8, 10) =~= enc_u16(h.ns_count));
    lemma_dec_enc_u16(b, 8, h.ns_count);
    assert(b.subrange(10, 12) =~= enc_u16(h.ar_count));
    lemma_dec_enc_u16(b, 10, h.ar_count);
    let f = h.flag;
    let c = rcode_code(h.rcode);
    assert(f & 0xF == 0 && c < 16 ==> ((f | (c as u16)) & 0xFFF0) == f && (f | (c as u16)) % 16
        == c) by (bit_vector);
}

/// The question decodes to itself from its own bytes.
#[verifier::spinoff_prover]
proof fn lemma_dec_enc_question(b: Seq<u8>, p: int, q: QuestionV)
    requires
        valid_labels(q.name),
        crate::rrset::type_wf(q.typ),
        0 <= p,
        p + enc_question(q).len() <= b.len(),
        b.subrange(p, p + enc_question(q).len()) == enc_question(q),
    ensures
        dec_question(b, p) == Some((q, p + enc_question(q).len())),
{
    let qe = enc_question(q);
    let ne = enc_name(q.name);
    assert forall|t: int| 0 <= t < qe.len() implies (#[trigger] b[p + t]) == qe[t] by {
        assert(b.subrange(p, p + qe.len() as int)[t] == b[p + t]);
    }
    assert forall|t: int| 0 <= t < ne.len() implies (#[trigger] b[p + t]) == ne[t] by {
        assert(qe[t] == ne[t]);
    }
    assert(b.subrange(p, p + ne.len() as int) =~= ne);
    lemma_dec_enc_name(b, p, q.name);
    let p0: int = p + ne.len() as int;
    assert(qe[ne.len() as int] == enc_u16(type_code(q.typ))[0]);
    assert(qe[ne.len() as int + 1] == enc_u16(type_code(q.typ))[1]);
    assert(qe[ne.len() as int + 2] == enc_u16(1)[0]);
    assert(qe[ne.len() as int + 3] == enc_u16(1)[1]);
    assert(b.subrange(p0, p0 + 2) =~= enc_u16(type_code(q.typ)));
    lemma_dec_enc_u16(b, p0, type_code(q.typ));
    assert(b.subrange(p0 + 2, p0 + 4) =~= enc_u16(1));
    lemma_dec_enc_u16(b, p0 + 2, 1);
}

/// A decoded message survives the round trip: encoding it and decoding
/// again yields the same message. This holds of every well-formed response
/// in the single-record form that decoding produces.
#[verifier::rlimit(60)]
#[verifier::spinoff_prover]
pub proof fn lemma_response_round_trip(m: ResponseV)
    requires
        m.header.qd_count == 1,
        m.header.an_count == m.answers.len(),
        m.header.ns_count == m.authorities.len(),
        m.header.ar_count == m.additionals.len(),
        m.header.flag & 0xF == 0,
        rcode_wf(m.header.rcode),
        valid_labels(m.question.name),
        crate::rrset::type_wf(m.question.typ),
        forall|k: int| 0 <= k < m.answers.len() ==> rrset_wf(#[trigger] m.answers[k]),
        forall|k: int| 0 <= k < m.authorities.len() ==> rrset_wf(#[trigger] m.authorities[k]),
        forall|k: int| 0 <= k < m.additionals.len() ==> rrset_wf(#[trigger] m.additionals[k]),
        single_record_form(m.answers),
        single_record_form(m.authorities),
        single_record_form(m.additionals),
    ensures
        dec_response(enc_response(m)) == Some(m),
{
    let b = enc_response(m);
    let he = enc_header(m.header);
    let qe = enc_question(m.question);
    let ae = enc_section(m.answers);
    let ue = enc_section(m.authorities);
    let de = enc_section(m.additionals);
    assert(he.len() == 12);
    assert forall|t: int| 0 <= t < 12 implies (#[trigger] b[t]) == he[t] by {}
    assert(b.subrange(0, 12) =~= he);
    lemma_dec_enc_header(b, m.header);
    assert forall|t: int| 0 <= t < qe.len() implies (#[trigger] b[12 + t]) == qe[t] by {}
    assert(b.subrange(12, 12 + qe.len() as int) =~= qe);
    lemma_dec_enc_question(b, 12, m.question);
    let p1: int = 12 + qe.len() as int;
    assert forall|t: int| 0 <= t < ae.len() implies (#[trigger] b[p1 + t]) == ae[t] by {}
    assert(b.subrange(p1, p1 + ae.len() as int) =~= ae);
    lemma_dec_enc_section(b, p1, m.answers);
    let p2: int = p1 + ae.len() as int;
    assert forall|t: int| 0 <= t < ue.len() implies (#[trigger] b[p2 + t]) == ue[t] by {}
    assert(b.subrange(p2, p2 + ue.len() as int) =~= ue);
    lemma_dec_enc_section(b, p2, m.authorities);
    let p3: int = p2 + ue.len() as int;
    assert forall|t: int| 0 <= t < de.len() implies (#[trigger] b[p3 + t]) == de[t] by {}
    assert(b.subrange(p3, p3 + de.len() as int) =~= de);
    lemma_dec_enc_section(b, p3, m.additionals);
    assert(p3 + de.len() as int == b.len());
}


/// A decoded request survives the round trip: encoding its header and
/// question and decoding again yields them back.
#[verifier::spinoff_prover]
pub proof fn lemma_request_round_trip(h: Header, q: QuestionV)
    requires
        h.qd_count == 1,
        h.flag & 0xF == 0,
        rcode_wf(h.rcode),
        valid_labels(q.name),
        crate::rrset::type_wf(q.typ),
    ensures
        dec_request(enc_request(h, q)) == Some((h, q)),
{
    let b = enc_request(h, q);
    let he = enc_header(h);
    let qe = enc_question(q);
    assert(he.len() == 12);
    assert forall|t: int| 0 <= t < 12 implies (#[trigger] b[t]) == he[t] by {}
    assert(b.subrange(0, 12) =~= he);
    lemma_dec_enc_header(b, h);
    assert forall|t: int| 0 <= t < qe.len() implies (#[trigger] b[12 + t]) == qe[t] by {}
    assert(b.subrange(12, 12 + qe.len() as int) =~= qe);
    lemma_dec_enc_question(b, 12, q);
}

} // verus!
