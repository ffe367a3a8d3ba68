//! Resource record sets: an owner name, a type, a TTL and the RDATA items
//! that share them.

use vstd::prelude::*;
use crate::name::{Name, clone_bytes, labels_view, name_text, name_text_labels, valid_labels};
use crate::text::{SPACE, TAB, NEWLINE, dec_text, dec_u32, ipv4_text, ipv4_val, ws_tokens, tokenize, parse_u32, parse_ipv4, write_dec, write_ipv4};

verus! {

/// A DNS RR type.
#[derive(PartialEq, Eq, Structural, Clone, Copy, Hash, Debug)]
pub enum RRType {
    A,
    NS,
    CNAME,
    SOA,
    PTR,
    MX,
    TXT,
    AAAA,
    SRV,
    ANY,
    Other(u16),
}

/// The wire code of a type.
pub open spec fn type_code(t: RRType) -> u16 {
    match t {
        RRType::A => 1,
        RRType::NS => 2,
        RRType::CNAME => 5,
        RRType::SOA => 6,
        RRType::PTR => 12,
        RRType::MX => 15,
        RRType::TXT => 16,
        RRType::AAAA => 28,
        RRType::SRV => 33,
        RRType::ANY => 255,
        RRType::Other(c) => c,
    }
}

/// The type a wire code denotes.
pub open spec fn type_of_code(c: u16) -> RRType {
    if c == 1 {
        RRType::A
    } else if c == 2 {
        RRType::NS
    } else if c == 5 {
        RRType::CNAME
    } else if c == 6 {
        RRType::SOA
    } else if c == 12 {
        RRType::PTR
    } else if c == 15 {
        RRType::MX
    } else if c == 16 {
        RRType::TXT
    } else if c == 28 {
        RRType::AAAA
    } else if c == 33 {
        RRType::SRV
    } else if c == 255 {
        RRType::ANY
    } else {
        RRType::Other(c)
    }
}

/// A type is stored canonically: an `Other` code is none of the named ones.
pub open spec fn type_wf(t: RRType) -> bool {
    type_of_code(type_code(t)) == t
}

impl RRType {
    /// The wire code of this type.
    pub fn code(&self) -> (r: u16)
        ensures
            r == type_code(*self),
    {
        match self {
            RRType::A => 1,
            RRType::NS => 2,
            RRType::CNAME => 5,
            RRType::SOA => 6,
            RRType::PTR => 12,
            RRType::MX => 15,
            RRType::TXT => 16,
            RRType::AAAA => 28,
            RRType::SRV => 33,
            RRType::ANY => 255,
            RRType::Other(c) => *c,
        }
    }

    /// The type a wire code denotes, canonically.
    pub fn from_code(c: u16) -> (r: RRType)
        ensures
            r == type_of_code(c),
            type_wf(r),
    {
        if c == 1 {
            RRType::A
        } else if c == 2 {
            RRType::NS
        } else if c == 5 {
            RRType::CNAME
        } else if c == 6 {
            RRType::SOA
        } else if c == 12 {
            RRType::PTR
        } else if c == 15 {
            RRType::MX
        } else if c == 16 {
            RRType::TXT
        } else if c == 28 {
            RRType::AAAA
        } else if c == 33 {
            RRType::SRV
        } else if c == 255 {
            RRType::ANY
        } else {
            RRType::Other(c)
        }
    }
}

/// A time to live, in seconds.
#[derive(PartialEq, Eq, Structural, Clone, Copy, Hash, Debug)]
pub struct RRTtl(pub u32);

/// The start-of-authority RDATA fields.
#[derive(PartialEq, Eq, Clone, Debug)]
pub struct SoaRdata {
    pub mname: Name,
    pub rname: Name,
    pub serial: u32,
    pub refresh: u32,
    pub retry: u32,
    pub expire: u32,
    pub minimum: u32,
}

/// One RDATA item. `A` holds the address as a big-endian 32-bit value;
/// record types the library does not model are carried as raw RDATA bytes.
#[derive(PartialEq, Eq, Clone, Debug)]
pub enum RData {
    A(u32),
    Ns(Name),
    Soa(SoaRdata),
    Raw(Vec<u8>),
}

pub ghost struct SoaV {
    pub mname: Seq<Seq<u8>>,
    pub rname: Seq<Seq<u8>>,
    pub serial: u32,
    pub refresh: u32,
    pub retry: u32,
    pub expire: u32,
    pub minimum: u32,
}

pub ghost enum RDataV {
    A(u32),
    Ns(Seq<Seq<u8>>),
    Soa(SoaV),
    Raw(Seq<u8>),
}

impl View for SoaRdata {
    type V = SoaV;

    open spec fn view(&self) -> SoaV {
        SoaV {
            mname: self.mname@,
            rname: self.rname@,
            serial: self.serial,
            refresh: self.refresh,
            retry: self.retry,
            expire: self.expire,
            minimum: self.minimum,
        }
    }
}

impl View for RData {
    type V = RDataV;

    open spec fn view(&self) -> RDataV {
        match self {
            RData::A(a) => RDataV::A(*a),
            RData::Ns(n) => RDataV::Ns(n@),
            RData::Soa(s) => RDataV::Soa(s@),
            RData::Raw(b) => RDataV::Raw(b@),
        }
    }
}

/// A record set: all items share the owner name, type and TTL.
#[derive(PartialEq, Eq, Clone, Debug)]
pub struct RRset {
    pub name: Name,
    pub typ: RRType,
    pub ttl: RRTtl,
    pub rdatas: Vec<RData>,
}

pub ghost struct RRsetV {
    pub name: Seq<Seq<u8>>,
    pub typ: RRType,
    pub ttl: u32,
    pub rdatas: Seq<RDataV>,
}

impl View for RRset {
    type V = RRsetV;

    open spec fn view(&self) -> RRsetV {
        RRsetV {
            name: self.name@,
            typ: self.typ,
            ttl: self.ttl.0,
            rdatas: Seq::new(self.rdatas@.len(), |i: int| self.rdatas@[i]@),
        }
    }
}

impl RRset {
    /// Build a record set from its parts.
    pub fn new(name: Name, typ: RRType, ttl: RRTtl, rdatas: Vec<RData>) -> (r: RRset)
        ensures
            r@.name == name@,
            r@.typ == typ,
            r@.ttl == ttl.0,
            r@.rdatas == Seq::new(rdatas@.len(), |i: int| rdatas@[i]@),
    {
        RRset { name, typ, ttl, rdatas }
    }

    /// The number of RDATA items.
    pub fn rr_count(&self) -> (r: usize)
        ensures
            r == self@.rdatas.len(),
    {
        self.rdatas.len()
    }
}

/// A well-formed RDATA item: names fit the wire, raw data fits a record.
pub open spec fn rdata_wf(d: RDataV) -> bool {
    match d {
        RDataV::A(_) => true,
        RDataV::Ns(n) => crate::name::valid_labels(n),
        RDataV::Soa(s) => crate::name::valid_labels(s.mname) && crate::name::valid_labels(s.rname),
        RDataV::Raw(b) => b.len() <= 65535,
    }
}

/// A well-formed record set: a wire-valid owner name, a canonical type, and
/// well-formed RDATA.
pub open spec fn rrset_wf(r: RRsetV) -> bool {
    &&& crate::name::valid_labels(r.name)
    &&& type_wf(r.typ)
    &&& r.rdatas.len() <= 65535
    &&& forall|k: int| 0 <= k < r.rdatas.len() ==> rdata_wf(#[trigger] r.rdatas[k])
}


/// The mnemonic (or `TYPE<code>`) text of a type.
pub open spec fn type_text(t: RRType) -> Seq<u8> {
    match t {
        RRType::A => seq![65u8],
        RRType::NS => seq![78u8, 83u8],
        RRType::CNAME => seq![67u8, 78u8, 65u8, 77u8, 69u8],
        RRType::SOA => seq![83u8, 79u8, 65u8],
        RRType::PTR => seq![80u8, 84u8, 82u8],
        RRType::MX => seq![77u8, 88u8],
        RRType::TXT => seq![84u8, 88u8, 84u8],
        RRType::AAAA => seq![65u8, 65u8, 65u8, 65u8],
        RRType::SRV => seq![83u8, 82u8, 86u8],
        RRType::ANY => seq![65u8, 78u8, 89u8],
        RRType::Other(c) => seq![84u8, 89u8, 80u8, 69u8] + dec_text(c as int),
    }
}

/// The master-file text of one RDATA item (raw items render as nothing).
pub open spec fn rdata_text(d: RDataV) -> Seq<u8> {
    match d {
        RDataV::A(a) => ipv4_text(a),
        RDataV::Ns(n) => name_text(n),
        RDataV::Soa(v) => name_text(v.mname) + seq![SPACE] + name_text(v.rname) + seq![SPACE]
            + dec_text(v.serial as int) + seq![SPACE] + dec_text(v.refresh as int) + seq![SPACE]
            + dec_text(v.retry as int) + seq![SPACE] + dec_text(v.expire as int) + seq![SPACE]
            + dec_text(v.minimum as int),
        RDataV::Raw(_) => Seq::empty(),
    }
}

/// One master-file line: owner, TTL, class IN and type separated by tabs,
/// then the RDATA, then a newline.
pub open spec fn rrset_line_text(name: Seq<Seq<u8>>, ttl: u32, typ: RRType, d: RDataV) -> Seq<
    u8,
> {
    name_text(name) + seq![TAB] + dec_text(ttl as int) + seq![TAB] + seq![73u8, 78u8] + seq![TAB]
        + type_text(typ) + seq![TAB] + rdata_text(d) + seq![NEWLINE]
}

pub open spec fn rrset_lines(name: Seq<Seq<u8>>, ttl: u32, typ: RRType, ds: Seq<RDataV>) -> Seq<
    u8,
>
    decreases ds.len(),
{
    if ds.len() == 0 {
        Seq::empty()
    } else {
        rrset_line_text(name, ttl, typ, ds[0]) + rrset_lines(name, ttl, typ, ds.skip(1))
    }
}

/// The master-file text of a record set: one line per RDATA item.
pub open spec fn rrset_text(r: RRsetV) -> Seq<u8> {
    rrset_lines(r.name, r.ttl, r.typ, r.rdatas)
}

pub proof fn lemma_rrset_lines_concat(
    name: Seq<Seq<u8>>,
    ttl: u32,
    typ: RRType,
    a: Seq<RDataV>,
    b: Seq<RDataV>,
)
    ensures
        rrset_lines(name, ttl, typ, a + b) == rrset_lines(name, ttl, typ, a) + rrset_lines(
            name,
            ttl,
            typ,
            b,
        ),
    decreases a.len(),
{
    if a.len() == 0 {
        assert(a + b =~= b);
        assert(rrset_lines(name, ttl, typ, a) + rrset_lines(name, ttl, typ, b) =~= rrset_lines(
            name,
            ttl,
            typ,
            b,
        ));
    } else {
        lemma_rrset_lines_concat(name, ttl, typ, a.skip(1), b);
        assert((a + b).skip(1) =~= a.skip(1) + b);
        assert((a + b)[0] == a[0]);
        assert(rrset_line_text(name, ttl, typ, a[0]) + (rrset_lines(name, ttl, typ, a.skip(1))
            + rrset_lines(name, ttl, typ, b)) =~= (rrset_line_text(name, ttl, typ, a[0])
            + rrset_lines(name, ttl, typ, a.skip(1))) + rrset_lines(name, ttl, typ, b));
    }
}

/// Append the bytes of `b`.
pub fn append_bytes(out: &mut Vec<u8>, b: &Vec<u8>)
    ensures
        final(out)@ == old(out)@ + b@,
{
    let mut j: usize = 0;
    proof {
        assert(out@ =~= old(out)@ + b@.take(0));
    }
    while j < b.len()
        invariant
            j <= b@.len(),
            out@ == old(out)@ + b@.take(j as int),
        decreases b@.len() - j,
    {
        out.push(b[j]);
        proof {
            assert(old(out)@ + b@.take(j as int + 1) =~= (old(out)@ + b@.take(j as int)).push(
                b@[j as int],
            ));
        }
        j += 1;
    }
    proof {
        assert(b@.take(b@.len() as int) =~= b@);
    }
}

/// Append the mnemonic text of a type.
fn write_type(t: RRType, out: &mut Vec<u8>)
    ensures
        final(out)@ == old(out)@ + type_text(t),
{
    match t {
        RRType::A => {
            out.push(65);
        },
        RRType::NS => {
            out.push(78);
            out.push(83);
        },
        RRType::CNAME => {
            out.push(67);
            out.push(78);
            out.push(65);
            out.push(77);
            out.push(69);
        },
        RRType::SOA => {
            out.push(83);
            out.push(79);
            out.push(65);
        },
        RRType::PTR => {
            out.push(80);
            out.push(84);
            out.push(82);
        },
        RRType::MX => {
            out.push(77);
            out.push(88);
        },
        RRType::TXT => {
            out.push(84);
            out.push(88);
            out.push(84);
        },
        RRType::AAAA => {
            out.push(65);
            out.push(65);
            out.push(65);
            out.push(65);
        },
        RRType::SRV => {
            out.push(83);
            out.push(82);
            out.push(86);
        },
        RRType::ANY => {
            out.push(65);
            out.push(78);
            out.push(89);
        },
        RRType::Other(c) => {
            out.push(84);
            out.push(89);
            out.push(80);
            out.push(69);
            write_dec(c as u32, out);
        },
    }
    proof {
        assert(final(out)@ =~= old(out)@ + type_text(t));
    }
}

/// Append the text of one RDATA item.
fn write_rdata(d: &RData, out: &mut Vec<u8>)
    ensures
        final(out)@ == old(out)@ + rdata_text(d@),
{
    match d {
        RData::A(a) => {
            write_ipv4(*a, out);
        },
        RData::Ns(n) => {
            let t = n.to_text();
            append_bytes(out, &t);
        },
        RData::Soa(v) => {
            let t1 = v.mname.to_text();
            append_bytes(out, &t1);
            out.push(SPACE);
            let t2 = v.rname.to_text();
            append_bytes(out, &t2);
            out.push(SPACE);
            write_dec(v.serial, out);
            out.push(SPACE);
            write_dec(v.refresh, out);
            out.push(SPACE);
            write_dec(v.retry, out);
            out.push(SPACE);
            write_dec(v.expire, out);
            out.push(SPACE);
            write_dec(v.minimum, out);
        },
        RData::Raw(_) => {},
    }
    proof {
        assert(final(out)@ =~= old(out)@ + rdata_text(d@));
    }
}

/// What a type mnemonic token denotes (only the types whose RDATA the
/// textual form carries).
pub open spec fn type_of_token(t: Seq<u8>) -> Option<RRType> {
    if t == seq![65u8] {
        Some(RRType::A)
    } else if t == seq![78u8, 83u8] {
        Some(RRType::NS)
    } else if t == seq![83u8, 79u8, 65u8] {
        Some(RRType::SOA)
    } else {
        None
    }
}

fn type_from_token(t: &Vec<u8>) -> (r: Option<RRType>)
    ensures
        r == type_of_token(t@),
        r is Some ==> type_wf(r->Some_0),
{
    if t.len() == 1 && t[0] == 65 {
        proof {
            assert(t@ =~= seq![65u8]);
        }
        Some(RRType::A)
    } else if t.len() == 2 && t[0] == 78 && t[1] == 83 {
        proof {
            assert(t@ =~= seq![78u8, 83u8]);
            assert(t@ != seq![65u8]);
        }
        Some(RRType::NS)
    } else if t.len() == 3 && t[0] == 83 && t[1] == 79 && t[2] == 65 {
        proof {
            assert(t@ =~= seq![83u8, 79u8, 65u8]);
            assert(t@ != seq![65u8]);
            assert(t@ != seq![78u8, 83u8]);
        }
        Some(RRType::SOA)
    } else {
        proof {
            assert(t@ != seq![65u8]) by {
                if t@ == seq![65u8] {
                    assert(t@.len() == 1 && t@[0] == 65);
                }
            }
            assert(t@ != seq![78u8, 83u8]) by {
                if t@ == seq![78u8, 83u8] {
                    assert(t@.len() == 2 && t@[0] == 78 && t@[1] == 83);
                }
            }
            assert(t@ != seq![83u8, 79u8, 65u8]) by {
                if t@ == seq![83u8, 79u8, 65u8] {
                    assert(t@.len() == 3 && t@[0] == 83 && t@[1] == 79 && t@[2] == 65);
                }
            }
        }
        None
    }
}

/// What the RDATA tokens of a line denote, for a given type.
pub open spec fn parse_rdata_tokens(typ: RRType, tks: Seq<Seq<u8>>) -> Option<Seq<RDataV>> {
    match typ {
        RRType::A => if tks.len() == 1 {
            match ipv4_val(tks[0]) {
                Some(a) => Some(seq![RDataV::A(a)]),
                None => None,
            }
        } else {
            None
        },
        RRType::NS => if tks.len() == 1 {
            match name_text_labels(tks[0]) {
                Some(n) => Some(seq![RDataV::Ns(n)]),
                None => None,
            }
        } else {
            None
        },
        RRType::SOA => if tks.len() == 7 {
            match (
                name_text_labels(tks[0]),
                name_text_labels(tks[1]),
                dec_u32(tks[2]),
                dec_u32(tks[3]),
                dec_u32(tks[4]),
                dec_u32(tks[5]),
                dec_u32(tks[6]),
            ) {
                (
                    Some(mname),
                    Some(rname),
                    Some(serial),
                    Some(refresh),
                    Some(retry),
                    Some(expire),
                    Some(minimum),
                ) => Some(
                    seq![
                        RDataV::Soa(
                            SoaV { mname, rname, serial, refresh, retry, expire, minimum },
                        )
                    ],
                ),
                _ => None,
            }
        } else {
            None
        },
        _ => None,
    }
}

/// What one master-file line denotes.
pub open spec fn parse_rrset_text(s: Seq<u8>) -> Option<RRsetV> {
    let tk = ws_tokens(s);
    if tk.len() < 5 {
        None
    } else {
        match name_text_labels(tk[0]) {
            None => None,
            Some(owner) => match dec_u32(tk[1]) {
                None => None,
                Some(ttl) => if tk[2] != seq![73u8, 78u8] {
                    None
                } else {
                    match type_of_token(tk[3]) {
                        None => None,
                        Some(typ) => match parse_rdata_tokens(typ, tk.skip(4)) {
                            None => None,
                            Some(rd) => Some(RRsetV { name: owner, typ, ttl, rdatas: rd }),
                        },
                    }
                },
            },
        }
    }
}

impl RRset {
    /// Render the record set in master-file form, one line per record.
    pub fn to_text(&self) -> (r: Vec<u8>)
        ensures
            r@ == rrset_text(self@),
    {
        let mut out: Vec<u8> = Vec::new();
        let mut k: usize = 0;
        proof {
            assert(self@.rdatas.take(0) =~= Seq::<RDataV>::empty());
            assert(out@ =~= rrset_lines(self@.name, self@.ttl, self@.typ, self@.rdatas.take(0)));
        }
        while k < self.rdatas.len()
            invariant
                k <= self.rdatas@.len(),
                self@.rdatas.len() == self.rdatas@.len(),
                out@ == rrset_lines(self@.name, self@.ttl, self@.typ, self@.rdatas.take(k as int)),
            decreases self.rdatas@.len() - k,
        {
            let ghost pre = out@;
            let nm = self.name.to_text();
            append_bytes(&mut out, &nm);
            out.push(TAB);
            write_dec(self.ttl.0, &mut out);
            out.push(TAB);
            out.push(73);
            out.push(78);
            out.push(TAB);
            write_type(self.typ, &mut out);
            out.push(TAB);
            write_rdata(&self.rdatas[k], &mut out);
            out.push(NEWLINE);
            proof {
                assert(out@ =~= pre + rrset_line_text(
                    self@.name,
                    self@.ttl,
                    self@.typ,
                    self@.rdatas[k as int],
                ));
                lemma_rrset_lines_concat(
                    self@.name,
                    self@.ttl,
                    self@.typ,
                    self@.rdatas.take(k as int),
                    seq![self@.rdatas[k as int]],
                );
                assert(seq![self@.rdatas[k as int]].skip(1) =~= Seq::<RDataV>::empty());
                assert(rrset_lines(
                    self@.name,
                    self@.ttl,
                    self@.typ,
                    Seq::<RDataV>::empty(),
                ) =~= Seq::<u8>::empty());
                assert(self@.rdatas.take(k as int + 1) =~= self@.rdatas.take(k as int) + seq![
                    self@.rdatas[k as int]
                ]);
                assert(out@ =~= rrset_lines(
                    self@.name,
                    self@.ttl,
                    self@.typ,
                    self@.rdatas.take(k as int + 1),
                ));
            }
            k += 1;
        }
        proof {
            assert(self@.rdatas.take(self.rdatas@.len() as int) =~= self@.rdatas);
        }
        out
    }

    /// Parse one master-file line.
    pub fn from_text(s: &[u8]) -> (r: Option<RRset>)
        ensures
            match r {
                Some(x) => parse_rrset_text(s@) == Some(x@) && rrset_wf(x@),
                None => parse_rrset_text(s@) is None,
            },
    {
        let tokens = tokenize(s);
        let ghost tk = ws_tokens(s@);
        proof {
            assert(labels_view(tokens) == tk);
        }
        if tokens.len() < 5 {
            return None;
        }
        let owner = match Name::from_text(tokens[0].as_slice()) {
            Some(n) => n,
            None => {
                return None;
            },
        };
        let ttl = match parse_u32(tokens[1].as_slice()) {
            Some(v) => v,
            None => {
                return None;
            },
        };
        if !(tokens[2].len() == 2 && tokens[2][0] == 73 && tokens[2][1] == 78) {
            proof {
                assert(tk[2] != seq![73u8, 78u8]) by {
                    if tk[2] == seq![73u8, 78u8] {
                        assert(tk[2].len() == 2 && tk[2][0] == 73 && tk[2][1] == 78);
                    }
                }
            }
            return None;
        }
        proof {
            assert(tk[2] =~= seq![73u8, 78u8]);
        }
        let typ = match type_from_token(&tokens[3]) {
            Some(t) => t,
            None => {
                return None;
            },
        };
        let ghost rtk = tk.skip(4);
        proof {
            assert(rtk.len() == tk.len() - 4);
            assert forall|j: int| 0 <= j < rtk.len() implies rtk[j] == tk[4 + j] by {}
        }
        let mut rdatas: Vec<RData> = Vec::new();
        match typ {
            RRType::A => {
                if tokens.len() != 5 {
                    return None;
                }
                match parse_ipv4(tokens[4].as_slice()) {
                    Some(a) => {
                        rdatas.push(RData::A(a));
                    },
                    None => {
                        return None;
                    },
                }
            },
            RRType::NS => {
                if tokens.len() != 5 {
                    return None;
                }
                match Name::from_text(tokens[4].as_slice()) {
                    Some(n) => {
                        rdatas.push(RData::Ns(n));
                    },
                    None => {
                        return None;
                    },
                }
            },
            RRType::SOA => {
                if tokens.len() != 11 {
                    return None;
                }
                let mname = match Name::from_text(tokens[4].as_slice()) {
                    Some(n) => n,
                    None => {
                        return None;
                    },
                };
                let rname = match Name::from_text(tokens[5].as_slice()) {
                    Some(n) => n,
                    None => {
                        return None;
                    },
                };
                let serial = match parse_u32(tokens[6].as_slice()) {
                    Some(v) => v,
                    None => {
                        return None;
                    },
                };
                let refresh = match parse_u32(tokens[7].as_slice()) {
                    Some(v) => v,
                    None => {
                        return None;
                    },
                };
                let retry = match parse_u32(tokens[8].as_slice()) {
                    Some(v) => v,
                    None => {
                        return None;
                    },
                };
                let expire = match parse_u32(tokens[9].as_slice()) {
                    Some(v) => v,
                    None => {
                        return None;
                    },
                };
                let minimum = match parse_u32(tokens[10].as_slice()) {
                    Some(v) => v,
                    None => {
                        return None;
                    },
                };
                rdatas.push(
                    RData::Soa(SoaRdata { mname, rname, serial, refresh, retry, expire, minimum }),
                );
            },
            _ => {
                proof {
                    assert(type_of_token(tk[3]) is Some ==> (tk[3] == seq![65u8] || tk[3]
                        == seq![78u8, 83u8] || tk[3] == seq![83u8, 79u8, 65u8]));
                }
                return None;
            },
        }
        let x = RRset { name: owner, typ, ttl: RRTtl(ttl), rdatas };
        proof {
            assert(x@.rdatas =~= parse_rdata_tokens(typ, rtk)->Some_0);
        }
        Some(x)
    }
}


/// Fold further lines into a record set: every line must parse to the same
/// owner, type and TTL; the RDATA items accumulate (bounded by a record
/// set's capacity).
pub open spec fn merge_rest(acc: RRsetV, ls: Seq<Seq<u8>>) -> Option<RRsetV>
    decreases ls.len(),
{
    if ls.len() == 0 {
        Some(acc)
    } else {
        match parse_rrset_text(ls[0]) {
            Some(r) => if r.name == acc.name && r.typ == acc.typ && r.ttl == acc.ttl
                && acc.rdatas.len() + r.rdatas.len() <= 65535 {
                merge_rest(RRsetV { rdatas: acc.rdatas + r.rdatas, ..acc }, ls.skip(1))
            } else {
                None
            },
            None => None,
        }
    }
}

/// What a sequence of master-file lines denotes as one record set.
pub open spec fn parse_rrset_texts(ls: Seq<Seq<u8>>) -> Option<RRsetV> {
    if ls.len() == 0 {
        None
    } else {
        match parse_rrset_text(ls[0]) {
            Some(r) => merge_rest(r, ls.skip(1)),
            None => None,
        }
    }
}

impl RRset {
    /// Parse several master-file lines into one record set.
    pub fn from_texts(lines: &Vec<Vec<u8>>) -> (r: Option<RRset>)
        ensures
            match r {
                Some(x) => parse_rrset_texts(labels_view(*lines)) == Some(x@) && rrset_wf(x@),
                None => parse_rrset_texts(labels_view(*lines)) is None,
            },
    {
        let ghost lv = labels_view(*lines);
        if lines.len() == 0 {
            return None;
        }
        let mut acc = match RRset::from_text(lines[0].as_slice()) {
            Some(x) => x,
            None => {
                return None;
            },
        };
        let mut i: usize = 1;
        proof {
            assert(lv.skip(0).skip(1) =~= lv.skip(1));
        }
        while i < lines.len()
            invariant
                1 <= i <= lines@.len(),
                lv == labels_view(*lines),
                rrset_wf(acc@),
                parse_rrset_texts(lv) == merge_rest(acc@, lv.skip(i as int)),
            decreases lines@.len() - i,
        {
            let ghost pre = acc@;
            let mut next = match RRset::from_text(lines[i].as_slice()) {
                Some(x) => x,
                None => {
                    return None;
                },
            };
            if !next.name.equals(&acc.name) || next.typ != acc.typ || next.ttl.0 != acc.ttl.0 {
                return None;
            }
            if acc.rdatas.len() > 65535 - next.rdatas.len() {
                return None;
            }
            let ghost nv = next@;
            acc.rdatas.append(&mut next.rdatas);
            proof {
                assert(acc@.rdatas =~= pre.rdatas + nv.rdatas);
                assert(acc@ == RRsetV { rdatas: pre.rdatas + nv.rdatas, ..pre });
                assert(lv.skip(i as int).skip(1) =~= lv.skip(i as int + 1));
                assert forall|t: int| 0 <= t < acc@.rdatas.len() implies rdata_wf(
                    #[trigger] acc@.rdatas[t],
                ) by {
                    if t < pre.rdatas.len() {
                        assert(acc@.rdatas[t] == pre.rdatas[t]);
                    } else {
                        assert(acc@.rdatas[t] == nv.rdatas[t - pre.rdatas.len()]);
                    }
                }
            }
            i += 1;
        }
        proof {
            assert(lv.skip(lines@.len() as int) =~= Seq::<Seq<u8>>::empty());
        }
        Some(acc)
    }
}

/// Clone an RDATA item, keeping its view.
pub fn clone_rdata(d: &RData) -> (r: RData)
    ensures
        r@ == d@,
{
    match d {
        RData::A(a) => RData::A(*a),
        RData::Ns(n) => RData::Ns(n.clone()),
        RData::Soa(s) => RData::Soa(SoaRdata {
            mname: s.mname.clone(),
            rname: s.rname.clone(),
            serial: s.serial,
            refresh: s.refresh,
            retry: s.retry,
            expire: s.expire,
            minimum: s.minimum,
        }),
        RData::Raw(b) => RData::Raw(clone_bytes(b)),
    }
}

/// Clone a record set, keeping its view.
pub fn clone_rrset(rrset: &RRset) -> (r: RRset)
    ensures
        r@ == rrset@,
{
    let mut rdatas: Vec<RData> = Vec::new();
    let mut i: usize = 0;
    while i < rrset.rdatas.len()
        invariant
            i <= rrset.rdatas.len(),
            rdatas@.len() == i,
            forall|j: int| 0 <= j < i ==> rdatas@[j]@ == rrset@.rdatas[j],
        decreases rrset.rdatas.len() - i,
    {
        rdatas.push(clone_rdata(&rrset.rdatas[i]));
        i += 1;
    }
    let r = RRset { name: rrset.name.clone(), typ: rrset.typ, ttl: rrset.ttl, rdatas };
    proof {
        assert(r@.rdatas =~= rrset@.rdatas);
    }
    r
}

} // verus!
