//! DNS messages: header, question, request and response, with the header
//! flag bits and response codes.

use vstd::prelude::*;
use crate::name::Name;
use crate::rrset::{RRset, RRsetV, RRType, rrset_wf, type_wf, clone_rrset};

verus! {

/// A response code.
#[derive(PartialEq, Eq, Structural, Clone, Copy, Hash, Debug)]
pub enum Rcode {
    NoError,
    FormErr,
    ServFail,
    NXDomain,
    NotImp,
    Refused,
    Other(u8),
}

/// The wire code of a response code.
pub open spec fn rcode_code(r: Rcode) -> u8 {
    match r {
        Rcode::NoError => 0,
        Rcode::FormErr => 1,
        Rcode::ServFail => 2,
        Rcode::NXDomain => 3,
        Rcode::NotImp => 4,
        Rcode::Refused => 5,
        Rcode::Other(c) => c,
    }
}

/// The response code a wire code denotes.
pub open spec fn rcode_of_code(c: u8) -> Rcode {
    if c == 0 {
        Rcode::NoError
    } else if c == 1 {
        Rcode::FormErr
    } else if c == 2 {
        Rcode::ServFail
    } else if c == 3 {
        Rcode::NXDomain
    } else if c == 4 {
        Rcode::NotImp
    } else if c == 5 {
        Rcode::Refused
    } else {
        Rcode::Other(c)
    }
}

/// Canonically stored and within the 4-bit wire field.
pub open spec fn rcode_wf(r: Rcode) -> bool {
    rcode_of_code(rcode_code(r)) == r && rcode_code(r) < 16
}

impl Rcode {
    pub fn code(&self) -> (r: u8)
        ensures
            r == rcode_code(*self),
    {
        match self {
            Rcode::NoError => 0,
            Rcode::FormErr => 1,
            Rcode::ServFail => 2,
            Rcode::NXDomain => 3,
            Rcode::NotImp => 4,
            Rcode::Refused => 5,
            Rcode::Other(c) => *c,
        }
    }

    /// The response code of the low four bits of a wire code.
    pub fn from_code(c: u8) -> (r: Rcode)
        requires
            c < 16,
        ensures
            r == rcode_of_code(c),
            rcode_wf(r),
    {
        if c == 0 {
            Rcode::NoError
        } else if c == 1 {
            Rcode::FormErr
        } else if c == 2 {
            Rcode::ServFail
        } else if c == 3 {
            Rcode::NXDomain
        } else if c == 4 {
            Rcode::NotImp
        } else if c == 5 {
            Rcode::Refused
        } else {
            Rcode::Other(c)
        }
    }
}

/// A header flag bit.
#[derive(PartialEq, Eq, Structural, Clone, Copy, Debug)]
pub enum HeaderFlag {
    QueryResponse,
    AuthAnswer,
    Truncated,
    RecursionDesired,
    RecursionAvailable,
    AuthenticData,
    CheckingDisabled,
}

/// The bit mask of a flag within the 16-bit flag word.
pub open spec fn flag_mask(f: HeaderFlag) -> u16 {
    match f {
        HeaderFlag::QueryResponse => 0x8000,
        HeaderFlag::AuthAnswer => 0x0400,
        HeaderFlag::Truncated => 0x0200,
        HeaderFlag::RecursionDesired => 0x0100,
        HeaderFlag::RecursionAvailable => 0x0080,
        HeaderFlag::AuthenticData => 0x0020,
        HeaderFlag::CheckingDisabled => 0x0010,
    }
}

/// Whether `f`'s bit is set in `flag`.
pub open spec fn spec_flag_set(flag: u16, f: HeaderFlag) -> bool {
    flag & flag_mask(f) != 0
}

fn flag_mask_x(f: HeaderFlag) -> (r: u16)
    ensures
        r == flag_mask(f),
{
    match f {
        HeaderFlag::QueryResponse => 0x8000,
        HeaderFlag::AuthAnswer => 0x0400,
        HeaderFlag::Truncated => 0x0200,
        HeaderFlag::RecursionDesired => 0x0100,
        HeaderFlag::RecursionAvailable => 0x0080,
        HeaderFlag::AuthenticData => 0x0020,
        HeaderFlag::CheckingDisabled => 0x0010,
    }
}

/// Whether a flag bit is set in a flag word.
pub fn is_flag_set(flag: u16, f: HeaderFlag) -> (r: bool)
    ensures
        r == spec_flag_set(flag, f),
{
    flag & flag_mask_x(f) != 0
}

/// The flag word with `f`'s bit set.
pub fn set_flag(flag: u16, f: HeaderFlag) -> (r: u16)
    ensures
        r == (flag | flag_mask(f)),
{
    flag | flag_mask_x(f)
}

/// Setting a bit sets it, keeps every set bit, and keeps the low nibble
/// clear.
pub proof fn lemma_flag_or(flag: u16, m: u16)
    ensures
        m != 0 ==> (flag | m) & m != 0,
        forall|g: u16| flag & g != 0 ==> (flag | m) & g != 0,
        flag & 0xF == 0 && m & 0xF == 0 ==> (flag | m) & 0xF == 0,
{
    assert(m != 0 ==> (flag | m) & m != 0) by (bit_vector);
    assert forall|g: u16| flag & g != 0 implies (flag | m) & g != 0 by {
        assert(flag & g != 0 ==> (flag | m) & g != 0) by (bit_vector);
    }
    assert(flag & 0xF == 0 && m & 0xF == 0 ==> (flag | m) & 0xF == 0) by (bit_vector);
}

/// Every flag mask keeps the low (response-code) nibble clear.
pub proof fn lemma_mask_low_nibble(f: HeaderFlag)
    ensures
        flag_mask(f) & 0xF == 0,
{
    let m = flag_mask(f);
    assert((m == 0x8000 || m == 0x0400 || m == 0x0200 || m == 0x0100 || m == 0x0080 || m == 0x0020
        || m == 0x0010) ==> m & 0xF == 0) by (bit_vector);
}

/// A message header.
#[derive(PartialEq, Eq, Structural, Clone, Copy, Debug)]
pub struct Header {
    pub id: u16,
    pub flag: u16,
    pub rcode: Rcode,
    pub qd_count: u16,
    pub an_count: u16,
    pub ns_count: u16,
    pub ar_count: u16,
}

/// The question: a name and a type (class is always IN).
pub struct Question {
    pub name: Name,
    pub typ: RRType,
}

pub ghost struct QuestionV {
    pub name: Seq<Seq<u8>>,
    pub typ: RRType,
}

impl View for Question {
    type V = QuestionV;

    open spec fn view(&self) -> QuestionV {
        QuestionV { name: self.name@, typ: self.typ }
    }
}

impl Question {
    pub open spec fn wf(&self) -> bool {
        crate::name::valid_labels(self@.name) && type_wf(self@.typ)
    }

    pub fn new(name: Name, typ: RRType) -> (r: Question)
        ensures
            r@.name == name@,
            r@.typ == typ,
    {
        Question { name, typ }
    }

    pub fn clone_question(&self) -> (r: Question)
        ensures
            r@ == self@,
    {
        Question { name: self.name.clone(), typ: self.typ }
    }
}

/// A query as received: header and question.
pub struct Request {
    pub header: Header,
    pub question: Question,
}

impl Request {
    pub open spec fn wf(&self) -> bool {
        self.question.wf()
    }

    /// A fresh query for `(name, typ)` with id 0 and no flags.
    pub fn new(name: Name, typ: RRType) -> (r: Request)
        ensures
            r.question@.name == name@,
            r.question@.typ == typ,
            r.header == (Header {
                id: 0,
                flag: 0,
                rcode: Rcode::NoError,
                qd_count: 1,
                an_count: 0,
                ns_count: 0,
                ar_count: 0,
            }),
    {
        Request {
            header: Header {
                id: 0,
                flag: 0,
                rcode: Rcode::NoError,
                qd_count: 1,
                an_count: 0,
                ns_count: 0,
                ar_count: 0,
            },
            question: Question { name, typ },
        }
    }
}

/// Which response section a record set goes to.
#[derive(PartialEq, Eq, Structural, Clone, Copy, Debug)]
pub enum SectionType {
    Answer,
    Authority,
    Additional,
}

/// Total records (not record sets) in a section.
pub open spec fn total_rrs(s: Seq<RRsetV>) -> int
    decreases s.len(),
{
    if s.len() == 0 {
        0
    } else {
        s[0].rdatas.len() + total_rrs(s.skip(1))
    }
}

pub proof fn lemma_total_rrs_parts(a: Seq<RRsetV>, b: Seq<RRsetV>)
    ensures
        total_rrs(a + b) == total_rrs(a) + total_rrs(b),
        total_rrs(b) >= 0,
    decreases a.len(),
{
    if a.len() == 0 {
        assert(a + b =~= b);
        lemma_total_rrs_nonneg(b);
    } else {
        lemma_total_rrs_parts(a.skip(1), b);
        assert((a + b).skip(1) =~= a.skip(1) + b);
    }
}

pub proof fn lemma_total_rrs_nonneg(s: Seq<RRsetV>)
    ensures
        total_rrs(s) >= 0,
    decreases s.len(),
{
    if s.len() > 0 {
        lemma_total_rrs_nonneg(s.skip(1));
    }
}

/// Totals agree for sections whose record sets pair up in record count.
pub proof fn lemma_total_rrs_same_shape(a: Seq<RRsetV>, b: Seq<RRsetV>)
    requires
        a.len() == b.len(),
        forall|k: int| 0 <= k < a.len() ==> (#[trigger] a[k]).rdatas.len() == b[k].rdatas.len(),
    ensures
        total_rrs(a) == total_rrs(b),
    decreases a.len(),
{
    if a.len() > 0 {
        assert forall|k: int|
            0 <= k < a.skip(1).len() implies (#[trigger] a.skip(1)[k]).rdatas.len() == b.skip(
            1,
        )[k].rdatas.len() by {
            assert(a.skip(1)[k] == a[k + 1]);
            assert(b.skip(1)[k] == b[k + 1]);
        }
        lemma_total_rrs_same_shape(a.skip(1), b.skip(1));
    }
}

/// A middle piece of a section counts no more records than the whole.
pub proof fn lemma_total_rrs_within(rs: Seq<RRsetV>, a: int, b: int)
    requires
        0 <= a <= b <= rs.len(),
    ensures
        0 <= total_rrs(rs.subrange(a, b)),
        total_rrs(rs.subrange(a, b)) <= total_rrs(rs),
        b < rs.len() ==> total_rrs(rs.subrange(a, b)) + rs[b].rdatas.len() <= total_rrs(rs),
{
    lemma_total_rrs_nonneg(rs.subrange(a, b));
    if b < rs.len() {
        assert(rs =~= rs.subrange(0, a) + (rs.subrange(a, b) + (seq![rs[b]] + rs.subrange(
            b + 1,
            rs.len() as int,
        ))));
        lemma_total_rrs_parts(
            rs.subrange(0, a),
            rs.subrange(a, b) + (seq![rs[b]] + rs.subrange(b + 1, rs.len() as int)),
        );
        lemma_total_rrs_parts(
            rs.subrange(a, b),
            seq![rs[b]] + rs.subrange(b + 1, rs.len() as int),
        );
        lemma_total_rrs_parts(seq![rs[b]], rs.subrange(b + 1, rs.len() as int));
        assert(seq![rs[b]].skip(1) =~= Seq::<RRsetV>::empty());
        assert(total_rrs(Seq::<RRsetV>::empty()) == 0);
        assert(total_rrs(seq![rs[b]]) == rs[b].rdatas.len());
        lemma_total_rrs_nonneg(rs.subrange(0, a));
        lemma_total_rrs_nonneg(rs.subrange(b + 1, rs.len() as int));
    } else {
        assert(rs =~= rs.subrange(0, a) + rs.subrange(a, b));
        lemma_total_rrs_parts(rs.subrange(0, a), rs.subrange(a, b));
        lemma_total_rrs_nonneg(rs.subrange(0, a));
    }
}

/// A response message: header, echoed question, and the three sections.
pub struct Response {
    pub header: Header,
    pub question: Question,
    pub answers: Vec<RRset>,
    pub authorities: Vec<RRset>,
    pub additionals: Vec<RRset>,
}

pub ghost struct ResponseV {
    pub header: Header,
    pub question: QuestionV,
    pub answers: Seq<RRsetV>,
    pub authorities: Seq<RRsetV>,
    pub additionals: Seq<RRsetV>,
}

/// The record sets a section vector denotes.
pub open spec fn section_view(v: Vec<RRset>) -> Seq<RRsetV> {
    Seq::new(v@.len(), |i: int| v@[i]@)
}

impl View for Response {
    type V = ResponseV;

    open spec fn view(&self) -> ResponseV {
        ResponseV {
            header: self.header,
            question: self.question@,
            answers: section_view(self.answers),
            authorities: section_view(self.authorities),
            additionals: section_view(self.additionals),
        }
    }
}

pub open spec fn section_of(r: ResponseV, s: SectionType) -> Seq<RRsetV> {
    match s {
        SectionType::Answer => r.answers,
        SectionType::Authority => r.authorities,
        SectionType::Additional => r.additionals,
    }
}

impl Response {
    /// Header counts match the sections, everything in them is well formed,
    /// and the low nibble of the flag word is clear (the response code is
    /// kept apart).
    pub open spec fn wf(&self) -> bool {
        &&& self.header.qd_count == 1
        &&& self.header.an_count == total_rrs(self@.answers)
        &&& self.header.ns_count == total_rrs(self@.authorities)
        &&& self.header.ar_count == total_rrs(self@.additionals)
        &&& self.question.wf()
        &&& rcode_wf(self.header.rcode)
        &&& self.header.flag & 0xF == 0
        &&& forall|k: int|
            0 <= k < self@.answers.len() ==> rrset_wf(#[trigger] self@.answers[k])
        &&& forall|k: int|
            0 <= k < self@.authorities.len() ==> rrset_wf(#[trigger] self@.authorities[k])
        &&& forall|k: int|
            0 <= k < self@.additionals.len() ==> rrset_wf(#[trigger] self@.additionals[k])
    }

    /// A fresh, empty response carrying the question.
    pub fn with_question(name: Name, typ: RRType) -> (r: Response)
        ensures
            r@.question.name == name@,
            r@.question.typ == typ,
            r@.answers.len() == 0,
            r@.authorities.len() == 0,
            r@.additionals.len() == 0,
            r.header == (Header {
                id: 0,
                flag: 0,
                rcode: Rcode::NoError,
                qd_count: 1,
                an_count: 0,
                ns_count: 0,
                ar_count: 0,
            }),
            crate::name::valid_labels(name@) && type_wf(typ) ==> r.wf(),
    {
        let r = Response {
            header: Header {
                id: 0,
                flag: 0,
                rcode: Rcode::NoError,
                qd_count: 1,
                an_count: 0,
                ns_count: 0,
                ar_count: 0,
            },
            question: Question { name, typ },
            answers: Vec::new(),
            authorities: Vec::new(),
            additionals: Vec::new(),
        };
        proof {
            assert(0u16 & 0xF == 0) by (bit_vector);
        }
        r
    }

    /// Borrow a section.
    pub fn section(&self, s: SectionType) -> (r: &Vec<RRset>)
        ensures
            section_view(*r) == section_of(self@, s),
    {
        match s {
            SectionType::Answer => &self.answers,
            SectionType::Authority => &self.authorities,
            SectionType::Additional => &self.additionals,
        }
    }

    /// Set the message id.
    pub fn set_id(&mut self, id: u16)
        ensures
            *final(self) == (Response {
                header: Header { id, ..old(self).header },
                ..*old(self)
            }),
            old(self).wf() ==> final(self).wf(),
    {
        self.header.id = id;
    }

    /// Set the response code.
    pub fn set_rcode(&mut self, rcode: Rcode)
        requires
            rcode_wf(rcode),
        ensures
            *final(self) == (Response {
                header: Header { rcode, ..old(self).header },
                ..*old(self)
            }),
            old(self).wf() ==> final(self).wf(),
    {
        self.header.rcode = rcode;
    }

    /// Set a header flag bit.
    pub fn set_header_flag(&mut self, f: HeaderFlag)
        ensures
            *final(self) == (Response {
                header: Header {
                    flag: old(self).header.flag | flag_mask(f),
                    ..old(self).header
                },
                ..*old(self)
            }),
            spec_flag_set(final(self).header.flag, f),
            old(self).wf() ==> final(self).wf(),
    {
        self.header.flag = set_flag(self.header.flag, f);
        proof {
            lemma_mask_low_nibble(f);
            lemma_flag_or(old(self).header.flag, flag_mask(f));
            assert(flag_mask(f) != 0) by {
                let m = flag_mask(f);
                assert((m == 0x8000 || m == 0x0400 || m == 0x0200 || m == 0x0100 || m == 0x0080
                    || m == 0x0020 || m == 0x0010) ==> m != 0) by (bit_vector);
            }
        }
    }

    /// Mark the message as a response.
    pub fn make_response(&mut self)
        ensures
            *final(self) == (Response {
                header: Header {
                    flag: old(self).header.flag | flag_mask(HeaderFlag::QueryResponse),
                    ..old(self).header
                },
                ..*old(self)
            }),
            spec_flag_set(final(self).header.flag, HeaderFlag::QueryResponse),
            old(self).wf() ==> final(self).wf(),
    {
        self.set_header_flag(HeaderFlag::QueryResponse);
    }

    /// Append a record set to a section, keeping the record counts true.
    pub fn add_rrset(&mut self, s: SectionType, rrset: RRset)
        requires
            old(self).wf(),
            rrset_wf(rrset@),
            total_rrs(section_of(old(self)@, s)) + rrset@.rdatas.len() <= 0xFFFF,
        ensures
            final(self).wf(),
            final(self)@.question == old(self)@.question,
            final(self).header.id == old(self).header.id,
            final(self).header.flag == old(self).header.flag,
            final(self).header.rcode == old(self).header.rcode,
            section_of(final(self)@, s) == section_of(old(self)@, s).push(rrset@),
            forall|s2: SectionType|
                s2 != s ==> section_of(final(self)@, s2) == section_of(old(self)@, s2),
    {
        proof {
            lemma_total_rrs_parts(section_of(self@, s), seq![rrset@]);
            assert(seq![rrset@].skip(1) =~= Seq::<RRsetV>::empty());
            assert(total_rrs(Seq::<RRsetV>::empty()) == 0);
            assert(total_rrs(seq![rrset@]) == rrset@.rdatas.len());
            assert(section_of(self@, s) + seq![rrset@] =~= section_of(self@, s).push(rrset@));
            lemma_total_rrs_nonneg(section_of(self@, s));
        }
        let n = rrset.rr_count() as u16;
        match s {
            SectionType::Answer => {
                self.answers.push(rrset);
                self.header.an_count = self.header.an_count + n;
                proof {
                    assert(section_view(self.answers) =~= section_view(old(self).answers).push(
                        rrset@,
                    ));
                }
            },
            SectionType::Authority => {
                self.authorities.push(rrset);
                self.header.ns_count = self.header.ns_count + n;
                proof {
                    assert(section_view(self.authorities) =~= section_view(
                        old(self).authorities,
                    ).push(rrset@));
                }
            },
            SectionType::Additional => {
                self.additionals.push(rrset);
                self.header.ar_count = self.header.ar_count + n;
                proof {
                    assert(section_view(self.additionals) =~= section_view(
                        old(self).additionals,
                    ).push(rrset@));
                }
            },
        }
    }
}

/// Clone a response, keeping its view.
pub fn clone_response(r: &Response) -> (c: Response)
    ensures
        c@ == r@,
{
    let c = Response {
        header: r.header,
        question: r.question.clone_question(),
        answers: clone_section(&r.answers),
        authorities: clone_section(&r.authorities),
        additionals: clone_section(&r.additionals),
    };
    proof {
        assert(c@.answers =~= r@.answers);
        assert(c@.authorities =~= r@.authorities);
        assert(c@.additionals =~= r@.additionals);
    }
    c
}

/// Clone a section vector, keeping its view.
pub fn clone_section(v: &Vec<RRset>) -> (c: Vec<RRset>)
    ensures
        section_view(c) == section_view(*v),
        c@.len() == v@.len(),
{
    let mut c: Vec<RRset> = Vec::new();
    let mut i: usize = 0;
    while i < v.len()
        invariant
            i <= v@.len(),
            c@.len() == i,
            forall|j: int| 0 <= j < i ==> c@[j]@ == section_view(*v)[j],
        decreases v@.len() - i,
    {
        c.push(clone_rrset(&v[i]));
        i += 1;
    }
    proof {
        assert(section_view(c) =~= section_view(*v));
    }
    c
}

} // verus!
