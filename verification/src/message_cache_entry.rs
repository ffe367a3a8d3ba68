//! One cached response: the retained record sets with TTL bookkeeping.
//!
//! A positive response keeps its Answer section; a negative response keeps
//! its Authority section (typically the SOA). The entry expires when the
//! smallest retained TTL has elapsed; a replay subtracts the elapsed time
//! from every TTL, clamping at one second.

use vstd::prelude::*;
use crate::rrset::{RRset, RRsetV, rrset_wf, clone_rrset, RRTtl};
use crate::message::{
    Request, Response, Rcode, HeaderFlag, SectionType, total_rrs, rcode_wf, spec_flag_set,
    section_of, clone_section,
};

verus! {

/// The record sets a cache entry retains from a response.
pub open spec fn retained(resp: crate::message::ResponseV) -> Seq<RRsetV> {
    if resp.answers.len() > 0 {
        resp.answers
    } else {
        resp.authorities
    }
}

/// The smallest TTL over the record sets (the largest TTL if none).
pub open spec fn min_ttl(rs: Seq<RRsetV>) -> int
    decreases rs.len(),
{
    if rs.len() == 0 {
        0xFFFF_FFFF
    } else {
        let rest = min_ttl(rs.skip(1));
        if rs[0].ttl < rest {
            rs[0].ttl as int
        } else {
            rest
        }
    }
}

pub proof fn lemma_min_ttl_le(rs: Seq<RRsetV>, i: int)
    requires
        0 <= i < rs.len(),
    ensures
        min_ttl(rs) <= rs[i].ttl,
        0 <= min_ttl(rs) <= 0xFFFF_FFFF,
    decreases rs.len(),
{
    lemma_min_ttl_bounds(rs);
    if i == 0 {
        lemma_min_ttl_bounds(rs.skip(1));
    } else {
        lemma_min_ttl_le(rs.skip(1), i - 1);
        assert(rs.skip(1)[i - 1] == rs[i]);
    }
}

pub proof fn lemma_min_ttl_bounds(rs: Seq<RRsetV>)
    ensures
        0 <= min_ttl(rs) <= 0xFFFF_FFFF,
    decreases rs.len(),
{
    if rs.len() > 0 {
        lemma_min_ttl_bounds(rs.skip(1));
    }
}

/// A record set with its TTL decayed by `elapsed` seconds, clamped at 1.
pub open spec fn ttl_decayed(r: RRsetV, elapsed: int) -> RRsetV {
    RRsetV {
        ttl: if r.ttl - elapsed <= 0 {
            1u32
        } else {
            (r.ttl - elapsed) as u32
        },
        ..r
    }
}

/// A cached response.
pub struct MessageEntry {
    pub rcode: Rcode,
    pub answer_rrset_count: u16,
    pub auth_rrset_count: u16,
    pub rrsets: Vec<RRset>,
    pub init_time: u64,
    pub expire_time: u64,
}

/// The record sets an entry holds.
pub open spec fn entry_rrsets(e: &MessageEntry) -> Seq<RRsetV> {
    Seq::new(e.rrsets@.len(), |i: int| e.rrsets@[i]@)
}

/// The response `resp` is the entry `e` replayed for `req` at instant
/// `now`: the retained record sets in order with decayed TTLs.
pub open spec fn replayed(e: MessageEntry, req: &Request, now: u64, resp: Response) -> bool {
    let elapsed = now - e.init_time;
    let ac = e.answer_rrset_count as int;
    &&& resp.header.id == req.header.id
    &&& spec_flag_set(resp.header.flag, HeaderFlag::QueryResponse)
    &&& spec_flag_set(resp.header.flag, HeaderFlag::RecursionAvailable)
    &&& resp.header.rcode == e.rcode
    &&& resp@.question == req.question@
    &&& resp@.answers == Seq::new(ac as nat, |i: int| ttl_decayed(entry_rrsets(&e)[i], elapsed))
    &&& resp@.authorities == Seq::new(
        e.auth_rrset_count as nat,
        |i: int| ttl_decayed(entry_rrsets(&e)[ac + i], elapsed),
    )
    &&& resp@.additionals.len() == 0
}

impl MessageEntry {
    /// Counts match the stored record sets, everything is well formed, and
    /// the expiry is the insertion instant plus the smallest retained TTL.
    pub open spec fn wf(&self) -> bool {
        &&& entry_rrsets(self).len() == self.answer_rrset_count + self.auth_rrset_count
        &&& total_rrs(entry_rrsets(self)) <= 0xFFFF
        &&& forall|k: int|
            0 <= k < entry_rrsets(self).len() ==> rrset_wf(#[trigger] entry_rrsets(self)[k])
        &&& rcode_wf(self.rcode)
        &&& self.expire_time == self.init_time + min_ttl(entry_rrsets(self))
    }

    /// Build an entry from a response at instant `now`: a positive response
    /// retains its answers, a negative one its authority records.
    pub fn new(resp: &Response, now: u64) -> (e: MessageEntry)
        requires
            resp.wf(),
            resp@.answers.len() <= 0xFFFF,
            resp@.authorities.len() <= 0xFFFF,
            now <= 0xFFFF_FFFF_0000_0000,
        ensures
            e.wf(),
            entry_rrsets(&e) == retained(resp@),
            e.rcode == resp.header.rcode,
            e.answer_rrset_count == if resp@.answers.len() > 0 {
                resp@.answers.len() as int
            } else {
                0
            },
            e.auth_rrset_count == if resp@.answers.len() > 0 {
                0
            } else {
                resp@.authorities.len() as int
            },
            e.init_time == now,
            e.expire_time == now + min_ttl(retained(resp@)),
    {
        let answer_rrset_count: u16;
        let auth_rrset_count: u16;
        let rrsets: Vec<RRset>;
        if resp.answers.len() > 0 {
            answer_rrset_count = resp.answers.len() as u16;
            auth_rrset_count = 0;
            rrsets = clone_section(&resp.answers);
        } else {
            answer_rrset_count = 0;
            auth_rrset_count = resp.authorities.len() as u16;
            rrsets = clone_section(&resp.authorities);
        }
        // Find the smallest TTL over the retained record sets.
        let mut min: u32 = 0xFFFF_FFFF;
        let mut i: usize = 0;
        let ghost rv = retained(resp@);
        proof {
            assert(crate::message::section_view(rrsets) =~= rv);
            assert(rv.skip(0) =~= rv);
        }
        while i < rrsets.len()
            invariant
                i <= rrsets@.len(),
                crate::message::section_view(rrsets) == rv,
                rv.len() == rrsets@.len(),
                min_ttl(rv) == if min_ttl(rv.skip(i as int)) < min {
                    min_ttl(rv.skip(i as int))
                } else {
                    min as int
                },
            decreases rrsets@.len() - i,
        {
            proof {
                assert(rv.skip(i as int).skip(1) =~= rv.skip(i as int + 1));
                assert(rv.skip(i as int)[0] == rv[i as int]);
                lemma_min_ttl_bounds(rv.skip(i as int + 1));
            }
            if rrsets[i].ttl.0 < min {
                min = rrsets[i].ttl.0;
            }
            i += 1;
        }
        proof {
            assert(rv.skip(rrsets@.len() as int) =~= Seq::<RRsetV>::empty());
            assert(min_ttl(rv) == min);
        }
        let e = MessageEntry {
            rcode: resp.header.rcode,
            answer_rrset_count,
            auth_rrset_count,
            rrsets,
            init_time: now,
            expire_time: now + (min as u64),
        };
        proof {
            if resp@.answers.len() > 0 {
                assert(total_rrs(rv) == resp.header.an_count);
            } else {
                assert(total_rrs(rv) == resp.header.ns_count);
            }
        }
        e
    }

    /// Whether the entry has expired at instant `now`.
    pub fn is_expired(&self, now: u64) -> (r: bool)
        ensures
            r == (self.expire_time <= now),
    {
        self.expire_time <= now
    }

    /// Replay the cached response for `req` at instant `now`: each retained
    /// record set keeps its place (answers first, then authority records)
    /// with its TTL decayed by the elapsed seconds. An expired entry yields
    /// nothing.
    pub fn gen_response(&self, req: &Request, now: u64) -> (r: Option<Response>)
        requires
            self.wf(),
            req.wf(),
            self.init_time <= now,
        ensures
            match r {
                None => now >= self.expire_time,
                Some(resp) => {
                    &&& now < self.expire_time
                    &&& resp.wf()
                    &&& replayed(*self, req, now, resp)
                },
            },
    {
        if self.expire_time <= now {
            return None;
        }
        let elapsed64 = now - self.init_time;
        proof {
            lemma_min_ttl_bounds(entry_rrsets(self));
        }
        let elapsed = elapsed64 as u32;
        let mut resp = Response::with_question(req.question.name.clone(), req.question.typ);
        resp.set_id(req.header.id);
        resp.make_response();
        let ghost f1 = resp.header.flag;
        resp.set_header_flag(HeaderFlag::RecursionAvailable);
        proof {
            crate::message::lemma_flag_or(
                f1,
                crate::message::flag_mask(HeaderFlag::RecursionAvailable),
            );
        }
        resp.set_rcode(self.rcode);
        let ghost ev = entry_rrsets(self);
        let ghost el = now - self.init_time;
        let ac = self.answer_rrset_count as usize;
        let mut i: usize = 0;
        proof {
            assert(resp@.answers =~= Seq::new(0nat, |t: int| ttl_decayed(ev[t], el)));
        }
        while i < ac
            invariant
                self.wf(),
                i <= ac,
                ac == self.answer_rrset_count,
                ev == entry_rrsets(self),
                el == now - self.init_time,
                now < self.expire_time,
                self.init_time <= now,
                elapsed == el,
                ac <= self.rrsets@.len(),
                resp.wf(),
                resp.header.id == req.header.id,
                spec_flag_set(resp.header.flag, HeaderFlag::QueryResponse),
                spec_flag_set(resp.header.flag, HeaderFlag::RecursionAvailable),
                resp.header.rcode == self.rcode,
                resp@.question == req.question@,
                resp@.answers == Seq::new(i as nat, |t: int| ttl_decayed(ev[t], el)),
                resp@.authorities.len() == 0,
                resp@.additionals.len() == 0,
            decreases ac - i,
        {
            let mut rr = clone_rrset(&self.rrsets[i]);
            proof {
                lemma_min_ttl_le(ev, i as int);
                assert(rrset_wf(ev[i as int]));
                lemma_rrs_prefix(ev, i as int);
            }
            if rr.ttl.0 <= elapsed {
                rr.ttl = RRTtl(1);
            } else {
                rr.ttl = RRTtl(rr.ttl.0 - elapsed);
            }
            proof {
                assert(rr@ == ttl_decayed(ev[i as int], el));
                crate::message::lemma_total_rrs_within(ev, 0, i as int);
                assert(ev.subrange(0, i as int) =~= ev.take(i as int));
                crate::message::lemma_total_rrs_same_shape(resp@.answers, ev.take(i as int));
                assert(section_of(resp@, SectionType::Answer) == resp@.answers);
            }
            resp.add_rrset(SectionType::Answer, rr);
            proof {
                assert(section_of(resp@, SectionType::Answer) == resp@.answers);
                assert(section_of(resp@, SectionType::Authority) == resp@.authorities);
                assert(section_of(resp@, SectionType::Additional) == resp@.additionals);
                assert(resp@.answers =~= Seq::new(i as nat + 1, |t: int| ttl_decayed(ev[t], el)));
            }
            i += 1;
        }
        let auc = self.auth_rrset_count as usize;
        let mut j: usize = 0;
        proof {
            assert(resp@.authorities =~= Seq::new(
                0nat,
                |t: int| ttl_decayed(ev[ac as int + t], el),
            ));
        }
        while j < auc
            invariant
                self.wf(),
                j <= auc,
                ac == self.answer_rrset_count,
                auc == self.auth_rrset_count,
                ev == entry_rrsets(self),
                el == now - self.init_time,
                now < self.expire_time,
                self.init_time <= now,
                elapsed == el,
                ac + auc == self.rrsets@.len(),
                resp.wf(),
                resp.header.id == req.header.id,
                spec_flag_set(resp.header.flag, HeaderFlag::QueryResponse),
                spec_flag_set(resp.header.flag, HeaderFlag::RecursionAvailable),
                resp.header.rcode == self.rcode,
                resp@.question == req.question@,
                resp@.answers == Seq::new(ac as nat, |t: int| ttl_decayed(ev[t], el)),
                resp@.authorities == Seq::new(
                    j as nat,
                    |t: int| ttl_decayed(ev[ac as int + t], el),
                ),
                resp@.additionals.len() == 0,
            decreases auc - j,
        {
            let mut rr = clone_rrset(&self.rrsets[ac + j]);
            proof {
                lemma_min_ttl_le(ev, ac as int + j as int);
                assert(rrset_wf(ev[ac as int + j as int]));
                lemma_rrs_prefix(ev, ac as int + j as int);
            }
            if rr.ttl.0 <= elapsed {
                rr.ttl = RRTtl(1);
            } else {
                rr.ttl = RRTtl(rr.ttl.0 - elapsed);
            }
            proof {
                assert(rr@ == ttl_decayed(ev[ac as int + j as int], el));
                crate::message::lemma_total_rrs_within(ev, ac as int, ac as int + j as int);
                crate::message::lemma_total_rrs_same_shape(
                    resp@.authorities,
                    ev.subrange(ac as int, ac as int + j as int),
                );
                assert(section_of(resp@, SectionType::Authority) == resp@.authorities);
            }
            resp.add_rrset(SectionType::Authority, rr);
            proof {
                assert(section_of(resp@, SectionType::Answer) == resp@.answers);
                assert(section_of(resp@, SectionType::Authority) == resp@.authorities);
                assert(section_of(resp@, SectionType::Additional) == resp@.additionals);
                assert(resp@.authorities =~= Seq::new(
                    j as nat + 1,
                    |t: int| ttl_decayed(ev[ac as int + t], el),
                ));
            }
            j += 1;
        }
        Some(resp)
    }
}

/// A single record set's records are no more than the whole's.
proof fn lemma_rrs_prefix(rs: Seq<RRsetV>, i: int)
    requires
        0 <= i < rs.len(),
    ensures
        rs[i].rdatas.len() <= total_rrs(rs),
    decreases rs.len(),
{
    crate::message::lemma_total_rrs_nonneg(rs.skip(1));
    if i == 0 {
    } else {
        lemma_rrs_prefix(rs.skip(1), i - 1);
        assert(rs.skip(1)[i - 1] == rs[i]);
    }
}

} // verus!
