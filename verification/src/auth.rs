//! The authoritative handler: a set of zones indexed by origin. A query is
//! answered by the deepest zone whose origin covers the queried name; a name
//! no zone covers is refused.

use vstd::prelude::*;
use crate::name::{Name, suffix_of, valid_labels, labels_wire_len};
use crate::rrset::{RRset, RRsetV, RRType, rrset_wf};
use crate::domain_tree::{DomainTree, TreeSearch};
use crate::zone::{
    MemoryZone, FindMode, FindResult, rrset_of_type, has_type, glue_of, add_rrset_model,
    lemma_exact_index_is,
};
use crate::zone_content_generator::{default_soa, default_ns_and_glue, default_soa_v, default_ns_v,
    default_glue_v, ns_name_of};
use crate::message::{Request, Response, Rcode, HeaderFlag, SectionType, spec_flag_set, total_rrs, section_of};
use crate::text::ipv4_val;

verus! {

/// Why an administrative operation was rejected.
#[derive(PartialEq, Eq, Structural, Clone, Copy, Debug)]
pub enum AuthError {
    DuplicateZone,
    UnknownZone,
    BadAddress,
}

/// A freshly seeded zone: the apex carries the default SOA and NS, and,
/// when addresses were given, `ns.<origin>` carries their glue A records.
pub open spec fn seeded_zone(z: MemoryZone, origin: Seq<Seq<u8>>, addrs: Seq<u32>) -> bool {
    &&& z.origin@ == origin
    &&& z.domains.nodes@.len() == if addrs.len() == 0 {
        1int
    } else {
        2int
    }
    &&& z.domains.nodes@[0].name@ == origin
    &&& z.domains.nodes@[0].callback == false
    &&& z.rrsets_at(0) == seq![default_soa_v(origin), default_ns_v(origin)]
    &&& addrs.len() > 0 ==> {
        &&& z.domains.nodes@[1].name@ == ns_name_of(origin)
        &&& z.domains.nodes@[1].callback == false
        &&& z.rrsets_at(1) == seq![default_glue_v(origin, addrs)]
    }
}

/// The authoritative zone set.
pub struct Auth {
    pub zones: DomainTree<MemoryZone>,
}

impl Auth {
    /// Every zone is well formed, sits under its own origin, and keeps an
    /// SOA record set at its apex.
    pub open spec fn wf(&self) -> bool {
        &&& self.zones.wf()
        &&& forall|i: int|
            0 <= i < self.zones.nodes@.len() ==> (#[trigger] self.zones.nodes@[i].value).wf()
        &&& forall|i: int|
            0 <= i < self.zones.nodes@.len() ==> (#[trigger] self.zones.nodes@[i].value).origin@
                == self.zones.nodes@[i].name@
        &&& forall|i: int|
            0 <= i < self.zones.nodes@.len() ==> (#[trigger] self.zones.nodes@[i].value).find_rrset(
                self.zones.nodes@[i].value.origin@,
                RRType::SOA,
            ) is Some
    }

    /// Zone `i`'s origin covers `q`.
    pub open spec fn covers(&self, q: Seq<Seq<u8>>, i: int) -> bool {
        0 <= i < self.zones.nodes@.len() && suffix_of(self.zones.nodes@[i].name@, q)
    }

    pub open spec fn zone_covered(&self, q: Seq<Seq<u8>>) -> bool {
        exists|i: int| self.covers(q, i)
    }

    /// Zone `i` is the deepest zone covering `q`.
    pub open spec fn best_cover(&self, q: Seq<Seq<u8>>, i: int) -> bool {
        self.covers(q, i) && forall|j: int|
            self.covers(q, j) ==> self.zones.nodes@[j].name@.len() <= self.zones.nodes@[
                i
            ].name@.len()
    }

    pub fn new() -> (r: Auth)
        ensures
            r.zones.nodes@.len() == 0,
            r.wf(),
    {
        Auth { zones: DomainTree::new() }
    }

    /// Create a zone seeded with the default SOA, NS and glue. Fails on an
    /// existing origin or an unparsable address, leaving the set unchanged.
    pub fn add_zone(&mut self, name: Name, ip_addrs: &Vec<Vec<u8>>) -> (r: Result<(), AuthError>)
        requires
            old(self).wf(),
            valid_labels(name@),
            labels_wire_len(name@) + 3 <= 255,
            ip_addrs@.len() <= 65535,
        ensures
            final(self).wf(),
            match r {
                Ok(()) => {
                    &&& !old(self).zones.has_node(name@)
                    &&& forall|i: int|
                        0 <= i < ip_addrs@.len() ==> ipv4_val(#[trigger] ip_addrs@[i]@) is Some
                    &&& final(self).zones.nodes@.len() == old(self).zones.nodes@.len() + 1
                    &&& forall|j: int|
                        0 <= j < old(self).zones.nodes@.len() ==> final(self).zones.nodes@[j]
                            == old(self).zones.nodes@[j]
                    &&& final(self).zones.nodes@[old(self).zones.nodes@.len() as int].name@
                        == name@
                    &&& seeded_zone(
                        final(self).zones.nodes@[old(self).zones.nodes@.len() as int].value,
                        name@,
                        Seq::new(ip_addrs@.len(), |i: int| ipv4_val(ip_addrs@[i]@)->Some_0),
                    )
                },
                Err(AuthError::DuplicateZone) => old(self).zones.has_node(name@) && final(self).zones.nodes@ == old(self).zones.nodes@,
                Err(AuthError::BadAddress) => {
                    &&& !old(self).zones.has_node(name@)
                    &&& exists|i: int|
                        0 <= i < ip_addrs@.len() && ipv4_val(#[trigger] ip_addrs@[i]@) is None
                    &&& final(self).zones.nodes@ == old(self).zones.nodes@
                },
                Err(AuthError::UnknownZone) => false,
            },
    {
        match self.zones.find(&name) {
            TreeSearch::ExactMatch(_) => Err(AuthError::DuplicateZone),
            _ => {
                let pair = match default_ns_and_glue(&name, ip_addrs) {
                    Some(p) => p,
                    None => {
                        return Err(AuthError::BadAddress);
                    },
                };
                let (ns, glue) = pair;
                let ghost addrs = Seq::new(
                    ip_addrs@.len(),
                    |i: int| ipv4_val(ip_addrs@[i]@)->Some_0,
                );
                let mut zone = MemoryZone::new(name.clone());
                zone.add_rrset(default_soa(&name));
                proof {
                    assert(zone.domains.nodes@.len() == 1);
                    assert(zone.rrsets_at(0) =~= seq![default_soa_v(name@)]);
                    lemma_exact_index_is(&zone, name@, 0);
                    assert(!has_type(seq![default_soa_v(name@)], RRType::NS)) by {
                        if has_type(seq![default_soa_v(name@)], RRType::NS) {
                            let k = crate::zone::type_index(
                                seq![default_soa_v(name@)],
                                RRType::NS,
                            );
                            assert(seq![default_soa_v(name@)][k].typ == RRType::NS);
                        }
                    }
                }
                zone.add_rrset(ns);
                proof {
                    assert(zone.domains.nodes@.len() == 1);
                    assert(zone.rrsets_at(0) =~= seq![default_soa_v(name@), default_ns_v(name@)]);
                    assert(zone.domains.nodes@[0].callback == false);
                }
                if glue.rr_count() > 0 {
                    proof {
                        assert(glue@.name == ns_name_of(name@));
                        assert(ns_name_of(name@).len() == name@.len() + 1);
                        assert(!zone.domains.has_node(ns_name_of(name@))) by {
                            if zone.domains.has_node(ns_name_of(name@)) {
                                let k = choose|k: int|
                                    0 <= k < zone.domains.nodes@.len() && (
                                    #[trigger] zone.domains.nodes@[k].name@) == ns_name_of(name@);
                                assert(k == 0);
                            }
                        }
                    }
                    zone.add_rrset(glue);
                    proof {
                        assert(zone.domains.nodes@.len() == 2);
                        assert(zone.rrsets_at(1) =~= seq![default_glue_v(name@, addrs)]);
                        assert(zone.domains.nodes@[1].callback == false);
                        assert(zone.domains.nodes@[0].name@ == name@);
                        assert(zone.rrsets_at(0) =~= seq![
                            default_soa_v(name@),
                            default_ns_v(name@),
                        ]);
                    }
                } else {
                    proof {
                        assert(glue@.rdatas.len() == 0);
                        assert(addrs.len() == 0);
                    }
                }
                proof {
                    assert(seeded_zone(zone, name@, addrs));
                    lemma_exact_index_is(&zone, name@, 0);
                    assert(has_type(zone.rrsets_at(0), RRType::SOA)) by {
                        assert(zone.rrsets_at(0)[0].typ == RRType::SOA);
                    }
                    assert(zone.find_rrset(name@, RRType::SOA) is Some);
                }
                let ghost zv = zone;
                let i = self.zones.insert(name, zone);
                proof {
                    assert forall|j: int|
                        0 <= j < self.zones.nodes@.len() implies (
                    #[trigger] self.zones.nodes@[j].value).wf() && self.zones.nodes@[j].value.origin@
                        == self.zones.nodes@[j].name@ && self.zones.nodes@[j].value.find_rrset(
                        self.zones.nodes@[j].value.origin@,
                        RRType::SOA,
                    ) is Some by {
                        if j < old(self).zones.nodes@.len() {
                            assert(self.zones.nodes@[j] == old(self).zones.nodes@[j]);
                        } else {
                            assert(self.zones.nodes@[j].value == zv);
                        }
                    }
                }
                Ok(())
            },
        }
    }

    /// Insert a record set into the zone whose origin is exactly `zone`.
    pub fn add_rrset(&mut self, zone: &Name, rrset: RRset) -> (r: Result<(), AuthError>)
        requires
            old(self).wf(),
            rrset_wf(rrset@),
        ensures
            final(self).wf(),
            match r {
                Ok(()) => {
                    &&& old(self).zones.has_node(zone@)
                    &&& exists|i: int|
                        {
                            &&& 0 <= i < old(self).zones.nodes@.len()
                            &&& (#[trigger] old(self).zones.nodes@[i].name@) == zone@
                            &&& add_rrset_model(
                                old(self).zones.nodes@[i].value,
                                final(self).zones.nodes@[i].value,
                                rrset@,
                            )
                            &&& final(self).zones.nodes@.len() == old(self).zones.nodes@.len()
                            &&& final(self).zones.nodes@[i].name@ == zone@
                            &&& forall|j: int|
                                0 <= j < old(self).zones.nodes@.len() && j != i ==> final(self).zones.nodes@[j] == old(self).zones.nodes@[j]
                        }
                },
                Err(AuthError::UnknownZone) => !old(self).zones.has_node(zone@) && final(self).zones.nodes@ == old(self).zones.nodes@,
                _ => false,
            },
    {
        match self.zones.find(zone) {
            TreeSearch::ExactMatch(i) => {
                let ghost pre_zone = self.zones.nodes@[i as int].value;
                let node = &mut self.zones.nodes[i];
                node.value.add_rrset(rrset);
                proof {
                    assert(old(self).zones.has_node(zone@));
                    crate::zone::lemma_add_keeps_apex_soa(
                        pre_zone,
                        self.zones.nodes@[i as int].value,
                        rrset@,
                    );
                    assert forall|j: int|
                        0 <= j < self.zones.nodes@.len() implies (
                    #[trigger] self.zones.nodes@[j].value).wf() && self.zones.nodes@[j].value.origin@
                        == self.zones.nodes@[j].name@ && self.zones.nodes@[j].value.find_rrset(
                        self.zones.nodes@[j].value.origin@,
                        RRType::SOA,
                    ) is Some by {
                        if j != i {
                            assert(self.zones.nodes@[j] == old(self).zones.nodes@[j]);
                        }
                    }
                    assert forall|p: int, q2: int|
                        0 <= p < q2 < self.zones.nodes@.len() implies (
                    #[trigger] self.zones.nodes@[p].name@) != (
                    #[trigger] self.zones.nodes@[q2].name@) by {
                        assert(self.zones.nodes@[p].name@ == old(self).zones.nodes@[p].name@);
                        assert(self.zones.nodes@[q2].name@ == old(self).zones.nodes@[q2].name@);
                    }
                }
                Ok(())
            },
            _ => Err(AuthError::UnknownZone),
        }
    }
}


/// What the response to a query answered by zone `z` must hold: the
/// delegation cut answers first; otherwise the exact record set, the
/// missing type, or the missing name decide.
pub open spec fn zone_answer(z: MemoryZone, q: Seq<Seq<u8>>, t: RRType, r: &Response) -> bool {
    if z.has_delegation(q) {
        exists|ns: RRsetV|
            {
                &&& #[trigger] delegation_answer(z, q, ns)
                &&& r.header.rcode == Rcode::NoError
                &&& r@.answers.len() == 0
                &&& r@.authorities == seq![ns]
                &&& glue_prefix(z, ns, r@.additionals)
            }
    } else if z.find_rrset(q, t) is Some {
        &&& r.header.rcode == Rcode::NoError
        &&& r@.answers == seq![z.find_rrset(q, t)->Some_0]
        &&& r@.authorities.len() == 0
        &&& r@.additionals.len() == 0
    } else if z.domains.has_node(q) {
        &&& r.header.rcode == Rcode::NoError
        &&& r@.answers.len() == 0
        &&& r@.authorities.len() == 0
        &&& r@.additionals.len() == 0
    } else {
        &&& r.header.rcode == Rcode::NXDomain
        &&& r@.answers.len() == 0
        &&& r@.authorities == seq![z.find_rrset(z.origin@, RRType::SOA)->Some_0]
        &&& r@.additionals.len() == 0
    }
}

/// `ns` is the NS record set of the shallowest delegation cut covering `q`.
pub open spec fn delegation_answer(z: MemoryZone, q: Seq<Seq<u8>>, ns: RRsetV) -> bool {
    exists|i: int|
        {
            &&& #[trigger] z.deleg_node(q, i)
            &&& Some(ns) == rrset_of_type(z.rrsets_at(i), RRType::NS)
            &&& forall|j: int|
                z.deleg_node(q, j) ==> z.domains.nodes@[i].name@.len() <= z.domains.nodes@[
                    j
                ].name@.len()
        }
}

/// `adds` is the longest prefix of the glue for `ns` whose record total
/// still fits the additional-section count.
pub open spec fn glue_prefix(z: MemoryZone, ns: RRsetV, adds: Seq<RRsetV>) -> bool {
    let glue = glue_of(&z, ns.rdatas);
    exists|m: int|
        {
            &&& 0 <= m <= glue.len()
            &&& adds == #[trigger] glue.take(m)
            &&& (m < glue.len() ==> total_rrs(glue.take(m)) + glue[m].rdatas.len() > 0xFFFF)
        }
}

/// What `Auth::resolve` promises of its response.
pub open spec fn resolve_ensures(a: &Auth, req: &Request, r: &Response) -> bool {
    let q = req.question@.name;
    let t = req.question@.typ;
    &&& r.header.id == req.header.id
    &&& spec_flag_set(r.header.flag, HeaderFlag::QueryResponse)
    &&& r@.question.name == q
    &&& r@.question.typ == t
    &&& (!a.zone_covered(q) ==> r.header.rcode == Rcode::Refused && r@.answers.len() == 0
        && r@.authorities.len() == 0 && r@.additionals.len() == 0)
    &&& forall|i: int|
        #[trigger] a.best_cover(q, i) ==> zone_answer(a.zones.nodes@[i].value, q, t, r)
}

impl Auth {
    /// Serve one query: locate the deepest covering zone and answer from
    /// it, or refuse the query.
    pub fn resolve(&self, req: &Request) -> (r: Response)
        requires
            self.wf(),
            req.wf(),
        ensures
            r.wf(),
            resolve_ensures(self, req, &r),
    {
        let mut resp = Response::with_question(req.question.name.clone(), req.question.typ);
        resp.set_id(req.header.id);
        resp.make_response();
        let ghost q = req.question@.name;
        match self.zones.find(&req.question.name) {
            TreeSearch::NotFound => {
                resp.set_rcode(Rcode::Refused);
                proof {
                    assert forall|i: int| !(#[trigger] self.covers(q, i)) by {
                        if self.covers(q, i) {
                            if self.zones.nodes@[i].name@.len() == q.len() {
                                assert(q.skip(0) =~= q);
                                assert(self.zones.has_node(q));
                            } else {
                                assert(self.zones.has_ancestor(q));
                            }
                        }
                    }
                }
                resp
            },
            TreeSearch::ExactMatch(i) => {
                proof {
                    assert(self.covers(q, i as int)) by {
                        assert(q.skip(0) =~= q);
                    }
                    assert forall|j: int|
                        self.covers(q, j) implies self.zones.nodes@[j].name@.len()
                        <= self.zones.nodes@[i as int].name@.len() by {}
                    assert(self.best_cover(q, i as int));
                }
                self.answer_from_zone(req, resp, i)
            },
            TreeSearch::PartialMatch(i) => {
                proof {
                    assert forall|j: int|
                        self.covers(q, j) implies self.zones.nodes@[j].name@.len()
                        <= self.zones.nodes@[i as int].name@.len() by {
                        if self.zones.nodes@[j].name@.len() == q.len() {
                            assert(q.skip(0) =~= q);
                            assert(self.zones.has_node(q));
                        }
                    }
                    assert(self.best_cover(q, i as int));
                }
                self.answer_from_zone(req, resp, i)
            },
        }
    }

    /// Answer a query from zone `zi`, which must be the deepest cover.
    fn answer_from_zone(&self, req: &Request, resp: Response, zi: usize) -> (r: Response)
        requires
            self.wf(),
            req.wf(),
            zi < self.zones.nodes@.len(),
            self.best_cover(req.question@.name, zi as int),
            resp.wf(),
            resp@.question.name == req.question@.name,
            resp@.question.typ == req.question@.typ,
            resp.header.id == req.header.id,
            spec_flag_set(resp.header.flag, HeaderFlag::QueryResponse),
            resp.header.rcode == Rcode::NoError,
            resp@.answers.len() == 0,
            resp@.authorities.len() == 0,
            resp@.additionals.len() == 0,
        ensures
            r.wf(),
            resolve_ensures(self, req, &r),
    {
        let mut resp = resp;
        let ghost q = req.question@.name;
        let ghost t = req.question@.typ;
        let zone = self.zones.value(zi);
        let ghost zv = self.zones.nodes@[zi as int].value;
        match zone.find(&req.question.name, req.question.typ, FindMode::DefaultFind) {
            FindResult::Success(rrset) => {
                proof {
                    lemma_found_rrset_wf(zv, q, t);
                }
                resp.add_rrset(SectionType::Answer, rrset);
                proof {
                    assert(section_of(resp@, SectionType::Answer) == resp@.answers);
                    assert(section_of(resp@, SectionType::Authority) == resp@.authorities);
                    assert(section_of(resp@, SectionType::Additional) == resp@.additionals);
                    assert(resp@.answers =~= seq![zv.find_rrset(q, t)->Some_0]);
                    lemma_unique_best_cover(self, q, zi as int);
                    assert(zone_answer(zv, q, t, &resp));
                    assert forall|j: int| #[trigger] self.best_cover(q, j) implies zone_answer(
                        self.zones.nodes@[j].value,
                        q,
                        t,
                        &resp,
                    ) by {
                        assert(j == zi as int);
                    }
                }
                resp
            },
            FindResult::Delegation(ns) => {
                proof {
                    let i = choose|i: int|
                        {
                            &&& #[trigger] zv.deleg_node(q, i)
                            &&& Some(ns@) == rrset_of_type(zv.rrsets_at(i), RRType::NS)
                            &&& forall|j: int|
                                zv.deleg_node(q, j) ==> zv.domains.nodes@[i].name@.len()
                                    <= zv.domains.nodes@[j].name@.len()
                        };
                    assert(zv.deleg_node(q, i));
                    let k = crate::zone::type_index(zv.rrsets_at(i), RRType::NS);
                    assert(zv.rrsets_at(i)[k] == ns@);
                    assert(rrset_wf(ns@));
                    assert(zv.has_delegation(q));
                }
                let glues = match zone.get_glue_for_ns(&ns) {
                    Some(g) => g,
                    None => vstd::pervasive::unreached(),
                };
                let ghost glue = glue_of(&zv, ns@.rdatas);
                proof {
                    assert(crate::zone::rrsets_view(glues) == glue);
                }
                let mut gi: usize = 0;
                let mut total: usize = 0;
                let mut fits = true;
                proof {
                    assert(resp@.additionals =~= glue.take(0));
                    crate::message::lemma_total_rrs_nonneg(glue.take(0));
                    assert(total_rrs(glue.take(0)) == 0) by {
                        assert(glue.take(0) =~= Seq::<RRsetV>::empty());
                    }
                    lemma_glue_wf(zv, ns@.rdatas);
                }
                while gi < glues.len() && fits
                    invariant
                        self.wf(),
                        req.wf(),
                        zi < self.zones.nodes@.len(),
                        zv == self.zones.nodes@[zi as int].value,
                        gi <= glues@.len(),
                        crate::zone::rrsets_view(glues) == glue,
                        glue.len() == glues@.len(),
                        total == total_rrs(glue.take(gi as int)),
                        total <= 0xFFFF,
                        resp.wf(),
                        resp@.question.name == q,
                        resp@.question.typ == req.question@.typ,
                        resp.header.id == req.header.id,
                        spec_flag_set(resp.header.flag, HeaderFlag::QueryResponse),
                        resp.header.rcode == Rcode::NoError,
                        resp@.answers.len() == 0,
                        resp@.authorities.len() == 0,
                        resp@.additionals == glue.take(gi as int),
                        !fits ==> gi < glues@.len() && total_rrs(glue.take(gi as int)) + glue[
                            gi as int
                        ].rdatas.len() > 0xFFFF,
                        forall|kk: int|
                            0 <= kk < glue.len() ==> rrset_wf(#[trigger] glue[kk]),
                    decreases glues@.len() - gi + if fits {
                        1int
                    } else {
                        0int
                    },
                {
                    let cnt = glues[gi].rr_count();
                    proof {
                        assert(rrset_wf(glue[gi as int]));
                        assert(cnt <= 65535);
                    }
                    if total > 65535 - cnt {
                        fits = false;
                    } else {
                        let g = crate::rrset::clone_rrset(&glues[gi]);
                        resp.add_rrset(SectionType::Additional, g);
                        proof {
                    assert(section_of(resp@, SectionType::Answer) == resp@.answers);
                    assert(section_of(resp@, SectionType::Authority) == resp@.authorities);
                    assert(section_of(resp@, SectionType::Additional) == resp@.additionals);
                            crate::message::lemma_total_rrs_parts(
                                glue.take(gi as int),
                                seq![glue[gi as int]],
                            );
                            assert(seq![glue[gi as int]].skip(1) =~= Seq::<RRsetV>::empty());
                            assert(total_rrs(Seq::<RRsetV>::empty()) == 0);
                            assert(glue.take(gi as int) + seq![glue[gi as int]] =~= glue.take(
                                gi as int + 1,
                            ));
                            assert(resp@.additionals =~= glue.take(gi as int + 1));
                        }
                        total = total + cnt;
                        gi = gi + 1;
                    }
                }
                resp.add_rrset(SectionType::Authority, ns);
                proof {
                    assert(section_of(resp@, SectionType::Answer) == resp@.answers);
                    assert(section_of(resp@, SectionType::Authority) == resp@.authorities);
                    assert(section_of(resp@, SectionType::Additional) == resp@.additionals);
                    assert(resp@.authorities =~= seq![ns@]);
                    assert(glue_prefix(zv, ns@, resp@.additionals)) by {
                        let m = gi as int;
                        assert(resp@.additionals == glue.take(m));
                    }
                    assert(delegation_answer(zv, q, ns@));
                    assert(zone_answer(zv, q, t, &resp));
                    lemma_unique_best_cover(self, q, zi as int);
                    assert forall|j: int| #[trigger] self.best_cover(q, j) implies zone_answer(
                        self.zones.nodes@[j].value,
                        q,
                        t,
                        &resp,
                    ) by {
                        assert(j == zi as int);
                    }
                }
                resp
            },
            FindResult::NXRRset => {
                proof {
                    lemma_unique_best_cover(self, q, zi as int);
                    assert(zone_answer(zv, q, t, &resp));
                    assert forall|j: int| #[trigger] self.best_cover(q, j) implies zone_answer(
                        self.zones.nodes@[j].value,
                        q,
                        t,
                        &resp,
                    ) by {
                        assert(j == zi as int);
                    }
                }
                resp
            },
            FindResult::NXDomain => {
                let soa = match zone.get_apex_rrset(RRType::SOA) {
                    Some(soa) => soa,
                    None => vstd::pervasive::unreached(),
                };
                resp.set_rcode(Rcode::NXDomain);
                proof {
                    lemma_found_rrset_wf(zv, zv.origin@, RRType::SOA);
                }
                resp.add_rrset(SectionType::Authority, soa);
                proof {
                    assert(section_of(resp@, SectionType::Answer) == resp@.answers);
                    assert(section_of(resp@, SectionType::Authority) == resp@.authorities);
                    assert(section_of(resp@, SectionType::Additional) == resp@.additionals);
                    assert(resp@.authorities =~= seq![
                        zv.find_rrset(zv.origin@, RRType::SOA)->Some_0
                    ]);
                    lemma_unique_best_cover(self, q, zi as int);
                    assert(zone_answer(zv, q, t, &resp));
                    assert forall|j: int| #[trigger] self.best_cover(q, j) implies zone_answer(
                        self.zones.nodes@[j].value,
                        q,
                        t,
                        &resp,
                    ) by {
                        assert(j == zi as int);
                    }
                }
                resp
            },
        }
    }
}

/// Every record set in the glue of a well-formed zone is well formed.
proof fn lemma_glue_wf(z: MemoryZone, rd: Seq<crate::rrset::RDataV>)
    requires
        z.wf(),
    ensures
        forall|kk: int|
            0 <= kk < glue_of(&z, rd).len() ==> rrset_wf(#[trigger] glue_of(&z, rd)[kk]),
    decreases rd.len(),
{
    if rd.len() > 0 {
        lemma_glue_wf(z, rd.skip(1));
        let head = crate::zone::glue_step(&z, rd[0]);
        assert forall|kk: int|
            0 <= kk < glue_of(&z, rd).len() implies rrset_wf(#[trigger] glue_of(&z, rd)[kk]) by {
            if kk < head.len() {
                match rd[0] {
                    crate::rrset::RDataV::Ns(t) => {
                        if crate::name::suffix_of(z.origin@, t) && z.find_rrset(
                            t,
                            RRType::A,
                        ) is Some {
                            lemma_found_rrset_wf(z, t, RRType::A);
                            assert(glue_of(&z, rd)[kk] == z.find_rrset(t, RRType::A)->Some_0);
                        }
                    },
                    _ => {},
                }
            } else {
                assert(glue_of(&z, rd)[kk] == glue_of(&z, rd.skip(1))[kk - head.len()]);
            }
        }
    }
}

/// A record set that an exact lookup yields is well formed.
proof fn lemma_found_rrset_wf(z: MemoryZone, q: Seq<Seq<u8>>, t: RRType)
    requires
        z.wf(),
        z.find_rrset(q, t) is Some,
    ensures
        rrset_wf(z.find_rrset(q, t)->Some_0),
        z.find_rrset(q, t)->Some_0.rdatas.len() <= 65535,
{
    if !z.domains.has_node(q) {
        assert(z.rrsets_of(q) =~= Seq::<RRsetV>::empty());
        assert(!has_type(Seq::<RRsetV>::empty(), t)) by {
            if has_type(Seq::<RRsetV>::empty(), t) {
                let k = crate::zone::type_index(Seq::<RRsetV>::empty(), t);
            }
        }
    }
    assert(z.domains.has_node(q));
    let i = z.exact_index(q);
    assert(0 <= i < z.domains.nodes@.len() && z.domains.nodes@[i].name@ == q);
    let k = crate::zone::type_index(z.rrsets_at(i), t);
    assert(0 <= k < z.rrsets_at(i).len() && z.rrsets_at(i)[k].typ == t);
    assert(rrset_wf(z.rrsets_at(i)[k]));
}

/// Two deepest covers of the same name are the same zone.
proof fn lemma_unique_best_cover(a: &Auth, q: Seq<Seq<u8>>, i: int)
    requires
        a.wf(),
        a.best_cover(q, i),
    ensures
        forall|j: int| a.best_cover(q, j) ==> j == i,
        a.zone_covered(q),
{
    assert(a.covers(q, i));
    assert forall|j: int| a.best_cover(q, j) implies j == i by {
        assert(a.covers(q, j));
        assert(a.covers(q, i));
        assert(a.zones.nodes@[j].name@.len() <= a.zones.nodes@[i].name@.len());
        assert(a.zones.nodes@[i].name@.len() <= a.zones.nodes@[j].name@.len());
        assert(a.zones.nodes@[i].name@ =~= q.skip(q.len() - a.zones.nodes@[i].name@.len()));
        assert(a.zones.nodes@[j].name@ =~= q.skip(q.len() - a.zones.nodes@[j].name@.len()));
        if i != j {
            if i < j {
                assert(a.zones.nodes@[i].name@ != a.zones.nodes@[j].name@);
            } else {
                assert(a.zones.nodes@[j].name@ != a.zones.nodes@[i].name@);
            }
        }
    }
}

} // verus!
