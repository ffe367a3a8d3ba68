//! The recursive forwarder core: per-name query counting, the split
//! message cache, and the longest-match forwarder table. One query is
//! resolved in two steps: a local step that answers from the cache (or
//! refuses with a server failure when no forwarder covers the name), and a
//! completion step that caches an upstream reply and re-stamps its id. The
//! socket round trip between the steps happens outside the library.
//!
//! Instants are seconds from one fixed origin and must not run backwards:
//! the cache's contracts ask that no stored entry was inserted after the
//! instant a lookup is made at.

use vstd::prelude::*;
use crate::name::{Name, suffix_of, valid_labels};
use crate::domain_tree::{DomainTree, TreeSearch};
use crate::cache::MessageCache;
use crate::query_statistic::{QueryStatistic, QueryInfo, make_query_info, pairs_view,
    json_of_counts, stat_has_key, stat_key_index, bumped};
use crate::message::{Request, Response, Rcode, HeaderFlag, spec_flag_set};
use crate::message_cache::{hit_shape, miss_shape, add_shape, key_index};
use crate::message_cache_entry::replayed;
use crate::entry_key::EntryKeyV;
use crate::text::ascii_chars;

verus! {

/// The message cache bound of a recursor.
pub const MESSAGE_CACHE_SIZE: usize = 40960;

/// The query counter bound of a recursor.
pub const QUERY_INFO_CACHE_SIZE: usize = 1000;

/// What the local resolution step decided: a finished response, or the
/// address to forward the query to.
pub enum LocalAction {
    Answered(Response),
    Forward(Vec<u8>),
}

/// A server-failure response for the request: id echoed, marked as a
/// response, no sections.
pub open spec fn servfail_shape(req: &Request, r: &Response) -> bool {
    &&& r.header.id == req.header.id
    &&& spec_flag_set(r.header.flag, HeaderFlag::QueryResponse)
    &&& r.header.rcode == Rcode::ServFail
    &&& r@.question.name == req.question@.name
    &&& r@.question.typ == req.question@.typ
    &&& r@.answers.len() == 0
    &&& r@.authorities.len() == 0
    &&& r@.additionals.len() == 0
}

/// The recursor state: forwarders, cache and counters.
pub struct RecursorInner {
    pub forwarders: DomainTree<Vec<u8>>,
    pub cache: MessageCache,
    pub query_stat: QueryStatistic,
}

impl RecursorInner {
    pub open spec fn wf(&self) -> bool {
        &&& self.forwarders.wf()
        &&& self.cache.wf()
        &&& self.query_stat.wf()
    }

    /// Forwarder node `i` covers `q`.
    pub open spec fn fwd_covers(&self, q: Seq<Seq<u8>>, i: int) -> bool {
        0 <= i < self.forwarders.nodes@.len() && suffix_of(self.forwarders.nodes@[i].name@, q)
    }

    pub open spec fn fwd_covered(&self, q: Seq<Seq<u8>>) -> bool {
        exists|i: int| self.fwd_covers(q, i)
    }

    /// Forwarder node `i` is the deepest cover of `q`.
    pub open spec fn fwd_best(&self, q: Seq<Seq<u8>>, i: int) -> bool {
        self.fwd_covers(q, i) && forall|j: int|
            self.fwd_covers(q, j) ==> self.forwarders.nodes@[j].name@.len()
                <= self.forwarders.nodes@[i].name@.len()
    }

    pub fn new() -> (r: RecursorInner)
        ensures
            r.wf(),
            r.forwarders.nodes@.len() == 0,
            r.cache.positive_cache.contents().len() == 0,
            r.cache.negative_cache.contents().len() == 0,
            r.query_stat.contents().len() == 0,
    {
        RecursorInner {
            forwarders: DomainTree::new(),
            cache: MessageCache::new(MESSAGE_CACHE_SIZE),
            query_stat: QueryStatistic::new(QUERY_INFO_CACHE_SIZE),
        }
    }

    /// Count one query for `name`.
    pub fn add_query(&mut self, name: &Name)
        requires
            old(self).wf(),
            valid_labels(name@),
        ensures
            final(self).wf(),
            final(self).forwarders == old(self).forwarders,
            final(self).cache == old(self).cache,
            ({
                let pre = old(self).query_stat.contents();
                let post = final(self).query_stat.contents();
                if stat_has_key(pre, name@) {
                    post == seq![(name@, bumped(pre[stat_key_index(pre, name@)].1))]
                        + pre.remove(stat_key_index(pre, name@))
                } else if pre.len() >= old(self).query_stat.cap() {
                    post == seq![(name@, 1u64)] + pre.drop_last()
                } else {
                    post == seq![(name@, 1u64)] + pre
                }
            }),
    {
        self.query_stat.add_query(name);
    }

    /// Snapshot and reset the query counters, serialised for reporting.
    pub fn collect_query_statistic(&mut self) -> (r: QueryInfo)
        requires
            old(self).wf(),
        ensures
            final(self).wf(),
            final(self).forwarders == old(self).forwarders,
            final(self).cache == old(self).cache,
            final(self).query_stat.contents().len() == 0,
            final(self).query_stat.cap() == old(self).query_stat.cap(),
            exists|sorted: Seq<(Seq<Seq<u8>>, u64)>|
                {
                    &&& #[trigger] sorted.to_multiset() == old(self).query_stat.contents().to_multiset()
                    &&& (forall|i: int, j: int|
                        0 <= i < j < sorted.len() ==> sorted[i].1 >= sorted[j].1)
                    &&& r.top@ == json_of_counts(
                        Seq::new(
                            sorted.len(),
                            |i: int|
                                (
                                    ascii_chars(crate::name::name_text(sorted[i].0)),
                                    sorted[i].1,
                                ),
                        ),
                    )
                },
    {
        let counts = self.query_stat.sort_and_clear();
        let info = make_query_info(&counts);
        proof {
            let sorted = pairs_view(counts);
            assert(Seq::new(
                counts@.len(),
                |i: int| (ascii_chars(crate::name::name_text(counts@[i].0@)), counts@[i].1),
            ) =~= Seq::new(
                sorted.len(),
                |i: int| (ascii_chars(crate::name::name_text(sorted[i].0)), sorted[i].1),
            ));
        }
        info
    }

    /// Install (or replace) the forwarder for a zone name.
    pub fn add_forward(&mut self, zone: Name, addr: Vec<u8>)
        requires
            old(self).wf(),
        ensures
            final(self).wf(),
            final(self).cache == old(self).cache,
            final(self).query_stat == old(self).query_stat,
            final(self).forwarders.has_node(zone@),
            exists|i: int|
                {
                    &&& 0 <= i < final(self).forwarders.nodes@.len()
                    &&& (#[trigger] final(self).forwarders.nodes@[i].name@) == zone@
                    &&& final(self).forwarders.nodes@[i].value@ == addr@
                },
            forall|j: int|
                0 <= j < old(self).forwarders.nodes@.len() && old(self).forwarders.nodes@[j].name@
                    != zone@ ==> exists|j2: int|
                    0 <= j2 < final(self).forwarders.nodes@.len() && (#[trigger] final(self).forwarders.nodes@[j2]) == old(self).forwarders.nodes@[j],
    {
        let ghost zv = zone@;
        let ghost av = addr@;
        let i = self.forwarders.insert(zone, addr);
        proof {
            assert(self.forwarders.nodes@[i as int].name@ == zv);
            assert(self.forwarders.has_node(zv));
            assert forall|j: int|
                0 <= j < old(self).forwarders.nodes@.len() && old(self).forwarders.nodes@[j].name@
                    != zv implies exists|j2: int|
                0 <= j2 < self.forwarders.nodes@.len() && (#[trigger] self.forwarders.nodes@[j2])
                    == old(self).forwarders.nodes@[j] by {
                assert(self.forwarders.nodes@[j] == old(self).forwarders.nodes@[j]);
            }
        }
    }

    /// The deepest forwarder covering `name`, if any.
    pub fn get_forward(&self, name: &Name) -> (r: Option<Vec<u8>>)
        requires
            self.wf(),
        ensures
            match r {
                Some(addr) => exists|i: int|
                    #[trigger] self.fwd_best(name@, i) && addr@ == self.forwarders.nodes@[
                        i
                    ].value@,
                None => !self.fwd_covered(name@),
            },
    {
        match self.forwarders.find(name) {
            TreeSearch::ExactMatch(i) => {
                proof {
                    assert(self.fwd_covers(name@, i as int)) by {
                        assert(name@.skip(0) =~= name@);
                    }
                    assert(self.fwd_best(name@, i as int));
                }
                Some(crate::name::clone_bytes(self.forwarders.value(i)))
            },
            TreeSearch::PartialMatch(i) => {
                proof {
                    assert forall|j: int|
                        self.fwd_covers(name@, j) implies self.forwarders.nodes@[j].name@.len()
                        <= self.forwarders.nodes@[i as int].name@.len() by {
                        if self.forwarders.nodes@[j].name@.len() == name@.len() {
                            assert(name@.skip(0) =~= name@);
                            assert(self.forwarders.has_node(name@));
                        }
                    }
                    assert(self.fwd_best(name@, i as int));
                }
                Some(crate::name::clone_bytes(self.forwarders.value(i)))
            },
            TreeSearch::NotFound => {
                proof {
                    assert forall|i: int| !(#[trigger] self.fwd_covers(name@, i)) by {
                        if self.fwd_covers(name@, i) {
                            if self.forwarders.nodes@[i].name@.len() == name@.len() {
                                assert(name@.skip(0) =~= name@);
                                assert(self.forwarders.has_node(name@));
                            } else {
                                assert(self.forwarders.has_ancestor(name@));
                            }
                        }
                    }
                }
                None
            },
        }
    }

    /// Replay a cached response for the request, if one is live.
    pub fn gen_response(&mut self, req: &Request, now: u64) -> (r: Option<Response>)
        requires
            old(self).wf(),
            req.wf(),
            old(self).cache.inits_le(now),
        ensures
            final(self).wf(),
            final(self).forwarders == old(self).forwarders,
            final(self).query_stat == old(self).query_stat,
            ({
                let k = EntryKeyV { name: req.question@.name, typ: req.question@.typ };
                let ppre = old(self).cache.positive_cache.contents();
                let npre = old(self).cache.negative_cache.contents();
                let ppost = final(self).cache.positive_cache.contents();
                let npost = final(self).cache.negative_cache.contents();
                match r {
                    Some(resp) => {
                        &&& resp.wf()
                        &&& if hit_shape(ppre, ppost, k, now) {
                            &&& replayed(ppre[key_index(ppre, k)].1, req, now, resp)
                            &&& npost == npre
                        } else {
                            &&& miss_shape(ppre, ppost, k, now)
                            &&& hit_shape(npre, npost, k, now)
                            &&& replayed(npre[key_index(npre, k)].1, req, now, resp)
                        }
                    },
                    None => miss_shape(ppre, ppost, k, now) && miss_shape(npre, npost, k, now),
                }
            }),
    {
        self.cache.gen_response(req, now)
    }

    /// Cache an upstream response.
    pub fn add_response(&mut self, resp: Response, now: u64)
        requires
            old(self).wf(),
            resp.wf(),
            resp@.answers.len() <= 0xFFFF,
            resp@.authorities.len() <= 0xFFFF,
            now <= 0xFFFF_FFFF_0000_0000,
        ensures
            final(self).wf(),
            final(self).forwarders == old(self).forwarders,
            final(self).query_stat == old(self).query_stat,
            if resp.header.an_count > 0 {
                add_shape(
                    old(self).cache.positive_cache.contents(),
                    final(self).cache.positive_cache.contents(),
                    old(self).cache.positive_cache.cap(),
                    resp,
                    now,
                ) && final(self).cache.negative_cache.contents() == old(self).cache.negative_cache.contents()
            } else {
                add_shape(
                    old(self).cache.negative_cache.contents(),
                    final(self).cache.negative_cache.contents(),
                    old(self).cache.negative_cache.cap(),
                    resp,
                    now,
                ) && final(self).cache.positive_cache.contents() == old(self).cache.positive_cache.contents()
            },
    {
        self.cache.add_response(resp, now);
    }

    /// The local resolution step: count the query, try the cache, and
    /// otherwise either name the forwarder to ask or fail the query.
    pub fn resolve_locally(&mut self, req: &Request, now: u64) -> (r: LocalAction)
        requires
            old(self).wf(),
            req.wf(),
            old(self).cache.inits_le(now),
        ensures
            final(self).wf(),
            final(self).forwarders == old(self).forwarders,
            ({
                let k = EntryKeyV { name: req.question@.name, typ: req.question@.typ };
                let ppre = old(self).cache.positive_cache.contents();
                let npre = old(self).cache.negative_cache.contents();
                let ppost = final(self).cache.positive_cache.contents();
                let npost = final(self).cache.negative_cache.contents();
                match r {
                    LocalAction::Answered(resp) => {
                        ||| {
                            &&& resp.wf()
                            &&& if hit_shape(ppre, ppost, k, now) {
                                &&& replayed(ppre[key_index(ppre, k)].1, req, now, resp)
                                &&& npost == npre
                            } else {
                                &&& miss_shape(ppre, ppost, k, now)
                                &&& hit_shape(npre, npost, k, now)
                                &&& replayed(npre[key_index(npre, k)].1, req, now, resp)
                            }
                        }
                        ||| {
                            &&& miss_shape(ppre, ppost, k, now)
                            &&& miss_shape(npre, npost, k, now)
                            &&& !old(self).fwd_covered(req.question@.name)
                            &&& servfail_shape(req, &resp)
                            &&& resp.wf()
                        }
                    },
                    LocalAction::Forward(addr) => {
                        &&& miss_shape(ppre, ppost, k, now)
                        &&& miss_shape(npre, npost, k, now)
                        &&& exists|i: int|
                            #[trigger] old(self).fwd_best(req.question@.name, i) && addr@ == old(self).forwarders.nodes@[i].value@
                    },
                }
            }),
    {
        self.add_query(&req.question.name);
        let ghost q = req.question@.name;
        match self.cache.gen_response(req, now) {
            Some(resp) => LocalAction::Answered(resp),
            None => {
                match self.get_forward(&req.question.name) {
                    Some(addr) => {
                        proof {
                            let i = choose|i: int|
                                #[trigger] self.fwd_best(q, i) && addr@ == self.forwarders.nodes@[
                                    i
                                ].value@;
                            assert(old(self).fwd_covers(q, i)) by {
                                assert(self.fwd_covers(q, i));
                            }
                            assert forall|j: int|
                                old(self).fwd_covers(q, j) implies old(
                                self,
                            ).forwarders.nodes@[j].name@.len() <= old(self).forwarders.nodes@[
                                i
                            ].name@.len() by {
                                assert(self.fwd_covers(q, j));
                            }
                            assert(old(self).fwd_best(q, i));
                        }
                        LocalAction::Forward(addr)
                    },
                    None => {
                        proof {
                            assert forall|i: int| !(#[trigger] old(self).fwd_covers(q, i)) by {
                                assert(!self.fwd_covers(q, i));
                            }
                            assert(!old(self).fwd_covered(q));
                        }
                        let mut resp = Response::with_question(
                            req.question.name.clone(),
                            req.question.typ,
                        );
                        resp.set_id(req.header.id);
                        resp.make_response();
                        resp.set_rcode(Rcode::ServFail);
                        LocalAction::Answered(resp)
                    },
                }
            },
        }
    }

    /// The completion step after a forwarded query: cache the upstream
    /// response and hand it back under the client's id.
    pub fn on_forward_reply(&mut self, req: &Request, resp: Response, now: u64) -> (r: Response)
        requires
            old(self).wf(),
            resp.wf(),
            resp@.answers.len() <= 0xFFFF,
            resp@.authorities.len() <= 0xFFFF,
            now <= 0xFFFF_FFFF_0000_0000,
        ensures
            final(self).wf(),
            final(self).forwarders == old(self).forwarders,
            final(self).query_stat == old(self).query_stat,
            r.header.id == req.header.id,
            r.header.flag == resp.header.flag,
            r.header.rcode == resp.header.rcode,
            r@.question == resp@.question,
            r@.answers == resp@.answers,
            r@.authorities == resp@.authorities,
            r@.additionals == resp@.additionals,
            r.wf(),
            if resp.header.an_count > 0 {
                add_shape(
                    old(self).cache.positive_cache.contents(),
                    final(self).cache.positive_cache.contents(),
                    old(self).cache.positive_cache.cap(),
                    resp,
                    now,
                ) && final(self).cache.negative_cache.contents() == old(self).cache.negative_cache.contents()
            } else {
                add_shape(
                    old(self).cache.negative_cache.contents(),
                    final(self).cache.negative_cache.contents(),
                    old(self).cache.negative_cache.cap(),
                    resp,
                    now,
                ) && final(self).cache.positive_cache.contents() == old(self).cache.positive_cache.contents()
            },
    {
        let cloned = crate::message::clone_response(&resp);
        proof {
            assert(cloned.wf());
            assert(cloned.header == resp.header);
        }
        self.cache.add_response(cloned, now);
        let mut out = resp;
        out.set_id(req.header.id);
        out
    }
}

} // verus!
