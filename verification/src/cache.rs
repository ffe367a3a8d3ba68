//! The split message cache: one bounded LRU map for positive responses
//! (those with answers) and one for negative responses. Lookup tries the
//! positive side first.

use vstd::prelude::*;
use crate::entry_key::EntryKeyV;
use crate::message::{Request, Response};
use crate::message_cache::{MessageLruCache, hit_shape, miss_shape, add_shape, key_index};
use crate::message_cache_entry::replayed;

verus! {

/// The positive/negative split cache.
pub struct MessageCache {
    pub positive_cache: MessageLruCache,
    pub negative_cache: MessageLruCache,
}

impl MessageCache {
    pub open spec fn wf(&self) -> bool {
        self.positive_cache.wf() && self.negative_cache.wf()
    }

    /// Every stored entry was inserted at or before `now`.
    pub open spec fn inits_le(&self, now: u64) -> bool {
        &&& forall|i: int|
            0 <= i < self.positive_cache.contents().len() ==> (#[trigger] self.positive_cache.contents()[i]).1.init_time <= now
        &&& forall|i: int|
            0 <= i < self.negative_cache.contents().len() ==> (#[trigger] self.negative_cache.contents()[i]).1.init_time <= now
    }

    pub fn new(cap: usize) -> (r: MessageCache)
        requires
            cap >= 1,
        ensures
            r.wf(),
            r.positive_cache.contents().len() == 0,
            r.negative_cache.contents().len() == 0,
            r.positive_cache.cap() == cap,
            r.negative_cache.cap() == cap,
    {
        MessageCache {
            positive_cache: MessageLruCache::new(cap),
            negative_cache: MessageLruCache::new(cap),
        }
    }

    /// Stored pairs over both sides.
    pub fn len(&self) -> (n: usize)
        requires
            self.positive_cache.contents().len() + self.negative_cache.contents().len()
                <= usize::MAX,
        ensures
            n == self.positive_cache.contents().len() + self.negative_cache.contents().len(),
    {
        self.positive_cache.len() + self.negative_cache.len()
    }

    /// Replay a cached response for the question: the positive side answers
    /// first; the negative side only on a positive miss.
    pub fn gen_response(&mut self, req: &Request, now: u64) -> (r: Option<Response>)
        requires
            old(self).wf(),
            req.wf(),
            old(self).inits_le(now),
        ensures
            final(self).wf(),
            ({
                let k = EntryKeyV { name: req.question@.name, typ: req.question@.typ };
                let ppre = old(self).positive_cache.contents();
                let npre = old(self).negative_cache.contents();
                let ppost = final(self).positive_cache.contents();
                let npost = final(self).negative_cache.contents();
                match r {
                    Some(resp) => {
                        &&& resp.wf()
                        &&& if hit_shape(ppre, ppost, k, now) {
                            &&& replayed(ppre[key_index(ppre, k)].1, req, now, resp)
                            &&& npost == npre
                        } else {
                            &&& miss_shape(ppre, ppost, k, now)
                            &&& hit_shape(npre, npost, k, now)
                            &&& replayed(npre[key_index(npre, k)].1, req, now, resp)
                        }
                    },
                    None => miss_shape(ppre, ppost, k, now) && miss_shape(npre, npost, k, now),
                }
            }),
    {
        let r = self.positive_cache.gen_response(req, now);
        match r {
            Some(resp) => Some(resp),
            None => self.negative_cache.gen_response(req, now),
        }
    }

    /// Insert a response on the side its answer count selects.
    pub fn add_response(&mut self, resp: Response, now: u64)
        requires
            old(self).wf(),
            resp.wf(),
            resp@.answers.len() <= 0xFFFF,
            resp@.authorities.len() <= 0xFFFF,
            now <= 0xFFFF_FFFF_0000_0000,
        ensures
            final(self).wf(),
            if resp.header.an_count > 0 {
                add_shape(
                    old(self).positive_cache.contents(),
                    final(self).positive_cache.contents(),
                    old(self).positive_cache.cap(),
                    resp,
                    now,
                ) && final(self).negative_cache.contents() == old(
                    self,
                ).negative_cache.contents()
            } else {
                add_shape(
                    old(self).negative_cache.contents(),
                    final(self).negative_cache.contents(),
                    old(self).negative_cache.cap(),
                    resp,
                    now,
                ) && final(self).positive_cache.contents() == old(
                    self,
                ).positive_cache.contents()
            },
    {
        if resp.header.an_count > 0 {
            self.positive_cache.add_response(resp, now);
        } else {
            self.negative_cache.add_response(resp, now);
        }
    }
}

} // verus!
