//! A bounded LRU map from question keys to cached responses, backed by the
//! `lru` crate. The cache's contents are modelled as a recency list, most
//! recent pair first; the crate's operations are trusted to follow it.

use vstd::prelude::*;
use crate::entry_key::{EntryKey, EntryKeyV};
use crate::message_cache_entry::{MessageEntry, entry_rrsets, retained, min_ttl, replayed};
use crate::message::{Request, Response};

verus! {

/// The default capacity when none is given.
pub const DEFAULT_MESSAGE_CACHE_SIZE: usize = 10000;

#[verifier::external_type_specification]
#[verifier::external_body]
#[verifier::reject_recursive_types(K)]
#[verifier::reject_recursive_types(V)]
#[verifier::reject_recursive_types(S)]
pub struct ExLruCache<K, V, S>(lru::LruCache<K, V, S>);

/// What the message cache holds: its pairs, most recently used first.
pub uninterp spec fn msg_contents(c: lru::LruCache<EntryKey, MessageEntry>) -> Seq<
    (EntryKeyV, MessageEntry),
>;

/// The bound the message cache was created with.
pub uninterp spec fn msg_cap(c: lru::LruCache<EntryKey, MessageEntry>) -> nat;

/// Relies on lru::LruCache::new: an empty cache holding at most `cap`
/// pairs.
#[verifier::external_body]
fn msg_lru_new(cap: usize) -> (c: lru::LruCache<EntryKey, MessageEntry>)
    requires
        cap >= 1,
    ensures
        msg_contents(c) == Seq::<(EntryKeyV, MessageEntry)>::empty(),
        msg_cap(c) == cap,
{
    lru::LruCache::new(cap)
}

/// Relies on lru::LruCache::len: the number of stored pairs.
#[verifier::external_body]
fn msg_lru_len(c: &lru::LruCache<EntryKey, MessageEntry>) -> (n: usize)
    ensures
        n == msg_contents(*c).len(),
{
    c.len()
}

/// Relies on lru::LruCache::get: a hit returns the stored value and moves
/// its pair to the front of the recency list; a miss changes nothing.
#[verifier::external_body]
fn msg_lru_get<'a>(c: &'a mut lru::LruCache<EntryKey, MessageEntry>, k: &EntryKey) -> (r: Option<
    &'a MessageEntry,
>)
    ensures
        msg_cap(*final(c)) == msg_cap(*old(c)),
        match r {
            Some(v) => {
                &&& has_key(msg_contents(*old(c)), k@)
                &&& *v == msg_contents(*old(c))[key_index(msg_contents(*old(c)), k@)].1
                &&& msg_contents(*final(c)) == promoted(
                    msg_contents(*old(c)),
                    key_index(msg_contents(*old(c)), k@),
                )
            },
            None => {
                &&& !has_key(msg_contents(*old(c)), k@)
                &&& msg_contents(*final(c)) == msg_contents(*old(c))
            },
        },
{
    c.get(k)
}

/// Relies on lru::LruCache::put: the pair goes to the front; an existing
/// pair under the key leaves the list; a full cache instead drops its
/// least-recently-used pair (the last).
#[verifier::external_body]
fn msg_lru_put(c: &mut lru::LruCache<EntryKey, MessageEntry>, k: EntryKey, v: MessageEntry)
    requires
        msg_cap(*old(c)) >= 1,
    ensures
        msg_cap(*final(c)) == msg_cap(*old(c)),
        ({
            let pre = msg_contents(*old(c));
            let post = msg_contents(*final(c));
            if has_key(pre, k@) {
                post == seq![(k@, v)] + pre.remove(key_index(pre, k@))
            } else if pre.len() >= msg_cap(*old(c)) {
                post == seq![(k@, v)] + pre.drop_last()
            } else {
                post == seq![(k@, v)] + pre
            }
        }),
{
    c.put(k, v);
}

/// The position of `k` in the recency list.
pub open spec fn key_index(s: Seq<(EntryKeyV, MessageEntry)>, k: EntryKeyV) -> int {
    choose|i: int| 0 <= i < s.len() && (#[trigger] s[i]).0 == k
}

pub open spec fn has_key(s: Seq<(EntryKeyV, MessageEntry)>, k: EntryKeyV) -> bool {
    exists|i: int| 0 <= i < s.len() && (#[trigger] s[i]).0 == k
}

/// The recency list after promoting position `i` to the front.
pub open spec fn promoted(s: Seq<(EntryKeyV, MessageEntry)>, i: int) -> Seq<
    (EntryKeyV, MessageEntry),
> {
    seq![s[i]] + s.remove(i)
}

/// Distinct keys throughout the recency list.
pub open spec fn keys_distinct(s: Seq<(EntryKeyV, MessageEntry)>) -> bool {
    forall|i: int, j: int|
        0 <= i < j < s.len() ==> (#[trigger] s[i]).0 != (#[trigger] s[j]).0
}

/// Promotion keeps the pairs and their key distinctness.
proof fn lemma_promote_distinct(s: Seq<(EntryKeyV, MessageEntry)>, i: int)
    requires
        keys_distinct(s),
        0 <= i < s.len(),
    ensures
        keys_distinct(promoted(s, i)),
        promoted(s, i).len() == s.len(),
        forall|j: int|
            0 <= j < s.len() ==> has_key(s, (#[trigger] s[j]).0) == has_key(
                promoted(s, i),
                s[j].0,
            ),
{
    let p = promoted(s, i);
    assert forall|a: int, b: int|
        0 <= a < b < p.len() implies (#[trigger] p[a]).0 != (#[trigger] p[b]).0 by {
        let sa = if a == 0 {
            i
        } else if a <= i {
            a - 1
        } else {
            a
        };
        let sb = if b == 0 {
            i
        } else if b <= i {
            b - 1
        } else {
            b
        };
        assert(p[a] == s[sa]);
        assert(p[b] == s[sb]);
    }
    assert forall|j: int|
        0 <= j < s.len() implies has_key(s, (#[trigger] s[j]).0) == has_key(p, s[j].0) by {
        assert(has_key(s, s[j].0));
        if j == i {
            assert(p[0] == s[i]);
        } else if j < i {
            assert(p[j + 1] == s.remove(i)[j]);
            assert(s.remove(i)[j] == s[j]);
        } else {
            assert(p[j] == s.remove(i)[j - 1]);
            assert(s.remove(i)[j - 1] == s[j]);
        }
        assert(has_key(p, s[j].0));
    }
}

/// Contents after a lookup of `k` that found a live entry: the pair moved
/// to the front.
pub open spec fn hit_shape(
    pre: Seq<(EntryKeyV, MessageEntry)>,
    post: Seq<(EntryKeyV, MessageEntry)>,
    k: EntryKeyV,
    now: u64,
) -> bool {
    &&& has_key(pre, k)
    &&& now < pre[key_index(pre, k)].1.expire_time
    &&& post == promoted(pre, key_index(pre, k))
}

/// Contents after a lookup of `k` that found nothing live: an expired pair
/// still moves to the front; absence changes nothing.
pub open spec fn miss_shape(
    pre: Seq<(EntryKeyV, MessageEntry)>,
    post: Seq<(EntryKeyV, MessageEntry)>,
    k: EntryKeyV,
    now: u64,
) -> bool {
    if has_key(pre, k) {
        &&& now >= pre[key_index(pre, k)].1.expire_time
        &&& post == promoted(pre, key_index(pre, k))
    } else {
        post == pre
    }
}

/// Contents after inserting `resp` at `now`: a live entry under the key is
/// kept (only promoted); otherwise a fresh entry goes to the front, evicting
/// the least-recently-used pair of a full cache.
pub open spec fn add_shape(
    pre: Seq<(EntryKeyV, MessageEntry)>,
    post: Seq<(EntryKeyV, MessageEntry)>,
    cap: nat,
    resp: Response,
    now: u64,
) -> bool {
    let k = EntryKeyV { name: resp@.question.name, typ: resp@.question.typ };
    if has_key(pre, k) && now < pre[key_index(pre, k)].1.expire_time {
        post == promoted(pre, key_index(pre, k))
    } else {
        exists|e: MessageEntry|
            {
                &&& #[trigger] entry_rrsets(&e) == retained(resp@)
                &&& e.rcode == resp.header.rcode
                &&& e.init_time == now
                &&& e.expire_time == now + min_ttl(retained(resp@))
                &&& e.wf()
                &&& if has_key(pre, k) {
                    post == seq![(k, e)] + pre.remove(key_index(pre, k))
                } else if pre.len() >= cap {
                    post == seq![(k, e)] + pre.drop_last()
                } else {
                    post == seq![(k, e)] + pre
                }
            }
    }
}

/// The LRU map from question keys to cached responses.
pub struct MessageLruCache {
    pub responses: lru::LruCache<EntryKey, MessageEntry>,
}

impl MessageLruCache {
    /// The pairs, most recently used first.
    pub open spec fn contents(&self) -> Seq<(EntryKeyV, MessageEntry)> {
        msg_contents(self.responses)
    }

    pub open spec fn cap(&self) -> nat {
        msg_cap(self.responses)
    }

    /// Bounded, keyed once per question, and holding only coherent entries.
    pub open spec fn wf(&self) -> bool {
        &&& self.cap() >= 1
        &&& self.contents().len() <= self.cap()
        &&& keys_distinct(self.contents())
        &&& forall|i: int|
            0 <= i < self.contents().len() ==> (#[trigger] self.contents()[i]).1.wf()
    }

    /// An empty cache; a zero capacity means the default.
    pub fn new(cap: usize) -> (r: MessageLruCache)
        ensures
            r.wf(),
            r.contents().len() == 0,
            r.cap() == if cap == 0 {
                DEFAULT_MESSAGE_CACHE_SIZE as nat
            } else {
                cap as nat
            },
    {
        let c = if cap == 0 {
            msg_lru_new(DEFAULT_MESSAGE_CACHE_SIZE)
        } else {
            msg_lru_new(cap)
        };
        MessageLruCache { responses: c }
    }

    pub fn len(&self) -> (n: usize)
        ensures
            n == self.contents().len(),
    {
        msg_lru_len(&self.responses)
    }

    /// Replay the cached response for the request's question, if a live
    /// entry exists. The looked-up pair moves to the front either way.
    pub fn gen_response(&mut self, req: &Request, now: u64) -> (r: Option<Response>)
        requires
            old(self).wf(),
            req.wf(),
            forall|i: int|
                0 <= i < old(self).contents().len() ==> (#[trigger] old(self).contents()[i]).1.init_time <= now,
        ensures
            final(self).wf(),
            final(self).cap() == old(self).cap(),
            ({
                let pre = old(self).contents();
                let k = EntryKeyV { name: req.question@.name, typ: req.question@.typ };
                match r {
                    Some(resp) => {
                        &&& hit_shape(pre, final(self).contents(), k, now)
                        &&& replayed(pre[key_index(pre, k)].1, req, now, resp)
                        &&& resp.wf()
                    },
                    None => miss_shape(pre, final(self).contents(), k, now),
                }
            }),
    {
        let key = EntryKey::from_question(&req.question);
        let ghost pre = self.contents();
        let ghost kv = EntryKeyV { name: req.question@.name, typ: req.question@.typ };
        match msg_lru_get(&mut self.responses, &key) {
            Some(entry) => {
                proof {
                    assert(key@ == kv);
                    let i = key_index(pre, kv);
                    assert(0 <= i < pre.len() && pre[i].0 == kv);
                    assert(pre[i].1.wf());
                    assert(pre[i].1.init_time <= now);
                }
                let r = entry.gen_response(req, now);
                proof {
                    let i = key_index(pre, kv);
                    lemma_promote_distinct(pre, i);
                    assert forall|t: int|
                        0 <= t < self.contents().len() implies (
                    #[trigger] self.contents()[t]).1.wf() by {
                        let p = promoted(pre, i);
                        let st = if t == 0 {
                            i
                        } else if t <= i {
                            t - 1
                        } else {
                            t
                        };
                        assert(p[t] == pre[st]);
                    }
                }
                r
            },
            None => {
                None
            },
        }
    }

    /// Insert the response under its question unless a live entry already
    /// sits there (a duplicate upstream answer does not refresh the cache).
    pub fn add_response(&mut self, resp: Response, now: u64)
        requires
            old(self).wf(),
            resp.wf(),
            resp@.answers.len() <= 0xFFFF,
            resp@.authorities.len() <= 0xFFFF,
            now <= 0xFFFF_FFFF_0000_0000,
        ensures
            final(self).wf(),
            final(self).cap() == old(self).cap(),
            add_shape(
                old(self).contents(),
                final(self).contents(),
                old(self).cap(),
                resp,
                now,
            ),
    {
        let key = EntryKey::from_question(&resp.question);
        let ghost pre = self.contents();
        let ghost kv = EntryKeyV { name: resp@.question.name, typ: resp@.question.typ };
        let mut live = false;
        match msg_lru_get(&mut self.responses, &key) {
            Some(entry) => {
                if !entry.is_expired(now) {
                    live = true;
                }
            },
            None => {},
        }
        if live {
            proof {
                let i = key_index(pre, kv);
                lemma_promote_distinct(pre, i);
                assert forall|t: int|
                    0 <= t < final(self).contents().len() implies (#[trigger] final(self).contents()[t]).1.wf() by {
                    let p = promoted(pre, i);
                    let st = if t == 0 {
                        i
                    } else if t <= i {
                        t - 1
                    } else {
                        t
                    };
                    assert(p[t] == pre[st]);
                }
            }
            return ;
        }
        let entry = MessageEntry::new(&resp, now);
        let owned = EntryKey::new(resp.question.name, resp.question.typ);
        let ghost mid = self.contents();
        msg_lru_put(&mut self.responses, owned, entry);
        proof {
            let post = self.contents();
            if has_key(pre, kv) {
                let i = key_index(pre, kv);
                assert(0 <= i < pre.len() && pre[i].0 == kv);
                lemma_promote_distinct(pre, i);
                let p = promoted(pre, i);
                assert(mid == p);
                assert(has_key(mid, kv)) by {
                    assert(mid[0].0 == kv);
                }
                let i2 = key_index(mid, kv);
                assert(0 <= i2 < mid.len() && mid[i2].0 == kv);
                assert(i2 == 0) by {
                    if i2 != 0 {
                        assert(mid[0].0 != mid[i2].0);
                    }
                }
                assert(mid.remove(0) =~= pre.remove(i));
                assert(post == seq![(kv, entry)] + pre.remove(i));
                lemma_insert_front_distinct(pre.remove(i), kv, entry, pre, i);
            } else {
                assert(mid == pre);
                assert(!has_key(mid, kv));
                if pre.len() >= self.cap() {
                    assert(post == seq![(kv, entry)] + pre.drop_last());
                    lemma_insert_front_fresh(pre.drop_last(), kv, entry, pre);
                } else {
                    assert(post == seq![(kv, entry)] + pre);
                    lemma_insert_front_fresh(pre, kv, entry, pre);
                }
            }
        }
    }
}

/// Re-inserting a key after removing its old pair keeps keys distinct and
/// entries coherent.
proof fn lemma_insert_front_distinct(
    rest: Seq<(EntryKeyV, MessageEntry)>,
    k: EntryKeyV,
    e: MessageEntry,
    pre: Seq<(EntryKeyV, MessageEntry)>,
    i: int,
)
    requires
        keys_distinct(pre),
        0 <= i < pre.len(),
        pre[i].0 == k,
        rest == pre.remove(i),
        e.wf(),
        forall|t: int| 0 <= t < pre.len() ==> (#[trigger] pre[t]).1.wf(),
    ensures
        keys_distinct(seq![(k, e)] + rest),
        forall|t: int|
            0 <= t < (seq![(k, e)] + rest).len() ==> (#[trigger] (seq![(k, e)] + rest)[t]).1.wf(),
        (seq![(k, e)] + rest).len() == pre.len(),
{
    let p = seq![(k, e)] + rest;
    assert forall|a: int, b: int|
        0 <= a < b < p.len() implies (#[trigger] p[a]).0 != (#[trigger] p[b]).0 by {
        let sb = if b - 1 < i {
            b - 1
        } else {
            b
        };
        assert(p[b] == pre[sb]);
        if a == 0 {
            if sb != i {
                if sb < i {
                    assert(pre[sb].0 != pre[i].0);
                } else {
                    assert(pre[i].0 != pre[sb].0);
                }
            }
        } else {
            let sa = if a - 1 < i {
                a - 1
            } else {
                a
            };
            assert(p[a] == pre[sa]);
            assert(pre[sa].0 != pre[sb].0);
        }
    }
    assert forall|t: int| 0 <= t < p.len() implies (#[trigger] p[t]).1.wf() by {
        if t > 0 {
            let st = if t - 1 < i {
                t - 1
            } else {
                t
            };
            assert(p[t] == pre[st]);
        }
    }
}

/// Inserting a fresh key in front of pairs that lack it keeps keys
/// distinct and entries coherent.
proof fn lemma_insert_front_fresh(
    rest: Seq<(EntryKeyV, MessageEntry)>,
    k: EntryKeyV,
    e: MessageEntry,
    pre: Seq<(EntryKeyV, MessageEntry)>,
)
    requires
        keys_distinct(pre),
        !has_key(pre, k),
        rest == pre || (pre.len() > 0 && rest == pre.drop_last()),
        e.wf(),
        forall|t: int| 0 <= t < pre.len() ==> (#[trigger] pre[t]).1.wf(),
    ensures
        keys_distinct(seq![(k, e)] + rest),
        forall|t: int|
            0 <= t < (seq![(k, e)] + rest).len() ==> (#[trigger] (seq![(k, e)] + rest)[t]).1.wf(),
{
    let p = seq![(k, e)] + rest;
    assert(rest.len() <= pre.len());
    assert forall|j: int| 0 <= j < rest.len() implies rest[j] == pre[j] by {
        if rest == pre.drop_last() {
            assert(pre.drop_last()[j] == pre[j]);
        }
    }
    assert forall|a: int, b: int|
        0 <= a < b < p.len() implies (#[trigger] p[a]).0 != (#[trigger] p[b]).0 by {
        assert(p[b] == rest[b - 1]);
        assert(rest[b - 1] == pre[b - 1]);
        if a == 0 {
            assert(has_key(pre, pre[b - 1].0));
        } else {
            assert(p[a] == rest[a - 1]);
            assert(rest[a - 1] == pre[a - 1]);
            assert(pre[a - 1].0 != pre[b - 1].0);
        }
    }
    assert forall|t: int| 0 <= t < p.len() implies (#[trigger] p[t]).1.wf() by {
        if t > 0 {
            assert(p[t] == rest[t - 1]);
            assert(rest[t - 1] == pre[t - 1]);
        }
    }
}

} // verus!
