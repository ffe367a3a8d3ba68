//! Per-name query counters in a bounded LRU map, and the periodic snapshot
//! that empties the map and reports the counts sorted downwards.

use vstd::prelude::*;
use vstd::seq_lib::group_to_multiset_ensures;
use vstd::multiset::Multiset;
use crate::name::{Name, valid_labels, name_text};
use crate::text::ascii_chars;

verus! {

/// What the counter map holds: its pairs, most recently used first.
pub uninterp spec fn stat_contents(c: lru::LruCache<Name, u64>) -> Seq<(Seq<Seq<u8>>, u64)>;

/// The bound the counter map was created with.
pub uninterp spec fn stat_cap(c: lru::LruCache<Name, u64>) -> nat;

pub open spec fn stat_has_key(s: Seq<(Seq<Seq<u8>>, u64)>, k: Seq<Seq<u8>>) -> bool {
    exists|i: int| 0 <= i < s.len() && (#[trigger] s[i]).0 == k
}

pub open spec fn stat_key_index(s: Seq<(Seq<Seq<u8>>, u64)>, k: Seq<Seq<u8>>) -> int {
    choose|i: int| 0 <= i < s.len() && (#[trigger] s[i]).0 == k
}

pub open spec fn stat_keys_distinct(s: Seq<(Seq<Seq<u8>>, u64)>) -> bool {
    forall|i: int, j: int|
        0 <= i < j < s.len() ==> (#[trigger] s[i]).0 != (#[trigger] s[j]).0
}

/// Relies on lru::LruCache::new: an empty map bounded by `cap`.
#[verifier::external_body]
fn stat_lru_new(cap: usize) -> (c: lru::LruCache<Name, u64>)
    requires
        cap >= 1,
    ensures
        stat_contents(c) == Seq::<(Seq<Seq<u8>>, u64)>::empty(),
        stat_cap(c) == cap,
{
    lru::LruCache::new(cap)
}

/// Relies on lru::LruCache::len: the number of stored pairs.
#[verifier::external_body]
fn stat_lru_len(c: &lru::LruCache<Name, u64>) -> (n: usize)
    ensures
        n == stat_contents(*c).len(),
{
    c.len()
}

/// Relies on lru::LruCache::get: a hit copies the counter out and moves the
/// pair to the front; a miss changes nothing.
#[verifier::external_body]
fn stat_lru_get(c: &mut lru::LruCache<Name, u64>, k: &Name) -> (r: Option<u64>)
    ensures
        stat_cap(*final(c)) == stat_cap(*old(c)),
        match r {
            Some(v) => {
                &&& stat_has_key(stat_contents(*old(c)), k@)
                &&& v == stat_contents(*old(c))[stat_key_index(stat_contents(*old(c)), k@)].1
                &&& stat_contents(*final(c)) == seq![
                    stat_contents(*old(c))[stat_key_index(stat_contents(*old(c)), k@)]
                ] + stat_contents(*old(c)).remove(
                    stat_key_index(stat_contents(*old(c)), k@),
                )
            },
            None => {
                &&& !stat_has_key(stat_contents(*old(c)), k@)
                &&& stat_contents(*final(c)) == stat_contents(*old(c))
            },
        },
{
    c.get(k).copied()
}

/// Relies on lru::LruCache::put: the pair goes to the front; an existing
/// pair under the key leaves; a full map drops its least-recently-used
/// pair.
#[verifier::external_body]
fn stat_lru_put(c: &mut lru::LruCache<Name, u64>, k: Name, v: u64)
    requires
        stat_cap(*old(c)) >= 1,
    ensures
        stat_cap(*final(c)) == stat_cap(*old(c)),
        ({
            let pre = stat_contents(*old(c));
            let post = stat_contents(*final(c));
            if stat_has_key(pre, k@) {
                post == seq![(k@, v)] + pre.remove(stat_key_index(pre, k@))
            } else if pre.len() >= stat_cap(*old(c)) {
                post == seq![(k@, v)] + pre.drop_last()
            } else {
                post == seq![(k@, v)] + pre
            }
        }),
{
    c.put(k, v);
}

/// Relies on lru::LruCache::pop_lru: removes and returns the
/// least-recently-used pair (the last).
#[verifier::external_body]
fn stat_lru_pop(c: &mut lru::LruCache<Name, u64>) -> (r: Option<(Name, u64)>)
    ensures
        stat_cap(*final(c)) == stat_cap(*old(c)),
        match r {
            Some(p) => {
                &&& stat_contents(*old(c)).len() > 0
                &&& p.0@ == stat_contents(*old(c)).last().0
                &&& p.1 == stat_contents(*old(c)).last().1
                &&& stat_contents(*final(c)) == stat_contents(*old(c)).drop_last()
            },
            None => {
                &&& stat_contents(*old(c)).len() == 0
                &&& stat_contents(*final(c)) == stat_contents(*old(c))
            },
        },
{
    c.pop_lru()
}

/// The pairs a result vector denotes.
pub open spec fn pairs_view(v: Vec<(Name, u64)>) -> Seq<(Seq<Seq<u8>>, u64)> {
    Seq::new(v@.len(), |i: int| (v@[i].0@, v@[i].1))
}

/// A counter bumped by one, saturating.
pub open spec fn bumped(c: u64) -> u64 {
    if c == u64::MAX {
        c
    } else {
        (c + 1) as u64
    }
}

/// The per-name query counters.
pub struct QueryStatistic {
    pub queries: lru::LruCache<Name, u64>,
}

impl QueryStatistic {
    pub open spec fn contents(&self) -> Seq<(Seq<Seq<u8>>, u64)> {
        stat_contents(self.queries)
    }

    pub open spec fn cap(&self) -> nat {
        stat_cap(self.queries)
    }

    pub open spec fn wf(&self) -> bool {
        &&& self.cap() >= 1
        &&& self.contents().len() <= self.cap()
        &&& stat_keys_distinct(self.contents())
        &&& forall|i: int|
            0 <= i < self.contents().len() ==> valid_labels((#[trigger] self.contents()[i]).0)
    }

    pub fn new(cap: usize) -> (r: QueryStatistic)
        requires
            cap >= 1,
        ensures
            r.wf(),
            r.contents().len() == 0,
            r.cap() == cap,
    {
        QueryStatistic { queries: stat_lru_new(cap) }
    }

    pub fn len(&self) -> (n: usize)
        ensures
            n == self.contents().len(),
    {
        stat_lru_len(&self.queries)
    }

    /// Count one query for `name`: bump its counter, or start it at one;
    /// the name becomes the most recently used and a full map drops its
    /// least-recently-used name.
    pub fn add_query(&mut self, name: &Name)
        requires
            old(self).wf(),
            valid_labels(name@),
        ensures
            final(self).wf(),
            final(self).cap() == old(self).cap(),
            ({
                let pre = old(self).contents();
                let post = final(self).contents();
                if stat_has_key(pre, name@) {
                    post == seq![(name@, bumped(pre[stat_key_index(pre, name@)].1))]
                        + pre.remove(stat_key_index(pre, name@))
                } else if pre.len() >= old(self).cap() {
                    post == seq![(name@, 1u64)] + pre.drop_last()
                } else {
                    post == seq![(name@, 1u64)] + pre
                }
            }),
    {
        let ghost pre = self.contents();
        match stat_lru_get(&mut self.queries, name) {
            Some(c) => {
                let next: u64 = if c == 0xFFFF_FFFF_FFFF_FFFFu64 {
                    c
                } else {
                    c + 1
                };
                let ghost mid = self.contents();
                stat_lru_put(&mut self.queries, name.clone(), next);
                proof {
                    let i = stat_key_index(pre, name@);
                    assert(0 <= i < pre.len() && pre[i].0 == name@);
                    assert(mid == seq![pre[i]] + pre.remove(i));
                    assert(stat_has_key(mid, name@)) by {
                        assert(mid[0].0 == name@);
                    }
                    let i2 = stat_key_index(mid, name@);
                    assert(0 <= i2 < mid.len() && mid[i2].0 == name@);
                    lemma_stat_promote(pre, i);
                    assert(i2 == 0) by {
                        if i2 != 0 {
                            assert(mid[0].0 != mid[i2].0);
                        }
                    }
                    assert(mid.remove(0) =~= pre.remove(i));
                    assert(self.contents() == seq![(name@, next)] + pre.remove(i));
                    lemma_stat_insert_removed(pre.remove(i), name@, next, pre, i);
                }
            },
            None => {
                let ghost mid = self.contents();
                stat_lru_put(&mut self.queries, name.clone(), 1);
                proof {
                    assert(mid == pre);
                    if pre.len() >= self.cap() {
                        lemma_stat_insert_fresh(pre.drop_last(), name@, 1u64, pre);
                    } else {
                        lemma_stat_insert_fresh(pre, name@, 1u64, pre);
                    }
                }
            },
        }
    }

    /// Empty the map, keeping its bound, and return the previous counters
    /// sorted by descending count.
    pub fn sort_and_clear(&mut self) -> (r: Vec<(Name, u64)>)
        requires
            old(self).wf(),
        ensures
            final(self).wf(),
            final(self).cap() == old(self).cap(),
            final(self).contents().len() == 0,
            pairs_view(r).to_multiset() == old(self).contents().to_multiset(),
            forall|i: int, j: int| 0 <= i < j < r@.len() ==> r@[i].1 >= r@[j].1,
            forall|i: int| 0 <= i < r@.len() ==> valid_labels((#[trigger] r@[i].0)@),
    {
        let ghost pre = self.contents();
        let mut drained: Vec<(Name, u64)> = Vec::new();
        let n = stat_lru_len(&self.queries);
        let mut i: usize = 0;
        proof {
            broadcast use group_to_multiset_ensures;

            assert(pairs_view(drained) =~= Seq::<(Seq<Seq<u8>>, u64)>::empty());
            assert(pairs_view(drained).to_multiset().add(self.contents().to_multiset())
                =~= pre.to_multiset());
        }
        while i < n
            invariant
                i <= n,
                self.contents().len() == n - i,
                self.cap() == old(self).cap(),
                self.cap() >= 1,
                stat_keys_distinct(self.contents()),
                forall|t: int|
                    0 <= t < self.contents().len() ==> valid_labels(
                        (#[trigger] self.contents()[t]).0,
                    ),
                drained@.len() == i,
                forall|t: int|
                    0 <= t < drained@.len() ==> valid_labels((#[trigger] drained@[t].0)@),
                pairs_view(drained).to_multiset().add(self.contents().to_multiset())
                    == pre.to_multiset(),
            decreases n - i,
        {
            let ghost cur = self.contents();
            let ghost dv = pairs_view(drained);
            match stat_lru_pop(&mut self.queries) {
                Some(p) => {
                    proof {
                        broadcast use group_to_multiset_ensures;

                        assert(cur =~= cur.drop_last().push(cur.last()));
                        assert(cur.to_multiset() =~= cur.drop_last().to_multiset().insert(
                            cur.last(),
                        ));
                        assert(cur.last() == cur[cur.len() - 1]);
                        assert(stat_keys_distinct(self.contents())) by {
                            assert forall|a: int, b: int|
                                0 <= a < b < self.contents().len() implies (
                            #[trigger] self.contents()[a]).0 != (
                            #[trigger] self.contents()[b]).0 by {
                                assert(cur[a].0 != cur[b].0);
                            }
                        }
                    }
                    let ghost pv = (p.0@, p.1);
                    drained.push(p);
                    proof {
                        broadcast use group_to_multiset_ensures;

                        assert(pairs_view(drained) =~= dv.push(pv));
                        assert(pairs_view(drained).to_multiset() =~= dv.to_multiset().insert(
                            pv,
                        ));
                        assert(pv == cur.last());
                        assert(dv.to_multiset().insert(pv).add(
                            cur.drop_last().to_multiset(),
                        ) =~= dv.to_multiset().add(cur.to_multiset()));
                    }
                },
                None => {
                    vstd::pervasive::unreached::<()>();
                },
            }
            i += 1;
        }
        let r = sort_pairs_desc(drained);
        proof {
            assert(self.contents().to_multiset() =~= Multiset::<(Seq<Seq<u8>>, u64)>::empty())
                by {
                broadcast use group_to_multiset_ensures;

                assert(self.contents() =~= Seq::<(Seq<Seq<u8>>, u64)>::empty());
            }
            assert(pairs_view(r).to_multiset() == pre.to_multiset());
        }
        r
    }
}

/// Sort the pairs by descending count (selection of a maximum each round).
fn sort_pairs_desc(v: Vec<(Name, u64)>) -> (r: Vec<(Name, u64)>)
    ensures
        pairs_view(r).to_multiset() == pairs_view(v).to_multiset(),
        forall|i: int, j: int| 0 <= i < j < r@.len() ==> r@[i].1 >= r@[j].1,
        forall|i: int|
            0 <= i < r@.len() ==> pairs_view(v).to_multiset().contains((r@[i].0@, r@[i].1)),
        r@.len() == v@.len(),
{
    let ghost orig = pairs_view(v);
    let mut work = v;
    let mut out: Vec<(Name, u64)> = Vec::new();
    proof {
        broadcast use group_to_multiset_ensures;

        assert(pairs_view(out) =~= Seq::<(Seq<Seq<u8>>, u64)>::empty());
        assert(pairs_view(out).to_multiset().add(pairs_view(work).to_multiset())
            =~= orig.to_multiset());
    }
    while work.len() > 0
        invariant
            pairs_view(out).to_multiset().add(pairs_view(work).to_multiset())
                == orig.to_multiset(),
            out@.len() + work@.len() == orig.len(),
            orig.len() == orig.to_multiset().len(),
            forall|i: int, j: int| 0 <= i < j < out@.len() ==> out@[i].1 >= out@[j].1,
            forall|i: int, j: int|
                0 <= i < out@.len() && 0 <= j < work@.len() ==> out@[i].1 >= work@[j].1,
            forall|i: int| 0 <= i < out@.len() ==> orig.to_multiset().contains(
                (#[trigger] out@[i].0@, out@[i].1),
            ),
        decreases work@.len(),
    {
        // Pick the index of a largest remaining count.
        let mut best: usize = 0;
        let mut t: usize = 1;
        while t < work.len()
            invariant
                work@.len() > 0,
                best < t <= work@.len(),
                forall|j: int| 0 <= j < t ==> work@[best as int].1 >= #[trigger] work@[j].1,
            decreases work@.len() - t,
        {
            if work[t].1 > work[best].1 {
                best = t;
            }
            t += 1;
        }
        let ghost wv = pairs_view(work);
        let ghost ov = pairs_view(out);
        let x = work.remove(best);
        let ghost xp = (x.0@, x.1);
        out.push(x);
        proof {
            broadcast use group_to_multiset_ensures;

            assert(pairs_view(work) =~= wv.remove(best as int));
            assert(xp == wv[best as int]);
            assert(pairs_view(work).to_multiset() =~= wv.to_multiset().remove(xp)) by {
                assert(wv.remove(best as int).to_multiset() =~= wv.to_multiset().remove(
                    wv[best as int],
                ));
            }
            assert(wv.contains(xp)) by {
                assert(wv[best as int] == xp);
            }
            assert(wv.to_multiset().count(xp) > 0);
            assert(pairs_view(out) =~= ov.push(xp));
            assert(pairs_view(out).to_multiset() =~= ov.to_multiset().insert(xp));
            assert(ov.to_multiset().insert(xp).add(wv.to_multiset().remove(xp))
                =~= ov.to_multiset().add(wv.to_multiset()));
            assert(orig.to_multiset().contains(xp)) by {
                assert(ov.to_multiset().add(wv.to_multiset()).count(xp) > 0);
            }
        }
    }
    proof {
        broadcast use group_to_multiset_ensures;

        assert(pairs_view(work).to_multiset() =~= Multiset::<(Seq<Seq<u8>>, u64)>::empty())
            by {
            assert(pairs_view(work) =~= Seq::<(Seq<Seq<u8>>, u64)>::empty());
        }
        assert(pairs_view(out).to_multiset() == orig.to_multiset());
        assert(out@.len() == orig.len());
    }
    out
}

proof fn lemma_stat_promote(s: Seq<(Seq<Seq<u8>>, u64)>, i: int)
    requires
        stat_keys_distinct(s),
        0 <= i < s.len(),
    ensures
        stat_keys_distinct(seq![s[i]] + s.remove(i)),
{
    let p = seq![s[i]] + s.remove(i);
    assert forall|a: int, b: int|
        0 <= a < b < p.len() implies (#[trigger] p[a]).0 != (#[trigger] p[b]).0 by {
        let sa = if a == 0 {
            i
        } else if a <= i {
            a - 1
        } else {
            a
        };
        let sb = if b == 0 {
            i
        } else if b <= i {
            b - 1
        } else {
            b
        };
        assert(p[a] == s[sa]);
        assert(p[b] == s[sb]);
    }
}

proof fn lemma_stat_insert_removed(
    rest: Seq<(Seq<Seq<u8>>, u64)>,
    k: Seq<Seq<u8>>,
    v: u64,
    pre: Seq<(Seq<Seq<u8>>, u64)>,
    i: int,
)
    requires
        stat_keys_distinct(pre),
        forall|t: int| 0 <= t < pre.len() ==> valid_labels((#[trigger] pre[t]).0),
        valid_labels(k),
        0 <= i < pre.len(),
        pre[i].0 == k,
        rest == pre.remove(i),
    ensures
        stat_keys_distinct(seq![(k, v)] + rest),
        forall|t: int|
            0 <= t < (seq![(k, v)] + rest).len() ==> valid_labels(
                (#[trigger] (seq![(k, v)] + rest)[t]).0,
            ),
        (seq![(k, v)] + rest).len() == pre.len(),
{
    let p = seq![(k, v)] + rest;
    assert forall|a: int, b: int|
        0 <= a < b < p.len() implies (#[trigger] p[a]).0 != (#[trigger] p[b]).0 by {
        let sb = if b - 1 < i {
            b - 1
        } else {
            b
        };
        assert(p[b] == pre[sb]);
        if a == 0 {
            if sb != i {
                if sb < i {
                    assert(pre[sb].0 != pre[i].0);
                } else {
                    assert(pre[i].0 != pre[sb].0);
                }
            }
        } else {
            let sa = if a - 1 < i {
                a - 1
            } else {
                a
            };
            assert(p[a] == pre[sa]);
            assert(pre[sa].0 != pre[sb].0);
        }
    }
    assert forall|t: int| 0 <= t < p.len() implies valid_labels((#[trigger] p[t]).0) by {
        if t > 0 {
            let st = if t - 1 < i {
                t - 1
            } else {
                t
            };
            assert(p[t] == pre[st]);
        }
    }
}

proof fn lemma_stat_insert_fresh(
    rest: Seq<(Seq<Seq<u8>>, u64)>,
    k: Seq<Seq<u8>>,
    v: u64,
    pre: Seq<(Seq<Seq<u8>>, u64)>,
)
    requires
        stat_keys_distinct(pre),
        forall|t: int| 0 <= t < pre.len() ==> valid_labels((#[trigger] pre[t]).0),
        valid_labels(k),
        !stat_has_key(pre, k),
        rest == pre || (pre.len() > 0 && rest == pre.drop_last()),
    ensures
        stat_keys_distinct(seq![(k, v)] + rest),
        forall|t: int|
            0 <= t < (seq![(k, v)] + rest).len() ==> valid_labels(
                (#[trigger] (seq![(k, v)] + rest)[t]).0,
            ),
{
    let p = seq![(k, v)] + rest;
    assert forall|j: int| 0 <= j < rest.len() implies rest[j] == pre[j] by {
        if rest == pre.drop_last() {
            assert(pre.drop_last()[j] == pre[j]);
        }
    }
    assert forall|a: int, b: int|
        0 <= a < b < p.len() implies (#[trigger] p[a]).0 != (#[trigger] p[b]).0 by {
        assert(p[b] == rest[b - 1]);
        assert(rest[b - 1] == pre[b - 1]);
        if a == 0 {
            assert(stat_has_key(pre, pre[b - 1].0));
        } else {
            assert(p[a] == rest[a - 1]);
            assert(rest[a - 1] == pre[a - 1]);
            assert(pre[a - 1].0 != pre[b - 1].0);
        }
    }
    assert forall|t: int| 0 <= t < p.len() implies valid_labels((#[trigger] p[t]).0) by {
        if t > 0 {
            assert(p[t] == rest[t - 1]);
            assert(rest[t - 1] == pre[t - 1]);
        }
    }
}

/// A reported snapshot: the collection time and the serialised counts.
pub struct QueryInfo {
    pub time: String,
    pub top: String,
}

/// The JSON text that the counts serialise to, as `serde_json` writes a
/// vector of (name text, count) pairs.
pub uninterp spec fn json_of_counts(counts: Seq<(Seq<char>, u64)>) -> Seq<char>;

/// Relies on serde_json::to_string: serialising a vector of (string,
/// number) pairs is a function of the pairs alone and cannot fail.
#[verifier::external_body]
fn counts_to_json(counts: &Vec<(String, u64)>) -> (r: String)
    ensures
        r@ == json_of_counts(Seq::new(counts@.len(), |i: int| (counts@[i].0@, counts@[i].1))),
{
    match serde_json::to_string(counts) {
        Ok(s) => s,
        Err(_) => String::new(),
    }
}

/// Relies on chrono::Local::now: a timestamp tag for the snapshot. The
/// result depends on the clock, so nothing is promised of it.
#[verifier::external_body]
pub fn local_time_tag() -> (r: String)
{
    chrono::Local::now().format("%Y-%m-%d-%H-%M-%S").to_string()
}

/// Relies on String::from_utf8: ASCII bytes become the string of exactly
/// those characters.
#[verifier::external_body]
fn ascii_string(b: Vec<u8>) -> (r: String)
    requires
        forall|i: int| 0 <= i < b@.len() ==> b@[i] < 128,
    ensures
        r@ == ascii_chars(b@),
{
    match String::from_utf8(b) {
        Ok(s) => s,
        Err(_) => String::new(),
    }
}

/// Build the reported snapshot from sorted counters.
pub fn make_query_info(counts: &Vec<(Name, u64)>) -> (r: QueryInfo)
    requires
        forall|i: int| 0 <= i < counts@.len() ==> valid_labels((#[trigger] counts@[i].0)@),
    ensures
        r.top@ == json_of_counts(
            Seq::new(
                counts@.len(),
                |i: int| (ascii_chars(name_text(counts@[i].0@)), counts@[i].1),
            ),
        ),
{
    let mut texts: Vec<(String, u64)> = Vec::new();
    let mut i: usize = 0;
    while i < counts.len()
        invariant
            i <= counts@.len(),
            forall|t: int| 0 <= t < counts@.len() ==> valid_labels((#[trigger] counts@[t].0)@),
            texts@.len() == i,
            forall|t: int|
                0 <= t < i ==> (#[trigger] texts@[t]).0@ == ascii_chars(
                    name_text(counts@[t].0@),
                ) && texts@[t].1 == counts@[t].1,
        decreases counts@.len() - i,
    {
        let txt = counts[i].0.to_text();
        proof {
            crate::name::lemma_name_text_ascii(counts@[i as int].0@);
        }
        let s = ascii_string(txt);
        texts.push((s, counts[i].1));
        i += 1;
    }
    let top = counts_to_json(&texts);
    proof {
        assert(Seq::new(texts@.len(), |t: int| (texts@[t].0@, texts@[t].1)) =~= Seq::new(
            counts@.len(),
            |t: int| (ascii_chars(name_text(counts@[t].0@)), counts@[t].1),
        ));
    }
    QueryInfo { time: local_time_tag(), top }
}

} // verus!
