//! A single authoritative zone: a name-indexed store of record sets with
//! delegation-aware lookup.
//!
//! A query walk first looks for a delegation cut: the shallowest flagged
//! ancestor (or the queried name itself) that carries an NS record set. In
//! the default mode that cut answers the query; in glue-ok mode the walk
//! ignores cuts so that glue records below a cut stay reachable.

use vstd::prelude::*;
use crate::name::{Name, suffix_of};
use crate::rrset::{RRset, RRsetV, RRType, RData, rrset_wf, clone_rrset};
use crate::domain_tree::{DomainTree, TreeSearch};

verus! {

/// How `find` treats delegation cuts.
#[derive(PartialEq, Eq, Structural, Clone, Copy, Debug)]
pub enum FindMode {
    DefaultFind,
    GlueOkFind,
}

/// The four-way outcome of a zone lookup.
#[derive(PartialEq, Debug)]
pub enum FindResult {
    Success(RRset),
    Delegation(RRset),
    NXDomain,
    NXRRset,
}

/// The record sets a stored vector denotes.
pub open spec fn rrsets_view(v: Vec<RRset>) -> Seq<RRsetV> {
    Seq::new(v@.len(), |i: int| v@[i]@)
}

/// Some record set of type `t` is present.
pub open spec fn has_type(rs: Seq<RRsetV>, t: RRType) -> bool {
    exists|k: int| 0 <= k < rs.len() && (#[trigger] rs[k]).typ == t
}

/// The index of the record set of type `t` (unique in a well-formed node).
pub open spec fn type_index(rs: Seq<RRsetV>, t: RRType) -> int {
    choose|k: int| 0 <= k < rs.len() && (#[trigger] rs[k]).typ == t
}

/// The record set of type `t`, if present.
pub open spec fn rrset_of_type(rs: Seq<RRsetV>, t: RRType) -> Option<RRsetV> {
    if has_type(rs, t) {
        Some(rs[type_index(rs, t)])
    } else {
        None
    }
}

/// Replace the record set sharing `x`'s type, or append `x`.
pub open spec fn add_or_replace(rs: Seq<RRsetV>, x: RRsetV) -> Seq<RRsetV> {
    if has_type(rs, x.typ) {
        rs.update(type_index(rs, x.typ), x)
    } else {
        rs.push(x)
    }
}

/// At most one record set per type.
pub open spec fn types_distinct(rs: Seq<RRsetV>) -> bool {
    forall|k1: int, k2: int|
        0 <= k1 < k2 < rs.len() ==> (#[trigger] rs[k1]).typ != (#[trigger] rs[k2]).typ
}

pub proof fn lemma_type_index_is(rs: Seq<RRsetV>, k: int)
    requires
        types_distinct(rs),
        0 <= k < rs.len(),
    ensures
        rrset_of_type(rs, rs[k].typ) == Some(rs[k]),
{
    assert(has_type(rs, rs[k].typ));
    let k2 = type_index(rs, rs[k].typ);
    assert(0 <= k2 < rs.len() && rs[k2].typ == rs[k].typ);
    if k2 != k {
        if k2 < k {
            assert(rs[k2].typ != rs[k].typ);
        } else {
            assert(rs[k].typ != rs[k2].typ);
        }
    }
}


/// How `MemoryZone::add_rrset` changes a zone: the owner's node gets the
/// record set by `add_or_replace` (or a fresh node is appended), and a
/// non-apex NS insertion raises the owner's delegation flag.
pub open spec fn add_rrset_model(pre: MemoryZone, post: MemoryZone, x: RRsetV) -> bool {
    let q = x.name;
    let deleg = q != pre.origin@ && x.typ == RRType::NS;
    &&& post.origin@ == pre.origin@
    &&& if pre.domains.has_node(q) {
        let i = pre.exact_index(q);
        &&& post.domains.nodes@.len() == pre.domains.nodes@.len()
        &&& post.domains.nodes@[i].name@ == q
        &&& post.rrsets_at(i) == add_or_replace(pre.rrsets_at(i), x)
        &&& post.domains.nodes@[i].callback == (pre.domains.nodes@[i].callback || deleg)
        &&& forall|j: int|
            0 <= j < pre.domains.nodes@.len() && j != i ==> post.domains.nodes@[j]
                == pre.domains.nodes@[j]
    } else {
        let i = pre.domains.nodes@.len() as int;
        &&& post.domains.nodes@.len() == pre.domains.nodes@.len() + 1
        &&& post.domains.nodes@[i].name@ == q
        &&& post.rrsets_at(i) =~= seq![x]
        &&& post.domains.nodes@[i].callback == deleg
        &&& forall|j: int|
            0 <= j < pre.domains.nodes@.len() ==> post.domains.nodes@[j]
                == pre.domains.nodes@[j]
    }
}

/// Inserting a record set never removes the SOA at the zone apex.
pub proof fn lemma_add_keeps_apex_soa(pre: MemoryZone, post: MemoryZone, x: RRsetV)
    requires
        pre.wf(),
        post.wf(),
        add_rrset_model(pre, post, x),
        pre.find_rrset(pre.origin@, RRType::SOA) is Some,
    ensures
        post.find_rrset(post.origin@, RRType::SOA) is Some,
{
    let q = pre.origin@;
    if !pre.domains.has_node(q) {
        assert(pre.rrsets_of(q) =~= Seq::<RRsetV>::empty());
        assert(!has_type(Seq::<RRsetV>::empty(), RRType::SOA)) by {
            if has_type(Seq::<RRsetV>::empty(), RRType::SOA) {
                let k = type_index(Seq::<RRsetV>::empty(), RRType::SOA);
            }
        }
    }
    assert(pre.domains.has_node(q));
    let i0 = pre.exact_index(q);
    assert(0 <= i0 < pre.domains.nodes@.len() && pre.domains.nodes@[i0].name@ == q);
    let pre_rs = pre.rrsets_at(i0);
    assert(has_type(pre_rs, RRType::SOA));
    let k = type_index(pre_rs, RRType::SOA);
    assert(0 <= k < pre_rs.len() && pre_rs[k].typ == RRType::SOA);
    if pre.domains.has_node(x.name) {
        let t = pre.exact_index(x.name);
        assert(0 <= t < pre.domains.nodes@.len() && pre.domains.nodes@[t].name@ == x.name);
        if x.name == q {
            assert(t == i0) by {
                if t != i0 {
                    if t < i0 {
                        assert(pre.domains.nodes@[t].name@ != pre.domains.nodes@[i0].name@);
                    } else {
                        assert(pre.domains.nodes@[i0].name@ != pre.domains.nodes@[t].name@);
                    }
                }
            }
            let new_rs = post.rrsets_at(i0);
            if has_type(pre_rs, x.typ) {
                let u = type_index(pre_rs, x.typ);
                assert(0 <= u < pre_rs.len() && pre_rs[u].typ == x.typ);
                if u == k {
                    assert(new_rs[k].typ == RRType::SOA);
                } else {
                    assert(new_rs[k] == pre_rs[k]);
                }
            } else {
                assert(new_rs[k] == pre_rs[k]);
            }
            assert(has_type(new_rs, RRType::SOA));
            lemma_exact_index_is_zone(post, q, i0);
        } else {
            assert(t != i0);
            assert(post.domains.nodes@[i0] == pre.domains.nodes@[i0]);
            assert(post.rrsets_at(i0) =~= pre.rrsets_at(i0));
            assert(has_type(post.rrsets_at(i0), RRType::SOA)) by {
                assert(post.rrsets_at(i0)[k].typ == RRType::SOA);
            }
            lemma_exact_index_is_zone(post, q, i0);
        }
    } else {
        assert(post.domains.nodes@[i0] == pre.domains.nodes@[i0]);
        assert(post.rrsets_at(i0) =~= pre.rrsets_at(i0));
        assert(has_type(post.rrsets_at(i0), RRType::SOA)) by {
            assert(post.rrsets_at(i0)[k].typ == RRType::SOA);
        }
        lemma_exact_index_is_zone(post, q, i0);
    }
}

proof fn lemma_exact_index_is_zone(z: MemoryZone, q: Seq<Seq<u8>>, i: int)
    requires
        z.domains.wf(),
        0 <= i < z.domains.nodes@.len(),
        z.domains.nodes@[i].name@ == q,
    ensures
        z.domains.has_node(q),
        z.exact_index(q) == i,
{
    lemma_exact_index_is(&z, q, i);
}

/// An authoritative zone: the origin name and the per-owner record sets.
pub struct MemoryZone {
    pub origin: Name,
    pub domains: DomainTree<Vec<RRset>>,
}

impl MemoryZone {
    /// The record sets stored at tree node `i`.
    pub open spec fn rrsets_at(&self, i: int) -> Seq<RRsetV> {
        rrsets_view(self.domains.nodes@[i].value)
    }

    /// The index of the node owning exactly `q`.
    pub open spec fn exact_index(&self, q: Seq<Seq<u8>>) -> int {
        choose|i: int|
            0 <= i < self.domains.nodes@.len() && (#[trigger] self.domains.nodes@[i].name@) == q
    }

    /// The record sets stored for owner `q` (empty when `q` has no node).
    pub open spec fn rrsets_of(&self, q: Seq<Seq<u8>>) -> Seq<RRsetV> {
        if self.domains.has_node(q) {
            self.rrsets_at(self.exact_index(q))
        } else {
            Seq::empty()
        }
    }

    /// What an exact, delegation-blind lookup of `(q, t)` yields.
    pub open spec fn find_rrset(&self, q: Seq<Seq<u8>>, t: RRType) -> Option<RRsetV> {
        rrset_of_type(self.rrsets_of(q), t)
    }

    /// Node `i` is a delegation cut covering `q`: flagged, at or above `q`,
    /// and carrying an NS record set.
    pub open spec fn deleg_node(&self, q: Seq<Seq<u8>>, i: int) -> bool {
        &&& 0 <= i < self.domains.nodes@.len()
        &&& self.domains.nodes@[i].callback
        &&& suffix_of(self.domains.nodes@[i].name@, q)
        &&& has_type(self.rrsets_at(i), RRType::NS)
    }

    /// Some delegation cut covers `q`.
    pub open spec fn has_delegation(&self, q: Seq<Seq<u8>>) -> bool {
        exists|i: int| self.deleg_node(q, i)
    }

    /// Zone invariant: one node per name, one record set per type, owners
    /// match their node, record sets are well formed, and a flagged node is
    /// a non-apex owner with an NS record set.
    pub open spec fn wf(&self) -> bool {
        &&& self.domains.wf()
        &&& crate::name::valid_labels(self.origin@)
        &&& forall|i: int|
            0 <= i < self.domains.nodes@.len() ==> types_distinct(#[trigger] self.rrsets_at(i))
        &&& forall|i: int, k: int|
            0 <= i < self.domains.nodes@.len() && 0 <= k < self.rrsets_at(i).len() ==> (
            #[trigger] self.rrsets_at(i)[k]).name == self.domains.nodes@[i].name@
        &&& forall|i: int, k: int|
            0 <= i < self.domains.nodes@.len() && 0 <= k < self.rrsets_at(i).len() ==> rrset_wf(
                #[trigger] self.rrsets_at(i)[k],
            )
        &&& forall|i: int|
            0 <= i < self.domains.nodes@.len() && (#[trigger] self.domains.nodes@[i].callback)
                ==> self.domains.nodes@[i].name@ != self.origin@ && has_type(
                self.rrsets_at(i),
                RRType::NS,
            )
    }

    /// An empty zone rooted at `name`.
    pub fn new(name: Name) -> (r: MemoryZone)
        requires
            crate::name::valid_labels(name@),
        ensures
            r.origin@ == name@,
            r.domains.nodes@.len() == 0,
            r.wf(),
    {
        MemoryZone { origin: name, domains: DomainTree::new() }
    }

    /// Insert a record set: replace the record set of the same owner and
    /// type, or add it; adding an NS record set below the apex marks the
    /// owner node as a delegation cut.
    pub fn add_rrset(&mut self, rrset: RRset)
        requires
            old(self).wf(),
            rrset_wf(rrset@),
        ensures
            final(self).wf(),
            add_rrset_model(*old(self), *final(self), rrset@),
    {
        let ghost q = rrset@.name;
        let is_deleg = !rrset.name.equals(&self.origin) && matches!(rrset.typ, RRType::NS);
        match self.domains.find(&rrset.name) {
            TreeSearch::ExactMatch(i) => {
                proof {
                    crate::zone::lemma_exact_index_is(self, q, i as int);
                }
                // Look for a record set of the same type.
                let rs = self.domains.value(i);
                let mut k: usize = 0;
                let mut same: Option<usize> = None;
                while k < rs.len()
                    invariant
                        k <= rs@.len(),
                        rs@ == self.domains.nodes@[i as int].value@,
                        i < self.domains.nodes@.len(),
                        match same {
                            Some(t) => t < k && rrsets_view(*rs)[t as int].typ == rrset@.typ,
                            None => forall|t: int|
                                0 <= t < k ==> (#[trigger] rrsets_view(*rs)[t]).typ != rrset@.typ,
                        },
                    decreases rs@.len() - k,
                {
                    if rs[k].typ == rrset.typ {
                        same = Some(k);
                        k = rs.len();
                    } else {
                        k += 1;
                    }
                }
                let ghost old_rs = self.rrsets_at(i as int);
                let node = &mut self.domains.nodes[i];
                match same {
                    Some(t) => {
                        node.value.set(t, rrset);
                        proof {
                            assert(has_type(old_rs, old_rs[t as int].typ));
                            lemma_type_index_is(old_rs, t as int);
                            assert(self.rrsets_at(i as int) =~= old_rs.update(
                                t as int,
                                rrset@,
                            ));
                        }
                    },
                    None => {
                        node.value.push(rrset);
                        proof {
                            assert(!has_type(old_rs, rrset@.typ));
                            assert(self.rrsets_at(i as int) =~= old_rs.push(rrset@));
                        }
                    },
                }
                if is_deleg {
                    let node = &mut self.domains.nodes[i];
                    node.callback = true;
                }
                proof {
                    lemma_zone_wf_after_node_change(old(self), self, i as int, rrset@);
                }
            },
            _ => {
                let owner = rrset.name.clone();
                let ghost before = *self;
                let mut v: Vec<RRset> = Vec::new();
                v.push(rrset);
                let i = self.domains.insert(owner, v);
                proof {
                    assert(!before.domains.has_node(q));
                    assert(self.rrsets_at(i as int) =~= seq![rrset@]);
                }
                if is_deleg {
                    self.domains.set_callback(i, true);
                }
                proof {
                    lemma_zone_wf_after_append(old(self), self, i as int, rrset@);
                }
            },
        }
    }

    /// Look up `(name, typ)`. In the default mode a delegation cut covering
    /// the name answers first; otherwise the exact node's record set of the
    /// requested type answers, or its absence is reported.
    pub fn find(&self, name: &Name, typ: RRType, mode: FindMode) -> (r: FindResult)
        requires
            self.wf(),
            crate::name::valid_labels(name@),
        ensures
            match r {
                FindResult::Delegation(ns) => {
                    &&& mode is DefaultFind
                    &&& exists|i: int|
                        {
                            &&& #[trigger] self.deleg_node(name@, i)
                            &&& Some(ns@) == rrset_of_type(self.rrsets_at(i), RRType::NS)
                            &&& forall|j: int|
                                #[trigger] self.deleg_node(name@, j)
                                    ==> self.domains.nodes@[i].name@.len()
                                    <= self.domains.nodes@[j].name@.len()
                        }
                },
                FindResult::Success(rrset) => {
                    &&& (mode is DefaultFind ==> !self.has_delegation(name@))
                    &&& self.find_rrset(name@, typ) == Some(rrset@)
                },
                FindResult::NXRRset => {
                    &&& (mode is DefaultFind ==> !self.has_delegation(name@))
                    &&& self.domains.has_node(name@)
                    &&& self.find_rrset(name@, typ) is None
                },
                FindResult::NXDomain => {
                    &&& (mode is DefaultFind ==> !self.has_delegation(name@))
                    &&& !self.domains.has_node(name@)
                },
            },
    {
        let is_default = matches!(mode, FindMode::DefaultFind);
        if is_default {
            let lc = name.label_count();
            proof {
                crate::name::lemma_valid_labels_count(name@);
            }
            let mut d: usize = 0;
            while d <= lc
                invariant
                    self.wf(),
                    mode is DefaultFind,
                    lc == name@.len(),
                    lc <= 127,
                    d <= lc + 1,
                    forall|j: int|
                        #[trigger] self.deleg_node(name@, j) ==> self.domains.nodes@[
                            j
                        ].name@.len() >= d,
                decreases lc + 1 - d,
            {
                match self.domains.flagged_suffix_at_depth(name, d) {
                    Some(i) => {
                        let rs = self.domains.value(i);
                        let mut k: usize = 0;
                        while k < rs.len()
                            invariant
                                self.wf(),
                                mode is DefaultFind,
                                i < self.domains.nodes@.len(),
                                self.domains.nodes@[i as int].callback,
                                suffix_of(self.domains.nodes@[i as int].name@, name@),
                                self.domains.nodes@[i as int].name@.len() == d,
                                rs@ == self.domains.nodes@[i as int].value@,
                                k <= rs@.len(),
                                forall|t: int|
                                    0 <= t < k ==> (#[trigger] rrsets_view(*rs)[t]).typ
                                        != RRType::NS,
                                forall|j: int|
                                    #[trigger] self.deleg_node(name@, j)
                                        ==> self.domains.nodes@[j].name@.len() >= d,
                            decreases rs@.len() - k,
                        {
                            if rs[k].typ == RRType::NS {
                                let ns = clone_rrset(&rs[k]);
                                proof {
                                    assert(rrsets_view(*rs) =~= self.rrsets_at(i as int));
                                    lemma_type_index_is(self.rrsets_at(i as int), k as int);
                                    assert(has_type(self.rrsets_at(i as int), RRType::NS));
                                    assert(self.deleg_node(name@, i as int));
                                }
                                return FindResult::Delegation(ns);
                            }
                            k += 1;
                        }
                        // The flagged node at this depth carries no NS
                        // record set, so no cut lies at this depth.
                        proof {
                            assert(rrsets_view(*rs) =~= self.rrsets_at(i as int));
                            assert forall|j: int|
                                #[trigger] self.deleg_node(name@, j)
                                implies self.domains.nodes@[j].name@.len() >= d + 1 by {
                                if self.domains.nodes@[j].name@.len() == d {
                                    assert(self.domains.nodes@[j].name@ =~= name@.skip(
                                        name@.len() - d,
                                    ));
                                    assert(self.domains.nodes@[i as int].name@ =~= name@.skip(
                                        name@.len() - d,
                                    ));
                                    if j < i as int {
                                        assert(self.domains.nodes@[j].name@
                                            != self.domains.nodes@[i as int].name@);
                                    } else if j > i as int {
                                        assert(self.domains.nodes@[i as int].name@
                                            != self.domains.nodes@[j].name@);
                                    } else {
                                        assert(!has_type(self.rrsets_at(i as int), RRType::NS));
                                    }
                                }
                            }
                        }
                        d += 1;
                    },
                    None => {
                        proof {
                            assert forall|j: int|
                                #[trigger] self.deleg_node(name@, j)
                                implies self.domains.nodes@[j].name@.len() >= d + 1 by {}
                        }
                        d += 1;
                    },
                }
            }
            proof {
                assert forall|j: int| !(#[trigger] self.deleg_node(name@, j)) by {
                    if self.deleg_node(name@, j) {
                        assert(self.domains.nodes@[j].name@.len() <= name@.len());
                    }
                }
                assert(!self.has_delegation(name@));
            }
        }
        let res = self.domains.find(name);
        match res {
            TreeSearch::ExactMatch(i) => {
                proof {
                    lemma_exact_index_is(self, name@, i as int);
                }
                let rs = self.domains.value(i);
                let mut k: usize = 0;
                while k < rs.len()
                    invariant
                        self.wf(),
                        is_default == (mode is DefaultFind),
                        (mode is DefaultFind) ==> !self.has_delegation(name@),
                        i < self.domains.nodes@.len(),
                        self.domains.nodes@[i as int].name@ == name@,
                        self.domains.has_node(name@),
                        self.exact_index(name@) == i as int,
                        rs@ == self.domains.nodes@[i as int].value@,
                        k <= rs@.len(),
                        forall|t: int|
                            0 <= t < k ==> (#[trigger] rrsets_view(*rs)[t]).typ != typ,
                    decreases rs@.len() - k,
                {
                    if rs[k].typ == typ {
                        let out = clone_rrset(&rs[k]);
                        proof {
                            assert(rrsets_view(*rs) =~= self.rrsets_at(i as int));
                            lemma_type_index_is(self.rrsets_at(i as int), k as int);
                        }
                        return FindResult::Success(out);
                    }
                    k += 1;
                }
                proof {
                    assert(rrsets_view(*rs) =~= self.rrsets_at(i as int));
                    assert(!has_type(self.rrsets_at(i as int), typ));
                }
                FindResult::NXRRset
            },
            _ => FindResult::NXDomain,
        }
    }

    /// The record set of the requested type at the zone apex, if present.
    pub fn get_apex_rrset(&self, typ: RRType) -> (r: Option<RRset>)
        requires
            self.wf(),
        ensures
            match r {
                Some(rrset) => self.find_rrset(self.origin@, typ) == Some(rrset@),
                None => self.find_rrset(self.origin@, typ) is None,
            },
    {
        match self.find(&self.origin.clone(), typ, FindMode::GlueOkFind) {
            FindResult::Success(rrset) => Some(rrset),
            _ => None,
        }
    }

    /// The A record sets, looked up in glue-ok mode, of every NS target that
    /// lies inside this zone. Targets outside the zone, targets without a
    /// node, and targets without A records contribute nothing.
    pub fn get_glue_for_ns(&self, ns: &RRset) -> (r: Option<Vec<RRset>>)
        requires
            self.wf(),
            rrset_wf(ns@),
        ensures
            r is Some,
            rrsets_view(r->Some_0) == glue_of(self, ns@.rdatas),
    {
        let mut glues: Vec<RRset> = Vec::new();
        let mut k: usize = 0;
        proof {
            assert(ns@.rdatas.take(0) =~= Seq::<crate::rrset::RDataV>::empty());
            assert(rrsets_view(glues) =~= glue_of(self, ns@.rdatas.take(0)));
        }
        while k < ns.rdatas.len()
            invariant
                self.wf(),
                rrset_wf(ns@),
                k <= ns.rdatas@.len(),
                ns@.rdatas.len() == ns.rdatas@.len(),
                forall|t: int| 0 <= t < ns.rdatas@.len() ==> ns@.rdatas[t] == ns.rdatas@[t]@,
                rrsets_view(glues) == glue_of(self, ns@.rdatas.take(k as int)),
            decreases ns.rdatas@.len() - k,
        {
            let ghost pre_glue = rrsets_view(glues);
            match &ns.rdatas[k] {
                RData::Ns(target) => {
                    if target.is_subdomain(&self.origin) {
                        match self.find(target, RRType::A, FindMode::GlueOkFind) {
                            FindResult::Success(rrset) => {
                                glues.push(rrset);
                                proof {
                                    assert(rrsets_view(glues) =~= pre_glue + glue_step(
                                        self,
                                        ns@.rdatas[k as int],
                                    ));
                                }
                            },
                            _ => {
                                proof {
                                    assert(self.find_rrset(target@, RRType::A) is None);
                                    assert(glue_step(self, ns@.rdatas[k as int])
                                        =~= Seq::<RRsetV>::empty());
                                    assert(rrsets_view(glues) =~= pre_glue + glue_step(
                                        self,
                                        ns@.rdatas[k as int],
                                    ));
                                }
                            },
                        }
                    } else {
                        proof {
                            assert(glue_step(self, ns@.rdatas[k as int])
                                =~= Seq::<RRsetV>::empty());
                            assert(rrsets_view(glues) =~= pre_glue + glue_step(
                                self,
                                ns@.rdatas[k as int],
                            ));
                        }
                    }
                },
                _ => {
                    proof {
                        assert(glue_step(self, ns@.rdatas[k as int]) =~= Seq::<RRsetV>::empty());
                        assert(rrsets_view(glues) =~= pre_glue + glue_step(
                            self,
                            ns@.rdatas[k as int],
                        ));
                    }
                },
            }
            proof {
                lemma_glue_concat(self, ns@.rdatas.take(k as int), seq![ns@.rdatas[k as int]]);
                assert(seq![ns@.rdatas[k as int]].skip(1) =~= Seq::<crate::rrset::RDataV>::empty());
                assert(glue_of(self, seq![ns@.rdatas[k as int]]) =~= glue_step(
                    self,
                    ns@.rdatas[k as int],
                ) + glue_of(self, Seq::<crate::rrset::RDataV>::empty()));
                assert(ns@.rdatas.take(k as int + 1) =~= ns@.rdatas.take(k as int) + seq![
                    ns@.rdatas[k as int]
                ]);
                assert(rrsets_view(glues) =~= glue_of(self, ns@.rdatas.take(k as int + 1)));
            }
            k += 1;
        }
        proof {
            assert(ns@.rdatas.take(ns.rdatas@.len() as int) =~= ns@.rdatas);
        }
        Some(glues)
    }
}


/// What one RDATA item contributes to the glue: the in-zone NS target's A
/// record set, if it has one.
pub open spec fn glue_step(z: &MemoryZone, d: crate::rrset::RDataV) -> Seq<RRsetV> {
    match d {
        crate::rrset::RDataV::Ns(t) => if suffix_of(z.origin@, t) && z.find_rrset(
            t,
            RRType::A,
        ) is Some {
            seq![z.find_rrset(t, RRType::A)->Some_0]
        } else {
            Seq::empty()
        },
        _ => Seq::empty(),
    }
}

/// The glue record sets for a sequence of NS RDATA items, in order.
pub open spec fn glue_of(z: &MemoryZone, rd: Seq<crate::rrset::RDataV>) -> Seq<RRsetV>
    decreases rd.len(),
{
    if rd.len() == 0 {
        Seq::empty()
    } else {
        glue_step(z, rd[0]) + glue_of(z, rd.skip(1))
    }
}

pub proof fn lemma_glue_concat(z: &MemoryZone, a: Seq<crate::rrset::RDataV>, b: Seq<crate::rrset::RDataV>)
    ensures
        glue_of(z, a + b) == glue_of(z, a) + glue_of(z, b),
    decreases a.len(),
{
    if a.len() == 0 {
        assert(a + b =~= b);
        assert(glue_of(z, a) + glue_of(z, b) =~= glue_of(z, b));
    } else {
        lemma_glue_concat(z, a.skip(1), b);
        assert((a + b).skip(1) =~= a.skip(1) + b);
        assert((a + b)[0] == a[0]);
        assert(glue_step(z, a[0]) + (glue_of(z, a.skip(1)) + glue_of(z, b)) =~= (glue_step(
            z,
            a[0],
        ) + glue_of(z, a.skip(1))) + glue_of(z, b));
    }
}

/// In a well-formed tree, the node found for `q` is the `exact_index`.
pub proof fn lemma_exact_index_is(z: &MemoryZone, q: Seq<Seq<u8>>, i: int)
    requires
        z.domains.wf(),
        0 <= i < z.domains.nodes@.len(),
        z.domains.nodes@[i].name@ == q,
    ensures
        z.domains.has_node(q),
        z.exact_index(q) == i,
{
    assert(z.domains.has_node(q));
    let i2 = z.exact_index(q);
    assert(0 <= i2 < z.domains.nodes@.len() && z.domains.nodes@[i2].name@ == q);
    if i2 != i {
        if i2 < i {
            assert(z.domains.nodes@[i2].name@ != z.domains.nodes@[i].name@);
        } else {
            assert(z.domains.nodes@[i].name@ != z.domains.nodes@[i2].name@);
        }
    }
}

/// The zone invariant is preserved when one node's record sets change by
/// `add_or_replace` and its flag is possibly raised for an NS record.
proof fn lemma_zone_wf_after_node_change(pre: &MemoryZone, post: &MemoryZone, i: int, x: RRsetV)
    requires
        pre.wf(),
        rrset_wf(x),
        0 <= i < pre.domains.nodes@.len(),
        post.domains.nodes@.len() == pre.domains.nodes@.len(),
        post.origin@ == pre.origin@,
        post.domains.nodes@[i].name@ == pre.domains.nodes@[i].name@,
        x.name == pre.domains.nodes@[i].name@,
        post.rrsets_at(i) == add_or_replace(pre.rrsets_at(i), x),
        post.domains.nodes@[i].callback == (pre.domains.nodes@[i].callback || (x.name
            != pre.origin@ && x.typ == RRType::NS)),
        forall|j: int|
            0 <= j < pre.domains.nodes@.len() && j != i ==> post.domains.nodes@[j]
                == pre.domains.nodes@[j],
    ensures
        post.wf(),
{
    let old_rs = pre.rrsets_at(i);
    let new_rs = post.rrsets_at(i);
    assert forall|p: int, q2: int|
        0 <= p < q2 < post.domains.nodes@.len() implies (#[trigger] post.domains.nodes@[p].name@)
        != (#[trigger] post.domains.nodes@[q2].name@) by {
        assert(post.domains.nodes@[p].name@ == pre.domains.nodes@[p].name@);
        assert(post.domains.nodes@[q2].name@ == pre.domains.nodes@[q2].name@);
    }
    if has_type(old_rs, x.typ) {
        lemma_type_index_is(old_rs, type_index(old_rs, x.typ));
    }
    assert forall|j: int|
        0 <= j < post.domains.nodes@.len() implies types_distinct(#[trigger] post.rrsets_at(j))
        && (forall|k: int|
        0 <= k < post.rrsets_at(j).len() ==> (#[trigger] post.rrsets_at(j)[k]).name
            == post.domains.nodes@[j].name@ && rrset_wf(post.rrsets_at(j)[k])) by {
        if j != i {
            assert(post.rrsets_at(j) =~= pre.rrsets_at(j));
        } else {
            if has_type(old_rs, x.typ) {
                let t = type_index(old_rs, x.typ);
                assert forall|k1: int, k2: int|
                    0 <= k1 < k2 < new_rs.len() implies (#[trigger] new_rs[k1]).typ != (
                #[trigger] new_rs[k2]).typ by {
                    assert(old_rs[k1].typ != old_rs[k2].typ);
                }
            } else {
                assert forall|k1: int, k2: int|
                    0 <= k1 < k2 < new_rs.len() implies (#[trigger] new_rs[k1]).typ != (
                #[trigger] new_rs[k2]).typ by {
                    if k2 == old_rs.len() {
                        if new_rs[k1].typ == x.typ {
                            assert(has_type(old_rs, x.typ));
                        }
                    } else {
                        assert(old_rs[k1].typ != old_rs[k2].typ);
                    }
                }
            }
        }
    }
    assert forall|j: int|
        0 <= j < post.domains.nodes@.len() && (#[trigger] post.domains.nodes@[j].callback)
        implies post.domains.nodes@[j].name@ != post.origin@ && has_type(
        post.rrsets_at(j),
        RRType::NS,
    ) by {
        if j != i {
            assert(post.rrsets_at(j) =~= pre.rrsets_at(j));
            assert(pre.domains.nodes@[j].callback);
        } else {
            if pre.domains.nodes@[i].callback {
                let k = type_index(old_rs, RRType::NS);
                assert(has_type(old_rs, RRType::NS));
                assert(0 <= k < old_rs.len() && old_rs[k].typ == RRType::NS);
                if has_type(old_rs, x.typ) && type_index(old_rs, x.typ) == k {
                    assert(new_rs[k].typ == x.typ && x.typ == RRType::NS);
                } else {
                    assert(new_rs[k].typ == RRType::NS);
                }
                assert(has_type(new_rs, RRType::NS));
            } else {
                assert(x.typ == RRType::NS && x.name != pre.origin@);
                if has_type(old_rs, x.typ) {
                    let t = type_index(old_rs, x.typ);
                    assert(new_rs[t].typ == RRType::NS);
                } else {
                    assert(new_rs[old_rs.len() as int].typ == RRType::NS);
                }
                assert(has_type(new_rs, RRType::NS));
            }
        }
    }
}

/// The zone invariant is preserved when a fresh node is appended with a
/// single record set, flagged exactly for a non-apex NS record.
proof fn lemma_zone_wf_after_append(pre: &MemoryZone, post: &MemoryZone, i: int, x: RRsetV)
    requires
        pre.wf(),
        rrset_wf(x),
        !pre.domains.has_node(x.name),
        i == pre.domains.nodes@.len(),
        post.origin@ == pre.origin@,
        post.domains.nodes@.len() == pre.domains.nodes@.len() + 1,
        post.domains.nodes@[i].name@ == x.name,
        post.rrsets_at(i) == seq![x],
        post.domains.nodes@[i].callback == (x.name != pre.origin@ && x.typ == RRType::NS),
        forall|j: int|
            0 <= j < pre.domains.nodes@.len() ==> post.domains.nodes@[j]
                == pre.domains.nodes@[j],
    ensures
        post.wf(),
{
    assert forall|p: int, q2: int|
        0 <= p < q2 < post.domains.nodes@.len() implies (#[trigger] post.domains.nodes@[p].name@)
        != (#[trigger] post.domains.nodes@[q2].name@) by {
        if q2 == i {
            assert(post.domains.nodes@[p].name@ == pre.domains.nodes@[p].name@);
            if post.domains.nodes@[p].name@ == x.name {
                assert(pre.domains.has_node(x.name));
            }
        } else {
            assert(post.domains.nodes@[p].name@ == pre.domains.nodes@[p].name@);
            assert(post.domains.nodes@[q2].name@ == pre.domains.nodes@[q2].name@);
        }
    }
    assert forall|j: int|
        0 <= j < post.domains.nodes@.len() implies types_distinct(#[trigger] post.rrsets_at(j))
        && (forall|k: int|
        0 <= k < post.rrsets_at(j).len() ==> (#[trigger] post.rrsets_at(j)[k]).name
            == post.domains.nodes@[j].name@ && rrset_wf(post.rrsets_at(j)[k])) by {
        if j != i {
            assert(post.rrsets_at(j) =~= pre.rrsets_at(j));
        } else {
            assert(post.rrsets_at(i)[0] == x);
        }
    }
    assert forall|j: int|
        0 <= j < post.domains.nodes@.len() && (#[trigger] post.domains.nodes@[j].callback)
        implies post.domains.nodes@[j].name@ != post.origin@ && has_type(
        post.rrsets_at(j),
        RRType::NS,
    ) by {
        if j != i {
            assert(post.rrsets_at(j) =~= pre.rrsets_at(j));
            assert(pre.domains.nodes@[j].callback);
        } else {
            assert(post.rrsets_at(i)[0] == x);
            assert(has_type(post.rrsets_at(i), RRType::NS));
        }
    }
}

} // verus!
