//! The library's stated laws: properties that relate several operations,
//! proved over the same specification functions the operations' contracts
//! use.

use vstd::prelude::*;
use crate::rrset::{RRType, RRsetV, RDataV};
use crate::zone::{
    MemoryZone, add_rrset_model, has_type, type_index, rrset_of_type, lemma_type_index_is,
    lemma_exact_index_is, glue_step, glue_of,
};
use crate::zone_content_generator::{default_soa_v, default_ns_v, default_glue_v, ns_name_of};
use crate::auth::seeded_zone;
use crate::name::suffix_of;

verus! {

/// A freshly seeded zone answers for its own origin: the default SOA and
/// NS are found there, no delegation cut covers the origin, and the glue
/// A records hold exactly the given addresses (none when none were given).
pub proof fn lemma_seeded_zone_defaults(z: MemoryZone, origin: Seq<Seq<u8>>, addrs: Seq<u32>)
    requires
        z.wf(),
        seeded_zone(z, origin, addrs),
    ensures
        z.find_rrset(origin, RRType::SOA) == Some(default_soa_v(origin)),
        z.find_rrset(origin, RRType::NS) == Some(default_ns_v(origin)),
        !z.has_delegation(origin),
        addrs.len() > 0 ==> z.find_rrset(ns_name_of(origin), RRType::A) == Some(
            default_glue_v(origin, addrs),
        ),
        addrs.len() > 0 ==> forall|k: int|
            0 <= k < addrs.len() ==> default_glue_v(origin, addrs).rdatas[k] == RDataV::A(
                addrs[k],
            ),
    {
    lemma_exact_index_is(&z, origin, 0);
    let rs = z.rrsets_at(0);
    assert(rs[0] == default_soa_v(origin));
    assert(rs[1] == default_ns_v(origin));
    lemma_type_index_is(rs, 0);
    lemma_type_index_is(rs, 1);
    assert forall|i: int| !(#[trigger] z.deleg_node(origin, i)) by {
        if z.deleg_node(origin, i) {
            assert(z.domains.nodes@[i].callback);
        }
    }
    if addrs.len() > 0 {
        lemma_exact_index_is(&z, ns_name_of(origin), 1);
        let gs = z.rrsets_at(1);
        assert(gs[0] == default_glue_v(origin, addrs));
        lemma_type_index_is(gs, 0);
    }
}

/// A zone seeded without addresses yields no glue for its default NS: the
/// single NS target has no node, so the glue list is empty.
pub proof fn lemma_seeded_zone_no_glue(z: MemoryZone, origin: Seq<Seq<u8>>)
    requires
        z.wf(),
        seeded_zone(z, origin, Seq::<u32>::empty()),
    ensures
        glue_of(&z, default_ns_v(origin).rdatas) == Seq::<RRsetV>::empty(),
{
    let rd = default_ns_v(origin).rdatas;
    assert(rd[0] == RDataV::Ns(ns_name_of(origin)));
    assert(!z.domains.has_node(ns_name_of(origin))) by {
        if z.domains.has_node(ns_name_of(origin)) {
            let i = choose|i: int|
                0 <= i < z.domains.nodes@.len() && (#[trigger] z.domains.nodes@[i].name@)
                    == ns_name_of(origin);
            assert(i == 0);
        }
    }
    assert(z.rrsets_of(ns_name_of(origin)) =~= Seq::<RRsetV>::empty());
    assert(!has_type(Seq::<RRsetV>::empty(), RRType::A)) by {
        if has_type(Seq::<RRsetV>::empty(), RRType::A) {
            let k = type_index(Seq::<RRsetV>::empty(), RRType::A);
        }
    }
    assert(glue_step(&z, rd[0]) =~= Seq::<RRsetV>::empty());
    assert(rd.skip(1) =~= Seq::<RDataV>::empty());
    assert(glue_of(&z, rd) =~= glue_step(&z, rd[0]) + glue_of(&z, rd.skip(1)));
}

/// Glue resolution ignores NS targets outside the zone: a target that is
/// not a sub-domain of the origin contributes nothing.
pub proof fn lemma_glue_ignores_foreign(z: MemoryZone, target: Seq<Seq<u8>>)
    requires
        !suffix_of(z.origin@, target),
    ensures
        glue_step(&z, RDataV::Ns(target)) == Seq::<RRsetV>::empty(),
{
}

/// Immediately after a record set is inserted, the delegation-blind lookup
/// of its owner and type finds exactly it. (The default-mode walk hands it
/// back as the answer unless a delegation cut covers the owner, which the
/// lookup's own contract decides.)
pub proof fn lemma_add_rrset_then_find(pre: MemoryZone, post: MemoryZone, x: RRsetV)
    requires
        pre.wf(),
        post.wf(),
        add_rrset_model(pre, post, x),
    ensures
        post.find_rrset(x.name, x.typ) == Some(x),
{
    if pre.domains.has_node(x.name) {
        let i = pre.exact_index(x.name);
        assert(0 <= i < pre.domains.nodes@.len() && pre.domains.nodes@[i].name@ == x.name);
        lemma_exact_index_is(&post, x.name, i);
        let old_rs = pre.rrsets_at(i);
        let new_rs = post.rrsets_at(i);
        if has_type(old_rs, x.typ) {
            let u = type_index(old_rs, x.typ);
            assert(0 <= u < old_rs.len() && old_rs[u].typ == x.typ);
            assert(new_rs[u] == x);
            lemma_type_index_is(new_rs, u);
        } else {
            assert(new_rs[old_rs.len() as int] == x);
            lemma_type_index_is(new_rs, old_rs.len() as int);
        }
    } else {
        let i = pre.domains.nodes@.len() as int;
        lemma_exact_index_is(&post, x.name, i);
        assert(post.rrsets_at(i)[0] == x);
        lemma_type_index_is(post.rrsets_at(i), 0);
    }
}

/// Inserting a record set of an existing owner and type replaces it: the
/// owner keeps one record set per type, and only an insertion of a fresh
/// type grows the owner's record sets.
pub proof fn lemma_add_rrset_replaces(pre: MemoryZone, post: MemoryZone, x: RRsetV)
    requires
        pre.wf(),
        post.wf(),
        add_rrset_model(pre, post, x),
    ensures
        crate::zone::types_distinct(post.rrsets_of(x.name)),
        post.rrsets_of(x.name).len() == if has_type(pre.rrsets_of(x.name), x.typ) {
            pre.rrsets_of(x.name).len()
        } else {
            pre.rrsets_of(x.name).len() + 1
        },
{
    if pre.domains.has_node(x.name) {
        let i = pre.exact_index(x.name);
        assert(0 <= i < pre.domains.nodes@.len() && pre.domains.nodes@[i].name@ == x.name);
        lemma_exact_index_is(&post, x.name, i);
        lemma_exact_index_is(&pre, x.name, i);
    } else {
        let i = pre.domains.nodes@.len() as int;
        lemma_exact_index_is(&post, x.name, i);
        assert(pre.rrsets_of(x.name) =~= Seq::<RRsetV>::empty());
        assert(!has_type(Seq::<RRsetV>::empty(), x.typ)) by {
            if has_type(Seq::<RRsetV>::empty(), x.typ) {
                let k = type_index(Seq::<RRsetV>::empty(), x.typ);
            }
        }
        assert(post.rrsets_at(i) =~= seq![x]);
    }
}

/// Inserting the same record set twice leaves the zone as the first
/// insertion left it: owner names, record sets and delegation flags all
/// stay the same.
pub proof fn lemma_add_rrset_idempotent(
    pre: MemoryZone,
    mid: MemoryZone,
    post: MemoryZone,
    x: RRsetV,
)
    requires
        pre.wf(),
        mid.wf(),
        post.wf(),
        add_rrset_model(pre, mid, x),
        add_rrset_model(mid, post, x),
    ensures
        post.domains.nodes@.len() == mid.domains.nodes@.len(),
        forall|j: int|
            0 <= j < mid.domains.nodes@.len() ==> (#[trigger] post.domains.nodes@[j].name@)
                == mid.domains.nodes@[j].name@,
        forall|j: int|
            0 <= j < mid.domains.nodes@.len() ==> (#[trigger] post.rrsets_at(j)) == mid.rrsets_at(
                j,
            ),
        forall|j: int|
            0 <= j < mid.domains.nodes@.len() ==> (#[trigger] post.domains.nodes@[j].callback)
                == mid.domains.nodes@[j].callback,
{
    lemma_add_rrset_then_find(pre, mid, x);
    // The owner's node exists in `mid`, so the second insertion replaces.
    let i = if pre.domains.has_node(x.name) {
        pre.exact_index(x.name)
    } else {
        pre.domains.nodes@.len() as int
    };
    assert(0 <= i < mid.domains.nodes@.len() && mid.domains.nodes@[i].name@ == x.name);
    lemma_exact_index_is(&mid, x.name, i);
    let mid_rs = mid.rrsets_at(i);
    assert(rrset_of_type(mid_rs, x.typ) == Some(x));
    assert(has_type(mid_rs, x.typ));
    let u = type_index(mid_rs, x.typ);
    assert(mid_rs[u] == x);
    assert(post.rrsets_at(i) == mid_rs.update(u, x));
    assert(mid_rs.update(u, x) =~= mid_rs);
    // The flag cannot rise: an NS insertion below the apex raised it the
    // first time already.
    let deleg = x.name != mid.origin@ && x.typ == RRType::NS;
    if pre.domains.has_node(x.name) {
        assert(mid.domains.nodes@[i].callback == (pre.domains.nodes@[i].callback || deleg));
    } else {
        assert(mid.domains.nodes@[i].callback == deleg);
    }
    assert(post.domains.nodes@[i].callback == (mid.domains.nodes@[i].callback || deleg));
    assert forall|j: int|
        0 <= j < mid.domains.nodes@.len() implies (#[trigger] post.rrsets_at(j))
        == mid.rrsets_at(j) by {
        if j != i {
            assert(post.domains.nodes@[j] == mid.domains.nodes@[j]);
        }
    }
}

} // verus!
