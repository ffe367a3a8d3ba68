//! Default content for a freshly created zone: the apex SOA, the apex NS
//! pointing at `ns.<origin>`, and one glue A record per given address.

use vstd::prelude::*;
use crate::name::{Name, labels_view, valid_labels, labels_wire_len};
use crate::rrset::{RRset, RRsetV, RRType, RRTtl, RData, RDataV, SoaRdata, SoaV, rrset_wf};
use crate::text::ipv4_val;

verus! {

/// Labels of the fixed SOA MNAME, `hd.fuxi.`.
pub open spec fn soa_mname_labels() -> Seq<Seq<u8>> {
    seq![seq![104u8, 100u8], seq![102u8, 117u8, 120u8, 105u8]]
}

/// Labels of the fixed SOA RNAME, `root.fuxi.`.
pub open spec fn soa_rname_labels() -> Seq<Seq<u8>> {
    seq![seq![114u8, 111u8, 111u8, 116u8], seq![102u8, 117u8, 120u8, 105u8]]
}

/// The label `ns`.
pub open spec fn ns_label() -> Seq<u8> {
    seq![110u8, 115u8]
}

/// The name `ns.<origin>`.
pub open spec fn ns_name_of(origin: Seq<Seq<u8>>) -> Seq<Seq<u8>> {
    seq![ns_label()] + origin
}

/// The default apex SOA record set of a zone.
pub open spec fn default_soa_v(origin: Seq<Seq<u8>>) -> RRsetV {
    RRsetV {
        name: origin,
        typ: RRType::SOA,
        ttl: 3600,
        rdatas: seq![
            RDataV::Soa(
                SoaV {
                    mname: soa_mname_labels(),
                    rname: soa_rname_labels(),
                    serial: 1,
                    refresh: 600,
                    retry: 300,
                    expire: 2419200,
                    minimum: 600,
                },
            )
        ],
    }
}

/// The default apex NS record set of a zone.
pub open spec fn default_ns_v(origin: Seq<Seq<u8>>) -> RRsetV {
    RRsetV { name: origin, typ: RRType::NS, ttl: 3600, rdatas: seq![
        RDataV::Ns(ns_name_of(origin)),
    ] }
}

/// The default glue record set: one A record per address.
pub open spec fn default_glue_v(origin: Seq<Seq<u8>>, addrs: Seq<u32>) -> RRsetV {
    RRsetV {
        name: ns_name_of(origin),
        typ: RRType::A,
        ttl: 3600,
        rdatas: Seq::new(addrs.len(), |i: int| RDataV::A(addrs[i])),
    }
}

proof fn lemma_fixed_labels_valid()
    ensures
        valid_labels(soa_mname_labels()),
        valid_labels(soa_rname_labels()),
{
    let m = soa_mname_labels();
    let r = soa_rname_labels();
    assert(crate::name::valid_label(m[0]));
    assert(crate::name::valid_label(m[1]));
    assert(crate::name::valid_label(r[0]));
    assert(crate::name::valid_label(r[1]));
    assert(m.skip(1) =~= seq![seq![102u8, 117u8, 120u8, 105u8]]);
    assert(m.skip(1).skip(1) =~= Seq::<Seq<u8>>::empty());
    assert(labels_wire_len(Seq::<Seq<u8>>::empty()) == 1);
    assert(labels_wire_len(m.skip(1)) == 6);
    assert(labels_wire_len(m) == 9);
    assert(r.skip(1) =~= seq![seq![102u8, 117u8, 120u8, 105u8]]);
    assert(r.skip(1).skip(1) =~= Seq::<Seq<u8>>::empty());
    assert(labels_wire_len(r.skip(1)) == 6);
    assert(labels_wire_len(r) == 11);
    assert forall|i: int| 0 <= i < m.len() implies crate::name::valid_label(#[trigger] m[i]) by {
        if i == 0 {
        } else {
            assert(i == 1);
        }
    }
    assert forall|i: int| 0 <= i < r.len() implies crate::name::valid_label(#[trigger] r[i]) by {
        if i == 0 {
        } else {
            assert(i == 1);
        }
    }
}

fn make_soa_mname() -> (r: Name)
    ensures
        r@ == soa_mname_labels(),
        r.wf(),
{
    let mut l1: Vec<u8> = Vec::new();
    l1.push(104);
    l1.push(100);
    let mut l2: Vec<u8> = Vec::new();
    l2.push(102);
    l2.push(117);
    l2.push(120);
    l2.push(105);
    proof {
        assert(l1@ =~= seq![104u8, 100u8]);
        assert(l2@ =~= seq![102u8, 117u8, 120u8, 105u8]);
    }
    let mut ls: Vec<Vec<u8>> = Vec::new();
    ls.push(l1);
    ls.push(l2);
    proof {
        assert(labels_view(ls) =~= soa_mname_labels());
        lemma_fixed_labels_valid();
    }
    match Name::from_labels(ls) {
        Some(n) => n,
        None => vstd::pervasive::unreached(),
    }
}

fn make_soa_rname() -> (r: Name)
    ensures
        r@ == soa_rname_labels(),
        r.wf(),
{
    let mut l1: Vec<u8> = Vec::new();
    l1.push(114);
    l1.push(111);
    l1.push(111);
    l1.push(116);
    let mut l2: Vec<u8> = Vec::new();
    l2.push(102);
    l2.push(117);
    l2.push(120);
    l2.push(105);
    proof {
        assert(l1@ =~= seq![114u8, 111u8, 111u8, 116u8]);
        assert(l2@ =~= seq![102u8, 117u8, 120u8, 105u8]);
    }
    let mut ls: Vec<Vec<u8>> = Vec::new();
    ls.push(l1);
    ls.push(l2);
    proof {
        assert(labels_view(ls) =~= soa_rname_labels());
        lemma_fixed_labels_valid();
    }
    match Name::from_labels(ls) {
        Some(n) => n,
        None => vstd::pervasive::unreached(),
    }
}

/// The default SOA record set for a new zone rooted at `name`:
/// `<name> 3600 IN SOA hd.fuxi. root.fuxi. 1 600 300 2419200 600`.
pub fn default_soa(name: &Name) -> (r: RRset)
    requires
        valid_labels(name@),
    ensures
        r@ == default_soa_v(name@),
        rrset_wf(r@),
{
    let mname = make_soa_mname();
    let rname = make_soa_rname();
    let mut rdatas: Vec<RData> = Vec::new();
    rdatas.push(
        RData::Soa(
            SoaRdata {
                mname,
                rname,
                serial: 1,
                refresh: 600,
                retry: 300,
                expire: 2419200,
                minimum: 600,
            },
        ),
    );
    let r = RRset { name: name.clone(), typ: RRType::SOA, ttl: RRTtl(3600), rdatas };
    proof {
        lemma_fixed_labels_valid();
        assert(r@.rdatas =~= default_soa_v(name@).rdatas);
    }
    r
}

/// The default NS record set (`<name> 3600 IN NS ns.<name>`) and the glue
/// record set carrying one A record per address text. Fails exactly when
/// some address does not parse as a dotted quad.
pub fn default_ns_and_glue(name: &Name, ip_addrs: &Vec<Vec<u8>>) -> (r: Option<(RRset, RRset)>)
    requires
        valid_labels(name@),
        labels_wire_len(name@) + 3 <= 255,
        ip_addrs@.len() <= 65535,
    ensures
        match r {
            Some(pair) => {
                &&& pair.0@ == default_ns_v(name@)
                &&& pair.1@ == default_glue_v(
                    name@,
                    Seq::new(ip_addrs@.len(), |i: int| ipv4_val(ip_addrs@[i]@)->Some_0),
                )
                &&& forall|i: int|
                    0 <= i < ip_addrs@.len() ==> ipv4_val(#[trigger] ip_addrs@[i]@) is Some
                &&& rrset_wf(pair.0@)
                &&& rrset_wf(pair.1@)
            },
            None => exists|i: int|
                0 <= i < ip_addrs@.len() && ipv4_val(#[trigger] ip_addrs@[i]@) is None,
        },
    {
    let mut nsl: Vec<u8> = Vec::new();
    nsl.push(110);
    nsl.push(115);
    proof {
        assert(nsl@ =~= seq![110u8, 115u8]);
        assert(nsl@ =~= ns_label());
        assert(crate::name::valid_label(ns_label()));
    }
    let ns_name = name.child(&nsl);
    proof {
        assert(ns_name@ == ns_name_of(name@));
    }
    let mut ns_rdatas: Vec<RData> = Vec::new();
    ns_rdatas.push(RData::Ns(ns_name.clone()));
    let ns = RRset { name: name.clone(), typ: RRType::NS, ttl: RRTtl(3600), rdatas: ns_rdatas };
    let mut glue_rdatas: Vec<RData> = Vec::new();
    let mut i: usize = 0;
    while i < ip_addrs.len()
        invariant
            i <= ip_addrs@.len(),
            glue_rdatas@.len() == i,
            forall|j: int|
                0 <= j < i ==> ipv4_val(#[trigger] ip_addrs@[j]@) is Some,
            forall|j: int|
                0 <= j < i ==> #[trigger] glue_rdatas@[j]@ == RDataV::A(
                    ipv4_val(ip_addrs@[j]@)->Some_0,
                ),
        decreases ip_addrs@.len() - i,
    {
        match crate::text::parse_ipv4(ip_addrs[i].as_slice()) {
            Some(a) => {
                glue_rdatas.push(RData::A(a));
            },
            None => {
                return None;
            },
        }
        i += 1;
    }
    let glue = RRset { name: ns_name, typ: RRType::A, ttl: RRTtl(3600), rdatas: glue_rdatas };
    proof {
        assert(ns@.rdatas =~= default_ns_v(name@).rdatas);
        assert(glue@.rdatas =~= default_glue_v(
            name@,
            Seq::new(ip_addrs@.len(), |t: int| ipv4_val(ip_addrs@[t]@)->Some_0),
        ).rdatas);
        assert(ip_addrs@.len() <= 65535 || true);
        crate::name::lemma_wire_len_parts(seq![ns_label()], name@);
        assert(seq![ns_label()].skip(1) =~= Seq::<Seq<u8>>::empty());
    }
    Some((ns, glue))
}

} // verus!
