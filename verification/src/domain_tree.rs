//! The name index shared by the zone table, the per-zone record store and
//! the forwarder table: a map from names to values that supports exact and
//! longest-suffix (deepest ancestor) lookup, with a per-node callback flag
//! that marks delegation cuts.

use vstd::prelude::*;
use crate::name::{Name, suffix_of};

verus! {

/// `a` names a strict ancestor of the name with labels `n`.
pub open spec fn strict_suffix(a: Seq<Seq<u8>>, n: Seq<Seq<u8>>) -> bool {
    suffix_of(a, n) && a.len() < n.len()
}

/// One node: a name, its value, and the callback (delegation-cut) flag.
pub struct TreeNode<V> {
    pub name: Name,
    pub value: V,
    pub callback: bool,
}

/// The name index. Lookups scan the node list; at most one node exists per
/// name.
pub struct DomainTree<V> {
    pub nodes: Vec<TreeNode<V>>,
}

/// Outcome of a lookup: the index of the node bearing the name itself, the
/// index of the deepest ancestor node, or nothing.
#[derive(PartialEq, Eq, Structural, Clone, Copy, Debug)]
pub enum TreeSearch {
    ExactMatch(usize),
    PartialMatch(usize),
    NotFound,
}

impl<V> DomainTree<V> {
    /// At most one node per name.
    pub open spec fn wf(&self) -> bool {
        forall|i: int, j: int|
            0 <= i < j < self.nodes@.len() ==> (#[trigger] self.nodes@[i].name@) != (
            #[trigger] self.nodes@[j].name@)
    }

    /// Some node carries exactly the name `n`.
    pub open spec fn has_node(&self, n: Seq<Seq<u8>>) -> bool {
        exists|i: int| 0 <= i < self.nodes@.len() && (#[trigger] self.nodes@[i].name@) == n
    }

    /// Some node carries a strict ancestor of `n`.
    pub open spec fn has_ancestor(&self, n: Seq<Seq<u8>>) -> bool {
        exists|i: int|
            0 <= i < self.nodes@.len() && strict_suffix(#[trigger] self.nodes@[i].name@, n)
    }

    pub fn new() -> (r: DomainTree<V>)
        ensures
            r.nodes@.len() == 0,
            r.wf(),
    {
        DomainTree { nodes: Vec::new() }
    }

    pub fn len(&self) -> (r: usize)
        ensures
            r == self.nodes@.len(),
    {
        self.nodes.len()
    }

    /// Borrow the value at node `i`.
    pub fn value(&self, i: usize) -> (r: &V)
        requires
            i < self.nodes@.len(),
        ensures
            *r == self.nodes@[i as int].value,
    {
        &self.nodes[i].value
    }

    /// Exact lookup, or the deepest ancestor node, or nothing.
    pub fn find(&self, name: &Name) -> (r: TreeSearch)
        requires
            self.wf(),
        ensures
            match r {
                TreeSearch::ExactMatch(i) => i < self.nodes@.len() && self.nodes@[
                    i as int
                ].name@ == name@,
                TreeSearch::PartialMatch(i) => {
                    &&& !self.has_node(name@)
                    &&& i < self.nodes@.len()
                    &&& strict_suffix(self.nodes@[i as int].name@, name@)
                    &&& forall|j: int|
                        0 <= j < self.nodes@.len() && strict_suffix(
                            #[trigger] self.nodes@[j].name@,
                            name@,
                        ) ==> self.nodes@[j].name@.len() <= self.nodes@[i as int].name@.len()
                },
                TreeSearch::NotFound => !self.has_node(name@) && !self.has_ancestor(name@),
            },
    {
        let mut exact: Option<usize> = None;
        let mut best: Option<usize> = None;
        let mut i: usize = 0;
        while i < self.nodes.len()
            invariant
                i <= self.nodes@.len(),
                match exact {
                    Some(e) => e < i && self.nodes@[e as int].name@ == name@,
                    None => forall|j: int|
                        0 <= j < i ==> (#[trigger] self.nodes@[j].name@) != name@,
                },
                match best {
                    Some(b) => {
                        &&& b < i
                        &&& strict_suffix(self.nodes@[b as int].name@, name@)
                        &&& forall|j: int|
                            0 <= j < i && strict_suffix(#[trigger] self.nodes@[j].name@, name@)
                                ==> self.nodes@[j].name@.len() <= self.nodes@[b as int].name@.len()
                    },
                    None => forall|j: int|
                        0 <= j < i ==> !strict_suffix(#[trigger] self.nodes@[j].name@, name@),
                },
            decreases self.nodes@.len() - i,
        {
            let node = &self.nodes[i];
            if node.name.equals(name) {
                exact = Some(i);
            } else if name.is_subdomain(&node.name) {
                proof {
                    // A suffix of equal length would be the name itself.
                    if node.name@.len() == name@.len() {
                        assert(name@.skip(0) =~= name@);
                    }
                }
                let take = match best {
                    None => true,
                    Some(b) => node.name.label_count() > self.nodes[b].name.label_count(),
                };
                if take {
                    best = Some(i);
                }
            }
            i += 1;
        }
        match exact {
            Some(e) => TreeSearch::ExactMatch(e),
            None => match best {
                Some(b) => TreeSearch::PartialMatch(b),
                None => TreeSearch::NotFound,
            },
        }
    }

    /// Insert a value for `name`: replace the value of the existing node, or
    /// append a new node with a clear callback flag. Returns the node index.
    pub fn insert(&mut self, name: Name, value: V) -> (i: usize)
        requires
            old(self).wf(),
        ensures
            final(self).wf(),
            i < final(self).nodes@.len(),
            final(self).nodes@[i as int].name@ == name@,
            final(self).nodes@[i as int].value == value,
            if old(self).has_node(name@) {
                &&& final(self).nodes@.len() == old(self).nodes@.len()
                &&& old(self).nodes@[i as int].name@ == name@
                &&& final(self).nodes@[i as int].callback == old(self).nodes@[i as int].callback
                &&& final(self).nodes@[i as int].name == old(self).nodes@[i as int].name
                &&& forall|j: int|
                    0 <= j < old(self).nodes@.len() && j != i ==> final(self).nodes@[j] == old(
                        self,
                    ).nodes@[j]
            } else {
                &&& final(self).nodes@.len() == old(self).nodes@.len() + 1
                &&& i == old(self).nodes@.len()
                &&& final(self).nodes@[i as int].callback == false
                &&& forall|j: int|
                    0 <= j < old(self).nodes@.len() ==> final(self).nodes@[j] == old(
                        self,
                    ).nodes@[j]
            },
    {
        let mut i: usize = 0;
        while i < self.nodes.len()
            invariant
                i <= self.nodes@.len(),
                self.nodes@ == old(self).nodes@,
                old(self).wf(),
                forall|j: int| 0 <= j < i ==> (#[trigger] self.nodes@[j].name@) != name@,
            decreases self.nodes@.len() - i,
        {
            if self.nodes[i].name.equals(&name) {
                let ghost pre = self.nodes@;
                let node = &mut self.nodes[i];
                node.value = value;
                proof {
                    assert(self.nodes@.len() == pre.len());
                    assert(self.nodes@[i as int].name == pre[i as int].name);
                    assert forall|p: int| 0 <= p < self.nodes@.len() implies (
                    #[trigger] self.nodes@[p].name@) == pre[p].name@ by {
                        if p != i {
                            assert(self.nodes@[p] == pre[p]);
                        }
                    }
                    assert(pre == old(self).nodes@);
                    assert forall|p: int, q: int|
                        0 <= p < q < self.nodes@.len() implies (#[trigger] self.nodes@[p].name@)
                        != (#[trigger] self.nodes@[q].name@) by {
                        assert(self.nodes@[p].name@ == pre[p].name@);
                        assert(self.nodes@[q].name@ == pre[q].name@);
                        assert(old(self).nodes@[p].name@ != old(self).nodes@[q].name@);
                    }
                    assert(self.wf());
                }
                return i;
            }
            i += 1;
        }
        proof {
            assert(!self.has_node(name@));
        }
        let i = self.nodes.len();
        let ghost nv = name@;
        self.nodes.push(TreeNode { name, value, callback: false });
        proof {
            assert forall|p: int, q: int|
                0 <= p < q < self.nodes@.len() implies (#[trigger] self.nodes@[p].name@) != (
            #[trigger] self.nodes@[q].name@) by {
                if q < i {
                    assert(self.nodes@[p].name@ == old(self).nodes@[p].name@);
                    assert(self.nodes@[q].name@ == old(self).nodes@[q].name@);
                } else {
                    assert(self.nodes@[q].name@ == nv);
                    assert(self.nodes@[p].name@ == old(self).nodes@[p].name@);
                }
            }
        }
        i
    }

    /// Set or clear the callback (delegation-cut) flag of node `i`.
    pub fn set_callback(&mut self, i: usize, on: bool)
        requires
            i < old(self).nodes@.len(),
        ensures
            final(self).nodes@.len() == old(self).nodes@.len(),
            final(self).nodes@[i as int].callback == on,
            final(self).nodes@[i as int].name == old(self).nodes@[i as int].name,
            final(self).nodes@[i as int].value == old(self).nodes@[i as int].value,
            forall|j: int|
                0 <= j < old(self).nodes@.len() && j != i ==> final(self).nodes@[j] == old(
                    self,
                ).nodes@[j],
            old(self).wf() ==> final(self).wf(),
    {
        let node = &mut self.nodes[i];
        node.callback = on;
    }

    /// The node whose name is the depth-`d` suffix of `name` and whose
    /// callback flag is set, if there is one.
    pub fn flagged_suffix_at_depth(&self, name: &Name, d: usize) -> (r: Option<usize>)
        requires
            self.wf(),
        ensures
            match r {
                Some(i) => {
                    &&& i < self.nodes@.len()
                    &&& self.nodes@[i as int].callback
                    &&& self.nodes@[i as int].name@.len() == d
                    &&& suffix_of(self.nodes@[i as int].name@, name@)
                },
                None => forall|j: int|
                    0 <= j < self.nodes@.len() && (#[trigger] self.nodes@[j].callback)
                        && suffix_of(self.nodes@[j].name@, name@) ==> self.nodes@[j].name@.len()
                        != d,
            },
    {
        let mut i: usize = 0;
        while i < self.nodes.len()
            invariant
                i <= self.nodes@.len(),
                forall|j: int|
                    0 <= j < i && (#[trigger] self.nodes@[j].callback) && suffix_of(
                        self.nodes@[j].name@,
                        name@,
                    ) ==> self.nodes@[j].name@.len() != d,
            decreases self.nodes@.len() - i,
        {
            let node = &self.nodes[i];
            if node.callback && node.name.label_count() == d && name.is_subdomain(&node.name) {
                return Some(i);
            }
            i += 1;
        }
        None
    }
}

} // verus!
