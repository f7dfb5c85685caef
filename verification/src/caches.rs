//! What is known of nodes, and of the CSI drivers that run on them.

use crate::duplicate::Duplicate;
use crate::node::{NodeItem, NodeItemView};
use crate::order;
use crate::string_map::{StringMap, StringSet};
use vstd::prelude::*;

verus! {

/// Nodes are known by their own names.
pub open spec fn is_named(nodes: Map<Seq<char>, NodeItemView>) -> bool {
    &&& nodes.dom().finite()
    &&& forall|n: Seq<char>| #[trigger] nodes.contains_key(n) ==> nodes[n].metadata.name == n
}

/// The nodes, by name.
#[derive(Debug)]
pub struct NodeCache {
    nodes: StringMap<NodeItem>,
}

impl View for NodeCache {
    type V = Map<Seq<char>, NodeItemView>;

    closed spec fn view(&self) -> Map<Seq<char>, NodeItemView> {
        self.nodes@
    }
}

impl NodeCache {
    #[verifier::type_invariant]
    pub open spec fn is_sound(&self) -> bool {
        is_named(self@)
    }

    /// No nodes.
    pub fn new() -> (cache: Self)
        ensures
            cache@ == Map::<Seq<char>, NodeItemView>::empty(),
    {
        NodeCache { nodes: StringMap::new() }
    }

    /// Set what is known of a node.
    pub fn insert(&mut self, item: NodeItem)
        ensures
            final(self)@ == old(self)@.insert(item@.metadata.name, item@),
    {
        proof {
            use_type_invariant(&*self);
        }
        let mut whole = NodeCache::new();
        std::mem::swap(self, &mut whole);
        let NodeCache { mut nodes } = whole;
        nodes.insert(item.metadata.name.clone(), item);
        *self = NodeCache { nodes };
    }

    /// Forget a node.
    pub fn remove(&mut self, name: &str)
        ensures
            final(self)@ == old(self)@.remove(name@),
    {
        proof {
            use_type_invariant(&*self);
        }
        let mut whole = NodeCache::new();
        std::mem::swap(self, &mut whole);
        let NodeCache { mut nodes } = whole;
        nodes.remove(name);
        *self = NodeCache { nodes };
    }

    /// What is known of a node.
    pub fn get(&self, name: &str) -> (item: Option<&NodeItem>)
        ensures
            item is Some == self@.contains_key(name@),
            item matches Some(i) ==> i@ == self@[name@],
    {
        self.nodes.get(name)
    }

    /// The number of nodes.
    pub fn len(&self) -> (n: usize)
        ensures
            n == order::sorted_keys(self@.dom()).len(),
            order::is_sorted(order::sorted_keys(self@.dom())),
            order::sorted_keys(self@.dom()).to_set() == self@.dom(),
    {
        self.nodes.len()
    }

    /// Node `i` in the order of the names.
    pub fn at(&self, i: usize) -> (item: &NodeItem)
        requires
            i < order::sorted_keys(self@.dom()).len(),
        ensures
            item@ == self@[order::sorted_keys(self@.dom())[i as int]],
    {
        let n: usize = self.nodes.len();
        self.nodes.value_at(i)
    }
}

/// Limits and names of drivers are known of the same nodes, and a driver with
/// a limit is among those that run.
pub open spec fn is_matched(
    limits: Map<Seq<char>, Map<Seq<char>, i64>>,
    drivers: Map<Seq<char>, Set<Seq<char>>>,
) -> bool {
    &&& limits.dom() == drivers.dom()
    &&& forall|n: Seq<char>, d: Seq<char>|
        #![trigger limits[n].contains_key(d)]
        limits.contains_key(n) && limits[n].contains_key(d) ==> drivers[n].contains(d)
}

/// The CSI drivers that run on each node, and how many volumes of them can be
/// attached.
#[derive(Debug)]
pub struct CsiNodeCache {
    limits: StringMap<StringMap<i64>>,
    drivers: StringMap<StringSet>,
}

impl CsiNodeCache {
    /// How many volumes of each driver can be attached, by node.
    pub closed spec fn limits(&self) -> Map<Seq<char>, Map<Seq<char>, i64>> {
        self.limits@
    }

    /// The drivers that run, by node.
    pub closed spec fn drivers(&self) -> Map<Seq<char>, Set<Seq<char>>> {
        self.drivers@
    }

    #[verifier::type_invariant]
    pub open spec fn is_sound(&self) -> bool {
        is_matched(self.limits(), self.drivers())
    }

    /// No drivers.
    pub fn new() -> (cache: Self)
        ensures
            cache.limits() == Map::<Seq<char>, Map<Seq<char>, i64>>::empty(),
            cache.drivers() == Map::<Seq<char>, Set<Seq<char>>>::empty(),
    {
        CsiNodeCache { limits: StringMap::new(), drivers: StringMap::new() }
    }

    /// Set what is known of a node.
    pub fn insert(&mut self, node: String, limits: StringMap<i64>, drivers: StringSet)
        requires
            limits@.dom().subset_of(drivers@),
        ensures
            final(self).limits() == old(self).limits().insert(node@, limits@),
            final(self).drivers() == old(self).drivers().insert(node@, drivers@),
    {
        proof {
            use_type_invariant(&*self);
        }
        let mut whole = CsiNodeCache::new();
        std::mem::swap(self, &mut whole);
        let CsiNodeCache { limits: mut all_limits, drivers: mut all_drivers } = whole;
        let ghost before = (all_limits@, all_drivers@);
        let ghost added = (limits@, drivers@);
        all_limits.insert(node.clone(), limits);
        all_drivers.insert(node, drivers);
        proof {
            assert(all_limits@.dom() =~= all_drivers@.dom());
            assert forall|n: Seq<char>, d: Seq<char>|
                #![trigger all_limits@[n].contains_key(d)]
                all_limits@.contains_key(n) && all_limits@[n].contains_key(
                    d,
                ) implies all_drivers@[n].contains(d) by {
                if n == node@ {
                    assert(added.0.dom().contains(d));
                } else {
                    assert(before.0[n].contains_key(d));
                }
            }
        }
        *self = CsiNodeCache { limits: all_limits, drivers: all_drivers };
    }

    /// Forget a node.
    pub fn remove(&mut self, node: &str)
        ensures
            final(self).limits() == old(self).limits().remove(node@),
            final(self).drivers() == old(self).drivers().remove(node@),
    {
        proof {
            use_type_invariant(&*self);
        }
        let mut whole = CsiNodeCache::new();
        std::mem::swap(self, &mut whole);
        let CsiNodeCache { mut limits, mut drivers } = whole;
        let ghost before = (limits@, drivers@);
        limits.remove(node);
        drivers.remove(node);
        proof {
            assert(limits@.dom() =~= drivers@.dom());
            assert forall|n: Seq<char>, d: Seq<char>|
                #![trigger limits@[n].contains_key(d)]
                limits@.contains_key(n) && limits@[n].contains_key(d) implies drivers@[n].contains(
                d,
            ) by {
                assert(before.0[n].contains_key(d));
            }
        }
        *self = CsiNodeCache { limits, drivers };
    }

    /// A copy of the limits.
    pub fn copy_limits(&self) -> (limits: StringMap<StringMap<i64>>)
        ensures
            limits@ == self.limits(),
    {
        self.limits.duplicate()
    }

    /// A copy of the names of the drivers.
    pub fn copy_drivers(&self) -> (drivers: StringMap<StringSet>)
        ensures
            drivers@ == self.drivers(),
    {
        self.drivers.duplicate()
    }
}

} // verus!
