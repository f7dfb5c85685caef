//! The pods that are placed, and on which node each of them is.

use crate::duplicate::Duplicate;
use crate::order;
use crate::ports::{HostPortClaim, HostPortClaimView};
use crate::resources::{ResourceRequests, ResourceRequestsView};
use crate::select;
use crate::string_map::{StringMap, StringSet};
use vstd::prelude::*;

verus! {

/// A pod that takes up room on a node.
#[derive(Debug)]
pub struct TalliedPod {
    pub node_name: String,
    pub namespace: String,
    pub labels: StringMap<String>,
    pub priority: i32,
    /// The claims it refers to, as its own namespace names them.
    pub bare_pvc_names: Vec<String>,
    pub requests: ResourceRequests,
    pub host_ports: Vec<HostPortClaim>,
    /// The claims it refers to, as `namespace/name`.
    pub pvc_names: Vec<String>,
}

/// Model of [`TalliedPod`].
#[verifier::ext_equal]
pub struct TalliedPodView {
    pub node_name: Seq<char>,
    pub namespace: Seq<char>,
    pub labels: Map<Seq<char>, Seq<char>>,
    pub priority: i32,
    pub bare_pvc_names: Seq<Seq<char>>,
    pub requests: ResourceRequestsView,
    pub host_ports: Seq<HostPortClaimView>,
    pub pvc_names: Seq<Seq<char>>,
}

impl View for TalliedPod {
    type V = TalliedPodView;

    open spec fn view(&self) -> TalliedPodView {
        TalliedPodView {
            node_name: self.node_name@,
            namespace: self.namespace@,
            labels: self.labels@,
            priority: self.priority,
            bare_pvc_names: self.bare_pvc_names.deep_view(),
            requests: self.requests@,
            host_ports: self.host_ports.deep_view(),
            pvc_names: self.pvc_names.deep_view(),
        }
    }
}

impl DeepView for TalliedPod {
    type V = TalliedPodView;

    open spec fn deep_view(&self) -> TalliedPodView {
        self@
    }
}

impl TalliedPodView {
    /// The claims that count across namespaces are those of the pod's own.
    pub open spec fn is_qualified(self) -> bool {
        self.pvc_names == select::qualified_claims(self.namespace, self.bare_pvc_names)
    }
}

/// Pods are finitely many, and keep their claims as those of their own
/// namespace.
pub open spec fn all_qualified(pods: Map<Seq<char>, TalliedPodView>) -> bool {
    &&& pods.dom().finite()
    &&& forall|k: Seq<char>| #[trigger] pods.contains_key(k) ==> pods[k].is_qualified()
}

/// The pods of the node `node`.
pub open spec fn on_node(
    pods: Map<Seq<char>, TalliedPodView>,
    node: Seq<char>,
) -> Set<Seq<char>> {
    Set::new(|k: Seq<char>| pods.contains_key(k) && pods[k].node_name == node)
}

/// Pods by `namespace/name`, with an index by node that is kept in step.
#[derive(Debug)]
pub struct PodIndex {
    pods: StringMap<TalliedPod>,
    by_node: StringMap<StringSet>,
}

impl View for PodIndex {
    type V = Map<Seq<char>, TalliedPodView>;

    closed spec fn view(&self) -> Map<Seq<char>, TalliedPodView> {
        self.pods@
    }
}

/// `by_node` lists exactly the pods of each node.
spec fn in_step(
    pods: Map<Seq<char>, TalliedPodView>,
    by_node: Map<Seq<char>, Set<Seq<char>>>,
) -> bool {
    forall|n: Seq<char>, k: Seq<char>|
        #![trigger by_node[n].contains(k)]
        #![trigger by_node.contains_key(n), pods.contains_key(k)]
        (by_node.contains_key(n) && by_node[n].contains(k)) <==> (pods.contains_key(k)
            && pods[k].node_name == n)
}

/// `by_node` lists no node without pods.
spec fn pruned(by_node: Map<Seq<char>, Set<Seq<char>>>) -> bool {
    forall|n: Seq<char>| #[trigger]
        by_node.contains_key(n) ==> by_node[n] != Set::<Seq<char>>::empty()
}

impl PodIndex {
    /// The index by node is in step and lists no node without pods.
    pub closed spec fn is_indexed(&self) -> bool {
        in_step(self.pods@, self.by_node@) && pruned(self.by_node@)
    }

    #[verifier::type_invariant]
    pub open spec fn is_sound(&self) -> bool {
        self.is_indexed() && all_qualified(self@)
    }

    /// No pods.
    pub fn new() -> (index: Self)
        ensures
            index@ == Map::<Seq<char>, TalliedPodView>::empty(),
    {
        PodIndex { pods: StringMap::new(), by_node: StringMap::new() }
    }

    /// Set what is known of the pod `key`; an earlier entry is replaced.
    pub fn insert(&mut self, key: String, pod: TalliedPod)
        requires
            pod@.is_qualified(),
        ensures
            final(self)@ == old(self)@.insert(key@, pod@),
    {
        proof {
            use_type_invariant(&*self);
        }
        let mut whole = PodIndex::new();
        std::mem::swap(self, &mut whole);
        let PodIndex { mut pods, mut by_node } = whole;
        let ghost pods0 = pods@;
        let ghost nodes0 = by_node@;
        assert(in_step(pods0, nodes0) && pruned(nodes0));
        let node_name = pod.node_name.clone();
        let ghost k0 = key@;
        let ghost added = pod@;
        let prior = pods.insert(key.clone(), pod);
        if let Some(old_pod) = prior {
            if let Some(mut keys) = by_node.remove(old_pod.node_name.as_str()) {
                keys.remove(key.as_str());
                if !keys.is_empty() {
                    by_node.insert(old_pod.node_name, keys);
                }
            }
        }
        let ghost nodes1 = by_node@;
        proof {
            assert forall|n: Seq<char>, k: Seq<char>|
                #![trigger nodes1[n].contains(k)]
                (nodes1.contains_key(n) && nodes1[n].contains(k)) <==> (k != k0
                    && pods0.contains_key(k) && pods0[k].node_name == n) by {
                assert((nodes0.contains_key(n) && nodes0[n].contains(k)) <==> (
                pods0.contains_key(k) && pods0[k].node_name == n));
                if pods0.contains_key(k0) {
                    let old_node = pods0[k0].node_name;
                    assert(nodes0.contains_key(old_node) && nodes0[old_node].contains(k0));
                    if n == old_node && !nodes1.contains_key(n) {
                        assert(!nodes0[n].remove(k0).contains(k));
                    }
                }
            }
            assert(pruned(nodes1));
        }
        let mut keys = match by_node.remove(node_name.as_str()) {
            Some(keys) => keys,
            None => StringSet::new(),
        };
        keys.insert(key);
        by_node.insert(node_name, keys);
        proof {
            let nodes2 = by_node@;
            let pods2 = pods@;
            assert forall|n: Seq<char>, k: Seq<char>|
                #![trigger nodes2[n].contains(k)]
                #![trigger nodes2.contains_key(n), pods2.contains_key(k)]
                (nodes2.contains_key(n) && nodes2[n].contains(k)) <==> (pods2.contains_key(k)
                    && pods2[k].node_name == n) by {
                assert((nodes1.contains_key(n) && nodes1[n].contains(k)) <==> (k != k0
                    && pods0.contains_key(k) && pods0[k].node_name == n));
            }
            assert(in_step(pods2, nodes2));
            assert(nodes2[added.node_name].contains(k0));
            assert(pruned(nodes2));
        }
        *self = PodIndex { pods, by_node };
    }

    /// Forget the pod `key`; gives back what was known of it. A node without
    /// pods leaves no trace in the index.
    pub fn remove(&mut self, key: &str) -> (removed: Option<TalliedPod>)
        ensures
            final(self)@ == old(self)@.remove(key@),
            removed is Some == old(self)@.contains_key(key@),
            removed matches Some(p) ==> p@ == old(self)@[key@],
    {
        proof {
            use_type_invariant(&*self);
        }
        let mut whole = PodIndex::new();
        std::mem::swap(self, &mut whole);
        let PodIndex { mut pods, mut by_node } = whole;
        let ghost pods0 = pods@;
        let ghost nodes0 = by_node@;
        assert(in_step(pods0, nodes0) && pruned(nodes0));
        let removed = pods.remove(key);
        if let Some(pod) = &removed {
            if let Some(mut keys) = by_node.remove(pod.node_name.as_str()) {
                keys.remove(key);
                if !keys.is_empty() {
                    by_node.insert(pod.node_name.clone(), keys);
                }
            }
        }
        proof {
            let nodes1 = by_node@;
            let pods1 = pods@;
            assert forall|n: Seq<char>, k: Seq<char>|
                #![trigger nodes1[n].contains(k)]
                #![trigger nodes1.contains_key(n), pods1.contains_key(k)]
                (nodes1.contains_key(n) && nodes1[n].contains(k)) <==> (pods1.contains_key(k)
                    && pods1[k].node_name == n) by {
                assert((nodes0.contains_key(n) && nodes0[n].contains(k)) <==> (
                pods0.contains_key(k) && pods0[k].node_name == n));
                if pods0.contains_key(key@) {
                    let old_node = pods0[key@].node_name;
                    assert(nodes0.contains_key(old_node) && nodes0[old_node].contains(key@));
                    if n == old_node && !nodes1.contains_key(n) {
                        assert(!nodes0[n].remove(key@).contains(k));
                    }
                }
            }
            assert(in_step(pods1, nodes1));
            assert(pruned(nodes1));
        }
        *self = PodIndex { pods, by_node };
        removed
    }

    /// What is known of the pod `key`.
    pub fn get(&self, key: &str) -> (pod: Option<&TalliedPod>)
        ensures
            pod is Some == self@.contains_key(key@),
            pod matches Some(p) ==> p@ == self@[key@],
    {
        self.pods.get(key)
    }

    /// The number of pods.
    pub fn len(&self) -> (n: usize)
        ensures
            n == order::sorted_keys(self@.dom()).len(),
            self@.dom().finite(),
            order::is_sorted(order::sorted_keys(self@.dom())),
            order::sorted_keys(self@.dom()).to_set() == self@.dom(),
    {
        self.pods.len()
    }

    /// The key of pod `i` in the order of the keys.
    pub fn key_at(&self, i: usize) -> (k: &String)
        requires
            i < order::sorted_keys(self@.dom()).len(),
        ensures
            k@ == order::sorted_keys(self@.dom())[i as int],
            self@.contains_key(k@),
    {
        let n: usize = self.pods.len();
        self.pods.key_at(i)
    }

    /// Pod `i` in the order of the keys.
    pub fn pod_at(&self, i: usize) -> (p: &TalliedPod)
        requires
            i < order::sorted_keys(self@.dom()).len(),
        ensures
            p@ == self@[order::sorted_keys(self@.dom())[i as int]],
            self@.contains_key(order::sorted_keys(self@.dom())[i as int]),
    {
        let n: usize = self.pods.len();
        self.pods.value_at(i)
    }

    /// The keys of the pods of `node`, where there are any.
    pub fn keys_on(&self, node: &str) -> (keys: Option<&StringSet>)
        ensures
            keys is None == (on_node(self@, node@) == Set::<Seq<char>>::empty()),
            keys matches Some(s) ==> s@ == on_node(self@, node@),
    {
        proof {
            use_type_invariant(self);
        }
        let keys = self.by_node.get(node);
        proof {
            let all = on_node(self@, node@);
            match keys {
                Some(s) => {
                    assert forall|k: Seq<char>| s@.contains(k) == all.contains(k) by {
                        assert(self.by_node@[node@].contains(k) == s@.contains(k));
                    }
                    assert(s@ =~= all);
                },
                None => {
                    assert forall|k: Seq<char>| !all.contains(k) by {
                        if all.contains(k) {
                            assert(self.by_node@.contains_key(node@));
                        }
                    }
                    assert(all =~= Set::<Seq<char>>::empty());
                },
            }
        }
        keys
    }

    /// The nodes that have pods, each once.
    pub closed spec fn nodes(&self) -> Seq<Seq<char>> {
        order::sorted_keys(self.by_node@.dom())
    }

    /// The number of nodes that have pods.
    pub fn node_count(&self) -> (n: usize)
        ensures
            n == self.nodes().len(),
            self.nodes().no_duplicates(),
            forall|k: Seq<char>| #[trigger]
                self@.contains_key(k) ==> self.nodes().contains(self@[k].node_name),
            forall|node: Seq<char>| #[trigger]
                self.nodes().contains(node) ==> on_node(self@, node) != Set::<Seq<char>>::empty(),
    {
        proof {
            use_type_invariant(self);
        }
        let n: usize = self.by_node.len();
        proof {
            order::lemma_sorted_keys(self.nodes());
            assert forall|k: Seq<char>| #[trigger] self@.contains_key(k) implies self.nodes().contains(
                self@[k].node_name,
            ) by {
                let node = self@[k].node_name;
                assert(self.by_node@.contains_key(node) && self.by_node@[node].contains(k));
                assert(self.nodes().to_set().contains(node));
            }
            assert forall|node: Seq<char>| #[trigger] self.nodes().contains(node) implies on_node(
                self@,
                node,
            ) != Set::<Seq<char>>::empty() by {
                assert(self.nodes().to_set().contains(node));
                assert(self.by_node@.contains_key(node));
                assert forall|k: Seq<char>| self.by_node@[node].contains(k) implies on_node(
                    self@,
                    node,
                ).contains(k) by {}
                assert(self.by_node@[node] =~= on_node(self@, node));
            }
        }
        n
    }

    /// Node `i` of the index, and the keys of its pods.
    pub fn node_at(&self, i: usize) -> (r: (&String, &StringSet))
        requires
            i < self.nodes().len(),
        ensures
            r.0@ == self.nodes()[i as int],
            r.1@ == on_node(self@, r.0@),
    {
        proof {
            use_type_invariant(self);
        }
        let n: usize = self.by_node.len();
        let node = self.by_node.key_at(i);
        let keys = self.by_node.value_at(i);
        proof {
            let all = on_node(self@, node@);
            assert forall|k: Seq<char>| keys@.contains(k) == all.contains(k) by {
                assert(self.by_node@[node@].contains(k) == keys@.contains(k));
            }
            assert(keys@ =~= all);
        }
        (node, keys)
    }
}

} // verus!
