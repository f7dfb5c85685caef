//! Nodes, and which of them a pod may be placed on at all.

use crate::duplicate::{slice_of, Duplicate};
use crate::error::SchedulerError;
use crate::pod::{PendingPod, PendingPodView};
use crate::ports::{HostPortClaim, HostPortClaimView};
use crate::quantity::{self, parse_pod_capacity};
use crate::resources::{
    NodeAllocatable, NodeAllocatableView, ResourceRequests, ResourceRequestsView,
};
use crate::selector::{
    self, list_contains, node_affinity_matches, node_selector_matches, node_selector_spec_matches,
};
use crate::string_map::{StringMap, StringSet};
use crate::taints::{self, any_tolerates, node_taints_tolerated, Taint, TaintView};
use vstd::prelude::*;

verus! {

/// The name and the labels of a node.
#[derive(Debug)]
pub struct NodeMetadata {
    pub name: String,
    pub labels: StringMap<String>,
}

/// Model of [`NodeMetadata`].
#[verifier::ext_equal]
pub struct NodeMetadataView {
    pub name: Seq<char>,
    pub labels: Map<Seq<char>, Seq<char>>,
}

impl View for NodeMetadata {
    type V = NodeMetadataView;

    open spec fn view(&self) -> NodeMetadataView {
        NodeMetadataView {
            name: self.name@,
            labels: self.labels@,
        }
    }
}

impl DeepView for NodeMetadata {
    type V = NodeMetadataView;

    open spec fn deep_view(&self) -> NodeMetadataView {
        self@
    }
}

impl Duplicate for NodeMetadata {
    fn duplicate(&self) -> (copy: Self) {
        NodeMetadata {
            name: self.name.duplicate(),
            labels: self.labels.duplicate(),
        }
    }
}

impl Clone for NodeMetadata {
    fn clone(&self) -> (copy: Self)
        ensures
            copy@ == self@,
    {
        self.duplicate()
    }
}

/// A node's taints, and whether it is closed to new pods.
#[derive(Debug, Default)]
pub struct NodeSpec {
    pub taints: Vec<Taint>,
    /// Set by cordoning the node. Absent is the same as false.
    pub unschedulable: Option<bool>,
}

/// Model of [`NodeSpec`].
#[verifier::ext_equal]
pub struct NodeSpecView {
    pub taints: Seq<TaintView>,
    pub unschedulable: Option<bool>,
}

impl View for NodeSpec {
    type V = NodeSpecView;

    open spec fn view(&self) -> NodeSpecView {
        NodeSpecView {
            taints: self.taints.deep_view(),
            unschedulable: self.unschedulable.deep_view(),
        }
    }
}

impl DeepView for NodeSpec {
    type V = NodeSpecView;

    open spec fn deep_view(&self) -> NodeSpecView {
        self@
    }
}

impl Duplicate for NodeSpec {
    fn duplicate(&self) -> (copy: Self) {
        NodeSpec {
            taints: self.taints.duplicate(),
            unschedulable: self.unschedulable.duplicate(),
        }
    }
}

impl Clone for NodeSpec {
    fn clone(&self) -> (copy: Self)
        ensures
            copy@ == self@,
    {
        self.duplicate()
    }
}

/// What a node offers.
#[derive(Debug, Default)]
pub struct NodeStatus {
    pub allocatable: NodeAllocatable,
    pub capacity: NodeAllocatable,
}

/// Model of [`NodeStatus`].
#[verifier::ext_equal]
pub struct NodeStatusView {
    pub allocatable: NodeAllocatableView,
    pub capacity: NodeAllocatableView,
}

impl View for NodeStatus {
    type V = NodeStatusView;

    open spec fn view(&self) -> NodeStatusView {
        NodeStatusView {
            allocatable: self.allocatable@,
            capacity: self.capacity@,
        }
    }
}

impl DeepView for NodeStatus {
    type V = NodeStatusView;

    open spec fn deep_view(&self) -> NodeStatusView {
        self@
    }
}

impl Duplicate for NodeStatus {
    fn duplicate(&self) -> (copy: Self) {
        NodeStatus {
            allocatable: self.allocatable.duplicate(),
            capacity: self.capacity.duplicate(),
        }
    }
}

impl Clone for NodeStatus {
    fn clone(&self) -> (copy: Self)
        ensures
            copy@ == self@,
    {
        self.duplicate()
    }
}

/// A node.
#[derive(Debug)]
pub struct NodeItem {
    pub metadata: NodeMetadata,
    pub spec: NodeSpec,
    pub status: NodeStatus,
    /// How many more volumes of each CSI driver can be attached. A driver that is not here has no known limit.
    pub csi_driver_headroom: StringMap<i64>,
    /// The CSI drivers that run on the node.
    pub csi_registered_drivers: StringSet,
}

/// Model of [`NodeItem`].
#[verifier::ext_equal]
pub struct NodeItemView {
    pub metadata: NodeMetadataView,
    pub spec: NodeSpecView,
    pub status: NodeStatusView,
    pub csi_driver_headroom: Map<Seq<char>, i64>,
    pub csi_registered_drivers: Set<Seq<char>>,
}

impl View for NodeItem {
    type V = NodeItemView;

    open spec fn view(&self) -> NodeItemView {
        NodeItemView {
            metadata: self.metadata@,
            spec: self.spec@,
            status: self.status@,
            csi_driver_headroom: self.csi_driver_headroom@,
            csi_registered_drivers: self.csi_registered_drivers@,
        }
    }
}

impl DeepView for NodeItem {
    type V = NodeItemView;

    open spec fn deep_view(&self) -> NodeItemView {
        self@
    }
}

impl Duplicate for NodeItem {
    fn duplicate(&self) -> (copy: Self) {
        NodeItem {
            metadata: self.metadata.duplicate(),
            spec: self.spec.duplicate(),
            status: self.status.duplicate(),
            csi_driver_headroom: self.csi_driver_headroom.duplicate(),
            csi_registered_drivers: self.csi_registered_drivers.duplicate(),
        }
    }
}

impl Clone for NodeItem {
    fn clone(&self) -> (copy: Self)
        ensures
            copy@ == self@,
    {
        self.duplicate()
    }
}

/// A list of nodes.
#[derive(Debug)]
pub struct NodeList {
    pub items: Vec<NodeItem>,
}

/// Model of [`NodeList`].
#[verifier::ext_equal]
pub struct NodeListView {
    pub items: Seq<NodeItemView>,
}

impl View for NodeList {
    type V = NodeListView;

    open spec fn view(&self) -> NodeListView {
        NodeListView {
            items: self.items.deep_view(),
        }
    }
}

impl DeepView for NodeList {
    type V = NodeListView;

    open spec fn deep_view(&self) -> NodeListView {
        self@
    }
}

impl Duplicate for NodeList {
    fn duplicate(&self) -> (copy: Self) {
        NodeList {
            items: self.items.duplicate(),
        }
    }
}

impl Clone for NodeList {
    fn clone(&self) -> (copy: Self)
        ensures
            copy@ == self@,
    {
        self.duplicate()
    }
}

/// What the pods of a node take up. Claims are counted under
/// `namespace/name`: pods of several namespaces may share a node.
#[derive(Debug)]
pub struct NodeUsage {
    pub pod_count: u32,
    pub requests: ResourceRequests,
    pub host_ports: Vec<HostPortClaim>,
    pub pvc_names: Vec<String>,
    /// How many volumes of each CSI driver are attached.
    pub csi_attached_counts: StringMap<i64>,
}

/// Model of [`NodeUsage`].
#[verifier::ext_equal]
pub struct NodeUsageView {
    pub pod_count: u32,
    pub requests: ResourceRequestsView,
    pub host_ports: Seq<HostPortClaimView>,
    pub pvc_names: Seq<Seq<char>>,
    pub csi_attached_counts: Map<Seq<char>, i64>,
}

impl View for NodeUsage {
    type V = NodeUsageView;

    open spec fn view(&self) -> NodeUsageView {
        NodeUsageView {
            pod_count: self.pod_count,
            requests: self.requests@,
            host_ports: self.host_ports.deep_view(),
            pvc_names: self.pvc_names.deep_view(),
            csi_attached_counts: self.csi_attached_counts@,
        }
    }
}

impl DeepView for NodeUsage {
    type V = NodeUsageView;

    open spec fn deep_view(&self) -> NodeUsageView {
        self@
    }
}

impl Duplicate for NodeUsage {
    fn duplicate(&self) -> (copy: Self) {
        NodeUsage {
            pod_count: self.pod_count,
            requests: self.requests.duplicate(),
            host_ports: self.host_ports.duplicate(),
            pvc_names: self.pvc_names.duplicate(),
            csi_attached_counts: self.csi_attached_counts.duplicate(),
        }
    }
}

impl Clone for NodeUsage {
    fn clone(&self) -> (copy: Self)
        ensures
            copy@ == self@,
    {
        self.duplicate()
    }
}

/// A pod of a node, as one that may have to make room.
#[derive(Debug, PartialEq, Eq)]
pub struct NodePod {
    /// `namespace/name`.
    pub key: String,
    pub priority: i32,
    pub requests: ResourceRequests,
    /// The claims it refers to, as `namespace/name`.
    pub pvc_names: Vec<String>,
}

/// Model of [`NodePod`].
#[verifier::ext_equal]
pub struct NodePodView {
    pub key: Seq<char>,
    pub priority: i32,
    pub requests: ResourceRequestsView,
    pub pvc_names: Seq<Seq<char>>,
}

impl View for NodePod {
    type V = NodePodView;

    open spec fn view(&self) -> NodePodView {
        NodePodView {
            key: self.key@,
            priority: self.priority,
            requests: self.requests@,
            pvc_names: self.pvc_names.deep_view(),
        }
    }
}

impl DeepView for NodePod {
    type V = NodePodView;

    open spec fn deep_view(&self) -> NodePodView {
        self@
    }
}

impl Duplicate for NodePod {
    fn duplicate(&self) -> (copy: Self) {
        NodePod {
            key: self.key.duplicate(),
            priority: self.priority,
            requests: self.requests.duplicate(),
            pvc_names: self.pvc_names.duplicate(),
        }
    }
}

impl Clone for NodePod {
    fn clone(&self) -> (copy: Self)
        ensures
            copy@ == self@,
    {
        self.duplicate()
    }
}

/// Where a pod runs and how it is labelled.
#[derive(Debug)]
pub struct TalliedPodLabels {
    /// `namespace/name`.
    pub key: String,
    pub node_name: String,
    pub namespace: String,
    pub labels: StringMap<String>,
}

/// Model of [`TalliedPodLabels`].
#[verifier::ext_equal]
pub struct TalliedPodLabelsView {
    pub key: Seq<char>,
    pub node_name: Seq<char>,
    pub namespace: Seq<char>,
    pub labels: Map<Seq<char>, Seq<char>>,
}

impl View for TalliedPodLabels {
    type V = TalliedPodLabelsView;

    open spec fn view(&self) -> TalliedPodLabelsView {
        TalliedPodLabelsView {
            key: self.key@,
            node_name: self.node_name@,
            namespace: self.namespace@,
            labels: self.labels@,
        }
    }
}

impl DeepView for TalliedPodLabels {
    type V = TalliedPodLabelsView;

    open spec fn deep_view(&self) -> TalliedPodLabelsView {
        self@
    }
}

impl Duplicate for TalliedPodLabels {
    fn duplicate(&self) -> (copy: Self) {
        TalliedPodLabels {
            key: self.key.duplicate(),
            node_name: self.node_name.duplicate(),
            namespace: self.namespace.duplicate(),
            labels: self.labels.duplicate(),
        }
    }
}

impl Clone for TalliedPodLabels {
    fn clone(&self) -> (copy: Self)
        ensures
            copy@ == self@,
    {
        self.duplicate()
    }
}

impl NodeUsageView {
    /// The usage of a node without pods.
    pub open spec fn none() -> Self {
        NodeUsageView {
            pod_count: 0,
            requests: ResourceRequestsView::none(),
            host_ports: Seq::empty(),
            pvc_names: Seq::empty(),
            csi_attached_counts: Map::empty(),
        }
    }
}

impl Default for NodeUsage {
    fn default() -> (u: Self)
        ensures
            u@ == NodeUsageView::none(),
    {
        let u = NodeUsage {
            pod_count: 0,
            requests: ResourceRequests::default(),
            host_ports: Vec::new(),
            pvc_names: Vec::new(),
            csi_attached_counts: StringMap::new(),
        };
        assert(u@ =~= NodeUsageView::none());
        u
    }
}

/// The taint that stands for a cordoned node.
pub open spec fn cordon_taint() -> TaintView {
    TaintView {
        key: "node.kubernetes.io/unschedulable"@,
        value: Seq::empty(),
        effect: "NoSchedule"@,
    }
}

/// The node can be reached by every volume that is bound to the pod's claims.
pub open spec fn volumes_reachable(node: NodeItemView, pod: PendingPodView) -> bool {
    forall|i: int|
        0 <= i < pod.pv_node_affinities.len() ==> selector::selector_admits(
            node.metadata.labels,
            node.metadata.name,
            Some(#[trigger] pod.pv_node_affinities[i]),
        )
}

/// The pod may be placed on the node, whatever else is there: selector,
/// affinity, taints, cordon and bound volumes all allow it.
pub open spec fn qualifies(node: NodeItemView, pod: PendingPodView) -> bool {
    &&& selector::labels_include(node.metadata.labels, pod.node_selector)
    &&& selector::affinity_admits(node.metadata.labels, node.metadata.name, pod.node_affinity)
    &&& taints::all_tolerated(node.spec.taints, pod.tolerations)
    &&& node.spec.unschedulable == Some(true) ==> taints::some_tolerates(
        pod.tolerations,
        cordon_taint(),
    )
    &&& volumes_reachable(node, pod)
}

fn all_volumes_reachable(node: &NodeItem, pod: &PendingPod) -> (b: bool)
    ensures
        b == volumes_reachable(node@, pod@),
{
    let mut i: usize = 0;
    while i < pod.pv_node_affinities.len()
        invariant
            i <= pod.pv_node_affinities@.len(),
            forall|j: int|
                0 <= j < i ==> selector::selector_admits(
                    node@.metadata.labels,
                    node@.metadata.name,
                    Some(#[trigger] pod@.pv_node_affinities[j]),
                ),
        decreases pod.pv_node_affinities@.len() - i,
    {
        if !node_selector_spec_matches(
            &node.metadata.labels,
            node.metadata.name.as_str(),
            Some(&pod.pv_node_affinities[i]),
        ) {
            proof {
                assert(!selector::selector_admits(
                    node@.metadata.labels,
                    node@.metadata.name,
                    Some(pod@.pv_node_affinities[i as int]),
                ));
            }
            return false;
        }
        i += 1;
    }
    true
}

fn tolerates_cordon(pod: &PendingPod) -> (b: bool)
    ensures
        b == taints::some_tolerates(pod@.tolerations, cordon_taint()),
{
    let taint = Taint {
        key: "node.kubernetes.io/unschedulable".to_owned(),
        value: String::new(),
        effect: "NoSchedule".to_owned(),
    };
    assert(taint@ =~= cordon_taint());
    any_tolerates(slice_of(&pod.tolerations), &taint)
}

/// Whether `pod` may be placed on `node` at all, whatever room it has.
pub fn node_qualifies_for_pod(node: &NodeItem, pod: &PendingPod) -> (b: bool)
    ensures
        b == qualifies(node@, pod@),
{
    let cordoned = match node.spec.unschedulable {
        Some(b) => b,
        None => false,
    };
    node_selector_matches(&node.metadata.labels, &pod.node_selector) && node_affinity_matches(
        &node.metadata.labels,
        node.metadata.name.as_str(),
        pod.node_affinity.as_ref(),
    ) && node_taints_tolerated(slice_of(&node.spec.taints), slice_of(&pod.tolerations)) && (
    !cordoned || tolerates_cordon(pod)) && all_volumes_reachable(node, pod)
}

/// How many pods the node takes: its allocatable count, or else its
/// capacity. 0 stands for an unknown number.
pub open spec fn pod_slots(node: NodeItemView) -> nat {
    if node.status.allocatable.pods.len() > 0 {
        quantity::pod_capacity(node.status.allocatable.pods)
    } else {
        quantity::pod_capacity(node.status.capacity.pods)
    }
}

/// How many pods the node takes; 0 where that is unknown.
pub fn pod_count_capacity(node: &NodeItem) -> (n: u32)
    ensures
        n == pod_slots(node@),
{
    if !node.status.allocatable.pods.as_str().is_empty() {
        parse_pod_capacity(node.status.allocatable.pods.as_str())
    } else {
        parse_pod_capacity(node.status.capacity.pods.as_str())
    }
}

/// A slot is free beside `pod_count` pods where `slots` is the node's number
/// of slots or 0 for an unknown number.
pub open spec fn slot_free(slots: nat, pod_count: int) -> bool {
    slots == 0 || pod_count < slots
}

/// `i` is the first node whose labels include `selector`.
pub open spec fn first_match(
    items: Seq<NodeItemView>,
    selector: Map<Seq<char>, Seq<char>>,
    i: int,
) -> bool {
    &&& 0 <= i < items.len()
    &&& selector::labels_include(items[i].metadata.labels, selector)
    &&& forall|j: int|
        0 <= j < i ==> !selector::labels_include(
            (#[trigger] items[j]).metadata.labels,
            selector,
        )
}

/// The first node of `list` whose labels satisfy `selector`. An empty
/// selector takes any node. Without such a node the pod has to wait.
pub fn select_node_for_pod(list: NodeList, selector: &StringMap<String>) -> (r: Result<
    String,
    SchedulerError,
>)
    ensures
        r matches Ok(name) ==> exists|i: int| #[trigger]
            first_match(list@.items, selector@, i) && name@ == list@.items[i].metadata.name,
        r is Err <==> forall|i: int|
            0 <= i < list@.items.len() ==> !selector::labels_include(
                (#[trigger] list@.items[i]).metadata.labels,
                selector@,
            ),
        r matches Err(e) ==> e@ == "no node satisfies the pod's nodeSelector"@,
{
    let mut i: usize = 0;
    while i < list.items.len()
        invariant
            i <= list.items@.len(),
            forall|j: int|
                0 <= j < i ==> !selector::labels_include(
                    (#[trigger] list@.items[j]).metadata.labels,
                    selector@,
                ),
        decreases list.items@.len() - i,
    {
        let node = &list.items[i];
        assert(list@.items[i as int] == node@);
        if node_selector_matches(&node.metadata.labels, selector) {
            proof {
                assert(first_match(list@.items, selector@, i as int));
            }
            return Ok(node.metadata.name.clone());
        }
        i += 1;
    }
    Err(SchedulerError::new("no node satisfies the pod's nodeSelector"))
}

/// The first node of `list`.
pub fn select_first_node(list: NodeList) -> (r: Result<String, SchedulerError>)
    ensures
        r is Ok <==> list@.items.len() > 0,
        r matches Ok(name) ==> name@ == list@.items[0].metadata.name,
        r matches Err(e) ==> e@ == "no nodes available"@,
{
    if list.items.len() > 0 {
        assert(list@.items[0] == list.items@[0]@);
        Ok(list.items[0].metadata.name.clone())
    } else {
        Err(SchedulerError::new("no nodes available"))
    }
}

/// None of the claims that one pod alone may use is in use on the node.
pub open spec fn claims_unused(
    node_pvc_names: Seq<Seq<char>>,
    rwop_pvcs: Seq<Seq<char>>,
) -> bool {
    forall|i: int| 0 <= i < rwop_pvcs.len() ==> !node_pvc_names.contains(#[trigger] rwop_pvcs[i])
}

/// Whether none of `rwop_pvcs`, the claims that one pod alone may use, is
/// among those in use on the node.
pub fn read_write_once_pod_conflict_free(node_pvc_names: &[String], rwop_pvcs: &[String]) -> (b:
    bool)
    ensures
        b == claims_unused(node_pvc_names.deep_view(), rwop_pvcs.deep_view()),
{
    let mut i: usize = 0;
    while i < rwop_pvcs.len()
        invariant
            i <= rwop_pvcs@.len(),
            forall|j: int|
                0 <= j < i ==> !node_pvc_names.deep_view().contains(
                    #[trigger] rwop_pvcs.deep_view()[j],
                ),
        decreases rwop_pvcs@.len() - i,
    {
        if list_contains(node_pvc_names, rwop_pvcs[i].as_str()) {
            proof {
                assert(node_pvc_names.deep_view().contains(rwop_pvcs.deep_view()[i as int]));
            }
            return false;
        }
        i += 1;
    }
    true
}

/// A cordoned node takes only pods that tolerate being cordoned.
pub proof fn law_cordoned_node_refuses(node: NodeItemView, pod: PendingPodView)
    requires
        node.spec.unschedulable == Some(true),
        !taints::some_tolerates(pod.tolerations, cordon_taint()),
    ensures
        !qualifies(node, pod),
{
}

/// Every bound volume has to reach the node: one that does not shuts it out.
pub proof fn law_every_bound_volume_must_reach(node: NodeItemView, pod: PendingPodView, i: int)
    requires
        0 <= i < pod.pv_node_affinities.len(),
        !selector::selector_admits(
            node.metadata.labels,
            node.metadata.name,
            Some(pod.pv_node_affinities[i]),
        ),
    ensures
        !qualifies(node, pod),
{
}

/// A label that the pod's selector names shuts out every node that lacks it or
/// has another value of it.
pub proof fn law_node_selector_is_heeded(node: NodeItemView, pod: PendingPodView, k: Seq<char>)
    requires
        pod.node_selector.contains_key(k),
        !node.metadata.labels.contains_key(k) || node.metadata.labels[k] != pod.node_selector[k],
    ensures
        !qualifies(node, pod),
{
    selector::law_node_selector_asks_for_every_label(
        node.metadata.labels,
        pod.node_selector,
        k,
    );
}

/// A node that the pod's required affinity does not admit is shut out.
pub proof fn law_node_affinity_is_heeded(node: NodeItemView, pod: PendingPodView)
    requires
        !selector::affinity_admits(node.metadata.labels, node.metadata.name, pod.node_affinity),
    ensures
        !qualifies(node, pod),
{
}

/// A taint of the node with the effect `NoSchedule` or `NoExecute` that none of
/// the pod's tolerations tolerates shuts the node out.
pub proof fn law_taints_are_heeded(node: NodeItemView, pod: PendingPodView, i: int)
    requires
        0 <= i < node.spec.taints.len(),
        node.spec.taints[i].effect == "NoSchedule"@ || node.spec.taints[i].effect
            == "NoExecute"@,
        forall|j: int|
            0 <= j < pod.tolerations.len() ==> !taints::tolerates(
                #[trigger] pod.tolerations[j],
                node.spec.taints[i],
            ),
    ensures
        !qualifies(node, pod),
{
    taints::law_untolerated_taint_shuts_out(node.spec.taints, pod.tolerations, i);
}

/// A cordoned node is shut out unless the pod tolerates the taint
/// `node.kubernetes.io/unschedulable` with the effect `NoSchedule`.
pub proof fn law_cordon_asks_for_its_own_toleration(node: NodeItemView, pod: PendingPodView)
    requires
        node.spec.unschedulable == Some(true),
        forall|j: int|
            0 <= j < pod.tolerations.len() ==> !taints::tolerates(
                #[trigger] pod.tolerations[j],
                TaintView {
                    key: "node.kubernetes.io/unschedulable"@,
                    value: Seq::empty(),
                    effect: "NoSchedule"@,
                },
            ),
    ensures
        !qualifies(node, pod),
{
}

/// A node that meets the pod's selector and affinity, is not cordoned, has no
/// taints and can be reached by its volumes is open, whatever else it is like.
pub proof fn law_nothing_else_shuts_a_node_out(node: NodeItemView, pod: PendingPodView)
    requires
        selector::labels_include(node.metadata.labels, pod.node_selector),
        selector::affinity_admits(node.metadata.labels, node.metadata.name, pod.node_affinity),
        forall|i: int|
            0 <= i < node.spec.taints.len() ==> ((#[trigger] node.spec.taints[i]).effect
                != "NoSchedule"@ && node.spec.taints[i].effect != "NoExecute"@)
                || taints::some_tolerates(pod.tolerations, node.spec.taints[i]),
        node.spec.unschedulable == Some(true) ==> exists|j: int|
            0 <= j < pod.tolerations.len() && taints::tolerates(
                #[trigger] pod.tolerations[j],
                TaintView {
                    key: "node.kubernetes.io/unschedulable"@,
                    value: Seq::empty(),
                    effect: "NoSchedule"@,
                },
            ),
        forall|i: int|
            0 <= i < pod.pv_node_affinities.len() ==> selector::selector_admits(
                node.metadata.labels,
                node.metadata.name,
                Some(#[trigger] pod.pv_node_affinities[i]),
            ),
    ensures
        qualifies(node, pod),
{
    taints::law_tolerated_and_soft_taints_let_in(node.spec.taints, pod.tolerations);
}

/// How many pods a node takes is read from what it can allocate, and from its
/// capacity only where the former is not given; 0 stands for no known limit,
/// and a node with a limit is full once it has that many pods.
pub proof fn law_slots_of_a_node(node: NodeItemView, count: int)
    ensures
        node.status.allocatable.pods.len() > 0 ==> pod_slots(node) == quantity::pod_capacity(
            node.status.allocatable.pods,
        ),
        node.status.allocatable.pods.len() == 0 ==> pod_slots(node) == quantity::pod_capacity(
            node.status.capacity.pods,
        ),
        slot_free(0, count),
        pod_slots(node) > 0 && count >= pod_slots(node) ==> !slot_free(pod_slots(node), count),
        pod_slots(node) > 0 && count < pod_slots(node) ==> slot_free(pod_slots(node), count),
{
}

/// A claim that the pod needs for itself is taken as soon as it is among those
/// in use; where none is, they are all free.
pub proof fn law_used_claim_is_taken(
    node_pvc_names: Seq<Seq<char>>,
    rwop_pvcs: Seq<Seq<char>>,
    claim: Seq<char>,
)
    ensures
        node_pvc_names.contains(claim) && rwop_pvcs.contains(claim) ==> !claims_unused(
            node_pvc_names,
            rwop_pvcs,
        ),
        claims_unused(node_pvc_names, Seq::empty()),
        claims_unused(Seq::empty(), rwop_pvcs),
        claims_unused(node_pvc_names, rwop_pvcs) && !node_pvc_names.contains(claim)
            ==> claims_unused(node_pvc_names, rwop_pvcs.push(claim)),
{
    if rwop_pvcs.contains(claim) {
        let i = choose|i: int| 0 <= i < rwop_pvcs.len() && rwop_pvcs[i] == claim;
        assert(rwop_pvcs[i] == claim);
    }
    if claims_unused(node_pvc_names, rwop_pvcs) && !node_pvc_names.contains(claim) {
        let more = rwop_pvcs.push(claim);
        assert forall|i: int| 0 <= i < more.len() implies !node_pvc_names.contains(
            #[trigger] more[i],
        ) by {
            if i < rwop_pvcs.len() {
                assert(more[i] == rwop_pvcs[i]);
            }
        }
    }
}

/// The first node that has all the labels is found wherever one has them, and
/// none before it has.
pub proof fn law_first_match(
    items: Seq<NodeItemView>,
    selector: Map<Seq<char>, Seq<char>>,
    i: int,
    k: Seq<char>,
)
    requires
        first_match(items, selector, i),
        selector.contains_key(k),
    ensures
        items[i].metadata.labels.contains_key(k),
        items[i].metadata.labels[k] == selector[k],
        forall|j: int|
            0 <= j < i ==> exists|l: Seq<char>| #[trigger]
                selector.contains_key(l) && !((#[trigger] items[j]).metadata.labels.contains_key(l)
                    && items[j].metadata.labels[l] == selector[l]),
{
    assert forall|j: int| 0 <= j < i implies exists|l: Seq<char>| #[trigger]
        selector.contains_key(l) && !((#[trigger] items[j]).metadata.labels.contains_key(l)
            && items[j].metadata.labels[l] == selector[l]) by {
        assert(!selector::labels_include(items[j].metadata.labels, selector));
    }
}

} // verus!
