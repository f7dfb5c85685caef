//! Pods: what a watch event says of them, and which of them wait for a node.

use crate::container::{
    self, container_host_ports, total_with_overhead, ContainerSpec, ContainerSpecView,
};
use crate::duplicate::Duplicate;
use crate::order::same_text;
use crate::ports::{HostPortClaim, HostPortClaimView};
use crate::resources::{ResourceRequests, ResourceRequestsView};
use crate::selector::{
    LabelSelectorSpec, LabelSelectorSpecView, NodeAffinity, NodeAffinityView, NodeSelectorSpec,
    NodeSelectorSpecView,
};
use crate::string_map::{StringMap, StringSet};
use crate::taints::{Toleration, TolerationView};
use vstd::prelude::*;
use vstd::string::*;

verus! {

/// One required term of a pod's affinity or anti-affinity to other pods.
#[derive(Debug, Default)]
pub struct PodAffinityTerm {
    pub label_selector: Option<LabelSelectorSpec>,
    /// The namespaces that the term looks at; none stands for the namespace of the pod itself.
    pub namespaces: Vec<String>,
    /// The node label whose value makes up a topology domain.
    pub topology_key: String,
}

/// Model of [`PodAffinityTerm`].
#[verifier::ext_equal]
pub struct PodAffinityTermView {
    pub label_selector: Option<LabelSelectorSpecView>,
    pub namespaces: Seq<Seq<char>>,
    pub topology_key: Seq<char>,
}

impl View for PodAffinityTerm {
    type V = PodAffinityTermView;

    open spec fn view(&self) -> PodAffinityTermView {
        PodAffinityTermView {
            label_selector: self.label_selector.deep_view(),
            namespaces: self.namespaces.deep_view(),
            topology_key: self.topology_key@,
        }
    }
}

impl DeepView for PodAffinityTerm {
    type V = PodAffinityTermView;

    open spec fn deep_view(&self) -> PodAffinityTermView {
        self@
    }
}

impl Duplicate for PodAffinityTerm {
    fn duplicate(&self) -> (copy: Self) {
        PodAffinityTerm {
            label_selector: self.label_selector.duplicate(),
            namespaces: self.namespaces.duplicate(),
            topology_key: self.topology_key.duplicate(),
        }
    }
}

impl Clone for PodAffinityTerm {
    fn clone(&self) -> (copy: Self)
        ensures
            copy@ == self@,
    {
        self.duplicate()
    }
}

/// A pod's `podAffinity`. Preferred terms only weigh in scoring and are not kept.
#[derive(Debug, Default)]
pub struct PodAffinity {
    pub required_during_scheduling_ignored_during_execution: Vec<PodAffinityTerm>,
}

/// Model of [`PodAffinity`].
#[verifier::ext_equal]
pub struct PodAffinityView {
    pub required_during_scheduling_ignored_during_execution: Seq<PodAffinityTermView>,
}

impl View for PodAffinity {
    type V = PodAffinityView;

    open spec fn view(&self) -> PodAffinityView {
        PodAffinityView {
            required_during_scheduling_ignored_during_execution: self.required_during_scheduling_ignored_during_execution.deep_view(),
        }
    }
}

impl DeepView for PodAffinity {
    type V = PodAffinityView;

    open spec fn deep_view(&self) -> PodAffinityView {
        self@
    }
}

impl Duplicate for PodAffinity {
    fn duplicate(&self) -> (copy: Self) {
        PodAffinity {
            required_during_scheduling_ignored_during_execution: self.required_during_scheduling_ignored_during_execution.duplicate(),
        }
    }
}

impl Clone for PodAffinity {
    fn clone(&self) -> (copy: Self)
        ensures
            copy@ == self@,
    {
        self.duplicate()
    }
}

/// A pod's `podAntiAffinity`. Preferred terms only weigh in scoring and are not kept.
#[derive(Debug, Default)]
pub struct PodAntiAffinity {
    pub required_during_scheduling_ignored_during_execution: Vec<PodAffinityTerm>,
}

/// Model of [`PodAntiAffinity`].
#[verifier::ext_equal]
pub struct PodAntiAffinityView {
    pub required_during_scheduling_ignored_during_execution: Seq<PodAffinityTermView>,
}

impl View for PodAntiAffinity {
    type V = PodAntiAffinityView;

    open spec fn view(&self) -> PodAntiAffinityView {
        PodAntiAffinityView {
            required_during_scheduling_ignored_during_execution: self.required_during_scheduling_ignored_during_execution.deep_view(),
        }
    }
}

impl DeepView for PodAntiAffinity {
    type V = PodAntiAffinityView;

    open spec fn deep_view(&self) -> PodAntiAffinityView {
        self@
    }
}

impl Duplicate for PodAntiAffinity {
    fn duplicate(&self) -> (copy: Self) {
        PodAntiAffinity {
            required_during_scheduling_ignored_during_execution: self.required_during_scheduling_ignored_during_execution.duplicate(),
        }
    }
}

impl Clone for PodAntiAffinity {
    fn clone(&self) -> (copy: Self)
        ensures
            copy@ == self@,
    {
        self.duplicate()
    }
}

/// A pod's `affinity`.
#[derive(Debug, Default)]
pub struct Affinity {
    pub node_affinity: Option<NodeAffinity>,
    pub pod_affinity: Option<PodAffinity>,
    pub pod_anti_affinity: Option<PodAntiAffinity>,
}

/// Model of [`Affinity`].
#[verifier::ext_equal]
pub struct AffinityView {
    pub node_affinity: Option<NodeAffinityView>,
    pub pod_affinity: Option<PodAffinityView>,
    pub pod_anti_affinity: Option<PodAntiAffinityView>,
}

impl View for Affinity {
    type V = AffinityView;

    open spec fn view(&self) -> AffinityView {
        AffinityView {
            node_affinity: self.node_affinity.deep_view(),
            pod_affinity: self.pod_affinity.deep_view(),
            pod_anti_affinity: self.pod_anti_affinity.deep_view(),
        }
    }
}

impl DeepView for Affinity {
    type V = AffinityView;

    open spec fn deep_view(&self) -> AffinityView {
        self@
    }
}

impl Duplicate for Affinity {
    fn duplicate(&self) -> (copy: Self) {
        Affinity {
            node_affinity: self.node_affinity.duplicate(),
            pod_affinity: self.pod_affinity.duplicate(),
            pod_anti_affinity: self.pod_anti_affinity.duplicate(),
        }
    }
}

impl Clone for Affinity {
    fn clone(&self) -> (copy: Self)
        ensures
            copy@ == self@,
    {
        self.duplicate()
    }
}

/// How far the numbers of matching pods may differ between topology domains.
#[derive(Debug, Default)]
pub struct TopologySpreadConstraint {
    pub max_skew: i32,
    pub topology_key: String,
    /// Only `DoNotSchedule` keeps pods off a node.
    pub when_unsatisfiable: String,
    pub label_selector: Option<LabelSelectorSpec>,
}

/// Model of [`TopologySpreadConstraint`].
#[verifier::ext_equal]
pub struct TopologySpreadConstraintView {
    pub max_skew: i32,
    pub topology_key: Seq<char>,
    pub when_unsatisfiable: Seq<char>,
    pub label_selector: Option<LabelSelectorSpecView>,
}

impl View for TopologySpreadConstraint {
    type V = TopologySpreadConstraintView;

    open spec fn view(&self) -> TopologySpreadConstraintView {
        TopologySpreadConstraintView {
            max_skew: self.max_skew,
            topology_key: self.topology_key@,
            when_unsatisfiable: self.when_unsatisfiable@,
            label_selector: self.label_selector.deep_view(),
        }
    }
}

impl DeepView for TopologySpreadConstraint {
    type V = TopologySpreadConstraintView;

    open spec fn deep_view(&self) -> TopologySpreadConstraintView {
        self@
    }
}

impl Duplicate for TopologySpreadConstraint {
    fn duplicate(&self) -> (copy: Self) {
        TopologySpreadConstraint {
            max_skew: self.max_skew,
            topology_key: self.topology_key.duplicate(),
            when_unsatisfiable: self.when_unsatisfiable.duplicate(),
            label_selector: self.label_selector.duplicate(),
        }
    }
}

impl Clone for TopologySpreadConstraint {
    fn clone(&self) -> (copy: Self)
        ensures
            copy@ == self@,
    {
        self.duplicate()
    }
}

/// A volume that a claim provides.
#[derive(Debug, Default)]
pub struct PersistentVolumeClaimVolumeSource {
    pub claim_name: String,
}

/// Model of [`PersistentVolumeClaimVolumeSource`].
#[verifier::ext_equal]
pub struct PersistentVolumeClaimVolumeSourceView {
    pub claim_name: Seq<char>,
}

impl View for PersistentVolumeClaimVolumeSource {
    type V = PersistentVolumeClaimVolumeSourceView;

    open spec fn view(&self) -> PersistentVolumeClaimVolumeSourceView {
        PersistentVolumeClaimVolumeSourceView {
            claim_name: self.claim_name@,
        }
    }
}

impl DeepView for PersistentVolumeClaimVolumeSource {
    type V = PersistentVolumeClaimVolumeSourceView;

    open spec fn deep_view(&self) -> PersistentVolumeClaimVolumeSourceView {
        self@
    }
}

impl Duplicate for PersistentVolumeClaimVolumeSource {
    fn duplicate(&self) -> (copy: Self) {
        PersistentVolumeClaimVolumeSource {
            claim_name: self.claim_name.duplicate(),
        }
    }
}

impl Clone for PersistentVolumeClaimVolumeSource {
    fn clone(&self) -> (copy: Self)
        ensures
            copy@ == self@,
    {
        self.duplicate()
    }
}

/// One volume of a pod.
#[derive(Debug, Default)]
pub struct PodVolume {
    pub name: String,
    pub persistent_volume_claim: Option<PersistentVolumeClaimVolumeSource>,
    /// The claim of the volume is made for the pod and carries a derived name.
    pub ephemeral: bool,
}

/// Model of [`PodVolume`].
#[verifier::ext_equal]
pub struct PodVolumeView {
    pub name: Seq<char>,
    pub persistent_volume_claim: Option<PersistentVolumeClaimVolumeSourceView>,
    pub ephemeral: bool,
}

impl View for PodVolume {
    type V = PodVolumeView;

    open spec fn view(&self) -> PodVolumeView {
        PodVolumeView {
            name: self.name@,
            persistent_volume_claim: self.persistent_volume_claim.deep_view(),
            ephemeral: self.ephemeral,
        }
    }
}

impl DeepView for PodVolume {
    type V = PodVolumeView;

    open spec fn deep_view(&self) -> PodVolumeView {
        self@
    }
}

impl Duplicate for PodVolume {
    fn duplicate(&self) -> (copy: Self) {
        PodVolume {
            name: self.name.duplicate(),
            persistent_volume_claim: self.persistent_volume_claim.duplicate(),
            ephemeral: self.ephemeral,
        }
    }
}

impl Clone for PodVolume {
    fn clone(&self) -> (copy: Self)
        ensures
            copy@ == self@,
    {
        self.duplicate()
    }
}

/// The parts of a pod's `spec` that placement depends on.
#[derive(Debug, Default)]
pub struct PodSpec {
    pub node_name: Option<String>,
    pub node_selector: Option<StringMap<String>>,
    pub priority: Option<i32>,
    /// The names of the gates. As long as there is one, the pod is not ready to be placed.
    pub scheduling_gates: Option<Vec<String>>,
    pub tolerations: Option<Vec<Toleration>>,
    pub affinity: Option<Affinity>,
    pub containers: Vec<ContainerSpec>,
    pub volumes: Option<Vec<PodVolume>>,
    pub topology_spread_constraints: Vec<TopologySpreadConstraint>,
    /// What running the pod costs on top of its containers.
    pub overhead: StringMap<String>,
}

/// Model of [`PodSpec`].
#[verifier::ext_equal]
pub struct PodSpecView {
    pub node_name: Option<Seq<char>>,
    pub node_selector: Option<Map<Seq<char>, Seq<char>>>,
    pub priority: Option<i32>,
    pub scheduling_gates: Option<Seq<Seq<char>>>,
    pub tolerations: Option<Seq<TolerationView>>,
    pub affinity: Option<AffinityView>,
    pub containers: Seq<ContainerSpecView>,
    pub volumes: Option<Seq<PodVolumeView>>,
    pub topology_spread_constraints: Seq<TopologySpreadConstraintView>,
    pub overhead: Map<Seq<char>, Seq<char>>,
}

impl View for PodSpec {
    type V = PodSpecView;

    open spec fn view(&self) -> PodSpecView {
        PodSpecView {
            node_name: self.node_name.deep_view(),
            node_selector: self.node_selector.deep_view(),
            priority: self.priority.deep_view(),
            scheduling_gates: self.scheduling_gates.deep_view(),
            tolerations: self.tolerations.deep_view(),
            affinity: self.affinity.deep_view(),
            containers: self.containers.deep_view(),
            volumes: self.volumes.deep_view(),
            topology_spread_constraints: self.topology_spread_constraints.deep_view(),
            overhead: self.overhead@,
        }
    }
}

impl DeepView for PodSpec {
    type V = PodSpecView;

    open spec fn deep_view(&self) -> PodSpecView {
        self@
    }
}

impl Duplicate for PodSpec {
    fn duplicate(&self) -> (copy: Self) {
        PodSpec {
            node_name: self.node_name.duplicate(),
            node_selector: self.node_selector.duplicate(),
            priority: self.priority.duplicate(),
            scheduling_gates: self.scheduling_gates.duplicate(),
            tolerations: self.tolerations.duplicate(),
            affinity: self.affinity.duplicate(),
            containers: self.containers.duplicate(),
            volumes: self.volumes.duplicate(),
            topology_spread_constraints: self.topology_spread_constraints.duplicate(),
            overhead: self.overhead.duplicate(),
        }
    }
}

impl Clone for PodSpec {
    fn clone(&self) -> (copy: Self)
        ensures
            copy@ == self@,
    {
        self.duplicate()
    }
}

/// The parts of a pod's `metadata` that placement depends on.
#[derive(Debug, Default)]
pub struct PodMetadata {
    pub name: Option<String>,
    pub namespace: Option<String>,
    pub labels: StringMap<String>,
}

/// Model of [`PodMetadata`].
#[verifier::ext_equal]
pub struct PodMetadataView {
    pub name: Option<Seq<char>>,
    pub namespace: Option<Seq<char>>,
    pub labels: Map<Seq<char>, Seq<char>>,
}

impl View for PodMetadata {
    type V = PodMetadataView;

    open spec fn view(&self) -> PodMetadataView {
        PodMetadataView {
            name: self.name.deep_view(),
            namespace: self.namespace.deep_view(),
            labels: self.labels@,
        }
    }
}

impl DeepView for PodMetadata {
    type V = PodMetadataView;

    open spec fn deep_view(&self) -> PodMetadataView {
        self@
    }
}

impl Duplicate for PodMetadata {
    fn duplicate(&self) -> (copy: Self) {
        PodMetadata {
            name: self.name.duplicate(),
            namespace: self.namespace.duplicate(),
            labels: self.labels.duplicate(),
        }
    }
}

impl Clone for PodMetadata {
    fn clone(&self) -> (copy: Self)
        ensures
            copy@ == self@,
    {
        self.duplicate()
    }
}

/// One condition of a pod's status.
#[derive(Debug, Default)]
pub struct PodCondition {
    pub condition_type: Option<String>,
    pub status: Option<String>,
    pub reason: Option<String>,
    pub message: Option<String>,
}

/// Model of [`PodCondition`].
#[verifier::ext_equal]
pub struct PodConditionView {
    pub condition_type: Option<Seq<char>>,
    pub status: Option<Seq<char>>,
    pub reason: Option<Seq<char>>,
    pub message: Option<Seq<char>>,
}

impl View for PodCondition {
    type V = PodConditionView;

    open spec fn view(&self) -> PodConditionView {
        PodConditionView {
            condition_type: self.condition_type.deep_view(),
            status: self.status.deep_view(),
            reason: self.reason.deep_view(),
            message: self.message.deep_view(),
        }
    }
}

impl DeepView for PodCondition {
    type V = PodConditionView;

    open spec fn deep_view(&self) -> PodConditionView {
        self@
    }
}

impl Duplicate for PodCondition {
    fn duplicate(&self) -> (copy: Self) {
        PodCondition {
            condition_type: self.condition_type.duplicate(),
            status: self.status.duplicate(),
            reason: self.reason.duplicate(),
            message: self.message.duplicate(),
        }
    }
}

impl Clone for PodCondition {
    fn clone(&self) -> (copy: Self)
        ensures
            copy@ == self@,
    {
        self.duplicate()
    }
}

/// The conditions of a pod.
#[derive(Debug, Default)]
pub struct PodStatus {
    pub conditions: Vec<PodCondition>,
}

/// Model of [`PodStatus`].
#[verifier::ext_equal]
pub struct PodStatusView {
    pub conditions: Seq<PodConditionView>,
}

impl View for PodStatus {
    type V = PodStatusView;

    open spec fn view(&self) -> PodStatusView {
        PodStatusView {
            conditions: self.conditions.deep_view(),
        }
    }
}

impl DeepView for PodStatus {
    type V = PodStatusView;

    open spec fn deep_view(&self) -> PodStatusView {
        self@
    }
}

impl Duplicate for PodStatus {
    fn duplicate(&self) -> (copy: Self) {
        PodStatus {
            conditions: self.conditions.duplicate(),
        }
    }
}

impl Clone for PodStatus {
    fn clone(&self) -> (copy: Self)
        ensures
            copy@ == self@,
    {
        self.duplicate()
    }
}

/// A pod as a watch event or a list shows it.
#[derive(Debug, Default)]
pub struct PodObject {
    pub metadata: PodMetadata,
    pub spec: PodSpec,
    pub status: PodStatus,
}

/// Model of [`PodObject`].
#[verifier::ext_equal]
pub struct PodObjectView {
    pub metadata: PodMetadataView,
    pub spec: PodSpecView,
    pub status: PodStatusView,
}

impl View for PodObject {
    type V = PodObjectView;

    open spec fn view(&self) -> PodObjectView {
        PodObjectView {
            metadata: self.metadata@,
            spec: self.spec@,
            status: self.status@,
        }
    }
}

impl DeepView for PodObject {
    type V = PodObjectView;

    open spec fn deep_view(&self) -> PodObjectView {
        self@
    }
}

impl Duplicate for PodObject {
    fn duplicate(&self) -> (copy: Self) {
        PodObject {
            metadata: self.metadata.duplicate(),
            spec: self.spec.duplicate(),
            status: self.status.duplicate(),
        }
    }
}

impl Clone for PodObject {
    fn clone(&self) -> (copy: Self)
        ensures
            copy@ == self@,
    {
        self.duplicate()
    }
}

/// A pod that waits for a node, with everything its placement depends on.
#[derive(Debug)]
pub struct PendingPod {
    pub namespace: String,
    pub pod_name: String,
    pub node_selector: StringMap<String>,
    /// 0 where the pod has none.
    pub priority: i32,
    pub tolerations: Vec<Toleration>,
    pub node_affinity: Option<NodeAffinity>,
    pub labels: StringMap<String>,
    pub pod_affinity_terms: Vec<PodAffinityTerm>,
    pub pod_anti_affinity_terms: Vec<PodAffinityTerm>,
    pub requests: ResourceRequests,
    pub host_ports: Vec<HostPortClaim>,
    /// The claims that the pod's volumes refer to.
    pub pvc_names: Vec<String>,
    /// Where the volumes that are bound to these claims can be reached. The caller looks them up.
    pub pv_node_affinities: Vec<NodeSelectorSpec>,
    pub topology_spread_constraints: Vec<TopologySpreadConstraint>,
    /// How many volumes of each CSI driver the pod needs. The caller looks them up.
    pub csi_volume_counts: StringMap<i64>,
    /// Those of `pvc_names` that one pod alone may use. The caller looks them up.
    pub read_write_once_pod_pvcs: Vec<String>,
    /// The CSI drivers that have yet to provide a volume for the pod. The caller looks them up.
    pub unbound_csi_pvc_drivers: Vec<String>,
}

/// Model of [`PendingPod`].
#[verifier::ext_equal]
pub struct PendingPodView {
    pub namespace: Seq<char>,
    pub pod_name: Seq<char>,
    pub node_selector: Map<Seq<char>, Seq<char>>,
    pub priority: i32,
    pub tolerations: Seq<TolerationView>,
    pub node_affinity: Option<NodeAffinityView>,
    pub labels: Map<Seq<char>, Seq<char>>,
    pub pod_affinity_terms: Seq<PodAffinityTermView>,
    pub pod_anti_affinity_terms: Seq<PodAffinityTermView>,
    pub requests: ResourceRequestsView,
    pub host_ports: Seq<HostPortClaimView>,
    pub pvc_names: Seq<Seq<char>>,
    pub pv_node_affinities: Seq<NodeSelectorSpecView>,
    pub topology_spread_constraints: Seq<TopologySpreadConstraintView>,
    pub csi_volume_counts: Map<Seq<char>, i64>,
    pub read_write_once_pod_pvcs: Seq<Seq<char>>,
    pub unbound_csi_pvc_drivers: Seq<Seq<char>>,
}

impl View for PendingPod {
    type V = PendingPodView;

    open spec fn view(&self) -> PendingPodView {
        PendingPodView {
            namespace: self.namespace@,
            pod_name: self.pod_name@,
            node_selector: self.node_selector@,
            priority: self.priority,
            tolerations: self.tolerations.deep_view(),
            node_affinity: self.node_affinity.deep_view(),
            labels: self.labels@,
            pod_affinity_terms: self.pod_affinity_terms.deep_view(),
            pod_anti_affinity_terms: self.pod_anti_affinity_terms.deep_view(),
            requests: self.requests@,
            host_ports: self.host_ports.deep_view(),
            pvc_names: self.pvc_names.deep_view(),
            pv_node_affinities: self.pv_node_affinities.deep_view(),
            topology_spread_constraints: self.topology_spread_constraints.deep_view(),
            csi_volume_counts: self.csi_volume_counts@,
            read_write_once_pod_pvcs: self.read_write_once_pod_pvcs.deep_view(),
            unbound_csi_pvc_drivers: self.unbound_csi_pvc_drivers.deep_view(),
        }
    }
}

impl DeepView for PendingPod {
    type V = PendingPodView;

    open spec fn deep_view(&self) -> PendingPodView {
        self@
    }
}

impl Duplicate for PendingPod {
    fn duplicate(&self) -> (copy: Self) {
        PendingPod {
            namespace: self.namespace.duplicate(),
            pod_name: self.pod_name.duplicate(),
            node_selector: self.node_selector.duplicate(),
            priority: self.priority,
            tolerations: self.tolerations.duplicate(),
            node_affinity: self.node_affinity.duplicate(),
            labels: self.labels.duplicate(),
            pod_affinity_terms: self.pod_affinity_terms.duplicate(),
            pod_anti_affinity_terms: self.pod_anti_affinity_terms.duplicate(),
            requests: self.requests.duplicate(),
            host_ports: self.host_ports.duplicate(),
            pvc_names: self.pvc_names.duplicate(),
            pv_node_affinities: self.pv_node_affinities.duplicate(),
            topology_spread_constraints: self.topology_spread_constraints.duplicate(),
            csi_volume_counts: self.csi_volume_counts.duplicate(),
            read_write_once_pod_pvcs: self.read_write_once_pod_pvcs.duplicate(),
            unbound_csi_pvc_drivers: self.unbound_csi_pvc_drivers.duplicate(),
        }
    }
}

impl Clone for PendingPod {
    fn clone(&self) -> (copy: Self)
        ensures
            copy@ == self@,
    {
        self.duplicate()
    }
}

/// A watch event. `object` is absent where the event carries none that can
/// be read.
#[derive(Debug)]
pub struct WatchEvent<T> {
    pub event_type: String,
    pub object: Option<T>,
}

/// Model of [`WatchEvent`].
pub struct WatchEventView<T> {
    pub event_type: Seq<char>,
    pub object: Option<T>,
}

impl<T: DeepView> View for WatchEvent<T> {
    type V = WatchEventView<T::V>;

    open spec fn view(&self) -> WatchEventView<T::V> {
        WatchEventView { event_type: self.event_type@, object: self.object.deep_view() }
    }
}

impl<T: DeepView> DeepView for WatchEvent<T> {
    type V = WatchEventView<T::V>;

    open spec fn deep_view(&self) -> WatchEventView<T::V> {
        self@
    }
}

/// The event says how its object is now, and not that it is gone.
pub open spec fn is_upsert(event_type: Seq<char>) -> bool {
    event_type == "ADDED"@ || event_type == "MODIFIED"@
}

impl<T> WatchEvent<T> {
    /// Whether the event says how its object is now.
    pub fn is_added_or_modified(&self) -> (b: bool)
        ensures
            b == is_upsert(self.event_type@),
    {
        same_text(self.event_type.as_str(), "ADDED") || same_text(
            self.event_type.as_str(),
            "MODIFIED",
        )
    }
}

/// The answer to a list request for pods.
#[derive(Debug, Default)]
pub struct PodList {
    pub items: Vec<PodObject>,
}

/// `namespace/name`, which tells objects of all namespaces apart.
pub open spec fn qualified(namespace: Seq<char>, name: Seq<char>) -> Seq<char> {
    namespace + "/"@ + name
}

/// Write `namespace/name`.
pub fn qualified_name(namespace: &str, name: &str) -> (key: String)
    ensures
        key@ == qualified(namespace@, name@),
{
    let mut key = namespace.to_owned();
    key.append("/");
    key.append(name);
    key
}

/// The key under which a claim is counted across namespaces.
pub fn pvc_key(namespace: &str, pvc_name: &str) -> (key: String)
    ensures
        key@ == qualified(namespace@, pvc_name@),
{
    qualified_name(namespace, pvc_name)
}

/// Text that may be absent, with nothing in its place.
pub open spec fn text_or_empty(s: Option<Seq<char>>) -> Seq<char> {
    match s {
        Some(s) => s,
        None => Seq::empty(),
    }
}

/// The namespace of an object; `default` where it names none.
pub open spec fn namespace_or_default(s: Option<Seq<char>>) -> Seq<char> {
    match s {
        Some(s) => s,
        None => "default"@,
    }
}

/// The namespace of an object.
pub fn namespace_of(namespace: &Option<String>) -> (r: String)
    ensures
        r@ == namespace_or_default(namespace.deep_view()),
{
    match namespace {
        Some(s) => s.clone(),
        None => "default".to_owned(),
    }
}

/// Whether text is there and is not empty.
pub fn is_set(s: &Option<String>) -> (b: bool)
    ensures
        b == (text_or_empty(s.deep_view()).len() > 0),
{
    match s {
        Some(s) => !s.as_str().is_empty(),
        None => false,
    }
}

impl PodObjectView {
    /// The pod has a node.
    pub open spec fn is_bound(self) -> bool {
        text_or_empty(self.spec.node_name).len() > 0
    }

    /// A gate keeps the pod from being placed.
    pub open spec fn is_gated(self) -> bool {
        self.spec.scheduling_gates is Some && self.spec.scheduling_gates->0.len() > 0
    }

    /// The pod has a name.
    pub open spec fn is_named(self) -> bool {
        text_or_empty(self.metadata.name).len() > 0
    }
}

impl PodObject {
    /// Whether the pod has a node.
    pub fn is_bound(&self) -> (b: bool)
        ensures
            b == self@.is_bound(),
    {
        is_set(&self.spec.node_name)
    }

    /// Whether a gate keeps the pod from being placed.
    pub fn is_gated(&self) -> (b: bool)
        ensures
            b == self@.is_gated(),
    {
        match &self.spec.scheduling_gates {
            Some(gates) => gates.len() > 0,
            None => false,
        }
    }
}

/// The claim that a volume refers to: the one it names, or the one that is
/// made for the pod and carries the names of both.
pub open spec fn claim_name(pod_name: Seq<char>, volume: PodVolumeView) -> Option<Seq<char>> {
    match volume.persistent_volume_claim {
        Some(source) => Some(source.claim_name),
        None => if volume.ephemeral {
            Some(pod_name + "-"@ + volume.name)
        } else {
            None
        },
    }
}

/// The claims that `volumes` refer to, in their order.
pub open spec fn claim_names(pod_name: Seq<char>, volumes: Seq<PodVolumeView>) -> Seq<Seq<char>>
    decreases volumes.len(),
{
    if volumes.len() == 0 {
        Seq::empty()
    } else {
        let before = claim_names(pod_name, volumes.drop_last());
        match claim_name(pod_name, volumes.last()) {
            Some(name) => before.push(name),
            None => before,
        }
    }
}

/// The claims that the pod's volumes refer to, directly or as an ephemeral
/// volume.
pub fn referenced_pvc_names(pod_name: &str, volumes: &[PodVolume]) -> (names: Vec<String>)
    ensures
        names.deep_view() == claim_names(pod_name@, volumes.deep_view()),
{
    let ghost all = volumes.deep_view();
    let mut names: Vec<String> = Vec::new();
    let mut i: usize = 0;
    proof {
        assert(all.take(0) =~= Seq::empty());
        assert(names.deep_view() =~= Seq::empty());
    }
    while i < volumes.len()
        invariant
            all == volumes.deep_view(),
            i <= volumes@.len(),
            names.deep_view() == claim_names(pod_name@, all.take(i as int)),
        decreases volumes@.len() - i,
    {
        let volume = &volumes[i];
        let ghost before = names.deep_view();
        proof {
            assert(all.take(i + 1).drop_last() =~= all.take(i as int));
            assert(all.take(i + 1).last() == volume@);
        }
        if let Some(source) = &volume.persistent_volume_claim {
            names.push(source.claim_name.clone());
            assert(names.deep_view() =~= before.push(source.claim_name@));
        } else if volume.ephemeral {
            let mut name = pod_name.to_owned();
            name.append("-");
            name.append(volume.name.as_str());
            let ghost added = name@;
            names.push(name);
            assert(names.deep_view() =~= before.push(added));
        }
        i += 1;
    }
    assert(all.take(i as int) =~= all);
    names
}

/// The volumes of a pod.
pub open spec fn volumes_of(spec: PodSpecView) -> Seq<PodVolumeView> {
    match spec.volumes {
        Some(volumes) => volumes,
        None => Seq::empty(),
    }
}

/// The claims that a pod refers to.
pub fn pod_claims(pod_name: &str, spec: &PodSpec) -> (names: Vec<String>)
    ensures
        names.deep_view() == claim_names(pod_name@, volumes_of(spec@)),
{
    match &spec.volumes {
        Some(volumes) => referenced_pvc_names(pod_name, volumes.as_slice()),
        None => {
            let names: Vec<String> = Vec::new();
            assert(names.deep_view() =~= Seq::<Seq<char>>::empty());
            names
        },
    }
}

/// What the pod asks for: the sum over its containers, and its overhead.
pub fn pod_total_requests(spec: &PodSpec) -> (total: ResourceRequests)
    ensures
        total@ == container::pod_requests(spec@.containers, spec@.overhead),
{
    total_with_overhead(spec.containers.as_slice(), &spec.overhead)
}

/// The required terms of the pod's affinity to other pods.
pub open spec fn affinity_terms(spec: PodSpecView) -> Seq<PodAffinityTermView> {
    match spec.affinity {
        Some(a) => match a.pod_affinity {
            Some(p) => p.required_during_scheduling_ignored_during_execution,
            None => Seq::empty(),
        },
        None => Seq::empty(),
    }
}

/// The required terms of the pod's anti-affinity to other pods.
pub open spec fn anti_affinity_terms(spec: PodSpecView) -> Seq<PodAffinityTermView> {
    match spec.affinity {
        Some(a) => match a.pod_anti_affinity {
            Some(p) => p.required_during_scheduling_ignored_during_execution,
            None => Seq::empty(),
        },
        None => Seq::empty(),
    }
}

/// The pod as one that waits for a node. What has to be looked up is empty.
pub open spec fn pending_of(pod: PodObjectView) -> PendingPodView {
    PendingPodView {
        namespace: namespace_or_default(pod.metadata.namespace),
        pod_name: text_or_empty(pod.metadata.name),
        node_selector: match pod.spec.node_selector {
            Some(s) => s,
            None => Map::empty(),
        },
        priority: match pod.spec.priority {
            Some(p) => p,
            None => 0,
        },
        tolerations: match pod.spec.tolerations {
            Some(t) => t,
            None => Seq::empty(),
        },
        node_affinity: match pod.spec.affinity {
            Some(a) => a.node_affinity,
            None => None,
        },
        labels: pod.metadata.labels,
        pod_affinity_terms: affinity_terms(pod.spec),
        pod_anti_affinity_terms: anti_affinity_terms(pod.spec),
        requests: container::pod_requests(pod.spec.containers, pod.spec.overhead),
        host_ports: container::container_claims(pod.spec.containers),
        pvc_names: claim_names(text_or_empty(pod.metadata.name), volumes_of(pod.spec)),
        pv_node_affinities: Seq::empty(),
        topology_spread_constraints: pod.spec.topology_spread_constraints,
        csi_volume_counts: Map::empty(),
        read_write_once_pod_pvcs: Seq::empty(),
        unbound_csi_pvc_drivers: Seq::empty(),
    }
}

/// The pod waits for a node: it has a name, no node, and no gate.
pub open spec fn awaits_node(pod: PodObjectView) -> bool {
    pod.is_named() && !pod.is_bound() && !pod.is_gated()
}

fn no_items<T: DeepView>() -> (r: Vec<T>)
    ensures
        r.deep_view() == Seq::<T::V>::empty(),
{
    let r: Vec<T> = Vec::new();
    assert(r.deep_view() =~= Seq::<T::V>::empty());
    r
}

/// The pod as one to be placed, where it has a name, no node and no gate.
///
/// A gated pod never enters the scheduling cycle: that is no failure to place
/// it, it is not ready.
pub fn needs_scheduling_pod(pod: &PodObject) -> (r: Option<PendingPod>)
    ensures
        r is Some == awaits_node(pod@),
        r matches Some(pending) ==> pending@ == pending_of(pod@),
{
    let pod_name = match &pod.metadata.name {
        Some(name) => name.clone(),
        None => {
            return None;
        },
    };
    if pod_name.as_str().is_empty() || pod.is_bound() || pod.is_gated() {
        return None;
    }
    let node_selector = match &pod.spec.node_selector {
        Some(selector) => selector.duplicate(),
        None => StringMap::new(),
    };
    let priority: i32 = match pod.spec.priority {
        Some(p) => p,
        None => 0,
    };
    let tolerations = match &pod.spec.tolerations {
        Some(t) => t.duplicate(),
        None => no_items(),
    };
    let (node_affinity, pod_affinity_terms, pod_anti_affinity_terms) = match &pod.spec.affinity {
        Some(a) => (
            a.node_affinity.duplicate(),
            match &a.pod_affinity {
                Some(p) => p.required_during_scheduling_ignored_during_execution.duplicate(),
                None => no_items(),
            },
            match &a.pod_anti_affinity {
                Some(p) => p.required_during_scheduling_ignored_during_execution.duplicate(),
                None => no_items(),
            },
        ),
        None => (None, no_items(), no_items()),
    };
    let pending = PendingPod {
        namespace: namespace_of(&pod.metadata.namespace),
        node_selector,
        priority,
        tolerations,
        node_affinity,
        labels: pod.metadata.labels.duplicate(),
        pod_affinity_terms,
        pod_anti_affinity_terms,
        requests: pod_total_requests(&pod.spec),
        host_ports: container_host_ports(pod.spec.containers.as_slice()),
        pvc_names: pod_claims(pod_name.as_str(), &pod.spec),
        pod_name,
        pv_node_affinities: no_items(),
        topology_spread_constraints: pod.spec.topology_spread_constraints.duplicate(),
        csi_volume_counts: StringMap::new(),
        read_write_once_pod_pvcs: no_items(),
        unbound_csi_pvc_drivers: no_items(),
    };
    Some(pending)
}

/// The pod of a watch event as one to be placed: the event says how the pod
/// is now, and the pod has a name, no node and no gate.
pub fn needs_scheduling(event: &WatchEvent<PodObject>) -> (r: Option<PendingPod>)
    ensures
        r is Some == (is_upsert(event@.event_type) && event@.object is Some && awaits_node(
            event@.object->0,
        )),
        r matches Some(pending) ==> pending@ == pending_of(event@.object->0),
{
    if !event.is_added_or_modified() {
        return None;
    }
    match &event.object {
        Some(pod) => needs_scheduling_pod(pod),
        None => None,
    }
}

/// Whether placing the pod `key` ("namespace/name") may start: it is not in
/// `in_flight`, the pods that are being placed.
pub fn should_schedule(in_flight: &StringSet, key: &str) -> (b: bool)
    ensures
        b == !in_flight@.contains(key@),
{
    !in_flight.contains(key)
}

/// The pod waits for a node and is not being placed.
pub open spec fn is_stranded(pod: PodObjectView, in_flight: Set<Seq<char>>) -> bool {
    awaits_node(pod) && !in_flight.contains(
        qualified(
            namespace_or_default(pod.metadata.namespace),
            text_or_empty(pod.metadata.name),
        ),
    )
}

/// Events that make up for those that stranded pods of `items` have missed,
/// in their order.
pub open spec fn resync_events(
    items: Seq<PodObjectView>,
    in_flight: Set<Seq<char>>,
) -> Seq<WatchEventView<PodObjectView>>
    decreases items.len(),
{
    if items.len() == 0 {
        Seq::empty()
    } else {
        let before = resync_events(items.drop_last(), in_flight);
        if is_stranded(items.last(), in_flight) {
            before.push(
                WatchEventView { event_type: "MODIFIED"@, object: Some(items.last()) },
            )
        } else {
            before
        }
    }
}

/// From a list of all pods, the events to handle as if the watch had brought
/// them: one for each pod that waits for a node and is not being placed.
pub fn pods_needing_resync(items: &[PodObject], in_flight: &StringSet) -> (events: Vec<
    WatchEvent<PodObject>,
>)
    ensures
        events.deep_view() == resync_events(items.deep_view(), in_flight@),
{
    let ghost all = items.deep_view();
    let mut events: Vec<WatchEvent<PodObject>> = Vec::new();
    let mut i: usize = 0;
    proof {
        assert(all.take(0) =~= Seq::empty());
        assert(events.deep_view() =~= Seq::empty());
    }
    while i < items.len()
        invariant
            all == items.deep_view(),
            i <= items@.len(),
            events.deep_view() == resync_events(all.take(i as int), in_flight@),
        decreases items@.len() - i,
    {
        let item = &items[i];
        let ghost before = events.deep_view();
        proof {
            assert(all.take(i + 1).drop_last() =~= all.take(i as int));
            assert(all.take(i + 1).last() == item@);
        }
        let wanted = match needs_scheduling_pod(item) {
            Some(pending) => {
                let key = qualified_name(pending.namespace.as_str(), pending.pod_name.as_str());
                should_schedule(in_flight, key.as_str())
            },
            None => false,
        };
        if wanted {
            let event = WatchEvent {
                event_type: "MODIFIED".to_owned(),
                object: Some(item.duplicate()),
            };
            let ghost added = event@;
            events.push(event);
            assert(events.deep_view() =~= before.push(added));
        }
        i += 1;
    }
    assert(all.take(i as int) =~= all);
    events
}

/// Every event that a resync makes up is one on which the watch would place
/// the pod, and the pod is not being placed already.
pub proof fn law_resync_agrees_with_the_watch(
    items: Seq<PodObjectView>,
    in_flight: Set<Seq<char>>,
    i: int,
)
    requires
        0 <= i < resync_events(items, in_flight).len(),
    ensures
        is_upsert(resync_events(items, in_flight)[i].event_type),
        resync_events(items, in_flight)[i].object is Some,
        awaits_node(resync_events(items, in_flight)[i].object->0),
        !in_flight.contains(
            qualified(
                pending_of(resync_events(items, in_flight)[i].object->0).namespace,
                pending_of(resync_events(items, in_flight)[i].object->0).pod_name,
            ),
        ),
        items.contains(resync_events(items, in_flight)[i].object->0),
    decreases items.len(),
{
    let front = items.drop_last();
    let before = resync_events(front, in_flight);
    if i < before.len() {
        law_resync_agrees_with_the_watch(front, in_flight, i);
        let pod = before[i].object->0;
        let j = choose|j: int| 0 <= j < front.len() && front[j] == pod;
        assert(items[j] == pod);
    } else {
        assert(items[items.len() - 1] == items.last());
    }
}

/// A resync leaves out no stranded pod.
pub proof fn law_resync_misses_no_stranded_pod(
    items: Seq<PodObjectView>,
    in_flight: Set<Seq<char>>,
    k: int,
)
    requires
        0 <= k < items.len(),
        is_stranded(items[k], in_flight),
    ensures
        exists|i: int|
            0 <= i < resync_events(items, in_flight).len() && #[trigger] resync_events(
                items,
                in_flight,
            )[i].object == Some(items[k]),
    decreases items.len(),
{
    let all = resync_events(items, in_flight);
    let front = items.drop_last();
    let before = resync_events(front, in_flight);
    if k == items.len() - 1 {
        assert(all[all.len() - 1].object == Some(items[k]));
    } else {
        law_resync_misses_no_stranded_pod(front, in_flight, k);
        let i = choose|i: int|
            0 <= i < before.len() && #[trigger] before[i].object == Some(front[k]);
        assert(all[i].object == Some(items[k]));
    }
}

/// A gated pod, and a pod that has a node, never enter the scheduling cycle.
pub proof fn law_gated_and_bound_pods_never_scheduled(pod: PodObjectView)
    requires
        pod.is_gated() || pod.is_bound(),
    ensures
        !awaits_node(pod),
{
}

/// A pod enters the scheduling cycle exactly where it has a name, no node and
/// no gates.
pub proof fn law_who_waits_for_a_node(pod: PodObjectView)
    ensures
        pod.metadata.name is None || pod.metadata.name->0.len() == 0 ==> !awaits_node(pod),
        pod.spec.node_name is Some && pod.spec.node_name->0.len() > 0 ==> !awaits_node(pod),
        pod.spec.scheduling_gates is Some && pod.spec.scheduling_gates->0.len() > 0
            ==> !awaits_node(pod),
        pod.metadata.name is Some && pod.metadata.name->0.len() > 0 && (pod.spec.node_name is None
            || pod.spec.node_name->0.len() == 0) && (pod.spec.scheduling_gates is None
            || pod.spec.scheduling_gates->0.len() == 0) ==> awaits_node(pod),
{
}

/// Additions and modifications count, and nothing else does.
pub proof fn law_events_that_count(event_type: Seq<char>)
    ensures
        is_upsert("ADDED"@),
        is_upsert("MODIFIED"@),
        event_type != "ADDED"@ && event_type != "MODIFIED"@ ==> !is_upsert(event_type),
        !is_upsert("DELETED"@),
        !is_upsert("BOOKMARK"@),
{
    reveal_strlit("DELETED");
    reveal_strlit("BOOKMARK");
    reveal_strlit("ADDED");
    reveal_strlit("MODIFIED");
    assert("DELETED"@.len() == 7 && "ADDED"@.len() == 5 && "MODIFIED"@.len() == 8);
    assert("BOOKMARK"@[0] == 'B' && "MODIFIED"@[0] == 'M');
}

/// What a pod asks for is carried over unchanged to the decisions about it;
/// what it does not state has its default.
pub proof fn law_pending_pod_asks_for_the_same(pod: PodObjectView)
    ensures
        ({
            let p = pending_of(pod);
            &&& pod.metadata.name is Some ==> p.pod_name == pod.metadata.name->0
            &&& pod.metadata.namespace is Some ==> p.namespace == pod.metadata.namespace->0
            &&& pod.metadata.namespace is None ==> p.namespace == "default"@
            &&& p.labels == pod.metadata.labels
            &&& pod.spec.priority is Some ==> p.priority == pod.spec.priority->0
            &&& pod.spec.priority is None ==> p.priority == 0
            &&& pod.spec.node_selector is Some ==> p.node_selector == pod.spec.node_selector->0
            &&& pod.spec.node_selector is None ==> forall|k: Seq<char>|
                !#[trigger] p.node_selector.contains_key(k)
            &&& pod.spec.tolerations is Some ==> p.tolerations == pod.spec.tolerations->0
            &&& pod.spec.tolerations is None ==> p.tolerations.len() == 0
            &&& p.topology_spread_constraints == pod.spec.topology_spread_constraints
            &&& p.requests == container::pod_requests(pod.spec.containers, pod.spec.overhead)
            &&& p.host_ports == container::container_claims(pod.spec.containers)
        }),
        ({
            let p = pending_of(pod);
            let a = pod.spec.affinity;
            &&& a is None ==> p.node_affinity is None && p.pod_affinity_terms.len() == 0
                && p.pod_anti_affinity_terms.len() == 0
            &&& a is Some ==> p.node_affinity == a->0.node_affinity
            &&& a is Some && a->0.pod_affinity is Some ==> p.pod_affinity_terms
                == a->0.pod_affinity->0.required_during_scheduling_ignored_during_execution
            &&& a is Some && a->0.pod_affinity is None ==> p.pod_affinity_terms.len() == 0
            &&& a is Some && a->0.pod_anti_affinity is Some ==> p.pod_anti_affinity_terms
                == a->0.pod_anti_affinity->0.required_during_scheduling_ignored_during_execution
            &&& a is Some && a->0.pod_anti_affinity is None ==> p.pod_anti_affinity_terms.len()
                == 0
            &&& p.pv_node_affinities.len() == 0 && p.read_write_once_pod_pvcs.len() == 0
                && p.unbound_csi_pvc_drivers.len() == 0
        }),
{
}

proof fn lemma_claim_push(names: Seq<Seq<char>>, x: Seq<char>, n: Seq<char>)
    ensures
        names.push(x).contains(n) == (names.contains(n) || n == x),
{
    crate::listing::lemma_push_key(names, x, n);
}

/// The claims of a pod are those that its volumes name, and for each ephemeral
/// volume the one that is named after the pod and the volume; and no others.
pub proof fn law_claims_of_a_pod(
    pod_name: Seq<char>,
    volumes: Seq<PodVolumeView>,
    claim: Seq<char>,
)
    ensures
        claim_names(pod_name, volumes).contains(claim) <==> exists|i: int|
            0 <= i < volumes.len() && (((#[trigger] volumes[i]).persistent_volume_claim is Some
                && volumes[i].persistent_volume_claim->0.claim_name == claim) || (
            volumes[i].persistent_volume_claim is None && volumes[i].ephemeral && claim == pod_name
                + "-"@ + volumes[i].name)),
    decreases volumes.len(),
{
    if volumes.len() > 0 {
        let front = volumes.drop_last();
        let last = volumes.last();
        law_claims_of_a_pod(pod_name, front, claim);
        let before = claim_names(pod_name, front);
        if claim_name(pod_name, last) is Some {
            lemma_claim_push(before, claim_name(pod_name, last)->0, claim);
        }
        assert(last == volumes[volumes.len() - 1]);
        if before.contains(claim) {
            let i = choose|i: int|
                0 <= i < front.len() && (((#[trigger] front[i]).persistent_volume_claim is Some
                    && front[i].persistent_volume_claim->0.claim_name == claim) || (
                front[i].persistent_volume_claim is None && front[i].ephemeral && claim
                    == pod_name + "-"@ + front[i].name));
            assert(volumes[i] == front[i]);
        }
        if exists|i: int|
            0 <= i < volumes.len() && (((#[trigger] volumes[i]).persistent_volume_claim is Some
                && volumes[i].persistent_volume_claim->0.claim_name == claim) || (
            volumes[i].persistent_volume_claim is None && volumes[i].ephemeral && claim == pod_name
                + "-"@ + volumes[i].name)) {
            let i = choose|i: int|
                0 <= i < volumes.len() && (((#[trigger] volumes[i]).persistent_volume_claim is Some
                    && volumes[i].persistent_volume_claim->0.claim_name == claim) || (
                volumes[i].persistent_volume_claim is None && volumes[i].ephemeral && claim
                    == pod_name + "-"@ + volumes[i].name));
            if i < front.len() {
                assert(front[i] == volumes[i]);
            }
        }
    }
}

/// Claims of one name in two namespaces are told apart, and so are two names
/// of one namespace. Namespaces hold no slash.
pub proof fn law_qualified_names_are_distinct(
    a: Seq<char>,
    x: Seq<char>,
    b: Seq<char>,
    y: Seq<char>,
)
    requires
        !a.contains('/'),
        !b.contains('/'),
    ensures
        qualified(a, x) == qualified(b, y) ==> a == b && x == y,
{
    reveal_strlit("/");
    let s = qualified(a, x);
    let t = qualified(b, y);
    if s == t {
        assert(s[a.len() as int] == '/');
        assert(t[b.len() as int] == '/');
        if a.len() < b.len() {
            assert(t[a.len() as int] == b[a.len() as int]);
            assert(b.contains('/'));
        } else if b.len() < a.len() {
            assert(s[b.len() as int] == a[b.len() as int]);
            assert(a.contains('/'));
        }
        assert(a =~= s.take(a.len() as int));
        assert(b =~= t.take(b.len() as int));
        assert(x =~= s.skip((a.len() + 1) as int));
        assert(y =~= t.skip((b.len() + 1) as int));
    }
}

/// A resync takes up a listed pod that has a name, no node and no gates and is
/// not being placed, and no other.
pub proof fn law_resync_takes_up_the_stranded(
    items: Seq<PodObjectView>,
    in_flight: Set<Seq<char>>,
    k: int,
)
    requires
        0 <= k < items.len(),
        items[k].metadata.name is Some,
        items[k].metadata.namespace is Some,
    ensures
        ({
            let pod = items[k];
            let key = pod.metadata.namespace->0 + "/"@ + pod.metadata.name->0;
            let taken = exists|i: int|
                0 <= i < resync_events(items, in_flight).len() && #[trigger] resync_events(
                    items,
                    in_flight,
                )[i].object == Some(pod);
            &&& taken == (pod.metadata.name->0.len() > 0 && (pod.spec.node_name is None
                || pod.spec.node_name->0.len() == 0) && (pod.spec.scheduling_gates is None
                || pod.spec.scheduling_gates->0.len() == 0) && !in_flight.contains(key))
        }),
{
    let pod = items[k];
    law_who_waits_for_a_node(pod);
    if is_stranded(pod, in_flight) {
        law_resync_misses_no_stranded_pod(items, in_flight, k);
    }
    if exists|i: int|
        0 <= i < resync_events(items, in_flight).len() && #[trigger] resync_events(
            items,
            in_flight,
        )[i].object == Some(pod) {
        let i = choose|i: int|
            0 <= i < resync_events(items, in_flight).len() && #[trigger] resync_events(
                items,
                in_flight,
            )[i].object == Some(pod);
        law_resync_agrees_with_the_watch(items, in_flight, i);
    }
}

} // verus!
