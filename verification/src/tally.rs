//! The running tally of what is placed where, kept up to date by watch events
//! and by the scheduler's own decisions.

use crate::caches::{self, CsiNodeCache, NodeCache};
use crate::container::{self, container_host_ports};
use crate::duplicate::{slice_of, Duplicate};
use crate::index::{self, PodIndex, TalliedPod, TalliedPodView};
use crate::node::{
    self, read_write_once_pod_conflict_free, NodeItem, NodeItemView, NodeList, NodePod,
    NodePodView, NodeUsage, NodeUsageView, TalliedPodLabels, TalliedPodLabelsView,
};
use crate::order::{self, same_text};
use crate::pod::{
    self, namespace_of, pod_claims, pod_total_requests, pvc_key, qualified_name, PendingPod,
    PendingPodView, PodMetadata, PodMetadataView, PodSpec, PodSpecView, WatchEvent, WatchEventView,
};
use crate::ports::{HostPortClaim, HostPortClaimView};
use crate::resources::{self, amount_in, clamped_sum, ResourceRequests};
use crate::select::{self, qualify_claims};
use crate::string_map::{StringMap, StringSet};
use crate::volumes::{
    self, distinct_claims, count_by_driver, CsiNodeDriver, CsiNodeDriverView, CsiNodeItem,
    CsiNodeItemView, PvObject, PvObjectView, PvcObject, PvcObjectView, StorageClassObject,
    StorageClassObjectView,
};
use crate::waiters::{self, PreemptionWaiters, WaitingPlanView};
use vstd::prelude::*;
use vstd::string::*;

verus! {

/// The phase of a pod.
#[derive(Debug, Default)]
pub struct PodListItemStatus {
    pub phase: String,
}

/// Model of [`PodListItemStatus`].
#[verifier::ext_equal]
pub struct PodListItemStatusView {
    pub phase: Seq<char>,
}

impl View for PodListItemStatus {
    type V = PodListItemStatusView;

    open spec fn view(&self) -> PodListItemStatusView {
        PodListItemStatusView {
            phase: self.phase@,
        }
    }
}

impl DeepView for PodListItemStatus {
    type V = PodListItemStatusView;

    open spec fn deep_view(&self) -> PodListItemStatusView {
        self@
    }
}

impl Duplicate for PodListItemStatus {
    fn duplicate(&self) -> (copy: Self) {
        PodListItemStatus {
            phase: self.phase.duplicate(),
        }
    }
}

impl Clone for PodListItemStatus {
    fn clone(&self) -> (copy: Self)
        ensures
            copy@ == self@,
    {
        self.duplicate()
    }
}

/// A pod as far as the tally looks at it.
#[derive(Debug, Default)]
pub struct PreemptionPodListItem {
    pub metadata: PodMetadata,
    pub spec: PodSpec,
    pub status: PodListItemStatus,
}

/// Model of [`PreemptionPodListItem`].
#[verifier::ext_equal]
pub struct PreemptionPodListItemView {
    pub metadata: PodMetadataView,
    pub spec: PodSpecView,
    pub status: PodListItemStatusView,
}

impl View for PreemptionPodListItem {
    type V = PreemptionPodListItemView;

    open spec fn view(&self) -> PreemptionPodListItemView {
        PreemptionPodListItemView {
            metadata: self.metadata@,
            spec: self.spec@,
            status: self.status@,
        }
    }
}

impl DeepView for PreemptionPodListItem {
    type V = PreemptionPodListItemView;

    open spec fn deep_view(&self) -> PreemptionPodListItemView {
        self@
    }
}

/// How a claim leads to a CSI driver.
#[derive(Debug, Default)]
pub struct PvcVolumeInfo {
    pub volume_name: String,
    pub storage_class_name: Option<String>,
}

/// Model of [`PvcVolumeInfo`].
#[verifier::ext_equal]
pub struct PvcVolumeInfoView {
    pub volume_name: Seq<char>,
    pub storage_class_name: Option<Seq<char>>,
}

impl View for PvcVolumeInfo {
    type V = PvcVolumeInfoView;

    open spec fn view(&self) -> PvcVolumeInfoView {
        PvcVolumeInfoView {
            volume_name: self.volume_name@,
            storage_class_name: self.storage_class_name.deep_view(),
        }
    }
}

impl DeepView for PvcVolumeInfo {
    type V = PvcVolumeInfoView;

    open spec fn deep_view(&self) -> PvcVolumeInfoView {
        self@
    }
}

/// What is placed where, and what is known of nodes and volumes.
#[derive(Debug)]
pub struct NodeTally {
    index: PodIndex,
    reserved_victims: StringSet,
    waiters: PreemptionWaiters,
    pvcs: StringMap<PvcVolumeInfo>,
    pv_csi_drivers: StringMap<String>,
    sc_provisioners: StringMap<String>,
    csi_nodes: CsiNodeCache,
    nodes: NodeCache,
}

/// Model of [`NodeTally`].
#[verifier::ext_equal]
pub struct NodeTallyView {
    /// The pods that take up room, by `namespace/name`.
    pub pods: Map<Seq<char>, TalliedPodView>,
    /// The pods that a plan has already picked as its victims.
    pub reserved_victims: Set<Seq<char>>,
    /// The plans that wait for their victims to be gone.
    pub plans: Seq<WaitingPlanView>,
    /// Claims, by `namespace/name`.
    pub pvcs: Map<Seq<char>, PvcVolumeInfoView>,
    /// The CSI driver of each volume.
    pub pv_csi_drivers: Map<Seq<char>, Seq<char>>,
    /// The provisioner of each storage class.
    pub sc_provisioners: Map<Seq<char>, Seq<char>>,
    /// How many volumes of each driver can be attached, by node.
    pub csi_node_limits: Map<Seq<char>, Map<Seq<char>, i64>>,
    /// The drivers that run, by node.
    pub csi_node_drivers: Map<Seq<char>, Set<Seq<char>>>,
    /// The nodes, by name.
    pub nodes: Map<Seq<char>, NodeItemView>,
}

impl View for NodeTally {
    type V = NodeTallyView;

    closed spec fn view(&self) -> NodeTallyView {
        NodeTallyView {
            pods: self.index@,
            reserved_victims: self.reserved_victims@,
            plans: self.waiters@,
            pvcs: self.pvcs@,
            pv_csi_drivers: self.pv_csi_drivers@,
            sc_provisioners: self.sc_provisioners@,
            csi_node_limits: self.csi_nodes.limits(),
            csi_node_drivers: self.csi_nodes.drivers(),
            nodes: self.nodes@,
        }
    }
}

/// The pod has finished.
pub open spec fn is_terminal(phase: Seq<char>) -> bool {
    phase == "Succeeded"@ || phase == "Failed"@
}

/// The key of a pod in the tally.
pub open spec fn key_of(metadata: PodMetadataView) -> Seq<char> {
    pod::qualified(
        pod::namespace_or_default(metadata.namespace),
        pod::text_or_empty(metadata.name),
    )
}

/// What the tally keeps of a pod that has a node.
pub open spec fn tallied_of(item: PreemptionPodListItemView) -> TalliedPodView {
    let namespace = pod::namespace_or_default(item.metadata.namespace);
    let claims = pod::claim_names(
        pod::text_or_empty(item.metadata.name),
        pod::volumes_of(item.spec),
    );
    TalliedPodView {
        node_name: pod::text_or_empty(item.spec.node_name),
        namespace,
        labels: item.metadata.labels,
        priority: match item.spec.priority {
            Some(p) => p,
            None => 0,
        },
        bare_pvc_names: claims,
        requests: container::pod_requests(item.spec.containers, item.spec.overhead),
        host_ports: container::container_claims(item.spec.containers),
        pvc_names: select::qualified_claims(namespace, claims),
    }
}

/// What the tally keeps of `pod` on `node_name`.
pub open spec fn reservation(pod: PendingPodView, node_name: Seq<char>) -> TalliedPodView {
    TalliedPodView {
        node_name,
        namespace: pod.namespace,
        labels: pod.labels,
        priority: pod.priority,
        bare_pvc_names: pod.pvc_names,
        requests: pod.requests,
        host_ports: pod.host_ports,
        pvc_names: select::qualified_claims(pod.namespace, pod.pvc_names),
    }
}

impl NodeTallyView {
    /// What holds of every tally: pods are finitely many and keep their claims
    /// as those of their own namespace, nodes are known by their own names,
    /// and the limits and the names of CSI drivers are known of the same
    /// nodes, a driver with a limit being among those that run.
    pub open spec fn is_valid(self) -> bool {
        &&& index::all_qualified(self.pods)
        &&& caches::is_named(self.nodes)
        &&& caches::is_matched(self.csi_node_limits, self.csi_node_drivers)
    }

    /// An empty tally.
    pub open spec fn none() -> Self {
        NodeTallyView {
            pods: Map::empty(),
            reserved_victims: Set::empty(),
            plans: Seq::empty(),
            pvcs: Map::empty(),
            pv_csi_drivers: Map::empty(),
            sc_provisioners: Map::empty(),
            csi_node_limits: Map::empty(),
            csi_node_drivers: Map::empty(),
            nodes: Map::empty(),
        }
    }

    /// With the pod `key` set to `pod`.
    pub open spec fn with_pod(self, key: Seq<char>, pod: TalliedPodView) -> Self {
        NodeTallyView { pods: self.pods.insert(key, pod), ..self }
    }

    /// Without the pod `key`.
    pub open spec fn without_pod(self, key: Seq<char>) -> Self {
        NodeTallyView { pods: self.pods.remove(key), ..self }
    }

    /// When the pod `key` is gone: its room is free, and no plan waits for it.
    pub open spec fn after_departure(self, key: Seq<char>) -> Self {
        NodeTallyView {
            pods: self.pods.remove(key),
            plans: waiters::waiting_plans(self.plans, key),
            ..self
        }
    }

    /// The event says that the pod is gone: it was deleted, or it has finished.
    pub open spec fn shows_departure(event: WatchEventView<PreemptionPodListItemView>) -> bool {
        &&& event.object is Some
        &&& pod::text_or_empty(event.object->0.metadata.name).len() > 0
        &&& pod::is_upsert(event.event_type) ==> is_terminal(event.object->0.status.phase)
    }

    /// The event says that the pod takes up room on its node.
    pub open spec fn shows_presence(event: WatchEventView<PreemptionPodListItemView>) -> bool {
        &&& event.object is Some
        &&& pod::text_or_empty(event.object->0.metadata.name).len() > 0
        &&& pod::is_upsert(event.event_type)
        &&& pod::text_or_empty(event.object->0.spec.node_name).len() > 0
        &&& !is_terminal(event.object->0.status.phase)
    }

    /// After an event for a pod.
    pub open spec fn after_event(
        self,
        event: WatchEventView<PreemptionPodListItemView>,
    ) -> Self {
        if Self::shows_presence(event) {
            self.with_pod(key_of(event.object->0.metadata), tallied_of(event.object->0))
        } else if Self::shows_departure(event) {
            self.after_departure(key_of(event.object->0.metadata))
        } else {
            self
        }
    }

    /// The placements that an event for a pod makes ready.
    pub open spec fn released_by(
        self,
        event: WatchEventView<PreemptionPodListItemView>,
    ) -> Seq<(PendingPodView, Seq<char>)> {
        if Self::shows_departure(event) {
            waiters::ready_plans(self.plans, key_of(event.object->0.metadata))
        } else {
            Seq::empty()
        }
    }

    /// The CSI driver behind a claim: that of its volume, where it is bound to
    /// one with a driver, else the provisioner of its storage class.
    pub open spec fn driver_of(
        self,
        namespace: Seq<char>,
        pvc_name: Seq<char>,
    ) -> Option<Seq<char>> {
        let key = pod::qualified(namespace, pvc_name);
        if !self.pvcs.contains_key(key) {
            None
        } else {
            let info = self.pvcs[key];
            if info.volume_name.len() > 0 && self.pv_csi_drivers.contains_key(info.volume_name) {
                Some(self.pv_csi_drivers[info.volume_name])
            } else if info.storage_class_name is Some && self.sc_provisioners.contains_key(
                info.storage_class_name->0,
            ) {
                Some(self.sc_provisioners[info.storage_class_name->0])
            } else {
                None
            }
        }
    }

    /// The drivers behind claims.
    pub open spec fn drivers_of(
        self,
        namespace: Seq<char>,
        names: Seq<Seq<char>>,
    ) -> Seq<Option<Seq<char>>> {
        names.map_values(|n: Seq<char>| self.driver_of(namespace, n))
    }

    /// How many volumes of each driver the claims come to, each claim counted
    /// once.
    pub open spec fn volume_counts(
        self,
        namespace: Seq<char>,
        names: Seq<Seq<char>>,
    ) -> Map<Seq<char>, i64> {
        volumes::volumes_by_driver(self.drivers_of(namespace, volumes::distinct(names)))
    }

    /// The keys of the pods of a node, in their order.
    pub open spec fn keys_on(self, node: Seq<char>) -> Seq<Seq<char>> {
        order::sorted_keys(index::on_node(self.pods, node))
    }

    /// What the pods `keys` take up together.
    pub open spec fn usage_of(self, keys: Seq<Seq<char>>) -> NodeUsageView
        decreases keys.len(),
    {
        if keys.len() == 0 {
            NodeUsageView::none()
        } else {
            let before = self.usage_of(keys.drop_last());
            let p = self.pods[keys.last()];
            NodeUsageView {
                pod_count: if before.pod_count < u32::MAX {
                    (before.pod_count + 1) as u32
                } else {
                    u32::MAX
                },
                requests: before.requests.plus(p.requests),
                host_ports: before.host_ports + p.host_ports,
                pvc_names: before.pvc_names + p.pvc_names,
                csi_attached_counts: sum_counts(
                    before.csi_attached_counts,
                    self.volume_counts(p.namespace, p.bare_pvc_names),
                ),
            }
        }
    }

    /// What the pods of a node take up.
    pub open spec fn usage_on(self, node: Seq<char>) -> NodeUsageView {
        self.usage_of(self.keys_on(node))
    }

    /// The claims `claims` are used by no pod but the pod `key` itself and,
    /// where a node is given, those on it that no plan has picked as a victim.
    pub open spec fn claims_free_beside(
        self,
        key: Seq<char>,
        node: Option<Seq<char>>,
        claims: Seq<Seq<char>>,
    ) -> bool {
        forall|k: Seq<char>| #[trigger]
            self.pods.contains_key(k) && self.holds_against(key, node, k) ==> node::claims_unused(
                self.pods[k].pvc_names,
                claims,
            )
    }

    /// What the pod `k` uses is not free for the pod `key` on `node`.
    pub open spec fn holds_against(
        self,
        key: Seq<char>,
        node: Option<Seq<char>>,
        k: Seq<char>,
    ) -> bool {
        k != key && (node != Some(self.pods[k].node_name) || self.reserved_victims.contains(k))
    }

    /// What is taken up on each node that has pods.
    pub open spec fn usage(self) -> Map<Seq<char>, NodeUsageView> {
        Map::new(
            |n: Seq<char>| exists|k: Seq<char>| index::on_node(self.pods, n).contains(k),
            |n: Seq<char>| self.usage_on(n),
        )
    }

    /// The pod `key` as one that may have to make room.
    pub open spec fn node_pod(self, key: Seq<char>) -> NodePodView {
        NodePodView {
            key,
            priority: self.pods[key].priority,
            requests: self.pods[key].requests,
            pvc_names: self.pods[key].pvc_names,
        }
    }

    /// Those of the pods `keys` that no plan has picked as a victim.
    pub open spec fn unclaimed(self, keys: Seq<Seq<char>>) -> Seq<NodePodView>
        decreases keys.len(),
    {
        if keys.len() == 0 {
            Seq::empty()
        } else {
            let before = self.unclaimed(keys.drop_last());
            if self.reserved_victims.contains(keys.last()) {
                before
            } else {
                before.push(self.node_pod(keys.last()))
            }
        }
    }

    /// The pods of a node that no plan has picked as a victim.
    pub open spec fn node_pods(self, node: Seq<char>) -> Seq<NodePodView> {
        self.unclaimed(self.keys_on(node))
    }

    /// Where each pod runs and how it is labelled, in the order of the keys.
    pub open spec fn labels(self) -> Seq<TalliedPodLabelsView> {
        order::sorted_keys(self.pods.dom()).map_values(
            |k: Seq<char>|
                TalliedPodLabelsView {
                    key: k,
                    node_name: self.pods[k].node_name,
                    namespace: self.pods[k].namespace,
                    labels: self.pods[k].labels,
                },
        )
    }

    /// The nodes in the order of their names.
    pub open spec fn node_items(self) -> Seq<NodeItemView> {
        order::sorted_keys(self.nodes.dom()).map_values(|k: Seq<char>| self.nodes[k])
    }

    /// After an event for a claim.
    pub open spec fn after_pvc_event(self, event: WatchEventView<PvcObjectView>) -> Self {
        if event.object is Some && pod::text_or_empty(event.object->0.metadata.name).len() > 0 {
            let pvc = event.object->0;
            let key = pod::qualified(
                pod::namespace_or_default(pvc.metadata.namespace),
                pod::text_or_empty(pvc.metadata.name),
            );
            if pod::is_upsert(event.event_type) {
                NodeTallyView {
                    pvcs: self.pvcs.insert(
                        key,
                        PvcVolumeInfoView {
                            volume_name: pvc.spec.volume_name,
                            storage_class_name: pvc.spec.storage_class_name,
                        },
                    ),
                    ..self
                }
            } else {
                NodeTallyView { pvcs: self.pvcs.remove(key), ..self }
            }
        } else {
            self
        }
    }

    /// After an event for a volume: one with a CSI driver is known by it, any
    /// other is not known.
    pub open spec fn after_pv_event(self, event: WatchEventView<PvObjectView>) -> Self {
        if event.object is Some && pod::text_or_empty(event.object->0.metadata.name).len() > 0 {
            let name = pod::text_or_empty(event.object->0.metadata.name);
            let driver = volumes::volume_driver(event.object->0);
            if pod::is_upsert(event.event_type) && driver is Some {
                NodeTallyView { pv_csi_drivers: self.pv_csi_drivers.insert(name, driver->0), ..self }
            } else {
                NodeTallyView { pv_csi_drivers: self.pv_csi_drivers.remove(name), ..self }
            }
        } else {
            self
        }
    }

    /// After an event for a storage class: one with a provisioner is known by
    /// it, any other is not known.
    pub open spec fn after_storage_class_event(
        self,
        event: WatchEventView<StorageClassObjectView>,
    ) -> Self {
        if event.object is Some && pod::text_or_empty(event.object->0.metadata.name).len() > 0 {
            let name = pod::text_or_empty(event.object->0.metadata.name);
            let provisioner = event.object->0.provisioner;
            if pod::is_upsert(event.event_type) && provisioner.len() > 0 {
                NodeTallyView {
                    sc_provisioners: self.sc_provisioners.insert(name, provisioner),
                    ..self
                }
            } else {
                NodeTallyView { sc_provisioners: self.sc_provisioners.remove(name), ..self }
            }
        } else {
            self
        }
    }

    /// After an event for the CSI drivers of a node.
    pub open spec fn after_csi_node_event(self, event: WatchEventView<CsiNodeItemView>) -> Self {
        if event.object is Some && event.object->0.metadata.name.len() > 0 {
            let name = event.object->0.metadata.name;
            let drivers = event.object->0.spec.drivers;
            if pod::is_upsert(event.event_type) {
                NodeTallyView {
                    csi_node_limits: self.csi_node_limits.insert(name, limits_of(drivers)),
                    csi_node_drivers: self.csi_node_drivers.insert(name, names_of(drivers)),
                    ..self
                }
            } else {
                NodeTallyView {
                    csi_node_limits: self.csi_node_limits.remove(name),
                    csi_node_drivers: self.csi_node_drivers.remove(name),
                    ..self
                }
            }
        } else {
            self
        }
    }

    /// After an event for a node.
    pub open spec fn after_node_event(self, event: WatchEventView<NodeItemView>) -> Self {
        if event.object is Some && event.object->0.metadata.name.len() > 0 {
            let name = event.object->0.metadata.name;
            if pod::is_upsert(event.event_type) {
                NodeTallyView { nodes: self.nodes.insert(name, event.object->0), ..self }
            } else {
                NodeTallyView { nodes: self.nodes.remove(name), ..self }
            }
        } else {
            self
        }
    }
}

/// Of each driver the sum of both.
pub open spec fn sum_counts(a: Map<Seq<char>, i64>, b: Map<Seq<char>, i64>) -> Map<
    Seq<char>,
    i64,
> {
    Map::new(
        |d: Seq<char>| a.contains_key(d) || b.contains_key(d),
        |d: Seq<char>| resources::clamp(resources::amount(a, d) + resources::amount(b, d)),
    )
}

/// The limit that a driver states, where it states one.
pub open spec fn limit_of(driver: CsiNodeDriverView) -> Option<i64> {
    match driver.allocatable {
        Some(a) => a.count,
        None => None,
    }
}

/// The limits that the drivers state; of a driver that is listed twice the
/// last one counts.
pub open spec fn limits_of(drivers: Seq<CsiNodeDriverView>) -> Map<Seq<char>, i64>
    decreases drivers.len(),
{
    if drivers.len() == 0 {
        Map::empty()
    } else {
        let before = limits_of(drivers.drop_last());
        match limit_of(drivers.last()) {
            Some(count) => before.insert(drivers.last().name, count),
            None => before,
        }
    }
}

/// The names of the drivers, whether they state a limit or not.
pub open spec fn names_of(drivers: Seq<CsiNodeDriverView>) -> Set<Seq<char>> {
    Set::new(
        |n: Seq<char>|
            exists|i: int| 0 <= i < drivers.len() && (#[trigger] drivers[i]).name == n,
    )
}

fn read_limits(drivers: &Vec<CsiNodeDriver>) -> (limits: StringMap<i64>)
    ensures
        limits@ == limits_of(drivers.deep_view()),
{
    let ghost all = drivers.deep_view();
    let mut limits: StringMap<i64> = StringMap::new();
    let mut i: usize = 0;
    proof {
        assert(all.take(0) =~= Seq::empty());
    }
    while i < drivers.len()
        invariant
            all == drivers.deep_view(),
            i <= drivers@.len(),
            limits@ == limits_of(all.take(i as int)),
        decreases drivers@.len() - i,
    {
        let driver = &drivers[i];
        proof {
            assert(all.take(i + 1).drop_last() =~= all.take(i as int));
            assert(all.take(i + 1).last() == driver@);
        }
        if let Some(a) = &driver.allocatable {
            if let Some(count) = a.count {
                limits.insert(driver.name.clone(), count);
            }
        }
        i += 1;
    }
    assert(all.take(i as int) =~= all);
    limits
}

proof fn lemma_limits_are_named(drivers: Seq<CsiNodeDriverView>)
    ensures
        limits_of(drivers).dom().subset_of(names_of(drivers)),
    decreases drivers.len(),
{
    if drivers.len() > 0 {
        let front = drivers.drop_last();
        lemma_limits_are_named(front);
        assert forall|d: Seq<char>| limits_of(drivers).dom().contains(d) implies names_of(
            drivers,
        ).contains(d) by {
            if d == drivers.last().name {
                assert(drivers[drivers.len() - 1].name == d);
            } else {
                assert(limits_of(front).dom().contains(d));
                assert(names_of(front).contains(d));
                let i = choose|i: int| 0 <= i < front.len() && (#[trigger] front[i]).name == d;
                assert(drivers[i].name == d);
            }
        }
    }
}

fn read_names(drivers: &Vec<CsiNodeDriver>) -> (names: StringSet)
    ensures
        names@ == names_of(drivers.deep_view()),
{
    let ghost all = drivers.deep_view();
    let mut names = StringSet::new();
    let mut i: usize = 0;
    while i < drivers.len()
        invariant
            all == drivers.deep_view(),
            i <= drivers@.len(),
            forall|n: Seq<char>| #[trigger]
                names@.contains(n) <==> exists|j: int|
                    0 <= j < i && (#[trigger] all[j]).name == n,
        decreases drivers@.len() - i,
    {
        let driver = &drivers[i];
        assert(all[i as int] == driver@);
        let ghost before = names@;
        names.insert(driver.name.clone());
        proof {
            assert forall|n: Seq<char>| #[trigger] names@.contains(n) <==> exists|j: int|
                0 <= j < i + 1 && (#[trigger] all[j]).name == n by {
                if before.contains(n) {
                    let j = choose|j: int| 0 <= j < i && (#[trigger] all[j]).name == n;
                    assert(all[j].name == n);
                }
                if exists|j: int| 0 <= j < i + 1 && (#[trigger] all[j]).name == n {
                    let j = choose|j: int| 0 <= j < i + 1 && (#[trigger] all[j]).name == n;
                    if j < i {
                        assert(before.contains(n));
                    }
                }
            }
        }
        i += 1;
    }
    assert(names@ =~= names_of(all));
    names
}

/// Add `more` to `counts`.
#[verifier::loop_isolation(false)]
fn accumulate_counts(counts: &mut StringMap<i64>, more: &StringMap<i64>)
    ensures
        final(counts)@ == sum_counts(old(counts)@, more@),
{
    let ghost start = counts@;
    let n: usize = more.len();
    let ghost keys = order::sorted_keys(more@.dom());
    let mut i: usize = 0;
    while i < n
        invariant
            i <= n,
            forall|k: Seq<char>| #[trigger]
                counts@.contains_key(k) <==> start.contains_key(k) || keys.take(
                    i as int,
                ).contains(k),
            forall|k: Seq<char>|
                counts@.contains_key(k) ==> #[trigger] counts@[k] == if keys.take(
                    i as int,
                ).contains(k) {
                    resources::clamp(resources::amount(start, k) + resources::amount(more@, k))
                } else {
                    resources::amount(start, k)
                },
        decreases n - i,
    {
        let driver = more.key_at(i);
        let extra: i64 = *more.value_at(i);
        let have: i64 = amount_in(counts, driver.as_str());
        proof {
            resources::lemma_take_next(keys, i as int);
            order::lemma_sorted_keys(keys);
            if keys.take(i as int).contains(driver@) {
                let j = choose|j: int| 0 <= j < i && keys.take(i as int)[j] == driver@;
                assert(keys[j] == keys[i as int]);
            }
        }
        counts.insert(driver.clone(), clamped_sum(have, extra));
        i += 1;
    }
    proof {
        assert(keys.take(n as int) =~= keys);
        assert forall|k: Seq<char>| keys.contains(k) == more@.contains_key(k) by {
            assert(keys.contains(k) == keys.to_set().contains(k));
        }
        assert(counts@ =~= sum_counts(start, more@));
    }
}

fn is_finished(phase: &str) -> (b: bool)
    ensures
        b == is_terminal(phase@),
{
    same_text(phase, "Succeeded") || same_text(phase, "Failed")
}

fn append_claims(ports: &mut Vec<HostPortClaim>, more: &Vec<HostPortClaim>)
    ensures
        final(ports).deep_view() == old(ports).deep_view() + more.deep_view(),
{
    let ghost start = ports.deep_view();
    let mut i: usize = 0;
    proof {
        assert(ports.deep_view() =~= start + more.deep_view().take(0));
    }
    while i < more.len()
        invariant
            i <= more@.len(),
            ports.deep_view() == start + more.deep_view().take(i as int),
        decreases more@.len() - i,
    {
        let ghost before = ports.deep_view();
        ports.push(more[i].duplicate());
        assert(ports.deep_view() =~= before.push(more@[i as int]@));
        assert(ports.deep_view() =~= start + more.deep_view().take(i + 1));
        i += 1;
    }
    assert(more.deep_view().take(i as int) =~= more.deep_view());
}

fn append_names(names: &mut Vec<String>, more: &Vec<String>)
    ensures
        final(names).deep_view() == old(names).deep_view() + more.deep_view(),
{
    let ghost start = names.deep_view();
    let mut i: usize = 0;
    proof {
        assert(names.deep_view() =~= start + more.deep_view().take(0));
    }
    while i < more.len()
        invariant
            i <= more@.len(),
            names.deep_view() == start + more.deep_view().take(i as int),
        decreases more@.len() - i,
    {
        let ghost before = names.deep_view();
        names.push(more[i].clone());
        assert(names.deep_view() =~= before.push(more@[i as int]@));
        assert(names.deep_view() =~= start + more.deep_view().take(i + 1));
        i += 1;
    }
    assert(more.deep_view().take(i as int) =~= more.deep_view());
}

impl Default for NodeTally {
    fn default() -> (t: Self)
        ensures
            t@ == NodeTallyView::none(),
    {
        NodeTally {
            index: PodIndex::new(),
            reserved_victims: StringSet::new(),
            waiters: PreemptionWaiters::new(),
            pvcs: StringMap::new(),
            pv_csi_drivers: StringMap::new(),
            sc_provisioners: StringMap::new(),
            csi_nodes: CsiNodeCache::new(),
            nodes: NodeCache::new(),
        }
    }
}

impl NodeTally {
    /// Take up what a watch event says of a pod.
    ///
    /// A pod with a node that has not finished takes up room there; what was
    /// known of it before is replaced, so that the same event twice changes
    /// nothing more. A pod that was deleted, or has finished, frees its room.
    /// Any other pod without a node changes nothing: room that was reserved
    /// for it stays reserved.
    ///
    /// Gives back each placement that waited for this pod last of all.
    pub fn apply_event(&mut self, event: &WatchEvent<PreemptionPodListItem>) -> (ready: Vec<
        (PendingPod, String),
    >)
        ensures
            final(self)@ == old(self)@.after_event(event@),
            ready.deep_view() == old(self)@.released_by(event@),
    {
        let ghost before = self@;
        let none: Vec<(PendingPod, String)> = Vec::new();
        assert(none.deep_view() =~= Seq::<(PendingPodView, Seq<char>)>::empty());
        let item = match &event.object {
            Some(item) => item,
            None => {
                return none;
            },
        };
        let name = match &item.metadata.name {
            Some(name) => name,
            None => {
                return none;
            },
        };
        if name.as_str().is_empty() {
            return none;
        }
        let namespace = namespace_of(&item.metadata.namespace);
        let key = qualified_name(namespace.as_str(), name.as_str());
        assert(key@ == key_of(item@.metadata));
        if !event.is_added_or_modified() || is_finished(item.status.phase.as_str()) {
            self.index.remove(key.as_str());
            let ready = self.waiters.resolve(key.as_str());
            assert(self@ =~= before.after_departure(key@));
            return ready;
        }
        let node_name = match &item.spec.node_name {
            Some(node_name) => node_name,
            None => {
                return none;
            },
        };
        if node_name.as_str().is_empty() {
            return none;
        }
        let bare_pvc_names = pod_claims(name.as_str(), &item.spec);
        let pvc_names = qualify_claims(namespace.as_str(), &bare_pvc_names);
        let priority: i32 = match item.spec.priority {
            Some(p) => p,
            None => 0,
        };
        let tallied = TalliedPod {
            node_name: node_name.clone(),
            labels: item.metadata.labels.duplicate(),
            priority,
            bare_pvc_names,
            requests: pod_total_requests(&item.spec),
            host_ports: container_host_ports(slice_of(&item.spec.containers)),
            pvc_names,
            namespace,
        };
        assert(tallied@ == tallied_of(item@));
        let ghost k = key@;
        self.index.insert(key, tallied);
        assert(self@ =~= before.with_pod(k, tallied_of(item@)));
        none
    }

    /// Reserve room for a pod on `node_name` the moment it is decided to place
    /// it there. `pvc_names` are claims of its own namespace.
    pub fn reserve(
        &mut self,
        namespace: &str,
        pod_name: &str,
        node_name: &str,
        priority: i32,
        requests: ResourceRequests,
        host_ports: Vec<HostPortClaim>,
        labels: StringMap<String>,
        pvc_names: Vec<String>,
    )
        ensures
            final(self)@ == old(self)@.with_pod(
                pod::qualified(namespace@, pod_name@),
                TalliedPodView {
                    node_name: node_name@,
                    namespace: namespace@,
                    labels: labels@,
                    priority,
                    bare_pvc_names: pvc_names.deep_view(),
                    requests: requests@,
                    host_ports: host_ports.deep_view(),
                    pvc_names: select::qualified_claims(namespace@, pvc_names.deep_view()),
                },
            ),
    {
        let ghost before = self@;
        let qualified = qualify_claims(namespace, &pvc_names);
        let tallied = TalliedPod {
            node_name: node_name.to_owned(),
            namespace: namespace.to_owned(),
            labels,
            priority,
            bare_pvc_names: pvc_names,
            requests,
            host_ports,
            pvc_names: qualified,
        };
        let ghost added = tallied@;
        let key = qualified_name(namespace, pod_name);
        let ghost k = key@;
        self.index.insert(key, tallied);
        assert(self@ =~= before.with_pod(k, added));
    }

    /// Reserve room for `pod` on `node_name`.
    pub fn reserve_pending(&mut self, pod: &PendingPod, node_name: &str)
        ensures
            final(self)@ == old(self)@.with_pod(
                pod::qualified(pod@.namespace, pod@.pod_name),
                reservation(pod@, node_name@),
            ),
    {
        self.reserve(
            pod.namespace.as_str(),
            pod.pod_name.as_str(),
            node_name,
            pod.priority,
            pod.requests.duplicate(),
            pod.host_ports.duplicate(),
            pod.labels.duplicate(),
            pod.pvc_names.duplicate(),
        )
    }

    /// The pods that take up room, by name and by node.
    pub fn index(&self) -> (index: &PodIndex)
        ensures
            index@ == self@.pods,
            self@.is_valid(),
    {
        proof {
            use_type_invariant(&self.index);
            use_type_invariant(&self.nodes);
            use_type_invariant(&self.csi_nodes);
        }
        &self.index
    }

    /// Free the room of a pod: it has been evicted, or placing it has failed.
    pub fn remove(&mut self, namespace: &str, pod_name: &str)
        ensures
            final(self)@ == old(self)@.without_pod(pod::qualified(namespace@, pod_name@)),
    {
        let ghost before = self@;
        let key = qualified_name(namespace, pod_name);
        self.index.remove(key.as_str());
        assert(self@ =~= before.without_pod(key@));
    }

    /// Forget all pods, all picked victims and all plans that wait; what is
    /// known of nodes and volumes stays. Gives back the keys of the pods that
    /// waited, which nothing else will ever take up.
    #[must_use]
    pub fn clear(&mut self) -> (abandoned: Vec<String>)
        ensures
            final(self)@ == (NodeTallyView {
                pods: Map::empty(),
                reserved_victims: Set::empty(),
                plans: Seq::empty(),
                ..old(self)@
            }),
            abandoned.deep_view() == waiters::waiting_keys(old(self)@.plans),
    {
        self.index = PodIndex::new();
        self.reserved_victims.clear();
        self.waiters.clear()
    }

    /// Let `pod` wait for `victims` to be gone from `node_name`.
    pub fn register_preemption_waiter(
        &mut self,
        pod: PendingPod,
        node_name: String,
        victims: &[String],
    )
        ensures
            final(self)@ == (NodeTallyView {
                plans: old(self)@.plans.push(
                    WaitingPlanView {
                        pod: pod@,
                        node_name: node_name@,
                        remaining_victims: victims.deep_view().to_set(),
                    },
                ),
                ..old(self)@
            }),
    {
        self.waiters.register(pod, node_name, victims);
    }

    /// Mark `victims` as picked by a plan: no other plan sees them any more.
    pub fn claim_victims(&mut self, victims: &[String])
        ensures
            final(self)@ == (NodeTallyView {
                reserved_victims: old(self)@.reserved_victims.union(
                    victims.deep_view().to_set(),
                ),
                ..old(self)@
            }),
    {
        let ghost before = self@;
        let ghost names = victims.deep_view();
        let mut i: usize = 0;
        while i < victims.len()
            invariant
                names == victims.deep_view(),
                i <= victims@.len(),
                self@ == (NodeTallyView { reserved_victims: self@.reserved_victims, ..before }),
                forall|k: Seq<char>| #[trigger]
                    self@.reserved_victims.contains(k) <==> before.reserved_victims.contains(k)
                        || names.take(i as int).contains(k),
            decreases victims@.len() - i,
        {
            proof {
                resources::lemma_take_next(names, i as int);
            }
            let ghost prior = self@.reserved_victims;
            self.reserved_victims.insert(victims[i].clone());
            proof {
                assert forall|k: Seq<char>| #[trigger] self@.reserved_victims.contains(k) <==>
                    before.reserved_victims.contains(k) || names.take(i + 1).contains(k) by {
                    assert(prior.contains(k) <==> before.reserved_victims.contains(k)
                        || names.take(i as int).contains(k));
                    assert(names.take(i + 1).contains(k) == (names.take(i as int).contains(k) || k
                        == names[i as int]));
                }
            }
            i += 1;
        }
        proof {
            assert(names.take(i as int) =~= names);
            assert(self@.reserved_victims =~= before.reserved_victims.union(names.to_set()));
        }
    }

    /// Undo `claim_victims`: those that are still there are visible to every
    /// plan again.
    pub fn release_victims(&mut self, victims: &[String])
        ensures
            final(self)@ == (NodeTallyView {
                reserved_victims: old(self)@.reserved_victims.difference(
                    victims.deep_view().to_set(),
                ),
                ..old(self)@
            }),
    {
        let ghost before = self@;
        let ghost names = victims.deep_view();
        let mut i: usize = 0;
        while i < victims.len()
            invariant
                names == victims.deep_view(),
                i <= victims@.len(),
                self@ == (NodeTallyView { reserved_victims: self@.reserved_victims, ..before }),
                forall|k: Seq<char>| #[trigger]
                    self@.reserved_victims.contains(k) <==> before.reserved_victims.contains(k)
                        && !names.take(i as int).contains(k),
            decreases victims@.len() - i,
        {
            proof {
                resources::lemma_take_next(names, i as int);
            }
            let ghost prior = self@.reserved_victims;
            self.reserved_victims.remove(victims[i].as_str());
            proof {
                assert forall|k: Seq<char>| #[trigger] self@.reserved_victims.contains(k) <==>
                    before.reserved_victims.contains(k) && !names.take(i + 1).contains(k) by {
                    assert(prior.contains(k) <==> before.reserved_victims.contains(k)
                        && !names.take(i as int).contains(k));
                    assert(names.take(i + 1).contains(k) == (names.take(i as int).contains(k) || k
                        == names[i as int]));
                }
            }
            i += 1;
        }
        proof {
            assert(names.take(i as int) =~= names);
            assert(self@.reserved_victims =~= before.reserved_victims.difference(names.to_set()));
        }
    }

    /// The CSI driver behind a claim.
    pub fn resolve_csi_driver(&self, namespace: &str, pvc_name: &str) -> (driver: Option<String>)
        ensures
            driver.deep_view() == self@.driver_of(namespace@, pvc_name@),
    {
        let key = pvc_key(namespace, pvc_name);
        let pvc = match self.pvcs.get(key.as_str()) {
            Some(pvc) => pvc,
            None => {
                return None;
            },
        };
        if !pvc.volume_name.as_str().is_empty() {
            if let Some(driver) = self.pv_csi_drivers.get(pvc.volume_name.as_str()) {
                return Some(driver.clone());
            }
        }
        match &pvc.storage_class_name {
            Some(class) => match self.sc_provisioners.get(class.as_str()) {
                Some(driver) => Some(driver.clone()),
                None => None,
            },
            None => None,
        }
    }

    /// How many volumes of each CSI driver the claims come to. A claim that
    /// occurs twice is one volume.
    pub fn csi_volume_counts_for(&self, namespace: &str, pvc_names: &[String]) -> (counts:
        StringMap<i64>)
        ensures
            counts@ == self@.volume_counts(namespace@, pvc_names.deep_view()),
    {
        let names = distinct_claims(pvc_names);
        let ghost listed = names.deep_view();
        let mut drivers: Vec<Option<String>> = Vec::new();
        let mut i: usize = 0;
        while i < names.len()
            invariant
                listed == names.deep_view(),
                i <= names@.len(),
                drivers@.len() == i,
                forall|j: int|
                    0 <= j < i ==> (#[trigger] drivers@[j]).deep_view() == self@.driver_of(
                        namespace@,
                        listed[j],
                    ),
            decreases names@.len() - i,
        {
            drivers.push(self.resolve_csi_driver(namespace, names[i].as_str()));
            i += 1;
        }
        assert(drivers.deep_view() =~= self@.drivers_of(namespace@, listed));
        count_by_driver(&drivers)
    }

    /// What the pods `keys` take up together.
    fn usage_of_keys(&self, keys: &StringSet) -> (usage: NodeUsage)
        requires
            forall|k: Seq<char>| #[trigger] keys@.contains(k) ==> self@.pods.contains_key(k),
        ensures
            usage@ == self@.usage_of(order::sorted_keys(keys@)),
    {
        let n: usize = keys.len();
        let ghost all = order::sorted_keys(keys@);
        let mut pod_count: u32 = 0;
        let mut requests = ResourceRequests::default();
        let mut host_ports: Vec<HostPortClaim> = Vec::new();
        let mut pvc_names: Vec<String> = Vec::new();
        let mut csi_attached_counts: StringMap<i64> = StringMap::new();
        let mut i: usize = 0;
        proof {
            assert(all.take(0) =~= Seq::empty());
            assert(host_ports.deep_view() =~= Seq::empty());
            assert(pvc_names.deep_view() =~= Seq::empty());
        }
        while i < n
            invariant
                n == keys@.len(),
                n == all.len(),
                all == order::sorted_keys(keys@),
                forall|k: Seq<char>| #[trigger] keys@.contains(k) ==> self@.pods.contains_key(k),
                i <= n,
                pod_count == self@.usage_of(all.take(i as int)).pod_count,
                requests@ == self@.usage_of(all.take(i as int)).requests,
                host_ports.deep_view() == self@.usage_of(all.take(i as int)).host_ports,
                pvc_names.deep_view() == self@.usage_of(all.take(i as int)).pvc_names,
                csi_attached_counts@ == self@.usage_of(all.take(i as int)).csi_attached_counts,
            decreases n - i,
        {
            let key = keys.at(i);
            proof {
                assert(all.take(i + 1).drop_last() =~= all.take(i as int));
                assert(all.take(i + 1).last() == key@);
            }
            if let Some(p) = self.index.get(key.as_str()) {
                if pod_count < u32::MAX {
                    pod_count += 1;
                }
                requests = requests.plus(&p.requests);
                append_claims(&mut host_ports, &p.host_ports);
                append_names(&mut pvc_names, &p.pvc_names);
                let counts = self.csi_volume_counts_for(
                    p.namespace.as_str(),
                    slice_of(&p.bare_pvc_names),
                );
                accumulate_counts(&mut csi_attached_counts, &counts);
            }
            i += 1;
        }
        assert(all.take(i as int) =~= all);
        let usage = NodeUsage { pod_count, requests, host_ports, pvc_names, csi_attached_counts };
        assert(usage@ =~= self@.usage_of(all));
        usage
    }

    /// What is taken up on each node that has pods. Victims that a plan has
    /// picked count as long as they are there.
    pub fn usage_by_node(&self) -> (usage: StringMap<NodeUsage>)
        ensures
            usage@ == self@.usage(),
            self@.is_valid(),
    {
        proof {
            use_type_invariant(&self.index);
            use_type_invariant(&self.nodes);
            use_type_invariant(&self.csi_nodes);
        }
        let mut usage: StringMap<NodeUsage> = StringMap::new();
        let n: usize = self.index.node_count();
        let ghost nodes = self.index.nodes();
        let ghost pods = self@.pods;
        let mut i: usize = 0;
        while i < n
            invariant
                n == nodes.len(),
                nodes == self.index.nodes(),
                pods == self@.pods,
                i <= n,
                forall|node: Seq<char>| #[trigger]
                    usage@.contains_key(node) <==> nodes.take(i as int).contains(node)
                        && exists|k: Seq<char>| index::on_node(pods, node).contains(k),
                forall|node: Seq<char>|
                    usage@.contains_key(node) ==> #[trigger] usage@[node] == self@.usage_on(node),
            decreases n - i,
        {
            let (node, keys) = self.index.node_at(i);
            let ghost before = usage@;
            proof {
                resources::lemma_take_next(nodes, i as int);
            }
            if !keys.is_empty() {
                proof {
                    assert(exists|k: Seq<char>| keys@.contains(k));
                }
                let entry = self.usage_of_keys(keys);
                usage.insert(node.clone(), entry);
            }
            proof {
                assert forall|m: Seq<char>| #[trigger] usage@.contains_key(m) <==> nodes.take(
                    i + 1,
                ).contains(m) && exists|k: Seq<char>| index::on_node(pods, m).contains(k) by {
                    assert(nodes.take(i + 1).contains(m) == (nodes.take(i as int).contains(m) || m
                        == nodes[i as int]));
                    assert(before.contains_key(m) <==> nodes.take(i as int).contains(m)
                        && exists|k: Seq<char>| index::on_node(pods, m).contains(k));
                    if m == node@ {
                        assert(index::on_node(pods, m) == keys@);
                    }
                }
            }
            i += 1;
        }
        proof {
            assert(nodes.take(n as int) =~= nodes);
            assert forall|m: Seq<char>| #[trigger] usage@.contains_key(m)
                == self@.usage().contains_key(m) by {
                if exists|k: Seq<char>| index::on_node(pods, m).contains(k) {
                    let k = choose|k: Seq<char>| index::on_node(pods, m).contains(k);
                    assert(self.index@.contains_key(k));
                    assert(nodes.contains(m));
                }
            }
            assert(usage@ =~= self@.usage());
        }
        usage
    }

    /// How many volumes of each CSI driver are attached to a node.
    pub fn csi_attached_counts(&self, node_name: &str) -> (counts: StringMap<i64>)
        ensures
            counts@ == self@.usage_on(node_name@).csi_attached_counts,
    {
        match self.index.keys_on(node_name) {
            Some(keys) => self.usage_of_keys(keys).csi_attached_counts,
            None => {
                proof {
                    order::lemma_sorted_keys(Seq::empty());
                    assert(Seq::<Seq<char>>::empty().to_set() =~= Set::<Seq<char>>::empty());
                }
                StringMap::new()
            },
        }
    }

    /// How many volumes of each driver can be attached, by node.
    pub fn csi_driver_limits_by_node(&self) -> (limits: StringMap<StringMap<i64>>)
        ensures
            limits@ == self@.csi_node_limits,
            self@.is_valid(),
    {
        proof {
            use_type_invariant(&self.index);
            use_type_invariant(&self.nodes);
            use_type_invariant(&self.csi_nodes);
        }
        self.csi_nodes.copy_limits()
    }

    /// The CSI drivers that run, by node.
    pub fn csi_driver_names_by_node(&self) -> (names: StringMap<StringSet>)
        ensures
            names@ == self@.csi_node_drivers,
            self@.is_valid(),
    {
        proof {
            use_type_invariant(&self.index);
            use_type_invariant(&self.nodes);
            use_type_invariant(&self.csi_nodes);
        }
        self.csi_nodes.copy_drivers()
    }

    /// Take up what a watch event says of a claim.
    pub fn apply_pvc_event(&mut self, event: &WatchEvent<PvcObject>)
        ensures
            final(self)@ == old(self)@.after_pvc_event(event@),
    {
        let pvc = match &event.object {
            Some(pvc) => pvc,
            None => {
                return;
            },
        };
        let name = match &pvc.metadata.name {
            Some(name) => name,
            None => {
                return;
            },
        };
        if name.as_str().is_empty() {
            return;
        }
        let namespace = namespace_of(&pvc.metadata.namespace);
        let key = pvc_key(namespace.as_str(), name.as_str());
        if !event.is_added_or_modified() {
            self.pvcs.remove(key.as_str());
        } else {
            let info = PvcVolumeInfo {
                volume_name: pvc.spec.volume_name.clone(),
                storage_class_name: pvc.spec.storage_class_name.duplicate(),
            };
            self.pvcs.insert(key, info);
        }
    }

    /// Take up what a watch event says of a volume.
    pub fn apply_pv_event(&mut self, event: &WatchEvent<PvObject>)
        ensures
            final(self)@ == old(self)@.after_pv_event(event@),
    {
        let pv = match &event.object {
            Some(pv) => pv,
            None => {
                return;
            },
        };
        let name = match &pv.metadata.name {
            Some(name) => name,
            None => {
                return;
            },
        };
        if name.as_str().is_empty() {
            return;
        }
        if event.is_added_or_modified() {
            if let Some(csi) = &pv.spec.csi {
                if !csi.driver.as_str().is_empty() {
                    self.pv_csi_drivers.insert(name.clone(), csi.driver.clone());
                    return;
                }
            }
        }
        self.pv_csi_drivers.remove(name.as_str());
    }

    /// Take up what a watch event says of a storage class.
    pub fn apply_storage_class_event(&mut self, event: &WatchEvent<StorageClassObject>)
        ensures
            final(self)@ == old(self)@.after_storage_class_event(event@),
    {
        let class = match &event.object {
            Some(class) => class,
            None => {
                return;
            },
        };
        let name = match &class.metadata.name {
            Some(name) => name,
            None => {
                return;
            },
        };
        if name.as_str().is_empty() {
            return;
        }
        if event.is_added_or_modified() && !class.provisioner.as_str().is_empty() {
            self.sc_provisioners.insert(name.clone(), class.provisioner.clone());
        } else {
            self.sc_provisioners.remove(name.as_str());
        }
    }

    /// Take up what a watch event says of the CSI drivers of a node.
    pub fn apply_csi_node_event(&mut self, event: &WatchEvent<CsiNodeItem>)
        ensures
            final(self)@ == old(self)@.after_csi_node_event(event@),
    {
        let item = match &event.object {
            Some(item) => item,
            None => {
                return;
            },
        };
        let name = &item.metadata.name;
        if name.as_str().is_empty() {
            return;
        }
        if !event.is_added_or_modified() {
            self.csi_nodes.remove(name.as_str());
            return;
        }
        let limits = read_limits(&item.spec.drivers);
        let names = read_names(&item.spec.drivers);
        proof {
            lemma_limits_are_named(item@.spec.drivers);
        }
        self.csi_nodes.insert(name.clone(), limits, names);
    }

    /// Forget all claims.
    pub fn clear_pvc_cache(&mut self)
        ensures
            final(self)@ == (NodeTallyView { pvcs: Map::empty(), ..old(self)@ }),
    {
        self.pvcs.clear();
    }

    /// Forget all volumes.
    pub fn clear_pv_cache(&mut self)
        ensures
            final(self)@ == (NodeTallyView { pv_csi_drivers: Map::empty(), ..old(self)@ }),
    {
        self.pv_csi_drivers.clear();
    }

    /// Forget all storage classes.
    pub fn clear_storage_class_cache(&mut self)
        ensures
            final(self)@ == (NodeTallyView { sc_provisioners: Map::empty(), ..old(self)@ }),
    {
        self.sc_provisioners.clear();
    }

    /// Forget the CSI drivers of all nodes.
    pub fn clear_csi_node_cache(&mut self)
        ensures
            final(self)@ == (NodeTallyView {
                csi_node_limits: Map::empty(),
                csi_node_drivers: Map::empty(),
                ..old(self)@
            }),
    {
        self.csi_nodes = CsiNodeCache::new();
    }

    /// Take up what a watch event says of a node.
    pub fn apply_node_event(&mut self, event: &WatchEvent<NodeItem>)
        ensures
            final(self)@ == old(self)@.after_node_event(event@),
    {
        let item = match &event.object {
            Some(item) => item,
            None => {
                return;
            },
        };
        let name = item.metadata.name.as_str();
        if name.is_empty() {
            return;
        }
        if event.is_added_or_modified() {
            self.nodes.insert(item.duplicate());
        } else {
            self.nodes.remove(name);
        }
    }

    /// Forget all nodes.
    pub fn clear_node_cache(&mut self)
        ensures
            final(self)@ == (NodeTallyView { nodes: Map::empty(), ..old(self)@ }),
    {
        self.nodes = NodeCache::new();
    }

    /// The node of this name.
    pub fn node(&self, node_name: &str) -> (r: Option<NodeItem>)
        ensures
            r is Some == self@.nodes.contains_key(node_name@),
            r matches Some(item) ==> item@ == self@.nodes[node_name@] && item@.metadata.name
                == node_name@,
            self@.is_valid(),
    {
        proof {
            use_type_invariant(&self.index);
            use_type_invariant(&self.nodes);
            use_type_invariant(&self.csi_nodes);
        }
        match self.nodes.get(node_name) {
            Some(item) => Some(item.duplicate()),
            None => None,
        }
    }

    /// All nodes, in the order of their names.
    pub fn node_list(&self) -> (list: NodeList)
        ensures
            list@.items == self@.node_items(),
            self@.is_valid(),
    {
        proof {
            use_type_invariant(&self.index);
            use_type_invariant(&self.nodes);
            use_type_invariant(&self.csi_nodes);
        }
        let n: usize = self.nodes.len();
        let ghost names = order::sorted_keys(self@.nodes.dom());
        let mut items: Vec<NodeItem> = Vec::new();
        let mut i: usize = 0;
        while i < n
            invariant
                n == names.len(),
                names == order::sorted_keys(self@.nodes.dom()),
                i <= n,
                items@.len() == i,
                forall|j: int| 0 <= j < i ==> (#[trigger] items@[j])@ == self@.nodes[names[j]],
            decreases n - i,
        {
            items.push(self.nodes.at(i).duplicate());
            i += 1;
        }
        assert(items.deep_view() =~= self@.node_items());
        NodeList { items }
    }

    /// The pods of a node that may have to make room: those that no plan has
    /// picked as a victim already.
    pub fn pods_on(&self, node_name: &str) -> (pods: Vec<NodePod>)
        ensures
            pods.deep_view() == self@.node_pods(node_name@),
            self@.is_valid(),
    {
        proof {
            use_type_invariant(&self.index);
            use_type_invariant(&self.nodes);
            use_type_invariant(&self.csi_nodes);
        }
        let mut pods: Vec<NodePod> = Vec::new();
        assert(pods.deep_view() =~= Seq::<NodePodView>::empty());
        let keys = match self.index.keys_on(node_name) {
            Some(keys) => keys,
            None => {
                proof {
                    order::lemma_sorted_keys(Seq::empty());
                    assert(Seq::<Seq<char>>::empty().to_set() =~= Set::<Seq<char>>::empty());
                }
                return pods;
            },
        };
        let n: usize = keys.len();
        let ghost all = order::sorted_keys(keys@);
        let mut i: usize = 0;
        proof {
            assert(all.take(0) =~= Seq::empty());
        }
        while i < n
            invariant
                n == keys@.len(),
                n == all.len(),
                all == order::sorted_keys(keys@),
                keys@ == index::on_node(self@.pods, node_name@),
                i <= n,
                pods.deep_view() == self@.unclaimed(all.take(i as int)),
            decreases n - i,
        {
            let key = keys.at(i);
            let ghost before = pods.deep_view();
            proof {
                assert(all.take(i + 1).drop_last() =~= all.take(i as int));
                assert(all.take(i + 1).last() == key@);
            }
            if !self.reserved_victims.contains(key.as_str()) {
                if let Some(p) = self.index.get(key.as_str()) {
                    let pod = NodePod {
                        key: key.clone(),
                        priority: p.priority,
                        requests: p.requests.duplicate(),
                        pvc_names: p.pvc_names.duplicate(),
                    };
                    let ghost added = pod@;
                    pods.push(pod);
                    assert(pods.deep_view() =~= before.push(added));
                    assert(added == self@.node_pod(key@));
                }
            }
            i += 1;
        }
        assert(all.take(i as int) =~= all);
        pods
    }

    /// Whether the claims `claims` are used by no pod but the pod `key` itself
    /// and, where a node is given, those on it that no plan has picked as a
    /// victim.
    #[verifier::loop_isolation(false)]
    pub fn claims_free_beside(&self, key: &str, node: Option<&str>, claims: &[String]) -> (b: bool)
        ensures
            b == self@.claims_free_beside(key@, node.deep_view(), claims.deep_view()),
    {
        let n: usize = self.index.len();
        let ghost keys = order::sorted_keys(self@.pods.dom());
        let mut i: usize = 0;
        while i < n
            invariant
                i <= n,
                forall|j: int|
                    0 <= j < i && self@.holds_against(key@, node.deep_view(), #[trigger] keys[j])
                        ==> node::claims_unused(
                        self@.pods[keys[j]].pvc_names,
                        claims.deep_view(),
                    ),
            decreases n - i,
        {
            let k = self.index.key_at(i);
            let p = self.index.pod_at(i);
            let elsewhere = match node {
                Some(name) => !same_text(p.node_name.as_str(), name),
                None => true,
            };
            let held = !same_text(k.as_str(), key) && (elsewhere || self.reserved_victims.contains(
                k.as_str(),
            ));
            assert(held == self@.holds_against(key@, node.deep_view(), k@));
            if held && !read_write_once_pod_conflict_free(slice_of(&p.pvc_names), claims) {
                assert(self@.pods.contains_key(k@));
                return false;
            }
            i += 1;
        }
        proof {
            assert forall|k: Seq<char>| #[trigger]
                self@.pods.contains_key(k) && self@.holds_against(
                    key@,
                    node.deep_view(),
                    k,
                ) implies node::claims_unused(self@.pods[k].pvc_names, claims.deep_view()) by {
                assert(keys.to_set().contains(k));
                let j = choose|j: int| 0 <= j < keys.len() && keys[j] == k;
                assert(self@.pods[keys[j]] == self@.pods[k]);
            }
        }
        true
    }

    /// Where each pod runs and how it is labelled. Victims that a plan has
    /// picked count as long as they are there.
    pub fn tallied_pod_labels(&self) -> (labels: Vec<TalliedPodLabels>)
        ensures
            labels.deep_view() == self@.labels(),
            self@.is_valid(),
    {
        proof {
            use_type_invariant(&self.index);
            use_type_invariant(&self.nodes);
            use_type_invariant(&self.csi_nodes);
        }
        let n: usize = self.index.len();
        let ghost keys = order::sorted_keys(self@.pods.dom());
        let ghost want = self@.labels();
        let mut labels: Vec<TalliedPodLabels> = Vec::new();
        let mut i: usize = 0;
        while i < n
            invariant
                n == keys.len(),
                keys == order::sorted_keys(self@.pods.dom()),
                keys == order::sorted_keys(self.index@.dom()),
                self@.pods == self.index@,
                want == self@.labels(),
                i <= n,
                labels@.len() == i,
                forall|j: int| 0 <= j < i ==> (#[trigger] labels@[j])@ == want[j],
            decreases n - i,
        {
            let key = self.index.key_at(i);
            let p = self.index.pod_at(i);
            labels.push(
                TalliedPodLabels {
                    key: key.clone(),
                    node_name: p.node_name.clone(),
                    namespace: p.namespace.clone(),
                    labels: p.labels.duplicate(),
                },
            );
            i += 1;
        }
        assert(labels.deep_view() =~= want);
        labels
    }
}

/// A tally starts out valid.
pub proof fn law_empty_tally_is_valid()
    ensures
        NodeTallyView::none().is_valid(),
{
}

/// Whatever becomes of a pod keeps a tally valid: an event, a reservation, its
/// removal, and plans that pick it or release it.
pub proof fn law_pod_changes_keep_the_tally_valid(
    t: NodeTallyView,
    event: WatchEventView<PreemptionPodListItemView>,
    pod: PendingPodView,
    node: Seq<char>,
    key: Seq<char>,
    reserved: Set<Seq<char>>,
    plans: Seq<WaitingPlanView>,
)
    requires
        t.is_valid(),
    ensures
        t.after_event(event).is_valid(),
        t.with_pod(key, reservation(pod, node)).is_valid(),
        t.without_pod(key).is_valid(),
        (NodeTallyView { reserved_victims: reserved, plans, ..t }).is_valid(),
        (NodeTallyView { pods: Map::empty(), reserved_victims: reserved, plans, ..t }).is_valid(),
{
}

/// Whatever is learnt of nodes and of volumes, or forgotten, keeps a tally
/// valid.
pub proof fn law_cache_changes_keep_the_tally_valid(
    t: NodeTallyView,
    node_event: WatchEventView<NodeItemView>,
    csi_event: WatchEventView<CsiNodeItemView>,
    pvc_event: WatchEventView<PvcObjectView>,
    pv_event: WatchEventView<PvObjectView>,
    class_event: WatchEventView<StorageClassObjectView>,
)
    requires
        t.is_valid(),
    ensures
        t.after_node_event(node_event).is_valid(),
        t.after_csi_node_event(csi_event).is_valid(),
        t.after_pvc_event(pvc_event).is_valid(),
        t.after_pv_event(pv_event).is_valid(),
        t.after_storage_class_event(class_event).is_valid(),
        (NodeTallyView { nodes: Map::empty(), ..t }).is_valid(),
        (NodeTallyView {
            csi_node_limits: Map::empty(),
            csi_node_drivers: Map::empty(),
            ..t
        }).is_valid(),
        (NodeTallyView { pvcs: Map::empty(), ..t }).is_valid(),
        (NodeTallyView { pv_csi_drivers: Map::empty(), ..t }).is_valid(),
        (NodeTallyView { sc_provisioners: Map::empty(), ..t }).is_valid(),
{
    if csi_event.object is Some {
        lemma_limits_are_named(csi_event.object->0.spec.drivers);
    }
}

/// Handling an event for a pod twice is the same as handling it once, and the
/// second time no placement is released again.
pub proof fn law_replayed_event_changes_nothing(
    t: NodeTallyView,
    event: WatchEventView<PreemptionPodListItemView>,
)
    ensures
        t.after_event(event).after_event(event) == t.after_event(event),
        t.after_event(event).released_by(event) == Seq::<(PendingPodView, Seq<char>)>::empty(),
{
    if NodeTallyView::shows_presence(event) {
        let key = key_of(event.object->0.metadata);
        assert(t.after_event(event).after_event(event).pods =~= t.after_event(event).pods);
    } else if NodeTallyView::shows_departure(event) {
        let key = key_of(event.object->0.metadata);
        let once = t.after_event(event);
        assert(once.pods.remove(key) =~= once.pods);
        lemma_waiting_plans_settle(t.plans, key);
        assert(once.released_by(event) =~= Seq::<(PendingPodView, Seq<char>)>::empty());
    }
}

proof fn lemma_waiting_plans_settle(plans: Seq<WaitingPlanView>, key: Seq<char>)
    ensures
        waiters::waiting_plans(waiters::waiting_plans(plans, key), key) == waiters::waiting_plans(
            plans,
            key,
        ),
        waiters::ready_plans(waiters::waiting_plans(plans, key), key).len() == 0,
    decreases plans.len(),
{
    let kept = waiters::waiting_plans(plans, key);
    assert forall|i: int| 0 <= i < kept.len() implies !(
    #[trigger] kept[i]).remaining_victims.contains(key) && !kept[i].is_ready() by {
        lemma_waiting_plan(plans, key, i);
    }
    waiters::law_unrelated_removal_changes_nothing(kept, key);
}

proof fn lemma_waiting_plan(plans: Seq<WaitingPlanView>, key: Seq<char>, i: int)
    requires
        0 <= i < waiters::waiting_plans(plans, key).len(),
    ensures
        !waiters::waiting_plans(plans, key)[i].remaining_victims.contains(key),
        !waiters::waiting_plans(plans, key)[i].is_ready(),
    decreases plans.len(),
{
    let front = plans.drop_last();
    let before = waiters::waiting_plans(front, key);
    if i < before.len() {
        lemma_waiting_plan(front, key, i);
    }
}

/// Taking a reservation back restores the tally, where the pod was not in it
/// before.
pub proof fn law_remove_undoes_reserve(
    t: NodeTallyView,
    key: Seq<char>,
    pod: TalliedPodView,
)
    requires
        !t.pods.contains_key(key),
    ensures
        t.with_pod(key, pod).without_pod(key) == t,
{
    assert(t.with_pod(key, pod).without_pod(key).pods =~= t.pods);
    assert(t.with_pod(key, pod).without_pod(key) =~= t);
}

/// A pod that is not bound yet, and has not finished, does not lose its
/// reservation to an event.
pub proof fn law_unbound_pod_keeps_its_reservation(
    t: NodeTallyView,
    event: WatchEventView<PreemptionPodListItemView>,
)
    requires
        pod::is_upsert(event.event_type),
        event.object is Some,
        pod::text_or_empty(event.object->0.spec.node_name).len() == 0,
        !is_terminal(event.object->0.status.phase),
    ensures
        t.after_event(event) == t,
        t.released_by(event).len() == 0,
{
}

/// A pod that was deleted, or has finished, takes up no room.
pub proof fn law_departed_pod_takes_no_room(
    t: NodeTallyView,
    event: WatchEventView<PreemptionPodListItemView>,
    node: Seq<char>,
)
    requires
        NodeTallyView::shows_departure(event),
    ensures
        !t.after_event(event).pods.contains_key(key_of(event.object->0.metadata)),
        !index::on_node(t.after_event(event).pods, node).contains(
            key_of(event.object->0.metadata),
        ),
{
}

/// An event for one pod leaves all others as they are, and what is known of
/// nodes and volumes.
pub proof fn law_event_touches_one_pod(
    t: NodeTallyView,
    event: WatchEventView<PreemptionPodListItemView>,
    other: Seq<char>,
)
    requires
        event.object is Some ==> other != key_of(event.object->0.metadata),
    ensures
        t.after_event(event).pods.contains_key(other) == t.pods.contains_key(other),
        t.pods.contains_key(other) ==> t.after_event(event).pods[other] == t.pods[other],
        t.after_event(event) == (NodeTallyView {
            pods: t.after_event(event).pods,
            plans: t.after_event(event).plans,
            ..t
        }),
{
}

/// Releasing the victims of a plan that had none of them before undoes its
/// claim.
pub proof fn law_release_undoes_claim(reserved: Set<Seq<char>>, victims: Seq<Seq<char>>)
    requires
        forall|i: int| 0 <= i < victims.len() ==> !reserved.contains(#[trigger] victims[i]),
    ensures
        reserved.union(victims.to_set()).difference(victims.to_set()) == reserved,
{
    assert forall|k: Seq<char>| reserved.union(victims.to_set()).difference(
        victims.to_set(),
    ).contains(k) == reserved.contains(k) by {
        if victims.to_set().contains(k) {
            let i = choose|i: int| 0 <= i < victims.len() && victims[i] == k;
            assert(!reserved.contains(victims[i]));
        }
    }
    assert(reserved.union(victims.to_set()).difference(victims.to_set()) =~= reserved);
}

proof fn lemma_unclaimed_holds(t: NodeTallyView, keys: Seq<Seq<char>>, i: int)
    requires
        0 <= i < t.unclaimed(keys).len(),
    ensures
        keys.contains(t.unclaimed(keys)[i].key),
        !t.reserved_victims.contains(t.unclaimed(keys)[i].key),
        t.unclaimed(keys)[i] == t.node_pod(t.unclaimed(keys)[i].key),
    decreases keys.len(),
{
    let front = keys.drop_last();
    let before = t.unclaimed(front);
    if i < before.len() {
        lemma_unclaimed_holds(t, front, i);
        let j = choose|j: int| 0 <= j < front.len() && front[j] == before[i].key;
        assert(keys[j] == before[i].key);
    } else {
        assert(keys[keys.len() - 1] == keys.last());
    }
}

/// A pod that a plan has picked as its victim is no candidate of another
/// plan, while it still counts as taking up room and with its labels.
pub proof fn law_claimed_victims_are_hidden_but_counted(
    t: NodeTallyView,
    claimed: Set<Seq<char>>,
    node: Seq<char>,
)
    ensures
        ({
            let after = NodeTallyView {
                reserved_victims: t.reserved_victims.union(claimed),
                ..t
            };
            &&& after.usage() == t.usage()
            &&& after.labels() == t.labels()
            &&& forall|i: int|
                0 <= i < after.node_pods(node).len() ==> !claimed.contains(
                    (#[trigger] after.node_pods(node)[i]).key,
                )
        }),
{
    let after = NodeTallyView { reserved_victims: t.reserved_victims.union(claimed), ..t };
    assert forall|keys: Seq<Seq<char>>| #[trigger] after.usage_of(keys) == t.usage_of(keys) by {
        lemma_usage_ignores_claims(t, after, keys);
    }
    assert(after.usage() =~= t.usage());
    assert(after.labels() =~= t.labels());
    assert forall|i: int| 0 <= i < after.node_pods(node).len() implies !claimed.contains(
        (#[trigger] after.node_pods(node)[i]).key,
    ) by {
        lemma_unclaimed_holds(after, after.keys_on(node), i);
    }
}

proof fn lemma_usage_ignores_claims(a: NodeTallyView, b: NodeTallyView, keys: Seq<Seq<char>>)
    requires
        b == (NodeTallyView { reserved_victims: b.reserved_victims, ..a }),
    ensures
        a.usage_of(keys) == b.usage_of(keys),
    decreases keys.len(),
{
    if keys.len() > 0 {
        lemma_usage_ignores_claims(a, b, keys.drop_last());
        let p = a.pods[keys.last()];
        let names = volumes::distinct(p.bare_pvc_names);
        assert forall|n: Seq<char>| #[trigger] a.driver_of(p.namespace, n) == b.driver_of(
            p.namespace,
            n,
        ) by {}
        assert(a.drivers_of(p.namespace, names) =~= b.drivers_of(p.namespace, names));
    }
}

/// Dropping all pods leaves nothing taken up on any node.
pub proof fn law_cleared_tally_is_unused(t: NodeTallyView)
    requires
        t.pods == Map::<Seq<char>, TalliedPodView>::empty(),
    ensures
        t.usage() == Map::<Seq<char>, NodeUsageView>::empty(),
        t.labels().len() == 0,
{
    assert forall|n: Seq<char>, k: Seq<char>| !index::on_node(t.pods, n).contains(k) by {}
    assert(t.usage() =~= Map::<Seq<char>, NodeUsageView>::empty());
    order::lemma_sorted_keys(Seq::empty());
    assert(Seq::<Seq<char>>::empty().to_set() =~= t.pods.dom());
}

/// A pod that was added or modified, has a node and has not finished is in the
/// tally with all that it takes up there.
pub proof fn law_placed_pod_takes_up_its_room(
    t: NodeTallyView,
    event: WatchEventView<PreemptionPodListItemView>,
    namespace: Seq<char>,
    key: Seq<char>,
)
    requires
        event.event_type == "ADDED"@ || event.event_type == "MODIFIED"@,
        event.object is Some,
        event.object->0.metadata.name is Some,
        event.object->0.metadata.name->0.len() > 0,
        event.object->0.spec.node_name is Some,
        event.object->0.spec.node_name->0.len() > 0,
        event.object->0.status.phase != "Succeeded"@,
        event.object->0.status.phase != "Failed"@,
        event.object->0.metadata.namespace is Some ==> namespace
            == event.object->0.metadata.namespace->0,
        event.object->0.metadata.namespace is None ==> namespace == "default"@,
        key == namespace + "/"@ + event.object->0.metadata.name->0,
    ensures
        ({
            let item = event.object->0;
            let after = t.after_event(event);
            &&& after.pods.contains_key(key)
            &&& after.pods[key].node_name == item.spec.node_name->0
            &&& after.pods[key].namespace == namespace
            &&& after.pods[key].labels == item.metadata.labels
            &&& item.spec.priority is Some ==> after.pods[key].priority == item.spec.priority->0
            &&& item.spec.priority is None ==> after.pods[key].priority == 0
            &&& after.pods[key].requests == container::pod_requests(
                item.spec.containers,
                item.spec.overhead,
            )
            &&& after.pods[key].host_ports == container::container_claims(item.spec.containers)
            &&& item.spec.volumes is Some ==> after.pods[key].bare_pvc_names == pod::claim_names(
                item.metadata.name->0,
                item.spec.volumes->0,
            )
            &&& forall|i: int|
                0 <= i < after.pods[key].pvc_names.len() ==> #[trigger] after.pods[key].pvc_names[i]
                    == namespace + "/"@ + after.pods[key].bare_pvc_names[i]
            &&& after.pods[key].pvc_names.len() == after.pods[key].bare_pvc_names.len()
            &&& t.released_by(event).len() == 0
        }),
{
}

/// A pod that was deleted, or was added or modified with the phase `Succeeded`
/// or `Failed`, is gone from the tally, whether it had a node or not; and the
/// plans that waited for it alone are ready.
pub proof fn law_gone_pod_frees_its_room(
    t: NodeTallyView,
    event: WatchEventView<PreemptionPodListItemView>,
)
    requires
        event.event_type == "DELETED"@ || event.object is Some && (event.object->0.status.phase
            == "Succeeded"@ || event.object->0.status.phase == "Failed"@),
        event.object is Some,
        event.object->0.metadata.name is Some,
        event.object->0.metadata.name->0.len() > 0,
    ensures
        ({
            let item = event.object->0;
            let namespace = if item.metadata.namespace is Some {
                item.metadata.namespace->0
            } else {
                "default"@
            };
            let key = namespace + "/"@ + item.metadata.name->0;
            &&& !t.after_event(event).pods.contains_key(key)
            &&& forall|k: Seq<char>|
                k != key ==> #[trigger] t.after_event(event).pods.contains_key(k)
                    == t.pods.contains_key(k)
            &&& t.released_by(event) == waiters::ready_plans(t.plans, key)
            &&& t.after_event(event).plans == waiters::waiting_plans(t.plans, key)
        }),
{
    reveal_strlit("DELETED");
    reveal_strlit("ADDED");
    reveal_strlit("MODIFIED");
    assert("DELETED"@.len() == 7 && "ADDED"@.len() == 5 && "MODIFIED"@.len() == 8);
}

/// A pod that was added or modified without a node and has not finished changes
/// nothing: room that was reserved for it stays reserved. Neither does an
/// event without an object, or for a pod without a name.
pub proof fn law_waiting_pod_changes_nothing(
    t: NodeTallyView,
    event: WatchEventView<PreemptionPodListItemView>,
)
    requires
        event.object is None || event.object->0.metadata.name is None
            || event.object->0.metadata.name->0.len() == 0 || ((event.event_type == "ADDED"@
            || event.event_type == "MODIFIED"@) && (event.object->0.spec.node_name is None
            || event.object->0.spec.node_name->0.len() == 0) && event.object->0.status.phase
            != "Succeeded"@ && event.object->0.status.phase != "Failed"@),
    ensures
        t.after_event(event) == t,
        t.released_by(event).len() == 0,
{
}

/// A reservation is in the tally with all that the pod asks for.
pub proof fn law_reservation_holds_all_that_is_asked_for(pod: PendingPodView, node: Seq<char>)
    ensures
        ({
            let r = reservation(pod, node);
            &&& r.node_name == node
            &&& r.namespace == pod.namespace
            &&& r.labels == pod.labels
            &&& r.priority == pod.priority
            &&& r.requests == pod.requests
            &&& r.host_ports == pod.host_ports
            &&& r.bare_pvc_names == pod.pvc_names
            &&& r.pvc_names.len() == pod.pvc_names.len()
            &&& forall|i: int|
                0 <= i < r.pvc_names.len() ==> #[trigger] r.pvc_names[i] == pod.namespace + "/"@
                    + pod.pvc_names[i]
        }),
{
}

/// The driver behind a claim is that of the volume that it is bound to, where
/// that volume has one; else the provisioner of its storage class; and none
/// where neither is known, or the claim is not.
pub proof fn law_driver_behind_a_claim(t: NodeTallyView, namespace: Seq<char>, name: Seq<char>)
    ensures
        ({
            let key = namespace + "/"@ + name;
            let info = t.pvcs[key];
            let driver = t.driver_of(namespace, name);
            &&& !t.pvcs.contains_key(key) ==> driver is None
            &&& t.pvcs.contains_key(key) && info.volume_name.len() > 0
                && t.pv_csi_drivers.contains_key(info.volume_name) ==> driver == Some(
                t.pv_csi_drivers[info.volume_name],
            )
            &&& t.pvcs.contains_key(key) && (info.volume_name.len() == 0
                || !t.pv_csi_drivers.contains_key(info.volume_name)) && info.storage_class_name
                is Some && t.sc_provisioners.contains_key(info.storage_class_name->0) ==> driver
                == Some(t.sc_provisioners[info.storage_class_name->0])
            &&& t.pvcs.contains_key(key) && (info.volume_name.len() == 0
                || !t.pv_csi_drivers.contains_key(info.volume_name)) && (info.storage_class_name
                is None || !t.sc_provisioners.contains_key(info.storage_class_name->0))
                ==> driver is None
        }),
{
}

proof fn lemma_limit_listed(drivers: Seq<CsiNodeDriverView>, i: int)
    requires
        0 <= i < drivers.len(),
        drivers[i].allocatable is Some,
        drivers[i].allocatable->0.count is Some,
        forall|j: int| i < j < drivers.len() ==> (#[trigger] drivers[j]).name != drivers[i].name,
    ensures
        limits_of(drivers).contains_key(drivers[i].name),
        limits_of(drivers)[drivers[i].name] == drivers[i].allocatable->0.count->0,
    decreases drivers.len(),
{
    if i < drivers.len() - 1 {
        let front = drivers.drop_last();
        assert(front[i] == drivers[i]);
        assert forall|j: int| i < j < front.len() implies (#[trigger] front[j]).name
            != front[i].name by {
            assert(front[j] == drivers[j]);
        }
        lemma_limit_listed(front, i);
        assert(drivers[drivers.len() - 1].name != drivers[i].name);
    }
}

/// What an event says of the drivers of a node is known afterwards: each one
/// that it lists, and the limit of each that states one. When the event says
/// that it is gone, nothing of it is known.
pub proof fn law_drivers_of_a_node_are_known(
    t: NodeTallyView,
    event: WatchEventView<CsiNodeItemView>,
    i: int,
)
    requires
        event.object is Some,
        event.object->0.metadata.name.len() > 0,
        0 <= i < event.object->0.spec.drivers.len(),
    ensures
        ({
            let name = event.object->0.metadata.name;
            let drivers = event.object->0.spec.drivers;
            let after = t.after_csi_node_event(event);
            &&& event.event_type == "ADDED"@ || event.event_type == "MODIFIED"@
                ==> after.csi_node_drivers.contains_key(name)
                && after.csi_node_drivers[name].contains(drivers[i].name)
                && after.csi_node_limits.contains_key(name)
            &&& (event.event_type == "ADDED"@ || event.event_type == "MODIFIED"@)
                && drivers[i].allocatable is Some && drivers[i].allocatable->0.count is Some && (
            forall|j: int| i < j < drivers.len() ==> (#[trigger] drivers[j]).name
                != drivers[i].name) ==> after.csi_node_limits[name].contains_key(drivers[i].name)
                && after.csi_node_limits[name][drivers[i].name]
                == drivers[i].allocatable->0.count->0
            &&& event.event_type == "DELETED"@ ==> !after.csi_node_drivers.contains_key(name)
                && !after.csi_node_limits.contains_key(name)
        }),
{
    reveal_strlit("DELETED");
    reveal_strlit("ADDED");
    reveal_strlit("MODIFIED");
    assert("DELETED"@.len() == 7 && "ADDED"@.len() == 5 && "MODIFIED"@.len() == 8);
    let drivers = event.object->0.spec.drivers;
    assert(names_of(drivers).contains(drivers[i].name));
    if drivers[i].allocatable is Some && drivers[i].allocatable->0.count is Some && (forall|j: int|
        i < j < drivers.len() ==> (#[trigger] drivers[j]).name != drivers[i].name) {
        lemma_limit_listed(drivers, i);
    }
}

/// A node is known as its last event showed it, until it is deleted.
pub proof fn law_node_is_known_as_last_seen(
    t: NodeTallyView,
    event: WatchEventView<NodeItemView>,
    other: Seq<char>,
)
    requires
        event.object is Some,
        event.object->0.metadata.name.len() > 0,
    ensures
        ({
            let item = event.object->0;
            let after = t.after_node_event(event);
            &&& event.event_type == "ADDED"@ || event.event_type == "MODIFIED"@
                ==> after.nodes.contains_key(item.metadata.name)
                && after.nodes[item.metadata.name] == item
            &&& event.event_type == "DELETED"@ ==> !after.nodes.contains_key(item.metadata.name)
            &&& other != item.metadata.name ==> after.nodes.contains_key(other)
                == t.nodes.contains_key(other)
            &&& other != item.metadata.name && t.nodes.contains_key(other) ==> after.nodes[other]
                == t.nodes[other]
            &&& after.pods == t.pods
        }),
{
    reveal_strlit("DELETED");
    reveal_strlit("ADDED");
    reveal_strlit("MODIFIED");
    assert("DELETED"@.len() == 7 && "ADDED"@.len() == 5 && "MODIFIED"@.len() == 8);
}

/// A claim is known by its volume and its storage class, in its own namespace,
/// until it is deleted.
pub proof fn law_claim_is_known_as_last_seen(
    t: NodeTallyView,
    event: WatchEventView<PvcObjectView>,
)
    requires
        event.object is Some,
        event.object->0.metadata.name is Some,
        event.object->0.metadata.name->0.len() > 0,
        event.object->0.metadata.namespace is Some,
    ensures
        ({
            let pvc = event.object->0;
            let key = pvc.metadata.namespace->0 + "/"@ + pvc.metadata.name->0;
            let after = t.after_pvc_event(event);
            &&& event.event_type == "ADDED"@ || event.event_type == "MODIFIED"@
                ==> after.pvcs.contains_key(key) && after.pvcs[key].volume_name
                == pvc.spec.volume_name && after.pvcs[key].storage_class_name
                == pvc.spec.storage_class_name
            &&& event.event_type == "DELETED"@ ==> !after.pvcs.contains_key(key)
            &&& forall|k: Seq<char>|
                k != key ==> #[trigger] after.pvcs.contains_key(k) == t.pvcs.contains_key(k)
        }),
{
    reveal_strlit("DELETED");
    reveal_strlit("ADDED");
    reveal_strlit("MODIFIED");
    assert("DELETED"@.len() == 7 && "ADDED"@.len() == 5 && "MODIFIED"@.len() == 8);
}

/// A volume is known by its CSI driver until it is deleted or has none, and a
/// storage class by its provisioner.
pub proof fn law_drivers_are_known_as_last_seen(
    t: NodeTallyView,
    volume: WatchEventView<PvObjectView>,
    class: WatchEventView<StorageClassObjectView>,
)
    requires
        volume.object is Some,
        volume.object->0.metadata.name is Some,
        volume.object->0.metadata.name->0.len() > 0,
        class.object is Some,
        class.object->0.metadata.name is Some,
        class.object->0.metadata.name->0.len() > 0,
    ensures
        ({
            let pv = volume.object->0;
            let name = pv.metadata.name->0;
            let after = t.after_pv_event(volume);
            &&& (volume.event_type == "ADDED"@ || volume.event_type == "MODIFIED"@) && pv.spec.csi
                is Some && pv.spec.csi->0.driver.len() > 0 ==> after.pv_csi_drivers.contains_key(
                name,
            ) && after.pv_csi_drivers[name] == pv.spec.csi->0.driver
            &&& volume.event_type == "DELETED"@ || pv.spec.csi is None || pv.spec.csi->0.driver
                .len() == 0 ==> !after.pv_csi_drivers.contains_key(name)
        }),
        ({
            let sc = class.object->0;
            let name = sc.metadata.name->0;
            let after = t.after_storage_class_event(class);
            &&& (class.event_type == "ADDED"@ || class.event_type == "MODIFIED"@)
                && sc.provisioner.len() > 0 ==> after.sc_provisioners.contains_key(name)
                && after.sc_provisioners[name] == sc.provisioner
            &&& class.event_type == "DELETED"@ || sc.provisioner.len() == 0
                ==> !after.sc_provisioners.contains_key(name)
        }),
{
    reveal_strlit("DELETED");
    reveal_strlit("ADDED");
    reveal_strlit("MODIFIED");
    assert("DELETED"@.len() == 7 && "ADDED"@.len() == 5 && "MODIFIED"@.len() == 8);
}

proof fn lemma_usage_lists(t: NodeTallyView, keys: Seq<Seq<char>>)
    ensures
        forall|c: HostPortClaimView| #[trigger]
            t.usage_of(keys).host_ports.contains(c) <==> exists|k: int|
                0 <= k < keys.len() && t.pods[#[trigger] keys[k]].host_ports.contains(c),
        forall|c: Seq<char>| #[trigger]
            t.usage_of(keys).pvc_names.contains(c) <==> exists|k: int|
                0 <= k < keys.len() && t.pods[#[trigger] keys[k]].pvc_names.contains(c),
    decreases keys.len(),
{
    if keys.len() > 0 {
        let front = keys.drop_last();
        let last = keys.last();
        lemma_usage_lists(t, front);
        let all = t.usage_of(keys);
        let before = t.usage_of(front);
        assert(all.host_ports == before.host_ports + t.pods[last].host_ports);
        assert(all.pvc_names == before.pvc_names + t.pods[last].pvc_names);
        assert forall|c: HostPortClaimView| #[trigger]
            all.host_ports.contains(c) <==> exists|k: int|
                0 <= k < keys.len() && t.pods[#[trigger] keys[k]].host_ports.contains(c) by {
            lemma_joined(before.host_ports, t.pods[last].host_ports, c);
            if before.host_ports.contains(c) {
                let k = choose|k: int|
                    0 <= k < front.len() && t.pods[#[trigger] front[k]].host_ports.contains(c);
                assert(t.pods[keys[k]].host_ports.contains(c));
            }
            if t.pods[last].host_ports.contains(c) {
                assert(t.pods[keys[keys.len() - 1]].host_ports.contains(c));
            }
            if exists|k: int|
                0 <= k < keys.len() && t.pods[#[trigger] keys[k]].host_ports.contains(c) {
                let k = choose|k: int|
                    0 <= k < keys.len() && t.pods[#[trigger] keys[k]].host_ports.contains(c);
                if k < front.len() {
                    assert(t.pods[front[k]].host_ports.contains(c));
                }
            }
        }
        assert forall|c: Seq<char>| #[trigger] all.pvc_names.contains(c) <==> exists|k: int|
            0 <= k < keys.len() && t.pods[#[trigger] keys[k]].pvc_names.contains(c) by {
            lemma_joined(before.pvc_names, t.pods[last].pvc_names, c);
            if before.pvc_names.contains(c) {
                let k = choose|k: int|
                    0 <= k < front.len() && t.pods[#[trigger] front[k]].pvc_names.contains(c);
                assert(t.pods[keys[k]].pvc_names.contains(c));
            }
            if t.pods[last].pvc_names.contains(c) {
                assert(t.pods[keys[keys.len() - 1]].pvc_names.contains(c));
            }
            if exists|k: int|
                0 <= k < keys.len() && t.pods[#[trigger] keys[k]].pvc_names.contains(c) {
                let k = choose|k: int|
                    0 <= k < keys.len() && t.pods[#[trigger] keys[k]].pvc_names.contains(c);
                if k < front.len() {
                    assert(t.pods[front[k]].pvc_names.contains(c));
                }
            }
        }
    }
}

proof fn lemma_joined<T>(a: Seq<T>, b: Seq<T>, x: T)
    ensures
        (a + b).contains(x) == (a.contains(x) || b.contains(x)),
{
    if a.contains(x) {
        let i = choose|i: int| 0 <= i < a.len() && a[i] == x;
        assert((a + b)[i] == x);
    }
    if b.contains(x) {
        let i = choose|i: int| 0 <= i < b.len() && b[i] == x;
        assert((a + b)[a.len() + i] == x);
    }
    if (a + b).contains(x) {
        let i = choose|i: int| 0 <= i < (a + b).len() && (a + b)[i] == x;
        if i < a.len() {
            assert(a[i] == x);
        } else {
            assert(b[i - a.len()] == x);
        }
    }
}

/// The ports and the claims in use on a node are those of the pods that are
/// there, picked by a plan or not, and no others.
pub proof fn law_usage_lists_ports_and_claims(
    t: NodeTallyView,
    node: Seq<char>,
    port: HostPortClaimView,
    claim: Seq<char>,
)
    requires
        t.is_valid(),
    ensures
        t.usage_on(node).host_ports.contains(port) <==> exists|k: Seq<char>| #[trigger]
            t.pods.contains_key(k) && t.pods[k].node_name == node && t.pods[k].host_ports.contains(
                port,
            ),
        t.usage_on(node).pvc_names.contains(claim) <==> exists|k: Seq<char>| #[trigger]
            t.pods.contains_key(k) && t.pods[k].node_name == node && t.pods[k].pvc_names.contains(
                claim,
            ),
{
    let keys = t.keys_on(node);
    crate::listing::lemma_keys_on(t, node);
    lemma_usage_lists(t, keys);
    if t.usage_on(node).host_ports.contains(port) {
        let k = choose|k: int|
            0 <= k < keys.len() && t.pods[#[trigger] keys[k]].host_ports.contains(port);
        assert(keys.contains(keys[k]));
        assert(t.pods.contains_key(keys[k]));
    }
    if exists|k: Seq<char>| #[trigger]
        t.pods.contains_key(k) && t.pods[k].node_name == node && t.pods[k].host_ports.contains(
            port,
        ) {
        let k = choose|k: Seq<char>| #[trigger]
            t.pods.contains_key(k) && t.pods[k].node_name == node
                && t.pods[k].host_ports.contains(port);
        assert(keys.contains(k));
        let j = choose|j: int| 0 <= j < keys.len() && keys[j] == k;
        assert(t.pods[keys[j]].host_ports.contains(port));
    }
    if t.usage_on(node).pvc_names.contains(claim) {
        let k = choose|k: int|
            0 <= k < keys.len() && t.pods[#[trigger] keys[k]].pvc_names.contains(claim);
        assert(keys.contains(keys[k]));
        assert(t.pods.contains_key(keys[k]));
    }
    if exists|k: Seq<char>| #[trigger]
        t.pods.contains_key(k) && t.pods[k].node_name == node && t.pods[k].pvc_names.contains(
            claim,
        ) {
        let k = choose|k: Seq<char>| #[trigger]
            t.pods.contains_key(k) && t.pods[k].node_name == node
                && t.pods[k].pvc_names.contains(claim);
        assert(keys.contains(k));
        let j = choose|j: int| 0 <= j < keys.len() && keys[j] == k;
        assert(t.pods[keys[j]].pvc_names.contains(claim));
    }
}

} // verus!
