//! Placing pods: finding a node with room, or making room by preemption, and
//! reserving it in the tally.

use crate::affinity::{self, InterPodAffinityContext, NodeLabels};
use crate::booking;
use crate::csi::{self, csi_topology_fit, csi_volume_limits_fit, net_csi_headroom};
use crate::duplicate::{slice_of, Duplicate};
use crate::error::SchedulerError;
use crate::index;
use crate::listing;
use crate::node::{
    self, node_qualifies_for_pod, pod_count_capacity, NodeItem, NodeItemView, NodeList, NodePod,
    NodePodView, TalliedPodLabels, TalliedPodLabelsView,
};
use crate::order::same_text;
use crate::pod::{self, qualified_name, PendingPod, PendingPodView};
use crate::quantity;
use crate::resources::{self, resource_fits, subtract_requests, ResourceRequests};
use crate::select::{
    self, choose_node, index_labels, qualify_claims,
};
use crate::selector::list_contains;
use crate::spread::{self, TopologySpreadContext};
use crate::string_map::{StringMap, StringSet};
use crate::tally::{self, NodeTally, NodeTallyView};
use crate::victims::{
    self, read_write_once_pod_preemption_victims, select_preemption_victims, sum_requests,
};
use vstd::prelude::*;

verus! {

/// Why no node was found for a pod.
#[derive(Debug)]
pub enum PickNodeError {
    /// Every node was looked at and none has room, for this reason.
    NoCapacity(String),
    /// The nodes could not be looked at.
    ApiError(SchedulerError),
}

impl PickNodeError {
    /// The reason in words.
    pub fn to_string(&self) -> (s: String)
        ensures
            s@ == match self {
                PickNodeError::NoCapacity(reason) => reason@,
                PickNodeError::ApiError(e) => e@,
            },
    {
        match self {
            PickNodeError::NoCapacity(reason) => reason.clone(),
            PickNodeError::ApiError(e) => e.to_string(),
        }
    }
}

/// Whether the pod is left to be tried again instead of making room for it:
/// nothing is known of the room there is.
pub fn should_retry_without_preempting(err: &PickNodeError) -> (b: bool)
    ensures
        b == (err is ApiError),
{
    match err {
        PickNodeError::ApiError(_) => true,
        PickNodeError::NoCapacity(_) => false,
    }
}

/// A node, and the pods (as `namespace/name`) that have to be evicted from it first.
#[derive(Debug, PartialEq)]
pub struct PreemptionPlan {
    pub node_name: String,
    pub victims: Vec<String>,
}

/// Model of [`PreemptionPlan`].
#[verifier::ext_equal]
pub struct PreemptionPlanView {
    pub node_name: Seq<char>,
    pub victims: Seq<Seq<char>>,
}

impl View for PreemptionPlan {
    type V = PreemptionPlanView;

    open spec fn view(&self) -> PreemptionPlanView {
        PreemptionPlanView {
            node_name: self.node_name@,
            victims: self.victims.deep_view(),
        }
    }
}

impl DeepView for PreemptionPlan {
    type V = PreemptionPlanView;

    open spec fn deep_view(&self) -> PreemptionPlanView {
        self@
    }
}

/// Why no preemption plan was found for a pod.
#[derive(Debug)]
pub enum FindPreemptionPlanError {
    /// Every node was looked at, and no eviction makes room.
    NoViablePlan,
    /// The nodes could not be looked at.
    ApiError(SchedulerError),
}

impl FindPreemptionPlanError {
    /// The reason in words.
    pub fn to_string(&self) -> (s: String)
        ensures
            s@ == match self {
                FindPreemptionPlanError::NoViablePlan =>
                    "no node can fit the pending pod even after preempting lower-priority pods"@,
                FindPreemptionPlanError::ApiError(e) => e@,
            },
    {
        match self {
            FindPreemptionPlanError::NoViablePlan =>
                "no node can fit the pending pod even after preempting lower-priority pods".to_owned(),
            FindPreemptionPlanError::ApiError(e) => e.to_string(),
        }
    }
}

/// Whether the pod is left to be tried again instead of being reported as one
/// that cannot be placed.
pub fn should_retry_after_preemption_plan_error(err: &FindPreemptionPlanError) -> (b: bool)
    ensures
        b == (err is ApiError),
{
    match err {
        FindPreemptionPlanError::ApiError(_) => true,
        FindPreemptionPlanError::NoViablePlan => false,
    }
}

/// How many more volumes of each CSI driver can be attached to a node.
pub open spec fn headroom_on(t: NodeTallyView, node: Seq<char>) -> Map<Seq<char>, i64> {
    if t.csi_node_limits.contains_key(node) {
        csi::headroom(t.csi_node_limits[node], t.usage_on(node).csi_attached_counts)
    } else {
        Map::empty()
    }
}

/// The CSI drivers that run on a node.
pub open spec fn drivers_on(t: NodeTallyView, node: Seq<char>) -> Set<Seq<char>> {
    if t.csi_node_drivers.contains_key(node) {
        t.csi_node_drivers[node]
    } else {
        Set::empty()
    }
}

/// The node with what the tally knows of its CSI drivers, as far as the pod
/// needs it.
pub open spec fn with_csi(n: NodeItemView, pod: PendingPodView, t: NodeTallyView) -> NodeItemView {
    let name = n.metadata.name;
    NodeItemView {
        csi_driver_headroom: if pod.csi_volume_counts.len() > 0
            && t.csi_node_limits.contains_key(name) {
            headroom_on(t, name)
        } else {
            n.csi_driver_headroom
        },
        csi_registered_drivers: if pod.unbound_csi_pvc_drivers.len() > 0
            && t.csi_node_drivers.contains_key(name) {
            drivers_on(t, name)
        } else {
            n.csi_registered_drivers
        },
        ..n
    }
}

/// The nodes with what the tally knows of their CSI drivers.
pub open spec fn all_with_csi(
    items: Seq<NodeItemView>,
    pod: PendingPodView,
    t: NodeTallyView,
) -> Seq<NodeItemView> {
    items.map_values(|n: NodeItemView| with_csi(n, pod, t))
}

/// How many more volumes of each CSI driver can be attached to a node.
pub fn fresh_csi_headroom_for_node(tally: &NodeTally, node_name: &str) -> (headroom: StringMap<i64>)
    ensures
        headroom@ == headroom_on(tally@, node_name@),
{
    let limits_by_node = tally.csi_driver_limits_by_node();
    match limits_by_node.get(node_name) {
        Some(limits) => net_csi_headroom(limits, &tally.csi_attached_counts(node_name)),
        None => StringMap::new(),
    }
}

/// The CSI drivers that run on a node.
pub fn fresh_csi_registered_drivers_for_node(tally: &NodeTally, node_name: &str) -> (drivers:
    StringSet)
    ensures
        drivers@ == drivers_on(tally@, node_name@),
{
    let drivers_by_node = tally.csi_driver_names_by_node();
    match drivers_by_node.get(node_name) {
        Some(drivers) => drivers.duplicate(),
        None => StringSet::new(),
    }
}

#[verifier::loop_isolation(false)]
fn enrich(list: NodeList, pod: &PendingPod, tally: &NodeTally) -> (r: NodeList)
    ensures
        r@.items == all_with_csi(list@.items, pod@, tally@),
{
    let wants_volumes = !pod.csi_volume_counts.is_empty();
    let wants_drivers = pod.unbound_csi_pvc_drivers.len() > 0;
    let limits_by_node = tally.csi_driver_limits_by_node();
    let drivers_by_node = tally.csi_driver_names_by_node();
    let mut items: Vec<NodeItem> = Vec::new();
    let mut i: usize = 0;
    while i < list.items.len()
        invariant
            i <= list.items@.len(),
            items@.len() == i,
            forall|j: int|
                0 <= j < i ==> (#[trigger] items@[j])@ == with_csi(
                    list@.items[j],
                    pod@,
                    tally@,
                ),
        decreases list.items@.len() - i,
    {
        let mut n = list.items[i].duplicate();
        assert(n@ == list@.items[i as int]);
        if wants_volumes && limits_by_node.contains_key(n.metadata.name.as_str()) {
            n.csi_driver_headroom = fresh_csi_headroom_for_node(tally, n.metadata.name.as_str());
        }
        if wants_drivers && drivers_by_node.contains_key(n.metadata.name.as_str()) {
            n.csi_registered_drivers =
            fresh_csi_registered_drivers_for_node(tally, n.metadata.name.as_str());
        }
        assert(n@ =~= with_csi(list@.items[i as int], pod@, tally@));
        items.push(n);
        i += 1;
    }
    assert(items.deep_view() =~= all_with_csi(list@.items, pod@, tally@));
    NodeList { items }
}

/// The claims that the pod needs for itself are used by no other pod, on any
/// node.
pub open spec fn claims_free(pod: PendingPodView, t: NodeTallyView) -> bool {
    t.claims_free_beside(
        pod::qualified(pod.namespace, pod.pod_name),
        None,
        select::qualified_claims(pod.namespace, pod.read_write_once_pod_pvcs),
    )
}

/// Choose a node of `list` for the pod and reserve room for it there, in one
/// step: no other decision sees the room as free in between. Fails where
/// another pod, on any node, uses a claim that the pod needs for itself.
pub fn select_and_reserve_node(list: NodeList, pod: &PendingPod, tally: &mut NodeTally) -> (r:
    Result<String, PickNodeError>)
    ensures
        ({
            let t = old(tally)@;
            let items = all_with_csi(list@.items, pod@, t);
            &&& r is Ok <==> claims_free(pod@, t) && select::is_placeable(
                items,
                pod@,
                t.usage(),
                t.labels(),
            )
            &&& r matches Ok(name) ==> {
                &&& exists|i: int| #[trigger]
                    select::is_choice(items, pod@, t.usage(), t.labels(), i) && name@
                        == items[i].metadata.name
                &&& final(tally)@ == t.with_pod(
                    pod::qualified(pod@.namespace, pod@.pod_name),
                    tally::reservation(pod@, name@),
                )
            }
            &&& r matches Err(e) ==> {
                &&& e matches PickNodeError::NoCapacity(reason) && reason@ == select::refusal(
                    items,
                    pod@,
                    t.usage(),
                    t.labels(),
                    claims_free(pod@, t),
                )
                &&& final(tally)@ == t
            }
        }),
{
    let usage = tally.usage_by_node();
    let labels = tally.tallied_pod_labels();
    let candidates = enrich(list, pod, tally);
    let key = qualified_name(pod.namespace.as_str(), pod.pod_name.as_str());
    let rwop_pvcs = qualify_claims(pod.namespace.as_str(), &pod.read_write_once_pod_pvcs);
    let free = tally.claims_free_beside(key.as_str(), None, slice_of(&rwop_pvcs));
    match choose_node(candidates, pod, &usage, slice_of(&labels), free) {
        Ok(name) => {
            tally.reserve_pending(pod, name.as_str());
            Ok(name)
        },
        Err(e) => Err(PickNodeError::NoCapacity(e.to_string())),
    }
}

/// Choose one of the nodes that the tally knows for the pod, the least loaded
/// of those that suit it and have room, and reserve room for it there. Nothing
/// changes on other nodes, but for the one that the pod was on before.
pub fn pick_node(pod: &PendingPod, tally: &mut NodeTally) -> (r: Result<String, PickNodeError>)
    ensures
        ({
            let t = old(tally)@;
            let items = all_with_csi(t.node_items(), pod@, t);
            &&& r is Ok <==> claims_free(pod@, t) && select::is_placeable(
                items,
                pod@,
                t.usage(),
                t.labels(),
            )
            &&& r matches Ok(name) ==> {
                &&& exists|i: int| #[trigger]
                    select::is_choice(items, pod@, t.usage(), t.labels(), i) && name@
                        == items[i].metadata.name
                &&& final(tally)@ == t.with_pod(
                    pod::qualified(pod@.namespace, pod@.pod_name),
                    tally::reservation(pod@, name@),
                )
                &&& t.nodes.contains_key(name@)
                &&& final(tally)@.nodes == t.nodes
                &&& forall|other: Seq<char>|
                    other != name@ && !index::on_node(t.pods, other).contains(
                        pod::qualified(pod@.namespace, pod@.pod_name),
                    ) ==> #[trigger] final(tally)@.usage_on(other) == t.usage_on(other)
            }
            &&& r matches Err(e) ==> {
                &&& e matches PickNodeError::NoCapacity(reason) && reason@ == select::refusal(
                    items,
                    pod@,
                    t.usage(),
                    t.labels(),
                    claims_free(pod@, t),
                )
                &&& final(tally)@ == t
            }
        }),
{
    let ghost t = tally@;
    let list = tally.node_list();
    let r = select_and_reserve_node(list, pod, tally);
    proof {
        let items = all_with_csi(t.node_items(), pod@, t);
        if r is Ok {
            let name = r->Ok_0;
            let i = choose|i: int| #[trigger]
                select::is_choice(items, pod@, t.usage(), t.labels(), i) && name@
                    == items[i].metadata.name;
            listing::law_listed_nodes_are_the_known_ones(t, name@);
            assert(items[i].metadata.name == t.node_items()[i].metadata.name);
            assert forall|other: Seq<char>|
                other != name@ && !index::on_node(t.pods, other).contains(
                    pod::qualified(pod@.namespace, pod@.pod_name),
                ) implies #[trigger] tally@.usage_on(other) == t.usage_on(other) by {
                booking::law_reservation_leaves_other_nodes_alone(t, pod@, name@, other);
            }
        }
    }
    r
}

/// The node of this name, where the tally knows it.
pub fn fetch_node(tally: &NodeTally, node_name: &str) -> (r: Option<NodeItem>)
    ensures
        r is Some == tally@.nodes.contains_key(node_name@),
        r matches Some(item) ==> item@ == tally@.nodes[node_name@] && item@.metadata.name
            == node_name@,
{
    tally.node(node_name)
}

/// `keys`, and behind them those of `more` that are not among them.
pub open spec fn merged(keys: Seq<Seq<char>>, more: Seq<Seq<char>>) -> Seq<Seq<char>>
    decreases more.len(),
{
    if more.len() == 0 {
        keys
    } else {
        let before = merged(keys, more.drop_last());
        if before.contains(more.last()) {
            before
        } else {
            before.push(more.last())
        }
    }
}

/// Those of `tallied` whose key is among `keys`.
pub open spec fn with_keys(
    tallied: Seq<TalliedPodLabelsView>,
    keys: Seq<Seq<char>>,
) -> Seq<TalliedPodLabelsView>
    decreases tallied.len(),
{
    if tallied.len() == 0 {
        Seq::empty()
    } else if keys.contains(tallied.last().key) {
        with_keys(tallied.drop_last(), keys).push(tallied.last())
    } else {
        with_keys(tallied.drop_last(), keys)
    }
}

/// The pods that would have to go for the pod to get the node `n`: those that
/// make room and those that hold a claim the pod needs for itself.
pub open spec fn victims_on(
    n: NodeItemView,
    pod: PendingPodView,
    t: NodeTallyView,
) -> Seq<Seq<char>> {
    let pods = t.node_pods(n.metadata.name);
    let claims = select::qualified_claims(pod.namespace, pod.read_write_once_pod_pvcs);
    merged(
        victims::keys_of(
            victims::chosen_victims(
                pod.priority,
                pod.requests,
                pods,
                node::pod_slots(n),
                n.status.allocatable,
            ),
        ),
        victims::keys_of(victims::claim_holders(pods, claims)),
    )
}

/// Preemption opens the node `n` to the pod: there are victims, and once they
/// are gone the node suits the pod and has room for it, and no other pod uses a
/// claim that the pod needs for itself.
pub open spec fn is_viable(
    n: NodeItemView,
    pod: PendingPodView,
    t: NodeTallyView,
    tallied: Seq<TalliedPodLabelsView>,
    node_labels: NodeLabels,
) -> bool {
    let name = n.metadata.name;
    let gone = with_keys(tallied, victims_on(n, pod, t));
    &&& node::qualifies(n, pod)
    &&& csi::within_headroom(headroom_on(t, name), pod.csi_volume_counts)
    &&& csi::drivers_registered(drivers_on(t, name), pod.unbound_csi_pvc_drivers)
    &&& victims::claims_obtainable(
        t.node_pods(name),
        select::qualified_claims(pod.namespace, pod.read_write_once_pod_pvcs),
        pod.priority,
    )
    &&& t.claims_free_beside(
        pod::qualified(pod.namespace, pod.pod_name),
        Some(name),
        select::qualified_claims(pod.namespace, pod.read_write_once_pod_pvcs),
    )
    &&& victims_on(n, pod, t).len() > 0
    &&& has_room_after(
        pod,
        n,
        PreemptionPlanView { node_name: name, victims: victims_on(n, pod, t) },
        t,
    )
    &&& affinity::suits(pod, tallied, node_labels, n.metadata.labels, gone)
    &&& spread::suits(pod, tallied, node_labels, n.metadata.labels, gone)
}

/// Node `i` is the one to preempt on: of the nodes that preemption opens none
/// has fewer victims, and none with as few comes before it.
pub open spec fn is_cheapest(
    items: Seq<NodeItemView>,
    pod: PendingPodView,
    t: NodeTallyView,
    tallied: Seq<TalliedPodLabelsView>,
    node_labels: NodeLabels,
    i: int,
) -> bool {
    &&& 0 <= i < items.len()
    &&& is_viable(items[i], pod, t, tallied, node_labels)
    &&& forall|j: int|
        0 <= j < items.len() && is_viable(#[trigger] items[j], pod, t, tallied, node_labels)
            ==> victims_on(items[i], pod, t).len() <= victims_on(items[j], pod, t).len()
    &&& forall|j: int|
        0 <= j < i && is_viable(#[trigger] items[j], pod, t, tallied, node_labels) ==> victims_on(
            items[i],
            pod,
            t,
        ).len() < victims_on(items[j], pod, t).len()
}

fn merge_keys(keys: Vec<String>, more: &Vec<String>) -> (r: Vec<String>)
    ensures
        r.deep_view() == merged(keys.deep_view(), more.deep_view()),
{
    let ghost start = keys.deep_view();
    let ghost all = more.deep_view();
    let mut r = keys;
    let mut i: usize = 0;
    proof {
        assert(all.take(0) =~= Seq::empty());
    }
    while i < more.len()
        invariant
            all == more.deep_view(),
            i <= more@.len(),
            r.deep_view() == merged(start, all.take(i as int)),
        decreases more@.len() - i,
    {
        let ghost before = r.deep_view();
        proof {
            assert(all.take(i + 1).drop_last() =~= all.take(i as int));
            assert(all.take(i + 1).last() == more@[i as int]@);
        }
        if !list_contains(slice_of(&r), more[i].as_str()) {
            r.push(more[i].clone());
            assert(r.deep_view() =~= before.push(more@[i as int]@));
        }
        i += 1;
    }
    assert(all.take(i as int) =~= all);
    r
}

fn pick_keys<'a>(tallied: &'a [TalliedPodLabels], keys: &Vec<String>) -> (r: Vec<
    &'a TalliedPodLabels,
>)
    ensures
        r.deep_view() == with_keys(tallied.deep_view(), keys.deep_view()),
{
    let ghost all = tallied.deep_view();
    let mut r: Vec<&'a TalliedPodLabels> = Vec::new();
    let mut i: usize = 0;
    proof {
        assert(all.take(0) =~= Seq::empty());
        assert(r.deep_view() =~= Seq::empty());
    }
    while i < tallied.len()
        invariant
            all == tallied.deep_view(),
            i <= tallied@.len(),
            r.deep_view() == with_keys(all.take(i as int), keys.deep_view()),
        decreases tallied@.len() - i,
    {
        let p = &tallied[i];
        let ghost before = r.deep_view();
        proof {
            assert(all.take(i + 1).drop_last() =~= all.take(i as int));
            assert(all.take(i + 1).last() == p@);
        }
        if list_contains(slice_of(keys), p.key.as_str()) {
            r.push(p);
            assert(r.deep_view() =~= before.push(p@));
        }
        i += 1;
    }
    assert(all.take(i as int) =~= all);
    r
}

/// The victims on one node, where preemption opens it.
fn plan_on(
    n: &NodeItem,
    pod: &PendingPod,
    tally: &NodeTally,
    tallied_pods: &[TalliedPodLabels],
    rwop_pvcs: &Vec<String>,
    affinity_ctx: &InterPodAffinityContext<'_>,
    topology_ctx: &TopologySpreadContext<'_>,
) -> (r: Option<Vec<String>>)
    requires
        rwop_pvcs.deep_view() == select::qualified_claims(
            pod@.namespace,
            pod@.read_write_once_pod_pvcs,
        ),
        affinity_ctx.pending() == pod@,
        affinity_ctx.placed() == tallied_pods.deep_view(),
        topology_ctx.pending() == pod@,
        topology_ctx.placed() == tallied_pods.deep_view(),
        topology_ctx.labels() == affinity_ctx.labels(),
    ensures
        r is Some == is_viable(
            n@,
            pod@,
            tally@,
            tallied_pods.deep_view(),
            affinity_ctx.labels(),
        ),
        r matches Some(victims) ==> victims.deep_view() == victims_on(n@, pod@, tally@),
{
    if !node_qualifies_for_pod(n, pod) {
        return None;
    }
    let name = n.metadata.name.as_str();
    if !csi_volume_limits_fit(&fresh_csi_headroom_for_node(tally, name), &pod.csi_volume_counts) {
        return None;
    }
    if !csi_topology_fit(
        &fresh_csi_registered_drivers_for_node(tally, name),
        slice_of(&pod.unbound_csi_pvc_drivers),
    ) {
        return None;
    }
    let node_pods = tally.pods_on(name);
    let for_room = select_preemption_victims(
        pod.priority,
        &pod.requests,
        slice_of(&node_pods),
        pod_count_capacity(n),
        &n.status.allocatable,
    );
    let holders = match read_write_once_pod_preemption_victims(
        slice_of(&node_pods),
        slice_of(rwop_pvcs),
        pod.priority,
    ) {
        Some(holders) => holders,
        None => {
            return None;
        },
    };
    let key = qualified_name(pod.namespace.as_str(), pod.pod_name.as_str());
    if !tally.claims_free_beside(key.as_str(), Some(name), slice_of(rwop_pvcs)) {
        return None;
    }
    let victims = merge_keys(for_room, &holders);
    assert(victims.deep_view() == victims_on(n@, pod@, tally@));
    if victims.len() == 0 {
        return None;
    }
    let plan = PreemptionPlan { node_name: n.metadata.name.clone(), victims };
    if !room_after_eviction(pod, n, &plan, tally) {
        return None;
    }
    let victims = plan.victims;
    let victim_pods = pick_keys(tallied_pods, &victims);
    if !affinity_ctx.node_qualifies_excluding_victims(&n.metadata.labels, &victim_pods) {
        return None;
    }
    if !topology_ctx.node_qualifies_excluding_victims(&n.metadata.labels, &victim_pods) {
        return None;
    }
    Some(victims)
}

/// The node to preempt on: of those that evicting some pods of lower priority
/// opens to the pod, the one with the fewest victims, and of these the first.
#[verifier::loop_isolation(false)]
pub fn find_preemption_candidate(
    list: &NodeList,
    pod: &PendingPod,
    tallied_pods: &[TalliedPodLabels],
    node_labels_by_name: &StringMap<StringMap<String>>,
    tally: &NodeTally,
) -> (r: Option<(usize, PreemptionPlan)>)
    ensures
        r is None <==> forall|i: int|
            0 <= i < list@.items.len() ==> !is_viable(
                #[trigger] list@.items[i],
                pod@,
                tally@,
                tallied_pods.deep_view(),
                node_labels_by_name@,
            ),
        r matches Some((i, plan)) ==> {
            &&& is_cheapest(
                list@.items,
                pod@,
                tally@,
                tallied_pods.deep_view(),
                node_labels_by_name@,
                i as int,
            )
            &&& plan@.node_name == list@.items[i as int].metadata.name
            &&& plan@.victims == victims_on(list@.items[i as int], pod@, tally@)
        },
{
    let ghost items = list@.items;
    let ghost t = tally@;
    let ghost placed = tallied_pods.deep_view();
    let ghost nl = node_labels_by_name@;
    let affinity_ctx = InterPodAffinityContext::build(pod, tallied_pods, node_labels_by_name);
    let topology_ctx = TopologySpreadContext::build(pod, tallied_pods, node_labels_by_name);
    let rwop_pvcs = qualify_claims(pod.namespace.as_str(), &pod.read_write_once_pod_pvcs);
    let mut best: Option<(usize, PreemptionPlan)> = None;
    let mut i: usize = 0;
    while i < list.items.len()
        invariant
            i <= list.items@.len(),
            best is None ==> forall|j: int|
                0 <= j < i ==> !is_viable(#[trigger] items[j], pod@, t, placed, nl),
            best matches Some((b, plan)) ==> {
                &&& 0 <= b < i
                &&& is_viable(items[b as int], pod@, t, placed, nl)
                &&& plan@.node_name == items[b as int].metadata.name
                &&& plan@.victims == victims_on(items[b as int], pod@, t)
                &&& forall|j: int|
                    0 <= j < i && is_viable(#[trigger] items[j], pod@, t, placed, nl)
                        ==> victims_on(items[b as int], pod@, t).len() <= victims_on(
                        items[j],
                        pod@,
                        t,
                    ).len()
                &&& forall|j: int|
                    0 <= j < b && is_viable(#[trigger] items[j], pod@, t, placed, nl)
                        ==> victims_on(items[b as int], pod@, t).len() < victims_on(
                        items[j],
                        pod@,
                        t,
                    ).len()
            },
        decreases list.items@.len() - i,
    {
        let n = &list.items[i];
        assert(items[i as int] == n@);
        if let Some(victims) = plan_on(
            n,
            pod,
            tally,
            tallied_pods,
            &rwop_pvcs,
            &affinity_ctx,
            &topology_ctx,
        ) {
            let cheaper = match &best {
                Some((b, plan)) => {
                    assert(plan@.victims.len() == plan.victims@.len());
                    victims.len() < plan.victims.len()
                },
                None => true,
            };
            assert(victims.deep_view().len() == victims@.len());
            if cheaper {
                best = Some(
                    (i, PreemptionPlan { node_name: n.metadata.name.clone(), victims }),
                );
            }
        }
        i += 1;
    }
    best
}

/// The first of `pods` with this key.
pub open spec fn pod_with_key(pods: Seq<NodePodView>, key: Seq<char>) -> Option<NodePodView>
    decreases pods.len(),
{
    if pods.len() == 0 {
        None
    } else if pods[0].key == key {
        Some(pods[0])
    } else {
        pod_with_key(pods.drop_first(), key)
    }
}

/// The pods with these keys, as far as they are there.
pub open spec fn pods_with_keys(
    pods: Seq<NodePodView>,
    keys: Seq<Seq<char>>,
) -> Seq<NodePodView>
    decreases keys.len(),
{
    if keys.len() == 0 {
        Seq::empty()
    } else {
        let before = pods_with_keys(pods, keys.drop_last());
        match pod_with_key(pods, keys.last()) {
            Some(p) => before.push(p),
            None => before,
        }
    }
}

/// The pod fits on the node when those of the plan's victims that are still
/// there are gone.
pub open spec fn has_room_after(
    pod: PendingPodView,
    n: NodeItemView,
    plan: PreemptionPlanView,
    t: NodeTallyView,
) -> bool {
    let pods = t.node_pods(plan.node_name);
    let gone = pods_with_keys(pods, plan.victims);
    &&& node::slot_free(node::pod_slots(n), pods.len() - gone.len())
    &&& resources::fits(
        n.status.allocatable,
        victims::remaining(resources::total_requests(victims::requests_of(pods)), gone),
        pod.requests,
    )
}

/// The pod's CSI volumes can be attached to the plan's node.
pub open spec fn has_volumes(
    pod: PendingPodView,
    plan: PreemptionPlanView,
    t: NodeTallyView,
) -> bool {
    csi::within_headroom(headroom_on(t, plan.node_name), pod.csi_volume_counts)
}

/// The tally with the plan under way: room is reserved for the pod, and the
/// victims are picked.
pub open spec fn committed(
    pod: PendingPodView,
    plan: PreemptionPlanView,
    t: NodeTallyView,
) -> NodeTallyView {
    NodeTallyView {
        reserved_victims: t.reserved_victims.union(plan.victims.to_set()),
        ..t.with_pod(
            pod::qualified(pod.namespace, pod.pod_name),
            tally::reservation(pod, plan.node_name),
        )
    }
}

fn find_pod<'a>(pods: &'a Vec<NodePod>, key: &str) -> (r: Option<&'a NodePod>)
    ensures
        r.deep_view() == pod_with_key(pods.deep_view(), key@),
{
    let ghost all = pods.deep_view();
    let mut i: usize = 0;
    proof {
        assert(all.skip(0) =~= all);
    }
    while i < pods.len()
        invariant
            all == pods.deep_view(),
            i <= pods@.len(),
            pod_with_key(all, key@) == pod_with_key(all.skip(i as int), key@),
        decreases pods@.len() - i,
    {
        proof {
            assert(all.skip(i as int)[0] == pods@[i as int]@);
            assert(all.skip(i as int).drop_first() =~= all.skip(i + 1));
        }
        if same_text(pods[i].key.as_str(), key) {
            return Some(&pods[i]);
        }
        i += 1;
    }
    None
}

#[verifier::loop_isolation(false)]
fn room_after_eviction(
    pod: &PendingPod,
    node: &NodeItem,
    plan: &PreemptionPlan,
    tally: &NodeTally,
) -> (b: bool)
    ensures
        b == has_room_after(pod@, node@, plan@, tally@),
{
    let slots: u32 = pod_count_capacity(node);
    let current_pods = tally.pods_on(plan.node_name.as_str());
    let ghost pods = current_pods.deep_view();
    let ghost keys = plan@.victims;
    let count: usize = current_pods.len();
    let mut gone: usize = 0;
    let mut remaining_requests = sum_requests(slice_of(&current_pods));
    let ghost total = remaining_requests@;
    let mut i: usize = 0;
    proof {
        assert(keys.take(0) =~= Seq::empty());
    }
    while i < plan.victims.len()
        invariant
            i <= plan.victims@.len(),
            gone <= i,
            gone == pods_with_keys(pods, keys.take(i as int)).len(),
            remaining_requests@ == victims::remaining(
                total,
                pods_with_keys(pods, keys.take(i as int)),
            ),
        decreases plan.victims@.len() - i,
    {
        let ghost before = pods_with_keys(pods, keys.take(i as int));
        proof {
            assert(keys.take(i + 1).drop_last() =~= keys.take(i as int));
            assert(keys.take(i + 1).last() == plan.victims@[i as int]@);
        }
        if let Some(p) = find_pod(&current_pods, plan.victims[i].as_str()) {
            gone += 1;
            subtract_requests(&mut remaining_requests, &p.requests);
            assert(before.push(p@).drop_last() =~= before);
        }
        i += 1;
    }
    proof {
        assert(keys.take(i as int) =~= keys);
    }
    let slot = slots == 0 || (count as i128) - (gone as i128) < slots as i128;
    slot && resource_fits(&node.status.allocatable, &remaining_requests, &pod.requests)
}

/// Look once more whether the plan still works out, and if so reserve room for
/// the pod and pick the victims, in one step.
pub fn verify_and_reserve_preemption(
    pod: &PendingPod,
    node: &NodeItem,
    plan: &PreemptionPlan,
    tally: &mut NodeTally,
) -> (r: Result<(), SchedulerError>)
    ensures
        r is Ok <==> has_room_after(pod@, node@, plan@, old(tally)@) && has_volumes(
            pod@,
            plan@,
            old(tally)@,
        ),
        r is Ok ==> final(tally)@ == committed(pod@, plan@, old(tally)@),
        r matches Err(e) ==> final(tally)@ == old(tally)@ && e@ == if has_room_after(
            pod@,
            node@,
            plan@,
            old(tally)@,
        ) {
            "no node still fits after preemption (CSI attach limit may have been claimed concurrently)"@
        } else {
            "no node still fits after preemption (capacity may have been claimed concurrently)"@
        },
{
    let ghost t = tally@;
    if !room_after_eviction(pod, node, plan, tally) {
        return Err(
            SchedulerError::new(
                "no node still fits after preemption (capacity may have been claimed concurrently)",
            ),
        );
    }
    let headroom = fresh_csi_headroom_for_node(tally, plan.node_name.as_str());
    if !csi_volume_limits_fit(&headroom, &pod.csi_volume_counts) {
        return Err(
            SchedulerError::new(
                "no node still fits after preemption (CSI attach limit may have been claimed concurrently)",
            ),
        );
    }
    tally.reserve_pending(pod, plan.node_name.as_str());
    tally.claim_victims(slice_of(&plan.victims));
    assert(tally@ =~= committed(pod@, plan@, t));
    Ok(())
}

/// The plan for the node `i` of the list.
pub open spec fn plan_for(
    items: Seq<NodeItemView>,
    pod: PendingPodView,
    t: NodeTallyView,
    i: int,
) -> PreemptionPlanView {
    PreemptionPlanView {
        node_name: items[i].metadata.name,
        victims: victims_on(items[i], pod, t),
    }
}

/// Node `i` of those that the tally knows is the one to preempt on.
pub open spec fn is_plan(pod: PendingPodView, t: NodeTallyView, i: int) -> bool {
    let items = t.node_items();
    is_cheapest(items, pod, t, t.labels(), select::labels_by_name(items), i)
}

/// Preemption opens one of the nodes that the tally knows to the pod.
pub open spec fn can_preempt(pod: PendingPodView, t: NodeTallyView) -> bool {
    exists|i: int|
        0 <= i < t.node_items().len() && is_viable(
            #[trigger] t.node_items()[i],
            pod,
            t,
            t.labels(),
            select::labels_by_name(t.node_items()),
        )
}

/// Find the node that can be opened to the pod by evicting the fewest pods of
/// lower priority. Room for the pod is reserved, and the victims are picked,
/// before any of them is evicted: no other decision can take the room that
/// they leave.
pub fn find_preemption_plan(pod: &PendingPod, tally: &mut NodeTally) -> (r: Result<
    PreemptionPlan,
    FindPreemptionPlanError,
>)
    ensures
        r is Ok <==> can_preempt(pod@, old(tally)@),
        r matches Ok(plan) ==> exists|i: int| #[trigger]
            is_plan(pod@, old(tally)@, i) && plan@ == plan_for(
                old(tally)@.node_items(),
                pod@,
                old(tally)@,
                i,
            ),
        r matches Ok(plan) ==> old(tally)@.nodes.contains_key(plan@.node_name),
        r matches Ok(plan) ==> final(tally)@ == committed(pod@, plan@, old(tally)@),
        r matches Err(e) ==> e is NoViablePlan && final(tally)@ == old(tally)@,
{
    let ghost t = tally@;
    let list = tally.node_list();
    let ghost items = list@.items;
    let node_labels_by_name = index_labels(&list.items);
    let tallied_pods = tally.tallied_pod_labels();
    let ghost nl = node_labels_by_name@;
    let found = find_preemption_candidate(
        &list,
        pod,
        slice_of(&tallied_pods),
        &node_labels_by_name,
        tally,
    );
    match found {
        Some((index, plan)) => {
            proof {
                assert(items[index as int] == list.items@[index as int]@);
                assert(plan@ == plan_for(items, pod@, t, index as int));
                assert(is_plan(pod@, t, index as int));
                assert(is_viable(items[index as int], pod@, t, t.labels(), nl));
                listing::law_listed_nodes_are_the_known_ones(t, plan@.node_name);
            }
            match verify_and_reserve_preemption(pod, &list.items[index], &plan, tally) {
                Ok(()) => Ok(plan),
                Err(_) => Err(FindPreemptionPlanError::NoViablePlan),
            }
        },
        None => Err(FindPreemptionPlanError::NoViablePlan),
    }
}

/// Those of `pods` with another key.
pub open spec fn others(pods: Seq<NodePodView>, key: Seq<char>) -> Seq<NodePodView>
    decreases pods.len(),
{
    if pods.len() == 0 {
        Seq::empty()
    } else if pods.last().key == key {
        others(pods.drop_last(), key)
    } else {
        others(pods.drop_last(), key).push(pods.last())
    }
}

/// The node still has room for the pod beside the others that are there.
pub open spec fn reservation_holds(
    pod: PendingPodView,
    n: NodeItemView,
    t: NodeTallyView,
) -> bool {
    let rest = others(
        t.node_pods(n.metadata.name),
        pod::qualified(pod.namespace, pod.pod_name),
    );
    &&& node::slot_free(node::pod_slots(n), rest.len() as int)
    &&& resources::fits(
        n.status.allocatable,
        resources::total_requests(victims::requests_of(rest)),
        pod.requests,
    )
}

/// Whether the room that was reserved for the pod before its victims went is
/// still there. The pod's own reservation does not count against it.
#[verifier::loop_isolation(false)]
pub fn preemption_reservation_still_fits(
    pod: &PendingPod,
    node: &NodeItem,
    tally: &NodeTally,
) -> (b: bool)
    ensures
        b == reservation_holds(pod@, node@, tally@),
{
    let slots: u32 = pod_count_capacity(node);
    let self_key = qualified_name(pod.namespace.as_str(), pod.pod_name.as_str());
    let current_pods = tally.pods_on(node.metadata.name.as_str());
    let ghost pods = current_pods.deep_view();
    let mut count: usize = 0;
    let mut requests = ResourceRequests::default();
    let mut i: usize = 0;
    proof {
        assert(pods.take(0) =~= Seq::empty());
        assert(victims::requests_of(Seq::empty()) =~= Seq::empty());
    }
    while i < current_pods.len()
        invariant
            i <= current_pods@.len(),
            count <= i,
            count == others(pods.take(i as int), self_key@).len(),
            requests@ == resources::total_requests(
                victims::requests_of(others(pods.take(i as int), self_key@)),
            ),
        decreases current_pods@.len() - i,
    {
        let p = &current_pods[i];
        let ghost before = others(pods.take(i as int), self_key@);
        proof {
            assert(pods.take(i + 1).drop_last() =~= pods.take(i as int));
            assert(pods.take(i + 1).last() == p@);
            let next = victims::requests_of(before.push(p@));
            assert(next.drop_last() =~= victims::requests_of(before));
            assert(next.last() == p@.requests);
        }
        if !same_text(p.key.as_str(), self_key.as_str()) {
            count += 1;
            requests = requests.plus(&p.requests);
        }
        i += 1;
    }
    proof {
        assert(pods.take(i as int) =~= pods);
    }
    (slots == 0 || (count as u128) < slots as u128) && resource_fits(
        &node.status.allocatable,
        &requests,
        &pod.requests,
    )
}

/// There is at most one node to preempt on.
pub proof fn law_cheapest_is_unique(
    items: Seq<NodeItemView>,
    pod: PendingPodView,
    t: NodeTallyView,
    tallied: Seq<TalliedPodLabelsView>,
    node_labels: NodeLabels,
    i: int,
    j: int,
)
    requires
        is_cheapest(items, pod, t, tallied, node_labels, i),
        is_cheapest(items, pod, t, tallied, node_labels, j),
    ensures
        i == j,
{
    if i < j {
        assert(is_viable(items[i], pod, t, tallied, node_labels));
    } else if j < i {
        assert(is_viable(items[j], pod, t, tallied, node_labels));
    }
}

/// What is in either listing is in both together, and nothing else.
pub proof fn lemma_merged_holds(keys: Seq<Seq<char>>, more: Seq<Seq<char>>, k: Seq<char>)
    ensures
        merged(keys, more).contains(k) == (keys.contains(k) || more.contains(k)),
    decreases more.len(),
{
    if more.len() == 0 {
        assert(!more.contains(k));
    } else {
        let front = more.drop_last();
        let before = merged(keys, front);
        lemma_merged_holds(keys, front, k);
        resources::lemma_take_next(more, more.len() - 1);
        assert(more.take(more.len() as int) =~= more);
        assert(more.take(more.len() - 1) =~= front);
        assert(more.contains(k) == (front.contains(k) || k == more.last()));
        if !before.contains(more.last()) {
            let next = before.push(more.last());
            resources::lemma_take_next(next, before.len() as int);
            assert(next.take(before.len() as int) =~= before);
            assert(next.take(before.len() as int + 1) =~= next);
            assert(next.contains(k) == (before.contains(k) || k == more.last()));
        }
    }
}

proof fn lemma_holder_is_obtainable(
    pods: Seq<NodePodView>,
    claims: Seq<Seq<char>>,
    priority: i32,
    i: int,
)
    requires
        victims::claims_obtainable(pods, claims, priority),
        0 <= i < victims::claim_holders(pods, claims).len(),
    ensures
        pods.contains(victims::claim_holders(pods, claims)[i]),
        victims::claim_holders(pods, claims)[i].priority < priority,
    decreases pods.len(),
{
    let front = pods.drop_last();
    let before = victims::claim_holders(front, claims);
    if i < before.len() {
        assert forall|j: int|
            0 <= j < front.len() && victims::holds_claim(#[trigger] front[j], claims) implies
            front[j].priority < priority by {
            assert(front[j] == pods[j]);
        }
        lemma_holder_is_obtainable(front, claims, priority, i);
        let j = choose|j: int| 0 <= j < front.len() && front[j] == before[i];
        assert(pods[j] == before[i]);
    } else {
        let last = pods[pods.len() - 1];
        assert(victims::holds_claim(last, claims));
    }
}

/// Preemption only ever evicts pods of the node that are of strictly lower
/// priority and that no other plan has picked.
pub proof fn law_plan_evicts_only_less_important_pods(
    n: NodeItemView,
    pod: PendingPodView,
    t: NodeTallyView,
    tallied: Seq<TalliedPodLabelsView>,
    node_labels: NodeLabels,
    k: Seq<char>,
)
    requires
        is_viable(n, pod, t, tallied, node_labels),
        victims_on(n, pod, t).contains(k),
    ensures
        exists|p: NodePodView| #[trigger]
            t.node_pods(n.metadata.name).contains(p) && p.key == k && p.priority < pod.priority,
{
    let pods = t.node_pods(n.metadata.name);
    let slots = node::pod_slots(n);
    let claims = select::qualified_claims(pod.namespace, pod.read_write_once_pod_pvcs);
    let chosen = victims::chosen_victims(
        pod.priority,
        pod.requests,
        pods,
        slots,
        n.status.allocatable,
    );
    let holders = victims::claim_holders(pods, claims);
    lemma_merged_holds(victims::keys_of(chosen), victims::keys_of(holders), k);
    if victims::keys_of(chosen).contains(k) {
        let i = choose|i: int|
            0 <= i < victims::keys_of(chosen).len() && victims::keys_of(chosen)[i] == k;
        victims::law_victims_are_less_important(
            pod.priority,
            pod.requests,
            pods,
            slots,
            n.status.allocatable,
            i,
        );
        assert(pods.contains(chosen[i]));
    } else {
        let i = choose|i: int|
            0 <= i < victims::keys_of(holders).len() && victims::keys_of(holders)[i] == k;
        lemma_holder_is_obtainable(pods, claims, pod.priority, i);
        assert(pods.contains(holders[i]));
    }
}

/// A node that does not suit the pod is never preempted on.
pub proof fn law_unsuitable_node_is_never_preempted_on(
    items: Seq<NodeItemView>,
    pod: PendingPodView,
    t: NodeTallyView,
    tallied: Seq<TalliedPodLabelsView>,
    node_labels: NodeLabels,
    i: int,
)
    requires
        0 <= i < items.len(),
        !node::qualifies(items[i], pod),
    ensures
        !is_cheapest(items, pod, t, tallied, node_labels, i),
{
}

/// While a plan is under way its victims are hidden from every other plan.
pub proof fn law_committed_victims_are_hidden(
    pod: PendingPodView,
    plan: PreemptionPlanView,
    t: NodeTallyView,
    node: Seq<char>,
    i: int,
)
    requires
        0 <= i < committed(pod, plan, t).node_pods(node).len(),
    ensures
        !plan.victims.contains(committed(pod, plan, t).node_pods(node)[i].key),
{
    let reserved = t.with_pod(
        pod::qualified(pod.namespace, pod.pod_name),
        tally::reservation(pod, plan.node_name),
    );
    tally::law_claimed_victims_are_hidden_but_counted(reserved, plan.victims.to_set(), node);
    let key = committed(pod, plan, t).node_pods(node)[i].key;
    assert(!plan.victims.to_set().contains(key));
}

/// Placing a pod takes up a slot: the node counts one pod more, where the pod
/// was not in the tally before.
pub proof fn law_reservation_takes_a_slot(t: NodeTallyView, pod: PendingPodView, node: Seq<char>)
    requires
        t.pods.dom().finite(),
        !t.pods.contains_key(pod::qualified(pod.namespace, pod.pod_name)),
        t.usage_on(node).pod_count < u32::MAX,
    ensures
        t.with_pod(
            pod::qualified(pod.namespace, pod.pod_name),
            tally::reservation(pod, node),
        ).usage_on(node).pod_count == t.usage_on(node).pod_count + 1,
{
    let key = pod::qualified(pod.namespace, pod.pod_name);
    let after = t.with_pod(key, tally::reservation(pod, node));
    let was = crate::index::on_node(t.pods, node);
    let now = crate::index::on_node(after.pods, node);
    assert(now =~= was.insert(key));
    assert(was.subset_of(t.pods.dom()));
    vstd::set_lib::lemma_len_subset(was, t.pods.dom());
    crate::order::lemma_sorted_keys_of_set(was);
    crate::order::lemma_sorted_keys_of_set(now);
    lemma_pod_count(t, t.keys_on(node));
    lemma_pod_count(after, after.keys_on(node));
}

/// A node counts its pods, up to the limit of the count.
pub proof fn lemma_pod_count(t: NodeTallyView, keys: Seq<Seq<char>>)
    ensures
        t.usage_of(keys).pod_count == if keys.len() < u32::MAX {
            keys.len() as int
        } else {
            u32::MAX as int
        },
    decreases keys.len(),
{
    if keys.len() > 0 {
        lemma_pod_count(t, keys.drop_last());
    }
}

/// The node to preempt on costs no more victims than any other that preemption
/// opens, and comes before every other that costs as many.
pub proof fn law_fewest_victims_win(
    items: Seq<NodeItemView>,
    pod: PendingPodView,
    t: NodeTallyView,
    tallied: Seq<TalliedPodLabelsView>,
    node_labels: NodeLabels,
    i: int,
    j: int,
)
    requires
        is_cheapest(items, pod, t, tallied, node_labels, i),
        0 <= j < items.len(),
        is_viable(items[j], pod, t, tallied, node_labels),
    ensures
        victims_on(items[i], pod, t).len() > 0,
        victims_on(items[i], pod, t).len() <= victims_on(items[j], pod, t).len(),
        victims_on(items[i], pod, t).len() == victims_on(items[j], pod, t).len() ==> i <= j,
{
    assert(is_viable(items[i], pod, t, tallied, node_labels));
}

/// A node on which nobody is of strictly lower priority is never opened.
pub proof fn law_nobody_to_evict_opens_nothing(
    n: NodeItemView,
    pod: PendingPodView,
    t: NodeTallyView,
    tallied: Seq<TalliedPodLabelsView>,
    node_labels: NodeLabels,
)
    requires
        forall|j: int|
            0 <= j < t.node_pods(n.metadata.name).len() ==> (#[trigger] t.node_pods(
                n.metadata.name,
            )[j]).priority >= pod.priority,
    ensures
        !is_viable(n, pod, t, tallied, node_labels),
{
    if is_viable(n, pod, t, tallied, node_labels) {
        let gone = victims_on(n, pod, t);
        assert(gone.contains(gone[0]));
        law_plan_evicts_only_less_important_pods(n, pod, t, tallied, node_labels, gone[0]);
        let pods = t.node_pods(n.metadata.name);
        let p = choose|p: NodePodView| #[trigger]
            pods.contains(p) && p.key == gone[0] && p.priority < pod.priority;
        let j = choose|j: int| 0 <= j < pods.len() && pods[j] == p;
        assert(pods[j].priority >= pod.priority);
    }
}

/// A claim that the pod needs for itself stays with a holder of the node that
/// is not of strictly lower priority, and the node is not opened.
pub proof fn law_important_holder_keeps_its_claim(
    n: NodeItemView,
    pod: PendingPodView,
    t: NodeTallyView,
    tallied: Seq<TalliedPodLabelsView>,
    node_labels: NodeLabels,
    j: int,
    c: int,
)
    requires
        0 <= j < t.node_pods(n.metadata.name).len(),
        0 <= c < pod.read_write_once_pod_pvcs.len(),
        t.node_pods(n.metadata.name)[j].priority >= pod.priority,
        t.node_pods(n.metadata.name)[j].pvc_names.contains(
            pod.namespace + "/"@ + pod.read_write_once_pod_pvcs[c],
        ),
    ensures
        !is_viable(n, pod, t, tallied, node_labels),
{
    let pods = t.node_pods(n.metadata.name);
    let claims = select::qualified_claims(pod.namespace, pod.read_write_once_pod_pvcs);
    let wanted = pod.namespace + "/"@ + pod.read_write_once_pod_pvcs[c];
    assert(claims[c] == wanted);
    assert(claims.contains(wanted));
    let i = choose|i: int| 0 <= i < pods[j].pvc_names.len() && pods[j].pvc_names[i] == wanted;
    assert(claims.contains(pods[j].pvc_names[i]));
    assert(victims::holds_claim(pods[j], claims));
}

/// A claim that the pod needs for itself is not free while another pod of the
/// tally uses it, wherever that is; what the pod itself uses does not count.
pub proof fn law_another_user_of_a_claim(
    pod: PendingPodView,
    t: NodeTallyView,
    other: Seq<char>,
    c: int,
)
    requires
        t.pods.contains_key(other),
        0 <= c < pod.read_write_once_pod_pvcs.len(),
        t.pods[other].pvc_names.contains(
            pod.namespace + "/"@ + pod.read_write_once_pod_pvcs[c],
        ),
    ensures
        other != pod.namespace + "/"@ + pod.pod_name ==> !claims_free(pod, t),
        other == pod.namespace + "/"@ + pod.pod_name ==> claims_free(pod, t) == claims_free(
            pod,
            t.without_pod(other),
        ),
{
    let claims = select::qualified_claims(pod.namespace, pod.read_write_once_pod_pvcs);
    let key = pod.namespace + "/"@ + pod.pod_name;
    let wanted = pod.namespace + "/"@ + pod.read_write_once_pod_pvcs[c];
    assert(claims[c] == wanted);
    if other != key {
        assert(t.holds_against(key, None, other));
        assert(!node::claims_unused(t.pods[other].pvc_names, claims));
    } else {
        let u = t.without_pod(other);
        if claims_free(pod, t) {
            assert forall|k: Seq<char>| #[trigger]
                u.pods.contains_key(k) && u.holds_against(key, None, k) implies
                node::claims_unused(u.pods[k].pvc_names, claims) by {
                assert(t.pods.contains_key(k) && t.holds_against(key, None, k));
            }
        }
        if claims_free(pod, u) {
            assert forall|k: Seq<char>| #[trigger]
                t.pods.contains_key(k) && t.holds_against(key, None, k) implies
                node::claims_unused(t.pods[k].pvc_names, claims) by {
                assert(u.pods.contains_key(k) && u.holds_against(key, None, k));
            }
        }
    }
}

/// A driver's limit on a node is not exceeded by preemption: where fewer
/// volumes are left than the pod wants, the node is not opened.
pub proof fn law_volume_limit_is_not_preempted_away(
    n: NodeItemView,
    pod: PendingPodView,
    t: NodeTallyView,
    tallied: Seq<TalliedPodLabelsView>,
    node_labels: NodeLabels,
    driver: Seq<char>,
)
    requires
        t.csi_node_limits.contains_key(n.metadata.name),
        t.csi_node_limits[n.metadata.name].contains_key(driver),
        pod.csi_volume_counts.contains_key(driver),
        ({
            let attached = t.usage_on(n.metadata.name).csi_attached_counts;
            let limit = t.csi_node_limits[n.metadata.name][driver];
            &&& attached.contains_key(driver) ==> i64::MIN <= limit - attached[driver] <= i64::MAX
                && pod.csi_volume_counts[driver] > limit - attached[driver]
            &&& !attached.contains_key(driver) ==> pod.csi_volume_counts[driver] > limit
        }),
    ensures
        !is_viable(n, pod, t, tallied, node_labels),
        !has_volumes(
            pod,
            PreemptionPlanView { node_name: n.metadata.name, victims: Seq::empty() },
            t,
        ),
{
    let name = n.metadata.name;
    csi::law_headroom_is_what_is_left(
        t.csi_node_limits[name],
        t.usage_on(name).csi_attached_counts,
        driver,
    );
    csi::law_more_volumes_than_headroom_are_refused(
        headroom_on(t, name),
        pod.csi_volume_counts,
        driver,
    );
}

/// A node on which a driver that the pod still needs does not run is not
/// opened by preemption.
pub proof fn law_driver_has_to_run_there(
    n: NodeItemView,
    pod: PendingPodView,
    t: NodeTallyView,
    tallied: Seq<TalliedPodLabelsView>,
    node_labels: NodeLabels,
    d: int,
)
    requires
        0 <= d < pod.unbound_csi_pvc_drivers.len(),
        !t.csi_node_drivers.contains_key(n.metadata.name)
            || !t.csi_node_drivers[n.metadata.name].contains(pod.unbound_csi_pvc_drivers[d]),
    ensures
        !is_viable(n, pod, t, tallied, node_labels),
{
    csi::law_unregistered_driver_refuses(
        drivers_on(t, n.metadata.name),
        pod.unbound_csi_pvc_drivers,
        d,
    );
}

/// What is known of a node's volumes is looked up afresh for a pod that wants
/// some: the limits less what is attached, and the drivers that run. For any
/// other pod the listed node is taken as it is, and nothing else of it changes.
pub proof fn law_volumes_are_looked_up_afresh(
    n: NodeItemView,
    pod: PendingPodView,
    t: NodeTallyView,
    driver: Seq<char>,
)
    ensures
        ({
            let m = with_csi(n, pod, t);
            let name = n.metadata.name;
            &&& m.metadata == n.metadata && m.spec == n.spec && m.status == n.status
            &&& pod.csi_volume_counts.len() > 0 && t.csi_node_limits.contains_key(name)
                && t.csi_node_limits[name].contains_key(driver) && !t.usage_on(
                name,
            ).csi_attached_counts.contains_key(driver) ==> m.csi_driver_headroom.contains_key(
                driver,
            ) && m.csi_driver_headroom[driver] == t.csi_node_limits[name][driver]
            &&& pod.csi_volume_counts.len() > 0 && t.csi_node_limits.contains_key(name)
                && t.csi_node_limits[name].contains_key(driver) && t.usage_on(
                name,
            ).csi_attached_counts.contains_key(driver) && i64::MIN
                <= t.csi_node_limits[name][driver] - t.usage_on(name).csi_attached_counts[driver]
                <= i64::MAX ==> m.csi_driver_headroom[driver] == t.csi_node_limits[name][driver]
                - t.usage_on(name).csi_attached_counts[driver]
            &&& pod.unbound_csi_pvc_drivers.len() > 0 && t.csi_node_drivers.contains_key(name)
                ==> m.csi_registered_drivers == t.csi_node_drivers[name]
            &&& pod.csi_volume_counts.len() == 0 ==> m.csi_driver_headroom
                == n.csi_driver_headroom
            &&& pod.unbound_csi_pvc_drivers.len() == 0 ==> m.csi_registered_drivers
                == n.csi_registered_drivers
        }),
{
}

/// Whether a reservation holds is judged by the other pods of the node alone:
/// every one that no plan has picked counts, and the pod itself does not.
pub proof fn law_reservation_is_judged_by_the_others(pods: Seq<NodePodView>, key: Seq<char>)
    ensures
        forall|p: NodePodView| #[trigger]
            others(pods, key).contains(p) == (pods.contains(p) && p.key != key),
        (forall|j: int| 0 <= j < pods.len() ==> (#[trigger] pods[j]).key != key) ==> others(
            pods,
            key,
        ) == pods,
    decreases pods.len(),
{
    if pods.len() > 0 {
        let front = pods.drop_last();
        let last = pods.last();
        law_reservation_is_judged_by_the_others(front, key);
        assert(front.push(last) =~= pods);
        assert forall|p: NodePodView| #[trigger]
            others(pods, key).contains(p) == (pods.contains(p) && p.key != key) by {
            victims::lemma_push_contains(front, last, p);
            victims::lemma_push_contains(others(front, key), last, p);
            assert(others(front, key).contains(p) == (front.contains(p) && p.key != key));
        }
        if forall|j: int| 0 <= j < pods.len() ==> (#[trigger] pods[j]).key != key {
            assert(pods[pods.len() - 1].key != key);
            assert forall|j: int| 0 <= j < front.len() implies (#[trigger] front[j]).key != key by {
                assert(front[j] == pods[j]);
            }
        }
    } else {
        assert(others(pods, key) =~= pods);
    }
}

/// A plan that takes effect adds the pod and hides the victims, and leaves
/// everything else as it was: the other pods, what waits, and what is known of
/// nodes and volumes.
pub proof fn law_plan_touches_nothing_else(
    pod: PendingPodView,
    plan: PreemptionPlanView,
    t: NodeTallyView,
    k: Seq<char>,
)
    ensures
        ({
            let after = committed(pod, plan, t);
            let key = pod.namespace + "/"@ + pod.pod_name;
            &&& after.pods.contains_key(key) && after.pods[key].node_name == plan.node_name
                && after.pods[key].requests == pod.requests && after.pods[key].priority
                == pod.priority && after.pods[key].host_ports == pod.host_ports
                && after.pods[key].labels == pod.labels && after.pods[key].namespace
                == pod.namespace && after.pods[key].bare_pvc_names == pod.pvc_names
            &&& k != key ==> after.pods.contains_key(k) == t.pods.contains_key(k)
            &&& k != key && t.pods.contains_key(k) ==> after.pods[k] == t.pods[k]
            &&& after.reserved_victims.contains(k) == (t.reserved_victims.contains(k)
                || plan.victims.contains(k))
            &&& after.plans == t.plans && after.nodes == t.nodes && after.pvcs == t.pvcs
                && after.pv_csi_drivers == t.pv_csi_drivers && after.sc_provisioners
                == t.sc_provisioners && after.csi_node_limits == t.csi_node_limits
                && after.csi_node_drivers == t.csi_node_drivers
        }),
{
    assert(plan.victims.to_set().contains(k) == plan.victims.contains(k));
}

/// A reservation that others have eaten into does not hold: it takes a slot
/// and enough of cpu, memory, ephemeral storage and everything else beside the
/// other pods of the node that no plan has picked. It holds where that is
/// there.
pub proof fn law_reservation_holds_while_there_is_room(
    pod: PendingPodView,
    n: NodeItemView,
    t: NodeTallyView,
)
    ensures
        ({
            let rest = others(
                t.node_pods(n.metadata.name),
                pod.namespace + "/"@ + pod.pod_name,
            );
            let used = resources::total_requests(victims::requests_of(rest));
            let a = n.status.allocatable;
            &&& node::pod_slots(n) > 0 && rest.len() >= node::pod_slots(n) ==> !reservation_holds(
                pod,
                n,
                t,
            )
            &&& quantity::quantity_milli(a.cpu) != 0 && used.cpu_milli + pod.requests.cpu_milli
                > quantity::quantity_milli(a.cpu) ==> !reservation_holds(pod, n, t)
            &&& quantity::quantity_milli(a.memory) != 0 && used.memory_milli
                + pod.requests.memory_milli > quantity::quantity_milli(a.memory)
                ==> !reservation_holds(pod, n, t)
            &&& quantity::quantity_milli(a.ephemeral_storage) != 0 && used.ephemeral_storage_milli
                + pod.requests.ephemeral_storage_milli > quantity::quantity_milli(
                a.ephemeral_storage,
            ) ==> !reservation_holds(pod, n, t)
            &&& !resources::fits(a, used, pod.requests) ==> !reservation_holds(pod, n, t)
            &&& (node::pod_slots(n) == 0 || rest.len() < node::pod_slots(n)) && resources::fits(
                a,
                used,
                pod.requests,
            ) ==> reservation_holds(pod, n, t)
        }),
{
}

/// What counts as left when victims go is what the node's pods ask for less
/// what the victims among them ask for; a plan goes ahead only where the pod
/// fits beside that, with a slot to spare.
pub proof fn law_plan_goes_ahead_only_with_room(
    pod: PendingPodView,
    n: NodeItemView,
    plan: PreemptionPlanView,
    t: NodeTallyView,
)
    ensures
        ({
            let pods = t.node_pods(plan.node_name);
            let gone = pods_with_keys(pods, plan.victims);
            let left = victims::remaining(
                resources::total_requests(victims::requests_of(pods)),
                gone,
            );
            let a = n.status.allocatable;
            &&& node::pod_slots(n) > 0 && pods.len() - gone.len() >= node::pod_slots(n)
                ==> !has_room_after(pod, n, plan, t)
            &&& quantity::quantity_milli(a.cpu) != 0 && left.cpu_milli + pod.requests.cpu_milli
                > quantity::quantity_milli(a.cpu) ==> !has_room_after(pod, n, plan, t)
            &&& quantity::quantity_milli(a.memory) != 0 && left.memory_milli
                + pod.requests.memory_milli > quantity::quantity_milli(a.memory)
                ==> !has_room_after(pod, n, plan, t)
            &&& quantity::quantity_milli(a.ephemeral_storage) != 0 && left.ephemeral_storage_milli
                + pod.requests.ephemeral_storage_milli > quantity::quantity_milli(
                a.ephemeral_storage,
            ) ==> !has_room_after(pod, n, plan, t)
            &&& !resources::fits(a, left, pod.requests) ==> !has_room_after(pod, n, plan, t)
            &&& (node::pod_slots(n) == 0 || pods.len() - gone.len() < node::pod_slots(n))
                && resources::fits(a, left, pod.requests) ==> has_room_after(pod, n, plan, t)
        }),
        forall|tallied: Seq<TalliedPodLabelsView>, node_labels: NodeLabels| #[trigger]
            is_viable(n, pod, t, tallied, node_labels) ==> has_room_after(
                pod,
                n,
                PreemptionPlanView { node_name: n.metadata.name, victims: victims_on(n, pod, t) },
                t,
            ),
{
}

/// The claims that a pod needs for itself are free where no other pod of the
/// tally uses one of them.
pub proof fn law_unused_claims_are_free(pod: PendingPodView, t: NodeTallyView)
    requires
        forall|k: Seq<char>, c: int|
            #![trigger t.pods[k], pod.read_write_once_pod_pvcs[c]]
            t.pods.contains_key(k) && k != pod.namespace + "/"@ + pod.pod_name && 0 <= c
                < pod.read_write_once_pod_pvcs.len() ==> !t.pods[k].pvc_names.contains(
                pod.namespace + "/"@ + pod.read_write_once_pod_pvcs[c],
            ),
    ensures
        claims_free(pod, t),
{
    let claims = select::qualified_claims(pod.namespace, pod.read_write_once_pod_pvcs);
    let key = pod::qualified(pod.namespace, pod.pod_name);
    assert forall|k: Seq<char>| #[trigger]
        t.pods.contains_key(k) && t.holds_against(key, None, k) implies node::claims_unused(
        t.pods[k].pvc_names,
        claims,
    ) by {
        assert forall|c: int| 0 <= c < claims.len() implies !t.pods[k].pvc_names.contains(
            #[trigger] claims[c],
        ) by {
            assert(claims[c] == pod.namespace + "/"@ + pod.read_write_once_pod_pvcs[c]);
            assert(t.pods[k].pvc_names == t.pods[k].pvc_names);
        }
    }
}

/// A node is opened where it suits the pod, its volumes can be had there, every
/// user of a claim that the pod needs for itself is a pod of the node that can
/// be evicted, and with the victims gone the pod fits and its affinity and
/// spread are met. Nothing else keeps a plan from it.
pub proof fn law_nothing_else_keeps_a_plan_from_a_node(
    n: NodeItemView,
    pod: PendingPodView,
    t: NodeTallyView,
    tallied: Seq<TalliedPodLabelsView>,
    node_labels: NodeLabels,
)
    requires
        node::qualifies(n, pod),
        csi::within_headroom(headroom_on(t, n.metadata.name), pod.csi_volume_counts),
        csi::drivers_registered(drivers_on(t, n.metadata.name), pod.unbound_csi_pvc_drivers),
        forall|j: int, c: int|
            #![trigger t.node_pods(n.metadata.name)[j], pod.read_write_once_pod_pvcs[c]]
            0 <= j < t.node_pods(n.metadata.name).len() && 0 <= c
                < pod.read_write_once_pod_pvcs.len() && t.node_pods(
                n.metadata.name,
            )[j].pvc_names.contains(
                pod.namespace + "/"@ + pod.read_write_once_pod_pvcs[c],
            ) ==> t.node_pods(n.metadata.name)[j].priority < pod.priority,
        forall|k: Seq<char>, c: int|
            #![trigger t.pods[k], pod.read_write_once_pod_pvcs[c]]
            t.pods.contains_key(k) && k != pod.namespace + "/"@ + pod.pod_name && (
            t.pods[k].node_name != n.metadata.name || t.reserved_victims.contains(k)) && 0 <= c
                < pod.read_write_once_pod_pvcs.len() ==> !t.pods[k].pvc_names.contains(
                pod.namespace + "/"@ + pod.read_write_once_pod_pvcs[c],
            ),
        victims_on(n, pod, t).len() > 0,
        has_room_after(
            pod,
            n,
            PreemptionPlanView { node_name: n.metadata.name, victims: victims_on(n, pod, t) },
            t,
        ),
        affinity::suits(
            pod,
            tallied,
            node_labels,
            n.metadata.labels,
            with_keys(tallied, victims_on(n, pod, t)),
        ),
        spread::suits(
            pod,
            tallied,
            node_labels,
            n.metadata.labels,
            with_keys(tallied, victims_on(n, pod, t)),
        ),
    ensures
        is_viable(n, pod, t, tallied, node_labels),
{
    let name = n.metadata.name;
    let pods = t.node_pods(name);
    let claims = select::qualified_claims(pod.namespace, pod.read_write_once_pod_pvcs);
    let key = pod::qualified(pod.namespace, pod.pod_name);
    assert forall|j: int|
        0 <= j < pods.len() && victims::holds_claim(#[trigger] pods[j], claims) implies
        pods[j].priority < pod.priority by {
        let i = choose|i: int|
            0 <= i < pods[j].pvc_names.len() && claims.contains(#[trigger] pods[j].pvc_names[i]);
        let c = choose|c: int| 0 <= c < claims.len() && claims[c] == pods[j].pvc_names[i];
        assert(claims[c] == pod.namespace + "/"@ + pod.read_write_once_pod_pvcs[c]);
        assert(pods[j].pvc_names.contains(claims[c]));
    }
    assert forall|k: Seq<char>| #[trigger]
        t.pods.contains_key(k) && t.holds_against(key, Some(name), k) implies node::claims_unused(
        t.pods[k].pvc_names,
        claims,
    ) by {
        assert forall|c: int| 0 <= c < claims.len() implies !t.pods[k].pvc_names.contains(
            #[trigger] claims[c],
        ) by {
            assert(claims[c] == pod.namespace + "/"@ + pod.read_write_once_pod_pvcs[c]);
            assert(t.pods[k].pvc_names == t.pods[k].pvc_names);
        }
    }
}

} // verus!
