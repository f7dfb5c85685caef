//! Choosing a node for a pod.

use crate::affinity::{self, InterPodAffinityContext, NodeLabels};
use crate::csi::{self, csi_topology_fit, csi_volume_limits_fit};
use crate::duplicate::{slice_of, Duplicate};
use crate::error::SchedulerError;
use crate::node::{
    self, node_qualifies_for_pod, pod_count_capacity, read_write_once_pod_conflict_free, NodeItem,
    NodeItemView, NodeList, NodeUsage, NodeUsageView, TalliedPodLabels, TalliedPodLabelsView,
};
use crate::order;
use crate::pod::{self, pvc_key, PendingPod, PendingPodView};
use crate::ports::{self, host_ports_fit};
use crate::resources::{self, resource_fits};
use crate::spread::{self, TopologySpreadContext};
use crate::string_map::StringMap;
use vstd::prelude::*;

verus! {

/// The labels of each node, by its name.
pub open spec fn labels_by_name(items: Seq<NodeItemView>) -> NodeLabels
    decreases items.len(),
{
    if items.len() == 0 {
        Map::empty()
    } else {
        labels_by_name(items.drop_last()).insert(
            items.last().metadata.name,
            items.last().metadata.labels,
        )
    }
}

/// The usage of a node; nothing where it is not listed.
pub open spec fn usage_for(
    node_usage: Map<Seq<char>, NodeUsageView>,
    name: Seq<char>,
) -> NodeUsageView {
    if node_usage.contains_key(name) {
        node_usage[name]
    } else {
        NodeUsageView::none()
    }
}

/// Claims of a namespace as they are counted across namespaces.
pub open spec fn qualified_claims(
    namespace: Seq<char>,
    names: Seq<Seq<char>>,
) -> Seq<Seq<char>> {
    names.map_values(|n: Seq<char>| pod::qualified(namespace, n))
}

/// The node suits the pod and has room for it, its CSI volumes aside, and no
/// pod there uses a claim that the pod needs for itself.
pub open spec fn has_place(
    n: NodeItemView,
    pod: PendingPodView,
    usage: NodeUsageView,
    tallied: Seq<TalliedPodLabelsView>,
    node_labels: NodeLabels,
) -> bool {
    &&& node::qualifies(n, pod)
    &&& affinity::suits(pod, tallied, node_labels, n.metadata.labels, Seq::empty())
    &&& spread::suits(pod, tallied, node_labels, n.metadata.labels, Seq::empty())
    &&& node::slot_free(node::pod_slots(n), usage.pod_count as int)
    &&& resources::fits(n.status.allocatable, usage.requests, pod.requests)
    &&& ports::ports_free(usage.host_ports, pod.host_ports)
    &&& node::claims_unused(
        usage.pvc_names,
        qualified_claims(pod.namespace, pod.read_write_once_pod_pvcs),
    )
}

/// The claims of the pod that one pod alone may use are not in use on any
/// node.
pub open spec fn claims_free(
    pod: PendingPodView,
    node_usage: Map<Seq<char>, NodeUsageView>,
) -> bool {
    forall|name: Seq<char>| #[trigger]
        node_usage.contains_key(name) ==> node::claims_unused(
            node_usage[name].pvc_names,
            qualified_claims(pod.namespace, pod.read_write_once_pod_pvcs),
        )
}

/// The node is kept from the pod by the number of its CSI volumes and, among
/// what is looked at before, by nothing else.
pub open spec fn over_volume_limit(
    n: NodeItemView,
    pod: PendingPodView,
    usage: NodeUsageView,
    tallied: Seq<TalliedPodLabelsView>,
    node_labels: NodeLabels,
) -> bool {
    has_place(n, pod, usage, tallied, node_labels) && !csi::within_headroom(
        n.csi_driver_headroom,
        pod.csi_volume_counts,
    )
}

/// The pod can be placed on the node.
pub open spec fn can_host(
    n: NodeItemView,
    pod: PendingPodView,
    usage: NodeUsageView,
    tallied: Seq<TalliedPodLabelsView>,
    node_labels: NodeLabels,
) -> bool {
    &&& has_place(n, pod, usage, tallied, node_labels)
    &&& csi::within_headroom(n.csi_driver_headroom, pod.csi_volume_counts)
    &&& csi::drivers_registered(n.csi_registered_drivers, pod.unbound_csi_pvc_drivers)
}

/// `a` is less loaded than `b`: it has fewer pods or, with as many, less cpu,
/// then less memory, then less ephemeral storage in use.
pub open spec fn less_loaded(a: NodeUsageView, b: NodeUsageView) -> bool {
    ||| a.pod_count < b.pod_count
    ||| a.pod_count == b.pod_count && a.requests.cpu_milli < b.requests.cpu_milli
    ||| a.pod_count == b.pod_count && a.requests.cpu_milli == b.requests.cpu_milli
        && a.requests.memory_milli < b.requests.memory_milli
    ||| a.pod_count == b.pod_count && a.requests.cpu_milli == b.requests.cpu_milli
        && a.requests.memory_milli == b.requests.memory_milli
        && a.requests.ephemeral_storage_milli < b.requests.ephemeral_storage_milli
}

/// Node `i` of the list can host the pod.
pub open spec fn hosts(
    items: Seq<NodeItemView>,
    pod: PendingPodView,
    node_usage: Map<Seq<char>, NodeUsageView>,
    tallied: Seq<TalliedPodLabelsView>,
    i: int,
) -> bool {
    can_host(
        items[i],
        pod,
        usage_for(node_usage, items[i].metadata.name),
        tallied,
        labels_by_name(items),
    )
}

/// Node `i` of the list is kept from the pod by the number of its CSI
/// volumes.
pub open spec fn lacks_volumes(
    items: Seq<NodeItemView>,
    pod: PendingPodView,
    node_usage: Map<Seq<char>, NodeUsageView>,
    tallied: Seq<TalliedPodLabelsView>,
    i: int,
) -> bool {
    over_volume_limit(
        items[i],
        pod,
        usage_for(node_usage, items[i].metadata.name),
        tallied,
        labels_by_name(items),
    )
}

/// Node `i` of the list is the choice for the pod: of the nodes that can host
/// it none is less loaded, and none that is as little loaded comes before it.
pub open spec fn is_choice(
    items: Seq<NodeItemView>,
    pod: PendingPodView,
    node_usage: Map<Seq<char>, NodeUsageView>,
    tallied: Seq<TalliedPodLabelsView>,
    i: int,
) -> bool {
    &&& 0 <= i < items.len()
    &&& hosts(items, pod, node_usage, tallied, i)
    &&& forall|j: int|
        0 <= j < items.len() && #[trigger] hosts(items, pod, node_usage, tallied, j)
            ==> !less_loaded(
            usage_for(node_usage, items[j].metadata.name),
            usage_for(node_usage, items[i].metadata.name),
        )
    &&& forall|j: int|
        0 <= j < i && #[trigger] hosts(items, pod, node_usage, tallied, j) ==> less_loaded(
            usage_for(node_usage, items[i].metadata.name),
            usage_for(node_usage, items[j].metadata.name),
        )
}

/// The pod finds a node in the list.
pub open spec fn is_placeable(
    items: Seq<NodeItemView>,
    pod: PendingPodView,
    node_usage: Map<Seq<char>, NodeUsageView>,
    tallied: Seq<TalliedPodLabelsView>,
) -> bool {
    exists|i: int| 0 <= i < items.len() && #[trigger] hosts(items, pod, node_usage, tallied, i)
}

/// Why the pod finds no node in the list; `free` says whether the claims that
/// it needs for itself are.
pub open spec fn refusal(
    items: Seq<NodeItemView>,
    pod: PendingPodView,
    node_usage: Map<Seq<char>, NodeUsageView>,
    tallied: Seq<TalliedPodLabelsView>,
    free: bool,
) -> Seq<char> {
    if free && exists|i: int|
        0 <= i < items.len() && #[trigger] lacks_volumes(items, pod, node_usage, tallied, i) {
        "node(s) exceed max volume count"@
    } else {
        "no node satisfies the pod's nodeSelector/tolerations with free pod/resource capacity (NodeResourcesFit)"@
    }
}

/// The labels of each node, by its name.
pub fn index_labels(items: &Vec<NodeItem>) -> (labels: StringMap<StringMap<String>>)
    ensures
        labels@ == labels_by_name(items.deep_view()),
{
    let ghost all = items.deep_view();
    let mut labels: StringMap<StringMap<String>> = StringMap::new();
    let mut i: usize = 0;
    proof {
        assert(all.take(0) =~= Seq::empty());
    }
    while i < items.len()
        invariant
            all == items.deep_view(),
            i <= items@.len(),
            labels@ == labels_by_name(all.take(i as int)),
        decreases items@.len() - i,
    {
        let n = &items[i];
        proof {
            assert(all.take(i + 1).drop_last() =~= all.take(i as int));
            assert(all.take(i + 1).last() == n@);
        }
        labels.insert(n.metadata.name.clone(), n.metadata.labels.duplicate());
        i += 1;
    }
    assert(all.take(i as int) =~= all);
    labels
}

/// Claims of a namespace as they are counted across namespaces.
pub fn qualify_claims(namespace: &str, names: &Vec<String>) -> (keys: Vec<String>)
    ensures
        keys.deep_view() == qualified_claims(namespace@, names.deep_view()),
{
    let mut keys: Vec<String> = Vec::new();
    let mut i: usize = 0;
    while i < names.len()
        invariant
            i <= names@.len(),
            keys@.len() == i,
            forall|j: int|
                0 <= j < i ==> (#[trigger] keys@[j])@ == pod::qualified(
                    namespace@,
                    names@[j]@,
                ),
        decreases names@.len() - i,
    {
        keys.push(pvc_key(namespace, names[i].as_str()));
        i += 1;
    }
    assert(keys.deep_view() =~= qualified_claims(namespace@, names.deep_view()));
    keys
}

/// Whether `a` is less loaded than `b`.
pub fn is_less_loaded(a: &NodeUsage, b: &NodeUsage) -> (r: bool)
    ensures
        r == less_loaded(a@, b@),
{
    if a.pod_count != b.pod_count {
        return a.pod_count < b.pod_count;
    }
    if a.requests.cpu_milli != b.requests.cpu_milli {
        return a.requests.cpu_milli < b.requests.cpu_milli;
    }
    if a.requests.memory_milli != b.requests.memory_milli {
        return a.requests.memory_milli < b.requests.memory_milli;
    }
    a.requests.ephemeral_storage_milli < b.requests.ephemeral_storage_milli
}

fn find_usage<'a>(
    node_usage: &'a StringMap<NodeUsage>,
    name: &str,
    none: &'a NodeUsage,
) -> (r: &'a NodeUsage)
    requires
        none@ == NodeUsageView::none(),
    ensures
        r@ == usage_for(node_usage@, name@),
{
    match node_usage.get(name) {
        Some(usage) => usage,
        None => none,
    }
}

/// Whether the claims `rwop_pvcs` are not in use on any node.
#[verifier::loop_isolation(false)]
fn claims_unused_anywhere(node_usage: &StringMap<NodeUsage>, rwop_pvcs: &Vec<String>) -> (b: bool)
    ensures
        b == (forall|name: Seq<char>| #[trigger]
            node_usage@.contains_key(name) ==> node::claims_unused(
                node_usage@[name].pvc_names,
                rwop_pvcs.deep_view(),
            )),
{
    let n: usize = node_usage.len();
    let ghost keys = order::sorted_keys(node_usage@.dom());
    let mut i: usize = 0;
    while i < n
        invariant
            i <= n,
            forall|j: int|
                0 <= j < i ==> node::claims_unused(
                    node_usage@[#[trigger] keys[j]].pvc_names,
                    rwop_pvcs.deep_view(),
                ),
        decreases n - i,
    {
        let name = node_usage.key_at(i);
        let usage = node_usage.value_at(i);
        if !read_write_once_pod_conflict_free(slice_of(&usage.pvc_names), slice_of(rwop_pvcs)) {
            assert(node_usage@.contains_key(name@));
            return false;
        }
        i += 1;
    }
    proof {
        assert forall|name: Seq<char>| #[trigger] node_usage@.contains_key(name) implies
            node::claims_unused(node_usage@[name].pvc_names, rwop_pvcs.deep_view()) by {
            assert(keys.to_set().contains(name));
            let j = choose|j: int| 0 <= j < keys.len() && keys[j] == name;
            assert(node_usage@[keys[j]] == node_usage@[name]);
        }
    }
    true
}

/// Of the nodes that suit the pod and have room for it, the name of the least
/// loaded one, and of these the first in the list. Fails where there is none,
/// so that the pod is left waiting instead of being put on a full node, and
/// where a claim that the pod needs for itself is in use on any node.
pub fn select_node_with_capacity(
    list: NodeList,
    pod: &PendingPod,
    node_usage: &StringMap<NodeUsage>,
    tallied_pods: &[TalliedPodLabels],
) -> (r: Result<String, SchedulerError>)
    ensures
        r is Ok <==> claims_free(pod@, node_usage@) && is_placeable(
            list@.items,
            pod@,
            node_usage@,
            tallied_pods.deep_view(),
        ),
        r matches Ok(name) ==> exists|i: int| #[trigger]
            is_choice(list@.items, pod@, node_usage@, tallied_pods.deep_view(), i) && name@
                == list@.items[i].metadata.name,
        r matches Err(e) ==> e@ == refusal(
            list@.items,
            pod@,
            node_usage@,
            tallied_pods.deep_view(),
            claims_free(pod@, node_usage@),
        ),
{
    let rwop_pvcs = qualify_claims(pod.namespace.as_str(), &pod.read_write_once_pod_pvcs);
    let free = claims_unused_anywhere(node_usage, &rwop_pvcs);
    assert(free == claims_free(pod@, node_usage@));
    choose_node(list, pod, node_usage, tallied_pods, free)
}

/// The least loaded node that can host the pod, the first of these in the
/// list. `free` says whether the claims that the pod needs for itself are;
/// where they are not, no node will do.
#[verifier::loop_isolation(false)]
pub fn choose_node(
    list: NodeList,
    pod: &PendingPod,
    node_usage: &StringMap<NodeUsage>,
    tallied_pods: &[TalliedPodLabels],
    free: bool,
) -> (r: Result<String, SchedulerError>)
    ensures
        r is Ok <==> free && is_placeable(
            list@.items,
            pod@,
            node_usage@,
            tallied_pods.deep_view(),
        ),
        r matches Ok(name) ==> exists|i: int| #[trigger]
            is_choice(list@.items, pod@, node_usage@, tallied_pods.deep_view(), i) && name@
                == list@.items[i].metadata.name,
        r matches Err(e) ==> e@ == refusal(
            list@.items,
            pod@,
            node_usage@,
            tallied_pods.deep_view(),
            free,
        ),
{
    let ghost items = list@.items;
    let ghost usages = node_usage@;
    let ghost placed = tallied_pods.deep_view();
    let node_labels_by_name = index_labels(&list.items);
    let affinity_ctx = InterPodAffinityContext::build(pod, tallied_pods, &node_labels_by_name);
    let topology_ctx = TopologySpreadContext::build(pod, tallied_pods, &node_labels_by_name);
    let rwop_pvcs = qualify_claims(pod.namespace.as_str(), &pod.read_write_once_pod_pvcs);
    let none = NodeUsage::default();
    let mut csi_limit_was_the_only_blocker = false;
    let mut best: Option<usize> = None;
    let mut i: usize = 0;
    while i < list.items.len()
        invariant
            i <= list.items@.len(),
            csi_limit_was_the_only_blocker == (exists|j: int|
                0 <= j < i && #[trigger] lacks_volumes(items, pod@, usages, placed, j)),
            best is None ==> forall|j: int|
                0 <= j < i ==> !#[trigger] hosts(items, pod@, usages, placed, j),
            best matches Some(b) ==> {
                &&& 0 <= b < i
                &&& hosts(items, pod@, usages, placed, b as int)
                &&& forall|j: int|
                    0 <= j < i && #[trigger] hosts(items, pod@, usages, placed, j)
                        ==> !less_loaded(
                        usage_for(usages, items[j].metadata.name),
                        usage_for(usages, items[b as int].metadata.name),
                    )
                &&& forall|j: int|
                    0 <= j < b && #[trigger] hosts(items, pod@, usages, placed, j)
                        ==> less_loaded(
                        usage_for(usages, items[b as int].metadata.name),
                        usage_for(usages, items[j].metadata.name),
                    )
            },
        decreases list.items@.len() - i,
    {
        let n = &list.items[i];
        assert(items[i as int] == n@);
        let usage = find_usage(node_usage, n.metadata.name.as_str(), &none);
        let slots: u32 = pod_count_capacity(n);
        let place = node_qualifies_for_pod(n, pod) && affinity_ctx.node_qualifies(
            &n.metadata.labels,
        ) && topology_ctx.node_qualifies(&n.metadata.labels) && (slots == 0 || usage.pod_count
            < slots) && resource_fits(&n.status.allocatable, &usage.requests, &pod.requests)
            && host_ports_fit(slice_of(&usage.host_ports), slice_of(&pod.host_ports))
            && read_write_once_pod_conflict_free(
            slice_of(&usage.pvc_names),
            slice_of(&rwop_pvcs),
        );
        assert(place == has_place(n@, pod@, usage@, placed, labels_by_name(items)));
        let volumes = csi_volume_limits_fit(&n.csi_driver_headroom, &pod.csi_volume_counts);
        if place && !volumes {
            assert(lacks_volumes(items, pod@, usages, placed, i as int));
            csi_limit_was_the_only_blocker = true;
        } else {
            assert(!lacks_volumes(items, pod@, usages, placed, i as int));
        }
        let admitted = place && volumes && csi_topology_fit(
            &n.csi_registered_drivers,
            slice_of(&pod.unbound_csi_pvc_drivers),
        );
        assert(admitted == hosts(items, pod@, usages, placed, i as int));
        if admitted {
            let better = match best {
                Some(b) => {
                    let leader = &list.items[b];
                    assert(items[b as int] == leader@);
                    is_less_loaded(
                        usage,
                        find_usage(node_usage, leader.metadata.name.as_str(), &none),
                    )
                },
                None => true,
            };
            if better {
                best = Some(i);
            }
        }
        i += 1;
    }
    match best {
        Some(b) if free => {
            assert(items[b as int] == list.items@[b as int]@);
            assert(is_choice(items, pod@, usages, placed, b as int));
            Ok(list.items[b].metadata.name.clone())
        },
        _ => {
            if free && csi_limit_was_the_only_blocker {
                Err(SchedulerError::new("node(s) exceed max volume count"))
            } else {
                Err(
                    SchedulerError::new(
                        "no node satisfies the pod's nodeSelector/tolerations with free pod/resource capacity (NodeResourcesFit)",
                    ),
                )
            }
        },
    }
}

/// There is at most one choice.
pub proof fn law_choice_is_unique(
    items: Seq<NodeItemView>,
    pod: PendingPodView,
    node_usage: Map<Seq<char>, NodeUsageView>,
    tallied: Seq<TalliedPodLabelsView>,
    i: int,
    j: int,
)
    requires
        is_choice(items, pod, node_usage, tallied, i),
        is_choice(items, pod, node_usage, tallied, j),
    ensures
        i == j,
{
    if i < j {
        assert(hosts(items, pod, node_usage, tallied, i));
    } else if j < i {
        assert(hosts(items, pod, node_usage, tallied, j));
    }
}

/// The node that is chosen suits the pod, however little loaded others are: it
/// meets the pod's selector, affinity, tolerations, anti-affinity and spread,
/// and every volume of the pod can reach it.
pub proof fn law_chosen_node_suits_the_pod(
    items: Seq<NodeItemView>,
    pod: PendingPodView,
    node_usage: Map<Seq<char>, NodeUsageView>,
    tallied: Seq<TalliedPodLabelsView>,
    i: int,
)
    requires
        is_choice(items, pod, node_usage, tallied, i),
    ensures
        node::qualifies(items[i], pod),
        affinity::suits(
            pod,
            tallied,
            labels_by_name(items),
            items[i].metadata.labels,
            Seq::empty(),
        ),
        spread::suits(
            pod,
            tallied,
            labels_by_name(items),
            items[i].metadata.labels,
            Seq::empty(),
        ),
        csi::drivers_registered(items[i].csi_registered_drivers, pod.unbound_csi_pvc_drivers),
{
}

/// A list without nodes has no place for any pod.
pub proof fn law_no_nodes_no_place(
    pod: PendingPodView,
    node_usage: Map<Seq<char>, NodeUsageView>,
    tallied: Seq<TalliedPodLabelsView>,
)
    ensures
        !is_placeable(Seq::empty(), pod, node_usage, tallied),
{
}

/// Load is compared like a number: a node is not less loaded than itself, and
/// of two nodes with different figures one is less loaded.
pub proof fn law_load_is_a_total_order(a: NodeUsageView, b: NodeUsageView, c: NodeUsageView)
    ensures
        !less_loaded(a, a),
        less_loaded(a, b) && less_loaded(b, c) ==> less_loaded(a, c),
        less_loaded(a, b) || less_loaded(b, a) || (a.pod_count == b.pod_count
            && a.requests.cpu_milli == b.requests.cpu_milli && a.requests.memory_milli
            == b.requests.memory_milli && a.requests.ephemeral_storage_milli
            == b.requests.ephemeral_storage_milli),
{
}

/// Load grows with each figure: a node that has no more pods than another, and
/// asks no more of it in cpu, memory and ephemeral storage, is never the more
/// loaded one, and is less loaded as soon as one of the figures is smaller.
pub proof fn law_load_grows_with_each_figure(a: NodeUsageView, b: NodeUsageView)
    requires
        a.pod_count <= b.pod_count,
        a.requests.cpu_milli <= b.requests.cpu_milli,
        a.requests.memory_milli <= b.requests.memory_milli,
        a.requests.ephemeral_storage_milli <= b.requests.ephemeral_storage_milli,
    ensures
        !less_loaded(b, a),
        a.pod_count < b.pod_count || a.requests.cpu_milli < b.requests.cpu_milli
            || a.requests.memory_milli < b.requests.memory_milli
            || a.requests.ephemeral_storage_milli < b.requests.ephemeral_storage_milli
            ==> less_loaded(a, b),
{
}

/// Pods weigh most, then cpu, then memory, then ephemeral storage: a smaller
/// figure that weighs more outdoes any that weigh less.
pub proof fn law_load_weighs_pods_first(a: NodeUsageView, b: NodeUsageView)
    ensures
        a.pod_count < b.pod_count ==> less_loaded(a, b),
        a.pod_count == b.pod_count && a.requests.cpu_milli < b.requests.cpu_milli ==> less_loaded(
            a,
            b,
        ),
        a.pod_count == b.pod_count && a.requests.cpu_milli == b.requests.cpu_milli
            && a.requests.memory_milli < b.requests.memory_milli ==> less_loaded(a, b),
        a.pod_count == b.pod_count && a.requests.cpu_milli == b.requests.cpu_milli
            && a.requests.memory_milli == b.requests.memory_milli
            && a.requests.ephemeral_storage_milli < b.requests.ephemeral_storage_milli
            ==> less_loaded(a, b),
        a.pod_count == b.pod_count && a.requests.cpu_milli == b.requests.cpu_milli
            && a.requests.memory_milli == b.requests.memory_milli
            && a.requests.ephemeral_storage_milli == b.requests.ephemeral_storage_milli
            ==> !less_loaded(a, b),
{
}

/// The node that is chosen has no more pods than any other that can host the
/// pod; among those with as many it has no more cpu in use, then no more
/// memory, then no more ephemeral storage; and where another is equal in all
/// of them, the chosen one comes first in the list.
pub proof fn law_choice_is_the_least_loaded(
    items: Seq<NodeItemView>,
    pod: PendingPodView,
    node_usage: Map<Seq<char>, NodeUsageView>,
    tallied: Seq<TalliedPodLabelsView>,
    i: int,
    j: int,
)
    requires
        is_choice(items, pod, node_usage, tallied, i),
        0 <= j < items.len(),
        hosts(items, pod, node_usage, tallied, j),
    ensures
        ({
            let a = usage_for(node_usage, items[i].metadata.name);
            let b = usage_for(node_usage, items[j].metadata.name);
            &&& a.pod_count <= b.pod_count
            &&& a.pod_count == b.pod_count ==> a.requests.cpu_milli <= b.requests.cpu_milli
            &&& a.pod_count == b.pod_count && a.requests.cpu_milli == b.requests.cpu_milli
                ==> a.requests.memory_milli <= b.requests.memory_milli
            &&& a.pod_count == b.pod_count && a.requests.cpu_milli == b.requests.cpu_milli
                && a.requests.memory_milli == b.requests.memory_milli
                ==> a.requests.ephemeral_storage_milli <= b.requests.ephemeral_storage_milli
            &&& a.pod_count == b.pod_count && a.requests.cpu_milli == b.requests.cpu_milli
                && a.requests.memory_milli == b.requests.memory_milli
                && a.requests.ephemeral_storage_milli == b.requests.ephemeral_storage_milli
                ==> i <= j
        }),
{
    let a = usage_for(node_usage, items[i].metadata.name);
    let b = usage_for(node_usage, items[j].metadata.name);
    law_load_weighs_pods_first(b, a);
    law_load_weighs_pods_first(a, b);
}

/// The usage of a node is what is listed for it; a node that is not listed has
/// no pods and nothing in use.
pub proof fn law_unlisted_node_is_unused(
    node_usage: Map<Seq<char>, NodeUsageView>,
    name: Seq<char>,
)
    ensures
        node_usage.contains_key(name) ==> usage_for(node_usage, name) == node_usage[name],
        !node_usage.contains_key(name) ==> usage_for(node_usage, name).pod_count == 0
            && usage_for(node_usage, name).requests.cpu_milli == 0 && usage_for(
            node_usage,
            name,
        ).requests.memory_milli == 0 && usage_for(
            node_usage,
            name,
        ).requests.ephemeral_storage_milli == 0 && usage_for(
            node_usage,
            name,
        ).host_ports.len() == 0 && usage_for(node_usage, name).pvc_names.len() == 0,
{
}

/// The node that is chosen has room for the pod: a slot, enough of every
/// resource, no port in conflict, no claim in use that the pod needs for
/// itself, and headroom and drivers for its volumes.
pub proof fn law_chosen_node_has_room(
    items: Seq<NodeItemView>,
    pod: PendingPodView,
    node_usage: Map<Seq<char>, NodeUsageView>,
    tallied: Seq<TalliedPodLabelsView>,
    i: int,
)
    requires
        is_choice(items, pod, node_usage, tallied, i),
    ensures
        ({
            let n = items[i];
            let used = usage_for(node_usage, n.metadata.name);
            &&& node::pod_slots(n) > 0 ==> used.pod_count < node::pod_slots(n)
            &&& resources::fits(n.status.allocatable, used.requests, pod.requests)
            &&& forall|a: int, b: int|
                #![trigger used.host_ports[a], pod.host_ports[b]]
                0 <= a < used.host_ports.len() && 0 <= b < pod.host_ports.len()
                    ==> !ports::conflict(used.host_ports[a], pod.host_ports[b])
            &&& forall|c: int|
                0 <= c < pod.read_write_once_pod_pvcs.len() ==> !used.pvc_names.contains(
                    pod.namespace + "/"@ + #[trigger] pod.read_write_once_pod_pvcs[c],
                )
            &&& forall|d: Seq<char>| #[trigger]
                pod.csi_volume_counts.contains_key(d) && n.csi_driver_headroom.contains_key(d)
                    ==> pod.csi_volume_counts[d] <= n.csi_driver_headroom[d]
            &&& forall|d: int|
                0 <= d < pod.unbound_csi_pvc_drivers.len()
                    ==> n.csi_registered_drivers.contains(
                    #[trigger] pod.unbound_csi_pvc_drivers[d],
                )
        }),
{
    let n = items[i];
    let used = usage_for(node_usage, n.metadata.name);
    let claims = qualified_claims(pod.namespace, pod.read_write_once_pod_pvcs);
    assert(hosts(items, pod, node_usage, tallied, i));
    assert forall|c: int| 0 <= c < pod.read_write_once_pod_pvcs.len() implies
        !used.pvc_names.contains(pod.namespace + "/"@ + #[trigger] pod.read_write_once_pod_pvcs[c])
        by {
        assert(claims[c] == pod.namespace + "/"@ + pod.read_write_once_pod_pvcs[c]);
        assert(!used.pvc_names.contains(claims[c]));
    }
}

/// A pod is not left waiting for no reason: a node that suits it and has a
/// slot, enough of every resource, free ports and claims, and headroom and
/// drivers for its volumes can host it, and so the pod finds a node.
pub proof fn law_node_with_room_is_found(
    items: Seq<NodeItemView>,
    pod: PendingPodView,
    node_usage: Map<Seq<char>, NodeUsageView>,
    tallied: Seq<TalliedPodLabelsView>,
    i: int,
)
    requires
        0 <= i < items.len(),
        node::qualifies(items[i], pod),
        affinity::suits(
            pod,
            tallied,
            labels_by_name(items),
            items[i].metadata.labels,
            Seq::empty(),
        ),
        spread::suits(
            pod,
            tallied,
            labels_by_name(items),
            items[i].metadata.labels,
            Seq::empty(),
        ),
        ({
            let n = items[i];
            let used = usage_for(node_usage, n.metadata.name);
            &&& node::pod_slots(n) == 0 || used.pod_count < node::pod_slots(n)
            &&& resources::fits(n.status.allocatable, used.requests, pod.requests)
            &&& ports::ports_free(used.host_ports, pod.host_ports)
            &&& forall|c: int|
                0 <= c < pod.read_write_once_pod_pvcs.len() ==> !used.pvc_names.contains(
                    pod.namespace + "/"@ + #[trigger] pod.read_write_once_pod_pvcs[c],
                )
            &&& csi::within_headroom(n.csi_driver_headroom, pod.csi_volume_counts)
            &&& csi::drivers_registered(n.csi_registered_drivers, pod.unbound_csi_pvc_drivers)
        }),
    ensures
        hosts(items, pod, node_usage, tallied, i),
        is_placeable(items, pod, node_usage, tallied),
{
    let used = usage_for(node_usage, items[i].metadata.name);
    let claims = qualified_claims(pod.namespace, pod.read_write_once_pod_pvcs);
    assert forall|c: int| 0 <= c < claims.len() implies !used.pvc_names.contains(
        #[trigger] claims[c],
    ) by {
        assert(claims[c] == pod.namespace + "/"@ + pod.read_write_once_pod_pvcs[c]);
    }
    assert(hosts(items, pod, node_usage, tallied, i));
}

/// A claim that the pod needs for itself and that is in use on any node keeps
/// the pod off every node.
pub proof fn law_claim_in_use_keeps_the_pod_off(
    pod: PendingPodView,
    node_usage: Map<Seq<char>, NodeUsageView>,
    name: Seq<char>,
    c: int,
)
    requires
        node_usage.contains_key(name),
        0 <= c < pod.read_write_once_pod_pvcs.len(),
        node_usage[name].pvc_names.contains(
            pod.namespace + "/"@ + pod.read_write_once_pod_pvcs[c],
        ),
    ensures
        !claims_free(pod, node_usage),
{
    let claims = qualified_claims(pod.namespace, pod.read_write_once_pod_pvcs);
    assert(claims[c] == pod.namespace + "/"@ + pod.read_write_once_pod_pvcs[c]);
}

/// The labels of a node are those of its item; of two items with one name the
/// last one counts.
pub proof fn law_labels_are_those_of_the_item(items: Seq<NodeItemView>, i: int)
    requires
        0 <= i < items.len(),
        forall|j: int|
            i < j < items.len() ==> (#[trigger] items[j]).metadata.name != items[i].metadata.name,
    ensures
        labels_by_name(items).contains_key(items[i].metadata.name),
        labels_by_name(items)[items[i].metadata.name] == items[i].metadata.labels,
    decreases items.len(),
{
    let front = items.drop_last();
    if i < front.len() {
        assert(front[i] == items[i]);
        assert forall|j: int| i < j < front.len() implies (#[trigger] front[j]).metadata.name
            != front[i].metadata.name by {
            assert(front[j] == items[j]);
        }
        law_labels_are_those_of_the_item(front, i);
        assert(items[items.len() - 1].metadata.name != items[i].metadata.name);
    }
}

/// The reason names the number of volumes exactly where the claims are free
/// and some node lacks nothing but headroom for them.
pub proof fn law_refusal_names_the_volumes(
    items: Seq<NodeItemView>,
    pod: PendingPodView,
    node_usage: Map<Seq<char>, NodeUsageView>,
    tallied: Seq<TalliedPodLabelsView>,
    i: int,
)
    requires
        0 <= i < items.len(),
        has_place(
            items[i],
            pod,
            usage_for(node_usage, items[i].metadata.name),
            tallied,
            labels_by_name(items),
        ),
        !csi::within_headroom(items[i].csi_driver_headroom, pod.csi_volume_counts),
    ensures
        refusal(items, pod, node_usage, tallied, true) == "node(s) exceed max volume count"@,
        !hosts(items, pod, node_usage, tallied, i),
{
    assert(lacks_volumes(items, pod, node_usage, tallied, i));
}

/// In every other case the reason is the general one: where a claim is in use,
/// and where each node that lacks headroom lacks something else too.
pub proof fn law_refusal_in_general(
    items: Seq<NodeItemView>,
    pod: PendingPodView,
    node_usage: Map<Seq<char>, NodeUsageView>,
    tallied: Seq<TalliedPodLabelsView>,
)
    ensures
        refusal(items, pod, node_usage, tallied, false)
            == "no node satisfies the pod's nodeSelector/tolerations with free pod/resource capacity (NodeResourcesFit)"@,
        (forall|i: int|
            0 <= i < items.len() ==> !has_place(
                #[trigger] items[i],
                pod,
                usage_for(node_usage, items[i].metadata.name),
                tallied,
                labels_by_name(items),
            ) || csi::within_headroom(items[i].csi_driver_headroom, pod.csi_volume_counts))
            ==> refusal(items, pod, node_usage, tallied, true)
            == "no node satisfies the pod's nodeSelector/tolerations with free pod/resource capacity (NodeResourcesFit)"@,
{
    if forall|i: int|
        0 <= i < items.len() ==> !has_place(
            #[trigger] items[i],
            pod,
            usage_for(node_usage, items[i].metadata.name),
            tallied,
            labels_by_name(items),
        ) || csi::within_headroom(items[i].csi_driver_headroom, pod.csi_volume_counts) {
        assert forall|i: int| 0 <= i < items.len() implies !#[trigger] lacks_volumes(
            items,
            pod,
            node_usage,
            tallied,
            i,
        ) by {
            assert(items[i] == items[i]);
        }
    }
}

} // verus!
