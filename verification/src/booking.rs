//! What holds of the room on a node across placements: none is given out
//! twice, and none that is not there.

use crate::index;
use crate::listing;
use crate::node::{self, NodeItemView};
use crate::order;
use crate::placement;
use crate::pod::{self, PendingPodView};
use crate::ports;
use crate::resources::{self, NodeAllocatableView};
use crate::select;
use crate::tally::{self, NodeTallyView};
use vstd::prelude::*;
use vstd::string::*;

verus! {

/// `f` summed over `keys`.
pub open spec fn sum_over(f: spec_fn(Seq<char>) -> int, keys: Seq<Seq<char>>) -> int
    decreases keys.len(),
{
    if keys.len() == 0 {
        0
    } else {
        sum_over(f, keys.drop_last()) + f(keys.last())
    }
}

/// No partial sum of `f` over `keys` leaves the range of an `i64`.
pub open spec fn sums_in_range(f: spec_fn(Seq<char>) -> int, keys: Seq<Seq<char>>) -> bool {
    forall|i: int|
        0 <= i <= keys.len() ==> i64::MIN <= #[trigger] sum_over(f, keys.take(i)) <= i64::MAX
}

/// How much of the resource `name` each pod asks for.
pub open spec fn requested(t: NodeTallyView, name: Seq<char>) -> spec_fn(Seq<char>) -> int {
    |k: Seq<char>| t.pods[k].requests.of(name) as int
}

/// How many volumes of `driver` each pod has.
pub open spec fn volumes_of(t: NodeTallyView, driver: Seq<char>) -> spec_fn(Seq<char>) -> int {
    |k: Seq<char>|
        resources::amount(
            t.volume_counts(t.pods[k].namespace, t.pods[k].bare_pvc_names),
            driver,
        ) as int
}

/// The key of `pod` in the tally.
pub open spec fn key_of(pod: PendingPodView) -> Seq<char> {
    pod::qualified(pod.namespace, pod.pod_name)
}

/// The tally with room for `pod` reserved on `node`.
pub open spec fn reserved(t: NodeTallyView, pod: PendingPodView, node: Seq<char>) -> NodeTallyView {
    t.with_pod(key_of(pod), tally::reservation(pod, node))
}

/// What a node can give of cpu, memory or ephemeral storage; 0 where that is
/// unknown.
pub open spec fn basic_capacity(allocatable: NodeAllocatableView, name: Seq<char>) -> int {
    if name == "cpu"@ {
        crate::quantity::quantity_milli(allocatable.cpu)
    } else if name == "memory"@ {
        crate::quantity::quantity_milli(allocatable.memory)
    } else {
        crate::quantity::quantity_milli(allocatable.ephemeral_storage)
    }
}

proof fn lemma_sum_remove(f: spec_fn(Seq<char>) -> int, keys: Seq<Seq<char>>, i: int)
    requires
        0 <= i < keys.len(),
    ensures
        sum_over(f, keys) == sum_over(f, keys.remove(i)) + f(keys[i]),
    decreases keys.len(),
{
    let rest = keys.remove(i);
    if i == keys.len() - 1 {
        assert(rest =~= keys.drop_last());
    } else {
        lemma_sum_remove(f, keys.drop_last(), i);
        assert(rest.drop_last() =~= keys.drop_last().remove(i));
        assert(rest.last() == keys.last());
    }
}

/// What is the same of every key sums up to the same.
pub proof fn lemma_sum_same(
    f: spec_fn(Seq<char>) -> int,
    g: spec_fn(Seq<char>) -> int,
    keys: Seq<Seq<char>>,
)
    requires
        forall|i: int| 0 <= i < keys.len() ==> f(#[trigger] keys[i]) == g(keys[i]),
    ensures
        sum_over(f, keys) == sum_over(g, keys),
    decreases keys.len(),
{
    if keys.len() > 0 {
        assert(keys[keys.len() - 1] == keys.last());
        assert forall|i: int| 0 <= i < keys.drop_last().len() implies f(
            #[trigger] keys.drop_last()[i],
        ) == g(keys.drop_last()[i]) by {
            assert(keys.drop_last()[i] == keys[i]);
        }
        lemma_sum_same(f, g, keys.drop_last());
    }
}

proof fn lemma_range_front(f: spec_fn(Seq<char>) -> int, keys: Seq<Seq<char>>)
    requires
        sums_in_range(f, keys),
        keys.len() > 0,
    ensures
        sums_in_range(f, keys.drop_last()),
        i64::MIN <= sum_over(f, keys) <= i64::MAX,
{
    let front = keys.drop_last();
    assert forall|i: int| 0 <= i <= front.len() implies i64::MIN <= #[trigger] sum_over(
        f,
        front.take(i),
    ) <= i64::MAX by {
        assert(front.take(i) =~= keys.take(i));
    }
    assert(keys.take(keys.len() as int) =~= keys);
}

proof fn lemma_requests_exact(t: NodeTallyView, keys: Seq<Seq<char>>, name: Seq<char>)
    requires
        sums_in_range(requested(t, name), keys),
    ensures
        t.usage_of(keys).requests.of(name) == sum_over(requested(t, name), keys),
    decreases keys.len(),
{
    if keys.len() > 0 {
        lemma_range_front(requested(t, name), keys);
        lemma_requests_exact(t, keys.drop_last(), name);
        let a = t.usage_of(keys.drop_last()).requests;
        let b = t.pods[keys.last()].requests;
        if !resources::is_basic(name) && !a.plus(b).extended.contains_key(name) {
            assert(resources::amount(a.extended, name) == 0);
            assert(resources::amount(b.extended, name) == 0);
        }
    }
}

proof fn lemma_volumes_exact(t: NodeTallyView, keys: Seq<Seq<char>>, driver: Seq<char>)
    requires
        sums_in_range(volumes_of(t, driver), keys),
    ensures
        resources::amount(t.usage_of(keys).csi_attached_counts, driver) == sum_over(
            volumes_of(t, driver),
            keys,
        ),
    decreases keys.len(),
{
    if keys.len() > 0 {
        lemma_range_front(volumes_of(t, driver), keys);
        lemma_volumes_exact(t, keys.drop_last(), driver);
    }
}

/// One more pod in the listing of a node: the others stay where they are.
proof fn lemma_one_more(t: NodeTallyView, pod: PendingPodView, node: Seq<char>) -> (i: int)
    requires
        t.pods.dom().finite(),
        !t.pods.contains_key(key_of(pod)),
    ensures
        0 <= i < reserved(t, pod, node).keys_on(node).len(),
        reserved(t, pod, node).keys_on(node)[i] == key_of(pod),
        reserved(t, pod, node).keys_on(node).remove(i) == t.keys_on(node),
        !t.keys_on(node).contains(key_of(pod)),
        forall|j: int|
            0 <= j < t.keys_on(node).len() ==> t.pods.contains_key(
                #[trigger] t.keys_on(node)[j],
            ) && t.pods[t.keys_on(node)[j]].node_name == node,
{
    let key = key_of(pod);
    let was = index::on_node(t.pods, node);
    let now = index::on_node(reserved(t, pod, node).pods, node);
    assert(now =~= was.insert(key));
    assert(was.subset_of(t.pods.dom()));
    vstd::set_lib::lemma_len_subset(was, t.pods.dom());
    order::lemma_sorted_keys_of_set(was);
    order::lemma_sorted_keys_of_set(now);
    let before = order::sorted_keys(was);
    let after = order::sorted_keys(now);
    order::lemma_sorted_keys(after);
    assert(after.to_set().contains(key));
    let i = choose|i: int| 0 <= i < after.len() && after[i] == key;
    let rest = after.remove(i);
    assert forall|a: int, b: int| 0 <= a < b < rest.len() implies order::text_precedes(
        rest[a],
        rest[b],
    ) by {
        let x = if a < i {
            a
        } else {
            a + 1
        };
        let y = if b < i {
            b
        } else {
            b + 1
        };
        assert(rest[a] == after[x] && rest[b] == after[y]);
    }
    assert(rest.to_set() =~= was) by {
        assert forall|k: Seq<char>| rest.to_set().contains(k) == was.contains(k) by {
            if rest.to_set().contains(k) {
                let a = choose|a: int| 0 <= a < rest.len() && rest[a] == k;
                let x = if a < i {
                    a
                } else {
                    a + 1
                };
                assert(after[x] == k && x != i);
                assert(after.to_set().contains(k));
            }
            if was.contains(k) {
                assert(after.to_set().contains(k));
                let x = choose|x: int| 0 <= x < after.len() && after[x] == k;
                assert(x != i);
                assert(rest[if x < i {
                    x
                } else {
                    x - 1
                }] == k);
            }
        }
    }
    order::lemma_sorted_unique(rest, before);
    assert forall|j: int| 0 <= j < before.len() implies t.pods.contains_key(#[trigger] before[j])
        && t.pods[before[j]].node_name == node by {
        assert(before.to_set().contains(before[j]));
    }
    assert(!before.contains(key)) by {
        if before.contains(key) {
            assert(before.to_set().contains(key));
        }
    }
    i
}

/// Reserving room for a pod adds what it asks for to what is taken up on the
/// node, where the pod was not in the tally before and no sum leaves the range
/// of an `i64`.
pub proof fn law_reservation_adds_its_requests(
    t: NodeTallyView,
    pod: PendingPodView,
    node: Seq<char>,
    name: Seq<char>,
)
    requires
        t.pods.dom().finite(),
        !t.pods.contains_key(key_of(pod)),
        sums_in_range(requested(t, name), t.keys_on(node)),
        sums_in_range(
            requested(reserved(t, pod, node), name),
            reserved(t, pod, node).keys_on(node),
        ),
    ensures
        reserved(t, pod, node).usage_on(node).requests.of(name) == t.usage_on(
            node,
        ).requests.of(name) + pod.requests.of(name),
{
    let after = reserved(t, pod, node);
    let i = lemma_one_more(t, pod, node);
    let keys = t.keys_on(node);
    lemma_requests_exact(t, keys, name);
    lemma_requests_exact(after, after.keys_on(node), name);
    lemma_sum_remove(requested(after, name), after.keys_on(node), i);
    assert forall|j: int| 0 <= j < keys.len() implies requested(after, name)(#[trigger] keys[j])
        == requested(t, name)(keys[j]) by {
        assert(keys.contains(keys[j]));
    }
    lemma_sum_same(requested(after, name), requested(t, name), keys);
}

/// Reserving room for a pod adds its volumes to those on the node, where the
/// pod was not in the tally before and no sum leaves the range of an `i64`.
pub proof fn law_reservation_adds_its_volumes(
    t: NodeTallyView,
    pod: PendingPodView,
    node: Seq<char>,
    driver: Seq<char>,
)
    requires
        t.pods.dom().finite(),
        !t.pods.contains_key(key_of(pod)),
        sums_in_range(volumes_of(t, driver), t.keys_on(node)),
        sums_in_range(
            volumes_of(reserved(t, pod, node), driver),
            reserved(t, pod, node).keys_on(node),
        ),
    ensures
        resources::amount(
            reserved(t, pod, node).usage_on(node).csi_attached_counts,
            driver,
        ) == resources::amount(t.usage_on(node).csi_attached_counts, driver)
            + resources::amount(t.volume_counts(pod.namespace, pod.pvc_names), driver),
{
    let after = reserved(t, pod, node);
    let i = lemma_one_more(t, pod, node);
    let keys = t.keys_on(node);
    lemma_volumes_exact(t, keys, driver);
    lemma_volumes_exact(after, after.keys_on(node), driver);
    lemma_sum_remove(volumes_of(after, driver), after.keys_on(node), i);
    assert forall|ns: Seq<char>, names: Seq<Seq<char>>| #[trigger]
        after.volume_counts(ns, names) == t.volume_counts(ns, names) by {
        assert(after.drivers_of(ns, crate::volumes::distinct(names)) =~= t.drivers_of(
            ns,
            crate::volumes::distinct(names),
        ));
    }
    assert forall|j: int| 0 <= j < keys.len() implies volumes_of(after, driver)(
        #[trigger] keys[j],
    ) == volumes_of(t, driver)(keys[j]) by {
        assert(keys.contains(keys[j]));
    }
    lemma_sum_same(volumes_of(after, driver), volumes_of(t, driver), keys);
}

proof fn lemma_usage_same(a: NodeTallyView, b: NodeTallyView, keys: Seq<Seq<char>>)
    requires
        a.pvcs == b.pvcs,
        a.pv_csi_drivers == b.pv_csi_drivers,
        a.sc_provisioners == b.sc_provisioners,
        a.reserved_victims == b.reserved_victims,
        forall|j: int| 0 <= j < keys.len() ==> a.pods[#[trigger] keys[j]] == b.pods[keys[j]],
    ensures
        a.usage_of(keys) == b.usage_of(keys),
        a.unclaimed(keys) == b.unclaimed(keys),
    decreases keys.len(),
{
    if keys.len() > 0 {
        let front = keys.drop_last();
        assert forall|j: int| 0 <= j < front.len() implies a.pods[#[trigger] front[j]]
            == b.pods[front[j]] by {
            assert(front[j] == keys[j]);
        }
        lemma_usage_same(a, b, front);
        assert(a.pods[keys[keys.len() - 1]] == b.pods[keys.last()]);
        let p = a.pods[keys.last()];
        let names = crate::volumes::distinct(p.bare_pvc_names);
        assert(a.drivers_of(p.namespace, names) =~= b.drivers_of(p.namespace, names));
    }
}

/// Reserving room for a pod changes nothing on any other node, but for the one
/// that the pod was on before.
pub proof fn law_reservation_leaves_other_nodes_alone(
    t: NodeTallyView,
    pod: PendingPodView,
    node: Seq<char>,
    other: Seq<char>,
)
    requires
        t.is_valid(),
        other != node,
        !index::on_node(t.pods, other).contains(key_of(pod)),
    ensures
        reserved(t, pod, node).usage_on(other) == t.usage_on(other),
        reserved(t, pod, node).usage().contains_key(other) == t.usage().contains_key(other),
        reserved(t, pod, node).node_pods(other) == t.node_pods(other),
        reserved(t, pod, node).nodes == t.nodes,
{
    let after = reserved(t, pod, node);
    let keys = t.keys_on(other);
    assert(index::on_node(after.pods, other) =~= index::on_node(t.pods, other));
    listing::lemma_keys_on(t, other);
    assert forall|j: int| 0 <= j < keys.len() implies after.pods[#[trigger] keys[j]]
        == t.pods[keys[j]] by {
        assert(keys.contains(keys[j]));
        assert(index::on_node(t.pods, other).contains(keys[j]));
    }
    lemma_usage_same(after, t, keys);
}

proof fn lemma_usage_for(t: NodeTallyView, node: Seq<char>)
    requires
        t.pods.dom().finite(),
    ensures
        select::usage_for(t.usage(), node) == t.usage_on(node),
{
    if !t.usage().contains_key(node) {
        let on = index::on_node(t.pods, node);
        assert(on =~= Set::<Seq<char>>::empty());
        order::lemma_sorted_keys_of_set(on);
        assert(t.keys_on(node).len() == 0);
    }
}

/// A pod is only placed where there is room: when it has been given node `i`,
/// the node has no more pods than it takes, and what its pods ask for
/// together of the resource `name` does not exceed what the node has, as far
/// as that is known. The pod was not in the tally before, and no sum leaves the
/// range of an `i64`.
pub proof fn law_placement_stays_within_capacity(
    t: NodeTallyView,
    items: Seq<NodeItemView>,
    pod: PendingPodView,
    i: int,
    name: Seq<char>,
)
    requires
        t.pods.dom().finite(),
        !t.pods.contains_key(key_of(pod)),
        select::is_choice(
            placement::all_with_csi(items, pod, t),
            pod,
            t.usage(),
            t.labels(),
            i,
        ),
        sums_in_range(requested(t, name), t.keys_on(items[i].metadata.name)),
        sums_in_range(
            requested(reserved(t, pod, items[i].metadata.name), name),
            reserved(t, pod, items[i].metadata.name).keys_on(items[i].metadata.name),
        ),
    ensures
        ({
            let n = items[i];
            let usage = reserved(t, pod, n.metadata.name).usage_on(n.metadata.name);
            &&& node::pod_slots(n) > 0 ==> usage.pod_count <= node::pod_slots(n)
            &&& resources::is_basic(name) && basic_capacity(n.status.allocatable, name) != 0
                ==> usage.requests.of(name) <= basic_capacity(n.status.allocatable, name)
            &&& !resources::is_basic(name) && pod.requests.of(name) != 0
                ==> usage.requests.of(name) <= resources::extended_capacity(
                n.status.allocatable,
                name,
            )
        }),
{
    let seen = placement::all_with_csi(items, pod, t);
    let n = items[i];
    let m = seen[i];
    assert(m == placement::with_csi(n, pod, t));
    let node = n.metadata.name;
    lemma_usage_for(t, node);
    assert(select::hosts(seen, pod, t.usage(), t.labels(), i));
    assert(resources::fits(n.status.allocatable, t.usage_on(node).requests, pod.requests));
    assert(node::slot_free(node::pod_slots(n), t.usage_on(node).pod_count as int));
    law_reservation_adds_its_requests(t, pod, node, name);
    if node::pod_slots(n) > 0 {
        placement::law_reservation_takes_a_slot(t, pod, node);
    }
    reveal_strlit("cpu");
    reveal_strlit("memory");
    reveal_strlit("ephemeral-storage");
    assert("cpu"@.len() == 3 && "memory"@.len() == 6 && "ephemeral-storage"@.len() == 17);
    if !resources::is_basic(name) && pod.requests.of(name) != 0 {
        assert(pod.requests.extended.contains_key(name));
    }
}

/// A pod is only placed where its volumes can be attached: when it has been
/// given node `i`, the node has no more volumes of a driver than the driver's
/// limit there. The pod asks for the volumes that the tally counts of its
/// claims, was not in the tally before, and no sum leaves the range of an
/// `i64`.
pub proof fn law_placement_stays_within_volume_limits(
    t: NodeTallyView,
    items: Seq<NodeItemView>,
    pod: PendingPodView,
    i: int,
    driver: Seq<char>,
)
    requires
        t.pods.dom().finite(),
        !t.pods.contains_key(key_of(pod)),
        select::is_choice(
            placement::all_with_csi(items, pod, t),
            pod,
            t.usage(),
            t.labels(),
            i,
        ),
        pod.csi_volume_counts == t.volume_counts(pod.namespace, pod.pvc_names),
        pod.csi_volume_counts.dom().finite(),
        pod.csi_volume_counts.contains_key(driver),
        t.csi_node_limits.contains_key(items[i].metadata.name),
        t.csi_node_limits[items[i].metadata.name].contains_key(driver),
        sums_in_range(volumes_of(t, driver), t.keys_on(items[i].metadata.name)),
        sums_in_range(
            volumes_of(reserved(t, pod, items[i].metadata.name), driver),
            reserved(t, pod, items[i].metadata.name).keys_on(items[i].metadata.name),
        ),
    ensures
        resources::amount(
            reserved(t, pod, items[i].metadata.name).usage_on(
                items[i].metadata.name,
            ).csi_attached_counts,
            driver,
        ) <= t.csi_node_limits[items[i].metadata.name][driver],
{
    let seen = placement::all_with_csi(items, pod, t);
    let n = items[i];
    let m = seen[i];
    assert(m == placement::with_csi(n, pod, t));
    let node = n.metadata.name;
    lemma_usage_for(t, node);
    assert(select::hosts(seen, pod, t.usage(), t.labels(), i));
    let counts = pod.csi_volume_counts;
    assert(counts.dom().contains(driver));
    assert(counts.len() > 0) by {
        vstd::set_lib::lemma_len_subset(set![driver], counts.dom());
    }
    assert(m.csi_driver_headroom == placement::headroom_on(t, node));
    assert(counts[driver] <= m.csi_driver_headroom[driver]);
    law_reservation_adds_its_volumes(t, pod, node, driver);
}

proof fn lemma_ports_listed(
    t: NodeTallyView,
    keys: Seq<Seq<char>>,
    i: int,
    wanted: Seq<ports::HostPortClaimView>,
)
    requires
        0 <= i < keys.len(),
        ports::ports_free(t.usage_of(keys).host_ports, wanted),
    ensures
        ports::ports_free(t.pods[keys[i]].host_ports, wanted),
    decreases keys.len(),
{
    let front = keys.drop_last();
    let before = t.usage_of(front).host_ports;
    let last = t.pods[keys.last()].host_ports;
    let all = before + last;
    assert(t.usage_of(keys).host_ports == all);
    if i < front.len() {
        assert forall|a: int, b: int|
            #![trigger before[a], wanted[b]]
            0 <= a < before.len() && 0 <= b < wanted.len() implies !ports::conflict(
            before[a],
            wanted[b],
        ) by {
            assert(all[a] == before[a]);
        }
        lemma_ports_listed(t, front, i, wanted);
        assert(front[i] == keys[i]);
    } else {
        assert forall|a: int, b: int|
            #![trigger last[a], wanted[b]]
            0 <= a < last.len() && 0 <= b < wanted.len() implies !ports::conflict(
            last[a],
            wanted[b],
        ) by {
            assert(all[before.len() + a] == last[a]);
        }
    }
}

proof fn lemma_claims_listed(t: NodeTallyView, keys: Seq<Seq<char>>, i: int, claim: Seq<char>)
    requires
        0 <= i < keys.len(),
        t.pods[keys[i]].pvc_names.contains(claim),
    ensures
        t.usage_of(keys).pvc_names.contains(claim),
    decreases keys.len(),
{
    let front = keys.drop_last();
    let before = t.usage_of(front).pvc_names;
    let last = t.pods[keys.last()].pvc_names;
    let all = before + last;
    assert(t.usage_of(keys).pvc_names == all);
    if i < front.len() {
        assert(front[i] == keys[i]);
        lemma_claims_listed(t, front, i, claim);
        let a = choose|a: int| 0 <= a < before.len() && before[a] == claim;
        assert(all[a] == claim);
    } else {
        let a = choose|a: int| 0 <= a < last.len() && last[a] == claim;
        assert(all[before.len() + a] == claim);
    }
}

/// No two pods of the node claim ports that conflict.
pub open spec fn ports_apart(t: NodeTallyView, node: Seq<char>) -> bool {
    forall|a: Seq<char>, b: Seq<char>|
        #![trigger t.pods[a], t.pods[b]]
        a != b && index::on_node(t.pods, node).contains(a) && index::on_node(
            t.pods,
            node,
        ).contains(b) ==> ports::ports_free(t.pods[a].host_ports, t.pods[b].host_ports)
}

/// Placing a pod leaves no two pods of its node with ports that conflict,
/// where there were none before.
pub proof fn law_placement_keeps_ports_apart(
    t: NodeTallyView,
    items: Seq<NodeItemView>,
    pod: PendingPodView,
    i: int,
)
    requires
        t.pods.dom().finite(),
        !t.pods.contains_key(key_of(pod)),
        select::is_choice(
            placement::all_with_csi(items, pod, t),
            pod,
            t.usage(),
            t.labels(),
            i,
        ),
        ports_apart(t, items[i].metadata.name),
    ensures
        ports_apart(reserved(t, pod, items[i].metadata.name), items[i].metadata.name),
{
    let seen = placement::all_with_csi(items, pod, t);
    let node = items[i].metadata.name;
    assert(seen[i] == placement::with_csi(items[i], pod, t));
    lemma_usage_for(t, node);
    assert(select::hosts(seen, pod, t.usage(), t.labels(), i));
    let after = reserved(t, pod, node);
    let key = key_of(pod);
    let was = index::on_node(t.pods, node);
    assert(was.subset_of(t.pods.dom()));
    vstd::set_lib::lemma_len_subset(was, t.pods.dom());
    order::lemma_sorted_keys_of_set(was);
    let keys = t.keys_on(node);
    assert forall|k: Seq<char>| was.contains(k) implies ports::ports_free(
        #[trigger] t.pods[k].host_ports,
        pod.host_ports,
    ) by {
        assert(keys.to_set().contains(k));
        let j = choose|j: int| 0 <= j < keys.len() && keys[j] == k;
        lemma_ports_listed(t, keys, j, pod.host_ports);
    }
    assert forall|a: Seq<char>, b: Seq<char>|
        #![trigger after.pods[a], after.pods[b]]
        a != b && index::on_node(after.pods, node).contains(a) && index::on_node(
            after.pods,
            node,
        ).contains(b) implies ports::ports_free(
        after.pods[a].host_ports,
        after.pods[b].host_ports,
    ) by {
        if a == key {
            assert(was.contains(b));
            assert(ports::ports_free(t.pods[b].host_ports, pod.host_ports));
            lemma_ports_free_swapped(t.pods[b].host_ports, pod.host_ports);
        } else if b == key {
            assert(was.contains(a));
            assert(ports::ports_free(t.pods[a].host_ports, pod.host_ports));
        } else {
            assert(was.contains(a) && was.contains(b));
            assert(after.pods[a] == t.pods[a] && after.pods[b] == t.pods[b]);
        }
    }
}

proof fn lemma_ports_free_swapped(
    a: Seq<ports::HostPortClaimView>,
    b: Seq<ports::HostPortClaimView>,
)
    requires
        ports::ports_free(a, b),
    ensures
        ports::ports_free(b, a),
{
    assert forall|i: int, j: int|
        #![trigger b[i], a[j]]
        0 <= i < b.len() && 0 <= j < a.len() implies !ports::conflict(b[i], a[j]) by {
        ports::law_conflict_is_symmetric(a[j], b[i]);
    }
}

/// A claim that one pod alone may use is not used by any other pod, on any
/// node, when the pod that needs it for itself is placed; and on the node that
/// the pod gets no pod uses it, not even the pod itself from before.
pub proof fn law_exclusive_claims_are_not_shared(
    t: NodeTallyView,
    items: Seq<NodeItemView>,
    pod: PendingPodView,
    i: int,
    claim: Seq<char>,
    other: Seq<char>,
)
    requires
        t.pods.dom().finite(),
        placement::claims_free(pod, t),
        select::is_choice(
            placement::all_with_csi(items, pod, t),
            pod,
            t.usage(),
            t.labels(),
            i,
        ),
        pod.read_write_once_pod_pvcs.contains(claim),
        t.pods.contains_key(other),
        other != key_of(pod) || t.pods[other].node_name == items[i].metadata.name,
    ensures
        !t.pods[other].pvc_names.contains(pod::qualified(pod.namespace, claim)),
{
    let seen = placement::all_with_csi(items, pod, t);
    let node = t.pods[other].node_name;
    let wanted = select::qualified_claims(pod.namespace, pod.read_write_once_pod_pvcs);
    let c = choose|c: int|
        0 <= c < pod.read_write_once_pod_pvcs.len() && pod.read_write_once_pod_pvcs[c] == claim;
    assert(wanted[c] == pod::qualified(pod.namespace, claim));
    if other != key_of(pod) {
        assert(t.holds_against(key_of(pod), None, other));
    } else {
        assert(seen[i] == placement::with_csi(items[i], pod, t));
        assert(select::hosts(seen, pod, t.usage(), t.labels(), i));
        lemma_usage_for(t, node);
        let was = index::on_node(t.pods, node);
        assert(was.contains(other));
        listing::lemma_keys_on(t, node);
        let keys = t.keys_on(node);
        assert(keys.contains(other));
        let j = choose|j: int| 0 <= j < keys.len() && keys[j] == other;
        if t.pods[other].pvc_names.contains(wanted[c]) {
            lemma_claims_listed(t, keys, j, wanted[c]);
        }
    }
}

proof fn lemma_unclaimed_lists(t: NodeTallyView, keys: Seq<Seq<char>>, i: int)
    requires
        0 <= i < keys.len(),
        !t.reserved_victims.contains(keys[i]),
    ensures
        t.unclaimed(keys).contains(t.node_pod(keys[i])),
    decreases keys.len(),
{
    let front = keys.drop_last();
    let before = t.unclaimed(front);
    let all = t.unclaimed(keys);
    if i < front.len() {
        assert(front[i] == keys[i]);
        lemma_unclaimed_lists(t, front, i);
        let a = choose|a: int| 0 <= a < before.len() && before[a] == t.node_pod(keys[i]);
        assert(all[a] == t.node_pod(keys[i]));
    } else {
        assert(all[before.len() as int] == t.node_pod(keys[i]));
    }
}

/// Room that a plan has reserved counts against every later plan: the pod is
/// among those of the node that make room or take it up, with all it asks for.
pub proof fn law_reserved_room_counts_against_later_plans(
    pod: PendingPodView,
    plan: placement::PreemptionPlanView,
    t: NodeTallyView,
)
    requires
        t.pods.dom().finite(),
        !t.pods.contains_key(key_of(pod)),
        !t.reserved_victims.contains(key_of(pod)),
        !plan.victims.contains(key_of(pod)),
    ensures
        exists|p: crate::node::NodePodView| #[trigger]
            placement::committed(pod, plan, t).node_pods(plan.node_name).contains(p) && p.key
                == key_of(pod) && p.requests == pod.requests && p.priority == pod.priority,
{
    let after = placement::committed(pod, plan, t);
    let node = plan.node_name;
    let key = key_of(pod);
    let i = lemma_one_more(t, pod, node);
    assert(after.pods == reserved(t, pod, node).pods);
    assert(after.keys_on(node) == reserved(t, pod, node).keys_on(node));
    assert(!after.reserved_victims.contains(key)) by {
        assert(!plan.victims.to_set().contains(key));
    }
    lemma_unclaimed_lists(after, after.keys_on(node), i);
    assert(after.node_pods(node).contains(after.node_pod(key)));
}

} // verus!
