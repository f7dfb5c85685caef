//! What holds of a preemption plan once its victims are gone: the node is open
//! to the pod as the plan had it.

use crate::affinity::{self, NodeLabels};
use crate::csi;
use crate::index;
use crate::listing;
use crate::node::{self, NodeItemView, NodePodView, TalliedPodLabelsView};
use crate::order;
use crate::placement;
use crate::pod::{
    self, PendingPodView, PodAffinityTermView, TopologySpreadConstraintView, WatchEventView,
};
use crate::resources::{self, ResourceRequestsView};
use crate::select;
use crate::spread;
use crate::tally::{self, NodeTallyView, PreemptionPodListItemView};
use crate::victims;
use vstd::prelude::*;

verus! {

/// Something that pods ask for.
pub ghost enum Resource {
    Cpu,
    Memory,
    EphemeralStorage,
    Extended(Seq<char>),
}

/// How much of it the requests ask for.
pub open spec fn amount_of(r: ResourceRequestsView, what: Resource) -> int {
    match what {
        Resource::Cpu => r.cpu_milli as int,
        Resource::Memory => r.memory_milli as int,
        Resource::EphemeralStorage => r.ephemeral_storage_milli as int,
        Resource::Extended(name) => resources::amount(r.extended, name) as int,
    }
}

/// How much of it the pods ask for together.
pub open spec fn sum_of(pods: Seq<NodePodView>, what: Resource) -> int
    decreases pods.len(),
{
    if pods.len() == 0 {
        0
    } else {
        sum_of(pods.drop_last(), what) + amount_of(pods.last().requests, what)
    }
}

/// The sum of what the pods ask for of it, each counted as positive.
pub open spec fn magnitude(pods: Seq<NodePodView>, what: Resource) -> nat
    decreases pods.len(),
{
    if pods.len() == 0 {
        0
    } else {
        let a = amount_of(pods.last().requests, what);
        magnitude(pods.drop_last(), what) + if a < 0 {
            (-a) as nat
        } else {
            a as nat
        }
    }
}

/// No sum over some of the pods can leave the range of an `i64`.
pub open spec fn sums_are_exact(pods: Seq<NodePodView>) -> bool {
    forall|what: Resource| #[trigger] magnitude(pods, what) <= i64::MAX
}

/// Those of `pods` whose key is not among `keys`.
pub open spec fn kept(pods: Seq<NodePodView>, keys: Seq<Seq<char>>) -> Seq<NodePodView>
    decreases pods.len(),
{
    if pods.len() == 0 {
        Seq::empty()
    } else if keys.contains(pods.last().key) {
        kept(pods.drop_last(), keys)
    } else {
        kept(pods.drop_last(), keys).push(pods.last())
    }
}

/// The tally when the pods `keys` are gone.
pub open spec fn evicted(t: NodeTallyView, keys: Seq<Seq<char>>) -> NodeTallyView {
    NodeTallyView { pods: t.pods.remove_keys(keys.to_set()), ..t }
}

/// Those of `tallied` whose key is not among `keys`.
pub open spec fn without_keys(
    tallied: Seq<TalliedPodLabelsView>,
    keys: Seq<Seq<char>>,
) -> Seq<TalliedPodLabelsView>
    decreases tallied.len(),
{
    if tallied.len() == 0 {
        Seq::empty()
    } else if keys.contains(tallied.last().key) {
        without_keys(tallied.drop_last(), keys)
    } else {
        without_keys(tallied.drop_last(), keys).push(tallied.last())
    }
}

proof fn lemma_minus(a: ResourceRequestsView, b: ResourceRequestsView, what: Resource)
    requires
        what matches Resource::Extended(name) ==> a.extended.contains_key(name) || amount_of(
            b,
            what,
        ) == 0,
    ensures
        amount_of(a.minus(b), what) == resources::clamp(amount_of(a, what) - amount_of(b, what)),
        a.minus(b).extended.dom() == a.extended.dom(),
{
    assert(a.minus(b).extended.dom() =~= a.extended.dom());
}

/// The total of the pods is exact, and lists each extended resource that one
/// of them lists.
proof fn lemma_total(pods: Seq<NodePodView>, what: Resource)
    requires
        magnitude(pods, what) <= i64::MAX,
    ensures
        amount_of(resources::total_requests(victims::requests_of(pods)), what) == sum_of(
            pods,
            what,
        ),
        -magnitude(pods, what) <= sum_of(pods, what) <= magnitude(pods, what),
        what matches Resource::Extended(name) ==> forall|i: int|
            0 <= i < pods.len() && (#[trigger] pods[i]).requests.extended.contains_key(name)
                ==> resources::total_requests(
                victims::requests_of(pods),
            ).extended.contains_key(name),
    decreases pods.len(),
{
    let all = victims::requests_of(pods);
    if pods.len() > 0 {
        let front = pods.drop_last();
        lemma_total(front, what);
        assert(all.drop_last() =~= victims::requests_of(front));
        assert(all.last() == pods.last().requests);
        if let Resource::Extended(name) = what {
            assert forall|i: int|
                0 <= i < pods.len() && (#[trigger] pods[i]).requests.extended.contains_key(
                    name,
                ) implies resources::total_requests(all).extended.contains_key(name) by {
                if i < front.len() {
                    assert(front[i] == pods[i]);
                }
            }
        }
    }
}

proof fn lemma_kept_same(pods: Seq<NodePodView>, keys: Seq<Seq<char>>, key: Seq<char>)
    requires
        forall|i: int| 0 <= i < pods.len() ==> (#[trigger] pods[i]).key != key,
    ensures
        kept(pods, keys.push(key)) == kept(pods, keys),
    decreases pods.len(),
{
    if pods.len() > 0 {
        let front = pods.drop_last();
        assert forall|i: int| 0 <= i < front.len() implies (#[trigger] front[i]).key != key by {
            assert(front[i] == pods[i]);
        }
        lemma_kept_same(front, keys, key);
        assert(pods[pods.len() - 1].key != key);
        listing::lemma_push_key(keys, key, pods.last().key);
    }
}

/// One more key takes one pod out.
proof fn lemma_kept_step(
    pods: Seq<NodePodView>,
    keys: Seq<Seq<char>>,
    j: int,
    what: Resource,
)
    requires
        victims::distinct_keys(pods),
        0 <= j < pods.len(),
        !keys.contains(pods[j].key),
    ensures
        kept(pods, keys.push(pods[j].key)).len() + 1 == kept(pods, keys).len(),
        sum_of(kept(pods, keys.push(pods[j].key)), what) + amount_of(pods[j].requests, what)
            == sum_of(kept(pods, keys), what),
        magnitude(kept(pods, keys.push(pods[j].key)), what) <= magnitude(kept(pods, keys), what),
    decreases pods.len(),
{
    let front = pods.drop_last();
    let key = pods[j].key;
    let last = pods.last();
    assert(last == pods[pods.len() - 1]);
    listing::lemma_push_key(keys, key, last.key);
    let without = kept(front, keys.push(key));
    let with = kept(front, keys);
    assert(without.push(last).drop_last() =~= without);
    assert(with.push(last).drop_last() =~= with);
    if j == pods.len() - 1 {
        assert forall|i: int| 0 <= i < front.len() implies (#[trigger] front[i]).key != key by {
            assert(front[i] == pods[i]);
        }
        lemma_kept_same(front, keys, key);
    } else {
        assert(front[j] == pods[j]);
        assert(victims::distinct_keys(front)) by {
            assert forall|a: int, b: int|
                #![trigger front[a], front[b]]
                0 <= a < b < front.len() implies front[a].key != front[b].key by {
                assert(front[a] == pods[a] && front[b] == pods[b]);
            }
        }
        lemma_kept_step(front, keys, j, what);
    }
}

proof fn lemma_found(pods: Seq<NodePodView>, j: int)
    requires
        victims::distinct_keys(pods),
        0 <= j < pods.len(),
    ensures
        placement::pod_with_key(pods, pods[j].key) == Some(pods[j]),
    decreases pods.len(),
{
    if j > 0 {
        let tail = pods.drop_first();
        assert(pods[0].key != pods[j].key);
        assert forall|a: int, b: int|
            #![trigger tail[a], tail[b]]
            0 <= a < b < tail.len() implies tail[a].key != tail[b].key by {
            assert(tail[a] == pods[a + 1] && tail[b] == pods[b + 1]);
        }
        lemma_found(tail, j - 1);
    }
}

proof fn lemma_kept_all(pods: Seq<NodePodView>)
    ensures
        kept(pods, Seq::empty()) == pods,
    decreases pods.len(),
{
    if pods.len() > 0 {
        lemma_kept_all(pods.drop_last());
        assert(pods.drop_last().push(pods.last()) =~= pods);
    } else {
        assert(kept(pods, Seq::empty()) =~= pods);
    }
}

/// Taking the pods `keys` away one by one leaves what the others ask for.
proof fn lemma_remaining(pods: Seq<NodePodView>, keys: Seq<Seq<char>>, what: Resource)
    requires
        victims::distinct_keys(pods),
        keys.no_duplicates(),
        forall|i: int|
            0 <= i < keys.len() ==> exists|j: int|
                0 <= j < pods.len() && (#[trigger] pods[j]).key == #[trigger] keys[i],
        magnitude(pods, what) <= i64::MAX,
    ensures
        placement::pods_with_keys(pods, keys).len() == keys.len(),
        kept(pods, keys).len() + keys.len() == pods.len(),
        magnitude(kept(pods, keys), what) <= magnitude(pods, what),
        amount_of(
            victims::remaining(
                resources::total_requests(victims::requests_of(pods)),
                placement::pods_with_keys(pods, keys),
            ),
            what,
        ) == sum_of(kept(pods, keys), what),
        victims::remaining(
            resources::total_requests(victims::requests_of(pods)),
            placement::pods_with_keys(pods, keys),
        ).extended.dom() == resources::total_requests(victims::requests_of(pods)).extended.dom(),
    decreases keys.len(),
{
    let total = resources::total_requests(victims::requests_of(pods));
    lemma_total(pods, what);
    if keys.len() == 0 {
        assert(keys =~= Seq::empty());
        lemma_kept_all(pods);
    } else {
        let front = keys.drop_last();
        let key = keys.last();
        assert(front.no_duplicates());
        assert forall|i: int| 0 <= i < front.len() implies exists|j: int|
            0 <= j < pods.len() && (#[trigger] pods[j]).key == #[trigger] front[i] by {
            assert(front[i] == keys[i]);
        }
        lemma_remaining(pods, front, what);
        assert(keys[keys.len() - 1] == key);
        let j = choose|j: int| 0 <= j < pods.len() && (#[trigger] pods[j]).key == key;
        assert(!front.contains(key)) by {
            if front.contains(key) {
                let i = choose|i: int| 0 <= i < front.len() && front[i] == key;
                assert(keys[i] == keys[keys.len() - 1]);
            }
        }
        lemma_kept_step(pods, front, j, what);
        assert(front.push(key) =~= keys);
        lemma_found(pods, j);
        let gone = placement::pods_with_keys(pods, front);
        assert(placement::pods_with_keys(pods, keys) == gone.push(pods[j]));
        assert(gone.push(pods[j]).drop_last() =~= gone);
        let before = victims::remaining(total, gone);
        lemma_minus(before, pods[j].requests, what);
        lemma_sum_bound(kept(pods, keys), what);
    }
}

proof fn lemma_sum_bound(pods: Seq<NodePodView>, what: Resource)
    ensures
        -magnitude(pods, what) <= sum_of(pods, what) <= magnitude(pods, what),
    decreases pods.len(),
{
    if pods.len() > 0 {
        lemma_sum_bound(pods.drop_last(), what);
    }
}

proof fn lemma_kept_listed(t: NodeTallyView, keys: Seq<Seq<char>>, gone: Seq<Seq<char>>)
    ensures
        kept(listing::as_pods(t, keys), gone) == listing::as_pods(
            t,
            listing::listed(keys, |k: Seq<char>| !gone.contains(k)),
        ),
    decreases keys.len(),
{
    let p = |k: Seq<char>| !gone.contains(k);
    let pods = listing::as_pods(t, keys);
    if keys.len() > 0 {
        let front = keys.drop_last();
        lemma_kept_listed(t, front, gone);
        assert(pods.drop_last() =~= listing::as_pods(t, front));
        assert(pods.last() == t.node_pod(keys.last()));
        listing::lemma_as_pods_push(t, listing::listed(front, p), keys.last());
    } else {
        assert(kept(pods, gone) =~= listing::as_pods(t, listing::listed(keys, p)));
    }
}

proof fn lemma_others_listed(t: NodeTallyView, keys: Seq<Seq<char>>, key: Seq<char>)
    ensures
        placement::others(listing::as_pods(t, keys), key) == listing::as_pods(
            t,
            listing::listed(keys, |k: Seq<char>| k != key),
        ),
    decreases keys.len(),
{
    let p = |k: Seq<char>| k != key;
    let pods = listing::as_pods(t, keys);
    if keys.len() > 0 {
        let front = keys.drop_last();
        lemma_others_listed(t, front, key);
        assert(pods.drop_last() =~= listing::as_pods(t, front));
        assert(pods.last() == t.node_pod(keys.last()));
        listing::lemma_as_pods_push(t, listing::listed(front, p), keys.last());
    } else {
        assert(placement::others(pods, key) =~= listing::as_pods(t, listing::listed(keys, p)));
    }
}

/// `after` is the tally with the plan under way, whether its victims are gone
/// or not.
spec fn is_under_way(
    t: NodeTallyView,
    after: NodeTallyView,
    pod: PendingPodView,
    plan: placement::PreemptionPlanView,
) -> bool {
    let now = placement::committed(pod, plan, t);
    &&& after.reserved_victims == now.reserved_victims
    &&& after.pods.dom().subset_of(now.pods.dom())
    &&& forall|k: Seq<char>|
        !plan.victims.contains(k) && #[trigger] now.pods.contains_key(k)
            ==> after.pods.contains_key(k) && after.pods[k] == now.pods[k]
}

proof fn lemma_kept_again(pods: Seq<NodePodView>, keys: Seq<Seq<char>>, key: Seq<char>)
    requires
        keys.contains(key),
    ensures
        kept(pods, keys.push(key)) == kept(pods, keys),
    decreases pods.len(),
{
    if pods.len() > 0 {
        lemma_kept_again(pods.drop_last(), keys, key);
        listing::lemma_push_key(keys, key, pods.last().key);
    }
}

/// Without one pod more, the others ask for no more.
proof fn lemma_kept_less(
    pods: Seq<NodePodView>,
    keys: Seq<Seq<char>>,
    key: Seq<char>,
    what: Resource,
)
    requires
        victims::distinct_keys(pods),
        forall|j: int|
            0 <= j < pods.len() && (#[trigger] pods[j]).key == key ==> amount_of(
                pods[j].requests,
                what,
            ) >= 0,
    ensures
        kept(pods, keys.push(key)).len() <= kept(pods, keys).len(),
        sum_of(kept(pods, keys.push(key)), what) <= sum_of(kept(pods, keys), what),
        magnitude(kept(pods, keys.push(key)), what) <= magnitude(kept(pods, keys), what),
{
    if keys.contains(key) {
        lemma_kept_again(pods, keys, key);
    } else if exists|j: int| 0 <= j < pods.len() && (#[trigger] pods[j]).key == key {
        let j = choose|j: int| 0 <= j < pods.len() && (#[trigger] pods[j]).key == key;
        lemma_kept_step(pods, keys, j, what);
    } else {
        lemma_kept_same(pods, keys, key);
    }
}

/// The requests ask for nothing negative.
pub open spec fn are_natural(r: ResourceRequestsView) -> bool {
    forall|what: Resource| #[trigger] amount_of(r, what) >= 0
}

/// Where `pod` is on the node already, it asks for nothing negative there.
pub open spec fn is_plain_on(t: NodeTallyView, pod: PendingPodView, node: Seq<char>) -> bool {
    let key = pod::qualified(pod.namespace, pod.pod_name);
    index::on_node(t.pods, node).contains(key) ==> are_natural(t.pods[key].requests)
}

/// The pods beside the preemptor that plans can still pick are those that
/// could be picked before, without the preemptor and the victims.
proof fn lemma_rest(
    t: NodeTallyView,
    after: NodeTallyView,
    pod: PendingPodView,
    plan: placement::PreemptionPlanView,
)
    requires
        t.pods.dom().finite(),
        is_under_way(t, after, pod, plan),
    ensures
        placement::others(
            after.node_pods(plan.node_name),
            pod::qualified(pod.namespace, pod.pod_name),
        ) == kept(
            t.node_pods(plan.node_name),
            plan.victims.push(pod::qualified(pod.namespace, pod.pod_name)),
        ),
{
    let key = pod::qualified(pod.namespace, pod.pod_name);
    let node = plan.node_name;
    let gone = plan.victims;
    let out = gone.push(key);
    let then = placement::committed(pod, plan, t);
    assert(after.pods.dom().subset_of(t.pods.dom().insert(key)));
    vstd::set_lib::lemma_len_subset(after.pods.dom(), t.pods.dom().insert(key));
    let was = t.keys_on(node);
    let now = after.keys_on(node);
    listing::lemma_keys_on(t, node);
    listing::lemma_keys_on(after, node);
    let free_was = |k: Seq<char>| !t.reserved_victims.contains(k);
    let free_now = |k: Seq<char>| !after.reserved_victims.contains(k);
    let stays = |k: Seq<char>| !out.contains(k);
    let other = |k: Seq<char>| k != key;
    listing::lemma_unclaimed(t, was);
    listing::lemma_unclaimed(after, now);
    listing::lemma_listed(was, free_was);
    listing::lemma_listed(now, free_now);
    lemma_kept_listed(t, listing::listed(was, free_was), out);
    lemma_others_listed(after, listing::listed(now, free_now), key);
    listing::lemma_listed(listing::listed(was, free_was), stays);
    listing::lemma_listed(listing::listed(now, free_now), other);
    let a = listing::listed(listing::listed(was, free_was), stays);
    let b = listing::listed(listing::listed(now, free_now), other);
    assert forall|k: Seq<char>| a.to_set().contains(k) == b.to_set().contains(k) by {
        assert(gone.to_set().contains(k) == gone.contains(k));
        listing::lemma_push_key(gone, key, k);
        assert(a.to_set().contains(k) == a.contains(k));
        assert(b.to_set().contains(k) == b.contains(k));
        if then.pods.contains_key(k) && !gone.contains(k) {
            assert(after.pods[k] == then.pods[k]);
        }
        if after.pods.contains_key(k) {
            assert(after.pods.dom().contains(k));
            assert(then.pods.contains_key(k));
        }
    }
    assert(a.to_set() =~= b.to_set());
    order::lemma_sorted_unique(a, b);
    assert(listing::as_pods(after, b) =~= listing::as_pods(t, a)) by {
        assert forall|i: int| 0 <= i < a.len() implies after.node_pod(#[trigger] a[i])
            == t.node_pod(a[i]) by {
            assert(a.contains(a[i]));
            assert(listing::listed(was, free_was).contains(a[i]));
            listing::lemma_push_key(gone, key, a[i]);
            assert(then.pods.contains_key(a[i]));
        }
    }
}

/// The reservation holds while the plan is under way.
proof fn lemma_reservation_holds(
    t: NodeTallyView,
    after: NodeTallyView,
    pod: PendingPodView,
    i: int,
)
    requires
        placement::is_plan(pod, t, i),
        t.pods.dom().finite(),
        is_plain_on(t, pod, t.node_items()[i].metadata.name),
        sums_are_exact(t.node_pods(t.node_items()[i].metadata.name)),
        is_under_way(t, after, pod, placement::plan_for(t.node_items(), pod, t, i)),
    ensures
        placement::reservation_holds(pod, t.node_items()[i], after),
{
    let items = t.node_items();
    let n = items[i];
    let node = n.metadata.name;
    let plan = placement::plan_for(items, pod, t, i);
    let pods = t.node_pods(node);
    let gone = plan.victims;
    listing::lemma_node_pods(t, node);
    lemma_plan_victims(t, pod, i);
    lemma_rest(t, after, pod, plan);
    let key = pod::qualified(pod.namespace, pod.pod_name);
    let rest = kept(pods, gone.push(key));
    let left = victims::remaining(
        resources::total_requests(victims::requests_of(pods)),
        placement::pods_with_keys(pods, gone),
    );
    let used = resources::total_requests(victims::requests_of(rest));
    assert(placement::has_room_after(pod, n, plan, t));
    assert forall|what: Resource|
        #![trigger amount_of(used, what)]
        amount_of(used, what) <= amount_of(left, what) && rest.len() <= kept(pods, gone).len() by {
        assert(magnitude(pods, what) <= i64::MAX);
        lemma_remaining(pods, gone, what);
        assert forall|j: int|
            0 <= j < pods.len() && (#[trigger] pods[j]).key == key implies amount_of(
            pods[j].requests,
            what,
        ) >= 0 by {
            listing::lemma_unclaimed(t, t.keys_on(node));
            assert(pods[j] == t.node_pod(pods[j].key));
            assert(index::on_node(t.pods, node).contains(key));
        }
        lemma_kept_less(pods, gone, key, what);
        lemma_total(rest, what);
    }
    assert(magnitude(pods, Resource::Cpu) <= i64::MAX);
    lemma_remaining(pods, gone, Resource::Cpu);
    assert(amount_of(used, Resource::Cpu) <= amount_of(left, Resource::Cpu));
    assert(amount_of(used, Resource::Memory) <= amount_of(left, Resource::Memory));
    assert(amount_of(used, Resource::EphemeralStorage) <= amount_of(
        left,
        Resource::EphemeralStorage,
    ));
    assert forall|name: Seq<char>| #[trigger] pod.requests.extended.contains_key(name) implies (
    pod.requests.extended[name] == 0 || resources::amount(used.extended, name)
        + pod.requests.extended[name] <= resources::extended_capacity(
        n.status.allocatable,
        name,
    )) by {
        assert(amount_of(used, Resource::Extended(name)) <= amount_of(
            left,
            Resource::Extended(name),
        ));
    }
    assert(resources::fits(n.status.allocatable, used, pod.requests));
}

/// A plan takes effect at once: the pod is in the tally on the plan's node,
/// each victim was of lower priority and is hidden from other plans, and the
/// room that was reserved for the pod is there.
pub proof fn law_plan_takes_effect_at_once(t: NodeTallyView, pod: PendingPodView, i: int)
    requires
        placement::is_plan(pod, t, i),
        t.is_valid(),
        is_plain_on(t, pod, t.node_items()[i].metadata.name),
        sums_are_exact(t.node_pods(t.node_items()[i].metadata.name)),
    ensures
        ({
            let plan = placement::plan_for(t.node_items(), pod, t, i);
            let after = placement::committed(pod, plan, t);
            let key = pod::qualified(pod.namespace, pod.pod_name);
            &&& after.pods.contains_key(key)
            &&& after.pods[key].node_name == plan.node_name
            &&& t.nodes.contains_key(plan.node_name)
            &&& forall|a: int|
                0 <= a < plan.victims.len() ==> {
                    let v = #[trigger] plan.victims[a];
                    &&& t.pods.contains_key(v)
                    &&& t.pods[v].node_name == plan.node_name
                    &&& t.pods[v].priority < pod.priority
                    &&& after.reserved_victims.contains(v)
                }
            &&& forall|j: int|
                0 <= j < after.node_pods(plan.node_name).len() ==> !plan.victims.contains(
                    (#[trigger] after.node_pods(plan.node_name)[j]).key,
                )
            &&& placement::reservation_holds(pod, t.nodes[plan.node_name], after)
        }),
{
    let items = t.node_items();
    let n = items[i];
    let plan = placement::plan_for(items, pod, t, i);
    let after = placement::committed(pod, plan, t);
    let pods = t.node_pods(plan.node_name);
    listing::law_listed_nodes_are_the_known_ones(t, n.metadata.name);
    listing::lemma_node_pods(t, plan.node_name);
    assert(is_under_way(t, after, pod, plan));
    lemma_reservation_holds(t, after, pod, i);
    assert forall|a: int| 0 <= a < plan.victims.len() implies {
        let v = #[trigger] plan.victims[a];
        &&& t.pods.contains_key(v)
        &&& t.pods[v].node_name == plan.node_name
        &&& t.pods[v].priority < pod.priority
        &&& after.reserved_victims.contains(v)
    } by {
        let v = plan.victims[a];
        assert(plan.victims.contains(v));
        placement::law_plan_evicts_only_less_important_pods(
            n,
            pod,
            t,
            t.labels(),
            select::labels_by_name(items),
            v,
        );
        let p = choose|p: NodePodView| #[trigger]
            pods.contains(p) && p.key == v && p.priority < pod.priority;
        let j = choose|j: int| 0 <= j < pods.len() && pods[j] == p;
        assert(t.pods.contains_key(pods[j].key));
        listing::law_candidates_are_the_listed_pods(t, plan.node_name);
        listing::lemma_unclaimed(t, t.keys_on(plan.node_name));
        assert(pods[j] == t.node_pod(v));
        assert(plan.victims.to_set().contains(v));
    }
    assert forall|j: int|
        0 <= j < after.node_pods(plan.node_name).len() implies !plan.victims.contains(
        (#[trigger] after.node_pods(plan.node_name)[j]).key,
    ) by {
        placement::law_committed_victims_are_hidden(pod, plan, t, plan.node_name, j);
    }
}

/// A plan that nothing gets in the way of goes through: when its victims are
/// gone and nothing else has changed, the room that was reserved for the pod
/// is there.
pub proof fn law_undisturbed_plan_goes_through(t: NodeTallyView, pod: PendingPodView, i: int)
    requires
        placement::is_plan(pod, t, i),
        t.pods.dom().finite(),
        is_plain_on(t, pod, t.node_items()[i].metadata.name),
        sums_are_exact(t.node_pods(t.node_items()[i].metadata.name)),
    ensures
        ({
            let plan = placement::plan_for(t.node_items(), pod, t, i);
            placement::reservation_holds(
                pod,
                t.node_items()[i],
                evicted(placement::committed(pod, plan, t), plan.victims),
            )
        }),
{
    let plan = placement::plan_for(t.node_items(), pod, t, i);
    let after = evicted(placement::committed(pod, plan, t), plan.victims);
    assert forall|k: Seq<char>|
        !plan.victims.contains(k) && #[trigger] placement::committed(
            pod,
            plan,
            t,
        ).pods.contains_key(k) implies after.pods.contains_key(k) by {
        assert(!plan.victims.to_set().contains(k));
    }
    assert(is_under_way(t, after, pod, plan));
    lemma_reservation_holds(t, after, pod, i);
}

proof fn lemma_holder_listed(pods: Seq<NodePodView>, claims: Seq<Seq<char>>, j: int)
    requires
        0 <= j < pods.len(),
        victims::holds_claim(pods[j], claims),
    ensures
        victims::claim_holders(pods, claims).contains(pods[j]),
    decreases pods.len(),
{
    let front = pods.drop_last();
    let before = victims::claim_holders(front, claims);
    let all = victims::claim_holders(pods, claims);
    if j < front.len() {
        lemma_holder_listed(front, claims, j);
        let a = choose|a: int| 0 <= a < before.len() && before[a] == front[j];
        assert(all[a] == pods[j]);
    } else {
        assert(all[before.len() as int] == pods[j]);
    }
}

/// A claim that one pod alone may use is used by no other pod, on any node,
/// once the victims of the plan are gone.
pub proof fn law_plan_frees_exclusive_claims(
    t: NodeTallyView,
    pod: PendingPodView,
    i: int,
    claim: Seq<char>,
    other: Seq<char>,
)
    requires
        placement::is_plan(pod, t, i),
        t.is_valid(),
        pod.read_write_once_pod_pvcs.contains(claim),
        t.pods.contains_key(other),
        other != pod::qualified(pod.namespace, pod.pod_name),
        !placement::plan_for(t.node_items(), pod, t, i).victims.contains(other),
    ensures
        !t.pods[other].pvc_names.contains(pod::qualified(pod.namespace, claim)),
{
    let n = t.node_items()[i];
    let node = n.metadata.name;
    let pods = t.node_pods(node);
    let claims = select::qualified_claims(pod.namespace, pod.read_write_once_pod_pvcs);
    let wanted = pod::qualified(pod.namespace, claim);
    let c = choose|c: int|
        0 <= c < pod.read_write_once_pod_pvcs.len() && pod.read_write_once_pod_pvcs[c] == claim;
    assert(claims[c] == wanted);
    assert(placement::is_viable(
        n,
        pod,
        t,
        t.labels(),
        select::labels_by_name(t.node_items()),
    ));
    if t.pods[other].pvc_names.contains(wanted) {
        let holders = victims::claim_holders(pods, claims);
        let free = |k: Seq<char>| !t.reserved_victims.contains(k);
        assert(t.pods[other].node_name == node && !t.reserved_victims.contains(other));
        listing::lemma_keys_on(t, node);
        listing::lemma_unclaimed(t, t.keys_on(node));
        listing::lemma_listed(t.keys_on(node), free);
        let keys = listing::listed(t.keys_on(node), free);
        assert(t.keys_on(node).contains(other));
        assert(keys.contains(other));
        let j = choose|j: int| 0 <= j < keys.len() && keys[j] == other;
        assert(pods[j] == t.node_pod(other));
        let w = choose|w: int|
            0 <= w < t.pods[other].pvc_names.len() && t.pods[other].pvc_names[w] == wanted;
        assert(claims.contains(pods[j].pvc_names[w]));
        lemma_holder_listed(pods, claims, j);
        let a = choose|a: int| 0 <= a < holders.len() && holders[a] == pods[j];
        assert(victims::keys_of(holders)[a] == other);
        placement::lemma_merged_holds(
            victims::keys_of(
                victims::chosen_victims(
                    pod.priority,
                    pod.requests,
                    pods,
                    node::pod_slots(n),
                    n.status.allocatable,
                ),
            ),
            victims::keys_of(holders),
            other,
        );
    }
}

proof fn lemma_with_own_keys(pods: Seq<NodePodView>, some: Seq<NodePodView>)
    requires
        victims::distinct_keys(pods),
        forall|a: int| 0 <= a < some.len() ==> pods.contains(#[trigger] some[a]),
    ensures
        placement::pods_with_keys(pods, victims::keys_of(some)) == some,
    decreases some.len(),
{
    let keys = victims::keys_of(some);
    if some.len() > 0 {
        let front = some.drop_last();
        assert forall|a: int| 0 <= a < front.len() implies pods.contains(#[trigger] front[a]) by {
            assert(front[a] == some[a]);
        }
        lemma_with_own_keys(pods, front);
        assert(keys.drop_last() =~= victims::keys_of(front));
        let last = some[some.len() - 1];
        assert(pods.contains(last));
        let j = choose|j: int| 0 <= j < pods.len() && pods[j] == last;
        lemma_found(pods, j);
        assert(keys.last() == last.key);
        assert(front.push(last) =~= some);
    } else {
        assert(placement::pods_with_keys(pods, keys) =~= some);
    }
}

/// What is left when the victims that make room are gone is what the other
/// pods of the node ask for together.
pub proof fn law_victims_leave_the_others(
    priority: i32,
    pending: ResourceRequestsView,
    pods: Seq<NodePodView>,
    slots: nat,
    allocatable: resources::NodeAllocatableView,
    what: Resource,
)
    requires
        victims::distinct_keys(pods),
        sums_are_exact(pods),
    ensures
        ({
            let gone = victims::chosen_victims(priority, pending, pods, slots, allocatable);
            let rest = kept(pods, victims::keys_of(gone));
            &&& rest.len() + gone.len() == pods.len()
            &&& amount_of(
                victims::remaining(
                    resources::total_requests(victims::requests_of(pods)),
                    gone,
                ),
                what,
            ) == sum_of(rest, what)
            &&& amount_of(resources::total_requests(victims::requests_of(rest)), what) == sum_of(
                rest,
                what,
            )
        }),
{
    let gone = victims::chosen_victims(priority, pending, pods, slots, allocatable);
    let keys = victims::keys_of(gone);
    let rest = kept(pods, keys);
    victims::law_no_pod_is_evicted_twice(priority, pending, pods, slots, allocatable);
    assert forall|a: int| 0 <= a < gone.len() implies pods.contains(#[trigger] gone[a]) by {
        victims::law_victims_are_less_important(
            priority,
            pending,
            pods,
            slots,
            allocatable,
            a,
        );
    }
    assert forall|a: int| 0 <= a < keys.len() implies exists|j: int|
        0 <= j < pods.len() && (#[trigger] pods[j]).key == #[trigger] keys[a] by {
        assert(pods.contains(gone[a]));
        let j = choose|j: int| 0 <= j < pods.len() && pods[j] == gone[a];
        assert(pods[j].key == keys[a]);
    }
    assert(keys.no_duplicates()) by {
        assert forall|a: int, b: int|
            0 <= a < keys.len() && 0 <= b < keys.len() && a != b implies keys[a] != keys[b] by {
            assert(keys[a] == gone[a].key && keys[b] == gone[b].key);
        }
    }
    lemma_with_own_keys(pods, gone);
    assert(magnitude(pods, what) <= i64::MAX);
    lemma_remaining(pods, keys, what);
    lemma_total(rest, what);
}

/// A pod is evicted when the watch says that it is gone.
pub proof fn law_departure_evicts(
    t: NodeTallyView,
    event: WatchEventView<PreemptionPodListItemView>,
)
    requires
        NodeTallyView::shows_departure(event),
    ensures
        t.after_event(event).pods == evicted(
            t,
            seq![tally::key_of(event.object->0.metadata)],
        ).pods,
{
    let key = tally::key_of(event.object->0.metadata);
    let keys = seq![key];
    assert(keys.to_set() =~= set![key]) by {
        assert(keys[0] == key);
    }
    assert(t.after_event(event).pods =~= evicted(t, keys).pods);
}

proof fn lemma_merged_distinct(keys: Seq<Seq<char>>, more: Seq<Seq<char>>)
    requires
        keys.no_duplicates(),
    ensures
        placement::merged(keys, more).no_duplicates(),
    decreases more.len(),
{
    if more.len() > 0 {
        lemma_merged_distinct(keys, more.drop_last());
        let before = placement::merged(keys, more.drop_last());
        if !before.contains(more.last()) {
            let all = before.push(more.last());
            assert forall|i: int, j: int|
                0 <= i < all.len() && 0 <= j < all.len() && i != j implies all[i] != all[j] by {
                if i < before.len() {
                    assert(before.contains(before[i]));
                }
                if j < before.len() {
                    assert(before.contains(before[j]));
                }
            }
        }
    }
}

/// The victims of a plan are pods of the node, each named once.
proof fn lemma_plan_victims(t: NodeTallyView, pod: PendingPodView, i: int)
    requires
        placement::is_plan(pod, t, i),
        t.pods.dom().finite(),
    ensures
        ({
            let gone = placement::plan_for(t.node_items(), pod, t, i).victims;
            let pods = t.node_pods(t.node_items()[i].metadata.name);
            &&& gone.no_duplicates()
            &&& forall|a: int|
                0 <= a < gone.len() ==> exists|j: int|
                    0 <= j < pods.len() && (#[trigger] pods[j]).key == #[trigger] gone[a]
        }),
{
    let items = t.node_items();
    let n = items[i];
    let pods = t.node_pods(n.metadata.name);
    let gone = placement::victims_on(n, pod, t);
    let claims = select::qualified_claims(pod.namespace, pod.read_write_once_pod_pvcs);
    listing::lemma_node_pods(t, n.metadata.name);
    let chosen = victims::chosen_victims(
        pod.priority,
        pod.requests,
        pods,
        node::pod_slots(n),
        n.status.allocatable,
    );
    victims::law_no_pod_is_evicted_twice(
        pod.priority,
        pod.requests,
        pods,
        node::pod_slots(n),
        n.status.allocatable,
    );
    assert(victims::keys_of(chosen).no_duplicates()) by {
        let keys = victims::keys_of(chosen);
        assert forall|a: int, b: int|
            0 <= a < keys.len() && 0 <= b < keys.len() && a != b implies keys[a] != keys[b] by {
            assert(keys[a] == chosen[a].key && keys[b] == chosen[b].key);
        }
    }
    lemma_merged_distinct(
        victims::keys_of(chosen),
        victims::keys_of(victims::claim_holders(pods, claims)),
    );
    assert forall|a: int| 0 <= a < gone.len() implies exists|j: int|
        0 <= j < pods.len() && (#[trigger] pods[j]).key == #[trigger] gone[a] by {
        assert(gone.contains(gone[a]));
        placement::law_plan_evicts_only_less_important_pods(
            n,
            pod,
            t,
            t.labels(),
            select::labels_by_name(items),
            gone[a],
        );
        let p = choose|p: NodePodView| #[trigger]
            pods.contains(p) && p.key == gone[a] && p.priority < pod.priority;
        let j = choose|j: int| 0 <= j < pods.len() && pods[j] == p;
        assert(pods[j].key == gone[a]);
    }
}

/// Every pod of `keys` that is among `tallied` runs on a node with `labels`.
pub open spec fn all_on(
    tallied: Seq<TalliedPodLabelsView>,
    keys: Seq<Seq<char>>,
    node_labels: NodeLabels,
    labels: Map<Seq<char>, Seq<char>>,
) -> bool {
    forall|j: int|
        0 <= j < tallied.len() && keys.contains((#[trigger] tallied[j]).key)
            ==> node_labels.contains_key(tallied[j].node_name)
            && node_labels[tallied[j].node_name] == labels
}

proof fn lemma_all_on_front(
    tallied: Seq<TalliedPodLabelsView>,
    keys: Seq<Seq<char>>,
    node_labels: NodeLabels,
    labels: Map<Seq<char>, Seq<char>>,
)
    requires
        tallied.len() > 0,
        all_on(tallied, keys, node_labels, labels),
    ensures
        all_on(tallied.drop_last(), keys, node_labels, labels),
        keys.contains(tallied.last().key) ==> node_labels.contains_key(tallied.last().node_name)
            && node_labels[tallied.last().node_name] == labels,
{
    let front = tallied.drop_last();
    assert(tallied[tallied.len() - 1] == tallied.last());
    assert forall|j: int| 0 <= j < front.len() && keys.contains((#[trigger] front[j]).key) implies
        node_labels.contains_key(front[j].node_name) && node_labels[front[j].node_name]
        == labels by {
        assert(front[j] == tallied[j]);
    }
}

proof fn lemma_group_split(
    c: TopologySpreadConstraintView,
    namespace: Seq<char>,
    tallied: Seq<TalliedPodLabelsView>,
    keys: Seq<Seq<char>>,
    node_labels: NodeLabels,
    labels: Map<Seq<char>, Seq<char>>,
    value: Seq<char>,
)
    requires
        all_on(tallied, keys, node_labels, labels),
        labels.contains_key(c.topology_key),
    ensures
        spread::group_in_domain(c, namespace, tallied, node_labels, value)
            == spread::group_in_domain(
            c,
            namespace,
            without_keys(tallied, keys),
            node_labels,
            value,
        ) + if value == labels[c.topology_key] {
            spread::group_victims(c, namespace, placement::with_keys(tallied, keys))
        } else {
            0
        },
    decreases tallied.len(),
{
    if tallied.len() > 0 {
        let front = tallied.drop_last();
        let last = tallied.last();
        lemma_all_on_front(tallied, keys, node_labels, labels);
        lemma_group_split(c, namespace, front, keys, node_labels, labels, value);
        let rest = without_keys(front, keys);
        let gone = placement::with_keys(front, keys);
        assert(rest.push(last).drop_last() =~= rest);
        assert(gone.push(last).drop_last() =~= gone);
    }
}

/// Some domain has the fewest of the group.
pub proof fn lemma_least_from(
    c: TopologySpreadConstraintView,
    namespace: Seq<char>,
    tallied: Seq<TalliedPodLabelsView>,
    node_labels: NodeLabels,
    own: Seq<char>,
    value: Seq<char>,
) -> (m: int)
    requires
        spread::is_domain(node_labels, c.topology_key, value),
    ensures
        spread::is_least(c, namespace, tallied, node_labels, Seq::empty(), own, m),
    decreases
        spread::group_in_domain(c, namespace, tallied, node_labels, value),
{
    let none = Seq::<TalliedPodLabelsView>::empty();
    let m = spread::left_in_domain(c, namespace, tallied, node_labels, none, own, value);
    if forall|v: Seq<char>|
        spread::is_domain(node_labels, c.topology_key, v) ==> m
            <= #[trigger] spread::left_in_domain(
            c,
            namespace,
            tallied,
            node_labels,
            none,
            own,
            v,
        ) {
        m
    } else {
        let v = choose|v: Seq<char>|
            spread::is_domain(node_labels, c.topology_key, v) && m
                > #[trigger] spread::left_in_domain(
                c,
                namespace,
                tallied,
                node_labels,
                none,
                own,
                v,
            );
        lemma_least_from(c, namespace, tallied, node_labels, own, v)
    }
}

proof fn lemma_skew_same(
    c: TopologySpreadConstraintView,
    pod: PendingPodView,
    tallied: Seq<TalliedPodLabelsView>,
    keys: Seq<Seq<char>>,
    node_labels: NodeLabels,
    labels: Map<Seq<char>, Seq<char>>,
)
    requires
        all_on(tallied, keys, node_labels, labels),
        labels.contains_key(c.topology_key),
    ensures
        spread::skew(
            c,
            pod,
            tallied,
            node_labels,
            placement::with_keys(tallied, keys),
            labels[c.topology_key],
        ) == spread::skew(
            c,
            pod,
            without_keys(tallied, keys),
            node_labels,
            Seq::empty(),
            labels[c.topology_key],
        ),
{
    let own = labels[c.topology_key];
    let ns = pod.namespace;
    let gone = placement::with_keys(tallied, keys);
    let rest = without_keys(tallied, keys);
    let none = Seq::<TalliedPodLabelsView>::empty();
    assert forall|v: Seq<char>| #[trigger]
        spread::left_in_domain(c, ns, tallied, node_labels, gone, own, v)
            == spread::left_in_domain(c, ns, rest, node_labels, none, own, v) by {
        lemma_group_split(c, ns, tallied, keys, node_labels, labels, v);
    }
    assert(spread::left_in_domain(c, ns, tallied, node_labels, gone, own, own)
        == spread::left_in_domain(c, ns, rest, node_labels, none, own, own));
    if exists|v: Seq<char>| spread::is_domain(node_labels, c.topology_key, v) {
        let v = choose|v: Seq<char>| spread::is_domain(node_labels, c.topology_key, v);
        let m = lemma_least_from(c, ns, rest, node_labels, own, v);
        let w = choose|w: Seq<char>|
            spread::is_domain(node_labels, c.topology_key, w) && m
                == #[trigger] spread::left_in_domain(c, ns, rest, node_labels, none, own, w);
        assert(m == spread::left_in_domain(c, ns, tallied, node_labels, gone, own, w));
        assert(spread::is_least(c, ns, tallied, node_labels, gone, own, m));
        spread::lemma_least_unique(c, ns, rest, node_labels, none, own, m);
        spread::lemma_least_unique(c, ns, tallied, node_labels, gone, own, m);
    } else {
        assert(spread::is_least(c, ns, rest, node_labels, none, own, 0));
        assert(spread::is_least(c, ns, tallied, node_labels, gone, own, 0));
        spread::lemma_least_unique(c, ns, rest, node_labels, none, own, 0);
        spread::lemma_least_unique(c, ns, tallied, node_labels, gone, own, 0);
    }
}

proof fn lemma_term_split(
    term: PodAffinityTermView,
    namespace: Seq<char>,
    tallied: Seq<TalliedPodLabelsView>,
    keys: Seq<Seq<char>>,
    node_labels: NodeLabels,
    labels: Map<Seq<char>, Seq<char>>,
    value: Seq<char>,
)
    requires
        all_on(tallied, keys, node_labels, labels),
    ensures
        affinity::term_matches(term, namespace, tallied, node_labels, value)
            == affinity::term_matches(
            term,
            namespace,
            without_keys(tallied, keys),
            node_labels,
            value,
        ) + if term.topology_key.len() > 0 {
            affinity::matches_lost(
                term,
                namespace,
                labels,
                placement::with_keys(tallied, keys),
                value,
            )
        } else {
            0
        },
        term.topology_key.len() == 0 ==> affinity::term_matches(
            term,
            namespace,
            tallied,
            node_labels,
            value,
        ) == 0,
    decreases tallied.len(),
{
    if tallied.len() > 0 {
        let front = tallied.drop_last();
        let last = tallied.last();
        lemma_all_on_front(tallied, keys, node_labels, labels);
        lemma_term_split(term, namespace, front, keys, node_labels, labels, value);
        let rest = without_keys(front, keys);
        let gone = placement::with_keys(front, keys);
        assert(rest.push(last).drop_last() =~= rest);
        assert(gone.push(last).drop_last() =~= gone);
    }
}

proof fn lemma_match_same(
    term: PodAffinityTermView,
    namespace: Seq<char>,
    tallied: Seq<TalliedPodLabelsView>,
    keys: Seq<Seq<char>>,
    node_labels: NodeLabels,
    labels: Map<Seq<char>, Seq<char>>,
)
    requires
        all_on(tallied, keys, node_labels, labels),
    ensures
        forall|value: Seq<char>|
            affinity::match_remains(
                term,
                namespace,
                tallied,
                node_labels,
                labels,
                placement::with_keys(tallied, keys),
                value,
            ) == #[trigger] affinity::match_remains(
                term,
                namespace,
                without_keys(tallied, keys),
                node_labels,
                labels,
                Seq::empty(),
                value,
            ),
        affinity::is_unmatched(
            term,
            namespace,
            tallied,
            node_labels,
            labels,
            placement::with_keys(tallied, keys),
        ) == affinity::is_unmatched(
            term,
            namespace,
            without_keys(tallied, keys),
            node_labels,
            labels,
            Seq::empty(),
        ),
{
    let gone = placement::with_keys(tallied, keys);
    let rest = without_keys(tallied, keys);
    let none = Seq::<TalliedPodLabelsView>::empty();
    assert forall|value: Seq<char>|
        #![trigger affinity::match_remains(
            term,
            namespace,
            tallied,
            node_labels,
            labels,
            gone,
            value,
        )]
        #![trigger affinity::match_remains(
            term,
            namespace,
            rest,
            node_labels,
            labels,
            none,
            value,
        )]
        affinity::match_remains(term, namespace, tallied, node_labels, labels, gone, value)
            == affinity::match_remains(
            term,
            namespace,
            rest,
            node_labels,
            labels,
            none,
            value,
        ) by {
        lemma_term_split(term, namespace, tallied, keys, node_labels, labels, value);
    }
}

/// A node is judged with the victims left out of account just as if they were
/// not there.
pub proof fn law_victims_are_judged_as_gone(
    pod: PendingPodView,
    tallied: Seq<TalliedPodLabelsView>,
    keys: Seq<Seq<char>>,
    node_labels: NodeLabels,
    labels: Map<Seq<char>, Seq<char>>,
)
    requires
        all_on(tallied, keys, node_labels, labels),
    ensures
        ({
            let gone = placement::with_keys(tallied, keys);
            let rest = without_keys(tallied, keys);
            let none = Seq::<TalliedPodLabelsView>::empty();
            &&& spread::suits(pod, tallied, node_labels, labels, gone) == spread::suits(
                pod,
                rest,
                node_labels,
                labels,
                none,
            )
            &&& affinity::suits(pod, tallied, node_labels, labels, gone) == affinity::suits(
                pod,
                rest,
                node_labels,
                labels,
                none,
            )
        }),
{
    let gone = placement::with_keys(tallied, keys);
    let rest = without_keys(tallied, keys);
    let none = Seq::<TalliedPodLabelsView>::empty();
    let ns = pod.namespace;
    let constraints = pod.topology_spread_constraints;
    assert forall|i: int|
        0 <= i < constraints.len() && labels.contains_key(
            (#[trigger] constraints[i]).topology_key,
        ) implies spread::skew(
        constraints[i],
        pod,
        tallied,
        node_labels,
        gone,
        labels[constraints[i].topology_key],
    ) == spread::skew(
        constraints[i],
        pod,
        rest,
        node_labels,
        none,
        labels[constraints[i].topology_key],
    ) by {
        lemma_skew_same(constraints[i], pod, tallied, keys, node_labels, labels);
    }
    let anti = pod.pod_anti_affinity_terms;
    assert forall|i: int| 0 <= i < anti.len() implies affinity::match_remains(
        #[trigger] anti[i],
        ns,
        tallied,
        node_labels,
        labels,
        gone,
        labels[anti[i].topology_key],
    ) == affinity::match_remains(
        anti[i],
        ns,
        rest,
        node_labels,
        labels,
        none,
        labels[anti[i].topology_key],
    ) by {
        lemma_match_same(anti[i], ns, tallied, keys, node_labels, labels);
    }
    let terms = pod.pod_affinity_terms;
    assert forall|i: int| 0 <= i < terms.len() implies affinity::match_remains(
        #[trigger] terms[i],
        ns,
        tallied,
        node_labels,
        labels,
        gone,
        labels[terms[i].topology_key],
    ) == affinity::match_remains(
        terms[i],
        ns,
        rest,
        node_labels,
        labels,
        none,
        labels[terms[i].topology_key],
    ) && affinity::is_unmatched(terms[i], ns, tallied, node_labels, labels, gone)
        == affinity::is_unmatched(terms[i], ns, rest, node_labels, labels, none) by {
        lemma_match_same(terms[i], ns, tallied, keys, node_labels, labels);
    }
}

proof fn lemma_labels_by_name(items: Seq<NodeItemView>, i: int)
    requires
        0 <= i < items.len(),
        forall|a: int, b: int|
            #![trigger items[a], items[b]]
            0 <= a < b < items.len() ==> items[a].metadata.name != items[b].metadata.name,
    ensures
        select::labels_by_name(items).contains_key(items[i].metadata.name),
        select::labels_by_name(items)[items[i].metadata.name] == items[i].metadata.labels,
    decreases items.len(),
{
    let front = items.drop_last();
    if i < front.len() {
        assert(front[i] == items[i]);
        assert forall|a: int, b: int|
            #![trigger front[a], front[b]]
            0 <= a < b < front.len() implies front[a].metadata.name
            != front[b].metadata.name by {
            assert(front[a] == items[a] && front[b] == items[b]);
        }
        lemma_labels_by_name(front, i);
        assert(items[i].metadata.name != items[items.len() - 1].metadata.name);
    }
}

/// A plan is for a node that suits the pod: with the victims gone, and every
/// other pod where it is, the node meets the pod's affinity, anti-affinity and
/// spread.
pub proof fn law_plan_is_for_a_suitable_node(t: NodeTallyView, pod: PendingPodView, i: int)
    requires
        placement::is_plan(pod, t, i),
        t.is_valid(),
    ensures
        ({
            let items = t.node_items();
            let nodes = select::labels_by_name(items);
            let labels = items[i].metadata.labels;
            let rest = without_keys(
                t.labels(),
                placement::plan_for(items, pod, t, i).victims,
            );
            &&& node::qualifies(items[i], pod)
            &&& affinity::suits(pod, rest, nodes, labels, Seq::empty())
            &&& spread::suits(pod, rest, nodes, labels, Seq::empty())
        }),
{
    let items = t.node_items();
    let n = items[i];
    let node = n.metadata.name;
    let nodes = select::labels_by_name(items);
    let labels = n.metadata.labels;
    let gone = placement::plan_for(items, pod, t, i).victims;
    let tallied = t.labels();
    let pods = t.node_pods(node);
    listing::law_listed_nodes_are_the_known_ones(t, node);
    assert forall|a: int, b: int|
        #![trigger items[a], items[b]]
        0 <= a < b < items.len() implies items[a].metadata.name != items[b].metadata.name by {
        order::lemma_precedes_irreflexive(items[a].metadata.name);
    }
    lemma_labels_by_name(items, i);
    lemma_plan_victims(t, pod, i);
    listing::lemma_node_pods(t, node);
    assert forall|j: int| 0 <= j < tallied.len() && gone.contains((#[trigger] tallied[j]).key) implies
        nodes.contains_key(tallied[j].node_name) && nodes[tallied[j].node_name] == labels by {
        let a = choose|a: int| 0 <= a < gone.len() && gone[a] == tallied[j].key;
        let b = choose|b: int| 0 <= b < pods.len() && (#[trigger] pods[b]).key == gone[a];
        assert(t.pods[pods[b].key].node_name == node);
    }
    law_victims_are_judged_as_gone(pod, tallied, gone, nodes, labels);
}

/// Those of `pods` that are not of strictly lower priority.
pub open spec fn not_below(pods: Seq<NodePodView>, priority: i32) -> Seq<NodePodView>
    decreases pods.len(),
{
    if pods.len() == 0 {
        Seq::empty()
    } else if pods.last().priority < priority {
        not_below(pods.drop_last(), priority)
    } else {
        not_below(pods.drop_last(), priority).push(pods.last())
    }
}

/// What is short of the pending pod.
spec fn is_short(
    allocatable: resources::NodeAllocatableView,
    used: ResourceRequestsView,
    pending: ResourceRequestsView,
    what: Resource,
) -> bool {
    match what {
        Resource::Cpu => !resources::room(
            crate::quantity::quantity_milli(allocatable.cpu),
            used.cpu_milli,
            pending.cpu_milli,
        ),
        Resource::Memory => !resources::room(
            crate::quantity::quantity_milli(allocatable.memory),
            used.memory_milli,
            pending.memory_milli,
        ),
        Resource::EphemeralStorage => !resources::room(
            crate::quantity::quantity_milli(allocatable.ephemeral_storage),
            used.ephemeral_storage_milli,
            pending.ephemeral_storage_milli,
        ),
        Resource::Extended(name) => pending.extended.contains_key(name) && pending.extended[name]
            != 0 && resources::amount(used.extended, name) + pending.extended[name]
            > resources::extended_capacity(allocatable, name),
    }
}

proof fn lemma_short(
    allocatable: resources::NodeAllocatableView,
    used: ResourceRequestsView,
    pending: ResourceRequestsView,
)
    ensures
        resources::fits(allocatable, used, pending) <==> forall|what: Resource|
            !#[trigger] is_short(allocatable, used, pending, what),
{
    if forall|what: Resource| !#[trigger] is_short(allocatable, used, pending, what) {
        assert(!is_short(allocatable, used, pending, Resource::Cpu));
        assert(!is_short(allocatable, used, pending, Resource::Memory));
        assert(!is_short(allocatable, used, pending, Resource::EphemeralStorage));
        assert forall|name: Seq<char>| #[trigger] pending.extended.contains_key(name) implies (
        pending.extended[name] == 0 || resources::amount(used.extended, name)
            + pending.extended[name] <= resources::extended_capacity(allocatable, name)) by {
            assert(!is_short(allocatable, used, pending, Resource::Extended(name)));
        }
    }
}

proof fn lemma_less_is_no_shorter(
    allocatable: resources::NodeAllocatableView,
    used: ResourceRequestsView,
    less: ResourceRequestsView,
    pending: ResourceRequestsView,
    what: Resource,
)
    requires
        amount_of(less, what) <= amount_of(used, what),
        !is_short(allocatable, used, pending, what),
    ensures
        !is_short(allocatable, less, pending, what),
{
}

/// With some pods gone that are all of lower priority, and all those of lower
/// priority that hold some of `what`, no more of it is left than with all
/// those of lower priority gone.
proof fn lemma_gone_holders(
    pods: Seq<NodePodView>,
    keys: Seq<Seq<char>>,
    priority: i32,
    what: Resource,
)
    requires
        forall|j: int|
            0 <= j < pods.len() ==> (keys.contains((#[trigger] pods[j]).key) ==> pods[j].priority
                < priority) && (pods[j].priority < priority && !keys.contains(pods[j].key)
                ==> amount_of(pods[j].requests, what) <= 0),
    ensures
        sum_of(kept(pods, keys), what) <= sum_of(not_below(pods, priority), what),
    decreases pods.len(),
{
    if pods.len() > 0 {
        let front = pods.drop_last();
        let last = pods.last();
        assert(last == pods[pods.len() - 1]);
        assert forall|j: int| 0 <= j < front.len() implies (keys.contains(
            (#[trigger] front[j]).key,
        ) ==> front[j].priority < priority) && (front[j].priority < priority && !keys.contains(
            front[j].key,
        ) ==> amount_of(front[j].requests, what) <= 0) by {
            assert(front[j] == pods[j]);
        }
        lemma_gone_holders(front, keys, priority, what);
        let a = kept(front, keys);
        let b = not_below(front, priority);
        assert(a.push(last).drop_last() =~= a);
        assert(b.push(last).drop_last() =~= b);
    }
}

proof fn lemma_gone_all(pods: Seq<NodePodView>, keys: Seq<Seq<char>>, priority: i32)
    requires
        forall|j: int|
            0 <= j < pods.len() && (#[trigger] pods[j]).priority < priority ==> keys.contains(
                pods[j].key,
            ),
    ensures
        kept(pods, keys).len() <= not_below(pods, priority).len(),
    decreases pods.len(),
{
    if pods.len() > 0 {
        let front = pods.drop_last();
        assert(pods.last() == pods[pods.len() - 1]);
        assert forall|j: int| 0 <= j < front.len() && (#[trigger] front[j]).priority < priority
            implies keys.contains(front[j].key) by {
            assert(front[j] == pods[j]);
        }
        lemma_gone_all(front, keys, priority);
    }
}

proof fn lemma_kept_sum_less(pods: Seq<NodePodView>, keys: Seq<Seq<char>>, what: Resource)
    requires
        forall|j: int| 0 <= j < pods.len() ==> amount_of((#[trigger] pods[j]).requests, what) >= 0,
    ensures
        sum_of(kept(pods, keys), what) <= sum_of(pods, what),
    decreases pods.len(),
{
    if pods.len() > 0 {
        let front = pods.drop_last();
        assert(pods.last() == pods[pods.len() - 1]);
        assert forall|j: int| 0 <= j < front.len() implies amount_of(
            (#[trigger] front[j]).requests,
            what,
        ) >= 0 by {
            assert(front[j] == pods[j]);
        }
        lemma_kept_sum_less(front, keys, what);
        let a = kept(front, keys);
        assert(a.push(pods.last()).drop_last() =~= a);
    }
}

proof fn lemma_not_below_magnitude(pods: Seq<NodePodView>, priority: i32, what: Resource)
    ensures
        magnitude(not_below(pods, priority), what) <= magnitude(pods, what),
    decreases pods.len(),
{
    if pods.len() > 0 {
        lemma_not_below_magnitude(pods.drop_last(), priority, what);
        let a = not_below(pods.drop_last(), priority);
        assert(a.push(pods.last()).drop_last() =~= a);
    }
}

proof fn lemma_first_enough(
    k: int,
    priority: i32,
    pending: ResourceRequestsView,
    pods: Seq<NodePodView>,
    slots: nat,
    allocatable: resources::NodeAllocatableView,
)
    requires
        0 <= k <= victims::candidates(priority, pending, pods, slots, allocatable).len(),
        victims::fits_after(k, priority, pending, pods, slots, allocatable),
    ensures
        exists|j: int| victims::is_enough(j, priority, pending, pods, slots, allocatable),
    decreases k,
{
    if exists|j: int|
        0 <= j < k && #[trigger] victims::fits_after(
            j,
            priority,
            pending,
            pods,
            slots,
            allocatable,
        ) {
        let j = choose|j: int|
            0 <= j < k && #[trigger] victims::fits_after(
                j,
                priority,
                pending,
                pods,
                slots,
                allocatable,
            );
        lemma_first_enough(j, priority, pending, pods, slots, allocatable);
    } else {
        assert(victims::is_enough(k, priority, pending, pods, slots, allocatable));
    }
}

/// Where the pending pod does not fit as it is, but would fit with every pod of
/// strictly lower priority gone, there are victims: the search does not give up
/// on a node that can be opened. Requests are not negative, and their sums stay
/// within the range of an `i64`.
pub proof fn law_victims_are_found_where_there_are_any(
    priority: i32,
    pending: ResourceRequestsView,
    pods: Seq<NodePodView>,
    slots: nat,
    allocatable: resources::NodeAllocatableView,
)
    requires
        victims::distinct_keys(pods),
        sums_are_exact(pods),
        forall|j: int| 0 <= j < pods.len() ==> are_natural((#[trigger] pods[j]).requests),
        !(slots == 0 || pods.len() < slots) || !resources::fits(
            allocatable,
            resources::total_requests(victims::requests_of(pods)),
            pending,
        ),
        slots == 0 || not_below(pods, priority).len() < slots,
        resources::fits(
            allocatable,
            resources::total_requests(victims::requests_of(not_below(pods, priority))),
            pending,
        ),
    ensures
        victims::chosen_victims(priority, pending, pods, slots, allocatable).len() > 0,
{
    let ranked = victims::candidates(priority, pending, pods, slots, allocatable);
    let keys = victims::keys_of(ranked);
    let total = resources::total_requests(victims::requests_of(pods));
    let rest = not_below(pods, priority);
    let of_rest = resources::total_requests(victims::requests_of(rest));
    let left = victims::remaining(total, ranked);
    victims::lemma_candidates(priority, pending, pods, slots, allocatable);
    assert forall|a: int| 0 <= a < ranked.len() implies pods.contains(#[trigger] ranked[a]) by {
        assert(ranked.contains(ranked[a]));
    }
    assert forall|a: int| 0 <= a < keys.len() implies exists|j: int|
        0 <= j < pods.len() && (#[trigger] pods[j]).key == #[trigger] keys[a] by {
        assert(pods.contains(ranked[a]));
        let j = choose|j: int| 0 <= j < pods.len() && pods[j] == ranked[a];
        assert(pods[j].key == keys[a]);
    }
    assert(keys.no_duplicates()) by {
        assert forall|a: int, b: int|
            0 <= a < keys.len() && 0 <= b < keys.len() && a != b implies keys[a] != keys[b] by {
            assert(keys[a] == ranked[a].key && keys[b] == ranked[b].key);
        }
    }
    lemma_with_own_keys(pods, ranked);
    assert forall|j: int|
        #![trigger pods[j]]
        0 <= j < pods.len() implies keys.contains(pods[j].key) == victims::is_candidate(
        pods[j],
        priority,
        pending,
        pods,
        slots,
        allocatable,
    ) by {
        assert(pods.contains(pods[j]));
        if ranked.contains(pods[j]) {
            let a = choose|a: int| 0 <= a < ranked.len() && ranked[a] == pods[j];
            assert(keys[a] == pods[j].key);
        }
        if keys.contains(pods[j].key) {
            let a = choose|a: int| 0 <= a < keys.len() && keys[a] == pods[j].key;
            assert(pods.contains(ranked[a]));
            let b = choose|b: int| 0 <= b < pods.len() && pods[b] == ranked[a];
            assert(pods[b].key == pods[j].key);
            assert(b == j);
            assert(ranked.contains(pods[j]));
        }
    }
    assert(magnitude(pods, Resource::Cpu) <= i64::MAX);
    lemma_remaining(pods, keys, Resource::Cpu);
    // A slot is free.
    if victims::slots_short(pods, slots) {
        assert forall|j: int| 0 <= j < pods.len() && (#[trigger] pods[j]).priority < priority
            implies keys.contains(pods[j].key) by {
        }
        lemma_gone_all(pods, keys, priority);
    }
    assert(node::slot_free(slots, pods.len() - ranked.len()));
    // Nothing is short.
    lemma_short(allocatable, total, pending);
    lemma_short(allocatable, of_rest, pending);
    assert forall|what: Resource| !#[trigger] is_short(allocatable, left, pending, what) by {
        assert(magnitude(pods, what) <= i64::MAX);
        lemma_remaining(pods, keys, what);
        lemma_total(pods, what);
        lemma_not_below_magnitude(pods, priority, what);
        lemma_total(rest, what);
        if is_short(allocatable, total, pending, what) {
            assert forall|j: int| 0 <= j < pods.len() implies (keys.contains(
                (#[trigger] pods[j]).key,
            ) ==> pods[j].priority < priority) && (pods[j].priority < priority && !keys.contains(
                pods[j].key,
            ) ==> amount_of(pods[j].requests, what) <= 0) by {
                if pods[j].priority < priority && amount_of(pods[j].requests, what) > 0 {
                    if let Resource::Extended(name) = what {
                        assert(pending.extended.contains_key(name));
                    }
                    assert(resources::would_help(allocatable, total, pending, pods[j].requests));
                }
            }
            lemma_gone_holders(pods, keys, priority, what);
            assert(!is_short(allocatable, of_rest, pending, what));
            lemma_less_is_no_shorter(allocatable, of_rest, left, pending, what);
        } else {
            assert forall|j: int| 0 <= j < pods.len() implies amount_of(
                (#[trigger] pods[j]).requests,
                what,
            ) >= 0 by {
                assert(are_natural(pods[j].requests));
            }
            lemma_kept_sum_less(pods, keys, what);
            lemma_less_is_no_shorter(allocatable, total, left, pending, what);
        }
    }
    lemma_short(allocatable, left, pending);
    let k = ranked.len() as int;
    assert(ranked.take(k) =~= ranked);
    assert(victims::fits_after(k, priority, pending, pods, slots, allocatable));
    lemma_first_enough(k, priority, pending, pods, slots, allocatable);
    let enough = choose|k: int|
        victims::is_enough(k, priority, pending, pods, slots, allocatable);
    if enough == 0 {
        assert(ranked.take(0) =~= Seq::empty());
        assert(victims::remaining(total, ranked.take(0)) == total);
    }
}

/// A node that suits the pod but for room is opened by preemption where it
/// would have room with every pod of strictly lower priority gone, and then a
/// plan is found. The pod needs no claim for itself; its volumes have headroom
/// and drivers, and its affinity and spread are met with the victims gone.
pub proof fn law_node_held_by_less_important_pods_is_opened(
    n: NodeItemView,
    pod: PendingPodView,
    t: NodeTallyView,
)
    requires
        t.is_valid(),
        t.node_items().contains(n),
        node::qualifies(n, pod),
        pod.read_write_once_pod_pvcs.len() == 0,
        csi::within_headroom(placement::headroom_on(t, n.metadata.name), pod.csi_volume_counts),
        csi::drivers_registered(
            placement::drivers_on(t, n.metadata.name),
            pod.unbound_csi_pvc_drivers,
        ),
        ({
            let gone = placement::with_keys(t.labels(), placement::victims_on(n, pod, t));
            let nl = select::labels_by_name(t.node_items());
            affinity::suits(pod, t.labels(), nl, n.metadata.labels, gone) && spread::suits(
                pod,
                t.labels(),
                nl,
                n.metadata.labels,
                gone,
            )
        }),
        ({
            let pods = t.node_pods(n.metadata.name);
            let slots = node::pod_slots(n);
            &&& sums_are_exact(pods)
            &&& forall|j: int| 0 <= j < pods.len() ==> are_natural((#[trigger] pods[j]).requests)
            &&& !(slots == 0 || pods.len() < slots) || !resources::fits(
                n.status.allocatable,
                resources::total_requests(victims::requests_of(pods)),
                pod.requests,
            )
            &&& slots == 0 || not_below(pods, pod.priority).len() < slots
            &&& resources::fits(
                n.status.allocatable,
                resources::total_requests(victims::requests_of(not_below(pods, pod.priority))),
                pod.requests,
            )
        }),
    ensures
        placement::is_viable(
            n,
            pod,
            t,
            t.labels(),
            select::labels_by_name(t.node_items()),
        ),
        placement::can_preempt(pod, t),
{
    let pods = t.node_pods(n.metadata.name);
    let slots = node::pod_slots(n);
    let claims = select::qualified_claims(pod.namespace, pod.read_write_once_pod_pvcs);
    assert(claims =~= Seq::empty());
    listing::lemma_node_pods(t, n.metadata.name);
    law_victims_are_found_where_there_are_any(
        pod.priority,
        pod.requests,
        pods,
        slots,
        n.status.allocatable,
    );
    let chosen = victims::chosen_victims(
        pod.priority,
        pod.requests,
        pods,
        slots,
        n.status.allocatable,
    );
    victims::law_no_claims_no_holders(pods, pod.priority);
    let holders = victims::keys_of(victims::claim_holders(pods, claims));
    assert(holders.len() == 0);
    assert(placement::victims_on(n, pod, t) == victims::keys_of(chosen));
    victims::law_victims_are_enough_and_no_more(
        pod.priority,
        pod.requests,
        pods,
        slots,
        n.status.allocatable,
    );
    assert forall|a: int| 0 <= a < chosen.len() implies pods.contains(#[trigger] chosen[a]) by {
        victims::law_victims_are_less_important(
            pod.priority,
            pod.requests,
            pods,
            slots,
            n.status.allocatable,
            a,
        );
    }
    lemma_with_own_keys(pods, chosen);
    assert(placement::is_viable(
        n,
        pod,
        t,
        t.labels(),
        select::labels_by_name(t.node_items()),
    ));
    let i = choose|i: int| 0 <= i < t.node_items().len() && t.node_items()[i] == n;
    assert(placement::is_viable(
        t.node_items()[i],
        pod,
        t,
        t.labels(),
        select::labels_by_name(t.node_items()),
    ));
}

} // verus!
