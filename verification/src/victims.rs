//! Choosing the pods of one node that have to make room for another.

use crate::node::{self, NodePod, NodePodView};
use crate::quantity;
use crate::resources::{
    self, resource_deficiency_relevant, resource_fits, subtract_requests, NodeAllocatable,
    NodeAllocatableView, ResourceRequests, ResourceRequestsView,
};
use crate::selector::list_contains;
use vstd::prelude::*;

verus! {

/// The requests of each pod.
pub open spec fn requests_of(pods: Seq<NodePodView>) -> Seq<ResourceRequestsView> {
    pods.map_values(|p: NodePodView| p.requests)
}

/// The keys of the pods.
pub open spec fn keys_of(pods: Seq<NodePodView>) -> Seq<Seq<char>> {
    pods.map_values(|p: NodePodView| p.key)
}

/// The node has no slot left.
pub open spec fn slots_short(pods: Seq<NodePodView>, slots: nat) -> bool {
    slots != 0 && pods.len() >= slots
}

/// The pod may have to make room: it is of lower priority, and its going
/// helps with a slot or with a resource that is short.
pub open spec fn is_candidate(
    p: NodePodView,
    priority: i32,
    pending: ResourceRequestsView,
    pods: Seq<NodePodView>,
    slots: nat,
    allocatable: NodeAllocatableView,
) -> bool {
    p.priority < priority && (slots_short(pods, slots) || resources::would_help(
        allocatable,
        resources::total_requests(requests_of(pods)),
        pending,
        p.requests,
    ))
}

/// Those of the first `n` pods that may have to make room, in their order.
pub open spec fn candidates_among(
    n: nat,
    priority: i32,
    pending: ResourceRequestsView,
    pods: Seq<NodePodView>,
    slots: nat,
    allocatable: NodeAllocatableView,
) -> Seq<NodePodView>
    decreases n,
{
    if n == 0 {
        Seq::empty()
    } else {
        let before = candidates_among(
            (n - 1) as nat,
            priority,
            pending,
            pods,
            slots,
            allocatable,
        );
        if is_candidate(pods[n - 1], priority, pending, pods, slots, allocatable) {
            before.push(pods[n - 1])
        } else {
            before
        }
    }
}

/// `x` put behind all pods of no higher priority at the end of `sorted`.
pub open spec fn inserted(sorted: Seq<NodePodView>, x: NodePodView) -> Seq<NodePodView>
    decreases sorted.len(),
{
    if sorted.len() == 0 || sorted.last().priority <= x.priority {
        sorted.push(x)
    } else {
        inserted(sorted.drop_last(), x).push(sorted.last())
    }
}

/// The pods by increasing priority; those of one priority keep their order.
pub open spec fn by_priority(pods: Seq<NodePodView>) -> Seq<NodePodView>
    decreases pods.len(),
{
    if pods.len() == 0 {
        Seq::empty()
    } else {
        inserted(by_priority(pods.drop_last()), pods.last())
    }
}

/// The pods that may have to make room, the least important first.
pub open spec fn candidates(
    priority: i32,
    pending: ResourceRequestsView,
    pods: Seq<NodePodView>,
    slots: nat,
    allocatable: NodeAllocatableView,
) -> Seq<NodePodView> {
    by_priority(candidates_among(pods.len(), priority, pending, pods, slots, allocatable))
}

/// What is left of `total` when `gone` are taken away one by one.
pub open spec fn remaining(
    total: ResourceRequestsView,
    gone: Seq<NodePodView>,
) -> ResourceRequestsView
    decreases gone.len(),
{
    if gone.len() == 0 {
        total
    } else {
        remaining(total, gone.drop_last()).minus(gone.last().requests)
    }
}

/// The pending pod fits when the first `k` candidates are gone.
pub open spec fn fits_after(
    k: int,
    priority: i32,
    pending: ResourceRequestsView,
    pods: Seq<NodePodView>,
    slots: nat,
    allocatable: NodeAllocatableView,
) -> bool {
    &&& node::slot_free(slots, pods.len() - k)
    &&& resources::fits(
        allocatable,
        remaining(
            resources::total_requests(requests_of(pods)),
            candidates(priority, pending, pods, slots, allocatable).take(k),
        ),
        pending,
    )
}

/// `k` is the least number of candidates whose going lets the pending pod
/// fit.
pub open spec fn is_enough(
    k: int,
    priority: i32,
    pending: ResourceRequestsView,
    pods: Seq<NodePodView>,
    slots: nat,
    allocatable: NodeAllocatableView,
) -> bool {
    &&& 0 <= k <= candidates(priority, pending, pods, slots, allocatable).len()
    &&& fits_after(k, priority, pending, pods, slots, allocatable)
    &&& forall|j: int|
        0 <= j < k ==> !#[trigger] fits_after(j, priority, pending, pods, slots, allocatable)
}

/// The pods to evict, as few as will do and the least important first; none
/// where the pending pod fits anyway or cannot be made to fit.
pub open spec fn chosen_victims(
    priority: i32,
    pending: ResourceRequestsView,
    pods: Seq<NodePodView>,
    slots: nat,
    allocatable: NodeAllocatableView,
) -> Seq<NodePodView> {
    if exists|k: int| is_enough(k, priority, pending, pods, slots, allocatable) {
        candidates(priority, pending, pods, slots, allocatable).take(
            choose|k: int| is_enough(k, priority, pending, pods, slots, allocatable),
        )
    } else {
        Seq::empty()
    }
}

/// Putting `x` at position `p`, behind the last pod of no higher priority.
proof fn lemma_inserted(sorted: Seq<NodePodView>, x: NodePodView, p: int)
    requires
        0 <= p <= sorted.len(),
        p > 0 ==> sorted[p - 1].priority <= x.priority,
        forall|j: int| p <= j < sorted.len() ==> (#[trigger] sorted[j]).priority > x.priority,
    ensures
        inserted(sorted, x) == sorted.insert(p, x),
    decreases sorted.len(),
{
    if p == sorted.len() {
        assert(sorted.insert(p, x) =~= sorted.push(x));
    } else {
        let front = sorted.drop_last();
        assert(sorted[sorted.len() - 1].priority > x.priority);
        lemma_inserted(front, x, p);
        assert(front.insert(p, x).push(sorted.last()) =~= sorted.insert(p, x));
    }
}

spec fn picked(pods: Seq<NodePodView>, indices: Seq<usize>) -> Seq<NodePodView> {
    indices.map_values(|i: usize| pods[i as int])
}

/// Put position `x` of `node_pods` behind the last of no higher priority.
fn insert_by_priority(sorted: &mut Vec<usize>, node_pods: &[NodePod], x: usize)
    requires
        x < node_pods@.len(),
        forall|j: int| 0 <= j < old(sorted)@.len() ==> #[trigger] old(sorted)@[j] < node_pods@.len(),
    ensures
        forall|j: int|
            0 <= j < final(sorted)@.len() ==> #[trigger] final(sorted)@[j] < node_pods@.len(),
        picked(node_pods.deep_view(), final(sorted)@) == inserted(
            picked(node_pods.deep_view(), old(sorted)@),
            node_pods.deep_view()[x as int],
        ),
        final(sorted)@.len() == old(sorted)@.len() + 1,
{
    let ghost pods = node_pods.deep_view();
    let ghost before = sorted@;
    let mut p: usize = sorted.len();
    while p > 0 && node_pods[sorted[p - 1]].priority > node_pods[x].priority
        invariant
            pods == node_pods.deep_view(),
            before == sorted@,
            p <= sorted@.len(),
            x < node_pods@.len(),
            forall|j: int| 0 <= j < sorted@.len() ==> #[trigger] sorted@[j] < node_pods@.len(),
            forall|j: int|
                p <= j < before.len() ==> (#[trigger] picked(pods, before)[j]).priority
                    > pods[x as int].priority,
        decreases p,
    {
        assert(picked(pods, before)[p - 1].priority > pods[x as int].priority);
        p -= 1;
    }
    proof {
        if p > 0 {
            assert(picked(pods, before)[p - 1].priority <= pods[x as int].priority);
        }
        lemma_inserted(picked(pods, before), pods[x as int], p as int);
    }
    sorted.insert(p, x);
    assert(picked(pods, sorted@) =~= picked(pods, before).insert(p as int, pods[x as int]));
}

/// The requests of the pods together.
pub fn sum_requests(node_pods: &[NodePod]) -> (total: ResourceRequests)
    ensures
        total@ == resources::total_requests(requests_of(node_pods.deep_view())),
{
    let ghost all = requests_of(node_pods.deep_view());
    let mut total = ResourceRequests::default();
    let mut i: usize = 0;
    proof {
        assert(all.take(0) =~= Seq::empty());
    }
    while i < node_pods.len()
        invariant
            all == requests_of(node_pods.deep_view()),
            i <= node_pods@.len(),
            total@ == resources::total_requests(all.take(i as int)),
        decreases node_pods@.len() - i,
    {
        proof {
            assert(all.take(i + 1).drop_last() =~= all.take(i as int));
            assert(all.take(i + 1).last() == node_pods@[i as int]@.requests);
        }
        total = total.plus(&node_pods[i].requests);
        i += 1;
    }
    assert(all.take(i as int) =~= all);
    total
}

/// Whether the pending pod fits beside `pod_count` pods with `requests`.
fn fits_beside(
    slots: u32,
    allocatable: &NodeAllocatable,
    pod_count: usize,
    requests: &ResourceRequests,
    pending: &ResourceRequests,
) -> (b: bool)
    ensures
        b == (node::slot_free(slots as nat, pod_count as int) && resources::fits(
            allocatable@,
            requests@,
            pending@,
        )),
{
    (slots == 0 || (pod_count as u128) < slots as u128) && resource_fits(
        allocatable,
        requests,
        pending,
    )
}

/// The pods to evict from one node so that a pod of `pending_priority` with
/// `pending_requests` fits: only pods of strictly lower priority that hold
/// some of what is short, the least important first, and no more than needed.
///
/// Empty where the pod fits without, and where it would not fit even with all
/// of them gone.
#[verifier::loop_isolation(false)]
pub fn select_preemption_victims(
    pending_priority: i32,
    pending_requests: &ResourceRequests,
    node_pods: &[NodePod],
    pod_count_capacity: u32,
    allocatable: &NodeAllocatable,
) -> (victims: Vec<String>)
    ensures
        victims.deep_view() == keys_of(
            chosen_victims(
                pending_priority,
                pending_requests@,
                node_pods.deep_view(),
                pod_count_capacity as nat,
                allocatable@,
            ),
        ),
{
    let ghost pods = node_pods.deep_view();
    let ghost pending = pending_requests@;
    let ghost slots = pod_count_capacity as nat;
    let ghost alloc = allocatable@;
    let count: usize = node_pods.len();
    let total_requests = sum_requests(node_pods);
    let pod_count_short = pod_count_capacity != 0 && count as u128 >= pod_count_capacity as u128;
    let mut sorted: Vec<usize> = Vec::new();
    let mut i: usize = 0;
    proof {
        assert(picked(pods, sorted@) =~= Seq::empty());
    }
    while i < count
        invariant
            i <= count,
            sorted@.len() <= i,
            forall|j: int| 0 <= j < sorted@.len() ==> #[trigger] sorted@[j] < node_pods@.len(),
            picked(pods, sorted@) == by_priority(
                candidates_among(i as nat, pending_priority, pending, pods, slots, alloc),
            ),
        decreases count - i,
    {
        let p = &node_pods[i];
        assert(pods[i as int] == p@);
        let ghost before = candidates_among(
            i as nat,
            pending_priority,
            pending,
            pods,
            slots,
            alloc,
        );
        if p.priority < pending_priority && (pod_count_short || resource_deficiency_relevant(
            allocatable,
            &total_requests,
            pending_requests,
            &p.requests,
        )) {
            insert_by_priority(&mut sorted, node_pods, i);
            proof {
                assert(before.push(p@).drop_last() =~= before);
                assert(before.push(p@).last() == p@);
            }
        }
        i += 1;
    }
    let ghost ranked = candidates(pending_priority, pending, pods, slots, alloc);
    assert(picked(pods, sorted@) == ranked);
    let mut remaining_requests = total_requests;
    let mut victims: Vec<String> = Vec::new();
    let mut k: usize = 0;
    proof {
        assert(ranked.take(0) =~= Seq::empty());
        assert(victims.deep_view() =~= keys_of(ranked.take(0)));
    }
    while k < sorted.len() && !fits_beside(
        pod_count_capacity,
        allocatable,
        count - k,
        &remaining_requests,
        pending_requests,
    )
        invariant
            k <= sorted@.len() <= count,
            remaining_requests@ == remaining(
                resources::total_requests(requests_of(pods)),
                ranked.take(k as int),
            ),
            victims.deep_view() == keys_of(ranked.take(k as int)),
            forall|j: int|
                0 <= j < k ==> !#[trigger] fits_after(
                    j,
                    pending_priority,
                    pending,
                    pods,
                    slots,
                    alloc,
                ),
        decreases sorted@.len() - k,
    {
        assert(!fits_after(k as int, pending_priority, pending, pods, slots, alloc));
        let p = &node_pods[sorted[k]];
        proof {
            assert(ranked[k as int] == p@);
            assert(ranked.take(k + 1).drop_last() =~= ranked.take(k as int));
            assert(ranked.take(k + 1).last() == p@);
        }
        let ghost before = victims.deep_view();
        subtract_requests(&mut remaining_requests, &p.requests);
        victims.push(p.key.clone());
        assert(victims.deep_view() =~= before.push(p@.key));
        assert(victims.deep_view() =~= keys_of(ranked.take(k + 1)));
        k += 1;
    }
    let enough = fits_beside(
        pod_count_capacity,
        allocatable,
        count - k,
        &remaining_requests,
        pending_requests,
    );
    assert(enough == fits_after(k as int, pending_priority, pending, pods, slots, alloc));
    if enough {
        proof {
            assert(is_enough(k as int, pending_priority, pending, pods, slots, alloc));
            let other = choose|k: int|
                is_enough(k, pending_priority, pending, pods, slots, alloc);
            lemma_enough_unique(
                k as int,
                other,
                pending_priority,
                pending,
                pods,
                slots,
                alloc,
            );
        }
        victims
    } else {
        proof {
            assert forall|j: int| !is_enough(
                j,
                pending_priority,
                pending,
                pods,
                slots,
                alloc,
            ) by {
                if is_enough(j, pending_priority, pending, pods, slots, alloc) {
                    assert(fits_after(j, pending_priority, pending, pods, slots, alloc));
                }
            }
        }
        let none: Vec<String> = Vec::new();
        assert(none.deep_view() =~= keys_of(Seq::empty()));
        none
    }
}

proof fn lemma_enough_unique(
    a: int,
    b: int,
    priority: i32,
    pending: ResourceRequestsView,
    pods: Seq<NodePodView>,
    slots: nat,
    allocatable: NodeAllocatableView,
)
    requires
        is_enough(a, priority, pending, pods, slots, allocatable),
        is_enough(b, priority, pending, pods, slots, allocatable),
    ensures
        a == b,
{
    if a < b {
        assert(!fits_after(a, priority, pending, pods, slots, allocatable));
    } else if b < a {
        assert(!fits_after(b, priority, pending, pods, slots, allocatable));
    }
}

/// The pod uses one of the claims `rwop_pvcs`.
pub open spec fn holds_claim(p: NodePodView, rwop_pvcs: Seq<Seq<char>>) -> bool {
    exists|i: int| 0 <= i < p.pvc_names.len() && rwop_pvcs.contains(#[trigger] p.pvc_names[i])
}

/// The pods that use one of the claims, in their order.
pub open spec fn claim_holders(
    pods: Seq<NodePodView>,
    rwop_pvcs: Seq<Seq<char>>,
) -> Seq<NodePodView>
    decreases pods.len(),
{
    if pods.len() == 0 {
        Seq::empty()
    } else if holds_claim(pods.last(), rwop_pvcs) {
        claim_holders(pods.drop_last(), rwop_pvcs).push(pods.last())
    } else {
        claim_holders(pods.drop_last(), rwop_pvcs)
    }
}

/// Every pod that uses one of the claims is of lower priority.
pub open spec fn claims_obtainable(
    pods: Seq<NodePodView>,
    rwop_pvcs: Seq<Seq<char>>,
    priority: i32,
) -> bool {
    forall|i: int|
        0 <= i < pods.len() && holds_claim(#[trigger] pods[i], rwop_pvcs) ==> pods[i].priority
            < priority
}

fn uses_claim(p: &NodePod, rwop_pvcs: &[String]) -> (b: bool)
    ensures
        b == holds_claim(p@, rwop_pvcs.deep_view()),
{
    let mut i: usize = 0;
    while i < p.pvc_names.len()
        invariant
            i <= p.pvc_names@.len(),
            forall|j: int|
                0 <= j < i ==> !rwop_pvcs.deep_view().contains(#[trigger] p@.pvc_names[j]),
        decreases p.pvc_names@.len() - i,
    {
        if list_contains(rwop_pvcs, p.pvc_names[i].as_str()) {
            proof {
                assert(rwop_pvcs.deep_view().contains(p@.pvc_names[i as int]));
            }
            return true;
        }
        i += 1;
    }
    false
}

/// The pods that have to go because they use a claim that one pod alone may
/// use. `None` where one of them is not of strictly lower priority: then no
/// eviction opens the node.
#[verifier::loop_isolation(false)]
pub fn read_write_once_pod_preemption_victims(
    node_pods: &[NodePod],
    rwop_pvcs: &[String],
    pending_priority: i32,
) -> (r: Option<Vec<String>>)
    ensures
        r is Some == claims_obtainable(
            node_pods.deep_view(),
            rwop_pvcs.deep_view(),
            pending_priority,
        ),
        r matches Some(victims) ==> victims.deep_view() == keys_of(
            claim_holders(node_pods.deep_view(), rwop_pvcs.deep_view()),
        ),
{
    let ghost pods = node_pods.deep_view();
    let ghost claims = rwop_pvcs.deep_view();
    let mut victims: Vec<String> = Vec::new();
    let mut i: usize = 0;
    proof {
        assert(pods.take(0) =~= Seq::empty());
        assert(victims.deep_view() =~= keys_of(claim_holders(pods.take(0), claims)));
    }
    while i < node_pods.len()
        invariant
            i <= node_pods@.len(),
            victims.deep_view() == keys_of(claim_holders(pods.take(i as int), claims)),
            forall|j: int|
                0 <= j < i && holds_claim(#[trigger] pods[j], claims) ==> pods[j].priority
                    < pending_priority,
        decreases node_pods@.len() - i,
    {
        let p = &node_pods[i];
        let ghost before = claim_holders(pods.take(i as int), claims);
        proof {
            assert(pods[i as int] == p@);
            assert(pods.take(i + 1).drop_last() =~= pods.take(i as int));
            assert(pods.take(i + 1).last() == p@);
        }
        if uses_claim(p, rwop_pvcs) {
            if p.priority >= pending_priority {
                return None;
            }
            let ghost old_keys = victims.deep_view();
            victims.push(p.key.clone());
            assert(victims.deep_view() =~= old_keys.push(p@.key));
            assert(keys_of(before.push(p@)) =~= keys_of(before).push(p@.key));
        }
        i += 1;
    }
    assert(pods.take(i as int) =~= pods);
    Some(victims)
}

proof fn lemma_inserted_holds(
    sorted: Seq<NodePodView>,
    x: NodePodView,
    p: NodePodView,
)
    ensures
        inserted(sorted, x).contains(p) == (sorted.contains(p) || p == x),
        inserted(sorted, x).len() == sorted.len() + 1,
    decreases sorted.len(),
{
    let all = inserted(sorted, x);
    if sorted.len() == 0 || sorted.last().priority <= x.priority {
        lemma_push_contains(sorted, x, p);
    } else {
        let front = sorted.drop_last();
        lemma_inserted_holds(front, x, p);
        lemma_push_contains(inserted(front, x), sorted.last(), p);
        lemma_push_contains(front, sorted.last(), p);
        assert(front.push(sorted.last()) =~= sorted);
    }
}

/// One more pod in a listing.
pub proof fn lemma_push_contains(s: Seq<NodePodView>, x: NodePodView, p: NodePodView)
    ensures
        s.push(x).contains(p) == (s.contains(p) || p == x),
{
    let all = s.push(x);
    if s.contains(p) {
        let j = choose|j: int| 0 <= j < s.len() && s[j] == p;
        assert(all[j] == p);
    }
    if p == x {
        assert(all[s.len() as int] == p);
    }
    if all.contains(p) {
        let j = choose|j: int| 0 <= j < all.len() && all[j] == p;
        if j < s.len() {
            assert(s[j] == p);
        }
    }
}

proof fn lemma_inserted_sorted(sorted: Seq<NodePodView>, x: NodePodView)
    requires
        forall|i: int, j: int|
            #![trigger sorted[i], sorted[j]]
            0 <= i < j < sorted.len() ==> sorted[i].priority <= sorted[j].priority,
    ensures
        forall|i: int, j: int|
            #![trigger inserted(sorted, x)[i], inserted(sorted, x)[j]]
            0 <= i < j < inserted(sorted, x).len() ==> inserted(sorted, x)[i].priority <= inserted(
                sorted,
                x,
            )[j].priority,
    decreases sorted.len(),
{
    if !(sorted.len() == 0 || sorted.last().priority <= x.priority) {
        let front = sorted.drop_last();
        lemma_inserted_sorted(front, x);
        let all = inserted(sorted, x);
        let part = inserted(front, x);
        assert forall|i: int, j: int| 0 <= i < j < all.len() implies all[i].priority
            <= all[j].priority by {
            if j == all.len() - 1 {
                assert(all[i] == part[i]);
                assert(part.contains(part[i]));
                lemma_inserted_holds(front, x, part[i]);
                if front.contains(part[i]) {
                    let k = choose|k: int| 0 <= k < front.len() && front[k] == part[i];
                    assert(sorted[k].priority <= sorted[sorted.len() - 1].priority);
                }
            } else {
                assert(all[i] == part[i] && all[j] == part[j]);
            }
        }
    } else {
        let all = inserted(sorted, x);
        assert forall|i: int, j: int| 0 <= i < j < all.len() implies all[i].priority
            <= all[j].priority by {
            if j == all.len() - 1 && i < sorted.len() {
                assert(sorted[i].priority <= sorted[sorted.len() - 1].priority);
            }
        }
    }
}

proof fn lemma_by_priority(pods: Seq<NodePodView>)
    ensures
        by_priority(pods).len() == pods.len(),
        forall|i: int, j: int|
            #![trigger by_priority(pods)[i], by_priority(pods)[j]]
            0 <= i < j < by_priority(pods).len() ==> by_priority(pods)[i].priority <= by_priority(
                pods,
            )[j].priority,
        forall|p: NodePodView| #[trigger] by_priority(pods).contains(p) == pods.contains(p),
    decreases pods.len(),
{
    if pods.len() > 0 {
        let front = pods.drop_last();
        lemma_by_priority(front);
        lemma_inserted_sorted(by_priority(front), pods.last());
        assert forall|p: NodePodView| #[trigger] by_priority(pods).contains(p) == pods.contains(
            p,
        ) by {
            lemma_inserted_holds(by_priority(front), pods.last(), p);
            lemma_push_contains(front, pods.last(), p);
            assert(front.push(pods.last()) =~= pods);
            assert(by_priority(front).contains(p) == front.contains(p));
        }
        lemma_inserted_holds(by_priority(front), pods.last(), pods.last());
    }
}

proof fn lemma_candidates_among(
    n: nat,
    priority: i32,
    pending: ResourceRequestsView,
    pods: Seq<NodePodView>,
    slots: nat,
    allocatable: NodeAllocatableView,
    p: NodePodView,
)
    requires
        n <= pods.len(),
        candidates_among(n, priority, pending, pods, slots, allocatable).contains(p),
    ensures
        pods.contains(p),
        is_candidate(p, priority, pending, pods, slots, allocatable),
    decreases n,
{
    if n > 0 {
        let before = candidates_among(
            (n - 1) as nat,
            priority,
            pending,
            pods,
            slots,
            allocatable,
        );
        let x = pods[n - 1];
        lemma_push_contains(before, x, p);
        if p == x && is_candidate(x, priority, pending, pods, slots, allocatable) {
            assert(pods.contains(x));
        } else {
            lemma_candidates_among(
                (n - 1) as nat,
                priority,
                pending,
                pods,
                slots,
                allocatable,
                p,
            );
        }
    }
}

/// Every victim is a pod of the node, of strictly lower priority than the
/// pending pod, and its going helps with something that is short.
pub proof fn law_victims_are_less_important(
    priority: i32,
    pending: ResourceRequestsView,
    pods: Seq<NodePodView>,
    slots: nat,
    allocatable: NodeAllocatableView,
    i: int,
)
    requires
        0 <= i < chosen_victims(priority, pending, pods, slots, allocatable).len(),
    ensures
        pods.contains(chosen_victims(priority, pending, pods, slots, allocatable)[i]),
        chosen_victims(priority, pending, pods, slots, allocatable)[i].priority < priority,
        is_candidate(
            chosen_victims(priority, pending, pods, slots, allocatable)[i],
            priority,
            pending,
            pods,
            slots,
            allocatable,
        ),
{
    let among = candidates_among(pods.len(), priority, pending, pods, slots, allocatable);
    let ranked = candidates(priority, pending, pods, slots, allocatable);
    let victim = chosen_victims(priority, pending, pods, slots, allocatable)[i];
    assert(ranked[i] == victim);
    assert(ranked.contains(victim));
    lemma_by_priority(among);
    assert(among.contains(victim));
    lemma_candidates_among(pods.len(), priority, pending, pods, slots, allocatable, victim);
}

/// A pod that fits as it is costs nobody their place.
pub proof fn law_no_victims_where_there_is_room(
    priority: i32,
    pending: ResourceRequestsView,
    pods: Seq<NodePodView>,
    slots: nat,
    allocatable: NodeAllocatableView,
)
    requires
        node::slot_free(slots, pods.len() as int),
        resources::fits(
            allocatable,
            resources::total_requests(requests_of(pods)),
            pending,
        ),
    ensures
        chosen_victims(priority, pending, pods, slots, allocatable).len() == 0,
{
    let ranked = candidates(priority, pending, pods, slots, allocatable);
    assert(ranked.take(0) =~= Seq::empty());
    assert(fits_after(0, priority, pending, pods, slots, allocatable));
    assert(is_enough(0, priority, pending, pods, slots, allocatable));
    let k = choose|k: int| is_enough(k, priority, pending, pods, slots, allocatable);
    lemma_enough_unique(0, k, priority, pending, pods, slots, allocatable);
}

/// Where there are victims, the pending pod fits without them, and would not
/// fit with any fewer of them gone.
pub proof fn law_victims_are_enough_and_no_more(
    priority: i32,
    pending: ResourceRequestsView,
    pods: Seq<NodePodView>,
    slots: nat,
    allocatable: NodeAllocatableView,
)
    requires
        chosen_victims(priority, pending, pods, slots, allocatable).len() > 0,
    ensures
        ({
            let victims = chosen_victims(priority, pending, pods, slots, allocatable);
            let total = resources::total_requests(requests_of(pods));
            &&& node::slot_free(slots, pods.len() - victims.len())
            &&& resources::fits(allocatable, remaining(total, victims), pending)
            &&& forall|j: int|
                0 <= j < victims.len() ==> !(node::slot_free(slots, pods.len() - j)
                    && resources::fits(
                    allocatable,
                    remaining(total, #[trigger] victims.take(j)),
                    pending,
                ))
        }),
{
    let ranked = candidates(priority, pending, pods, slots, allocatable);
    let k = choose|k: int| is_enough(k, priority, pending, pods, slots, allocatable);
    assert(is_enough(k, priority, pending, pods, slots, allocatable));
    let victims = chosen_victims(priority, pending, pods, slots, allocatable);
    assert forall|j: int| 0 <= j < victims.len() implies !(node::slot_free(slots, pods.len() - j)
        && resources::fits(
        allocatable,
        remaining(
            resources::total_requests(requests_of(pods)),
            #[trigger] victims.take(j),
        ),
        pending,
    )) by {
        assert(victims.take(j) =~= ranked.take(j));
        assert(!fits_after(j, priority, pending, pods, slots, allocatable));
    }
}

/// No two of the pods have the same key.
pub open spec fn distinct_keys(pods: Seq<NodePodView>) -> bool {
    forall|i: int, j: int|
        #![trigger pods[i], pods[j]]
        0 <= i < j < pods.len() ==> pods[i].key != pods[j].key
}

proof fn lemma_inserted_distinct(sorted: Seq<NodePodView>, x: NodePodView)
    requires
        distinct_keys(sorted),
        forall|i: int| 0 <= i < sorted.len() ==> (#[trigger] sorted[i]).key != x.key,
    ensures
        distinct_keys(inserted(sorted, x)),
    decreases sorted.len(),
{
    if !(sorted.len() == 0 || sorted.last().priority <= x.priority) {
        let front = sorted.drop_last();
        lemma_inserted_distinct(front, x);
        let part = inserted(front, x);
        let all = inserted(sorted, x);
        assert forall|i: int, j: int|
            #![trigger all[i], all[j]]
            0 <= i < j < all.len() implies all[i].key != all[j].key by {
            assert(all[i] == part[i]);
            if j < part.len() {
                assert(all[j] == part[j]);
            } else {
                assert(part.contains(part[i]));
                lemma_inserted_holds(front, x, part[i]);
                if front.contains(part[i]) {
                    let k = choose|k: int| 0 <= k < front.len() && front[k] == part[i];
                    assert(sorted[k].key != sorted[sorted.len() - 1].key);
                } else {
                    assert(sorted[sorted.len() - 1].key != x.key);
                }
            }
        }
    }
}

proof fn lemma_by_priority_distinct(pods: Seq<NodePodView>)
    requires
        distinct_keys(pods),
    ensures
        distinct_keys(by_priority(pods)),
    decreases pods.len(),
{
    if pods.len() > 0 {
        let front = pods.drop_last();
        let ranked = by_priority(front);
        lemma_by_priority_distinct(front);
        lemma_by_priority(front);
        assert forall|i: int| 0 <= i < ranked.len() implies (#[trigger] ranked[i]).key
            != pods.last().key by {
            assert(ranked.contains(ranked[i]));
            assert(front.contains(ranked[i]));
            let k = choose|k: int| 0 <= k < front.len() && front[k] == ranked[i];
            assert(pods[k].key != pods[pods.len() - 1].key);
        }
        lemma_inserted_distinct(ranked, pods.last());
    }
}

proof fn lemma_candidate_origin(
    n: nat,
    priority: i32,
    pending: ResourceRequestsView,
    pods: Seq<NodePodView>,
    slots: nat,
    allocatable: NodeAllocatableView,
    i: int,
) -> (j: int)
    requires
        n <= pods.len(),
        0 <= i < candidates_among(n, priority, pending, pods, slots, allocatable).len(),
    ensures
        0 <= j < n,
        candidates_among(n, priority, pending, pods, slots, allocatable)[i] == pods[j],
    decreases n,
{
    let m = (n - 1) as nat;
    let before = candidates_among(m, priority, pending, pods, slots, allocatable);
    if i < before.len() {
        lemma_candidate_origin(m, priority, pending, pods, slots, allocatable, i)
    } else {
        m as int
    }
}

proof fn lemma_candidates_distinct(
    n: nat,
    priority: i32,
    pending: ResourceRequestsView,
    pods: Seq<NodePodView>,
    slots: nat,
    allocatable: NodeAllocatableView,
)
    requires
        n <= pods.len(),
        distinct_keys(pods),
    ensures
        distinct_keys(candidates_among(n, priority, pending, pods, slots, allocatable)),
    decreases n,
{
    if n > 0 {
        let m = (n - 1) as nat;
        let before = candidates_among(m, priority, pending, pods, slots, allocatable);
        let all = candidates_among(n, priority, pending, pods, slots, allocatable);
        lemma_candidates_distinct(m, priority, pending, pods, slots, allocatable);
        assert forall|i: int, j: int|
            #![trigger all[i], all[j]]
            0 <= i < j < all.len() implies all[i].key != all[j].key by {
            assert(all[i] == before[i]);
            if j < before.len() {
                assert(all[j] == before[j]);
            } else {
                let k = lemma_candidate_origin(
                    m,
                    priority,
                    pending,
                    pods,
                    slots,
                    allocatable,
                    i,
                );
                assert(pods[k].key != pods[m as int].key);
            }
        }
    }
}

/// No pod is evicted twice.
pub proof fn law_no_pod_is_evicted_twice(
    priority: i32,
    pending: ResourceRequestsView,
    pods: Seq<NodePodView>,
    slots: nat,
    allocatable: NodeAllocatableView,
)
    requires
        distinct_keys(pods),
    ensures
        distinct_keys(chosen_victims(priority, pending, pods, slots, allocatable)),
{
    let among = candidates_among(pods.len(), priority, pending, pods, slots, allocatable);
    let ranked = candidates(priority, pending, pods, slots, allocatable);
    let victims = chosen_victims(priority, pending, pods, slots, allocatable);
    lemma_candidates_distinct(pods.len(), priority, pending, pods, slots, allocatable);
    lemma_by_priority_distinct(among);
    assert forall|i: int, j: int|
        #![trigger victims[i], victims[j]]
        0 <= i < j < victims.len() implies victims[i].key != victims[j].key by {
        assert(victims[i] == ranked[i] && victims[j] == ranked[j]);
    }
}

/// Victims are taken by increasing priority.
pub proof fn law_least_important_go_first(
    priority: i32,
    pending: ResourceRequestsView,
    pods: Seq<NodePodView>,
    slots: nat,
    allocatable: NodeAllocatableView,
    i: int,
    j: int,
)
    requires
        0 <= i < j < chosen_victims(priority, pending, pods, slots, allocatable).len(),
    ensures
        chosen_victims(priority, pending, pods, slots, allocatable)[i].priority
            <= chosen_victims(priority, pending, pods, slots, allocatable)[j].priority,
{
    let among = candidates_among(pods.len(), priority, pending, pods, slots, allocatable);
    lemma_by_priority(among);
    let ranked = candidates(priority, pending, pods, slots, allocatable);
    assert(ranked[i].priority <= ranked[j].priority);
}

/// A pod without claims of its own alone needs nobody to give one up.
pub proof fn law_no_claims_no_holders(pods: Seq<NodePodView>, priority: i32)
    ensures
        claim_holders(pods, Seq::empty()).len() == 0,
        claims_obtainable(pods, Seq::empty(), priority),
    decreases pods.len(),
{
    if pods.len() > 0 {
        law_no_claims_no_holders(pods.drop_last(), priority);
        assert(!holds_claim(pods.last(), Seq::empty()));
    }
}

proof fn lemma_candidate_among(
    n: nat,
    priority: i32,
    pending: ResourceRequestsView,
    pods: Seq<NodePodView>,
    slots: nat,
    allocatable: NodeAllocatableView,
    j: int,
)
    requires
        0 <= j < n <= pods.len(),
        is_candidate(pods[j], priority, pending, pods, slots, allocatable),
    ensures
        candidates_among(n, priority, pending, pods, slots, allocatable).contains(pods[j]),
    decreases n,
{
    let m = (n - 1) as nat;
    let before = candidates_among(m, priority, pending, pods, slots, allocatable);
    lemma_push_contains(before, pods[n - 1], pods[j]);
    if j < m {
        lemma_candidate_among(m, priority, pending, pods, slots, allocatable, j);
    }
}

/// The candidates are pods of the node, each once, by increasing priority, and
/// every pod that is one is listed.
pub proof fn lemma_candidates(
    priority: i32,
    pending: ResourceRequestsView,
    pods: Seq<NodePodView>,
    slots: nat,
    allocatable: NodeAllocatableView,
)
    ensures
        ({
            let ranked = candidates(priority, pending, pods, slots, allocatable);
            &&& forall|p: NodePodView| #[trigger]
                ranked.contains(p) == (pods.contains(p) && is_candidate(
                    p,
                    priority,
                    pending,
                    pods,
                    slots,
                    allocatable,
                ))
            &&& distinct_keys(pods) ==> distinct_keys(ranked)
            &&& forall|i: int, j: int|
                #![trigger ranked[i], ranked[j]]
                0 <= i < j < ranked.len() ==> ranked[i].priority <= ranked[j].priority
        }),
{
    let among = candidates_among(pods.len(), priority, pending, pods, slots, allocatable);
    let ranked = candidates(priority, pending, pods, slots, allocatable);
    lemma_by_priority(among);
    assert forall|p: NodePodView| #[trigger] ranked.contains(p) == (pods.contains(p)
        && is_candidate(p, priority, pending, pods, slots, allocatable)) by {
        assert(ranked.contains(p) == among.contains(p));
        if among.contains(p) {
            lemma_candidates_among(
                pods.len(),
                priority,
                pending,
                pods,
                slots,
                allocatable,
                p,
            );
        }
        if pods.contains(p) && is_candidate(p, priority, pending, pods, slots, allocatable) {
            let j = choose|j: int| 0 <= j < pods.len() && pods[j] == p;
            lemma_candidate_among(
                pods.len(),
                priority,
                pending,
                pods,
                slots,
                allocatable,
                j,
            );
        }
    }
    if distinct_keys(pods) {
        lemma_candidates_distinct(pods.len(), priority, pending, pods, slots, allocatable);
        lemma_by_priority_distinct(among);
    }
}

/// A pod of strictly lower priority may have to go where the node has no free
/// slot, and where the node is short of cpu, memory, ephemeral storage or
/// anything else that the pod holds some of.
pub proof fn law_holders_of_what_is_short_may_have_to_go(
    priority: i32,
    pending: ResourceRequestsView,
    pods: Seq<NodePodView>,
    slots: nat,
    allocatable: NodeAllocatableView,
    j: int,
)
    requires
        0 <= j < pods.len(),
        pods[j].priority < priority,
    ensures
        ({
            let p = pods[j];
            let used = resources::total_requests(requests_of(pods));
            let listed = candidates(priority, pending, pods, slots, allocatable).contains(p);
            &&& slots > 0 && pods.len() >= slots ==> listed
            &&& quantity::quantity_milli(allocatable.cpu) != 0 && used.cpu_milli
                + pending.cpu_milli > quantity::quantity_milli(allocatable.cpu)
                && p.requests.cpu_milli > 0 ==> listed
            &&& quantity::quantity_milli(allocatable.memory) != 0 && used.memory_milli
                + pending.memory_milli > quantity::quantity_milli(allocatable.memory)
                && p.requests.memory_milli > 0 ==> listed
            &&& quantity::quantity_milli(allocatable.ephemeral_storage) != 0
                && used.ephemeral_storage_milli + pending.ephemeral_storage_milli
                > quantity::quantity_milli(allocatable.ephemeral_storage)
                && p.requests.ephemeral_storage_milli > 0 ==> listed
            &&& forall|name: Seq<char>| #[trigger]
                pending.extended.contains_key(name) && pending.extended[name] > 0
                    && resources::amount(used.extended, name) + pending.extended[name] > (
                if allocatable.extended.contains_key(name) {
                    quantity::quantity_milli(allocatable.extended[name])
                } else {
                    0
                }) && p.requests.extended.contains_key(name) && p.requests.extended[name] > 0
                    ==> listed
        }),
{
    let used = resources::total_requests(requests_of(pods));
    resources::law_holder_of_what_is_short_helps(allocatable, used, pending, pods[j].requests);
    lemma_candidates(priority, pending, pods, slots, allocatable);
    assert(pods.contains(pods[j]));
}

/// Nobody less important is spared in place of a victim: a pod of lower
/// priority than a victim that holds some of what is short goes too.
pub proof fn law_no_less_important_pod_is_spared(
    priority: i32,
    pending: ResourceRequestsView,
    pods: Seq<NodePodView>,
    slots: nat,
    allocatable: NodeAllocatableView,
    v: int,
    j: int,
)
    requires
        0 <= v < chosen_victims(priority, pending, pods, slots, allocatable).len(),
        0 <= j < pods.len(),
        pods[j].priority < chosen_victims(priority, pending, pods, slots, allocatable)[v].priority,
        candidates(priority, pending, pods, slots, allocatable).contains(pods[j]),
    ensures
        chosen_victims(priority, pending, pods, slots, allocatable).contains(pods[j]),
{
    let ranked = candidates(priority, pending, pods, slots, allocatable);
    let chosen = chosen_victims(priority, pending, pods, slots, allocatable);
    lemma_candidates(priority, pending, pods, slots, allocatable);
    let a = choose|a: int| 0 <= a < ranked.len() && ranked[a] == pods[j];
    assert(chosen[v] == ranked[v]);
    if a >= chosen.len() {
        assert(ranked[v].priority <= ranked[a].priority);
    } else {
        assert(chosen[a] == ranked[a]);
    }
}

/// Those of `pods` with one priority, in their order.
pub open spec fn of_priority(pods: Seq<NodePodView>, priority: i32) -> Seq<NodePodView>
    decreases pods.len(),
{
    if pods.len() == 0 {
        Seq::empty()
    } else if pods.last().priority == priority {
        of_priority(pods.drop_last(), priority).push(pods.last())
    } else {
        of_priority(pods.drop_last(), priority)
    }
}

proof fn lemma_of_priority_push(pods: Seq<NodePodView>, x: NodePodView, priority: i32)
    ensures
        of_priority(pods.push(x), priority) == if x.priority == priority {
            of_priority(pods, priority).push(x)
        } else {
            of_priority(pods, priority)
        },
{
    assert(pods.push(x).drop_last() =~= pods);
}

proof fn lemma_of_priority_inserted(sorted: Seq<NodePodView>, x: NodePodView, priority: i32)
    requires
        forall|i: int, j: int|
            #![trigger sorted[i], sorted[j]]
            0 <= i < j < sorted.len() ==> sorted[i].priority <= sorted[j].priority,
    ensures
        of_priority(inserted(sorted, x), priority) == of_priority(sorted.push(x), priority),
    decreases sorted.len(),
{
    if !(sorted.len() == 0 || sorted.last().priority <= x.priority) {
        let front = sorted.drop_last();
        let last = sorted.last();
        lemma_of_priority_inserted(front, x, priority);
        lemma_of_priority_push(inserted(front, x), last, priority);
        lemma_of_priority_push(front, x, priority);
        lemma_of_priority_push(sorted, x, priority);
    }
}

/// Ranking pods by priority keeps those of equal priority in their order, and
/// loses none.
pub proof fn law_ranking_keeps_equals_in_order(pods: Seq<NodePodView>, priority: i32)
    ensures
        of_priority(by_priority(pods), priority) == of_priority(pods, priority),
    decreases pods.len(),
{
    if pods.len() > 0 {
        let front = pods.drop_last();
        law_ranking_keeps_equals_in_order(front, priority);
        lemma_by_priority(front);
        lemma_of_priority_inserted(by_priority(front), pods.last(), priority);
        lemma_of_priority_push(by_priority(front), pods.last(), priority);
    }
}

/// Every pod that uses a claim that the pending pod needs for itself is among
/// its holders, and no other is; one that is not of strictly lower priority
/// makes the claim unobtainable.
pub proof fn law_holders_use_the_claims(
    pods: Seq<NodePodView>,
    rwop_pvcs: Seq<Seq<char>>,
    priority: i32,
)
    ensures
        forall|p: NodePodView| #[trigger]
            claim_holders(pods, rwop_pvcs).contains(p) <==> pods.contains(p) && exists|c: Seq<char>|
                #[trigger] p.pvc_names.contains(c) && rwop_pvcs.contains(c),
        claims_obtainable(pods, rwop_pvcs, priority) <==> forall|p: NodePodView| #[trigger]
            claim_holders(pods, rwop_pvcs).contains(p) ==> p.priority < priority,
    decreases pods.len(),
{
    assert forall|p: NodePodView| holds_claim(p, rwop_pvcs) == (exists|c: Seq<char>| #[trigger]
        p.pvc_names.contains(c) && rwop_pvcs.contains(c)) by {
        if holds_claim(p, rwop_pvcs) {
            let i = choose|i: int|
                0 <= i < p.pvc_names.len() && rwop_pvcs.contains(#[trigger] p.pvc_names[i]);
            assert(p.pvc_names.contains(p.pvc_names[i]));
        }
        if exists|c: Seq<char>| #[trigger] p.pvc_names.contains(c) && rwop_pvcs.contains(c) {
            let c = choose|c: Seq<char>| #[trigger]
                p.pvc_names.contains(c) && rwop_pvcs.contains(c);
            let i = choose|i: int| 0 <= i < p.pvc_names.len() && p.pvc_names[i] == c;
            assert(rwop_pvcs.contains(p.pvc_names[i]));
        }
    }
    if pods.len() > 0 {
        let front = pods.drop_last();
        let last = pods.last();
        law_holders_use_the_claims(front, rwop_pvcs, priority);
        assert(front.push(last) =~= pods);
        assert forall|p: NodePodView| #[trigger]
            claim_holders(pods, rwop_pvcs).contains(p) <==> pods.contains(p) && exists|c: Seq<char>|
                #[trigger] p.pvc_names.contains(c) && rwop_pvcs.contains(c) by {
            lemma_push_contains(front, last, p);
            lemma_push_contains(claim_holders(front, rwop_pvcs), last, p);
            assert(claim_holders(front, rwop_pvcs).contains(p) <==> front.contains(p) && exists|
                c: Seq<char>,
            | #[trigger] p.pvc_names.contains(c) && rwop_pvcs.contains(c));
        }
    }
    if claims_obtainable(pods, rwop_pvcs, priority) {
        assert forall|p: NodePodView| #[trigger]
            claim_holders(pods, rwop_pvcs).contains(p) implies p.priority < priority by {
            assert(pods.contains(p));
            let i = choose|i: int| 0 <= i < pods.len() && pods[i] == p;
            assert(holds_claim(pods[i], rwop_pvcs));
        }
    }
    if forall|p: NodePodView| #[trigger]
        claim_holders(pods, rwop_pvcs).contains(p) ==> p.priority < priority {
        assert forall|i: int| 0 <= i < pods.len() && holds_claim(#[trigger] pods[i], rwop_pvcs)
            implies pods[i].priority < priority by {
            assert(pods.contains(pods[i]));
            assert(claim_holders(pods, rwop_pvcs).contains(pods[i]));
        }
    }
}

} // verus!
