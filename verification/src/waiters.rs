//! Placements that wait for evicted pods to be gone.

use crate::duplicate::Duplicate;
use crate::pod::{self, qualified_name, PendingPod, PendingPodView};
use crate::string_map::StringSet;
use vstd::prelude::*;

verus! {

/// A pod that gets a node once its victims are gone.
#[derive(Debug)]
pub struct WaitingPlan {
    pub pod: PendingPod,
    pub node_name: String,
    /// The victims, as `namespace/name`, that are not known to be gone.
    pub remaining_victims: StringSet,
}

/// Model of [`WaitingPlan`].
#[verifier::ext_equal]
pub struct WaitingPlanView {
    pub pod: PendingPodView,
    pub node_name: Seq<char>,
    pub remaining_victims: Set<Seq<char>>,
}

impl View for WaitingPlan {
    type V = WaitingPlanView;

    open spec fn view(&self) -> WaitingPlanView {
        WaitingPlanView {
            pod: self.pod@,
            node_name: self.node_name@,
            remaining_victims: self.remaining_victims@,
        }
    }
}

impl DeepView for WaitingPlan {
    type V = WaitingPlanView;

    open spec fn deep_view(&self) -> WaitingPlanView {
        self@
    }
}

/// The plans that wait, in the order in which they came.
#[derive(Debug)]
pub struct PreemptionWaiters {
    plans: Vec<WaitingPlan>,
}

impl View for PreemptionWaiters {
    type V = Seq<WaitingPlanView>;

    closed spec fn view(&self) -> Seq<WaitingPlanView> {
        self.plans.deep_view()
    }
}

impl WaitingPlanView {
    /// The plan when `victim` is gone.
    pub open spec fn without(self, victim: Seq<char>) -> Self {
        WaitingPlanView { remaining_victims: self.remaining_victims.remove(victim), ..self }
    }

    /// No victim is left to wait for.
    pub open spec fn is_ready(self) -> bool {
        self.remaining_victims == Set::<Seq<char>>::empty()
    }
}

/// The plans that have nothing left to wait for when `victim` is gone, in
/// their order.
pub open spec fn ready_plans(
    plans: Seq<WaitingPlanView>,
    victim: Seq<char>,
) -> Seq<(PendingPodView, Seq<char>)>
    decreases plans.len(),
{
    if plans.len() == 0 {
        Seq::empty()
    } else {
        let before = ready_plans(plans.drop_last(), victim);
        let plan = plans.last().without(victim);
        if plan.is_ready() {
            before.push((plan.pod, plan.node_name))
        } else {
            before
        }
    }
}

/// The plans that still wait when `victim` is gone, in their order.
pub open spec fn waiting_plans(
    plans: Seq<WaitingPlanView>,
    victim: Seq<char>,
) -> Seq<WaitingPlanView>
    decreases plans.len(),
{
    if plans.len() == 0 {
        Seq::empty()
    } else {
        let before = waiting_plans(plans.drop_last(), victim);
        let plan = plans.last().without(victim);
        if plan.is_ready() {
            before
        } else {
            before.push(plan)
        }
    }
}

/// The keys of the pods that wait.
pub open spec fn waiting_keys(plans: Seq<WaitingPlanView>) -> Seq<Seq<char>> {
    plans.map_values(|p: WaitingPlanView| pod::qualified(p.pod.namespace, p.pod.pod_name))
}

impl PreemptionWaiters {
    /// Nothing waits.
    pub fn new() -> (w: Self)
        ensures
            w@ == Seq::<WaitingPlanView>::empty(),
    {
        let w = PreemptionWaiters { plans: Vec::new() };
        assert(w@ =~= Seq::<WaitingPlanView>::empty());
        w
    }

    /// Let `pod` wait for `victims` to be gone from `node_name`.
    pub fn register(&mut self, pod: PendingPod, node_name: String, victims: &[String])
        ensures
            final(self)@ == old(self)@.push(
                WaitingPlanView {
                    pod: pod@,
                    node_name: node_name@,
                    remaining_victims: victims.deep_view().to_set(),
                },
            ),
    {
        let ghost names = victims.deep_view();
        let ghost before = self@;
        let mut remaining_victims = StringSet::new();
        let mut i: usize = 0;
        proof {
            assert(names.take(0).to_set() =~= Set::empty());
        }
        while i < victims.len()
            invariant
                names == victims.deep_view(),
                i <= victims@.len(),
                remaining_victims@ == names.take(i as int).to_set(),
            decreases victims@.len() - i,
        {
            proof {
                let next = names.take(i + 1);
                assert(next =~= names.take(i as int).push(names[i as int]));
                assert forall|k: Seq<char>| next.to_set().contains(k) == names.take(
                    i as int,
                ).to_set().insert(names[i as int]).contains(k) by {
                    if names.take(i as int).contains(k) {
                        let j = choose|j: int|
                            0 <= j < i && names.take(i as int)[j] == k;
                        assert(next[j] == k);
                    }
                    assert(next[i as int] == names[i as int]);
                    if next.contains(k) {
                        let j = choose|j: int| 0 <= j < next.len() && next[j] == k;
                        if j < i {
                            assert(names.take(i as int)[j] == k);
                        }
                    }
                }
                assert(next.to_set() =~= names.take(i as int).to_set().insert(names[i as int]));
            }
            remaining_victims.insert(victims[i].clone());
            i += 1;
        }
        assert(names.take(i as int) =~= names);
        let plan = WaitingPlan { pod, node_name, remaining_victims };
        let ghost added = plan@;
        self.plans.push(plan);
        assert(self@ =~= before.push(added));
    }

    /// `victim_key` is gone. Gives back the pod and the node of each plan that
    /// waited for it last of all, and forgets these plans.
    pub fn resolve(&mut self, victim_key: &str) -> (ready: Vec<(PendingPod, String)>)
        ensures
            ready.deep_view() == ready_plans(old(self)@, victim_key@),
            final(self)@ == waiting_plans(old(self)@, victim_key@),
    {
        let ghost all = self@;
        let ghost key = victim_key@;
        let mut queue: Vec<WaitingPlan> = Vec::new();
        std::mem::swap(&mut self.plans, &mut queue);
        let mut waiting: Vec<WaitingPlan> = Vec::new();
        let mut ready: Vec<(PendingPod, String)> = Vec::new();
        let ghost mut i: int = 0;
        proof {
            assert(all.take(0) =~= Seq::empty());
            assert(all.skip(0) =~= all);
            assert(waiting.deep_view() =~= Seq::empty());
            assert(ready.deep_view() =~= Seq::empty());
        }
        while queue.len() > 0
            invariant
                key == victim_key@,
                0 <= i <= all.len(),
                queue.deep_view() == all.skip(i),
                waiting.deep_view() == waiting_plans(all.take(i), key),
                ready.deep_view() == ready_plans(all.take(i), key),
            decreases queue@.len(),
        {
            let ghost rest = queue.deep_view();
            let mut plan = queue.remove(0);
            let ghost before = plan@;
            proof {
                assert(rest[0] == before);
                assert(all.skip(i).len() == all.len() - i);
                assert(all.skip(i)[0] == all[i]);
                assert forall|j: int| 0 <= j < queue@.len() implies #[trigger] queue.deep_view()[j]
                    == all.skip(i + 1)[j] by {
                    assert(rest[j + 1] == all.skip(i)[j + 1]);
                }
                assert(queue.deep_view() =~= all.skip(i + 1));
                assert(all.take(i + 1).drop_last() =~= all.take(i));
                assert(all.take(i + 1).last() == before);
            }
            plan.remaining_victims.remove(victim_key);
            assert(plan@ == before.without(key));
            let ghost old_ready = ready.deep_view();
            let ghost old_waiting = waiting.deep_view();
            if plan.remaining_victims.is_empty() {
                let ghost done = (plan@.pod, plan@.node_name);
                ready.push((plan.pod, plan.node_name));
                assert(ready.deep_view() =~= old_ready.push(done));
            } else {
                let ghost kept = plan@;
                waiting.push(plan);
                assert(waiting.deep_view() =~= old_waiting.push(kept));
            }
            proof {
                i = i + 1;
            }
        }
        proof {
            assert(all.skip(i).len() == 0);
            assert(all.take(i) =~= all);
        }
        self.plans = waiting;
        ready
    }

    /// Forget every plan. Gives back the keys of the pods that waited: nothing
    /// else will ever take them up.
    pub fn clear(&mut self) -> (keys: Vec<String>)
        ensures
            keys.deep_view() == waiting_keys(old(self)@),
            final(self)@ == Seq::<WaitingPlanView>::empty(),
    {
        let ghost all = self@;
        let mut keys: Vec<String> = Vec::new();
        let mut i: usize = 0;
        while i < self.plans.len()
            invariant
                all == self@,
                i <= self.plans@.len(),
                keys@.len() == i,
                forall|j: int|
                    0 <= j < i ==> (#[trigger] keys@[j])@ == pod::qualified(
                        all[j].pod.namespace,
                        all[j].pod.pod_name,
                    ),
            decreases self.plans@.len() - i,
        {
            let plan = &self.plans[i];
            assert(all[i as int] == plan@);
            keys.push(
                qualified_name(plan.pod.namespace.as_str(), plan.pod.pod_name.as_str()),
            );
            i += 1;
        }
        assert(keys.deep_view() =~= waiting_keys(all));
        self.plans = Vec::new();
        assert(self@ =~= Seq::<WaitingPlanView>::empty());
        keys
    }
}

/// A plan becomes ready only when all its victims are gone: one with another
/// victim left goes on waiting.
pub proof fn law_plan_waits_for_every_victim(
    plans: Seq<WaitingPlanView>,
    gone: Seq<char>,
    other: Seq<char>,
    i: int,
)
    requires
        0 <= i < plans.len(),
        other != gone,
        plans[i].remaining_victims.contains(other),
    ensures
        waiting_plans(plans, gone).contains(plans[i].without(gone)),
    decreases plans.len(),
{
    let front = plans.drop_last();
    let all = waiting_plans(plans, gone);
    let before = waiting_plans(front, gone);
    if i == plans.len() - 1 {
        assert(plans[i].without(gone).remaining_victims.contains(other));
        assert(all[all.len() - 1] == plans[i].without(gone));
    } else {
        law_plan_waits_for_every_victim(front, gone, other, i);
        let j = choose|j: int| 0 <= j < before.len() && before[j] == front[i].without(gone);
        assert(all[j] == plans[i].without(gone));
    }
}

/// When the last victim of a plan is gone, its pod is given its node.
pub proof fn law_last_victim_releases_the_plan(
    plans: Seq<WaitingPlanView>,
    gone: Seq<char>,
    i: int,
)
    requires
        0 <= i < plans.len(),
        plans[i].remaining_victims == Set::<Seq<char>>::empty().insert(gone),
    ensures
        ready_plans(plans, gone).contains((plans[i].pod, plans[i].node_name)),
    decreases plans.len(),
{
    let front = plans.drop_last();
    let all = ready_plans(plans, gone);
    let before = ready_plans(front, gone);
    if i == plans.len() - 1 {
        assert(plans[i].without(gone).remaining_victims =~= Set::<Seq<char>>::empty());
        assert(all[all.len() - 1] == (plans[i].pod, plans[i].node_name));
    } else {
        law_last_victim_releases_the_plan(front, gone, i);
        let j = choose|j: int|
            0 <= j < before.len() && before[j] == (front[i].pod, front[i].node_name);
        assert(all[j] == (plans[i].pod, plans[i].node_name));
    }
}

/// A pod that is nobody's victim, while every plan waits for one, changes
/// nothing when it goes.
pub proof fn law_unrelated_removal_changes_nothing(
    plans: Seq<WaitingPlanView>,
    gone: Seq<char>,
)
    requires
        forall|i: int|
            0 <= i < plans.len() ==> !(#[trigger] plans[i]).remaining_victims.contains(gone)
                && !plans[i].is_ready(),
    ensures
        ready_plans(plans, gone).len() == 0,
        waiting_plans(plans, gone) == plans,
    decreases plans.len(),
{
    if plans.len() > 0 {
        let front = plans.drop_last();
        assert forall|i: int| 0 <= i < front.len() implies !(
        #[trigger] front[i]).remaining_victims.contains(gone) && !front[i].is_ready() by {
            assert(front[i] == plans[i]);
        }
        law_unrelated_removal_changes_nothing(front, gone);
        let last = plans[plans.len() - 1];
        assert(last.remaining_victims.remove(gone) =~= last.remaining_victims);
        assert(last.without(gone) == last);
        assert(waiting_plans(plans, gone) =~= plans);
    }
}

/// A plan is ready when the last pod that it waits for is gone, and goes on
/// waiting, for the others alone, as long as there is another; none is lost and
/// none is given out while it waits.
pub proof fn law_ready_or_waiting(
    plans: Seq<WaitingPlanView>,
    gone: Seq<char>,
)
    ensures
        ready_plans(plans, gone).len() + waiting_plans(plans, gone).len() == plans.len(),
        forall|j: int|
            0 <= j < waiting_plans(plans, gone).len() ==> !(#[trigger] waiting_plans(
                plans,
                gone,
            )[j]).remaining_victims.contains(gone) && exists|other: Seq<char>| #[trigger]
                waiting_plans(plans, gone)[j].remaining_victims.contains(other),
        forall|j: int|
            0 <= j < ready_plans(plans, gone).len() ==> exists|i: int|
                0 <= i < plans.len() && (#[trigger] plans[i]).pod == (#[trigger] ready_plans(
                    plans,
                    gone,
                )[j]).0 && plans[i].node_name == ready_plans(plans, gone)[j].1 && forall|
                    other: Seq<char>,
                | #[trigger]
                    plans[i].remaining_victims.contains(other) ==> other == gone,
    decreases plans.len(),
{
    if plans.len() > 0 {
        let front = plans.drop_last();
        let last = plans.last();
        law_ready_or_waiting(front, gone);
        let w = waiting_plans(front, gone);
        let r = ready_plans(front, gone);
        let rest = last.without(gone);
        assert forall|j: int| 0 <= j < waiting_plans(plans, gone).len() implies !(
        #[trigger] waiting_plans(plans, gone)[j]).remaining_victims.contains(gone) && exists|
            other: Seq<char>,
        | #[trigger]
            waiting_plans(plans, gone)[j].remaining_victims.contains(other) by {
            if j < w.len() {
                assert(waiting_plans(plans, gone)[j] == w[j]);
            } else {
                assert(!rest.is_ready());
                if forall|other: Seq<char>| !#[trigger] rest.remaining_victims.contains(other) {
                    assert(rest.remaining_victims =~= Set::<Seq<char>>::empty());
                }
            }
        }
        assert forall|j: int| 0 <= j < ready_plans(plans, gone).len() implies exists|i: int|
            0 <= i < plans.len() && (#[trigger] plans[i]).pod == (#[trigger] ready_plans(
                plans,
                gone,
            )[j]).0 && plans[i].node_name == ready_plans(plans, gone)[j].1 && forall|
                other: Seq<char>,
            | #[trigger]
                plans[i].remaining_victims.contains(other) ==> other == gone by {
            if j < r.len() {
                assert(ready_plans(plans, gone)[j] == r[j]);
                let i = choose|i: int|
                    0 <= i < front.len() && (#[trigger] front[i]).pod == r[j].0
                        && front[i].node_name == r[j].1 && forall|other: Seq<char>| #[trigger]
                        front[i].remaining_victims.contains(other) ==> other == gone;
                assert(plans[i] == front[i]);
            } else {
                assert(rest.is_ready());
                assert forall|other: Seq<char>| #[trigger]
                    last.remaining_victims.contains(other) implies other == gone by {
                    if other != gone {
                        assert(rest.remaining_victims.contains(other));
                    }
                }
                assert(plans[plans.len() - 1] == last);
            }
        }
    }
}

/// When all plans are given up, each pod that waited is named, once for each
/// of its plans, by its namespace and name.
pub proof fn law_abandoned_pods_are_named(plans: Seq<WaitingPlanView>)
    ensures
        waiting_keys(plans).len() == plans.len(),
        forall|i: int|
            0 <= i < plans.len() ==> #[trigger] waiting_keys(plans)[i] == plans[i].pod.namespace
                + "/"@ + plans[i].pod.pod_name,
{
}

} // verus!
