//! Spreading the pods of a group over topology domains.

use crate::affinity::{self, NodeLabels};
use crate::node::{TalliedPodLabels, TalliedPodLabelsView};
use crate::order::{self, same_text};
use crate::pod::{
    PendingPod, PendingPodView, TopologySpreadConstraint, TopologySpreadConstraintView,
};
use crate::selector::{self, label_selector_matches};
use crate::string_map::StringMap;
use vstd::prelude::*;

verus! {

/// The constraint shuts out nodes: it is no mere preference, and it names the
/// label it goes by.
pub open spec fn is_hard(c: TopologySpreadConstraintView) -> bool {
    c.when_unsatisfiable == "DoNotSchedule"@ && c.topology_key.len() > 0
}

/// A node has the value `value` for the label `key`.
pub open spec fn is_domain(node_labels: NodeLabels, key: Seq<char>, value: Seq<char>) -> bool {
    exists|node: Seq<char>| #[trigger]
        node_labels.contains_key(node) && node_labels[node].contains_key(key)
            && node_labels[node][key] == value
}

/// The pod `p` is of the group that the constraint spreads.
pub open spec fn in_group(
    c: TopologySpreadConstraintView,
    namespace: Seq<char>,
    p: TalliedPodLabelsView,
) -> bool {
    p.namespace == namespace && selector::selector_picks(p.labels, c.label_selector)
}

/// How many of `tallied` are of the group and lie in the domain `value`.
pub open spec fn group_in_domain(
    c: TopologySpreadConstraintView,
    namespace: Seq<char>,
    tallied: Seq<TalliedPodLabelsView>,
    node_labels: NodeLabels,
    value: Seq<char>,
) -> nat
    decreases tallied.len(),
{
    if tallied.len() == 0 {
        0
    } else {
        group_in_domain(c, namespace, tallied.drop_last(), node_labels, value) + if in_group(
            c,
            namespace,
            tallied.last(),
        ) && affinity::lies_in(tallied.last(), node_labels, c.topology_key, value) {
            1nat
        } else {
            0
        }
    }
}

/// How many of `victims` are of the group.
pub open spec fn group_victims(
    c: TopologySpreadConstraintView,
    namespace: Seq<char>,
    victims: Seq<TalliedPodLabelsView>,
) -> nat
    decreases victims.len(),
{
    if victims.len() == 0 {
        0
    } else {
        group_victims(c, namespace, victims.drop_last()) + if in_group(
            c,
            namespace,
            victims.last(),
        ) {
            1nat
        } else {
            0
        }
    }
}

/// How many of the group are left in the domain `value` when `victims`, all
/// of them in the domain `own`, are gone.
pub open spec fn left_in_domain(
    c: TopologySpreadConstraintView,
    namespace: Seq<char>,
    tallied: Seq<TalliedPodLabelsView>,
    node_labels: NodeLabels,
    victims: Seq<TalliedPodLabelsView>,
    own: Seq<char>,
    value: Seq<char>,
) -> int {
    group_in_domain(c, namespace, tallied, node_labels, value) - if value == own {
        group_victims(c, namespace, victims)
    } else {
        0
    }
}

/// `m` is what the domain with the fewest of the group has left; 0 where
/// there is no domain.
pub open spec fn is_least(
    c: TopologySpreadConstraintView,
    namespace: Seq<char>,
    tallied: Seq<TalliedPodLabelsView>,
    node_labels: NodeLabels,
    victims: Seq<TalliedPodLabelsView>,
    own: Seq<char>,
    m: int,
) -> bool {
    if exists|v: Seq<char>| is_domain(node_labels, c.topology_key, v) {
        &&& exists|v: Seq<char>|
            is_domain(node_labels, c.topology_key, v) && m == #[trigger] left_in_domain(
                c,
                namespace,
                tallied,
                node_labels,
                victims,
                own,
                v,
            )
        &&& forall|v: Seq<char>|
            is_domain(node_labels, c.topology_key, v) ==> m <= #[trigger] left_in_domain(
                c,
                namespace,
                tallied,
                node_labels,
                victims,
                own,
                v,
            )
    } else {
        m == 0
    }
}

/// What the domain with the fewest of the group has left.
pub open spec fn least(
    c: TopologySpreadConstraintView,
    namespace: Seq<char>,
    tallied: Seq<TalliedPodLabelsView>,
    node_labels: NodeLabels,
    victims: Seq<TalliedPodLabelsView>,
    own: Seq<char>,
) -> int {
    choose|m: int| is_least(c, namespace, tallied, node_labels, victims, own, m)
}

/// By how much the domain `own` would exceed the emptiest one with the pod
/// in it.
pub open spec fn skew(
    c: TopologySpreadConstraintView,
    pod: PendingPodView,
    tallied: Seq<TalliedPodLabelsView>,
    node_labels: NodeLabels,
    victims: Seq<TalliedPodLabelsView>,
    own: Seq<char>,
) -> int {
    left_in_domain(c, pod.namespace, tallied, node_labels, victims, own, own) + (
    if selector::selector_picks(pod.labels, c.label_selector) {
        1int
    } else {
        0
    }) - least(c, pod.namespace, tallied, node_labels, victims, own)
}

/// Every hard constraint of the pod allows the node with `labels` when
/// `victims` are gone from it. A node without the label of a constraint is
/// shut out.
pub open spec fn suits(
    pod: PendingPodView,
    tallied: Seq<TalliedPodLabelsView>,
    node_labels: NodeLabels,
    labels: Map<Seq<char>, Seq<char>>,
    victims: Seq<TalliedPodLabelsView>,
) -> bool {
    forall|i: int|
        0 <= i < pod.topology_spread_constraints.len() && is_hard(
            #[trigger] pod.topology_spread_constraints[i],
        ) ==> {
            let c = pod.topology_spread_constraints[i];
            labels.contains_key(c.topology_key) && skew(
                c,
                pod,
                tallied,
                node_labels,
                victims,
                labels[c.topology_key],
            ) <= c.max_skew
        }
}

proof fn lemma_group_bound(
    c: TopologySpreadConstraintView,
    namespace: Seq<char>,
    tallied: Seq<TalliedPodLabelsView>,
    node_labels: NodeLabels,
    value: Seq<char>,
)
    ensures
        group_in_domain(c, namespace, tallied, node_labels, value) <= tallied.len(),
    decreases tallied.len(),
{
    if tallied.len() > 0 {
        lemma_group_bound(c, namespace, tallied.drop_last(), node_labels, value);
    }
}

proof fn lemma_no_domain_no_group(
    c: TopologySpreadConstraintView,
    namespace: Seq<char>,
    tallied: Seq<TalliedPodLabelsView>,
    node_labels: NodeLabels,
    value: Seq<char>,
)
    requires
        !is_domain(node_labels, c.topology_key, value),
    ensures
        group_in_domain(c, namespace, tallied, node_labels, value) == 0,
    decreases tallied.len(),
{
    if tallied.len() > 0 {
        lemma_no_domain_no_group(c, namespace, tallied.drop_last(), node_labels, value);
        let p = tallied.last();
        if affinity::lies_in(p, node_labels, c.topology_key, value) {
            assert(node_labels.contains_key(p.node_name));
        }
    }
}

/// There is one least number.
pub proof fn lemma_least_unique(
    c: TopologySpreadConstraintView,
    namespace: Seq<char>,
    tallied: Seq<TalliedPodLabelsView>,
    node_labels: NodeLabels,
    victims: Seq<TalliedPodLabelsView>,
    own: Seq<char>,
    m: int,
)
    requires
        is_least(c, namespace, tallied, node_labels, victims, own, m),
    ensures
        least(c, namespace, tallied, node_labels, victims, own) == m,
{
    let n = least(c, namespace, tallied, node_labels, victims, own);
    assert(is_least(c, namespace, tallied, node_labels, victims, own, n));
    if exists|v: Seq<char>| is_domain(node_labels, c.topology_key, v) {
        let v = choose|v: Seq<char>|
            is_domain(node_labels, c.topology_key, v) && m == #[trigger] left_in_domain(
                c,
                namespace,
                tallied,
                node_labels,
                victims,
                own,
                v,
            );
        let w = choose|v: Seq<char>|
            is_domain(node_labels, c.topology_key, v) && n == #[trigger] left_in_domain(
                c,
                namespace,
                tallied,
                node_labels,
                victims,
                own,
                v,
            );
        assert(n <= left_in_domain(c, namespace, tallied, node_labels, victims, own, v));
        assert(m <= left_in_domain(c, namespace, tallied, node_labels, victims, own, w));
    }
}

/// `counts` hold each domain and how many of the group lie in it.
spec fn counts_domains(
    counts: Map<Seq<char>, u128>,
    c: TopologySpreadConstraintView,
    namespace: Seq<char>,
    tallied: Seq<TalliedPodLabelsView>,
    node_labels: NodeLabels,
) -> bool {
    &&& forall|v: Seq<char>| #[trigger]
        counts.contains_key(v) <==> is_domain(node_labels, c.topology_key, v)
    &&& forall|v: Seq<char>|
        counts.contains_key(v) ==> #[trigger] counts[v] == group_in_domain(
            c,
            namespace,
            tallied,
            node_labels,
            v,
        )
}

/// Each domain of the constraint's label, an empty one too, and how many pods
/// of the group lie in it.
#[verifier::loop_isolation(false)]
fn topology_domain_counts(
    constraint: &TopologySpreadConstraint,
    pod_namespace: &str,
    tallied: &[TalliedPodLabels],
    node_labels_by_name: &StringMap<StringMap<String>>,
) -> (counts: StringMap<u128>)
    ensures
        counts_domains(
            counts@,
            constraint@,
            pod_namespace@,
            tallied.deep_view(),
            node_labels_by_name@,
        ),
{
    let ghost c = constraint@;
    let ghost ns = pod_namespace@;
    let ghost nl = node_labels_by_name@;
    let ghost all = tallied.deep_view();
    let key = constraint.topology_key.as_str();
    let mut counts: StringMap<u128> = StringMap::new();
    let nodes: usize = node_labels_by_name.len();
    let ghost names = order::sorted_keys(nl.dom());
    let mut i: usize = 0;
    while i < nodes
        invariant
            i <= nodes,
            forall|v: Seq<char>| #[trigger]
                counts@.contains_key(v) <==> exists|j: int|
                    0 <= j < i && nl[#[trigger] names[j]].contains_key(c.topology_key)
                        && nl[names[j]][c.topology_key] == v,
            forall|v: Seq<char>| counts@.contains_key(v) ==> #[trigger] counts@[v] == 0,
        decreases nodes - i,
    {
        let labels = node_labels_by_name.value_at(i);
        let ghost before = counts@;
        if let Some(value) = labels.get(key) {
            counts.insert(value.clone(), 0);
            proof {
                assert forall|v: Seq<char>| #[trigger] counts@.contains_key(v) <==> exists|j: int|
                    0 <= j < i + 1 && nl[#[trigger] names[j]].contains_key(c.topology_key)
                        && nl[names[j]][c.topology_key] == v by {
                    if v == value@ {
                        assert(nl[names[i as int]].contains_key(c.topology_key));
                    } else {
                        assert(counts@.contains_key(v) == before.contains_key(v));
                    }
                }
            }
        }
        i += 1;
    }
    proof {
        assert forall|v: Seq<char>| #[trigger] counts@.contains_key(v) <==> is_domain(
            nl,
            c.topology_key,
            v,
        ) by {
            if counts@.contains_key(v) {
                let j = choose|j: int|
                    0 <= j < i && nl[#[trigger] names[j]].contains_key(c.topology_key)
                        && nl[names[j]][c.topology_key] == v;
                assert(names.to_set().contains(names[j]));
                assert(nl.contains_key(names[j]));
            }
            if is_domain(nl, c.topology_key, v) {
                let node = choose|node: Seq<char>| #[trigger]
                    nl.contains_key(node) && nl[node].contains_key(c.topology_key)
                        && nl[node][c.topology_key] == v;
                assert(names.to_set().contains(node));
                let j = choose|j: int| 0 <= j < names.len() && names[j] == node;
                assert(nl[names[j]].contains_key(c.topology_key));
            }
        }
        assert(all.take(0) =~= Seq::empty());
    }
    let mut k: usize = 0;
    while k < tallied.len()
        invariant
            k <= tallied@.len(),
            counts_domains(counts@, c, ns, all.take(k as int), nl),
        decreases tallied@.len() - k,
    {
        let p = &tallied[k];
        let ghost here = all.take(k as int);
        let ghost next = all.take(k + 1);
        let ghost before = counts@;
        proof {
            assert(next.drop_last() =~= here);
            assert(next.last() == p@);
        }
        if same_text(p.namespace.as_str(), pod_namespace) && label_selector_matches(
            &p.labels,
            constraint.label_selector.as_ref(),
        ) {
            if let Some(labels) = node_labels_by_name.get(p.node_name.as_str()) {
                if let Some(value) = labels.get(key) {
                    proof {
                        assert(affinity::lies_in(p@, nl, c.topology_key, value@));
                        assert(nl.contains_key(p@.node_name));
                        assert(is_domain(nl, c.topology_key, value@));
                        assert(before.contains_key(value@));
                        lemma_group_bound(c, ns, here, nl, value@);
                    }
                    let n: u128 = match counts.get(value.as_str()) {
                        Some(n) => *n,
                        None => 0,
                    };
                    counts.insert(value.clone(), n + 1);
                }
            }
        }
        proof {
            assert forall|v: Seq<char>|
                counts@.contains_key(v) implies #[trigger] counts@[v] == group_in_domain(
                c,
                ns,
                next,
                nl,
                v,
            ) by {
                assert(before.contains_key(v));
                assert(before[v] == group_in_domain(c, ns, here, nl, v));
            }
            assert forall|v: Seq<char>| #[trigger] counts@.contains_key(v) <==> is_domain(
                nl,
                c.topology_key,
                v,
            ) by {
                assert(before.contains_key(v) <==> is_domain(nl, c.topology_key, v));
            }
        }
        k += 1;
    }
    assert(all.take(k as int) =~= all);
    counts
}

/// One hard constraint with the numbers it goes by.
struct TopologySpreadTerm<'a> {
    constraint: &'a TopologySpreadConstraint,
    counts: StringMap<u128>,
}

/// What the hard spread constraints of one pod come to among the pods that
/// are placed, counted once for all candidate nodes.
pub struct TopologySpreadContext<'a> {
    pod: &'a PendingPod,
    terms: Vec<TopologySpreadTerm<'a>>,
    tallied: Ghost<Seq<TalliedPodLabelsView>>,
    node_labels: Ghost<NodeLabels>,
}

/// The hard ones among `constraints`, in their order.
spec fn hard_ones(
    constraints: Seq<TopologySpreadConstraintView>,
) -> Seq<TopologySpreadConstraintView>
    decreases constraints.len(),
{
    if constraints.len() == 0 {
        Seq::empty()
    } else if is_hard(constraints.last()) {
        hard_ones(constraints.drop_last()).push(constraints.last())
    } else {
        hard_ones(constraints.drop_last())
    }
}

proof fn lemma_hard_ones(constraints: Seq<TopologySpreadConstraintView>)
    ensures
        forall|i: int|
            0 <= i < constraints.len() && is_hard(#[trigger] constraints[i]) ==> hard_ones(
                constraints,
            ).contains(constraints[i]),
        forall|i: int|
            0 <= i < hard_ones(constraints).len() ==> is_hard(
                #[trigger] hard_ones(constraints)[i],
            ) && constraints.contains(hard_ones(constraints)[i]),
    decreases constraints.len(),
{
    if constraints.len() > 0 {
        let front = constraints.drop_last();
        let all = hard_ones(constraints);
        let before = hard_ones(front);
        lemma_hard_ones(front);
        assert forall|i: int|
            0 <= i < constraints.len() && is_hard(#[trigger] constraints[i]) implies all.contains(
            constraints[i],
        ) by {
            if i < front.len() {
                assert(is_hard(front[i]));
                let j = choose|j: int| 0 <= j < before.len() && before[j] == front[i];
                assert(all[j] == constraints[i]);
            } else {
                assert(all[all.len() - 1] == constraints[i]);
            }
        }
        assert forall|i: int| 0 <= i < all.len() implies is_hard(#[trigger] all[i])
            && constraints.contains(all[i]) by {
            if i < before.len() {
                assert(before[i] == all[i]);
                let j = choose|j: int| 0 <= j < front.len() && front[j] == before[i];
                assert(constraints[j] == all[i]);
            } else {
                assert(constraints[constraints.len() - 1] == all[i]);
            }
        }
    }
}

impl<'a> TopologySpreadContext<'a> {
    /// The pod.
    pub closed spec fn pending(&self) -> PendingPodView {
        self.pod@
    }

    /// The pods that are placed.
    pub closed spec fn placed(&self) -> Seq<TalliedPodLabelsView> {
        self.tallied@
    }

    /// The labels of all nodes.
    pub closed spec fn labels(&self) -> NodeLabels {
        self.node_labels@
    }

    #[verifier::type_invariant]
    closed spec fn counted(&self) -> bool {
        let hard = hard_ones(self.pod@.topology_spread_constraints);
        &&& self.tallied@.len() <= usize::MAX
        &&& self.terms@.len() == hard.len()
        &&& forall|i: int|
            0 <= i < self.terms@.len() ==> (#[trigger] self.terms@[i]).constraint@ == hard[i]
                && counts_domains(
                self.terms@[i].counts@,
                hard[i],
                self.pod@.namespace,
                self.tallied@,
                self.node_labels@,
            )
    }

    /// Count the pods of each hard constraint's group among `tallied`.
    #[verifier::loop_isolation(false)]
    pub fn build(
        pod: &'a PendingPod,
        tallied: &[TalliedPodLabels],
        node_labels_by_name: &StringMap<StringMap<String>>,
    ) -> (ctx: Self)
        ensures
            ctx.pending() == pod@,
            ctx.placed() == tallied.deep_view(),
            ctx.labels() == node_labels_by_name@,
    {
        let ghost all = pod@.topology_spread_constraints;
        let constraints = &pod.topology_spread_constraints;
        let placed: usize = tallied.len();
        assert(tallied.deep_view().len() == placed);
        let mut terms: Vec<TopologySpreadTerm<'a>> = Vec::new();
        let mut i: usize = 0;
        proof {
            assert(all.take(0) =~= Seq::empty());
        }
        while i < constraints.len()
            invariant
                i <= constraints@.len(),
                terms@.len() == hard_ones(all.take(i as int)).len(),
                forall|j: int|
                    0 <= j < terms@.len() ==> (#[trigger] terms@[j]).constraint@ == hard_ones(
                        all.take(i as int),
                    )[j] && counts_domains(
                        terms@[j].counts@,
                        terms@[j].constraint@,
                        pod@.namespace,
                        tallied.deep_view(),
                        node_labels_by_name@,
                    ),
            decreases constraints@.len() - i,
        {
            let constraint = &constraints[i];
            proof {
                assert(all.take(i + 1).drop_last() =~= all.take(i as int));
                assert(all.take(i + 1).last() == constraint@);
            }
            if same_text(constraint.when_unsatisfiable.as_str(), "DoNotSchedule")
                && !constraint.topology_key.as_str().is_empty() {
                let counts = topology_domain_counts(
                    constraint,
                    pod.namespace.as_str(),
                    tallied,
                    node_labels_by_name,
                );
                terms.push(TopologySpreadTerm { constraint, counts });
            }
            i += 1;
        }
        assert(all.take(i as int) =~= all);
        TopologySpreadContext {
            pod,
            terms,
            tallied: Ghost(tallied.deep_view()),
            node_labels: Ghost(node_labels_by_name@),
        }
    }

    /// Whether the node with `node_labels` violates none of the constraints.
    pub fn node_qualifies(&self, node_labels: &StringMap<String>) -> (b: bool)
        ensures
            b == suits(
                self.pending(),
                self.placed(),
                self.labels(),
                node_labels@,
                Seq::empty(),
            ),
    {
        let none: Vec<&TalliedPodLabels> = Vec::new();
        assert(none.deep_view() =~= Seq::<TalliedPodLabelsView>::empty());
        self.node_qualifies_excluding_victims(node_labels, &none)
    }

    /// Whether the node with `node_labels` would violate none of the
    /// constraints if `victims`, all of them on that node, were gone.
    #[verifier::loop_isolation(false)]
    pub fn node_qualifies_excluding_victims(
        &self,
        node_labels: &StringMap<String>,
        victims: &Vec<&TalliedPodLabels>,
    ) -> (b: bool)
        ensures
            b == suits(
                self.pending(),
                self.placed(),
                self.labels(),
                node_labels@,
                victims.deep_view(),
            ),
    {
        proof {
            use_type_invariant(self);
            lemma_hard_ones(self.pod@.topology_spread_constraints);
        }
        let ghost all = self.pod@.topology_spread_constraints;
        let ghost hard = hard_ones(all);
        let ghost labels = node_labels@;
        let ghost gone = victims.deep_view();
        let mut i: usize = 0;
        while i < self.terms.len()
            invariant
                i <= self.terms@.len(),
                forall|j: int|
                    0 <= j < i ==> labels.contains_key((#[trigger] hard[j]).topology_key) && skew(
                        hard[j],
                        self.pod@,
                        self.tallied@,
                        self.node_labels@,
                        gone,
                        labels[hard[j].topology_key],
                    ) <= hard[j].max_skew,
            decreases self.terms@.len() - i,
        {
            let term = &self.terms[i];
            let constraint = term.constraint;
            assert(hard[i as int] == constraint@);
            assert(all.contains(hard[i as int]));
            let ghost at = choose|k: int| 0 <= k < all.len() && all[k] == hard[i as int];
            let value = match node_labels.get(constraint.topology_key.as_str()) {
                Some(value) => value,
                None => {
                    assert(is_hard(all[at]));
                    return false;
                },
            };
            let discount: usize = count_victims(constraint, self.pod.namespace.as_str(), victims);
            let skew_here: i128 = domain_skew(
                term,
                self.pod,
                value.as_str(),
                discount,
                Ghost(self.tallied@),
                Ghost(self.node_labels@),
                Ghost(gone),
            );
            if skew_here > constraint.max_skew as i128 {
                assert(is_hard(all[at]));
                return false;
            }
            i += 1;
        }
        proof {
            assert forall|k: int| 0 <= k < all.len() && is_hard(#[trigger] all[k]) implies
                labels.contains_key(all[k].topology_key) && skew(
                all[k],
                self.pod@,
                self.tallied@,
                self.node_labels@,
                gone,
                labels[all[k].topology_key],
            ) <= all[k].max_skew by {
                assert(hard.contains(all[k]));
                let j = choose|j: int| 0 <= j < hard.len() && hard[j] == all[k];
                assert(labels.contains_key(hard[j].topology_key));
            }
        }
        true
    }
}

/// How many of `victims` are of the constraint's group.
fn count_victims(
    constraint: &TopologySpreadConstraint,
    namespace: &str,
    victims: &Vec<&TalliedPodLabels>,
) -> (n: usize)
    ensures
        n == group_victims(constraint@, namespace@, victims.deep_view()),
{
    let ghost all = victims.deep_view();
    let mut n: usize = 0;
    let mut i: usize = 0;
    proof {
        assert(all.take(0) =~= Seq::empty());
    }
    while i < victims.len()
        invariant
            all == victims.deep_view(),
            i <= victims@.len(),
            n <= i,
            n == group_victims(constraint@, namespace@, all.take(i as int)),
        decreases victims@.len() - i,
    {
        let v = victims[i];
        proof {
            assert(all.take(i + 1).drop_last() =~= all.take(i as int));
            assert(all.take(i + 1).last() == v@);
        }
        if same_text(v.namespace.as_str(), namespace) && label_selector_matches(
            &v.labels,
            constraint.label_selector.as_ref(),
        ) {
            n += 1;
        }
        i += 1;
    }
    assert(all.take(i as int) =~= all);
    n
}

/// The skew of the domain `value` with the pod in it.
#[verifier::loop_isolation(false)]
fn domain_skew(
    term: &TopologySpreadTerm<'_>,
    pod: &PendingPod,
    value: &str,
    discount: usize,
    Ghost(tallied): Ghost<Seq<TalliedPodLabelsView>>,
    Ghost(node_labels): Ghost<NodeLabels>,
    Ghost(victims): Ghost<Seq<TalliedPodLabelsView>>,
) -> (r: i128)
    requires
        counts_domains(
            term.counts@,
            term.constraint@,
            pod@.namespace,
            tallied,
            node_labels,
        ),
        discount == group_victims(term.constraint@, pod@.namespace, victims),
        tallied.len() <= usize::MAX,
    ensures
        r == skew(term.constraint@, pod@, tallied, node_labels, victims, value@),
{
    let ghost c = term.constraint@;
    let ghost ns = pod@.namespace;
    let ghost own = value@;
    proof {
        assert forall|v: Seq<char>| #[trigger]
            group_in_domain(c, ns, tallied, node_labels, v) <= usize::MAX by {
            lemma_group_bound(c, ns, tallied, node_labels, v);
        }
    }
    let here: i128 = match term.counts.get(value) {
        Some(n) => *n as i128,
        None => {
            proof {
                lemma_no_domain_no_group(c, ns, tallied, node_labels, own);
            }
            0
        },
    };
    let own_match: i128 = if label_selector_matches(
        &pod.labels,
        term.constraint.label_selector.as_ref(),
    ) {
        1
    } else {
        0
    };
    let n: usize = term.counts.len();
    let ghost keys = order::sorted_keys(term.counts@.dom());
    let mut fewest: i128 = 0;
    let mut i: usize = 0;
    while i < n
        invariant
            i <= n,
            -(usize::MAX as int) <= fewest <= usize::MAX as int,
            i == 0 ==> fewest == 0,
            i > 0 ==> exists|j: int|
                0 <= j < i && fewest == left_in_domain(
                    c,
                    ns,
                    tallied,
                    node_labels,
                    victims,
                    own,
                    #[trigger] keys[j],
                ),
            forall|j: int|
                0 <= j < i ==> fewest <= left_in_domain(
                    c,
                    ns,
                    tallied,
                    node_labels,
                    victims,
                    own,
                    #[trigger] keys[j],
                ),
        decreases n - i,
    {
        let domain = term.counts.key_at(i);
        let count: u128 = *term.counts.value_at(i);
        assert(term.counts@.contains_key(domain@));
        assert(group_in_domain(c, ns, tallied, node_labels, domain@) <= usize::MAX);
        let left: i128 = if same_text(domain.as_str(), value) {
            count as i128 - discount as i128
        } else {
            count as i128
        };
        assert(left == left_in_domain(c, ns, tallied, node_labels, victims, own, keys[i as int]));
        if i == 0 || left < fewest {
            fewest = left;
        }
        i += 1;
    }
    proof {
        assert(is_least(c, ns, tallied, node_labels, victims, own, fewest as int)) by {
            assert forall|v: Seq<char>| is_domain(node_labels, c.topology_key, v) implies exists|
                j: int,
            |
                0 <= j < keys.len() && keys[j] == v by {
                assert(term.counts@.contains_key(v));
                assert(keys.to_set().contains(v));
            }
            if n > 0 {
                let j = choose|j: int|
                    0 <= j < i && fewest == left_in_domain(
                        c,
                        ns,
                        tallied,
                        node_labels,
                        victims,
                        own,
                        #[trigger] keys[j],
                    );
                assert(keys.to_set().contains(keys[j]));
                assert(term.counts@.contains_key(keys[j]));
                assert(is_domain(node_labels, c.topology_key, keys[j]));
                assert forall|v: Seq<char>| is_domain(node_labels, c.topology_key, v) implies fewest
                    <= #[trigger] left_in_domain(
                    c,
                    ns,
                    tallied,
                    node_labels,
                    victims,
                    own,
                    v,
                ) by {
                    let k = choose|k: int| 0 <= k < keys.len() && keys[k] == v;
                    assert(fewest <= left_in_domain(
                        c,
                        ns,
                        tallied,
                        node_labels,
                        victims,
                        own,
                        keys[k],
                    ));
                }
            }
        }
        lemma_least_unique(c, ns, tallied, node_labels, victims, own, fewest as int);
        assert(here == group_in_domain(c, ns, tallied, node_labels, own));
    }
    here - discount as i128 + own_match - fewest
}

/// A constraint that is no more than a preference never shuts out a node.
pub proof fn law_preferences_shut_out_nothing(
    pod: PendingPodView,
    tallied: Seq<TalliedPodLabelsView>,
    node_labels: NodeLabels,
    labels: Map<Seq<char>, Seq<char>>,
    victims: Seq<TalliedPodLabelsView>,
)
    requires
        forall|i: int|
            0 <= i < pod.topology_spread_constraints.len() ==> (
            #[trigger] pod.topology_spread_constraints[i]).when_unsatisfiable
                != "DoNotSchedule"@,
    ensures
        suits(pod, tallied, node_labels, labels, victims),
{
}

/// The domain with the fewest pods of the group is open to one more as long
/// as a constraint allows any skew at all.
pub proof fn law_emptiest_domain_is_open(
    c: TopologySpreadConstraintView,
    pod: PendingPodView,
    tallied: Seq<TalliedPodLabelsView>,
    node_labels: NodeLabels,
    victims: Seq<TalliedPodLabelsView>,
    own: Seq<char>,
)
    requires
        is_least(
            c,
            pod.namespace,
            tallied,
            node_labels,
            victims,
            own,
            left_in_domain(c, pod.namespace, tallied, node_labels, victims, own, own),
        ),
        c.max_skew >= 1,
    ensures
        skew(c, pod, tallied, node_labels, victims, own) <= c.max_skew,
{
    lemma_least_unique(
        c,
        pod.namespace,
        tallied,
        node_labels,
        victims,
        own,
        left_in_domain(c, pod.namespace, tallied, node_labels, victims, own, own),
    );
}

/// A node without the label of a hard constraint is shut out.
pub proof fn law_node_without_the_label_is_shut_out(
    pod: PendingPodView,
    tallied: Seq<TalliedPodLabelsView>,
    node_labels: NodeLabels,
    labels: Map<Seq<char>, Seq<char>>,
    victims: Seq<TalliedPodLabelsView>,
    i: int,
)
    requires
        0 <= i < pod.topology_spread_constraints.len(),
        is_hard(pod.topology_spread_constraints[i]),
        !labels.contains_key(pod.topology_spread_constraints[i].topology_key),
    ensures
        !suits(pod, tallied, node_labels, labels, victims),
{
}

/// A placed pod counts for a domain where it is in the pending pod's own
/// namespace, has labels that the constraint picks, and is on a node of the
/// domain. Any other counts nowhere.
pub proof fn law_group_counts_one_by_one(
    c: TopologySpreadConstraintView,
    namespace: Seq<char>,
    tallied: Seq<TalliedPodLabelsView>,
    p: TalliedPodLabelsView,
    node_labels: NodeLabels,
    value: Seq<char>,
)
    ensures
        group_in_domain(c, namespace, Seq::empty(), node_labels, value) == 0,
        p.namespace == namespace && selector::selector_picks(p.labels, c.label_selector)
            && node_labels.contains_key(p.node_name) && node_labels[p.node_name].contains_key(
            c.topology_key,
        ) && node_labels[p.node_name][c.topology_key] == value ==> group_in_domain(
            c,
            namespace,
            tallied.push(p),
            node_labels,
            value,
        ) == group_in_domain(c, namespace, tallied, node_labels, value) + 1,
        p.namespace != namespace || !selector::selector_picks(p.labels, c.label_selector)
            || !node_labels.contains_key(p.node_name) || !node_labels[p.node_name].contains_key(
            c.topology_key,
        ) || node_labels[p.node_name][c.topology_key] != value ==> group_in_domain(
            c,
            namespace,
            tallied.push(p),
            node_labels,
            value,
        ) == group_in_domain(c, namespace, tallied, node_labels, value),
{
    assert(tallied.push(p).drop_last() =~= tallied);
}

proof fn lemma_group_without(
    c: TopologySpreadConstraintView,
    namespace: Seq<char>,
    tallied: Seq<TalliedPodLabelsView>,
    node_labels: NodeLabels,
    value: Seq<char>,
    k: int,
)
    requires
        0 <= k < tallied.len(),
        tallied[k].namespace != namespace || !selector::selector_picks(
            tallied[k].labels,
            c.label_selector,
        ) || !node_labels.contains_key(tallied[k].node_name)
            || !node_labels[tallied[k].node_name].contains_key(c.topology_key),
    ensures
        group_in_domain(c, namespace, tallied.remove(k), node_labels, value) == group_in_domain(
            c,
            namespace,
            tallied,
            node_labels,
            value,
        ),
    decreases tallied.len(),
{
    let front = tallied.drop_last();
    let last = tallied.last();
    assert(front.push(last) =~= tallied);
    law_group_counts_one_by_one(c, namespace, front, last, node_labels, value);
    if k == tallied.len() - 1 {
        assert(tallied.remove(k) =~= front);
    } else {
        lemma_group_without(c, namespace, front, node_labels, value, k);
        assert(tallied.remove(k) =~= front.remove(k).push(last));
        law_group_counts_one_by_one(c, namespace, front.remove(k), last, node_labels, value);
    }
}

proof fn lemma_skew_by_counts(
    c: TopologySpreadConstraintView,
    pod: PendingPodView,
    a: Seq<TalliedPodLabelsView>,
    b: Seq<TalliedPodLabelsView>,
    node_labels: NodeLabels,
    own: Seq<char>,
)
    requires
        forall|v: Seq<char>| #[trigger]
            group_in_domain(c, pod.namespace, a, node_labels, v) == group_in_domain(
                c,
                pod.namespace,
                b,
                node_labels,
                v,
            ),
    ensures
        skew(c, pod, a, node_labels, Seq::empty(), own) == skew(
            c,
            pod,
            b,
            node_labels,
            Seq::empty(),
            own,
        ),
{
    let ns = pod.namespace;
    let none = Seq::<TalliedPodLabelsView>::empty();
    assert forall|v: Seq<char>| #[trigger]
        left_in_domain(c, ns, a, node_labels, none, own, v) == left_in_domain(
            c,
            ns,
            b,
            node_labels,
            none,
            own,
            v,
        ) by {
        assert(group_in_domain(c, ns, a, node_labels, v) == group_in_domain(
            c,
            ns,
            b,
            node_labels,
            v,
        ));
    }
    assert(left_in_domain(c, ns, a, node_labels, none, own, own) == left_in_domain(
        c,
        ns,
        b,
        node_labels,
        none,
        own,
        own,
    ));
    if exists|v: Seq<char>| is_domain(node_labels, c.topology_key, v) {
        let v = choose|v: Seq<char>| is_domain(node_labels, c.topology_key, v);
        let m = crate::eviction::lemma_least_from(c, ns, a, node_labels, own, v);
        let w = choose|w: Seq<char>|
            is_domain(node_labels, c.topology_key, w) && m == #[trigger] left_in_domain(
                c,
                ns,
                a,
                node_labels,
                none,
                own,
                w,
            );
        assert(m == left_in_domain(c, ns, b, node_labels, none, own, w));
        assert forall|x: Seq<char>| is_domain(node_labels, c.topology_key, x) implies m
            <= #[trigger] left_in_domain(c, ns, b, node_labels, none, own, x) by {
            assert(m <= left_in_domain(c, ns, a, node_labels, none, own, x));
        }
        assert(is_least(c, ns, b, node_labels, none, own, m));
        lemma_least_unique(c, ns, a, node_labels, none, own, m);
        lemma_least_unique(c, ns, b, node_labels, none, own, m);
    } else {
        assert(is_least(c, ns, a, node_labels, none, own, 0));
        assert(is_least(c, ns, b, node_labels, none, own, 0));
        lemma_least_unique(c, ns, a, node_labels, none, own, 0);
        lemma_least_unique(c, ns, b, node_labels, none, own, 0);
    }
}

proof fn lemma_suits_by_counts(
    pod: PendingPodView,
    a: Seq<TalliedPodLabelsView>,
    b: Seq<TalliedPodLabelsView>,
    node_labels: NodeLabels,
    labels: Map<Seq<char>, Seq<char>>,
)
    requires
        forall|i: int, v: Seq<char>|
            0 <= i < pod.topology_spread_constraints.len() ==> #[trigger] group_in_domain(
                pod.topology_spread_constraints[i],
                pod.namespace,
                a,
                node_labels,
                v,
            ) == group_in_domain(
                pod.topology_spread_constraints[i],
                pod.namespace,
                b,
                node_labels,
                v,
            ),
    ensures
        suits(pod, a, node_labels, labels, Seq::empty()) == suits(
            pod,
            b,
            node_labels,
            labels,
            Seq::empty(),
        ),
{
    assert forall|i: int|
        0 <= i < pod.topology_spread_constraints.len() && labels.contains_key(
            (#[trigger] pod.topology_spread_constraints[i]).topology_key,
        ) implies ({
        let c = pod.topology_spread_constraints[i];
        let own = labels[c.topology_key];
        skew(c, pod, a, node_labels, Seq::empty(), own) == skew(
            c,
            pod,
            b,
            node_labels,
            Seq::empty(),
            own,
        )
    }) by {
        let c = pod.topology_spread_constraints[i];
        lemma_skew_by_counts(c, pod, a, b, node_labels, labels[c.topology_key]);
    }
}

/// A placed pod of another namespace leaves the spread as it is: every node is
/// admitted with it exactly where it is admitted without it.
pub proof fn law_other_namespaces_do_not_count(
    pod: PendingPodView,
    tallied: Seq<TalliedPodLabelsView>,
    node_labels: NodeLabels,
    labels: Map<Seq<char>, Seq<char>>,
    k: int,
)
    requires
        0 <= k < tallied.len(),
        tallied[k].namespace != pod.namespace,
    ensures
        suits(pod, tallied, node_labels, labels, Seq::empty()) == suits(
            pod,
            tallied.remove(k),
            node_labels,
            labels,
            Seq::empty(),
        ),
{
    assert forall|i: int, v: Seq<char>|
        0 <= i < pod.topology_spread_constraints.len() implies #[trigger] group_in_domain(
        pod.topology_spread_constraints[i],
        pod.namespace,
        tallied,
        node_labels,
        v,
    ) == group_in_domain(
        pod.topology_spread_constraints[i],
        pod.namespace,
        tallied.remove(k),
        node_labels,
        v,
    ) by {
        lemma_group_without(
            pod.topology_spread_constraints[i],
            pod.namespace,
            tallied,
            node_labels,
            v,
            k,
        );
    }
    lemma_suits_by_counts(pod, tallied, tallied.remove(k), node_labels, labels);
}

/// A placed pod that no constraint picks by its labels leaves the spread as it
/// is, and so does one on a node that is not known.
pub proof fn law_pods_outside_the_group_do_not_count(
    pod: PendingPodView,
    tallied: Seq<TalliedPodLabelsView>,
    node_labels: NodeLabels,
    labels: Map<Seq<char>, Seq<char>>,
    k: int,
)
    requires
        0 <= k < tallied.len(),
        !node_labels.contains_key(tallied[k].node_name) || forall|i: int|
            0 <= i < pod.topology_spread_constraints.len() ==> !selector::selector_picks(
                tallied[k].labels,
                (#[trigger] pod.topology_spread_constraints[i]).label_selector,
            ) || !node_labels[tallied[k].node_name].contains_key(
                pod.topology_spread_constraints[i].topology_key,
            ),
    ensures
        suits(pod, tallied, node_labels, labels, Seq::empty()) == suits(
            pod,
            tallied.remove(k),
            node_labels,
            labels,
            Seq::empty(),
        ),
{
    assert forall|i: int, v: Seq<char>|
        0 <= i < pod.topology_spread_constraints.len() implies #[trigger] group_in_domain(
        pod.topology_spread_constraints[i],
        pod.namespace,
        tallied,
        node_labels,
        v,
    ) == group_in_domain(
        pod.topology_spread_constraints[i],
        pod.namespace,
        tallied.remove(k),
        node_labels,
        v,
    ) by {
        lemma_group_without(
            pod.topology_spread_constraints[i],
            pod.namespace,
            tallied,
            node_labels,
            v,
            k,
        );
    }
    lemma_suits_by_counts(pod, tallied, tallied.remove(k), node_labels, labels);
}

proof fn lemma_least(
    c: TopologySpreadConstraintView,
    namespace: Seq<char>,
    tallied: Seq<TalliedPodLabelsView>,
    node_labels: NodeLabels,
    own: Seq<char>,
)
    ensures
        is_least(
            c,
            namespace,
            tallied,
            node_labels,
            Seq::empty(),
            own,
            least(c, namespace, tallied, node_labels, Seq::empty(), own),
        ),
{
    let none = Seq::<TalliedPodLabelsView>::empty();
    if exists|v: Seq<char>| is_domain(node_labels, c.topology_key, v) {
        let v = choose|v: Seq<char>| is_domain(node_labels, c.topology_key, v);
        let m = crate::eviction::lemma_least_from(c, namespace, tallied, node_labels, own, v);
        lemma_least_unique(c, namespace, tallied, node_labels, none, own, m);
    } else {
        assert(is_least(c, namespace, tallied, node_labels, none, own, 0));
        lemma_least_unique(c, namespace, tallied, node_labels, none, own, 0);
    }
}

/// Where a node is admitted, the pod makes no hard constraint's skew too
/// large: its domain, with the pod where the constraint picks it, has at most
/// `max_skew` pods of the group more than the domain of any other node.
pub proof fn law_skew_stays_within_its_limit(
    pod: PendingPodView,
    tallied: Seq<TalliedPodLabelsView>,
    node_labels: NodeLabels,
    labels: Map<Seq<char>, Seq<char>>,
    i: int,
    other: Seq<char>,
)
    requires
        suits(pod, tallied, node_labels, labels, Seq::empty()),
        0 <= i < pod.topology_spread_constraints.len(),
        pod.topology_spread_constraints[i].when_unsatisfiable == "DoNotSchedule"@,
        pod.topology_spread_constraints[i].topology_key.len() > 0,
        node_labels.contains_key(other),
        node_labels[other].contains_key(pod.topology_spread_constraints[i].topology_key),
    ensures
        ({
            let c = pod.topology_spread_constraints[i];
            &&& labels.contains_key(c.topology_key)
            &&& group_in_domain(
                c,
                pod.namespace,
                tallied,
                node_labels,
                labels[c.topology_key],
            ) + (if selector::selector_picks(pod.labels, c.label_selector) {
                1int
            } else {
                0
            }) - group_in_domain(
                c,
                pod.namespace,
                tallied,
                node_labels,
                node_labels[other][c.topology_key],
            ) <= c.max_skew
        }),
{
    let c = pod.topology_spread_constraints[i];
    let none = Seq::<TalliedPodLabelsView>::empty();
    assert(is_hard(c));
    let own = labels[c.topology_key];
    let v = node_labels[other][c.topology_key];
    lemma_least(c, pod.namespace, tallied, node_labels, own);
    assert(is_domain(node_labels, c.topology_key, v));
    assert(least(c, pod.namespace, tallied, node_labels, none, own) <= left_in_domain(
        c,
        pod.namespace,
        tallied,
        node_labels,
        none,
        own,
        v,
    ));
    assert(group_victims(c, pod.namespace, none) == 0);
}

/// A node is admitted where it has the label of every hard constraint and
/// where, with the pod, its domain has at most `max_skew` pods of the group
/// more than the domain of any node.
pub proof fn law_small_skew_is_admitted(
    pod: PendingPodView,
    tallied: Seq<TalliedPodLabelsView>,
    node_labels: NodeLabels,
    labels: Map<Seq<char>, Seq<char>>,
    name: Seq<char>,
)
    requires
        node_labels.contains_key(name),
        node_labels[name] == labels,
        forall|i: int|
            0 <= i < pod.topology_spread_constraints.len() && (
            #[trigger] pod.topology_spread_constraints[i]).when_unsatisfiable == "DoNotSchedule"@
                ==> labels.contains_key(pod.topology_spread_constraints[i].topology_key),
        forall|i: int, other: Seq<char>|
            #![trigger pod.topology_spread_constraints[i], node_labels[other]]
            0 <= i < pod.topology_spread_constraints.len() && node_labels.contains_key(other)
                && node_labels[other].contains_key(
                pod.topology_spread_constraints[i].topology_key,
            ) && pod.topology_spread_constraints[i].when_unsatisfiable == "DoNotSchedule"@ ==> {
                let c = pod.topology_spread_constraints[i];
                group_in_domain(
                    c,
                    pod.namespace,
                    tallied,
                    node_labels,
                    labels[c.topology_key],
                ) + (if selector::selector_picks(pod.labels, c.label_selector) {
                    1int
                } else {
                    0
                }) - group_in_domain(
                    c,
                    pod.namespace,
                    tallied,
                    node_labels,
                    node_labels[other][c.topology_key],
                ) <= c.max_skew
            },
    ensures
        suits(pod, tallied, node_labels, labels, Seq::empty()),
{
    let none = Seq::<TalliedPodLabelsView>::empty();
    assert forall|i: int|
        0 <= i < pod.topology_spread_constraints.len() && is_hard(
            #[trigger] pod.topology_spread_constraints[i],
        ) implies ({
        let c = pod.topology_spread_constraints[i];
        labels.contains_key(c.topology_key) && skew(
            c,
            pod,
            tallied,
            node_labels,
            none,
            labels[c.topology_key],
        ) <= c.max_skew
    }) by {
        let c = pod.topology_spread_constraints[i];
        let own = labels[c.topology_key];
        lemma_least(c, pod.namespace, tallied, node_labels, own);
        assert(group_victims(c, pod.namespace, none) == 0);
        assert(is_domain(node_labels, c.topology_key, own)) by {
            assert(node_labels.contains_key(name) && node_labels[name].contains_key(
                c.topology_key,
            ));
        }
        let m = least(c, pod.namespace, tallied, node_labels, none, own);
        let v = choose|v: Seq<char>|
            is_domain(node_labels, c.topology_key, v) && m == #[trigger] left_in_domain(
                c,
                pod.namespace,
                tallied,
                node_labels,
                none,
                own,
                v,
            );
        let other = choose|other: Seq<char>| #[trigger]
            node_labels.contains_key(other) && node_labels[other].contains_key(c.topology_key)
                && node_labels[other][c.topology_key] == v;
        assert(node_labels[other][c.topology_key] == v);
    }
}

/// A constraint shuts out a node that lacks its label where it says
/// `DoNotSchedule`; one that says anything else never shuts out a node.
pub proof fn law_only_hard_constraints_count(
    pod: PendingPodView,
    tallied: Seq<TalliedPodLabelsView>,
    node_labels: NodeLabels,
    labels: Map<Seq<char>, Seq<char>>,
    i: int,
)
    requires
        0 <= i < pod.topology_spread_constraints.len(),
    ensures
        ({
            let c = pod.topology_spread_constraints[i];
            &&& c.when_unsatisfiable == "DoNotSchedule"@ && c.topology_key.len() > 0
                && !labels.contains_key(c.topology_key) ==> !suits(
                pod,
                tallied,
                node_labels,
                labels,
                Seq::empty(),
            )
            &&& c.when_unsatisfiable != "DoNotSchedule"@ ==> suits(
                pod,
                tallied,
                node_labels,
                labels,
                Seq::empty(),
            ) == suits(
                PendingPodView {
                    topology_spread_constraints: pod.topology_spread_constraints.remove(i),
                    ..pod
                },
                tallied,
                node_labels,
                labels,
                Seq::empty(),
            )
        }),
{
    let c = pod.topology_spread_constraints[i];
    let all = pod.topology_spread_constraints;
    let rest = PendingPodView { topology_spread_constraints: all.remove(i), ..pod };
    let none = Seq::<TalliedPodLabelsView>::empty();
    if c.when_unsatisfiable == "DoNotSchedule"@ && c.topology_key.len() > 0 {
        assert(is_hard(all[i]));
    }
    if c.when_unsatisfiable != "DoNotSchedule"@ {
        assert forall|x: TopologySpreadConstraintView, own: Seq<char>| #[trigger]
            skew(x, pod, tallied, node_labels, none, own) == skew(
                x,
                rest,
                tallied,
                node_labels,
                none,
                own,
            ) by {
        }
        if suits(pod, tallied, node_labels, labels, none) {
            assert forall|j: int|
                0 <= j < all.remove(i).len() && is_hard(#[trigger] all.remove(i)[j]) implies ({
                let x = all.remove(i)[j];
                labels.contains_key(x.topology_key) && skew(
                    x,
                    rest,
                    tallied,
                    node_labels,
                    none,
                    labels[x.topology_key],
                ) <= x.max_skew
            }) by {
                let k = if j < i {
                    j
                } else {
                    j + 1
                };
                assert(all.remove(i)[j] == all[k]);
                assert(is_hard(all[k]));
            }
        }
        if suits(rest, tallied, node_labels, labels, none) {
            assert forall|k: int| 0 <= k < all.len() && is_hard(#[trigger] all[k]) implies ({
                let x = all[k];
                labels.contains_key(x.topology_key) && skew(
                    x,
                    pod,
                    tallied,
                    node_labels,
                    none,
                    labels[x.topology_key],
                ) <= x.max_skew
            }) by {
                assert(k != i);
                let j = if k < i {
                    k
                } else {
                    k - 1
                };
                assert(all.remove(i)[j] == all[k]);
                assert(is_hard(rest.topology_spread_constraints[j]));
            }
        }
    }
}

} // verus!
