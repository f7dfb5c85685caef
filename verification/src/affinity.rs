//! Affinity and anti-affinity between pods.

use crate::node::{TalliedPodLabels, TalliedPodLabelsView};
use crate::order::{self, same_text};
use crate::pod::{PendingPod, PendingPodView, PodAffinityTerm, PodAffinityTermView};
use crate::selector::{self, label_selector_matches, list_contains};
use crate::string_map::StringMap;
use vstd::prelude::*;

verus! {

/// The namespace is one of those that a term looks at.
pub open spec fn in_namespaces(
    term_namespaces: Seq<Seq<char>>,
    pod_namespace: Seq<char>,
    candidate_namespace: Seq<char>,
) -> bool {
    if term_namespaces.len() == 0 {
        candidate_namespace == pod_namespace
    } else {
        term_namespaces.contains(candidate_namespace)
    }
}

/// A term of a pod in `pod_namespace` picks a pod in `namespace` with
/// `labels`.
pub open spec fn term_picks(
    term: PodAffinityTermView,
    pod_namespace: Seq<char>,
    namespace: Seq<char>,
    labels: Map<Seq<char>, Seq<char>>,
) -> bool {
    in_namespaces(term.namespaces, pod_namespace, namespace) && selector::selector_picks(
        labels,
        term.label_selector,
    )
}

/// Labels of all nodes, by node name.
pub type NodeLabels = Map<Seq<char>, Map<Seq<char>, Seq<char>>>;

/// The node of `p` has the value `value` for the label `key`.
pub open spec fn lies_in(
    p: TalliedPodLabelsView,
    node_labels: NodeLabels,
    key: Seq<char>,
    value: Seq<char>,
) -> bool {
    &&& node_labels.contains_key(p.node_name)
    &&& node_labels[p.node_name].contains_key(key)
    &&& node_labels[p.node_name][key] == value
}

/// How many of `tallied` a term picks in the domain `value` of its label.
pub open spec fn term_matches(
    term: PodAffinityTermView,
    pod_namespace: Seq<char>,
    tallied: Seq<TalliedPodLabelsView>,
    node_labels: NodeLabels,
    value: Seq<char>,
) -> nat
    decreases tallied.len(),
{
    if tallied.len() == 0 {
        0
    } else {
        let p = tallied.last();
        term_matches(term, pod_namespace, tallied.drop_last(), node_labels, value) + if (
        term.topology_key.len() > 0 && term_picks(term, pod_namespace, p.namespace, p.labels)
            && lies_in(p, node_labels, term.topology_key, value)) {
            1nat
        } else {
            0
        }
    }
}

/// How many of `victims` a term picks.
pub open spec fn term_victims(
    term: PodAffinityTermView,
    pod_namespace: Seq<char>,
    victims: Seq<TalliedPodLabelsView>,
) -> nat
    decreases victims.len(),
{
    if victims.len() == 0 {
        0
    } else {
        term_victims(term, pod_namespace, victims.drop_last()) + if term_picks(
            term,
            pod_namespace,
            victims.last().namespace,
            victims.last().labels,
        ) {
            1nat
        } else {
            0
        }
    }
}

/// How many matches of a term go from the domain `value` with `victims`, all
/// of them on the node with `labels`.
pub open spec fn matches_lost(
    term: PodAffinityTermView,
    pod_namespace: Seq<char>,
    labels: Map<Seq<char>, Seq<char>>,
    victims: Seq<TalliedPodLabelsView>,
    value: Seq<char>,
) -> nat {
    if labels.contains_key(term.topology_key) && labels[term.topology_key] == value {
        term_victims(term, pod_namespace, victims)
    } else {
        0
    }
}

/// A match of the term remains in the domain `value` when `victims`, all of
/// them on the node with `labels`, are gone.
pub open spec fn match_remains(
    term: PodAffinityTermView,
    pod_namespace: Seq<char>,
    tallied: Seq<TalliedPodLabelsView>,
    node_labels: NodeLabels,
    labels: Map<Seq<char>, Seq<char>>,
    victims: Seq<TalliedPodLabelsView>,
    value: Seq<char>,
) -> bool {
    term_matches(term, pod_namespace, tallied, node_labels, value) > matches_lost(
        term,
        pod_namespace,
        labels,
        victims,
        value,
    )
}

/// No match of the term remains in any domain when `victims` are gone.
pub open spec fn is_unmatched(
    term: PodAffinityTermView,
    pod_namespace: Seq<char>,
    tallied: Seq<TalliedPodLabelsView>,
    node_labels: NodeLabels,
    labels: Map<Seq<char>, Seq<char>>,
    victims: Seq<TalliedPodLabelsView>,
) -> bool {
    forall|value: Seq<char>|
        !#[trigger] match_remains(
            term,
            pod_namespace,
            tallied,
            node_labels,
            labels,
            victims,
            value,
        )
}

/// The node with `labels` has every label that the terms go by.
pub open spec fn has_domains(
    terms: Seq<PodAffinityTermView>,
    labels: Map<Seq<char>, Seq<char>>,
) -> bool {
    forall|i: int|
        0 <= i < terms.len() ==> labels.contains_key((#[trigger] terms[i]).topology_key)
}

/// Every term of the pod's affinity is met in the domain of the node with
/// `labels`: each by a pod that it picks itself. Where no term is matched
/// anywhere, a pod that all its own terms pick may be the first.
pub open spec fn affinity_met(
    pod: PendingPodView,
    tallied: Seq<TalliedPodLabelsView>,
    node_labels: NodeLabels,
    labels: Map<Seq<char>, Seq<char>>,
    victims: Seq<TalliedPodLabelsView>,
) -> bool {
    let terms = pod.pod_affinity_terms;
    &&& has_domains(terms, labels)
    &&& (forall|i: int|
        0 <= i < terms.len() ==> match_remains(
            #[trigger] terms[i],
            pod.namespace,
            tallied,
            node_labels,
            labels,
            victims,
            labels[terms[i].topology_key],
        )) || (forall|i: int|
        0 <= i < terms.len() ==> is_unmatched(
            #[trigger] terms[i],
            pod.namespace,
            tallied,
            node_labels,
            labels,
            victims,
        ) && term_picks(terms[i], pod.namespace, pod.namespace, pod.labels))
}

/// No term of the pod's anti-affinity has a match in the domain of the node
/// with `labels`. A node without the label of a term is in no domain of it.
pub open spec fn anti_affinity_met(
    pod: PendingPodView,
    tallied: Seq<TalliedPodLabelsView>,
    node_labels: NodeLabels,
    labels: Map<Seq<char>, Seq<char>>,
    victims: Seq<TalliedPodLabelsView>,
) -> bool {
    let terms = pod.pod_anti_affinity_terms;
    forall|i: int|
        0 <= i < terms.len() && labels.contains_key((#[trigger] terms[i]).topology_key)
            ==> !match_remains(
            terms[i],
            pod.namespace,
            tallied,
            node_labels,
            labels,
            victims,
            labels[terms[i].topology_key],
        )
}

/// The node with `labels` suits the pod's affinity and anti-affinity when
/// `victims` are gone from it.
pub open spec fn suits(
    pod: PendingPodView,
    tallied: Seq<TalliedPodLabelsView>,
    node_labels: NodeLabels,
    labels: Map<Seq<char>, Seq<char>>,
    victims: Seq<TalliedPodLabelsView>,
) -> bool {
    affinity_met(pod, tallied, node_labels, labels, victims) && anti_affinity_met(
        pod,
        tallied,
        node_labels,
        labels,
        victims,
    )
}

/// Whether the namespace is one of those that a term looks at.
pub fn term_namespace_matches(
    term_namespaces: &Vec<String>,
    pod_namespace: &str,
    candidate_namespace: &str,
) -> (b: bool)
    ensures
        b == in_namespaces(term_namespaces.deep_view(), pod_namespace@, candidate_namespace@),
{
    if term_namespaces.len() == 0 {
        same_text(candidate_namespace, pod_namespace)
    } else {
        list_contains(crate::duplicate::slice_of(term_namespaces), candidate_namespace)
    }
}

/// Whether `term`, of a pod in `pod_namespace`, picks a pod in
/// `candidate_namespace` with `candidate_labels`.
pub fn pod_matches_affinity_term(
    term: &PodAffinityTerm,
    pod_namespace: &str,
    candidate_namespace: &str,
    candidate_labels: &StringMap<String>,
) -> (b: bool)
    ensures
        b == term_picks(term@, pod_namespace@, candidate_namespace@, candidate_labels@),
{
    term_namespace_matches(&term.namespaces, pod_namespace, candidate_namespace)
        && label_selector_matches(candidate_labels, term.label_selector.as_ref())
}

/// `counts` say how many matches the term has in each domain, and list no
/// domain without any.
spec fn counts_term(
    counts: Map<Seq<char>, usize>,
    term: PodAffinityTermView,
    pod_namespace: Seq<char>,
    tallied: Seq<TalliedPodLabelsView>,
    node_labels: NodeLabels,
) -> bool {
    forall|value: Seq<char>|
        #![trigger counts.contains_key(value)]
        #![trigger term_matches(term, pod_namespace, tallied, node_labels, value)]
        if counts.contains_key(value) {
            counts[value] > 0 && counts[value] == term_matches(
                term,
                pod_namespace,
                tallied,
                node_labels,
                value,
            )
        } else {
            term_matches(term, pod_namespace, tallied, node_labels, value) == 0
        }
}

/// `counts` hold the counts of each term.
spec fn counts_terms(
    counts: Seq<Map<Seq<char>, usize>>,
    terms: Seq<PodAffinityTermView>,
    pod_namespace: Seq<char>,
    tallied: Seq<TalliedPodLabelsView>,
    node_labels: NodeLabels,
) -> bool {
    &&& counts.len() == terms.len()
    &&& forall|i: int|
        0 <= i < terms.len() ==> counts_term(
            #[trigger] counts[i],
            terms[i],
            pod_namespace,
            tallied,
            node_labels,
        )
}

fn count_of(counts: &StringMap<usize>, value: &str) -> (n: usize)
    ensures
        n == if counts@.contains_key(value@) {
            counts@[value@]
        } else {
            0
        },
{
    match counts.get(value) {
        Some(n) => *n,
        None => 0,
    }
}

proof fn lemma_term_matches_bound(
    term: PodAffinityTermView,
    pod_namespace: Seq<char>,
    tallied: Seq<TalliedPodLabelsView>,
    node_labels: NodeLabels,
    value: Seq<char>,
)
    ensures
        term_matches(term, pod_namespace, tallied, node_labels, value) <= tallied.len(),
    decreases tallied.len(),
{
    if tallied.len() > 0 {
        lemma_term_matches_bound(term, pod_namespace, tallied.drop_last(), node_labels, value);
    }
}

/// The value of the label `key` of the node that `p` runs on.
fn domain_of<'a>(
    p: &TalliedPodLabels,
    node_labels_by_name: &'a StringMap<StringMap<String>>,
    key: &str,
) -> (r: Option<&'a String>)
    ensures
        forall|v: Seq<char>| #[trigger]
            lies_in(p@, node_labels_by_name@, key@, v) <==> r is Some && r->0@ == v,
{
    match node_labels_by_name.get(p.node_name.as_str()) {
        Some(labels) => labels.get(key),
        None => None,
    }
}

/// How many matches the term has among `tallied` in each domain.
#[verifier::loop_isolation(false)]
fn count_matches(
    term: &PodAffinityTerm,
    pod_namespace: &str,
    tallied: &[TalliedPodLabels],
    node_labels_by_name: &StringMap<StringMap<String>>,
) -> (counts: StringMap<usize>)
    ensures
        counts_term(
            counts@,
            term@,
            pod_namespace@,
            tallied.deep_view(),
            node_labels_by_name@,
        ),
{
    let ghost all = tallied.deep_view();
    let ghost ns = pod_namespace@;
    let ghost nl = node_labels_by_name@;
    let keyless = term.topology_key.as_str().is_empty();
    let mut counts: StringMap<usize> = StringMap::new();
    let mut j: usize = 0;
    while j < tallied.len()
        invariant
            j <= tallied@.len(),
            counts_term(counts@, term@, ns, all.take(j as int), nl),
        decreases tallied@.len() - j,
    {
        let p = &tallied[j];
        let ghost before = counts@;
        let ghost here = all.take(j as int);
        let ghost next = all.take(j + 1);
        proof {
            assert(next.drop_last() =~= here);
            assert(next.last() == p@);
        }
        if !keyless && pod_matches_affinity_term(
            term,
            pod_namespace,
            p.namespace.as_str(),
            &p.labels,
        ) {
            if let Some(value) = domain_of(p, node_labels_by_name, term.topology_key.as_str()) {
                let n: usize = count_of(&counts, value.as_str());
                proof {
                    lemma_term_matches_bound(term@, ns, here, nl, value@);
                    assert(before.contains_key(value@) ==> before[value@] <= j);
                    assert(lies_in(p@, nl, term@.topology_key, value@));
                }
                counts.insert(value.clone(), n + 1);
            }
        }
        proof {
            assert forall|value: Seq<char>|
                #![trigger counts@.contains_key(value)]
                #![trigger term_matches(term@, ns, next, nl, value)]
                if counts@.contains_key(value) {
                    counts@[value] > 0 && counts@[value] == term_matches(
                        term@,
                        ns,
                        next,
                        nl,
                        value,
                    )
                } else {
                    term_matches(term@, ns, next, nl, value) == 0
                } by {
                assert(before.contains_key(value) ==> before[value] == term_matches(
                    term@,
                    ns,
                    here,
                    nl,
                    value,
                ));
                assert(!before.contains_key(value) ==> term_matches(term@, ns, here, nl, value)
                    == 0);
            }
        }
        j += 1;
    }
    assert(all.take(j as int) =~= all);
    counts
}

/// How many matches each term has among `tallied` in each domain.
#[verifier::loop_isolation(false)]
fn topology_pairs_matched_by_terms(
    terms: &Vec<PodAffinityTerm>,
    pod_namespace: &str,
    tallied: &[TalliedPodLabels],
    node_labels_by_name: &StringMap<StringMap<String>>,
) -> (counts: Vec<StringMap<usize>>)
    ensures
        counts_terms(
            counts.deep_view(),
            terms.deep_view(),
            pod_namespace@,
            tallied.deep_view(),
            node_labels_by_name@,
        ),
{
    let ghost all = terms.deep_view();
    let mut counts: Vec<StringMap<usize>> = Vec::new();
    let mut i: usize = 0;
    while i < terms.len()
        invariant
            i <= terms@.len(),
            counts@.len() == i,
            forall|k: int|
                0 <= k < i ==> counts_term(
                    (#[trigger] counts@[k])@,
                    all[k],
                    pod_namespace@,
                    tallied.deep_view(),
                    node_labels_by_name@,
                ),
        decreases terms@.len() - i,
    {
        assert(all[i as int] == terms@[i as int]@);
        counts.push(count_matches(&terms[i], pod_namespace, tallied, node_labels_by_name));
        i += 1;
    }
    proof {
        assert forall|k: int| 0 <= k < all.len() implies counts_term(
            #[trigger] counts.deep_view()[k],
            all[k],
            pod_namespace@,
            tallied.deep_view(),
            node_labels_by_name@,
        ) by {
            assert(counts.deep_view()[k] == counts@[k]@);
        }
    }
    counts
}

/// How many of `victims` the term picks.
fn count_term_victims(
    term: &PodAffinityTerm,
    pod_namespace: &str,
    victims: &Vec<&TalliedPodLabels>,
) -> (n: usize)
    ensures
        n == term_victims(term@, pod_namespace@, victims.deep_view()),
        n <= victims@.len(),
{
    let ghost all = victims.deep_view();
    let mut n: usize = 0;
    let mut i: usize = 0;
    proof {
        assert(all.take(0) =~= Seq::empty());
    }
    while i < victims.len()
        invariant
            all == victims.deep_view(),
            i <= victims@.len(),
            n <= i,
            n == term_victims(term@, pod_namespace@, all.take(i as int)),
        decreases victims@.len() - i,
    {
        let v = victims[i];
        proof {
            assert(all.take(i + 1).drop_last() =~= all.take(i as int));
            assert(all.take(i + 1).last() == v@);
        }
        if pod_matches_affinity_term(term, pod_namespace, v.namespace.as_str(), &v.labels) {
            n += 1;
        }
        i += 1;
    }
    assert(all.take(i as int) =~= all);
    n
}

/// Whether no match of the term remains in any domain. `counts` are those of
/// the term, and `lost` of its matches in the domain `own` are gone.
#[verifier::loop_isolation(false)]
fn none_remains(
    counts: &StringMap<usize>,
    own: &str,
    lost: usize,
) -> (b: bool)
    ensures
        b == (forall|value: Seq<char>| #[trigger]
            counts@.contains_key(value) ==> counts@[value] <= if value == own@ {
                lost as int
            } else {
                0
            }),
{
    let n: usize = counts.len();
    let ghost keys = order::sorted_keys(counts@.dom());
    let mut i: usize = 0;
    while i < n
        invariant
            i <= n,
            forall|j: int|
                0 <= j < i ==> counts@[#[trigger] keys[j]] <= if keys[j] == own@ {
                    lost as int
                } else {
                    0
                },
        decreases n - i,
    {
        let value = counts.key_at(i);
        let count: usize = *counts.value_at(i);
        let gone: usize = if same_text(value.as_str(), own) {
            lost
        } else {
            0
        };
        if count > gone {
            assert(counts@.contains_key(value@));
            return false;
        }
        i += 1;
    }
    proof {
        assert forall|value: Seq<char>| #[trigger] counts@.contains_key(value) implies counts@[value]
            <= if value == own@ {
            lost as int
        } else {
            0
        } by {
            assert(keys.to_set().contains(value));
            let j = choose|j: int| 0 <= j < keys.len() && keys[j] == value;
            assert(counts@[keys[j]] == counts@[value]);
        }
    }
    true
}

/// What the affinity and anti-affinity of one pod come to among the pods
/// that are placed, counted once for all candidate nodes.
pub struct InterPodAffinityContext<'a> {
    pod: &'a PendingPod,
    affinity_matched: Vec<StringMap<usize>>,
    anti_affinity_matched: Vec<StringMap<usize>>,
    tallied: Ghost<Seq<TalliedPodLabelsView>>,
    node_labels: Ghost<NodeLabels>,
}

impl<'a> InterPodAffinityContext<'a> {
    /// The pod.
    pub closed spec fn pending(&self) -> PendingPodView {
        self.pod@
    }

    /// The pods that are placed.
    pub closed spec fn placed(&self) -> Seq<TalliedPodLabelsView> {
        self.tallied@
    }

    /// The labels of all nodes.
    pub closed spec fn labels(&self) -> NodeLabels {
        self.node_labels@
    }

    #[verifier::type_invariant]
    closed spec fn counted(&self) -> bool {
        &&& counts_terms(
            self.affinity_matched.deep_view(),
            self.pod@.pod_affinity_terms,
            self.pod@.namespace,
            self.tallied@,
            self.node_labels@,
        )
        &&& counts_terms(
            self.anti_affinity_matched.deep_view(),
            self.pod@.pod_anti_affinity_terms,
            self.pod@.namespace,
            self.tallied@,
            self.node_labels@,
        )
    }

    /// Count the matches of `pod` among `tallied`.
    pub fn build(
        pod: &'a PendingPod,
        tallied: &[TalliedPodLabels],
        node_labels_by_name: &StringMap<StringMap<String>>,
    ) -> (ctx: Self)
        ensures
            ctx.pending() == pod@,
            ctx.placed() == tallied.deep_view(),
            ctx.labels() == node_labels_by_name@,
    {
        let affinity_matched = topology_pairs_matched_by_terms(
            &pod.pod_affinity_terms,
            pod.namespace.as_str(),
            tallied,
            node_labels_by_name,
        );
        let anti_affinity_matched = topology_pairs_matched_by_terms(
            &pod.pod_anti_affinity_terms,
            pod.namespace.as_str(),
            tallied,
            node_labels_by_name,
        );
        InterPodAffinityContext {
            pod,
            affinity_matched,
            anti_affinity_matched,
            tallied: Ghost(tallied.deep_view()),
            node_labels: Ghost(node_labels_by_name@),
        }
    }

    /// Whether the node with `node_labels` suits the pod.
    pub fn node_qualifies(&self, node_labels: &StringMap<String>) -> (b: bool)
        ensures
            b == suits(
                self.pending(),
                self.placed(),
                self.labels(),
                node_labels@,
                Seq::empty(),
            ),
    {
        let none: Vec<&TalliedPodLabels> = Vec::new();
        assert(none.deep_view() =~= Seq::<TalliedPodLabelsView>::empty());
        self.node_qualifies_excluding_victims(node_labels, &none)
    }

    /// Whether the node with `node_labels` would suit the pod if `victims`,
    /// all of them on that node, were gone.
    pub fn node_qualifies_excluding_victims(
        &self,
        node_labels: &StringMap<String>,
        victims: &Vec<&TalliedPodLabels>,
    ) -> (b: bool)
        ensures
            b == suits(
                self.pending(),
                self.placed(),
                self.labels(),
                node_labels@,
                victims.deep_view(),
            ),
    {
        self.pod_affinity_satisfied(node_labels, victims) && self.pod_anti_affinity_satisfied(
            node_labels,
            victims,
        )
    }

    /// Whether every term of the pod's affinity is met.
    #[verifier::loop_isolation(false)]
    fn pod_affinity_satisfied(
        &self,
        node_labels: &StringMap<String>,
        victims: &Vec<&TalliedPodLabels>,
    ) -> (b: bool)
        ensures
            b == affinity_met(
                self.pending(),
                self.placed(),
                self.labels(),
                node_labels@,
                victims.deep_view(),
            ),
    {
        proof {
            use_type_invariant(self);
        }
        let ghost labels = node_labels@;
        let ghost all = self.pod@.pod_affinity_terms;
        let ghost ns = self.pod@.namespace;
        let ghost gone = victims.deep_view();
        let ghost placed = self.tallied@;
        let ghost nl = self.node_labels@;
        let terms = &self.pod.pod_affinity_terms;
        let namespace = self.pod.namespace.as_str();
        let mut all_match = true;
        let mut may_be_first = true;
        let mut i: usize = 0;
        while i < terms.len()
            invariant
                i <= terms@.len(),
                forall|j: int|
                    0 <= j < i ==> labels.contains_key((#[trigger] all[j]).topology_key),
                all_match == (forall|j: int|
                    0 <= j < i ==> match_remains(
                        #[trigger] all[j],
                        ns,
                        placed,
                        nl,
                        labels,
                        gone,
                        labels[all[j].topology_key],
                    )),
                may_be_first == (forall|j: int|
                    0 <= j < i ==> is_unmatched(#[trigger] all[j], ns, placed, nl, labels, gone)
                        && term_picks(all[j], ns, ns, self.pod@.labels)),
            decreases terms@.len() - i,
        {
            let term = &terms[i];
            let counts = &self.affinity_matched[i];
            proof {
                assert(all[i as int] == term@);
                assert(self.affinity_matched.deep_view()[i as int] == counts@);
            }
            let own = match node_labels.get(term.topology_key.as_str()) {
                Some(value) => value,
                None => {
                    return false;
                },
            };
            let lost: usize = count_term_victims(term, namespace, victims);
            if count_of(counts, own.as_str()) <= lost {
                all_match = false;
            }
            let unmatched = none_remains(counts, own.as_str(), lost);
            proof {
                assert(counts_term(counts@, term@, ns, placed, nl));
                assert(term_matches(term@, ns, placed, nl, own@) >= 0);
                if unmatched {
                    assert forall|value: Seq<char>|
                        !#[trigger] match_remains(term@, ns, placed, nl, labels, gone, value) by {
                        assert(term_matches(term@, ns, placed, nl, value) >= 0);
                        assert(counts@.contains_key(value) || !counts@.contains_key(value));
                    }
                } else {
                    let value = choose|value: Seq<char>| #[trigger]
                        counts@.contains_key(value) && counts@[value] > if value == own@ {
                            lost as int
                        } else {
                            0
                        };
                    assert(match_remains(term@, ns, placed, nl, labels, gone, value));
                }
            }
            if !unmatched || !pod_matches_affinity_term(
                term,
                namespace,
                namespace,
                &self.pod.labels,
            ) {
                may_be_first = false;
            }
            i += 1;
        }
        all_match || may_be_first
    }

    /// Whether no term of the pod's anti-affinity has a match.
    #[verifier::loop_isolation(false)]
    fn pod_anti_affinity_satisfied(
        &self,
        node_labels: &StringMap<String>,
        victims: &Vec<&TalliedPodLabels>,
    ) -> (b: bool)
        ensures
            b == anti_affinity_met(
                self.pending(),
                self.placed(),
                self.labels(),
                node_labels@,
                victims.deep_view(),
            ),
    {
        proof {
            use_type_invariant(self);
        }
        let ghost labels = node_labels@;
        let ghost all = self.pod@.pod_anti_affinity_terms;
        let ghost ns = self.pod@.namespace;
        let ghost gone = victims.deep_view();
        let ghost placed = self.tallied@;
        let ghost nl = self.node_labels@;
        let terms = &self.pod.pod_anti_affinity_terms;
        let namespace = self.pod.namespace.as_str();
        let mut i: usize = 0;
        while i < terms.len()
            invariant
                i <= terms@.len(),
                forall|j: int|
                    0 <= j < i && labels.contains_key((#[trigger] all[j]).topology_key)
                        ==> !match_remains(
                        all[j],
                        ns,
                        placed,
                        nl,
                        labels,
                        gone,
                        labels[all[j].topology_key],
                    ),
            decreases terms@.len() - i,
        {
            let term = &terms[i];
            let counts = &self.anti_affinity_matched[i];
            proof {
                assert(all[i as int] == term@);
                assert(self.anti_affinity_matched.deep_view()[i as int] == counts@);
            }
            if let Some(own) = node_labels.get(term.topology_key.as_str()) {
                let lost: usize = count_term_victims(term, namespace, victims);
                proof {
                    assert(counts_term(counts@, term@, ns, placed, nl));
                    assert(term_matches(term@, ns, placed, nl, own@) >= 0);
                }
                if count_of(counts, own.as_str()) > lost {
                    return false;
                }
            }
            i += 1;
        }
        true
    }
}

/// A pod without terms suits every node.
pub proof fn law_no_terms_suit_every_node(
    pod: PendingPodView,
    tallied: Seq<TalliedPodLabelsView>,
    node_labels: NodeLabels,
    labels: Map<Seq<char>, Seq<char>>,
    victims: Seq<TalliedPodLabelsView>,
)
    requires
        pod.pod_affinity_terms.len() == 0,
        pod.pod_anti_affinity_terms.len() == 0,
    ensures
        suits(pod, tallied, node_labels, labels, victims),
{
}

/// A node that lacks the label of a required affinity term is shut out, while
/// one that lacks the labels of all anti-affinity terms violates none.
pub proof fn law_missing_label(
    pod: PendingPodView,
    tallied: Seq<TalliedPodLabelsView>,
    node_labels: NodeLabels,
    labels: Map<Seq<char>, Seq<char>>,
    victims: Seq<TalliedPodLabelsView>,
)
    ensures
        forall|i: int|
            0 <= i < pod.pod_affinity_terms.len() && !labels.contains_key(
                (#[trigger] pod.pod_affinity_terms[i]).topology_key,
            ) ==> !affinity_met(pod, tallied, node_labels, labels, victims),
        (forall|i: int|
            0 <= i < pod.pod_anti_affinity_terms.len() ==> !labels.contains_key(
                (#[trigger] pod.pod_anti_affinity_terms[i]).topology_key,
            )) ==> anti_affinity_met(pod, tallied, node_labels, labels, victims),
{
}

/// A term that no placed pod meets shuts out a node, unless the pod would be
/// the first that its own terms pick.
pub proof fn law_every_term_needs_its_own_match(
    pod: PendingPodView,
    tallied: Seq<TalliedPodLabelsView>,
    node_labels: NodeLabels,
    labels: Map<Seq<char>, Seq<char>>,
    i: int,
    j: int,
    value: Seq<char>,
)
    requires
        0 <= i < pod.pod_affinity_terms.len(),
        0 <= j < pod.pod_affinity_terms.len(),
        forall|v: Seq<char>| #[trigger]
            term_matches(pod.pod_affinity_terms[i], pod.namespace, tallied, node_labels, v) == 0,
        term_matches(pod.pod_affinity_terms[j], pod.namespace, tallied, node_labels, value) > 0,
    ensures
        !affinity_met(pod, tallied, node_labels, labels, Seq::empty()),
{
    let terms = pod.pod_affinity_terms;
    let none = Seq::<TalliedPodLabelsView>::empty();
    let own = labels[terms[i].topology_key];
    assert(term_matches(terms[i], pod.namespace, tallied, node_labels, own) == 0);
    assert(!match_remains(terms[i], pod.namespace, tallied, node_labels, labels, none, own));
    assert(match_remains(terms[j], pod.namespace, tallied, node_labels, labels, none, value));
    assert(!is_unmatched(terms[j], pod.namespace, tallied, node_labels, labels, none));
}

/// The first pod of a group that wants to be near its own kind may go to any
/// node that has the labels of its terms.
pub proof fn law_first_of_its_kind_is_admitted(
    pod: PendingPodView,
    tallied: Seq<TalliedPodLabelsView>,
    node_labels: NodeLabels,
    labels: Map<Seq<char>, Seq<char>>,
)
    requires
        has_domains(pod.pod_affinity_terms, labels),
        forall|i: int|
            0 <= i < pod.pod_affinity_terms.len() ==> is_unmatched(
                #[trigger] pod.pod_affinity_terms[i],
                pod.namespace,
                tallied,
                node_labels,
                labels,
                Seq::empty(),
            ) && term_picks(
                pod.pod_affinity_terms[i],
                pod.namespace,
                pod.namespace,
                pod.labels,
            ),
    ensures
        affinity_met(pod, tallied, node_labels, labels, Seq::empty()),
{
}

/// Anti-affinity is met everywhere while no pod is placed.
pub proof fn law_anti_affinity_met_while_nothing_is_placed(
    pod: PendingPodView,
    node_labels: NodeLabels,
    labels: Map<Seq<char>, Seq<char>>,
)
    ensures
        anti_affinity_met(pod, Seq::empty(), node_labels, labels, Seq::empty()),
{
}

/// A term is about the pods of the namespaces that it lists, or of the pending
/// pod's own where it lists none, whose labels its selector picks.
pub proof fn law_whom_a_term_picks(
    term: PodAffinityTermView,
    pod_namespace: Seq<char>,
    namespace: Seq<char>,
    labels: Map<Seq<char>, Seq<char>>,
)
    ensures
        term.namespaces.len() == 0 && namespace != pod_namespace ==> !term_picks(
            term,
            pod_namespace,
            namespace,
            labels,
        ),
        term.namespaces.len() > 0 && !term.namespaces.contains(namespace) ==> !term_picks(
            term,
            pod_namespace,
            namespace,
            labels,
        ),
        !selector::selector_picks(labels, term.label_selector) ==> !term_picks(
            term,
            pod_namespace,
            namespace,
            labels,
        ),
        selector::selector_picks(labels, term.label_selector) && (term.namespaces.contains(
            namespace,
        ) || (term.namespaces.len() == 0 && namespace == pod_namespace)) ==> term_picks(
            term,
            pod_namespace,
            namespace,
            labels,
        ),
{
}

/// A placed pod that a term picks matches it in the domain of the node that it
/// is on, and in no other.
pub open spec fn is_match(
    term: PodAffinityTermView,
    pod_namespace: Seq<char>,
    p: TalliedPodLabelsView,
    node_labels: NodeLabels,
    value: Seq<char>,
) -> bool {
    &&& term_picks(term, pod_namespace, p.namespace, p.labels)
    &&& term.topology_key.len() > 0
    &&& node_labels.contains_key(p.node_name)
    &&& node_labels[p.node_name].contains_key(term.topology_key)
    &&& node_labels[p.node_name][term.topology_key] == value
}

proof fn lemma_some_match(
    term: PodAffinityTermView,
    pod_namespace: Seq<char>,
    tallied: Seq<TalliedPodLabelsView>,
    node_labels: NodeLabels,
    value: Seq<char>,
)
    ensures
        term_matches(term, pod_namespace, tallied, node_labels, value) > 0 <==> exists|k: int|
            0 <= k < tallied.len() && is_match(
                term,
                pod_namespace,
                #[trigger] tallied[k],
                node_labels,
                value,
            ),
    decreases tallied.len(),
{
    if tallied.len() > 0 {
        let front = tallied.drop_last();
        lemma_some_match(term, pod_namespace, front, node_labels, value);
        if exists|k: int|
            0 <= k < front.len() && is_match(
                term,
                pod_namespace,
                #[trigger] front[k],
                node_labels,
                value,
            ) {
            let k = choose|k: int|
                0 <= k < front.len() && is_match(
                    term,
                    pod_namespace,
                    #[trigger] front[k],
                    node_labels,
                    value,
                );
            assert(is_match(term, pod_namespace, tallied[k], node_labels, value));
        }
        if is_match(term, pod_namespace, tallied.last(), node_labels, value) {
            assert(is_match(
                term,
                pod_namespace,
                tallied[tallied.len() - 1],
                node_labels,
                value,
            ));
        }
        if exists|k: int|
            0 <= k < tallied.len() && is_match(
                term,
                pod_namespace,
                #[trigger] tallied[k],
                node_labels,
                value,
            ) {
            let k = choose|k: int|
                0 <= k < tallied.len() && is_match(
                    term,
                    pod_namespace,
                    #[trigger] tallied[k],
                    node_labels,
                    value,
                );
            if k < front.len() {
                assert(is_match(term, pod_namespace, front[k], node_labels, value));
            }
        }
    }
}

/// A node is shut out by a placed pod in its domain that one of the pod's
/// anti-affinity terms picks.
pub proof fn law_anti_affinity_keeps_apart(
    pod: PendingPodView,
    tallied: Seq<TalliedPodLabelsView>,
    node_labels: NodeLabels,
    labels: Map<Seq<char>, Seq<char>>,
    i: int,
    k: int,
)
    requires
        0 <= i < pod.pod_anti_affinity_terms.len(),
        0 <= k < tallied.len(),
        pod.pod_anti_affinity_terms[i].topology_key.len() > 0,
        term_picks(
            pod.pod_anti_affinity_terms[i],
            pod.namespace,
            tallied[k].namespace,
            tallied[k].labels,
        ),
        labels.contains_key(pod.pod_anti_affinity_terms[i].topology_key),
        node_labels.contains_key(tallied[k].node_name),
        node_labels[tallied[k].node_name].contains_key(
            pod.pod_anti_affinity_terms[i].topology_key,
        ),
        node_labels[tallied[k].node_name][pod.pod_anti_affinity_terms[i].topology_key]
            == labels[pod.pod_anti_affinity_terms[i].topology_key],
    ensures
        !anti_affinity_met(pod, tallied, node_labels, labels, Seq::empty()),
        !suits(pod, tallied, node_labels, labels, Seq::empty()),
{
    let term = pod.pod_anti_affinity_terms[i];
    let value = labels[term.topology_key];
    assert(is_match(term, pod.namespace, tallied[k], node_labels, value));
    lemma_some_match(term, pod.namespace, tallied, node_labels, value);
    assert(term_victims(term, pod.namespace, Seq::empty()) == 0);
    assert(match_remains(
        pod.pod_anti_affinity_terms[i],
        pod.namespace,
        tallied,
        node_labels,
        labels,
        Seq::empty(),
        value,
    ));
}

/// Anti-affinity shuts out a node for no other reason: where no placed pod
/// that a term picks shares the term's domain with the node, it is met.
pub proof fn law_anti_affinity_lets_in(
    pod: PendingPodView,
    tallied: Seq<TalliedPodLabelsView>,
    node_labels: NodeLabels,
    labels: Map<Seq<char>, Seq<char>>,
)
    requires
        forall|i: int, k: int|
            #![trigger pod.pod_anti_affinity_terms[i], tallied[k]]
            0 <= i < pod.pod_anti_affinity_terms.len() && 0 <= k < tallied.len() ==> {
                let term = pod.pod_anti_affinity_terms[i];
                ||| !labels.contains_key(term.topology_key)
                ||| !term_picks(term, pod.namespace, tallied[k].namespace, tallied[k].labels)
                ||| !node_labels.contains_key(tallied[k].node_name)
                ||| !node_labels[tallied[k].node_name].contains_key(term.topology_key)
                ||| node_labels[tallied[k].node_name][term.topology_key]
                    != labels[term.topology_key]
            },
    ensures
        anti_affinity_met(pod, tallied, node_labels, labels, Seq::empty()),
{
    assert forall|i: int|
        0 <= i < pod.pod_anti_affinity_terms.len() && labels.contains_key(
            (#[trigger] pod.pod_anti_affinity_terms[i]).topology_key,
        ) implies !match_remains(
        pod.pod_anti_affinity_terms[i],
        pod.namespace,
        tallied,
        node_labels,
        labels,
        Seq::empty(),
        labels[pod.pod_anti_affinity_terms[i].topology_key],
    ) by {
        let term = pod.pod_anti_affinity_terms[i];
        lemma_some_match(
            term,
            pod.namespace,
            tallied,
            node_labels,
            labels[term.topology_key],
        );
    }
}

/// Affinity is met on a node where each term has a placed pod that it picks in
/// the node's own domain.
pub proof fn law_affinity_draws_near(
    pod: PendingPodView,
    tallied: Seq<TalliedPodLabelsView>,
    node_labels: NodeLabels,
    labels: Map<Seq<char>, Seq<char>>,
)
    requires
        forall|i: int|
            0 <= i < pod.pod_affinity_terms.len() ==> labels.contains_key(
                (#[trigger] pod.pod_affinity_terms[i]).topology_key,
            ) && pod.pod_affinity_terms[i].topology_key.len() > 0 && exists|k: int|
                0 <= k < tallied.len() && term_picks(
                    pod.pod_affinity_terms[i],
                    pod.namespace,
                    (#[trigger] tallied[k]).namespace,
                    tallied[k].labels,
                ) && node_labels.contains_key(tallied[k].node_name)
                    && node_labels[tallied[k].node_name].contains_key(
                    pod.pod_affinity_terms[i].topology_key,
                ) && node_labels[tallied[k].node_name][pod.pod_affinity_terms[i].topology_key]
                    == labels[pod.pod_affinity_terms[i].topology_key],
    ensures
        affinity_met(pod, tallied, node_labels, labels, Seq::empty()),
{
    assert forall|i: int| 0 <= i < pod.pod_affinity_terms.len() implies match_remains(
        #[trigger] pod.pod_affinity_terms[i],
        pod.namespace,
        tallied,
        node_labels,
        labels,
        Seq::empty(),
        labels[pod.pod_affinity_terms[i].topology_key],
    ) by {
        let term = pod.pod_affinity_terms[i];
        let value = labels[term.topology_key];
        let k = choose|k: int|
            0 <= k < tallied.len() && term_picks(
                pod.pod_affinity_terms[i],
                pod.namespace,
                (#[trigger] tallied[k]).namespace,
                tallied[k].labels,
            ) && node_labels.contains_key(tallied[k].node_name)
                && node_labels[tallied[k].node_name].contains_key(
                pod.pod_affinity_terms[i].topology_key,
            ) && node_labels[tallied[k].node_name][pod.pod_affinity_terms[i].topology_key]
                == labels[pod.pod_affinity_terms[i].topology_key];
        assert(is_match(term, pod.namespace, tallied[k], node_labels, value));
        lemma_some_match(term, pod.namespace, tallied, node_labels, value);
        assert(term_victims(term, pod.namespace, Seq::empty()) == 0);
    }
}

/// Affinity is not met where a term has no placed pod that it picks in the
/// node's own domain, unless no term has one anywhere and the pod is one that
/// its own terms pick.
pub proof fn law_affinity_without_a_match_shuts_out(
    pod: PendingPodView,
    tallied: Seq<TalliedPodLabelsView>,
    node_labels: NodeLabels,
    labels: Map<Seq<char>, Seq<char>>,
    i: int,
    j: int,
)
    requires
        0 <= i < pod.pod_affinity_terms.len(),
        labels.contains_key(pod.pod_affinity_terms[i].topology_key),
        forall|k: int|
            0 <= k < tallied.len() ==> {
                let term = pod.pod_affinity_terms[i];
                ||| !term_picks(
                    term,
                    pod.namespace,
                    (#[trigger] tallied[k]).namespace,
                    tallied[k].labels,
                )
                ||| !node_labels.contains_key(tallied[k].node_name)
                ||| !node_labels[tallied[k].node_name].contains_key(term.topology_key)
                ||| node_labels[tallied[k].node_name][term.topology_key]
                    != labels[term.topology_key]
            },
        0 <= j < pod.pod_affinity_terms.len(),
        !term_picks(pod.pod_affinity_terms[j], pod.namespace, pod.namespace, pod.labels) || exists|
            k: int,
        |
            0 <= k < tallied.len() && term_picks(
                pod.pod_affinity_terms[j],
                pod.namespace,
                (#[trigger] tallied[k]).namespace,
                tallied[k].labels,
            ) && pod.pod_affinity_terms[j].topology_key.len() > 0 && node_labels.contains_key(
                tallied[k].node_name,
            ) && node_labels[tallied[k].node_name].contains_key(
                pod.pod_affinity_terms[j].topology_key,
            ),
    ensures
        !affinity_met(pod, tallied, node_labels, labels, Seq::empty()),
        !suits(pod, tallied, node_labels, labels, Seq::empty()),
{
    let term = pod.pod_affinity_terms[i];
    let value = labels[term.topology_key];
    lemma_some_match(term, pod.namespace, tallied, node_labels, value);
    assert(!match_remains(
        pod.pod_affinity_terms[i],
        pod.namespace,
        tallied,
        node_labels,
        labels,
        Seq::empty(),
        value,
    ));
    let own = pod.pod_affinity_terms[j];
    if term_picks(own, pod.namespace, pod.namespace, pod.labels) {
        let k = choose|k: int|
            0 <= k < tallied.len() && term_picks(
                pod.pod_affinity_terms[j],
                pod.namespace,
                (#[trigger] tallied[k]).namespace,
                tallied[k].labels,
            ) && pod.pod_affinity_terms[j].topology_key.len() > 0 && node_labels.contains_key(
                tallied[k].node_name,
            ) && node_labels[tallied[k].node_name].contains_key(
                pod.pod_affinity_terms[j].topology_key,
            );
        let v = node_labels[tallied[k].node_name][own.topology_key];
        assert(is_match(own, pod.namespace, tallied[k], node_labels, v));
        lemma_some_match(own, pod.namespace, tallied, node_labels, v);
        assert(term_victims(own, pod.namespace, Seq::empty()) == 0);
        assert(match_remains(
            own,
            pod.namespace,
            tallied,
            node_labels,
            labels,
            Seq::empty(),
            v,
        ));
        assert(!is_unmatched(
            pod.pod_affinity_terms[j],
            pod.namespace,
            tallied,
            node_labels,
            labels,
            Seq::empty(),
        ));
    }
}

/// Where no placed pod on a node with the label of a term is one that the term
/// picks, for any term, a pod that its own terms pick may go to any node with
/// the labels of the terms.
pub proof fn law_first_of_a_group_goes_anywhere(
    pod: PendingPodView,
    tallied: Seq<TalliedPodLabelsView>,
    node_labels: NodeLabels,
    labels: Map<Seq<char>, Seq<char>>,
)
    requires
        forall|i: int|
            0 <= i < pod.pod_affinity_terms.len() ==> labels.contains_key(
                (#[trigger] pod.pod_affinity_terms[i]).topology_key,
            ) && term_picks(
                pod.pod_affinity_terms[i],
                pod.namespace,
                pod.namespace,
                pod.labels,
            ),
        forall|i: int, k: int|
            #![trigger pod.pod_affinity_terms[i], tallied[k]]
            0 <= i < pod.pod_affinity_terms.len() && 0 <= k < tallied.len() ==> {
                let term = pod.pod_affinity_terms[i];
                ||| !term_picks(term, pod.namespace, tallied[k].namespace, tallied[k].labels)
                ||| !node_labels.contains_key(tallied[k].node_name)
                ||| !node_labels[tallied[k].node_name].contains_key(term.topology_key)
            },
    ensures
        affinity_met(pod, tallied, node_labels, labels, Seq::empty()),
{
    assert forall|i: int| 0 <= i < pod.pod_affinity_terms.len() implies is_unmatched(
        #[trigger] pod.pod_affinity_terms[i],
        pod.namespace,
        tallied,
        node_labels,
        labels,
        Seq::empty(),
    ) by {
        let term = pod.pod_affinity_terms[i];
        assert forall|v: Seq<char>| !#[trigger] match_remains(
            term,
            pod.namespace,
            tallied,
            node_labels,
            labels,
            Seq::empty(),
            v,
        ) by {
            lemma_some_match(term, pod.namespace, tallied, node_labels, v);
        }
    }
}

/// A pod suits a node exactly where both its affinity and its anti-affinity
/// are met, and a pod with either kind alone is judged by that kind.
pub proof fn law_both_kinds_have_to_be_met(
    pod: PendingPodView,
    tallied: Seq<TalliedPodLabelsView>,
    node_labels: NodeLabels,
    labels: Map<Seq<char>, Seq<char>>,
    victims: Seq<TalliedPodLabelsView>,
)
    ensures
        suits(pod, tallied, node_labels, labels, victims) <==> affinity_met(
            pod,
            tallied,
            node_labels,
            labels,
            victims,
        ) && anti_affinity_met(pod, tallied, node_labels, labels, victims),
        pod.pod_affinity_terms.len() == 0 ==> affinity_met(
            pod,
            tallied,
            node_labels,
            labels,
            victims,
        ),
        pod.pod_anti_affinity_terms.len() == 0 ==> anti_affinity_met(
            pod,
            tallied,
            node_labels,
            labels,
            victims,
        ),
{
}

} // verus!
