//! How the pods and nodes of the tally are listed.

use crate::index;
use crate::node::{NodePodView, TalliedPodLabelsView};
use crate::order;
use crate::placement;
use crate::select;
use crate::tally::NodeTallyView;
use crate::victims;
use vstd::prelude::*;

verus! {

/// Those of `keys` for which `p` holds, in their order.
pub open spec fn listed(keys: Seq<Seq<char>>, p: spec_fn(Seq<char>) -> bool) -> Seq<Seq<char>>
    decreases keys.len(),
{
    if keys.len() == 0 {
        Seq::empty()
    } else if p(keys.last()) {
        listed(keys.drop_last(), p).push(keys.last())
    } else {
        listed(keys.drop_last(), p)
    }
}

/// The pods `keys` of the tally.
pub open spec fn as_pods(t: NodeTallyView, keys: Seq<Seq<char>>) -> Seq<NodePodView> {
    keys.map_values(|k: Seq<char>| t.node_pod(k))
}

/// One more key in a listing.
pub proof fn lemma_push_key(keys: Seq<Seq<char>>, key: Seq<char>, k: Seq<char>)
    ensures
        keys.push(key).contains(k) == (keys.contains(k) || k == key),
{
    let all = keys.push(key);
    if keys.contains(k) {
        let i = choose|i: int| 0 <= i < keys.len() && keys[i] == k;
        assert(all[i] == k);
    }
    if k == key {
        assert(all[keys.len() as int] == k);
    }
    if all.contains(k) {
        let i = choose|i: int| 0 <= i < all.len() && all[i] == k;
        if i < keys.len() {
            assert(keys[i] == k);
        }
    }
}

/// One more pod in a listing.
pub proof fn lemma_as_pods_push(t: NodeTallyView, keys: Seq<Seq<char>>, key: Seq<char>)
    ensures
        as_pods(t, keys.push(key)) == as_pods(t, keys).push(t.node_pod(key)),
{
    assert(as_pods(t, keys.push(key)) =~= as_pods(t, keys).push(t.node_pod(key)));
}

/// The pods that no plan has picked are those of the keys that are not picked.
pub proof fn lemma_unclaimed(t: NodeTallyView, keys: Seq<Seq<char>>)
    ensures
        t.unclaimed(keys) == as_pods(
            t,
            listed(keys, |k: Seq<char>| !t.reserved_victims.contains(k)),
        ),
    decreases keys.len(),
{
    let p = |k: Seq<char>| !t.reserved_victims.contains(k);
    if keys.len() > 0 {
        lemma_unclaimed(t, keys.drop_last());
        lemma_as_pods_push(t, listed(keys.drop_last(), p), keys.last());
    } else {
        assert(t.unclaimed(keys) =~= as_pods(t, listed(keys, p)));
    }
}

/// A part of an increasing listing is one too.
pub proof fn lemma_listed(keys: Seq<Seq<char>>, p: spec_fn(Seq<char>) -> bool)
    requires
        order::is_sorted(keys),
    ensures
        order::is_sorted(listed(keys, p)),
        forall|k: Seq<char>| #[trigger]
            listed(keys, p).contains(k) == (keys.contains(k) && p(k)),
    decreases keys.len(),
{
    if keys.len() > 0 {
        let front = keys.drop_last();
        let last = keys.last();
        assert(order::is_sorted(front)) by {
            assert forall|i: int, j: int| 0 <= i < j < front.len() implies order::text_precedes(
                front[i],
                front[j],
            ) by {
                assert(front[i] == keys[i] && front[j] == keys[j]);
            }
        }
        lemma_listed(front, p);
        let part = listed(front, p);
        let all = listed(keys, p);
        assert forall|k: Seq<char>| #[trigger] all.contains(k) == (keys.contains(k) && p(k)) by {
            lemma_push_key(front, last, k);
            assert(front.push(last) =~= keys);
            lemma_push_key(part, last, k);
            assert(part.contains(k) == (front.contains(k) && p(k)));
        }
        assert forall|i: int, j: int| 0 <= i < j < all.len() implies order::text_precedes(
            all[i],
            all[j],
        ) by {
            assert(all[i] == part[i]);
            if j < part.len() {
                assert(all[j] == part[j]);
            } else {
                assert(part.contains(part[i]));
                let k = choose|k: int| 0 <= k < front.len() && front[k] == part[i];
                assert(order::text_precedes(keys[k], keys[keys.len() - 1]));
            }
        }
    }
}

/// The pods of a node in increasing order.
pub proof fn lemma_keys_on(t: NodeTallyView, node: Seq<char>)
    requires
        t.pods.dom().finite(),
    ensures
        order::is_sorted(t.keys_on(node)),
        forall|k: Seq<char>| #[trigger]
            t.keys_on(node).contains(k) == index::on_node(t.pods, node).contains(k),
{
    let on = index::on_node(t.pods, node);
    assert(on.subset_of(t.pods.dom()));
    vstd::set_lib::lemma_len_subset(on, t.pods.dom());
    order::lemma_sorted_keys_of_set(on);
    assert forall|k: Seq<char>| #[trigger] t.keys_on(node).contains(k) == on.contains(k) by {
        assert(t.keys_on(node).to_set().contains(k) == t.keys_on(node).contains(k));
    }
}

/// Pods of a node that plans can still pick have keys of their own, and are
/// in the tally.
pub proof fn lemma_node_pods(t: NodeTallyView, node: Seq<char>)
    requires
        t.pods.dom().finite(),
    ensures
        victims::distinct_keys(t.node_pods(node)),
        forall|i: int|
            0 <= i < t.node_pods(node).len() ==> t.pods.contains_key(
                (#[trigger] t.node_pods(node)[i]).key,
            ) && t.pods[t.node_pods(node)[i].key].node_name == node,
{
    let p = |k: Seq<char>| !t.reserved_victims.contains(k);
    let keys = t.keys_on(node);
    lemma_keys_on(t, node);
    lemma_unclaimed(t, keys);
    lemma_listed(keys, p);
    let free = listed(keys, p);
    order::lemma_sorted_keys(free);
    let pods = t.node_pods(node);
    assert forall|i: int, j: int|
        #![trigger pods[i], pods[j]]
        0 <= i < j < pods.len() implies pods[i].key != pods[j].key by {
        assert(pods[i].key == free[i] && pods[j].key == free[j]);
    }
    assert forall|i: int| 0 <= i < pods.len() implies t.pods.contains_key((#[trigger] pods[i]).key)
        && t.pods[pods[i].key].node_name == node by {
        assert(pods[i].key == free[i]);
        assert(free.contains(free[i]));
        assert(keys.contains(free[i]));
    }
}

/// Those of `labels` that are on `node`, in their order.
pub open spec fn labels_on(
    labels: Seq<TalliedPodLabelsView>,
    node: Seq<char>,
) -> Seq<TalliedPodLabelsView>
    decreases labels.len(),
{
    if labels.len() == 0 {
        Seq::empty()
    } else if labels.last().node_name == node {
        labels_on(labels.drop_last(), node).push(labels.last())
    } else {
        labels_on(labels.drop_last(), node)
    }
}

/// The keys of `labels`.
pub open spec fn keys_of(labels: Seq<TalliedPodLabelsView>) -> Seq<Seq<char>> {
    labels.map_values(|l: TalliedPodLabelsView| l.key)
}

spec fn label_of(t: NodeTallyView, k: Seq<char>) -> TalliedPodLabelsView {
    TalliedPodLabelsView {
        key: k,
        node_name: t.pods[k].node_name,
        namespace: t.pods[k].namespace,
        labels: t.pods[k].labels,
    }
}

spec fn as_labels(t: NodeTallyView, keys: Seq<Seq<char>>) -> Seq<TalliedPodLabelsView> {
    keys.map_values(|k: Seq<char>| label_of(t, k))
}

proof fn lemma_labels_on(t: NodeTallyView, keys: Seq<Seq<char>>, node: Seq<char>)
    ensures
        keys_of(labels_on(as_labels(t, keys), node)) == listed(
            keys,
            |k: Seq<char>| t.pods[k].node_name == node,
        ),
    decreases keys.len(),
{
    let p = |k: Seq<char>| t.pods[k].node_name == node;
    let all = as_labels(t, keys);
    if keys.len() > 0 {
        let front = keys.drop_last();
        lemma_labels_on(t, front, node);
        assert(all.drop_last() =~= as_labels(t, front));
        assert(all.last() == label_of(t, keys.last()));
        let before = labels_on(as_labels(t, front), node);
        assert(keys_of(before.push(all.last())) =~= keys_of(before).push(keys.last()));
    } else {
        assert(keys_of(labels_on(all, node)) =~= listed(keys, p));
    }
}

proof fn lemma_all_keys(t: NodeTallyView)
    requires
        t.pods.dom().finite(),
    ensures
        t.labels() == as_labels(t, order::sorted_keys(t.pods.dom())),
        order::is_sorted(order::sorted_keys(t.pods.dom())),
        forall|k: Seq<char>| #[trigger]
            order::sorted_keys(t.pods.dom()).contains(k) == t.pods.contains_key(k),
{
    let keys = order::sorted_keys(t.pods.dom());
    order::lemma_sorted_keys_of_set(t.pods.dom());
    assert(t.labels() =~= as_labels(t, keys));
    assert forall|k: Seq<char>| #[trigger] keys.contains(k) == t.pods.contains_key(k) by {
        assert(keys.to_set().contains(k) == keys.contains(k));
    }
}

proof fn lemma_listing_of_node(t: NodeTallyView, node: Seq<char>)
    requires
        t.pods.dom().finite(),
    ensures
        keys_of(labels_on(t.labels(), node)) == t.keys_on(node),
{
    let keys = order::sorted_keys(t.pods.dom());
    let p = |k: Seq<char>| t.pods[k].node_name == node;
    lemma_all_keys(t);
    lemma_labels_on(t, keys, node);
    lemma_listed(keys, p);
    lemma_keys_on(t, node);
    let a = listed(keys, p);
    let b = t.keys_on(node);
    assert forall|k: Seq<char>| a.to_set().contains(k) == b.to_set().contains(k) by {
        assert(a.to_set().contains(k) == a.contains(k));
        assert(b.to_set().contains(k) == b.contains(k));
    }
    assert(a.to_set() =~= b.to_set());
    order::lemma_sorted_unique(a, b);
}

/// What is counted on a node is what is listed there: the nodes that have usage
/// are those of the listed pods, and a node counts as many pods as are listed
/// on it, below the limit of the count.
pub proof fn law_usage_counts_the_listed_pods(t: NodeTallyView, node: Seq<char>)
    requires
        t.is_valid(),
    ensures
        keys_of(labels_on(t.labels(), node)) == t.keys_on(node),
        t.usage().contains_key(node) == (labels_on(t.labels(), node).len() > 0),
        t.usage_on(node).pod_count == if labels_on(t.labels(), node).len() < u32::MAX {
            labels_on(t.labels(), node).len() as int
        } else {
            u32::MAX as int
        },
{
    lemma_listing_of_node(t, node);
    placement::lemma_pod_count(t, t.keys_on(node));
    lemma_keys_on(t, node);
    let keys = t.keys_on(node);
    let on = index::on_node(t.pods, node);
    assert(keys.len() == labels_on(t.labels(), node).len());
    if keys.len() > 0 {
        assert(keys.contains(keys[0]));
        assert(on.contains(keys[0]));
    }
    if t.usage().contains_key(node) {
        let k = choose|k: Seq<char>| on.contains(k);
        assert(keys.contains(k));
    }
}

/// The pods of a node that may have to make room are exactly those listed there
/// that no plan has picked, each once, and their claims are those of their own
/// namespace.
pub proof fn law_candidates_are_the_listed_pods(t: NodeTallyView, node: Seq<char>)
    requires
        t.is_valid(),
    ensures
        victims::keys_of(t.node_pods(node)) == listed(
            keys_of(labels_on(t.labels(), node)),
            |k: Seq<char>| !t.reserved_victims.contains(k),
        ),
        victims::distinct_keys(t.node_pods(node)),
        forall|i: int|
            0 <= i < t.node_pods(node).len() ==> {
                let p = #[trigger] t.node_pods(node)[i];
                &&& t.pods.contains_key(p.key)
                &&& t.pods[p.key].node_name == node
                &&& p.pvc_names == select::qualified_claims(
                    t.pods[p.key].namespace,
                    t.pods[p.key].bare_pvc_names,
                )
            },
{
    let p = |k: Seq<char>| !t.reserved_victims.contains(k);
    lemma_listing_of_node(t, node);
    lemma_unclaimed(t, t.keys_on(node));
    lemma_node_pods(t, node);
    let pods = t.node_pods(node);
    assert(victims::keys_of(pods) =~= listed(t.keys_on(node), p));
    assert forall|i: int| 0 <= i < pods.len() implies (#[trigger] pods[i]).pvc_names
        == select::qualified_claims(
        t.pods[pods[i].key].namespace,
        t.pods[pods[i].key].bare_pvc_names,
    ) by {
        assert(t.pods.contains_key(pods[i].key));
        assert(pods[i] == t.node_pod(pods[i].key));
    }
}

/// The listed nodes are the known ones: in increasing order of their names,
/// each under its own name, and none left out.
pub proof fn law_listed_nodes_are_the_known_ones(t: NodeTallyView, name: Seq<char>)
    requires
        t.is_valid(),
    ensures
        forall|a: int, b: int|
            #![trigger t.node_items()[a], t.node_items()[b]]
            0 <= a < b < t.node_items().len() ==> order::text_precedes(
                t.node_items()[a].metadata.name,
                t.node_items()[b].metadata.name,
            ),
        forall|a: int|
            0 <= a < t.node_items().len() ==> t.nodes.contains_key(
                (#[trigger] t.node_items()[a]).metadata.name,
            ) && t.nodes[t.node_items()[a].metadata.name] == t.node_items()[a],
        t.nodes.contains_key(name) ==> t.node_items().contains(t.nodes[name]),
{
    let names = order::sorted_keys(t.nodes.dom());
    let items = t.node_items();
    order::lemma_sorted_keys_of_set(t.nodes.dom());
    assert forall|a: int| 0 <= a < items.len() implies t.nodes.contains_key(
        (#[trigger] items[a]).metadata.name,
    ) && t.nodes[items[a].metadata.name] == items[a] && items[a].metadata.name == names[a] by {
        assert(names.to_set().contains(names[a]));
        assert(t.nodes.contains_key(names[a]));
    }
    assert forall|a: int, b: int|
        #![trigger items[a], items[b]]
        0 <= a < b < items.len() implies order::text_precedes(
        items[a].metadata.name,
        items[b].metadata.name,
    ) by {
        assert(order::text_precedes(names[a], names[b]));
    }
    if t.nodes.contains_key(name) {
        assert(names.to_set().contains(name));
        let a = choose|a: int| 0 <= a < names.len() && names[a] == name;
        assert(items[a] == t.nodes[name]);
    }
}

} // verus!
