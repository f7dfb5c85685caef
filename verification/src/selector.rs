//! Selecting nodes and pods by their labels.

use crate::duplicate::Duplicate;
use crate::order::same_text;
use crate::string_map::StringMap;
use vstd::prelude::*;

verus! {

/// One requirement on the value of `key`: `key <operator> values`.
#[derive(Debug)]
pub struct NodeSelectorRequirement {
    pub key: String,
    /// `In`, `NotIn`, `Exists` or `DoesNotExist`; no other operator ever matches.
    pub operator: String,
    pub values: Vec<String>,
}

/// Model of [`NodeSelectorRequirement`].
#[verifier::ext_equal]
pub struct NodeSelectorRequirementView {
    pub key: Seq<char>,
    pub operator: Seq<char>,
    pub values: Seq<Seq<char>>,
}

impl View for NodeSelectorRequirement {
    type V = NodeSelectorRequirementView;

    open spec fn view(&self) -> NodeSelectorRequirementView {
        NodeSelectorRequirementView {
            key: self.key@,
            operator: self.operator@,
            values: self.values.deep_view(),
        }
    }
}

impl DeepView for NodeSelectorRequirement {
    type V = NodeSelectorRequirementView;

    open spec fn deep_view(&self) -> NodeSelectorRequirementView {
        self@
    }
}

impl Duplicate for NodeSelectorRequirement {
    fn duplicate(&self) -> (copy: Self) {
        NodeSelectorRequirement {
            key: self.key.duplicate(),
            operator: self.operator.duplicate(),
            values: self.values.duplicate(),
        }
    }
}

impl Clone for NodeSelectorRequirement {
    fn clone(&self) -> (copy: Self)
        ensures
            copy@ == self@,
    {
        self.duplicate()
    }
}

/// One term of a node selector: all its requirements must hold.
#[derive(Debug, Default)]
pub struct NodeSelectorTerm {
    /// Requirements on the node's labels.
    pub match_expressions: Vec<NodeSelectorRequirement>,
    /// Requirements on the node's fields; `metadata.name` is the one field there is.
    pub match_fields: Vec<NodeSelectorRequirement>,
}

/// Model of [`NodeSelectorTerm`].
#[verifier::ext_equal]
pub struct NodeSelectorTermView {
    pub match_expressions: Seq<NodeSelectorRequirementView>,
    pub match_fields: Seq<NodeSelectorRequirementView>,
}

impl View for NodeSelectorTerm {
    type V = NodeSelectorTermView;

    open spec fn view(&self) -> NodeSelectorTermView {
        NodeSelectorTermView {
            match_expressions: self.match_expressions.deep_view(),
            match_fields: self.match_fields.deep_view(),
        }
    }
}

impl DeepView for NodeSelectorTerm {
    type V = NodeSelectorTermView;

    open spec fn deep_view(&self) -> NodeSelectorTermView {
        self@
    }
}

impl Duplicate for NodeSelectorTerm {
    fn duplicate(&self) -> (copy: Self) {
        NodeSelectorTerm {
            match_expressions: self.match_expressions.duplicate(),
            match_fields: self.match_fields.duplicate(),
        }
    }
}

impl Clone for NodeSelectorTerm {
    fn clone(&self) -> (copy: Self)
        ensures
            copy@ == self@,
    {
        self.duplicate()
    }
}

/// A list of terms of which one must match.
#[derive(Debug, Default)]
pub struct NodeSelectorSpec {
    pub node_selector_terms: Vec<NodeSelectorTerm>,
}

/// Model of [`NodeSelectorSpec`].
#[verifier::ext_equal]
pub struct NodeSelectorSpecView {
    pub node_selector_terms: Seq<NodeSelectorTermView>,
}

impl View for NodeSelectorSpec {
    type V = NodeSelectorSpecView;

    open spec fn view(&self) -> NodeSelectorSpecView {
        NodeSelectorSpecView {
            node_selector_terms: self.node_selector_terms.deep_view(),
        }
    }
}

impl DeepView for NodeSelectorSpec {
    type V = NodeSelectorSpecView;

    open spec fn deep_view(&self) -> NodeSelectorSpecView {
        self@
    }
}

impl Duplicate for NodeSelectorSpec {
    fn duplicate(&self) -> (copy: Self) {
        NodeSelectorSpec {
            node_selector_terms: self.node_selector_terms.duplicate(),
        }
    }
}

impl Clone for NodeSelectorSpec {
    fn clone(&self) -> (copy: Self)
        ensures
            copy@ == self@,
    {
        self.duplicate()
    }
}

/// A pod's `nodeAffinity`. Preferred terms only weigh in scoring and are not kept.
#[derive(Debug, Default)]
pub struct NodeAffinity {
    pub required_during_scheduling_ignored_during_execution: Option<NodeSelectorSpec>,
}

/// Model of [`NodeAffinity`].
#[verifier::ext_equal]
pub struct NodeAffinityView {
    pub required_during_scheduling_ignored_during_execution: Option<NodeSelectorSpecView>,
}

impl View for NodeAffinity {
    type V = NodeAffinityView;

    open spec fn view(&self) -> NodeAffinityView {
        NodeAffinityView {
            required_during_scheduling_ignored_during_execution: self.required_during_scheduling_ignored_during_execution.deep_view(),
        }
    }
}

impl DeepView for NodeAffinity {
    type V = NodeAffinityView;

    open spec fn deep_view(&self) -> NodeAffinityView {
        self@
    }
}

impl Duplicate for NodeAffinity {
    fn duplicate(&self) -> (copy: Self) {
        NodeAffinity {
            required_during_scheduling_ignored_during_execution: self.required_during_scheduling_ignored_during_execution.duplicate(),
        }
    }
}

impl Clone for NodeAffinity {
    fn clone(&self) -> (copy: Self)
        ensures
            copy@ == self@,
    {
        self.duplicate()
    }
}

/// A selector of pods: `match_labels` and `match_expressions` must both hold.
#[derive(Debug, Default)]
pub struct LabelSelectorSpec {
    pub match_labels: StringMap<String>,
    pub match_expressions: Vec<NodeSelectorRequirement>,
}

/// Model of [`LabelSelectorSpec`].
#[verifier::ext_equal]
pub struct LabelSelectorSpecView {
    pub match_labels: Map<Seq<char>, Seq<char>>,
    pub match_expressions: Seq<NodeSelectorRequirementView>,
}

impl View for LabelSelectorSpec {
    type V = LabelSelectorSpecView;

    open spec fn view(&self) -> LabelSelectorSpecView {
        LabelSelectorSpecView {
            match_labels: self.match_labels@,
            match_expressions: self.match_expressions.deep_view(),
        }
    }
}

impl DeepView for LabelSelectorSpec {
    type V = LabelSelectorSpecView;

    open spec fn deep_view(&self) -> LabelSelectorSpecView {
        self@
    }
}

impl Duplicate for LabelSelectorSpec {
    fn duplicate(&self) -> (copy: Self) {
        LabelSelectorSpec {
            match_labels: self.match_labels.duplicate(),
            match_expressions: self.match_expressions.duplicate(),
        }
    }
}

impl Clone for LabelSelectorSpec {
    fn clone(&self) -> (copy: Self)
        ensures
            copy@ == self@,
    {
        self.duplicate()
    }
}

/// `labels` give every key of `selector` the value that `selector` gives it.
pub open spec fn labels_include(
    labels: Map<Seq<char>, Seq<char>>,
    selector: Map<Seq<char>, Seq<char>>,
) -> bool {
    forall|k: Seq<char>| #[trigger]
        selector.contains_key(k) ==> labels.contains_key(k) && labels[k] == selector[k]
}

/// The value that `labels` give `req.key` is one of `req.values`.
pub open spec fn value_listed(
    labels: Map<Seq<char>, Seq<char>>,
    req: NodeSelectorRequirementView,
) -> bool {
    labels.contains_key(req.key) && req.values.contains(labels[req.key])
}

/// `labels` meet the requirement `req`.
pub open spec fn requirement_met(
    labels: Map<Seq<char>, Seq<char>>,
    req: NodeSelectorRequirementView,
) -> bool {
    if req.operator == "In"@ {
        value_listed(labels, req)
    } else if req.operator == "NotIn"@ {
        !value_listed(labels, req)
    } else if req.operator == "Exists"@ {
        labels.contains_key(req.key)
    } else if req.operator == "DoesNotExist"@ {
        !labels.contains_key(req.key)
    } else {
        false
    }
}

/// `labels` meet every one of `reqs`.
pub open spec fn requirements_met(
    labels: Map<Seq<char>, Seq<char>>,
    reqs: Seq<NodeSelectorRequirementView>,
) -> bool {
    forall|i: int| 0 <= i < reqs.len() ==> requirement_met(labels, #[trigger] reqs[i])
}

/// The fields of a node that a term's `match_fields` can speak of.
pub open spec fn node_fields(node_name: Seq<char>) -> Map<Seq<char>, Seq<char>> {
    Map::<Seq<char>, Seq<char>>::empty().insert("metadata.name"@, node_name)
}

/// The node named `node_name` with `labels` meets `term`.
pub open spec fn term_met(
    labels: Map<Seq<char>, Seq<char>>,
    node_name: Seq<char>,
    term: NodeSelectorTermView,
) -> bool {
    requirements_met(labels, term.match_expressions) && requirements_met(
        node_fields(node_name),
        term.match_fields,
    )
}

/// The node meets one of the selector's terms. No selector, and a selector
/// without terms, admit every node.
pub open spec fn selector_admits(
    labels: Map<Seq<char>, Seq<char>>,
    node_name: Seq<char>,
    selector: Option<NodeSelectorSpecView>,
) -> bool {
    match selector {
        None => true,
        Some(s) => s.node_selector_terms.len() == 0 || exists|i: int|
            0 <= i < s.node_selector_terms.len() && term_met(
                labels,
                node_name,
                #[trigger] s.node_selector_terms[i],
            ),
    }
}

/// The node meets the required part of `affinity`.
pub open spec fn affinity_admits(
    labels: Map<Seq<char>, Seq<char>>,
    node_name: Seq<char>,
    affinity: Option<NodeAffinityView>,
) -> bool {
    match affinity {
        None => true,
        Some(a) => selector_admits(
            labels,
            node_name,
            a.required_during_scheduling_ignored_during_execution,
        ),
    }
}

/// `selector` picks a pod with `labels`. No selector picks nothing; an empty
/// one picks everything.
pub open spec fn selector_picks(
    labels: Map<Seq<char>, Seq<char>>,
    selector: Option<LabelSelectorSpecView>,
) -> bool {
    match selector {
        None => false,
        Some(s) => labels_include(labels, s.match_labels) && requirements_met(
            labels,
            s.match_expressions,
        ),
    }
}

/// Whether `list` holds `item`.
pub fn list_contains(list: &[String], item: &str) -> (found: bool)
    ensures
        found == list.deep_view().contains(item@),
{
    let mut i: usize = 0;
    while i < list.len()
        invariant
            i <= list@.len(),
            forall|j: int| 0 <= j < i ==> list@[j]@ != item@,
        decreases list@.len() - i,
    {
        if same_text(list[i].as_str(), item) {
            proof {
                assert(list.deep_view()[i as int] == item@);
            }
            return true;
        }
        i += 1;
    }
    proof {
        if list.deep_view().contains(item@) {
            let j = choose|j: int| 0 <= j < list.deep_view().len() && list.deep_view()[j] == item@;
            assert(list@[j]@ == item@);
        }
    }
    false
}

/// Whether `labels` satisfy every entry of `selector`. An empty selector
/// matches any labels.
pub fn node_selector_matches(labels: &StringMap<String>, selector: &StringMap<String>) -> (b: bool)
    ensures
        b == labels_include(labels@, selector@),
{
    let n: usize = selector.len();
    let ghost keys = crate::order::sorted_keys(selector@.dom());
    let mut i: usize = 0;
    while i < n
        invariant
            n == selector@.len(),
            n == keys.len(),
            keys == crate::order::sorted_keys(selector@.dom()),
            i <= n,
            forall|j: int|
                0 <= j < i ==> labels@.contains_key(#[trigger] keys[j]) && labels@[keys[j]]
                    == selector@[keys[j]],
        decreases n - i,
    {
        let key = selector.key_at(i);
        let value = selector.value_at(i);
        let same = match labels.get(key.as_str()) {
            Some(v) => same_text(v.as_str(), value.as_str()),
            None => false,
        };
        if !same {
            return false;
        }
        i += 1;
    }
    proof {
        assert forall|k: Seq<char>| #[trigger] selector@.contains_key(k) implies labels@.contains_key(k)
            && labels@[k] == selector@[k] by {
            assert(keys.to_set().contains(k));
            let j = choose|j: int| 0 <= j < keys.len() && keys[j] == k;
            assert(labels@.contains_key(keys[j]));
        }
    }
    true
}

/// Whether `labels` meet `req`.
pub fn node_selector_requirement_matches(
    labels: &StringMap<String>,
    req: &NodeSelectorRequirement,
) -> (b: bool)
    ensures
        b == requirement_met(labels@, req@),
{
    let listed = match labels.get(req.key.as_str()) {
        Some(v) => list_contains(req.values.as_slice(), v.as_str()),
        None => false,
    };
    let operator = req.operator.as_str();
    if same_text(operator, "In") {
        listed
    } else if same_text(operator, "NotIn") {
        !listed
    } else if same_text(operator, "Exists") {
        labels.contains_key(req.key.as_str())
    } else if same_text(operator, "DoesNotExist") {
        !labels.contains_key(req.key.as_str())
    } else {
        false
    }
}

/// Whether `labels` meet every one of `reqs`.
pub fn requirements_match(labels: &StringMap<String>, reqs: &[NodeSelectorRequirement]) -> (b: bool)
    ensures
        b == requirements_met(labels@, reqs.deep_view()),
{
    let mut i: usize = 0;
    while i < reqs.len()
        invariant
            i <= reqs@.len(),
            forall|j: int| 0 <= j < i ==> requirement_met(labels@, #[trigger] reqs.deep_view()[j]),
        decreases reqs@.len() - i,
    {
        if !node_selector_requirement_matches(labels, &reqs[i]) {
            proof {
                assert(!requirement_met(labels@, reqs.deep_view()[i as int]));
            }
            return false;
        }
        i += 1;
    }
    true
}

/// Whether a node meets `selector`: one of its terms, and every requirement
/// of that term. `None`, and an empty list of terms, match any node.
#[verifier::loop_isolation(false)]
pub fn node_selector_spec_matches(
    labels: &StringMap<String>,
    node_name: &str,
    selector: Option<&NodeSelectorSpec>,
) -> (b: bool)
    ensures
        b == selector_admits(labels@, node_name@, selector.deep_view()),
{
    let selector = match selector {
        Some(selector) => selector,
        None => {
            return true;
        },
    };
    let terms = &selector.node_selector_terms;
    if terms.len() == 0 {
        return true;
    }
    let mut fields: StringMap<String> = StringMap::new();
    fields.insert("metadata.name".to_owned(), node_name.to_owned());
    let mut i: usize = 0;
    while i < terms.len()
        invariant
            terms@.len() > 0,
            i <= terms@.len(),
            fields@ == node_fields(node_name@),
            forall|j: int|
                0 <= j < i ==> !term_met(labels@, node_name@, #[trigger] terms.deep_view()[j]),
        decreases terms@.len() - i,
    {
        let term = &terms[i];
        if requirements_match(labels, term.match_expressions.as_slice()) && requirements_match(
            &fields,
            term.match_fields.as_slice(),
        ) {
            proof {
                assert(term_met(labels@, node_name@, terms.deep_view()[i as int]));
            }
            return true;
        }
        proof {
            assert(terms.deep_view()[i as int] == term@);
        }
        i += 1;
    }
    false
}

/// Whether a node meets the required part of `affinity`.
pub fn node_affinity_matches(
    labels: &StringMap<String>,
    node_name: &str,
    affinity: Option<&NodeAffinity>,
) -> (b: bool)
    ensures
        b == affinity_admits(labels@, node_name@, affinity.deep_view()),
{
    match affinity {
        Some(a) => node_selector_spec_matches(
            labels,
            node_name,
            a.required_during_scheduling_ignored_during_execution.as_ref(),
        ),
        None => true,
    }
}

/// Whether `selector` picks a pod with `labels`. `None` matches nothing,
/// while a selector with both parts empty matches everything.
pub fn label_selector_matches(
    labels: &StringMap<String>,
    selector: Option<&LabelSelectorSpec>,
) -> (b: bool)
    ensures
        b == selector_picks(labels@, selector.deep_view()),
{
    match selector {
        Some(s) => node_selector_matches(labels, &s.match_labels) && requirements_match(
            labels,
            s.match_expressions.as_slice(),
        ),
        None => false,
    }
}

/// An empty selector admits the labels of every node.
pub proof fn law_empty_selector_admits_all(labels: Map<Seq<char>, Seq<char>>)
    ensures
        labels_include(labels, Map::<Seq<char>, Seq<char>>::empty()),
{
}

/// A missing label selector picks no pod, while an empty one picks every pod.
pub proof fn law_label_selector_defaults(labels: Map<Seq<char>, Seq<char>>)
    ensures
        !selector_picks(labels, None),
        selector_picks(
            labels,
            Some(
                LabelSelectorSpecView {
                    match_labels: Map::empty(),
                    match_expressions: Seq::empty(),
                },
            ),
        ),
{
}

/// `NotIn` holds exactly where `In` fails, and `DoesNotExist` exactly where
/// `Exists` fails.
pub proof fn law_negated_operators(
    labels: Map<Seq<char>, Seq<char>>,
    key: Seq<char>,
    values: Seq<Seq<char>>,
)
    ensures
        requirement_met(labels, NodeSelectorRequirementView { key, operator: "NotIn"@, values })
            == !requirement_met(labels, NodeSelectorRequirementView { key, operator: "In"@, values }),
        requirement_met(
            labels,
            NodeSelectorRequirementView { key, operator: "DoesNotExist"@, values },
        ) == !requirement_met(
            labels,
            NodeSelectorRequirementView { key, operator: "Exists"@, values },
        ),
{
    reveal_strlit("In");
    reveal_strlit("NotIn");
    reveal_strlit("Exists");
    reveal_strlit("DoesNotExist");
    assert("In"@.len() == 2 && "NotIn"@.len() == 5 && "Exists"@.len() == 6
        && "DoesNotExist"@.len() == 12);
}

/// An operator other than the four never matches.
pub proof fn law_unknown_operator_never_matches(
    labels: Map<Seq<char>, Seq<char>>,
    req: NodeSelectorRequirementView,
)
    requires
        req.operator != "In"@,
        req.operator != "NotIn"@,
        req.operator != "Exists"@,
        req.operator != "DoesNotExist"@,
    ensures
        !requirement_met(labels, req),
{
}

/// `In` asks for the label with one of the values, `Exists` for the label with
/// any value; a missing label satisfies `NotIn` and `DoesNotExist`.
pub proof fn law_what_operators_ask_for(
    labels: Map<Seq<char>, Seq<char>>,
    req: NodeSelectorRequirementView,
)
    ensures
        req.operator == "In"@ ==> (requirement_met(labels, req) <==> labels.contains_key(req.key)
            && exists|i: int|
            0 <= i < req.values.len() && #[trigger] req.values[i] == labels[req.key]),
        req.operator == "NotIn"@ ==> (requirement_met(labels, req) <==> forall|i: int|
            0 <= i < req.values.len() ==> !(labels.contains_key(req.key)
                && #[trigger] req.values[i] == labels[req.key])),
        req.operator == "Exists"@ ==> (requirement_met(labels, req) <==> labels.contains_key(
            req.key,
        )),
        req.operator == "DoesNotExist"@ ==> (requirement_met(labels, req) <==> !labels.contains_key(
            req.key,
        )),
{
    reveal_strlit("In");
    reveal_strlit("NotIn");
    reveal_strlit("Exists");
    reveal_strlit("DoesNotExist");
    assert("In"@.len() == 2 && "NotIn"@.len() == 5 && "Exists"@.len() == 6
        && "DoesNotExist"@.len() == 12);
    if labels.contains_key(req.key) && req.values.contains(labels[req.key]) {
        let i = choose|i: int| 0 <= i < req.values.len() && req.values[i] == labels[req.key];
        assert(req.values[i] == labels[req.key]);
    }
    assert forall|i: int|
        0 <= i < req.values.len() && #[trigger] req.values[i] == labels[req.key] implies
        req.values.contains(labels[req.key]) by {
    }
}

/// A label selector picks a pod exactly where the pod has every one of its
/// labels and meets every one of its requirements: one that fails is enough
/// to leave the pod out.
pub proof fn law_label_selector_asks_for_all(
    labels: Map<Seq<char>, Seq<char>>,
    selector: LabelSelectorSpecView,
)
    ensures
        forall|k: Seq<char>| #[trigger]
            selector.match_labels.contains_key(k) && !labels.contains_key(k) ==> !selector_picks(
                labels,
                Some(selector),
            ),
        forall|k: Seq<char>| #[trigger]
            selector.match_labels.contains_key(k) && labels.contains_key(k) && labels[k]
                != selector.match_labels[k] ==> !selector_picks(labels, Some(selector)),
        forall|i: int|
            0 <= i < selector.match_expressions.len() && !requirement_met(
                labels,
                #[trigger] selector.match_expressions[i],
            ) ==> !selector_picks(labels, Some(selector)),
        (forall|k: Seq<char>| #[trigger]
            selector.match_labels.contains_key(k) ==> labels.contains_key(k) && labels[k]
                == selector.match_labels[k]) && (forall|i: int|
            0 <= i < selector.match_expressions.len() ==> requirement_met(
                labels,
                #[trigger] selector.match_expressions[i],
            )) ==> selector_picks(labels, Some(selector)),
{
}

/// A pod whose value of a label is not among those that a label selector lists
/// with `In` is not picked, nor is one without the label; one whose value is
/// listed with `NotIn` is not picked either.
pub proof fn law_label_selector_heeds_its_expressions(
    labels: Map<Seq<char>, Seq<char>>,
    selector: LabelSelectorSpecView,
    i: int,
)
    requires
        0 <= i < selector.match_expressions.len(),
    ensures
        ({
            let req = selector.match_expressions[i];
            &&& req.operator == "In"@ && (!labels.contains_key(req.key) || !req.values.contains(
                labels[req.key],
            )) ==> !selector_picks(labels, Some(selector))
            &&& req.operator == "NotIn"@ && labels.contains_key(req.key) && req.values.contains(
                labels[req.key],
            ) ==> !selector_picks(labels, Some(selector))
            &&& req.operator == "Exists"@ && !labels.contains_key(req.key) ==> !selector_picks(
                labels,
                Some(selector),
            )
            &&& req.operator == "DoesNotExist"@ && labels.contains_key(req.key)
                ==> !selector_picks(labels, Some(selector))
        }),
{
    let req = selector.match_expressions[i];
    law_what_operators_ask_for(labels, req);
    law_label_selector_asks_for_all(labels, selector);
}

/// A node selector admits a node exactly where the node has every label that
/// it names, with the same value.
pub proof fn law_node_selector_asks_for_every_label(
    labels: Map<Seq<char>, Seq<char>>,
    selector: Map<Seq<char>, Seq<char>>,
    k: Seq<char>,
)
    ensures
        selector.contains_key(k) && !labels.contains_key(k) ==> !labels_include(labels, selector),
        selector.contains_key(k) && labels.contains_key(k) && labels[k] != selector[k]
            ==> !labels_include(labels, selector),
        labels_include(labels, selector) && labels.contains_key(k) ==> labels_include(
            labels,
            selector.insert(k, labels[k]),
        ),
        labels_include(labels, labels),
{
}

/// A required affinity admits a node by any one of its terms, and a term asks
/// for all its expressions and all its fields.
pub proof fn law_terms_are_alternatives(
    labels: Map<Seq<char>, Seq<char>>,
    node_name: Seq<char>,
    selector: NodeSelectorSpecView,
)
    ensures
        selector.node_selector_terms.len() == 0 ==> selector_admits(
            labels,
            node_name,
            Some(selector),
        ),
        selector_admits(labels, node_name, None),
        forall|i: int|
            0 <= i < selector.node_selector_terms.len() && (forall|j: int|
                0 <= j < selector.node_selector_terms[i].match_expressions.len()
                    ==> requirement_met(
                    labels,
                    #[trigger] selector.node_selector_terms[i].match_expressions[j],
                )) && (forall|j: int|
                0 <= j < selector.node_selector_terms[i].match_fields.len() ==> requirement_met(
                    Map::<Seq<char>, Seq<char>>::empty().insert("metadata.name"@, node_name),
                    #[trigger] selector.node_selector_terms[i].match_fields[j],
                )) ==> #[trigger] term_met(labels, node_name, selector.node_selector_terms[i])
                && selector_admits(labels, node_name, Some(selector)),
{
    assert forall|i: int|
        0 <= i < selector.node_selector_terms.len() && (forall|j: int|
            0 <= j < selector.node_selector_terms[i].match_expressions.len() ==> requirement_met(
                labels,
                #[trigger] selector.node_selector_terms[i].match_expressions[j],
            )) && (forall|j: int|
            0 <= j < selector.node_selector_terms[i].match_fields.len() ==> requirement_met(
                Map::<Seq<char>, Seq<char>>::empty().insert("metadata.name"@, node_name),
                #[trigger] selector.node_selector_terms[i].match_fields[j],
            )) implies #[trigger] term_met(labels, node_name, selector.node_selector_terms[i])
        && selector_admits(labels, node_name, Some(selector)) by {
        assert(term_met(labels, node_name, selector.node_selector_terms[i]));
    }
}

/// Where each term has an expression that the labels of a node do not meet, or
/// a field that its name does not, the node is shut out.
pub proof fn law_no_term_met_shuts_out(
    labels: Map<Seq<char>, Seq<char>>,
    node_name: Seq<char>,
    selector: NodeSelectorSpecView,
)
    requires
        selector.node_selector_terms.len() > 0,
        forall|i: int|
            0 <= i < selector.node_selector_terms.len() ==> (exists|j: int|
                0 <= j < (#[trigger] selector.node_selector_terms[i]).match_expressions.len()
                    && !requirement_met(
                    labels,
                    #[trigger] selector.node_selector_terms[i].match_expressions[j],
                )) || (exists|j: int|
                0 <= j < selector.node_selector_terms[i].match_fields.len() && !requirement_met(
                    Map::<Seq<char>, Seq<char>>::empty().insert("metadata.name"@, node_name),
                    #[trigger] selector.node_selector_terms[i].match_fields[j],
                )),
    ensures
        !selector_admits(labels, node_name, Some(selector)),
        !affinity_admits(
            labels,
            node_name,
            Some(
                NodeAffinityView {
                    required_during_scheduling_ignored_during_execution: Some(selector),
                },
            ),
        ),
{
    assert forall|i: int| 0 <= i < selector.node_selector_terms.len() implies !term_met(
        labels,
        node_name,
        #[trigger] selector.node_selector_terms[i],
    ) by {
        let t = selector.node_selector_terms[i];
        if exists|j: int|
            0 <= j < t.match_expressions.len() && !requirement_met(
                labels,
                #[trigger] t.match_expressions[j],
            ) {
        } else {
            let j = choose|j: int|
                0 <= j < t.match_fields.len() && !requirement_met(
                    Map::<Seq<char>, Seq<char>>::empty().insert("metadata.name"@, node_name),
                    #[trigger] t.match_fields[j],
                );
            assert(!requirement_met(node_fields(node_name), t.match_fields[j]));
        }
    }
}

/// A pod that is pinned to one node by its name, as daemons are, is admitted
/// on that node alone.
pub proof fn law_pinned_to_one_node(
    labels: Map<Seq<char>, Seq<char>>,
    node_name: Seq<char>,
    wanted: Seq<char>,
)
    ensures
        affinity_admits(
            labels,
            node_name,
            Some(
                NodeAffinityView {
                    required_during_scheduling_ignored_during_execution: Some(
                        NodeSelectorSpecView {
                            node_selector_terms: seq![
                                NodeSelectorTermView {
                                    match_expressions: Seq::empty(),
                                    match_fields: seq![
                                        NodeSelectorRequirementView {
                                            key: "metadata.name"@,
                                            operator: "In"@,
                                            values: seq![wanted],
                                        },
                                    ],
                                },
                            ],
                        },
                    ),
                },
            ),
        ) == (node_name == wanted),
{
    let req = NodeSelectorRequirementView {
        key: "metadata.name"@,
        operator: "In"@,
        values: seq![wanted],
    };
    let term = NodeSelectorTermView { match_expressions: Seq::empty(), match_fields: seq![req] };
    let selector = NodeSelectorSpecView { node_selector_terms: seq![term] };
    let fields = Map::<Seq<char>, Seq<char>>::empty().insert("metadata.name"@, node_name);
    law_what_operators_ask_for(fields, req);
    assert(req.values[0] == wanted);
    assert(term.match_fields[0] == req);
    assert(selector.node_selector_terms[0] == term);
    if node_name == wanted {
        assert(requirement_met(fields, req));
        law_terms_are_alternatives(labels, node_name, selector);
        assert(term_met(labels, node_name, selector.node_selector_terms[0]));
    } else {
        assert(!requirement_met(fields, term.match_fields[0]));
        law_no_term_met_shuts_out(labels, node_name, selector);
    }
}

/// No required affinity, no restriction; else what its selector admits.
pub proof fn law_affinity_is_its_required_selector(
    labels: Map<Seq<char>, Seq<char>>,
    node_name: Seq<char>,
    affinity: NodeAffinityView,
)
    ensures
        affinity_admits(labels, node_name, None),
        affinity.required_during_scheduling_ignored_during_execution is None ==> affinity_admits(
            labels,
            node_name,
            Some(affinity),
        ),
        affinity.required_during_scheduling_ignored_during_execution is Some ==> affinity_admits(
            labels,
            node_name,
            Some(affinity),
        ) == selector_admits(
            labels,
            node_name,
            affinity.required_during_scheduling_ignored_during_execution,
        ),
{
}

} // verus!
