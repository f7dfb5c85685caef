//! Taints that keep pods off a node, and the tolerations that let them on.

use crate::duplicate::Duplicate;
use crate::order::same_text;
use vstd::prelude::*;

verus! {

/// A pod's toleration. Without a key, and with the operator `Exists`, it
/// tolerates every taint; without an effect, a taint of any effect.
#[derive(Debug, Default)]
pub struct Toleration {
    pub key: Option<String>,
    pub operator: Option<String>,
    pub value: Option<String>,
    pub effect: Option<String>,
}

/// Model of [`Toleration`].
#[verifier::ext_equal]
pub struct TolerationView {
    pub key: Option<Seq<char>>,
    pub operator: Option<Seq<char>>,
    pub value: Option<Seq<char>>,
    pub effect: Option<Seq<char>>,
}

impl View for Toleration {
    type V = TolerationView;

    open spec fn view(&self) -> TolerationView {
        TolerationView {
            key: self.key.deep_view(),
            operator: self.operator.deep_view(),
            value: self.value.deep_view(),
            effect: self.effect.deep_view(),
        }
    }
}

impl DeepView for Toleration {
    type V = TolerationView;

    open spec fn deep_view(&self) -> TolerationView {
        self@
    }
}

impl Duplicate for Toleration {
    fn duplicate(&self) -> (copy: Self) {
        Toleration {
            key: self.key.duplicate(),
            operator: self.operator.duplicate(),
            value: self.value.duplicate(),
            effect: self.effect.duplicate(),
        }
    }
}

impl Clone for Toleration {
    fn clone(&self) -> (copy: Self)
        ensures
            copy@ == self@,
    {
        self.duplicate()
    }
}

/// A node's taint. Only the effects `NoSchedule` and `NoExecute` keep pods off.
#[derive(Debug)]
pub struct Taint {
    pub key: String,
    pub value: String,
    pub effect: String,
}

/// Model of [`Taint`].
#[verifier::ext_equal]
pub struct TaintView {
    pub key: Seq<char>,
    pub value: Seq<char>,
    pub effect: Seq<char>,
}

impl View for Taint {
    type V = TaintView;

    open spec fn view(&self) -> TaintView {
        TaintView {
            key: self.key@,
            value: self.value@,
            effect: self.effect@,
        }
    }
}

impl DeepView for Taint {
    type V = TaintView;

    open spec fn deep_view(&self) -> TaintView {
        self@
    }
}

impl Duplicate for Taint {
    fn duplicate(&self) -> (copy: Self) {
        Taint {
            key: self.key.duplicate(),
            value: self.value.duplicate(),
            effect: self.effect.duplicate(),
        }
    }
}

impl Clone for Taint {
    fn clone(&self) -> (copy: Self)
        ensures
            copy@ == self@,
    {
        self.duplicate()
    }
}

/// The value that a toleration asks for; empty where it names none.
pub open spec fn tolerated_value(toleration: TolerationView) -> Seq<char> {
    match toleration.value {
        Some(v) => v,
        None => Seq::empty(),
    }
}

/// `toleration` tolerates `taint`.
pub open spec fn tolerates(toleration: TolerationView, taint: TaintView) -> bool {
    &&& toleration.effect is Some ==> toleration.effect == Some(taint.effect)
    &&& match toleration.key {
        None => toleration.operator == Some("Exists"@),
        Some(key) => key == taint.key && (toleration.operator == Some("Exists"@)
            || tolerated_value(toleration) == taint.value),
    }
}

/// A taint with this effect keeps pods off that do not tolerate it.
pub open spec fn blocks(taint: TaintView) -> bool {
    taint.effect == "NoSchedule"@ || taint.effect == "NoExecute"@
}

/// One of `tolerations` tolerates `taint`.
pub open spec fn some_tolerates(tolerations: Seq<TolerationView>, taint: TaintView) -> bool {
    exists|i: int| 0 <= i < tolerations.len() && tolerates(#[trigger] tolerations[i], taint)
}

/// Every blocking taint is tolerated.
pub open spec fn all_tolerated(taints: Seq<TaintView>, tolerations: Seq<TolerationView>) -> bool {
    forall|i: int|
        0 <= i < taints.len() && blocks(#[trigger] taints[i]) ==> some_tolerates(
            tolerations,
            taints[i],
        )
}

/// Whether `toleration` tolerates `taint`. A set effect must be the taint's
/// effect. A missing key matches only with the operator `Exists`; a key must
/// be the taint's key, and without `Exists` the value must be the taint's
/// value too.
pub fn toleration_matches_taint(toleration: &Toleration, taint: &Taint) -> (b: bool)
    ensures
        b == tolerates(toleration@, taint@),
{
    if let Some(effect) = &toleration.effect {
        if !same_text(effect.as_str(), taint.effect.as_str()) {
            return false;
        }
    }
    let exists_operator = match &toleration.operator {
        Some(operator) => same_text(operator.as_str(), "Exists"),
        None => false,
    };
    match &toleration.key {
        None => exists_operator,
        Some(key) => same_text(key.as_str(), taint.key.as_str()) && (exists_operator || (
        match &toleration.value {
            Some(value) => same_text(value.as_str(), taint.value.as_str()),
            None => {
                assert(taint.value@.len() == 0 ==> taint.value@ =~= Seq::<char>::empty());
                taint.value.as_str().is_empty()
            },
        })),
    }
}

/// Whether one of `tolerations` tolerates `taint`.
pub fn any_tolerates(tolerations: &[Toleration], taint: &Taint) -> (b: bool)
    ensures
        b == some_tolerates(tolerations.deep_view(), taint@),
{
    let mut i: usize = 0;
    while i < tolerations.len()
        invariant
            i <= tolerations@.len(),
            forall|j: int| 0 <= j < i ==> !tolerates(#[trigger] tolerations.deep_view()[j], taint@),
        decreases tolerations@.len() - i,
    {
        if toleration_matches_taint(&tolerations[i], taint) {
            proof {
                assert(tolerates(tolerations.deep_view()[i as int], taint@));
            }
            return true;
        }
        i += 1;
    }
    false
}

/// Whether every taint that keeps pods off is tolerated by one of
/// `tolerations`.
pub fn node_taints_tolerated(taints: &[Taint], tolerations: &[Toleration]) -> (b: bool)
    ensures
        b == all_tolerated(taints.deep_view(), tolerations.deep_view()),
{
    let mut i: usize = 0;
    while i < taints.len()
        invariant
            i <= taints@.len(),
            forall|j: int|
                0 <= j < i && blocks(#[trigger] taints.deep_view()[j]) ==> some_tolerates(
                    tolerations.deep_view(),
                    taints.deep_view()[j],
                ),
        decreases taints@.len() - i,
    {
        let taint = &taints[i];
        let blocking = same_text(taint.effect.as_str(), "NoSchedule") || same_text(
            taint.effect.as_str(),
            "NoExecute",
        );
        if blocking && !any_tolerates(tolerations, taint) {
            proof {
                assert(blocks(taints.deep_view()[i as int]));
            }
            return false;
        }
        proof {
            assert(taints.deep_view()[i as int] == taint@);
        }
        i += 1;
    }
    true
}

/// A toleration without a key, a value and an effect, but with the operator
/// `Exists`, tolerates every taint.
pub proof fn law_wildcard_tolerates_everything(taint: TaintView)
    ensures
        tolerates(
            TolerationView { key: None, operator: Some("Exists"@), value: None, effect: None },
            taint,
        ),
{
}

/// A node whose taints do not block is open to every pod.
pub proof fn law_soft_taints_block_nothing(
    taints: Seq<TaintView>,
    tolerations: Seq<TolerationView>,
)
    requires
        forall|i: int| 0 <= i < taints.len() ==> !blocks(#[trigger] taints[i]),
    ensures
        all_tolerated(taints, tolerations),
{
}

/// More tolerations never shut a pod out.
pub proof fn law_tolerations_only_open_nodes(
    taints: Seq<TaintView>,
    tolerations: Seq<TolerationView>,
    more: Seq<TolerationView>,
)
    requires
        all_tolerated(taints, tolerations),
    ensures
        all_tolerated(taints, tolerations + more),
{
    assert forall|i: int|
        0 <= i < taints.len() && blocks(#[trigger] taints[i]) implies some_tolerates(
        tolerations + more,
        taints[i],
    ) by {
        let j = choose|j: int|
            0 <= j < tolerations.len() && tolerates(#[trigger] tolerations[j], taints[i]);
        assert(tolerates((tolerations + more)[j], taints[i]));
    }
}

/// A taint with the effect `NoSchedule` or `NoExecute` that no toleration
/// tolerates shuts the pod out.
pub proof fn law_untolerated_taint_shuts_out(
    taints: Seq<TaintView>,
    tolerations: Seq<TolerationView>,
    i: int,
)
    requires
        0 <= i < taints.len(),
        taints[i].effect == "NoSchedule"@ || taints[i].effect == "NoExecute"@,
        forall|j: int|
            0 <= j < tolerations.len() ==> !tolerates(#[trigger] tolerations[j], taints[i]),
    ensures
        !all_tolerated(taints, tolerations),
        !some_tolerates(tolerations, taints[i]),
{
    assert(blocks(taints[i]));
}

/// A pod without tolerations is shut out by any taint with the effect
/// `NoSchedule` or `NoExecute`, and by nothing else.
pub proof fn law_bare_pod_needs_an_untainted_node(taints: Seq<TaintView>)
    ensures
        all_tolerated(taints, Seq::empty()) == (forall|i: int|
            0 <= i < taints.len() ==> (#[trigger] taints[i]).effect != "NoSchedule"@
                && taints[i].effect != "NoExecute"@),
{
    if all_tolerated(taints, Seq::empty()) {
        assert forall|i: int| 0 <= i < taints.len() implies (#[trigger] taints[i]).effect
            != "NoSchedule"@ && taints[i].effect != "NoExecute"@ by {
            if taints[i].effect == "NoSchedule"@ || taints[i].effect == "NoExecute"@ {
                law_untolerated_taint_shuts_out(taints, Seq::empty(), i);
            }
        }
    }
}

/// A node is open where each of its taints either has another effect than
/// `NoSchedule` and `NoExecute`, such as `PreferNoSchedule`, or is tolerated.
pub proof fn law_tolerated_and_soft_taints_let_in(
    taints: Seq<TaintView>,
    tolerations: Seq<TolerationView>,
)
    requires
        forall|i: int|
            0 <= i < taints.len() ==> ((#[trigger] taints[i]).effect != "NoSchedule"@
                && taints[i].effect != "NoExecute"@) || exists|j: int|
                0 <= j < tolerations.len() && tolerates(#[trigger] tolerations[j], taints[i]),
    ensures
        all_tolerated(taints, tolerations),
{
    assert forall|i: int|
        0 <= i < taints.len() && blocks(#[trigger] taints[i]) implies some_tolerates(
        tolerations,
        taints[i],
    ) by {
        assert(taints[i].effect == "NoSchedule"@ || taints[i].effect == "NoExecute"@);
    }
}

/// One more taint never opens a node.
pub proof fn law_taints_only_shut_nodes(
    taints: Seq<TaintView>,
    more: TaintView,
    tolerations: Seq<TolerationView>,
)
    requires
        all_tolerated(taints.push(more), tolerations),
    ensures
        all_tolerated(taints, tolerations),
{
    assert forall|i: int|
        0 <= i < taints.len() && blocks(#[trigger] taints[i]) implies some_tolerates(
        tolerations,
        taints[i],
    ) by {
        assert(taints.push(more)[i] == taints[i]);
    }
}

/// A toleration that names another key, or another effect, is of no use, and
/// neither is one without a key unless its operator is `Exists`.
pub proof fn law_toleration_of_something_else(toleration: TolerationView, taint: TaintView)
    ensures
        toleration.key is Some && toleration.key->0 != taint.key ==> !tolerates(toleration, taint),
        toleration.effect is Some && toleration.effect->0 != taint.effect ==> !tolerates(
            toleration,
            taint,
        ),
        toleration.key is None && toleration.operator != Some("Exists"@) ==> !tolerates(
            toleration,
            taint,
        ),
{
}

/// A toleration for the key of a taint, and for its effect or for any, counts
/// for every value with the operator `Exists`; with any other it counts for
/// its own value alone, which is empty where it names none.
pub proof fn law_toleration_of_a_key(toleration: TolerationView, taint: TaintView)
    requires
        toleration.key == Some(taint.key),
        toleration.effect is Some ==> toleration.effect->0 == taint.effect,
    ensures
        toleration.operator == Some("Exists"@) ==> tolerates(toleration, taint),
        toleration.operator != Some("Exists"@) && toleration.value is Some ==> tolerates(
            toleration,
            taint,
        ) == (toleration.value->0 == taint.value),
        toleration.operator != Some("Exists"@) && toleration.value is None ==> tolerates(
            toleration,
            taint,
        ) == (taint.value.len() == 0),
{
    if taint.value.len() == 0 {
        assert(taint.value =~= Seq::<char>::empty());
    }
}

/// A toleration without a key but with the operator `Exists` counts for every
/// key and value: of its own effect, or of any where it names none.
pub proof fn law_toleration_of_every_key(toleration: TolerationView, taint: TaintView)
    requires
        toleration.key is None,
        toleration.operator == Some("Exists"@),
    ensures
        tolerates(toleration, taint) == (toleration.effect is None || toleration.effect->0
            == taint.effect),
{
}

} // verus!
