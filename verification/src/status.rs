//! Conditions that are written to a pod's status.

use crate::json::{Json, JsonView};
use crate::order::same_text;
use crate::pod::{
    self, namespace_of, PodConditionView, PodObject, PodObjectView, WatchEvent,
    WatchEventView,
};
use vstd::prelude::*;
use vstd::string::*;

verus! {

/// A patch of the status of a gated pod.
#[derive(Debug, PartialEq)]
pub struct GatedStatusPatch {
    pub namespace: String,
    pub pod_name: String,
    pub patch: Json,
}

/// Model of [`GatedStatusPatch`].
pub struct GatedStatusPatchView {
    pub namespace: Seq<char>,
    pub pod_name: Seq<char>,
    pub patch: JsonView,
}

impl View for GatedStatusPatch {
    type V = GatedStatusPatchView;

    open spec fn view(&self) -> GatedStatusPatchView {
        GatedStatusPatchView {
            namespace: self.namespace@,
            pod_name: self.pod_name@,
            patch: self.patch@,
        }
    }
}

/// A patch that sets one condition.
pub open spec fn conditions_patch(condition: JsonView) -> JsonView {
    JsonView::object().with(
        "status"@,
        JsonView::object().with("conditions"@, JsonView::list_of(condition)),
    )
}

fn write_conditions_patch(condition: Json) -> (patch: Json)
    ensures
        patch@ == conditions_patch(condition@),
{
    Json::object().with("status", Json::object().with("conditions", Json::list_of(condition)))
}

/// A condition with a type, a status, a reason and a message.
pub open spec fn condition(
    condition_type: Seq<char>,
    status: Seq<char>,
    reason: Seq<char>,
    message: Seq<char>,
) -> JsonView {
    JsonView::object().with("type"@, JsonView::Text(condition_type)).with(
        "status"@,
        JsonView::Text(status),
    ).with("reason"@, JsonView::Text(reason)).with("message"@, JsonView::Text(message))
}

fn write_condition(condition_type: &str, status: &str, reason: &str, message: &str) -> (c: Json)
    ensures
        c@ == condition(condition_type@, status@, reason@, message@),
{
    Json::object().with("type", Json::text(condition_type)).with("status", Json::text(status)).with(
        "reason",
        Json::text(reason),
    ).with("message", Json::text(message))
}

/// The condition of a pod that is blocked by its gates.
pub open spec fn gated_patch() -> JsonView {
    conditions_patch(
        condition(
            "PodScheduled"@,
            "False"@,
            "SchedulingGated"@,
            "Scheduling is blocked due to non-empty scheduling gates"@,
        ),
    )
}

/// The condition of a pod whose gates are gone. It has no status: a bind that
/// happens at the same time may have set it.
pub open spec fn ungated_patch() -> JsonView {
    conditions_patch(
        JsonView::object().with("type"@, JsonView::Text("PodScheduled"@)).with(
            "reason"@,
            JsonView::Text("Unschedulable"@),
        ).with("message"@, JsonView::Text("pod not yet scheduled"@)),
    )
}

/// The condition of a pod that no node could be found for.
pub open spec fn unschedulable_patch(message: Seq<char>) -> JsonView {
    conditions_patch(condition("PodScheduled"@, "False"@, "Unschedulable"@, message))
}

/// The condition says that the pod is not placed because of its gates.
pub open spec fn says_gated(c: PodConditionView) -> bool {
    &&& c.condition_type == Some("PodScheduled"@)
    &&& c.status == Some("False"@)
    &&& c.reason == Some("SchedulingGated"@)
}

/// The condition gives the gates as its reason.
pub open spec fn blames_gates(c: PodConditionView) -> bool {
    &&& c.condition_type == Some("PodScheduled"@)
    &&& c.reason == Some("SchedulingGated"@)
}

/// The condition says that the pod is not placed for the reason `message`.
pub open spec fn says_unschedulable(c: PodConditionView, message: Seq<char>) -> bool {
    &&& c.condition_type == Some("PodScheduled"@)
    &&& c.status == Some("False"@)
    &&& c.reason == Some("Unschedulable"@)
    &&& c.message == Some(message)
}

/// One of the pod's conditions says that it is gated.
pub open spec fn marked_gated(pod: PodObjectView) -> bool {
    exists|i: int|
        0 <= i < pod.status.conditions.len() && says_gated(#[trigger] pod.status.conditions[i])
}

/// One of the pod's conditions gives the gates as its reason.
pub open spec fn marked_blaming_gates(pod: PodObjectView) -> bool {
    exists|i: int|
        0 <= i < pod.status.conditions.len() && blames_gates(#[trigger] pod.status.conditions[i])
}

/// One of the pod's conditions gives `message` as the reason for not placing
/// it.
pub open spec fn marked_unschedulable(pod: PodObjectView, message: Seq<char>) -> bool {
    exists|i: int|
        0 <= i < pod.status.conditions.len() && says_unschedulable(
            #[trigger] pod.status.conditions[i],
            message,
        )
}

/// The event shows a gated pod, without a node, that is not marked as gated.
pub open spec fn needs_gated_mark(event: WatchEventView<PodObjectView>) -> bool {
    &&& pod::is_upsert(event.event_type)
    &&& event.object is Some
    &&& event.object->0.is_named()
    &&& !event.object->0.is_bound()
    &&& event.object->0.is_gated()
    &&& !marked_gated(event.object->0)
}

/// The event shows a pod without gates and without a node whose condition
/// still blames its gates.
pub open spec fn needs_ungated_mark(event: WatchEventView<PodObjectView>) -> bool {
    &&& pod::is_upsert(event.event_type)
    &&& event.object is Some
    &&& !event.object->0.is_bound()
    &&& !event.object->0.is_gated()
    &&& marked_blaming_gates(event.object->0)
}

fn is_text(s: &Option<String>, want: &str) -> (b: bool)
    ensures
        b == (s.deep_view() == Some(want@)),
{
    match s {
        Some(s) => same_text(s.as_str(), want),
        None => false,
    }
}

fn any_says_gated(pod: &PodObject) -> (b: bool)
    ensures
        b == marked_gated(pod@),
{
    let conditions = &pod.status.conditions;
    let mut i: usize = 0;
    while i < conditions.len()
        invariant
            *conditions == pod.status.conditions,
            i <= conditions@.len(),
            forall|j: int| 0 <= j < i ==> !says_gated(#[trigger] pod@.status.conditions[j]),
        decreases conditions@.len() - i,
    {
        let c = &conditions[i];
        if is_text(&c.condition_type, "PodScheduled") && is_text(&c.status, "False") && is_text(
            &c.reason,
            "SchedulingGated",
        ) {
            proof {
                assert(says_gated(pod@.status.conditions[i as int]));
            }
            return true;
        }
        assert(pod@.status.conditions[i as int] == c@);
        i += 1;
    }
    false
}

fn any_blames_gates(pod: &PodObject) -> (b: bool)
    ensures
        b == marked_blaming_gates(pod@),
{
    let conditions = &pod.status.conditions;
    let mut i: usize = 0;
    while i < conditions.len()
        invariant
            *conditions == pod.status.conditions,
            i <= conditions@.len(),
            forall|j: int| 0 <= j < i ==> !blames_gates(#[trigger] pod@.status.conditions[j]),
        decreases conditions@.len() - i,
    {
        let c = &conditions[i];
        if is_text(&c.condition_type, "PodScheduled") && is_text(&c.reason, "SchedulingGated") {
            proof {
                assert(blames_gates(pod@.status.conditions[i as int]));
            }
            return true;
        }
        assert(pod@.status.conditions[i as int] == c@);
        i += 1;
    }
    false
}

fn any_says_unschedulable(pod: &PodObject, message: &str) -> (b: bool)
    ensures
        b == marked_unschedulable(pod@, message@),
{
    let conditions = &pod.status.conditions;
    let mut i: usize = 0;
    while i < conditions.len()
        invariant
            *conditions == pod.status.conditions,
            i <= conditions@.len(),
            forall|j: int|
                0 <= j < i ==> !says_unschedulable(
                    #[trigger] pod@.status.conditions[j],
                    message@,
                ),
        decreases conditions@.len() - i,
    {
        let c = &conditions[i];
        if is_text(&c.condition_type, "PodScheduled") && is_text(&c.status, "False") && is_text(
            &c.reason,
            "Unschedulable",
        ) && is_text(&c.message, message) {
            proof {
                assert(says_unschedulable(pod@.status.conditions[i as int], message@));
            }
            return true;
        }
        assert(pod@.status.conditions[i as int] == c@);
        i += 1;
    }
    false
}

/// The patch that marks a gated pod as such, where it is still needed: the
/// pod has a gate, no node, and no condition that says so.
pub fn scheduling_gate_status_patch(event: &WatchEvent<PodObject>) -> (r: Option<GatedStatusPatch>)
    ensures
        r is Some == needs_gated_mark(event@),
        r matches Some(p) ==> p@ == (GatedStatusPatchView {
            namespace: pod::namespace_or_default(event@.object->0.metadata.namespace),
            pod_name: pod::text_or_empty(event@.object->0.metadata.name),
            patch: gated_patch(),
        }),
{
    if !event.is_added_or_modified() {
        return None;
    }
    let object = match &event.object {
        Some(object) => object,
        None => {
            return None;
        },
    };
    let pod_name = match &object.metadata.name {
        Some(name) => name.clone(),
        None => {
            return None;
        },
    };
    if pod_name.as_str().is_empty() || object.is_bound() || !object.is_gated() || any_says_gated(object) {
        return None;
    }
    Some(
        GatedStatusPatch {
            namespace: namespace_of(&object.metadata.namespace),
            pod_name,
            patch: write_conditions_patch(
                write_condition(
                    "PodScheduled",
                    "False",
                    "SchedulingGated",
                    "Scheduling is blocked due to non-empty scheduling gates",
                ),
            ),
        },
    )
}

/// The patch that stops blaming the gates once all of them are gone, where it
/// is still needed. It never touches the condition's status.
pub fn scheduling_gate_status_reset(event: &WatchEvent<PodObject>) -> (r: Option<Json>)
    ensures
        r is Some == needs_ungated_mark(event@),
        r matches Some(p) ==> p@ == ungated_patch(),
{
    if !event.is_added_or_modified() {
        return None;
    }
    let object = match &event.object {
        Some(object) => object,
        None => {
            return None;
        },
    };
    if object.is_bound() || object.is_gated() || !any_blames_gates(object) {
        return None;
    }
    Some(
        write_conditions_patch(
            Json::object().with("type", Json::text("PodScheduled")).with(
                "reason",
                Json::text("Unschedulable"),
            ).with("message", Json::text("pod not yet scheduled")),
        ),
    )
}

/// The event shows the pod with a condition that gives `message` as the
/// reason for not placing it.
pub open spec fn shows_failure(
    event: WatchEventView<PodObjectView>,
    message: Seq<char>,
) -> bool {
    event.object is Some && marked_unschedulable(event.object->0, message)
}

/// The patch that tells why the pod could not be placed, unless the event
/// shows the pod with that condition already.
pub fn failed_scheduling_status_patch(event: &WatchEvent<PodObject>, message: &str) -> (r: Option<
    Json,
>)
    ensures
        r is Some == !shows_failure(event@, message@),
        r matches Some(p) ==> p@ == unschedulable_patch(message@),
{
    if let Some(object) = &event.object {
        if any_says_unschedulable(object, message) {
            return None;
        }
    }
    Some(
        write_conditions_patch(write_condition("PodScheduled", "False", "Unschedulable", message)),
    )
}

/// The patch that marks a pod as evicted for a pod of higher priority.
pub open spec fn disruption_patch(pending_pod_name: Seq<char>) -> JsonView {
    conditions_patch(
        condition(
            "DisruptionTarget"@,
            "True"@,
            "PreemptionByScheduler"@,
            "u7s-scheduler: preempting to accommodate higher priority pod "@ + pending_pod_name,
        ),
    )
}

/// The patch that marks a victim of preemption, before it is deleted, with
/// the pod it makes room for.
pub fn disruption_target_patch(pending_pod_name: &str) -> (patch: Json)
    ensures
        patch@ == disruption_patch(pending_pod_name@),
{
    let mut message = "u7s-scheduler: preempting to accommodate higher priority pod ".to_owned();
    message.append(pending_pod_name);
    write_conditions_patch(
        write_condition("DisruptionTarget", "True", "PreemptionByScheduler", message.as_str()),
    )
}

/// The patch that tells which node a pod will get once its victims are gone.
pub fn nominated_node_name_patch(node_name: &str) -> (patch: Json)
    ensures
        patch@ == JsonView::object().with(
            "status"@,
            JsonView::object().with("nominatedNodeName"@, JsonView::Text(node_name@)),
        ),
{
    Json::object().with("status", Json::object().with("nominatedNodeName", Json::text(node_name)))
}

/// Once a pod shows the condition that marks it as gated, it is not marked
/// again: the event that the patch causes needs no patch.
pub proof fn law_gated_mark_settles(event: WatchEventView<PodObjectView>, i: int)
    requires
        event.object is Some,
        0 <= i < event.object->0.status.conditions.len(),
        says_gated(event.object->0.status.conditions[i]),
    ensures
        !needs_gated_mark(event),
{
}

/// Once no condition of a pod blames its gates, the reset is not sent again.
pub proof fn law_ungated_mark_settles(event: WatchEventView<PodObjectView>)
    requires
        event.object is Some,
        forall|i: int|
            0 <= i < event.object->0.status.conditions.len() ==> (
            #[trigger] event.object->0.status.conditions[i]).reason != Some("SchedulingGated"@),
    ensures
        !needs_ungated_mark(event),
{
}

/// Once a pod shows why it was not placed, the same reason is not sent again.
pub proof fn law_failure_mark_settles(
    event: WatchEventView<PodObjectView>,
    message: Seq<char>,
    i: int,
)
    requires
        event.object is Some,
        0 <= i < event.object->0.status.conditions.len(),
        says_unschedulable(event.object->0.status.conditions[i], message),
    ensures
        shows_failure(event, message),
{
}

/// The patches for a gated pod and for one whose gates are gone are never
/// both due, and neither is due for a pod that has a node.
pub proof fn law_gate_marks_exclude_each_other(event: WatchEventView<PodObjectView>)
    ensures
        !(needs_gated_mark(event) && needs_ungated_mark(event)),
        event.object is Some && event.object->0.is_bound() ==> !needs_gated_mark(event)
            && !needs_ungated_mark(event),
{
}

/// A pod that is to be placed is never marked as gated.
pub proof fn law_placed_pods_are_not_marked_gated(event: WatchEventView<PodObjectView>)
    requires
        event.object is Some,
        pod::awaits_node(event.object->0),
    ensures
        !needs_gated_mark(event),
{
}

/// A pod is marked as gated exactly where it was added or modified, has a name,
/// gates and no node, and no condition that says so already: `PodScheduled`,
/// `False`, `SchedulingGated`.
pub proof fn law_when_a_pod_is_marked_gated(event: WatchEventView<PodObjectView>)
    requires
        event.object is Some,
    ensures
        ({
            let pod = event.object->0;
            let marked = exists|i: int|
                0 <= i < pod.status.conditions.len() && (
                #[trigger] pod.status.conditions[i]).condition_type == Some("PodScheduled"@)
                    && pod.status.conditions[i].status == Some("False"@)
                    && pod.status.conditions[i].reason == Some("SchedulingGated"@);
            needs_gated_mark(event) <==> (event.event_type == "ADDED"@ || event.event_type
                == "MODIFIED"@) && pod.metadata.name is Some && pod.metadata.name->0.len() > 0 && (
            pod.spec.node_name is None || pod.spec.node_name->0.len() == 0)
                && pod.spec.scheduling_gates is Some && pod.spec.scheduling_gates->0.len() > 0
                && !marked
        }),
{
    let pod = event.object->0;
    if marked_gated(pod) {
        let i = choose|i: int|
            0 <= i < pod.status.conditions.len() && says_gated(#[trigger] pod.status.conditions[i]);
        assert(pod.status.conditions[i].condition_type == Some("PodScheduled"@));
    }
    assert forall|i: int|
        0 <= i < pod.status.conditions.len() && (
        #[trigger] pod.status.conditions[i]).condition_type == Some("PodScheduled"@)
            && pod.status.conditions[i].status == Some("False"@)
            && pod.status.conditions[i].reason == Some("SchedulingGated"@) implies marked_gated(
        pod,
    ) by {
        assert(says_gated(pod.status.conditions[i]));
    }
}

/// The mark is taken back exactly where the pod was added or modified, has
/// neither gates nor a node, and a condition `PodScheduled` still blames the
/// gates, whatever its status.
pub proof fn law_when_the_mark_is_taken_back(event: WatchEventView<PodObjectView>)
    requires
        event.object is Some,
    ensures
        ({
            let pod = event.object->0;
            let blamed = exists|i: int|
                0 <= i < pod.status.conditions.len() && (
                #[trigger] pod.status.conditions[i]).condition_type == Some("PodScheduled"@)
                    && pod.status.conditions[i].reason == Some("SchedulingGated"@);
            needs_ungated_mark(event) <==> (event.event_type == "ADDED"@ || event.event_type
                == "MODIFIED"@) && (pod.spec.node_name is None || pod.spec.node_name->0.len() == 0)
                && (pod.spec.scheduling_gates is None || pod.spec.scheduling_gates->0.len() == 0)
                && blamed
        }),
{
    let pod = event.object->0;
    if marked_blaming_gates(pod) {
        let i = choose|i: int|
            0 <= i < pod.status.conditions.len() && blames_gates(
                #[trigger] pod.status.conditions[i],
            );
        assert(pod.status.conditions[i].condition_type == Some("PodScheduled"@));
    }
    assert forall|i: int|
        0 <= i < pod.status.conditions.len() && (
        #[trigger] pod.status.conditions[i]).condition_type == Some("PodScheduled"@)
            && pod.status.conditions[i].reason == Some("SchedulingGated"@) implies
        marked_blaming_gates(pod) by {
        assert(blames_gates(pod.status.conditions[i]));
    }
}

/// A failure is shown already exactly where a condition says it in the same
/// words: `PodScheduled`, `False`, `Unschedulable` and the message.
pub proof fn law_when_a_failure_is_shown(
    event: WatchEventView<PodObjectView>,
    message: Seq<char>,
)
    ensures
        event.object is None ==> !shows_failure(event, message),
        event.object is Some ==> (shows_failure(event, message) <==> exists|i: int|
            0 <= i < event.object->0.status.conditions.len() && (
            #[trigger] event.object->0.status.conditions[i]).condition_type == Some(
                "PodScheduled"@,
            ) && event.object->0.status.conditions[i].status == Some("False"@)
                && event.object->0.status.conditions[i].reason == Some("Unschedulable"@)
                && event.object->0.status.conditions[i].message == Some(message)),
{
    if event.object is Some {
        let pod = event.object->0;
        if marked_unschedulable(pod, message) {
            let i = choose|i: int|
                0 <= i < pod.status.conditions.len() && says_unschedulable(
                    #[trigger] pod.status.conditions[i],
                    message,
                );
            assert(pod.status.conditions[i].message == Some(message));
        }
        assert forall|i: int|
            0 <= i < pod.status.conditions.len() && (
            #[trigger] pod.status.conditions[i]).condition_type == Some("PodScheduled"@)
                && pod.status.conditions[i].status == Some("False"@)
                && pod.status.conditions[i].reason == Some("Unschedulable"@)
                && pod.status.conditions[i].message == Some(message) implies marked_unschedulable(
            pod,
            message,
        ) by {
            assert(says_unschedulable(pod.status.conditions[i], message));
        }
    }
}

/// The text that an object has under a name.
pub open spec fn has_text(object: JsonView, name: Seq<char>, value: Seq<char>) -> bool {
    &&& object is Object
    &&& exists|i: int|
        0 <= i < object->Object_0.len() && (#[trigger] object->Object_0[i]).name == name
            && object->Object_0[i].value == JsonView::Text(value)
}

/// A patch of a pod's status that holds one condition and nothing else.
pub open spec fn is_condition_patch(patch: JsonView, condition: JsonView) -> bool {
    patch == JsonView::Object(
        seq![
            crate::json::JsonFieldView {
                name: "status"@,
                value: JsonView::Object(
                    seq![
                        crate::json::JsonFieldView {
                            name: "conditions"@,
                            value: JsonView::List(seq![condition]),
                        },
                    ],
                ),
            },
        ],
    )
}

/// The patches say what they are for: the condition `PodScheduled` is `False`
/// for a gated pod and for one that was not placed, with the reason for each;
/// the one that takes the mark back names no status at all; and an evicted
/// pod's `DisruptionTarget` is `True`.
pub proof fn law_patches_say_what_they_are_for(message: Seq<char>, pod_name: Seq<char>)
    ensures
        exists|c: JsonView| #[trigger]
            is_condition_patch(gated_patch(), c) && has_text(c, "type"@, "PodScheduled"@)
                && has_text(c, "status"@, "False"@) && has_text(c, "reason"@, "SchedulingGated"@),
        exists|c: JsonView| #[trigger]
            is_condition_patch(unschedulable_patch(message), c) && has_text(
                c,
                "type"@,
                "PodScheduled"@,
            ) && has_text(c, "status"@, "False"@) && has_text(c, "reason"@, "Unschedulable"@)
                && has_text(c, "message"@, message),
        exists|c: JsonView| #[trigger]
            is_condition_patch(ungated_patch(), c) && has_text(c, "type"@, "PodScheduled"@)
                && has_text(c, "reason"@, "Unschedulable"@) && forall|v: Seq<char>|
                !#[trigger] has_text(c, "status"@, v),
        exists|c: JsonView| #[trigger]
            is_condition_patch(disruption_patch(pod_name), c) && has_text(
                c,
                "type"@,
                "DisruptionTarget"@,
            ) && has_text(c, "status"@, "True"@) && has_text(c, "reason"@, "PreemptionByScheduler"@),
{
    reveal_strlit("type");
    reveal_strlit("status");
    reveal_strlit("reason");
    reveal_strlit("message");
    assert("type"@.len() == 4 && "status"@.len() == 6 && "reason"@.len() == 6 && "message"@.len()
        == 7);
    assert("status"@[0] == 's' && "reason"@[0] == 'r');
    let gated = condition(
        "PodScheduled"@,
        "False"@,
        "SchedulingGated"@,
        "Scheduling is blocked due to non-empty scheduling gates"@,
    );
    lemma_condition(
        "PodScheduled"@,
        "False"@,
        "SchedulingGated"@,
        "Scheduling is blocked due to non-empty scheduling gates"@,
    );
    lemma_condition_patch(gated);
    assert(is_condition_patch(gated_patch(), gated));
    let failed = condition("PodScheduled"@, "False"@, "Unschedulable"@, message);
    lemma_condition("PodScheduled"@, "False"@, "Unschedulable"@, message);
    lemma_condition_patch(failed);
    assert(is_condition_patch(unschedulable_patch(message), failed));
    let words = "u7s-scheduler: preempting to accommodate higher priority pod "@ + pod_name;
    let evicted = condition("DisruptionTarget"@, "True"@, "PreemptionByScheduler"@, words);
    lemma_condition("DisruptionTarget"@, "True"@, "PreemptionByScheduler"@, words);
    lemma_condition_patch(evicted);
    assert(is_condition_patch(disruption_patch(pod_name), evicted));
    let reset = JsonView::object().with("type"@, JsonView::Text("PodScheduled"@)).with(
        "reason"@,
        JsonView::Text("Unschedulable"@),
    ).with("message"@, JsonView::Text("pod not yet scheduled"@));
    lemma_condition_patch(reset);
    let f = reset->Object_0;
    assert(f.len() == 3);
    assert(f[0].name == "type"@ && f[0].value == JsonView::Text("PodScheduled"@));
    assert(f[1].name == "reason"@ && f[1].value == JsonView::Text("Unschedulable"@));
    assert(f[2].name == "message"@);
    assert(has_text(reset, "type"@, "PodScheduled"@));
    assert(has_text(reset, "reason"@, "Unschedulable"@));
    assert(is_condition_patch(ungated_patch(), reset));
}

proof fn lemma_condition(
    condition_type: Seq<char>,
    status: Seq<char>,
    reason: Seq<char>,
    message: Seq<char>,
)
    ensures
        ({
            let c = condition(condition_type, status, reason, message);
            &&& has_text(c, "type"@, condition_type)
            &&& has_text(c, "status"@, status)
            &&& has_text(c, "reason"@, reason)
            &&& has_text(c, "message"@, message)
        }),
{
    let c = condition(condition_type, status, reason, message);
    let f = c->Object_0;
    assert(f[0].name == "type"@ && f[0].value == JsonView::Text(condition_type));
    assert(f[1].name == "status"@ && f[1].value == JsonView::Text(status));
    assert(f[2].name == "reason"@ && f[2].value == JsonView::Text(reason));
    assert(f[3].name == "message"@ && f[3].value == JsonView::Text(message));
}

proof fn lemma_condition_patch(condition: JsonView)
    ensures
        is_condition_patch(conditions_patch(condition), condition),
{
    let inner = JsonView::object().with("conditions"@, JsonView::list_of(condition));
    assert(inner->Object_0 =~= seq![
        crate::json::JsonFieldView {
            name: "conditions"@,
            value: JsonView::List(seq![condition]),
        },
    ]);
    let outer = conditions_patch(condition);
    assert(outer->Object_0 =~= seq![
        crate::json::JsonFieldView { name: "status"@, value: inner },
    ]);
}

} // verus!
