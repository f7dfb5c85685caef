use scheduler::{
    disruption_target_patch, failed_scheduling_status_patch, nominated_node_name_patch,
    scheduling_gate_status_patch, scheduling_gate_status_reset, Json, NodeAffinity,
    NodeSelectorRequirement, NodeSelectorSpec, NodeSelectorTerm, PodObject, StringMap, Toleration,
    WatchEvent,
};
use scheduler::container::{ContainerPortSpec, ContainerResources, ContainerSpec};
use scheduler::pod::{Affinity, PodCondition, PodMetadata, PodSpec, PodStatus};
use serde_json::Value;

fn parse(text: &str) -> Value {
    serde_json::from_str(text).unwrap()
}

fn to_value(json: &Json) -> Value {
    match json {
        Json::Number(n) => Value::Number((*n).into()),
        Json::Text(t) => Value::String(t.clone()),
        Json::List(items) => Value::Array(items.iter().map(to_value).collect()),
        Json::Object(fields) => Value::Object(
            fields.iter().map(|field| (field.name.clone(), to_value(&field.value))).collect(),
        ),
    }
}

fn text_of(object: &Value, name: &str) -> Option<String> {
    object[name].as_str().map(|s| s.to_owned())
}

fn array_of<T>(object: &Value, name: &str, item: fn(&Value) -> T) -> Vec<T> {
    match object[name].as_array() {
        Some(items) => items.iter().map(item).collect(),
        None => Vec::new(),
    }
}

fn texts_of(object: &Value, name: &str) -> StringMap<String> {
    let mut map = StringMap::new();
    if let Some(fields) = object[name].as_object() {
        for (key, value) in fields {
            map.insert(key.clone(), value.as_str().unwrap().to_owned());
        }
    }
    map
}

fn event_of<T>(text: &str, object: fn(&Value) -> T) -> WatchEvent<T> {
    let event = parse(text);
    match (event["type"].as_str(), event.get("object")) {
        (Some(event_type), Some(value)) => WatchEvent {
            event_type: event_type.to_owned(),
            object: Some(object(value)),
        },
        _ => WatchEvent { event_type: String::new(), object: None },
    }
}

fn requirement_of(value: &Value) -> NodeSelectorRequirement {
    NodeSelectorRequirement {
        key: text_of(value, "key").unwrap(),
        operator: text_of(value, "operator").unwrap(),
        values: array_of(value, "values", |v| v.as_str().unwrap().to_owned()),
    }
}

fn term_of(value: &Value) -> NodeSelectorTerm {
    NodeSelectorTerm {
        match_expressions: array_of(value, "matchExpressions", requirement_of),
        match_fields: array_of(value, "matchFields", requirement_of),
    }
}

fn affinity_of(value: &Value) -> Affinity {
    let node = value.get("nodeAffinity");
    Affinity {
        node_affinity: node.map(|affinity| NodeAffinity {
            required_during_scheduling_ignored_during_execution: affinity
                .get("requiredDuringSchedulingIgnoredDuringExecution")
                .map(|required| NodeSelectorSpec {
                    node_selector_terms: array_of(required, "nodeSelectorTerms", term_of),
                }),
        }),
        pod_affinity: None,
        pod_anti_affinity: None,
    }
}

fn toleration_of(value: &Value) -> Toleration {
    Toleration {
        key: text_of(value, "key"),
        operator: text_of(value, "operator"),
        value: text_of(value, "value"),
        effect: text_of(value, "effect"),
    }
}

fn port_of(value: &Value) -> ContainerPortSpec {
    ContainerPortSpec {
        host_port: value["hostPort"].as_i64().map(|port| port as i32),
        host_ip: text_of(value, "hostIP").unwrap_or_default(),
        protocol: text_of(value, "protocol"),
    }
}

fn container_of(value: &Value) -> ContainerSpec {
    ContainerSpec {
        resources: ContainerResources { requests: texts_of(&value["resources"], "requests") },
        ports: if value["ports"].is_null() { None } else { Some(array_of(value, "ports", port_of)) },
    }
}

fn metadata_of(value: &Value) -> PodMetadata {
    PodMetadata {
        name: text_of(value, "name"),
        namespace: text_of(value, "namespace"),
        labels: texts_of(value, "labels"),
    }
}

fn spec_of(value: &Value) -> PodSpec {
    PodSpec {
        node_name: text_of(value, "nodeName"),
        node_selector: value.get("nodeSelector").map(|_| texts_of(value, "nodeSelector")),
        priority: value["priority"].as_i64().map(|priority| priority as i32),
        scheduling_gates: value.get("schedulingGates").map(|_| {
            array_of(value, "schedulingGates", |gate| text_of(gate, "name").unwrap())
        }),
        tolerations: value.get("tolerations").map(|_| array_of(value, "tolerations", toleration_of)),
        affinity: value.get("affinity").map(affinity_of),
        containers: array_of(value, "containers", container_of),
        volumes: None,
        topology_spread_constraints: Vec::new(),
        overhead: texts_of(value, "overhead"),
    }
}

fn condition_of(value: &Value) -> PodCondition {
    PodCondition {
        condition_type: text_of(value, "type"),
        status: text_of(value, "status"),
        reason: text_of(value, "reason"),
        message: text_of(value, "message"),
    }
}

fn pod_of(value: &Value) -> PodObject {
    PodObject {
        metadata: metadata_of(&value["metadata"]),
        spec: spec_of(&value["spec"]),
        status: PodStatus { conditions: array_of(&value["status"], "conditions", condition_of) },
    }
}

fn pod_event(text: &str) -> WatchEvent<PodObject> {
    event_of(text, pod_of)
}

#[test]
fn scheduling_gate_status_patch_sets_condition_when_absent() {
    let event = pod_event(r#"{
        "type": "ADDED",
        "object": {
            "metadata": { "name": "gated-pod", "namespace": "default" },
            "spec": { "schedulingGates": [{"name": "foo"}, {"name": "bar"}] }
        }
    }"#);
    let patch = scheduling_gate_status_patch(&event).unwrap();
    assert_eq!(patch.namespace, "default");
    assert_eq!(patch.pod_name, "gated-pod");
    let patch = to_value(&patch.patch);
    let cond = &patch["status"]["conditions"][0];
    assert_eq!(cond["type"], "PodScheduled");
    assert_eq!(cond["status"], "False");
    assert_eq!(cond["reason"], "SchedulingGated");
}

#[test]
fn scheduling_gate_status_patch_sets_condition_over_create_time_default() {
    let event = pod_event(r#"{
        "type": "ADDED",
        "object": {
            "metadata": { "name": "gated-pod", "namespace": "default" },
            "spec": { "schedulingGates": [{"name": "foo"}] },
            "status": {
                "conditions": [
                    {"type": "PodScheduled", "status": "False", "reason": "Unschedulable", "message": "pod not yet scheduled"}
                ]
            }
        }
    }"#);
    let patch = scheduling_gate_status_patch(&event).unwrap();
    assert_eq!(to_value(&patch.patch)["status"]["conditions"][0]["reason"], "SchedulingGated");
}

#[test]
fn scheduling_gate_status_patch_is_idempotent_once_already_marked() {
    let event = pod_event(r#"{
        "type": "MODIFIED",
        "object": {
            "metadata": { "name": "gated-pod", "namespace": "default" },
            "spec": { "schedulingGates": [{"name": "bar"}] },
            "status": {
                "conditions": [
                    {"type": "PodScheduled", "status": "False", "reason": "SchedulingGated", "message": "Scheduling is blocked due to non-empty scheduling gates"}
                ]
            }
        }
    }"#);
    assert!(scheduling_gate_status_patch(&event).is_none());
}

#[test]
fn scheduling_gate_status_patch_is_none_when_gates_empty() {
    let event = pod_event(r#"{
        "type": "ADDED",
        "object": {
            "metadata": { "name": "normal-pod", "namespace": "default" },
            "spec": { "schedulingGates": [] }
        }
    }"#);
    assert!(scheduling_gate_status_patch(&event).is_none());
}

#[test]
fn scheduling_gate_status_patch_is_none_when_already_scheduled() {
    let event = pod_event(r#"{
        "type": "MODIFIED",
        "object": {
            "metadata": { "name": "gated-pod", "namespace": "default" },
            "spec": { "nodeName": "node-1", "schedulingGates": [{"name": "foo"}] }
        }
    }"#);
    assert!(scheduling_gate_status_patch(&event).is_none());
}

#[test]
fn scheduling_gate_status_reset_clears_stale_reason_once_gates_fully_removed() {
    let event = pod_event(r#"{
        "type": "MODIFIED",
        "object": {
            "metadata": { "name": "gated-pod", "namespace": "default" },
            "spec": { "schedulingGates": [] },
            "status": {
                "conditions": [
                    {"type": "PodScheduled", "status": "False", "reason": "SchedulingGated", "message": "Scheduling is blocked due to non-empty scheduling gates"}
                ]
            }
        }
    }"#);
    let patch = to_value(&scheduling_gate_status_reset(&event).unwrap());
    assert_eq!(patch["status"]["conditions"][0]["reason"], "Unschedulable");
}

#[test]
fn scheduling_gate_status_reset_is_none_while_one_gate_remains() {
    let event = pod_event(r#"{
        "type": "MODIFIED",
        "object": {
            "metadata": { "name": "gated-pod", "namespace": "default" },
            "spec": { "schedulingGates": [{"name": "bar"}] },
            "status": {
                "conditions": [
                    {"type": "PodScheduled", "status": "False", "reason": "SchedulingGated", "message": "Scheduling is blocked due to non-empty scheduling gates"}
                ]
            }
        }
    }"#);
    assert!(scheduling_gate_status_reset(&event).is_none());
}

#[test]
fn scheduling_gate_status_reset_is_none_once_already_scheduled() {
    let event = pod_event(r#"{
        "type": "MODIFIED",
        "object": {
            "metadata": { "name": "gated-pod", "namespace": "default" },
            "spec": { "nodeName": "node-1", "schedulingGates": [] },
            "status": {
                "conditions": [
                    {"type": "PodScheduled", "status": "True", "reason": "PodScheduled", "message": ""}
                ]
            }
        }
    }"#);
    assert!(scheduling_gate_status_reset(&event).is_none());
}

#[test]
fn scheduling_gate_status_reset_is_none_for_a_pod_that_was_never_gated() {
    let event = pod_event(r#"{
        "type": "ADDED",
        "object": {
            "metadata": { "name": "normal-pod", "namespace": "default" },
            "spec": { "schedulingGates": [] },
            "status": {
                "conditions": [
                    {"type": "PodScheduled", "status": "False", "reason": "Unschedulable", "message": "pod not yet scheduled"}
                ]
            }
        }
    }"#);
    assert!(scheduling_gate_status_reset(&event).is_none());
}

#[test]
fn scheduling_gate_status_reset_patch_omits_status_field() {
    let event = pod_event(r#"{
        "type": "MODIFIED",
        "object": {
            "metadata": { "name": "gated-pod", "namespace": "default" },
            "spec": { "schedulingGates": [] },
            "status": {
                "conditions": [
                    {"type": "PodScheduled", "status": "False", "reason": "SchedulingGated", "message": "Scheduling is blocked due to non-empty scheduling gates"}
                ]
            }
        }
    }"#);
    let patch = to_value(&scheduling_gate_status_reset(&event).unwrap());
    assert!(patch["status"]["conditions"][0].get("status").is_none());
}

#[test]
fn failed_scheduling_status_patch_sets_pod_scheduled_false() {
    let event = pod_event(r#"{
        "type": "ADDED",
        "object": {
            "metadata": { "name": "p", "namespace": "default" },
            "spec": {}
        }
    }"#);
    let patch = to_value(&failed_scheduling_status_patch(&event, "no node fits").unwrap());
    let cond = &patch["status"]["conditions"][0];
    assert_eq!(cond["type"], "PodScheduled");
    assert_eq!(cond["status"], "False");
    assert_eq!(cond["reason"], "Unschedulable");
    assert_eq!(cond["message"], "no node fits");
}

#[test]
fn failed_scheduling_status_patch_is_none_once_already_marked_with_same_message() {
    let event = pod_event(r#"{
        "type": "MODIFIED",
        "object": {
            "metadata": { "name": "p", "namespace": "default" },
            "spec": {},
            "status": {
                "conditions": [
                    {"type": "PodScheduled", "status": "False", "reason": "Unschedulable", "message": "no node fits"}
                ]
            }
        }
    }"#);
    assert!(failed_scheduling_status_patch(&event, "no node fits").is_none());
}

#[test]
fn failed_scheduling_status_patch_fires_again_when_message_changes() {
    let event = pod_event(r#"{
        "type": "MODIFIED",
        "object": {
            "metadata": { "name": "p", "namespace": "default" },
            "spec": {},
            "status": {
                "conditions": [
                    {"type": "PodScheduled", "status": "False", "reason": "Unschedulable", "message": "old reason"}
                ]
            }
        }
    }"#);
    assert!(failed_scheduling_status_patch(&event, "new reason").is_some());
}

#[test]
fn disruption_target_patch_sets_condition_type_status_and_reason() {
    let patch = to_value(&disruption_target_patch("preemptor-pod"));
    let condition = &patch["status"]["conditions"][0];
    assert_eq!(condition["type"], "DisruptionTarget");
    assert_eq!(condition["status"], "True");
    assert_eq!(condition["reason"], "PreemptionByScheduler");
}

#[test]
fn disruption_target_patch_message_names_the_preemptor() {
    let patch = to_value(&disruption_target_patch("high-priority-pod"));
    let message = patch["status"]["conditions"][0]["message"].as_str().unwrap();
    assert!(message.contains("high-priority-pod"));
}

#[test]
fn nominated_node_name_patch_yields_status_patch_with_target_node() {
    let patch = to_value(&nominated_node_name_patch("node-a"));
    assert_eq!(patch, parse(r#"{"status": {"nominatedNodeName": "node-a"}}"#));
}

#[test]
fn nominated_node_name_patch_names_the_planned_node() {
    let patch = to_value(&nominated_node_name_patch("worker-7"));
    assert_eq!(patch["status"]["nominatedNodeName"], "worker-7");
}
