use scheduler::{
    needs_scheduling, pods_needing_resync, referenced_pvc_names, should_schedule, HostPortClaim,
    NodeAffinity, NodeSelectorRequirement, NodeSelectorSpec, NodeSelectorTerm, PodObject,
    StringMap, StringSet, Toleration, WatchEvent,
};
use scheduler::container::{ContainerPortSpec, ContainerResources, ContainerSpec};
use scheduler::pod::{
    Affinity, PersistentVolumeClaimVolumeSource, PodCondition, PodMetadata, PodSpec, PodStatus,
    PodVolume,
};
use serde_json::Value;

fn parse(text: &str) -> Value {
    serde_json::from_str(text).unwrap()
}

fn text_of(object: &Value, name: &str) -> Option<String> {
    object[name].as_str().map(|s| s.to_owned())
}

fn array_of<T>(object: &Value, name: &str, item: fn(&Value) -> T) -> Vec<T> {
    match object[name].as_array() {
        Some(items) => items.iter().map(item).collect(),
        None => Vec::new(),
    }
}

fn texts_of(object: &Value, name: &str) -> StringMap<String> {
    let mut map = StringMap::new();
    if let Some(fields) = object[name].as_object() {
        for (key, value) in fields {
            map.insert(key.clone(), value.as_str().unwrap().to_owned());
        }
    }
    map
}

fn event_of<T>(text: &str, object: fn(&Value) -> T) -> WatchEvent<T> {
    let event = parse(text);
    match (event["type"].as_str(), event.get("object")) {
        (Some(event_type), Some(value)) => WatchEvent {
            event_type: event_type.to_owned(),
            object: Some(object(value)),
        },
        _ => WatchEvent { event_type: String::new(), object: None },
    }
}

fn requirement_of(value: &Value) -> NodeSelectorRequirement {
    NodeSelectorRequirement {
        key: text_of(value, "key").unwrap(),
        operator: text_of(value, "operator").unwrap(),
        values: array_of(value, "values", |v| v.as_str().unwrap().to_owned()),
    }
}

fn term_of(value: &Value) -> NodeSelectorTerm {
    NodeSelectorTerm {
        match_expressions: array_of(value, "matchExpressions", requirement_of),
        match_fields: array_of(value, "matchFields", requirement_of),
    }
}

fn affinity_of(value: &Value) -> Affinity {
    let node = value.get("nodeAffinity");
    Affinity {
        node_affinity: node.map(|affinity| NodeAffinity {
            required_during_scheduling_ignored_during_execution: affinity
                .get("requiredDuringSchedulingIgnoredDuringExecution")
                .map(|required| NodeSelectorSpec {
                    node_selector_terms: array_of(required, "nodeSelectorTerms", term_of),
                }),
        }),
        pod_affinity: None,
        pod_anti_affinity: None,
    }
}

fn toleration_of(value: &Value) -> Toleration {
    Toleration {
        key: text_of(value, "key"),
        operator: text_of(value, "operator"),
        value: text_of(value, "value"),
        effect: text_of(value, "effect"),
    }
}

fn port_of(value: &Value) -> ContainerPortSpec {
    ContainerPortSpec {
        host_port: value["hostPort"].as_i64().map(|port| port as i32),
        host_ip: text_of(value, "hostIP").unwrap_or_default(),
        protocol: text_of(value, "protocol"),
    }
}

fn container_of(value: &Value) -> ContainerSpec {
    ContainerSpec {
        resources: ContainerResources { requests: texts_of(&value["resources"], "requests") },
        ports: if value["ports"].is_null() { None } else { Some(array_of(value, "ports", port_of)) },
    }
}

fn metadata_of(value: &Value) -> PodMetadata {
    PodMetadata {
        name: text_of(value, "name"),
        namespace: text_of(value, "namespace"),
        labels: texts_of(value, "labels"),
    }
}

fn spec_of(value: &Value) -> PodSpec {
    PodSpec {
        node_name: text_of(value, "nodeName"),
        node_selector: value.get("nodeSelector").map(|_| texts_of(value, "nodeSelector")),
        priority: value["priority"].as_i64().map(|priority| priority as i32),
        scheduling_gates: value.get("schedulingGates").map(|_| {
            array_of(value, "schedulingGates", |gate| text_of(gate, "name").unwrap())
        }),
        tolerations: value.get("tolerations").map(|_| array_of(value, "tolerations", toleration_of)),
        affinity: value.get("affinity").map(affinity_of),
        containers: array_of(value, "containers", container_of),
        volumes: None,
        topology_spread_constraints: Vec::new(),
        overhead: texts_of(value, "overhead"),
    }
}

fn condition_of(value: &Value) -> PodCondition {
    PodCondition {
        condition_type: text_of(value, "type"),
        status: text_of(value, "status"),
        reason: text_of(value, "reason"),
        message: text_of(value, "message"),
    }
}

fn pod_of(value: &Value) -> PodObject {
    PodObject {
        metadata: metadata_of(&value["metadata"]),
        spec: spec_of(&value["spec"]),
        status: PodStatus { conditions: array_of(&value["status"], "conditions", condition_of) },
    }
}

fn pod_object(text: &str) -> PodObject {
    pod_of(&parse(text))
}

fn pod_event(text: &str) -> WatchEvent<PodObject> {
    event_of(text, pod_of)
}

fn resync_name(event: &WatchEvent<PodObject>) -> &str {
    event.object.as_ref().unwrap().metadata.name.as_deref().unwrap()
}

fn host_port_claim(host_port: u16, host_ip: &str, protocol: &str) -> HostPortClaim {
    HostPortClaim { host_port, host_ip: host_ip.to_owned(), protocol: protocol.to_owned() }
}

#[test]
fn referenced_pvc_names_includes_direct_claim_name() {
    let volumes = vec![PodVolume {
        name: "data".to_owned(),
        persistent_volume_claim: Some(PersistentVolumeClaimVolumeSource {
            claim_name: "data-pvc".to_owned(),
        }),
        ephemeral: false,
    }];
    assert_eq!(referenced_pvc_names("web-0", &volumes), vec!["data-pvc".to_owned()]);
}

#[test]
fn referenced_pvc_names_derives_ephemeral_pvc_name_from_pod_and_volume_name() {
    let volumes = vec![PodVolume {
        name: "scratch".to_owned(),
        persistent_volume_claim: None,
        ephemeral: true,
    }];
    assert_eq!(referenced_pvc_names("web-0", &volumes), vec!["web-0-scratch".to_owned()]);
}

#[test]
fn referenced_pvc_names_ignores_volumes_with_no_pvc_source() {
    let volumes = vec![PodVolume {
        name: "config".to_owned(),
        persistent_volume_claim: None,
        ephemeral: false,
    }];
    assert!(referenced_pvc_names("web-0", &volumes).is_empty());
}

#[test]
fn should_schedule_returns_true_for_key_not_in_flight() {
    let in_flight = StringSet::new();
    assert!(should_schedule(&in_flight, "default/my-pod"));
}

#[test]
fn should_schedule_returns_false_when_key_already_in_flight() {
    let mut in_flight = StringSet::new();
    in_flight.insert("default/my-pod".to_owned());
    assert!(!should_schedule(&in_flight, "default/my-pod"));
}

#[test]
fn should_schedule_is_key_specific() {
    let mut in_flight = StringSet::new();
    in_flight.insert("default/pod-a".to_owned());
    assert!(should_schedule(&in_flight, "default/pod-b"));
    assert!(!should_schedule(&in_flight, "default/pod-a"));
}

#[test]
fn should_schedule_key_uses_namespace_slash_name_format() {
    let mut in_flight = StringSet::new();
    in_flight.insert("default/coredns".to_owned());
    assert!(should_schedule(&in_flight, "kube-system/coredns"));
}

#[test]
fn pods_needing_resync_includes_a_still_unscheduled_pod() {
    let items = vec![pod_object(r#"{
        "metadata": { "name": "stranded-pod", "namespace": "kube-system" },
        "spec": { "nodeName": "" }
    }"#)];
    let in_flight = StringSet::new();
    let events = pods_needing_resync(&items, &in_flight);
    assert_eq!(events.len(), 1);
    assert_eq!(events[0].event_type, "MODIFIED");
    assert_eq!(resync_name(&events[0]), "stranded-pod");
}

#[test]
fn pods_needing_resync_includes_a_pod_with_nodename_key_entirely_absent() {
    let items = vec![pod_object(r#"{
        "metadata": { "name": "never-scheduled-pod", "namespace": "kube-system" },
        "spec": {}
    }"#)];
    let in_flight = StringSet::new();
    let events = pods_needing_resync(&items, &in_flight);
    assert_eq!(events.len(), 1);
    assert_eq!(resync_name(&events[0]), "never-scheduled-pod");
}

#[test]
fn pods_needing_resync_excludes_an_already_scheduled_pod() {
    let items = vec![pod_object(r#"{
        "metadata": { "name": "bound-pod", "namespace": "default" },
        "spec": { "nodeName": "node-1" }
    }"#)];
    let in_flight = StringSet::new();
    assert!(pods_needing_resync(&items, &in_flight).is_empty());
}

#[test]
fn pods_needing_resync_excludes_a_pod_already_in_flight() {
    let items = vec![pod_object(r#"{
        "metadata": { "name": "stranded-pod", "namespace": "kube-system" },
        "spec": { "nodeName": "" }
    }"#)];
    let mut in_flight = StringSet::new();
    in_flight.insert("kube-system/stranded-pod".to_owned());
    assert!(pods_needing_resync(&items, &in_flight).is_empty());
}

#[test]
fn pods_needing_resync_includes_a_pod_with_nominated_node_name_set() {
    let items = vec![pod_object(r#"{
        "metadata": { "name": "preemptor-pod", "namespace": "default" },
        "spec": { "nodeName": "" },
        "status": { "nominatedNodeName": "worker-0" }
    }"#)];
    let in_flight = StringSet::new();
    let events = pods_needing_resync(&items, &in_flight);
    assert_eq!(events.len(), 1);
    assert_eq!(resync_name(&events[0]), "preemptor-pod");
}

#[test]
fn pods_needing_resync_reordered_filter_matches_pre_reorder_exclusion_set() {
    let items = vec![
        pod_object(r#"{
        "metadata": { "name": "stranded", "namespace": "default" },
        "spec": { "nodeName": "" }
    }"#),
        pod_object(r#"{
        "metadata": { "name": "bound", "namespace": "default" },
        "spec": { "nodeName": "node-1" }
    }"#),
        pod_object(r#"{
        "metadata": { "name": "gated", "namespace": "default" },
        "spec": { "nodeName": "", "schedulingGates": [{"name": "example.com/gate"}] }
    }"#),
        pod_object(r#"{
        "metadata": { "name": "in-flight", "namespace": "default" },
        "spec": { "nodeName": "" }
    }"#),
    ];
    let mut in_flight = StringSet::new();
    in_flight.insert("default/in-flight".to_owned());
    let events = pods_needing_resync(&items, &in_flight);
    let names: Vec<&str> = events.iter().map(resync_name).collect();
    assert_eq!(names, vec!["stranded"]);
}

#[test]
fn needs_scheduling_returns_none_for_non_pod_events() {
    let event = pod_event(r#"{ "type": "DELETED", "object": { "metadata": { "name": "foo", "namespace": "default" }, "spec": {} } }"#);
    assert!(needs_scheduling(&event).is_none());
}

#[test]
fn needs_scheduling_returns_none_when_already_scheduled() {
    let event = pod_event(r#"{
        "type": "MODIFIED",
        "object": {
            "metadata": { "name": "foo", "namespace": "kube-system" },
            "spec": { "nodeName": "node-1" }
        }
    }"#);
    assert!(needs_scheduling(&event).is_none());
}

#[test]
fn needs_scheduling_returns_namespace_from_event() {
    let event = pod_event(r#"{
        "type": "ADDED",
        "object": {
            "metadata": { "name": "coredns-abc", "namespace": "kube-system" },
            "spec": { "nodeName": "" }
        }
    }"#);
    let result = needs_scheduling(&event);
    assert!(result.is_some());
    let pending = result.unwrap();
    assert_eq!(pending.namespace, "kube-system");
    assert_eq!(pending.pod_name, "coredns-abc");
}

#[test]
fn needs_scheduling_returns_some_for_unscheduled_pod_in_default() {
    let event = pod_event(r#"{
        "type": "ADDED",
        "object": {
            "metadata": { "name": "my-pod", "namespace": "default" },
            "spec": {}
        }
    }"#);
    let result = needs_scheduling(&event);
    assert!(result.is_some());
    let pending = result.unwrap();
    assert_eq!(pending.namespace, "default");
    assert_eq!(pending.pod_name, "my-pod");
}

#[test]
fn needs_scheduling_returns_none_when_event_type_missing() {
    let event = pod_event(r#"{
        "object": {
            "metadata": { "name": "my-pod", "namespace": "default" },
            "spec": {}
        }
    }"#);
    assert!(needs_scheduling(&event).is_none());
}

#[test]
fn needs_scheduling_returns_none_when_pod_name_empty() {
    let event = pod_event(r#"{
        "type": "ADDED",
        "object": {
            "metadata": { "name": "", "namespace": "default" },
            "spec": {}
        }
    }"#);
    assert!(needs_scheduling(&event).is_none());
}

#[test]
fn needs_scheduling_defaults_namespace_to_default_when_absent() {
    let event = pod_event(r#"{
        "type": "ADDED",
        "object": {
            "metadata": { "name": "no-ns-pod" },
            "spec": {}
        }
    }"#);
    let pending = needs_scheduling(&event).unwrap();
    assert_eq!(pending.namespace, "default");
    assert_eq!(pending.pod_name, "no-ns-pod");
}

#[test]
fn needs_scheduling_handles_modified_unscheduled_pod() {
    let event = pod_event(r#"{
        "type": "MODIFIED",
        "object": {
            "metadata": { "name": "pending-pod", "namespace": "staging" },
            "spec": { "nodeName": null }
        }
    }"#);
    let result = needs_scheduling(&event);
    assert!(result.is_some());
    let pending = result.unwrap();
    assert_eq!(pending.namespace, "staging");
    assert_eq!(pending.pod_name, "pending-pod");
}

#[test]
fn needs_scheduling_returns_none_when_scheduling_gates_non_empty() {
    let event = pod_event(r#"{
        "type": "ADDED",
        "object": {
            "metadata": { "name": "gated-pod", "namespace": "default" },
            "spec": { "schedulingGates": [{"name": "foo"}, {"name": "bar"}] }
        }
    }"#);
    assert!(needs_scheduling(&event).is_none());
}

#[test]
fn needs_scheduling_returns_some_when_scheduling_gates_is_empty_array() {
    let event = pod_event(r#"{
        "type": "ADDED",
        "object": {
            "metadata": { "name": "ungated-pod", "namespace": "default" },
            "spec": { "schedulingGates": [] }
        }
    }"#);
    assert!(needs_scheduling(&event).is_some());
}

#[test]
fn needs_scheduling_returns_none_for_bookmark_event() {
    let event = pod_event(r#"{
        "type": "BOOKMARK",
        "object": {
            "metadata": { "name": "some-pod", "namespace": "default" },
            "spec": {}
        }
    }"#);
    assert!(needs_scheduling(&event).is_none());
}

#[test]
fn needs_scheduling_returns_none_for_non_object_event() {
    let event = pod_event("42");
    assert!(needs_scheduling(&event).is_none());
}

#[test]
fn needs_scheduling_returns_some_when_node_name_is_null() {
    let event = pod_event(r#"{
        "type": "ADDED",
        "object": {
            "metadata": { "name": "null-node-pod", "namespace": "default" },
            "spec": { "nodeName": null }
        }
    }"#);
    let result = needs_scheduling(&event);
    assert!(result.is_some());
    let pending = result.unwrap();
    assert_eq!(pending.namespace, "default");
    assert_eq!(pending.pod_name, "null-node-pod");
}

#[test]
fn needs_scheduling_returns_tolerations_from_event() {
    let event = pod_event(r#"{
        "type": "ADDED",
        "object": {
            "metadata": { "name": "tolerant-pod", "namespace": "default" },
            "spec": {
                "tolerations": [
                    { "key": "dedicated", "operator": "Equal", "value": "gpu", "effect": "NoSchedule" }
                ]
            }
        }
    }"#);
    let pending = needs_scheduling(&event).unwrap();
    assert_eq!(pending.tolerations.len(), 1);
    assert_eq!(pending.tolerations[0].key.as_deref(), Some("dedicated"));
    assert_eq!(pending.tolerations[0].effect.as_deref(), Some("NoSchedule"));
}

#[test]
fn needs_scheduling_returns_empty_tolerations_when_absent() {
    let event = pod_event(r#"{
        "type": "ADDED",
        "object": {
            "metadata": { "name": "plain-pod", "namespace": "default" },
            "spec": {}
        }
    }"#);
    let pending = needs_scheduling(&event).unwrap();
    assert!(pending.tolerations.is_empty());
}

#[test]
fn needs_scheduling_returns_node_affinity_from_event() {
    let event = pod_event(r#"{
        "type": "ADDED",
        "object": {
            "metadata": { "name": "restricted-pod", "namespace": "default" },
            "spec": {
                "affinity": {
                    "nodeAffinity": {
                        "requiredDuringSchedulingIgnoredDuringExecution": {
                            "nodeSelectorTerms": [
                                { "matchExpressions": [
                                    { "key": "foo", "operator": "In", "values": ["bar"] }
                                ] }
                            ]
                        }
                    }
                }
            }
        }
    }"#);
    let pending = needs_scheduling(&event).unwrap();
    let affinity = pending.node_affinity.unwrap();
    let required = affinity.required_during_scheduling_ignored_during_execution.unwrap();
    assert_eq!(required.node_selector_terms.len(), 1);
    assert_eq!(required.node_selector_terms[0].match_expressions[0].key, "foo");
}

#[test]
fn needs_scheduling_returns_none_node_affinity_when_absent() {
    let event = pod_event(r#"{
        "type": "ADDED",
        "object": {
            "metadata": { "name": "plain-pod", "namespace": "default" },
            "spec": {}
        }
    }"#);
    let pending = needs_scheduling(&event).unwrap();
    assert!(pending.node_affinity.is_none());
}

#[test]
fn needs_scheduling_extracts_host_port_claims() {
    let event = pod_event(r#"{
        "type": "ADDED",
        "object": {
            "metadata": { "name": "hostport-pod", "namespace": "default" },
            "spec": {
                "containers": [{
                    "ports": [{
                        "hostPort": 54322,
                        "containerPort": 8080,
                        "protocol": "TCP",
                        "hostIP": "203.0.113.10"
                    }]
                }]
            }
        }
    }"#);
    let pending = needs_scheduling(&event).unwrap();
    assert_eq!(pending.host_ports, vec![host_port_claim(54322, "203.0.113.10", "TCP")]);
}

#[test]
fn needs_scheduling_ignores_container_ports_without_host_port() {
    let event = pod_event(r#"{
        "type": "ADDED",
        "object": {
            "metadata": { "name": "plain-port-pod", "namespace": "default" },
            "spec": {
                "containers": [{
                    "ports": [{ "containerPort": 8080 }]
                }]
            }
        }
    }"#);
    let pending = needs_scheduling(&event).unwrap();
    assert!(pending.host_ports.is_empty());
}

#[test]
fn needs_scheduling_defaults_host_port_protocol_to_tcp() {
    let event = pod_event(r#"{
        "type": "ADDED",
        "object": {
            "metadata": { "name": "no-protocol-pod", "namespace": "default" },
            "spec": {
                "containers": [{
                    "ports": [{ "hostPort": 8080 }]
                }]
            }
        }
    }"#);
    let pending = needs_scheduling(&event).unwrap();
    assert_eq!(pending.host_ports, vec![host_port_claim(8080, "", "TCP")]);
}

#[test]
fn needs_scheduling_tolerates_null_ports_field() {
    let event = pod_event(r#"{
        "type": "ADDED",
        "object": {
            "metadata": { "name": "sonobuoy-like-pod", "namespace": "default" },
            "spec": {
                "containers": [{ "name": "kube-sonobuoy", "ports": null }]
            }
        }
    }"#);
    let pending = needs_scheduling(&event);
    assert!(pending.is_some());
    assert!(pending.unwrap().host_ports.is_empty());
}

#[test]
fn needs_scheduling_returns_resource_requests_from_event() {
    let event = pod_event(r#"{
        "type": "ADDED",
        "object": {
            "metadata": { "name": "big-pod", "namespace": "default" },
            "spec": {
                "containers": [
                    { "resources": { "requests": { "cpu": "2", "memory": "4Gi" } } }
                ]
            }
        }
    }"#);
    let pending = needs_scheduling(&event).unwrap();
    assert_eq!(pending.requests.cpu_milli, 2000);
    assert_eq!(pending.requests.memory_milli, 4 * 1024 * 1024 * 1024 * 1000);
}

#[test]
fn needs_scheduling_sums_requests_across_multiple_containers() {
    let event = pod_event(r#"{
        "type": "ADDED",
        "object": {
            "metadata": { "name": "multi-container-pod", "namespace": "default" },
            "spec": {
                "containers": [
                    { "resources": { "requests": { "cpu": "500m" } } },
                    { "resources": { "requests": { "cpu": "500m" } } }
                ]
            }
        }
    }"#);
    let pending = needs_scheduling(&event).unwrap();
    assert_eq!(pending.requests.cpu_milli, 1000);
}

#[test]
fn needs_scheduling_captures_extended_resource_requests() {
    let event = pod_event(r#"{
        "type": "ADDED",
        "object": {
            "metadata": { "name": "gpu-pod", "namespace": "default" },
            "spec": {
                "containers": [
                    { "resources": { "requests": { "scheduling.k8s.io/foo": "2" } } }
                ]
            }
        }
    }"#);
    let pending = needs_scheduling(&event).unwrap();
    assert_eq!(pending.requests.extended.get("scheduling.k8s.io/foo"), Some(&2000));
}

#[test]
fn needs_scheduling_returns_node_selector_from_event() {
    let event = pod_event(r#"{
        "type": "ADDED",
        "object": {
            "metadata": { "name": "restricted-pod", "namespace": "sched-pred" },
            "spec": {
                "nodeSelector": {
                    "scheduledOnNode": "lima-node-2"
                }
            }
        }
    }"#);
    let result = needs_scheduling(&event);
    assert!(result.is_some());
    let pending = result.unwrap();
    assert_eq!(pending.namespace, "sched-pred");
    assert_eq!(pending.pod_name, "restricted-pod");
    assert_eq!(pending
            .node_selector
            .get("scheduledOnNode")
            .map(|s| s.as_str()), Some("lima-node-2"));
}

#[test]
fn needs_scheduling_returns_empty_selector_when_no_node_selector() {
    let event = pod_event(r#"{
        "type": "ADDED",
        "object": {
            "metadata": { "name": "normal-pod", "namespace": "default" },
            "spec": {}
        }
    }"#);
    let pending = needs_scheduling(&event).unwrap();
    assert!(pending.node_selector.is_empty());
}

#[test]
fn needs_scheduling_returns_priority_from_event() {
    let event = pod_event(r#"{
        "type": "ADDED",
        "object": {
            "metadata": { "name": "high-pod", "namespace": "default" },
            "spec": { "priority": 1000 }
        }
    }"#);
    let pending = needs_scheduling(&event).unwrap();
    assert_eq!(pending.priority, 1000);
}

#[test]
fn needs_scheduling_defaults_priority_to_zero_when_absent() {
    let event = pod_event(r#"{
        "type": "ADDED",
        "object": {
            "metadata": { "name": "plain-pod", "namespace": "default" },
            "spec": {}
        }
    }"#);
    let pending = needs_scheduling(&event).unwrap();
    assert_eq!(pending.priority, 0);
}
