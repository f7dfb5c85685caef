use scheduler::{
    needs_scheduling, parse_pod_capacity, parse_quantity_milli, resource_fits, NodeAffinity,
    NodeAllocatable, NodeSelectorRequirement, NodeSelectorSpec, NodeSelectorTerm, PodObject,
    ResourceRequests, StringMap, Toleration, WatchEvent,
};
use scheduler::container::{ContainerPortSpec, ContainerResources, ContainerSpec};
use scheduler::pod::{Affinity, PodCondition, PodMetadata, PodSpec, PodStatus};
use serde_json::Value;

fn parse(text: &str) -> Value {
    serde_json::from_str(text).unwrap()
}

fn text_of(object: &Value, name: &str) -> Option<String> {
    object[name].as_str().map(|s| s.to_owned())
}

fn array_of<T>(object: &Value, name: &str, item: fn(&Value) -> T) -> Vec<T> {
    match object[name].as_array() {
        Some(items) => items.iter().map(item).collect(),
        None => Vec::new(),
    }
}

fn texts_of(object: &Value, name: &str) -> StringMap<String> {
    let mut map = StringMap::new();
    if let Some(fields) = object[name].as_object() {
        for (key, value) in fields {
            map.insert(key.clone(), value.as_str().unwrap().to_owned());
        }
    }
    map
}

fn event_of<T>(text: &str, object: fn(&Value) -> T) -> WatchEvent<T> {
    let event = parse(text);
    match (event["type"].as_str(), event.get("object")) {
        (Some(event_type), Some(value)) => WatchEvent {
            event_type: event_type.to_owned(),
            object: Some(object(value)),
        },
        _ => WatchEvent { event_type: String::new(), object: None },
    }
}

fn requirement_of(value: &Value) -> NodeSelectorRequirement {
    NodeSelectorRequirement {
        key: text_of(value, "key").unwrap(),
        operator: text_of(value, "operator").unwrap(),
        values: array_of(value, "values", |v| v.as_str().unwrap().to_owned()),
    }
}

fn term_of(value: &Value) -> NodeSelectorTerm {
    NodeSelectorTerm {
        match_expressions: array_of(value, "matchExpressions", requirement_of),
        match_fields: array_of(value, "matchFields", requirement_of),
    }
}

fn affinity_of(value: &Value) -> Affinity {
    let node = value.get("nodeAffinity");
    Affinity {
        node_affinity: node.map(|affinity| NodeAffinity {
            required_during_scheduling_ignored_during_execution: affinity
                .get("requiredDuringSchedulingIgnoredDuringExecution")
                .map(|required| NodeSelectorSpec {
                    node_selector_terms: array_of(required, "nodeSelectorTerms", term_of),
                }),
        }),
        pod_affinity: None,
        pod_anti_affinity: None,
    }
}

fn toleration_of(value: &Value) -> Toleration {
    Toleration {
        key: text_of(value, "key"),
        operator: text_of(value, "operator"),
        value: text_of(value, "value"),
        effect: text_of(value, "effect"),
    }
}

fn port_of(value: &Value) -> ContainerPortSpec {
    ContainerPortSpec {
        host_port: value["hostPort"].as_i64().map(|port| port as i32),
        host_ip: text_of(value, "hostIP").unwrap_or_default(),
        protocol: text_of(value, "protocol"),
    }
}

fn container_of(value: &Value) -> ContainerSpec {
    ContainerSpec {
        resources: ContainerResources { requests: texts_of(&value["resources"], "requests") },
        ports: if value["ports"].is_null() { None } else { Some(array_of(value, "ports", port_of)) },
    }
}

fn metadata_of(value: &Value) -> PodMetadata {
    PodMetadata {
        name: text_of(value, "name"),
        namespace: text_of(value, "namespace"),
        labels: texts_of(value, "labels"),
    }
}

fn spec_of(value: &Value) -> PodSpec {
    PodSpec {
        node_name: text_of(value, "nodeName"),
        node_selector: value.get("nodeSelector").map(|_| texts_of(value, "nodeSelector")),
        priority: value["priority"].as_i64().map(|priority| priority as i32),
        scheduling_gates: value.get("schedulingGates").map(|_| {
            array_of(value, "schedulingGates", |gate| text_of(gate, "name").unwrap())
        }),
        tolerations: value.get("tolerations").map(|_| array_of(value, "tolerations", toleration_of)),
        affinity: value.get("affinity").map(affinity_of),
        containers: array_of(value, "containers", container_of),
        volumes: None,
        topology_spread_constraints: Vec::new(),
        overhead: texts_of(value, "overhead"),
    }
}

fn condition_of(value: &Value) -> PodCondition {
    PodCondition {
        condition_type: text_of(value, "type"),
        status: text_of(value, "status"),
        reason: text_of(value, "reason"),
        message: text_of(value, "message"),
    }
}

fn pod_of(value: &Value) -> PodObject {
    PodObject {
        metadata: metadata_of(&value["metadata"]),
        spec: spec_of(&value["spec"]),
        status: PodStatus { conditions: array_of(&value["status"], "conditions", condition_of) },
    }
}

fn pod_event(text: &str) -> WatchEvent<PodObject> {
    event_of(text, pod_of)
}

fn node_allocatable(cpu: &str, memory: &str, ephemeral_storage: &str) -> NodeAllocatable {
    NodeAllocatable {
        pods: String::new(),
        cpu: cpu.to_owned(),
        memory: memory.to_owned(),
        ephemeral_storage: ephemeral_storage.to_owned(),
        extended: Default::default(),
    }
}

fn requests(
    cpu_milli: i64,
    memory_milli: i64,
    ephemeral_storage_milli: i64,
) -> ResourceRequests {
    ResourceRequests {
        cpu_milli,
        memory_milli,
        ephemeral_storage_milli,
        extended: Default::default(),
    }
}

fn node_allocatable_extended(name: &str, capacity: &str) -> NodeAllocatable {
    NodeAllocatable {
        extended: StringMap::from_entries(vec![(name.to_owned(), capacity.to_owned())]),
        ..Default::default()
    }
}

fn extended_request(name: &str, amount: i64) -> ResourceRequests {
    let mut r = ResourceRequests::default();
    r.extended.insert(name.to_owned(), amount);
    r
}

#[test]
fn parse_pod_capacity_handles_standard_quantity() {
    assert_eq!(parse_pod_capacity("110"), 110);
    assert_eq!(parse_pod_capacity("0"), 0);
    assert_eq!(parse_pod_capacity(""), 0);
    assert_eq!(parse_pod_capacity("not-a-number"), 0);
}

#[test]
fn parse_quantity_milli_handles_cpu_milli_suffix() {
    assert_eq!(parse_quantity_milli("500m"), 500);
}

#[test]
fn parse_quantity_milli_handles_plain_cpu_cores() {
    assert_eq!(parse_quantity_milli("2"), 2000);
}

#[test]
fn parse_quantity_milli_handles_binary_memory_suffix() {
    assert_eq!(parse_quantity_milli("1Gi"), 1024 * 1024 * 1024 * 1000);
}

#[test]
fn parse_quantity_milli_returns_zero_for_empty_or_unparseable() {
    assert_eq!(parse_quantity_milli(""), 0);
    assert_eq!(parse_quantity_milli("not-a-quantity"), 0);
}

#[test]
fn parse_quantity_milli_fractional_plain_counts_toward_fit_check() {
    assert_eq!(parse_quantity_milli("1.5"), 1500);
}

#[test]
fn parse_quantity_milli_fractional_binary_suffix_counts_toward_fit_check() {
    assert_eq!(parse_quantity_milli("1.5Gi"), 1_610_612_736_000);
}

#[test]
fn parse_quantity_milli_negative_fractional_parses_exactly() {
    assert_eq!(parse_quantity_milli("-1.5"), -1500);
}

#[test]
fn parse_quantity_milli_integer_unaffected_by_fractional_support() {
    assert_eq!(parse_quantity_milli("2"), 2000);
    assert_eq!(parse_quantity_milli("30Gi"), 30 * 1024 * 1024 * 1024 * 1000);
}

#[test]
fn parse_quantity_milli_rejects_non_finite() {
    assert_eq!(parse_quantity_milli("NaN"), 0);
    assert_eq!(parse_quantity_milli("inf"), 0);
    assert_eq!(parse_quantity_milli("-inf"), 0);
}

#[test]
fn parse_quantity_milli_rejects_overflowing_fractional() {
    assert_eq!(parse_quantity_milli("1e19"), 0);
}

#[test]
fn parse_quantity_milli_rejects_negative_overflowing_fractional() {
    assert_eq!(parse_quantity_milli("-1e19"), 0);
}

#[test]
fn parse_quantity_milli_rejects_overflowing_fractional_binary_suffix() {
    assert_eq!(parse_quantity_milli("1e19Gi"), 0);
}

#[test]
fn parse_quantity_milli_rejects_exact_two_pow_63_boundary() {
    assert_eq!(parse_quantity_milli("9223372036854775808m"), 0);
}

#[test]
fn parse_quantity_milli_accepts_exact_i64_max() {
    assert_eq!(parse_quantity_milli("9223372036854775807m"), i64::MAX);
}

#[test]
fn resource_fits_false_when_cpu_would_be_overcommitted() {
    let allocatable = node_allocatable("4", "", "");
    let used = requests(4000, 0, 0);
    let pending = requests(1000, 0, 0);
    assert!(!resource_fits(&allocatable, &used, &pending));
}

#[test]
fn resource_fits_false_when_ephemeral_storage_would_be_overcommitted() {
    let allocatable = node_allocatable("", "", "10Gi");
    let used = requests(0, 0, 10 * 1024 * 1024 * 1024 * 1000);
    let pending = requests(0, 0, 1000);
    assert!(!resource_fits(&allocatable, &used, &pending));
}

#[test]
fn resource_fits_true_when_request_fits_within_remaining_capacity() {
    let allocatable = node_allocatable("4", "8Gi", "20Gi");
    let used = requests(2000, 4 * 1024 * 1024 * 1024 * 1000, 0);
    let pending = requests(1000, 1024 * 1024 * 1024 * 1000, 0);
    assert!(resource_fits(&allocatable, &used, &pending));
}

#[test]
fn resource_fits_true_when_allocatable_dimension_unknown() {
    let allocatable = node_allocatable("", "", "");
    let used = requests(999_999_000, 0, 0);
    let pending = requests(999_999_000, 0, 0);
    assert!(resource_fits(&allocatable, &used, &pending));
}

#[test]
fn resource_fits_false_when_runtime_class_overhead_pushes_pod_over_capacity() {
    let allocatable = node_allocatable("1", "", "");
    let used = requests(0, 0, 0);
    let event = pod_event(r#"{
        "type": "ADDED",
        "object": {
            "metadata": { "name": "sandboxed-pod", "namespace": "default" },
            "spec": {
                "containers": [
                    { "resources": { "requests": { "cpu": "900m" } } }
                ],
                "overhead": { "cpu": "200m" }
            }
        }
    }"#);
    let pending = needs_scheduling(&event).unwrap();
    assert_eq!(pending.requests.cpu_milli, 1100);
    assert!(!resource_fits(&allocatable, &used, &pending.requests));
}

#[test]
fn resource_fits_false_when_extended_resource_would_be_overcommitted() {
    let allocatable = node_allocatable_extended("scheduling.k8s.io/foo", "1");
    let used = extended_request("scheduling.k8s.io/foo", 1000);
    let pending = extended_request("scheduling.k8s.io/foo", 1000);
    assert!(!resource_fits(&allocatable, &used, &pending));
}

#[test]
fn resource_fits_false_when_node_does_not_advertise_the_extended_resource() {
    let allocatable = NodeAllocatable::default();
    let used = ResourceRequests::default();
    let pending = extended_request("scheduling.k8s.io/foo", 1000);
    assert!(!resource_fits(&allocatable, &used, &pending));
}

#[test]
fn resource_fits_true_when_extended_resource_fits_within_remaining_capacity() {
    let allocatable = node_allocatable_extended("scheduling.k8s.io/foo", "5");
    let used = extended_request("scheduling.k8s.io/foo", 2000);
    let pending = extended_request("scheduling.k8s.io/foo", 1000);
    assert!(resource_fits(&allocatable, &used, &pending));
}
