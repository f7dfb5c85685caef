use scheduler::{
    select_and_reserve_node, select_node_with_capacity, HostPortClaim, NodeAffinity,
    NodeAllocatable, NodeItem, NodeList, NodeMetadata, NodeSelectorRequirement, NodeSelectorSpec,
    NodeSelectorTerm, NodeSpec, NodeStatus, NodeTally, PendingPod, ResourceRequests, StringMap,
    Toleration, WatchEvent,
};
use scheduler::container::{ContainerPortSpec, ContainerResources, ContainerSpec};
use scheduler::pod::{Affinity, PodMetadata, PodSpec};
use scheduler::tally::{PodListItemStatus, PreemptionPodListItem};
use scheduler::volumes::{
    ClusterScopedMetadata, CsiNodeAllocatable, CsiNodeDriver, CsiNodeItem, CsiNodeMetadata,
    CsiNodeSpec, PvCsiSource, PvObject, PvSpec, PvcMetadata, PvcObject, PvcSpec,
};
use serde_json::Value;

fn parse(text: &str) -> Value {
    serde_json::from_str(text).unwrap()
}

fn text_map(entries: &[(&str, &str)]) -> StringMap<String> {
    StringMap::from_entries(entries.iter().map(|(k, v)| (k.to_string(), v.to_string())).collect())
}

fn text_of(object: &Value, name: &str) -> Option<String> {
    object[name].as_str().map(|s| s.to_owned())
}

fn array_of<T>(object: &Value, name: &str, item: fn(&Value) -> T) -> Vec<T> {
    match object[name].as_array() {
        Some(items) => items.iter().map(item).collect(),
        None => Vec::new(),
    }
}

fn texts_of(object: &Value, name: &str) -> StringMap<String> {
    let mut map = StringMap::new();
    if let Some(fields) = object[name].as_object() {
        for (key, value) in fields {
            map.insert(key.clone(), value.as_str().unwrap().to_owned());
        }
    }
    map
}

fn event_of<T>(text: &str, object: fn(&Value) -> T) -> WatchEvent<T> {
    let event = parse(text);
    match (event["type"].as_str(), event.get("object")) {
        (Some(event_type), Some(value)) => WatchEvent {
            event_type: event_type.to_owned(),
            object: Some(object(value)),
        },
        _ => WatchEvent { event_type: String::new(), object: None },
    }
}

fn requirement_of(value: &Value) -> NodeSelectorRequirement {
    NodeSelectorRequirement {
        key: text_of(value, "key").unwrap(),
        operator: text_of(value, "operator").unwrap(),
        values: array_of(value, "values", |v| v.as_str().unwrap().to_owned()),
    }
}

fn term_of(value: &Value) -> NodeSelectorTerm {
    NodeSelectorTerm {
        match_expressions: array_of(value, "matchExpressions", requirement_of),
        match_fields: array_of(value, "matchFields", requirement_of),
    }
}

fn affinity_of(value: &Value) -> Affinity {
    let node = value.get("nodeAffinity");
    Affinity {
        node_affinity: node.map(|affinity| NodeAffinity {
            required_during_scheduling_ignored_during_execution: affinity
                .get("requiredDuringSchedulingIgnoredDuringExecution")
                .map(|required| NodeSelectorSpec {
                    node_selector_terms: array_of(required, "nodeSelectorTerms", term_of),
                }),
        }),
        pod_affinity: None,
        pod_anti_affinity: None,
    }
}

fn toleration_of(value: &Value) -> Toleration {
    Toleration {
        key: text_of(value, "key"),
        operator: text_of(value, "operator"),
        value: text_of(value, "value"),
        effect: text_of(value, "effect"),
    }
}

fn port_of(value: &Value) -> ContainerPortSpec {
    ContainerPortSpec {
        host_port: value["hostPort"].as_i64().map(|port| port as i32),
        host_ip: text_of(value, "hostIP").unwrap_or_default(),
        protocol: text_of(value, "protocol"),
    }
}

fn container_of(value: &Value) -> ContainerSpec {
    ContainerSpec {
        resources: ContainerResources { requests: texts_of(&value["resources"], "requests") },
        ports: if value["ports"].is_null() { None } else { Some(array_of(value, "ports", port_of)) },
    }
}

fn metadata_of(value: &Value) -> PodMetadata {
    PodMetadata {
        name: text_of(value, "name"),
        namespace: text_of(value, "namespace"),
        labels: texts_of(value, "labels"),
    }
}

fn spec_of(value: &Value) -> PodSpec {
    PodSpec {
        node_name: text_of(value, "nodeName"),
        node_selector: value.get("nodeSelector").map(|_| texts_of(value, "nodeSelector")),
        priority: value["priority"].as_i64().map(|priority| priority as i32),
        scheduling_gates: value.get("schedulingGates").map(|_| {
            array_of(value, "schedulingGates", |gate| text_of(gate, "name").unwrap())
        }),
        tolerations: value.get("tolerations").map(|_| array_of(value, "tolerations", toleration_of)),
        affinity: value.get("affinity").map(affinity_of),
        containers: array_of(value, "containers", container_of),
        volumes: None,
        topology_spread_constraints: Vec::new(),
        overhead: texts_of(value, "overhead"),
    }
}

fn listed_of(value: &Value) -> PreemptionPodListItem {
    PreemptionPodListItem {
        metadata: metadata_of(&value["metadata"]),
        spec: spec_of(&value["spec"]),
        status: PodListItemStatus { phase: text_of(&value["status"], "phase").unwrap_or_default() },
    }
}

fn tally_event(text: &str) -> WatchEvent<PreemptionPodListItem> {
    event_of(text, listed_of)
}

fn node_of(value: &Value) -> NodeItem {
    let mut node = make_node(text_of(&value["metadata"], "name").unwrap().as_str(), &[]);
    node.status.allocatable.cpu =
        text_of(&value["status"]["allocatable"], "cpu").unwrap_or_default();
    node
}

fn node_event(text: &str) -> WatchEvent<NodeItem> {
    event_of(text, node_of)
}

fn pvc_of(value: &Value) -> PvcObject {
    PvcObject {
        metadata: PvcMetadata {
            name: text_of(&value["metadata"], "name"),
            namespace: text_of(&value["metadata"], "namespace"),
            annotations: texts_of(&value["metadata"], "annotations"),
        },
        spec: PvcSpec {
            volume_name: text_of(&value["spec"], "volumeName").unwrap_or_default(),
            storage_class_name: text_of(&value["spec"], "storageClassName"),
            access_modes: Vec::new(),
        },
    }
}

fn pvc_event(text: &str) -> WatchEvent<PvcObject> {
    event_of(text, pvc_of)
}

fn pv_of(value: &Value) -> PvObject {
    PvObject {
        metadata: ClusterScopedMetadata { name: text_of(&value["metadata"], "name") },
        spec: PvSpec {
            node_affinity: None,
            csi: value["spec"].get("csi").map(|csi| PvCsiSource {
                driver: text_of(csi, "driver").unwrap(),
            }),
        },
    }
}

fn pv_event(text: &str) -> WatchEvent<PvObject> {
    event_of(text, pv_of)
}

fn csi_driver_of(value: &Value) -> CsiNodeDriver {
    CsiNodeDriver {
        name: text_of(value, "name").unwrap(),
        allocatable: value.get("allocatable").map(|allocatable| CsiNodeAllocatable {
            count: allocatable["count"].as_i64(),
        }),
    }
}

fn csi_node_of(value: &Value) -> CsiNodeItem {
    CsiNodeItem {
        metadata: CsiNodeMetadata { name: text_of(&value["metadata"], "name").unwrap_or_default() },
        spec: CsiNodeSpec { drivers: array_of(&value["spec"], "drivers", csi_driver_of) },
    }
}

fn csi_node_event(text: &str) -> WatchEvent<CsiNodeItem> {
    event_of(text, csi_node_of)
}

fn bound_pod_added_event(
    name: &str,
    node: &str,
    phase: &str,
    cpu: &str,
) -> WatchEvent<PreemptionPodListItem> {
    let requests = if cpu.is_empty() { String::new() } else { format!(r#""cpu": "{cpu}""#) };
    tally_event(&format!(
        r#"{{
        "type": "ADDED",
        "object": {{
            "metadata": {{ "name": "{name}", "namespace": "default" }},
            "spec": {{
                "nodeName": "{node}",
                "containers": [{{ "resources": {{ "requests": {{ {requests} }} }} }}]
            }},
            "status": {{ "phase": "{phase}" }}
        }}
    }}"#
    ))
}

fn assert_by_node_index_matches_pods(tally: &NodeTally) {
    let index = tally.index();
    for i in 0..index.len() {
        let keys = index.keys_on(&index.pod_at(i).node_name).unwrap();
        assert!(keys.contains(index.key_at(i)));
    }
    for i in 0..index.node_count() {
        let (node_name, keys) = index.node_at(i);
        for j in 0..keys.len() {
            let pod = index.get(keys.at(j)).unwrap();
            assert_eq!(&pod.node_name, node_name);
        }
    }
}

fn make_node(name: &str, labels: &[(&str, &str)]) -> NodeItem {
    NodeItem {
        metadata: NodeMetadata { name: name.to_owned(), labels: text_map(labels) },
        spec: NodeSpec::default(),
        status: NodeStatus::default(),
        csi_driver_headroom: Default::default(),
        csi_registered_drivers: Default::default(),
    }
}

fn make_node_with_capacity(name: &str, labels: &[(&str, &str)], capacity: &str) -> NodeItem {
    NodeItem {
        metadata: NodeMetadata { name: name.to_owned(), labels: text_map(labels) },
        spec: NodeSpec::default(),
        status: NodeStatus {
            allocatable: NodeAllocatable { pods: capacity.to_owned(),..Default::default() },
            capacity: NodeAllocatable { pods: capacity.to_owned(),..Default::default() },
        },
        csi_driver_headroom: Default::default(),
        csi_registered_drivers: Default::default(),
    }
}

fn empty_pending_pod() -> PendingPod {
    PendingPod {
        namespace: "default".to_owned(),
        pod_name: "pod".to_owned(),
        node_selector: Default::default(),
        priority: 0,
        tolerations: Vec::new(),
        node_affinity: None,
        labels: Default::default(),
        pod_affinity_terms: Vec::new(),
        pod_anti_affinity_terms: Vec::new(),
        requests: ResourceRequests::default(),
        host_ports: Vec::new(),
        pvc_names: Vec::new(),
        pv_node_affinities: Vec::new(),
        topology_spread_constraints: Vec::new(),
        csi_volume_counts: Default::default(),
        read_write_once_pod_pvcs: Vec::new(),
        unbound_csi_pvc_drivers: Vec::new(),
    }
}

fn host_port_claim(host_port: u16, host_ip: &str, protocol: &str) -> HostPortClaim {
    HostPortClaim { host_port, host_ip: host_ip.to_owned(), protocol: protocol.to_owned() }
}

fn requests(
    cpu_milli: i64,
    memory_milli: i64,
    ephemeral_storage_milli: i64,
) -> ResourceRequests {
    ResourceRequests {
        cpu_milli,
        memory_milli,
        ephemeral_storage_milli,
        extended: Default::default(),
    }
}

#[test]
fn node_tally_excludes_terminal_phases_from_pod_count() {
    let mut tally = NodeTally::default();
    tally.apply_event(&bound_pod_added_event("a", "worker-0", "Running", ""));
    tally.apply_event(&bound_pod_added_event("b", "worker-0", "Pending", ""));
    tally.apply_event(&bound_pod_added_event("c", "worker-0", "Succeeded", ""));
    tally.apply_event(&bound_pod_added_event("d", "worker-0", "Failed", ""));
    tally.apply_event(&bound_pod_added_event("e", "worker-0", "", ""));

    let usage = tally.usage_by_node();
    assert_eq!(usage.get("worker-0").unwrap().pod_count, 3);
}

#[test]
fn node_tally_excludes_terminal_phases_from_resource_sum() {
    let mut tally = NodeTally::default();
    tally.apply_event(&bound_pod_added_event("running", "worker-0", "Running", "1"));
    tally.apply_event(&bound_pod_added_event("done", "worker-0", "Succeeded", "4"));

    let usage = tally.usage_by_node();
    assert_eq!(usage.get("worker-0").unwrap().requests.cpu_milli, 1000);
}

#[test]
fn node_tally_sums_resource_requests_across_pods_on_the_same_node() {
    let mut tally = NodeTally::default();
    tally.apply_event(&bound_pod_added_event("a", "worker-0", "Running", "500m"));
    tally.apply_event(&bound_pod_added_event("b", "worker-0", "Pending", "500m"));

    let usage = tally.usage_by_node();
    assert_eq!(usage.get("worker-0").unwrap().pod_count, 2);
    assert_eq!(usage.get("worker-0").unwrap().requests.cpu_milli, 1000);
}

#[test]
fn node_tally_assume_reflects_just_bound_pod_before_next_scheduling_decision() {
    let mut tally = NodeTally::default();

    tally.reserve(
        "default",
        "filler",
        "worker-0",
        0,
        requests(5600, 0, 0),
        Vec::new(),
        StringMap::new(),
        Vec::new(),
    );

    let mut node = make_node_with_capacity("worker-0", &[], "110");
    node.status.allocatable.cpu = "8".to_owned();
    let list = NodeList { items: vec![node] };

    let mut pod = empty_pending_pod();
    pod.requests.cpu_milli = 4000;

    let usage = tally.usage_by_node();
    let result = select_node_with_capacity(list, &pod, &usage, &[]);

    assert!(result.is_err());
}

#[test]
fn node_tally_remove_frees_capacity_for_the_next_decision() {
    let mut tally = NodeTally::default();
    tally.reserve(
        "default",
        "filler",
        "worker-0",
        0,
        requests(8000, 0, 0),
        Vec::new(),
        StringMap::new(),
        Vec::new(),
    );
    tally.remove("default", "filler");

    let mut node = make_node_with_capacity("worker-0", &[], "110");
    node.status.allocatable.cpu = "8".to_owned();
    let list = NodeList { items: vec![node] };
    let mut pod = empty_pending_pod();
    pod.requests.cpu_milli = 4000;

    let usage = tally.usage_by_node();
    let result = select_node_with_capacity(list, &pod, &usage, &[]);
    assert!(result.is_ok());
}

#[test]
fn node_tally_by_node_index_never_diverges_from_the_pods_map() {
    let mut tally = NodeTally::default();

    tally.apply_event(&bound_pod_added_event("a", "worker-0", "Running", "1"));
    assert_by_node_index_matches_pods(&tally);

    tally.apply_event(&bound_pod_added_event("b", "worker-1", "Running", "1"));
    assert_by_node_index_matches_pods(&tally);

    tally.reserve(
        "default",
        "c",
        "worker-0",
        0,
        requests(500, 0, 0),
        Vec::new(),
        StringMap::new(),
        Vec::new(),
    );
    assert_by_node_index_matches_pods(&tally);

    tally.apply_event(&bound_pod_added_event("a", "worker-0", "Pending", "1"));
    assert_by_node_index_matches_pods(&tally);

    tally.apply_event(&bound_pod_added_event("a", "worker-2", "Running", "1"));
    assert_by_node_index_matches_pods(&tally);
    assert!(tally.pods_on("worker-0").iter().all(|p| p.key != "default/a"));

    tally.remove("default", "c");
    assert_by_node_index_matches_pods(&tally);

    tally.apply_event(&tally_event(r#"{
        "type": "DELETED",
        "object": { "metadata": { "name": "b", "namespace": "default" } }
    }"#));
    assert_by_node_index_matches_pods(&tally);

    tally.apply_event(&bound_pod_added_event("a", "worker-2", "Succeeded", "1"));
    assert_by_node_index_matches_pods(&tally);

    tally.reserve(
        "default",
        "d",
        "worker-3",
        0,
        requests(500, 0, 0),
        Vec::new(),
        StringMap::new(),
        Vec::new(),
    );
    let _ = tally.clear();
    assert_by_node_index_matches_pods(&tally);
    assert!(tally.pods_on("worker-3").is_empty());
}

#[test]
fn node_tally_remove_prunes_emptied_by_node_entry() {
    let mut tally = NodeTally::default();

    tally.reserve(
        "default",
        "e",
        "worker-9",
        0,
        requests(500, 0, 0),
        Vec::new(),
        StringMap::new(),
        Vec::new(),
    );
    assert_eq!(tally.index().node_count(), 1);

    tally.remove("default", "e");

    assert!(tally.index().keys_on("worker-9").is_none());
}

#[test]
fn node_tally_apply_event_deleted_removes_the_pod() {
    let mut tally = NodeTally::default();
    tally.apply_event(&bound_pod_added_event("a", "worker-0", "Running", "1"));
    assert_eq!(tally.usage_by_node().get("worker-0").unwrap().pod_count, 1);

    tally.apply_event(&tally_event(r#"{
        "type": "DELETED",
        "object": { "metadata": { "name": "a", "namespace": "default" } }
    }"#));

    assert!(!tally.usage_by_node().contains_key("worker-0"));
}

#[test]
fn apply_event_does_not_erase_an_assumed_reservation_for_a_still_unbound_watch_echo() {
    let mut tally = NodeTally::default();
    tally.reserve(
        "default",
        "preemptor",
        "worker-0",
        1000,
        requests(1000, 0, 0),
        Vec::new(),
        StringMap::new(),
        Vec::new(),
    );

    tally.apply_event(&tally_event(r#"{
        "type": "MODIFIED",
        "object": {
            "metadata": { "name": "preemptor", "namespace": "default" },
            "spec": { "containers": [] },
            "status": { "phase": "Pending" }
        }
    }"#));

    assert_eq!(tally.usage_by_node().get("worker-0").map(|u| u.pod_count), Some(1));
}

#[test]
fn assume_records_host_port_claim_visible_to_the_very_next_scheduling_decision() {
    let mut tally = NodeTally::default();
    let list = || NodeList { items: vec![make_node_with_capacity("worker-0", &[], "110")] };

    let mut pod_a = empty_pending_pod();
    pod_a.pod_name = "pod-a".to_owned();
    pod_a.host_ports = vec![host_port_claim(8080, "", "TCP")];
    let chosen = select_node_with_capacity(
        list(),
        &pod_a,
        &tally.usage_by_node(),
        &tally.tallied_pod_labels(),
    )
    .unwrap();
    tally.reserve(
        "default",
        "pod-a",
        &chosen,
        0,
        ResourceRequests::default(),
        pod_a.host_ports.clone(),
        pod_a.labels.clone(),
        pod_a.pvc_names.clone(),
    );

    let mut pod_b = empty_pending_pod();
    pod_b.pod_name = "pod-b".to_owned();
    pod_b.host_ports = vec![host_port_claim(8080, "", "TCP")];
    let result = select_node_with_capacity(
        list(),
        &pod_b,
        &tally.usage_by_node(),
        &tally.tallied_pod_labels(),
    );

    assert!(result.is_err());
}

#[test]
fn preemption_waiter_only_resolves_once_its_own_victim_is_confirmed_gone() {
    let mut tally = NodeTally::default();
    let mut preemptor = empty_pending_pod();
    preemptor.pod_name = "preemptor-pod".to_owned();

    tally.reserve(
        "default",
        "preemptor-pod",
        "worker-0",
        1000,
        ResourceRequests::default(),
        Vec::new(),
        StringMap::new(),
        Vec::new(),
    );
    tally.register_preemption_waiter(
        preemptor,
        "worker-0".to_owned(),
        &["default/victim".to_owned()],
    );

    let unrelated = tally.apply_event(&tally_event(r#"{
        "type": "DELETED",
        "object": { "metadata": { "name": "someone-else", "namespace": "default" } }
    }"#));
    assert!(unrelated.is_empty());

    let ready = tally.apply_event(&tally_event(r#"{
        "type": "DELETED",
        "object": { "metadata": { "name": "victim", "namespace": "default" } }
    }"#));
    assert_eq!(ready.len(), 1);
    assert_eq!(ready[0].0.pod_name, "preemptor-pod");
    assert_eq!(ready[0].1, "worker-0");
}

#[test]
fn preemption_waiter_with_multiple_victims_waits_for_all_of_them() {
    let mut tally = NodeTally::default();
    let mut preemptor = empty_pending_pod();
    preemptor.pod_name = "preemptor-pod".to_owned();
    tally.register_preemption_waiter(
        preemptor,
        "worker-0".to_owned(),
        &["default/victim-a".to_owned(), "default/victim-b".to_owned()],
    );

    let after_first = tally.apply_event(&tally_event(r#"{
        "type": "DELETED",
        "object": { "metadata": { "name": "victim-a", "namespace": "default" } }
    }"#));
    assert!(after_first.is_empty());

    let after_second = tally.apply_event(&tally_event(r#"{
        "type": "DELETED",
        "object": { "metadata": { "name": "victim-b", "namespace": "default" } }
    }"#));
    assert_eq!(after_second.len(), 1);
}

#[test]
fn node_tally_clear_returns_abandoned_waiters_pod_keys() {
    let mut tally = NodeTally::default();
    let mut preemptor = empty_pending_pod();
    preemptor.pod_name = "preemptor-pod".to_owned();
    tally.register_preemption_waiter(
        preemptor,
        "worker-0".to_owned(),
        &["default/victim".to_owned()],
    );

    let abandoned = tally.clear();

    assert_eq!(abandoned, vec!["default/preemptor-pod".to_owned()]);
}

#[test]
fn node_tally_node_cache_tracks_added_modified_deleted_and_clear() {
    let mut tally = NodeTally::default();
    tally.apply_node_event(&node_event(r#"{
        "type": "ADDED",
        "object": {"metadata": {"name": "worker-0"}, "status": {"allocatable": {"cpu": "2"}}}
    }"#));
    assert_eq!(tally.node("worker-0").map(|n| n.status.allocatable.cpu), Some("2".to_owned()));

    tally.apply_node_event(&node_event(r#"{
        "type": "MODIFIED",
        "object": {"metadata": {"name": "worker-0"}, "status": {"allocatable": {"cpu": "4"}}}
    }"#));
    assert_eq!(tally.node("worker-0").map(|n| n.status.allocatable.cpu), Some("4".to_owned()));

    tally.apply_node_event(&node_event(r#"{
        "type": "DELETED",
        "object": {"metadata": {"name": "worker-0"}}
    }"#));
    assert!(tally.node("worker-0").is_none());

    tally.apply_node_event(&node_event(r#"{
        "type": "ADDED",
        "object": {"metadata": {"name": "worker-1"}, "status": {}}
    }"#));
    tally.clear_node_cache();
    assert!(tally.node_list().items.is_empty());
}

#[test]
fn node_tally_pods_on_excludes_terminal_phases_and_extracts_priority() {
    let mut tally = NodeTally::default();
    tally.apply_event(&tally_event(r#"{
        "type": "ADDED",
        "object": {
            "metadata": {"name": "a", "namespace": "ns1"},
            "spec": {"nodeName": "worker-0", "priority": 100},
            "status": {"phase": "Running"}
        }
    }"#));
    tally.apply_event(&tally_event(r#"{
        "type": "ADDED",
        "object": {
            "metadata": {"name": "b", "namespace": "ns1"},
            "spec": {"nodeName": "worker-0", "priority": 5},
            "status": {"phase": "Succeeded"}
        }
    }"#));

    let pods = tally.pods_on("worker-0");
    assert_eq!(pods.len(), 1);
    assert_eq!(pods[0].key, "ns1/a");
    assert_eq!(pods[0].priority, 100);
}

#[test]
fn node_tally_pods_on_defaults_priority_to_zero_when_absent() {
    let mut tally = NodeTally::default();
    tally.apply_event(&tally_event(r#"{
        "type": "ADDED",
        "object": {
            "metadata": {"name": "a", "namespace": "default"},
            "spec": {"nodeName": "worker-0"},
            "status": {"phase": "Running"}
        }
    }"#));

    let pods = tally.pods_on("worker-0");
    assert_eq!(pods[0].priority, 0);
}

#[test]
fn node_tally_pods_on_captures_resource_requests() {
    let mut tally = NodeTally::default();
    tally.apply_event(&tally_event(r#"{
        "type": "ADDED",
        "object": {
            "metadata": {"name": "victim", "namespace": "default"},
            "spec": {
                "nodeName": "worker-0",
                "priority": 1,
                "containers": [
                    { "resources": { "requests": { "scheduling.k8s.io/foo": "1" } } }
                ]
            },
            "status": {"phase": "Running"}
        }
    }"#));

    let pods = tally.pods_on("worker-0");
    assert_eq!(pods[0].requests.extended.get("scheduling.k8s.io/foo"), Some(&1000));
}

#[test]
fn select_and_reserve_node_sees_a_just_assumed_pods_own_csi_volume_via_the_tally() {
    let mut tally = NodeTally::default();
    tally.apply_pvc_event(&pvc_event(r#"{
        "type": "ADDED",
        "object": {
            "metadata": { "name": "pvc-a", "namespace": "default" },
            "spec": { "volumeName": "pv-a" }
        }
    }"#));
    tally.apply_pv_event(&pv_event(r#"{
        "type": "ADDED",
        "object": {
            "metadata": { "name": "pv-a" },
            "spec": { "csi": { "driver": "hostpath.csi.k8s.io" } }
        }
    }"#));
    tally.apply_csi_node_event(&csi_node_event(r#"{
        "type": "ADDED",
        "object": {
            "metadata": { "name": "worker-0" },
            "spec": { "drivers": [{ "name": "hostpath.csi.k8s.io", "allocatable": { "count": 1 } }] }
        }
    }"#));

    let mut pod_a = empty_pending_pod();
    pod_a.pod_name = "pod-a".to_owned();
    pod_a.pvc_names = vec!["pvc-a".to_owned()];

    tally.reserve(
        "default",
        "pod-a",
        "worker-0",
        0,
        ResourceRequests::default(),
        Vec::new(),
        Default::default(),
        pod_a.pvc_names.clone(),
    );

    let mut pod_b = empty_pending_pod();
    pod_b.pod_name = "pod-b".to_owned();
    pod_b.csi_volume_counts = StringMap::from_entries(vec![("hostpath.csi.k8s.io".to_owned(), 1i64)]);
    let list = NodeList { items: vec![make_node_with_capacity("worker-0", &[], "110")] };
    let result = select_and_reserve_node(list, &pod_b, &mut tally);

    assert!(result.is_err());
}
