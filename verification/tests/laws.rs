use scheduler::{
    csi_topology_fit, csi_volume_limits_fit, fetch_node, find_preemption_candidate,
    find_preemption_plan, host_ports_conflict, host_ports_fit, needs_scheduling, net_csi_headroom,
    node_affinity_matches, node_qualifies_for_pod, node_selector_requirement_matches,
    node_taints_tolerated, parse_quantity_milli, pick_node, pods_needing_resync,
    preemption_reservation_still_fits, read_write_once_pod_preemption_victims, resource_fits,
    scheduling_event_name, scheduling_event_timestamp, scheduling_gate_status_patch,
    scheduling_gate_status_reset, select_and_reserve_node, select_node_with_capacity,
    select_preemption_victims, selected_node_patches, verify_and_reserve_preemption,
    FindPreemptionPlanError, HostPortClaim, LabelSelectorSpec, NodeAffinity, NodeAllocatable,
    NodeItem, NodeList, NodeMetadata, NodePod, NodeSelectorRequirement, NodeSelectorSpec,
    NodeSelectorTerm, NodeSpec, NodeStatus, NodeTally, NodeUsage, PendingPod, PickNodeError,
    PodAffinityTerm, PodObject, PreemptionPlan, PvcBindingInfo, ResourceRequests, StringMap,
    StringSet, Taint, TalliedPodLabels, Toleration, TopologySpreadConstraint, WatchEvent,
};
use scheduler::affinity::{
    pod_matches_affinity_term, term_namespace_matches, InterPodAffinityContext,
};
use scheduler::container::{ContainerPortSpec, ContainerResources, ContainerSpec};
use scheduler::pod::{needs_scheduling_pod, Affinity, PodCondition, PodMetadata, PodSpec, PodStatus};
use scheduler::resources::subtract_requests;
use scheduler::select::is_less_loaded;
use scheduler::selector::label_selector_matches;
use scheduler::spread::TopologySpreadContext;
use scheduler::tally::{PodListItemStatus, PreemptionPodListItem};
use scheduler::volumes::{
    ClusterScopedMetadata, CsiNodeAllocatable, CsiNodeDriver, CsiNodeItem, CsiNodeMetadata,
    CsiNodeSpec, PvCsiSource, PvObject, PvSpec, PvcMetadata, PvcObject, PvcSpec,
};
use scheduler::waiters::PreemptionWaiters;
use serde_json::Value;

fn parse(text: &str) -> Value {
    serde_json::from_str(text).unwrap()
}

fn text_map(entries: &[(&str, &str)]) -> StringMap<String> {
    StringMap::from_entries(entries.iter().map(|(k, v)| (k.to_string(), v.to_string())).collect())
}

fn labels_by_name(list: &NodeList) -> StringMap<StringMap<String>> {
    let entries = list.items.iter().map(|n| (n.metadata.name.clone(), n.metadata.labels.clone()));
    StringMap::from_entries(entries.collect())
}

fn text_of(object: &Value, name: &str) -> Option<String> {
    object[name].as_str().map(|s| s.to_owned())
}

fn array_of<T>(object: &Value, name: &str, item: fn(&Value) -> T) -> Vec<T> {
    match object[name].as_array() {
        Some(items) => items.iter().map(item).collect(),
        None => Vec::new(),
    }
}

fn texts_of(object: &Value, name: &str) -> StringMap<String> {
    let mut map = StringMap::new();
    if let Some(fields) = object[name].as_object() {
        for (key, value) in fields {
            map.insert(key.clone(), value.as_str().unwrap().to_owned());
        }
    }
    map
}

fn event_of<T>(text: &str, object: fn(&Value) -> T) -> WatchEvent<T> {
    let event = parse(text);
    match (event["type"].as_str(), event.get("object")) {
        (Some(event_type), Some(value)) => WatchEvent {
            event_type: event_type.to_owned(),
            object: Some(object(value)),
        },
        _ => WatchEvent { event_type: String::new(), object: None },
    }
}

fn requirement_of(value: &Value) -> NodeSelectorRequirement {
    NodeSelectorRequirement {
        key: text_of(value, "key").unwrap(),
        operator: text_of(value, "operator").unwrap(),
        values: array_of(value, "values", |v| v.as_str().unwrap().to_owned()),
    }
}

fn term_of(value: &Value) -> NodeSelectorTerm {
    NodeSelectorTerm {
        match_expressions: array_of(value, "matchExpressions", requirement_of),
        match_fields: array_of(value, "matchFields", requirement_of),
    }
}

fn affinity_of(value: &Value) -> Affinity {
    let node = value.get("nodeAffinity");
    Affinity {
        node_affinity: node.map(|affinity| NodeAffinity {
            required_during_scheduling_ignored_during_execution: affinity
                .get("requiredDuringSchedulingIgnoredDuringExecution")
                .map(|required| NodeSelectorSpec {
                    node_selector_terms: array_of(required, "nodeSelectorTerms", term_of),
                }),
        }),
        pod_affinity: None,
        pod_anti_affinity: None,
    }
}

fn toleration_of(value: &Value) -> Toleration {
    Toleration {
        key: text_of(value, "key"),
        operator: text_of(value, "operator"),
        value: text_of(value, "value"),
        effect: text_of(value, "effect"),
    }
}

fn port_of(value: &Value) -> ContainerPortSpec {
    ContainerPortSpec {
        host_port: value["hostPort"].as_i64().map(|port| port as i32),
        host_ip: text_of(value, "hostIP").unwrap_or_default(),
        protocol: text_of(value, "protocol"),
    }
}

fn container_of(value: &Value) -> ContainerSpec {
    ContainerSpec {
        resources: ContainerResources { requests: texts_of(&value["resources"], "requests") },
        ports: if value["ports"].is_null() { None } else { Some(array_of(value, "ports", port_of)) },
    }
}

fn metadata_of(value: &Value) -> PodMetadata {
    PodMetadata {
        name: text_of(value, "name"),
        namespace: text_of(value, "namespace"),
        labels: texts_of(value, "labels"),
    }
}

fn spec_of(value: &Value) -> PodSpec {
    PodSpec {
        node_name: text_of(value, "nodeName"),
        node_selector: value.get("nodeSelector").map(|_| texts_of(value, "nodeSelector")),
        priority: value["priority"].as_i64().map(|priority| priority as i32),
        scheduling_gates: value.get("schedulingGates").map(|_| {
            array_of(value, "schedulingGates", |gate| text_of(gate, "name").unwrap())
        }),
        tolerations: value.get("tolerations").map(|_| array_of(value, "tolerations", toleration_of)),
        affinity: value.get("affinity").map(affinity_of),
        containers: array_of(value, "containers", container_of),
        volumes: None,
        topology_spread_constraints: Vec::new(),
        overhead: texts_of(value, "overhead"),
    }
}

fn condition_of(value: &Value) -> PodCondition {
    PodCondition {
        condition_type: text_of(value, "type"),
        status: text_of(value, "status"),
        reason: text_of(value, "reason"),
        message: text_of(value, "message"),
    }
}

fn pod_of(value: &Value) -> PodObject {
    PodObject {
        metadata: metadata_of(&value["metadata"]),
        spec: spec_of(&value["spec"]),
        status: PodStatus { conditions: array_of(&value["status"], "conditions", condition_of) },
    }
}

fn pod_object(text: &str) -> PodObject {
    pod_of(&parse(text))
}

fn pod_event(text: &str) -> WatchEvent<PodObject> {
    event_of(text, pod_of)
}

fn listed_of(value: &Value) -> PreemptionPodListItem {
    PreemptionPodListItem {
        metadata: metadata_of(&value["metadata"]),
        spec: spec_of(&value["spec"]),
        status: PodListItemStatus { phase: text_of(&value["status"], "phase").unwrap_or_default() },
    }
}

fn tally_event(text: &str) -> WatchEvent<PreemptionPodListItem> {
    event_of(text, listed_of)
}

fn pvc_of(value: &Value) -> PvcObject {
    PvcObject {
        metadata: PvcMetadata {
            name: text_of(&value["metadata"], "name"),
            namespace: text_of(&value["metadata"], "namespace"),
            annotations: texts_of(&value["metadata"], "annotations"),
        },
        spec: PvcSpec {
            volume_name: text_of(&value["spec"], "volumeName").unwrap_or_default(),
            storage_class_name: text_of(&value["spec"], "storageClassName"),
            access_modes: Vec::new(),
        },
    }
}

fn pvc_event(text: &str) -> WatchEvent<PvcObject> {
    event_of(text, pvc_of)
}

fn pv_of(value: &Value) -> PvObject {
    PvObject {
        metadata: ClusterScopedMetadata { name: text_of(&value["metadata"], "name") },
        spec: PvSpec {
            node_affinity: None,
            csi: value["spec"].get("csi").map(|csi| PvCsiSource {
                driver: text_of(csi, "driver").unwrap(),
            }),
        },
    }
}

fn pv_event(text: &str) -> WatchEvent<PvObject> {
    event_of(text, pv_of)
}

fn csi_driver_of(value: &Value) -> CsiNodeDriver {
    CsiNodeDriver {
        name: text_of(value, "name").unwrap(),
        allocatable: value.get("allocatable").map(|allocatable| CsiNodeAllocatable {
            count: allocatable["count"].as_i64(),
        }),
    }
}

fn csi_node_of(value: &Value) -> CsiNodeItem {
    CsiNodeItem {
        metadata: CsiNodeMetadata { name: text_of(&value["metadata"], "name").unwrap_or_default() },
        spec: CsiNodeSpec { drivers: array_of(&value["spec"], "drivers", csi_driver_of) },
    }
}

fn csi_node_event(text: &str) -> WatchEvent<CsiNodeItem> {
    event_of(text, csi_node_of)
}

fn bound_pod_added_event(
    name: &str,
    node: &str,
    phase: &str,
    cpu: &str,
) -> WatchEvent<PreemptionPodListItem> {
    let requests = if cpu.is_empty() { String::new() } else { format!(r#""cpu": "{cpu}""#) };
    tally_event(&format!(
        r#"{{
        "type": "ADDED",
        "object": {{
            "metadata": {{ "name": "{name}", "namespace": "default" }},
            "spec": {{
                "nodeName": "{node}",
                "containers": [{{ "resources": {{ "requests": {{ {requests} }} }} }}]
            }},
            "status": {{ "phase": "{phase}" }}
        }}
    }}"#
    ))
}

fn one_claim(name: &str, info: PvcBindingInfo) -> StringMap<PvcBindingInfo> {
    StringMap::from_entries(vec![(name.to_owned(), info)])
}

fn binding_mode(class: &str, mode: &str) -> StringMap<String> {
    text_map(&[(class, mode)])
}

fn unbound_pvc(storage_class_name: &str) -> PvcBindingInfo {
    PvcBindingInfo {
        volume_name: String::new(),
        storage_class_name: Some(storage_class_name.to_owned()),
        selected_node: None,
        access_modes: Vec::new(),
    }
}

fn make_node(name: &str, labels: &[(&str, &str)]) -> NodeItem {
    NodeItem {
        metadata: NodeMetadata { name: name.to_owned(), labels: text_map(labels) },
        spec: NodeSpec::default(),
        status: NodeStatus::default(),
        csi_driver_headroom: Default::default(),
        csi_registered_drivers: Default::default(),
    }
}

fn taint(key: &str, value: &str, effect: &str) -> Taint {
    Taint { key: key.to_owned(), value: value.to_owned(), effect: effect.to_owned() }
}

fn toleration(key: &str, value: &str, effect: &str) -> Toleration {
    Toleration {
        key: Some(key.to_owned()),
        operator: None,
        value: Some(value.to_owned()),
        effect: Some(effect.to_owned()),
    }
}

fn podaffinity_term(topology_key: &str, match_labels: &[(&str, &str)]) -> PodAffinityTerm {
    PodAffinityTerm {
        label_selector: Some(LabelSelectorSpec {
            match_labels: text_map(match_labels),
            match_expressions: Vec::new(),
        }),
        namespaces: Vec::new(),
        topology_key: topology_key.to_owned(),
    }
}

fn tallied(node_name: &str, namespace: &str, labels: &[(&str, &str)]) -> TalliedPodLabels {
    TalliedPodLabels {
        key: format!("{namespace}/unused-{node_name}"),
        node_name: node_name.to_owned(),
        namespace: namespace.to_owned(),
        labels: text_map(labels),
    }
}

fn topology_spread_constraint(
    topology_key: &str,
    max_skew: i32,
    when_unsatisfiable: &str,
    match_labels: &[(&str, &str)],
) -> TopologySpreadConstraint {
    TopologySpreadConstraint {
        max_skew,
        topology_key: topology_key.to_owned(),
        when_unsatisfiable: when_unsatisfiable.to_owned(),
        label_selector: Some(LabelSelectorSpec {
            match_labels: text_map(match_labels),
            match_expressions: Vec::new(),
        }),
    }
}

fn pv_node_affinity_requiring(key: &str, value: &str) -> NodeSelectorSpec {
    NodeSelectorSpec {
        node_selector_terms: vec![NodeSelectorTerm {
            match_expressions: vec![requirement(key, "In", &[value])],
            match_fields: vec![],
        }],
    }
}

fn requirement(key: &str, operator: &str, values: &[&str]) -> NodeSelectorRequirement {
    NodeSelectorRequirement {
        key: key.to_owned(),
        operator: operator.to_owned(),
        values: values.iter().map(|v| v.to_string()).collect(),
    }
}

fn required_affinity(terms: Vec<NodeSelectorTerm>) -> NodeAffinity {
    NodeAffinity {
        required_during_scheduling_ignored_during_execution: Some(NodeSelectorSpec {
            node_selector_terms: terms,
        }),
    }
}

fn make_node_with_capacity(name: &str, labels: &[(&str, &str)], capacity: &str) -> NodeItem {
    NodeItem {
        metadata: NodeMetadata { name: name.to_owned(), labels: text_map(labels) },
        spec: NodeSpec::default(),
        status: NodeStatus {
            allocatable: NodeAllocatable { pods: capacity.to_owned(),..Default::default() },
            capacity: NodeAllocatable { pods: capacity.to_owned(),..Default::default() },
        },
        csi_driver_headroom: Default::default(),
        csi_registered_drivers: Default::default(),
    }
}

fn usage_with_pod_count(pod_count: u32) -> NodeUsage {
    NodeUsage {
        pod_count,
        requests: ResourceRequests::default(),
        host_ports: Vec::new(),
        pvc_names: Vec::new(),
        csi_attached_counts: Default::default(),
    }
}

fn empty_pending_pod() -> PendingPod {
    PendingPod {
        namespace: "default".to_owned(),
        pod_name: "pod".to_owned(),
        node_selector: Default::default(),
        priority: 0,
        tolerations: Vec::new(),
        node_affinity: None,
        labels: Default::default(),
        pod_affinity_terms: Vec::new(),
        pod_anti_affinity_terms: Vec::new(),
        requests: ResourceRequests::default(),
        host_ports: Vec::new(),
        pvc_names: Vec::new(),
        pv_node_affinities: Vec::new(),
        topology_spread_constraints: Vec::new(),
        csi_volume_counts: Default::default(),
        read_write_once_pod_pvcs: Vec::new(),
        unbound_csi_pvc_drivers: Vec::new(),
    }
}

fn host_port_claim(host_port: u16, host_ip: &str, protocol: &str) -> HostPortClaim {
    HostPortClaim { host_port, host_ip: host_ip.to_owned(), protocol: protocol.to_owned() }
}

fn node_allocatable(cpu: &str, memory: &str, ephemeral_storage: &str) -> NodeAllocatable {
    NodeAllocatable {
        pods: String::new(),
        cpu: cpu.to_owned(),
        memory: memory.to_owned(),
        ephemeral_storage: ephemeral_storage.to_owned(),
        extended: Default::default(),
    }
}

fn requests(
    cpu_milli: i64,
    memory_milli: i64,
    ephemeral_storage_milli: i64,
) -> ResourceRequests {
    ResourceRequests {
        cpu_milli,
        memory_milli,
        ephemeral_storage_milli,
        extended: Default::default(),
    }
}

fn np(key: &str, priority: i32) -> NodePod {
    NodePod {
        key: key.to_owned(),
        priority,
        requests: ResourceRequests::default(),
        pvc_names: Vec::new(),
    }
}

fn extended_request(name: &str, amount: i64) -> ResourceRequests {
    let mut r = ResourceRequests::default();
    r.extended.insert(name.to_owned(), amount);
    r
}

fn reserve(
    tally: &mut NodeTally,
    pod_name: &str,
    node_name: &str,
    priority: i32,
    requests: ResourceRequests,
) {
    tally.reserve(
        "default",
        pod_name,
        node_name,
        priority,
        requests,
        Vec::new(),
        StringMap::new(),
        Vec::new(),
    );
}

fn csi_slots(tally: &mut NodeTally, node_name: &str, slots: i64, claims: usize) {
    tally.apply_csi_node_event(&csi_node_event(&format!(
        r#"{{
        "type": "ADDED",
        "object": {{
            "metadata": {{ "name": "{node_name}" }},
            "spec": {{ "drivers": [
                {{ "name": "hostpath.csi.k8s.io", "allocatable": {{ "count": {slots} }} }}
            ] }}
        }}
    }}"#
    )));
    for i in 0..claims {
        tally.apply_pvc_event(&pvc_event(&format!(
            r#"{{
            "type": "ADDED",
            "object": {{
                "metadata": {{ "name": "pvc-{i}", "namespace": "default" }},
                "spec": {{ "volumeName": "pv-{i}" }}
            }}
        }}"#
        )));
        tally.apply_pv_event(&pv_event(&format!(
            r#"{{
            "type": "ADDED",
            "object": {{
                "metadata": {{ "name": "pv-{i}" }},
                "spec": {{ "csi": {{ "driver": "hostpath.csi.k8s.io" }} }}
            }}
        }}"#
        )));
    }
}

fn csi_pod(i: usize) -> PendingPod {
    let mut pod = empty_pending_pod();
    pod.pod_name = format!("pod-{i}");
    pod.pvc_names = vec![format!("pvc-{i}")];
    pod.csi_volume_counts =
        StringMap::from_entries(vec![("hostpath.csi.k8s.io".to_owned(), 1i64)]);
    pod
}

#[test]
fn reservations_are_seen_by_the_next_decision_for_one_slot() {
    let mut tally = NodeTally::default();
    let mut winners = 0;
    for i in 0..8 {
        let mut node = make_node_with_capacity("worker-0", &[], "110");
        node.status.allocatable.cpu = "1".to_owned();
        let mut pod = empty_pending_pod();
        pod.pod_name = format!("pod-{i}");
        pod.requests.cpu_milli = 1000;
        let list = NodeList { items: vec![node] };
        if select_and_reserve_node(list, &pod, &mut tally).is_ok() {
            winners += 1;
        }
    }
    assert_eq!(winners, 1);
    let usage = tally.usage_by_node();
    assert_eq!(usage.get("worker-0").unwrap().requests.cpu_milli, 1000);
}

#[test]
fn plans_for_the_same_victims_have_one_winner() {
    let mut tally = NodeTally::default();
    let mut winners = 0;
    for name in ["victim-a", "victim-b"] {
        reserve(&mut tally, name, "worker-0", 0, requests(1000, 0, 0));
    }
    for i in 0..8 {
        let mut node = make_node_with_capacity("worker-0", &[], "110");
        node.status.allocatable.cpu = "2".to_owned();
        let mut pod = empty_pending_pod();
        pod.pod_name = format!("preemptor-{i}");
        pod.requests.cpu_milli = 2000;
        let plan = PreemptionPlan {
            node_name: "worker-0".to_owned(),
            victims: vec!["default/victim-a".to_owned(), "default/victim-b".to_owned()],
        };
        if verify_and_reserve_preemption(&pod, &node, &plan, &mut tally).is_ok() {
            winners += 1;
        }
    }
    assert_eq!(winners, 1);
}

#[test]
fn equally_important_preemptors_get_disjoint_victims() {
    let mut tally = NodeTally::default();
    for name in ["filler-0", "filler-1", "filler-2"] {
        reserve(&mut tally, name, "worker-0", 100, requests(1000, 0, 0));
    }
    let mut node = make_node_with_capacity("worker-0", &[], "110");
    node.status.allocatable.cpu = "3".to_owned();
    let mut evicted: Vec<String> = Vec::new();
    for i in 0..3 {
        let mut pod = empty_pending_pod();
        pod.pod_name = format!("preemptor-{i}");
        pod.priority = 1000;
        pod.requests = requests(1000, 0, 0);
        let victims = select_preemption_victims(
            pod.priority,
            &pod.requests,
            &tally.pods_on("worker-0"),
            110,
            &node.status.allocatable,
        );
        let plan = PreemptionPlan { node_name: "worker-0".to_owned(), victims };
        assert!(verify_and_reserve_preemption(&pod, &node, &plan, &mut tally).is_ok());
        evicted.extend(plan.victims);
    }
    assert_eq!(evicted.len(), 3);
    evicted.sort();
    evicted.dedup();
    assert_eq!(evicted.len(), 3);
}

#[test]
fn one_csi_slot_is_given_out_once() {
    let mut tally = NodeTally::default();
    csi_slots(&mut tally, "worker-0", 1, 8);
    let mut winners = 0;
    for i in 0..8 {
        let list = NodeList { items: vec![make_node_with_capacity("worker-0", &[], "110")] };
        let pod = csi_pod(i);
        if select_and_reserve_node(list, &pod, &mut tally).is_ok() {
            winners += 1;
        }
    }
    assert_eq!(winners, 1);
    let usage = tally.usage_by_node();
    let attached = &usage.get("worker-0").unwrap().csi_attached_counts;
    assert_eq!(attached.get("hostpath.csi.k8s.io"), Some(&1));
}

#[test]
fn one_csi_slot_is_preempted_for_once() {
    let mut tally = NodeTally::default();
    csi_slots(&mut tally, "worker-0", 1, 8);
    let node = make_node_with_capacity("worker-0", &[], "110");
    let mut winners = 0;
    for i in 0..8 {
        let plan = PreemptionPlan { node_name: "worker-0".to_owned(), victims: Vec::new() };
        if verify_and_reserve_preemption(&csi_pod(i), &node, &plan, &mut tally).is_ok() {
            winners += 1;
        }
    }
    assert_eq!(winners, 1);
}

#[test]
fn pod_without_terms_suits_every_node() {
    let pod = empty_pending_pod();
    let nodes = StringMap::from_entries(vec![("n".to_owned(), text_map(&[("zone", "a")]))]);
    let placed = [tallied("n", "default", &[("app", "web")])];
    let context = InterPodAffinityContext::build(&pod, &placed, &nodes);
    assert!(context.node_qualifies(&text_map(&[])));
    assert!(context.node_qualifies(&text_map(&[("zone", "a")])));
}

#[test]
fn node_without_the_label_of_an_affinity_term_is_shut_out() {
    let mut pod = empty_pending_pod();
    pod.pod_affinity_terms = vec![podaffinity_term("zone", &[("app", "web")])];
    let nodes = StringMap::from_entries(vec![("n".to_owned(), text_map(&[("zone", "a")]))]);
    let placed = [tallied("n", "default", &[("app", "web")])];
    let context = InterPodAffinityContext::build(&pod, &placed, &nodes);
    assert!(context.node_qualifies(&text_map(&[("zone", "a")])));
    assert!(!context.node_qualifies(&text_map(&[("rack", "a")])));
}

#[test]
fn anti_affinity_is_met_while_nothing_is_placed() {
    let mut pod = empty_pending_pod();
    pod.pod_anti_affinity_terms = vec![podaffinity_term("zone", &[("app", "web")])];
    let nodes = StringMap::from_entries(vec![("n".to_owned(), text_map(&[("zone", "a")]))]);
    let context = InterPodAffinityContext::build(&pod, &[], &nodes);
    assert!(context.node_qualifies(&text_map(&[("zone", "a")])));
}

#[test]
fn terms_without_namespaces_mean_the_namespace_of_the_pod() {
    let term = podaffinity_term("zone", &[("app", "web")]);
    let labels = text_map(&[("app", "web")]);
    assert!(pod_matches_affinity_term(&term, "default", "default", &labels));
    assert!(!pod_matches_affinity_term(&term, "default", "other", &labels));
    assert!(term_namespace_matches(&vec!["other".to_owned()], "default", "other"));
    assert!(!term_namespace_matches(&vec!["other".to_owned()], "default", "default"));
}

#[test]
fn emptiest_domain_is_open_and_fullest_is_not() {
    let mut pod = empty_pending_pod();
    pod.labels = text_map(&[("app", "web")]);
    let constraint = topology_spread_constraint("zone", 1, "DoNotSchedule", &[("app", "web")]);
    pod.topology_spread_constraints = vec![constraint];
    let nodes = StringMap::from_entries(vec![
        ("n".to_owned(), text_map(&[("zone", "a")])),
        ("m".to_owned(), text_map(&[("zone", "b")])),
    ]);
    let placed = [tallied("n", "default", &[("app", "web")])];
    let context = TopologySpreadContext::build(&pod, &placed, &nodes);
    assert!(context.node_qualifies(&text_map(&[("zone", "b")])));
    assert!(!context.node_qualifies(&text_map(&[("zone", "a")])));
    assert!(!context.node_qualifies(&text_map(&[("rack", "a")])));
}

#[test]
fn victims_do_not_count_for_the_spread() {
    let mut pod = empty_pending_pod();
    pod.labels = text_map(&[("app", "web")]);
    let constraint = topology_spread_constraint("zone", 1, "DoNotSchedule", &[("app", "web")]);
    pod.topology_spread_constraints = vec![constraint];
    let nodes = StringMap::from_entries(vec![
        ("n".to_owned(), text_map(&[("zone", "a")])),
        ("m".to_owned(), text_map(&[("zone", "b")])),
    ]);
    let placed = [tallied("n", "default", &[("app", "web")])];
    let context = TopologySpreadContext::build(&pod, &placed, &nodes);
    let labels = text_map(&[("zone", "a")]);
    assert!(context.node_qualifies_excluding_victims(&labels, &vec![&placed[0]]));
    assert!(!context.node_qualifies_excluding_victims(&labels, &Vec::new()));
}

#[test]
fn sums_add_every_amount() {
    let sum = requests(1, 2, 3).plus(&requests(10, 20, 30));
    assert_eq!(sum, requests(11, 22, 33));
    let gpu = extended_request("nvidia.com/gpu", 1000);
    let both = gpu.clone().plus(&extended_request("nvidia.com/gpu", 500));
    assert_eq!(both, extended_request("nvidia.com/gpu", 1500));
    assert_eq!(requests(1, 2, 3) + requests(10, 20, 30), requests(11, 22, 33));
}

#[test]
fn sums_stay_in_range() {
    let most = requests(i64::MAX, 0, 0);
    assert_eq!(most.plus(&requests(1, 0, 0)), requests(i64::MAX, 0, 0));
}

#[test]
fn taking_away_undoes_adding() {
    let mut total = requests(1, 2, 3).plus(&requests(10, 20, 30));
    subtract_requests(&mut total, &requests(10, 20, 30));
    assert_eq!(total, requests(1, 2, 3));
}

#[test]
fn pod_that_asks_for_nothing_fits_within_capacity() {
    let allocatable = node_allocatable("1", "1Gi", "1Gi");
    assert!(resource_fits(&allocatable, &requests(1000, 0, 0), &requests(0, 0, 0)));
    assert!(!resource_fits(&allocatable, &requests(1001, 0, 0), &requests(0, 0, 0)));
}

#[test]
fn conflict_does_not_depend_on_which_claim_came_first() {
    let everywhere = host_port_claim(80, "", "TCP");
    let here = host_port_claim(80, "10.0.0.5", "TCP");
    assert!(host_ports_conflict(&everywhere, &here));
    assert!(host_ports_conflict(&here, &everywhere));
    let other = host_port_claim(81, "10.0.0.5", "TCP");
    assert!(!host_ports_conflict(&here, &other));
    assert!(!host_ports_conflict(&other, &here));
}

#[test]
fn pod_without_claims_fits_beside_any() {
    assert!(host_ports_fit(&[host_port_claim(80, "", "TCP")], &[]));
}

#[test]
fn operators_and_their_negations() {
    let labels = text_map(&[("zone", "a")]);
    let holds = |req: NodeSelectorRequirement| node_selector_requirement_matches(&labels, &req);
    assert!(holds(requirement("zone", "In", &["a", "b"])));
    assert!(!holds(requirement("zone", "NotIn", &["a", "b"])));
    assert!(!holds(requirement("rack", "In", &["a"])));
    assert!(holds(requirement("rack", "NotIn", &["a"])));
    assert!(holds(requirement("zone", "Exists", &[])));
    assert!(!holds(requirement("zone", "DoesNotExist", &[])));
    assert!(!holds(requirement("rack", "Exists", &[])));
    assert!(holds(requirement("rack", "DoesNotExist", &[])));
    assert!(!holds(requirement("zone", "Lt", &["b"])));
}

#[test]
fn missing_label_selector_picks_nothing_and_an_empty_one_everything() {
    let labels = text_map(&[("app", "web")]);
    assert!(!label_selector_matches(&labels, None));
    let empty = LabelSelectorSpec { match_labels: text_map(&[]), match_expressions: Vec::new() };
    assert!(label_selector_matches(&labels, Some(&empty)));
}

#[test]
fn node_affinity_without_terms_admits_every_node() {
    let labels = text_map(&[]);
    assert!(node_affinity_matches(&labels, "n", Some(&required_affinity(Vec::new()))));
}

#[test]
fn one_more_toleration_shuts_nobody_out() {
    let taints = vec![taint("dedicated", "gpu", "NoSchedule")];
    let mut tolerations = vec![toleration("dedicated", "gpu", "NoSchedule")];
    assert!(node_taints_tolerated(&taints, &tolerations));
    tolerations.push(toleration("other", "x", "NoExecute"));
    assert!(node_taints_tolerated(&taints, &tolerations));
}

#[test]
fn claim_of_a_bound_volume_has_to_reach_the_node() {
    let node = make_node("n", &[("disk", "a")]);
    let mut pod = empty_pending_pod();
    pod.pv_node_affinities = vec![pv_node_affinity_requiring("disk", "a")];
    assert!(node_qualifies_for_pod(&node, &pod));
    pod.pv_node_affinities.push(pv_node_affinity_requiring("disk", "b"));
    assert!(!node_qualifies_for_pod(&node, &pod));
}

#[test]
fn list_without_nodes_has_no_place() {
    let list = NodeList { items: Vec::new() };
    let pod = empty_pending_pod();
    assert!(select_node_with_capacity(list, &pod, &StringMap::new(), &[]).is_err());
}

#[test]
fn load_is_told_by_pods_first() {
    let idle = usage_with_pod_count(1);
    let mut busy = usage_with_pod_count(2);
    assert!(is_less_loaded(&idle, &busy));
    assert!(!is_less_loaded(&busy, &idle));
    assert!(!is_less_loaded(&idle, &idle));
    busy.pod_count = 1;
    busy.requests.cpu_milli = 1;
    assert!(is_less_loaded(&idle, &busy));
}

#[test]
fn victims_are_enough_and_no_more() {
    let pods = vec![np("a/one", 3), np("a/two", 1), np("a/three", 2)];
    let allocatable = NodeAllocatable::default();
    let victims = select_preemption_victims(10, &requests(0, 0, 0), &pods, 2, &allocatable);
    assert_eq!(victims, vec!["a/two".to_owned(), "a/three".to_owned()]);
    let none = select_preemption_victims(10, &requests(0, 0, 0), &pods, 4, &allocatable);
    assert!(none.is_empty());
}

#[test]
fn pod_without_exclusive_claims_has_no_holders() {
    let pods = vec![np("a/one", 3)];
    assert_eq!(read_write_once_pod_preemption_victims(&pods, &[], 0), Some(Vec::new()));
}

#[test]
fn replayed_event_changes_nothing() {
    let mut tally = NodeTally::default();
    let mut preemptor = empty_pending_pod();
    preemptor.pod_name = "preemptor".to_owned();
    let victims = ["default/a".to_owned()];
    tally.register_preemption_waiter(preemptor, "worker-0".to_owned(), &victims);
    let bound = bound_pod_added_event("a", "worker-0", "Running", "1");
    assert!(tally.apply_event(&bound).is_empty());
    assert!(tally.apply_event(&bound).is_empty());
    assert_eq!(tally.usage_by_node().get("worker-0").unwrap().pod_count, 1);
    let gone = bound_pod_added_event("a", "worker-0", "Failed", "1");
    assert_eq!(tally.apply_event(&gone).len(), 1);
    assert!(tally.apply_event(&gone).is_empty());
    assert!(tally.usage_by_node().is_empty());
}

#[test]
fn removal_undoes_a_reservation() {
    let mut tally = NodeTally::default();
    reserve(&mut tally, "a", "worker-0", 0, requests(1, 2, 3));
    reserve(&mut tally, "b", "worker-0", 0, requests(10, 20, 30));
    tally.remove("default", "b");
    let usage = tally.usage_by_node();
    assert_eq!(usage.get("worker-0").unwrap().requests, requests(1, 2, 3));
    assert_eq!(usage.get("worker-0").unwrap().pod_count, 1);
    assert_eq!(usage.len(), 1);
}

#[test]
fn claimed_victims_are_hidden_but_counted() {
    let mut tally = NodeTally::default();
    reserve(&mut tally, "a", "worker-0", 0, requests(1, 0, 0));
    let victims = ["default/a".to_owned()];
    tally.claim_victims(&victims);
    assert!(tally.pods_on("worker-0").is_empty());
    assert_eq!(tally.usage_by_node().get("worker-0").unwrap().pod_count, 1);
    assert_eq!(tally.tallied_pod_labels().len(), 1);
    tally.release_victims(&victims);
    assert_eq!(tally.pods_on("worker-0").len(), 1);
}

#[test]
fn cleared_tally_is_unused() {
    let mut tally = NodeTally::default();
    reserve(&mut tally, "a", "worker-0", 0, requests(1, 0, 0));
    assert!(tally.clear().is_empty());
    assert!(tally.usage_by_node().is_empty());
    assert!(tally.tallied_pod_labels().is_empty());
}

#[test]
fn stranded_pods_are_resynced_as_the_watch_would_place_them() {
    let pods = vec![
        pod_object(r#"{ "metadata": { "name": "a" }, "spec": {} }"#),
        pod_object(r#"{ "metadata": { "name": "b" }, "spec": { "nodeName": "n" } }"#),
    ];
    let events = pods_needing_resync(&pods, &StringSet::new());
    assert_eq!(events.len(), 1);
    assert_eq!(needs_scheduling(&events[0]).unwrap().pod_name, "a");
    assert_eq!(needs_scheduling_pod(&pods[0]).unwrap().namespace, "default");
    assert!(needs_scheduling_pod(&pods[1]).is_none());
}

#[test]
fn marks_settle() {
    let gated = pod_event(
        r#"{
        "type": "ADDED",
        "object": {
            "metadata": { "name": "p" },
            "spec": { "schedulingGates": [{"name": "g"}] },
            "status": { "conditions": [
                { "type": "PodScheduled", "status": "False", "reason": "SchedulingGated" }
            ] }
        }
    }"#,
    );
    assert!(scheduling_gate_status_patch(&gated).is_none());
    assert!(scheduling_gate_status_reset(&gated).is_none());
    assert!(needs_scheduling(&gated).is_none());
}

#[test]
fn csi_laws_hold_on_one_node() {
    let none: StringMap<i64> = StringMap::new();
    let limits = StringMap::from_entries(vec![("d".to_owned(), 3)]);
    let attached = StringMap::from_entries(vec![("d".to_owned(), 5), ("e".to_owned(), 1)]);
    let headroom = net_csi_headroom(&limits, &attached);
    assert_eq!(headroom.len(), 1);
    assert!(!csi_volume_limits_fit(&headroom, &limits));
    assert!(csi_volume_limits_fit(&headroom, &none));
    assert!(csi_volume_limits_fit(&none, &limits));
    assert!(!csi_topology_fit(&StringSet::new(), &["d".to_owned()]));
}

#[test]
fn plan_waits_for_every_victim() {
    let mut waiters = PreemptionWaiters::new();
    let victims = ["ns/a".to_owned(), "ns/b".to_owned()];
    waiters.register(empty_pending_pod(), "n".to_owned(), &victims);
    assert!(waiters.resolve("ns/other").is_empty());
    assert!(waiters.resolve("ns/b").is_empty());
    let ready = waiters.resolve("ns/a");
    assert_eq!(ready.len(), 1);
    assert_eq!(ready[0].0.pod_name, "pod");
    assert_eq!(ready[0].1, "n");
    assert!(waiters.clear().is_empty());
}

#[test]
fn preemption_takes_the_cheapest_node() {
    let mut tally = NodeTally::default();
    for name in ["a1", "a2"] {
        reserve(&mut tally, name, "node-a", 0, requests(500, 0, 0));
    }
    reserve(&mut tally, "b1", "node-b", 0, requests(1000, 0, 0));
    for name in ["node-a", "node-b"] {
        let mut node = make_node_with_capacity(name, &[], "110");
        node.status.allocatable.cpu = "1".to_owned();
        let event = WatchEvent { event_type: "ADDED".to_owned(), object: Some(node) };
        tally.apply_node_event(&event);
    }
    let mut pod = empty_pending_pod();
    pod.priority = 10;
    pod.requests = requests(1000, 0, 0);
    assert!(matches!(pick_node(&pod, &mut tally), Err(PickNodeError::NoCapacity(_))));
    let plan = find_preemption_plan(&pod, &mut tally).unwrap();
    assert_eq!(plan.node_name, "node-b");
    assert_eq!(plan.victims, vec!["default/b1".to_owned()]);
    assert!(tally.pods_on("node-b").iter().all(|p| p.key != "default/b1"));
    assert_eq!(tally.usage_by_node().get("node-b").unwrap().pod_count, 2);
    assert!(fetch_node(&tally, "node-b").is_some());
    assert!(fetch_node(&tally, "node-c").is_none());
}

#[test]
fn less_important_pod_preempts_nobody() {
    let mut tally = NodeTally::default();
    reserve(&mut tally, "a", "node-a", 5, requests(0, 0, 0));
    let node = make_node_with_capacity("node-a", &[], "1");
    let event = WatchEvent { event_type: "ADDED".to_owned(), object: Some(node) };
    tally.apply_node_event(&event);
    let mut pod = empty_pending_pod();
    pod.priority = 5;
    let err = find_preemption_plan(&pod, &mut tally).unwrap_err();
    assert!(matches!(err, FindPreemptionPlanError::NoViablePlan));
    assert_eq!(
        err.to_string(),
        "no node can fit the pending pod even after preempting lower-priority pods"
    );
    assert_eq!(tally.pods_on("node-a").len(), 1);
}

#[test]
fn annotated_claims_settle() {
    let mut info = unbound_pvc("wfc-class");
    info.selected_node = Some("n".to_owned());
    let names = ["c".to_owned()];
    let modes = binding_mode("wfc-class", "WaitForFirstConsumer");
    assert!(selected_node_patches(&names, "n", &one_claim("c", info), &modes).is_empty());
}

#[test]
fn reservation_adds_requests_and_ports() {
    let mut tally = NodeTally::default();
    let mut node = make_node_with_capacity("worker-0", &[], "2");
    node.status.allocatable.cpu = "1".to_owned();
    let event = WatchEvent { event_type: "ADDED".to_owned(), object: Some(node) };
    tally.apply_node_event(&event);
    for (name, port) in [("a", 80), ("b", 81)] {
        let mut pod = empty_pending_pod();
        pod.pod_name = name.to_owned();
        pod.requests.cpu_milli = 500;
        pod.host_ports = vec![host_port_claim(port, "", "TCP")];
        assert_eq!(pick_node(&pod, &mut tally).unwrap(), "worker-0");
    }
    let usage = tally.usage_by_node();
    let used = usage.get("worker-0").unwrap();
    assert_eq!(used.pod_count, 2);
    assert_eq!(used.requests.cpu_milli, 1000);
    assert!(!host_ports_conflict(&used.host_ports[0], &used.host_ports[1]));
    let mut late = empty_pending_pod();
    late.pod_name = "c".to_owned();
    assert!(pick_node(&late, &mut tally).is_err());
}

#[test]
fn exclusive_claims_are_not_shared() {
    let mut tally = NodeTally::default();
    let node = make_node("worker-0", &[]);
    let event = WatchEvent { event_type: "ADDED".to_owned(), object: Some(node) };
    tally.apply_node_event(&event);
    let mut pod = empty_pending_pod();
    pod.pvc_names = vec!["data".to_owned()];
    pod.read_write_once_pod_pvcs = vec!["data".to_owned()];
    assert!(pick_node(&pod, &mut tally).is_ok());
    pod.pod_name = "other".to_owned();
    assert!(pick_node(&pod, &mut tally).is_err());
}

#[test]
fn undisturbed_plan_goes_through() {
    let mut tally = NodeTally::default();
    for name in ["a", "b"] {
        reserve(&mut tally, name, "node-a", 0, requests(500, 0, 0));
    }
    let mut node = make_node_with_capacity("node-a", &[], "110");
    node.status.allocatable.cpu = "1".to_owned();
    let event = WatchEvent { event_type: "ADDED".to_owned(), object: Some(node) };
    tally.apply_node_event(&event);
    let mut pod = empty_pending_pod();
    pod.pod_name = "preemptor".to_owned();
    pod.priority = 10;
    pod.requests = requests(1000, 0, 0);
    let plan = find_preemption_plan(&pod, &mut tally).unwrap();
    assert_eq!(plan.victims, vec!["default/a".to_owned(), "default/b".to_owned()]);
    let node = fetch_node(&tally, "node-a").unwrap();
    for name in ["a", "b"] {
        tally.remove("default", name);
    }
    tally.release_victims(&plan.victims);
    assert!(preemption_reservation_still_fits(&pod, &node, &tally));
    reserve(&mut tally, "intruder", "node-a", 0, requests(1, 0, 0));
    assert!(!preemption_reservation_still_fits(&pod, &node, &tally));
}

#[test]
fn departed_pods_take_no_room() {
    let mut tally = NodeTally::default();
    tally.apply_event(&bound_pod_added_event("a", "worker-0", "Running", "1"));
    tally.apply_event(&bound_pod_added_event("a", "worker-0", "Succeeded", "1"));
    assert!(tally.usage_by_node().is_empty());
}

#[test]
fn no_pod_is_evicted_twice() {
    let pods = vec![np("a/one", 3), np("a/two", 1), np("a/three", 2)];
    let allocatable = NodeAllocatable::default();
    let mut victims = select_preemption_victims(10, &requests(0, 0, 0), &pods, 1, &allocatable);
    assert_eq!(victims.len(), 3);
    victims.sort();
    victims.dedup();
    assert_eq!(victims.len(), 3);
}

#[test]
fn event_names_differ_at_different_times() {
    assert_ne!(scheduling_event_name("p", 255), scheduling_event_name("p", 256));
    assert_eq!(scheduling_event_name("p", 255), "p.ff");
}

#[test]
fn eviction_that_leaves_no_room_is_no_candidate() {
    let mut node = make_node_with_capacity("node-a", &[], "110");
    node.status.allocatable.cpu = "1".to_owned();
    let mut tally = NodeTally::default();
    let claims = vec!["data-pvc".to_owned()];
    tally.reserve(
        "default",
        "holder",
        "node-a",
        0,
        requests(0, 0, 0),
        Vec::new(),
        StringMap::new(),
        claims.clone(),
    );
    reserve(&mut tally, "hog", "node-a", 1000, requests(1000, 0, 0));
    let mut pod = empty_pending_pod();
    pod.pod_name = "p".to_owned();
    pod.priority = 1000;
    pod.requests.cpu_milli = 1000;
    pod.read_write_once_pod_pvcs = claims;
    let list = NodeList { items: vec![node] };
    let placed = tally.tallied_pod_labels();
    let labels = labels_by_name(&list);
    assert!(find_preemption_candidate(&list, &pod, &placed, &labels, &tally).is_none());
    tally.remove("default", "hog");
    let placed = tally.tallied_pod_labels();
    let found = find_preemption_candidate(&list, &pod, &placed, &labels, &tally);
    assert_eq!(found.unwrap().1.victims, vec!["default/holder".to_owned()]);
}

#[test]
fn plan_passes_over_a_node_without_room_after_eviction() {
    let mut tally = NodeTally::default();
    reserve(&mut tally, "hog", "node-a", 1000, requests(1000, 0, 0));
    reserve(&mut tally, "small", "node-a", 0, requests(1, 0, 0));
    for name in ["b1", "b2"] {
        reserve(&mut tally, name, "node-b", 0, requests(500, 0, 0));
    }
    for name in ["node-a", "node-b"] {
        let mut node = make_node_with_capacity(name, &[], "110");
        node.status.allocatable.cpu = "1".to_owned();
        let event = WatchEvent { event_type: "ADDED".to_owned(), object: Some(node) };
        tally.apply_node_event(&event);
    }
    let mut pod = empty_pending_pod();
    pod.priority = 10;
    pod.requests.cpu_milli = 1000;
    let plan = find_preemption_plan(&pod, &mut tally).unwrap();
    assert_eq!(plan.node_name, "node-b");
    assert_eq!(plan.victims, vec!["default/b1".to_owned(), "default/b2".to_owned()]);
}

#[test]
fn exclusive_claim_held_on_one_node_shuts_out_the_others() {
    let items = vec![make_node("worker-0", &[]), make_node("worker-1", &[])];
    let mut usage = usage_with_pod_count(0);
    usage.pvc_names = vec!["default/data-pvc".to_owned()];
    let used = StringMap::from_entries(vec![("worker-0".to_owned(), usage)]);
    let mut pod = empty_pending_pod();
    pod.read_write_once_pod_pvcs = vec!["data-pvc".to_owned()];
    let list = NodeList { items };
    assert!(select_node_with_capacity(list.clone(), &pod, &used, &[]).is_err());
    pod.read_write_once_pod_pvcs = vec!["other-pvc".to_owned()];
    assert!(select_node_with_capacity(list, &pod, &used, &[]).is_ok());
}

#[test]
fn exclusive_claim_held_elsewhere_cannot_be_preempted_for() {
    let mut tally = NodeTally::default();
    tally.reserve(
        "default",
        "holder",
        "node-b",
        1000,
        requests(0, 0, 0),
        Vec::new(),
        StringMap::new(),
        vec!["data-pvc".to_owned()],
    );
    reserve(&mut tally, "filler", "node-a", 0, requests(1000, 0, 0));
    let mut node = make_node_with_capacity("node-a", &[], "110");
    node.status.allocatable.cpu = "1".to_owned();
    let event = WatchEvent { event_type: "ADDED".to_owned(), object: Some(node) };
    tally.apply_node_event(&event);
    let mut pod = empty_pending_pod();
    pod.priority = 10;
    pod.requests.cpu_milli = 1000;
    pod.read_write_once_pod_pvcs = vec!["data-pvc".to_owned()];
    let err = find_preemption_plan(&pod, &mut tally).unwrap_err();
    assert!(matches!(err, FindPreemptionPlanError::NoViablePlan));
    assert_eq!(tally.pods_on("node-a").len(), 1);
    tally.remove("default", "holder");
    let plan = find_preemption_plan(&pod, &mut tally).unwrap();
    assert_eq!(plan.victims, vec!["default/filler".to_owned()]);
}

#[test]
fn every_affinity_term_needs_its_own_match() {
    let list = NodeList { items: vec![make_node("worker-0", &[("zone", "a")])] };
    let mut placed = vec![tallied("worker-0", "default", &[("app", "cache")])];
    let mut pod = empty_pending_pod();
    pod.pod_affinity_terms = vec![
        podaffinity_term("zone", &[("app", "cache")]),
        podaffinity_term("zone", &[("app", "db")]),
    ];
    let used = StringMap::new();
    assert!(select_node_with_capacity(list.clone(), &pod, &used, &placed).is_err());
    placed.push(tallied("worker-0", "default", &[("app", "db")]));
    assert!(select_node_with_capacity(list, &pod, &used, &placed).is_ok());
}

#[test]
fn finished_pod_without_a_node_gives_its_reservation_back() {
    let mut tally = NodeTally::default();
    reserve(&mut tally, "p", "worker-0", 0, requests(0, 0, 0));
    let pending = tally_event(
        r#"{
        "type": "MODIFIED",
        "object": {
            "metadata": { "name": "p", "namespace": "default" },
            "spec": {},
            "status": { "phase": "Pending" }
        }
    }"#,
    );
    assert!(tally.apply_event(&pending).is_empty());
    assert!(tally.usage_by_node().contains_key("worker-0"));
    let failed = tally_event(
        r#"{
        "type": "MODIFIED",
        "object": {
            "metadata": { "name": "p", "namespace": "default" },
            "spec": {},
            "status": { "phase": "Failed" }
        }
    }"#,
    );
    assert!(tally.apply_event(&failed).is_empty());
    assert!(!tally.usage_by_node().contains_key("worker-0"));
}

#[test]
fn victims_are_judged_as_gone_where_they_were_the_only_matches() {
    let mut pod = empty_pending_pod();
    pod.labels = text_map(&[("app", "web")]);
    pod.pod_affinity_terms = vec![podaffinity_term("zone", &[("app", "web")])];
    let nodes = StringMap::from_entries(vec![
        ("n".to_owned(), text_map(&[("zone", "a")])),
        ("m".to_owned(), text_map(&[("zone", "b")])),
    ]);
    let labels = text_map(&[("zone", "a")]);
    let placed = [tallied("n", "default", &[("app", "web")])];
    let context = InterPodAffinityContext::build(&pod, &placed, &nodes);
    let without = InterPodAffinityContext::build(&pod, &[], &nodes);
    assert!(without.node_qualifies(&labels));
    assert!(context.node_qualifies_excluding_victims(&labels, &vec![&placed[0]]));

    let both = [
        tallied("n", "default", &[("app", "web")]),
        tallied("m", "default", &[("app", "web")]),
    ];
    let context = InterPodAffinityContext::build(&pod, &both, &nodes);
    let without = InterPodAffinityContext::build(&pod, &both[1..], &nodes);
    assert!(!without.node_qualifies(&labels));
    assert!(!context.node_qualifies_excluding_victims(&labels, &vec![&both[0]]));
}

#[test]
fn plan_takes_effect_at_once() {
    let mut tally = NodeTally::default();
    for name in ["a", "b"] {
        reserve(&mut tally, name, "node-a", 0, requests(500, 0, 0));
    }
    let mut node = make_node_with_capacity("node-a", &[], "110");
    node.status.allocatable.cpu = "1".to_owned();
    let event = WatchEvent { event_type: "ADDED".to_owned(), object: Some(node) };
    tally.apply_node_event(&event);
    let mut pod = empty_pending_pod();
    pod.pod_name = "preemptor".to_owned();
    pod.priority = 10;
    pod.requests = requests(1000, 0, 0);
    let plan = find_preemption_plan(&pod, &mut tally).unwrap();
    let node = fetch_node(&tally, &plan.node_name).unwrap();
    assert_eq!(node.metadata.name, "node-a");
    assert!(preemption_reservation_still_fits(&pod, &node, &tally));
    let left: Vec<String> = tally.pods_on("node-a").into_iter().map(|p| p.key).collect();
    assert_eq!(left, vec![format!("{}/preemptor", pod.namespace)]);
}

#[test]
fn victims_leave_what_the_others_ask_for() {
    let mut pods = vec![np("a/one", 0), np("a/two", 5), np("a/three", 9)];
    pods[0].requests = requests(300, 0, 0);
    pods[1].requests = requests(200, 0, 0);
    pods[2].requests = requests(500, 0, 0);
    let allocatable = node_allocatable("1", "", "");
    let victims = select_preemption_victims(6, &requests(400, 0, 0), &pods, 110, &allocatable);
    assert_eq!(victims, vec!["a/one".to_owned(), "a/two".to_owned()]);
    assert!(resource_fits(&allocatable, &requests(500, 0, 0), &requests(400, 0, 0)));
}

#[test]
fn reservation_leaves_other_nodes_alone() {
    let mut tally = NodeTally::default();
    reserve(&mut tally, "a", "worker-1", 0, requests(7, 0, 0));
    for name in ["worker-0", "worker-1"] {
        let node = make_node(name, &[]);
        let event = WatchEvent { event_type: "ADDED".to_owned(), object: Some(node) };
        tally.apply_node_event(&event);
    }
    let before = tally.usage_by_node();
    let mut pod = empty_pending_pod();
    pod.requests.cpu_milli = 3;
    let name = pick_node(&pod, &mut tally).unwrap();
    assert_eq!(name, "worker-0");
    assert!(tally.node(&name).is_some());
    let after = tally.usage_by_node();
    let (now, then) = (after.get("worker-1").unwrap(), before.get("worker-1").unwrap());
    assert_eq!(now.pod_count, then.pod_count);
    assert_eq!(now.requests, then.requests);
    assert_eq!(after.get("worker-0").unwrap().requests.cpu_milli, 3);
    assert_eq!(tally.node_list().items.len(), 2);
}

#[test]
fn nodes_are_listed_by_name_and_known_by_it() {
    let mut tally = NodeTally::default();
    for name in ["c", "a", "b"] {
        let node = make_node(name, &[]);
        let event = WatchEvent { event_type: "ADDED".to_owned(), object: Some(node) };
        tally.apply_node_event(&event);
    }
    let items = tally.node_list().items;
    let names: Vec<&str> = items.iter().map(|n| n.metadata.name.as_str()).collect();
    assert_eq!(names, vec!["a", "b", "c"]);
    assert_eq!(tally.node("b").unwrap().metadata.name, "b");
}

#[test]
fn drivers_with_a_limit_are_among_those_that_run() {
    let mut tally = NodeTally::default();
    tally.apply_csi_node_event(&csi_node_event(
        r#"{
        "type": "ADDED",
        "object": {
            "metadata": { "name": "worker-0" },
            "spec": { "drivers": [
                { "name": "one.csi", "allocatable": { "count": 3 } },
                { "name": "two.csi" }
            ] }
        }
    }"#,
    ));
    let limits = tally.csi_driver_limits_by_node();
    let names = tally.csi_driver_names_by_node();
    assert_eq!(limits.get("worker-0").unwrap().get("one.csi"), Some(&3));
    assert_eq!(limits.get("worker-0").unwrap().len(), 1);
    assert!(names.get("worker-0").unwrap().contains("one.csi"));
    assert!(names.get("worker-0").unwrap().contains("two.csi"));
    assert_eq!(limits.len(), names.len());
}

#[test]
fn listings_agree_with_the_usage() {
    let mut tally = NodeTally::default();
    for name in ["a", "b"] {
        reserve(&mut tally, name, "worker-0", 0, requests(1, 0, 0));
    }
    reserve(&mut tally, "c", "worker-1", 0, requests(1, 0, 0));
    tally.claim_victims(&["default/a".to_owned()]);
    let labels = tally.tallied_pod_labels();
    let listed = labels.iter().filter(|l| l.node_name == "worker-0").count();
    assert_eq!(listed, 2);
    let usage = tally.usage_by_node();
    assert_eq!(usage.len(), 2);
    assert_eq!(usage.get("worker-0").unwrap().pod_count, 2);
    let free: Vec<String> = tally.pods_on("worker-0").into_iter().map(|p| p.key).collect();
    assert_eq!(free, vec!["default/b".to_owned()]);
}

#[test]
fn volume_counts_ignore_order_and_repetition() {
    let mut tally = NodeTally::default();
    csi_slots(&mut tally, "worker-0", 9, 3);
    let claims = |names: &[&str]| names.iter().map(|n| n.to_string()).collect::<Vec<String>>();
    let once = claims(&["pvc-0", "pvc-1", "unknown"]);
    let again = claims(&["unknown", "pvc-1", "pvc-0", "pvc-1"]);
    let counts = tally.csi_volume_counts_for("default", &once);
    assert_eq!(counts.len(), 1);
    assert_eq!(counts.get("hostpath.csi.k8s.io"), Some(&2));
    assert_eq!(tally.csi_volume_counts_for("default", &again), counts);
    assert!(tally.csi_volume_counts_for("other", &once).is_empty());
}

#[test]
fn timestamps_sort_by_time() {
    let second: u128 = 1_000_000_000;
    let last = 253_402_300_799 * second;
    assert_eq!(scheduling_event_timestamp(last), "9999-12-31T23:59:59Z");
    let times = [0, 59 * second, 60 * second, 86_399 * second, 86_400 * second, last];
    for pair in times.windows(2) {
        let earlier = scheduling_event_timestamp(pair[0]);
        let later = scheduling_event_timestamp(pair[1]);
        assert_eq!(earlier.len(), 20);
        assert_eq!(later.len(), 20);
        assert!(earlier < later);
    }
    assert_eq!(scheduling_event_timestamp(5), scheduling_event_timestamp(second - 1));
}

#[test]
fn fractions_are_close_to_what_is_written() {
    assert_eq!(parse_quantity_milli("1.2344"), 1234);
    assert_eq!(parse_quantity_milli("1.2346"), 1235);
    assert_eq!(parse_quantity_milli("-1.2346"), -1235);
    assert_eq!(parse_quantity_milli("0.1"), 100);
    assert_eq!(parse_quantity_milli("0.3Gi"), 322_122_547_200);
}

#[test]
fn own_claim_does_not_shut_a_pod_out() {
    let mut tally = NodeTally::default();
    for name in ["worker-0", "worker-1"] {
        let node = make_node(name, &[]);
        let event = WatchEvent { event_type: "ADDED".to_owned(), object: Some(node) };
        tally.apply_node_event(&event);
    }
    let mut pod = empty_pending_pod();
    pod.pod_name = "p".to_owned();
    pod.pvc_names = vec!["data-pvc".to_owned()];
    pod.read_write_once_pod_pvcs = vec!["data-pvc".to_owned()];
    assert_eq!(pick_node(&pod, &mut tally).unwrap(), "worker-0");
    assert_eq!(pick_node(&pod, &mut tally).unwrap(), "worker-1");
    let mut other = pod.clone();
    other.pod_name = "q".to_owned();
    assert!(pick_node(&other, &mut tally).is_err());
    tally.remove(&pod.namespace, "p");
    assert!(pick_node(&other, &mut tally).is_ok());
}

#[test]
fn pod_is_not_placed_again_where_it_uses_its_claim() {
    let mut tally = NodeTally::default();
    let node = make_node("worker-0", &[]);
    let event = WatchEvent { event_type: "ADDED".to_owned(), object: Some(node) };
    tally.apply_node_event(&event);
    let mut pod = empty_pending_pod();
    pod.pvc_names = vec!["data-pvc".to_owned()];
    pod.read_write_once_pod_pvcs = vec!["data-pvc".to_owned()];
    assert!(pick_node(&pod, &mut tally).is_ok());
    assert!(pick_node(&pod, &mut tally).is_err());
}

#[test]
fn own_claim_elsewhere_does_not_stop_preemption() {
    let mut tally = NodeTally::default();
    let mut pod = empty_pending_pod();
    pod.pod_name = "p".to_owned();
    pod.priority = 10;
    pod.requests.cpu_milli = 1000;
    pod.pvc_names = vec!["data-pvc".to_owned()];
    pod.read_write_once_pod_pvcs = vec!["data-pvc".to_owned()];
    tally.reserve_pending(&pod, "node-b");
    reserve(&mut tally, "filler", "node-a", 0, requests(1000, 0, 0));
    let mut node = make_node_with_capacity("node-a", &[], "110");
    node.status.allocatable.cpu = "1".to_owned();
    let event = WatchEvent { event_type: "ADDED".to_owned(), object: Some(node) };
    tally.apply_node_event(&event);
    let plan = find_preemption_plan(&pod, &mut tally).unwrap();
    assert_eq!(plan.node_name, "node-a");
    assert_eq!(plan.victims, vec!["default/filler".to_owned()]);
}
