use scheduler::{
    find_preemption_candidate, preemption_reservation_still_fits,
    read_write_once_pod_preemption_victims, select_preemption_victims,
    should_retry_after_preemption_plan_error, should_retry_without_preempting,
    verify_and_reserve_preemption, FindPreemptionPlanError, LabelSelectorSpec, NodeAllocatable,
    NodeItem, NodeList, NodeMetadata, NodePod, NodeSpec, NodeStatus, NodeTally, PendingPod,
    PickNodeError, PreemptionPlan, ResourceRequests, SchedulerError, StringMap,
    TopologySpreadConstraint, WatchEvent,
};
use scheduler::volumes::{
    CsiNodeAllocatable, CsiNodeDriver, CsiNodeItem, CsiNodeMetadata, CsiNodeSpec,
};
use serde_json::Value;

fn parse(text: &str) -> Value {
    serde_json::from_str(text).unwrap()
}

fn text_map(entries: &[(&str, &str)]) -> StringMap<String> {
    StringMap::from_entries(entries.iter().map(|(k, v)| (k.to_string(), v.to_string())).collect())
}

fn labels_by_name(list: &NodeList) -> StringMap<StringMap<String>> {
    let entries = list.items.iter().map(|n| (n.metadata.name.clone(), n.metadata.labels.clone()));
    StringMap::from_entries(entries.collect())
}

fn text_of(object: &Value, name: &str) -> Option<String> {
    object[name].as_str().map(|s| s.to_owned())
}

fn array_of<T>(object: &Value, name: &str, item: fn(&Value) -> T) -> Vec<T> {
    match object[name].as_array() {
        Some(items) => items.iter().map(item).collect(),
        None => Vec::new(),
    }
}

fn event_of<T>(text: &str, object: fn(&Value) -> T) -> WatchEvent<T> {
    let event = parse(text);
    match (event["type"].as_str(), event.get("object")) {
        (Some(event_type), Some(value)) => WatchEvent {
            event_type: event_type.to_owned(),
            object: Some(object(value)),
        },
        _ => WatchEvent { event_type: String::new(), object: None },
    }
}

fn csi_driver_of(value: &Value) -> CsiNodeDriver {
    CsiNodeDriver {
        name: text_of(value, "name").unwrap(),
        allocatable: value.get("allocatable").map(|allocatable| CsiNodeAllocatable {
            count: allocatable["count"].as_i64(),
        }),
    }
}

fn csi_node_of(value: &Value) -> CsiNodeItem {
    CsiNodeItem {
        metadata: CsiNodeMetadata { name: text_of(&value["metadata"], "name").unwrap_or_default() },
        spec: CsiNodeSpec { drivers: array_of(&value["spec"], "drivers", csi_driver_of) },
    }
}

fn csi_node_event(text: &str) -> WatchEvent<CsiNodeItem> {
    event_of(text, csi_node_of)
}

fn topology_spread_constraint(
    topology_key: &str,
    max_skew: i32,
    when_unsatisfiable: &str,
    match_labels: &[(&str, &str)],
) -> TopologySpreadConstraint {
    TopologySpreadConstraint {
        max_skew,
        topology_key: topology_key.to_owned(),
        when_unsatisfiable: when_unsatisfiable.to_owned(),
        label_selector: Some(LabelSelectorSpec {
            match_labels: text_map(match_labels),
            match_expressions: Vec::new(),
        }),
    }
}

fn make_node_with_capacity(name: &str, labels: &[(&str, &str)], capacity: &str) -> NodeItem {
    NodeItem {
        metadata: NodeMetadata { name: name.to_owned(), labels: text_map(labels) },
        spec: NodeSpec::default(),
        status: NodeStatus {
            allocatable: NodeAllocatable { pods: capacity.to_owned(),..Default::default() },
            capacity: NodeAllocatable { pods: capacity.to_owned(),..Default::default() },
        },
        csi_driver_headroom: Default::default(),
        csi_registered_drivers: Default::default(),
    }
}

fn empty_pending_pod() -> PendingPod {
    PendingPod {
        namespace: "default".to_owned(),
        pod_name: "pod".to_owned(),
        node_selector: Default::default(),
        priority: 0,
        tolerations: Vec::new(),
        node_affinity: None,
        labels: Default::default(),
        pod_affinity_terms: Vec::new(),
        pod_anti_affinity_terms: Vec::new(),
        requests: ResourceRequests::default(),
        host_ports: Vec::new(),
        pvc_names: Vec::new(),
        pv_node_affinities: Vec::new(),
        topology_spread_constraints: Vec::new(),
        csi_volume_counts: Default::default(),
        read_write_once_pod_pvcs: Vec::new(),
        unbound_csi_pvc_drivers: Vec::new(),
    }
}

fn requests(
    cpu_milli: i64,
    memory_milli: i64,
    ephemeral_storage_milli: i64,
) -> ResourceRequests {
    ResourceRequests {
        cpu_milli,
        memory_milli,
        ephemeral_storage_milli,
        extended: Default::default(),
    }
}

fn np(key: &str, priority: i32) -> NodePod {
    NodePod {
        key: key.to_owned(),
        priority,
        requests: ResourceRequests::default(),
        pvc_names: Vec::new(),
    }
}

fn np_extended(key: &str, priority: i32, name: &str, amount: i64) -> NodePod {
    let mut requests = ResourceRequests::default();
    requests.extended.insert(name.to_owned(), amount);
    NodePod { key: key.to_owned(), priority, requests, pvc_names: Vec::new() }
}

fn node_allocatable_extended(name: &str, capacity: &str) -> NodeAllocatable {
    NodeAllocatable {
        extended: StringMap::from_entries(vec![(name.to_owned(), capacity.to_owned())]),
        ..Default::default()
    }
}

fn extended_request(name: &str, amount: i64) -> ResourceRequests {
    let mut r = ResourceRequests::default();
    r.extended.insert(name.to_owned(), amount);
    r
}

#[test]
fn should_retry_without_preempting_is_false_for_no_capacity() {
    assert!(!should_retry_without_preempting(&PickNodeError::NoCapacity("no room".to_owned())));
}

#[test]
fn should_retry_without_preempting_is_true_for_api_error() {
    let cause = SchedulerError::new("GET /api/v1/nodes returned 503");
    let err = PickNodeError::ApiError(cause);
    assert!(should_retry_without_preempting(&err));
}

#[test]
fn should_retry_after_preemption_plan_error_is_false_for_no_viable_plan() {
    assert!(!should_retry_after_preemption_plan_error(&FindPreemptionPlanError::NoViablePlan));
}

#[test]
fn should_retry_after_preemption_plan_error_is_true_for_api_error() {
    let cause = SchedulerError::new("GET /api/v1/nodes returned 503");
    let err = FindPreemptionPlanError::ApiError(cause);
    assert!(should_retry_after_preemption_plan_error(&err));
}

#[test]
fn victim_claimed_by_pending_plan_is_not_selectable_by_a_later_plan() {
    let mut tally = NodeTally::default();
            tally.reserve(
        "default",
        "filler-a",
        "worker-0",
        100,
        requests(1000, 0, 0),
        Vec::new(),
        StringMap::new(),
        Vec::new(),
    );
    tally.reserve(
        "default",
        "filler-b",
        "worker-0",
        100,
        requests(1000, 0, 0),
        Vec::new(),
        StringMap::new(),
        Vec::new(),
    );

    let mut node = make_node_with_capacity("worker-0", &[], "110");
    node.status.allocatable.cpu = "2".to_owned();

    let mut pod1 = empty_pending_pod();
    pod1.pod_name = "preemptor-1".to_owned();
    pod1.priority = 1000;
    pod1.requests = requests(1000, 0, 0);
    let plan1 = PreemptionPlan {
        node_name: "worker-0".to_owned(),

        victims: vec!["default/filler-a".to_owned()],
    };
    verify_and_reserve_preemption(&pod1, &node, &plan1, &mut tally).unwrap();

    let node_pods = tally.pods_on("worker-0");
    let victims2 = select_preemption_victims(
        1000,
        &requests(1000, 0, 0),
        &node_pods,
        110,
        &node.status.allocatable,
    );

    assert_eq!(victims2, vec!["default/filler-b".to_owned()]);
}

#[test]
fn sequential_preemption_still_reuses_freed_victim_slots() {
    let mut tally = NodeTally::default();
    tally.reserve(
        "default",
        "filler-a",
        "worker-0",
        100,
        requests(1000, 0, 0),
        Vec::new(),
        StringMap::new(),
        Vec::new(),
    );

    let mut node = make_node_with_capacity("worker-0", &[], "110");
    node.status.allocatable.cpu = "1".to_owned();
    let mut pod1 = empty_pending_pod();
    pod1.pod_name = "preemptor-1".to_owned();
    pod1.priority = 1000;
    pod1.requests = requests(1000, 0, 0);
    let plan1 = PreemptionPlan {
        node_name: "worker-0".to_owned(),
        victims: vec!["default/filler-a".to_owned()],
    };
    verify_and_reserve_preemption(&pod1, &node, &plan1, &mut tally).unwrap();

            tally.remove("default", "filler-a");
    tally.release_victims(&plan1.victims);

    tally.reserve(
        "default",
        "filler-a",
        "worker-0",
        100,
        requests(1000, 0, 0),
        Vec::new(),
        StringMap::new(),
        Vec::new(),
    );

    node.status.allocatable.cpu = "2".to_owned();
    let node_pods = tally.pods_on("worker-0");
    let victims2 = select_preemption_victims(
        1000,
        &requests(1000, 0, 0),
        &node_pods,
        110,
        &node.status.allocatable,
    );

    assert_eq!(victims2, vec!["default/filler-a".to_owned()]);
}

#[test]
fn find_preemption_candidate_targets_zone_whose_own_victim_resolves_the_spread_violation() {
    let list = NodeList {
        items: vec![
            make_node_with_capacity("node-a", &[("topology.kubernetes.io/zone", "zone-a")], "1"),
            make_node_with_capacity("node-b", &[("topology.kubernetes.io/zone", "zone-b")], "1"),
        ],
    };
    let node_labels_by_name = labels_by_name(&list);

    let mut tally = NodeTally::default();
    
    tally.reserve(
        "default",
        "web-a",
        "node-a",
        0,
        ResourceRequests::default(),
        Vec::new(),
        text_map(&[("app", "web")]),
        Vec::new(),
    );

    tally.reserve(
        "default",
        "filler-b",
        "node-b",
        0,
        ResourceRequests::default(),
        Vec::new(),
        text_map(&[("app", "other")]),
        Vec::new(),
    );
    let tallied_pods = tally.tallied_pod_labels();

    let mut pod = empty_pending_pod();
    pod.priority = 100;
    pod.labels = text_map(&[("app", "web")]);
    pod.topology_spread_constraints = vec![topology_spread_constraint(
        "topology.kubernetes.io/zone",
        1,
        "DoNotSchedule",
        &[("app", "web")],
    )];

    let best = find_preemption_candidate(&list, &pod, &tallied_pods, &node_labels_by_name, &tally);
    assert_eq!(best.map(|(_, plan)| plan.node_name), Some("node-a".to_owned()));
}

#[test]
fn find_preemption_candidate_still_rejects_zone_whose_violation_survives_its_own_eviction() {
    let list = NodeList {
        items: vec![
            make_node_with_capacity("node-a1", &[("topology.kubernetes.io/zone", "zone-a")], "1"),
            make_node_with_capacity("node-a2", &[("topology.kubernetes.io/zone", "zone-a")], "1"),
            make_node_with_capacity("node-b", &[("topology.kubernetes.io/zone", "zone-b")], "1"),
        ],
    };
    let node_labels_by_name = labels_by_name(&list);

    let mut tally = NodeTally::default();
    
    tally.reserve(
        "default",
        "web-a1",
        "node-a1",
        0,
        ResourceRequests::default(),
        Vec::new(),
        text_map(&[("app", "web")]),
        Vec::new(),
    );

    tally.reserve(
        "default",
        "web-a2",
        "node-a2",
        1000,
        ResourceRequests::default(),
        Vec::new(),
        text_map(&[("app", "web")]),
        Vec::new(),
    );

    tally.reserve(
        "default",
        "filler-b",
        "node-b",
        0,
        ResourceRequests::default(),
        Vec::new(),
        text_map(&[("app", "other")]),
        Vec::new(),
    );
    let tallied_pods = tally.tallied_pod_labels();

    let mut pod = empty_pending_pod();
    pod.priority = 100;
    pod.labels = text_map(&[("app", "web")]);
    pod.topology_spread_constraints = vec![topology_spread_constraint(
        "topology.kubernetes.io/zone",
        1,
        "DoNotSchedule",
        &[("app", "web")],
    )];

    let best = find_preemption_candidate(&list, &pod, &tallied_pods, &node_labels_by_name, &tally);
    assert_eq!(best.map(|(_, plan)| plan.node_name), Some("node-b".to_owned()));
}

#[test]
fn find_preemption_candidate_unaffected_by_topology_when_pod_has_no_spread_constraints() {
    let list = NodeList {
        items: vec![
            make_node_with_capacity("node-a", &[("topology.kubernetes.io/zone", "zone-a")], "1"),
            make_node_with_capacity("node-b", &[("topology.kubernetes.io/zone", "zone-b")], "1"),
        ],
    };
    let node_labels_by_name = labels_by_name(&list);

    let mut tally = NodeTally::default();
            tally.reserve(
        "default",
        "web-a",
        "node-a",
        0,
        ResourceRequests::default(),
        Vec::new(),
        text_map(&[("app", "web")]),
        Vec::new(),
    );
    tally.reserve(
        "default",
        "filler-b",
        "node-b",
        0,
        ResourceRequests::default(),
        Vec::new(),
        text_map(&[("app", "other")]),
        Vec::new(),
    );
    let tallied_pods = tally.tallied_pod_labels();

    let mut pod = empty_pending_pod();
    pod.priority = 100;
    pod.labels = text_map(&[("app", "web")]);

    let best = find_preemption_candidate(&list, &pod, &tallied_pods, &node_labels_by_name, &tally);
    assert_eq!(best.map(|(_, plan)| plan.node_name), Some("node-a".to_owned()));
}

#[test]
fn preemption_reservation_still_fits_refuses_when_capacity_drifted_after_reservation() {
    let mut tally = NodeTally::default();
    let mut node = make_node_with_capacity("worker-0", &[], "110");
    node.status.allocatable.cpu = "2".to_owned();

    let mut pod = empty_pending_pod();
    pod.pod_name = "preemptor".to_owned();
    pod.requests.cpu_milli = 2000;
    tally.reserve(
        "default",
        "preemptor",
        "worker-0",
        1000,
        pod.requests.clone(),
        Vec::new(),
        StringMap::new(),
        Vec::new(),
    );

    assert!(preemption_reservation_still_fits(&pod, &node, &tally));

    tally.reserve(
        "default",
        "unrelated-pod",
        "worker-0",
        0,
        requests(1000, 0, 0),
        Vec::new(),
        StringMap::new(),
        Vec::new(),
    );

    assert!(!preemption_reservation_still_fits(&pod, &node, &tally));
}

#[test]
fn select_preemption_victims_evicts_lower_priority_pod_when_node_is_full() {
    let node_pods = vec![np("default/low", 1)];
    let victims = select_preemption_victims(
        100,
        &ResourceRequests::default(),
        &node_pods,
        1,
        &NodeAllocatable::default(),
    );
    assert_eq!(victims, vec!["default/low".to_owned()]);
}

#[test]
fn select_preemption_victims_never_evicts_equal_or_higher_priority_pods() {
    let node_pods = vec![np("default/same", 100), np("default/higher", 500)];
    let victims = select_preemption_victims(
        100,
        &ResourceRequests::default(),
        &node_pods,
        1,
        &NodeAllocatable::default(),
    );
    assert!(victims.is_empty());
}

#[test]
fn select_preemption_victims_returns_empty_when_pod_already_fits() {
    let node_pods = vec![np("default/low", 1)];
    let victims = select_preemption_victims(
        100,
        &ResourceRequests::default(),
        &node_pods,
        5,
        &NodeAllocatable::default(),
    );
    assert!(victims.is_empty());
}

#[test]
fn select_preemption_victims_returns_empty_when_evicting_all_lower_priority_pods_still_not_enough(
) {
    let node_pods = vec![
        np("default/low", 1),
        np("default/high-1", 500),
        np("default/high-2", 500),
    ];
    let victims = select_preemption_victims(
        100,
        &ResourceRequests::default(),
        &node_pods,
        1,
        &NodeAllocatable::default(),
    );
    assert!(victims.is_empty());
}

#[test]
fn select_preemption_victims_evicts_lowest_priority_first_and_no_more_than_needed() {
    let node_pods = vec![np("default/mid", 50), np("default/lowest", 1)];

    let victims = select_preemption_victims(
        100,
        &ResourceRequests::default(),
        &node_pods,
        2,
        &NodeAllocatable::default(),
    );
    assert_eq!(victims, vec!["default/lowest".to_owned()]);
}

#[test]
fn select_preemption_victims_returns_empty_for_unknown_capacity_node() {
    let node_pods = vec![np("default/low", 1)];
    let victims = select_preemption_victims(
        100,
        &ResourceRequests::default(),
        &node_pods,
        0,
        &NodeAllocatable::default(),
    );
    assert!(victims.is_empty());
}

#[test]
fn select_preemption_victims_evicts_lower_priority_pod_for_extended_resource_shortage() {
    let node_pods = vec![np_extended("default/victim", 1, "scheduling.k8s.io/foo", 1000)];
    let victims = select_preemption_victims(
        1000,
        &extended_request("scheduling.k8s.io/foo", 1000),
        &node_pods,
        110,
        &node_allocatable_extended("scheduling.k8s.io/foo", "1"),
    );
    assert_eq!(victims, vec!["default/victim".to_owned()]);
}

#[test]
fn select_preemption_victims_never_evicts_a_pod_holding_none_of_the_short_resource() {
    let node_pods = vec![

        np("kube-system/irrelevant-system-pod", 0),
        np_extended("default/victim", 1, "scheduling.k8s.io/foo", 1000),
    ];
    let victims = select_preemption_victims(
        1000,
        &extended_request("scheduling.k8s.io/foo", 1000),
        &node_pods,
        110,
        &node_allocatable_extended("scheduling.k8s.io/foo", "1"),
    );
    assert_eq!(victims, vec!["default/victim".to_owned()]);
}

#[test]
fn select_preemption_victims_returns_empty_when_extended_resource_already_fits() {
    let node_pods = vec![np_extended("default/low", 1, "scheduling.k8s.io/foo", 1000)];
    let victims = select_preemption_victims(
        100,
        &extended_request("scheduling.k8s.io/foo", 1000),
        &node_pods,
        110,
        &node_allocatable_extended("scheduling.k8s.io/foo", "5"),
    );
    assert!(victims.is_empty());
}

#[test]
fn select_preemption_victims_evicts_multiple_pods_to_clear_extended_resource_deficit() {
    let node_pods = vec![
        np_extended("default/lowest", 1, "scheduling.k8s.io/foo", 1000),
        np_extended("default/mid", 50, "scheduling.k8s.io/foo", 1000),
    ];

    let victims = select_preemption_victims(
        100,
        &extended_request("scheduling.k8s.io/foo", 2000),
        &node_pods,
        110,
        &node_allocatable_extended("scheduling.k8s.io/foo", "2"),
    );
    assert_eq!(victims, vec!["default/lowest".to_owned(), "default/mid".to_owned()]);
}

#[test]
fn read_write_once_pod_preemption_victims_targets_the_lower_priority_pvc_holder() {
    let node_pods = vec![NodePod {
        key: "default/holder".to_owned(),
        priority: 0,
        requests: ResourceRequests::default(),
        pvc_names: vec!["data-pvc".to_owned()],
    }];
    let victims =
        read_write_once_pod_preemption_victims(&node_pods, &["data-pvc".to_owned()], 1000).unwrap();
    assert_eq!(victims, vec!["default/holder".to_owned()]);
}

#[test]
fn read_write_once_pod_preemption_victims_refuses_when_holder_priority_is_not_lower() {
    let node_pods = vec![NodePod {
        key: "default/holder".to_owned(),
        priority: 1000,
        requests: ResourceRequests::default(),
        pvc_names: vec!["data-pvc".to_owned()],
    }];
    let victims =
        read_write_once_pod_preemption_victims(&node_pods, &["data-pvc".to_owned()], 1000);
    assert!(victims.is_none());
}

#[test]
fn find_preemption_candidate_evicts_the_pod_holding_a_conflicting_read_write_once_pod_pvc() {
    let list = NodeList { items: vec![make_node_with_capacity("worker-0", &[], "110")] };
    let node_labels_by_name = labels_by_name(&list);
    let mut tally = NodeTally::default();
    tally.reserve(
        "default",
        "pod1",
        "worker-0",
        0,
        ResourceRequests::default(),
        Vec::new(),
        StringMap::new(),
        vec!["data-pvc".to_owned()],
    );
    let tallied_pods = tally.tallied_pod_labels();

    let mut pod2 = empty_pending_pod();
    pod2.pod_name = "pod2".to_owned();
    pod2.priority = 1000;
    pod2.read_write_once_pod_pvcs = vec!["data-pvc".to_owned()];

    let (_, plan) =
        find_preemption_candidate(&list, &pod2, &tallied_pods, &node_labels_by_name, &tally)
            .unwrap();
    assert_eq!(plan.victims, vec!["default/pod1".to_owned()]);
}

#[test]
fn find_preemption_candidate_never_evicts_a_pod_over_a_same_named_pvc_in_a_different_namespace()
{
    let list = NodeList { items: vec![make_node_with_capacity("worker-0", &[], "110")] };
    let node_labels_by_name = labels_by_name(&list);
    let mut tally = NodeTally::default();
    tally.reserve(
        "team-a",
        "pod1",
        "worker-0",
        0,
        ResourceRequests::default(),
        Vec::new(),
        StringMap::new(),
        vec!["data-pvc".to_owned()],
    );
    let tallied_pods = tally.tallied_pod_labels();

    let mut pod2 = empty_pending_pod();
    pod2.namespace = "team-b".to_owned();
    pod2.pod_name = "pod2".to_owned();
    pod2.priority = 1000;
    pod2.read_write_once_pod_pvcs = vec!["data-pvc".to_owned()];

    let result =
        find_preemption_candidate(&list, &pod2, &tallied_pods, &node_labels_by_name, &tally);
    assert!(result.is_none());
}

#[test]
fn find_preemption_candidate_never_preempt_binds_onto_a_node_with_zero_csi_headroom() {
    let node = make_node_with_capacity("worker-0", &[], "1");
    let list = NodeList { items: vec![node] };
    let node_labels_by_name = labels_by_name(&list);
    let mut tally = NodeTally::default();

    tally.apply_csi_node_event(&csi_node_event(r#"{
        "type": "ADDED",
        "object": {
            "metadata": { "name": "worker-0" },
            "spec": { "drivers": [{ "name": "hostpath.csi.k8s.io", "allocatable": { "count": 0 } }] }
        }
    }"#));
    tally.reserve(
        "default",
        "low-priority-pod",
        "worker-0",
        0,
        ResourceRequests::default(),
        Vec::new(),
        StringMap::new(),
        Vec::new(),
    );
    let tallied_pods = tally.tallied_pod_labels();

    let mut pod = empty_pending_pod();
    pod.priority = 1000;
    pod.csi_volume_counts = StringMap::from_entries(vec![("hostpath.csi.k8s.io".to_owned(), 1i64)]);

    let result =
        find_preemption_candidate(&list, &pod, &tallied_pods, &node_labels_by_name, &tally);
    assert!(result.is_none());
}

#[test]
fn find_preemption_candidate_never_preempt_binds_onto_a_node_missing_the_required_csi_driver() {
    let node = make_node_with_capacity("lima-node-3", &[], "1");
    let list = NodeList { items: vec![node] };
    let node_labels_by_name = labels_by_name(&list);
    let mut tally = NodeTally::default();

    tally.apply_csi_node_event(&csi_node_event(r#"{
        "type": "ADDED",
        "object": {
            "metadata": { "name": "lima-node-3" },
            "spec": { "drivers": [] }
        }
    }"#));
    tally.reserve(
        "default",
        "low-priority-pod",
        "lima-node-3",
        0,
        ResourceRequests::default(),
        Vec::new(),
        StringMap::new(),
        Vec::new(),
    );
    let tallied_pods = tally.tallied_pod_labels();

    let mut pod = empty_pending_pod();
    pod.priority = 1000;
    pod.unbound_csi_pvc_drivers = vec!["csi-hostpath-provisioning-6547".to_owned()];

    let result =
        find_preemption_candidate(&list, &pod, &tallied_pods, &node_labels_by_name, &tally);
    assert!(result.is_none());
}
