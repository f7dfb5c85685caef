use scheduler::{
    select_first_node, select_node_for_pod, select_node_with_capacity, HostPortClaim,
    LabelSelectorSpec, NodeAffinity, NodeAllocatable, NodeItem, NodeList, NodeMetadata,
    NodeSelectorRequirement, NodeSelectorSpec, NodeSelectorTerm, NodeSpec, NodeStatus, NodeTally,
    NodeUsage, PendingPod, PodAffinityTerm, ResourceRequests, StringMap, StringSet, Taint,
    TalliedPodLabels, Toleration, TopologySpreadConstraint,
};

fn text_map(entries: &[(&str, &str)]) -> StringMap<String> {
    StringMap::from_entries(entries.iter().map(|(k, v)| (k.to_string(), v.to_string())).collect())
}

fn make_node(name: &str, labels: &[(&str, &str)]) -> NodeItem {
    NodeItem {
        metadata: NodeMetadata { name: name.to_owned(), labels: text_map(labels) },
        spec: NodeSpec::default(),
        status: NodeStatus::default(),
        csi_driver_headroom: Default::default(),
        csi_registered_drivers: Default::default(),
    }
}

fn taint(key: &str, value: &str, effect: &str) -> Taint {
    Taint { key: key.to_owned(), value: value.to_owned(), effect: effect.to_owned() }
}

fn toleration(key: &str, value: &str, effect: &str) -> Toleration {
    Toleration {
        key: Some(key.to_owned()),
        operator: None,
        value: Some(value.to_owned()),
        effect: Some(effect.to_owned()),
    }
}

fn podaffinity_term(topology_key: &str, match_labels: &[(&str, &str)]) -> PodAffinityTerm {
    PodAffinityTerm {
        label_selector: Some(LabelSelectorSpec {
            match_labels: text_map(match_labels),
            match_expressions: Vec::new(),
        }),
        namespaces: Vec::new(),
        topology_key: topology_key.to_owned(),
    }
}

fn tallied(node_name: &str, namespace: &str, labels: &[(&str, &str)]) -> TalliedPodLabels {
    TalliedPodLabels {
        key: format!("{namespace}/unused-{node_name}"),
        node_name: node_name.to_owned(),
        namespace: namespace.to_owned(),
        labels: text_map(labels),
    }
}

fn topology_spread_constraint(
    topology_key: &str,
    max_skew: i32,
    when_unsatisfiable: &str,
    match_labels: &[(&str, &str)],
) -> TopologySpreadConstraint {
    TopologySpreadConstraint {
        max_skew,
        topology_key: topology_key.to_owned(),
        when_unsatisfiable: when_unsatisfiable.to_owned(),
        label_selector: Some(LabelSelectorSpec {
            match_labels: text_map(match_labels),
            match_expressions: Vec::new(),
        }),
    }
}

fn pv_node_affinity_requiring(key: &str, value: &str) -> NodeSelectorSpec {
    NodeSelectorSpec {
        node_selector_terms: vec![NodeSelectorTerm {
            match_expressions: vec![requirement(key, "In", &[value])],
            match_fields: vec![],
        }],
    }
}

fn requirement(key: &str, operator: &str, values: &[&str]) -> NodeSelectorRequirement {
    NodeSelectorRequirement {
        key: key.to_owned(),
        operator: operator.to_owned(),
        values: values.iter().map(|v| v.to_string()).collect(),
    }
}

fn required_affinity(terms: Vec<NodeSelectorTerm>) -> NodeAffinity {
    NodeAffinity {
        required_during_scheduling_ignored_during_execution: Some(NodeSelectorSpec {
            node_selector_terms: terms,
        }),
    }
}

fn make_node_with_capacity(name: &str, labels: &[(&str, &str)], capacity: &str) -> NodeItem {
    NodeItem {
        metadata: NodeMetadata { name: name.to_owned(), labels: text_map(labels) },
        spec: NodeSpec::default(),
        status: NodeStatus {
            allocatable: NodeAllocatable { pods: capacity.to_owned(),..Default::default() },
            capacity: NodeAllocatable { pods: capacity.to_owned(),..Default::default() },
        },
        csi_driver_headroom: Default::default(),
        csi_registered_drivers: Default::default(),
    }
}

fn usage_with_pod_count(pod_count: u32) -> NodeUsage {
    NodeUsage {
        pod_count,
        requests: ResourceRequests::default(),
        host_ports: Vec::new(),
        pvc_names: Vec::new(),
        csi_attached_counts: Default::default(),
    }
}

fn empty_pending_pod() -> PendingPod {
    PendingPod {
        namespace: "default".to_owned(),
        pod_name: "pod".to_owned(),
        node_selector: Default::default(),
        priority: 0,
        tolerations: Vec::new(),
        node_affinity: None,
        labels: Default::default(),
        pod_affinity_terms: Vec::new(),
        pod_anti_affinity_terms: Vec::new(),
        requests: ResourceRequests::default(),
        host_ports: Vec::new(),
        pvc_names: Vec::new(),
        pv_node_affinities: Vec::new(),
        topology_spread_constraints: Vec::new(),
        csi_volume_counts: Default::default(),
        read_write_once_pod_pvcs: Vec::new(),
        unbound_csi_pvc_drivers: Vec::new(),
    }
}

fn host_port_claim(host_port: u16, host_ip: &str, protocol: &str) -> HostPortClaim {
    HostPortClaim { host_port, host_ip: host_ip.to_owned(), protocol: protocol.to_owned() }
}

fn requests(
    cpu_milli: i64,
    memory_milli: i64,
    ephemeral_storage_milli: i64,
) -> ResourceRequests {
    ResourceRequests {
        cpu_milli,
        memory_milli,
        ephemeral_storage_milli,
        extended: Default::default(),
    }
}

#[test]
fn select_first_node_returns_first_item_name() {
    let list = NodeList {
        items: vec![
            NodeItem {
                metadata: NodeMetadata { name: "node-a".to_owned(), labels: Default::default() },
                spec: NodeSpec::default(),
                status: NodeStatus::default(),
                csi_driver_headroom: Default::default(),
                csi_registered_drivers: Default::default(),
            },
            NodeItem {
                metadata: NodeMetadata { name: "node-b".to_owned(), labels: Default::default() },
                spec: NodeSpec::default(),
                status: NodeStatus::default(),
                csi_driver_headroom: Default::default(),
                csi_registered_drivers: Default::default(),
            },
        ],
    };
    let name = select_first_node(list).unwrap();
    assert_eq!(name, "node-a");
}

#[test]
fn select_first_node_errors_when_list_is_empty() {
    let list = NodeList { items: vec![] };
    let result = select_first_node(list);
    assert!(result.is_err());
}

#[test]
fn select_first_node_returns_name_for_single_item_list() {
    let list = NodeList {
        items: vec![NodeItem {
            metadata: NodeMetadata { name: "worker-0".to_owned(), labels: Default::default() },
            spec: NodeSpec::default(),
            status: NodeStatus::default(),
            csi_driver_headroom: Default::default(),
            csi_registered_drivers: Default::default(),
        }],
    };
    let name = select_first_node(list).unwrap();
    assert_eq!(name, "worker-0");
}

#[test]
fn select_node_for_pod_returns_matching_node() {
    let list = NodeList {
        items: vec![make_node(
            "lima-node",
            &[("kubernetes.io/hostname", "lima-node"), ("kubernetes.io/arch", "arm64")],
        )],
    };
    let selector = text_map(&[("kubernetes.io/hostname", "lima-node")]);
    let name = select_node_for_pod(list, &selector).unwrap();
    assert_eq!(name, "lima-node");
}

#[test]
fn select_node_for_pod_errors_when_no_node_matches() {
    let list = NodeList {
        items: vec![make_node("lima-node", &[("kubernetes.io/hostname", "lima-node")])],
    };

    let selector = text_map(&[("scheduledOnNode", "lima-node-2")]);
    let result = select_node_for_pod(list, &selector);
    assert!(result.is_err());
}

#[test]
fn unschedulable_node_rejected_even_when_least_loaded() {
    let loaded_a = make_node_with_capacity("loaded-a", &[], "110");
    let loaded_b = make_node_with_capacity("loaded-b", &[], "110");
    let mut cordoned = make_node_with_capacity("cordoned-empty", &[], "110");
    cordoned.spec.unschedulable = Some(true);
    let list = NodeList { items: vec![loaded_a, loaded_b, cordoned] };
    let pod = empty_pending_pod();
    let counts = StringMap::from_entries(vec![("loaded-a".to_owned(), usage_with_pod_count(5)),
        ("loaded-b".to_owned(), usage_with_pod_count(3))]);
    let result = select_node_with_capacity(list, &pod, &counts, &[]);
    assert_ne!(result.ok(), Some("cordoned-empty".to_owned()));
}

#[test]
fn interpodaffinity_filter_admits_node_when_required_affinity_pod_present_because_that_is_the_placement_intent(
) {
    let list = NodeList {
        items: vec![
            make_node("worker-same-zone", &[("zone", "a")]),
            make_node("worker-other-zone", &[("zone", "b")]),
        ],
    };
    let mut pod = empty_pending_pod();
    pod.pod_affinity_terms = vec![podaffinity_term("zone", &[("app", "cache")])];
    let tallied_pods = [tallied("worker-same-zone", "default", &[("app", "cache")])];
    let result = select_node_with_capacity(list, &pod, &StringMap::new(), &tallied_pods);
    assert_eq!(result.ok(), Some("worker-same-zone".to_owned()));
}

#[test]
fn interpodaffinity_filter_rejects_node_when_required_affinity_pod_absent_because_placement_intent_is_unmet(
) {
    let list = NodeList { items: vec![make_node("worker-0", &[("zone", "a")])] };
    let mut pod = empty_pending_pod();
    pod.pod_affinity_terms = vec![podaffinity_term("zone", &[("app", "cache")])];

    let result = select_node_with_capacity(list, &pod, &StringMap::new(), &[]);
    assert!(result.is_err());
}

#[test]
fn interpodaffinity_filter_admits_first_self_affinity_pod_when_no_matching_pod_exists_yet_because_the_workload_would_otherwise_never_bootstrap(
) {
    let list = NodeList { items: vec![make_node("worker-0", &[("zone", "a")])] };
    let mut pod = empty_pending_pod();
    pod.labels = text_map(&[("app", "cache")]);
    pod.pod_affinity_terms = vec![podaffinity_term("zone", &[("app", "cache")])];
    let result = select_node_with_capacity(list, &pod, &StringMap::new(), &[]);
    assert_eq!(result.ok(), Some("worker-0".to_owned()));
}

#[test]
fn interpodaffinity_filter_rejects_node_when_required_antiaffinity_pod_exists_because_placement_would_violate_user_placement_rule(
) {
    let list = NodeList { items: vec![make_node("worker-0", &[("zone", "a")])] };
    let mut pod = empty_pending_pod();
    pod.pod_anti_affinity_terms = vec![podaffinity_term("zone", &[("app", "cache")])];
    let tallied_pods = [tallied("worker-0", "default", &[("app", "cache")])];
    let result = select_node_with_capacity(list, &pod, &StringMap::new(), &tallied_pods);
    assert!(result.is_err());
}

#[test]
fn interpodaffinity_filter_admits_node_when_required_antiaffinity_pod_absent_because_no_placement_conflict_exists(
) {
    let list = NodeList { items: vec![make_node("worker-0", &[("zone", "a")])] };
    let mut pod = empty_pending_pod();
    pod.pod_anti_affinity_terms = vec![podaffinity_term("zone", &[("app", "cache")])];
    let result = select_node_with_capacity(list, &pod, &StringMap::new(), &[]);
    assert_eq!(result.ok(), Some("worker-0".to_owned()));
}

#[test]
fn select_node_with_capacity_rejects_zone_that_would_exceed_max_skew() {
    let list = NodeList {
        items: vec![
            make_node("node-a", &[("topology.kubernetes.io/zone", "zone-a")]),
            make_node("node-b", &[("topology.kubernetes.io/zone", "zone-b")]),
            make_node("node-c", &[("topology.kubernetes.io/zone", "zone-c")]),
        ],
    };
    let mut pod = empty_pending_pod();
    pod.labels = text_map(&[("app", "web")]);
    pod.topology_spread_constraints = vec![topology_spread_constraint(
        "topology.kubernetes.io/zone",
        1,
        "DoNotSchedule",
        &[("app", "web")],
    )];
    let tallied_pods = [
        tallied("node-a", "default", &[("app", "web")]),
        tallied("node-a", "default", &[("app", "web")]),
    ];
    let result = select_node_with_capacity(list, &pod, &StringMap::new(), &tallied_pods);
    assert_ne!(result.ok(), Some("node-a".to_owned()));
}

#[test]
fn select_node_with_capacity_returns_err_when_every_candidate_violates_hard_constraint() {
    let list = NodeList {
        items: vec![
            make_node("node-a", &[("topology.kubernetes.io/zone", "a")]),
            make_node("node-b", &[("topology.kubernetes.io/zone", "b")]),
        ],
    };
    let mut pod = empty_pending_pod();
    pod.labels = text_map(&[("app", "web")]);

    pod.node_selector = text_map(&[("topology.kubernetes.io/zone", "b")]);
    pod.topology_spread_constraints = vec![topology_spread_constraint(
        "topology.kubernetes.io/zone",
        1,
        "DoNotSchedule",
        &[("app", "web")],
    )];
    let tallied_pods = [
        tallied("node-b", "default", &[("app", "web")]),
        tallied("node-b", "default", &[("app", "web")]),
        tallied("node-b", "default", &[("app", "web")]),
    ];
    let result = select_node_with_capacity(list, &pod, &StringMap::new(), &tallied_pods);
    assert!(result.is_err());
}

#[test]
fn select_node_with_capacity_ignores_schedule_anyway_constraint_even_when_it_would_violate_max_skew(
) {
    let list = NodeList {
        items: vec![
            make_node("node-a", &[("topology.kubernetes.io/zone", "a")]),
            make_node("node-b", &[("topology.kubernetes.io/zone", "b")]),
        ],
    };
    let mut pod = empty_pending_pod();
    pod.labels = text_map(&[("app", "web")]);
    pod.node_selector = text_map(&[("topology.kubernetes.io/zone", "b")]);
    pod.topology_spread_constraints = vec![topology_spread_constraint(
        "topology.kubernetes.io/zone",
        1,
        "ScheduleAnyway",
        &[("app", "web")],
    )];
    let tallied_pods = [
        tallied("node-b", "default", &[("app", "web")]),
        tallied("node-b", "default", &[("app", "web")]),
        tallied("node-b", "default", &[("app", "web")]),
    ];
    let result = select_node_with_capacity(list, &pod, &StringMap::new(), &tallied_pods);
    assert_eq!(result.ok(), Some("node-b".to_owned()));
}

#[test]
fn select_node_with_capacity_schedules_freely_when_selector_matches_no_existing_pods() {
    let list = NodeList {
        items: vec![
            make_node("node-a", &[("topology.kubernetes.io/zone", "a")]),
            make_node("node-b", &[("topology.kubernetes.io/zone", "b")]),
        ],
    };
    let mut pod = empty_pending_pod();
    pod.labels = text_map(&[("app", "web")]);
    pod.topology_spread_constraints = vec![topology_spread_constraint(
        "topology.kubernetes.io/zone",
        1,
        "DoNotSchedule",
        &[("app", "other")],
    )];
    let tallied_pods = [
        tallied("node-a", "default", &[("app", "web")]),
        tallied("node-a", "default", &[("app", "web")]),
        tallied("node-a", "default", &[("app", "web")]),
    ];
    let result = select_node_with_capacity(list, &pod, &StringMap::new(), &tallied_pods);
    assert_eq!(result.ok(), Some("node-a".to_owned()));
}

#[test]
fn select_node_with_capacity_unaffected_by_topology_when_pod_has_no_spread_constraints() {
    let list = NodeList {
        items: vec![make_node("node-a", &[("topology.kubernetes.io/zone", "a")])],
    };
    let pod = empty_pending_pod();
    let tallied_pods = [
        tallied("node-a", "default", &[("app", "web")]),
        tallied("node-a", "default", &[("app", "web")]),
        tallied("node-a", "default", &[("app", "web")]),
    ];
    let result = select_node_with_capacity(list, &pod, &StringMap::new(), &tallied_pods);
    assert_eq!(result.ok(), Some("node-a".to_owned()));
}

#[test]
fn select_node_with_capacity_binds_to_node_satisfying_bound_pv_node_affinity_over_less_loaded_node(
) {
    let driver_node = make_node_with_capacity(
        "lima-node",
        &[("topology.hostpath.csi/node", "lima-node")],
        "110",
    );
    let other_node = make_node_with_capacity("lima-node-3", &[], "110");
    let list = NodeList { items: vec![driver_node, other_node] };
    let mut pod = empty_pending_pod();
    pod.pv_node_affinities = vec![pv_node_affinity_requiring(
        "topology.hostpath.csi/node",
        "lima-node",
    )];
    let counts = StringMap::from_entries(vec![("lima-node".to_owned(), usage_with_pod_count(5)),
        ("lima-node-3".to_owned(), usage_with_pod_count(0))]);
    let result = select_node_with_capacity(list, &pod, &counts, &[]);
    assert_eq!(result.ok(), Some("lima-node".to_owned()));
}

#[test]
fn select_node_with_capacity_skips_untolerated_tainted_node() {
    let mut node = make_node_with_capacity("tainted-node", &[], "110");
    node.spec.taints = vec![taint("dedicated", "gpu", "NoSchedule")];
    let list = NodeList { items: vec![node] };
    let pod = empty_pending_pod();
    let counts: StringMap<NodeUsage> = StringMap::new();
    let result = select_node_with_capacity(list, &pod, &counts, &[]);
    assert!(result.is_err());
}

#[test]
fn select_node_with_capacity_selects_tainted_node_with_matching_toleration() {
    let mut node = make_node_with_capacity("tainted-node", &[], "110");
    node.spec.taints = vec![taint("dedicated", "gpu", "NoSchedule")];
    let list = NodeList { items: vec![node] };
    let mut pod = empty_pending_pod();
    pod.tolerations = vec![toleration("dedicated", "gpu", "NoSchedule")];
    let counts: StringMap<NodeUsage> = StringMap::new();
    let result = select_node_with_capacity(list, &pod, &counts, &[]);
    assert_eq!(result.unwrap(), "tainted-node");
}

#[test]
fn select_node_with_capacity_skips_node_failing_required_affinity() {
    let node = make_node_with_capacity("worker-0", &[], "110");
    let list = NodeList { items: vec![node] };
    let mut pod = empty_pending_pod();
    pod.node_affinity = Some(required_affinity(vec![NodeSelectorTerm {
        match_expressions: vec![requirement("foo", "In", &["bar"])],
        match_fields: vec![],
    }]));
    let counts: StringMap<NodeUsage> = StringMap::new();
    let result = select_node_with_capacity(list, &pod, &counts, &[]);
    assert!(result.is_err());
}

#[test]
fn select_node_with_capacity_selects_node_satisfying_required_affinity() {
    let node = make_node_with_capacity("worker-0", &[("foo", "bar")], "110");
    let list = NodeList { items: vec![node] };
    let mut pod = empty_pending_pod();
    pod.node_affinity = Some(required_affinity(vec![NodeSelectorTerm {
        match_expressions: vec![requirement("foo", "In", &["bar"])],
        match_fields: vec![],
    }]));
    let counts: StringMap<NodeUsage> = StringMap::new();
    let result = select_node_with_capacity(list, &pod, &counts, &[]);
    assert_eq!(result.unwrap(), "worker-0");
}

#[test]
fn select_node_with_capacity_selects_pinned_node_via_match_fields() {
    let node_a = make_node_with_capacity("node-a", &[], "110");
    let node_b = make_node_with_capacity("node-b", &[], "110");
    let list = NodeList { items: vec![node_a, node_b] };
    let mut pod = empty_pending_pod();
    pod.node_affinity = Some(required_affinity(vec![NodeSelectorTerm {
        match_expressions: vec![],
        match_fields: vec![requirement("metadata.name", "In", &["node-b"])],
    }]));
    let counts: StringMap<NodeUsage> = StringMap::new();
    let result = select_node_with_capacity(list, &pod, &counts, &[]);
    assert_eq!(result.unwrap(), "node-b");
}

#[test]
fn full_node_is_not_selected_so_pod_pends_instead_of_failing() {
    let list = NodeList { items: vec![make_node_with_capacity("worker-0", &[], "110")] };
    let pod = empty_pending_pod();

    let counts = StringMap::from_entries(vec![("worker-0".to_owned(), usage_with_pod_count(110))]);
    let result = select_node_with_capacity(list, &pod, &counts, &[]);
    assert!(result.is_err());
}

#[test]
fn node_with_free_slot_is_selected() {
    let list = NodeList { items: vec![make_node_with_capacity("worker-0", &[], "110")] };
    let pod = empty_pending_pod();

    let counts = StringMap::from_entries(vec![("worker-0".to_owned(), usage_with_pod_count(109))]);
    let result = select_node_with_capacity(list, &pod, &counts, &[]);
    assert!(result.is_ok());
    assert_eq!(result.unwrap(), "worker-0");
}

#[test]
fn full_node_is_skipped_when_second_node_has_room() {
    let list = NodeList {
        items: vec![
            make_node_with_capacity("worker-full", &[], "110"),
            make_node_with_capacity("worker-free", &[], "110"),
        ],
    };
    let pod = empty_pending_pod();
    let counts = StringMap::from_entries(vec![("worker-full".to_owned(), usage_with_pod_count(110)),
        ("worker-free".to_owned(), usage_with_pod_count(50))]);
    let result = select_node_with_capacity(list, &pod, &counts, &[]);
    assert!(result.is_ok());
    assert_eq!(result.unwrap(), "worker-free");
}

#[test]
fn select_node_with_capacity_prefers_least_loaded_node_among_qualifying_nodes() {
    let list = NodeList {
        items: vec![
            make_node_with_capacity("worker-busy", &[], "110"),
            make_node_with_capacity("worker-idle", &[], "110"),
        ],
    };
    let pod = empty_pending_pod();
    let counts = StringMap::from_entries(vec![("worker-busy".to_owned(), usage_with_pod_count(5)),
        ("worker-idle".to_owned(), usage_with_pod_count(1))]);
    let result = select_node_with_capacity(list, &pod, &counts, &[]);
    assert_eq!(result.unwrap(), "worker-idle");
}

#[test]
fn select_node_with_capacity_spreads_besteffort_pods_by_tallied_pod_count() {
    let mut tally = NodeTally::default();

    for i in 0..10 {
        let list = NodeList {
            items: vec![
                make_node_with_capacity("lima-node", &[], "110"),
                make_node_with_capacity("lima-node-3", &[], "110"),
            ],
        };
        let pod = empty_pending_pod();
        let usage = tally.usage_by_node();
        let chosen = select_node_with_capacity(list, &pod, &usage, &[]).unwrap();
        tally.reserve(
            "default",
            &format!("besteffort-{i}"),
            &chosen,
            0,
            ResourceRequests::default(),
            Vec::new(),
            StringMap::new(),
            Vec::new(),
        );
    }

    let usage = tally.usage_by_node();
    assert_eq!(usage.get("lima-node").map(|u| u.pod_count).unwrap_or(0), 5);
    assert_eq!(usage.get("lima-node-3").map(|u| u.pod_count).unwrap_or(0), 5);
}

#[test]
fn all_nodes_full_returns_err_so_pod_stays_pending() {
    let list = NodeList {
        items: vec![
            make_node_with_capacity("worker-0", &[], "110"),
            make_node_with_capacity("worker-1", &[], "110"),
        ],
    };
    let pod = empty_pending_pod();
    let counts = StringMap::from_entries(vec![("worker-0".to_owned(), usage_with_pod_count(110)),
        ("worker-1".to_owned(), usage_with_pod_count(110))]);
    let result = select_node_with_capacity(list, &pod, &counts, &[]);
    assert!(result.is_err());
}

#[test]
fn node_with_unknown_capacity_is_not_blocked() {
    let list = NodeList { items: vec![make_node_with_capacity("worker-0", &[], "")] };
    let pod = empty_pending_pod();
    let counts = StringMap::from_entries(vec![("worker-0".to_owned(), usage_with_pod_count(999))]);
    let result = select_node_with_capacity(list, &pod, &counts, &[]);
    assert!(result.is_ok());
}

#[test]
fn select_node_with_capacity_skips_node_with_conflicting_host_port() {
    let list = NodeList { items: vec![make_node_with_capacity("worker-0", &[], "110")] };
    let mut pod = empty_pending_pod();
    pod.host_ports = vec![host_port_claim(54322, "203.0.113.10", "TCP")];
    let mut usage = usage_with_pod_count(1);
    usage.host_ports = vec![host_port_claim(54322, "", "TCP")];
    let counts = StringMap::from_entries(vec![("worker-0".to_owned(), usage)]);
    let result = select_node_with_capacity(list, &pod, &counts, &[]);
    assert!(result.is_err());
}

#[test]
fn select_node_with_capacity_allows_node_with_non_conflicting_host_port() {
    let list = NodeList { items: vec![make_node_with_capacity("worker-0", &[], "110")] };
    let mut pod = empty_pending_pod();
    pod.host_ports = vec![host_port_claim(54321, "10.0.0.5", "UDP")];
    let mut usage = usage_with_pod_count(1);
    usage.host_ports = vec![host_port_claim(54321, "10.0.0.5", "TCP")];
    let counts = StringMap::from_entries(vec![("worker-0".to_owned(), usage)]);
    let result = select_node_with_capacity(list, &pod, &counts, &[]);
    assert_eq!(result.unwrap(), "worker-0");
}

#[test]
fn select_node_with_capacity_skips_node_that_cannot_fit_pending_pod_cpu_request() {
    let mut node = make_node_with_capacity("worker-0", &[], "110");
    node.status.allocatable.cpu = "4".to_owned();
    let list = NodeList { items: vec![node] };
    let mut pod = empty_pending_pod();
    pod.requests.cpu_milli = 1000;
    let usage = StringMap::from_entries(vec![(
        "worker-0".to_owned(),
        NodeUsage {
            pod_count: 1,
            requests: requests(4000, 0, 0),
            host_ports: Vec::new(),
            pvc_names: Vec::new(),
            csi_attached_counts: Default::default(),
        },
    )]);
    let result = select_node_with_capacity(list, &pod, &usage, &[]);
    assert!(result.is_err());
}

#[test]
fn select_node_with_capacity_selects_node_with_enough_remaining_resources() {
    let mut node = make_node_with_capacity("worker-0", &[], "110");
    node.status.allocatable.cpu = "4".to_owned();
    let list = NodeList { items: vec![node] };
    let mut pod = empty_pending_pod();
    pod.requests.cpu_milli = 1000;
    let usage = StringMap::from_entries(vec![(
        "worker-0".to_owned(),
        NodeUsage {
            pod_count: 1,
            requests: requests(1000, 0, 0),
            host_ports: Vec::new(),
            pvc_names: Vec::new(),
            csi_attached_counts: Default::default(),
        },
    )]);
    let result = select_node_with_capacity(list, &pod, &usage, &[]);
    assert_eq!(result.unwrap(), "worker-0");
}

#[test]
fn select_node_with_capacity_binds_to_node_registering_unbound_csi_pvcs_driver_over_less_loaded_node(
) {
    const DRIVER: &str = "csi-hostpath-provisioning-6547";
    let driver_node = make_node_with_capacity("lima-node-4", &[], "110");
    let other_node = make_node_with_capacity("lima-node-3", &[], "110");
    let mut list = NodeList { items: vec![driver_node, other_node] };
    list.items[0].csi_registered_drivers = StringSet::from_names(vec![DRIVER.to_owned()]);
    let mut pod = empty_pending_pod();
    pod.unbound_csi_pvc_drivers = vec![DRIVER.to_owned()];
    let counts = StringMap::from_entries(vec![("lima-node-4".to_owned(), usage_with_pod_count(5)),
        ("lima-node-3".to_owned(), usage_with_pod_count(0))]);
    let result = select_node_with_capacity(list, &pod, &counts, &[]);
    assert_eq!(result.ok(), Some("lima-node-4".to_owned()));
}

#[test]
fn select_node_with_capacity_leaves_pod_pending_when_no_node_registers_the_required_driver() {
    let list = NodeList {
        items: vec![
            make_node_with_capacity("lima-node-4", &[], "110"),
            make_node_with_capacity("lima-node-3", &[], "110"),
        ],
    };
    let mut pod = empty_pending_pod();
    pod.unbound_csi_pvc_drivers = vec!["csi-hostpath-provisioning-6547".to_owned()];
    let result = select_node_with_capacity(list, &pod, &StringMap::new(), &[]);
    assert!(result.is_err());
}

#[test]
fn select_node_with_capacity_rejects_a_node_over_its_csi_attach_limit() {
    let mut node = make_node("worker-0", &[]);
    node.csi_driver_headroom = StringMap::from_entries(vec![("hostpath.csi.k8s.io".to_owned(), 0i64)]);
    let list = NodeList { items: vec![node] };
    let mut pod = empty_pending_pod();
    pod.csi_volume_counts = StringMap::from_entries(vec![("hostpath.csi.k8s.io".to_owned(), 1i64)]);
    let usage = StringMap::new();
    let err = select_node_with_capacity(list, &pod, &usage, &[]).unwrap_err();

    assert!(err.to_string().contains("max")
            && err.to_string().contains("volume")
            && err.to_string().contains("count"));
}

#[test]
fn select_node_with_capacity_allows_a_node_under_its_csi_attach_limit() {
    let mut node = make_node("worker-0", &[]);
    node.csi_driver_headroom = StringMap::from_entries(vec![("hostpath.csi.k8s.io".to_owned(), 1i64)]);
    let list = NodeList { items: vec![node] };
    let mut pod = empty_pending_pod();
    pod.csi_volume_counts = StringMap::from_entries(vec![("hostpath.csi.k8s.io".to_owned(), 1i64)]);
    let usage = StringMap::new();
    let name = select_node_with_capacity(list, &pod, &usage, &[]).unwrap();
    assert_eq!(name, "worker-0");
}

#[test]
fn select_node_with_capacity_rejects_a_node_where_another_pod_already_uses_the_rwop_pvc() {
    let list = NodeList { items: vec![make_node("worker-0", &[])] };
    let mut pod = empty_pending_pod();
    pod.read_write_once_pod_pvcs = vec!["data-pvc".to_owned()];

    let usage = StringMap::from_entries(vec![(
        "worker-0".to_owned(),
        NodeUsage { pvc_names: vec!["default/data-pvc".to_owned()],..Default::default() },
    )]);
    let result = select_node_with_capacity(list, &pod, &usage, &[]);
    assert!(result.is_err());
}

#[test]
fn select_node_with_capacity_allows_a_node_when_the_conflicting_pvc_name_is_in_a_different_namespace(
) {
    let list = NodeList { items: vec![make_node("worker-0", &[])] };
    let mut pod = empty_pending_pod();
    pod.namespace = "team-b".to_owned();
    pod.read_write_once_pod_pvcs = vec!["data-pvc".to_owned()];
    let usage = StringMap::from_entries(vec![(
        "worker-0".to_owned(),
        NodeUsage { pvc_names: vec!["team-a/data-pvc".to_owned()],..Default::default() },
    )]);
    let result = select_node_with_capacity(list, &pod, &usage, &[]);
    assert_eq!(result.unwrap(), "worker-0");
}
