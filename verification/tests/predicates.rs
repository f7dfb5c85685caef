use scheduler::{
    csi_topology_fit, csi_volume_limits_fit, host_ports_conflict, host_ports_fit,
    node_affinity_matches, node_qualifies_for_pod, node_selector_matches,
    node_selector_requirement_matches, node_taints_tolerated, read_write_once_pod_conflict_free,
    HostPortClaim, NodeAffinity, NodeItem, NodeMetadata, NodeSelectorRequirement,
    NodeSelectorSpec, NodeSelectorTerm, NodeSpec, NodeStatus, PendingPod, ResourceRequests,
    StringMap, StringSet, Taint, Toleration,
};

fn text_map(entries: &[(&str, &str)]) -> StringMap<String> {
    StringMap::from_entries(entries.iter().map(|(k, v)| (k.to_string(), v.to_string())).collect())
}

fn make_node(name: &str, labels: &[(&str, &str)]) -> NodeItem {
    NodeItem {
        metadata: NodeMetadata { name: name.to_owned(), labels: text_map(labels) },
        spec: NodeSpec::default(),
        status: NodeStatus::default(),
        csi_driver_headroom: Default::default(),
        csi_registered_drivers: Default::default(),
    }
}

fn taint(key: &str, value: &str, effect: &str) -> Taint {
    Taint { key: key.to_owned(), value: value.to_owned(), effect: effect.to_owned() }
}

fn toleration(key: &str, value: &str, effect: &str) -> Toleration {
    Toleration {
        key: Some(key.to_owned()),
        operator: None,
        value: Some(value.to_owned()),
        effect: Some(effect.to_owned()),
    }
}

fn pv_node_affinity_requiring(key: &str, value: &str) -> NodeSelectorSpec {
    NodeSelectorSpec {
        node_selector_terms: vec![NodeSelectorTerm {
            match_expressions: vec![requirement(key, "In", &[value])],
            match_fields: vec![],
        }],
    }
}

fn requirement(key: &str, operator: &str, values: &[&str]) -> NodeSelectorRequirement {
    NodeSelectorRequirement {
        key: key.to_owned(),
        operator: operator.to_owned(),
        values: values.iter().map(|v| v.to_string()).collect(),
    }
}

fn required_affinity(terms: Vec<NodeSelectorTerm>) -> NodeAffinity {
    NodeAffinity {
        required_during_scheduling_ignored_during_execution: Some(NodeSelectorSpec {
            node_selector_terms: terms,
        }),
    }
}

fn empty_pending_pod() -> PendingPod {
    PendingPod {
        namespace: "default".to_owned(),
        pod_name: "pod".to_owned(),
        node_selector: Default::default(),
        priority: 0,
        tolerations: Vec::new(),
        node_affinity: None,
        labels: Default::default(),
        pod_affinity_terms: Vec::new(),
        pod_anti_affinity_terms: Vec::new(),
        requests: ResourceRequests::default(),
        host_ports: Vec::new(),
        pvc_names: Vec::new(),
        pv_node_affinities: Vec::new(),
        topology_spread_constraints: Vec::new(),
        csi_volume_counts: Default::default(),
        read_write_once_pod_pvcs: Vec::new(),
        unbound_csi_pvc_drivers: Vec::new(),
    }
}

fn host_port_claim(host_port: u16, host_ip: &str, protocol: &str) -> HostPortClaim {
    HostPortClaim { host_port, host_ip: host_ip.to_owned(), protocol: protocol.to_owned() }
}

#[test]
fn node_selector_matches_all_required_labels() {
    let labels = text_map(&[("kubernetes.io/hostname", "lima-node"), ("kubernetes.io/arch", "arm64")]);
    let selector = text_map(&[("kubernetes.io/hostname", "lima-node")]);
    assert!(node_selector_matches(&labels, &selector));
}

#[test]
fn node_selector_matches_false_when_label_absent() {
    let labels = text_map(&[("kubernetes.io/hostname", "lima-node")]);

    let selector = text_map(&[("scheduledOnNode", "lima-node-2")]);
    assert!(!node_selector_matches(&labels, &selector));
}

#[test]
fn node_selector_matches_false_when_label_value_wrong() {
    let labels = text_map(&[("kubernetes.io/hostname", "lima-node")]);
    let selector = text_map(&[("kubernetes.io/hostname", "other-node")]);
    assert!(!node_selector_matches(&labels, &selector));
}

#[test]
fn node_selector_matches_empty_selector_matches_any_node() {
    let labels = text_map(&[("kubernetes.io/hostname", "lima-node")]);
    let selector: StringMap<String> = StringMap::new();
    assert!(node_selector_matches(&labels, &selector));
}

#[test]
fn node_taints_tolerated_false_when_no_toleration_matches() {
    let taints = vec![taint("dedicated", "gpu", "NoSchedule")];
    assert!(!node_taints_tolerated(&taints, &[]));
}

#[test]
fn node_taints_tolerated_true_when_toleration_matches_exactly() {
    let taints = vec![taint("dedicated", "gpu", "NoSchedule")];
    let tolerations = vec![toleration("dedicated", "gpu", "NoSchedule")];
    assert!(node_taints_tolerated(&taints, &tolerations));
}

#[test]
fn node_taints_tolerated_false_when_value_differs() {
    let taints = vec![taint("dedicated", "gpu", "NoSchedule")];
    let tolerations = vec![toleration("dedicated", "cpu-only", "NoSchedule")];
    assert!(!node_taints_tolerated(&taints, &tolerations));
}

#[test]
fn node_taints_tolerated_true_with_exists_operator_ignores_value() {
    let taints = vec![taint("dedicated", "gpu", "NoSchedule")];
    let tolerations = vec![Toleration {
        key: Some("dedicated".to_owned()),
        operator: Some("Exists".to_owned()),
        value: None,
        effect: Some("NoSchedule".to_owned()),
    }];
    assert!(node_taints_tolerated(&taints, &tolerations));
}

#[test]
fn node_taints_tolerated_true_with_wildcard_toleration() {
    let taints = vec![taint("dedicated", "gpu", "NoSchedule"), taint("other", "x", "NoExecute")];
    let tolerations = vec![Toleration {
        key: None,
        operator: Some("Exists".to_owned()),
        value: None,
        effect: None,
    }];
    assert!(node_taints_tolerated(&taints, &tolerations));
}

#[test]
fn node_taints_tolerated_true_for_prefer_no_schedule_without_toleration() {
    let taints = vec![taint("dedicated", "gpu", "PreferNoSchedule")];
    assert!(node_taints_tolerated(&taints, &[]));
}

#[test]
fn node_taints_tolerated_true_when_node_has_no_taints() {
    assert!(node_taints_tolerated(&[], &[]));
}

#[test]
fn unschedulable_node_rejected_when_pod_has_no_toleration() {
    let mut node = make_node("cordoned-node", &[]);
    node.spec.unschedulable = Some(true);
    let pod = empty_pending_pod();
    assert!(!node_qualifies_for_pod(&node, &pod));
}

#[test]
fn unschedulable_node_accepted_when_pod_tolerates() {
    let mut node = make_node("cordoned-node", &[]);
    node.spec.unschedulable = Some(true);
    let mut pod = empty_pending_pod();

    pod.tolerations = vec![Toleration {
        key: Some("node.kubernetes.io/unschedulable".to_owned()),
        operator: Some("Exists".to_owned()),
        value: None,
        effect: Some("NoSchedule".to_owned()),
    }];
    assert!(node_qualifies_for_pod(&node, &pod));
}

#[test]
fn node_qualifies_for_pod_false_when_node_lacks_label_required_by_bound_pv_node_affinity() {
    let node = make_node("lima-node-3", &[]);
    let mut pod = empty_pending_pod();
    pod.pv_node_affinities = vec![pv_node_affinity_requiring(
        "topology.hostpath.csi/node",
        "lima-node",
    )];
    assert!(!node_qualifies_for_pod(&node, &pod));
}

#[test]
fn node_qualifies_for_pod_true_when_node_has_label_required_by_bound_pv_node_affinity() {
    let node = make_node("lima-node", &[("topology.hostpath.csi/node", "lima-node")]);
    let mut pod = empty_pending_pod();
    pod.pv_node_affinities = vec![pv_node_affinity_requiring(
        "topology.hostpath.csi/node",
        "lima-node",
    )];
    assert!(node_qualifies_for_pod(&node, &pod));
}

#[test]
fn node_affinity_matches_true_when_no_affinity_set() {
    let labels: StringMap<String> = StringMap::new();
    assert!(node_affinity_matches(&labels, "node-1", None));
}

#[test]
fn node_affinity_matches_false_when_no_term_satisfied() {
    let labels: StringMap<String> = StringMap::new();
    let affinity = required_affinity(vec![
        NodeSelectorTerm {
            match_expressions: vec![requirement("foo", "In", &["bar", "value2"])],
            match_fields: vec![],
        },
        NodeSelectorTerm {
            match_expressions: vec![requirement("diffkey", "In", &["wrong", "value2"])],
            match_fields: vec![],
        },
    ]);
    assert!(!node_affinity_matches(&labels, "node-1", Some(&affinity)));
}

#[test]
fn node_affinity_matches_true_when_one_of_ored_terms_satisfied() {
    let labels = text_map(&[("foo", "bar")]);
    let affinity = required_affinity(vec![
        NodeSelectorTerm {
            match_expressions: vec![requirement("foo", "In", &["bar", "value2"])],
            match_fields: vec![],
        },
        NodeSelectorTerm {
            match_expressions: vec![requirement("diffkey", "In", &["wrong", "value2"])],
            match_fields: vec![],
        },
    ]);
    assert!(node_affinity_matches(&labels, "node-1", Some(&affinity)));
}

#[test]
fn node_affinity_matches_false_when_only_one_of_anded_expressions_satisfied() {
    let labels = text_map(&[("foo", "bar")]);
    let affinity = required_affinity(vec![NodeSelectorTerm {
        match_expressions: vec![
            requirement("foo", "In", &["bar"]),
            requirement("other", "Exists", &[]),
        ],
        match_fields: vec![],
    }]);
    assert!(!node_affinity_matches(&labels, "node-1", Some(&affinity)));
}

#[test]
fn node_selector_requirement_not_in_excludes_matching_value() {
    let labels = text_map(&[("zone", "bad")]);
    assert!(!node_selector_requirement_matches(&labels, &requirement("zone", "NotIn", &["bad"])));
}

#[test]
fn node_selector_requirement_unsupported_operator_never_matches() {
    let labels = text_map(&[("cpus", "4")]);
    assert!(!node_selector_requirement_matches(&labels, &requirement("cpus", "Gt", &["2"])));
}

#[test]
fn node_affinity_matches_requires_both_match_expressions_and_match_fields() {
    let labels = text_map(&[("foo", "bar")]);
    let affinity = required_affinity(vec![NodeSelectorTerm {
        match_expressions: vec![requirement("foo", "In", &["bar"])],
        match_fields: vec![requirement("metadata.name", "In", &["node-b"])],
    }]);
    assert!(!node_affinity_matches(&labels, "node-a", Some(&affinity)));
    assert!(node_affinity_matches(&labels, "node-b", Some(&affinity)));
}

#[test]
fn host_ports_conflict_true_for_identical_claims() {
    let a = host_port_claim(8080, "10.0.0.5", "TCP");
    let b = host_port_claim(8080, "10.0.0.5", "TCP");
    assert!(host_ports_conflict(&a, &b));
}

#[test]
fn host_ports_conflict_false_for_different_protocol() {
    let tcp = host_port_claim(54321, "10.0.0.5", "TCP");
    let udp = host_port_claim(54321, "10.0.0.5", "UDP");
    assert!(!host_ports_conflict(&tcp, &udp));
}

#[test]
fn host_ports_conflict_false_for_different_concrete_host_ips() {
    let a = host_port_claim(54321, "127.0.0.1", "TCP");
    let b = host_port_claim(54321, "192.168.1.5", "TCP");
    assert!(!host_ports_conflict(&a, &b));
}

#[test]
fn host_ports_conflict_true_when_either_side_is_wildcard_host_ip() {
    let wildcard = host_port_claim(54322, "", "TCP");
    let concrete = host_port_claim(54322, "203.0.113.10", "TCP");
    assert!(host_ports_conflict(&wildcard, &concrete));
    let literal_wildcard = host_port_claim(54322, "0.0.0.0", "TCP");
    assert!(host_ports_conflict(&literal_wildcard, &concrete));
}

#[test]
fn host_ports_fit_false_when_any_port_conflicts() {
    let node_ports = vec![host_port_claim(8080, "", "TCP")];
    let pod_ports = vec![
        host_port_claim(9090, "", "TCP"),
        host_port_claim(8080, "10.0.0.1", "TCP"),
    ];
    assert!(!host_ports_fit(&node_ports, &pod_ports));
}

#[test]
fn csi_volume_limits_fit_rejects_a_driver_at_its_advertised_limit() {
    let headroom = StringMap::from_entries(vec![("hostpath.csi.k8s.io".to_owned(), 0i64)]);
    let wants = StringMap::from_entries(vec![("hostpath.csi.k8s.io".to_owned(), 1i64)]);
    assert!(!csi_volume_limits_fit(&headroom, &wants));
}

#[test]
fn csi_volume_limits_fit_allows_a_driver_with_remaining_headroom() {
    let headroom = StringMap::from_entries(vec![("hostpath.csi.k8s.io".to_owned(), 3i64)]);
    let wants = StringMap::from_entries(vec![("hostpath.csi.k8s.io".to_owned(), 1i64)]);
    assert!(csi_volume_limits_fit(&headroom, &wants));
}

#[test]
fn csi_volume_limits_fit_does_not_check_a_driver_with_no_advertised_limit() {
    let headroom = StringMap::new();
    let wants = StringMap::from_entries(vec![("some-other.csi.k8s.io".to_owned(), 5i64)]);
    assert!(csi_volume_limits_fit(&headroom, &wants));
}

#[test]
fn csi_volume_limits_fit_is_true_when_pod_needs_no_csi_volumes() {
    let headroom = StringMap::from_entries(vec![("hostpath.csi.k8s.io".to_owned(), 0i64)]);
    assert!(csi_volume_limits_fit(&headroom, &StringMap::new()));
}

#[test]
fn csi_topology_fit_false_when_node_does_not_register_required_driver() {
    let registered = StringSet::new();
    let wants = vec!["csi-hostpath-provisioning-6547".to_owned()];
    assert!(!csi_topology_fit(&registered, &wants));
}

#[test]
fn csi_topology_fit_true_when_node_registers_required_driver() {
    let registered = StringSet::from_names(vec!["csi-hostpath-provisioning-6547".to_owned()]);
    let wants = vec!["csi-hostpath-provisioning-6547".to_owned()];
    assert!(csi_topology_fit(&registered, &wants));
}

#[test]
fn csi_topology_fit_is_true_when_pod_has_no_unbound_csi_pvcs() {
    let registered = StringSet::new();
    assert!(csi_topology_fit(&registered, &[]));
}

#[test]
fn read_write_once_pod_conflict_free_rejects_a_node_already_using_the_pvc() {
    let node_pvc_names = vec!["data-pvc".to_owned()];
    let rwop_pvcs = vec!["data-pvc".to_owned()];
    assert!(!read_write_once_pod_conflict_free(&node_pvc_names, &rwop_pvcs));
}

#[test]
fn read_write_once_pod_conflict_free_allows_a_node_with_no_overlapping_pvc() {
    let node_pvc_names = vec!["other-pvc".to_owned()];
    let rwop_pvcs = vec!["data-pvc".to_owned()];
    assert!(read_write_once_pod_conflict_free(&node_pvc_names, &rwop_pvcs));
}

#[test]
fn read_write_once_pod_conflict_free_is_true_when_pod_has_no_rwop_pvcs() {
    let node_pvc_names = vec!["data-pvc".to_owned()];
    assert!(read_write_once_pod_conflict_free(&node_pvc_names, &[]));
}
