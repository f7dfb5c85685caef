use scheduler::{
    binding_payload, check_bind_response, check_delete_response, check_event_response,
    check_status_patch_response, needs_scheduling, parse_pod_capacity, parse_quantity_milli,
    parse_uri_parts, scheduling_event_name, scheduling_event_payload, scheduling_event_timestamp,
    select_first_node, select_node_with_capacity, selected_node_annotation_patch,
    selected_node_patches, HostPortClaim, Json, NodeAffinity, NodeAllocatable, NodeItem, NodeList,
    NodeMetadata, NodeSelectorRequirement, NodeSelectorSpec, NodeSelectorTerm, NodeSpec,
    NodeStatus, NodeTally, NodeUsage, PendingPod, PickNodeError, PodObject, PvcBindingInfo,
    ResourceRequests, StringMap, StringSet, Toleration, WatchEvent,
};
use scheduler::container::{ContainerPortSpec, ContainerResources, ContainerSpec};
use scheduler::pod::{Affinity, PodCondition, PodMetadata, PodSpec, PodStatus};
use scheduler::uri::uri_parts;
use scheduler::volumes::{
    bound_volume_names, check_get_response, claims_by_name, count_by_driver, distinct_claims,
    driver_lookup, driver_lookup_after_volume, modes_by_class, pv_path, pvc_binding_info,
    pvc_path, read_write_once_pod_names, storage_class_path, storage_classes_of,
    unbound_storage_classes, ClusterScopedMetadata, CsiNodeAllocatable, CsiNodeDriver,
    CsiNodeItem, CsiNodeMetadata, CsiNodeSpec, DriverLookup, PvCsiSource, PvObject, PvSpec,
    PvcMetadata, PvcObject, PvcSpec, StorageClassObject,
};
use serde_json::Value;

fn parse(text: &str) -> Value {
    serde_json::from_str(text).unwrap()
}

fn to_value(json: &Json) -> Value {
    match json {
        Json::Number(n) => Value::Number((*n).into()),
        Json::Text(t) => Value::String(t.clone()),
        Json::List(items) => Value::Array(items.iter().map(to_value).collect()),
        Json::Object(fields) => Value::Object(
            fields.iter().map(|field| (field.name.clone(), to_value(&field.value))).collect(),
        ),
    }
}

fn text_map(entries: &[(&str, &str)]) -> StringMap<String> {
    StringMap::from_entries(entries.iter().map(|(k, v)| (k.to_string(), v.to_string())).collect())
}

fn text_of(object: &Value, name: &str) -> Option<String> {
    object[name].as_str().map(|s| s.to_owned())
}

fn array_of<T>(object: &Value, name: &str, item: fn(&Value) -> T) -> Vec<T> {
    match object[name].as_array() {
        Some(items) => items.iter().map(item).collect(),
        None => Vec::new(),
    }
}

fn texts_of(object: &Value, name: &str) -> StringMap<String> {
    let mut map = StringMap::new();
    if let Some(fields) = object[name].as_object() {
        for (key, value) in fields {
            map.insert(key.clone(), value.as_str().unwrap().to_owned());
        }
    }
    map
}

fn event_of<T>(text: &str, object: fn(&Value) -> T) -> WatchEvent<T> {
    let event = parse(text);
    match (event["type"].as_str(), event.get("object")) {
        (Some(event_type), Some(value)) => WatchEvent {
            event_type: event_type.to_owned(),
            object: Some(object(value)),
        },
        _ => WatchEvent { event_type: String::new(), object: None },
    }
}

fn requirement_of(value: &Value) -> NodeSelectorRequirement {
    NodeSelectorRequirement {
        key: text_of(value, "key").unwrap(),
        operator: text_of(value, "operator").unwrap(),
        values: array_of(value, "values", |v| v.as_str().unwrap().to_owned()),
    }
}

fn term_of(value: &Value) -> NodeSelectorTerm {
    NodeSelectorTerm {
        match_expressions: array_of(value, "matchExpressions", requirement_of),
        match_fields: array_of(value, "matchFields", requirement_of),
    }
}

fn affinity_of(value: &Value) -> Affinity {
    let node = value.get("nodeAffinity");
    Affinity {
        node_affinity: node.map(|affinity| NodeAffinity {
            required_during_scheduling_ignored_during_execution: affinity
                .get("requiredDuringSchedulingIgnoredDuringExecution")
                .map(|required| NodeSelectorSpec {
                    node_selector_terms: array_of(required, "nodeSelectorTerms", term_of),
                }),
        }),
        pod_affinity: None,
        pod_anti_affinity: None,
    }
}

fn toleration_of(value: &Value) -> Toleration {
    Toleration {
        key: text_of(value, "key"),
        operator: text_of(value, "operator"),
        value: text_of(value, "value"),
        effect: text_of(value, "effect"),
    }
}

fn port_of(value: &Value) -> ContainerPortSpec {
    ContainerPortSpec {
        host_port: value["hostPort"].as_i64().map(|port| port as i32),
        host_ip: text_of(value, "hostIP").unwrap_or_default(),
        protocol: text_of(value, "protocol"),
    }
}

fn container_of(value: &Value) -> ContainerSpec {
    ContainerSpec {
        resources: ContainerResources { requests: texts_of(&value["resources"], "requests") },
        ports: if value["ports"].is_null() { None } else { Some(array_of(value, "ports", port_of)) },
    }
}

fn metadata_of(value: &Value) -> PodMetadata {
    PodMetadata {
        name: text_of(value, "name"),
        namespace: text_of(value, "namespace"),
        labels: texts_of(value, "labels"),
    }
}

fn spec_of(value: &Value) -> PodSpec {
    PodSpec {
        node_name: text_of(value, "nodeName"),
        node_selector: value.get("nodeSelector").map(|_| texts_of(value, "nodeSelector")),
        priority: value["priority"].as_i64().map(|priority| priority as i32),
        scheduling_gates: value.get("schedulingGates").map(|_| {
            array_of(value, "schedulingGates", |gate| text_of(gate, "name").unwrap())
        }),
        tolerations: value.get("tolerations").map(|_| array_of(value, "tolerations", toleration_of)),
        affinity: value.get("affinity").map(affinity_of),
        containers: array_of(value, "containers", container_of),
        volumes: None,
        topology_spread_constraints: Vec::new(),
        overhead: texts_of(value, "overhead"),
    }
}

fn condition_of(value: &Value) -> PodCondition {
    PodCondition {
        condition_type: text_of(value, "type"),
        status: text_of(value, "status"),
        reason: text_of(value, "reason"),
        message: text_of(value, "message"),
    }
}

fn pod_of(value: &Value) -> PodObject {
    PodObject {
        metadata: metadata_of(&value["metadata"]),
        spec: spec_of(&value["spec"]),
        status: PodStatus { conditions: array_of(&value["status"], "conditions", condition_of) },
    }
}

fn pod_event(text: &str) -> WatchEvent<PodObject> {
    event_of(text, pod_of)
}

fn pvc_of(value: &Value) -> PvcObject {
    PvcObject {
        metadata: PvcMetadata {
            name: text_of(&value["metadata"], "name"),
            namespace: text_of(&value["metadata"], "namespace"),
            annotations: texts_of(&value["metadata"], "annotations"),
        },
        spec: PvcSpec {
            volume_name: text_of(&value["spec"], "volumeName").unwrap_or_default(),
            storage_class_name: text_of(&value["spec"], "storageClassName"),
            access_modes: Vec::new(),
        },
    }
}

fn pvc_event(text: &str) -> WatchEvent<PvcObject> {
    event_of(text, pvc_of)
}

fn pv_of(value: &Value) -> PvObject {
    PvObject {
        metadata: ClusterScopedMetadata { name: text_of(&value["metadata"], "name") },
        spec: PvSpec {
            node_affinity: None,
            csi: value["spec"].get("csi").map(|csi| PvCsiSource {
                driver: text_of(csi, "driver").unwrap(),
            }),
        },
    }
}

fn pv_event(text: &str) -> WatchEvent<PvObject> {
    event_of(text, pv_of)
}

fn csi_driver_of(value: &Value) -> CsiNodeDriver {
    CsiNodeDriver {
        name: text_of(value, "name").unwrap(),
        allocatable: value.get("allocatable").map(|allocatable| CsiNodeAllocatable {
            count: allocatable["count"].as_i64(),
        }),
    }
}

fn csi_node_of(value: &Value) -> CsiNodeItem {
    CsiNodeItem {
        metadata: CsiNodeMetadata { name: text_of(&value["metadata"], "name").unwrap_or_default() },
        spec: CsiNodeSpec { drivers: array_of(&value["spec"], "drivers", csi_driver_of) },
    }
}

fn csi_node_event(text: &str) -> WatchEvent<CsiNodeItem> {
    event_of(text, csi_node_of)
}

fn unbound_pvc(storage_class_name: &str) -> PvcBindingInfo {
    PvcBindingInfo {
        volume_name: String::new(),
        storage_class_name: Some(storage_class_name.to_owned()),
        selected_node: None,
        access_modes: Vec::new(),
    }
}

fn make_node(name: &str, labels: &[(&str, &str)]) -> NodeItem {
    NodeItem {
        metadata: NodeMetadata { name: name.to_owned(), labels: text_map(labels) },
        spec: NodeSpec::default(),
        status: NodeStatus::default(),
        csi_driver_headroom: Default::default(),
        csi_registered_drivers: Default::default(),
    }
}

fn make_node_with_capacity(name: &str, labels: &[(&str, &str)], capacity: &str) -> NodeItem {
    NodeItem {
        metadata: NodeMetadata { name: name.to_owned(), labels: text_map(labels) },
        spec: NodeSpec::default(),
        status: NodeStatus {
            allocatable: NodeAllocatable { pods: capacity.to_owned(),..Default::default() },
            capacity: NodeAllocatable { pods: capacity.to_owned(),..Default::default() },
        },
        csi_driver_headroom: Default::default(),
        csi_registered_drivers: Default::default(),
    }
}

fn usage_with_pod_count(pod_count: u32) -> NodeUsage {
    NodeUsage {
        pod_count,
        requests: ResourceRequests::default(),
        host_ports: Vec::new(),
        pvc_names: Vec::new(),
        csi_attached_counts: Default::default(),
    }
}

fn empty_pending_pod() -> PendingPod {
    PendingPod {
        namespace: "default".to_owned(),
        pod_name: "pod".to_owned(),
        node_selector: Default::default(),
        priority: 0,
        tolerations: Vec::new(),
        node_affinity: None,
        labels: Default::default(),
        pod_affinity_terms: Vec::new(),
        pod_anti_affinity_terms: Vec::new(),
        requests: ResourceRequests::default(),
        host_ports: Vec::new(),
        pvc_names: Vec::new(),
        pv_node_affinities: Vec::new(),
        topology_spread_constraints: Vec::new(),
        csi_volume_counts: Default::default(),
        read_write_once_pod_pvcs: Vec::new(),
        unbound_csi_pvc_drivers: Vec::new(),
    }
}

fn host_port_claim(host_port: u16, host_ip: &str, protocol: &str) -> HostPortClaim {
    HostPortClaim { host_port, host_ip: host_ip.to_owned(), protocol: protocol.to_owned() }
}

fn csi_slots(tally: &mut NodeTally, node_name: &str, slots: i64, claims: usize) {
    tally.apply_csi_node_event(&csi_node_event(&format!(
        r#"{{
        "type": "ADDED",
        "object": {{
            "metadata": {{ "name": "{node_name}" }},
            "spec": {{ "drivers": [
                {{ "name": "hostpath.csi.k8s.io", "allocatable": {{ "count": {slots} }} }}
            ] }}
        }}
    }}"#
    )));
    for i in 0..claims {
        tally.apply_pvc_event(&pvc_event(&format!(
            r#"{{
            "type": "ADDED",
            "object": {{
                "metadata": {{ "name": "pvc-{i}", "namespace": "default" }},
                "spec": {{ "volumeName": "pv-{i}" }}
            }}
        }}"#
        )));
        tally.apply_pv_event(&pv_event(&format!(
            r#"{{
            "type": "ADDED",
            "object": {{
                "metadata": {{ "name": "pv-{i}" }},
                "spec": {{ "csi": {{ "driver": "hostpath.csi.k8s.io" }} }}
            }}
        }}"#
        )));
    }
}

#[test]
fn bind_errors_in_words() {
    let taken = check_bind_response(409, "already assigned to node n").unwrap_err();
    assert_eq!(
        taken.to_string(),
        "bind rejected with HTTP 409 (pod already assigned elsewhere): already assigned to node n"
    );
    let failed = check_bind_response(500, "oops").unwrap_err();
    assert_eq!(failed.to_string(), "bind failed with HTTP 500: oops");
    assert!(check_bind_response(199, "").is_err());
    assert!(check_bind_response(299, "").is_ok());
    assert!(check_bind_response(300, "").is_err());
}

#[test]
fn other_errors_in_words() {
    assert_eq!(
        check_delete_response(500).unwrap_err().to_string(),
        "evict failed with HTTP 500"
    );
    assert_eq!(
        check_status_patch_response(415, "no").unwrap_err().to_string(),
        "status patch failed with HTTP 415: no"
    );
    assert_eq!(
        check_event_response(403, "403 Forbidden", "no").unwrap_err().to_string(),
        "POST event failed with HTTP 403 Forbidden: no"
    );
    assert!(check_event_response(201, "201 Created", "").is_ok());
    assert_eq!(
        check_get_response(500, "500 Oops", "/p", "no").unwrap_err().to_string(),
        "GET /p returned 500 Oops: no"
    );
    assert_eq!(check_get_response(404, "404 Not Found", "/p", ""), Ok(false));
    assert_eq!(check_get_response(200, "200 OK", "/p", "{}"), Ok(true));
    assert_eq!(PickNodeError::NoCapacity("full".to_owned()).to_string(), "full");
}

#[test]
fn uris_that_cannot_be_used() {
    let no_uri = parse_uri_parts("not a uri", "").unwrap_err();
    assert_eq!(no_uri.to_string(), "parse URI");
    let no_host = parse_uri_parts("", "/api/v1/pods").unwrap_err();
    assert_eq!(no_host.to_string(), "URI missing host");
    assert_eq!(uri_parts(None).unwrap_err().to_string(), "parse URI");
    let parts = uri_parts(Some((Some("h".to_owned()), None))).unwrap();
    assert_eq!(parts, ("h".to_owned(), 443, "h:443".to_owned()));
    let parts = uri_parts(Some((Some("h".to_owned()), Some(80)))).unwrap();
    assert_eq!(parts, ("h".to_owned(), 80, "h:80".to_owned()));
}

#[test]
fn event_names_and_times() {
    assert_eq!(scheduling_event_name("p", 0), "p.0");
    assert_eq!(scheduling_event_name("p", 0x1234abcd), "p.1234abcd");
    assert_eq!(scheduling_event_timestamp(0), "1970-01-01T00:00:00Z");
    let nanos = 951_868_799u128 * 1_000_000_000 + 999_999_999;
    assert_eq!(scheduling_event_timestamp(nanos), "2000-02-29T23:59:59Z");
    let nanos = 4_107_542_400u128 * 1_000_000_000;
    assert_eq!(scheduling_event_timestamp(nanos), "2100-03-01T00:00:00Z");
}

#[test]
fn payloads_in_full() {
    assert_eq!(
        to_value(&binding_payload("ns", "p", "n")),
        parse(
            r#"{
            "apiVersion": "v1",
            "kind": "Binding",
            "metadata": { "name": "p", "namespace": "ns" },
            "target": { "apiVersion": "v1", "kind": "Node", "name": "n" }
        }"#
        )
    );
    assert_eq!(
        to_value(&scheduling_event_payload("ns", "p", "p.1", "Scheduled", "m", "Normal", "t")),
        parse(
            r#"{
            "apiVersion": "v1",
            "kind": "Event",
            "metadata": { "name": "p.1", "namespace": "ns" },
            "involvedObject": { "apiVersion": "v1", "kind": "Pod", "namespace": "ns", "name": "p" },
            "reason": "Scheduled",
            "message": "m",
            "type": "Normal",
            "count": 1,
            "source": { "component": "u7s-scheduler" },
            "firstTimestamp": "t",
            "lastTimestamp": "t"
        }"#
        )
    );
    assert_eq!(
        to_value(&selected_node_annotation_patch("n")),
        parse(
            r#"{
            "metadata": { "annotations": { "volume.kubernetes.io/selected-node": "n" } }
        }"#
        )
    );
}

#[test]
fn fractions_are_read_in_double_precision() {
    assert_eq!(parse_quantity_milli("9007199254740993.0m"), 9_007_199_254_740_992);
    assert_eq!(parse_quantity_milli("9007199254740993m"), 9_007_199_254_740_993);
    assert_eq!(parse_quantity_milli("9007199254740995.0m"), 9_007_199_254_740_996);
    assert_eq!(parse_quantity_milli("-9223372036854775809m"), i64::MIN);
    assert_eq!(parse_quantity_milli("9223372036854775000.5m"), 9_223_372_036_854_774_784);
    assert_eq!(parse_quantity_milli("1e-400"), 0);
    assert_eq!(parse_quantity_milli("1e400"), 0);
    assert_eq!(parse_quantity_milli("1e99999999999999999999999999999999999999"), 0);
    assert_eq!(parse_quantity_milli("-0.0"), 0);
    assert_eq!(parse_quantity_milli(".5"), 500);
    assert_eq!(parse_quantity_milli("5."), 5000);
    assert_eq!(parse_quantity_milli("."), 0);
}

#[test]
fn products_agree_with_the_machine() {
    let units: [(&str, i64); 10] = [
        ("m", 1),
        ("", 1000),
        ("Ki", 1024 * 1000),
        ("Mi", 1024 * 1024 * 1000),
        ("Gi", 1024 * 1024 * 1024 * 1000),
        ("Ti", 1024 * 1024 * 1024 * 1024 * 1000),
        ("Pi", 1024 * 1024 * 1024 * 1024 * 1024 * 1000),
        ("k", 1_000_000),
        ("T", 1_000_000_000_000_000),
        ("P", 1_000_000_000_000_000_000),
    ];
    let mut seed: u64 = 88_172_645_463_325_252;
    for round in 0..4000u64 {
        seed ^= seed << 13;
        seed ^= seed >> 7;
        seed ^= seed << 17;
        let sign = ["", "-", "+"][(seed % 3) as usize];
        let whole = seed >> (round % 64);
        let fraction = (seed >> 5) % [10, 1000, 1_000_000_007, u64::MAX][(round % 4) as usize];
        let number = match round % 5 {
            0 => format!("{sign}{whole}.{fraction}"),
            1 => format!("{sign}0.{fraction}"),
            2 => format!("{sign}{}.{}5", whole % 1000, fraction % 1000),
            3 => format!("{sign}{whole}e-{}", seed % 40),
            _ => format!("{sign}{}.5e{}", whole % 97, seed % 20),
        };
        for (suffix, mult) in units {
            let scaled = number.parse::<f64>().unwrap() * mult as f64;
            let fits = scaled >= i64::MIN as f64 && scaled < i64::MAX as f64;
            let expected = if fits { scaled.round() as i64 } else { 0 };
            let text = format!("{number}{suffix}");
            assert_eq!(parse_quantity_milli(&text), expected, "{text}");
        }
    }
}

#[test]
fn quantities_of_every_suffix() {
    assert_eq!(parse_quantity_milli("1k"), 1_000_000);
    assert_eq!(parse_quantity_milli("1M"), 1_000_000_000);
    assert_eq!(parse_quantity_milli("1G"), 1_000_000_000_000);
    assert_eq!(parse_quantity_milli("1T"), 1_000_000_000_000_000);
    assert_eq!(parse_quantity_milli("1P"), 1_000_000_000_000_000_000);
    assert_eq!(parse_quantity_milli("1Ki"), 1_024_000);
    assert_eq!(parse_quantity_milli("1Mi"), 1_048_576_000);
    assert_eq!(parse_quantity_milli("1Ti"), 1_099_511_627_776_000);
    assert_eq!(parse_quantity_milli("1Pi"), 1_125_899_906_842_624_000);
    assert_eq!(parse_quantity_milli(" 2 "), 0);
    assert_eq!(parse_quantity_milli("0.5m"), 1);
    assert_eq!(parse_quantity_milli("0.4m"), 0);
    assert_eq!(parse_quantity_milli("1e3"), 1_000_000);
    assert_eq!(parse_quantity_milli("+2"), 2000);
    assert_eq!(parse_quantity_milli("-9223372036854775808m"), i64::MIN);
}

#[test]
fn pod_capacities_at_the_edges() {
    assert_eq!(parse_pod_capacity("4294967295"), u32::MAX);
    assert_eq!(parse_pod_capacity("4294967296"), 0);
    assert_eq!(parse_pod_capacity("-1"), 0);
    assert_eq!(parse_pod_capacity("+5"), 5);
    assert_eq!(parse_pod_capacity(" 110 "), 110);
}

#[test]
fn protocols_are_in_upper_case() {
    let event = pod_event(
        r#"{
        "type": "ADDED",
        "object": {
            "metadata": { "name": "p" },
            "spec": { "containers": [{ "ports": [
                { "hostPort": 53, "protocol": "udp" },
                { "hostPort": 0 },
                { "hostPort": -1 }
            ] }] }
        }
    }"#,
    );
    let pending = needs_scheduling(&event).unwrap();
    assert_eq!(pending.host_ports, vec![host_port_claim(53, "", "UDP")]);
}

#[test]
fn reasons_why_no_node_is_chosen() {
    let pod = empty_pending_pod();
    let list = NodeList { items: vec![make_node_with_capacity("n", &[], "1")] };
    let full = StringMap::from_entries(vec![("n".to_owned(), usage_with_pod_count(1))]);
    let full = select_node_with_capacity(list, &pod, &full, &[]).unwrap_err().to_string();
    let mut pod = empty_pending_pod();
    pod.csi_volume_counts = StringMap::from_entries(vec![("d".to_owned(), 1)]);
    let mut node = make_node("n", &[]);
    node.csi_driver_headroom = StringMap::from_entries(vec![("d".to_owned(), 0)]);
    let list = NodeList { items: vec![node] };
    let limit = select_node_with_capacity(list, &pod, &StringMap::new(), &[]).unwrap_err();
    assert!(full != limit.to_string());
    let list = NodeList { items: Vec::new() };
    assert!(select_first_node(list).is_err());
}

#[test]
fn claims_lead_to_drivers() {
    let mut tally = NodeTally::default();
    csi_slots(&mut tally, "worker-0", 1, 1);
    assert_eq!(
        tally.resolve_csi_driver("default", "pvc-0"),
        Some("hostpath.csi.k8s.io".to_owned())
    );
    assert_eq!(tally.resolve_csi_driver("default", "pvc-9"), None);
    assert_eq!(tally.resolve_csi_driver("other", "pvc-0"), None);
    let counts = tally.csi_volume_counts_for("default", &["pvc-0".to_owned()]);
    assert_eq!(counts.get("hostpath.csi.k8s.io"), Some(&1));
    let class = StorageClassObject {
        metadata: ClusterScopedMetadata { name: Some("fast".to_owned()) },
        volume_binding_mode: None,
        provisioner: "fast.csi".to_owned(),
    };
    let event = WatchEvent { event_type: "ADDED".to_owned(), object: Some(class) };
    tally.apply_storage_class_event(&event);
    tally.apply_pvc_event(&pvc_event(
        r#"{
        "type": "ADDED",
        "object": {
            "metadata": { "name": "new", "namespace": "default" },
            "spec": { "storageClassName": "fast" }
        }
    }"#,
    ));
    assert_eq!(tally.resolve_csi_driver("default", "new"), Some("fast.csi".to_owned()));
    tally.clear_storage_class_cache();
    assert_eq!(tally.resolve_csi_driver("default", "new"), None);
    tally.clear_pv_cache();
    assert_eq!(tally.resolve_csi_driver("default", "pvc-0"), None);
    tally.clear_pvc_cache();
    tally.clear_csi_node_cache();
    assert!(tally.csi_driver_limits_by_node().is_empty());
    assert!(tally.csi_driver_names_by_node().is_empty());
}

#[test]
fn claims_as_they_are_read() {
    let mut pvc = pvc_of(&parse(
        r#"{
        "metadata": {
            "name": "c",
            "annotations": { "volume.kubernetes.io/selected-node": "n" }
        },
        "spec": { "storageClassName": "fast" }
    }"#,
    ));
    pvc.spec.access_modes = vec!["ReadWriteOncePod".to_owned()];
    let info = pvc_binding_info(&pvc);
    assert_eq!(info.selected_node, Some("n".to_owned()));
    assert_eq!(info.storage_class_name, Some("fast".to_owned()));
    assert_eq!(unbound_storage_classes(&vec![Some(pvc_binding_info(&pvc)), None]), ["fast"]);
    assert!(bound_volume_names(&vec![Some(pvc_binding_info(&pvc)), None]).is_empty());
    let names = ["c".to_owned(), "d".to_owned()];
    assert_eq!(read_write_once_pod_names(&names, &vec![Some(info), None]), ["c"]);
    assert_eq!(pvc_path("ns", "c"), "/api/v1/namespaces/ns/persistentvolumeclaims/c");
    assert_eq!(storage_class_path("c"), "/apis/storage.k8s.io/v1/storageclasses/c");
    assert_eq!(pv_path("v"), "/api/v1/persistentvolumes/v");
}

#[test]
fn drivers_are_looked_up_by_volume_and_then_by_class() {
    let mut info = unbound_pvc("fast");
    assert!(matches!(driver_lookup(None), DriverLookup::Done(None)));
    assert!(matches!(driver_lookup(Some(&info)), DriverLookup::Class(name) if name == "fast"));
    info.volume_name = "v".to_owned();
    assert!(matches!(driver_lookup(Some(&info)), DriverLookup::Volume(name) if name == "v"));
    let pv = pv_of(&parse(r#"{ "spec": { "csi": { "driver": "d" } } }"#));
    assert!(matches!(
        driver_lookup_after_volume(&info, Some(&pv)),
        DriverLookup::Done(Some(driver)) if driver == "d"
    ));
    let counts = count_by_driver(&vec![Some("d".to_owned()), None, Some("d".to_owned())]);
    assert_eq!(counts.get("d"), Some(&2));
    let claims = ["a".to_owned(), "b".to_owned(), "a".to_owned()];
    assert_eq!(distinct_claims(&claims), ["a", "b"]);
}

#[test]
fn failed_lookups_annotate_nothing() {
    let names = ["a".to_owned(), "b".to_owned()];
    let found = claims_by_name(&names, &vec![Some(unbound_pvc("slow")), None]);
    assert_eq!(found.len(), 1);
    let classes = storage_classes_of(&found);
    assert_eq!(classes, ["slow"]);
    let both = claims_by_name(
        &names,
        &vec![Some(unbound_pvc("slow")), Some(unbound_pvc("slow"))],
    );
    assert_eq!(storage_classes_of(&both), ["slow", "slow"]);
    let class = StorageClassObject {
        metadata: ClusterScopedMetadata { name: None },
        volume_binding_mode: Some("WaitForFirstConsumer".to_owned()),
        provisioner: String::new(),
    };
    let modes = modes_by_class(&["slow".to_owned()], &vec![Some(class)]);
    let patches = selected_node_patches(&names, "n", &found, &modes);
    assert_eq!(patches.len(), 1);
    assert_eq!(patches[0].pvc_name, "a");
    let modes = modes_by_class(&["slow".to_owned()], &vec![None]);
    assert!(selected_node_patches(&names, "n", &found, &modes).is_empty());
    let class = StorageClassObject {
        metadata: ClusterScopedMetadata { name: None },
        volume_binding_mode: Some("WaitForFirstConsumer".to_owned()),
        provisioner: String::new(),
    };
    let twice = ["slow".to_owned(), "slow".to_owned()];
    let modes = modes_by_class(&twice, &vec![None, Some(class)]);
    assert_eq!(selected_node_patches(&names, "n", &both, &modes).len(), 2);
}

#[test]
fn maps_keep_their_keys_in_order() {
    let mut map = StringMap::from_entries(vec![("b".to_owned(), 1), ("a".to_owned(), 2)]);
    assert_eq!(map.key_at(0), "a");
    assert_eq!(map.value_at(1), &1);
    assert_eq!(map.insert("b".to_owned(), 3), Some(1));
    assert_eq!(map.remove("a"), Some(2));
    assert_eq!(map.remove("a"), None);
    assert_eq!(map.len(), 1);
    let later = StringMap::from_entries(vec![("b".to_owned(), 1), ("b".to_owned(), 3)]);
    assert_eq!(map, later);
    let names = StringSet::from_names(vec!["b".to_owned(), "a".to_owned(), "b".to_owned()]);
    assert_eq!(names.len(), 2);
    assert_eq!(names.at(0), "a");
}
