use scheduler::{
    binding_path, binding_payload, check_bind_response, check_delete_response,
    check_status_patch_response, delete_pod_path, events_path, is_bind_already_assigned,
    parse_uri_parts, pod_status_path, scheduling_event_name, scheduling_event_payload,
    scheduling_event_timestamp, Json,
};
use serde_json::Value;

fn to_value(json: &Json) -> Value {
    match json {
        Json::Number(n) => Value::Number((*n).into()),
        Json::Text(t) => Value::String(t.clone()),
        Json::List(items) => Value::Array(items.iter().map(to_value).collect()),
        Json::Object(fields) => Value::Object(
            fields.iter().map(|field| (field.name.clone(), to_value(&field.value))).collect(),
        ),
    }
}

#[test]
fn bind_pod_returns_err_on_non_2xx() {
    let result = check_bind_response(409, "AlreadyExists");
    assert!(result.is_err());
    let msg = result.err().unwrap().to_string();
    assert!(msg.contains("409"));
}

#[test]
fn check_bind_response_ok_on_2xx() {
    assert!(check_bind_response(201, "").is_ok());
    assert!(check_bind_response(200, "ok").is_ok());
}

#[test]
fn check_bind_response_err_includes_body() {
    let result = check_bind_response(422, "validation error: bad spec");
    let msg = result.err().unwrap().to_string();
    assert!(msg.contains("validation error"));
}

#[test]
fn check_bind_response_err_on_404() {
    let result = check_bind_response(404, "not found");
    assert!(result.is_err());
}

#[test]
fn check_bind_response_err_on_500() {
    let result = check_bind_response(500, "internal error");
    assert!(result.is_err());
}

#[test]
fn check_bind_response_classifies_409_already_assigned_message_as_already_assigned() {
    let result = check_bind_response(
        409,
        r#"{"kind":"Status","message":"Pod \"web-0\" is already assigned to node \"worker-1\""}"#,
    );
    let err = result.unwrap_err();
    assert!(is_bind_already_assigned(&err));
}

#[test]
fn check_bind_response_does_not_classify_other_409s_as_already_assigned() {
    let result = check_bind_response(409, "AlreadyExists");
    let err = result.unwrap_err();
    assert!(!is_bind_already_assigned(&err));
}

#[test]
fn check_bind_response_does_not_classify_non_409_as_already_assigned() {
    let result = check_bind_response(500, "Pod is already assigned to node worker-1");
    let err = result.unwrap_err();
    assert!(!is_bind_already_assigned(&err));
}

#[test]
fn watch_path_is_cluster_wide() {
    let path = "/api/v1/pods?watch=true&fieldSelector=spec.nodeName%3D";
    assert!(!path.contains("namespaces/"));
    assert!(path.starts_with("/api/v1/pods"));
}

#[test]
fn pod_status_path_produces_correct_api_path() {
    let path = pod_status_path("default", "my-pod");
    assert_eq!(path, "/api/v1/namespaces/default/pods/my-pod/status");
}

#[test]
fn check_status_patch_response_ok_on_2xx() {
    assert!(check_status_patch_response(200, "").is_ok());
}

#[test]
fn check_status_patch_response_err_on_415() {
    let result = check_status_patch_response(415, "unsupported media type");
    assert!(result.is_err());
    let msg = result.err().unwrap().to_string();
    assert!(msg.contains("415"));
}

#[test]
fn binding_path_produces_correct_api_path() {
    let path = binding_path("default", "my-pod");
    assert_eq!(path, "/api/v1/namespaces/default/pods/my-pod/binding");
}

#[test]
fn binding_path_uses_provided_namespace() {
    let path = binding_path("kube-system", "coredns-abc");
    assert_eq!(path, "/api/v1/namespaces/kube-system/pods/coredns-abc/binding");
}

#[test]
fn binding_payload_has_correct_api_version_and_kind() {
    let payload = to_value(&binding_payload("default", "my-pod", "node-1"));
    assert_eq!(payload["apiVersion"], "v1");
    assert_eq!(payload["kind"], "Binding");
}

#[test]
fn binding_payload_target_references_correct_node() {
    let payload = to_value(&binding_payload("staging", "web-pod", "worker-2"));
    assert_eq!(payload["target"]["kind"], "Node");
    assert_eq!(payload["target"]["name"], "worker-2");
    assert_eq!(payload["target"]["apiVersion"], "v1");
}

#[test]
fn binding_payload_metadata_matches_pod_and_namespace() {
    let payload = to_value(&binding_payload("kube-system", "dns-pod", "node-0"));
    assert_eq!(payload["metadata"]["name"], "dns-pod");
    assert_eq!(payload["metadata"]["namespace"], "kube-system");
}

#[test]
fn parse_uri_parts_extracts_host_and_default_port() {
    let (host, port, addr) = parse_uri_parts("https://api.example.com", "/api/v1/pods").unwrap();
    assert_eq!(host, "api.example.com");
    assert_eq!(port, 443);
    assert_eq!(addr, "api.example.com:443");
}

#[test]
fn parse_uri_parts_uses_explicit_port() {
    let (host, port, addr) = parse_uri_parts("https://10.0.0.1:6443", "/api/v1/nodes").unwrap();
    assert_eq!(host, "10.0.0.1");
    assert_eq!(port, 6443);
    assert_eq!(addr, "10.0.0.1:6443");
}

#[test]
fn parse_uri_parts_fails_on_missing_host() {
    let result = parse_uri_parts("", "/api/v1/pods");
    assert!(result.is_err());
}

#[test]
fn binding_path_does_not_double_slash() {
    let path = binding_path("default", "my-pod");
    assert!(!path.contains("//"));
}

#[test]
fn delete_pod_path_produces_correct_api_path() {
    let path = delete_pod_path("default", "victim-pod");
    assert_eq!(path, "/api/v1/namespaces/default/pods/victim-pod");
}

#[test]
fn check_delete_response_ok_on_404_already_gone() {
    assert!(check_delete_response(404).is_ok());
}

#[test]
fn check_delete_response_ok_on_2xx() {
    assert!(check_delete_response(200).is_ok());
    assert!(check_delete_response(202).is_ok());
}

#[test]
fn check_delete_response_ok_on_409_conflict() {
    assert!(check_delete_response(409).is_ok());
}

#[test]
fn check_delete_response_err_on_failure() {
    assert!(check_delete_response(500).is_err());
    assert!(check_delete_response(403).is_err());
}

#[test]
fn scheduling_event_name_starts_with_pod_name() {
    let name = scheduling_event_name("my-pod", 0x1234abcd);
    assert!(name.starts_with("my-pod"));
}

#[test]
fn scheduling_event_name_is_unique_per_nanos() {
    let a = scheduling_event_name("my-pod", 1);
    let b = scheduling_event_name("my-pod", 2);
    assert_ne!(a, b);
}

#[test]
fn scheduling_event_payload_sets_failure_fields() {
    let payload = to_value(&scheduling_event_payload(
        "sched-pred",
        "unschedulable-pod",
        "unschedulable-pod.abc123",
        "FailedScheduling",
        "0/1 nodes are available: node(s) didn't match Pod's node affinity/selector.",
        "Warning",
        "2026-01-01T00:00:00Z",
    ));
    assert_eq!(payload["kind"], "Event");
    assert_eq!(payload["apiVersion"], "v1");
    assert_eq!(payload["reason"], "FailedScheduling");
    assert_eq!(payload["type"], "Warning");
    assert_eq!(payload["metadata"]["name"], "unschedulable-pod.abc123");
    assert_eq!(payload["metadata"]["namespace"], "sched-pred");
}

#[test]
fn scheduling_event_payload_involved_object_references_pod() {
    let payload = to_value(&scheduling_event_payload(
        "staging",
        "web-pod",
        "web-pod.deadbeef",
        "Scheduled",
        "Successfully assigned staging/web-pod to worker-2",
        "Normal",
        "2026-01-01T00:00:00Z",
    ));
    assert_eq!(payload["involvedObject"]["kind"], "Pod");
    assert_eq!(payload["involvedObject"]["name"], "web-pod");
    assert_eq!(payload["involvedObject"]["namespace"], "staging");
}

#[test]
fn scheduling_event_payload_preserves_message() {
    let payload = to_value(&scheduling_event_payload(
        "default",
        "my-pod",
        "my-pod.123",
        "Scheduled",
        "Successfully assigned default/my-pod to node-1",
        "Normal",
        "2026-01-01T00:00:00Z",
    ));
    assert_eq!(payload["message"], "Successfully assigned default/my-pod to node-1");
}

#[test]
fn scheduling_event_payload_sets_first_and_last_timestamp() {
    let payload = to_value(&scheduling_event_payload(
        "default",
        "my-pod",
        "my-pod.123",
        "Scheduled",
        "Successfully assigned default/my-pod to node-1",
        "Normal",
        "2026-07-28T14:45:00Z",
    ));
    assert_eq!(payload["firstTimestamp"], "2026-07-28T14:45:00Z");
    assert_eq!(payload["lastTimestamp"], "2026-07-28T14:45:00Z");
}

#[test]
fn scheduling_event_timestamp_matches_known_epoch_offset() {
    let nanos = 1_704_067_200u128 * 1_000_000_000;
    assert_eq!(scheduling_event_timestamp(nanos), "2024-01-01T00:00:00Z");
}

#[test]
fn events_path_produces_correct_api_path() {
    let path = events_path("kube-system");
    assert_eq!(path, "/api/v1/namespaces/kube-system/events");
}
