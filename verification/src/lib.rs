//! Placement decisions for a Kubernetes scheduler: which pods wait for a node,
//! which node a pod gets, which pods have to make room for it, and what is
//! told to the API server about it.

pub mod affinity;
pub mod bind;
pub mod booking;
pub mod caches;
pub mod container;
pub mod counting;
pub mod csi;
pub mod double;
pub mod duplicate;
pub mod error;
pub mod events;
pub mod eviction;
pub mod index;
pub mod json;
pub mod listing;
pub mod node;
pub mod order;
pub mod placement;
pub mod pod;
pub mod ports;
pub mod quantity;
pub mod resources;
pub mod select;
pub mod selector;
pub mod spread;
pub mod status;
pub mod string_map;
pub mod taints;
pub mod tally;
pub mod text;
pub mod uri;
pub mod victims;
pub mod volumes;
pub mod waiters;

pub use bind::{
    binding_path, binding_payload, check_bind_response, check_delete_response,
    check_status_patch_response, delete_pod_path, is_bind_already_assigned, pod_status_path,
    BindError,
};
pub use csi::{csi_topology_fit, csi_volume_limits_fit, net_csi_headroom};
pub use error::SchedulerError;
pub use events::{
    check_event_response, events_path, scheduling_event_name, scheduling_event_payload,
    scheduling_event_timestamp,
};
pub use json::{Json, JsonField};
pub use node::{
    node_qualifies_for_pod, read_write_once_pod_conflict_free, select_first_node,
    select_node_for_pod, NodeItem, NodeList, NodeMetadata, NodePod, NodeSpec, NodeStatus, NodeUsage,
    TalliedPodLabels,
};
pub use placement::{
    fetch_node, find_preemption_candidate, find_preemption_plan, pick_node,
    preemption_reservation_still_fits, select_and_reserve_node,
    should_retry_after_preemption_plan_error, should_retry_without_preempting,
    verify_and_reserve_preemption, FindPreemptionPlanError, PickNodeError, PreemptionPlan,
};
pub use pod::{
    needs_scheduling, pods_needing_resync, referenced_pvc_names, should_schedule, PendingPod,
    PodAffinity, PodAffinityTerm, PodAntiAffinity, PodList, PodObject, TopologySpreadConstraint,
    WatchEvent,
};
pub use ports::{host_ports_conflict, host_ports_fit, HostPortClaim};
pub use quantity::{parse_pod_capacity, parse_quantity_milli};
pub use resources::{resource_fits, NodeAllocatable, ResourceRequests};
pub use select::select_node_with_capacity;
pub use selector::{
    node_affinity_matches, node_selector_matches, node_selector_requirement_matches,
    LabelSelectorSpec, NodeAffinity, NodeSelectorRequirement, NodeSelectorSpec, NodeSelectorTerm,
};
pub use status::{
    disruption_target_patch, failed_scheduling_status_patch, nominated_node_name_patch,
    scheduling_gate_status_patch, scheduling_gate_status_reset, GatedStatusPatch,
};
pub use string_map::{StringMap, StringSet};
pub use taints::{node_taints_tolerated, Taint, Toleration};
pub use tally::NodeTally;
pub use uri::parse_uri_parts;
pub use victims::{read_write_once_pod_preemption_victims, select_preemption_victims};
pub use volumes::{
    selected_node_annotation_patch, selected_node_patches, PvcBindingInfo, SelectedNodePatch,
};
