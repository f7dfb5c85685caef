use scheduler::{selected_node_patches, PvcBindingInfo, SelectedNodePatch, StringMap};

fn text_map(entries: &[(&str, &str)]) -> StringMap<String> {
    StringMap::from_entries(entries.iter().map(|(k, v)| (k.to_string(), v.to_string())).collect())
}

fn one_claim(name: &str, info: PvcBindingInfo) -> StringMap<PvcBindingInfo> {
    StringMap::from_entries(vec![(name.to_owned(), info)])
}

fn binding_mode(class: &str, mode: &str) -> StringMap<String> {
    text_map(&[(class, mode)])
}

fn unbound_pvc(storage_class_name: &str) -> PvcBindingInfo {
    PvcBindingInfo {
        volume_name: String::new(),
        storage_class_name: Some(storage_class_name.to_owned()),
        selected_node: None,
        access_modes: Vec::new(),
    }
}

#[test]
fn selected_node_patches_stamps_unbound_pvc_on_wait_for_first_consumer_class() {
    let pvcs = one_claim("data-pvc", unbound_pvc("wfc-class"));
    let patches = selected_node_patches(
        &["data-pvc".to_owned()],
        "worker-0",
        &pvcs,
        &binding_mode("wfc-class", "WaitForFirstConsumer"),
    );
    let expected = SelectedNodePatch {
        pvc_name: "data-pvc".to_owned(),
        node_name: "worker-0".to_owned(),
    };
    assert_eq!(patches, vec![expected]);
}

#[test]
fn selected_node_patches_skips_immediate_storage_class() {
    let pvcs = one_claim("cache-pvc", unbound_pvc("immediate-class"));
    let patches = selected_node_patches(
        &["cache-pvc".to_owned()],
        "worker-0",
        &pvcs,
        &binding_mode("immediate-class", "Immediate"),
    );
    assert!(patches.is_empty());
}

#[test]
fn selected_node_patches_skips_already_bound_pvc() {
    let pvcs = one_claim("data-pvc", PvcBindingInfo {
        volume_name: "pv-123".to_owned(),
        storage_class_name: Some("wfc-class".to_owned()),
        selected_node: None,
        access_modes: Vec::new(),
    });
    let patches = selected_node_patches(
        &["data-pvc".to_owned()],
        "worker-0",
        &pvcs,
        &binding_mode("wfc-class", "WaitForFirstConsumer"),
    );
    assert!(patches.is_empty());
}

#[test]
fn selected_node_patches_is_idempotent_once_already_stamped_for_this_node() {
    let pvcs = one_claim("data-pvc", PvcBindingInfo {
        volume_name: String::new(),
        storage_class_name: Some("wfc-class".to_owned()),
        selected_node: Some("worker-0".to_owned()),
        access_modes: Vec::new(),
    });
    let patches = selected_node_patches(
        &["data-pvc".to_owned()],
        "worker-0",
        &pvcs,
        &binding_mode("wfc-class", "WaitForFirstConsumer"),
    );
    assert!(patches.is_empty());
}

#[test]
fn selected_node_patches_re_stamps_when_selected_node_differs() {
    let pvcs = one_claim("data-pvc", PvcBindingInfo {
        volume_name: String::new(),
        storage_class_name: Some("wfc-class".to_owned()),
        selected_node: Some("worker-1".to_owned()),
        access_modes: Vec::new(),
    });
    let patches = selected_node_patches(
        &["data-pvc".to_owned()],
        "worker-0",
        &pvcs,
        &binding_mode("wfc-class", "WaitForFirstConsumer"),
    );
    let expected = SelectedNodePatch {
        pvc_name: "data-pvc".to_owned(),
        node_name: "worker-0".to_owned(),
    };
    assert_eq!(patches, vec![expected]);
}

#[test]
fn selected_node_patches_skips_pvc_missing_from_lookup() {
    let patches = selected_node_patches(
        &["ghost-pvc".to_owned()],
        "worker-0",
        &StringMap::new(),
        &binding_mode("wfc-class", "WaitForFirstConsumer"),
    );
    assert!(patches.is_empty());
}
