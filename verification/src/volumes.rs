//! Claims, volumes and storage classes: what a pod's volumes mean for its
//! placement, and what its placement means for them.

use crate::duplicate::{slice_of, Duplicate};
use crate::error::SchedulerError;
use crate::json::{Json, JsonView};
use crate::order::{self, same_text};
use crate::resources::{self, amount_in, clamped_sum};
use crate::selector::{list_contains, NodeSelectorSpec, NodeSelectorSpecView};
use crate::string_map::{StringMap, StringSet};
use vstd::prelude::*;
use vstd::string::*;

verus! {

/// The name and the annotations of a claim.
#[derive(Debug, Default)]
pub struct PvcMetadata {
    pub name: Option<String>,
    pub namespace: Option<String>,
    pub annotations: StringMap<String>,
}

/// Model of [`PvcMetadata`].
#[verifier::ext_equal]
pub struct PvcMetadataView {
    pub name: Option<Seq<char>>,
    pub namespace: Option<Seq<char>>,
    pub annotations: Map<Seq<char>, Seq<char>>,
}

impl View for PvcMetadata {
    type V = PvcMetadataView;

    open spec fn view(&self) -> PvcMetadataView {
        PvcMetadataView {
            name: self.name.deep_view(),
            namespace: self.namespace.deep_view(),
            annotations: self.annotations@,
        }
    }
}

impl DeepView for PvcMetadata {
    type V = PvcMetadataView;

    open spec fn deep_view(&self) -> PvcMetadataView {
        self@
    }
}

impl Duplicate for PvcMetadata {
    fn duplicate(&self) -> (copy: Self) {
        PvcMetadata {
            name: self.name.duplicate(),
            namespace: self.namespace.duplicate(),
            annotations: self.annotations.duplicate(),
        }
    }
}

impl Clone for PvcMetadata {
    fn clone(&self) -> (copy: Self)
        ensures
            copy@ == self@,
    {
        self.duplicate()
    }
}

/// What a claim asks for and what it got.
#[derive(Debug, Default)]
pub struct PvcSpec {
    /// The volume that the claim is bound to; empty while there is none.
    pub volume_name: String,
    pub storage_class_name: Option<String>,
    pub access_modes: Vec<String>,
}

/// Model of [`PvcSpec`].
#[verifier::ext_equal]
pub struct PvcSpecView {
    pub volume_name: Seq<char>,
    pub storage_class_name: Option<Seq<char>>,
    pub access_modes: Seq<Seq<char>>,
}

impl View for PvcSpec {
    type V = PvcSpecView;

    open spec fn view(&self) -> PvcSpecView {
        PvcSpecView {
            volume_name: self.volume_name@,
            storage_class_name: self.storage_class_name.deep_view(),
            access_modes: self.access_modes.deep_view(),
        }
    }
}

impl DeepView for PvcSpec {
    type V = PvcSpecView;

    open spec fn deep_view(&self) -> PvcSpecView {
        self@
    }
}

impl Duplicate for PvcSpec {
    fn duplicate(&self) -> (copy: Self) {
        PvcSpec {
            volume_name: self.volume_name.duplicate(),
            storage_class_name: self.storage_class_name.duplicate(),
            access_modes: self.access_modes.duplicate(),
        }
    }
}

impl Clone for PvcSpec {
    fn clone(&self) -> (copy: Self)
        ensures
            copy@ == self@,
    {
        self.duplicate()
    }
}

/// A claim on a volume.
#[derive(Debug, Default)]
pub struct PvcObject {
    pub metadata: PvcMetadata,
    pub spec: PvcSpec,
}

/// Model of [`PvcObject`].
#[verifier::ext_equal]
pub struct PvcObjectView {
    pub metadata: PvcMetadataView,
    pub spec: PvcSpecView,
}

impl View for PvcObject {
    type V = PvcObjectView;

    open spec fn view(&self) -> PvcObjectView {
        PvcObjectView {
            metadata: self.metadata@,
            spec: self.spec@,
        }
    }
}

impl DeepView for PvcObject {
    type V = PvcObjectView;

    open spec fn deep_view(&self) -> PvcObjectView {
        self@
    }
}

impl Duplicate for PvcObject {
    fn duplicate(&self) -> (copy: Self) {
        PvcObject {
            metadata: self.metadata.duplicate(),
            spec: self.spec.duplicate(),
        }
    }
}

impl Clone for PvcObject {
    fn clone(&self) -> (copy: Self)
        ensures
            copy@ == self@,
    {
        self.duplicate()
    }
}

/// The name of an object that belongs to no namespace.
#[derive(Debug, Default)]
pub struct ClusterScopedMetadata {
    pub name: Option<String>,
}

/// Model of [`ClusterScopedMetadata`].
#[verifier::ext_equal]
pub struct ClusterScopedMetadataView {
    pub name: Option<Seq<char>>,
}

impl View for ClusterScopedMetadata {
    type V = ClusterScopedMetadataView;

    open spec fn view(&self) -> ClusterScopedMetadataView {
        ClusterScopedMetadataView {
            name: self.name.deep_view(),
        }
    }
}

impl DeepView for ClusterScopedMetadata {
    type V = ClusterScopedMetadataView;

    open spec fn deep_view(&self) -> ClusterScopedMetadataView {
        self@
    }
}

impl Duplicate for ClusterScopedMetadata {
    fn duplicate(&self) -> (copy: Self) {
        ClusterScopedMetadata {
            name: self.name.duplicate(),
        }
    }
}

impl Clone for ClusterScopedMetadata {
    fn clone(&self) -> (copy: Self)
        ensures
            copy@ == self@,
    {
        self.duplicate()
    }
}

/// A storage class.
#[derive(Debug, Default)]
pub struct StorageClassObject {
    pub metadata: ClusterScopedMetadata,
    pub volume_binding_mode: Option<String>,
    pub provisioner: String,
}

/// Model of [`StorageClassObject`].
#[verifier::ext_equal]
pub struct StorageClassObjectView {
    pub metadata: ClusterScopedMetadataView,
    pub volume_binding_mode: Option<Seq<char>>,
    pub provisioner: Seq<char>,
}

impl View for StorageClassObject {
    type V = StorageClassObjectView;

    open spec fn view(&self) -> StorageClassObjectView {
        StorageClassObjectView {
            metadata: self.metadata@,
            volume_binding_mode: self.volume_binding_mode.deep_view(),
            provisioner: self.provisioner@,
        }
    }
}

impl DeepView for StorageClassObject {
    type V = StorageClassObjectView;

    open spec fn deep_view(&self) -> StorageClassObjectView {
        self@
    }
}

impl Duplicate for StorageClassObject {
    fn duplicate(&self) -> (copy: Self) {
        StorageClassObject {
            metadata: self.metadata.duplicate(),
            volume_binding_mode: self.volume_binding_mode.duplicate(),
            provisioner: self.provisioner.duplicate(),
        }
    }
}

impl Clone for StorageClassObject {
    fn clone(&self) -> (copy: Self)
        ensures
            copy@ == self@,
    {
        self.duplicate()
    }
}

/// The CSI driver behind a volume.
#[derive(Debug, Default)]
pub struct PvCsiSource {
    pub driver: String,
}

/// Model of [`PvCsiSource`].
#[verifier::ext_equal]
pub struct PvCsiSourceView {
    pub driver: Seq<char>,
}

impl View for PvCsiSource {
    type V = PvCsiSourceView;

    open spec fn view(&self) -> PvCsiSourceView {
        PvCsiSourceView {
            driver: self.driver@,
        }
    }
}

impl DeepView for PvCsiSource {
    type V = PvCsiSourceView;

    open spec fn deep_view(&self) -> PvCsiSourceView {
        self@
    }
}

impl Duplicate for PvCsiSource {
    fn duplicate(&self) -> (copy: Self) {
        PvCsiSource {
            driver: self.driver.duplicate(),
        }
    }
}

impl Clone for PvCsiSource {
    fn clone(&self) -> (copy: Self)
        ensures
            copy@ == self@,
    {
        self.duplicate()
    }
}

/// The nodes that a volume can be reached from.
#[derive(Debug, Default)]
pub struct PvNodeAffinity {
    pub required: Option<NodeSelectorSpec>,
}

/// Model of [`PvNodeAffinity`].
#[verifier::ext_equal]
pub struct PvNodeAffinityView {
    pub required: Option<NodeSelectorSpecView>,
}

impl View for PvNodeAffinity {
    type V = PvNodeAffinityView;

    open spec fn view(&self) -> PvNodeAffinityView {
        PvNodeAffinityView {
            required: self.required.deep_view(),
        }
    }
}

impl DeepView for PvNodeAffinity {
    type V = PvNodeAffinityView;

    open spec fn deep_view(&self) -> PvNodeAffinityView {
        self@
    }
}

impl Duplicate for PvNodeAffinity {
    fn duplicate(&self) -> (copy: Self) {
        PvNodeAffinity {
            required: self.required.duplicate(),
        }
    }
}

impl Clone for PvNodeAffinity {
    fn clone(&self) -> (copy: Self)
        ensures
            copy@ == self@,
    {
        self.duplicate()
    }
}

/// Where a volume can be reached and what is behind it.
#[derive(Debug, Default)]
pub struct PvSpec {
    pub node_affinity: Option<PvNodeAffinity>,
    pub csi: Option<PvCsiSource>,
}

/// Model of [`PvSpec`].
#[verifier::ext_equal]
pub struct PvSpecView {
    pub node_affinity: Option<PvNodeAffinityView>,
    pub csi: Option<PvCsiSourceView>,
}

impl View for PvSpec {
    type V = PvSpecView;

    open spec fn view(&self) -> PvSpecView {
        PvSpecView {
            node_affinity: self.node_affinity.deep_view(),
            csi: self.csi.deep_view(),
        }
    }
}

impl DeepView for PvSpec {
    type V = PvSpecView;

    open spec fn deep_view(&self) -> PvSpecView {
        self@
    }
}

impl Duplicate for PvSpec {
    fn duplicate(&self) -> (copy: Self) {
        PvSpec {
            node_affinity: self.node_affinity.duplicate(),
            csi: self.csi.duplicate(),
        }
    }
}

impl Clone for PvSpec {
    fn clone(&self) -> (copy: Self)
        ensures
            copy@ == self@,
    {
        self.duplicate()
    }
}

/// A volume.
#[derive(Debug, Default)]
pub struct PvObject {
    pub metadata: ClusterScopedMetadata,
    pub spec: PvSpec,
}

/// Model of [`PvObject`].
#[verifier::ext_equal]
pub struct PvObjectView {
    pub metadata: ClusterScopedMetadataView,
    pub spec: PvSpecView,
}

impl View for PvObject {
    type V = PvObjectView;

    open spec fn view(&self) -> PvObjectView {
        PvObjectView {
            metadata: self.metadata@,
            spec: self.spec@,
        }
    }
}

impl DeepView for PvObject {
    type V = PvObjectView;

    open spec fn deep_view(&self) -> PvObjectView {
        self@
    }
}

impl Duplicate for PvObject {
    fn duplicate(&self) -> (copy: Self) {
        PvObject {
            metadata: self.metadata.duplicate(),
            spec: self.spec.duplicate(),
        }
    }
}

impl Clone for PvObject {
    fn clone(&self) -> (copy: Self)
        ensures
            copy@ == self@,
    {
        self.duplicate()
    }
}

/// The name of the node.
#[derive(Debug, Default)]
pub struct CsiNodeMetadata {
    pub name: String,
}

/// Model of [`CsiNodeMetadata`].
#[verifier::ext_equal]
pub struct CsiNodeMetadataView {
    pub name: Seq<char>,
}

impl View for CsiNodeMetadata {
    type V = CsiNodeMetadataView;

    open spec fn view(&self) -> CsiNodeMetadataView {
        CsiNodeMetadataView {
            name: self.name@,
        }
    }
}

impl DeepView for CsiNodeMetadata {
    type V = CsiNodeMetadataView;

    open spec fn deep_view(&self) -> CsiNodeMetadataView {
        self@
    }
}

impl Duplicate for CsiNodeMetadata {
    fn duplicate(&self) -> (copy: Self) {
        CsiNodeMetadata {
            name: self.name.duplicate(),
        }
    }
}

impl Clone for CsiNodeMetadata {
    fn clone(&self) -> (copy: Self)
        ensures
            copy@ == self@,
    {
        self.duplicate()
    }
}

/// How many volumes of a driver can be attached.
#[derive(Debug, Default)]
pub struct CsiNodeAllocatable {
    pub count: Option<i64>,
}

/// Model of [`CsiNodeAllocatable`].
#[verifier::ext_equal]
pub struct CsiNodeAllocatableView {
    pub count: Option<i64>,
}

impl View for CsiNodeAllocatable {
    type V = CsiNodeAllocatableView;

    open spec fn view(&self) -> CsiNodeAllocatableView {
        CsiNodeAllocatableView {
            count: self.count.deep_view(),
        }
    }
}

impl DeepView for CsiNodeAllocatable {
    type V = CsiNodeAllocatableView;

    open spec fn deep_view(&self) -> CsiNodeAllocatableView {
        self@
    }
}

impl Duplicate for CsiNodeAllocatable {
    fn duplicate(&self) -> (copy: Self) {
        CsiNodeAllocatable {
            count: self.count.duplicate(),
        }
    }
}

impl Clone for CsiNodeAllocatable {
    fn clone(&self) -> (copy: Self)
        ensures
            copy@ == self@,
    {
        self.duplicate()
    }
}

/// A CSI driver that runs on a node.
#[derive(Debug, Default)]
pub struct CsiNodeDriver {
    pub name: String,
    pub allocatable: Option<CsiNodeAllocatable>,
}

/// Model of [`CsiNodeDriver`].
#[verifier::ext_equal]
pub struct CsiNodeDriverView {
    pub name: Seq<char>,
    pub allocatable: Option<CsiNodeAllocatableView>,
}

impl View for CsiNodeDriver {
    type V = CsiNodeDriverView;

    open spec fn view(&self) -> CsiNodeDriverView {
        CsiNodeDriverView {
            name: self.name@,
            allocatable: self.allocatable.deep_view(),
        }
    }
}

impl DeepView for CsiNodeDriver {
    type V = CsiNodeDriverView;

    open spec fn deep_view(&self) -> CsiNodeDriverView {
        self@
    }
}

impl Duplicate for CsiNodeDriver {
    fn duplicate(&self) -> (copy: Self) {
        CsiNodeDriver {
            name: self.name.duplicate(),
            allocatable: self.allocatable.duplicate(),
        }
    }
}

impl Clone for CsiNodeDriver {
    fn clone(&self) -> (copy: Self)
        ensures
            copy@ == self@,
    {
        self.duplicate()
    }
}

/// The CSI drivers of a node.
#[derive(Debug, Default)]
pub struct CsiNodeSpec {
    pub drivers: Vec<CsiNodeDriver>,
}

/// Model of [`CsiNodeSpec`].
#[verifier::ext_equal]
pub struct CsiNodeSpecView {
    pub drivers: Seq<CsiNodeDriverView>,
}

impl View for CsiNodeSpec {
    type V = CsiNodeSpecView;

    open spec fn view(&self) -> CsiNodeSpecView {
        CsiNodeSpecView {
            drivers: self.drivers.deep_view(),
        }
    }
}

impl DeepView for CsiNodeSpec {
    type V = CsiNodeSpecView;

    open spec fn deep_view(&self) -> CsiNodeSpecView {
        self@
    }
}

impl Duplicate for CsiNodeSpec {
    fn duplicate(&self) -> (copy: Self) {
        CsiNodeSpec {
            drivers: self.drivers.duplicate(),
        }
    }
}

impl Clone for CsiNodeSpec {
    fn clone(&self) -> (copy: Self)
        ensures
            copy@ == self@,
    {
        self.duplicate()
    }
}

/// What is known of the CSI drivers of a node.
#[derive(Debug, Default)]
pub struct CsiNodeItem {
    pub metadata: CsiNodeMetadata,
    pub spec: CsiNodeSpec,
}

/// Model of [`CsiNodeItem`].
#[verifier::ext_equal]
pub struct CsiNodeItemView {
    pub metadata: CsiNodeMetadataView,
    pub spec: CsiNodeSpecView,
}

impl View for CsiNodeItem {
    type V = CsiNodeItemView;

    open spec fn view(&self) -> CsiNodeItemView {
        CsiNodeItemView {
            metadata: self.metadata@,
            spec: self.spec@,
        }
    }
}

impl DeepView for CsiNodeItem {
    type V = CsiNodeItemView;

    open spec fn deep_view(&self) -> CsiNodeItemView {
        self@
    }
}

impl Duplicate for CsiNodeItem {
    fn duplicate(&self) -> (copy: Self) {
        CsiNodeItem {
            metadata: self.metadata.duplicate(),
            spec: self.spec.duplicate(),
        }
    }
}

impl Clone for CsiNodeItem {
    fn clone(&self) -> (copy: Self)
        ensures
            copy@ == self@,
    {
        self.duplicate()
    }
}

/// How a claim is bound.
#[derive(Debug, Default, PartialEq)]
pub struct PvcBindingInfo {
    /// Empty while the claim is not bound.
    pub volume_name: String,
    pub storage_class_name: Option<String>,
    /// The node that the claim is annotated with.
    pub selected_node: Option<String>,
    pub access_modes: Vec<String>,
}

/// Model of [`PvcBindingInfo`].
#[verifier::ext_equal]
pub struct PvcBindingInfoView {
    pub volume_name: Seq<char>,
    pub storage_class_name: Option<Seq<char>>,
    pub selected_node: Option<Seq<char>>,
    pub access_modes: Seq<Seq<char>>,
}

impl View for PvcBindingInfo {
    type V = PvcBindingInfoView;

    open spec fn view(&self) -> PvcBindingInfoView {
        PvcBindingInfoView {
            volume_name: self.volume_name@,
            storage_class_name: self.storage_class_name.deep_view(),
            selected_node: self.selected_node.deep_view(),
            access_modes: self.access_modes.deep_view(),
        }
    }
}

impl DeepView for PvcBindingInfo {
    type V = PvcBindingInfoView;

    open spec fn deep_view(&self) -> PvcBindingInfoView {
        self@
    }
}

impl Duplicate for PvcBindingInfo {
    fn duplicate(&self) -> (copy: Self) {
        PvcBindingInfo {
            volume_name: self.volume_name.duplicate(),
            storage_class_name: self.storage_class_name.duplicate(),
            selected_node: self.selected_node.duplicate(),
            access_modes: self.access_modes.duplicate(),
        }
    }
}

impl Clone for PvcBindingInfo {
    fn clone(&self) -> (copy: Self)
        ensures
            copy@ == self@,
    {
        self.duplicate()
    }
}

/// A claim that has to be annotated with a node.
#[derive(Debug, PartialEq)]
pub struct SelectedNodePatch {
    pub pvc_name: String,
    pub node_name: String,
}

/// Model of [`SelectedNodePatch`].
#[verifier::ext_equal]
pub struct SelectedNodePatchView {
    pub pvc_name: Seq<char>,
    pub node_name: Seq<char>,
}

impl View for SelectedNodePatch {
    type V = SelectedNodePatchView;

    open spec fn view(&self) -> SelectedNodePatchView {
        SelectedNodePatchView {
            pvc_name: self.pvc_name@,
            node_name: self.node_name@,
        }
    }
}

impl DeepView for SelectedNodePatch {
    type V = SelectedNodePatchView;

    open spec fn deep_view(&self) -> SelectedNodePatchView {
        self@
    }
}

impl Duplicate for SelectedNodePatch {
    fn duplicate(&self) -> (copy: Self) {
        SelectedNodePatch {
            pvc_name: self.pvc_name.duplicate(),
            node_name: self.node_name.duplicate(),
        }
    }
}

impl Clone for SelectedNodePatch {
    fn clone(&self) -> (copy: Self)
        ensures
            copy@ == self@,
    {
        self.duplicate()
    }
}

/// The path of a claim.
pub fn pvc_path(namespace: &str, name: &str) -> (path: String)
    ensures
        path@ == "/api/v1/namespaces/"@ + namespace@ + "/persistentvolumeclaims/"@ + name@,
{
    let mut path = "/api/v1/namespaces/".to_owned();
    path.append(namespace);
    path.append("/persistentvolumeclaims/");
    path.append(name);
    path
}

/// The path of a storage class.
pub fn storage_class_path(name: &str) -> (path: String)
    ensures
        path@ == "/apis/storage.k8s.io/v1/storageclasses/"@ + name@,
{
    let mut path = "/apis/storage.k8s.io/v1/storageclasses/".to_owned();
    path.append(name);
    path
}

/// The path of a volume.
pub fn pv_path(name: &str) -> (path: String)
    ensures
        path@ == "/api/v1/persistentvolumes/"@ + name@,
{
    let mut path = "/api/v1/persistentvolumes/".to_owned();
    path.append(name);
    path
}

/// What the answer to a GET request comes to: whether there is an object to
/// read (`Ok(true)`), there is none (`Ok(false)`, for 404), or the request
/// failed. `status_text` is the status as it is written in the message.
pub fn check_get_response(status: u16, status_text: &str, path: &str, body: &str) -> (r: Result<
    bool,
    SchedulerError,
>)
    ensures
        r is Err <==> status != 404 && !(200 <= status < 300),
        r matches Ok(found) ==> found == (status != 404),
        r matches Err(e) ==> e@ == "GET "@ + path@ + " returned "@ + status_text@ + ": "@ + body@,
{
    if status == 404 {
        return Ok(false);
    }
    if 200 <= status && status < 300 {
        return Ok(true);
    }
    let mut message = "GET ".to_owned();
    message.append(path);
    message.append(" returned ");
    message.append(status_text);
    message.append(": ");
    message.append(body);
    Err(SchedulerError { message })
}

/// How the claim `pvc` is bound.
pub open spec fn binding_info_of(pvc: PvcObjectView) -> PvcBindingInfoView {
    PvcBindingInfoView {
        volume_name: pvc.spec.volume_name,
        storage_class_name: pvc.spec.storage_class_name,
        selected_node: if pvc.metadata.annotations.contains_key(
            "volume.kubernetes.io/selected-node"@,
        ) {
            Some(pvc.metadata.annotations["volume.kubernetes.io/selected-node"@])
        } else {
            None
        },
        access_modes: pvc.spec.access_modes,
    }
}

/// How the claim `pvc` is bound.
pub fn pvc_binding_info(pvc: &PvcObject) -> (info: PvcBindingInfo)
    ensures
        info@ == binding_info_of(pvc@),
{
    let selected_node = match pvc.metadata.annotations.get("volume.kubernetes.io/selected-node") {
        Some(node) => Some(node.clone()),
        None => None,
    };
    PvcBindingInfo {
        volume_name: pvc.spec.volume_name.clone(),
        storage_class_name: pvc.spec.storage_class_name.duplicate(),
        selected_node,
        access_modes: pvc.spec.access_modes.duplicate(),
    }
}

/// The storage class of a claim, where it names one.
pub open spec fn class_of(info: PvcBindingInfoView) -> Option<Seq<char>> {
    match info.storage_class_name {
        Some(name) => if name.len() > 0 {
            Some(name)
        } else {
            None
        },
        None => None,
    }
}

fn class_name(info: &PvcBindingInfo) -> (r: Option<&String>)
    ensures
        r.deep_view() == class_of(info@),
{
    match &info.storage_class_name {
        Some(name) => if name.as_str().is_empty() {
            None
        } else {
            Some(name)
        },
        None => None,
    }
}

/// The claim waits for its first consumer and is not annotated with the node
/// yet: it is not bound, its storage class has the mode
/// `WaitForFirstConsumer`, and it names another node or none.
pub open spec fn needs_stamp(
    pvc_name: Seq<char>,
    node_name: Seq<char>,
    pvc_info: Map<Seq<char>, PvcBindingInfoView>,
    sc_mode: Map<Seq<char>, Seq<char>>,
) -> bool {
    &&& pvc_info.contains_key(pvc_name)
    &&& pvc_info[pvc_name].volume_name.len() == 0
    &&& class_of(pvc_info[pvc_name]) is Some
    &&& sc_mode.contains_key(class_of(pvc_info[pvc_name])->0)
    &&& sc_mode[class_of(pvc_info[pvc_name])->0] == "WaitForFirstConsumer"@
    &&& pvc_info[pvc_name].selected_node != Some(node_name)
}

/// The annotations that are due, in the order of `pvc_names`.
pub open spec fn stamps(
    pvc_names: Seq<Seq<char>>,
    node_name: Seq<char>,
    pvc_info: Map<Seq<char>, PvcBindingInfoView>,
    sc_mode: Map<Seq<char>, Seq<char>>,
) -> Seq<SelectedNodePatchView>
    decreases pvc_names.len(),
{
    if pvc_names.len() == 0 {
        Seq::empty()
    } else {
        let before = stamps(pvc_names.drop_last(), node_name, pvc_info, sc_mode);
        if needs_stamp(pvc_names.last(), node_name, pvc_info, sc_mode) {
            before.push(SelectedNodePatchView { pvc_name: pvc_names.last(), node_name })
        } else {
            before
        }
    }
}

fn stamp_due(
    pvc_name: &str,
    node_name: &str,
    pvc_info: &StringMap<PvcBindingInfo>,
    sc_mode: &StringMap<String>,
) -> (b: bool)
    ensures
        b == needs_stamp(pvc_name@, node_name@, pvc_info@, sc_mode@),
{
    let info = match pvc_info.get(pvc_name) {
        Some(info) => info,
        None => {
            return false;
        },
    };
    if !info.volume_name.as_str().is_empty() {
        return false;
    }
    let class = match class_name(info) {
        Some(class) => class,
        None => {
            return false;
        },
    };
    let waits = match sc_mode.get(class.as_str()) {
        Some(mode) => same_text(mode.as_str(), "WaitForFirstConsumer"),
        None => false,
    };
    let stamped = match &info.selected_node {
        Some(node) => same_text(node.as_str(), node_name),
        None => false,
    };
    waits && !stamped
}

/// Which of `pvc_names` have to be annotated with `node_name`: those that are
/// not bound, whose storage class waits for the first consumer, and that are
/// not annotated with it yet. `pvc_info` and `sc_mode` hold the claims and the
/// binding modes of the storage classes that could be looked up.
pub fn selected_node_patches(
    pvc_names: &[String],
    node_name: &str,
    pvc_info: &StringMap<PvcBindingInfo>,
    sc_mode: &StringMap<String>,
) -> (patches: Vec<SelectedNodePatch>)
    ensures
        patches.deep_view() == stamps(pvc_names.deep_view(), node_name@, pvc_info@, sc_mode@),
{
    let ghost all = pvc_names.deep_view();
    let mut patches: Vec<SelectedNodePatch> = Vec::new();
    let mut i: usize = 0;
    proof {
        assert(all.take(0) =~= Seq::empty());
        assert(patches.deep_view() =~= Seq::empty());
    }
    while i < pvc_names.len()
        invariant
            all == pvc_names.deep_view(),
            i <= pvc_names@.len(),
            patches.deep_view() == stamps(
                all.take(i as int),
                node_name@,
                pvc_info@,
                sc_mode@,
            ),
        decreases pvc_names@.len() - i,
    {
        let name = &pvc_names[i];
        let ghost before = patches.deep_view();
        proof {
            assert(all.take(i + 1).drop_last() =~= all.take(i as int));
            assert(all.take(i + 1).last() == name@);
        }
        if stamp_due(name.as_str(), node_name, pvc_info, sc_mode) {
            let patch = SelectedNodePatch {
                pvc_name: name.clone(),
                node_name: node_name.to_owned(),
            };
            let ghost added = patch@;
            patches.push(patch);
            assert(patches.deep_view() =~= before.push(added));
        }
        i += 1;
    }
    assert(all.take(i as int) =~= all);
    patches
}

/// The patch that annotates a claim with a node.
pub fn selected_node_annotation_patch(node_name: &str) -> (patch: Json)
    ensures
        patch@ == JsonView::object().with(
            "metadata"@,
            JsonView::object().with(
                "annotations"@,
                JsonView::object().with(
                    "volume.kubernetes.io/selected-node"@,
                    JsonView::Text(node_name@),
                ),
            ),
        ),
{
    Json::object().with(
        "metadata",
        Json::object().with(
            "annotations",
            Json::object().with("volume.kubernetes.io/selected-node", Json::text(node_name)),
        ),
    )
}

/// The storage classes that the claims `keys` name, in their order.
pub open spec fn named_classes(
    pvc_info: Map<Seq<char>, PvcBindingInfoView>,
    keys: Seq<Seq<char>>,
) -> Seq<Seq<char>>
    decreases keys.len(),
{
    if keys.len() == 0 {
        Seq::empty()
    } else {
        let before = named_classes(pvc_info, keys.drop_last());
        match class_of(pvc_info[keys.last()]) {
            Some(class) => before.push(class),
            None => before,
        }
    }
}

/// The storage class of each claim that names one, in the order of the claims.
/// Each is a chance to look the class up where that has failed before.
#[verifier::loop_isolation(false)]
pub fn storage_classes_of(pvc_info: &StringMap<PvcBindingInfo>) -> (classes: Vec<String>)
    ensures
        classes.deep_view() == named_classes(pvc_info@, order::sorted_keys(pvc_info@.dom())),
{
    let n: usize = pvc_info.len();
    let ghost keys = order::sorted_keys(pvc_info@.dom());
    let mut classes: Vec<String> = Vec::new();
    let mut i: usize = 0;
    proof {
        assert(keys.take(0) =~= Seq::empty());
        assert(classes.deep_view() =~= Seq::empty());
    }
    while i < n
        invariant
            i <= n,
            classes.deep_view() == named_classes(pvc_info@, keys.take(i as int)),
        decreases n - i,
    {
        let info = pvc_info.value_at(i);
        let ghost before = classes.deep_view();
        proof {
            assert(keys.take(i + 1).drop_last() =~= keys.take(i as int));
            assert(keys.take(i + 1).last() == keys[i as int]);
        }
        if let Some(class) = class_name(info) {
            classes.push(class.clone());
            assert(classes.deep_view() =~= before.push(class@));
        }
        i += 1;
    }
    assert(keys.take(i as int) =~= keys);
    classes
}

/// What was found of each claim, by its name. `infos` holds what was found of
/// each name; nothing for a claim that does not exist or was not looked up.
pub open spec fn found_claims(
    pvc_names: Seq<Seq<char>>,
    infos: Seq<Option<PvcBindingInfoView>>,
) -> Map<Seq<char>, PvcBindingInfoView>
    decreases pvc_names.len(),
{
    if pvc_names.len() == 0 {
        Map::empty()
    } else {
        let before = found_claims(pvc_names.drop_last(), infos);
        let i = pvc_names.len() - 1;
        match infos[i] {
            Some(info) => before.insert(pvc_names[i], info),
            None => before,
        }
    }
}

/// What was found of each claim, by its name.
pub fn claims_by_name(pvc_names: &[String], infos: &Vec<Option<PvcBindingInfo>>) -> (found:
    StringMap<PvcBindingInfo>)
    requires
        infos@.len() == pvc_names@.len(),
    ensures
        found@ == found_claims(pvc_names.deep_view(), infos.deep_view()),
{
    let ghost all = pvc_names.deep_view();
    let mut found: StringMap<PvcBindingInfo> = StringMap::new();
    let mut i: usize = 0;
    proof {
        assert(all.take(0) =~= Seq::empty());
    }
    while i < pvc_names.len()
        invariant
            all == pvc_names.deep_view(),
            infos@.len() == pvc_names@.len(),
            i <= pvc_names@.len(),
            found@ == found_claims(all.take(i as int), infos.deep_view()),
        decreases pvc_names@.len() - i,
    {
        proof {
            assert(all.take(i + 1).drop_last() =~= all.take(i as int));
            assert(all.take(i + 1)[i as int] == pvc_names@[i as int]@);
            assert(infos.deep_view()[i as int] == infos@[i as int].deep_view());
        }
        if let Some(info) = &infos[i] {
            found.insert(pvc_names[i].clone(), info.duplicate());
        }
        i += 1;
    }
    assert(all.take(i as int) =~= all);
    found
}

/// The binding mode of a storage class that was found, where it states one.
pub open spec fn mode_of(class: Option<StorageClassObjectView>) -> Option<Seq<char>> {
    match class {
        Some(class) => class.volume_binding_mode,
        None => None,
    }
}

/// The binding mode of each storage class, by its name. `classes` holds what
/// was found of each name.
pub open spec fn found_modes(
    names: Seq<Seq<char>>,
    classes: Seq<Option<StorageClassObjectView>>,
) -> Map<Seq<char>, Seq<char>>
    decreases names.len(),
{
    if names.len() == 0 {
        Map::empty()
    } else {
        let before = found_modes(names.drop_last(), classes);
        let i = names.len() - 1;
        match mode_of(classes[i]) {
            Some(mode) => before.insert(names[i], mode),
            None => before,
        }
    }
}

/// The binding mode of each storage class, by its name.
pub fn modes_by_class(names: &[String], classes: &Vec<Option<StorageClassObject>>) -> (modes:
    StringMap<String>)
    requires
        classes@.len() == names@.len(),
    ensures
        modes@ == found_modes(names.deep_view(), classes.deep_view()),
{
    let ghost all = names.deep_view();
    let mut modes: StringMap<String> = StringMap::new();
    let mut i: usize = 0;
    proof {
        assert(all.take(0) =~= Seq::empty());
    }
    while i < names.len()
        invariant
            all == names.deep_view(),
            classes@.len() == names@.len(),
            i <= names@.len(),
            modes@ == found_modes(all.take(i as int), classes.deep_view()),
        decreases names@.len() - i,
    {
        proof {
            assert(all.take(i + 1).drop_last() =~= all.take(i as int));
            assert(all.take(i + 1)[i as int] == names@[i as int]@);
            assert(classes.deep_view()[i as int] == classes@[i as int].deep_view());
        }
        if let Some(class) = &classes[i] {
            if let Some(mode) = &class.volume_binding_mode {
                modes.insert(names[i].clone(), mode.clone());
            }
        }
        i += 1;
    }
    assert(all.take(i as int) =~= all);
    modes
}

/// The claim may be used by one pod alone.
pub open spec fn is_exclusive(info: PvcBindingInfoView) -> bool {
    info.access_modes.contains("ReadWriteOncePod"@)
}

/// Those of `pvc_names` that one pod alone may use. `infos` holds what was
/// found of each name; nothing for a claim that does not exist.
pub open spec fn exclusive_claims(
    pvc_names: Seq<Seq<char>>,
    infos: Seq<Option<PvcBindingInfoView>>,
) -> Seq<Seq<char>>
    decreases pvc_names.len(),
{
    if pvc_names.len() == 0 {
        Seq::empty()
    } else {
        let before = exclusive_claims(pvc_names.drop_last(), infos);
        let i = pvc_names.len() - 1;
        if infos[i] is Some && is_exclusive(infos[i]->0) {
            before.push(pvc_names[i])
        } else {
            before
        }
    }
}

/// Those of `pvc_names` that one pod alone may use, in their order. `infos`
/// holds what was found of each name.
pub fn read_write_once_pod_names(
    pvc_names: &[String],
    infos: &Vec<Option<PvcBindingInfo>>,
) -> (names: Vec<String>)
    requires
        infos@.len() == pvc_names@.len(),
    ensures
        names.deep_view() == exclusive_claims(pvc_names.deep_view(), infos.deep_view()),
{
    let ghost all = pvc_names.deep_view();
    let mut names: Vec<String> = Vec::new();
    let mut i: usize = 0;
    proof {
        assert(all.take(0) =~= Seq::empty());
        assert(names.deep_view() =~= Seq::empty());
    }
    while i < pvc_names.len()
        invariant
            all == pvc_names.deep_view(),
            infos@.len() == pvc_names@.len(),
            i <= pvc_names@.len(),
            names.deep_view() == exclusive_claims(all.take(i as int), infos.deep_view()),
        decreases pvc_names@.len() - i,
    {
        let ghost before = names.deep_view();
        proof {
            assert(all.take(i + 1).drop_last() =~= all.take(i as int));
            assert(all.take(i + 1)[i as int] == pvc_names@[i as int]@);
            assert(infos.deep_view()[i as int] == infos@[i as int].deep_view());
        }
        let exclusive = match &infos[i] {
            Some(info) => list_contains(slice_of(&info.access_modes), "ReadWriteOncePod"),
            None => false,
        };
        if exclusive {
            names.push(pvc_names[i].clone());
            assert(names.deep_view() =~= before.push(pvc_names@[i as int]@));
        }
        i += 1;
    }
    assert(all.take(i as int) =~= all);
    names
}

/// The volumes that the claims are bound to, in their order.
pub open spec fn bound_volumes(infos: Seq<Option<PvcBindingInfoView>>) -> Seq<Seq<char>>
    decreases infos.len(),
{
    if infos.len() == 0 {
        Seq::empty()
    } else {
        let before = bound_volumes(infos.drop_last());
        if infos.last() is Some && infos.last()->0.volume_name.len() > 0 {
            before.push(infos.last()->0.volume_name)
        } else {
            before
        }
    }
}

/// The volumes that the claims are bound to: those whose reach restricts
/// where the pod can run.
pub fn bound_volume_names(infos: &Vec<Option<PvcBindingInfo>>) -> (names: Vec<String>)
    ensures
        names.deep_view() == bound_volumes(infos.deep_view()),
{
    let ghost all = infos.deep_view();
    let mut names: Vec<String> = Vec::new();
    let mut i: usize = 0;
    proof {
        assert(all.take(0) =~= Seq::empty());
        assert(names.deep_view() =~= Seq::empty());
    }
    while i < infos.len()
        invariant
            all == infos.deep_view(),
            i <= infos@.len(),
            names.deep_view() == bound_volumes(all.take(i as int)),
        decreases infos@.len() - i,
    {
        let ghost before = names.deep_view();
        proof {
            assert(all.take(i + 1).drop_last() =~= all.take(i as int));
            assert(all.take(i + 1).last() == infos@[i as int].deep_view());
        }
        if let Some(info) = &infos[i] {
            if !info.volume_name.as_str().is_empty() {
                names.push(info.volume_name.clone());
                assert(names.deep_view() =~= before.push(info@.volume_name));
            }
        }
        i += 1;
    }
    assert(all.take(i as int) =~= all);
    names
}

/// The nodes that a volume can be reached from, where it restricts them.
pub open spec fn reach_of(pv: PvObjectView) -> Option<NodeSelectorSpecView> {
    match pv.spec.node_affinity {
        Some(affinity) => affinity.required,
        None => None,
    }
}

/// The restrictions of the volumes that were found, in their order.
pub open spec fn reaches(pvs: Seq<Option<PvObjectView>>) -> Seq<NodeSelectorSpecView>
    decreases pvs.len(),
{
    if pvs.len() == 0 {
        Seq::empty()
    } else {
        let before = reaches(pvs.drop_last());
        if pvs.last() is Some && reach_of(pvs.last()->0) is Some {
            before.push(reach_of(pvs.last()->0)->0)
        } else {
            before
        }
    }
}

/// Where the volumes that were found can be reached from. A volume that does
/// not exist, or does not say, restricts nothing.
pub fn pv_node_affinities(pvs: &Vec<Option<PvObject>>) -> (affinities: Vec<NodeSelectorSpec>)
    ensures
        affinities.deep_view() == reaches(pvs.deep_view()),
{
    let ghost all = pvs.deep_view();
    let mut affinities: Vec<NodeSelectorSpec> = Vec::new();
    let mut i: usize = 0;
    proof {
        assert(all.take(0) =~= Seq::empty());
        assert(affinities.deep_view() =~= Seq::empty());
    }
    while i < pvs.len()
        invariant
            all == pvs.deep_view(),
            i <= pvs@.len(),
            affinities.deep_view() == reaches(all.take(i as int)),
        decreases pvs@.len() - i,
    {
        let ghost before = affinities.deep_view();
        proof {
            assert(all.take(i + 1).drop_last() =~= all.take(i as int));
            assert(all.take(i + 1).last() == pvs@[i as int].deep_view());
        }
        if let Some(pv) = &pvs[i] {
            if let Some(affinity) = &pv.spec.node_affinity {
                if let Some(required) = &affinity.required {
                    affinities.push(required.duplicate());
                    assert(affinities.deep_view() =~= before.push(required@));
                }
            }
        }
        i += 1;
    }
    assert(all.take(i as int) =~= all);
    affinities
}

/// The storage classes of the claims that are not bound, in their order.
pub open spec fn unbound_classes(infos: Seq<Option<PvcBindingInfoView>>) -> Seq<Seq<char>>
    decreases infos.len(),
{
    if infos.len() == 0 {
        Seq::empty()
    } else {
        let before = unbound_classes(infos.drop_last());
        if infos.last() is Some && infos.last()->0.volume_name.len() == 0 && class_of(
            infos.last()->0,
        ) is Some {
            before.push(class_of(infos.last()->0)->0)
        } else {
            before
        }
    }
}

/// The storage classes that have yet to provide a volume for the claims.
pub fn unbound_storage_classes(infos: &Vec<Option<PvcBindingInfo>>) -> (names: Vec<String>)
    ensures
        names.deep_view() == unbound_classes(infos.deep_view()),
{
    let ghost all = infos.deep_view();
    let mut names: Vec<String> = Vec::new();
    let mut i: usize = 0;
    proof {
        assert(all.take(0) =~= Seq::empty());
        assert(names.deep_view() =~= Seq::empty());
    }
    while i < infos.len()
        invariant
            all == infos.deep_view(),
            i <= infos@.len(),
            names.deep_view() == unbound_classes(all.take(i as int)),
        decreases infos@.len() - i,
    {
        let ghost before = names.deep_view();
        proof {
            assert(all.take(i + 1).drop_last() =~= all.take(i as int));
            assert(all.take(i + 1).last() == infos@[i as int].deep_view());
        }
        if let Some(info) = &infos[i] {
            if info.volume_name.as_str().is_empty() {
                if let Some(class) = class_name(info) {
                    names.push(class.clone());
                    assert(names.deep_view() =~= before.push(class@));
                }
            }
        }
        i += 1;
    }
    assert(all.take(i as int) =~= all);
    names
}

/// The driver that provides volumes of the class, where there is one.
pub open spec fn provisioner_of(class: StorageClassObjectView) -> Option<Seq<char>> {
    if class.provisioner.len() > 0 {
        Some(class.provisioner)
    } else {
        None
    }
}

/// The drivers of the classes that were found, in their order. The class of
/// volumes that are made by hand has none.
pub open spec fn drivers_of(classes: Seq<Option<StorageClassObjectView>>) -> Seq<Seq<char>>
    decreases classes.len(),
{
    if classes.len() == 0 {
        Seq::empty()
    } else {
        let before = drivers_of(classes.drop_last());
        if classes.last() is Some && provisioner_of(classes.last()->0) is Some
            && classes.last()->0.provisioner != "kubernetes.io/no-provisioner"@ {
            before.push(classes.last()->0.provisioner)
        } else {
            before
        }
    }
}

/// The drivers that have yet to provide volumes of the classes that were
/// found. `kubernetes.io/no-provisioner` stands for volumes that are made by
/// hand: no driver will ever run for it.
pub fn csi_provisioners(classes: &Vec<Option<StorageClassObject>>) -> (drivers: Vec<String>)
    ensures
        drivers.deep_view() == drivers_of(classes.deep_view()),
{
    let ghost all = classes.deep_view();
    let mut drivers: Vec<String> = Vec::new();
    let mut i: usize = 0;
    proof {
        assert(all.take(0) =~= Seq::empty());
        assert(drivers.deep_view() =~= Seq::empty());
    }
    while i < classes.len()
        invariant
            all == classes.deep_view(),
            i <= classes@.len(),
            drivers.deep_view() == drivers_of(all.take(i as int)),
        decreases classes@.len() - i,
    {
        let ghost before = drivers.deep_view();
        proof {
            assert(all.take(i + 1).drop_last() =~= all.take(i as int));
            assert(all.take(i + 1).last() == classes@[i as int].deep_view());
        }
        if let Some(class) = &classes[i] {
            if !class.provisioner.as_str().is_empty() && !same_text(
                class.provisioner.as_str(),
                "kubernetes.io/no-provisioner",
            ) {
                drivers.push(class.provisioner.clone());
                assert(drivers.deep_view() =~= before.push(class@.provisioner));
            }
        }
        i += 1;
    }
    assert(all.take(i as int) =~= all);
    drivers
}

/// What has to be looked up next to find the CSI driver behind a claim, or
/// what it is.
#[derive(Debug, PartialEq, Eq)]
pub enum DriverLookup {
    /// Look at the volume of this name.
    Volume(String),
    /// Look at the storage class of this name.
    Class(String),
    /// The driver is found, or there is none.
    Done(Option<String>),
}

/// Model of [`DriverLookup`].
pub enum DriverLookupView {
    Volume(Seq<char>),
    Class(Seq<char>),
    Done(Option<Seq<char>>),
}

impl View for DriverLookup {
    type V = DriverLookupView;

    open spec fn view(&self) -> DriverLookupView {
        match self {
            DriverLookup::Volume(name) => DriverLookupView::Volume(name@),
            DriverLookup::Class(name) => DriverLookupView::Class(name@),
            DriverLookup::Done(driver) => DriverLookupView::Done(driver.deep_view()),
        }
    }
}

/// The class of a claim decides where no volume does.
pub open spec fn class_lookup(info: PvcBindingInfoView) -> DriverLookupView {
    match class_of(info) {
        Some(class) => DriverLookupView::Class(class),
        None => DriverLookupView::Done(None),
    }
}

fn look_at_class(info: &PvcBindingInfo) -> (r: DriverLookup)
    ensures
        r@ == class_lookup(info@),
{
    match class_name(info) {
        Some(class) => DriverLookup::Class(class.clone()),
        None => DriverLookup::Done(None),
    }
}

/// Where to look first for the driver behind a claim: at its volume, where it
/// is bound, else at its storage class. A claim that does not exist has none.
pub fn driver_lookup(info: Option<&PvcBindingInfo>) -> (r: DriverLookup)
    ensures
        r@ == match info.deep_view() {
            None => DriverLookupView::Done(None),
            Some(i) => if i.volume_name.len() > 0 {
                DriverLookupView::Volume(i.volume_name)
            } else {
                class_lookup(i)
            },
        },
{
    match info {
        Some(info) => if !info.volume_name.as_str().is_empty() {
            DriverLookup::Volume(info.volume_name.clone())
        } else {
            look_at_class(info)
        },
        None => DriverLookup::Done(None),
    }
}

/// The CSI driver of a volume, where it has one.
pub open spec fn volume_driver(pv: PvObjectView) -> Option<Seq<char>> {
    match pv.spec.csi {
        Some(csi) => if csi.driver.len() > 0 {
            Some(csi.driver)
        } else {
            None
        },
        None => None,
    }
}

/// Where to go on when the claim's volume has been looked at: its driver is
/// the one, and where it has none the storage class decides.
pub fn driver_lookup_after_volume(info: &PvcBindingInfo, pv: Option<&PvObject>) -> (r: DriverLookup)
    ensures
        r@ == match pv.deep_view() {
            Some(v) => match volume_driver(v) {
                Some(driver) => DriverLookupView::Done(Some(driver)),
                None => class_lookup(info@),
            },
            None => class_lookup(info@),
        },
{
    if let Some(pv) = pv {
        if let Some(csi) = &pv.spec.csi {
            if !csi.driver.as_str().is_empty() {
                return DriverLookup::Done(Some(csi.driver.clone()));
            }
        }
    }
    look_at_class(info)
}

/// The driver of the storage class that was looked at.
pub fn driver_lookup_after_class(class: Option<&StorageClassObject>) -> (driver: Option<String>)
    ensures
        driver.deep_view() == match class.deep_view() {
            Some(c) => provisioner_of(c),
            None => None,
        },
{
    match class {
        Some(class) => if class.provisioner.as_str().is_empty() {
            None
        } else {
            Some(class.provisioner.clone())
        },
        None => None,
    }
}

/// `names` without those that occur before.
pub open spec fn distinct(names: Seq<Seq<char>>) -> Seq<Seq<char>>
    decreases names.len(),
{
    if names.len() == 0 {
        Seq::empty()
    } else {
        let before = distinct(names.drop_last());
        if names.drop_last().contains(names.last()) {
            before
        } else {
            before.push(names.last())
        }
    }
}

/// The claims, each once: a claim that is mounted twice is one volume.
pub fn distinct_claims(pvc_names: &[String]) -> (names: Vec<String>)
    ensures
        names.deep_view() == distinct(pvc_names.deep_view()),
{
    let ghost all = pvc_names.deep_view();
    let mut seen = StringSet::new();
    let mut names: Vec<String> = Vec::new();
    let mut i: usize = 0;
    proof {
        assert(all.take(0) =~= Seq::empty());
        assert(names.deep_view() =~= Seq::empty());
    }
    while i < pvc_names.len()
        invariant
            all == pvc_names.deep_view(),
            i <= pvc_names@.len(),
            forall|k: Seq<char>| #[trigger]
                seen@.contains(k) == all.take(i as int).contains(k),
            names.deep_view() == distinct(all.take(i as int)),
        decreases pvc_names@.len() - i,
    {
        let name = &pvc_names[i];
        let ghost before = names.deep_view();
        proof {
            resources::lemma_take_next(all, i as int);
            assert(all.take(i + 1).drop_last() =~= all.take(i as int));
            assert(all.take(i + 1).last() == name@);
            assert forall|k: Seq<char>| seen@.insert(name@).contains(k) == all.take(
                i + 1,
            ).contains(k) by {
                assert(all.take(i + 1).contains(k) == (all.take(i as int).contains(k) || k
                    == all[i as int]));
                assert(seen@.contains(k) == all.take(i as int).contains(k));
            }
        }
        if seen.insert(name.clone()) {
            names.push(name.clone());
            assert(names.deep_view() =~= before.push(name@));
        }
        i += 1;
    }
    assert(all.take(i as int) =~= all);
    names
}

/// How many volumes belong to `driver`.
pub open spec fn volumes_of(drivers: Seq<Option<Seq<char>>>, driver: Seq<char>) -> nat
    decreases drivers.len(),
{
    if drivers.len() == 0 {
        0
    } else {
        volumes_of(drivers.drop_last(), driver) + if drivers.last() == Some(driver) {
            1nat
        } else {
            0
        }
    }
}

/// The number of volumes of each driver that has any.
pub open spec fn volumes_by_driver(drivers: Seq<Option<Seq<char>>>) -> Map<Seq<char>, i64> {
    Map::new(
        |d: Seq<char>| volumes_of(drivers, d) > 0,
        |d: Seq<char>| resources::clamp(volumes_of(drivers, d) as int),
    )
}

/// Count the volumes of each driver; those without one are left out.
pub fn count_by_driver(drivers: &Vec<Option<String>>) -> (counts: StringMap<i64>)
    ensures
        counts@ == volumes_by_driver(drivers.deep_view()),
{
    let ghost all = drivers.deep_view();
    let mut counts: StringMap<i64> = StringMap::new();
    let mut i: usize = 0;
    proof {
        assert(all.take(0) =~= Seq::empty());
        assert(counts@ =~= volumes_by_driver(all.take(0)));
    }
    while i < drivers.len()
        invariant
            all == drivers.deep_view(),
            i <= drivers@.len(),
            counts@ == volumes_by_driver(all.take(i as int)),
        decreases drivers@.len() - i,
    {
        proof {
            assert(all.take(i + 1).drop_last() =~= all.take(i as int));
            assert(all.take(i + 1).last() == drivers@[i as int].deep_view());
        }
        if let Some(driver) = &drivers[i] {
            let have: i64 = amount_in(&counts, driver.as_str());
            counts.insert(driver.clone(), clamped_sum(have, 1));
        }
        assert(counts@ =~= volumes_by_driver(all.take(i + 1)));
        i += 1;
    }
    assert(all.take(i as int) =~= all);
    counts
}

/// A claim that is bound, or whose class does not wait for the first
/// consumer, is never annotated.
pub proof fn law_bound_and_immediate_claims_untouched(
    pvc_names: Seq<Seq<char>>,
    node_name: Seq<char>,
    pvc_info: Map<Seq<char>, PvcBindingInfoView>,
    sc_mode: Map<Seq<char>, Seq<char>>,
    i: int,
)
    requires
        0 <= i < stamps(pvc_names, node_name, pvc_info, sc_mode).len(),
    ensures
        ({
            let patch = stamps(pvc_names, node_name, pvc_info, sc_mode)[i];
            &&& patch.node_name == node_name
            &&& pvc_names.contains(patch.pvc_name)
            &&& pvc_info.contains_key(patch.pvc_name)
            &&& pvc_info[patch.pvc_name].volume_name.len() == 0
            &&& class_of(pvc_info[patch.pvc_name]) is Some
            &&& sc_mode.contains_key(class_of(pvc_info[patch.pvc_name])->0)
            &&& sc_mode[class_of(pvc_info[patch.pvc_name])->0] == "WaitForFirstConsumer"@
        }),
    decreases pvc_names.len(),
{
    let front = pvc_names.drop_last();
    let before = stamps(front, node_name, pvc_info, sc_mode);
    if i < before.len() {
        law_bound_and_immediate_claims_untouched(front, node_name, pvc_info, sc_mode, i);
        let j = choose|j: int| 0 <= j < front.len() && front[j] == before[i].pvc_name;
        assert(pvc_names[j] == before[i].pvc_name);
    } else {
        assert(pvc_names[pvc_names.len() - 1] == pvc_names.last());
    }
}

/// Once every claim carries the node, nothing is left to annotate.
pub proof fn law_annotation_settles(
    pvc_names: Seq<Seq<char>>,
    node_name: Seq<char>,
    pvc_info: Map<Seq<char>, PvcBindingInfoView>,
    sc_mode: Map<Seq<char>, Seq<char>>,
)
    requires
        forall|name: Seq<char>| #[trigger]
            pvc_info.contains_key(name) ==> pvc_info[name].selected_node == Some(node_name),
    ensures
        stamps(pvc_names, node_name, pvc_info, sc_mode).len() == 0,
    decreases pvc_names.len(),
{
    if pvc_names.len() > 0 {
        law_annotation_settles(pvc_names.drop_last(), node_name, pvc_info, sc_mode);
    }
}

/// A claim that is not bound, whose class waits for its first consumer, and
/// that does not carry the node yet is annotated with it; even where it
/// carries another node.
pub proof fn law_waiting_claims_are_annotated(
    pvc_names: Seq<Seq<char>>,
    node_name: Seq<char>,
    pvc_info: Map<Seq<char>, PvcBindingInfoView>,
    sc_mode: Map<Seq<char>, Seq<char>>,
    k: int,
)
    requires
        0 <= k < pvc_names.len(),
        pvc_info.contains_key(pvc_names[k]),
        pvc_info[pvc_names[k]].volume_name.len() == 0,
        pvc_info[pvc_names[k]].storage_class_name is Some,
        pvc_info[pvc_names[k]].storage_class_name->0.len() > 0,
        sc_mode.contains_key(pvc_info[pvc_names[k]].storage_class_name->0),
        sc_mode[pvc_info[pvc_names[k]].storage_class_name->0] == "WaitForFirstConsumer"@,
        pvc_info[pvc_names[k]].selected_node != Some(node_name),
    ensures
        stamps(pvc_names, node_name, pvc_info, sc_mode).contains(
            SelectedNodePatchView { pvc_name: pvc_names[k], node_name },
        ),
    decreases pvc_names.len(),
{
    let front = pvc_names.drop_last();
    let before = stamps(front, node_name, pvc_info, sc_mode);
    let all = stamps(pvc_names, node_name, pvc_info, sc_mode);
    let patch = SelectedNodePatchView { pvc_name: pvc_names[k], node_name };
    if k < front.len() {
        assert(front[k] == pvc_names[k]);
        law_waiting_claims_are_annotated(front, node_name, pvc_info, sc_mode, k);
        let i = choose|i: int| 0 <= i < before.len() && before[i] == patch;
        assert(all[i] == patch);
    } else {
        assert(needs_stamp(pvc_names.last(), node_name, pvc_info, sc_mode));
        assert(all[before.len() as int] == patch);
    }
}

/// A claim that carries the node already, is bound, names no class, or whose
/// class does not wait for its first consumer is left alone.
pub proof fn law_other_claims_are_left_alone(
    pvc_names: Seq<Seq<char>>,
    node_name: Seq<char>,
    pvc_info: Map<Seq<char>, PvcBindingInfoView>,
    sc_mode: Map<Seq<char>, Seq<char>>,
    name: Seq<char>,
)
    requires
        !pvc_info.contains_key(name) || pvc_info[name].volume_name.len() > 0
            || pvc_info[name].selected_node == Some(node_name) || pvc_info[name].storage_class_name
            is None || pvc_info[name].storage_class_name->0.len() == 0 || !sc_mode.contains_key(
            pvc_info[name].storage_class_name->0,
        ) || sc_mode[pvc_info[name].storage_class_name->0] != "WaitForFirstConsumer"@,
    ensures
        forall|i: int|
            0 <= i < stamps(pvc_names, node_name, pvc_info, sc_mode).len() ==> (#[trigger] stamps(
                pvc_names,
                node_name,
                pvc_info,
                sc_mode,
            )[i]).pvc_name != name,
    decreases pvc_names.len(),
{
    if pvc_names.len() > 0 {
        let front = pvc_names.drop_last();
        law_other_claims_are_left_alone(front, node_name, pvc_info, sc_mode, name);
        let before = stamps(front, node_name, pvc_info, sc_mode);
        let all = stamps(pvc_names, node_name, pvc_info, sc_mode);
        assert forall|i: int| 0 <= i < all.len() implies (#[trigger] all[i]).pvc_name != name by {
            if i < before.len() {
                assert(all[i] == before[i]);
            }
        }
    }
}

/// What is known of a claim's binding is what the claim says: its volume, its
/// class, its access modes, and the node that it is annotated with.
pub proof fn law_binding_of_a_claim(pvc: PvcObjectView)
    ensures
        binding_info_of(pvc).volume_name == pvc.spec.volume_name,
        binding_info_of(pvc).storage_class_name == pvc.spec.storage_class_name,
        binding_info_of(pvc).access_modes == pvc.spec.access_modes,
        pvc.metadata.annotations.contains_key("volume.kubernetes.io/selected-node"@)
            ==> binding_info_of(pvc).selected_node == Some(
            pvc.metadata.annotations["volume.kubernetes.io/selected-node"@],
        ),
        !pvc.metadata.annotations.contains_key("volume.kubernetes.io/selected-node"@)
            ==> binding_info_of(pvc).selected_node is None,
{
}

/// The claims that one pod alone may use are those of the listed ones that are
/// known to have the access mode `ReadWriteOncePod`.
pub proof fn law_exclusive_claims_have_the_access_mode(
    pvc_names: Seq<Seq<char>>,
    infos: Seq<Option<PvcBindingInfoView>>,
    name: Seq<char>,
)
    requires
        infos.len() >= pvc_names.len(),
    ensures
        exclusive_claims(pvc_names, infos).contains(name) <==> exists|i: int|
            0 <= i < pvc_names.len() && #[trigger] pvc_names[i] == name && infos[i] is Some
                && infos[i]->0.access_modes.contains("ReadWriteOncePod"@),
    decreases pvc_names.len(),
{
    if pvc_names.len() > 0 {
        let front = pvc_names.drop_last();
        let n = pvc_names.len() - 1;
        law_exclusive_claims_have_the_access_mode(front, infos, name);
        let before = exclusive_claims(front, infos);
        crate::listing::lemma_push_key(before, pvc_names[n], name);
        if before.contains(name) {
            let i = choose|i: int|
                0 <= i < front.len() && #[trigger] front[i] == name && infos[i] is Some
                    && infos[i]->0.access_modes.contains("ReadWriteOncePod"@);
            assert(pvc_names[i] == name);
        }
        if exists|i: int|
            0 <= i < pvc_names.len() && #[trigger] pvc_names[i] == name && infos[i] is Some
                && infos[i]->0.access_modes.contains("ReadWriteOncePod"@) {
            let i = choose|i: int|
                0 <= i < pvc_names.len() && #[trigger] pvc_names[i] == name && infos[i] is Some
                    && infos[i]->0.access_modes.contains("ReadWriteOncePod"@);
            if i < front.len() {
                assert(front[i] == name);
            }
        }
    }
}

/// The volumes to look up are those that the known claims are bound to.
pub proof fn law_bound_volumes_are_looked_up(
    infos: Seq<Option<PvcBindingInfoView>>,
    name: Seq<char>,
)
    ensures
        bound_volumes(infos).contains(name) <==> name.len() > 0 && exists|i: int|
            0 <= i < infos.len() && (#[trigger] infos[i]) is Some && infos[i]->0.volume_name
                == name,
    decreases infos.len(),
{
    if infos.len() > 0 {
        let front = infos.drop_last();
        let last = infos.last();
        law_bound_volumes_are_looked_up(front, name);
        let before = bound_volumes(front);
        assert(infos[infos.len() - 1] == last);
        if last is Some {
            crate::listing::lemma_push_key(before, last->0.volume_name, name);
        }
        if before.contains(name) {
            let i = choose|i: int|
                0 <= i < front.len() && (#[trigger] front[i]) is Some && front[i]->0.volume_name
                    == name;
            assert(infos[i] == front[i]);
        }
        if exists|i: int|
            0 <= i < infos.len() && (#[trigger] infos[i]) is Some && infos[i]->0.volume_name
                == name {
            let i = choose|i: int|
                0 <= i < infos.len() && (#[trigger] infos[i]) is Some && infos[i]->0.volume_name
                    == name;
            if i < front.len() {
                assert(front[i] == infos[i]);
            }
        }
    }
}

/// Every volume that can be reached from some nodes alone restricts the pod to
/// them.
pub proof fn law_reach_of_every_volume_counts(pvs: Seq<Option<PvObjectView>>, i: int)
    requires
        0 <= i < pvs.len(),
        pvs[i] is Some,
        pvs[i]->0.spec.node_affinity is Some,
        pvs[i]->0.spec.node_affinity->0.required is Some,
    ensures
        reaches(pvs).contains(pvs[i]->0.spec.node_affinity->0.required->0),
    decreases pvs.len(),
{
    let front = pvs.drop_last();
    let before = reaches(front);
    let all = reaches(pvs);
    let wanted = pvs[i]->0.spec.node_affinity->0.required->0;
    if i < front.len() {
        assert(front[i] == pvs[i]);
        law_reach_of_every_volume_counts(front, i);
        let k = choose|k: int| 0 <= k < before.len() && before[k] == wanted;
        assert(all[k] == wanted);
    } else {
        assert(all[before.len() as int] == wanted);
    }
}

/// The classes to look up are those of the claims that are not bound, and the
/// drivers that have yet to provide volumes are the provisioners of the
/// classes, but for `kubernetes.io/no-provisioner`, which provides none.
pub proof fn law_drivers_that_have_to_provide(
    infos: Seq<Option<PvcBindingInfoView>>,
    classes: Seq<Option<StorageClassObjectView>>,
    name: Seq<char>,
)
    ensures
        unbound_classes(infos).contains(name) <==> name.len() > 0 && exists|i: int|
            0 <= i < infos.len() && (#[trigger] infos[i]) is Some && infos[i]->0.volume_name.len()
                == 0 && infos[i]->0.storage_class_name == Some(name),
        drivers_of(classes).contains(name) <==> name.len() > 0 && name
            != "kubernetes.io/no-provisioner"@ && exists|i: int|
            0 <= i < classes.len() && (#[trigger] classes[i]) is Some && classes[i]->0.provisioner
                == name,
    decreases infos.len() + classes.len(),
{
    if infos.len() > 0 {
        let front = infos.drop_last();
        let last = infos.last();
        law_drivers_that_have_to_provide(front, classes, name);
        let before = unbound_classes(front);
        assert(infos[infos.len() - 1] == last);
        if last is Some && class_of(last->0) is Some {
            crate::listing::lemma_push_key(before, class_of(last->0)->0, name);
        }
        if before.contains(name) {
            let i = choose|i: int|
                0 <= i < front.len() && (#[trigger] front[i]) is Some
                    && front[i]->0.volume_name.len() == 0 && front[i]->0.storage_class_name
                    == Some(name);
            assert(infos[i] == front[i]);
        }
        if exists|i: int|
            0 <= i < infos.len() && (#[trigger] infos[i]) is Some && infos[i]->0.volume_name.len()
                == 0 && infos[i]->0.storage_class_name == Some(name) {
            let i = choose|i: int|
                0 <= i < infos.len() && (#[trigger] infos[i]) is Some
                    && infos[i]->0.volume_name.len() == 0 && infos[i]->0.storage_class_name
                    == Some(name);
            if i < front.len() {
                assert(front[i] == infos[i]);
            }
        }
    } else if classes.len() > 0 {
        let front = classes.drop_last();
        let last = classes.last();
        law_drivers_that_have_to_provide(infos, front, name);
        let before = drivers_of(front);
        assert(classes[classes.len() - 1] == last);
        if last is Some {
            crate::listing::lemma_push_key(before, last->0.provisioner, name);
        }
        if before.contains(name) {
            let i = choose|i: int|
                0 <= i < front.len() && (#[trigger] front[i]) is Some && front[i]->0.provisioner
                    == name;
            assert(classes[i] == front[i]);
        }
        if exists|i: int|
            0 <= i < classes.len() && (#[trigger] classes[i]) is Some && classes[i]->0.provisioner
                == name {
            let i = choose|i: int|
                0 <= i < classes.len() && (#[trigger] classes[i]) is Some
                    && classes[i]->0.provisioner == name;
            if i < front.len() {
                assert(front[i] == classes[i]);
            }
        }
    }
}

/// The driver of a volume is that of its CSI source; a volume without one has
/// none. A claim without one of its own is looked up by its storage class,
/// where it names one.
pub proof fn law_driver_of_a_volume(pv: PvObjectView, info: PvcBindingInfoView)
    ensures
        pv.spec.csi is Some && pv.spec.csi->0.driver.len() > 0 ==> volume_driver(pv) == Some(
            pv.spec.csi->0.driver,
        ),
        pv.spec.csi is None || pv.spec.csi->0.driver.len() == 0 ==> volume_driver(pv) is None,
        info.storage_class_name is Some && info.storage_class_name->0.len() > 0 ==> class_lookup(
            info,
        ) == DriverLookupView::Class(info.storage_class_name->0),
        info.storage_class_name is None || info.storage_class_name->0.len() == 0 ==> class_lookup(
            info,
        ) == DriverLookupView::Done(None),
{
}

/// A claim that occurs again is dropped, and nothing else is: every claim is
/// listed, once.
pub proof fn law_distinct_claims(names: Seq<Seq<char>>)
    ensures
        distinct(names).no_duplicates(),
        forall|n: Seq<char>| #[trigger] distinct(names).contains(n) == names.contains(n),
    decreases names.len(),
{
    if names.len() > 0 {
        let front = names.drop_last();
        let last = names.last();
        law_distinct_claims(front);
        let before = distinct(front);
        assert(front.push(last) =~= names);
        assert forall|n: Seq<char>| #[trigger] distinct(names).contains(n) == names.contains(n) by {
            crate::listing::lemma_push_key(front, last, n);
            crate::listing::lemma_push_key(before, last, n);
            assert(before.contains(n) == front.contains(n));
        }
        if !front.contains(last) {
            let all = before.push(last);
            assert forall|i: int, j: int|
                0 <= i < all.len() && 0 <= j < all.len() && i != j implies all[i] != all[j] by {
                if i < before.len() {
                    assert(before.contains(before[i]));
                }
                if j < before.len() {
                    assert(before.contains(before[j]));
                }
            }
        }
    }
}

/// What was found of claims and of classes is known by their names: where
/// something was found of a name, the last of it.
pub proof fn law_found_by_name(
    names: Seq<Seq<char>>,
    infos: Seq<Option<PvcBindingInfoView>>,
    classes: Seq<Option<StorageClassObjectView>>,
    i: int,
)
    requires
        0 <= i < names.len(),
        infos.len() >= names.len(),
        classes.len() >= names.len(),
        forall|j: int| i < j < names.len() ==> #[trigger] names[j] != names[i],
    ensures
        infos[i] is Some ==> found_claims(names, infos).contains_key(names[i]) && found_claims(
            names,
            infos,
        )[names[i]] == infos[i]->0,
        classes[i] is Some && classes[i]->0.volume_binding_mode is Some ==> found_modes(
            names,
            classes,
        ).contains_key(names[i]) && found_modes(names, classes)[names[i]]
            == classes[i]->0.volume_binding_mode->0,
    decreases names.len(),
{
    let front = names.drop_last();
    if i < front.len() {
        assert(front[i] == names[i]);
        assert forall|j: int| i < j < front.len() implies #[trigger] front[j] != front[i] by {
            assert(front[j] == names[j]);
        }
        law_found_by_name(front, infos, classes, i);
        assert(names[names.len() - 1] != names[i]);
    }
}

/// The classes to look up are those that the listed claims name.
pub proof fn law_classes_of_the_claims(
    pvc_info: Map<Seq<char>, PvcBindingInfoView>,
    keys: Seq<Seq<char>>,
    name: Seq<char>,
)
    ensures
        named_classes(pvc_info, keys).contains(name) <==> name.len() > 0 && exists|i: int|
            0 <= i < keys.len() && pvc_info[#[trigger] keys[i]].storage_class_name == Some(name),
    decreases keys.len(),
{
    if keys.len() > 0 {
        let front = keys.drop_last();
        let last = keys.last();
        law_classes_of_the_claims(pvc_info, front, name);
        let before = named_classes(pvc_info, front);
        assert(keys[keys.len() - 1] == last);
        if class_of(pvc_info[last]) is Some {
            crate::listing::lemma_push_key(before, class_of(pvc_info[last])->0, name);
        }
        if before.contains(name) {
            let i = choose|i: int|
                0 <= i < front.len() && pvc_info[#[trigger] front[i]].storage_class_name == Some(
                    name,
                );
            assert(keys[i] == front[i]);
        }
        if exists|i: int|
            0 <= i < keys.len() && pvc_info[#[trigger] keys[i]].storage_class_name == Some(
                name,
            ) {
            let i = choose|i: int|
                0 <= i < keys.len() && pvc_info[#[trigger] keys[i]].storage_class_name == Some(
                    name,
                );
            if i < front.len() {
                assert(front[i] == keys[i]);
            }
        }
    }
}

} // verus!
