//! Requests that bind, evict and patch pods, and what their answers mean.

use crate::error::SchedulerError;
use crate::json::{Json, JsonView};
use crate::status;
use crate::text::{self, contains_text, write_numeral};
use vstd::prelude::*;
use vstd::string::*;

verus! {

/// The path of a pod.
pub open spec fn pod_path(namespace: Seq<char>, pod_name: Seq<char>) -> Seq<char> {
    "/api/v1/namespaces/"@ + namespace + "/pods/"@ + pod_name
}

/// The path that binds a pod.
pub fn binding_path(namespace: &str, pod_name: &str) -> (path: String)
    ensures
        path@ == pod_path(namespace@, pod_name@) + "/binding"@,
{
    let mut path = delete_pod_path(namespace, pod_name);
    path.append("/binding");
    path
}

/// The path that deletes a pod.
pub fn delete_pod_path(namespace: &str, pod_name: &str) -> (path: String)
    ensures
        path@ == pod_path(namespace@, pod_name@),
{
    let mut path = "/api/v1/namespaces/".to_owned();
    path.append(namespace);
    path.append("/pods/");
    path.append(pod_name);
    path
}

/// The path of a pod's status.
pub fn pod_status_path(namespace: &str, pod_name: &str) -> (path: String)
    ensures
        path@ == pod_path(namespace@, pod_name@) + "/status"@,
{
    let mut path = delete_pod_path(namespace, pod_name);
    path.append("/status");
    path
}

/// What is sent to bind a pod to a node.
pub open spec fn binding(
    namespace: Seq<char>,
    pod_name: Seq<char>,
    node_name: Seq<char>,
) -> JsonView {
    JsonView::object().with("apiVersion"@, JsonView::Text("v1"@)).with(
        "kind"@,
        JsonView::Text("Binding"@),
    ).with(
        "metadata"@,
        JsonView::object().with("name"@, JsonView::Text(pod_name)).with(
            "namespace"@,
            JsonView::Text(namespace),
        ),
    ).with(
        "target"@,
        JsonView::object().with("apiVersion"@, JsonView::Text("v1"@)).with(
            "kind"@,
            JsonView::Text("Node"@),
        ).with("name"@, JsonView::Text(node_name)),
    )
}

/// What is sent to bind a pod to a node.
pub fn binding_payload(namespace: &str, pod_name: &str, node_name: &str) -> (payload: Json)
    ensures
        payload@ == binding(namespace@, pod_name@, node_name@),
{
    Json::object().with("apiVersion", Json::text("v1")).with("kind", Json::text("Binding")).with(
        "metadata",
        Json::object().with("name", Json::text(pod_name)).with(
            "namespace",
            Json::text(namespace),
        ),
    ).with(
        "target",
        Json::object().with("apiVersion", Json::text("v1")).with("kind", Json::text("Node")).with(
            "name",
            Json::text(node_name),
        ),
    )
}

/// Why a pod was not bound.
#[derive(Debug)]
pub enum BindError {
    /// The pod has a node already: an earlier bind went through, and nothing
    /// is wrong.
    AlreadyAssigned(String),
    /// Anything else, which is a failure.
    Other(SchedulerError),
}

impl View for BindError {
    type V = Seq<char>;

    open spec fn view(&self) -> Seq<char> {
        match self {
            BindError::AlreadyAssigned(message) => message@,
            BindError::Other(e) => e@,
        }
    }
}

impl BindError {
    /// The reason in words.
    pub fn to_string(&self) -> (s: String)
        ensures
            s@ == self@,
    {
        match self {
            BindError::AlreadyAssigned(message) => message.clone(),
            BindError::Other(e) => e.to_string(),
        }
    }
}

/// Whether the pod was not bound because it has a node already.
pub fn is_bind_already_assigned(err: &BindError) -> (b: bool)
    ensures
        b == (err is AlreadyAssigned),
{
    match err {
        BindError::AlreadyAssigned(_) => true,
        BindError::Other(_) => false,
    }
}

/// The request went through.
pub open spec fn is_success(status: u16) -> bool {
    200 <= status < 300
}

/// `before`, a status code, a colon and the body.
pub open spec fn failure_message(before: Seq<char>, status: u16, body: Seq<char>) -> Seq<char> {
    before + text::numeral(status as nat, 10) + ": "@ + body
}

fn write_failure(before: &str, status: u16, body: &str) -> (message: String)
    ensures
        message@ == failure_message(before@, status, body@),
{
    let mut message = before.to_owned();
    message.append(write_numeral(status as u128, 10).as_str());
    message.append(": ");
    message.append(body);
    message
}

/// What the answer to a bind request means. Only a conflict that says that
/// the pod has a node already is told apart from a failure.
pub fn check_bind_response(status: u16, body: &str) -> (r: Result<(), BindError>)
    ensures
        r is Ok <==> is_success(status),
        r matches Err(e) ==> {
            if status == 409 && text::occurs(body@, "already assigned to node"@) {
                e is AlreadyAssigned && e@
                    == "bind rejected with HTTP 409 (pod already assigned elsewhere): "@ + body@
            } else {
                e is Other && e@ == failure_message("bind failed with HTTP "@, status, body@)
            }
        },
{
    if 200 <= status && status < 300 {
        return Ok(());
    }
    if status == 409 && contains_text(body, "already assigned to node") {
        let mut message =
            "bind rejected with HTTP 409 (pod already assigned elsewhere): ".to_owned();
        message.append(body);
        return Err(BindError::AlreadyAssigned(message));
    }
    Err(
        BindError::Other(
            SchedulerError { message: write_failure("bind failed with HTTP ", status, body) },
        ),
    )
}

/// What the answer to the deletion of an evicted pod means. A pod that is
/// gone already (404), or that is being changed (409), is on its way out.
pub fn check_delete_response(status: u16) -> (r: Result<(), SchedulerError>)
    ensures
        r is Ok <==> is_success(status) || status == 404 || status == 409,
        r matches Err(e) ==> e@ == "evict failed with HTTP "@ + text::numeral(status as nat, 10),
{
    if (200 <= status && status < 300) || status == 404 || status == 409 {
        return Ok(());
    }
    let mut message = "evict failed with HTTP ".to_owned();
    message.append(write_numeral(status as u128, 10).as_str());
    Err(SchedulerError { message })
}

/// What the answer to a status patch means.
pub fn check_status_patch_response(status: u16, body: &str) -> (r: Result<(), SchedulerError>)
    ensures
        r is Ok <==> is_success(status),
        r matches Err(e) ==> e@ == failure_message(
            "status patch failed with HTTP "@,
            status,
            body@,
        ),
{
    if 200 <= status && status < 300 {
        return Ok(());
    }
    Err(
        SchedulerError { message: write_failure("status patch failed with HTTP ", status, body) },
    )
}

/// A request went through where its status is 200 or above and below 300.
pub proof fn law_success_starts_with_two(status: u16)
    ensures
        is_success(status) == (status / 100 == 2),
{
}

/// The paths of two pods differ where their names, or their namespaces, do; a
/// namespace holds no slash.
pub proof fn law_pods_have_their_own_paths(
    a: Seq<char>,
    x: Seq<char>,
    b: Seq<char>,
    y: Seq<char>,
)
    requires
        !a.contains('/'),
        !b.contains('/'),
        a != b || x != y,
    ensures
        pod_path(a, x) != pod_path(b, y),
        "/api/v1/namespaces/"@.is_prefix_of(pod_path(a, x)),
{
    reveal_strlit("/pods/");
    let start = "/api/v1/namespaces/"@;
    let n = start.len() as int;
    let s = pod_path(a, x);
    let t = pod_path(b, y);
    assert(start =~= s.subrange(0, n));
    if s == t {
        assert(s[n + a.len()] == '/');
        assert(t[n + b.len()] == '/');
        if a.len() < b.len() {
            assert(t[n + a.len()] == b[a.len() as int]);
            assert(b.contains('/'));
        } else if b.len() < a.len() {
            assert(s[n + b.len()] == a[b.len() as int]);
            assert(a.contains('/'));
        }
        assert(a =~= s.subrange(n, n + a.len()));
        assert(b =~= t.subrange(n, n + b.len()));
        assert(x =~= s.skip(n + a.len() + 6));
        assert(y =~= t.skip(n + b.len() + 6));
    }
}

/// What is sent to bind a pod names the pod, its namespace and the node.
pub proof fn law_binding_names_pod_and_node(
    namespace: Seq<char>,
    pod_name: Seq<char>,
    node_name: Seq<char>,
)
    ensures
        ({
            let b = binding(namespace, pod_name, node_name);
            &&& b is Object
            &&& status::has_text(b, "kind"@, "Binding"@)
            &&& exists|i: int|
                0 <= i < b->Object_0.len() && (#[trigger] b->Object_0[i]).name == "metadata"@
                    && status::has_text(b->Object_0[i].value, "name"@, pod_name)
                    && status::has_text(b->Object_0[i].value, "namespace"@, namespace)
            &&& exists|i: int|
                0 <= i < b->Object_0.len() && (#[trigger] b->Object_0[i]).name == "target"@
                    && status::has_text(b->Object_0[i].value, "kind"@, "Node"@)
                    && status::has_text(b->Object_0[i].value, "name"@, node_name)
        }),
{
    let b = binding(namespace, pod_name, node_name);
    let f = b->Object_0;
    assert(f.len() == 4);
    assert(f[1].name == "kind"@ && f[1].value == JsonView::Text("Binding"@));
    assert(f[2].name == "metadata"@);
    let m = f[2].value->Object_0;
    assert(m[0].name == "name"@ && m[0].value == JsonView::Text(pod_name));
    assert(m[1].name == "namespace"@ && m[1].value == JsonView::Text(namespace));
    assert(status::has_text(f[2].value, "name"@, pod_name));
    assert(status::has_text(f[2].value, "namespace"@, namespace));
    assert(f[3].name == "target"@);
    let t = f[3].value->Object_0;
    assert(t[1].name == "kind"@ && t[1].value == JsonView::Text("Node"@));
    assert(t[2].name == "name"@ && t[2].value == JsonView::Text(node_name));
    assert(status::has_text(f[3].value, "kind"@, "Node"@));
    assert(status::has_text(f[3].value, "name"@, node_name));
}

} // verus!
