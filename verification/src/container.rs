//! Containers: what they ask for and the ports they claim.

use crate::duplicate::Duplicate;
use crate::order;
use crate::ports::{HostPortClaim, HostPortClaimView};
use crate::quantity;
use crate::resources::{self, accumulate_request, ResourceRequests, ResourceRequestsView};
use crate::string_map::StringMap;
use crate::text::{self, to_uppercase};
use vstd::prelude::*;

verus! {

/// One port of a container.
#[derive(Debug, Default)]
pub struct ContainerPortSpec {
    /// The port on the node; none, and none above 0, claims nothing there.
    pub host_port: Option<i32>,
    pub host_ip: String,
    pub protocol: Option<String>,
}

/// Model of [`ContainerPortSpec`].
#[verifier::ext_equal]
pub struct ContainerPortSpecView {
    pub host_port: Option<i32>,
    pub host_ip: Seq<char>,
    pub protocol: Option<Seq<char>>,
}

impl View for ContainerPortSpec {
    type V = ContainerPortSpecView;

    open spec fn view(&self) -> ContainerPortSpecView {
        ContainerPortSpecView {
            host_port: self.host_port.deep_view(),
            host_ip: self.host_ip@,
            protocol: self.protocol.deep_view(),
        }
    }
}

impl DeepView for ContainerPortSpec {
    type V = ContainerPortSpecView;

    open spec fn deep_view(&self) -> ContainerPortSpecView {
        self@
    }
}

impl Duplicate for ContainerPortSpec {
    fn duplicate(&self) -> (copy: Self) {
        ContainerPortSpec {
            host_port: self.host_port.duplicate(),
            host_ip: self.host_ip.duplicate(),
            protocol: self.protocol.duplicate(),
        }
    }
}

impl Clone for ContainerPortSpec {
    fn clone(&self) -> (copy: Self)
        ensures
            copy@ == self@,
    {
        self.duplicate()
    }
}

/// What a container asks for: a quantity for each resource name.
#[derive(Debug, Default)]
pub struct ContainerResources {
    pub requests: StringMap<String>,
}

/// Model of [`ContainerResources`].
#[verifier::ext_equal]
pub struct ContainerResourcesView {
    pub requests: Map<Seq<char>, Seq<char>>,
}

impl View for ContainerResources {
    type V = ContainerResourcesView;

    open spec fn view(&self) -> ContainerResourcesView {
        ContainerResourcesView {
            requests: self.requests@,
        }
    }
}

impl DeepView for ContainerResources {
    type V = ContainerResourcesView;

    open spec fn deep_view(&self) -> ContainerResourcesView {
        self@
    }
}

impl Duplicate for ContainerResources {
    fn duplicate(&self) -> (copy: Self) {
        ContainerResources {
            requests: self.requests.duplicate(),
        }
    }
}

impl Clone for ContainerResources {
    fn clone(&self) -> (copy: Self)
        ensures
            copy@ == self@,
    {
        self.duplicate()
    }
}

/// One container of a pod.
#[derive(Debug, Default)]
pub struct ContainerSpec {
    pub resources: ContainerResources,
    pub ports: Option<Vec<ContainerPortSpec>>,
}

/// Model of [`ContainerSpec`].
#[verifier::ext_equal]
pub struct ContainerSpecView {
    pub resources: ContainerResourcesView,
    pub ports: Option<Seq<ContainerPortSpecView>>,
}

impl View for ContainerSpec {
    type V = ContainerSpecView;

    open spec fn view(&self) -> ContainerSpecView {
        ContainerSpecView {
            resources: self.resources@,
            ports: self.ports.deep_view(),
        }
    }
}

impl DeepView for ContainerSpec {
    type V = ContainerSpecView;

    open spec fn deep_view(&self) -> ContainerSpecView {
        self@
    }
}

impl Duplicate for ContainerSpec {
    fn duplicate(&self) -> (copy: Self) {
        ContainerSpec {
            resources: self.resources.duplicate(),
            ports: self.ports.duplicate(),
        }
    }
}

impl Clone for ContainerSpec {
    fn clone(&self) -> (copy: Self)
        ensures
            copy@ == self@,
    {
        self.duplicate()
    }
}

/// The port claims something on the node.
pub open spec fn claims_host_port(port: ContainerPortSpecView) -> bool {
    port.host_port is Some && port.host_port->0 > 0
}

/// What the port claims on the node.
pub open spec fn claim_of(port: ContainerPortSpecView) -> HostPortClaimView {
    HostPortClaimView {
        host_port: (port.host_port->0 as int % 65536) as u16,
        host_ip: port.host_ip,
        protocol: text::uppercase(
            match port.protocol {
                Some(p) => p,
                None => "TCP"@,
            },
        ),
    }
}

/// What `ports` claim on the node, in their order.
pub open spec fn port_claims(ports: Seq<ContainerPortSpecView>) -> Seq<HostPortClaimView>
    decreases ports.len(),
{
    if ports.len() == 0 {
        Seq::empty()
    } else if claims_host_port(ports.last()) {
        port_claims(ports.drop_last()).push(claim_of(ports.last()))
    } else {
        port_claims(ports.drop_last())
    }
}

/// The ports of a container.
pub open spec fn ports_of(container: ContainerSpecView) -> Seq<ContainerPortSpecView> {
    match container.ports {
        Some(ports) => ports,
        None => Seq::empty(),
    }
}

/// What `containers` claim on the node, in their order.
pub open spec fn container_claims(containers: Seq<ContainerSpecView>) -> Seq<HostPortClaimView>
    decreases containers.len(),
{
    if containers.len() == 0 {
        Seq::empty()
    } else {
        container_claims(containers.drop_last()) + port_claims(ports_of(containers.last()))
    }
}

fn claim_port(port: &ContainerPortSpec, number: i32) -> (claim: HostPortClaim)
    requires
        port.host_port == Some(number),
        number > 0,
    ensures
        claim@ == claim_of(port@),
{
    let protocol = match &port.protocol {
        Some(p) => to_uppercase(p.as_str()),
        None => to_uppercase("TCP"),
    };
    HostPortClaim {
        host_port: (number % 65536) as u16,
        host_ip: port.host_ip.clone(),
        protocol,
    }
}

/// The ports that `containers` claim on the node.
pub fn container_host_ports(containers: &[ContainerSpec]) -> (claims: Vec<HostPortClaim>)
    ensures
        claims.deep_view() == container_claims(containers.deep_view()),
{
    let ghost all = containers.deep_view();
    let mut claims: Vec<HostPortClaim> = Vec::new();
    let mut i: usize = 0;
    proof {
        assert(all.take(0) =~= Seq::empty());
        assert(claims.deep_view() =~= Seq::empty());
    }
    while i < containers.len()
        invariant
            all == containers.deep_view(),
            i <= containers@.len(),
            claims.deep_view() == container_claims(all.take(i as int)),
        decreases containers@.len() - i,
    {
        let container = &containers[i];
        let ghost before = claims.deep_view();
        proof {
            assert(all.take(i + 1).drop_last() =~= all.take(i as int));
            assert(all.take(i + 1).last() == container@);
        }
        match &container.ports {
            Some(ports) => {
                let ghost listed = ports.deep_view();
                let mut k: usize = 0;
                proof {
                    assert(listed.take(0) =~= Seq::empty());
                    assert(claims.deep_view() =~= before + port_claims(listed.take(0)));
                }
                while k < ports.len()
                    invariant
                        listed == ports.deep_view(),
                        k <= ports@.len(),
                        claims.deep_view() == before + port_claims(listed.take(k as int)),
                    decreases ports@.len() - k,
                {
                    let port = &ports[k];
                    proof {
                        assert(listed.take(k + 1).drop_last() =~= listed.take(k as int));
                        assert(listed.take(k + 1).last() == port@);
                    }
                    if let Some(number) = port.host_port {
                        if number > 0 {
                            let ghost old_claims = claims.deep_view();
                            claims.push(claim_port(port, number));
                            assert(claims.deep_view() =~= old_claims.push(claim_of(port@)));
                            assert(claims.deep_view() =~= before + port_claims(
                                listed.take(k + 1),
                            ));
                        }
                    }
                    k += 1;
                }
                assert(listed.take(k as int) =~= listed);
            },
            None => {
                assert(claims.deep_view() =~= before + Seq::<HostPortClaimView>::empty());
            },
        }
        i += 1;
    }
    assert(all.take(i as int) =~= all);
    claims
}

/// What a set of requests asks for of the resource `name`.
pub open spec fn quantity_of(requests: Map<Seq<char>, Seq<char>>, name: Seq<char>) -> i64 {
    if requests.contains_key(name) {
        quantity::quantity_milli(requests[name]) as i64
    } else {
        0
    }
}

/// What `containers` together ask for of the resource `name`.
pub open spec fn requested(containers: Seq<ContainerSpecView>, name: Seq<char>) -> i64
    decreases containers.len(),
{
    if containers.len() == 0 {
        0
    } else {
        resources::clamp(
            requested(containers.drop_last(), name) + quantity_of(
                containers.last().resources.requests,
                name,
            ),
        )
    }
}

/// One of `containers` names the resource `name`.
pub open spec fn names_resource(containers: Seq<ContainerSpecView>, name: Seq<char>) -> bool {
    exists|i: int|
        0 <= i < containers.len() && (#[trigger] containers[i]).resources.requests.contains_key(
            name,
        )
}

/// What `containers` and a pod's `overhead` together ask for of `name`.
pub open spec fn requested_with(
    containers: Seq<ContainerSpecView>,
    overhead: Map<Seq<char>, Seq<char>>,
    name: Seq<char>,
) -> i64 {
    resources::clamp(requested(containers, name) + quantity_of(overhead, name))
}

/// The requests of `containers`: of each resource the sum over them.
pub open spec fn container_requests(
    containers: Seq<ContainerSpecView>,
) -> ResourceRequestsView {
    ResourceRequestsView {
        cpu_milli: requested(containers, "cpu"@),
        memory_milli: requested(containers, "memory"@),
        ephemeral_storage_milli: requested(containers, "ephemeral-storage"@),
        extended: Map::new(
            |n: Seq<char>| !resources::is_basic(n) && names_resource(containers, n),
            |n: Seq<char>| requested(containers, n),
        ),
    }
}

/// The requests of a pod: those of its containers and its overhead.
pub open spec fn pod_requests(
    containers: Seq<ContainerSpecView>,
    overhead: Map<Seq<char>, Seq<char>>,
) -> ResourceRequestsView {
    ResourceRequestsView {
        cpu_milli: requested_with(containers, overhead, "cpu"@),
        memory_milli: requested_with(containers, overhead, "memory"@),
        ephemeral_storage_milli: requested_with(containers, overhead, "ephemeral-storage"@),
        extended: Map::new(
            |n: Seq<char>|
                !resources::is_basic(n) && (names_resource(containers, n) || overhead.contains_key(
                    n,
                )),
            |n: Seq<char>| requested_with(containers, overhead, n),
        ),
    }
}

/// Every resource of `after` is that of `before` with what `requests` ask for
/// added, for the names among `seen`.
spec fn advanced(
    before: ResourceRequestsView,
    after: ResourceRequestsView,
    requests: Map<Seq<char>, Seq<char>>,
    seen: Seq<Seq<char>>,
) -> bool {
    &&& forall|n: Seq<char>| #[trigger]
        after.of(n) == if seen.contains(n) {
            resources::clamp(before.of(n) + quantity_of(requests, n))
        } else {
            before.of(n)
        }
    &&& forall|n: Seq<char>| #[trigger]
        after.extended.contains_key(n) <==> before.extended.contains_key(n) || (
        !resources::is_basic(n) && seen.contains(n))
}

/// Add what `requests` ask for to `total`.
fn accumulate_requests(total: &mut ResourceRequests, requests: &StringMap<String>)
    requires
        forall|n: Seq<char>| #[trigger]
            old(total)@.extended.contains_key(n) ==> !resources::is_basic(n),
    ensures
        forall|n: Seq<char>| #[trigger]
            final(total)@.of(n) == resources::clamp(old(total)@.of(n) + quantity_of(requests@, n)),
        forall|n: Seq<char>| #[trigger]
            final(total)@.extended.contains_key(n) <==> old(total)@.extended.contains_key(n) || (
            !resources::is_basic(n) && requests@.contains_key(n)),
{
    let ghost before = total@;
    let n: usize = requests.len();
    let ghost keys = order::sorted_keys(requests@.dom());
    let mut i: usize = 0;
    while i < n
        invariant
            n == requests@.len(),
            n == keys.len(),
            keys == order::sorted_keys(requests@.dom()),
            order::is_sorted(keys),
            keys.to_set() == requests@.dom(),
            i <= n,
            advanced(before, total@, requests@, keys.take(i as int)),
        decreases n - i,
    {
        let name = requests.key_at(i);
        let quantity = requests.value_at(i);
        let ghost prior = total@;
        accumulate_request(total, name.as_str(), quantity.as_str());
        proof {
            resources::lemma_take_next(keys, i as int);
            order::lemma_sorted_keys(keys);
            assert(keys[i as int] == name@);
            if keys.take(i as int).contains(name@) {
                let j = choose|j: int| 0 <= j < i && keys.take(i as int)[j] == name@;
                assert(keys[j] == keys[i as int]);
            }
            let next = keys.take(i + 1);
            assert forall|k: Seq<char>| #[trigger] total@.of(k) == if next.contains(k) {
                resources::clamp(before.of(k) + quantity_of(requests@, k))
            } else {
                before.of(k)
            } by {
                assert(prior.of(k) == if keys.take(i as int).contains(k) {
                    resources::clamp(before.of(k) + quantity_of(requests@, k))
                } else {
                    before.of(k)
                });
                assert(next.contains(k) == (keys.take(i as int).contains(k) || k == name@));
            }
            assert forall|k: Seq<char>| #[trigger] total@.extended.contains_key(k) <==>
                before.extended.contains_key(k) || (!resources::is_basic(k) && next.contains(k)) by {
                assert(prior.extended.contains_key(k) <==> before.extended.contains_key(k) || (
                !resources::is_basic(k) && keys.take(i as int).contains(k)));
                assert(next.contains(k) == (keys.take(i as int).contains(k) || k == name@));
            }
        }
        i += 1;
    }
    proof {
        assert(keys.take(n as int) =~= keys);
        assert forall|k: Seq<char>| #[trigger] keys.contains(k) == requests@.contains_key(k) by {
            assert(keys.contains(k) == keys.to_set().contains(k));
        }
        assert forall|k: Seq<char>| #[trigger] total@.of(k) == resources::clamp(
            before.of(k) + quantity_of(requests@, k),
        ) by {
            assert(keys.contains(k) == requests@.contains_key(k));
        }
        assert forall|k: Seq<char>| #[trigger] total@.extended.contains_key(k) <==>
            before.extended.contains_key(k) || (!resources::is_basic(k) && requests@.contains_key(
            k,
        )) by {
            assert(keys.contains(k) == requests@.contains_key(k));
        }
    }
}

/// What `of` says of each name, and the names of the extended resources, make
/// up the requests.
proof fn lemma_same_requests(a: ResourceRequestsView, b: ResourceRequestsView)
    requires
        forall|n: Seq<char>| #[trigger] a.of(n) == b.of(n),
        forall|n: Seq<char>| #[trigger]
            a.extended.contains_key(n) == b.extended.contains_key(n),
        forall|n: Seq<char>| #[trigger] a.extended.contains_key(n) ==> !resources::is_basic(n),
    ensures
        a == b,
{
    reveal_strlit("cpu");
    reveal_strlit("memory");
    reveal_strlit("ephemeral-storage");
    assert("cpu"@.len() == 3 && "memory"@.len() == 6 && "ephemeral-storage"@.len() == 17);
    assert(a.of("cpu"@) == b.of("cpu"@));
    assert(a.of("memory"@) == b.of("memory"@));
    assert(a.of("ephemeral-storage"@) == b.of("ephemeral-storage"@));
    assert forall|n: Seq<char>| a.extended.contains_key(n) implies a.extended[n]
        == b.extended[n] by {
        assert(a.of(n) == b.of(n));
        assert(b.extended.contains_key(n));
    }
    assert(a.extended =~= b.extended);
    assert(a =~= b);
}

/// The requests of `containers` together.
pub fn sum_container_requests(containers: &[ContainerSpec]) -> (total: ResourceRequests)
    ensures
        total@ == container_requests(containers.deep_view()),
{
    let ghost all = containers.deep_view();
    let mut total = ResourceRequests::default();
    let mut i: usize = 0;
    proof {
        assert(all.take(0) =~= Seq::empty());
    }
    while i < containers.len()
        invariant
            all == containers.deep_view(),
            i <= containers@.len(),
            forall|n: Seq<char>| #[trigger] total@.of(n) == requested(all.take(i as int), n),
            forall|n: Seq<char>| #[trigger]
                total@.extended.contains_key(n) <==> !resources::is_basic(n) && names_resource(
                    all.take(i as int),
                    n,
                ),
        decreases containers@.len() - i,
    {
        let ghost prior = total@;
        accumulate_requests(&mut total, &containers[i].resources.requests);
        proof {
            let here = all.take(i as int);
            let next = all.take(i + 1);
            assert(next.drop_last() =~= here);
            assert(next.last() == containers@[i as int]@);
            assert forall|n: Seq<char>| #[trigger] names_resource(next, n) == (names_resource(
                here,
                n,
            ) || containers@[i as int]@.resources.requests.contains_key(n)) by {
                if names_resource(here, n) {
                    let j = choose|j: int|
                        0 <= j < here.len() && (
                        #[trigger] here[j]).resources.requests.contains_key(n);
                    assert(next[j] == here[j]);
                }
                if containers@[i as int]@.resources.requests.contains_key(n) {
                    assert(next[i as int].resources.requests.contains_key(n));
                }
                if names_resource(next, n) {
                    let j = choose|j: int|
                        0 <= j < next.len() && (
                        #[trigger] next[j]).resources.requests.contains_key(n);
                    if j < i {
                        assert(here[j] == next[j]);
                    }
                }
            }
            assert forall|n: Seq<char>| #[trigger] total@.of(n) == requested(next, n) by {
                assert(prior.of(n) == requested(here, n));
            }
            assert forall|n: Seq<char>| #[trigger] total@.extended.contains_key(n) <==>
                !resources::is_basic(n) && names_resource(next, n) by {
                assert(prior.extended.contains_key(n) <==> !resources::is_basic(n)
                    && names_resource(here, n));
                assert(names_resource(next, n) == (names_resource(here, n)
                    || containers@[i as int]@.resources.requests.contains_key(n)));
            }
        }
        i += 1;
    }
    proof {
        assert(all.take(i as int) =~= all);
        let want = container_requests(all);
        lemma_container_requests(all);
        assert forall|n: Seq<char>| #[trigger] total@.extended.contains_key(n)
            == want.extended.contains_key(n) by {}
        assert forall|n: Seq<char>| #[trigger] total@.of(n) == want.of(n) by {}
        lemma_same_requests(total@, want);
    }
    total
}

proof fn lemma_unnamed(containers: Seq<ContainerSpecView>, name: Seq<char>)
    requires
        !names_resource(containers, name),
    ensures
        requested(containers, name) == 0,
    decreases containers.len(),
{
    if containers.len() > 0 {
        let front = containers.drop_last();
        if names_resource(front, name) {
            let j = choose|j: int|
                0 <= j < front.len() && (#[trigger] front[j]).resources.requests.contains_key(name);
            assert(containers[j].resources.requests.contains_key(name));
        }
        lemma_unnamed(front, name);
        assert(!containers[containers.len() - 1].resources.requests.contains_key(name));
    }
}

proof fn lemma_container_requests(containers: Seq<ContainerSpecView>)
    ensures
        forall|n: Seq<char>| #[trigger]
            container_requests(containers).of(n) == requested(containers, n),
{
    assert forall|n: Seq<char>| #[trigger] container_requests(containers).of(n) == requested(
        containers,
        n,
    ) by {
        if !resources::is_basic(n) && !names_resource(containers, n) {
            lemma_unnamed(containers, n);
        }
    }
}

/// The requests of a pod with `containers` and `overhead`.
pub fn total_with_overhead(containers: &[ContainerSpec], overhead: &StringMap<String>) -> (total:
    ResourceRequests)
    ensures
        total@ == pod_requests(containers.deep_view(), overhead@),
{
    let ghost all = containers.deep_view();
    let mut total = sum_container_requests(containers);
    let ghost prior = total@;
    accumulate_requests(&mut total, overhead);
    proof {
        let want = pod_requests(all, overhead@);
        lemma_container_requests(all);
        assert forall|n: Seq<char>| #[trigger] total@.extended.contains_key(n)
            == want.extended.contains_key(n) by {
            assert(prior.extended.contains_key(n) <==> !resources::is_basic(n) && names_resource(
                all,
                n,
            ));
        }
        assert forall|n: Seq<char>| #[trigger] total@.of(n) == want.of(n) by {
            assert(prior.of(n) == requested(all, n));
            if !resources::is_basic(n) && !want.extended.contains_key(n) {
                lemma_unnamed(all, n);
            }
        }
        lemma_same_requests(total@, want);
    }
    total
}

/// What containers and overhead ask for of `name`, counted exactly.
pub open spec fn exact_requested(containers: Seq<ContainerSpecView>, name: Seq<char>) -> int
    decreases containers.len(),
{
    if containers.len() == 0 {
        0
    } else {
        exact_requested(containers.drop_last(), name) + quantity_of(
            containers.last().resources.requests,
            name,
        )
    }
}

/// Sums over containers are exact as long as no partial sum leaves the range
/// of an `i64`.
pub proof fn law_container_sums_are_exact(containers: Seq<ContainerSpecView>, name: Seq<char>)
    requires
        forall|i: int|
            0 <= i <= containers.len() ==> i64::MIN <= #[trigger] exact_requested(
                containers.take(i),
                name,
            ) <= i64::MAX,
    ensures
        requested(containers, name) == exact_requested(containers, name),
        container_requests(containers).of(name) == exact_requested(containers, name),
    decreases containers.len(),
{
    lemma_container_requests(containers);
    assert(container_requests(containers).of(name) == requested(containers, name));
    if containers.len() > 0 {
        let front = containers.drop_last();
        assert forall|i: int| 0 <= i <= front.len() implies i64::MIN
            <= #[trigger] exact_requested(front.take(i), name) <= i64::MAX by {
            assert(front.take(i) =~= containers.take(i));
        }
        law_container_sums_are_exact(front, name);
        assert(containers.take(containers.len() as int) =~= containers);
    }
}

/// A pod's overhead comes on top of what its containers ask for.
pub proof fn law_overhead_adds_to_containers(
    containers: Seq<ContainerSpecView>,
    overhead: Map<Seq<char>, Seq<char>>,
    name: Seq<char>,
)
    requires
        i64::MIN <= container_requests(containers).of(name) + quantity_of(overhead, name)
            <= i64::MAX,
    ensures
        pod_requests(containers, overhead).of(name) == container_requests(containers).of(name)
            + quantity_of(overhead, name),
{
    lemma_container_requests(containers);
    assert(container_requests(containers).of(name) == requested(containers, name));
    if !resources::is_basic(name) && !names_resource(containers, name) {
        lemma_unnamed(containers, name);
    }
}

/// What is asked for under a name is the quantity that stands there; nothing
/// is asked for under any other.
pub proof fn law_quantity_under_a_name(requests: Map<Seq<char>, Seq<char>>, name: Seq<char>)
    ensures
        requests.contains_key(name) && i64::MIN <= quantity::quantity_milli(requests[name])
            <= i64::MAX ==> quantity_of(requests, name) == quantity::quantity_milli(
            requests[name],
        ),
        !requests.contains_key(name) ==> quantity_of(requests, name) == 0,
{
}

/// One container more adds what it asks for to each of the pod's figures, and
/// overhead comes on top of them.
pub proof fn law_each_container_adds_its_requests(
    containers: Seq<ContainerSpecView>,
    c: ContainerSpecView,
    overhead: Map<Seq<char>, Seq<char>>,
    name: Seq<char>,
)
    ensures
        ({
            let before = container_requests(containers);
            let after = container_requests(containers.push(c));
            let asked = c.resources.requests;
            &&& i64::MIN <= before.cpu_milli + quantity_of(asked, "cpu"@) <= i64::MAX
                ==> after.cpu_milli == before.cpu_milli + quantity_of(asked, "cpu"@)
            &&& i64::MIN <= before.memory_milli + quantity_of(asked, "memory"@) <= i64::MAX
                ==> after.memory_milli == before.memory_milli + quantity_of(asked, "memory"@)
            &&& i64::MIN <= before.ephemeral_storage_milli + quantity_of(
                asked,
                "ephemeral-storage"@,
            ) <= i64::MAX ==> after.ephemeral_storage_milli == before.ephemeral_storage_milli
                + quantity_of(asked, "ephemeral-storage"@)
            &&& name != "cpu"@ && name != "memory"@ && name != "ephemeral-storage"@
                && asked.contains_key(name) && !before.extended.contains_key(name)
                && (forall|i: int| 0 <= i < containers.len() ==> !(
            #[trigger] containers[i]).resources.requests.contains_key(name)) && quantity_of(
                asked,
                name,
            ) == quantity::quantity_milli(asked[name]) ==> after.extended.contains_key(name)
                && after.extended[name] == quantity::quantity_milli(asked[name])
        }),
        container_requests(Seq::empty()).cpu_milli == 0,
        container_requests(Seq::empty()).memory_milli == 0,
        container_requests(Seq::empty()).ephemeral_storage_milli == 0,
        ({
            let alone = container_requests(containers);
            let both = pod_requests(containers, overhead);
            &&& i64::MIN <= alone.cpu_milli + quantity_of(overhead, "cpu"@) <= i64::MAX
                ==> both.cpu_milli == alone.cpu_milli + quantity_of(overhead, "cpu"@)
            &&& i64::MIN <= alone.memory_milli + quantity_of(overhead, "memory"@) <= i64::MAX
                ==> both.memory_milli == alone.memory_milli + quantity_of(overhead, "memory"@)
            &&& i64::MIN <= alone.ephemeral_storage_milli + quantity_of(
                overhead,
                "ephemeral-storage"@,
            ) <= i64::MAX ==> both.ephemeral_storage_milli == alone.ephemeral_storage_milli
                + quantity_of(overhead, "ephemeral-storage"@)
        }),
{
    let all = containers.push(c);
    assert(all.drop_last() =~= containers);
    if forall|i: int| 0 <= i < containers.len() ==> !(
    #[trigger] containers[i]).resources.requests.contains_key(name) {
        lemma_unnamed(containers, name);
    }
    if c.resources.requests.contains_key(name) {
        assert(all[containers.len() as int] == c);
        assert(names_resource(all, name));
    }
}

proof fn lemma_port_claims(ports: Seq<ContainerPortSpecView>, c: HostPortClaimView)
    ensures
        port_claims(ports).contains(c) <==> exists|j: int|
            0 <= j < ports.len() && claims_host_port(#[trigger] ports[j]) && claim_of(ports[j])
                == c,
    decreases ports.len(),
{
    if ports.len() > 0 {
        let front = ports.drop_last();
        let last = ports.last();
        lemma_port_claims(front, c);
        let before = port_claims(front);
        if claims_host_port(last) {
            let all = before.push(claim_of(last));
            if before.contains(c) {
                let i = choose|i: int| 0 <= i < before.len() && before[i] == c;
                assert(all[i] == c);
            }
            if claim_of(last) == c {
                assert(all[before.len() as int] == c);
                assert(ports[ports.len() - 1] == last);
            }
            if all.contains(c) {
                let i = choose|i: int| 0 <= i < all.len() && all[i] == c;
                if i < before.len() {
                    assert(before[i] == c);
                }
            }
        }
        if exists|j: int|
            0 <= j < front.len() && claims_host_port(#[trigger] front[j]) && claim_of(front[j])
                == c {
            let j = choose|j: int|
                0 <= j < front.len() && claims_host_port(#[trigger] front[j]) && claim_of(front[j])
                    == c;
            assert(ports[j] == front[j]);
        }
        if exists|j: int|
            0 <= j < ports.len() && claims_host_port(#[trigger] ports[j]) && claim_of(ports[j])
                == c {
            let j = choose|j: int|
                0 <= j < ports.len() && claims_host_port(#[trigger] ports[j]) && claim_of(ports[j])
                    == c;
            if j < front.len() {
                assert(front[j] == ports[j]);
            }
        }
    }
}

proof fn lemma_container_claims(containers: Seq<ContainerSpecView>, c: HostPortClaimView)
    ensures
        container_claims(containers).contains(c) <==> exists|i: int|
            0 <= i < containers.len() && port_claims(
                ports_of(#[trigger] containers[i]),
            ).contains(c),
    decreases containers.len(),
{
    if containers.len() > 0 {
        let front = containers.drop_last();
        let last = containers.last();
        lemma_container_claims(front, c);
        let a = container_claims(front);
        let b = port_claims(ports_of(last));
        if a.contains(c) {
            let k = choose|k: int| 0 <= k < a.len() && a[k] == c;
            assert((a + b)[k] == c);
            let i = choose|i: int|
                0 <= i < front.len() && port_claims(ports_of(#[trigger] front[i])).contains(c);
            assert(containers[i] == front[i]);
        }
        if b.contains(c) {
            let k = choose|k: int| 0 <= k < b.len() && b[k] == c;
            assert((a + b)[a.len() + k] == c);
            assert(containers[containers.len() - 1] == last);
        }
        if (a + b).contains(c) {
            let k = choose|k: int| 0 <= k < (a + b).len() && (a + b)[k] == c;
            if k < a.len() {
                assert(a[k] == c);
            } else {
                assert(b[k - a.len()] == c);
            }
        }
        if exists|i: int|
            0 <= i < containers.len() && port_claims(
                ports_of(#[trigger] containers[i]),
            ).contains(c) {
            let i = choose|i: int|
                0 <= i < containers.len() && port_claims(
                    ports_of(#[trigger] containers[i]),
                ).contains(c);
            if i < front.len() {
                assert(front[i] == containers[i]);
            }
        }
    }
}

/// A port of a container that names a port of the host, from 1 to 65535,
/// claims that port, at its address and for its protocol in upper case, which
/// is `TCP` where it names none.
pub proof fn law_host_port_is_claimed(containers: Seq<ContainerSpecView>, i: int, j: int)
    requires
        0 <= i < containers.len(),
        containers[i].ports is Some,
        0 <= j < containers[i].ports->0.len(),
        containers[i].ports->0[j].host_port is Some,
        1 <= containers[i].ports->0[j].host_port->0 <= 65535,
    ensures
        ({
            let port = containers[i].ports->0[j];
            container_claims(containers).contains(
                HostPortClaimView {
                    host_port: port.host_port->0 as u16,
                    host_ip: port.host_ip,
                    protocol: if port.protocol is Some {
                        text::uppercase(port.protocol->0)
                    } else {
                        "TCP"@
                    },
                },
            )
        }),
{
    let port = containers[i].ports->0[j];
    reveal_strlit("TCP");
    assert(text::uppercase("TCP"@) =~= "TCP"@);
    let c = claim_of(port);
    lemma_port_claims(containers[i].ports->0, c);
    assert(claims_host_port(containers[i].ports->0[j]));
    assert(port_claims(ports_of(containers[i])).contains(c));
    lemma_container_claims(containers, c);
}

/// Nothing else claims a port of the host: every claim is that of a container's
/// port which names a positive one.
pub proof fn law_claims_are_those_of_containers(
    containers: Seq<ContainerSpecView>,
    c: HostPortClaimView,
)
    requires
        container_claims(containers).contains(c),
    ensures
        exists|i: int, j: int|
            #![trigger containers[i].ports->0[j]]
            0 <= i < containers.len() && containers[i].ports is Some && 0 <= j
                < containers[i].ports->0.len() && containers[i].ports->0[j].host_port is Some
                && containers[i].ports->0[j].host_port->0 > 0 && c.host_ip
                == containers[i].ports->0[j].host_ip,
{
    lemma_container_claims(containers, c);
    let i = choose|i: int|
        0 <= i < containers.len() && port_claims(ports_of(#[trigger] containers[i])).contains(c);
    let ports = ports_of(containers[i]);
    lemma_port_claims(ports, c);
    let j = choose|j: int|
        0 <= j < ports.len() && claims_host_port(#[trigger] ports[j]) && claim_of(ports[j]) == c;
    assert(containers[i].ports is Some);
    assert(containers[i].ports->0[j] == ports[j]);
}

} // verus!
