//! Ports that pods claim on their node.

use crate::duplicate::Duplicate;
use crate::order::same_text;
use vstd::prelude::*;

verus! {

/// A port that a pod claims on the node it runs on.
#[derive(Debug, PartialEq, Eq)]
pub struct HostPortClaim {
    pub host_port: u16,
    /// The address; empty, like `0.0.0.0`, for every address of the node.
    pub host_ip: String,
    /// In upper case; `TCP` where the pod names none.
    pub protocol: String,
}

/// Model of [`HostPortClaim`].
#[verifier::ext_equal]
pub struct HostPortClaimView {
    pub host_port: u16,
    pub host_ip: Seq<char>,
    pub protocol: Seq<char>,
}

impl View for HostPortClaim {
    type V = HostPortClaimView;

    open spec fn view(&self) -> HostPortClaimView {
        HostPortClaimView {
            host_port: self.host_port,
            host_ip: self.host_ip@,
            protocol: self.protocol@,
        }
    }
}

impl DeepView for HostPortClaim {
    type V = HostPortClaimView;

    open spec fn deep_view(&self) -> HostPortClaimView {
        self@
    }
}

impl Duplicate for HostPortClaim {
    fn duplicate(&self) -> (copy: Self) {
        HostPortClaim {
            host_port: self.host_port,
            host_ip: self.host_ip.duplicate(),
            protocol: self.protocol.duplicate(),
        }
    }
}

impl Clone for HostPortClaim {
    fn clone(&self) -> (copy: Self)
        ensures
            copy@ == self@,
    {
        self.duplicate()
    }
}

/// `ip` stands for every address of the node.
pub open spec fn is_wildcard(ip: Seq<char>) -> bool {
    ip.len() == 0 || ip == "0.0.0.0"@
}

/// Two claims that cannot both be met on one node: the same port and
/// protocol, on the same address or with a wildcard on either side.
pub open spec fn conflict(a: HostPortClaimView, b: HostPortClaimView) -> bool {
    &&& a.host_port == b.host_port
    &&& a.protocol == b.protocol
    &&& a.host_ip == b.host_ip || is_wildcard(a.host_ip) || is_wildcard(b.host_ip)
}

/// No claim of the pod conflicts with one on the node.
pub open spec fn ports_free(
    node_ports: Seq<HostPortClaimView>,
    pod_ports: Seq<HostPortClaimView>,
) -> bool {
    forall|i: int, j: int|
        #![trigger node_ports[i], pod_ports[j]]
        0 <= i < node_ports.len() && 0 <= j < pod_ports.len() ==> !conflict(
            node_ports[i],
            pod_ports[j],
        )
}

/// Whether `ip` stands for every address of the node.
pub fn is_wildcard_host_ip(ip: &str) -> (b: bool)
    ensures
        b == is_wildcard(ip@),
{
    ip.is_empty() || same_text(ip, "0.0.0.0")
}

/// Whether two claims conflict.
pub fn host_ports_conflict(a: &HostPortClaim, b: &HostPortClaim) -> (r: bool)
    ensures
        r == conflict(a@, b@),
{
    a.host_port == b.host_port && same_text(a.protocol.as_str(), b.protocol.as_str()) && (
    same_text(a.host_ip.as_str(), b.host_ip.as_str()) || is_wildcard_host_ip(a.host_ip.as_str())
        || is_wildcard_host_ip(b.host_ip.as_str()))
}

/// Whether none of `pod_ports` conflicts with one of `node_ports`.
pub fn host_ports_fit(node_ports: &[HostPortClaim], pod_ports: &[HostPortClaim]) -> (b: bool)
    ensures
        b == ports_free(node_ports.deep_view(), pod_ports.deep_view()),
{
    let ghost have = node_ports.deep_view();
    let ghost want = pod_ports.deep_view();
    let mut j: usize = 0;
    while j < pod_ports.len()
        invariant
            have == node_ports.deep_view(),
            want == pod_ports.deep_view(),
            j <= pod_ports@.len(),
            forall|i: int, k: int|
                #![trigger have[i], want[k]]
                0 <= i < have.len() && 0 <= k < j ==> !conflict(have[i], want[k]),
        decreases pod_ports@.len() - j,
    {
        let mut i: usize = 0;
        while i < node_ports.len()
            invariant
                have == node_ports.deep_view(),
                want == pod_ports.deep_view(),
                j < pod_ports@.len(),
                i <= node_ports@.len(),
                forall|k: int| 0 <= k < i ==> !conflict(#[trigger] have[k], want[j as int]),
            decreases node_ports@.len() - i,
        {
            if host_ports_conflict(&node_ports[i], &pod_ports[j]) {
                proof {
                    assert(conflict(have[i as int], want[j as int]));
                }
                return false;
            }
            i += 1;
        }
        j += 1;
    }
    true
}

/// Conflict does not depend on which claim came first.
pub proof fn law_conflict_is_symmetric(a: HostPortClaimView, b: HostPortClaimView)
    ensures
        conflict(a, b) == conflict(b, a),
{
}

/// A claim on every address conflicts with any claim on the same port and
/// protocol.
pub proof fn law_wildcard_conflicts_with_every_address(
    a: HostPortClaimView,
    b: HostPortClaimView,
)
    requires
        a.host_port == b.host_port,
        a.protocol == b.protocol,
        is_wildcard(a.host_ip),
    ensures
        conflict(a, b),
        conflict(b, a),
{
}

/// A pod that claims no port fits beside any claims.
pub proof fn law_no_claims_always_fit(node_ports: Seq<HostPortClaimView>)
    ensures
        ports_free(node_ports, Seq::empty()),
{
}

/// Claims on different ports, or for different protocols, never conflict.
pub proof fn law_other_ports_and_protocols_never_conflict(
    a: HostPortClaimView,
    b: HostPortClaimView,
)
    requires
        a.host_port != b.host_port || a.protocol != b.protocol,
    ensures
        !conflict(a, b),
{
}

/// Two claims on one port and protocol conflict where they name the same
/// address, or where either means every address: by naming none, or
/// `0.0.0.0`. Two different addresses live side by side.
pub proof fn law_addresses_of_one_port(a: HostPortClaimView, b: HostPortClaimView)
    requires
        a.host_port == b.host_port,
        a.protocol == b.protocol,
    ensures
        a.host_ip == b.host_ip ==> conflict(a, b),
        a.host_ip.len() == 0 || b.host_ip.len() == 0 ==> conflict(a, b),
        a.host_ip == "0.0.0.0"@ || b.host_ip == "0.0.0.0"@ ==> conflict(a, b),
        a.host_ip != b.host_ip && a.host_ip.len() > 0 && b.host_ip.len() > 0 && a.host_ip
            != "0.0.0.0"@ && b.host_ip != "0.0.0.0"@ ==> !conflict(a, b),
{
}

/// One conflict among all claims is enough to keep a pod off, and nothing less
/// is.
pub proof fn law_one_conflict_is_enough(
    node_ports: Seq<HostPortClaimView>,
    pod_ports: Seq<HostPortClaimView>,
)
    ensures
        ports_free(node_ports, pod_ports) <==> forall|a: HostPortClaimView, b: HostPortClaimView|
            #![trigger node_ports.contains(a), pod_ports.contains(b)]
            node_ports.contains(a) && pod_ports.contains(b) ==> !conflict(a, b),
{
    if ports_free(node_ports, pod_ports) {
        assert forall|a: HostPortClaimView, b: HostPortClaimView|
            #![trigger node_ports.contains(a), pod_ports.contains(b)]
            node_ports.contains(a) && pod_ports.contains(b) implies !conflict(a, b) by {
            let i = choose|i: int| 0 <= i < node_ports.len() && node_ports[i] == a;
            let j = choose|j: int| 0 <= j < pod_ports.len() && pod_ports[j] == b;
            assert(!conflict(node_ports[i], pod_ports[j]));
        }
    } else {
        let (i, j) = choose|i: int, j: int|
            #![trigger node_ports[i], pod_ports[j]]
            0 <= i < node_ports.len() && 0 <= j < pod_ports.len() && conflict(
                node_ports[i],
                pod_ports[j],
            );
        assert(node_ports.contains(node_ports[i]) && pod_ports.contains(pod_ports[j]));
    }
}

} // verus!
