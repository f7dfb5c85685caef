//! Volumes that CSI drivers attach to nodes.

use crate::order;
use crate::string_map::{StringMap, StringSet};
use vstd::prelude::*;

verus! {

/// No driver is asked for more volumes than the node has headroom for. A
/// driver without headroom entry has no known limit.
pub open spec fn within_headroom(
    headroom: Map<Seq<char>, i64>,
    wanted: Map<Seq<char>, i64>,
) -> bool {
    forall|driver: Seq<char>| #[trigger]
        wanted.contains_key(driver) && headroom.contains_key(driver) ==> wanted[driver]
            <= headroom[driver]
}

/// Whether the node has room for the pod's volumes: for each driver that the
/// pod needs and the node knows a limit of.
#[verifier::loop_isolation(false)]
pub fn csi_volume_limits_fit(
    csi_driver_headroom: &StringMap<i64>,
    csi_volume_counts: &StringMap<i64>,
) -> (b: bool)
    ensures
        b == within_headroom(csi_driver_headroom@, csi_volume_counts@),
{
    let n: usize = csi_volume_counts.len();
    let ghost keys = order::sorted_keys(csi_volume_counts@.dom());
    let mut i: usize = 0;
    while i < n
        invariant
            i <= n,
            forall|j: int|
                0 <= j < i && csi_driver_headroom@.contains_key(#[trigger] keys[j])
                    ==> csi_volume_counts@[keys[j]] <= csi_driver_headroom@[keys[j]],
        decreases n - i,
    {
        let driver = csi_volume_counts.key_at(i);
        let want: i64 = *csi_volume_counts.value_at(i);
        if let Some(headroom) = csi_driver_headroom.get(driver.as_str()) {
            if want > *headroom {
                proof {
                    assert(csi_volume_counts@.contains_key(driver@));
                }
                return false;
            }
        }
        i += 1;
    }
    proof {
        assert forall|driver: Seq<char>| #[trigger]
            csi_volume_counts@.contains_key(driver) && csi_driver_headroom@.contains_key(
                driver,
            ) implies csi_volume_counts@[driver] <= csi_driver_headroom@[driver] by {
            assert(keys.to_set().contains(driver));
            let j = choose|j: int| 0 <= j < keys.len() && keys[j] == driver;
            assert(csi_driver_headroom@.contains_key(keys[j]));
        }
    }
    true
}

/// Every driver that has yet to provide a volume runs on the node.
pub open spec fn drivers_registered(
    registered: Set<Seq<char>>,
    drivers: Seq<Seq<char>>,
) -> bool {
    forall|i: int| 0 <= i < drivers.len() ==> registered.contains(#[trigger] drivers[i])
}

/// Whether every driver that has yet to provide a volume for the pod runs on
/// the node. A driver that runs nowhere shuts out every node.
pub fn csi_topology_fit(
    node_registered_drivers: &StringSet,
    unbound_csi_pvc_drivers: &[String],
) -> (b: bool)
    ensures
        b == drivers_registered(
            node_registered_drivers@,
            unbound_csi_pvc_drivers.deep_view(),
        ),
{
    let mut i: usize = 0;
    while i < unbound_csi_pvc_drivers.len()
        invariant
            i <= unbound_csi_pvc_drivers@.len(),
            forall|j: int|
                0 <= j < i ==> node_registered_drivers@.contains(
                    #[trigger] unbound_csi_pvc_drivers.deep_view()[j],
                ),
        decreases unbound_csi_pvc_drivers@.len() - i,
    {
        if !node_registered_drivers.contains(unbound_csi_pvc_drivers[i].as_str()) {
            proof {
                assert(!node_registered_drivers@.contains(
                    unbound_csi_pvc_drivers.deep_view()[i as int],
                ));
            }
            return false;
        }
        i += 1;
    }
    true
}

/// What is left of a limit when `attached` volumes are taken off; clamped.
pub open spec fn headroom(
    limits: Map<Seq<char>, i64>,
    attached: Map<Seq<char>, i64>,
) -> Map<Seq<char>, i64> {
    Map::new(
        |driver: Seq<char>| limits.contains_key(driver),
        |driver: Seq<char>|
            crate::resources::clamp(limits[driver] - crate::resources::amount(attached, driver)),
    )
}

/// The headroom of each driver that the node has a limit for.
#[verifier::loop_isolation(false)]
pub fn net_csi_headroom(limits: &StringMap<i64>, attached: &StringMap<i64>) -> (r: StringMap<i64>)
    ensures
        r@ == headroom(limits@, attached@),
{
    let n: usize = limits.len();
    let ghost keys = order::sorted_keys(limits@.dom());
    let mut r: StringMap<i64> = StringMap::new();
    let mut i: usize = 0;
    while i < n
        invariant
            i <= n,
            forall|k: Seq<char>| #[trigger]
                r@.contains_key(k) <==> keys.take(i as int).contains(k),
            forall|k: Seq<char>|
                r@.contains_key(k) ==> #[trigger] r@[k] == headroom(limits@, attached@)[k],
        decreases n - i,
    {
        let driver = limits.key_at(i);
        let limit: i64 = *limits.value_at(i);
        let used: i64 = crate::resources::amount_in(attached, driver.as_str());
        proof {
            crate::resources::lemma_take_next(keys, i as int);
        }
        r.insert(driver.clone(), crate::resources::clamped_difference(limit, used));
        i += 1;
    }
    proof {
        assert(keys.take(n as int) =~= keys);
        assert forall|k: Seq<char>| keys.contains(k) == limits@.contains_key(k) by {
            assert(keys.contains(k) == keys.to_set().contains(k));
        }
        assert(r@ =~= headroom(limits@, attached@));
    }
    r
}

/// A pod without CSI volumes is within any headroom.
pub proof fn law_no_volumes_always_fit(room: Map<Seq<char>, i64>)
    ensures
        within_headroom(room, Map::empty()),
{
}

/// A driver without a known limit never shuts out a node.
pub proof fn law_unknown_limit_is_no_limit(wanted: Map<Seq<char>, i64>)
    ensures
        within_headroom(Map::empty(), wanted),
{
}

/// A driver that runs on no node leaves none to place the pod on.
pub proof fn law_unregistered_driver_refuses(
    registered: Set<Seq<char>>,
    drivers: Seq<Seq<char>>,
    i: int,
)
    requires
        0 <= i < drivers.len(),
        !registered.contains(drivers[i]),
    ensures
        !drivers_registered(registered, drivers),
{
}

/// What is left of a driver's limit is the limit less what is attached, where
/// that is an `i64`; a driver that states no limit has none.
pub proof fn law_headroom_is_what_is_left(
    limits: Map<Seq<char>, i64>,
    attached: Map<Seq<char>, i64>,
    driver: Seq<char>,
)
    ensures
        headroom(limits, attached).contains_key(driver) == limits.contains_key(driver),
        limits.contains_key(driver) && !attached.contains_key(driver) ==> headroom(
            limits,
            attached,
        )[driver] == limits[driver],
        limits.contains_key(driver) && attached.contains_key(driver) && i64::MIN
            <= limits[driver] - attached[driver] <= i64::MAX ==> headroom(limits, attached)[driver]
            == limits[driver] - attached[driver],
{
}

/// A pod that wants more volumes of a driver than there is headroom for is
/// refused; one that wants no more of any is not.
pub proof fn law_more_volumes_than_headroom_are_refused(
    room: Map<Seq<char>, i64>,
    wanted: Map<Seq<char>, i64>,
    driver: Seq<char>,
)
    ensures
        room.contains_key(driver) && wanted.contains_key(driver) && wanted[driver] > room[driver]
            ==> !within_headroom(room, wanted),
        within_headroom(room, wanted) && (!room.contains_key(driver) || room[driver] >= 1)
            ==> within_headroom(room, wanted.insert(driver, 1)),
        within_headroom(room, wanted) ==> within_headroom(room.remove(driver), wanted),
{
}

/// One more volume of a driver is within its limit on a node exactly while
/// fewer are attached than the limit allows.
pub proof fn law_limit_counts_attached_volumes(driver: Seq<char>, limit: i64, attached: i64)
    requires
        0 <= attached,
        0 <= limit,
    ensures
        within_headroom(
            headroom(
                Map::<Seq<char>, i64>::empty().insert(driver, limit),
                Map::<Seq<char>, i64>::empty().insert(driver, attached),
            ),
            Map::<Seq<char>, i64>::empty().insert(driver, 1),
        ) == (attached + 1 <= limit),
{
    let limits = Map::<Seq<char>, i64>::empty().insert(driver, limit);
    let used = Map::<Seq<char>, i64>::empty().insert(driver, attached);
    let wanted = Map::<Seq<char>, i64>::empty().insert(driver, 1i64);
    let room = headroom(limits, used);
    assert(room.contains_key(driver) && room[driver] == limit - attached);
    assert(wanted.contains_key(driver) && wanted[driver] == 1);
}

/// Where every driver runs on the node, the pod's volumes can be provided
/// there.
pub proof fn law_registered_drivers_admit(registered: Set<Seq<char>>, drivers: Seq<Seq<char>>)
    requires
        forall|d: Seq<char>| #[trigger] drivers.contains(d) ==> registered.contains(d),
    ensures
        drivers_registered(registered, drivers),
{
    assert forall|i: int| 0 <= i < drivers.len() implies registered.contains(
        #[trigger] drivers[i],
    ) by {
        assert(drivers.contains(drivers[i]));
    }
}

} // verus!
