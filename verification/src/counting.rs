//! How many volumes claims come to.

use crate::booking;
use crate::order;
use crate::pod;
use crate::resources;
use crate::tally::NodeTallyView;
use crate::volumes;
use vstd::prelude::*;

verus! {

/// Those of the claims `names` that have the driver `driver`.
pub open spec fn claims_of_driver(
    t: NodeTallyView,
    namespace: Seq<char>,
    names: Seq<Seq<char>>,
    driver: Seq<char>,
) -> Set<Seq<char>> {
    Set::new(|n: Seq<char>| names.contains(n) && t.driver_of(namespace, n) == Some(driver))
}

/// Those of the claims `names` that have a driver.
pub open spec fn claims_with_driver(
    t: NodeTallyView,
    namespace: Seq<char>,
    names: Seq<Seq<char>>,
) -> Set<Seq<char>> {
    Set::new(|n: Seq<char>| names.contains(n) && t.driver_of(namespace, n) is Some)
}

/// Those of the claims `names` that have one of the drivers `drivers`.
spec fn claims_of_drivers(
    t: NodeTallyView,
    namespace: Seq<char>,
    names: Seq<Seq<char>>,
    drivers: Seq<Seq<char>>,
) -> Set<Seq<char>> {
    Set::new(
        |n: Seq<char>|
            {
                &&& names.contains(n)
                &&& t.driver_of(namespace, n) is Some
                &&& drivers.contains(t.driver_of(namespace, n)->0)
            },
    )
}

/// How many of the claims each driver has.
spec fn share(t: NodeTallyView, namespace: Seq<char>, names: Seq<Seq<char>>) -> spec_fn(
    Seq<char>,
) -> int {
    |d: Seq<char>| claims_of_driver(t, namespace, names, d).len() as int
}

/// What `counts` holds of each driver.
pub open spec fn count_in(counts: Map<Seq<char>, i64>) -> spec_fn(Seq<char>) -> int {
    |d: Seq<char>| counts[d] as int
}

/// Finitely many claims.
proof fn lemma_claims_finite(names: Seq<Seq<char>>, some: Set<Seq<char>>)
    requires
        forall|n: Seq<char>| #[trigger] some.contains(n) ==> names.contains(n),
    ensures
        some.finite(),
        some.len() <= names.to_set().len(),
{
    assert(some.subset_of(names.to_set()));
    vstd::seq_lib::seq_to_set_is_finite(names);
    vstd::set_lib::lemma_len_subset(some, names.to_set());
}

/// Each claim counts once for its driver.
proof fn lemma_count(
    t: NodeTallyView,
    namespace: Seq<char>,
    names: Seq<Seq<char>>,
    driver: Seq<char>,
)
    ensures
        volumes::volumes_of(
            t.drivers_of(namespace, volumes::distinct(names)),
            driver,
        ) == claims_of_driver(t, namespace, names, driver).len(),
    decreases names.len(),
{
    let all = claims_of_driver(t, namespace, names, driver);
    if names.len() == 0 {
        assert(all =~= Set::<Seq<char>>::empty());
        assert(t.drivers_of(namespace, volumes::distinct(names)).len() == 0);
    } else {
        let front = names.drop_last();
        let last = names.last();
        let before = claims_of_driver(t, namespace, front, driver);
        lemma_count(t, namespace, front, driver);
        lemma_claims_finite(front, before);
        assert forall|n: Seq<char>| names.contains(n) == (front.contains(n) || n == last) by {
            crate::listing::lemma_push_key(front, last, n);
            assert(front.push(last) =~= names);
        }
        let seen = volumes::distinct(front);
        let now = t.drivers_of(namespace, seen.push(last));
        assert(now.drop_last() =~= t.drivers_of(namespace, seen));
        assert(now.last() == t.driver_of(namespace, last));
        if front.contains(last) {
            assert(all =~= before);
        } else if t.driver_of(namespace, last) == Some(driver) {
            assert(all =~= before.insert(last));
        } else {
            assert(all =~= before);
        }
    }
}

proof fn lemma_drivers_finite(drivers: Seq<Option<Seq<char>>>)
    ensures
        volumes::volumes_by_driver(drivers).dom().finite(),
    decreases drivers.len(),
{
    let all = volumes::volumes_by_driver(drivers).dom();
    if drivers.len() == 0 {
        assert(all =~= Set::<Seq<char>>::empty());
    } else {
        let before = volumes::volumes_by_driver(drivers.drop_last()).dom();
        lemma_drivers_finite(drivers.drop_last());
        let more = match drivers.last() {
            Some(d) => before.insert(d),
            None => before,
        };
        assert(all.subset_of(more)) by {
            assert forall|d: Seq<char>| all.contains(d) implies more.contains(d) by {
                assert(volumes::volumes_of(drivers, d) > 0);
            }
        }
        vstd::set_lib::lemma_len_subset(all, more);
    }
}

proof fn lemma_shares_add_up(
    t: NodeTallyView,
    namespace: Seq<char>,
    names: Seq<Seq<char>>,
    drivers: Seq<Seq<char>>,
)
    requires
        drivers.no_duplicates(),
    ensures
        booking::sum_over(share(t, namespace, names), drivers) == claims_of_drivers(
            t,
            namespace,
            names,
            drivers,
        ).len(),
    decreases drivers.len(),
{
    let all = claims_of_drivers(t, namespace, names, drivers);
    if drivers.len() == 0 {
        assert(all =~= Set::<Seq<char>>::empty());
    } else {
        let front = drivers.drop_last();
        let last = drivers.last();
        lemma_shares_add_up(t, namespace, names, front);
        let before = claims_of_drivers(t, namespace, names, front);
        let more = claims_of_driver(t, namespace, names, last);
        lemma_claims_finite(names, before);
        lemma_claims_finite(names, more);
        assert forall|d: Seq<char>| drivers.contains(d) == (front.contains(d) || d == last) by {
            crate::listing::lemma_push_key(front, last, d);
            assert(front.push(last) =~= drivers);
        }
        assert(all =~= before + more);
        assert(before.disjoint(more)) by {
            if front.contains(last) {
                let i = choose|i: int| 0 <= i < front.len() && front[i] == last;
                assert(drivers[i] == drivers[drivers.len() - 1]);
            }
        }
        vstd::set_lib::lemma_set_disjoint_lens(before, more);
    }
}

/// A driver's count is the number of different claims that it has, as far as
/// an `i64` holds it; only a driver that has one is counted.
pub proof fn law_count_is_of_different_claims(
    t: NodeTallyView,
    namespace: Seq<char>,
    names: Seq<Seq<char>>,
    driver: Seq<char>,
)
    ensures
        ({
            let counts = t.volume_counts(namespace, names);
            let claims = claims_of_driver(t, namespace, names, driver);
            &&& counts.contains_key(driver) == (claims.len() > 0)
            &&& counts.contains_key(driver) ==> counts[driver] >= 1 && counts[driver]
                == resources::clamp(claims.len() as int)
        }),
{
    lemma_count(t, namespace, names, driver);
}

/// A claim that is not known, or known in another namespace alone, does not
/// count.
pub proof fn law_unknown_claims_do_not_count(
    t: NodeTallyView,
    namespace: Seq<char>,
    names: Seq<Seq<char>>,
    name: Seq<char>,
)
    requires
        !t.pvcs.contains_key(pod::qualified(namespace, name)),
    ensures
        t.volume_counts(namespace, names.push(name)) == t.volume_counts(namespace, names),
{
    let more = names.push(name);
    assert forall|d: Seq<char>|
        volumes::volumes_of(t.drivers_of(namespace, volumes::distinct(more)), d)
            == #[trigger] volumes::volumes_of(
            t.drivers_of(namespace, volumes::distinct(names)),
            d,
        ) by {
        lemma_count(t, namespace, more, d);
        lemma_count(t, namespace, names, d);
        assert forall|n: Seq<char>| more.contains(n) == (names.contains(n) || n == name) by {
            crate::listing::lemma_push_key(names, name, n);
        }
        assert(claims_of_driver(t, namespace, more, d) =~= claims_of_driver(
            t,
            namespace,
            names,
            d,
        ));
    }
    assert(t.volume_counts(namespace, more) =~= t.volume_counts(namespace, names));
}

/// Neither the order of claims nor that one occurs twice makes a difference to
/// the counts.
pub proof fn law_counts_ignore_order_and_repetition(
    t: NodeTallyView,
    namespace: Seq<char>,
    a: Seq<Seq<char>>,
    b: Seq<Seq<char>>,
)
    requires
        a.to_set() == b.to_set(),
    ensures
        t.volume_counts(namespace, a) == t.volume_counts(namespace, b),
{
    assert forall|n: Seq<char>| #[trigger] a.contains(n) == b.contains(n) by {
        assert(a.to_set().contains(n) == a.contains(n));
        assert(b.to_set().contains(n) == b.contains(n));
    }
    let x = t.volume_counts(namespace, a);
    let y = t.volume_counts(namespace, b);
    assert forall|d: Seq<char>|
        volumes::volumes_of(t.drivers_of(namespace, volumes::distinct(a)), d)
            == #[trigger] volumes::volumes_of(t.drivers_of(namespace, volumes::distinct(b)), d) by {
        lemma_count(t, namespace, a, d);
        lemma_count(t, namespace, b, d);
        assert(claims_of_driver(t, namespace, a, d) =~= claims_of_driver(t, namespace, b, d));
    }
    assert(x =~= y);
}

/// The counts of all drivers add up to the number of different claims that
/// have a driver, where an `i64` holds it.
pub proof fn law_counts_add_up(t: NodeTallyView, namespace: Seq<char>, names: Seq<Seq<char>>)
    requires
        claims_with_driver(t, namespace, names).len() <= i64::MAX,
    ensures
        ({
            let counts = t.volume_counts(namespace, names);
            &&& counts.dom().finite()
            &&& booking::sum_over(count_in(counts), order::sorted_keys(counts.dom()))
                == claims_with_driver(t, namespace, names).len()
        }),
{
    let counts = t.volume_counts(namespace, names);
    let drivers = order::sorted_keys(counts.dom());
    lemma_drivers_finite(t.drivers_of(namespace, volumes::distinct(names)));
    order::lemma_sorted_keys_of_set(counts.dom());
    order::lemma_sorted_keys(drivers);
    lemma_shares_add_up(t, namespace, names, drivers);
    let all = claims_with_driver(t, namespace, names);
    assert forall|i: int| 0 <= i < drivers.len() implies count_in(counts)(#[trigger] drivers[i])
        == share(t, namespace, names)(drivers[i]) by {
        assert(drivers.to_set().contains(drivers[i]));
        law_count_is_of_different_claims(t, namespace, names, drivers[i]);
        lemma_claims_finite(names, all);
        let mine = claims_of_driver(t, namespace, names, drivers[i]);
        assert(mine.subset_of(all));
        vstd::set_lib::lemma_len_subset(mine, all);
    }
    booking::lemma_sum_same(count_in(counts), share(t, namespace, names), drivers);
    assert(claims_of_drivers(t, namespace, names, drivers) =~= all) by {
        assert forall|n: Seq<char>| all.contains(n) implies drivers.contains(
            t.driver_of(namespace, n)->0,
        ) by {
            let d = t.driver_of(namespace, n)->0;
            let mine = claims_of_driver(t, namespace, names, d);
            lemma_claims_finite(names, mine);
            assert(mine.contains(n));
            law_count_is_of_different_claims(t, namespace, names, d);
            assert(mine.len() > 0) by {
                if mine.len() == 0 {
                    mine.lemma_len0_is_empty();
                }
            }
            assert(drivers.to_set().contains(d));
        }
    }
}

} // verus!
