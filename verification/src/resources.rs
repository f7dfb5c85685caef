//! Amounts of resources: what pods ask for and what nodes have.

use crate::duplicate::Duplicate;
use crate::order::{self, same_text};
use crate::quantity::{self, parse_quantity_milli};
use crate::string_map::StringMap;
use vstd::prelude::*;

verus! {

/// What a pod asks for, or what pods have been given, in thousandths of a unit.
/// 
/// `extended` holds every resource other than the three that have a field: their
/// names are set by the cluster.
#[derive(Debug, PartialEq, Eq)]
pub struct ResourceRequests {
    pub cpu_milli: i64,
    pub memory_milli: i64,
    pub ephemeral_storage_milli: i64,
    pub extended: StringMap<i64>,
}

/// Model of [`ResourceRequests`].
#[verifier::ext_equal]
pub struct ResourceRequestsView {
    pub cpu_milli: i64,
    pub memory_milli: i64,
    pub ephemeral_storage_milli: i64,
    pub extended: Map<Seq<char>, i64>,
}

impl View for ResourceRequests {
    type V = ResourceRequestsView;

    open spec fn view(&self) -> ResourceRequestsView {
        ResourceRequestsView {
            cpu_milli: self.cpu_milli,
            memory_milli: self.memory_milli,
            ephemeral_storage_milli: self.ephemeral_storage_milli,
            extended: self.extended@,
        }
    }
}

impl DeepView for ResourceRequests {
    type V = ResourceRequestsView;

    open spec fn deep_view(&self) -> ResourceRequestsView {
        self@
    }
}

impl Duplicate for ResourceRequests {
    fn duplicate(&self) -> (copy: Self) {
        ResourceRequests {
            cpu_milli: self.cpu_milli,
            memory_milli: self.memory_milli,
            ephemeral_storage_milli: self.ephemeral_storage_milli,
            extended: self.extended.duplicate(),
        }
    }
}

impl Clone for ResourceRequests {
    fn clone(&self) -> (copy: Self)
        ensures
            copy@ == self@,
    {
        self.duplicate()
    }
}

/// Quantities that a node offers, as written in its status.
#[derive(Debug, Default)]
pub struct NodeAllocatable {
    /// The number of pods that the node takes. Empty or unreadable: no limit is known.
    pub pods: String,
    /// Empty or unreadable: the amount is unknown and not checked.
    pub cpu: String,
    /// As for `cpu`.
    pub memory: String,
    /// As for `cpu`.
    pub ephemeral_storage: String,
    /// Every other resource, by name. A node has nothing of a resource that is not here.
    pub extended: StringMap<String>,
}

/// Model of [`NodeAllocatable`].
#[verifier::ext_equal]
pub struct NodeAllocatableView {
    pub pods: Seq<char>,
    pub cpu: Seq<char>,
    pub memory: Seq<char>,
    pub ephemeral_storage: Seq<char>,
    pub extended: Map<Seq<char>, Seq<char>>,
}

impl View for NodeAllocatable {
    type V = NodeAllocatableView;

    open spec fn view(&self) -> NodeAllocatableView {
        NodeAllocatableView {
            pods: self.pods@,
            cpu: self.cpu@,
            memory: self.memory@,
            ephemeral_storage: self.ephemeral_storage@,
            extended: self.extended@,
        }
    }
}

impl DeepView for NodeAllocatable {
    type V = NodeAllocatableView;

    open spec fn deep_view(&self) -> NodeAllocatableView {
        self@
    }
}

impl Duplicate for NodeAllocatable {
    fn duplicate(&self) -> (copy: Self) {
        NodeAllocatable {
            pods: self.pods.duplicate(),
            cpu: self.cpu.duplicate(),
            memory: self.memory.duplicate(),
            ephemeral_storage: self.ephemeral_storage.duplicate(),
            extended: self.extended.duplicate(),
        }
    }
}

impl Clone for NodeAllocatable {
    fn clone(&self) -> (copy: Self)
        ensures
            copy@ == self@,
    {
        self.duplicate()
    }
}

/// `x`, or the nearest `i64` to it.
pub open spec fn clamp(x: int) -> i64 {
    if x < i64::MIN {
        i64::MIN
    } else if x > i64::MAX {
        i64::MAX
    } else {
        x as i64
    }
}

/// The sum, clamped.
pub fn clamped_sum(a: i64, b: i64) -> (r: i64)
    ensures
        r == clamp(a + b),
{
    clamped(a as i128 + b as i128)
}

/// The difference, clamped.
pub fn clamped_difference(a: i64, b: i64) -> (r: i64)
    ensures
        r == clamp(a - b),
{
    clamped(a as i128 - b as i128)
}

fn clamped(x: i128) -> (r: i64)
    ensures
        r == clamp(x as int),
{
    if x < i64::MIN as i128 {
        i64::MIN
    } else if x > i64::MAX as i128 {
        i64::MAX
    } else {
        x as i64
    }
}

/// What `amounts` hold of `name`; nothing where it is absent.
pub open spec fn amount(amounts: Map<Seq<char>, i64>, name: Seq<char>) -> i64 {
    if amounts.contains_key(name) {
        amounts[name]
    } else {
        0
    }
}

/// What `amounts` hold of `name`.
pub fn amount_in(amounts: &StringMap<i64>, name: &str) -> (r: i64)
    ensures
        r == amount(amounts@, name@),
{
    match amounts.get(name) {
        Some(v) => *v,
        None => 0,
    }
}

impl ResourceRequestsView {
    /// Nothing at all.
    pub open spec fn none() -> Self {
        ResourceRequestsView {
            cpu_milli: 0,
            memory_milli: 0,
            ephemeral_storage_milli: 0,
            extended: Map::empty(),
        }
    }

    /// The amount of the resource `name`.
    pub open spec fn of(self, name: Seq<char>) -> i64 {
        if name == "cpu"@ {
            self.cpu_milli
        } else if name == "memory"@ {
            self.memory_milli
        } else if name == "ephemeral-storage"@ {
            self.ephemeral_storage_milli
        } else {
            amount(self.extended, name)
        }
    }

    /// With `milli` more of the resource `name`.
    pub open spec fn with(self, name: Seq<char>, milli: i64) -> Self {
        if name == "cpu"@ {
            ResourceRequestsView { cpu_milli: clamp(self.cpu_milli + milli), ..self }
        } else if name == "memory"@ {
            ResourceRequestsView { memory_milli: clamp(self.memory_milli + milli), ..self }
        } else if name == "ephemeral-storage"@ {
            ResourceRequestsView {
                ephemeral_storage_milli: clamp(self.ephemeral_storage_milli + milli),
                ..self
            }
        } else {
            ResourceRequestsView {
                extended: self.extended.insert(name, clamp(amount(self.extended, name) + milli)),
                ..self
            }
        }
    }

    /// Both together: of each resource the sum.
    pub open spec fn plus(self, other: Self) -> Self {
        ResourceRequestsView {
            cpu_milli: clamp(self.cpu_milli + other.cpu_milli),
            memory_milli: clamp(self.memory_milli + other.memory_milli),
            ephemeral_storage_milli: clamp(
                self.ephemeral_storage_milli + other.ephemeral_storage_milli,
            ),
            extended: Map::new(
                |n: Seq<char>| self.extended.contains_key(n) || other.extended.contains_key(n),
                |n: Seq<char>| clamp(amount(self.extended, n) + amount(other.extended, n)),
            ),
        }
    }

    /// What is left of these when `other` is taken away. A resource that is
    /// not among these stays absent.
    pub open spec fn minus(self, other: Self) -> Self {
        ResourceRequestsView {
            cpu_milli: clamp(self.cpu_milli - other.cpu_milli),
            memory_milli: clamp(self.memory_milli - other.memory_milli),
            ephemeral_storage_milli: clamp(
                self.ephemeral_storage_milli - other.ephemeral_storage_milli,
            ),
            extended: Map::new(
                |n: Seq<char>| self.extended.contains_key(n),
                |n: Seq<char>| clamp(self.extended[n] - amount(other.extended, n)),
            ),
        }
    }
}

/// The name of a resource that has a field of its own.
pub open spec fn is_basic(name: Seq<char>) -> bool {
    name == "cpu"@ || name == "memory"@ || name == "ephemeral-storage"@
}

/// The requests of several pods together.
pub open spec fn total_requests(all: Seq<ResourceRequestsView>) -> ResourceRequestsView
    decreases all.len(),
{
    if all.len() == 0 {
        ResourceRequestsView::none()
    } else {
        total_requests(all.drop_last()).plus(all.last())
    }
}

impl Default for ResourceRequests {
    fn default() -> (r: Self)
        ensures
            r@ == ResourceRequestsView::none(),
    {
        ResourceRequests {
            cpu_milli: 0,
            memory_milli: 0,
            ephemeral_storage_milli: 0,
            extended: StringMap::new(),
        }
    }
}

impl ResourceRequests {
    /// Of each resource the sum of both.
    #[verifier::loop_isolation(false)]
    pub fn plus(self, other: &ResourceRequests) -> (r: ResourceRequests)
        ensures
            r@ == self@.plus(other@),
    {
        let mut r = self;
        let ghost start = r@;
        r.cpu_milli = clamped_sum(r.cpu_milli, other.cpu_milli);
        r.memory_milli = clamped_sum(r.memory_milli, other.memory_milli);
        r.ephemeral_storage_milli =
        clamped_sum(r.ephemeral_storage_milli, other.ephemeral_storage_milli);
        let n: usize = other.extended.len();
        let ghost keys = order::sorted_keys(other@.extended.dom());
        let mut extended = r.extended;
        let mut i: usize = 0;
        while i < n
            invariant
                i <= n,
                forall|k: Seq<char>| #[trigger]
                    extended@.contains_key(k) <==> start.extended.contains_key(k)
                        || keys.take(i as int).contains(k),
                forall|k: Seq<char>|
                    extended@.contains_key(k) ==> #[trigger] extended@[k] == if keys.take(
                        i as int,
                    ).contains(k) {
                        clamp(amount(start.extended, k) + amount(other@.extended, k))
                    } else {
                        amount(start.extended, k)
                    },
            decreases n - i,
        {
            let name = other.extended.key_at(i);
            let more = *other.extended.value_at(i);
            let have = amount_in(&extended, name.as_str());
            proof {
                lemma_take_next(keys, i as int);
                order::lemma_sorted_keys(keys);
            }
            extended.insert(name.clone(), clamped_sum(have, more));
            i += 1;
        }
        r.extended = extended;
        proof {
            assert(keys.take(n as int) =~= keys);
            assert forall|k: Seq<char>| keys.contains(k) == other@.extended.contains_key(k) by {
                assert(keys.contains(k) == keys.to_set().contains(k));
            }
            assert(r@.extended =~= start.plus(other@).extended);
            assert(r@ =~= start.plus(other@));
        }
        r
    }
}

impl vstd::std_specs::ops::AddSpecImpl for ResourceRequests {
    open spec fn obeys_add_spec() -> bool {
        false
    }

    open spec fn add_req(self, rhs: Self) -> bool {
        true
    }

    open spec fn add_spec(self, rhs: Self) -> Self::Output {
        self
    }
}

impl std::ops::Add for ResourceRequests {
    type Output = Self;

    fn add(self, other: Self) -> (r: Self)
        ensures
            r@ == self@.plus(other@),
    {
        self.plus(&other)
    }
}

/// One more key in a prefix.
pub proof fn lemma_take_next(keys: Seq<Seq<char>>, i: int)
    requires
        0 <= i < keys.len(),
    ensures
        forall|k: Seq<char>|
            #![trigger keys.take(i + 1).contains(k)]
            keys.take(i + 1).contains(k) == (keys.take(i).contains(k) || k == keys[i]),
{
    assert(keys.take(i + 1) =~= keys.take(i).push(keys[i]));
    assert forall|k: Seq<char>| #![trigger keys.take(i + 1).contains(k)] keys.take(i + 1).contains(k)
        == (keys.take(i).contains(k) || k == keys[i]) by {
        let t = keys.take(i).push(keys[i]);
        if keys.take(i).contains(k) {
            let j = choose|j: int| 0 <= j < i && keys.take(i)[j] == k;
            assert(t[j] == k);
        }
        if k == keys[i] {
            assert(t[i] == k);
        }
        if t.contains(k) {
            let j = choose|j: int| 0 <= j < t.len() && t[j] == k;
            if j < i {
                assert(keys.take(i)[j] == k);
            }
        }
    }
}

/// Take `victim`'s requests out of `total`.
#[verifier::loop_isolation(false)]
pub fn subtract_requests(total: &mut ResourceRequests, victim: &ResourceRequests)
    ensures
        final(total)@ == old(total)@.minus(victim@),
{
    let ghost start = total@;
    total.cpu_milli = clamped_difference(total.cpu_milli, victim.cpu_milli);
    total.memory_milli = clamped_difference(total.memory_milli, victim.memory_milli);
    total.ephemeral_storage_milli =
    clamped_difference(total.ephemeral_storage_milli, victim.ephemeral_storage_milli);
    let n: usize = victim.extended.len();
    let ghost keys = order::sorted_keys(victim@.extended.dom());
    let mut extended: StringMap<i64> = StringMap::new();
    std::mem::swap(&mut total.extended, &mut extended);
    let mut i: usize = 0;
    while i < n
        invariant
            i <= n,
            forall|k: Seq<char>| #[trigger]
                extended@.contains_key(k) <==> start.extended.contains_key(k),
            forall|k: Seq<char>|
                extended@.contains_key(k) ==> #[trigger] extended@[k] == if keys.take(
                    i as int,
                ).contains(k) {
                    clamp(start.extended[k] - amount(victim@.extended, k))
                } else {
                    start.extended[k]
                },
        decreases n - i,
    {
        let name = victim.extended.key_at(i);
        let less = *victim.extended.value_at(i);
        proof {
            lemma_take_next(keys, i as int);
            order::lemma_sorted_keys(keys);
        }
        let have: Option<i64> = match extended.get(name.as_str()) {
            Some(v) => Some(*v),
            None => None,
        };
        if let Some(v) = have {
            extended.insert(name.clone(), clamped_difference(v, less));
        }
        i += 1;
    }
    total.extended = extended;
    proof {
        assert(keys.take(n as int) =~= keys);
        assert forall|k: Seq<char>| keys.contains(k) == victim@.extended.contains_key(k) by {
            assert(keys.contains(k) == keys.to_set().contains(k));
        }
        assert(total@.extended =~= start.minus(victim@).extended);
        assert(total@ =~= start.minus(victim@));
    }
}

/// Add `quantity` of the resource `name` to `total`.
pub fn accumulate_request(total: &mut ResourceRequests, name: &str, quantity: &str)
    ensures
        final(total)@ == old(total)@.with(name@, quantity::quantity_milli(quantity@) as i64),
{
    let milli: i64 = parse_quantity_milli(quantity);
    if same_text(name, "cpu") {
        total.cpu_milli = clamped_sum(total.cpu_milli, milli);
    } else if same_text(name, "memory") {
        total.memory_milli = clamped_sum(total.memory_milli, milli);
    } else if same_text(name, "ephemeral-storage") {
        total.ephemeral_storage_milli = clamped_sum(total.ephemeral_storage_milli, milli);
    } else {
        let have: i64 = amount_in(&total.extended, name);
        total.extended.insert(name.to_owned(), clamped_sum(have, milli));
    }
}

/// What a node has of the extended resource `name`.
pub open spec fn extended_capacity(
    allocatable: NodeAllocatableView,
    name: Seq<char>,
) -> int {
    if allocatable.extended.contains_key(name) {
        quantity::quantity_milli(allocatable.extended[name])
    } else {
        0
    }
}

/// Room for `want` beside `used` where a capacity of 0 is an unknown one.
pub open spec fn room(capacity: int, used: i64, want: i64) -> bool {
    capacity == 0 || used + want <= capacity
}

/// `requested` can be given beside `used`: for cpu, memory and ephemeral
/// storage where the node's capacity is known, and for each extended resource
/// that is asked for, of which a node that does not list it has nothing.
pub open spec fn fits(
    allocatable: NodeAllocatableView,
    used: ResourceRequestsView,
    requested: ResourceRequestsView,
) -> bool {
    &&& room(quantity::quantity_milli(allocatable.cpu), used.cpu_milli, requested.cpu_milli)
    &&& room(
        quantity::quantity_milli(allocatable.memory),
        used.memory_milli,
        requested.memory_milli,
    )
    &&& room(
        quantity::quantity_milli(allocatable.ephemeral_storage),
        used.ephemeral_storage_milli,
        requested.ephemeral_storage_milli,
    )
    &&& forall|name: Seq<char>| #[trigger]
        requested.extended.contains_key(name) ==> requested.extended[name] == 0 || amount(
            used.extended,
            name,
        ) + requested.extended[name] <= extended_capacity(allocatable, name)
}

/// Whether `requested` can be given beside `used` on a node with
/// `allocatable`.
#[verifier::loop_isolation(false)]
pub fn resource_fits(
    allocatable: &NodeAllocatable,
    used: &ResourceRequests,
    requested: &ResourceRequests,
) -> (b: bool)
    ensures
        b == fits(allocatable@, used@, requested@),
{
    if !has_room(allocatable.cpu.as_str(), used.cpu_milli, requested.cpu_milli) || !has_room(
        allocatable.memory.as_str(),
        used.memory_milli,
        requested.memory_milli,
    ) || !has_room(
        allocatable.ephemeral_storage.as_str(),
        used.ephemeral_storage_milli,
        requested.ephemeral_storage_milli,
    ) {
        return false;
    }
    let n: usize = requested.extended.len();
    let ghost keys = order::sorted_keys(requested@.extended.dom());
    let mut i: usize = 0;
    while i < n
        invariant
            i <= n,
            forall|j: int|
                0 <= j < i ==> requested@.extended[#[trigger] keys[j]] == 0 || amount(
                    used@.extended,
                    keys[j],
                ) + requested@.extended[keys[j]] <= extended_capacity(allocatable@, keys[j]),
        decreases n - i,
    {
        let name = requested.extended.key_at(i);
        let want: i64 = *requested.extended.value_at(i);
        if want != 0 {
            let cap: i64 = capacity_of(allocatable, name.as_str());
            let have: i64 = amount_in(&used.extended, name.as_str());
            if have as i128 + want as i128 > cap as i128 {
                return false;
            }
        }
        i += 1;
    }
    proof {
        assert forall|name: Seq<char>| #[trigger] requested@.extended.contains_key(name) implies
            requested@.extended[name] == 0 || amount(used@.extended, name)
            + requested@.extended[name] <= extended_capacity(allocatable@, name) by {
            assert(keys.to_set().contains(name));
            let j = choose|j: int| 0 <= j < keys.len() && keys[j] == name;
            assert(requested@.extended[keys[j]] == requested@.extended[name]);
        }
    }
    true
}

fn has_room(capacity: &str, used: i64, want: i64) -> (b: bool)
    ensures
        b == room(quantity::quantity_milli(capacity@), used, want),
{
    let cap: i64 = parse_quantity_milli(capacity);
    cap == 0 || used as i128 + want as i128 <= cap as i128
}

fn capacity_of(allocatable: &NodeAllocatable, name: &str) -> (r: i64)
    ensures
        r == extended_capacity(allocatable@, name@),
{
    match allocatable.extended.get(name) {
        Some(quantity) => parse_quantity_milli(quantity.as_str()),
        None => 0,
    }
}

/// Some resource is short for `pending` beside `total_used`, and `candidate`
/// holds some of that resource.
pub open spec fn would_help(
    allocatable: NodeAllocatableView,
    total_used: ResourceRequestsView,
    pending: ResourceRequestsView,
    candidate: ResourceRequestsView,
) -> bool {
    ||| !room(quantity::quantity_milli(allocatable.cpu), total_used.cpu_milli, pending.cpu_milli)
        && candidate.cpu_milli > 0
    ||| !room(
        quantity::quantity_milli(allocatable.memory),
        total_used.memory_milli,
        pending.memory_milli,
    ) && candidate.memory_milli > 0
    ||| !room(
        quantity::quantity_milli(allocatable.ephemeral_storage),
        total_used.ephemeral_storage_milli,
        pending.ephemeral_storage_milli,
    ) && candidate.ephemeral_storage_milli > 0
    ||| exists|name: Seq<char>| #[trigger]
        pending.extended.contains_key(name) && pending.extended[name] != 0 && amount(
            total_used.extended,
            name,
        ) + pending.extended[name] > extended_capacity(allocatable, name) && amount(
            candidate.extended,
            name,
        ) > 0
}

/// Whether evicting a pod with the requests `candidate` could help to admit
/// `pending`.
#[verifier::loop_isolation(false)]
pub fn resource_deficiency_relevant(
    allocatable: &NodeAllocatable,
    total_used: &ResourceRequests,
    pending: &ResourceRequests,
    candidate: &ResourceRequests,
) -> (b: bool)
    ensures
        b == would_help(allocatable@, total_used@, pending@, candidate@),
{
    if !has_room(allocatable.cpu.as_str(), total_used.cpu_milli, pending.cpu_milli)
        && candidate.cpu_milli > 0 {
        return true;
    }
    if !has_room(allocatable.memory.as_str(), total_used.memory_milli, pending.memory_milli)
        && candidate.memory_milli > 0 {
        return true;
    }
    if !has_room(
        allocatable.ephemeral_storage.as_str(),
        total_used.ephemeral_storage_milli,
        pending.ephemeral_storage_milli,
    ) && candidate.ephemeral_storage_milli > 0 {
        return true;
    }
    let n: usize = pending.extended.len();
    let ghost keys = order::sorted_keys(pending@.extended.dom());
    let mut i: usize = 0;
    while i < n
        invariant
            i <= n,
            forall|j: int|
                0 <= j < i ==> !(pending@.extended[#[trigger] keys[j]] != 0 && amount(
                    total_used@.extended,
                    keys[j],
                ) + pending@.extended[keys[j]] > extended_capacity(allocatable@, keys[j])
                    && amount(candidate@.extended, keys[j]) > 0),
        decreases n - i,
    {
        let name = pending.extended.key_at(i);
        let want: i64 = *pending.extended.value_at(i);
        if want != 0 {
            let cap: i64 = capacity_of(allocatable, name.as_str());
            let used: i64 = amount_in(&total_used.extended, name.as_str());
            let held: i64 = amount_in(&candidate.extended, name.as_str());
            if used as i128 + want as i128 > cap as i128 && held > 0 {
                proof {
                    assert(pending@.extended.contains_key(name@));
                }
                return true;
            }
        }
        i += 1;
    }
    proof {
        assert forall|name: Seq<char>| #[trigger] pending@.extended.contains_key(name) implies !(
        pending@.extended[name] != 0 && amount(total_used@.extended, name)
            + pending@.extended[name] > extended_capacity(allocatable@, name) && amount(
            candidate@.extended,
            name,
        ) > 0) by {
            assert(keys.to_set().contains(name));
            let j = choose|j: int| 0 <= j < keys.len() && keys[j] == name;
            assert(pending@.extended[keys[j]] == pending@.extended[name]);
        }
    }
    false
}

/// The amount of the resource `name` in a sum of requests, counted exactly.
pub open spec fn exact_total(all: Seq<ResourceRequestsView>, name: Seq<char>) -> int
    decreases all.len(),
{
    if all.len() == 0 {
        0
    } else {
        exact_total(all.drop_last(), name) + all.last().of(name)
    }
}

/// Sums of requests are exact as long as no partial sum leaves the range of
/// an `i64`.
pub proof fn law_totals_are_exact(all: Seq<ResourceRequestsView>, name: Seq<char>)
    requires
        forall|i: int|
            0 <= i <= all.len() ==> i64::MIN <= #[trigger] exact_total(all.take(i), name)
                <= i64::MAX,
    ensures
        total_requests(all).of(name) == exact_total(all, name),
    decreases all.len(),
{
    if all.len() > 0 {
        let front = all.drop_last();
        assert forall|i: int| 0 <= i <= front.len() implies i64::MIN <= #[trigger] exact_total(
            front.take(i),
            name,
        ) <= i64::MAX by {
            assert(front.take(i) =~= all.take(i));
        }
        law_totals_are_exact(front, name);
        assert(all.take(all.len() as int) =~= all);
        assert(all.take(all.len() - 1) =~= front);
        let a = total_requests(front);
        let b = all.last();
        if !is_basic(name) && !a.plus(b).extended.contains_key(name) {
            assert(amount(a.extended, name) == 0 && amount(b.extended, name) == 0);
        }
    }
}

/// Taking away what was added gives back what was there, as long as the sum
/// is exact.
pub proof fn law_minus_undoes_plus(
    a: ResourceRequestsView,
    b: ResourceRequestsView,
    name: Seq<char>,
)
    requires
        i64::MIN <= a.of(name) + b.of(name) <= i64::MAX,
    ensures
        a.plus(b).minus(b).of(name) == a.of(name),
{
    if !is_basic(name) && !a.plus(b).extended.contains_key(name) {
        assert(!a.extended.contains_key(name));
    }
}

/// A pod that asks for nothing fits wherever the known capacities are not
/// exceeded already.
pub proof fn law_nothing_fits_within_capacity(
    allocatable: NodeAllocatableView,
    used: ResourceRequestsView,
)
    requires
        room(quantity::quantity_milli(allocatable.cpu), used.cpu_milli, 0),
        room(quantity::quantity_milli(allocatable.memory), used.memory_milli, 0),
        room(
            quantity::quantity_milli(allocatable.ephemeral_storage),
            used.ephemeral_storage_milli,
            0,
        ),
    ensures
        fits(allocatable, used, ResourceRequestsView::none()),
{
}

/// An extended resource that a node does not list cannot be had there.
pub proof fn law_unlisted_extended_resource_is_refused(
    allocatable: NodeAllocatableView,
    used: ResourceRequestsView,
    requested: ResourceRequestsView,
    name: Seq<char>,
)
    requires
        !allocatable.extended.contains_key(name),
        requested.extended.contains_key(name),
        requested.extended[name] > 0,
        amount(used.extended, name) >= 0,
    ensures
        !fits(allocatable, used, requested),
{
}

/// What a node has of cpu, memory and ephemeral storage is not exceeded where
/// a pod fits, as far as it is known; each counts on its own.
pub proof fn law_fit_keeps_within_every_capacity(
    allocatable: NodeAllocatableView,
    used: ResourceRequestsView,
    requested: ResourceRequestsView,
)
    requires
        fits(allocatable, used, requested),
    ensures
        quantity::quantity_milli(allocatable.cpu) != 0 ==> used.cpu_milli + requested.cpu_milli
            <= quantity::quantity_milli(allocatable.cpu),
        quantity::quantity_milli(allocatable.memory) != 0 ==> used.memory_milli
            + requested.memory_milli <= quantity::quantity_milli(allocatable.memory),
        quantity::quantity_milli(allocatable.ephemeral_storage) != 0
            ==> used.ephemeral_storage_milli + requested.ephemeral_storage_milli
            <= quantity::quantity_milli(allocatable.ephemeral_storage),
        forall|name: Seq<char>| #[trigger]
            requested.extended.contains_key(name) && requested.extended[name] > 0 && used.extended
                .contains_key(name) && allocatable.extended.contains_key(name)
                ==> used.extended[name] + requested.extended[name] <= quantity::quantity_milli(
                allocatable.extended[name],
            ),
        forall|name: Seq<char>| #[trigger]
            requested.extended.contains_key(name) && requested.extended[name] > 0
                && !used.extended.contains_key(name) && allocatable.extended.contains_key(name)
                ==> requested.extended[name] <= quantity::quantity_milli(
                allocatable.extended[name],
            ),
{
}

/// A pod fits where of cpu, memory and ephemeral storage the capacity is
/// unknown or large enough, and of everything else it asks for the node lists
/// enough.
pub proof fn law_enough_of_everything_fits(
    allocatable: NodeAllocatableView,
    used: ResourceRequestsView,
    requested: ResourceRequestsView,
)
    requires
        quantity::quantity_milli(allocatable.cpu) == 0 || used.cpu_milli + requested.cpu_milli
            <= quantity::quantity_milli(allocatable.cpu),
        quantity::quantity_milli(allocatable.memory) == 0 || used.memory_milli
            + requested.memory_milli <= quantity::quantity_milli(allocatable.memory),
        quantity::quantity_milli(allocatable.ephemeral_storage) == 0
            || used.ephemeral_storage_milli + requested.ephemeral_storage_milli
            <= quantity::quantity_milli(allocatable.ephemeral_storage),
        forall|name: Seq<char>| #[trigger]
            requested.extended.contains_key(name) && requested.extended[name] != 0
                ==> allocatable.extended.contains_key(name) && (if used.extended.contains_key(
                name,
            ) {
                used.extended[name] as int
            } else {
                0
            }) + requested.extended[name] <= quantity::quantity_milli(
                allocatable.extended[name],
            ),
    ensures
        fits(allocatable, used, requested),
{
}

/// Less in use never shuts a pod out.
pub proof fn law_freeing_room_keeps_a_fit(
    allocatable: NodeAllocatableView,
    used: ResourceRequestsView,
    less: ResourceRequestsView,
    requested: ResourceRequestsView,
)
    requires
        fits(allocatable, used, requested),
        less.cpu_milli <= used.cpu_milli,
        less.memory_milli <= used.memory_milli,
        less.ephemeral_storage_milli <= used.ephemeral_storage_milli,
        forall|name: Seq<char>| #[trigger]
            requested.extended.contains_key(name) ==> amount(less.extended, name) <= amount(
                used.extended,
                name,
            ),
    ensures
        fits(allocatable, less, requested),
{
}

/// A pod that asks for some of a resource helps with its going where the node
/// is short of that resource for the pending pod: of cpu, of memory, of
/// ephemeral storage, or of any other.
pub proof fn law_holder_of_what_is_short_helps(
    allocatable: NodeAllocatableView,
    total_used: ResourceRequestsView,
    pending: ResourceRequestsView,
    candidate: ResourceRequestsView,
)
    ensures
        quantity::quantity_milli(allocatable.cpu) != 0 && total_used.cpu_milli + pending.cpu_milli
            > quantity::quantity_milli(allocatable.cpu) && candidate.cpu_milli > 0 ==> would_help(
            allocatable,
            total_used,
            pending,
            candidate,
        ),
        quantity::quantity_milli(allocatable.memory) != 0 && total_used.memory_milli
            + pending.memory_milli > quantity::quantity_milli(allocatable.memory)
            && candidate.memory_milli > 0 ==> would_help(
            allocatable,
            total_used,
            pending,
            candidate,
        ),
        quantity::quantity_milli(allocatable.ephemeral_storage) != 0
            && total_used.ephemeral_storage_milli + pending.ephemeral_storage_milli
            > quantity::quantity_milli(allocatable.ephemeral_storage)
            && candidate.ephemeral_storage_milli > 0 ==> would_help(
            allocatable,
            total_used,
            pending,
            candidate,
        ),
        forall|name: Seq<char>| #[trigger]
            pending.extended.contains_key(name) && pending.extended[name] > 0 && amount(
                total_used.extended,
                name,
            ) + pending.extended[name] > (if allocatable.extended.contains_key(name) {
                quantity::quantity_milli(allocatable.extended[name])
            } else {
                0
            }) && candidate.extended.contains_key(name) && candidate.extended[name] > 0
                ==> would_help(allocatable, total_used, pending, candidate),
{
}

/// A pod that asks for nothing of what is short is of no help, and where
/// nothing is short nobody is.
pub proof fn law_bystander_does_not_help(
    allocatable: NodeAllocatableView,
    total_used: ResourceRequestsView,
    pending: ResourceRequestsView,
    candidate: ResourceRequestsView,
)
    ensures
        fits(allocatable, total_used, pending) ==> !would_help(
            allocatable,
            total_used,
            pending,
            candidate,
        ),
        candidate.cpu_milli <= 0 && candidate.memory_milli <= 0
            && candidate.ephemeral_storage_milli <= 0 && (forall|name: Seq<char>| #[trigger]
            pending.extended.contains_key(name) ==> !candidate.extended.contains_key(name)
                || candidate.extended[name] <= 0) ==> !would_help(
            allocatable,
            total_used,
            pending,
            candidate,
        ),
        would_help(allocatable, total_used, pending, candidate) && candidate.cpu_milli <= 0
            && candidate.memory_milli <= 0 && candidate.ephemeral_storage_milli <= 0
            ==> exists|name: Seq<char>| #[trigger]
            pending.extended.contains_key(name) && candidate.extended.contains_key(name)
                && candidate.extended[name] > 0,
{
    if fits(allocatable, total_used, pending) && would_help(
        allocatable,
        total_used,
        pending,
        candidate,
    ) {
        let name = choose|name: Seq<char>| #[trigger]
            pending.extended.contains_key(name) && pending.extended[name] != 0 && amount(
                total_used.extended,
                name,
            ) + pending.extended[name] > extended_capacity(allocatable, name) && amount(
                candidate.extended,
                name,
            ) > 0;
        assert(pending.extended.contains_key(name));
    }
}

/// Sums and differences go field by field, and stay within the range of an
/// `i64`.
pub proof fn law_sums_go_field_by_field(
    a: ResourceRequestsView,
    b: ResourceRequestsView,
    name: Seq<char>,
)
    ensures
        i64::MIN <= a.cpu_milli + b.cpu_milli <= i64::MAX ==> a.plus(b).cpu_milli == a.cpu_milli
            + b.cpu_milli,
        i64::MIN <= a.memory_milli + b.memory_milli <= i64::MAX ==> a.plus(b).memory_milli
            == a.memory_milli + b.memory_milli,
        i64::MIN <= a.ephemeral_storage_milli + b.ephemeral_storage_milli <= i64::MAX ==> a.plus(
            b,
        ).ephemeral_storage_milli == a.ephemeral_storage_milli + b.ephemeral_storage_milli,
        a.plus(b).extended.contains_key(name) == (a.extended.contains_key(name)
            || b.extended.contains_key(name)),
        a.extended.contains_key(name) && b.extended.contains_key(name) && i64::MIN
            <= a.extended[name] + b.extended[name] <= i64::MAX ==> a.plus(b).extended[name]
            == a.extended[name] + b.extended[name],
        a.extended.contains_key(name) && !b.extended.contains_key(name) ==> a.plus(
            b,
        ).extended[name] == a.extended[name],
        i64::MIN <= a.cpu_milli - b.cpu_milli <= i64::MAX ==> a.minus(b).cpu_milli == a.cpu_milli
            - b.cpu_milli,
        i64::MIN <= a.memory_milli - b.memory_milli <= i64::MAX ==> a.minus(b).memory_milli
            == a.memory_milli - b.memory_milli,
        i64::MIN <= a.ephemeral_storage_milli - b.ephemeral_storage_milli <= i64::MAX ==> a.minus(
            b,
        ).ephemeral_storage_milli == a.ephemeral_storage_milli - b.ephemeral_storage_milli,
        a.extended.contains_key(name) && b.extended.contains_key(name) && i64::MIN
            <= a.extended[name] - b.extended[name] <= i64::MAX ==> a.minus(b).extended[name]
            == a.extended[name] - b.extended[name],
{
}

/// A named request goes to its own field, and to no other.
pub proof fn law_request_goes_to_its_field(
    r: ResourceRequestsView,
    name: Seq<char>,
    milli: i64,
)
    ensures
        name == "cpu"@ && i64::MIN <= r.cpu_milli + milli <= i64::MAX ==> r.with(name, milli)
            == (ResourceRequestsView { cpu_milli: (r.cpu_milli + milli) as i64, ..r }),
        name == "memory"@ && i64::MIN <= r.memory_milli + milli <= i64::MAX ==> r.with(name, milli)
            == (ResourceRequestsView { memory_milli: (r.memory_milli + milli) as i64, ..r }),
        name == "ephemeral-storage"@ && i64::MIN <= r.ephemeral_storage_milli + milli <= i64::MAX
            ==> r.with(name, milli) == (ResourceRequestsView {
            ephemeral_storage_milli: (r.ephemeral_storage_milli + milli) as i64,
            ..r
        }),
        name != "cpu"@ && name != "memory"@ && name != "ephemeral-storage"@
            && !r.extended.contains_key(name) ==> r.with(name, milli) == (ResourceRequestsView {
            extended: r.extended.insert(name, milli),
            ..r
        }),
        name != "cpu"@ && name != "memory"@ && name != "ephemeral-storage"@
            && r.extended.contains_key(name) && i64::MIN <= r.extended[name] + milli <= i64::MAX
            ==> r.with(name, milli) == (ResourceRequestsView {
            extended: r.extended.insert(name, (r.extended[name] + milli) as i64),
            ..r
        }),
{
    reveal_strlit("cpu");
    reveal_strlit("memory");
    reveal_strlit("ephemeral-storage");
    assert("cpu"@.len() == 3 && "memory"@.len() == 6 && "ephemeral-storage"@.len() == 17);
}

/// Each amount is found under its name.
pub proof fn law_amounts_by_name(r: ResourceRequestsView, name: Seq<char>)
    ensures
        r.of("cpu"@) == r.cpu_milli,
        r.of("memory"@) == r.memory_milli,
        r.of("ephemeral-storage"@) == r.ephemeral_storage_milli,
        !is_basic(name) && r.extended.contains_key(name) ==> r.of(name) == r.extended[name],
        !is_basic(name) && !r.extended.contains_key(name) ==> r.of(name) == 0,
        is_basic("cpu"@),
        is_basic("memory"@),
        is_basic("ephemeral-storage"@),
        name != "cpu"@ && name != "memory"@ && name != "ephemeral-storage"@ ==> !is_basic(name),
{
    reveal_strlit("cpu");
    reveal_strlit("memory");
    reveal_strlit("ephemeral-storage");
    assert("cpu"@.len() == 3 && "memory"@.len() == 6 && "ephemeral-storage"@.len() == 17);
}

} // verus!
