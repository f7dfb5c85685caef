//! Maps keyed by text, and sets of texts, kept in key order.

use crate::duplicate::Duplicate;
use crate::order::{self, rank, Rank};
use vstd::prelude::*;

verus! {

/// A map from text to `V`. Its entries are kept in increasing key order, so
/// that walking it gives the same order every time.
#[verifier::reject_recursive_types(V)]
#[derive(Debug, PartialEq, Eq)]
pub struct StringMap<V> {
    entries: Vec<(String, V)>,
}

impl<V: DeepView> View for StringMap<V> {
    type V = Map<Seq<char>, V::V>;

    closed spec fn view(&self) -> Map<Seq<char>, V::V> {
        Map::new(
            |k: Seq<char>| self.keys().contains(k),
            |k: Seq<char>| self.entries@[self.keys().index_of(k)].1.deep_view(),
        )
    }
}

impl<V: DeepView> DeepView for StringMap<V> {
    type V = Map<Seq<char>, V::V>;

    open spec fn deep_view(&self) -> Map<Seq<char>, V::V> {
        self@
    }
}

/// The map of `entries`, in which a later entry replaces an earlier one.
pub open spec fn entries_map<V>(entries: Seq<(Seq<char>, V)>) -> Map<Seq<char>, V>
    decreases entries.len(),
{
    if entries.len() == 0 {
        Map::empty()
    } else {
        entries_map(entries.drop_last()).insert(entries.last().0, entries.last().1)
    }
}

impl<V> StringMap<V> {
    closed spec fn keys(&self) -> Seq<Seq<char>> {
        self.entries@.map_values(|e: (String, V)| e.0@)
    }

    #[verifier::type_invariant]
    closed spec fn ordered(&self) -> bool {
        order::is_sorted(self.keys())
    }
}

impl<V: DeepView> StringMap<V> {
    proof fn lemma_entries(&self)
        requires
            self.ordered(),
        ensures
            self.keys() == order::sorted_keys(self@.dom()),
            self@.dom() == self.keys().to_set(),
            self@.dom().finite(),
            self@.len() == self.entries@.len(),
            forall|i: int|
                0 <= i < self.entries@.len() ==> #[trigger] self@.contains_key(
                    self.entries@[i].0@,
                ) && self@[self.entries@[i].0@] == self.entries@[i].1.deep_view(),
    {
        let keys = self.keys();
        order::lemma_sorted_keys(keys);
        assert(self@.dom() =~= keys.to_set());
        assert forall|i: int| 0 <= i < self.entries@.len() implies #[trigger] self@.contains_key(
            self.entries@[i].0@,
        ) && self@[self.entries@[i].0@] == self.entries@[i].1.deep_view() by {
            assert(keys[i] == self.entries@[i].0@);
            let j = keys.index_of(keys[i]);
            assert(0 <= j < keys.len() && keys[j] == keys[i]);
            assert(i == j);
        }
    }

    /// The empty map.
    pub fn new() -> (m: Self)
        ensures
            m@ == Map::<Seq<char>, V::V>::empty(),
    {
        let m = StringMap { entries: Vec::new() };
        assert(m@ =~= Map::<Seq<char>, V::V>::empty());
        m
    }

    /// The map of `entries`; where a key occurs twice, the later entry counts.
    pub fn from_entries(entries: Vec<(String, V)>) -> (m: Self)
        ensures
            m@ == entries_map(entries.deep_view()),
    {
        let ghost all = entries_map(entries.deep_view());
        let mut rest = entries;
        let mut m = StringMap::new();
        assert(all =~= entries_map(rest.deep_view()).union_prefer_right(m@));
        while rest.len() > 0
            invariant
                all == entries_map(rest.deep_view()).union_prefer_right(m@),
            decreases rest.len(),
        {
            let ghost before = rest.deep_view();
            if let Some((key, value)) = rest.pop() {
                assert(rest.deep_view() =~= before.drop_last());
                if !m.contains_key(key.as_str()) {
                    m.insert(key, value);
                }
                assert(all =~= entries_map(rest.deep_view()).union_prefer_right(m@));
            }
        }
        assert(all =~= m@);
        m
    }

    /// The number of entries.
    pub fn len(&self) -> (n: usize)
        ensures
            n == self@.len(),
            n == order::sorted_keys(self@.dom()).len(),
            self@.dom().finite(),
            order::is_sorted(order::sorted_keys(self@.dom())),
            order::sorted_keys(self@.dom()).to_set() == self@.dom(),
    {
        proof {
            use_type_invariant(self);
            self.lemma_entries();
        }
        self.entries.len()
    }

    /// Whether the map has no entry.
    pub fn is_empty(&self) -> (b: bool)
        ensures
            b == (self@.len() == 0),
            b == (self@ == Map::<Seq<char>, V::V>::empty()),
            b == (forall|k: Seq<char>| !self@.contains_key(k)),
    {
        proof {
            use_type_invariant(self);
            self.lemma_entries();
            if self.entries@.len() == 0 {
                assert(self@ =~= Map::<Seq<char>, V::V>::empty());
            } else {
                assert(self@.contains_key(self.entries@[0].0@));
            }
        }
        self.entries.len() == 0
    }

    /// The key at position `i` of the key order.
    pub fn key_at(&self, i: usize) -> (k: &String)
        requires
            i < self@.len(),
        ensures
            k@ == order::sorted_keys(self@.dom())[i as int],
            self@.contains_key(k@),
            self@.dom().finite(),
            order::is_sorted(order::sorted_keys(self@.dom())),
            order::sorted_keys(self@.dom()).to_set() == self@.dom(),
    {
        proof {
            use_type_invariant(self);
            self.lemma_entries();
        }
        &self.entries[i].0
    }

    /// The value at position `i` of the key order.
    pub fn value_at(&self, i: usize) -> (v: &V)
        requires
            i < self@.len(),
        ensures
            v.deep_view() == self@[order::sorted_keys(self@.dom())[i as int]],
            self@.contains_key(order::sorted_keys(self@.dom())[i as int]),
    {
        proof {
            use_type_invariant(self);
            self.lemma_entries();
            assert(self.keys()[i as int] == self.entries@[i as int].0@);
            assert(self@.contains_key(self.entries@[i as int].0@));
        }
        &self.entries[i].1
    }

    /// Where `key` is, or where it would go.
    fn position(&self, key: &str) -> (r: (usize, bool))
        ensures
            r.0 <= self.entries@.len(),
            r.1 ==> r.0 < self.entries@.len() && self.entries@[r.0 as int].0@ == key@,
            !r.1 ==> !self@.contains_key(key@),
            forall|j: int| 0 <= j < r.0 ==> order::text_precedes(#[trigger] self.keys()[j], key@),
            !r.1 ==> forall|j: int|
                r.0 <= j < self.entries@.len() ==> order::text_precedes(
                    key@,
                    #[trigger] self.keys()[j],
                ),
    {
        proof {
            use_type_invariant(self);
            self.lemma_entries();
        }
        let ghost keys = self.keys();
        let mut lo: usize = 0;
        let mut hi: usize = self.entries.len();
        while lo < hi
            invariant
                lo <= hi <= self.entries@.len(),
                keys == self.keys(),
                order::is_sorted(keys),
                keys.len() == self.entries@.len(),
                forall|j: int| 0 <= j < lo ==> order::text_precedes(#[trigger] keys[j], key@),
                forall|j: int|
                    hi <= j < keys.len() ==> order::text_precedes(key@, #[trigger] keys[j]),
            decreases hi - lo,
        {
            let mid: usize = lo + (hi - lo) / 2;
            assert(keys[mid as int] == self.entries@[mid as int].0@);
            match rank(self.entries[mid].0.as_str(), key) {
                Rank::Before => {
                    proof {
                        assert forall|j: int| 0 <= j < mid + 1 implies order::text_precedes(
                            #[trigger] keys[j],
                            key@,
                        ) by {
                            if j < mid {
                                order::lemma_precedes_transitive(keys[j], keys[mid as int], key@);
                            }
                        }
                    }
                    lo = mid + 1;
                },
                Rank::Same => {
                    return (mid, true);
                },
                Rank::After => {
                    proof {
                        assert forall|j: int| mid <= j < keys.len() implies order::text_precedes(
                            key@,
                            #[trigger] keys[j],
                        ) by {
                            if mid < j {
                                order::lemma_precedes_transitive(key@, keys[mid as int], keys[j]);
                            }
                        }
                    }
                    hi = mid;
                },
            }
        }
        proof {
            if self@.contains_key(key@) {
                let j = choose|j: int| 0 <= j < keys.len() && keys[j] == key@;
                order::lemma_precedes_irreflexive(key@);
            }
        }
        (lo, false)
    }

    /// Whether `key` has an entry.
    pub fn contains_key(&self, key: &str) -> (b: bool)
        ensures
            b == self@.contains_key(key@),
    {
        let (i, found) = self.position(key);
        proof {
            use_type_invariant(self);
            self.lemma_entries();
        }
        found
    }

    /// The value of `key`.
    pub fn get(&self, key: &str) -> (v: Option<&V>)
        ensures
            v is Some == self@.contains_key(key@),
            v matches Some(x) ==> x.deep_view() == self@[key@],
    {
        let (i, found) = self.position(key);
        proof {
            use_type_invariant(self);
            self.lemma_entries();
        }
        if found {
            Some(&self.entries[i].1)
        } else {
            None
        }
    }

    /// Set the value of `key`; gives back the value it had.
    pub fn insert(&mut self, key: String, value: V) -> (prior: Option<V>)
        ensures
            final(self)@ == old(self)@.insert(key@, value.deep_view()),
            prior is Some == old(self)@.contains_key(key@),
            prior matches Some(x) ==> x.deep_view() == old(self)@[key@],
    {
        let (i, found) = self.position(key.as_str());
        let ghost m0 = *self;
        proof {
            use_type_invariant(&*self);
            self.lemma_entries();
        }
        let mut entries: Vec<(String, V)> = Vec::new();
        std::mem::swap(&mut self.entries, &mut entries);
        let ghost k = key@;
        let ghost v = value.deep_view();
        let prior = if found {
            let (_, prior) = entries.remove(i);
            Some(prior)
        } else {
            None
        };
        entries.insert(i, (key, value));
        proof {
            let keys = entries@.map_values(|e: (String, V)| e.0@);
            if found {
                assert(keys =~= m0.keys());
            } else {
                assert(keys =~= m0.keys().insert(i as int, k));
                assert forall|a: int, b: int| 0 <= a < b < keys.len() implies order::text_precedes(
                    keys[a],
                    keys[b],
                ) by {
                    if a < i {
                        assert(keys[a] == m0.keys()[a]);
                    } else if a > i {
                        assert(keys[a] == m0.keys()[a - 1]);
                    }
                    if b < i {
                        assert(keys[b] == m0.keys()[b]);
                    } else if b > i {
                        assert(keys[b] == m0.keys()[b - 1]);
                    }
                }
            }
            assert(order::is_sorted(keys));
        }
        self.entries = entries;
        proof {
            self.lemma_entries();
            assert forall|x: Seq<char>| self@.contains_key(x) == m0@.insert(k, v).contains_key(x) by {
                if self@.contains_key(x) {
                    let j = choose|j: int| 0 <= j < self.keys().len() && self.keys()[j] == x;
                    assert(self.keys()[j] == self.entries@[j].0@);
                    if j < i {
                        assert(m0.entries@[j] == self.entries@[j]);
                    } else if j > i {
                        if found {
                            assert(m0.entries@[j] == self.entries@[j]);
                        } else {
                            assert(m0.entries@[j - 1] == self.entries@[j]);
                        }
                    }
                }
                if m0@.contains_key(x) && x != k {
                    let j = choose|j: int| 0 <= j < m0.keys().len() && m0.keys()[j] == x;
                    assert(m0.keys()[j] == m0.entries@[j].0@);
                    if j < i || found {
                        assert(m0.entries@[j] == self.entries@[j]);
                    } else {
                        assert(m0.entries@[j] == self.entries@[j + 1]);
                    }
                }
                assert(self.entries@[i as int].0@ == k);
            }
            assert forall|x: Seq<char>| self@.contains_key(x) implies #[trigger] self@[x]
                == m0@.insert(k, v)[x] by {
                assert(self.entries@[i as int].0@ == k);
                if x != k {
                    let j = choose|j: int| 0 <= j < m0.keys().len() && m0.keys()[j] == x;
                    assert(m0.keys()[j] == m0.entries@[j].0@);
                    if j < i || found {
                        assert(m0.entries@[j] == self.entries@[j]);
                    } else {
                        assert(m0.entries@[j] == self.entries@[j + 1]);
                    }
                }
            }
            assert(self@ =~= m0@.insert(k, v));
        }
        prior
    }

    /// Drop the entry of `key`; gives back the value it had.
    pub fn remove(&mut self, key: &str) -> (prior: Option<V>)
        ensures
            final(self)@ == old(self)@.remove(key@),
            prior is Some == old(self)@.contains_key(key@),
            prior matches Some(x) ==> x.deep_view() == old(self)@[key@],
    {
        let (i, found) = self.position(key);
        let ghost m0 = *self;
        proof {
            use_type_invariant(&*self);
            self.lemma_entries();
        }
        if !found {
            assert(self@ =~= m0@.remove(key@));
            return None;
        }
        let mut entries: Vec<(String, V)> = Vec::new();
        std::mem::swap(&mut self.entries, &mut entries);
        let (_, prior) = entries.remove(i);
        proof {
            let keys = entries@.map_values(|e: (String, V)| e.0@);
            assert(keys =~= m0.keys().remove(i as int));
            assert(order::is_sorted(keys));
        }
        self.entries = entries;
        proof {
            self.lemma_entries();
            assert forall|x: Seq<char>| self@.contains_key(x) == m0@.remove(key@).contains_key(x) by {
                if self@.contains_key(x) {
                    let j = choose|j: int| 0 <= j < self.keys().len() && self.keys()[j] == x;
                    assert(self.keys()[j] == self.entries@[j].0@);
                    let j0 = if j < i { j } else { j + 1 };
                    assert(m0.entries@[j0] == self.entries@[j]);
                    assert(m0.keys()[j0] == x && m0.keys()[i as int] == key@);
                    order::lemma_precedes_irreflexive(x);
                }
                if m0@.contains_key(x) && x != key@ {
                    let j = choose|j: int| 0 <= j < m0.keys().len() && m0.keys()[j] == x;
                    assert(m0.keys()[j] == m0.entries@[j].0@);
                    let j1 = if j < i { j } else { j - 1 };
                    assert(m0.entries@[j] == self.entries@[j1]);
                }
            }
            assert forall|x: Seq<char>| self@.contains_key(x) implies #[trigger] self@[x]
                == m0@[x] by {
                let j = choose|j: int| 0 <= j < self.keys().len() && self.keys()[j] == x;
                assert(self.keys()[j] == self.entries@[j].0@);
                let j0 = if j < i { j } else { j + 1 };
                assert(m0.entries@[j0] == self.entries@[j]);
            }
            assert(self@ =~= m0@.remove(key@));
        }
        Some(prior)
    }

    /// Drop every entry.
    pub fn clear(&mut self)
        ensures
            final(self)@ == Map::<Seq<char>, V::V>::empty(),
    {
        *self = StringMap::new();
    }
}

impl<V: DeepView> Default for StringMap<V> {
    fn default() -> (m: Self)
        ensures
            m@ == Map::<Seq<char>, V::V>::empty(),
    {
        StringMap::new()
    }
}

impl<V: Duplicate> Duplicate for StringMap<V> {
    fn duplicate(&self) -> (copy: Self) {
        proof {
            use_type_invariant(self);
            self.lemma_entries();
        }
        let mut entries: Vec<(String, V)> = Vec::new();
        let mut i: usize = 0;
        while i < self.entries.len()
            invariant
                i <= self.entries@.len(),
                entries@.len() == i,
                forall|j: int|
                    0 <= j < i ==> (#[trigger] entries@[j]).0@ == self.entries@[j].0@
                        && entries@[j].1.deep_view() == self.entries@[j].1.deep_view(),
            decreases self.entries@.len() - i,
        {
            entries.push((self.entries[i].0.clone(), self.entries[i].1.duplicate()));
            i += 1;
        }
        proof {
            let keys = entries@.map_values(|e: (String, V)| e.0@);
            assert(keys =~= self.keys());
        }
        let copy = StringMap { entries };
        proof {
            assert(copy.keys() =~= self.keys());
            assert(copy@ =~= self@);
        }
        copy
    }
}

impl<V: Duplicate> Clone for StringMap<V> {
    fn clone(&self) -> (copy: Self)
        ensures
            copy@ == self@,
    {
        self.duplicate()
    }
}

/// A set of texts, kept in increasing order.
#[derive(Debug, PartialEq, Eq)]
pub struct StringSet {
    members: StringMap<bool>,
}

impl View for StringSet {
    type V = Set<Seq<char>>;

    closed spec fn view(&self) -> Set<Seq<char>> {
        self.members@.dom()
    }
}

impl DeepView for StringSet {
    type V = Set<Seq<char>>;

    open spec fn deep_view(&self) -> Set<Seq<char>> {
        self@
    }
}

impl StringSet {
    /// The empty set.
    pub fn new() -> (s: Self)
        ensures
            s@ == Set::<Seq<char>>::empty(),
    {
        let s = StringSet { members: StringMap::new() };
        assert(s@ =~= Set::<Seq<char>>::empty());
        s
    }

    /// The set of `names`.
    pub fn from_names(names: Vec<String>) -> (s: Self)
        ensures
            s@ == names.deep_view().to_set(),
    {
        let mut s = StringSet::new();
        let mut i: usize = 0;
        assert(s@ =~= names.deep_view().take(0).to_set());
        while i < names.len()
            invariant
                i <= names.len(),
                s@ == names.deep_view().take(i as int).to_set(),
            decreases names.len() - i,
        {
            s.insert(names[i].clone());
            proof {
                let texts = names.deep_view();
                assert(texts.take(i + 1) =~= texts.take(i as int).push(texts[i as int]));
                assert(texts.take(i + 1).to_set() =~= texts.take(i as int).to_set().insert(
                    texts[i as int],
                )) by {
                    assert forall|t: Seq<char>| texts.take(i + 1).contains(t) == (texts.take(
                        i as int,
                    ).contains(t) || t == texts[i as int]) by {
                        if texts.take(i as int).contains(t) {
                            let j = choose|j: int|
                                0 <= j < i && texts.take(i as int)[j] == t;
                            assert(texts.take(i + 1)[j] == t);
                        }
                        if t == texts[i as int] {
                            assert(texts.take(i + 1)[i as int] == t);
                        }
                    }
                }
            }
            i += 1;
        }
        assert(names.deep_view().take(i as int) =~= names.deep_view());
        s
    }

    /// The number of members.
    pub fn len(&self) -> (n: usize)
        ensures
            n == self@.len(),
            n == order::sorted_keys(self@).len(),
            self@.finite(),
            order::is_sorted(order::sorted_keys(self@)),
            order::sorted_keys(self@).to_set() == self@,
    {
        self.members.len()
    }

    /// Whether the set has no member.
    pub fn is_empty(&self) -> (b: bool)
        ensures
            b == (self@ == Set::<Seq<char>>::empty()),
            b == (forall|k: Seq<char>| !self@.contains(k)),
    {
        proof {
            if self@ == Set::<Seq<char>>::empty() {
                assert(self.members@ =~= Map::<Seq<char>, bool>::empty());
            }
            assert((forall|k: Seq<char>| !self@.contains(k)) ==> self@ =~= Set::empty());
        }
        self.members.is_empty()
    }

    /// The member at position `i` of the order.
    pub fn at(&self, i: usize) -> (k: &String)
        requires
            i < self@.len(),
        ensures
            k@ == order::sorted_keys(self@)[i as int],
            self@.contains(k@),
    {
        self.members.key_at(i)
    }

    /// Whether `key` is a member.
    pub fn contains(&self, key: &str) -> (b: bool)
        ensures
            b == self@.contains(key@),
    {
        self.members.contains_key(key)
    }

    /// Add `key`; tells whether it was new.
    pub fn insert(&mut self, key: String) -> (added: bool)
        ensures
            final(self)@ == old(self)@.insert(key@),
            added == !old(self)@.contains(key@),
    {
        let prior = self.members.insert(key, true);
        assert(self@ =~= old(self)@.insert(key@));
        prior.is_none()
    }

    /// Drop `key`; tells whether it was there.
    pub fn remove(&mut self, key: &str) -> (removed: bool)
        ensures
            final(self)@ == old(self)@.remove(key@),
            removed == old(self)@.contains(key@),
    {
        let prior = self.members.remove(key);
        assert(self@ =~= old(self)@.remove(key@));
        prior.is_some()
    }

    /// Drop every member.
    pub fn clear(&mut self)
        ensures
            final(self)@ == Set::<Seq<char>>::empty(),
    {
        self.members.clear();
        assert(self@ =~= Set::<Seq<char>>::empty());
    }
}

impl Default for StringSet {
    fn default() -> (s: Self)
        ensures
            s@ == Set::<Seq<char>>::empty(),
    {
        StringSet::new()
    }
}

impl Duplicate for StringSet {
    fn duplicate(&self) -> (copy: Self) {
        StringSet { members: self.members.duplicate() }
    }
}

impl Clone for StringSet {
    fn clone(&self) -> (copy: Self)
        ensures
            copy@ == self@,
    {
        self.duplicate()
    }
}

} // verus!
