//! The order in which text keys are kept: by UTF-8 byte values, which is the
//! order of `String`.

use vstd::prelude::*;
use vstd::utf8::*;
use vstd::string::*;

verus! {

/// `a` comes before `b` because of position `i`: they agree before it, and at
/// it `a` has ended or holds the smaller byte.
pub open spec fn precedes_at(a: Seq<u8>, b: Seq<u8>, i: int) -> bool {
    &&& 0 <= i <= a.len()
    &&& i < b.len()
    &&& forall|j: int| 0 <= j < i ==> a[j] == b[j]
    &&& i == a.len() || a[i] < b[i]
}

/// Lexicographic order of byte sequences.
pub open spec fn bytes_precede(a: Seq<u8>, b: Seq<u8>) -> bool {
    exists|i: int| precedes_at(a, b, i)
}

/// Order of texts: lexicographic order of their UTF-8 bytes.
pub open spec fn text_precedes(a: Seq<char>, b: Seq<char>) -> bool {
    bytes_precede(encode_utf8(a), encode_utf8(b))
}

/// Strictly increasing texts.
pub open spec fn is_sorted(keys: Seq<Seq<char>>) -> bool {
    forall|i: int, j: int| 0 <= i < j < keys.len() ==> text_precedes(keys[i], keys[j])
}

/// The elements of a set of texts in increasing order.
pub open spec fn sorted_keys(keys: Set<Seq<char>>) -> Seq<Seq<char>> {
    choose|s: Seq<Seq<char>>| is_sorted(s) && s.to_set() == keys
}

/// A text does not come before itself.
pub proof fn lemma_precedes_irreflexive(a: Seq<char>)
    ensures
        !text_precedes(a, a),
{
}

/// The order of texts is transitive.
pub proof fn lemma_precedes_transitive(a: Seq<char>, b: Seq<char>, c: Seq<char>)
    requires
        text_precedes(a, b),
        text_precedes(b, c),
    ensures
        text_precedes(a, c),
{
    let (x, y, z) = (encode_utf8(a), encode_utf8(b), encode_utf8(c));
    let i = choose|i: int| precedes_at(x, y, i);
    let j = choose|j: int| precedes_at(y, z, j);
    if i < j {
        assert(precedes_at(x, z, i));
    } else {
        assert(precedes_at(x, z, j));
    }
}

/// Texts with the same bytes are the same.
pub proof fn lemma_same_bytes(a: Seq<char>, b: Seq<char>)
    requires
        encode_utf8(a) == encode_utf8(b),
    ensures
        a == b,
{
    encode_utf8_decode_utf8(a);
    encode_utf8_decode_utf8(b);
}

proof fn lemma_sorted_first(s: Seq<Seq<char>>, t: Seq<Seq<char>>)
    requires
        is_sorted(s),
        is_sorted(t),
        s.to_set() == t.to_set(),
        s.len() > 0,
    ensures
        t.len() > 0,
        s[0] == t[0],
{
    assert(t.to_set().contains(s[0]));
    let i = choose|i: int| 0 <= i < t.len() && t[i] == s[0];
    assert(s.to_set().contains(t[0]));
    let j = choose|j: int| 0 <= j < s.len() && s[j] == t[0];
    if i > 0 && j > 0 {
        lemma_precedes_transitive(t[0], t[i], s[j]);
        lemma_precedes_irreflexive(t[0]);
    }
}

proof fn lemma_sorted_tail(s: Seq<Seq<char>>)
    requires
        is_sorted(s),
        s.len() > 0,
    ensures
        is_sorted(s.drop_first()),
        s.drop_first().to_set() == s.to_set().remove(s[0]),
{
    let tail = s.drop_first();
    assert forall|x: Seq<char>| tail.to_set().contains(x) == s.to_set().remove(s[0]).contains(x) by {
        if tail.to_set().contains(x) {
            let i = choose|i: int| 0 <= i < tail.len() && tail[i] == x;
            assert(s[i + 1] == x);
            lemma_precedes_irreflexive(x);
        }
        if s.to_set().remove(s[0]).contains(x) {
            let i = choose|i: int| 0 <= i < s.len() && s[i] == x;
            assert(tail[i - 1] == x);
        }
    }
    assert(tail.to_set() =~= s.to_set().remove(s[0]));
}

/// A set of texts has one increasing listing.
pub proof fn lemma_sorted_unique(s: Seq<Seq<char>>, t: Seq<Seq<char>>)
    requires
        is_sorted(s),
        is_sorted(t),
        s.to_set() == t.to_set(),
    ensures
        s == t,
    decreases s.len(),
{
    if s.len() == 0 {
        if t.len() > 0 {
            lemma_sorted_first(t, s);
        }
        assert(s =~= t);
    } else {
        lemma_sorted_first(s, t);
        lemma_sorted_tail(s);
        lemma_sorted_tail(t);
        lemma_sorted_unique(s.drop_first(), t.drop_first());
        assert(s =~= seq![s[0]] + s.drop_first());
        assert(t =~= seq![t[0]] + t.drop_first());
    }
}

/// An increasing listing of a set is the listing `sorted_keys` gives.
pub proof fn lemma_sorted_keys(s: Seq<Seq<char>>)
    requires
        is_sorted(s),
    ensures
        sorted_keys(s.to_set()) == s,
        s.no_duplicates(),
        s.to_set().finite(),
        s.to_set().len() == s.len(),
{
    let t = sorted_keys(s.to_set());
    assert(is_sorted(s) && s.to_set() == s.to_set());
    lemma_sorted_unique(s, t);
    assert forall|i: int, j: int| 0 <= i < j < s.len() implies s[i] != s[j] by {
        lemma_precedes_irreflexive(s[i]);
    }
    s.unique_seq_to_set();
    vstd::seq_lib::seq_to_set_is_finite(s);
}

/// Of two different texts one comes before the other.
pub proof fn lemma_precedes_total(a: Seq<char>, b: Seq<char>)
    ensures
        a == b || text_precedes(a, b) || text_precedes(b, a),
{
    lemma_bytes_total(encode_utf8(a), encode_utf8(b), 0);
    if encode_utf8(a) == encode_utf8(b) {
        lemma_same_bytes(a, b);
    }
}

proof fn lemma_bytes_total(a: Seq<u8>, b: Seq<u8>, i: int)
    requires
        0 <= i <= a.len(),
        i <= b.len(),
        forall|j: int| 0 <= j < i ==> a[j] == b[j],
    ensures
        a == b || bytes_precede(a, b) || bytes_precede(b, a),
    decreases a.len() - i,
{
    if i == a.len() && i == b.len() {
        assert(a =~= b);
    } else if i == a.len() || (i < b.len() && a[i] < b[i]) {
        assert(precedes_at(a, b, i));
    } else if i == b.len() || b[i] < a[i] {
        assert(precedes_at(b, a, i));
    } else {
        lemma_bytes_total(a, b, i + 1);
    }
}

/// A sorted listing with one more text, behind the last that precedes it.
proof fn lemma_insert_sorted(s: Seq<Seq<char>>, x: Seq<char>) -> (t: Seq<Seq<char>>)
    requires
        is_sorted(s),
        !s.contains(x),
    ensures
        is_sorted(t),
        t.to_set() == s.to_set().insert(x),
    decreases s.len(),
{
    if s.len() == 0 {
        let t = seq![x];
        assert(t.to_set() =~= s.to_set().insert(x)) by {
            assert(t[0] == x);
        }
        t
    } else {
        let last = s.last();
        let front = s.drop_last();
        assert(s[s.len() - 1] == last);
        lemma_precedes_total(last, x);
        if text_precedes(last, x) {
            let t = s.push(x);
            assert forall|i: int, j: int| 0 <= i < j < t.len() implies text_precedes(
                t[i],
                t[j],
            ) by {
                if j == s.len() && i < s.len() - 1 {
                    lemma_precedes_transitive(s[i], last, x);
                }
            }
            assert forall|k: Seq<char>| t.to_set().contains(k) == s.to_set().insert(x).contains(
                k,
            ) by {
                if s.contains(k) {
                    let i = choose|i: int| 0 <= i < s.len() && s[i] == k;
                    assert(t[i] == k);
                }
                assert(t[s.len() as int] == x);
            }
            assert(t.to_set() =~= s.to_set().insert(x));
            t
        } else {
            assert(!front.contains(x)) by {
                if front.contains(x) {
                    let i = choose|i: int| 0 <= i < front.len() && front[i] == x;
                    assert(s[i] == x);
                }
            }
            let part = lemma_insert_sorted(front, x);
            let t = part.push(last);
            assert forall|i: int, j: int| 0 <= i < j < t.len() implies text_precedes(
                t[i],
                t[j],
            ) by {
                if j == part.len() {
                    assert(part.to_set().contains(part[i]));
                    if part[i] != x {
                        assert(front.to_set().contains(part[i]));
                        let k = choose|k: int| 0 <= k < front.len() && front[k] == part[i];
                        assert(text_precedes(s[k], s[s.len() - 1]));
                    }
                }
            }
            assert forall|k: Seq<char>| t.to_set().contains(k) == s.to_set().insert(x).contains(
                k,
            ) by {
                assert(part.to_set().contains(k) == front.to_set().insert(x).contains(k));
                if t.contains(k) {
                    let i = choose|i: int| 0 <= i < t.len() && t[i] == k;
                    if i < part.len() {
                        assert(part[i] == k);
                        assert(part.to_set().contains(k));
                        if k != x {
                            let j = choose|j: int| 0 <= j < front.len() && front[j] == k;
                            assert(s[j] == k);
                        }
                    }
                }
                if s.contains(k) || k == x {
                    if k == last {
                        assert(t[part.len() as int] == k);
                    } else {
                        if s.contains(k) {
                            let i = choose|i: int| 0 <= i < s.len() && s[i] == k;
                            assert(front[i] == k);
                        }
                        assert(part.to_set().contains(k));
                        let i = choose|i: int| 0 <= i < part.len() && part[i] == k;
                        assert(t[i] == k);
                    }
                }
            }
            assert(t.to_set() =~= s.to_set().insert(x));
            t
        }
    }
}

/// Every finite set of texts has a sorted listing, as long as the set.
pub proof fn lemma_sorted_keys_of_set(keys: Set<Seq<char>>)
    requires
        keys.finite(),
    ensures
        is_sorted(sorted_keys(keys)),
        sorted_keys(keys).to_set() == keys,
        sorted_keys(keys).len() == keys.len(),
{
    let s = lemma_listing(keys);
    lemma_sorted_keys(s);
}

proof fn lemma_listing(keys: Set<Seq<char>>) -> (s: Seq<Seq<char>>)
    requires
        keys.finite(),
    ensures
        is_sorted(s),
        s.to_set() == keys,
    decreases keys.len(),
{
    if keys.len() == 0 {
        let s = Seq::<Seq<char>>::empty();
        assert(s.to_set() =~= keys);
        s
    } else {
        let x = keys.choose();
        let rest = keys.remove(x);
        let part = lemma_listing(rest);
        assert(!part.contains(x)) by {
            if part.contains(x) {
                assert(part.to_set().contains(x));
            }
        }
        let s = lemma_insert_sorted(part, x);
        assert(rest.insert(x) =~= keys);
        s
    }
}

/// How one text stands to another.
#[derive(Clone, Copy, Debug, PartialEq, Eq, Structural)]
pub enum Rank {
    Before,
    Same,
    After,
}

/// Compare two texts.
pub fn rank(a: &str, b: &str) -> (r: Rank)
    ensures
        (r is Before) == text_precedes(a@, b@),
        (r is Same) == (a@ == b@),
        (r is After) == text_precedes(b@, a@),
{
    let x = a.as_bytes();
    let y = b.as_bytes();
    let n: usize = x.len();
    let m: usize = y.len();
    let mut i: usize = 0;
    proof {
        lemma_precedes_irreflexive(a@);
        if text_precedes(a@, b@) && text_precedes(b@, a@) {
            lemma_precedes_transitive(a@, b@, a@);
        }
    }
    while i < n && i < m
        invariant
            n == x@.len(),
            m == y@.len(),
            i <= n,
            i <= m,
            x@ == encode_utf8(a@),
            y@ == encode_utf8(b@),
            !text_precedes(a@, a@),
            !(text_precedes(a@, b@) && text_precedes(b@, a@)),
            forall|j: int| 0 <= j < i ==> x@[j] == y@[j],
        decreases n - i,
    {
        if x[i] < y[i] {
            proof {
                assert(precedes_at(x@, y@, i as int));
            }
            return Rank::Before;
        }
        if y[i] < x[i] {
            proof {
                assert(precedes_at(y@, x@, i as int));
            }
            return Rank::After;
        }
        i += 1;
    }
    if n < m {
        proof {
            assert(precedes_at(x@, y@, i as int));
        }
        Rank::Before
    } else if m < n {
        proof {
            assert(precedes_at(y@, x@, i as int));
        }
        Rank::After
    } else {
        proof {
            assert(x@ =~= y@);
            lemma_same_bytes(a@, b@);
        }
        Rank::Same
    }
}

/// Whether two texts are equal.
pub fn same_text(a: &str, b: &str) -> (r: bool)
    ensures
        r == (a@ == b@),
{
    match rank(a, b) {
        Rank::Same => true,
        _ => false,
    }
}

} // verus!
