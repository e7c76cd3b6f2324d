//! The lexicographic order on byte strings by which paths are sorted, its
//! laws, and a sort that follows it.

use vstd::prelude::*;

verus! {

/// `a` comes no later than `b` when both are compared from position `i` on.
pub open spec fn le_from(a: Seq<u8>, b: Seq<u8>, i: int) -> bool
    decreases a.len() - i,
{
    if i >= a.len() {
        true
    } else if i >= b.len() {
        false
    } else if a[i] != b[i] {
        a[i] < b[i]
    } else {
        le_from(a, b, i + 1)
    }
}

/// Lexicographic order on byte strings: a proper prefix comes first.
pub open spec fn bytes_le(a: Seq<u8>, b: Seq<u8>) -> bool {
    le_from(a, b, 0)
}

/// Strict lexicographic order on byte strings.
pub open spec fn bytes_lt(a: Seq<u8>, b: Seq<u8>) -> bool {
    !bytes_le(b, a)
}

proof fn lemma_le_from_reflexive(a: Seq<u8>, i: int)
    requires
        0 <= i,
    ensures
        le_from(a, a, i),
    decreases a.len() - i,
{
    if i < a.len() {
        lemma_le_from_reflexive(a, i + 1);
    }
}

proof fn lemma_le_from_total(a: Seq<u8>, b: Seq<u8>, i: int)
    requires
        0 <= i,
    ensures
        le_from(a, b, i) || le_from(b, a, i),
    decreases a.len() - i,
{
    if i < a.len() && i < b.len() && a[i] == b[i] {
        lemma_le_from_total(a, b, i + 1);
    }
}

proof fn lemma_le_from_antisymmetric(a: Seq<u8>, b: Seq<u8>, i: int)
    requires
        0 <= i <= a.len(),
        i <= b.len(),
        le_from(a, b, i),
        le_from(b, a, i),
    ensures
        a.subrange(i, a.len() as int) == b.subrange(i, b.len() as int),
    decreases a.len() - i,
{
    if i < a.len() {
        lemma_le_from_antisymmetric(a, b, i + 1);
        assert(a.subrange(i, a.len() as int) =~= seq![a[i]] + a.subrange(i + 1, a.len() as int));
        assert(b.subrange(i, b.len() as int) =~= seq![b[i]] + b.subrange(i + 1, b.len() as int));
    } else {
        assert(a.subrange(i, a.len() as int) =~= b.subrange(i, b.len() as int));
    }
}

proof fn lemma_le_from_transitive(a: Seq<u8>, b: Seq<u8>, c: Seq<u8>, i: int)
    requires
        0 <= i,
        le_from(a, b, i),
        le_from(b, c, i),
    ensures
        le_from(a, c, i),
    decreases a.len() - i,
{
    if i < a.len() && i < b.len() && i < c.len() && a[i] == b[i] && b[i] == c[i] {
        lemma_le_from_transitive(a, b, c, i + 1);
    }
}

/// Every byte string comes no later than itself.
pub proof fn lemma_bytes_le_reflexive(a: Seq<u8>)
    ensures
        bytes_le(a, a),
{
    lemma_le_from_reflexive(a, 0);
}

/// Of two byte strings, one comes no later than the other.
pub proof fn lemma_bytes_le_total(a: Seq<u8>, b: Seq<u8>)
    ensures
        bytes_le(a, b) || bytes_le(b, a),
{
    lemma_le_from_total(a, b, 0);
}

/// Two byte strings that each come no later than the other are equal.
pub proof fn lemma_bytes_le_antisymmetric(a: Seq<u8>, b: Seq<u8>)
    requires
        bytes_le(a, b),
        bytes_le(b, a),
    ensures
        a == b,
{
    lemma_le_from_antisymmetric(a, b, 0);
    assert(a.subrange(0, a.len() as int) == a);
    assert(b.subrange(0, b.len() as int) == b);
}

/// The order on byte strings is transitive.
pub proof fn lemma_bytes_le_transitive(a: Seq<u8>, b: Seq<u8>, c: Seq<u8>)
    requires
        bytes_le(a, b),
        bytes_le(b, c),
    ensures
        bytes_le(a, c),
{
    lemma_le_from_transitive(a, b, c, 0);
}

/// Decides `bytes_le(a, b)`.
pub fn bytes_le_exec(a: &[u8], b: &[u8]) -> (r: bool)
    ensures
        r == bytes_le(a@, b@),
{
    let mut i: usize = 0;
    while i < a.len() && i < b.len() && a[i] == b[i]
        invariant
            i <= a.len(),
            i <= b.len(),
            le_from(a@, b@, 0) == le_from(a@, b@, i as int),
        decreases a.len() - i,
    {
        i = i + 1;
    }
    if i >= a.len() {
        true
    } else if i >= b.len() {
        false
    } else {
        a[i] < b[i]
    }
}

/// The three-way comparison that `bytes_le` defines.
pub open spec fn bytes_cmp(a: Seq<u8>, b: Seq<u8>) -> core::cmp::Ordering {
    if a == b {
        core::cmp::Ordering::Equal
    } else if bytes_le(a, b) {
        core::cmp::Ordering::Less
    } else {
        core::cmp::Ordering::Greater
    }
}

/// Decides `bytes_cmp(a, b)`.
pub fn bytes_cmp_exec(a: &[u8], b: &[u8]) -> (r: core::cmp::Ordering)
    ensures
        r == bytes_cmp(a@, b@),
{
    let le = bytes_le_exec(a, b);
    let ge = bytes_le_exec(b, a);
    proof {
        if le && ge {
            lemma_bytes_le_antisymmetric(a@, b@);
        }
        if a@ == b@ {
            lemma_bytes_le_reflexive(a@);
        }
    }
    if le && ge {
        core::cmp::Ordering::Equal
    } else if le {
        core::cmp::Ordering::Less
    } else {
        core::cmp::Ordering::Greater
    }
}

/// A value that sorts by a byte string.
pub trait Keyed {
    spec fn key_spec(&self) -> Seq<u8>;

    fn key(&self) -> (r: &[u8])
        ensures
            r@ == self.key_spec(),
    ;
}

/// Where `x` goes in `s` when it is placed before the first item from
/// position `p` on that it comes no later than, by `key`.
pub open spec fn insert_pos_from<T>(s: Seq<T>, x: T, p: int, key: spec_fn(T) -> Seq<u8>) -> int
    decreases s.len() - p,
{
    if p >= s.len() {
        s.len() as int
    } else if bytes_le(key(x), key(s[p])) {
        p
    } else {
        insert_pos_from(s, x, p + 1, key)
    }
}

/// Where insertion sort places `x` in `s`.
pub open spec fn insert_pos<T>(s: Seq<T>, x: T, key: spec_fn(T) -> Seq<u8>) -> int {
    insert_pos_from(s, x, 0, key)
}

/// `s` sorted by `key`: each item in turn is inserted before the first item
/// of those already placed that it comes no later than.
pub open spec fn sort_by<T>(s: Seq<T>, key: spec_fn(T) -> Seq<u8>) -> Seq<T>
    decreases s.len(),
{
    if s.len() == 0 {
        s
    } else {
        let t = sort_by(s.drop_last(), key);
        t.insert(insert_pos(t, s.last(), key), s.last())
    }
}

/// Items of `s` stand in the order of `key`.
pub open spec fn sorted_by<T>(s: Seq<T>, key: spec_fn(T) -> Seq<u8>) -> bool {
    forall|i: int, j: int| 0 <= i < j < s.len() ==> bytes_le(#[trigger] key(s[i]), #[trigger] key(s[j]))
}

/// The key of a `Keyed` value.
pub open spec fn key_of<T: Keyed>(x: &T) -> Seq<u8> {
    x.key_spec()
}

/// `s` sorted by the keys of its items.
pub open spec fn sort_by_key<T: Keyed>(s: Seq<&T>) -> Seq<&T> {
    sort_by(s, |x: &T| key_of(x))
}

proof fn lemma_insert_pos_from<T>(s: Seq<T>, x: T, p: int, key: spec_fn(T) -> Seq<u8>)
    requires
        0 <= p <= s.len(),
    ensures
        p <= insert_pos_from(s, x, p, key) <= s.len(),
        forall|k: int| p <= k < insert_pos_from(s, x, p, key) ==> !bytes_le(key(x), #[trigger] key(s[k])),
        insert_pos_from(s, x, p, key) < s.len() ==> bytes_le(key(x), key(s[insert_pos_from(s, x, p, key)])),
    decreases s.len() - p,
{
    if p < s.len() && !bytes_le(key(x), key(s[p])) {
        lemma_insert_pos_from(s, x, p + 1, key);
    }
}

/// The result of the sort is in key order.
pub proof fn lemma_sort_sorted<T>(s: Seq<T>, key: spec_fn(T) -> Seq<u8>)
    ensures
        sorted_by(sort_by(s, key), key),
    decreases s.len(),
{
    if s.len() > 0 {
        let t = sort_by(s.drop_last(), key);
        let x = s.last();
        lemma_sort_sorted(s.drop_last(), key);
        lemma_insert_pos_from(t, x, 0, key);
        let p = insert_pos(t, x, key);
        let u = t.insert(p, x);
        assert forall|i: int, j: int| 0 <= i < j < u.len() implies bytes_le(
            #[trigger] key(u[i]),
            #[trigger] key(u[j]),
        ) by {
            if i < p && j == p {
                lemma_bytes_le_total(key(t[i]), key(x));
            } else if i < p && j > p {
                lemma_bytes_le_total(key(t[i]), key(x));
                assert(bytes_le(key(t[i]), key(t[j - 1])));
            } else if i == p {
                assert(bytes_le(key(x), key(t[p])));
                if j - 1 > p {
                    assert(bytes_le(key(t[p]), key(t[j - 1])));
                    lemma_bytes_le_transitive(key(x), key(t[p]), key(t[j - 1]));
                }
            } else if i > p {
                assert(bytes_le(key(t[i - 1]), key(t[j - 1])));
            } else {
                assert(bytes_le(key(t[i]), key(t[j])));
            }
        }
    }
}

/// The sort keeps exactly the items it was given.
pub proof fn lemma_sort_permutes<T>(s: Seq<T>, key: spec_fn(T) -> Seq<u8>)
    ensures
        sort_by(s, key).to_multiset() == s.to_multiset(),
    decreases s.len(),
{
    broadcast use vstd::seq_lib::group_to_multiset_ensures;

    if s.len() > 0 {
        let t = sort_by(s.drop_last(), key);
        let x = s.last();
        lemma_sort_permutes(s.drop_last(), key);
        lemma_insert_pos_from(t, x, 0, key);
        let p = insert_pos(t, x, key);
        assert(t.insert(p, x) =~= t.subrange(0, p) + seq![x] + t.subrange(p, t.len() as int));
        assert(t =~= t.subrange(0, p) + t.subrange(p, t.len() as int));
        vstd::seq_lib::lemma_multiset_commutative(t.subrange(0, p) + seq![x], t.subrange(p, t.len() as int));
        vstd::seq_lib::lemma_multiset_commutative(t.subrange(0, p), seq![x]);
        vstd::seq_lib::lemma_multiset_commutative(t.subrange(0, p), t.subrange(p, t.len() as int));
        assert(s =~= s.drop_last().push(x));
    }
}

proof fn lemma_insert_pos_map<A, B>(
    s: Seq<A>,
    x: A,
    p: int,
    f: spec_fn(A) -> B,
    ka: spec_fn(A) -> Seq<u8>,
    kb: spec_fn(B) -> Seq<u8>,
)
    requires
        0 <= p <= s.len(),
        forall|a: A| #[trigger] ka(a) == kb(f(a)),
    ensures
        insert_pos_from(s, x, p, ka) == insert_pos_from(s.map_values(f), f(x), p, kb),
    decreases s.len() - p,
{
    assert(ka(x) == kb(f(x)));
    if p < s.len() {
        assert(ka(s[p]) == kb(f(s[p])));
        lemma_insert_pos_map(s, x, p + 1, f, ka, kb);
    }
}

/// Sorting commutes with a map that keeps keys.
pub proof fn lemma_sort_map<A, B>(
    s: Seq<A>,
    f: spec_fn(A) -> B,
    ka: spec_fn(A) -> Seq<u8>,
    kb: spec_fn(B) -> Seq<u8>,
)
    requires
        forall|a: A| #[trigger] ka(a) == kb(f(a)),
    ensures
        sort_by(s, ka).map_values(f) == sort_by(s.map_values(f), kb),
    decreases s.len(),
{
    if s.len() > 0 {
        let t = sort_by(s.drop_last(), ka);
        let x = s.last();
        lemma_sort_map(s.drop_last(), f, ka, kb);
        assert(s.map_values(f).drop_last() =~= s.drop_last().map_values(f));
        lemma_insert_pos_map(t, x, 0, f, ka, kb);
        lemma_insert_pos_from(t, x, 0, ka);
        let p = insert_pos(t, x, ka);
        assert(t.insert(p, x).map_values(f) =~= t.map_values(f).insert(p, f(x)));
    }
}

/// Sorts references by key, as `sort_by_key` does.
pub fn sort_refs<'a, T: Keyed>(v: Vec<&'a T>) -> (r: Vec<&'a T>)
    ensures
        r@ == sort_by_key(v@),
{
    let mut r: Vec<&'a T> = Vec::new();
    let mut i: usize = 0;
    while i < v.len()
        invariant
            i <= v.len(),
            r@ == sort_by_key(v@.subrange(0, i as int)),
        decreases v.len() - i,
    {
        let x = v[i];
        let mut p: usize = 0;
        while p < r.len() && !bytes_le_exec(x.key(), r[p].key())
            invariant
                p <= r.len(),
                insert_pos(r@, x, |y: &T| key_of(y)) == insert_pos_from(r@, x, p as int, |y: &T| key_of(y)),
            decreases r.len() - p,
        {
            p = p + 1;
        }
        r.insert(p, x);
        assert(v@.subrange(0, i + 1).drop_last() =~= v@.subrange(0, i as int));
        i = i + 1;
    }
    assert(v@.subrange(0, v@.len() as int) =~= v@);
    r
}

/// A sorted view holds each item it was given, and an item whose key is
/// strictly smaller stands before one whose key is larger.
pub proof fn lemma_sorted_view_respects_order<T: Keyed>(s: Seq<&T>, a: &T, b: &T)
    requires
        s.contains(a),
        s.contains(b),
        bytes_lt(a.key_spec(), b.key_spec()),
    ensures
        sort_by_key(s).contains(a),
        sort_by_key(s).contains(b),
        forall|i: int, j: int|
            0 <= i < sort_by_key(s).len() && 0 <= j < sort_by_key(s).len()
                && #[trigger] sort_by_key(s)[i] == a && #[trigger] sort_by_key(s)[j] == b ==> i < j,
{
    broadcast use vstd::seq_lib::group_to_multiset_ensures;

    let key = |x: &T| key_of(x);
    let v = sort_by_key(s);
    lemma_sort_permutes(s, key);
    lemma_sort_sorted(s, key);
    assert(s.to_multiset().count(a) > 0);
    assert(s.to_multiset().count(b) > 0);
    assert forall|i: int, j: int|
        0 <= i < v.len() && 0 <= j < v.len() && #[trigger] v[i] == a && #[trigger] v[j] == b implies i < j by {
        if j < i {
            assert(bytes_le(key(v[j]), key(v[i])));
        } else if i == j {
            lemma_bytes_le_reflexive(a.key_spec());
        }
    }
}

} // verus!
