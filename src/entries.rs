//! The mathematical model shared by every strategy: the stored entries as a
//! sequence of `(key, value)` pairs in increasing key order.
use vstd::prelude::*;
use crate::keys::{lemma_asymmetric, KeyBounds};

verus! {

/// Keys strictly increase along the sequence.
pub open spec fn sorted_keys<K: KeyBounds, V>(s: Seq<(K, V)>) -> bool {
    forall|i: int, j: int| 0 <= i < j < s.len() ==> (#[trigger] s[i].0).precedes(#[trigger] s[j].0)
}

/// Number of entries whose key comes strictly before `k`.
pub open spec fn count_less<K: KeyBounds, V>(s: Seq<(K, V)>, k: K) -> nat
    decreases s.len(),
{
    if s.len() == 0 {
        0
    } else {
        count_less(s.drop_last(), k) + if s.last().0.precedes(k) {
            1nat
        } else {
            0nat
        }
    }
}

/// Whether `k` is one of the stored keys (in a sorted sequence it sits at its rank).
pub open spec fn has_key<K: KeyBounds, V>(s: Seq<(K, V)>, k: K) -> bool {
    count_less(s, k) < s.len() && s[count_less(s, k) as int].0 == k
}

/// The entries after `add(k, v)`: the value of an existing key is replaced,
/// otherwise the pair is inserted at its rank.
pub open spec fn add_entry<K: KeyBounds, V>(s: Seq<(K, V)>, k: K, v: V) -> Seq<(K, V)> {
    if has_key(s, k) {
        s.update(count_less(s, k) as int, (k, v))
    } else {
        s.insert(count_less(s, k) as int, (k, v))
    }
}

/// The key of rank `i`, if there is one.
pub open spec fn select_key<K, V>(s: Seq<(K, V)>, i: int) -> Option<K> {
    if 0 <= i < s.len() {
        Some(s[i].0)
    } else {
        None
    }
}

/// The value stored under `k`, if any.
pub open spec fn value_of<K: KeyBounds, V>(s: Seq<(K, V)>, k: K) -> Option<V> {
    if has_key(s, k) {
        Some(s[count_less(s, k) as int].1)
    } else {
        None
    }
}

/// Every key of `s` comes before `m`.
pub open spec fn all_below<K: KeyBounds, V>(s: Seq<(K, V)>, m: K) -> bool {
    forall|i: int| 0 <= i < s.len() ==> (#[trigger] s[i].0).precedes(m)
}

/// Every key of `s` comes after `m`.
pub open spec fn all_above<K: KeyBounds, V>(s: Seq<(K, V)>, m: K) -> bool {
    forall|i: int| 0 <= i < s.len() ==> m.precedes(#[trigger] s[i].0)
}

/// The entries of a node: those of its left part, its own pair, those of its right part.
pub open spec fn join<K, V>(a: Seq<(K, V)>, e: (K, V), b: Seq<(K, V)>) -> Seq<(K, V)> {
    a + seq![e] + b
}

pub proof fn lemma_count_less_bound<K: KeyBounds, V>(s: Seq<(K, V)>, k: K)
    ensures
        count_less(s, k) <= s.len(),
    decreases s.len(),
{
    if s.len() > 0 {
        lemma_count_less_bound(s.drop_last(), k);
    }
}

/// In a sorted sequence the entries below `count_less(s, k)` are exactly those
/// whose key comes before `k`.
pub proof fn lemma_count_less_split<K: KeyBounds, V>(s: Seq<(K, V)>, k: K)
    requires
        sorted_keys(s),
    ensures
        count_less(s, k) <= s.len(),
        forall|i: int| 0 <= i < count_less(s, k) ==> (#[trigger] s[i].0).precedes(k),
        forall|i: int| count_less(s, k) <= i < s.len() ==> !(#[trigger] s[i].0).precedes(k),
    decreases s.len(),
{
    if s.len() > 0 {
        let t = s.drop_last();
        assert(sorted_keys(t));
        lemma_count_less_split(t, k);
        let n = s.len() - 1;
        if s.last().0.precedes(k) {
            assert forall|i: int| 0 <= i < count_less(s, k) implies (#[trigger] s[i].0).precedes(k) by {
                if i < n {
                    assert(s[i].0.precedes(s[n].0));
                    K::lemma_transitive(s[i].0, s[n].0, k);
                }
            }
            assert(count_less(t, k) == n) by {
                if count_less(t, k) < n {
                    let c = count_less(t, k) as int;
                    assert(t[c].0 == s[c].0);
                    assert(s[c].0.precedes(s[n].0));
                    K::lemma_transitive(s[c].0, s[n].0, k);
                }
            }
        } else {
            assert forall|i: int| 0 <= i < count_less(s, k) implies (#[trigger] s[i].0).precedes(k) by {
                assert(t[i].0 == s[i].0);
            }
            assert forall|i: int| count_less(s, k) <= i < s.len() implies !(#[trigger] s[i].0).precedes(k) by {
                if i < n {
                    assert(t[i].0 == s[i].0);
                }
            }
        }
    }
}

/// A split point of a sorted sequence around `k` is `count_less(s, k)`.
pub proof fn lemma_count_less_unique<K: KeyBounds, V>(s: Seq<(K, V)>, k: K, r: int)
    requires
        sorted_keys(s),
        0 <= r <= s.len(),
        forall|i: int| 0 <= i < r ==> (#[trigger] s[i].0).precedes(k),
        forall|i: int| r <= i < s.len() ==> !(#[trigger] s[i].0).precedes(k),
    ensures
        count_less(s, k) == r,
{
    lemma_count_less_split(s, k);
    let c = count_less(s, k) as int;
    if c < r {
        assert(s[c].0.precedes(k));
    } else if r < c {
        assert(s[r].0.precedes(k));
    }
}

/// In a sorted sequence, `has_key` says that some entry carries the key.
pub proof fn lemma_has_key<K: KeyBounds, V>(s: Seq<(K, V)>, k: K)
    requires
        sorted_keys(s),
    ensures
        has_key(s, k) <==> exists|i: int| 0 <= i < s.len() && #[trigger] s[i].0 == k,
{
    lemma_count_less_split(s, k);
    K::lemma_irreflexive(k);
    if exists|i: int| 0 <= i < s.len() && #[trigger] s[i].0 == k {
        let i = choose|i: int| 0 <= i < s.len() && #[trigger] s[i].0 == k;
        let c = count_less(s, k) as int;
        if c < i {
            assert(s[c].0.precedes(s[i].0));
        } else if i < c {
            assert(s[i].0.precedes(k));
        }
    }
}

/// Adding keeps the keys sorted.
pub proof fn lemma_add_entry_sorted<K: KeyBounds, V>(s: Seq<(K, V)>, k: K, v: V)
    requires
        sorted_keys(s),
    ensures
        sorted_keys(add_entry(s, k, v)),
{
    lemma_count_less_split(s, k);
    let c = count_less(s, k) as int;
    let t = add_entry(s, k, v);
    if !has_key(s, k) {
        assert forall|i: int, j: int| 0 <= i < j < t.len() implies (#[trigger] t[i].0).precedes(
            #[trigger] t[j].0,
        ) by {
            if i < c && j == c {
            } else if i == c {
                let x = s[j - 1].0;
                if j - 1 > c {
                    assert(s[c].0.precedes(x));
                    if x == k {
                        assert(!s[c].0.precedes(k));
                    }
                }
                K::lemma_total(k, x);
            } else if i < c && j > c {
                assert(t[i] == s[i] && t[j] == s[j - 1]);
                assert(s[i].0.precedes(s[j - 1].0));
            } else if j < c {
                assert(t[i] == s[i] && t[j] == s[j]);
            } else {
                assert(t[i] == s[i - 1] && t[j] == s[j - 1]);
                assert(s[i - 1].0.precedes(s[j - 1].0));
            }
        }
    } else {
        assert forall|i: int, j: int| 0 <= i < j < t.len() implies (#[trigger] t[i].0).precedes(
            #[trigger] t[j].0,
        ) by {
            assert(t[i].0 == s[i].0 && t[j].0 == s[j].0);
        }
    }
}

/// A join of two sorted sequences around a separating key is sorted.
pub proof fn lemma_join_sorted<K: KeyBounds, V>(a: Seq<(K, V)>, e: (K, V), b: Seq<(K, V)>)
    requires
        sorted_keys(a),
        sorted_keys(b),
        all_below(a, e.0),
        all_above(b, e.0),
    ensures
        sorted_keys(join(a, e, b)),
        join(a, e, b).len() == a.len() + 1 + b.len(),
{
    let s = join(a, e, b);
    let n = a.len() as int;
    assert forall|i: int, j: int| 0 <= i < j < s.len() implies (#[trigger] s[i].0).precedes(
        #[trigger] s[j].0,
    ) by {
        if j < n {
            assert(s[i] == a[i] && s[j] == a[j]);
        } else if j == n {
            assert(s[i] == a[i]);
        } else if i < n {
            assert(s[i] == a[i] && s[j] == b[j - n - 1]);
            assert(a[i].0.precedes(e.0));
            assert(e.0.precedes(b[j - n - 1].0));
            K::lemma_transitive(a[i].0, e.0, b[j - n - 1].0);
        } else if i == n {
            assert(s[j] == b[j - n - 1]);
        } else {
            assert(s[i] == b[i - n - 1] && s[j] == b[j - n - 1]);
        }
    }
}

/// Rank in a join: up to the separator it is the rank in the left part,
/// past it the left part, the separator and the rank in the right part.
pub proof fn lemma_join_count_less<K: KeyBounds, V>(a: Seq<(K, V)>, e: (K, V), b: Seq<(K, V)>, k: K)
    requires
        sorted_keys(a),
        sorted_keys(b),
        all_below(a, e.0),
        all_above(b, e.0),
    ensures
        count_less(join(a, e, b), k) == if !e.0.precedes(k) {
            count_less(a, k)
        } else {
            a.len() + 1 + count_less(b, k)
        },
{
    let s = join(a, e, b);
    let n = a.len() as int;
    lemma_join_sorted(a, e, b);
    if !e.0.precedes(k) {
        lemma_count_less_split(a, k);
        let c = count_less(a, k) as int;
        assert forall|i: int| 0 <= i < c implies (#[trigger] s[i].0).precedes(k) by {
            assert(s[i] == a[i]);
        }
        assert forall|i: int| c <= i < s.len() implies !(#[trigger] s[i].0).precedes(k) by {
            if i < n {
                assert(s[i] == a[i]);
            } else if i > n {
                assert(s[i] == b[i - n - 1]);
                assert(e.0.precedes(b[i - n - 1].0));
                if b[i - n - 1].0.precedes(k) {
                    K::lemma_transitive(e.0, b[i - n - 1].0, k);
                }
            }
        }
        lemma_count_less_unique(s, k, c);
    } else {
        lemma_count_less_split(b, k);
        let c = n + 1 + count_less(b, k);
        assert forall|i: int| 0 <= i < c implies (#[trigger] s[i].0).precedes(k) by {
            if i < n {
                assert(s[i] == a[i]);
                assert(a[i].0.precedes(e.0));
                K::lemma_transitive(a[i].0, e.0, k);
            } else if i > n {
                assert(s[i] == b[i - n - 1]);
            }
        }
        assert forall|i: int| c <= i < s.len() implies !(#[trigger] s[i].0).precedes(k) by {
            assert(s[i] == b[i - n - 1]);
        }
        lemma_count_less_unique(s, k, c);
    }
}

/// Adding to a join goes to the side of the separator where the key belongs,
/// or replaces the separator's value.
pub proof fn lemma_join_add<K: KeyBounds, V>(a: Seq<(K, V)>, e: (K, V), b: Seq<(K, V)>, k: K, v: V)
    requires
        sorted_keys(a),
        sorted_keys(b),
        all_below(a, e.0),
        all_above(b, e.0),
    ensures
        add_entry(join(a, e, b), k, v) == if k.precedes(e.0) {
            join(add_entry(a, k, v), e, b)
        } else if k == e.0 {
            join(a, (k, v), b)
        } else {
            join(a, e, add_entry(b, k, v))
        },
        has_key(join(a, e, b), k) == if k.precedes(e.0) {
            has_key(a, k)
        } else if k == e.0 {
            true
        } else {
            has_key(b, k)
        },
        value_of(join(a, e, b), k) == if k.precedes(e.0) {
            value_of(a, k)
        } else if k == e.0 {
            Some(e.1)
        } else {
            value_of(b, k)
        },
{
    let s = join(a, e, b);
    let n = a.len() as int;
    K::lemma_total(k, e.0);
    K::lemma_irreflexive(k);
    lemma_join_count_less(a, e, b, k);
    lemma_count_less_split(a, k);
    lemma_count_less_split(b, k);
    if k.precedes(e.0) {
        lemma_asymmetric(k, e.0);
        let c = count_less(a, k) as int;
        if c < n {
            assert(s[c] == a[c]);
        } else {
            assert(s[n] == e);
        }
        assert(has_key(s, k) == has_key(a, k));
        assert(add_entry(s, k, v) =~= join(add_entry(a, k, v), e, b));
    } else if k == e.0 {
        let c = count_less(a, k) as int;
        if c < n {
            assert(a[c].0.precedes(e.0));
        }
        assert(s[n] == e);
        assert(add_entry(s, k, v) =~= join(a, (k, v), b));
    } else {
        lemma_asymmetric(e.0, k);
        let c = count_less(b, k) as int;
        if c < b.len() {
            assert(s[n + 1 + c] == b[c]);
        }
        assert(has_key(s, k) == has_key(b, k));
        assert(add_entry(s, k, v) =~= join(a, e, add_entry(b, k, v)));
    }
}

/// The key of rank `i` in a join.
pub proof fn lemma_join_index<K, V>(a: Seq<(K, V)>, e: (K, V), b: Seq<(K, V)>, i: int)
    requires
        0 <= i < a.len() + 1 + b.len(),
    ensures
        join(a, e, b)[i] == if i < a.len() {
            a[i]
        } else if i == a.len() {
            e
        } else {
            b[i - a.len() - 1]
        },
{
}

/// Adding a key below (above) a bound keeps every key below (above) it;
/// the length grows by one exactly when the key is new.
pub proof fn lemma_add_entry_bounds<K: KeyBounds, V>(s: Seq<(K, V)>, k: K, v: V, m: K)
    ensures
        all_below(s, m) && k.precedes(m) ==> all_below(add_entry(s, k, v), m),
        all_above(s, m) && m.precedes(k) ==> all_above(add_entry(s, k, v), m),
        add_entry(s, k, v).len() == s.len() + if has_key(s, k) {
            0int
        } else {
            1int
        },
{
    lemma_count_less_bound(s, k);
    let t = add_entry(s, k, v);
    let c = count_less(s, k) as int;
    if !has_key(s, k) {
        if all_below(s, m) && k.precedes(m) {
            assert forall|i: int| 0 <= i < t.len() implies (#[trigger] t[i].0).precedes(m) by {
                if i < c {
                    assert(t[i] == s[i]);
                } else if i > c {
                    assert(t[i] == s[i - 1]);
                }
            }
        }
        if all_above(s, m) && m.precedes(k) {
            assert forall|i: int| 0 <= i < t.len() implies m.precedes(#[trigger] t[i].0) by {
                if i < c {
                    assert(t[i] == s[i]);
                } else if i > c {
                    assert(t[i] == s[i - 1]);
                }
            }
        }
    } else {
        if all_below(s, m) && k.precedes(m) {
            assert forall|i: int| 0 <= i < t.len() implies (#[trigger] t[i].0).precedes(m) by {
                if i != c {
                    assert(t[i] == s[i]);
                }
            }
        }
        if all_above(s, m) && m.precedes(k) {
            assert forall|i: int| 0 <= i < t.len() implies m.precedes(#[trigger] t[i].0) by {
                if i != c {
                    assert(t[i] == s[i]);
                }
            }
        }
    }
}

/// Bounds on the keys of a join are bounds on its three parts.
pub proof fn lemma_join_bounds<K: KeyBounds, V>(a: Seq<(K, V)>, e: (K, V), b: Seq<(K, V)>, m: K)
    ensures
        all_below(join(a, e, b), m) <==> (all_below(a, m) && e.0.precedes(m) && all_below(b, m)),
        all_above(join(a, e, b), m) <==> (all_above(a, m) && m.precedes(e.0) && all_above(b, m)),
{
    let s = join(a, e, b);
    let n = a.len() as int;
    assert(s[n] == e);
    assert forall|i: int| 0 <= i < a.len() implies #[trigger] a[i] == s[i] by {}
    assert forall|i: int| 0 <= i < b.len() implies #[trigger] b[i] == s[n + 1 + i] by {}
    if all_below(a, m) && e.0.precedes(m) && all_below(b, m) {
        assert forall|i: int| 0 <= i < s.len() implies (#[trigger] s[i].0).precedes(m) by {
            if i < n {
                assert(a[i] == s[i]);
            } else if i > n {
                assert(b[i - n - 1] == s[i]);
            }
        }
    }
    if all_above(a, m) && m.precedes(e.0) && all_above(b, m) {
        assert forall|i: int| 0 <= i < s.len() implies m.precedes(#[trigger] s[i].0) by {
            if i < n {
                assert(a[i] == s[i]);
            } else if i > n {
                assert(b[i - n - 1] == s[i]);
            }
        }
    }
}

/// Keys above a bound are above any smaller bound.
pub proof fn lemma_above_weaken<K: KeyBounds, V>(s: Seq<(K, V)>, lo: K, hi: K)
    requires
        all_above(s, hi),
        lo.precedes(hi),
    ensures
        all_above(s, lo),
{
    assert forall|i: int| 0 <= i < s.len() implies lo.precedes(#[trigger] s[i].0) by {
        K::lemma_transitive(lo, hi, s[i].0);
    }
}

/// Keys below a bound are below any larger bound.
pub proof fn lemma_below_weaken<K: KeyBounds, V>(s: Seq<(K, V)>, lo: K, hi: K)
    requires
        all_below(s, lo),
        lo.precedes(hi),
    ensures
        all_below(s, hi),
{
    assert forall|i: int| 0 <= i < s.len() implies (#[trigger] s[i].0).precedes(hi) by {
        K::lemma_transitive(s[i].0, lo, hi);
    }
}

} // verus!
