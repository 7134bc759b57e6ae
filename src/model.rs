//! The abstract behaviour of the cache: a recency order of keys and a map
//! from keys to values, with the transitions that `get` and `add` make.
use vstd::prelude::*;

verus! {

/// The order after `k` is marked as the most recently used key: `k` first,
/// the other keys in their former order.
pub open spec fn promote(order: Seq<Seq<char>>, k: Seq<char>) -> Seq<Seq<char>> {
    if order.contains(k) {
        seq![k] + order.remove(order.index_of(k))
    } else {
        seq![k] + order
    }
}

/// The order after a `get` of `k`: a present key is promoted, an absent one
/// changes nothing.
pub open spec fn order_after_get(order: Seq<Seq<char>>, k: Seq<char>) -> Seq<Seq<char>> {
    if order.contains(k) {
        promote(order, k)
    } else {
        order
    }
}

/// The key that an `add` of `k` evicts, if any: the least recently used key
/// once `k` is promoted, when the entries then exceed the capacity.
pub open spec fn evicted_by_add(order: Seq<Seq<char>>, k: Seq<char>, capacity: nat) -> Option<
    Seq<char>,
> {
    let p = promote(order, k);
    if p.len() > capacity {
        Some(p.last())
    } else {
        None
    }
}

/// The order after an `add` of `k`.
pub open spec fn order_after_add(order: Seq<Seq<char>>, k: Seq<char>, capacity: nat) -> Seq<
    Seq<char>,
> {
    let p = promote(order, k);
    if p.len() > capacity {
        p.drop_last()
    } else {
        p
    }
}

/// The entries after an `add` of `k` with value `v`.
pub open spec fn entries_after_add<T>(
    order: Seq<Seq<char>>,
    entries: Map<Seq<char>, T>,
    k: Seq<char>,
    v: T,
    capacity: nat,
) -> Map<Seq<char>, T> {
    let e = entries.insert(k, v);
    match evicted_by_add(order, k, capacity) {
        Some(x) => e.remove(x),
        None => e,
    }
}

/// A consistent cache state: each key once in the order, the order holding
/// exactly the keys of the entries, and no more entries than the capacity.
pub open spec fn valid_state<T>(
    order: Seq<Seq<char>>,
    entries: Map<Seq<char>, T>,
    capacity: nat,
) -> bool {
    &&& order.no_duplicates()
    &&& entries.dom() == order.to_set()
    &&& order.len() <= capacity
}

/// Promoting a key keeps every key once, adds `k` to the keys, and grows the
/// order only when `k` was absent.
pub proof fn lemma_promote(order: Seq<Seq<char>>, k: Seq<char>)
    requires
        order.no_duplicates(),
    ensures
        promote(order, k).no_duplicates(),
        promote(order, k).to_set() == order.to_set().insert(k),
        promote(order, k).len() == if order.contains(k) {
            order.len()
        } else {
            order.len() + 1
        },
        promote(order, k)[0] == k,
{
    let p = promote(order, k);
    if order.contains(k) {
        let i = order.index_of(k);
        let r = order.remove(i);
        lemma_remove_keeps_distinct(order, i);
        assert forall|a: int, b: int| 0 <= a < b < p.len() implies p[a] != p[b] by {
            if a == 0 {
                assert(p[b] == r[b - 1]);
                assert(!r.contains(k)) by {
                    if r.contains(k) {
                        let j = choose|j: int| 0 <= j < r.len() && r[j] == k;
                        assert(order[if j < i { j } else { j + 1 }] == k);
                    }
                }
            }
        }
        assert(p.to_set() =~= order.to_set().insert(k)) by {
            assert forall|x: Seq<char>| order.contains(x) implies p.contains(x) by {
                let j = choose|j: int| 0 <= j < order.len() && order[j] == x;
                if j < i {
                    assert(p[j + 1] == x);
                } else if j > i {
                    assert(p[j] == x);
                } else {
                    assert(p[0] == x);
                }
            }
            assert forall|x: Seq<char>| p.contains(x) implies order.contains(x) || x == k by {
                let j = choose|j: int| 0 <= j < p.len() && p[j] == x;
                if j > 0 {
                    assert(r[j - 1] == x);
                    assert(order[if j - 1 < i { j - 1 } else { j }] == x);
                }
            }
        }
    } else {
        assert forall|a: int, b: int| 0 <= a < b < p.len() implies p[a] != p[b] by {
            if a == 0 {
                assert(p[b] == order[b - 1]);
            }
        }
        assert(p.to_set() =~= order.to_set().insert(k)) by {
            assert(p[0] == k);
            assert forall|x: Seq<char>| order.contains(x) implies p.contains(x) by {
                let j = choose|j: int| 0 <= j < order.len() && order[j] == x;
                assert(p[j + 1] == x);
            }
            assert forall|x: Seq<char>| p.contains(x) implies order.contains(x) || x == k by {
                let j = choose|j: int| 0 <= j < p.len() && p[j] == x;
                if j > 0 {
                    assert(order[j - 1] == x);
                }
            }
        }
    }
}

/// Removing one element of a sequence without duplicates removes exactly that
/// element from its set and keeps the rest distinct.
pub proof fn lemma_remove_keeps_distinct<A>(s: Seq<A>, i: int)
    requires
        s.no_duplicates(),
        0 <= i < s.len(),
    ensures
        s.remove(i).no_duplicates(),
        s.remove(i).to_set() == s.to_set().remove(s[i]),
{
    let r = s.remove(i);
    assert forall|a: int, b: int| 0 <= a < b < r.len() implies r[a] != r[b] by {
        let a2 = if a < i { a } else { a + 1 };
        let b2 = if b < i { b } else { b + 1 };
        assert(r[a] == s[a2] && r[b] == s[b2]);
    }
    assert(r.to_set() =~= s.to_set().remove(s[i])) by {
        assert forall|x: A| r.contains(x) implies s.contains(x) && x != s[i] by {
            let j = choose|j: int| 0 <= j < r.len() && r[j] == x;
            assert(s[if j < i { j } else { j + 1 }] == x);
        }
        assert forall|x: A| s.contains(x) && x != s[i] implies r.contains(x) by {
            let j = choose|j: int| 0 <= j < s.len() && s[j] == x;
            assert(r[if j < i { j } else { j - 1 }] == x);
        }
    }
}

} // verus!
