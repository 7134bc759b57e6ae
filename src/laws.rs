//! Laws of the cache model that relate several operations.
use vstd::prelude::*;
use crate::model::{
    entries_after_add, evicted_by_add, lemma_promote, lemma_remove_keeps_distinct, order_after_add,
    order_after_get, promote, valid_state,
};

verus! {

/// The state (order, entries) after an `add` of `k` with value `v`.
pub open spec fn state_after_add<T>(
    st: (Seq<Seq<char>>, Map<Seq<char>, T>),
    k: Seq<char>,
    v: T,
    capacity: nat,
) -> (Seq<Seq<char>>, Map<Seq<char>, T>) {
    (order_after_add(st.0, k, capacity), entries_after_add(st.0, st.1, k, v, capacity))
}

/// The state reached from an empty cache by adding `keys[i]` with `vals[i]`,
/// in order, with no `get` between.
pub open spec fn state_after_adds<T>(keys: Seq<Seq<char>>, vals: Seq<T>, capacity: nat) -> (
    Seq<Seq<char>>,
    Map<Seq<char>, T>,
)
    decreases keys.len(),
{
    if keys.len() == 0 || vals.len() == 0 {
        (Seq::empty(), Map::empty())
    } else {
        state_after_add(
            state_after_adds(keys.drop_last(), vals.drop_last(), capacity),
            keys.last(),
            vals.last(),
            capacity,
        )
    }
}

/// Every `add` keeps a consistent state, and so never leaves more entries
/// than the capacity.
pub proof fn law_add_keeps_capacity<T>(
    order: Seq<Seq<char>>,
    entries: Map<Seq<char>, T>,
    k: Seq<char>,
    v: T,
    capacity: nat,
)
    requires
        valid_state(order, entries, capacity),
    ensures
        valid_state(
            order_after_add(order, k, capacity),
            entries_after_add(order, entries, k, v, capacity),
            capacity,
        ),
        order_after_add(order, k, capacity).len() <= capacity,
{
    lemma_promote(order, k);
    let p = promote(order, k);
    let e = entries.insert(k, v);
    assert(e.dom() == p.to_set());
    if p.len() > capacity {
        lemma_remove_keeps_distinct(p, p.len() - 1);
        assert(p.drop_last() =~= p.remove(p.len() - 1));
        assert(e.remove(p.last()).dom() =~= p.to_set().remove(p.last()));
    }
}

/// Adding a key that is already present replaces its value: the number of
/// entries stays the same, nothing is evicted, and the key then maps to the
/// new value.
pub proof fn law_update_not_insert<T>(
    order: Seq<Seq<char>>,
    entries: Map<Seq<char>, T>,
    k: Seq<char>,
    v: T,
    capacity: nat,
)
    requires
        valid_state(order, entries, capacity),
        entries.contains_key(k),
    ensures
        evicted_by_add(order, k, capacity) is None,
        order_after_add(order, k, capacity).len() == order.len(),
        entries_after_add(order, entries, k, v, capacity).len() == entries.len(),
        entries_after_add(order, entries, k, v, capacity).contains_key(k),
        entries_after_add(order, entries, k, v, capacity)[k] == v,
{
    lemma_promote(order, k);
    assert(order.to_set().contains(k));
    assert(entries.insert(k, v).dom() =~= entries.dom());
}

/// Getting the same key again changes the order no further than the first
/// `get` did.
pub proof fn law_get_idempotent(order: Seq<Seq<char>>, k: Seq<char>)
    requires
        order.no_duplicates(),
    ensures
        order_after_get(order_after_get(order, k), k) == order_after_get(order, k),
{
    if order.contains(k) {
        lemma_promote(order, k);
        let p = promote(order, k);
        assert(p[0] == k);
        let j = p.index_of(k);
        assert(p[j] == k);
        assert(j == 0);
        assert(seq![k] + p.remove(0) =~= p);
    }
}

/// With capacity 2, adding `a` and `b`, getting `a`, then adding `c`
/// evicts `b` and keeps `a`.
pub proof fn law_get_refreshes<T>(a: Seq<char>, b: Seq<char>, c: Seq<char>, va: T, vb: T, vc: T)
    requires
        a != b,
        a != c,
        b != c,
    ensures
        ({
            let s2 = state_after_add(
                state_after_add((Seq::empty(), Map::empty()), a, va, 2),
                b,
                vb,
                2,
            );
            let o3 = order_after_get(s2.0, a);
            &&& evicted_by_add(o3, c, 2) == Some(b)
            &&& entries_after_add(o3, s2.1, c, vc, 2).contains_key(a)
            &&& !entries_after_add(o3, s2.1, c, vc, 2).contains_key(b)
        }),
{
    let e = Seq::<Seq<char>>::empty();
    assert(!e.contains(a));
    assert(promote(e, a) =~= seq![a]);
    let o1 = seq![a];
    assert(!o1.contains(b));
    assert(promote(o1, b) =~= seq![b, a]);
    let o2 = seq![b, a];
    assert(o2[1] == a);
    let j = o2.index_of(a);
    assert(j == 1);
    assert(order_after_get(o2, a) =~= seq![a, b]);
    let o3 = seq![a, b];
    assert(!o3.contains(c));
    assert(promote(o3, c) =~= seq![c, a, b]);
}

/// With capacity 2, adding three distinct keys evicts nothing on the first
/// two adds and, on the third, exactly the first key with its value.
pub proof fn law_one_eviction_of_three<T>(
    a: Seq<char>,
    b: Seq<char>,
    c: Seq<char>,
    va: T,
    vb: T,
    vc: T,
)
    requires
        a != b,
        a != c,
        b != c,
    ensures
        ({
            let s0 = (Seq::<Seq<char>>::empty(), Map::<Seq<char>, T>::empty());
            let s1 = state_after_add(s0, a, va, 2);
            let s2 = state_after_add(s1, b, vb, 2);
            &&& evicted_by_add(s0.0, a, 2) is None
            &&& evicted_by_add(s1.0, b, 2) is None
            &&& evicted_by_add(s2.0, c, 2) == Some(a)
            &&& s2.1.insert(c, vc)[a] == va
        }),
{
    let e = Seq::<Seq<char>>::empty();
    assert(!e.contains(a));
    assert(promote(e, a) =~= seq![a]);
    let o1 = seq![a];
    assert(!o1.contains(b));
    assert(promote(o1, b) =~= seq![b, a]);
    let o2 = seq![b, a];
    assert(!o2.contains(c));
    assert(promote(o2, c) =~= seq![c, b, a]);
}

/// Up to the capacity, distinct adds evict nothing: the order is the keys
/// latest first, and each key maps to its value.
proof fn lemma_adds_within_capacity<T>(keys: Seq<Seq<char>>, vals: Seq<T>, capacity: nat)
    requires
        keys.len() <= capacity,
        vals.len() == keys.len(),
        keys.no_duplicates(),
    ensures
        ({
            let st = state_after_adds(keys, vals, capacity);
            &&& st.0.len() == keys.len()
            &&& forall|j: int| 0 <= j < keys.len() ==> st.0[j] == keys[keys.len() - 1 - j]
            &&& st.1.dom() == keys.to_set()
            &&& forall|i: int| 0 <= i < keys.len() ==> st.1[keys[i]] == vals[i]
        }),
    decreases keys.len(),
{
    if keys.len() > 0 {
        let ks = keys.drop_last();
        let vs = vals.drop_last();
        assert(ks.no_duplicates());
        lemma_adds_within_capacity(ks, vs, capacity);
        let prev = state_after_adds(ks, vs, capacity);
        let k = keys.last();
        let n = keys.len();
        assert(!prev.0.contains(k)) by {
            if prev.0.contains(k) {
                let j = choose|j: int| 0 <= j < prev.0.len() && prev.0[j] == k;
                assert(keys[n - 2 - j] == keys[n - 1]);
            }
        }
        let p = promote(prev.0, k);
        assert(p =~= seq![k] + prev.0);
        let st = state_after_adds(keys, vals, capacity);
        assert(st.0 == p);
        assert(st.1 == prev.1.insert(k, vals.last()));
        assert forall|j: int| 0 <= j < n implies st.0[j] == keys[n - 1 - j] by {
            if j > 0 {
                assert(st.0[j] == prev.0[j - 1]);
            }
        }
        assert(st.1.dom() =~= keys.to_set()) by {
            assert forall|x: Seq<char>| keys.contains(x) implies st.1.dom().contains(x) by {
                let i = choose|i: int| 0 <= i < n && keys[i] == x;
                if i < n - 1 {
                    assert(ks[i] == x);
                }
            }
            assert forall|x: Seq<char>| st.1.dom().contains(x) implies keys.contains(x) by {
                if x != k {
                    let i = choose|i: int| 0 <= i < ks.len() && ks[i] == x;
                    assert(keys[i] == x);
                }
            }
        }
        assert forall|i: int| 0 <= i < n implies st.1[keys[i]] == vals[i] by {
            if i < n - 1 {
                assert(ks[i] == keys[i]);
                assert(keys[i] != k);
                assert(vs[i] == vals[i]);
            }
        }
    }
}

/// With capacity `n`, adding `n + 1` distinct keys with no `get` between
/// evicts the first key, and every later key stays with its value.
pub proof fn law_oldest_key_evicted<T>(keys: Seq<Seq<char>>, vals: Seq<T>, capacity: nat)
    requires
        keys.len() == capacity + 1,
        vals.len() == keys.len(),
        keys.no_duplicates(),
    ensures
        ({
            let st = state_after_adds(keys, vals, capacity);
            &&& !st.1.contains_key(keys[0])
            &&& forall|i: int|
                1 <= i < keys.len() ==> st.1.contains_key(keys[i]) && st.1[keys[i]] == vals[i]
        }),
{
    let ks = keys.drop_last();
    let vs = vals.drop_last();
    assert(ks.no_duplicates());
    lemma_adds_within_capacity(ks, vs, capacity);
    let prev = state_after_adds(ks, vs, capacity);
    let k = keys.last();
    let n = keys.len();
    assert(!prev.0.contains(k)) by {
        if prev.0.contains(k) {
            let j = choose|j: int| 0 <= j < prev.0.len() && prev.0[j] == k;
            assert(keys[n - 2 - j] == keys[n - 1]);
        }
    }
    let p = promote(prev.0, k);
    assert(p =~= seq![k] + prev.0);
    assert(p.last() == keys[0]);
    let st = state_after_adds(keys, vals, capacity);
    assert(st.1 == prev.1.insert(k, vals.last()).remove(keys[0]));
    assert forall|i: int| #![trigger keys[i]] 1 <= i < keys.len() implies st.1.contains_key(keys[i])
        && st.1[keys[i]] == vals[i] by {
        assert(keys[i] != keys[0]);
        if i < n - 1 {
            assert(ks[i] == keys[i]);
            assert(ks.to_set().contains(keys[i]));
            assert(keys[i] != k);
            assert(vs[i] == vals[i]);
        } else {
            assert(keys[i] == k);
            assert(vals[i] == vals.last());
        }
    }
    assert(!st.1.contains_key(keys[0]));
}

} // verus!
