//! The cache store: a bounded key/value map with least-recently-used eviction
//! and an optional eviction callback.
use vstd::prelude::*;
use crate::model::{
    entries_after_add, evicted_by_add, lemma_promote, lemma_remove_keeps_distinct, order_after_add,
    order_after_get, promote, valid_state,
};
use crate::recency::LRU;

verus! {

/// The keys of stored entries, as character sequences, in storage order.
pub open spec fn stored_keys<T>(s: Seq<(String, T)>) -> Seq<Seq<char>> {
    s.map_values(|e: (String, T)| e.0@)
}

/// The map that stored entries with distinct keys stand for.
pub open spec fn stored_map<T>(s: Seq<(String, T)>) -> Map<Seq<char>, T> {
    Map::new(
        |k: Seq<char>| stored_keys(s).contains(k),
        |k: Seq<char>| s[stored_keys(s).index_of(k)].1,
    )
}

/// A cache of at most `max_size` entries keyed by strings. Values need only be
/// convertible to bytes; the cache itself never converts them.
pub struct Cache<T: Into<Vec<u8>>, F: Fn(String, T) = Box<dyn Fn(String, T)>> {
    max_size: usize,
    cache: Vec<(String, T)>,
    lru: LRU,
    on_evicted: Option<F>,
}

/// With distinct keys, the value stored under the key of position `i` is the
/// one at `i`.
proof fn lemma_stored_at<T>(s: Seq<(String, T)>, i: int)
    requires
        stored_keys(s).no_duplicates(),
        0 <= i < s.len(),
    ensures
        stored_map(s).contains_key(s[i].0@),
        stored_map(s)[s[i].0@] == s[i].1,
{
    let ks = stored_keys(s);
    assert(ks[i] == s[i].0@);
    let j = ks.index_of(s[i].0@);
    assert(ks[j] == ks[i]);
}

/// The keys of the map are those stored, and there are as many as entries.
proof fn lemma_stored_dom<T>(s: Seq<(String, T)>)
    requires
        stored_keys(s).no_duplicates(),
    ensures
        stored_map(s).dom() == stored_keys(s).to_set(),
        stored_map(s).len() == s.len(),
{
    assert(stored_map(s).dom() =~= stored_keys(s).to_set());
    stored_keys(s).unique_seq_to_set();
}

/// Appending an entry under a new key inserts it into the map.
proof fn lemma_stored_push<T>(s: Seq<(String, T)>, k: String, v: T)
    requires
        stored_keys(s).no_duplicates(),
        !stored_keys(s).contains(k@),
    ensures
        stored_keys(s.push((k, v))) == stored_keys(s).push(k@),
        stored_keys(s.push((k, v))).no_duplicates(),
        stored_map(s.push((k, v))) == stored_map(s).insert(k@, v),
{
    let t = s.push((k, v));
    assert(stored_keys(t) =~= stored_keys(s).push(k@));
    assert(stored_keys(t).no_duplicates()) by {
        assert forall|a: int, b: int|
            0 <= a < b < t.len() implies stored_keys(t)[a] != stored_keys(t)[b] by {
            if b == s.len() {
                assert(stored_keys(s)[a] == stored_keys(t)[a]);
            } else {
                assert(stored_keys(s)[a] == stored_keys(t)[a]);
                assert(stored_keys(s)[b] == stored_keys(t)[b]);
            }
        }
    }
    assert forall|x: Seq<char>| #[trigger] stored_map(t).contains_key(x) implies stored_map(t)[x]
        == stored_map(s).insert(k@, v)[x] by {
        let j = stored_keys(t).index_of(x);
        lemma_stored_at(t, j);
        if j < s.len() {
            lemma_stored_at(s, j);
        }
    }
    assert forall|x: Seq<char>| #[trigger] stored_map(s).contains_key(x) implies stored_map(
        t,
    ).contains_key(x) by {
        let j = stored_keys(s).index_of(x);
        assert(stored_keys(t)[j] == x);
    }
    assert(stored_map(t).contains_key(k@)) by {
        assert(stored_keys(t)[s.len() as int] == k@);
    }
    assert(stored_map(t) =~= stored_map(s).insert(k@, v));
}

/// Replacing the entry at `i` by one under the same key updates the map.
proof fn lemma_stored_update<T>(s: Seq<(String, T)>, i: int, k: String, v: T)
    requires
        stored_keys(s).no_duplicates(),
        0 <= i < s.len(),
        s[i].0@ == k@,
    ensures
        stored_keys(s.update(i, (k, v))) == stored_keys(s),
        stored_map(s.update(i, (k, v))) == stored_map(s).insert(k@, v),
{
    let t = s.update(i, (k, v));
    assert(stored_keys(t) =~= stored_keys(s));
    assert forall|x: Seq<char>| #[trigger] stored_map(t).contains_key(x) implies stored_map(t)[x]
        == stored_map(s).insert(k@, v)[x] by {
        let j = stored_keys(t).index_of(x);
        assert(stored_keys(t)[j] == x);
        lemma_stored_at(t, j);
        lemma_stored_at(s, j);
        if j != i {
            assert(stored_keys(s)[j] != stored_keys(s)[i]);
        }
    }
    lemma_stored_at(s, i);
    assert(stored_map(t) =~= stored_map(s).insert(k@, v));
}

/// Removing the entry at `i` removes its key from the map.
proof fn lemma_stored_remove<T>(s: Seq<(String, T)>, i: int)
    requires
        stored_keys(s).no_duplicates(),
        0 <= i < s.len(),
    ensures
        stored_keys(s.remove(i)) == stored_keys(s).remove(i),
        stored_keys(s.remove(i)).no_duplicates(),
        stored_map(s.remove(i)) == stored_map(s).remove(s[i].0@),
{
    let t = s.remove(i);
    let ks = stored_keys(s);
    assert(stored_keys(t) =~= ks.remove(i));
    lemma_remove_keeps_distinct(ks, i);
    lemma_stored_dom(s);
    lemma_stored_dom(t);
    assert(ks[i] == s[i].0@);
    assert forall|x: Seq<char>| #[trigger] stored_map(t).contains_key(x) implies stored_map(t)[x]
        == stored_map(s)[x] by {
        let j = stored_keys(t).index_of(x);
        lemma_stored_at(t, j);
        lemma_stored_at(s, if j < i { j } else { j + 1 });
    }
    assert(stored_map(t) =~= stored_map(s).remove(s[i].0@));
}

impl<T: Into<Vec<u8>>, F: Fn(String, T)> Cache<T, F> {
    /// The keys, most recently used first.
    pub closed spec fn order(&self) -> Seq<Seq<char>> {
        self.lru@
    }

    /// The stored values by key.
    pub closed spec fn entries(&self) -> Map<Seq<char>, T> {
        stored_map(self.cache@)
    }

    /// The largest number of entries kept.
    pub closed spec fn capacity(&self) -> nat {
        self.max_size as nat
    }

    /// The function told of each eviction, if any.
    pub closed spec fn callback(&self) -> Option<F> {
        self.on_evicted
    }

    /// The store and the tracker agree: the same keys, each once, and a
    /// callback that accepts every evicted entry.
    pub closed spec fn inv(&self) -> bool {
        &&& stored_keys(self.cache@).no_duplicates()
        &&& self.lru.wf()
        &&& stored_keys(self.cache@).to_set() == self.lru@.to_set()
        &&& self.cache@.len() == self.lru@.len()
        &&& self.on_evicted matches Some(f) ==> forall|k: String, v: T| f.requires((k, v))
    }

    /// A cache in a consistent state within its capacity.
    pub open spec fn wf(&self) -> bool {
        &&& self.inv()
        &&& valid_state(self.order(), self.entries(), self.capacity())
    }

    /// The callback has seen the entry `(k, v)` as evicted.
    pub open spec fn told_of_eviction(f: F, k: Seq<char>, v: T) -> bool {
        exists|s: String| s@ == k && f.ensures((s, v), ())
    }

    proof fn lemma_inv_model(&self)
        requires
            self.inv(),
        ensures
            self.order().no_duplicates(),
            self.entries().dom() == self.order().to_set(),
            self.entries().len() == self.order().len(),
    {
        lemma_stored_dom(self.cache@);
    }

    /// An empty cache of the given capacity, with no callback.
    pub fn new(max_size: usize) -> (r: Self)
        ensures
            r.wf(),
            r.order() == Seq::<Seq<char>>::empty(),
            r.entries() == Map::<Seq<char>, T>::empty(),
            r.capacity() == max_size,
            r.callback() is None,
    {
        let r = Cache { max_size, cache: Vec::new(), lru: LRU::new(), on_evicted: None };
        proof {
            assert(stored_keys(r.cache@) =~= Seq::<Seq<char>>::empty());
            assert(r.lru@.to_set() =~= Set::<Seq<char>>::empty());
            assert(stored_keys(r.cache@).to_set() =~= Set::<Seq<char>>::empty());
            r.lemma_inv_model();
            assert(r.entries() =~= Map::<Seq<char>, T>::empty());
        }
        r
    }

    /// An empty cache of the given capacity that hands each evicted entry to
    /// `on_evicted`.
    pub fn new_with_evicted(max_size: usize, on_evicted: F) -> (r: Self)
        requires
            forall|k: String, v: T| on_evicted.requires((k, v)),
        ensures
            r.wf(),
            r.order() == Seq::<Seq<char>>::empty(),
            r.entries() == Map::<Seq<char>, T>::empty(),
            r.capacity() == max_size,
            r.callback() == Some(on_evicted),
    {
        let r = Cache {
            max_size,
            cache: Vec::new(),
            lru: LRU::new(),
            on_evicted: Some(on_evicted),
        };
        proof {
            assert(stored_keys(r.cache@) =~= Seq::<Seq<char>>::empty());
            assert(r.lru@.to_set() =~= Set::<Seq<char>>::empty());
            assert(stored_keys(r.cache@).to_set() =~= Set::<Seq<char>>::empty());
            r.lemma_inv_model();
            assert(r.entries() =~= Map::<Seq<char>, T>::empty());
        }
        r
    }

    /// Position of a key in the store, if it is there.
    fn find(&self, key: &String) -> (r: Option<usize>)
        ensures
            match r {
                Some(i) => i < self.cache@.len() && self.cache@[i as int].0@ == key@,
                None => !stored_keys(self.cache@).contains(key@),
            },
    {
        let n = self.cache.len();
        let mut i: usize = 0;
        while i < n
            invariant
                n == self.cache@.len(),
                i <= n,
                forall|j: int| 0 <= j < i ==> stored_keys(self.cache@)[j] != key@,
            decreases n - i,
        {
            if self.cache[i].0 == *key {
                return Some(i);
            }
            i = i + 1;
        }
        None
    }

    /// The number of entries.
    pub fn size(&self) -> (r: usize)
        requires
            self.inv(),
        ensures
            r == self.order().len(),
            r == self.entries().len(),
    {
        proof {
            self.lemma_inv_model();
        }
        self.cache.len()
    }

    /// Evicts the least recently used entry, if any, from the store and the
    /// tracker, and hands it to the callback.
    fn remove_oldest(&mut self)
        requires
            old(self).inv(),
        ensures
            final(self).inv(),
            final(self).capacity() == old(self).capacity(),
            final(self).callback() == old(self).callback(),
            old(self).order().len() == 0 ==> final(self).order() == old(self).order()
                && final(self).entries() == old(self).entries(),
            old(self).order().len() > 0 ==> {
                let x = old(self).order().last();
                &&& final(self).order() == old(self).order().drop_last()
                &&& final(self).entries() == old(self).entries().remove(x)
                &&& old(self).callback() matches Some(f) ==> Self::told_of_eviction(
                    f,
                    x,
                    old(self).entries()[x],
                )
            },
    {
        let ghost o = self.lru@;
        if let Some(key) = self.lru.remove_oldest() {
            proof {
                assert(o.contains(o.last()) && o[o.len() - 1] == o.last());
                assert(stored_keys(self.cache@).to_set().contains(key@));
            }
            match self.find(&key) {
                Some(i) => {
                    let ghost c = self.cache@;
                    proof {
                        lemma_stored_at(c, i as int);
                        lemma_stored_remove(c, i as int);
                        lemma_remove_keeps_distinct(stored_keys(c), i as int);
                        lemma_remove_keeps_distinct(o, o.len() - 1);
                        assert(o.drop_last() =~= o.remove(o.len() - 1));
                        assert(stored_keys(c)[i as int] == key@);
                    }
                    let (k, v) = self.cache.remove(i);
                    match &self.on_evicted {
                        Some(f) => {
                            f(k, v);
                        },
                        None => {},
                    }
                },
                None => {},
            }
        }
    }

    /// The value stored under `key`, if any. A present key becomes the most
    /// recently used one; an absent key changes nothing.
    pub fn get(&mut self, key: &str) -> (r: Option<&T>)
        requires
            old(self).wf(),
        ensures
            final(self).wf(),
            final(self).capacity() == old(self).capacity(),
            final(self).callback() == old(self).callback(),
            final(self).entries() == old(self).entries(),
            final(self).order() == order_after_get(old(self).order(), key@),
            match r {
                Some(v) => old(self).entries().contains_key(key@) && *v == old(self).entries()[key@],
                None => !old(self).entries().contains_key(key@),
            },
    {
        let k = key.to_owned();
        proof {
            self.lemma_inv_model();
        }
        match self.find(&k) {
            Some(i) => {
                proof {
                    lemma_stored_at(self.cache@, i as int);
                    lemma_promote(self.lru@, k@);
                }
                proof {
                    assert(stored_keys(self.cache@)[i as int] == k@);
                    assert(self.lru@.to_set().contains(k@));
                    assert(self.lru@.to_set().insert(k@) =~= self.lru@.to_set());
                }
                self.lru.move_to_front(k);
                proof {
                    self.lemma_inv_model();
                }
                Some(&self.cache[i].1)
            },
            None => {
                proof {
                    assert(!self.entries().contains_key(key@));
                }
                None
            },
        }
    }

    /// Stores `value` under `key` and makes `key` the most recently used one.
    /// A present key has its value replaced; a new key is added, and when the
    /// entries then exceed the capacity the least recently used one is
    /// evicted and handed to the callback.
    pub fn add(&mut self, key: &str, value: T)
        requires
            old(self).wf(),
        ensures
            final(self).wf(),
            final(self).capacity() == old(self).capacity(),
            final(self).callback() == old(self).callback(),
            final(self).order() == order_after_add(old(self).order(), key@, old(self).capacity()),
            final(self).entries() == entries_after_add(
                old(self).order(),
                old(self).entries(),
                key@,
                value,
                old(self).capacity(),
            ),
            evicted_by_add(old(self).order(), key@, old(self).capacity()) matches Some(x) ==> (
            old(self).callback() matches Some(f) ==> Self::told_of_eviction(
                f,
                x,
                old(self).entries().insert(key@, value)[x],
            )),
    {
        let k = key.to_owned();
        proof {
            self.lemma_inv_model();
            lemma_promote(self.lru@, k@);
        }
        match self.find(&k) {
            None => {
                proof {
                    lemma_stored_push(self.cache@, k, value);
                    assert(!self.lru@.to_set().contains(k@));
                    stored_keys(self.cache@).lemma_push_to_set_commute(k@);
                }
                self.cache.push((k.clone(), value));
                self.lru.push(k);
            },
            Some(i) => {
                proof {
                    lemma_stored_update(self.cache@, i as int, k, value);
                    assert(stored_keys(self.cache@)[i as int] == k@);
                    assert(self.lru@.to_set().contains(k@));
                    assert(self.lru@.to_set().insert(k@) =~= self.lru@.to_set());
                }
                self.cache.set(i, (k.clone(), value));
                self.lru.move_to_front(k);
            },
        }
        proof {
            assert(self.order() == promote(old(self).order(), key@));
            assert(self.entries() == old(self).entries().insert(key@, value));
        }
        if self.cache.len() > self.max_size {
            self.remove_oldest();
        }
        proof {
            self.lemma_inv_model();
        }
    }
}

} // verus!
