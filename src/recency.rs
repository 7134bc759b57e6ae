//! The recency tracker: the keys of a cache, most recently used first.
use std::collections::VecDeque;
use vstd::prelude::*;

verus! {

/// The keys seen as character sequences, in the same order.
pub open spec fn key_views(s: Seq<String>) -> Seq<Seq<char>> {
    s.map_values(|k: String| k@)
}

/// Keys ordered by recency: the front is the most recently used key, the
/// back the least recently used one. A key is found by scanning, so each
/// operation takes time linear in the number of keys at most.
pub struct LRU {
    ll: VecDeque<String>,
}

impl View for LRU {
    type V = Seq<Seq<char>>;

    closed spec fn view(&self) -> Seq<Seq<char>> {
        key_views(self.ll@)
    }
}

impl LRU {
    /// The tracker holds each key at most once.
    pub open spec fn wf(&self) -> bool {
        self@.no_duplicates()
    }

    /// An empty tracker.
    pub fn new() -> (r: Self)
        ensures
            r@ == Seq::<Seq<char>>::empty(),
            r.wf(),
    {
        let r = LRU { ll: VecDeque::new() };
        assert(r@ =~= Seq::<Seq<char>>::empty());
        r
    }

    /// Puts a key that is not tracked yet at the most recently used end.
    pub fn push(&mut self, value: String)
        requires
            !old(self)@.contains(value@),
        ensures
            final(self)@ == seq![value@] + old(self)@,
            old(self).wf() ==> final(self).wf(),
    {
        self.ll.push_front(value);
        assert(self@ =~= seq![value@] + old(self)@);
    }

    /// Index of a tracked key, if it is there.
    fn position(&self, value: &String) -> (r: Option<usize>)
        ensures
            match r {
                Some(i) => i < self@.len() && self@[i as int] == value@,
                None => !self@.contains(value@),
            },
    {
        let n = self.ll.len();
        let mut i: usize = 0;
        while i < n
            invariant
                n == self.ll@.len(),
                i <= n,
                forall|j: int| 0 <= j < i ==> self@[j] != value@,
            decreases n - i,
        {
            if self.ll[i] == *value {
                return Some(i);
            }
            i = i + 1;
        }
        None
    }

    /// Moves a tracked key to the most recently used end, keeping the order
    /// of the other keys. An untracked key leaves the tracker as it is.
    pub fn move_to_front(&mut self, value: String)
        requires
            old(self).wf(),
        ensures
            final(self).wf(),
            old(self)@.contains(value@) ==> final(self)@ == seq![value@] + old(self)@.remove(
                old(self)@.index_of(value@),
            ),
            !old(self)@.contains(value@) ==> final(self)@ == old(self)@,
    {
        match self.position(&value) {
            Some(i) => {
                proof {
                    let j = old(self)@.index_of(value@);
                    assert(old(self)@[j] == value@);
                }
                let _ = self.ll.remove(i);
                self.ll.push_front(value);
                let ghost o = old(self)@;
                assert(self@ =~= seq![value@] + o.remove(i as int));
                assert(self@.no_duplicates()) by {
                    assert forall|a: int, b: int|
                        0 <= a < b < self@.len() implies self@[a] != self@[b] by {
                        if a == 0 {
                            assert(o[i as int] == value@);
                        }
                    }
                }
            },
            None => {},
        }
    }

    /// Takes the least recently used key out, if any.
    pub fn remove_oldest(&mut self) -> (r: Option<String>)
        ensures
            old(self).wf() ==> final(self).wf(),
            match r {
                Some(k) => {
                    &&& old(self)@.len() > 0
                    &&& k@ == old(self)@.last()
                    &&& final(self)@ == old(self)@.drop_last()
                },
                None => old(self)@.len() == 0 && final(self)@ == old(self)@,
            },
    {
        let r = self.ll.pop_back();
        assert(self@ =~= old(self)@.drop_last() || r is None);
        r
    }
}

} // verus!
