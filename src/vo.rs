//! A map kept as a vector of pairs sorted by key; lookups by binary search.
use vstd::prelude::*;
use crate::entries::{
    count_less, has_key, lemma_add_entry_sorted, lemma_count_less_bound, lemma_count_less_unique,
    sorted_keys, value_of,
};
use crate::keys::KeyBounds;
use crate::symbol_table::SymbolTable;
use core::cmp::Ordering;

verus! {

pub struct VO<K, V> {
    vec: Vec<(K, V)>,
}

impl<K: KeyBounds, V> VO<K, V> {
    /// An empty map.
    pub fn new() -> (r: Self)
        ensures
            r.wf(),
            r.entries() == Seq::<(K, V)>::empty(),
    {
        VO { vec: Vec::new() }
    }

    /// Index of the first pair whose key does not come before `key`.
    fn lower_bound(&self, key: &K) -> (r: usize)
        requires
            self.wf(),
        ensures
            r == count_less(self.vec@, *key),
    {
        let mut l: usize = 0;
        let mut r: usize = self.vec.len();
        while l < r
            invariant
                sorted_keys(self.vec@),
                0 <= l <= r <= self.vec@.len(),
                forall|i: int| 0 <= i < l ==> (#[trigger] self.vec@[i].0).precedes(*key),
                forall|i: int| r <= i < self.vec@.len() ==> !(#[trigger] self.vec@[i].0).precedes(*key),
            decreases r - l,
        {
            let mid = l + (r - l) / 2;
            let ghost m = self.vec@[mid as int].0;
            match self.vec[mid].0.compare(key) {
                Ordering::Less => {
                    assert forall|i: int| 0 <= i <= mid implies (#[trigger] self.vec@[i].0).precedes(*key) by {
                        if i < mid {
                            assert(self.vec@[i].0.precedes(m));
                            K::lemma_transitive(self.vec@[i].0, m, *key);
                        }
                    }
                    l = mid + 1;
                },
                _ => {
                    assert forall|i: int| mid <= i < self.vec@.len() implies !(#[trigger] self.vec@[i].0).precedes(*key) by {
                        if mid < i {
                            assert(m.precedes(self.vec@[i].0));
                            if self.vec@[i].0.precedes(*key) {
                                K::lemma_transitive(m, self.vec@[i].0, *key);
                            }
                        }
                    }
                    r = mid;
                },
            }
        }
        proof {
            lemma_count_less_unique(self.vec@, *key, l as int);
        }
        l
    }

    /// Binary search for `key`; a mutable handle to its value when present.
    fn find(&mut self, key: &K) -> (r: Option<&mut V>)
        requires
            old(self).wf(),
        ensures
            final(self).wf(),
            match r {
                Some(v) => {
                    &&& has_key(old(self).entries(), *key)
                    &&& Some(*v) == value_of(old(self).entries(), *key)
                    &&& final(self).entries() == old(self).entries().update(
                        count_less(old(self).entries(), *key) as int,
                        (*key, *final(v)),
                    )
                },
                None => {
                    &&& !has_key(old(self).entries(), *key)
                    &&& final(self).entries() == old(self).entries()
                },
            },
    {
        let i = self.lower_bound(key);
        if i < self.vec.len() && matches!(self.vec[i].0.compare(key), Ordering::Equal) {
            let pair = &mut self.vec[i];
            Some(&mut pair.1)
        } else {
            None
        }
    }
}

impl<K: KeyBounds, V> SymbolTable<K, V> for VO<K, V> {
    closed spec fn entries(&self) -> Seq<(K, V)> {
        self.vec@
    }

    closed spec fn wf(&self) -> bool {
        sorted_keys(self.vec@)
    }

    proof fn lemma_entries_sorted(&self) {
    }

    fn add(&mut self, key: K, val: V) {
        let i = self.lower_bound(&key);
        proof {
            lemma_count_less_bound(self.vec@, key);
            lemma_add_entry_sorted(self.vec@, key, val);
        }
        if i < self.vec.len() && matches!(self.vec[i].0.compare(&key), Ordering::Equal) {
            self.vec.set(i, (key, val));
        } else {
            self.vec.insert(i, (key, val));
        }
    }

    fn value(&mut self, key: &K) -> (r: Option<&mut V>) {
        self.find(key)
    }

    fn rank(&self, key: &K) -> (r: usize) {
        self.lower_bound(key)
    }

    fn select(&self, k: usize) -> (r: Option<&K>) {
        if k < self.vec.len() {
            Some(&self.vec[k].0)
        } else {
            None
        }
    }
}

} // verus!
