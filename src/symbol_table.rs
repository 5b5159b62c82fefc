//! The contract that every strategy meets.
use vstd::prelude::*;
use crate::entries::{add_entry, count_less, has_key, select_key, sorted_keys, value_of};
use crate::keys::KeyBounds;

verus! {

/// An ordered map from keys to values, with order-statistics queries.
///
/// `entries` is the map's content as a sequence of `(key, value)` pairs in
/// strictly increasing key order; every operation is stated over it, so two
/// strategies that start empty and receive the same calls answer alike.
pub trait SymbolTable<K: KeyBounds, V>: Sized {
    /// The stored pairs in increasing key order.
    spec fn entries(&self) -> Seq<(K, V)>;

    /// The strategy's structural invariant.
    spec fn wf(&self) -> bool;

    proof fn lemma_entries_sorted(&self)
        requires
            self.wf(),
        ensures
            sorted_keys(self.entries()),
    ;

    /// Stores `val` under `key`, replacing the value of an existing key.
    fn add(&mut self, key: K, val: V)
        requires
            old(self).wf(),
            old(self).entries().len() < usize::MAX,
        ensures
            final(self).wf(),
            final(self).entries() == add_entry(old(self).entries(), key, val),
    ;

    /// A mutable handle to the value stored under `key`, if there is one.
    fn value(&mut self, key: &K) -> (r: Option<&mut V>)
        requires
            old(self).wf(),
        ensures
            final(self).wf(),
            match r {
                Some(v) => {
                    &&& has_key(old(self).entries(), *key)
                    &&& Some(*v) == value_of(old(self).entries(), *key)
                    &&& final(self).entries() == old(self).entries().update(
                        count_less(old(self).entries(), *key) as int,
                        (*key, *final(v)),
                    )
                },
                None => {
                    &&& !has_key(old(self).entries(), *key)
                    &&& final(self).entries() == old(self).entries()
                },
            },
    ;

    /// The number of stored keys that come strictly before `key`.
    fn rank(&self, key: &K) -> (r: usize)
        requires
            self.wf(),
        ensures
            r == count_less(self.entries(), *key),
    ;

    /// The key of rank `k` (0-indexed), or `None` when `k` is at least the size.
    fn select(&self, k: usize) -> (r: Option<&K>)
        requires
            self.wf(),
        ensures
            match r {
                Some(x) => select_key(self.entries(), k as int) == Some(*x),
                None => select_key(self.entries(), k as int) is None,
            },
    ;
}

} // verus!
