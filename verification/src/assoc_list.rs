//! Lookup- and merge-by-equality primitives over a sequence of
//! `(key, value)` pairs: the association-list backing store used by the
//! distribution container.  Keys only need equality comparison — no
//! ordering, no hashing.

use vstd::laws_eq::obeys_concrete_eq;
use vstd::prelude::*;

use crate::model::has_key;
use crate::model::key_index;
use crate::model::lemma_key_index;
use crate::model::lemma_key_index_of_first;

verus! {

/// An association list keyed by equality.  `insert_` replaces the value
/// of an existing key (moving the pair to the end, and the previously
/// last pair into its place), `get_` and `find_` look a key up by a
/// linear scan, returning the first match.
pub trait AssociationExt<K: PartialEq, V>: Sized {
    /// The pairs held, in order.
    spec fn entries(&self) -> Seq<(K, V)>;

    /// Bind the key to the value; the replaced value, if any, is handed
    /// back.  A replaced pair's position is not kept: the pair moves to
    /// the end and the previously last pair takes its old place.
    fn insert_(&mut self, k: K, v: V) -> (r: Option<V>)
        requires
            obeys_concrete_eq::<K>(),
        ensures
            match r {
                Some(w) => has_key(old(self).entries(), k) && w == old(self).entries()[key_index(
                    old(self).entries(),
                    k,
                )].1 && final(self).entries() == old(self).entries().update(
                    key_index(old(self).entries(), k),
                    old(self).entries().last(),
                ).drop_last().push((k, v)),
                None => !has_key(old(self).entries(), k) && final(self).entries() == old(
                    self,
                ).entries().push((k, v)),
            },
    ;

    /// The value bound to the key at its first occurrence, if any.
    fn get_(&self, k: &K) -> (r: Option<&V>)
        requires
            obeys_concrete_eq::<K>(),
        ensures
            match r {
                Some(w) => has_key(self.entries(), *k) && *w == self.entries()[key_index(
                    self.entries(),
                    *k,
                )].1,
                None => !has_key(self.entries(), *k),
            },
    ;

    /// The first position holding the key, if any.
    fn find_(&self, k: &K) -> (r: Option<usize>)
        requires
            obeys_concrete_eq::<K>(),
        ensures
            match r {
                Some(i) => has_key(self.entries(), *k) && i == key_index(self.entries(), *k),
                None => !has_key(self.entries(), *k),
            },
    ;
}

impl<K: PartialEq, V> AssociationExt<K, V> for Vec<(K, V)> {
    open spec fn entries(&self) -> Seq<(K, V)> {
        self@
    }

    fn insert_(&mut self, k: K, v: V) -> (r: Option<V>) {
        let result = match self.find_(&k) {
            Some(index) => {
                proof {
                    lemma_key_index(self@, k);
                }
                Some(self.swap_remove(index).1)
            },
            None => None,
        };
        self.push((k, v));
        result
    }

    fn get_(&self, key: &K) -> (r: Option<&V>) {
        match self.find_(key) {
            Some(index) => {
                proof {
                    lemma_key_index(self@, *key);
                }
                Some(&self[index].1)
            },
            None => None,
        }
    }

    fn find_(&self, key: &K) -> (r: Option<usize>) {
        proof {
            reveal(vstd::laws_eq::obeys_concrete_eq);
        }
        let mut i: usize = 0;
        while i < self.len()
            invariant
                obeys_concrete_eq::<K>(),
                i <= self@.len(),
                forall|j: int| 0 <= j < i ==> self@[j].0 != *key,
            decreases self@.len() - i,
        {
            proof {
                reveal(vstd::laws_eq::obeys_concrete_eq);
            }
            if self[i].0 == *key {
                proof {
                    lemma_key_index_of_first(self@, *key, i as int);
                }
                return Some(i);
            }
            i += 1;
        }
        None
    }
}

} // verus!
