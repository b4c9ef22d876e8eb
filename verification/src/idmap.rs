//! A map from numbers to values that keeps its keys in the order of insertion.

use std::collections::HashMap;

use vstd::prelude::*;

use crate::sequences::{lemma_filter_all, lemma_remove_selects, other_than};

verus! {

broadcast use vstd::std_specs::hash::group_hash_axioms;

/// Number keys with a value each; no key occurs twice. A hash map has the
/// place of each key.
#[derive(Debug)]
pub struct IdMap<V> {
    places: HashMap<u64, usize>,
    keys: Vec<u64>,
    values: Vec<V>,
}

impl<V> IdMap<V> {
    /// The keys in the order in which they were added.
    pub closed spec fn key_seq(&self) -> Seq<u64> {
        self.keys@
    }

    /// The values in the order of their keys.
    pub closed spec fn value_seq(&self) -> Seq<V> {
        self.values@
    }

    /// The contents.
    pub open spec fn view(&self) -> Map<u64, V> {
        Map::new(
            |k: u64| self.key_seq().contains(k),
            |k: u64| self.value_seq()[self.key_seq().index_of(k)],
        )
    }

    /// The hash map has every key at its place, and no other.
    pub closed spec fn placed(&self) -> bool {
        &&& forall|k: u64| #[trigger]
            self.places@.contains_key(k) ==> self.places@[k] < self.keys@.len()
                && self.keys@[self.places@[k] as int] == k
        &&& forall|i: int|
            0 <= i < self.keys@.len() ==> self.places@.contains_key(#[trigger] self.keys@[i])
                && self.places@[self.keys@[i]] == i
    }

    /// Each key once, with its place, and one value for each key.
    pub open spec fn wf(&self) -> bool {
        &&& self.key_seq().no_duplicates()
        &&& self.key_seq().len() == self.value_seq().len()
        &&& self.placed()
    }

    /// What stands at a place is the value of the key that stands there.
    pub proof fn lemma_at(&self, i: int)
        requires
            self.wf(),
            0 <= i < self.key_seq().len(),
        ensures
            self@.dom().contains(self.key_seq()[i]),
            self@[self.key_seq()[i]] == self.value_seq()[i],
    {
        assert(self.key_seq().contains(self.key_seq()[i]));
    }

    /// A map without entries.
    pub fn new() -> (res: Self)
        ensures
            res.wf(),
            res@ == Map::<u64, V>::empty(),
            res.key_seq() == Seq::<u64>::empty(),
            res.value_seq() == Seq::<V>::empty(),
    {
        let res = IdMap { places: HashMap::new(), keys: Vec::new(), values: Vec::new() };
        assert(res.key_seq() =~= Seq::<u64>::empty());
        assert(res@ =~= Map::<u64, V>::empty());
        res
    }

    /// The number of entries.
    pub fn len(&self) -> (r: usize)
        ensures
            r == self.key_seq().len(),
    {
        self.keys.len()
    }

    /// The place of a key, if it is there.
    pub fn find(&self, key: u64) -> (r: Option<usize>)
        requires
            self.wf(),
        ensures
            match r {
                Some(i) => i < self.key_seq().len() && self.key_seq()[i as int] == key
                    && self@.dom().contains(key) && self@[key] == self.value_seq()[i as int],
                None => !self@.dom().contains(key),
            },
    {
        match self.places.get(&key) {
            Some(i) => {
                proof {
                    self.lemma_at(*i as int);
                }
                Some(*i)
            },
            None => {
                assert(!self.key_seq().contains(key)) by {
                    if self.key_seq().contains(key) {
                        let i = self.key_seq().index_of(key);
                        assert(self.keys@[i] == key);
                    }
                }
                None
            },
        }
    }

    /// The key at a place.
    pub fn key_at(&self, i: usize) -> (r: u64)
        requires
            i < self.key_seq().len(),
        ensures
            r == self.key_seq()[i as int],
    {
        self.keys[i]
    }

    /// The value at a place.
    pub fn value_at(&self, i: usize) -> (r: &V)
        requires
            i < self.value_seq().len(),
        ensures
            *r == self.value_seq()[i as int],
    {
        &self.values[i]
    }

    /// The value of a key, if it is there.
    pub fn get(&self, key: u64) -> (r: Option<&V>)
        requires
            self.wf(),
        ensures
            match r {
                Some(v) => self@.dom().contains(key) && *v == self@[key],
                None => !self@.dom().contains(key),
            },
    {
        match self.find(key) {
            Some(i) => Some(&self.values[i]),
            None => None,
        }
    }

    /// Whether the key is there.
    pub fn contains_key(&self, key: u64) -> (r: bool)
        requires
            self.wf(),
        ensures
            r == self@.dom().contains(key),
    {
        self.find(key).is_some()
    }

    /// The value at a place, to change it.
    pub fn value_mut(&mut self, i: usize) -> (r: &mut V)
        requires
            i < old(self).value_seq().len(),
        ensures
            *r == old(self).value_seq()[i as int],
            final(self).key_seq() == old(self).key_seq(),
            final(self).value_seq() == old(self).value_seq().update(i as int, *final(r)),
            old(self).wf() ==> final(self).wf(),
    {
        &mut self.values[i]
    }

    /// Replacing the value at a place replaces the value of its key.
    pub proof fn lemma_updated(&self, before: Self, i: int, value: V)
        requires
            before.wf(),
            0 <= i < before.key_seq().len(),
            self.key_seq() == before.key_seq(),
            self.value_seq() == before.value_seq().update(i, value),
        ensures
            self@ == before@.insert(before.key_seq()[i], value),
    {
        let k = before.key_seq()[i];
        assert(before.key_seq().contains(k));
        assert(before.key_seq().index_of(k) == i);
        assert(self@ =~= before@.insert(k, value)) by {
            assert forall|x: u64| self@.dom().contains(x) && x != k implies self@[x]
                == before@[x] by {
                assert(before.key_seq().index_of(x) != i);
            }
        }
    }

    /// Replaces the value at a place.
    pub fn set_at(&mut self, i: usize, value: V)
        requires
            old(self).wf(),
            i < old(self).value_seq().len(),
        ensures
            final(self).wf(),
            final(self).key_seq() == old(self).key_seq(),
            final(self).value_seq() == old(self).value_seq().update(i as int, value),
            final(self)@ == old(self)@.insert(old(self).key_seq()[i as int], value),
    {
        let ghost before = *self;
        self.values.set(i, value);
        proof {
            assert(self.key_seq() =~= before.key_seq());
            let k = before.key_seq()[i as int];
            assert(before.key_seq().contains(k));
            assert(before.key_seq().index_of(k) == i);
            assert(self@ =~= before@.insert(k, value)) by {
                assert forall|x: u64| self@.dom().contains(x) && x != k implies self@[x]
                    == before@[x] by {
                    let j = before.key_seq().index_of(x);
                    assert(j != i);
                }
            }
        }
    }

    /// Adds an entry, or replaces the value of a key that is there.
    pub fn insert(&mut self, key: u64, value: V)
        requires
            old(self).wf(),
        ensures
            final(self).wf(),
            final(self)@ == old(self)@.insert(key, value),
            final(self).key_seq() == (if old(self)@.dom().contains(key) {
                old(self).key_seq()
            } else {
                old(self).key_seq().push(key)
            }),
            old(self)@.dom().contains(key) ==> final(self).value_seq().len() == old(
                self,
            ).value_seq().len(),
            !old(self)@.dom().contains(key) ==> final(self).value_seq() == old(
                self,
            ).value_seq().push(value),
    {
        match self.find(key) {
            Some(i) => {
                self.set_at(i, value);
            },
            None => {
                let ghost before = *self;
                let ghost k = key;
                let _place: Option<usize> = self.places.insert(key, self.keys.len());
                self.keys.push(key);
                self.values.push(value);
                proof {
                    assert(self.key_seq() =~= before.key_seq().push(k));
                    assert(!before.key_seq().contains(k));
                    let n = before.key_seq().len() as int;
                    assert forall|i: int, j: int|
                        0 <= i < j < self.key_seq().len() implies self.key_seq()[i]
                        != self.key_seq()[j] by {
                        if j == n {
                            assert(before.key_seq().contains(before.key_seq()[i]));
                        }
                    }
                    assert forall|x: u64| before.key_seq().contains(x) implies (
                    #[trigger] self.key_seq().contains(x)) && self.key_seq().index_of(x)
                        == before.key_seq().index_of(x) by {
                        let j = before.key_seq().index_of(x);
                        assert(self.key_seq()[j] == x);
                    }
                    assert(self.key_seq()[n] == k);
                    assert(self.key_seq().contains(k));
                    assert(self.placed()) by {
                        assert forall|x: u64| #[trigger] self.places@.contains_key(x) implies
                            self.places@[x] < self.keys@.len()
                            && self.keys@[self.places@[x] as int] == x by {
                            if x != k {
                                assert(before.places@.contains_key(x));
                            }
                        }
                        assert forall|i: int| 0 <= i < self.keys@.len() implies
                            self.places@.contains_key(#[trigger] self.keys@[i])
                            && self.places@[self.keys@[i]] == i by {
                            if i < n {
                                assert(before.keys@[i] == self.keys@[i]);
                                assert(before.key_seq().contains(before.keys@[i]));
                            }
                        }
                    }
                    assert(self.key_seq().index_of(k) == n);
                    assert(self@ =~= before@.insert(k, value)) by {
                        assert forall|x: u64| self.key_seq().contains(x) implies x == k
                            || before.key_seq().contains(x) by {
                            let j = self.key_seq().index_of(x);
                            if j < n {
                                assert(before.key_seq()[j] == x);
                            }
                        }
                    }
                }
            },
        }
    }

    /// Takes the entry at a place out; later entries move up.
    pub fn remove_at(&mut self, i: usize) -> (r: V)
        requires
            old(self).wf(),
            i < old(self).key_seq().len(),
        ensures
            final(self).wf(),
            r == old(self).value_seq()[i as int],
            final(self).key_seq() == old(self).key_seq().remove(i as int),
            final(self).value_seq() == old(self).value_seq().remove(i as int),
            final(self)@ == old(self)@.remove(old(self).key_seq()[i as int]),
    {
        let ghost before = *self;
        let _key: u64 = self.keys.remove(i);
        let value: V = self.values.remove(i);
        assert(self.key_seq() =~= before.key_seq().remove(i as int));
        assert(self.key_seq().no_duplicates()) by {
            assert forall|x: int, y: int|
                0 <= x < y < self.key_seq().len() implies self.key_seq()[x]
                != self.key_seq()[y] by {
                let a = if x < i { x } else { x + 1 };
                let b = if y < i { y } else { y + 1 };
                assert(before.key_seq()[a] != before.key_seq()[b]);
            }
        }
        self.places = places_of(&self.keys);
        proof {
            let k = before.key_seq()[i as int];
            assert forall|x: u64| before.key_seq().contains(x) && x != k implies (
            #[trigger] self.key_seq().contains(x)) by {
                let j = before.key_seq().index_of(x);
                if j < i {
                    assert(self.key_seq()[j] == x);
                } else {
                    assert(self.key_seq()[j - 1] == x);
                }
            }
            assert forall|x: u64| #[trigger] self.key_seq().contains(x) implies x != k
                && before.key_seq().contains(x) && self.value_seq()[self.key_seq().index_of(x)]
                == before.value_seq()[before.key_seq().index_of(x)] by {
                let j = self.key_seq().index_of(x);
                let m = if j < i { j } else { j + 1 };
                assert(before.key_seq()[m] == x);
                assert(before.key_seq().index_of(x) == m);
            }
            assert(self@ =~= before@.remove(k));
        }
        value
    }

    /// Takes an entry out. Returns whether it was there.
    pub fn remove(&mut self, key: u64) -> (r: bool)
        requires
            old(self).wf(),
        ensures
            final(self).wf(),
            r == old(self)@.dom().contains(key),
            final(self)@ == old(self)@.remove(key),
            final(self).key_seq() == old(self).key_seq().filter(other_than(key)),
            !r ==> *final(self) == *old(self),
    {
        match self.find(key) {
            Some(i) => {
                proof {
                    lemma_remove_selects(self.key_seq(), i as int);
                }
                let _value: V = self.remove_at(i);
                true
            },
            None => {
                proof {
                    assert(self@ =~= self@.remove(key));
                    assert forall|k: int| 0 <= k < self.key_seq().len() implies other_than(key)(
                        #[trigger] self.key_seq()[k],
                    ) by {
                        assert(self.key_seq().contains(self.key_seq()[k]));
                    }
                    lemma_filter_all(self.key_seq(), other_than(key));
                }
                false
            },
        }
    }
}

/// The place of each key.
fn places_of(keys: &Vec<u64>) -> (r: HashMap<u64, usize>)
    requires
        keys@.no_duplicates(),
    ensures
        forall|k: u64| #[trigger]
            r@.contains_key(k) ==> r@[k] < keys@.len() && keys@[r@[k] as int] == k,
        forall|i: int|
            0 <= i < keys@.len() ==> r@.contains_key(#[trigger] keys@[i]) && r@[keys@[i]] == i,
{
    let mut out: HashMap<u64, usize> = HashMap::new();
    let mut i: usize = 0;
    while i < keys.len()
        invariant
            i <= keys@.len(),
            keys@.no_duplicates(),
            forall|k: u64| #[trigger]
                out@.contains_key(k) ==> out@[k] < i && keys@[out@[k] as int] == k,
            forall|j: int|
                0 <= j < i ==> out@.contains_key(#[trigger] keys@[j]) && out@[keys@[j]] == j,
        decreases keys@.len() - i,
    {
        let _earlier: Option<usize> = out.insert(keys[i], i);
        i = i + 1;
    }
    out
}

} // verus!
