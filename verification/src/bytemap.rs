//! A map from byte strings to values that keeps its keys in the order of
//! insertion.

use vstd::prelude::*;

use crate::text::bytes_equal;

verus! {

/// Byte-string keys with a value each; no key occurs twice.
#[derive(Debug)]
pub struct ByteMap<V> {
    keys: Vec<Vec<u8>>,
    values: Vec<V>,
}

impl<V> ByteMap<V> {
    /// The keys in the order in which they were added.
    pub closed spec fn key_seq(&self) -> Seq<Seq<u8>> {
        Seq::new(self.keys@.len(), |i: int| self.keys@[i]@)
    }

    /// The values in the order of their keys.
    pub closed spec fn value_seq(&self) -> Seq<V> {
        self.values@
    }

    /// The contents.
    pub open spec fn view(&self) -> Map<Seq<u8>, V> {
        Map::new(
            |k: Seq<u8>| self.key_seq().contains(k),
            |k: Seq<u8>| self.value_seq()[self.key_seq().index_of(k)],
        )
    }

    /// Each key once, and one value for each key.
    pub open spec fn wf(&self) -> bool {
        self.key_seq().no_duplicates() && self.key_seq().len() == self.value_seq().len()
    }

    /// What stands at a place is the value of the key that stands there.
    pub proof fn lemma_at(&self, i: int)
        requires
            self.wf(),
            0 <= i < self.key_seq().len(),
        ensures
            self@.dom().contains(self.key_seq()[i]),
            self@[self.key_seq()[i]] == self.value_seq()[i],
    {
        assert(self.key_seq().contains(self.key_seq()[i]));
    }

    /// A map without entries.
    pub fn new() -> (res: Self)
        ensures
            res.wf(),
            res@ == Map::<Seq<u8>, V>::empty(),
            res.key_seq() == Seq::<Seq<u8>>::empty(),
            res.value_seq() == Seq::<V>::empty(),
    {
        let res = ByteMap { keys: Vec::new(), values: Vec::new() };
        assert(res.key_seq() =~= Seq::<Seq<u8>>::empty());
        assert(res@ =~= Map::<Seq<u8>, V>::empty());
        res
    }

    /// The number of entries.
    pub fn len(&self) -> (r: usize)
        ensures
            r == self.key_seq().len(),
    {
        self.keys.len()
    }

    /// The place of a key, if it is there.
    pub fn find(&self, key: &[u8]) -> (r: Option<usize>)
        requires
            self.wf(),
        ensures
            match r {
                Some(i) => i < self.key_seq().len() && self.key_seq()[i as int] == key@
                    && self@.dom().contains(key@) && self@[key@] == self.value_seq()[i as int],
                None => !self@.dom().contains(key@),
            },
    {
        let mut i: usize = 0;
        while i < self.keys.len()
            invariant
                self.wf(),
                i <= self.keys@.len(),
                forall|j: int| 0 <= j < i ==> self.key_seq()[j] != key@,
            decreases self.keys@.len() - i,
        {
            if bytes_equal(self.keys[i].as_slice(), key) {
                proof {
                    self.lemma_at(i as int);
                }
                return Some(i);
            }
            assert(self.key_seq()[i as int] != key@);
            i = i + 1;
        }
        None
    }

    /// The key at a place.
    pub fn key_at(&self, i: usize) -> (r: &Vec<u8>)
        requires
            i < self.key_seq().len(),
        ensures
            r@ == self.key_seq()[i as int],
    {
        &self.keys[i]
    }

    /// The value at a place.
    pub fn value_at(&self, i: usize) -> (r: &V)
        requires
            i < self.value_seq().len(),
        ensures
            *r == self.value_seq()[i as int],
    {
        &self.values[i]
    }

    /// The value of a key, if it is there.
    pub fn get(&self, key: &[u8]) -> (r: Option<&V>)
        requires
            self.wf(),
        ensures
            match r {
                Some(v) => self@.dom().contains(key@) && *v == self@[key@],
                None => !self@.dom().contains(key@),
            },
    {
        match self.find(key) {
            Some(i) => Some(&self.values[i]),
            None => None,
        }
    }

    /// Whether the key is there.
    pub fn contains_key(&self, key: &[u8]) -> (r: bool)
        requires
            self.wf(),
        ensures
            r == self@.dom().contains(key@),
    {
        self.find(key).is_some()
    }

    /// Replaces the value at a place.
    pub fn set_at(&mut self, i: usize, value: V)
        requires
            old(self).wf(),
            i < old(self).value_seq().len(),
        ensures
            final(self).wf(),
            final(self).key_seq() == old(self).key_seq(),
            final(self).value_seq() == old(self).value_seq().update(i as int, value),
            final(self)@ == old(self)@.insert(old(self).key_seq()[i as int], value),
    {
        let ghost before = *self;
        self.values.set(i, value);
        proof {
            assert(self.key_seq() =~= before.key_seq());
            let k = before.key_seq()[i as int];
            assert(before.key_seq().contains(k));
            assert(before.key_seq().index_of(k) == i);
            assert(self@ =~= before@.insert(k, value)) by {
                assert forall|x: Seq<u8>| self@.dom().contains(x) && x != k implies self@[x]
                    == before@[x] by {
                    let j = before.key_seq().index_of(x);
                    assert(j != i);
                }
            }
        }
    }

    /// Adds an entry, or replaces the value of a key that is there.
    pub fn insert(&mut self, key: Vec<u8>, value: V)
        requires
            old(self).wf(),
        ensures
            final(self).wf(),
            final(self)@ == old(self)@.insert(key@, value),
            final(self).key_seq() == (if old(self)@.dom().contains(key@) {
                old(self).key_seq()
            } else {
                old(self).key_seq().push(key@)
            }),
            old(self)@.dom().contains(key@) ==> final(self).value_seq().len() == old(
                self,
            ).value_seq().len(),
            !old(self)@.dom().contains(key@) ==> final(self).value_seq() == old(
                self,
            ).value_seq().push(value),
    {
        match self.find(key.as_slice()) {
            Some(i) => {
                self.set_at(i, value);
            },
            None => {
                let ghost before = *self;
                let ghost k = key@;
                self.keys.push(key);
                self.values.push(value);
                proof {
                    assert(self.key_seq() =~= before.key_seq().push(k));
                    assert(!before.key_seq().contains(k));
                    let n = before.key_seq().len() as int;
                    assert forall|i: int, j: int|
                        0 <= i < j < self.key_seq().len() implies self.key_seq()[i]
                        != self.key_seq()[j] by {
                        if j == n {
                            assert(before.key_seq().contains(before.key_seq()[i]));
                        }
                    }
                    assert forall|x: Seq<u8>| before.key_seq().contains(x) implies (
                    #[trigger] self.key_seq().contains(x)) && self.key_seq().index_of(x)
                        == before.key_seq().index_of(x) by {
                        let j = before.key_seq().index_of(x);
                        assert(self.key_seq()[j] == x);
                    }
                    assert(self.key_seq()[n] == k);
                    assert(self.key_seq().contains(k));
                    assert(self.key_seq().index_of(k) == n);
                    assert(self@ =~= before@.insert(k, value)) by {
                        assert forall|x: Seq<u8>| self.key_seq().contains(x) implies x == k
                            || before.key_seq().contains(x) by {
                            let j = self.key_seq().index_of(x);
                            if j < n {
                                assert(before.key_seq()[j] == x);
                            }
                        }
                    }
                }
            },
        }
    }

    /// Takes the entry at a place out; later entries move up.
    pub fn remove_at(&mut self, i: usize) -> (r: V)
        requires
            old(self).wf(),
            i < old(self).key_seq().len(),
        ensures
            final(self).wf(),
            r == old(self).value_seq()[i as int],
            final(self).key_seq() == old(self).key_seq().remove(i as int),
            final(self).value_seq() == old(self).value_seq().remove(i as int),
            final(self)@ == old(self)@.remove(old(self).key_seq()[i as int]),
    {
        let ghost before = *self;
        let _key: Vec<u8> = self.keys.remove(i);
        let value: V = self.values.remove(i);
        proof {
            let k = before.key_seq()[i as int];
            assert(self.key_seq() =~= before.key_seq().remove(i as int));
            assert forall|x: Seq<u8>| before.key_seq().contains(x) && x != k implies (
            #[trigger] self.key_seq().contains(x)) by {
                let j = before.key_seq().index_of(x);
                if j < i {
                    assert(self.key_seq()[j] == x);
                } else {
                    assert(self.key_seq()[j - 1] == x);
                }
            }
            assert forall|x: Seq<u8>| #[trigger] self.key_seq().contains(x) implies x != k
                && before.key_seq().contains(x) && self.value_seq()[self.key_seq().index_of(x)]
                == before.value_seq()[before.key_seq().index_of(x)] by {
                let j = self.key_seq().index_of(x);
                let m = if j < i { j } else { j + 1 };
                assert(before.key_seq()[m] == x);
                assert(before.key_seq().index_of(x) == m);
            }
            assert(self@ =~= before@.remove(k));
        }
        value
    }

    /// Takes an entry out. Returns whether it was there.
    pub fn remove(&mut self, key: &[u8]) -> (r: bool)
        requires
            old(self).wf(),
        ensures
            final(self).wf(),
            r == old(self)@.dom().contains(key@),
            final(self)@ == old(self)@.remove(key@),
            !r ==> *final(self) == *old(self),
    {
        match self.find(key) {
            Some(i) => {
                let _value: V = self.remove_at(i);
                true
            },
            None => {
                assert(self@ =~= self@.remove(key@));
                false
            },
        }
    }
}

} // verus!
