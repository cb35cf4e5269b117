//! An association map from string keys to values, kept as an entry list
//! with unique keys. Its mathematical model is a `Map<Seq<char>, V>`.

use vstd::prelude::*;

use crate::text::str_eq;

verus! {

/// A map from string keys to values of type `V`, stored as an ordered
/// entry list whose keys are pairwise distinct.
#[derive(Debug)]
pub struct KvMap<V> {
    entries: Vec<(String, V)>,
}

impl<V: DeepView> KvMap<V> {
    /// The entry list, in insertion order.
    pub closed spec fn list(&self) -> Seq<(String, V)> {
        self.entries@
    }

    /// Keys are pairwise distinct.
    pub open spec fn wf(&self) -> bool {
        forall|i: int, j: int|
            0 <= i < j < self.list().len() ==> self.list()[i].0@ != self.list()[j].0@
    }

    /// Whether some entry carries the key `k`.
    pub open spec fn has_key(&self, k: Seq<char>) -> bool {
        exists|i: int| 0 <= i < self.list().len() && self.list()[i].0@ == k
    }

    /// The index of the entry carrying the key `k`.
    pub open spec fn key_index(&self, k: Seq<char>) -> int {
        choose|i: int| 0 <= i < self.list().len() && self.list()[i].0@ == k
    }

    /// The map modelled by the entry list.
    pub open spec fn spec_map(&self) -> Map<Seq<char>, V> {
        Map::new(|k: Seq<char>| self.has_key(k), |k: Seq<char>| self.list()[self.key_index(k)].1)
    }

    /// The map modelled by the entry list, with values taken to their
    /// own models.
    pub open spec fn deep_map(&self) -> Map<Seq<char>, V::V> {
        Map::new(
            |k: Seq<char>| self.has_key(k),
            |k: Seq<char>| self.list()[self.key_index(k)].1.deep_view(),
        )
    }

    /// In a well-formed map, an entry's index is the key's index.
    pub proof fn lemma_key_index(&self, i: int)
        requires
            self.wf(),
            0 <= i < self.list().len(),
        ensures
            self.key_index(self.list()[i].0@) == i,
            self.has_key(self.list()[i].0@),
            self.spec_map()[self.list()[i].0@] == self.list()[i].1,
    {
        let k = self.list()[i].0@;
        assert(self.has_key(k));
        let j = self.key_index(k);
        if i < j {
            assert(self.list()[i].0@ != self.list()[j].0@);
        } else if j < i {
            assert(self.list()[j].0@ != self.list()[i].0@);
        }
    }

    /// An empty map.
    pub fn new() -> (r: KvMap<V>)
        ensures
            r.wf(),
            r.list() == Seq::<(String, V)>::empty(),
            r.spec_map() == Map::<Seq<char>, V>::empty(),
            r.deep_map() == Map::<Seq<char>, V::V>::empty(),
    {
        let r = KvMap { entries: Vec::new() };
        proof {
            assert(r.spec_map() =~= Map::<Seq<char>, V>::empty());
            assert(r.deep_map() =~= Map::<Seq<char>, V::V>::empty());
        }
        r
    }

    /// Number of entries.
    pub fn len(&self) -> (r: usize)
        ensures
            r == self.list().len(),
    {
        self.entries.len()
    }

    /// Whether the map has no entry.
    pub fn is_empty(&self) -> (r: bool)
        ensures
            r == (self.list().len() == 0),
    {
        self.entries.len() == 0
    }

    /// The entry list itself, for iteration.
    pub fn entries(&self) -> (r: &Vec<(String, V)>)
        ensures
            r@ == self.list(),
    {
        &self.entries
    }

    /// The position of the entry carrying `key`, if any.
    pub fn index_of(&self, key: &str) -> (r: Option<usize>)
        ensures
            match r {
                Some(i) => i < self.list().len() && self.list()[i as int].0@ == key@,
                None => !self.has_key(key@),
            },
    {
        let mut i: usize = 0;
        while i < self.entries.len()
            invariant
                i <= self.list().len(),
                forall|k: int| 0 <= k < i ==> self.list()[k].0@ != key@,
            decreases self.list().len() - i,
        {
            if str_eq(self.entries[i].0.as_str(), key) {
                return Some(i);
            }
            i += 1;
        }
        None
    }

    /// Looks a key up.
    pub fn get(&self, key: &str) -> (r: Option<&V>)
        requires
            self.wf(),
        ensures
            match r {
                Some(v) => self.has_key(key@) && *v == self.spec_map()[key@]
                    && v.deep_view() == self.deep_map()[key@],
                None => !self.has_key(key@),
            },
    {
        match self.index_of(key) {
            Some(i) => {
                proof {
                    self.lemma_key_index(i as int);
                }
                Some(&self.entries[i].1)
            }
            None => None,
        }
    }

    /// Whether the map carries `key`.
    pub fn contains_key(&self, key: &str) -> (r: bool)
        ensures
            r == self.has_key(key@),
    {
        self.index_of(key).is_some()
    }

    /// Binds `key` to `value`: an existing entry is overwritten in place,
    /// a new key is appended at the back.
    pub fn insert(&mut self, key: String, value: V)
        requires
            old(self).wf(),
        ensures
            final(self).wf(),
            final(self).spec_map() == old(self).spec_map().insert(key@, value),
            final(self).deep_map() == old(self).deep_map().insert(key@, value.deep_view()),
            final(self).has_key(key@),
            old(self).has_key(key@) ==> final(self).list().len() == old(self).list().len(),
            !old(self).has_key(key@) ==> final(self).list() == old(self).list().push(
                (key, value),
            ),
    {
        let ghost old_self = *self;
        match self.index_of(key.as_str()) {
            Some(i) => {
                proof {
                    old_self.lemma_key_index(i as int);
                }
                self.entries.remove(i);
                self.entries.insert(i, (key, value));
                proof {
                    let k = key@;
                    assert forall|x: int, y: int|
                        0 <= x < y < self.list().len() implies self.list()[x].0@
                        != self.list()[y].0@ by {
                        assert(old_self.list()[x].0@ != old_self.list()[y].0@);
                    }
                    assert forall|j: Seq<char>| #[trigger]
                        self.has_key(j) == old_self.spec_map().insert(k, value).dom().contains(
                        j,
                    ) by {
                        if self.has_key(j) {
                            let x = choose|x: int|
                                0 <= x < self.list().len() && self.list()[x].0@ == j;
                            if x != i {
                                assert(old_self.list()[x].0@ == j);
                                assert(old_self.has_key(j));
                            }
                        }
                        if old_self.has_key(j) {
                            let x = choose|x: int|
                                0 <= x < old_self.list().len() && old_self.list()[x].0@ == j;
                            if x != i {
                                assert(self.list()[x].0@ == j);
                                assert(self.has_key(j));
                            } else {
                                assert(self.list()[i as int].0@ == k);
                            }
                        }
                    }
                    assert forall|j: Seq<char>| self.has_key(j) implies self.spec_map()[j]
                        == old_self.spec_map().insert(k, value)[j] by {
                        let x = self.key_index(j);
                        self.lemma_key_index(x);
                        if x == i {
                            assert(j == k);
                        } else {
                            assert(old_self.list()[x].0@ == j);
                            old_self.lemma_key_index(x);
                        }
                    }
                    assert(self.spec_map() =~= old_self.spec_map().insert(k, value));
                }
            }
            None => {
                self.entries.push((key, value));
                proof {
                    let k = key@;
                    assert forall|x: int, y: int|
                        0 <= x < y < self.list().len() implies self.list()[x].0@
                        != self.list()[y].0@ by {
                        if y < self.list().len() - 1 {
                            assert(old_self.list()[x].0@ != old_self.list()[y].0@);
                        } else {
                            assert(old_self.list()[x].0@ == self.list()[x].0@);
                            assert(!old_self.has_key(k));
                            assert(old_self.list()[x].0@ != k) by {
                                if old_self.list()[x].0@ == k {
                                    assert(old_self.has_key(k));
                                }
                            }
                        }
                    }
                    let n = self.list().len() - 1;
                    assert(self.list()[n].0@ == k);
                    assert forall|j: Seq<char>| #[trigger]
                        self.has_key(j) == old_self.spec_map().insert(k, value).dom().contains(
                        j,
                    ) by {
                        if self.has_key(j) {
                            let x = choose|x: int|
                                0 <= x < self.list().len() && self.list()[x].0@ == j;
                            if x < n {
                                assert(old_self.list()[x].0@ == j);
                                assert(old_self.has_key(j));
                            }
                        }
                        if old_self.has_key(j) {
                            let x = choose|x: int|
                                0 <= x < old_self.list().len() && old_self.list()[x].0@ == j;
                            assert(self.list()[x].0@ == j);
                            assert(self.has_key(j));
                        }
                    }
                    assert forall|j: Seq<char>| self.has_key(j) implies self.spec_map()[j]
                        == old_self.spec_map().insert(k, value)[j] by {
                        let x = self.key_index(j);
                        self.lemma_key_index(x);
                        if x == n {
                            assert(j == k);
                        } else {
                            assert(old_self.list()[x].0@ == j);
                            old_self.lemma_key_index(x);
                        }
                    }
                    assert(self.spec_map() =~= old_self.spec_map().insert(k, value));
                }
            }
        }
    }

    /// Removes the entry carrying `key`, if any, and returns its value.
    pub fn remove(&mut self, key: &str) -> (r: Option<V>)
        requires
            old(self).wf(),
        ensures
            final(self).wf(),
            final(self).spec_map() == old(self).spec_map().remove(key@),
            final(self).deep_map() == old(self).deep_map().remove(key@),
            r is Some <==> old(self).has_key(key@),
    {
        let ghost old_self = *self;
        match self.index_of(key) {
            Some(i) => {
                proof {
                    old_self.lemma_key_index(i as int);
                }
                let entry = self.entries.remove(i);
                let v = entry.1;
                proof {
                    let k = key@;
                    assert forall|x: int, y: int|
                        0 <= x < y < self.list().len() implies self.list()[x].0@
                        != self.list()[y].0@ by {
                        let ox: int = if x < i { x } else { x + 1 };
                        let oy: int = if y < i { y } else { y + 1 };
                        assert(old_self.list()[ox].0@ != old_self.list()[oy].0@);
                    }
                    assert forall|j: Seq<char>| #[trigger]
                        self.has_key(j) == old_self.spec_map().remove(k).dom().contains(j) by {
                        if self.has_key(j) {
                            let x = choose|x: int|
                                0 <= x < self.list().len() && self.list()[x].0@ == j;
                            let ox: int = if x < i { x } else { x + 1 };
                            assert(old_self.list()[ox].0@ == j);
                            assert(old_self.has_key(j));
                            if j == k {
                                old_self.lemma_key_index(ox);
                            }
                        }
                        if old_self.has_key(j) && j != k {
                            let x = choose|x: int|
                                0 <= x < old_self.list().len() && old_self.list()[x].0@ == j;
                            if x < i {
                                assert(self.list()[x].0@ == j);
                            } else {
                                assert(x != i) by {
                                    old_self.lemma_key_index(x);
                                }
                                assert(self.list()[x - 1].0@ == j);
                            }
                            assert(self.has_key(j));
                        }
                    }
                    assert forall|j: Seq<char>| self.has_key(j) implies self.spec_map()[j]
                        == old_self.spec_map().remove(k)[j] by {
                        let x = self.key_index(j);
                        self.lemma_key_index(x);
                        let ox: int = if x < i { x } else { x + 1 };
                        assert(old_self.list()[ox].0@ == j);
                        old_self.lemma_key_index(ox);
                    }
                    assert(self.spec_map() =~= old_self.spec_map().remove(k));
                }
                Some(v)
            }
            None => {
                proof {
                    assert(self.spec_map() =~= old_self.spec_map().remove(key@));
                }
                None
            }
        }
    }
}


impl<V: DeepView + Clone> KvMap<V> {
    /// Copies the entry list; keys are kept exactly and each value is a
    /// clone of the original.
    pub fn duplicate(&self) -> (r: KvMap<V>)
        ensures
            r.list().len() == self.list().len(),
            forall|i: int|
                0 <= i < self.list().len() ==> (#[trigger] r.list()[i]).0@ == self.list()[i].0@
                    && vstd::pervasive::cloned::<V>(self.list()[i].1, r.list()[i].1),
            self.wf() ==> r.wf(),
    {
        let mut entries: Vec<(String, V)> = Vec::new();
        let mut i: usize = 0;
        while i < self.entries.len()
            invariant
                i <= self.list().len(),
                entries@.len() == i,
                forall|k: int|
                    0 <= k < i ==> (#[trigger] entries@[k]).0@ == self.list()[k].0@
                        && vstd::pervasive::cloned::<V>(self.list()[k].1, entries@[k].1),
            decreases self.list().len() - i,
        {
            entries.push((self.entries[i].0.clone(), self.entries[i].1.clone()));
            i += 1;
        }
        let r = KvMap { entries };
        r
    }
}

impl Clone for KvMap<crate::value::Value> {
    /// Deep copy; on a well-formed map the copy models the same map.
    fn clone(&self) -> (r: Self)
        ensures
            self.wf() ==> r.wf() && r.deep_map() == self.deep_map(),
    {
        let r = self.duplicate();
        proof {
            if self.wf() {
                assert forall|k: Seq<char>| #[trigger]
                    r.has_key(k) == self.has_key(k) by {
                    if r.has_key(k) {
                        let i = choose|i: int| 0 <= i < r.list().len() && r.list()[i].0@ == k;
                        assert(self.list()[i].0@ == k);
                    }
                    if self.has_key(k) {
                        let i = choose|i: int|
                            0 <= i < self.list().len() && self.list()[i].0@ == k;
                        assert(r.list()[i].0@ == k);
                    }
                }
                assert forall|k: Seq<char>| r.has_key(k) implies r.deep_map()[k]
                    == self.deep_map()[k] by {
                    let i = r.key_index(k);
                    r.lemma_key_index(i);
                    assert(self.list()[i].0@ == k);
                    self.lemma_key_index(i);
                    assert(vstd::pervasive::cloned::<crate::value::Value>(
                        self.list()[i].1,
                        r.list()[i].1,
                    ));
                    assert(r.list()[i].1.deep_view() == self.list()[i].1.deep_view());
                }
                assert(r.deep_map() =~= self.deep_map());
            }
        }
        r
    }
}

impl Clone for KvMap<String> {
    /// Copy; on a well-formed map the copy models the same map.
    fn clone(&self) -> (r: Self)
        ensures
            self.wf() ==> r.wf() && r.deep_map() == self.deep_map(),
    {
        let r = self.duplicate();
        proof {
            if self.wf() {
                assert forall|k: Seq<char>| #[trigger]
                    r.has_key(k) == self.has_key(k) by {
                    if r.has_key(k) {
                        let i = choose|i: int| 0 <= i < r.list().len() && r.list()[i].0@ == k;
                        assert(self.list()[i].0@ == k);
                    }
                    if self.has_key(k) {
                        let i = choose|i: int|
                            0 <= i < self.list().len() && self.list()[i].0@ == k;
                        assert(r.list()[i].0@ == k);
                    }
                }
                assert forall|k: Seq<char>| r.has_key(k) implies r.deep_map()[k]
                    == self.deep_map()[k] by {
                    let i = r.key_index(k);
                    r.lemma_key_index(i);
                    assert(self.list()[i].0@ == k);
                    self.lemma_key_index(i);
                    assert(vstd::pervasive::cloned::<String>(self.list()[i].1, r.list()[i].1));
                }
                assert(r.deep_map() =~= self.deep_map());
            }
        }
        r
    }
}

} // verus!
