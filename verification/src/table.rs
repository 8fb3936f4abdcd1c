//! A small table keyed by text.
use vstd::prelude::*;

verus! {

/// Values filed under distinct keys, in the order in which the keys came.
#[derive(Debug)]
pub struct Table<V> {
    entries: Vec<(String, V)>,
}

impl<V> Table<V> {
    /// No key occurs twice.
    #[verifier::type_invariant]
    spec fn distinct(self) -> bool {
        forall|i: int, j: int|
            0 <= i < j < self.entries@.len() ==> #[trigger] self.entries@[i].0@
                != #[trigger] self.entries@[j].0@
    }

    /// The keys in the order in which they came, each with its value.
    pub closed spec fn listed(&self) -> Seq<(Seq<char>, V)> {
        Seq::new(self.entries@.len(), |i: int| (self.entries@[i].0@, self.entries@[i].1))
    }

    /// What the table holds under a key.
    pub open spec fn held(&self, key: Seq<char>) -> Option<V> {
        if exists|i: int| 0 <= i < self.listed().len() && #[trigger] self.listed()[i].0 == key {
            let i = choose|i: int|
                0 <= i < self.listed().len() && #[trigger] self.listed()[i].0 == key;
            Some(self.listed()[i].1)
        } else {
            None
        }
    }

    /// The keys in the order in which they came.
    pub open spec fn keys(&self) -> Seq<Seq<char>> {
        Seq::new(self.listed().len(), |i: int| self.listed()[i].0)
    }

    /// Something is held under the keys of a table, and under no others.
    pub proof fn lemma_keys(&self, key: Seq<char>)
        ensures
            self.held(key) is Some <==> self.keys().contains(key),
    {
        if self.held(key) is Some {
            let i = choose|i: int|
                0 <= i < self.listed().len() && #[trigger] self.listed()[i].0 == key;
            assert(self.keys()[i] == key);
        }
        if self.keys().contains(key) {
            let i = choose|i: int| 0 <= i < self.keys().len() && self.keys()[i] == key;
            assert(self.listed()[i].0 == key);
        }
    }

    /// A table without entries.
    pub fn new() -> (t: Self)
        ensures
            t.listed() == Seq::<(Seq<char>, V)>::empty(),
            t.keys() == Seq::<Seq<char>>::empty(),
            forall|key: Seq<char>| #[trigger] t.held(key) is None,
    {
        let t = Table { entries: Vec::new() };
        assert(t.listed() =~= Seq::<(Seq<char>, V)>::empty());
        t
    }

    /// The place of a key, or the number of entries where there is none.
    fn position(&self, key: &String) -> (i: usize)
        ensures
            i <= self.entries@.len(),
            i < self.entries@.len() ==> self.entries@[i as int].0@ == key@,
            i == self.entries@.len() ==> forall|j: int|
                0 <= j < self.entries@.len() ==> #[trigger] self.entries@[j].0@ != key@,
    {
        let mut i: usize = 0;
        while i < self.entries.len()
            invariant
                i <= self.entries@.len(),
                forall|j: int| 0 <= j < i ==> #[trigger] self.entries@[j].0@ != key@,
            decreases self.entries@.len() - i,
        {
            if self.entries[i].0 == *key {
                return i;
            }
            i = i + 1;
        }
        i
    }

    /// Files a value under a key, in place of what was there.
    pub fn insert(&mut self, key: String, value: V)
        ensures
            forall|k: Seq<char>| #[trigger]
                final(self).held(k) == if k == key@ {
                    Some(value)
                } else {
                    old(self).held(k)
                },
            final(self).listed() == match old(self).held(key@) {
                None => old(self).listed().push((key@, value)),
                Some(_) => old(self).listed().map_values(
                    |entry: (Seq<char>, V)|
                        if entry.0 == key@ {
                            (key@, value)
                        } else {
                            entry
                        },
                ),
            },
            final(self).keys() == match old(self).held(key@) {
                None => old(self).keys().push(key@),
                Some(_) => old(self).keys(),
            },
    {
        proof {
            use_type_invariant(&*self);
        }
        let i = self.position(&key);
        let mut entries: Vec<(String, V)> = Vec::new();
        let ghost before = *self;
        std::mem::swap(&mut entries, &mut self.entries);
        let ghost text = key@;
        if i < entries.len() {
            entries.set(i, (key, value));
        } else {
            entries.push((key, value));
        }
        self.entries = entries;
        proof {
            self.lemma_inserted(&before, i as int, text, value);
            assert(self.keys() =~= match before.held(text) {
                None => before.keys().push(text),
                Some(_) => before.keys(),
            });
        }
    }

    proof fn lemma_inserted(&self, before: &Self, i: int, key: Seq<char>, value: V)
        requires
            before.distinct(),
            self.distinct(),
            0 <= i <= before.entries@.len(),
            i < before.entries@.len() ==> before.entries@[i].0@ == key && self.entries@.len()
                == before.entries@.len(),
            i == before.entries@.len() ==> self.entries@.len() == i + 1,
            forall|j: int|
                0 <= j < before.entries@.len() && j != i ==> #[trigger] self.entries@[j]
                    == before.entries@[j],
            self.entries@[i].0@ == key,
            self.entries@[i].1 == value,
            i == before.entries@.len() ==> forall|j: int|
                0 <= j < before.entries@.len() ==> #[trigger] before.entries@[j].0@ != key,
        ensures
            forall|k: Seq<char>| #[trigger]
                self.held(k) == if k == key {
                    Some(value)
                } else {
                    before.held(k)
                },
            self.listed() == match before.held(key) {
                None => before.listed().push((key, value)),
                Some(_) => before.listed().map_values(
                    |entry: (Seq<char>, V)|
                        if entry.0 == key {
                            (key, value)
                        } else {
                            entry
                        },
                ),
            },
    {
        assert forall|k: Seq<char>| #[trigger]
            self.held(k) == if k == key {
                Some(value)
            } else {
                before.held(k)
            } by {
            if k == key {
                assert(self.listed()[i].0 == key);
            } else if before.held(k) is Some {
                let j = choose|j: int|
                    0 <= j < before.listed().len() && #[trigger] before.listed()[j].0 == k;
                assert(before.entries@[j].0@ == k);
                assert(self.listed()[j].0 == k);
                self.lemma_held(j);
                before.lemma_held(j);
            } else if self.held(k) is Some {
                let j = choose|j: int|
                    0 <= j < self.listed().len() && #[trigger] self.listed()[j].0 == k;
                assert(before.listed()[j].0 == k);
            }
            if k == key {
                self.lemma_held(i);
            }
        }
        if i == before.entries@.len() {
            assert(before.held(key) is None);
            assert(self.listed() =~= before.listed().push((key, value)));
        } else {
            assert(before.listed()[i].0 == key);
            assert forall|j: int|
                0 <= j < self.listed().len() implies #[trigger] self.listed()[j]
                == before.listed().map_values(
                |entry: (Seq<char>, V)|
                    if entry.0 == key {
                        (key, value)
                    } else {
                        entry
                    },
            )[j] by {
                if j < i {
                    assert(before.entries@[j].0@ != before.entries@[i].0@);
                } else if i < j {
                    assert(before.entries@[i].0@ != before.entries@[j].0@);
                }
            }
            assert(self.listed() =~= before.listed().map_values(
                |entry: (Seq<char>, V)|
                    if entry.0 == key {
                        (key, value)
                    } else {
                        entry
                    },
            ));
        }
    }

    /// An entry is what is held under its key.
    proof fn lemma_held(&self, i: int)
        requires
            self.distinct(),
            0 <= i < self.entries@.len(),
        ensures
            self.held(self.entries@[i].0@) == Some(self.entries@[i].1),
    {
        let key = self.entries@[i].0@;
        assert(self.listed()[i].0 == key);
        let j = choose|j: int| 0 <= j < self.listed().len() && #[trigger] self.listed()[j].0 == key;
        if i < j {
            assert(self.entries@[i].0@ != self.entries@[j].0@);
        } else if j < i {
            assert(self.entries@[j].0@ != self.entries@[i].0@);
        }
    }

    /// The number of keys.
    pub fn len(&self) -> (n: usize)
        ensures
            n == self.listed().len(),
    {
        self.entries.len()
    }
}

impl<V: Copy> Table<V> {
    /// What the table holds under a key.
    pub fn get(&self, key: &String) -> (r: Option<V>)
        ensures
            r == self.held(key@),
    {
        proof {
            use_type_invariant(self);
        }
        let i = self.position(key);
        if i < self.entries.len() {
            proof {
                self.lemma_held(i as int);
            }
            Some(self.entries[i].1)
        } else {
            assert(self.held(key@) is None);
            None
        }
    }

    /// The key and the value at a place.
    pub fn entry(&self, i: usize) -> (r: (&String, V))
        requires
            i < self.listed().len(),
        ensures
            (r.0@, r.1) == self.listed()[i as int],
            self.held(r.0@) == Some(r.1),
    {
        proof {
            use_type_invariant(self);
            self.lemma_held(i as int);
        }
        (&self.entries[i].0, self.entries[i].1)
    }
}

impl<V: Copy> Clone for Table<V> {
    fn clone(&self) -> (r: Self)
        ensures
            r.listed() == self.listed(),
    {
        proof {
            use_type_invariant(self);
        }
        let mut entries: Vec<(String, V)> = Vec::new();
        let mut i: usize = 0;
        while i < self.entries.len()
            invariant
                i <= self.entries@.len(),
                entries@.len() == i,
                forall|j: int| 0 <= j < i ==> #[trigger] entries@[j] == self.entries@[j],
            decreases self.entries@.len() - i,
        {
            let entry = &self.entries[i];
            entries.push((entry.0.clone(), entry.1));
            i = i + 1;
        }
        assert(entries@ =~= self.entries@);
        Table { entries }
    }
}

} // verus!
