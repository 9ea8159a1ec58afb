//! Tables from names to values that remember the order of their names.

use vstd::prelude::*;

verus! {

/// A table from names to values. No name stands in it twice; a name keeps the
/// place at which it was first put in.
#[derive(Debug)]
pub struct Table<V> {
    entries: Vec<(String, V)>,
}

/// The names in a list of entries.
pub closed spec fn names_in<V>(entries: Seq<(String, V)>) -> Seq<Seq<char>> {
    Seq::new(entries.len(), |i: int| entries[i].0@)
}

impl<V> Table<V> {
    /// The names, in the order in which they were first put in.
    pub closed spec fn names(self) -> Seq<Seq<char>> {
        names_in(self.entries@)
    }

    #[verifier::type_invariant]
    spec fn distinct_names(self) -> bool {
        self.names().no_duplicates()
    }
}

impl<V: DeepView> View for Table<V> {
    type V = Map<Seq<char>, V::V>;

    closed spec fn view(&self) -> Map<Seq<char>, V::V> {
        Map::new(
            |name: Seq<char>| self.names().contains(name),
            |name: Seq<char>| self.entries@[self.names().index_of(name)].1.deep_view(),
        )
    }
}

impl<V: DeepView> DeepView for Table<V> {
    type V = Map<Seq<char>, V::V>;

    open spec fn deep_view(&self) -> Map<Seq<char>, V::V> {
        self@
    }
}

impl<V: DeepView> Table<V> {
    /// An empty table.
    pub fn new() -> (t: Table<V>)
        ensures
            t@ == Map::<Seq<char>, V::V>::empty(),
            t.names().len() == 0,
    {
        let t = Table { entries: Vec::new() };
        proof {
            assert(t@ =~= Map::<Seq<char>, V::V>::empty());
        }
        t
    }

    /// How many names there are.
    pub fn len(&self) -> (n: usize)
        ensures
            n == self.names().len(),
            self.names().no_duplicates(),
            forall|name: Seq<char>| #[trigger]
                self@.dom().contains(name) <==> self.names().contains(name),
    {
        proof {
            use_type_invariant(self);
        }
        self.entries.len()
    }

    /// The name at a place, and its value.
    pub fn entry(&self, i: usize) -> (e: (&String, &V))
        requires
            i < self.names().len(),
        ensures
            e.0@ == self.names()[i as int],
            self@.dom().contains(e.0@),
            self@[e.0@] == e.1.deep_view(),
    {
        proof {
            use_type_invariant(self);
            let name = self.names()[i as int];
            assert(self.names().contains(name));
            assert(self.names()[self.names().index_of(name)] == name);
        }
        (&self.entries[i].0, &self.entries[i].1)
    }

    fn place(&self, name: &String) -> (p: Option<usize>)
        ensures
            match p {
                Some(i) => i < self.entries@.len() && self.names()[i as int] == name@
                    && self.names().index_of(name@) == i && self.names().contains(name@),
                None => !self.names().contains(name@),
            },
    {
        proof {
            use_type_invariant(self);
        }
        let mut i: usize = 0;
        while i < self.entries.len()
            invariant
                i <= self.entries@.len(),
                self.names().no_duplicates(),
                forall|j: int| 0 <= j < i ==> self.names()[j] != name@,
            decreases self.entries@.len() - i,
        {
            if self.entries[i].0 == *name {
                proof {
                    assert(self.names()[i as int] == name@);
                    assert(self.names().contains(name@));
                    assert(self.names()[self.names().index_of(name@)] == name@);
                }
                return Some(i);
            }
            i += 1;
        }
        None
    }

    /// The value of a name.
    pub fn get(&self, name: &String) -> (v: Option<&V>)
        ensures
            match v {
                Some(v) => self@.dom().contains(name@) && self@[name@] == v.deep_view(),
                None => !self@.dom().contains(name@),
            },
    {
        match self.place(name) {
            Some(i) => Some(&self.entries[i].1),
            None => None,
        }
    }

    /// Gives a name a value, in place of the one it may have had.
    pub fn insert(&mut self, name: String, value: V)
        ensures
            final(self)@ == old(self)@.insert(name@, value.deep_view()),
            final(self).names() == (if old(self).names().contains(name@) {
                old(self).names()
            } else {
                old(self).names().push(name@)
            }),
    {
        let place = self.place(&name);
        proof {
            use_type_invariant(&*self);
        }
        let ghost before = *self;
        let ghost key = name@;
        let ghost val = value.deep_view();
        let mut entries: Vec<(String, V)> = Vec::new();
        std::mem::swap(&mut entries, &mut self.entries);
        match place {
            Some(i) => {
                entries[i] = (name, value);
                proof {
                    assert(names_in(entries@) =~= before.names());
                }
            },
            None => {
                entries.push((name, value));
                proof {
                    assert(names_in(entries@) =~= before.names().push(key));
                }
            },
        }
        self.entries = entries;
        proof {
            let after = *self;
            let names = before.names();
            assert(after.names().no_duplicates());
            assert forall|n: Seq<char>| after@.dom().contains(n) <==> before@.insert(key, val)
                .dom().contains(n) by {
                if names.contains(n) {
                    let j = names.index_of(n);
                    assert(after.names()[j] == n);
                }
                if after.names().contains(n) {
                    let j = after.names().index_of(n);
                    if j < names.len() {
                        assert(names[j] == n);
                    }
                }
                if n == key && place is None {
                    assert(after.names()[names.len() as int] == key);
                }
            }
            assert forall|n: Seq<char>| after@.dom().contains(n) implies after@[n]
                == before@.insert(key, val)[n] by {
                let j = after.names().index_of(n);
                assert(after.names()[j] == n);
                if n != key {
                    assert(names.contains(n));
                    let k = names.index_of(n);
                    assert(names[k] == n);
                    assert(after.names()[k] == n);
                }
            }
            assert(after@ =~= before@.insert(key, val));
        }
    }
}

} // verus!
