//! A map from names to values that keeps its names in the order in which they
//! were first inserted.

use vstd::prelude::*;

verus! {

/// A finite map whose keys are strings.
pub struct Table<V> {
    entries: Vec<(String, V)>,
}

/// No name stands in two entries.
spec fn distinct_names<V>(entries: Seq<(String, V)>) -> bool {
    forall|i: int, j: int|
        0 <= i < j < entries.len() ==> (#[trigger] entries[i]).0@ != (#[trigger] entries[j]).0@
}

/// Entry `i` is the one for `name`.
spec fn entry_for<V>(entries: Seq<(String, V)>, name: Seq<char>, i: int) -> bool {
    0 <= i < entries.len() && entries[i].0@ == name
}

impl<V> Table<V> {
    #[verifier::type_invariant]
    spec fn inv(self) -> bool {
        distinct_names(self.entries@)
    }

    /// The map that the table holds.
    pub closed spec fn view(self) -> Map<Seq<char>, V> {
        Map::new(
            |name: Seq<char>| exists|i: int| #[trigger] entry_for(self.entries@, name, i),
            |name: Seq<char>|
                self.entries@[choose|i: int| #[trigger] entry_for(self.entries@, name, i)].1,
        )
    }

    /// The names, in the order in which they were first inserted.
    pub closed spec fn names(self) -> Seq<Seq<char>> {
        Seq::new(self.entries@.len(), |i: int| self.entries@[i].0@)
    }

    proof fn lemma_entry(self, i: int)
        requires
            self.inv(),
            0 <= i < self.entries@.len(),
        ensures
            self.view().dom().contains(self.entries@[i].0@),
            self.view()[self.entries@[i].0@] == self.entries@[i].1,
    {
        let name = self.entries@[i].0@;
        assert(entry_for(self.entries@, name, i));
        let k = choose|k: int| #[trigger] entry_for(self.entries@, name, k);
        assert(entry_for(self.entries@, name, k));
        assert(k == i);
    }

    /// The table without entries.
    pub fn new() -> (table: Self)
        ensures
            table.view() == Map::<Seq<char>, V>::empty(),
            table.names() == Seq::<Seq<char>>::empty(),
    {
        let table = Table { entries: Vec::new() };
        proof {
            assert forall|name: Seq<char>| !table.view().dom().contains(name) by {
                assert(forall|i: int| !#[trigger] entry_for(table.entries@, name, i));
            }
            assert(table.view() =~= Map::<Seq<char>, V>::empty());
        }
        table
    }

    /// The number of entries.
    pub fn len(&self) -> (n: usize)
        ensures
            n == self.names().len(),
            self.names().no_duplicates(),
            forall|name: Seq<char>|
                #[trigger] self.view().dom().contains(name) <==> self.names().contains(name),
    {
        proof {
            use_type_invariant(self);
            assert forall|name: Seq<char>|
                #[trigger] self.view().dom().contains(name) <==> self.names().contains(name) by {
                if self.view().dom().contains(name) {
                    let i = choose|i: int| #[trigger] entry_for(self.entries@, name, i);
                    assert(self.names()[i] == name);
                }
                if self.names().contains(name) {
                    let i = choose|i: int| 0 <= i < self.names().len() && self.names()[i] == name;
                    assert(entry_for(self.entries@, name, i));
                }
            }
        }
        self.entries.len()
    }

    /// Entry `i`, in the order of [`Table::names`].
    pub fn entry(&self, i: usize) -> (entry: (&String, &V))
        requires
            i < self.names().len(),
        ensures
            entry.0@ == self.names()[i as int],
            self.view().dom().contains(entry.0@),
            *entry.1 == self.view()[entry.0@],
    {
        proof {
            use_type_invariant(self);
            self.lemma_entry(i as int);
        }
        (&self.entries[i].0, &self.entries[i].1)
    }

    /// Where the entry for `name` stands.
    fn position(&self, name: &String) -> (at: Option<usize>)
        ensures
            match at {
                Some(i) => entry_for(self.entries@, name@, i as int),
                None => forall|i: int| !#[trigger] entry_for(self.entries@, name@, i),
            },
    {
        for i in 0..self.entries.len()
            invariant
                forall|j: int| 0 <= j < i ==> !#[trigger] entry_for(self.entries@, name@, j),
        {
            if self.entries[i].0 == *name {
                return Some(i);
            }
        }
        None
    }

    /// The value for `name`, if there is one.
    pub fn get(&self, name: &String) -> (value: Option<&V>)
        ensures
            match value {
                Some(v) => self.view().dom().contains(name@) && *v == self.view()[name@],
                None => !self.view().dom().contains(name@),
            },
    {
        proof {
            use_type_invariant(self);
        }
        match self.position(name) {
            Some(i) => {
                proof {
                    self.lemma_entry(i as int);
                }
                Some(&self.entries[i].1)
            },
            None => None,
        }
    }

    /// The table with `value` for `name`, in place of any earlier value.
    pub fn insert(self, name: String, value: V) -> (table: Self)
        ensures
            table.view() == self.view().insert(name@, value),
            table.names() == if self.view().dom().contains(name@) {
                self.names()
            } else {
                self.names().push(name@)
            },
    {
        proof {
            use_type_invariant(&self);
        }
        let ghost before = self;
        let at = self.position(&name);
        let mut entries = self.entries;
        match at {
            Some(i) => {
                entries.set(i, (name, value));
            },
            None => {
                proof {
                    assert forall|i: int| 0 <= i < entries@.len() implies (#[trigger] entries@[i]).0@
                        != name@ by {
                        assert(!entry_for(before.entries@, name@, i));
                    }
                }
                entries.push((name, value));
            },
        }
        let table = Table { entries };
        proof {
            let after = table.view();
            let expected = before.view().insert(name@, value);
            assert forall|k: Seq<char>|
                #[trigger] after.dom().contains(k) <==> expected.dom().contains(k) by {
                if after.dom().contains(k) {
                    let i = choose|i: int| #[trigger] entry_for(table.entries@, k, i);
                    if k != name@ {
                        assert(entry_for(before.entries@, k, i));
                    }
                }
                if expected.dom().contains(k) {
                    if k == name@ {
                        let i = if at is Some {
                            at->0 as int
                        } else {
                            before.entries@.len() as int
                        };
                        assert(entry_for(table.entries@, k, i));
                    } else {
                        let i = choose|i: int| #[trigger] entry_for(before.entries@, k, i);
                        assert(entry_for(table.entries@, k, i));
                    }
                }
            }
            assert forall|k: Seq<char>| #[trigger] after.dom().contains(k) implies after[k]
                == expected[k] by {
                let i = choose|i: int| #[trigger] entry_for(table.entries@, k, i);
                table.lemma_entry(i);
                if k != name@ {
                    before.lemma_entry(i);
                }
            }
            assert(after =~= expected);
        }
        table
    }
}

} // verus!
