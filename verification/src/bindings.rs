//! The values bound to variable names.
use vstd::prelude::*;

verus! {

/// A table from variable names to values, each name bound at most once.
///
/// A value is held as the 64 bits of an IEEE 754 double; the table never
/// looks inside them.
pub struct Bindings {
    entries: Vec<(String, u64)>,
}

/// The names of a sequence of entries.
pub open spec fn names(entries: Seq<(String, u64)>) -> Seq<Seq<char>> {
    entries.map_values(|e: (String, u64)| e.0@)
}

impl View for Bindings {
    type V = Map<Seq<char>, u64>;

    closed spec fn view(&self) -> Map<Seq<char>, u64> {
        let keys = names(self.entries@);
        Map::new(
            |name: Seq<char>| keys.contains(name),
            |name: Seq<char>| self.entries@[keys.index_of(name)].1,
        )
    }
}

impl Bindings {
    #[verifier::type_invariant]
    spec fn unique(&self) -> bool {
        names(self.entries@).no_duplicates()
    }

    /// A table that binds no name.
    pub fn new() -> (table: Bindings)
        ensures
            table@ == Map::<Seq<char>, u64>::empty(),
    {
        let table = Bindings { entries: Vec::new() };
        assert(table@ =~= Map::<Seq<char>, u64>::empty());
        table
    }

    /// Where `name` stands among the entries, if it is bound.
    fn position(&self, name: &String) -> (r: Option<usize>)
        ensures
            match r {
                Some(i) => i < self.entries.len() && self.entries@[i as int].0@ == name@,
                None => !names(self.entries@).contains(name@),
            },
    {
        let mut i: usize = 0;
        while i < self.entries.len()
            invariant
                i <= self.entries.len(),
                forall|k: int| 0 <= k < i ==> names(self.entries@)[k] != name@,
            decreases self.entries.len() - i,
        {
            if self.entries[i].0 == *name {
                return Some(i);
            }
            i += 1;
        }
        None
    }

    /// The value bound to `id`, if there is one.
    pub fn get(&self, id: &str) -> (r: Option<u64>)
        ensures
            r == if self@.contains_key(id@) {
                Some(self@[id@])
            } else {
                None
            },
    {
        proof {
            use_type_invariant(self);
        }
        let name = id.to_owned();
        match self.position(&name) {
            Some(i) => {
                proof {
                    let keys = names(self.entries@);
                    assert(keys[i as int] == id@);
                    assert(keys.index_of(id@) == i);
                }
                Some(self.entries[i].1)
            },
            None => None,
        }
    }

    /// Binds `id` to `val`, in place of any value bound to it before. No other
    /// name changes.
    pub fn set(&mut self, id: &str, val: u64)
        ensures
            final(self)@ == old(self)@.insert(id@, val),
    {
        proof {
            use_type_invariant(&*self);
        }
        let name = id.to_owned();
        let ghost before = self.entries@;
        let found = self.position(&name);
        let mut entries: Vec<(String, u64)> = Vec::new();
        core::mem::swap(&mut self.entries, &mut entries);
        match found {
            Some(i) => {
                entries.set(i, (name, val));
                proof {
                    assert(names(entries@) =~= names(before));
                }
                self.entries = entries;
                proof {
                    let keys = names(before);
                    let after = names(self.entries@);
                    assert(after =~= keys);
                    assert(keys[i as int] == id@);
                    assert forall|n: Seq<char>| keys.contains(n) implies #[trigger] self@[n] == old(
                        self,
                    )@.insert(id@, val)[n] by {
                        let k = keys.index_of(n);
                        if n == id@ {
                            assert(k == i);
                        } else {
                            assert(k != i);
                        }
                    }
                    assert(self@ =~= old(self)@.insert(id@, val));
                }
            },
            None => {
                entries.push((name, val));
                proof {
                    assert(names(entries@) =~= names(before).push(id@));
                }
                self.entries = entries;
                proof {
                    let keys = names(before);
                    let after = names(self.entries@);
                    assert(after =~= keys.push(id@));
                    assert forall|n: Seq<char>| after.contains(n) implies (n == id@ || keys.contains(
                        n,
                    )) by {
                        let k = after.index_of(n);
                        if k < keys.len() {
                            assert(keys[k] == n);
                        }
                    }
                    assert forall|n: Seq<char>| keys.contains(n) implies after.contains(n)
                        && after.index_of(n) == keys.index_of(n) by {
                        let k = keys.index_of(n);
                        assert(after[k] == n);
                    }
                    assert(after[keys.len() as int] == id@);
                    assert(after.index_of(id@) == keys.len());
                    assert(self@ =~= old(self)@.insert(id@, val));
                }
            },
        }
    }
}

} // verus!
