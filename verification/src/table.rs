//! A table of variables: names to records, each name at most once.

use crate::text::str_eq;
use crate::var::{EnvVar, VarView};
use vstd::prelude::*;

verus! {

/// A mapping from variable names to records. It is kept as a list of entries
/// in which no name occurs twice; its view is the mapping itself.
#[derive(Debug)]
pub struct VarTable {
    entries: Vec<(String, EnvVar)>,
}

impl View for VarTable {
    type V = Map<Seq<char>, VarView>;

    closed spec fn view(&self) -> Map<Seq<char>, VarView> {
        Map::new(
            |k: Seq<char>| self.keys().contains(k),
            |k: Seq<char>| self.entries[self.keys().index_of(k)].1@,
        )
    }
}

/// A table of variables as a mapping: names to records.
pub type Vars = Map<Seq<char>, VarView>;

/// The record of `name` in `vars`, if it has one.
pub open spec fn entry(vars: Vars, name: Seq<char>) -> Option<VarView> {
    if vars.contains_key(name) {
        Some(vars[name])
    } else {
        None
    }
}

/// `vars` with `name` bound to `change`, or without it where `change` is
/// `None`.
pub open spec fn amend(vars: Vars, name: Seq<char>, change: Option<VarView>) -> Vars {
    match change {
        Some(var) => vars.insert(name, var),
        None => vars.remove(name),
    }
}

/// The names and records of a list of entries.
pub open spec fn pairs(list: Seq<(String, EnvVar)>) -> Seq<(Seq<char>, VarView)> {
    list.map_values(|p: (String, EnvVar)| (p.0@, p.1@))
}

/// The table that results from storing the entries of `list` in order: of
/// two entries with one name the later one stays.
pub open spec fn table_of(list: Seq<(Seq<char>, VarView)>) -> Vars
    decreases list.len(),
{
    if list.len() == 0 {
        Map::empty()
    } else {
        table_of(list.drop_last()).insert(list.last().0, list.last().1)
    }
}

/// The names of a list of entries.
spec fn names_of(entries: Seq<(String, EnvVar)>) -> Seq<Seq<char>> {
    Seq::new(entries.len(), |i: int| entries[i].0@)
}

impl VarTable {
    #[verifier::type_invariant]
    closed spec fn distinct(&self) -> bool {
        self.keys().no_duplicates()
    }

    /// The names of the entries, in the order in which the table holds them.
    pub closed spec fn keys(&self) -> Seq<Seq<char>> {
        names_of(self.entries@)
    }

    /// The names of the table are exactly the names of its entries.
    pub proof fn lemma_keys_are_domain(&self)
        ensures
            forall|k: Seq<char>|
                #![trigger self@.contains_key(k)]
                #![trigger self.keys().contains(k)]
                self@.contains_key(k) <==> self.keys().contains(k),
    {
    }

    proof fn lemma_entry(&self, i: int)
        requires
            self.distinct(),
            0 <= i < self.entries.len(),
        ensures
            self@.contains_key(self.entries[i].0@),
            self@[self.entries[i].0@] == self.entries[i].1@,
    {
        let k = self.entries[i].0@;
        assert(self.keys()[i] == k);
        let j = self.keys().index_of(k);
        assert(self.keys()[j] == k);
    }

    /// The empty table.
    pub fn new() -> (r: VarTable)
        ensures
            r@ == Map::<Seq<char>, VarView>::empty(),
            r.keys().len() == 0,
    {
        let r = VarTable { entries: Vec::new() };
        assert(r@ =~= Map::<Seq<char>, VarView>::empty());
        r
    }

    /// The number of entries.
    pub fn len(&self) -> (r: usize)
        ensures
            r == self.keys().len(),
            self.keys().no_duplicates(),
    {
        proof {
            use_type_invariant(self);
        }
        self.entries.len()
    }

    /// The name and the record of the entry at `i`.
    pub fn entry(&self, i: usize) -> (r: (&String, &EnvVar))
        requires
            i < self.keys().len(),
        ensures
            r.0@ == self.keys()[i as int],
            self@.contains_key(r.0@),
            self@[r.0@] == r.1@,
    {
        proof {
            use_type_invariant(self);
            self.lemma_entry(i as int);
        }
        (&self.entries[i].0, &self.entries[i].1)
    }

    fn position(&self, key: &str) -> (r: Option<usize>)
        ensures
            match r {
                Some(i) => i < self.entries.len() && self.entries[i as int].0@ == key@,
                None => !self.keys().contains(key@),
            },
    {
        let mut i: usize = 0;
        while i < self.entries.len()
            invariant
                i <= self.entries.len(),
                forall|j: int| 0 <= j < i ==> self.entries[j].0@ != key@,
            decreases self.entries.len() - i,
        {
            if str_eq(self.entries[i].0.as_str(), key) {
                return Some(i);
            }
            i += 1;
        }
        None
    }

    /// Whether the table has an entry for `key`.
    pub fn contains(&self, key: &str) -> (r: bool)
        ensures
            r == self@.contains_key(key@),
    {
        match self.position(key) {
            Some(i) => {
                assert(self.keys()[i as int] == key@);
                true
            },
            None => false,
        }
    }

    /// The record stored under `key`, if there is one.
    pub fn get(&self, key: &str) -> (r: Option<&EnvVar>)
        ensures
            match r {
                Some(v) => self@.contains_key(key@) && self@[key@] == v@,
                None => !self@.contains_key(key@),
            },
    {
        proof {
            use_type_invariant(self);
        }
        match self.position(key) {
            Some(i) => {
                proof {
                    self.lemma_entry(i as int);
                }
                Some(&self.entries[i].1)
            },
            None => None,
        }
    }

    /// Stores `var` under `key`, in place of the record that was there.
    pub fn insert(&mut self, key: String, var: EnvVar)
        ensures
            final(self)@ == old(self)@.insert(key@, var@),
    {
        proof {
            use_type_invariant(&*self);
        }
        let ghost before = *self;
        let ghost k = key@;
        let ghost v = var@;
        let found = self.position(key.as_str());
        let mut entries: Vec<(String, EnvVar)> = Vec::new();
        core::mem::swap(&mut self.entries, &mut entries);
        match found {
            Some(i) => {
                entries.set(i, (key, var));
                assert(names_of(entries@) =~= before.keys());
                self.entries = entries;
                assert(self.keys() =~= before.keys());
                assert(self.keys()[i as int] == k);
            },
            None => {
                entries.push((key, var));
                assert(names_of(entries@) =~= before.keys().push(k));
                self.entries = entries;
                assert(self.keys() =~= before.keys().push(k));
                assert(self.keys()[before.entries.len() as int] == k);
            },
        }
        assert forall|n: Seq<char>| self@.contains_key(n) implies #[trigger] self@[n]
            == before@.insert(k, v)[n] by {
            let j = self.keys().index_of(n);
            assert(self.keys()[j] == n);
            self.lemma_entry(j);
            if j < before.entries.len() {
                before.lemma_entry(j);
            }
        }
        assert forall|n: Seq<char>| before@.insert(k, v).contains_key(n) implies self@.contains_key(
            n,
        ) by {
            if n != k {
                let j = before.keys().index_of(n);
                assert(before.keys()[j] == n);
                assert(self.keys()[j] == n);
            }
        }
        assert(self@ =~= before@.insert(k, v));
    }

    /// Removes the entry of `key`, and says whether there was one.
    pub fn remove(&mut self, key: &str) -> (r: bool)
        ensures
            final(self)@ == old(self)@.remove(key@),
            r == old(self)@.contains_key(key@),
    {
        proof {
            use_type_invariant(&*self);
        }
        let ghost before = *self;
        match self.position(key) {
            Some(i) => {
                assert(before.keys()[i as int] == key@);
                let mut entries: Vec<(String, EnvVar)> = Vec::new();
                core::mem::swap(&mut self.entries, &mut entries);
                entries.remove(i);
                assert(names_of(entries@) =~= before.keys().remove(i as int));
                self.entries = entries;
                assert(self.keys() =~= before.keys().remove(i as int));
                assert forall|n: Seq<char>|
                    self.keys().contains(n) <==> (before.keys().contains(n) && n != key@) by {
                    if self.keys().contains(n) {
                        let j = self.keys().index_of(n);
                        assert(self.keys()[j] == n);
                        let jj = if j < i {
                            j
                        } else {
                            j + 1
                        };
                        assert(before.keys()[jj] == n);
                    }
                    if before.keys().contains(n) && n != key@ {
                        let j = before.keys().index_of(n);
                        assert(before.keys()[j] == n);
                        let jj = if j < i {
                            j
                        } else {
                            j - 1
                        };
                        assert(self.keys()[jj] == n);
                    }
                }
                assert forall|n: Seq<char>| self@.contains_key(n) implies #[trigger] self@[n]
                    == before@[n] by {
                    let j = self.keys().index_of(n);
                    assert(self.keys()[j] == n);
                    self.lemma_entry(j);
                    let jj = if j < i {
                        j
                    } else {
                        j + 1
                    };
                    before.lemma_entry(jj);
                }
                assert(self@ =~= before@.remove(key@));
                true
            },
            None => {
                assert(self@ =~= before@.remove(key@));
                false
            },
        }
    }
}

impl VarTable {
    /// The table that holds the entries of `list`, stored in order.
    pub fn from_pairs(list: &Vec<(String, EnvVar)>) -> (r: VarTable)
        ensures
            r@ == table_of(pairs(list@)),
    {
        let mut r = VarTable::new();
        let mut i: usize = 0;
        assert(pairs(list@).take(0) =~= Seq::empty());
        while i < list.len()
            invariant
                i <= list.len(),
                r@ == table_of(pairs(list@).take(i as int)),
            decreases list.len() - i,
        {
            let ghost next = pairs(list@).take(i + 1);
            assert(next.drop_last() =~= pairs(list@).take(i as int));
            assert(next.last() == (list@[i as int].0@, list@[i as int].1@));
            r.insert(list[i].0.clone(), list[i].1.clone());
            i += 1;
        }
        assert(pairs(list@).take(list.len() as int) =~= pairs(list@));
        r
    }

    /// The entries of the table as a list, each name once.
    pub fn to_pairs(&self) -> (r: Vec<(String, EnvVar)>)
        ensures
            table_of(pairs(r@)) == self@,
            r@.len() == self.keys().len(),
            self.keys().no_duplicates(),
            forall|i: int|
                0 <= i < r@.len() ==> (#[trigger] r@[i]).0@ == self.keys()[i] && self@.contains_key(
                    r@[i].0@,
                ) && self@[r@[i].0@] == r@[i].1@,
    {
        proof {
            use_type_invariant(self);
        }
        let mut r: Vec<(String, EnvVar)> = Vec::new();
        let mut i: usize = 0;
        while i < self.entries.len()
            invariant
                i <= self.entries.len(),
                r.len() == i,
                self.distinct(),
                forall|j: int|
                    0 <= j < i ==> (#[trigger] r@[j]).0@ == self.entries[j].0@ && r@[j].1@
                        == self.entries[j].1@,
            decreases self.entries.len() - i,
        {
            r.push((self.entries[i].0.clone(), self.entries[i].1.clone()));
            i += 1;
        }
        proof {
            assert forall|i: int| 0 <= i < r@.len() implies (#[trigger] r@[i]).0@ == self.keys()[i]
                && self@.contains_key(r@[i].0@) && self@[r@[i].0@] == r@[i].1@ by {
                self.lemma_entry(i);
            }
            self.lemma_table_of_entries(pairs(r@), r.len() as int);
            assert(pairs(r@).take(r.len() as int) =~= pairs(r@));
            assert(self@ =~= table_of(pairs(r@))) by {
                assert forall|n: Seq<char>| self@.contains_key(n) implies exists|j: int|
                    0 <= j < r.len() && self.keys()[j] == n by {
                    let j = self.keys().index_of(n);
                    assert(self.keys()[j] == n);
                }
            }
        }
        r
    }

    proof fn lemma_table_of_entries(&self, list: Seq<(Seq<char>, VarView)>, n: int)
        requires
            self.distinct(),
            list.len() == self.entries.len(),
            0 <= n <= list.len(),
            forall|j: int|
                0 <= j < list.len() ==> (#[trigger] list[j]).0 == self.entries[j].0@ && list[j].1
                    == self.entries[j].1@,
        ensures
            forall|k: Seq<char>| #[trigger]
                table_of(list.take(n)).contains_key(k) <==> exists|j: int|
                    0 <= j < n && self.keys()[j] == k,
            forall|k: Seq<char>| #[trigger]
                table_of(list.take(n)).contains_key(k) ==> table_of(list.take(n))[k] == self@[k],
        decreases n,
    {
        if n == 0 {
            assert(list.take(0) =~= Seq::empty());
        } else {
            self.lemma_table_of_entries(list, n - 1);
            let prev = table_of(list.take(n - 1));
            let cur = table_of(list.take(n));
            let last = list[n - 1];
            assert(list.take(n).drop_last() =~= list.take(n - 1));
            assert(list.take(n).last() == last);
            assert(cur == prev.insert(last.0, last.1));
            self.lemma_entry(n - 1);
            assert(self.keys()[n - 1] == last.0);
            assert forall|k: Seq<char>| #[trigger] cur.contains_key(k) <==> exists|j: int|
                0 <= j < n && self.keys()[j] == k by {
                if cur.contains_key(k) {
                    if k != last.0 {
                        assert(prev.contains_key(k));
                        let j = choose|j: int| 0 <= j < n - 1 && self.keys()[j] == k;
                        assert(0 <= j < n && self.keys()[j] == k);
                    }
                }
                if exists|j: int| 0 <= j < n && self.keys()[j] == k {
                    let j = choose|j: int| 0 <= j < n && self.keys()[j] == k;
                    if j < n - 1 {
                        assert(prev.contains_key(k));
                    }
                }
            }
            assert forall|k: Seq<char>| #[trigger] cur.contains_key(k) implies cur[k] == self@[k] by {
                if k != last.0 {
                    assert(prev.contains_key(k));
                }
            }
        }
    }
}

impl Clone for VarTable {
    fn clone(&self) -> (r: Self)
        ensures
            r@ == self@,
            r.keys() == self.keys(),
    {
        proof {
            use_type_invariant(self);
        }
        let mut entries: Vec<(String, EnvVar)> = Vec::new();
        let mut i: usize = 0;
        while i < self.entries.len()
            invariant
                i <= self.entries.len(),
                entries.len() == i,
                forall|j: int|
                    0 <= j < i ==> entries[j].0@ == self.entries[j].0@ && entries[j].1@
                        == self.entries[j].1@,
            decreases self.entries.len() - i,
        {
            entries.push((self.entries[i].0.clone(), self.entries[i].1.clone()));
            i += 1;
        }
        assert(names_of(entries@) =~= self.keys());
        let r = VarTable { entries };
        assert forall|n: Seq<char>| r@.contains_key(n) implies #[trigger] r@[n] == self@[n] by {
            let j = r.keys().index_of(n);
            assert(r.keys()[j] == n);
            r.lemma_entry(j);
            self.lemma_entry(j);
        }
        assert(r@ =~= self@);
        r
    }
}

} // verus!
