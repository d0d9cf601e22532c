//! A small map from names to values that remembers the order in which the
//! names first arrived.

use vstd::prelude::*;
use vstd::string::StringExecFns;

verus! {

/// Name-value pairs in which no name occurs twice.
#[derive(Debug)]
pub struct NameTable<V> {
    entries: Vec<(String, V)>,
}

impl<V> NameTable<V> {
    /// The names, in the order of their first insertion.
    pub closed spec fn names(&self) -> Seq<Seq<char>> {
        Seq::new(self.entries@.len(), |i: int| self.entries@[i].0@)
    }

    /// The values, each at the position of its name.
    pub closed spec fn values(&self) -> Seq<V> {
        Seq::new(self.entries@.len(), |i: int| self.entries@[i].1)
    }

    /// No name occurs twice.
    pub open spec fn wf(&self) -> bool {
        &&& self.names().len() == self.values().len()
        &&& forall|i: int, j: int|
            0 <= i < j < self.names().len() ==> self.names()[i] != self.names()[j]
    }

    /// The table as a mathematical map.
    pub open spec fn view(&self) -> Map<Seq<char>, V> {
        Map::new(
            |k: Seq<char>| self.names().contains(k),
            |k: Seq<char>| self.values()[self.names().index_of(k)],
        )
    }

    /// The empty table.
    pub fn new() -> (t: Self)
        ensures
            t.wf(),
            t.names() == Seq::<Seq<char>>::empty(),
            t@ == Map::<Seq<char>, V>::empty(),
    {
        let t = NameTable { entries: Vec::new() };
        assert(t.names() =~= Seq::<Seq<char>>::empty());
        assert(t@ =~= Map::<Seq<char>, V>::empty());
        t
    }

    /// The number of names.
    pub fn len(&self) -> (n: usize)
        ensures
            n == self.names().len(),
    {
        self.entries.len()
    }

    /// The name at position `i`.
    pub fn name_at(&self, i: usize) -> (s: &String)
        requires
            i < self.names().len(),
        ensures
            s@ == self.names()[i as int],
    {
        &self.entries[i].0
    }

    /// The position of `key`, if the table has it.
    pub fn position(&self, key: &str) -> (r: Option<usize>)
        ensures
            match r {
                Some(i) => i < self.names().len() && self.names()[i as int] == key@,
                None => !self.names().contains(key@),
            },
    {
        let wanted = String::from_str(key);
        let mut i: usize = 0;
        while i < self.entries.len()
            invariant
                i <= self.entries@.len(),
                wanted@ == key@,
                forall|j: int| 0 <= j < i ==> self.names()[j] != key@,
            decreases self.entries@.len() - i,
        {
            if self.entries[i].0 == wanted {
                return Some(i);
            }
            i = i + 1;
        }
        None
    }

    /// The value stored under `key`.
    pub fn get(&self, key: &str) -> (r: Option<&V>)
        requires
            self.wf(),
        ensures
            match r {
                Some(v) => self@.contains_key(key@) && *v == self@[key@],
                None => !self@.contains_key(key@),
            },
    {
        match self.position(key) {
            Some(i) => {
                proof {
                    self.lemma_value_of(i as int);
                }
                Some(&self.entries[i].1)
            },
            None => None,
        }
    }

    /// Stores `value` under `key`, in place of what was stored under it.
    pub fn insert(&mut self, key: String, value: V)
        requires
            old(self).wf(),
        ensures
            final(self).wf(),
            final(self)@ == old(self)@.insert(key@, value),
            final(self).names() == if old(self).names().contains(key@) {
                old(self).names()
            } else {
                old(self).names().push(key@)
            },
    {
        let ghost before = *self;
        let ghost k = key@;
        match self.position(key.as_str()) {
            Some(i) => {
                self.entries.set(i, (key, value));
                assert(self.names() =~= before.names());
                assert(self.values() =~= before.values().update(i as int, value));
                assert(before.names().contains(k));
                assert forall|q: Seq<char>| self@.contains_key(q) implies #[trigger] self@[q]
                    == before@.insert(k, value)[q] by {
                    let j = self.names().index_of(q);
                    if q != k {
                        assert(j != i);
                    } else {
                        assert(j == i);
                    }
                }
                assert(self@ =~= before@.insert(k, value));
            },
            None => {
                self.entries.push((key, value));
                assert(self.names() =~= before.names().push(k));
                assert(self.values() =~= before.values().push(value));
                let ghost n = before.names().len() as int;
                assert(self.names()[n] == k);
                assert forall|q: Seq<char>| self.names().contains(q) <==> (q == k
                    || before.names().contains(q)) by {
                    if before.names().contains(q) {
                        let j = before.names().index_of(q);
                        assert(self.names()[j] == q);
                    }
                }
                assert forall|q: Seq<char>| self@.contains_key(q) implies #[trigger] self@[q]
                    == before@.insert(k, value)[q] by {
                    let j = self.names().index_of(q);
                    if q != k {
                        let j0 = before.names().index_of(q);
                        assert(self.names()[j0] == q);
                        assert(j == j0);
                    } else {
                        assert(j == n);
                    }
                }
                assert(self@ =~= before@.insert(k, value));
            },
        }
    }

    /// The value at a position is the value of the name at that position.
    proof fn lemma_value_of(&self, i: int)
        requires
            self.wf(),
            0 <= i < self.names().len(),
        ensures
            self@.contains_key(self.names()[i]),
            self@[self.names()[i]] == self.values()[i],
    {
        let k = self.names()[i];
        assert(self.names().contains(k));
        let j = self.names().index_of(k);
        assert(j == i);
    }
}

} // verus!
