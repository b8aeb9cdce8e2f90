//! A table from entity names to values, kept in the order of the names.

use vstd::prelude::*;
use crate::names::{lemma_bytes_irreflexive, lemma_bytes_transitive, name_before, place, Place};

verus! {

/// A table that holds one value for each name entered into it. The entries
/// are listed in the order of their names, and no name occurs twice.
pub struct Table<V> {
    names: Vec<String>,
    values: Vec<V>,
}

impl<V> Table<V> {
    /// The names of the entries, in the order in which they are listed.
    pub closed spec fn names(&self) -> Seq<Seq<char>> {
        Seq::new(self.names@.len(), |i: int| self.names@[i]@)
    }

    /// The values of the entries, each at the position of its name.
    pub closed spec fn values(&self) -> Seq<V> {
        self.values@
    }

    /// There is one value for each name, and each name comes strictly before
    /// all that are listed after it.
    pub open spec fn wf(&self) -> bool {
        &&& self.names().len() == self.values().len()
        &&& forall|i: int, j: int|
            0 <= i < j < self.names().len() ==> name_before(
                #[trigger] self.names()[i],
                #[trigger] self.names()[j],
            )
    }

    /// The table as a map from names to values.
    pub open spec fn view(&self) -> Map<Seq<char>, V> {
        Map::new(
            |name: Seq<char>| self.names().contains(name),
            |name: Seq<char>| self.values()[self.names().index_of(name)],
        )
    }

    /// A table without entries.
    pub fn new() -> (table: Self)
        ensures
            table.wf(),
            table.names() == Seq::<Seq<char>>::empty(),
            table.values() == Seq::<V>::empty(),
            table@ == Map::<Seq<char>, V>::empty(),
    {
        let table = Table { names: Vec::new(), values: Vec::new() };
        assert(table.names() =~= Seq::<Seq<char>>::empty());
        assert(table@ =~= Map::<Seq<char>, V>::empty());
        table
    }

    /// The number of entries.
    pub fn len(&self) -> (n: usize)
        requires
            self.wf(),
        ensures
            n == self.names().len(),
    {
        self.names.len()
    }

    /// Whether the table has no entry.
    pub fn is_empty(&self) -> (empty: bool)
        requires
            self.wf(),
        ensures
            empty <==> self.names().len() == 0,
            empty <==> self@ == Map::<Seq<char>, V>::empty(),
    {
        proof {
            if self.names().len() > 0 {
                assert(self.names().contains(self.names()[0]));
                assert(self@.dom().contains(self.names()[0]));
            } else {
                assert(self@ =~= Map::<Seq<char>, V>::empty());
            }
        }
        self.names.len() == 0
    }

    /// The name of the entry at position `i`.
    pub fn name_at(&self, i: usize) -> (name: &String)
        requires
            self.wf(),
            i < self.names().len(),
        ensures
            name@ == self.names()[i as int],
    {
        &self.names[i]
    }

    /// The value of the entry at position `i`.
    pub fn value_at(&self, i: usize) -> (value: &V)
        requires
            self.wf(),
            i < self.names().len(),
        ensures
            *value == self.values()[i as int],
    {
        &self.values[i]
    }

    /// In a well-formed table a name is found at one position only.
    pub proof fn lemma_position(&self, i: int)
        requires
            self.wf(),
            0 <= i < self.names().len(),
        ensures
            self.names().contains(self.names()[i]),
            self.names().index_of(self.names()[i]) == i,
            self@.dom().contains(self.names()[i]),
            self@[self.names()[i]] == self.values()[i],
    {
        let name = self.names()[i];
        assert(self.names().contains(name));
        let j = self.names().index_of(name);
        assert(0 <= j < self.names().len() && self.names()[j] == name);
        lemma_bytes_irreflexive(vstd::utf8::encode_utf8(name));
        if j < i {
            assert(name_before(self.names()[j], self.names()[i]));
        } else if i < j {
            assert(name_before(self.names()[i], self.names()[j]));
        }
    }

    /// The value entered for `name`, if there is one.
    pub fn get(&self, name: &str) -> (found: Option<&V>)
        requires
            self.wf(),
        ensures
            match found {
                Some(value) => self@.dom().contains(name@) && *value == self@[name@],
                None => !self@.dom().contains(name@),
            },
    {
        let (i, present) = self.locate(name);
        if present {
            proof {
                self.lemma_position(i as int);
            }
            Some(&self.values[i])
        } else {
            None
        }
    }

    /// Finds the slot of `name`: the position of its entry, or else the
    /// position at which an entry for it would keep the names in order.
    fn locate(&self, name: &str) -> (r: (usize, bool))
        requires
            self.wf(),
        ensures
            r.0 <= self.names().len(),
            forall|j: int| 0 <= j < r.0 ==> name_before(self.names()[j], name@),
            r.1 ==> r.0 < self.names().len() && self.names()[r.0 as int] == name@,
            !r.1 ==> forall|j: int|
                r.0 <= j < self.names().len() ==> name_before(name@, self.names()[j]),
            r.1 <==> self.names().contains(name@),
    {
        let mut i: usize = 0;
        while i < self.names.len()
            invariant
                self.wf(),
                i <= self.names().len(),
                forall|j: int| 0 <= j < i ==> name_before(self.names()[j], name@),
            decreases self.names().len() - i,
        {
            match place(name, self.names[i].as_str()) {
                Place::Same => {
                    assert(self.names()[i as int] == name@);
                    assert(self.names().contains(name@));
                    return (i, true);
                },
                Place::Before => {
                    proof {
                        self.lemma_rest_after(name@, i as int);
                        self.lemma_absent(name@, i as int);
                    }
                    return (i, false);
                },
                Place::After => {},
            }
            i = i + 1;
        }
        proof {
            self.lemma_absent(name@, i as int);
        }
        (i, false)
    }

    /// A name that comes before the entry at `p` comes before all later ones.
    proof fn lemma_rest_after(&self, name: Seq<char>, p: int)
        requires
            self.wf(),
            0 <= p < self.names().len(),
            name_before(name, self.names()[p]),
        ensures
            forall|j: int| p <= j < self.names().len() ==> name_before(name, self.names()[j]),
    {
        assert forall|j: int| p <= j < self.names().len() implies name_before(
            name,
            self.names()[j],
        ) by {
            if j > p {
                assert(name_before(self.names()[p], self.names()[j]));
                lemma_bytes_transitive(
                    vstd::utf8::encode_utf8(name),
                    vstd::utf8::encode_utf8(self.names()[p]),
                    vstd::utf8::encode_utf8(self.names()[j]),
                );
            }
        }
    }

    /// A name that stands strictly between the entries before `p` and those
    /// from `p` on is not in the table.
    proof fn lemma_absent(&self, name: Seq<char>, p: int)
        requires
            self.wf(),
            0 <= p <= self.names().len(),
            forall|j: int| 0 <= j < p ==> name_before(self.names()[j], name),
            forall|j: int| p <= j < self.names().len() ==> name_before(name, self.names()[j]),
        ensures
            !self.names().contains(name),
    {
        if self.names().contains(name) {
            let j = self.names().index_of(name);
            assert(self.names()[j] == name);
            lemma_bytes_irreflexive(vstd::utf8::encode_utf8(name));
        }
    }

    /// Enters `value` for `name`: in place of the value that the name had, or,
    /// for a name that the table did not hold, as a new entry at the place
    /// that the order of the names gives it.
    pub fn put(&mut self, name: &str, value: V)
        requires
            old(self).wf(),
        ensures
            final(self).wf(),
            final(self)@ == old(self)@.insert(name@, value),
            old(self).names().contains(name@) ==> {
                &&& final(self).names() == old(self).names()
                &&& final(self).values() == old(self).values().update(
                    old(self).names().index_of(name@),
                    value,
                )
            },
            !old(self).names().contains(name@) ==> exists|p: int|
                {
                    &&& 0 <= p <= old(self).names().len()
                    &&& final(self).names() == #[trigger] old(self).names().insert(p, name@)
                    &&& final(self).values() == old(self).values().insert(p, value)
                },
    {
        let ghost before = *self;
        let (i, present) = self.locate(name);
        if present {
            self.values.set(i, value);
            proof {
                assert(self.names() =~= before.names());
                before.lemma_replaced(*self, i as int, value);
            }
        } else {
            self.names.insert(i, name.to_owned());
            self.values.insert(i, value);
            proof {
                assert(self.names() =~= before.names().insert(i as int, name@));
                before.lemma_inserted(*self, i as int, name@, value);
            }
        }
    }

    /// The map of a table changes at one name when the value at the position
    /// of that name is replaced.
    proof fn lemma_replaced(&self, after: Self, i: int, value: V)
        requires
            self.wf(),
            0 <= i < self.names().len(),
            after.names() == self.names(),
            after.values() == self.values().update(i, value),
        ensures
            after.wf(),
            self.names().index_of(self.names()[i]) == i,
            after@ == self@.insert(self.names()[i], value),
    {
        self.lemma_position(i);
        assert forall|name: Seq<char>| after@.dom().contains(name) implies after@[name]
            == self@.insert(self.names()[i], value)[name] by {
            let k = self.names().index_of(name);
            assert(self.names()[k] == name);
            self.lemma_position(k);
            after.lemma_position(k);
        }
        assert(after@ =~= self@.insert(self.names()[i], value));
    }

    /// The map of a table gains one name when an entry for a name that it
    /// did not hold is put where the order of the names asks for it.
    proof fn lemma_inserted(&self, after: Self, p: int, name: Seq<char>, value: V)
        requires
            self.wf(),
            0 <= p <= self.names().len(),
            forall|j: int| 0 <= j < p ==> name_before(self.names()[j], name),
            forall|j: int| p <= j < self.names().len() ==> name_before(name, self.names()[j]),
            after.names() == self.names().insert(p, name),
            after.values() == self.values().insert(p, value),
        ensures
            after.wf(),
            after@ == self@.insert(name, value),
    {
        assert forall|a: int, b: int| 0 <= a < b < after.names().len() implies name_before(
            #[trigger] after.names()[a],
            #[trigger] after.names()[b],
        ) by {
            let from_a = if a < p { a } else { a - 1 };
            let from_b = if b < p { b } else { b - 1 };
            if a != p && b != p {
                assert(name_before(self.names()[from_a], self.names()[from_b]));
            }
        }
        assert forall|n: Seq<char>| after@.dom().contains(n) implies self@.insert(
            name,
            value,
        ).dom().contains(n) && after@[n] == self@.insert(name, value)[n] by {
            let k = after.names().index_of(n);
            assert(after.names()[k] == n);
            after.lemma_position(k);
            if k != p {
                let from = if k < p { k } else { k - 1 };
                self.lemma_position(from);
            }
        }
        assert forall|n: Seq<char>| self@.insert(name, value).dom().contains(
            n,
        ) implies after@.dom().contains(n) by {
            if n == name {
                assert(after.names()[p] == n);
            } else {
                let k = self.names().index_of(n);
                assert(self.names()[k] == n);
                let to = if k < p { k } else { k + 1 };
                assert(after.names()[to] == n);
            }
        }
        assert(after@ =~= self@.insert(name, value));
    }
}

} // verus!
