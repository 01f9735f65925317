//! An insertion-ordered table keyed by string identifiers.

use vstd::hash_map::StringHashMap;
use vstd::prelude::*;

verus! {

/// A table from string identifiers to values that remembers the order in
/// which identifiers were first inserted.
///
/// Lookups go through a hash index; positional access follows insertion
/// order, so walking the table is deterministic.
pub struct IdTable<V> {
    ids: Vec<String>,
    values: Vec<V>,
    slots: StringHashMap<usize>,
}

impl<V> IdTable<V> {
    /// The index agrees with the two columns: every identifier is indexed at
    /// its own position, and every indexed key names a position holding it.
    #[verifier::type_invariant]
    pub closed spec fn inv(&self) -> bool {
        &&& self.ids@.len() == self.values@.len()
        &&& forall|i: int|
            0 <= i < self.ids@.len() ==> self.slots@.contains_key(#[trigger] self.ids@[i]@)
                && self.slots@[self.ids@[i]@] == i
        &&& forall|k: Seq<char>| #[trigger]
            self.slots@.contains_key(k) ==> self.slots@[k] < self.ids@.len()
                && self.ids@[self.slots@[k] as int]@ == k
    }

    /// The identifiers in insertion order.
    pub closed spec fn ids(&self) -> Seq<Seq<char>> {
        Seq::new(self.ids@.len(), |i: int| self.ids@[i]@)
    }

    /// The values, each at the position of its identifier.
    pub closed spec fn values(&self) -> Seq<V> {
        self.values@
    }

    /// The table as a map from identifier to value.
    pub closed spec fn view(&self) -> Map<Seq<char>, V> {
        Map::new(
            |k: Seq<char>| self.slots@.contains_key(k),
            |k: Seq<char>| self.values@[self.slots@[k] as int],
        )
    }

    /// How the positional columns and the map view relate.
    pub proof fn lemma_columns(&self)
        requires
            self.inv(),
        ensures
            self.ids().len() == self.values().len(),
            self.ids().len() <= usize::MAX,
            self.ids().no_duplicates(),
            self@.dom() =~= self.ids().to_set(),
            self@.dom().finite(),
            self@.dom().len() == self.ids().len(),
            forall|i: int|
                0 <= i < self.ids().len() ==> #[trigger] self@[self.ids()[i]] == self.values()[i],
    {
        let ids = self.ids();
        assert(self.ids.len() == self.ids@.len());
        assert forall|i: int, j: int|
            0 <= i < ids.len() && 0 <= j < ids.len() && i != j implies ids[i] != ids[j] by {
            assert(self.slots@[self.ids@[i]@] == i);
            assert(self.slots@[self.ids@[j]@] == j);
        }
        assert forall|k: Seq<char>| self@.dom().contains(k) <==> ids.to_set().contains(k) by {
            if self@.dom().contains(k) {
                assert(ids[self.slots@[k] as int] == k);
            }
            if ids.to_set().contains(k) {
                let i = choose|i: int| 0 <= i < ids.len() && ids[i] == k;
                assert(self.slots@.contains_key(self.ids@[i]@));
            }
        }
        assert(self@.dom() =~= ids.to_set());
        ids.unique_seq_to_set();
        vstd::seq_lib::seq_to_set_is_finite(ids);
    }

    /// An empty table.
    pub fn new() -> (table: Self)
        ensures
            table@ == Map::<Seq<char>, V>::empty(),
            table.ids() == Seq::<Seq<char>>::empty(),
            table.values() == Seq::<V>::empty(),
    {
        let table = IdTable { ids: Vec::new(), values: Vec::new(), slots: StringHashMap::new() };
        assert(table@ =~= Map::<Seq<char>, V>::empty());
        assert(table.ids() =~= Seq::<Seq<char>>::empty());
        table
    }

    /// The number of identifiers in the table.
    pub fn len(&self) -> (n: usize)
        ensures
            n == self.ids().len(),
    {
        self.ids.len()
    }

    /// The position of `id`, if the table holds it.
    pub fn position(&self, id: &str) -> (slot: Option<usize>)
        ensures
            match slot {
                Some(i) => self@.contains_key(id@) && i < self.ids().len() && self.ids()[i as int]
                    == id@,
                None => !self@.contains_key(id@),
            },
    {
        proof {
            use_type_invariant(self);
        }
        match self.slots.get(id) {
            Some(i) => Some(*i),
            None => None,
        }
    }

    /// The value stored under `id`, if any.
    pub fn get(&self, id: &str) -> (found: Option<&V>)
        ensures
            match found {
                Some(v) => self@.contains_key(id@) && *v == self@[id@],
                None => !self@.contains_key(id@),
            },
    {
        proof {
            use_type_invariant(self);
        }
        match self.slots.get(id) {
            Some(i) => Some(&self.values[*i]),
            None => None,
        }
    }

    /// The identifier at position `i` of the insertion order.
    pub fn id_at(&self, i: usize) -> (id: &String)
        requires
            i < self.ids().len(),
        ensures
            id@ == self.ids()[i as int],
    {
        &self.ids[i]
    }

    /// The value at position `i` of the insertion order.
    pub fn value_at(&self, i: usize) -> (value: &V)
        requires
            i < self.ids().len(),
        ensures
            *value == self.values()[i as int],
    {
        proof {
            use_type_invariant(self);
        }
        &self.values[i]
    }

    /// Exclusive access to the value at position `i`.
    pub fn value_at_mut(&mut self, i: usize) -> (value: &mut V)
        requires
            i < old(self).ids().len(),
        ensures
            *value == old(self).values()[i as int],
            final(self).ids() == old(self).ids(),
            final(self).values() == old(self).values().update(i as int, *final(value)),
            final(self)@ == old(self)@.insert(old(self).ids()[i as int], *final(value)),
        no_unwind
    {
        proof {
            use_type_invariant(&*self);
            self.lemma_columns();
        }
        &mut self.values[i]
    }

    /// Stores `value` under `id`. A new identifier is appended at the end of
    /// the order; a known one keeps its position and has its value replaced.
    pub fn insert(&mut self, id: String, value: V)
        ensures
            final(self)@ == old(self)@.insert(id@, value),
            old(self)@.contains_key(id@) ==> final(self).ids() == old(self).ids()
                && final(self).values() == old(self).values().update(
                old(self).ids().index_of(id@),
                value,
            ),
            !old(self)@.contains_key(id@) ==> final(self).ids() == old(self).ids().push(id@)
                && final(self).values() == old(self).values().push(value),
    {
        proof {
            use_type_invariant(&*self);
            self.lemma_columns();
        }
        let mut taken = IdTable::new();
        std::mem::swap(self, &mut taken);
        let IdTable { mut ids, mut values, mut slots } = taken;
        match slots.get(id.as_str()) {
            Some(i) => {
                let i: usize = *i;
                values.set(i, value);
                proof {
                    old(self).ids().index_of_first_ensures(id@);
                }
            },
            None => {
                let i: usize = ids.len();
                slots.insert(id.clone(), i);
                ids.push(id);
                values.push(value);
            },
        }
        *self = IdTable { ids, values, slots };
        assert(final(self)@ =~= old(self)@.insert(id@, value));
        assert(final(self).ids() =~= if old(self)@.contains_key(id@) {
            old(self).ids()
        } else {
            old(self).ids().push(id@)
        });
    }
}

} // verus!
