//! The airport table: airports keyed by their own identifier.

use crate::id_table::IdTable;
use crate::records::Airport;
use crate::records::AirportView;
use vstd::prelude::*;

verus! {

/// In a run without repetitions, an entry does not stand among those
/// before it.
proof fn lemma_fresh_id(ids: Seq<Seq<char>>, i: int)
    requires
        ids.no_duplicates(),
        0 <= i < ids.len(),
    ensures
        !ids.take(i).to_set().contains(ids[i]),
{
    if ids.take(i).contains(ids[i]) {
        let k = choose|k: int| 0 <= k < i && ids.take(i)[k] == ids[i];
        assert(ids[k] == ids[i]);
    }
}

/// A run of airports as mathematical values, in the same order.
pub open spec fn airport_views(airports: Seq<Airport>) -> Seq<AirportView> {
    Seq::new(airports.len(), |i: int| airports[i]@)
}

/// The airports by identifier; of several with one identifier the last.
pub open spec fn collected(airports: Seq<AirportView>) -> Map<Seq<char>, AirportView>
    decreases airports.len(),
{
    if airports.len() == 0 {
        Map::empty()
    } else {
        collected(airports.drop_last()).insert(airports.last().id, airports.last())
    }
}

/// The airports of a data set, each stored under its own identifier, in the
/// order in which identifiers were first inserted.
pub struct AirportTable {
    table: IdTable<Airport>,
}

impl AirportTable {
    /// Every airport is stored under its own identifier.
    #[verifier::type_invariant]
    pub closed spec fn inv(&self) -> bool {
        &&& self.table.inv()
        &&& forall|i: int|
            0 <= i < self.table.ids().len() ==> (#[trigger] self.table.values()[i]).id@
                == self.table.ids()[i]
    }

    /// The identifiers in insertion order.
    pub closed spec fn ids(&self) -> Seq<Seq<char>> {
        self.table.ids()
    }

    /// The airports, each at the position of its identifier.
    pub closed spec fn rows(&self) -> Seq<AirportView> {
        Seq::new(self.table.ids().len(), |i: int| self.table.values()[i]@)
    }

    /// The table as a map from identifier to airport.
    pub closed spec fn view(&self) -> Map<Seq<char>, AirportView> {
        Map::new(|k: Seq<char>| self.table@.contains_key(k), |k: Seq<char>| self.table@[k]@)
    }

    /// How the positional columns and the map view relate.
    pub proof fn lemma_rows(&self)
        requires
            self.inv(),
        ensures
            self.ids().len() == self.rows().len(),
            self.ids().no_duplicates(),
            self@.dom() =~= self.ids().to_set(),
            self@.dom().finite(),
            self@.dom().len() == self.ids().len(),
            forall|i: int|
                0 <= i < self.ids().len() ==> #[trigger] self@[self.ids()[i]] == self.rows()[i],
            forall|i: int|
                0 <= i < self.ids().len() ==> (#[trigger] self.rows()[i]).id == self.ids()[i],
            forall|k: Seq<char>| self@.contains_key(k) ==> (#[trigger] self@[k]).id == k,
    {
        self.table.lemma_columns();
        assert(self@.dom() =~= self.table@.dom());
        assert forall|k: Seq<char>| self@.contains_key(k) implies (#[trigger] self@[k]).id == k by {
            assert(self.ids().to_set().contains(k));
            let i = choose|i: int| 0 <= i < self.ids().len() && self.ids()[i] == k;
            assert(self.table@[self.table.ids()[i]] == self.table.values()[i]);
        }
    }

    /// An empty table.
    pub fn new() -> (table: Self)
        ensures
            table@ == Map::<Seq<char>, AirportView>::empty(),
            table.ids() == Seq::<Seq<char>>::empty(),
    {
        let inner = IdTable::new();
        proof {
            use_type_invariant(&inner);
        }
        let table = AirportTable { table: inner };
        assert(table@ =~= Map::<Seq<char>, AirportView>::empty());
        table
    }

    /// The table of the airports given; of several with one identifier the
    /// last one stays.
    pub fn from_airports(airports: Vec<Airport>) -> (table: Self)
        ensures
            table@ == collected(airport_views(airports@)),
    {
        let ghost all = airport_views(airports@);
        let mut table = AirportTable::new();
        for airport in iter: airports
            invariant
                all == airport_views(airports@),
                iter.seq() == airports@,
                table@ == collected(all.take(iter.index() as int)),
        {
            proof {
                assert(all.take(iter.index() + 1).drop_last() =~= all.take(iter.index() as int));
            }
            table.insert(airport);
        }
        proof {
            assert(all.take(all.len() as int) =~= all);
        }
        table
    }

    /// The number of airports.
    pub fn len(&self) -> (n: usize)
        ensures
            n == self.ids().len(),
    {
        self.table.len()
    }

    /// The position of the airport named `id`, if the table holds it.
    pub fn position(&self, id: &str) -> (slot: Option<usize>)
        ensures
            match slot {
                Some(i) => self@.contains_key(id@) && i < self.ids().len() && self.ids()[i as int]
                    == id@,
                None => !self@.contains_key(id@),
            },
    {
        self.table.position(id)
    }

    /// The airport named `id`, if the table holds it.
    pub fn get(&self, id: &str) -> (found: Option<&Airport>)
        ensures
            match found {
                Some(a) => self@.contains_key(id@) && a@ == self@[id@],
                None => !self@.contains_key(id@),
            },
    {
        self.table.get(id)
    }

    /// The airport at position `i` of the insertion order.
    pub fn airport_at(&self, i: usize) -> (airport: &Airport)
        requires
            i < self.ids().len(),
        ensures
            airport@ == self.rows()[i as int],
    {
        self.table.value_at(i)
    }

    /// Stores `airport` under its identifier. A new identifier is appended
    /// at the end of the order; a known one keeps its position and has its
    /// airport replaced.
    pub fn insert(&mut self, airport: Airport)
        ensures
            final(self)@ == old(self)@.insert(airport.id@, airport@),
            old(self)@.contains_key(airport.id@) ==> final(self).ids() == old(self).ids(),
            !old(self)@.contains_key(airport.id@) ==> final(self).ids() == old(self).ids().push(
                airport.id@,
            ),
    {
        proof {
            use_type_invariant(&*self);
            self.lemma_rows();
            self.table.lemma_columns();
        }
        let mut taken = AirportTable::new();
        std::mem::swap(self, &mut taken);
        let AirportTable { mut table } = taken;
        let id = airport.id.clone();
        table.insert(id, airport);
        proof {
            use_type_invariant(&table);
            table.lemma_columns();
            if old(self)@.contains_key(airport.id@) {
                old(self).ids().index_of_first_ensures(airport.id@);
            }
        }
        *self = AirportTable { table };
        assert(final(self)@ =~= old(self)@.insert(airport.id@, airport@));
    }

    /// One of the two counters of every airport, under the same identifiers
    /// in the same order: the second-degree counter if `second`, else the
    /// first-degree counter.
    fn counters(&self, second: bool) -> (counters: IdTable<usize>)
        ensures
            counters.ids() == self.ids(),
            counters.values().len() == self.rows().len(),
            forall|i: int|
                0 <= i < self.rows().len() ==> #[trigger] counters.values()[i] == if second {
                    self.rows()[i].degree2
                } else {
                    self.rows()[i].degree
                },
    {
        proof {
            use_type_invariant(self);
            self.lemma_rows();
        }
        let mut counters: IdTable<usize> = IdTable::new();
        let total: usize = self.len();
        let mut i: usize = 0;
        while i < total
            invariant
                i <= total,
                total == self.ids().len(),
                self.ids().len() == self.rows().len(),
                self.ids().no_duplicates(),
                forall|k: int|
                    0 <= k < self.ids().len() ==> (#[trigger] self.rows()[k]).id
                        == self.ids()[k],
                counters.ids() == self.ids().take(i as int),
                counters.values().len() == i,
                forall|k: int|
                    0 <= k < i ==> #[trigger] counters.values()[k] == if second {
                        self.rows()[k].degree2
                    } else {
                        self.rows()[k].degree
                    },
            decreases total - i,
        {
            let airport = self.airport_at(i);
            let counter: usize = if second {
                airport.degree2
            } else {
                airport.degree
            };
            proof {
                use_type_invariant(&counters);
                counters.lemma_columns();
                lemma_fresh_id(self.ids(), i as int);
            }
            counters.insert(airport.id.clone(), counter);
            proof {
                assert(self.ids().take(i as int).push(self.ids()[i as int]) =~= self.ids().take(
                    i + 1,
                ));
            }
            i = i + 1;
        }
        proof {
            assert(self.ids().take(i as int) =~= self.ids());
        }
        counters
    }

    /// The first-degree counter of every airport, under the same
    /// identifiers in the same order.
    pub fn degrees(&self) -> (degrees: IdTable<usize>)
        ensures
            degrees.ids() == self.ids(),
            degrees.values().len() == self.rows().len(),
            forall|i: int|
                0 <= i < self.rows().len() ==> #[trigger] degrees.values()[i]
                    == self.rows()[i].degree,
    {
        self.counters(false)
    }

    /// The second-degree counter of every airport, under the same
    /// identifiers in the same order.
    pub fn second_degrees(&self) -> (degrees: IdTable<usize>)
        ensures
            degrees.ids() == self.ids(),
            degrees.values().len() == self.rows().len(),
            forall|i: int|
                0 <= i < self.rows().len() ==> #[trigger] degrees.values()[i]
                    == self.rows()[i].degree2,
    {
        self.counters(true)
    }

    /// Sets the first-degree counter of the airport at position `i`.
    pub fn set_degree_at(&mut self, i: usize, degree: usize)
        requires
            i < old(self).ids().len(),
        ensures
            final(self).ids() == old(self).ids(),
            final(self)@ == old(self)@.insert(
                old(self).ids()[i as int],
                (AirportView { degree, ..old(self).rows()[i as int] }),
            ),
    {
        proof {
            use_type_invariant(&*self);
            self.lemma_rows();
            self.table.lemma_columns();
        }
        let mut taken = AirportTable::new();
        std::mem::swap(self, &mut taken);
        let AirportTable { mut table } = taken;
        let airport = table.value_at_mut(i);
        airport.degree = degree;
        proof {
            use_type_invariant(&table);
            table.lemma_columns();
        }
        *self = AirportTable { table };
        assert(final(self)@ =~= old(self)@.insert(
            old(self).ids()[i as int],
            (AirportView { degree, ..old(self).rows()[i as int] }),
        ));
    }

    /// Sets the second-degree counter of the airport at position `i`.
    pub fn set_degree2_at(&mut self, i: usize, degree2: usize)
        requires
            i < old(self).ids().len(),
        ensures
            final(self).ids() == old(self).ids(),
            final(self)@ == old(self)@.insert(
                old(self).ids()[i as int],
                (AirportView { degree2, ..old(self).rows()[i as int] }),
            ),
    {
        proof {
            use_type_invariant(&*self);
            self.lemma_rows();
            self.table.lemma_columns();
        }
        let mut taken = AirportTable::new();
        std::mem::swap(self, &mut taken);
        let AirportTable { mut table } = taken;
        let airport = table.value_at_mut(i);
        airport.degree2 = degree2;
        proof {
            use_type_invariant(&table);
            table.lemma_columns();
        }
        *self = AirportTable { table };
        assert(final(self)@ =~= old(self)@.insert(
            old(self).ids()[i as int],
            (AirportView { degree2, ..old(self).rows()[i as int] }),
        ));
    }
}

} // verus!
