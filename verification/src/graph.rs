//! The route graph and hop counts by breadth-first search.

use crate::adjacency::build_directed;
use crate::adjacency::build_mirrored;
use crate::adjacency::directed_adjacency;
use crate::adjacency::has_edge;
use crate::adjacency::mirrored_adjacency;
use crate::adjacency::neighbor_lists;
use crate::adjacency::Neighbors;
use crate::id_table::IdTable;
use crate::records::route_views;
use crate::records::Route;
use vstd::prelude::*;

verus! {

/// Whether `walk` is a non-empty run of identifiers, each after the first
/// a neighbour of the one before it.
pub open spec fn is_walk(lists: Neighbors, walk: Seq<Seq<char>>) -> bool {
    &&& walk.len() > 0
    &&& forall|i: int| 0 <= i < walk.len() - 1 ==> has_edge(lists, #[trigger] walk[i], walk[i + 1])
}

/// Whether `walk` leads from `from` to `to`. It takes `walk.len() - 1` hops.
pub open spec fn walk_between(
    lists: Neighbors,
    walk: Seq<Seq<char>>,
    from: Seq<char>,
    to: Seq<char>,
) -> bool {
    is_walk(lists, walk) && walk.first() == from && walk.last() == to
}

/// Whether some walk leads from `from` to `to`.
pub open spec fn reachable(lists: Neighbors, from: Seq<char>, to: Seq<char>) -> bool {
    exists|walk: Seq<Seq<char>>| walk_between(lists, walk, from, to)
}

/// Whether some walk leads from `from` to `to` in exactly `hops` hops.
pub open spec fn reached_in(lists: Neighbors, from: Seq<char>, to: Seq<char>, hops: int) -> bool {
    exists|walk: Seq<Seq<char>>| #[trigger]
        walk_between(lists, walk, from, to) && walk.len() == hops + 1
}

/// Whether `hops` is the least number of hops in which `to` is reached
/// from `from`.
pub open spec fn fewest_hops(lists: Neighbors, from: Seq<char>, to: Seq<char>, hops: int) -> bool {
    &&& reached_in(lists, from, to, hops)
    &&& forall|walk: Seq<Seq<char>>| #[trigger]
        walk_between(lists, walk, from, to) ==> walk.len() >= hops + 1
}

/// Whether `id` has been discovered with at most `limit` hops.
spec fn covered(ids: Seq<Seq<char>>, hops: Seq<usize>, id: Seq<char>, limit: int) -> bool {
    exists|j: int| 0 <= j < ids.len() && #[trigger] ids[j] == id && hops[j] <= limit
}

/// The state of a search from `source`: `ids` in order of discovery, each
/// with its hop count, the first `done` of them with all their neighbours
/// discovered.
#[verifier::opaque]
spec fn searching(
    lists: Neighbors,
    source: Seq<char>,
    ids: Seq<Seq<char>>,
    hops: Seq<usize>,
    done: int,
) -> bool {
    &&& 0 <= done <= ids.len() == hops.len()
    &&& ids.len() > 0
    &&& ids[0] == source
    &&& hops[0] == 0
    &&& ids.no_duplicates()
    &&& forall|i: int|
        0 <= i < ids.len() ==> reached_in(lists, source, #[trigger] ids[i], hops[i] as int)
    &&& forall|i: int, j: int| 0 <= i <= j < ids.len() ==> #[trigger] hops[i] <= #[trigger] hops[j]
    &&& forall|j: int|
        done < ids.len() && 0 <= j < ids.len() ==> #[trigger] hops[j] <= hops[done] + 1
    &&& forall|i: int, id: Seq<char>|
        0 <= i < done && #[trigger] has_edge(lists, ids[i], id) ==> covered(
            ids,
            hops,
            id,
            hops[i] + 1,
        )
    &&& forall|j: int| 0 <= j < ids.len() ==> #[trigger] hops[j] < ids.len()
}

/// A search starts with the source alone, at no hops.
proof fn lemma_search_start(lists: Neighbors, source: Seq<char>)
    ensures
        searching(lists, source, seq![source], seq![0usize], 0),
{
    reveal(searching);
    let walk = seq![source];
    assert(walk_between(lists, walk, source, source));
}

/// Discovering a new neighbour of the identifier in turn keeps the search
/// state, and what was covered stays covered.
proof fn lemma_search_discover(
    lists: Neighbors,
    source: Seq<char>,
    ids: Seq<Seq<char>>,
    hops: Seq<usize>,
    done: int,
    id: Seq<char>,
)
    requires
        searching(lists, source, ids, hops, done),
        done < ids.len(),
        has_edge(lists, ids[done], id),
        !ids.contains(id),
        hops[done] + 1 <= usize::MAX,
    ensures
        searching(lists, source, ids.push(id), hops.push((hops[done] + 1) as usize), done),
        covered(ids.push(id), hops.push((hops[done] + 1) as usize), id, hops[done] + 1),
        forall|other: Seq<char>, limit: int|
            covered(ids, hops, other, limit) ==> covered(
                ids.push(id),
                hops.push((hops[done] + 1) as usize),
                other,
                limit,
            ),
{
    reveal(searching);
    let more_ids = ids.push(id);
    let more_hops = hops.push((hops[done] + 1) as usize);
    assert forall|other: Seq<char>, limit: int| covered(ids, hops, other, limit) implies covered(
        more_ids,
        more_hops,
        other,
        limit,
    ) by {
        let j = choose|j: int| 0 <= j < ids.len() && #[trigger] ids[j] == other && hops[j] <= limit;
        assert(more_ids[j] == other && more_hops[j] <= limit);
    }
    assert(more_ids[ids.len() as int] == id);
    assert(covered(more_ids, more_hops, id, hops[done] + 1));
    assert(more_ids.no_duplicates()) by {
        assert forall|i: int, j: int|
            0 <= i < more_ids.len() && 0 <= j < more_ids.len() && i != j implies more_ids[i]
            != more_ids[j] by {
            if i < ids.len() {
                assert(ids.contains(ids[i]));
            }
            if j < ids.len() {
                assert(ids.contains(ids[j]));
            }
        }
    }
    assert forall|i: int| 0 <= i < more_ids.len() implies reached_in(
        lists,
        source,
        #[trigger] more_ids[i],
        more_hops[i] as int,
    ) by {
        if i == ids.len() {
            assert(reached_in(lists, source, ids[done], hops[done] as int));
            let walk = choose|walk: Seq<Seq<char>>| #[trigger]
                walk_between(lists, walk, source, ids[done]) && walk.len() == hops[done] + 1;
            let longer = walk.push(id);
            assert forall|k: int| 0 <= k < longer.len() - 1 implies has_edge(
                lists,
                #[trigger] longer[k],
                longer[k + 1],
            ) by {
                if k < walk.len() - 1 {
                    assert(has_edge(lists, walk[k], walk[k + 1]));
                }
            }
            assert(walk_between(lists, longer, source, id));
        } else {
            assert(reached_in(lists, source, ids[i], hops[i] as int));
        }
    }
    assert forall|i: int, other: Seq<char>|
        0 <= i < done && #[trigger] has_edge(lists, more_ids[i], other) implies covered(
        more_ids,
        more_hops,
        other,
        more_hops[i] + 1,
    ) by {
        assert(has_edge(lists, ids[i], other));
    }
    assert forall|i: int, j: int| 0 <= i <= j < more_ids.len() implies #[trigger] more_hops[i]
        <= #[trigger] more_hops[j] by {
        if j < ids.len() {
            assert(hops[i] <= hops[j]);
        } else if i < ids.len() {
            assert(hops[i] <= hops[done] + 1);
        }
    }
    assert forall|j: int| 0 <= j < more_ids.len() implies #[trigger] more_hops[j] <= more_hops[done]
        + 1 by {
        if j < ids.len() {
            assert(hops[j] <= hops[done] + 1);
        }
    }
    assert forall|j: int| 0 <= j < more_ids.len() implies #[trigger] more_hops[j]
        < more_ids.len() by {
        if j < ids.len() {
            assert(hops[j] < ids.len());
        } else {
            assert(hops[done] < ids.len());
        }
    }
}

/// Once every neighbour of the identifier in turn is covered, the search
/// moves on to the next.
proof fn lemma_search_advance(
    lists: Neighbors,
    source: Seq<char>,
    ids: Seq<Seq<char>>,
    hops: Seq<usize>,
    done: int,
)
    requires
        searching(lists, source, ids, hops, done),
        done < ids.len(),
        forall|id: Seq<char>| #[trigger]
            has_edge(lists, ids[done], id) ==> covered(ids, hops, id, hops[done] + 1),
    ensures
        searching(lists, source, ids, hops, done + 1),
{
    reveal(searching);
    assert forall|j: int| done + 1 < ids.len() && 0 <= j < ids.len() implies #[trigger] hops[j]
        <= hops[done + 1] + 1 by {
        assert(hops[j] <= hops[done] + 1);
        assert(hops[done] <= hops[done + 1]);
    }
}

/// In a finished search every identifier that a walk from the source ends
/// at is covered within the hops of that walk.
proof fn lemma_search_complete(
    lists: Neighbors,
    source: Seq<char>,
    ids: Seq<Seq<char>>,
    hops: Seq<usize>,
    walk: Seq<Seq<char>>,
)
    requires
        searching(lists, source, ids, hops, ids.len() as int),
        is_walk(lists, walk),
        walk.first() == source,
    ensures
        covered(ids, hops, walk.last(), walk.len() - 1),
    decreases walk.len(),
{
    reveal(searching);
    if walk.len() == 1 {
        assert(ids[0] == source && hops[0] <= 0);
    } else {
        let shorter = walk.drop_last();
        assert forall|k: int| 0 <= k < shorter.len() - 1 implies has_edge(
            lists,
            #[trigger] shorter[k],
            shorter[k + 1],
        ) by {
            assert(has_edge(lists, walk[k], walk[k + 1]));
        }
        lemma_search_complete(lists, source, ids, hops, shorter);
        let i = choose|i: int|
            0 <= i < ids.len() && #[trigger] ids[i] == shorter.last() && hops[i] <= shorter.len()
                - 1;
        assert(has_edge(lists, walk[walk.len() - 2], walk[walk.len() - 2 + 1]));
        assert(has_edge(lists, ids[i], walk.last()));
        assert(covered(ids, hops, walk.last(), hops[i] + 1));
        let j = choose|j: int|
            0 <= j < ids.len() && #[trigger] ids[j] == walk.last() && hops[j] <= hops[i] + 1;
        assert(ids[j] == walk.last() && hops[j] <= walk.len() - 1);
    }
}

/// While an identifier is in turn, every discovered one is covered within
/// one hop more than it, and its own hop count is below the number of
/// identifiers discovered.
proof fn lemma_search_known(
    lists: Neighbors,
    source: Seq<char>,
    ids: Seq<Seq<char>>,
    hops: Seq<usize>,
    done: int,
    j: int,
)
    requires
        searching(lists, source, ids, hops, done),
        done < ids.len(),
        0 <= j < ids.len(),
    ensures
        0 <= done,
        ids.len() == hops.len(),
        hops[done] < ids.len(),
        covered(ids, hops, ids[j], hops[done] + 1),
{
    reveal(searching);
    assert(hops[j] <= hops[done] + 1);
}

/// What a finished search has found: the source at no hops, exactly the
/// identifiers that can be reached, each with its least number of hops, in
/// ascending order of hops.
proof fn lemma_search_finished(
    lists: Neighbors,
    source: Seq<char>,
    ids: Seq<Seq<char>>,
    hops: Seq<usize>,
)
    requires
        searching(lists, source, ids, hops, ids.len() as int),
    ensures
        ids.len() == hops.len(),
        ids.len() > 0,
        ids[0] == source,
        hops[0] == 0,
        forall|i: int|
            0 <= i < ids.len() ==> fewest_hops(lists, source, #[trigger] ids[i], hops[i] as int),
        forall|id: Seq<char>| #[trigger] reachable(lists, source, id) ==> ids.contains(id),
        forall|i: int, j: int| 0 <= i <= j < ids.len() ==> #[trigger] hops[i] <= #[trigger] hops[j],
{
    reveal(searching);
    assert forall|i: int| 0 <= i < ids.len() implies fewest_hops(
        lists,
        source,
        #[trigger] ids[i],
        hops[i] as int,
    ) by {
        assert(reached_in(lists, source, ids[i], hops[i] as int));
        assert forall|walk: Seq<Seq<char>>| #[trigger]
            walk_between(lists, walk, source, ids[i]) implies walk.len() >= hops[i] + 1 by {
            lemma_search_complete(lists, source, ids, hops, walk);
            let j = choose|j: int|
                0 <= j < ids.len() && #[trigger] ids[j] == ids[i] && hops[j] <= walk.len() - 1;
            assert(i == j);
        }
    }
    assert forall|id: Seq<char>| #[trigger] reachable(lists, source, id) implies ids.contains(
        id,
    ) by {
        let walk = choose|walk: Seq<Seq<char>>| walk_between(lists, walk, source, id);
        lemma_search_complete(lists, source, ids, hops, walk);
        let j = choose|j: int|
            0 <= j < ids.len() && #[trigger] ids[j] == id && hops[j] <= walk.len() - 1;
        assert(ids[j] == id);
    }
}

/// Every identifier that stands in one of the lists.
spec fn listed(lists: Seq<Vec<String>>) -> Set<Seq<char>>
    decreases lists.len(),
{
    if lists.len() == 0 {
        Set::empty()
    } else {
        listed(lists.drop_last()).union(lists.last().deep_view().to_set())
    }
}

/// The listed identifiers are finitely many and include every entry of
/// every list.
proof fn lemma_listed(lists: Seq<Vec<String>>)
    ensures
        listed(lists).finite(),
        forall|i: int, id: Seq<char>|
            0 <= i < lists.len() && (#[trigger] lists[i].deep_view()).contains(id)
                ==> #[trigger] listed(lists).contains(id),
    decreases lists.len(),
{
    if lists.len() > 0 {
        lemma_listed(lists.drop_last());
        vstd::seq_lib::seq_to_set_is_finite(lists.last().deep_view());
        vstd::set_lib::lemma_set_union_finite_iff(
            listed(lists.drop_last()),
            lists.last().deep_view().to_set(),
        );
        assert forall|i: int, id: Seq<char>|
            0 <= i < lists.len() && (#[trigger] lists[i].deep_view()).contains(id)
            implies #[trigger] listed(lists).contains(id) by {
            if i < lists.len() - 1 {
                assert(lists.drop_last()[i] == lists[i]);
            }
        }
    }
}

/// Distinct identifiers drawn from a finite set are no more than the set
/// holds.
proof fn lemma_distinct_within(ids: Seq<Seq<char>>, bound: Set<Seq<char>>)
    requires
        ids.no_duplicates(),
        bound.finite(),
        forall|j: int| 0 <= j < ids.len() ==> bound.contains(#[trigger] ids[j]),
    ensures
        ids.len() <= bound.len(),
{
    ids.unique_seq_to_set();
    vstd::set_lib::lemma_len_subset(ids.to_set(), bound);
}

/// The flight routes as a graph on airport identifiers.
pub struct AirportGraph {
    /// For each identifier that has one, the list of its neighbours.
    pub adjacency_list: IdTable<Vec<String>>,
}

impl AirportGraph {
    /// The neighbour lists as a mathematical value.
    pub open spec fn view(&self) -> Neighbors {
        neighbor_lists(&self.adjacency_list)
    }

    /// The graph of the routes as given: each route adds its destination
    /// to the list of its departure.
    pub fn new(routes: Vec<Route>) -> (graph: Self)
        ensures
            graph@ == directed_adjacency(route_views(routes@)),
    {
        AirportGraph { adjacency_list: build_directed(routes.as_slice()) }
    }

    /// The graph of the routes taken in both directions.
    pub fn new_mirrored(routes: &[Route]) -> (graph: Self)
        ensures
            graph@ == mirrored_adjacency(route_views(routes@)),
    {
        AirportGraph { adjacency_list: build_mirrored(routes) }
    }

    /// The least number of hops from `source_id` to every identifier that
    /// can be reached from it, the source itself included at no hops.
    /// Identifiers that cannot be reached are absent. The table lists the
    /// identifiers in order of discovery.
    pub fn calculate_switches(&self, source_id: &str) -> (distances: IdTable<usize>)
        ensures
            distances@.contains_key(source_id@),
            distances@[source_id@] == 0,
            forall|id: Seq<char>| #[trigger]
                distances@.contains_key(id) <==> reachable(self@, source_id@, id),
            forall|id: Seq<char>| #[trigger]
                distances@.contains_key(id) ==> fewest_hops(
                    self@,
                    source_id@,
                    id,
                    distances@[id] as int,
                ),
            forall|i: int, j: int|
                0 <= i <= j < distances.values().len() ==> #[trigger] distances.values()[i]
                    <= #[trigger] distances.values()[j],
    {
        let ghost lists = self@;
        let ghost source = source_id@;
        let ghost bound = listed(self.adjacency_list.values()).insert(source);
        let mut distances: IdTable<usize> = IdTable::new();
        distances.insert(source_id.to_owned(), 0);
        proof {
            use_type_invariant(&self.adjacency_list);
            self.adjacency_list.lemma_columns();
            lemma_listed(self.adjacency_list.values());
            lemma_search_start(lists, source);
            assert(distances.ids() =~= seq![source]);
            assert(distances.values() =~= seq![0usize]);
        }
        let mut head: usize = 0;
        while head < distances.len()
            invariant
                lists == self@,
                source == source_id@,
                bound == listed(self.adjacency_list.values()).insert(source),
                bound.finite(),
                head <= distances.ids().len(),
                searching(lists, source, distances.ids(), distances.values(), head as int),
                forall|j: int|
                    0 <= j < distances.ids().len() ==> bound.contains(
                        #[trigger] distances.ids()[j],
                    ),
            decreases bound.len() - head,
        {
            proof {
                use_type_invariant(&distances);
                distances.lemma_columns();
            }
            let current: String = distances.id_at(head).clone();
            let hops: usize = *distances.value_at(head);
            match self.adjacency_list.get(current.as_str()) {
                None => {},
                Some(list) => {
                    proof {
                        use_type_invariant(&self.adjacency_list);
                        self.adjacency_list.lemma_columns();
                        lemma_listed(self.adjacency_list.values());
                        let table = &self.adjacency_list;
                        let at = choose|at: int|
                            0 <= at < table.ids().len() && table.ids()[at] == current@;
                        assert(table@[table.ids()[at]] == table.values()[at]);
                        assert(table.values()[at].deep_view() == list.deep_view());
                    }
                    let mut n: usize = 0;
                    while n < list.len()
                        invariant
                            n <= list.len(),
                            lists == self@,
                            source == source_id@,
                            bound.finite(),
                            head < distances.ids().len(),
                            distances.ids()[head as int] == current@,
                            distances.values()[head as int] == hops,
                            lists.contains_key(current@),
                            lists[current@] == list.deep_view(),
                            searching(
                                lists,
                                source,
                                distances.ids(),
                                distances.values(),
                                head as int,
                            ),
                            forall|j: int|
                                0 <= j < distances.ids().len() ==> bound.contains(
                                    #[trigger] distances.ids()[j],
                                ),
                            forall|m: int|
                                0 <= m < list.len() ==> bound.contains(
                                    #[trigger] list.deep_view()[m],
                                ),
                            forall|m: int|
                                0 <= m < n ==> covered(
                                    distances.ids(),
                                    distances.values(),
                                    #[trigger] list.deep_view()[m],
                                    hops + 1,
                                ),
                        decreases list.len() - n,
                    {
                        let neighbor: &String = &list[n];
                        proof {
                            use_type_invariant(&distances);
                            distances.lemma_columns();
                            assert(list.deep_view()[n as int] == neighbor@);
                            assert(has_edge(lists, current@, neighbor@));
                        }
                        match distances.position(neighbor.as_str()) {
                            Some(j) => {
                                proof {
                                    lemma_search_known(
                                        lists,
                                        source,
                                        distances.ids(),
                                        distances.values(),
                                        head as int,
                                        j as int,
                                    );
                                }
                            },
                            None => {
                                proof {
                                    if distances.ids().contains(neighbor@) {
                                        assert(distances.ids().to_set().contains(neighbor@));
                                    }
                                    lemma_search_known(
                                        lists,
                                        source,
                                        distances.ids(),
                                        distances.values(),
                                        head as int,
                                        head as int,
                                    );
                                    lemma_search_discover(
                                        lists,
                                        source,
                                        distances.ids(),
                                        distances.values(),
                                        head as int,
                                        neighbor@,
                                    );
                                }
                                distances.insert(neighbor.clone(), hops + 1);
                            },
                        }
                        n = n + 1;
                    }
                },
            }
            proof {
                use_type_invariant(&distances);
                distances.lemma_columns();
                assert forall|id: Seq<char>| #[trigger]
                    has_edge(lists, distances.ids()[head as int], id) implies covered(
                    distances.ids(),
                    distances.values(),
                    id,
                    distances.values()[head as int] + 1,
                ) by {
                    let list = lists[current@];
                    let m = choose|m: int| 0 <= m < list.len() && list[m] == id;
                    assert(covered(distances.ids(), distances.values(), list[m], hops + 1));
                }
                lemma_search_advance(
                    lists,
                    source,
                    distances.ids(),
                    distances.values(),
                    head as int,
                );
                lemma_distinct_within(distances.ids(), bound);
            }
            head = head + 1;
        }
        proof {
            use_type_invariant(&distances);
            distances.lemma_columns();
            let ids = distances.ids();
            let hops = distances.values();
            lemma_search_finished(lists, source, ids, hops);
            assert(ids.to_set().contains(ids[0]));
            assert(distances@[ids[0]] == hops[0]);
            assert forall|id: Seq<char>| #[trigger]
                distances@.contains_key(id) implies reachable(lists, source, id) && fewest_hops(
                lists,
                source,
                id,
                distances@[id] as int,
            ) by {
                assert(ids.to_set().contains(id));
                let i = choose|i: int| 0 <= i < ids.len() && ids[i] == id;
                assert(distances@[ids[i]] == hops[i]);
                assert(fewest_hops(lists, source, ids[i], hops[i] as int));
                let walk = choose|walk: Seq<Seq<char>>| #[trigger]
                    walk_between(lists, walk, source, id) && walk.len() == hops[i] + 1;
                assert(walk_between(lists, walk, source, id));
            }
            assert forall|id: Seq<char>| reachable(lists, source, id) implies #[trigger]
                distances@.contains_key(id) by {
                assert(ids.to_set().contains(id));
            }
        }
        distances
    }
}

} // verus!
