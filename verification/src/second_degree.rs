//! Second-degree connectivity: the number of airports exactly two hops from
//! each airport.

use crate::adjacency::has_edge;
use crate::adjacency::lemma_mirrored_keys;
use crate::adjacency::mirrored_adjacency;
use crate::adjacency::neighbor_lists;
use crate::adjacency::untouched;
use crate::adjacency::Neighbors;
use crate::airports::AirportTable;
use crate::degrees::incidence;
use crate::degrees::lemma_untouched_incidence;
use crate::degrees::raised;
use crate::id_table::IdTable;
use crate::records::AirportView;
use crate::records::RouteView;
use vstd::prelude::*;

verus! {

/// The airports exactly two hops from `id`: neighbours of its neighbours,
/// other than `id` itself and its own neighbours.
pub open spec fn second_neighbors(lists: Neighbors, id: Seq<char>) -> Set<Seq<char>> {
    Set::new(
        |other: Seq<char>|
            other != id && !has_edge(lists, id, other) && exists|between: Seq<char>|
                has_edge(lists, id, between) && #[trigger] has_edge(lists, between, other),
    )
}

/// The airport with its second-degree counter set to `count`.
pub open spec fn with_second_degree(before: AirportView, count: nat) -> AirportView {
    AirportView { degree2: count as usize, ..before }
}

/// Whether `other` is a neighbour of one of the first `n` of `direct`.
spec fn beyond(lists: Neighbors, direct: Seq<Seq<char>>, n: int, other: Seq<char>) -> bool {
    exists|k: int| 0 <= k < n && #[trigger] has_edge(lists, direct[k], other)
}

/// Whether `other` is one of the first `m` of `onward`.
spec fn among(onward: Seq<Seq<char>>, m: int, other: Seq<char>) -> bool {
    exists|k: int| 0 <= k < m && #[trigger] onward[k] == other
}

/// Everything that stands in the list of one of the first `n` of `direct`.
spec fn onward_of(lists: Neighbors, direct: Seq<Seq<char>>, n: int) -> Set<Seq<char>>
    decreases n,
{
    if n <= 0 {
        Set::empty()
    } else if lists.contains_key(direct[n - 1]) {
        onward_of(lists, direct, n - 1).union(lists[direct[n - 1]].to_set())
    } else {
        onward_of(lists, direct, n - 1)
    }
}

/// The lists of finitely many identifiers hold finitely many identifiers.
proof fn lemma_onward_of(lists: Neighbors, direct: Seq<Seq<char>>, n: int)
    requires
        0 <= n <= direct.len(),
    ensures
        onward_of(lists, direct, n).finite(),
        forall|other: Seq<char>|
            beyond(lists, direct, n, other) ==> #[trigger] onward_of(lists, direct, n).contains(
                other,
            ),
    decreases n,
{
    if n > 0 {
        lemma_onward_of(lists, direct, n - 1);
        if lists.contains_key(direct[n - 1]) {
            vstd::seq_lib::seq_to_set_is_finite(lists[direct[n - 1]]);
            vstd::set_lib::lemma_set_union_finite_iff(
                onward_of(lists, direct, n - 1),
                lists[direct[n - 1]].to_set(),
            );
        }
        assert forall|other: Seq<char>|
            beyond(lists, direct, n, other) implies #[trigger] onward_of(lists, direct, n).contains(
            other,
        ) by {
            let k = choose|k: int| 0 <= k < n && #[trigger] has_edge(lists, direct[k], other);
            if k < n - 1 {
                assert(beyond(lists, direct, n - 1, other));
            }
        }
    }
}

/// An airport has finitely many airports exactly two hops from it, so their
/// number is well defined.
pub proof fn lemma_second_neighbors_finite(lists: Neighbors, id: Seq<char>)
    ensures
        second_neighbors(lists, id).finite(),
{
    let found = second_neighbors(lists, id);
    if lists.contains_key(id) {
        let direct = lists[id];
        let all = onward_of(lists, direct, direct.len() as int);
        lemma_onward_of(lists, direct, direct.len() as int);
        assert forall|other: Seq<char>| found.contains(other) implies all.contains(other) by {
            let between = choose|between: Seq<char>|
                has_edge(lists, id, between) && #[trigger] has_edge(lists, between, other);
            let k = choose|k: int| 0 <= k < direct.len() && direct[k] == between;
            assert(has_edge(lists, direct[k], other));
            assert(beyond(lists, direct, direct.len() as int, other));
        }
        vstd::set_lib::lemma_len_subset(found, all);
    } else {
        assert(found =~= Set::<Seq<char>>::empty());
    }
}

/// An airport that no route starts or ends at keeps its degree, has no
/// neighbour list in the adjacency of the routes taken in both directions,
/// and has no airport two hops from it there.
pub proof fn lemma_isolated_airport(routes: Seq<RouteView>, before: AirportView, id: Seq<char>)
    requires
        untouched(routes, id),
    ensures
        raised(before, incidence(routes, id)) == before,
        !mirrored_adjacency(routes).contains_key(id),
        second_neighbors(mirrored_adjacency(routes), id).len() == 0,
        with_second_degree(
            before,
            second_neighbors(mirrored_adjacency(routes), id).len(),
        ).degree2 == 0,
{
    lemma_untouched_incidence(routes, id);
    if mirrored_adjacency(routes).contains_key(id) {
        lemma_mirrored_keys(routes, id);
    }
    assert(second_neighbors(mirrored_adjacency(routes), id) =~= Set::<Seq<char>>::empty());
}

/// Whether `id` stands in `list`, by a scan from the front.
fn list_holds(list: &Vec<String>, id: &String) -> (found: bool)
    ensures
        found == list.deep_view().contains(id@),
{
    let mut k: usize = 0;
    while k < list.len()
        invariant
            k <= list.len(),
            forall|j: int| 0 <= j < k ==> list.deep_view()[j] != id@,
        decreases list.len() - k,
    {
        if list[k] == *id {
            assert(list.deep_view()[k as int] == id@);
            return true;
        }
        k = k + 1;
    }
    false
}

/// Counting one more of `onward` adds that entry and nothing else.
proof fn lemma_among_next(onward: Seq<Seq<char>>, m: int)
    requires
        0 <= m < onward.len(),
    ensures
        forall|other: Seq<char>| #[trigger]
            among(onward, m + 1, other) <==> among(onward, m, other) || other == onward[m],
{
    assert forall|other: Seq<char>| #[trigger]
        among(onward, m + 1, other) <==> among(onward, m, other) || other == onward[m] by {
        if among(onward, m + 1, other) {
            let k = choose|k: int| 0 <= k < m + 1 && #[trigger] onward[k] == other;
            if k < m {
                assert(among(onward, m, other));
            }
        }
        if among(onward, m, other) {
            let k = choose|k: int| 0 <= k < m && #[trigger] onward[k] == other;
            assert(onward[k] == other);
        }
        if other == onward[m] {
            assert(onward[m] == other);
        }
    }
}

/// Counting one more of `direct` adds what its list holds, if it has one.
proof fn lemma_beyond_next(lists: Neighbors, direct: Seq<Seq<char>>, n: int)
    requires
        0 <= n < direct.len(),
    ensures
        forall|other: Seq<char>| #[trigger]
            beyond(lists, direct, n + 1, other) <==> beyond(lists, direct, n, other) || (
            lists.contains_key(direct[n]) && among(
                lists[direct[n]],
                lists[direct[n]].len() as int,
                other,
            )),
{
    assert forall|other: Seq<char>| #[trigger]
        beyond(lists, direct, n + 1, other) <==> beyond(lists, direct, n, other) || (
        lists.contains_key(direct[n]) && among(
            lists[direct[n]],
            lists[direct[n]].len() as int,
            other,
        )) by {
        if beyond(lists, direct, n + 1, other) {
            let k = choose|k: int| 0 <= k < n + 1 && #[trigger] has_edge(lists, direct[k], other);
            if k < n {
                assert(beyond(lists, direct, n, other));
            } else {
                let onward = lists[direct[n]];
                let at = choose|at: int| 0 <= at < onward.len() && onward[at] == other;
                assert(onward[at] == other);
            }
        }
        if beyond(lists, direct, n, other) {
            let k = choose|k: int| 0 <= k < n && #[trigger] has_edge(lists, direct[k], other);
            assert(has_edge(lists, direct[k], other));
        }
        if lists.contains_key(direct[n]) && among(
            lists[direct[n]],
            lists[direct[n]].len() as int,
            other,
        ) {
            assert(has_edge(lists, direct[n], other));
        }
    }
}

/// With all of the neighbours of `id` counted, what lies beyond them is
/// what `id` reaches in two hops.
proof fn lemma_beyond_all(lists: Neighbors, id: Seq<char>)
    requires
        lists.contains_key(id),
    ensures
        forall|other: Seq<char>| #[trigger]
            beyond(lists, lists[id], lists[id].len() as int, other) <==> exists|between: Seq<char>|
                has_edge(lists, id, between) && #[trigger] has_edge(lists, between, other),
{
    let direct = lists[id];
    assert forall|other: Seq<char>| #[trigger]
        beyond(lists, direct, direct.len() as int, other) <==> exists|between: Seq<char>|
            has_edge(lists, id, between) && #[trigger] has_edge(lists, between, other) by {
        if beyond(lists, direct, direct.len() as int, other) {
            let k = choose|k: int|
                0 <= k < direct.len() && #[trigger] has_edge(lists, direct[k], other);
            assert(has_edge(lists, id, direct[k]));
        }
        if exists|between: Seq<char>|
            has_edge(lists, id, between) && #[trigger] has_edge(lists, between, other) {
            let between = choose|between: Seq<char>|
                has_edge(lists, id, between) && #[trigger] has_edge(lists, between, other);
            let k = choose|k: int| 0 <= k < direct.len() && direct[k] == between;
            assert(has_edge(lists, direct[k], other));
        }
    }
}

/// Counts the airports exactly two hops from `id`.
fn count_second_neighbors(adjacency_list: &IdTable<Vec<String>>, id: &String) -> (count: usize)
    ensures
        second_neighbors(neighbor_lists(adjacency_list), id@).finite(),
        count == second_neighbors(neighbor_lists(adjacency_list), id@).len(),
{
    let ghost lists = neighbor_lists(adjacency_list);
    let mut found: IdTable<()> = IdTable::new();
    match adjacency_list.get(id.as_str()) {
        None => {},
        Some(direct) => {
            let mut n: usize = 0;
            while n < direct.len()
                invariant
                    n <= direct.len(),
                    lists == neighbor_lists(adjacency_list),
                    forall|other: Seq<char>| #[trigger]
                        found@.contains_key(other) <==> other != id@
                            && !direct.deep_view().contains(other) && beyond(
                            lists,
                            direct.deep_view(),
                            n as int,
                            other,
                        ),
                decreases direct.len() - n,
            {
                let ghost between = direct.deep_view()[n as int];
                assert(between == direct[n as int]@);
                match adjacency_list.get(direct[n].as_str()) {
                    None => {},
                    Some(onward) => {
                        let mut m: usize = 0;
                        while m < onward.len()
                            invariant
                                m <= onward.len(),
                                forall|other: Seq<char>| #[trigger]
                                    found@.contains_key(other) <==> other != id@
                                        && !direct.deep_view().contains(other) && (beyond(
                                        lists,
                                        direct.deep_view(),
                                        n as int,
                                        other,
                                    ) || among(onward.deep_view(), m as int, other)),
                            decreases onward.len() - m,
                        {
                            let candidate: &String = &onward[m];
                            if !(*candidate == *id) && !list_holds(direct, candidate) {
                                found.insert(candidate.clone(), ());
                            }
                            proof {
                                assert(onward.deep_view()[m as int] == candidate@);
                                lemma_among_next(onward.deep_view(), m as int);
                            }
                            m = m + 1;
                        }
                        assert(lists[between] == onward.deep_view());
                    },
                }
                proof {
                    lemma_beyond_next(lists, direct.deep_view(), n as int);
                }
                n = n + 1;
            }
            proof {
                lemma_beyond_all(lists, id@);
            }
        },
    }
    proof {
        use_type_invariant(&found);
        found.lemma_columns();
        assert(found@.dom() =~= second_neighbors(lists, id@));
    }
    found.len()
}

/// Sets each airport's second-degree counter to the number of airports
/// exactly two hops from it in the adjacency given. An airport without a
/// neighbour list gets zero.
pub fn calculate_degree2(airports: &mut AirportTable, adjacency_list: &IdTable<Vec<String>>)
    ensures
        final(airports).ids() == old(airports).ids(),
        final(airports)@.dom() == old(airports)@.dom(),
        forall|id: Seq<char>| #[trigger]
            old(airports)@.contains_key(id) ==> final(airports)@[id] == with_second_degree(
                old(airports)@[id],
                second_neighbors(neighbor_lists(adjacency_list), id).len(),
            ),
{
    let ghost lists = neighbor_lists(adjacency_list);
    let ghost before = airports@;
    let ghost ids = airports.ids();
    let total: usize = airports.len();
    proof {
        use_type_invariant(&*airports);
        airports.lemma_rows();
    }
    let mut i: usize = 0;
    while i < total
        invariant
            i <= total,
            total == ids.len(),
            ids == old(airports).ids(),
            ids.no_duplicates(),
            before == old(airports)@,
            before.dom() =~= ids.to_set(),
            lists == neighbor_lists(adjacency_list),
            airports.ids() == ids,
            airports@.dom() =~= before.dom(),
            forall|k: int|
                0 <= k < i ==> airports@[#[trigger] ids[k]] == with_second_degree(
                    before[ids[k]],
                    second_neighbors(lists, ids[k]).len(),
                ),
            forall|k: int| i <= k < total ==> airports@[#[trigger] ids[k]] == before[ids[k]],
        decreases total - i,
    {
        proof {
            use_type_invariant(&*airports);
            airports.lemma_rows();
            assert(airports@[airports.ids()[i as int]] == airports.rows()[i as int]);
        }
        let count: usize = count_second_neighbors(adjacency_list, &airports.airport_at(i).id);
        airports.set_degree2_at(i, count);
        i = i + 1;
    }
    proof {
        assert forall|id: Seq<char>| #[trigger] before.contains_key(id) implies airports@[id]
            == with_second_degree(before[id], second_neighbors(lists, id).len()) by {
            assert(ids.to_set().contains(id));
            let k = choose|k: int| 0 <= k < ids.len() && ids[k] == id;
            assert(airports@[ids[k]] == with_second_degree(
                before[ids[k]],
                second_neighbors(lists, ids[k]).len(),
            ));
        }
    }
}

} // verus!
