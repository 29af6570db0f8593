//! What exploring around a chunk finds: every chunk once, at its shortest distance, and all of them
//! where nothing was cut.

use vstd::prelude::*;
use crate::catalog::{lemma_table_position, CatalogView};
use crate::error::ErrorView;
use crate::float::Floats;
use crate::graph::{chunk_columns, collection_of, text_in};
use crate::graph_edge::{edge_in, linked_rows, row_named};
use crate::graph_found_laws::lemma_names_apart;
use crate::graph_links::{
    coalesced, weighted_at, weighted_order, weighted_sorted, GraphNeighborhoodDirection, Weighted,
};
use crate::graph_neighborhood::{
    all_coalesced, first_of, found_at, found_rows, layered, near_chunks, near_links, neighborhood_of, nodes_found, rows_of,
    spread, Found, NeighborView, NeighborhoodRequestView,
};
use crate::graph_node::node_of;
use crate::graph_store::lemma_collection_kept;
use crate::graph_write::places_of;
use crate::order::{lemma_sorted_each, sorted};
use crate::table::{distinct_keys, TableView};
use crate::value::ValueView;

verus! {

/// The tables that are explored, and how.
pub struct Terrain {
    pub chunks: TableView,
    pub edges: TableView,
    pub request: NeighborhoodRequestView,
}

impl Terrain {
    /// Whether the relationship in a row is followed and names, in a column, the chunk in a row.
    pub open spec fn leads_at(self, position: usize, endpoint: nat, to: usize) -> bool {
        let row = self.edges.rows[position as int];
        &&& edge_in(row) is Ok
        &&& self.request.includes(edge_in(row)->Ok_0)
        &&& text_in(row, endpoint) is Ok
        &&& row_named(self.chunks.rows, text_in(row, endpoint)->Ok_0, 0) == Some(to as nat)
    }

    /// Whether one of the relationships from `from` on leads to a chunk.
    pub open spec fn leads(self, positions: Seq<usize>, endpoint: nat, from: nat, to: usize) -> bool {
        exists|k: int| from <= k < positions.len() && self.leads_at(#[trigger] positions[k], endpoint, to)
    }

    /// Whether a relationship is followed from a chunk to another, by their rows.
    pub open spec fn adjacent(self, from: usize, to: usize) -> bool {
        text_in(self.chunks.rows[from as int], 0) matches Ok(id) && {
            let forth = self.leads(linked_rows(self.edges, 1, id), 2, 0, to);
            let back = self.leads(linked_rows(self.edges, 2, id), 1, 0, to);
            match self.request.direction {
                GraphNeighborhoodDirection::Outgoing => forth,
                GraphNeighborhoodDirection::Incoming => back,
                GraphNeighborhoodDirection::Both => forth || back,
            }
        }
    }

    /// Whether a chunk is so many steps from another.
    pub open spec fn steps(self, root: usize, to: usize, count: nat) -> bool
        decreases count,
    {
        if count == 0 {
            to == root
        } else {
            exists|before: usize|
                self.steps(root, before, (count - 1) as nat) && #[trigger] self.adjacent(before, to)
        }
    }
}

/// Whether a row is in a list.
spec fn holds(list: Seq<Weighted>, row: usize) -> bool {
    exists|i: int| 0 <= i < list.len() && (#[trigger] list[i]).row == row
}

/// Whether no row is in a list twice, and none was seen.
spec fn fresh(list: Seq<Weighted>, seen: Seq<usize>) -> bool {
    &&& forall|i: int, j: int| 0 <= i < j < list.len() ==> (#[trigger] list[i]).row != (#[trigger] list[j]).row
    &&& forall|i: int| 0 <= i < list.len() ==> !seen.contains((#[trigger] list[i]).row)
}

proof fn lemma_weighted_at(list: Seq<Weighted>, row: usize, from: nat)
    ensures
        match weighted_at(list, row, from) {
            Some(at) => from <= at < list.len() && list[at as int].row == row,
            None => forall|i: int| from <= i < list.len() ==> (#[trigger] list[i]).row != row,
        },
    decreases list.len() - from,
{
    if from < list.len() && list[from as int].row != row {
        lemma_weighted_at(list, row, from + 1);
    }
}

proof fn lemma_coalesced(list: Seq<Weighted>, row: usize, weight: u64, seen: Seq<usize>)
    requires
        fresh(list, seen),
        !seen.contains(row),
    ensures
        fresh(coalesced(list, row, weight), seen),
        forall|other: usize| #[trigger] holds(coalesced(list, row, weight), other) <==> holds(list, other) || other == row,
{
    lemma_weighted_at(list, row, 0);
    let after = coalesced(list, row, weight);
    assert forall|i: int| 0 <= i < list.len() implies (#[trigger] after[i]).row == list[i].row by {
    }
    assert forall|other: usize| #[trigger] holds(after, other) <==> holds(list, other) || other == row by {
        if holds(list, other) {
            let i = choose|i: int| 0 <= i < list.len() && (#[trigger] list[i]).row == other;
            assert(after[i].row == other);
        }
        if other == row {
            match weighted_at(list, row, 0) {
                Some(at) => {
                    assert(after[at as int].row == row);
                },
                None => {
                    assert(after[list.len() as int].row == row);
                },
            }
        }
        if holds(after, other) {
            let i = choose|i: int| 0 <= i < after.len() && (#[trigger] after[i]).row == other;
            if i < list.len() {
                assert(list[i].row == other);
            }
        }
    }
}

proof fn lemma_near_links(
    land: Terrain,
    seen: Seq<usize>,
    positions: Seq<usize>,
    endpoint: nat,
    from: nat,
    done: Seq<Weighted>,
)
    requires
        land.chunks.rows.len() <= usize::MAX,
        fresh(done, seen),
    ensures
        near_links(land.chunks, land.edges, land.request, seen, positions, endpoint, from, done) matches Ok(found) ==> fresh(
            found,
            seen,
        ) && forall|to: usize|
            #[trigger] holds(found, to) <==> holds(done, to) || !seen.contains(to) && land.leads(positions, endpoint, from, to),
    decreases positions.len() - from,
{
    let result = near_links(land.chunks, land.edges, land.request, seen, positions, endpoint, from, done);
    if from >= positions.len() {
    } else if let Ok(found) = result {
        let row = land.edges.rows[positions[from as int] as int];
        let edge = edge_in(row)->Ok_0;
        assert forall|to: usize| land.leads(positions, endpoint, from, to) <==> land.leads_at(
            positions[from as int],
            endpoint,
            to,
        ) || #[trigger] land.leads(positions, endpoint, from + 1, to) by {
            if land.leads(positions, endpoint, from, to) {
                let k = choose|k: int| from <= k < positions.len() && land.leads_at(#[trigger] positions[k], endpoint, to);
                assert(land.leads_at(positions[k], endpoint, to));
            }
            if land.leads(positions, endpoint, from + 1, to) {
                let k = choose|k: int| from + 1 <= k < positions.len() && land.leads_at(#[trigger] positions[k], endpoint, to);
                assert(land.leads_at(positions[k], endpoint, to));
            }
        }
        if !land.request.includes(edge) {
            lemma_near_links(land, seen, positions, endpoint, from + 1, done);
        } else {
            let id = text_in(row, endpoint)->Ok_0;
            lemma_row_bound(land.chunks.rows, id, 0);
            let at = row_named(land.chunks.rows, id, 0)->0;
            let next = if seen.contains(at as usize) {
                done
            } else {
                coalesced(done, at as usize, edge.weight)
            };
            if !seen.contains(at as usize) {
                lemma_coalesced(done, at as usize, edge.weight, seen);
            }
            assert forall|to: usize| land.leads_at(positions[from as int], endpoint, to) <==> to == at as usize by {
            }
            lemma_near_links(land, seen, positions, endpoint, from + 1, next);
        }
    }
}

proof fn lemma_row_bound(rows: Seq<Seq<ValueView>>, id: Seq<char>, from: nat)
    ensures
        row_named(rows, id, from) matches Some(at) ==> from <= at < rows.len() && text_in(rows[at as int], 0) == Ok::<
            Seq<char>,
            ErrorView,
        >(id),
    decreases rows.len() - from,
{
    if from < rows.len() && text_in(rows[from as int], 0) != Ok::<Seq<char>, ErrorView>(id) {
        lemma_row_bound(rows, id, from + 1);
    }
}

proof fn lemma_near_chunks(land: Terrain, seen: Seq<usize>, from: usize, id: Seq<char>)
    requires
        land.chunks.rows.len() <= usize::MAX,
        text_in(land.chunks.rows[from as int], 0) == Ok::<Seq<char>, ErrorView>(id),
    ensures
        near_chunks(land.chunks, land.edges, land.request, seen, id) matches Ok(found) ==> fresh(found, seen) && forall|
            to: usize,
        |
            #[trigger] holds(found, to) <==> !seen.contains(to) && land.adjacent(from, to),
{
    let none = Seq::<Weighted>::empty();
    let leaving = linked_rows(land.edges, 1, id);
    let arriving = linked_rows(land.edges, 2, id);
    lemma_near_links(land, seen, leaving, 2, 0, none);
    lemma_near_links(land, seen, arriving, 1, 0, none);
    if let Ok(done) = near_links(land.chunks, land.edges, land.request, seen, leaving, 2, 0, none) {
        lemma_near_links(land, seen, arriving, 1, 0, done);
    }
}

/// A list in another order, or its beginning.
proof fn lemma_arranged(rows: Seq<Seq<ValueView>>, list: Seq<Weighted>, floats: Floats, limit: nat, seen: Seq<usize>)
    requires
        list.len() <= usize::MAX,
        fresh(list, seen),
    ensures
        ({
            let taken = first_of(weighted_sorted(rows, list, floats), limit);
            &&& fresh(taken, seen)
            &&& taken.len() == (if limit < list.len() {
                limit
            } else {
                list.len()
            })
            &&& forall|row: usize| #[trigger] holds(taken, row) ==> holds(list, row)
            &&& list.len() <= limit ==> forall|row: usize| #[trigger] holds(taken, row) <==> holds(list, row)
        }),
{
    let before = weighted_order(rows, list, floats);
    let order = sorted(list.len() as usize, before);
    lemma_sorted_each(list.len() as usize, before);
    let all = weighted_sorted(rows, list, floats);
    let taken = first_of(all, limit);
    assert forall|i: int| 0 <= i < taken.len() implies #[trigger] taken[i] == list[order[i] as int] by {
        assert(taken[i] == all[i]);
    }
    assert forall|i: int, j: int| 0 <= i < j < taken.len() implies (#[trigger] taken[i]).row != (#[trigger] taken[j]).row by {
        let a = order[i] as int;
        let b = order[j] as int;
        assert(a != b);
        if a < b {
            assert(list[a].row != list[b].row);
        } else {
            assert(list[b].row != list[a].row);
        }
    }
    assert forall|row: usize| #[trigger] holds(taken, row) implies holds(list, row) by {
        let i = choose|i: int| 0 <= i < taken.len() && (#[trigger] taken[i]).row == row;
        assert(list[order[i] as int].row == row);
    }
    if list.len() <= limit {
        assert forall|row: usize| holds(list, row) implies #[trigger] holds(taken, row) by {
            let k = choose|k: int| 0 <= k < list.len() && (#[trigger] list[k]).row == row;
            assert(order.contains(k as usize));
            let i = choose|i: int| 0 <= i < order.len() && order[i] == k as usize;
            assert(taken[i].row == row);
        }
    }
}

proof fn lemma_all_coalesced(list: Seq<Weighted>, more: Seq<Weighted>, from: nat, seen: Seq<usize>)
    requires
        fresh(list, seen),
        forall|i: int| 0 <= i < more.len() ==> !seen.contains((#[trigger] more[i]).row),
    ensures
        fresh(all_coalesced(list, more, from), seen),
        forall|row: usize|
            #[trigger] holds(all_coalesced(list, more, from), row) <==> holds(list, row) || exists|i: int|
                from <= i < more.len() && (#[trigger] more[i]).row == row,
    decreases more.len() - from,
{
    if from < more.len() {
        let item = more[from as int];
        lemma_coalesced(list, item.row, item.weight, seen);
        let next = coalesced(list, item.row, item.weight);
        lemma_all_coalesced(next, more, from + 1, seen);
        assert forall|row: usize|
            #[trigger] holds(all_coalesced(list, more, from), row) <==> holds(list, row) || exists|i: int|
                from <= i < more.len() && (#[trigger] more[i]).row == row by {
            assert(holds(all_coalesced(next, more, from + 1), row) <==> holds(next, row) || exists|i: int|
                from + 1 <= i < more.len() && (#[trigger] more[i]).row == row);
            assert(holds(next, row) <==> holds(list, row) || row == item.row);
            if row == item.row {
                assert(more[from as int].row == row);
            }
            if exists|i: int| from <= i < more.len() && (#[trigger] more[i]).row == row {
                let i = choose|i: int| from <= i < more.len() && (#[trigger] more[i]).row == row;
                if i > from {
                    assert(more[i].row == row);
                }
            }
        }
    }
}

/// A list of different rows below `count` is no longer than that.
proof fn lemma_short(list: Seq<Weighted>, seen: Seq<usize>, count: nat)
    requires
        fresh(list, seen),
        forall|i: int| 0 <= i < list.len() ==> (#[trigger] list[i]).row < count,
    ensures
        list.len() <= count,
{
    let numbers = list.map_values(|item: Weighted| item.row as int);
    assert(numbers.no_duplicates()) by {
        assert forall|i: int, j: int|
            0 <= i < numbers.len() && 0 <= j < numbers.len() && i != j implies numbers[i] != numbers[j] by {
            if i < j {
                assert(list[i].row != list[j].row);
            } else {
                assert(list[j].row != list[i].row);
            }
        }
    }
    numbers.unique_seq_to_set();
    let all = vstd::set_lib::set_int_range(0, count as int);
    vstd::set_lib::lemma_int_range(0, count as int);
    assert(numbers.to_set().subset_of(all)) by {
        assert forall|value: int| numbers.to_set().contains(value) implies all.contains(value) by {
            let i = choose|i: int| 0 <= i < numbers.len() && numbers[i] == value;
            assert(numbers[i] == list[i].row);
        }
    }
    vstd::set_lib::lemma_len_subset(numbers.to_set(), all);
}

/// A chunk that a relationship leads to is there.
proof fn lemma_adjacent_bound(land: Terrain, from: usize, to: usize)
    requires
        land.adjacent(from, to),
    ensures
        to < land.chunks.rows.len(),
{
    let id = text_in(land.chunks.rows[from as int], 0)->Ok_0;
    let leaving = linked_rows(land.edges, 1, id);
    let arriving = linked_rows(land.edges, 2, id);
    if land.leads(leaving, 2, 0, to) {
        let k = choose|k: int| 0 <= k < leaving.len() && land.leads_at(#[trigger] leaving[k], 2, to);
        lemma_row_bound(land.chunks.rows, text_in(land.edges.rows[leaving[k] as int], 2)->Ok_0, 0);
    } else {
        let k = choose|k: int| 0 <= k < arriving.len() && land.leads_at(#[trigger] arriving[k], 1, to);
        lemma_row_bound(land.chunks.rows, text_in(land.edges.rows[arriving[k] as int], 1)->Ok_0, 0);
    }
}

/// Whether a chunk is around one of the frontier from `from` on.
spec fn around(land: Terrain, frontier: Seq<usize>, from: nat, to: usize) -> bool {
    exists|k: int| from <= k < frontier.len() && land.adjacent(#[trigger] frontier[k], to)
}

proof fn lemma_around(land: Terrain, frontier: Seq<usize>, from: nat, to: usize)
    requires
        from < frontier.len(),
    ensures
        around(land, frontier, from, to) <==> land.adjacent(frontier[from as int], to) || around(
            land,
            frontier,
            from + 1,
            to,
        ),
{
    if around(land, frontier, from, to) {
        let k = choose|k: int| from <= k < frontier.len() && land.adjacent(#[trigger] frontier[k], to);
        assert(land.adjacent(frontier[k], to));
    }
    if around(land, frontier, from + 1, to) {
        let k = choose|k: int| from + 1 <= k < frontier.len() && land.adjacent(#[trigger] frontier[k], to);
        assert(land.adjacent(frontier[k], to));
    }
}

#[verifier::rlimit(30)]
proof fn lemma_spread(
    land: Terrain,
    floats: Floats,
    seen: Seq<usize>,
    frontier: Seq<usize>,
    from: nat,
    next: Seq<Weighted>,
    truncated: bool,
)
    requires
        land.chunks.rows.len() <= usize::MAX,
        fresh(next, seen),
    ensures
        spread(land.chunks, land.edges, land.request, floats, seen, frontier, from, next, truncated) matches Ok(
            (after, more),
        ) ==> {
            &&& fresh(after, seen)
            &&& forall|to: usize| #[trigger] holds(after, to) ==> holds(next, to) || around(land, frontier, from, to)
            &&& !more ==> !truncated
            &&& !more ==> forall|to: usize|
                !seen.contains(to) && around(land, frontier, from, to) || holds(next, to) ==> #[trigger] holds(after, to)
        },
    decreases frontier.len() - from,
{
    let result = spread(land.chunks, land.edges, land.request, floats, seen, frontier, from, next, truncated);
    if from < frontier.len() {
        if let Ok((after, more)) = result {
            let start = frontier[from as int];
            let id = text_in(land.chunks.rows[start as int], 0)->Ok_0;
            let found = near_chunks(land.chunks, land.edges, land.request, seen, id)->Ok_0;
            lemma_near_chunks(land, seen, start, id);
            assert forall|i: int| 0 <= i < found.len() implies (#[trigger] found[i]).row < land.chunks.rows.len() by {
                assert(holds(found, found[i].row));
                lemma_adjacent_bound(land, start, found[i].row);
            }
            lemma_short(found, seen, land.chunks.rows.len());
            let limit = land.request.neighbor_limit;
            lemma_arranged(land.chunks.rows, found, floats, limit, seen);
            let taken = first_of(weighted_sorted(land.chunks.rows, found, floats), limit);
            lemma_all_coalesced(next, taken, 0, seen);
            let joined = all_coalesced(next, taken, 0);
            assert forall|to: usize| #[trigger] holds(joined, to) <==> holds(next, to) || holds(taken, to) by {
                assert(holds(joined, to) <==> holds(next, to) || exists|i: int|
                    0 <= i < taken.len() && (#[trigger] taken[i]).row == to);
            }
            lemma_spread(land, floats, seen, frontier, from + 1, joined, truncated || found.len() > limit);
            assert forall|to: usize| #[trigger] holds(after, to) implies holds(next, to) || around(land, frontier, from, to) by {
                lemma_around(land, frontier, from, to);
                if holds(joined, to) && !holds(next, to) {
                    assert(holds(taken, to));
                    assert(holds(found, to));
                }
            }
            if !more {
                assert forall|to: usize|
                    !seen.contains(to) && around(land, frontier, from, to) || holds(next, to) implies #[trigger] holds(
                    after,
                    to,
                ) by {
                    lemma_around(land, frontier, from, to);
                    if !seen.contains(to) && land.adjacent(start, to) {
                        assert(holds(found, to));
                        assert(holds(taken, to));
                    }
                    if holds(next, to) {
                        assert(holds(joined, to));
                    }
                }
            }
        }
    }
}

/// Whether chunks were found once each, each as many steps from the root as is said.
spec fn found_true(land: Terrain, root: usize, found: Seq<Found>, depth: nat) -> bool {
    &&& forall|i: int, j: int| 0 <= i < j < found.len() ==> (#[trigger] found[i]).row != (#[trigger] found[j]).row
    &&& forall|i: int|
        0 <= i < found.len() ==> found[i].depth <= depth && land.steps(root, (#[trigger] found[i]).row, found[i].depth as nat)
}

/// Whether a chunk was found at most so many steps away.
spec fn found_by(found: Seq<Found>, row: usize, depth: nat) -> bool {
    exists|j: int| 0 <= j < found.len() && (#[trigger] found[j]).row == row && found[j].depth <= depth
}

/// Whether what is around each chunk that is fewer than `depth` steps away was found a step further at
/// most.
spec fn closed_below(land: Terrain, found: Seq<Found>, depth: nat) -> bool {
    forall|i: int, to: usize|
        0 <= i < found.len() && found[i].depth < depth && #[trigger] land.adjacent(found[i].row, to) ==> found_by(
            found,
            to,
            found[i].depth as nat + 1,
        )
}

/// Whether the frontier is made of the chunks found so many steps away.
spec fn at_frontier(found: Seq<Found>, frontier: Seq<usize>, depth: nat) -> bool {
    &&& forall|i: int| 0 <= i < found.len() && (#[trigger] found[i]).depth == depth ==> frontier.contains(found[i].row)
    &&& forall|k: int| 0 <= k < frontier.len() ==> found_as(found, #[trigger] frontier[k], depth)
}

/// Whether a chunk was found so many steps away.
spec fn found_as(found: Seq<Found>, row: usize, depth: nat) -> bool {
    exists|i: int| 0 <= i < found.len() && (#[trigger] found[i]).row == row && found[i].depth == depth
}

/// Where what is around the frontier was seen, all is found.
proof fn lemma_nothing_left(land: Terrain, root: usize, found: Seq<Found>, frontier: Seq<usize>, depth: nat)
    requires
        found_true(land, root, found, depth),
        closed_below(land, found, depth),
        at_frontier(found, frontier, depth),
        forall|to: usize| #[trigger] around(land, frontier, 0, to) ==> found_rows(found).contains(to),
    ensures
        closed_below(land, found, depth + 1),
{
    assert forall|i: int, to: usize|
        0 <= i < found.len() && found[i].depth < depth + 1 && #[trigger] land.adjacent(found[i].row, to) implies found_by(
        found,
        to,
        found[i].depth as nat + 1,
    ) by {
        if found[i].depth == depth {
            assert(frontier.contains(found[i].row));
            let k = choose|k: int| 0 <= k < frontier.len() && frontier[k] == found[i].row;
            assert(land.adjacent(frontier[k], to));
            assert(around(land, frontier, 0, to));
            let rows = found_rows(found);
            let j = choose|j: int| 0 <= j < rows.len() && rows[j] == to;
            assert(found[j].row == to);
            assert(found[j].depth <= depth);
        }
    }
}

#[verifier::rlimit(40)]
proof fn lemma_layers(
    land: Terrain,
    floats: Floats,
    root: usize,
    depth: nat,
    frontier: Seq<usize>,
    found: Seq<Found>,
    truncated: bool,
)
    requires
        land.chunks.rows.len() <= usize::MAX,
        land.request.max_hops <= 3,
        depth <= land.request.max_hops,
        found.len() <= land.request.max_nodes,
        found_true(land, root, found, depth),
        at_frontier(found, frontier, depth),
        !truncated ==> closed_below(land, found, depth),
    ensures
        layered(land.chunks, land.edges, land.request, floats, depth, frontier, found, truncated) matches Ok((after, cut)) ==> {
            &&& found_true(land, root, after, land.request.max_hops)
            &&& found.len() <= after.len()
            &&& forall|i: int| 0 <= i < found.len() ==> after[i] == #[trigger] found[i]
            &&& !cut ==> closed_below(land, after, land.request.max_hops + 1)
        },
    decreases land.request.max_hops - depth,
{
    let seen = found_rows(found);
    let none = Seq::<Weighted>::empty();
    lemma_spread(land, floats, seen, frontier, 0, none, truncated);
    if let Ok((next, more)) = spread(land.chunks, land.edges, land.request, floats, seen, frontier, 0, none, truncated) {
        assert forall|i: int| 0 <= i < next.len() implies (#[trigger] next[i]).row < land.chunks.rows.len() && around(
            land,
            frontier,
            0,
            next[i].row,
        ) by {
            assert(holds(next, next[i].row));
            assert(around(land, frontier, 0, next[i].row));
            let k = choose|k: int| 0 <= k < frontier.len() && land.adjacent(#[trigger] frontier[k], next[i].row);
            lemma_adjacent_bound(land, frontier[k], next[i].row);
        }
        lemma_short(next, seen, land.chunks.rows.len());
        let capacity = (land.request.max_nodes - found.len()) as nat;
        lemma_arranged(land.chunks.rows, next, floats, capacity, seen);
        let taken = first_of(weighted_sorted(land.chunks.rows, next, floats), capacity);
        let rows = rows_of(taken);
        if !more && next.len() == 0 {
            assert forall|to: usize| #[trigger] around(land, frontier, 0, to) implies seen.contains(to) by {
                if !seen.contains(to) {
                    assert(holds(next, to));
                }
            }
            lemma_nothing_left(land, root, found, frontier, depth);
            lemma_closed_further(land, root, found, depth);
        }
        if depth < land.request.max_hops && rows.len() > 0 {
            let after = found_at(found, rows, depth + 1);
            lemma_layer(land, root, depth, frontier, found, next, taken);
            if !(more || next.len() > capacity) {
                assert forall|to: usize| #[trigger] around(land, frontier, 0, to) implies found_rows(after).contains(to) by {
                    if seen.contains(to) {
                        let j = choose|j: int| 0 <= j < seen.len() && seen[j] == to;
                        assert(found_rows(after)[j] == to);
                    } else {
                        assert(holds(next, to));
                        assert(holds(taken, to));
                        let j = choose|j: int| 0 <= j < taken.len() && (#[trigger] taken[j]).row == to;
                        assert(found_rows(after)[found.len() + j] == to);
                    }
                }
                lemma_layer_closed(land, root, depth, frontier, found, rows);
            }
            lemma_layers(land, floats, root, depth + 1, rows, after, more || next.len() > capacity);
            if let Ok((last, _)) = layered(
                land.chunks,
                land.edges,
                land.request,
                floats,
                depth + 1,
                rows,
                after,
                more || next.len() > capacity,
            ) {
                assert forall|i: int| 0 <= i < found.len() implies last[i] == #[trigger] found[i] by {
                    assert(last[i] == after[i]);
                }
            }
        }
    }
}

/// What is closed as far as anything was found is closed.
proof fn lemma_closed_further(land: Terrain, root: usize, found: Seq<Found>, depth: nat)
    requires
        depth <= land.request.max_hops,
        found_true(land, root, found, depth),
        closed_below(land, found, depth + 1),
    ensures
        closed_below(land, found, land.request.max_hops + 1),
        found_true(land, root, found, land.request.max_hops),
{
}

/// One more layer is true of the root, and is the next frontier.
proof fn lemma_layer(
    land: Terrain,
    root: usize,
    depth: nat,
    frontier: Seq<usize>,
    found: Seq<Found>,
    next: Seq<Weighted>,
    taken: Seq<Weighted>,
)
    requires
        depth < 3,
        found_true(land, root, found, depth),
        at_frontier(found, frontier, depth),
        fresh(taken, found_rows(found)),
        forall|row: usize| #[trigger] holds(taken, row) ==> holds(next, row),
        forall|to: usize| #[trigger] holds(next, to) ==> around(land, frontier, 0, to),
    ensures
        found_true(land, root, found_at(found, rows_of(taken), depth + 1), depth + 1),
        at_frontier(found_at(found, rows_of(taken), depth + 1), rows_of(taken), depth + 1),
{
    let rows = rows_of(taken);
    let after = found_at(found, rows, depth + 1);
    assert forall|i: int| found.len() <= i < after.len() implies #[trigger] after[i] == (Found {
        row: taken[i - found.len()].row,
        depth: (depth + 1) as usize,
    }) by {
    }
    assert forall|i: int, j: int| 0 <= i < j < after.len() implies (#[trigger] after[i]).row != (#[trigger] after[j]).row by {
        if j < found.len() {
            assert(found[i].row != found[j].row);
        } else if i < found.len() {
            assert(found_rows(found)[i] == found[i].row);
            assert(found_rows(found).contains(found[i].row));
            assert(!found_rows(found).contains(taken[j - found.len()].row));
        } else {
            assert(taken[i - found.len()].row != taken[j - found.len()].row);
        }
    }
    assert forall|i: int| 0 <= i < after.len() implies after[i].depth <= depth + 1 && land.steps(
        root,
        (#[trigger] after[i]).row,
        after[i].depth as nat,
    ) by {
        if i < found.len() {
            assert(after[i] == found[i]);
        } else {
            let to = taken[i - found.len()].row;
            assert(holds(taken, to));
            assert(holds(next, to));
            assert(around(land, frontier, 0, to));
            let k = choose|k: int| 0 <= k < frontier.len() && land.adjacent(#[trigger] frontier[k], to);
            assert(found_as(found, frontier[k], depth));
            let m = choose|m: int|
                0 <= m < found.len() && (#[trigger] found[m]).row == frontier[k] && found[m].depth == depth;
            assert(land.steps(root, found[m].row, depth));
            assert(land.adjacent(found[m].row, to));
            assert(land.steps(root, to, depth + 1));
        }
    }
    assert forall|i: int| 0 <= i < after.len() && (#[trigger] after[i]).depth == depth + 1 implies rows.contains(
        after[i].row,
    ) by {
        if i < found.len() {
            assert(found[i].depth <= depth);
        } else {
            assert(rows[i - found.len()] == after[i].row);
        }
    }
    assert forall|k: int| 0 <= k < rows.len() implies found_as(after, #[trigger] rows[k], depth + 1) by {
        assert(after[found.len() + k].row == rows[k]);
    }
}

/// With all that is around the frontier, one more layer is closed.
proof fn lemma_layer_closed(
    land: Terrain,
    root: usize,
    depth: nat,
    frontier: Seq<usize>,
    found: Seq<Found>,
    rows: Seq<usize>,
)
    requires
        depth < 3,
        found_true(land, root, found, depth),
        at_frontier(found, frontier, depth),
        closed_below(land, found, depth),
        forall|to: usize|
            #[trigger] around(land, frontier, 0, to) ==> found_rows(found_at(found, rows, depth + 1)).contains(to),
    ensures
        closed_below(land, found_at(found, rows, depth + 1), depth + 1),
{
    let after = found_at(found, rows, depth + 1);
    assert forall|i: int, to: usize|
        0 <= i < after.len() && after[i].depth < depth + 1 && #[trigger] land.adjacent(after[i].row, to) implies found_by(
        after,
        to,
        after[i].depth as nat + 1,
    ) by {
        assert(i < found.len());
        assert(after[i] == found[i]);
        if found[i].depth < depth {
            assert(land.adjacent(found[i].row, to));
            assert(found_by(found, to, found[i].depth as nat + 1));
            let j = choose|j: int|
                0 <= j < found.len() && (#[trigger] found[j]).row == to && found[j].depth <= found[i].depth as nat + 1;
            assert(after[j] == found[j]);
        } else {
            assert(frontier.contains(found[i].row));
            let k = choose|k: int| 0 <= k < frontier.len() && frontier[k] == found[i].row;
            assert(land.adjacent(frontier[k], to));
            assert(around(land, frontier, 0, to));
            let all = found_rows(after);
            let j = choose|j: int| 0 <= j < all.len() && all[j] == to;
            assert(after[j].row == to);
            if j < found.len() {
                assert(after[j] == found[j]);
            }
        }
    }
}

proof fn lemma_reached(land: Terrain, root: usize, found: Seq<Found>, to: usize, count: nat)
    requires
        found.len() > 0,
        found[0] == (Found { row: root, depth: 0 }),
        found_true(land, root, found, land.request.max_hops),
        closed_below(land, found, land.request.max_hops + 1),
        land.steps(root, to, count),
    ensures
        found_by(found, to, count),
    decreases count,
{
    if count == 0 {
        assert(found[0].row == to);
    } else {
        let before = choose|before: usize|
            land.steps(root, before, (count - 1) as nat) && #[trigger] land.adjacent(before, to);
        lemma_reached(land, root, found, before, (count - 1) as nat);
        let i = choose|i: int|
            0 <= i < found.len() && (#[trigger] found[i]).row == before && found[i].depth <= (count - 1) as nat;
        assert(land.adjacent(found[i].row, to));
        assert(found_by(found, to, found[i].depth as nat + 1));
        let j = choose|j: int|
            0 <= j < found.len() && (#[trigger] found[j]).row == to && found[j].depth <= found[i].depth as nat + 1;
        assert(found[j].row == to && found[j].depth <= count);
    }
}

/// Whether nodes are those of the chunks found.
spec fn nodes_of(nodes: Seq<NeighborView>, chunks: TableView, found: Seq<Found>) -> bool {
    &&& nodes.len() <= found.len()
    &&& forall|i: int|
        0 <= i < nodes.len() ==> (#[trigger] nodes[i]).depth == found[i].depth && text_in(
            chunks.rows[found[i].row as int],
            0,
        ) == Ok::<Seq<char>, ErrorView>(nodes[i].node.chunk_id)
}

proof fn lemma_nodes(chunks: TableView, documents: TableView, found: Seq<Found>, from: nat, done: Seq<NeighborView>)
    requires
        from <= found.len(),
        done.len() == from,
        nodes_of(done, chunks, found),
    ensures
        nodes_found(chunks, documents, found, from, done) matches Ok(nodes) ==> nodes.len() == found.len() && nodes_of(
            nodes,
            chunks,
            found,
        ),
    decreases found.len() - from,
{
    if from < found.len() {
        if let Ok(node) = node_of(chunks.rows[found[from as int].row as int], documents, true) {
            lemma_nodes(
                chunks,
                documents,
                found,
                from + 1,
                done.push(NeighborView { node, depth: found[from as int].depth as nat }),
            );
        }
    }
}

/// What is explored of a catalog.
pub open spec fn terrain_of(catalog: CatalogView, request: NeighborhoodRequestView) -> Terrain {
    let places = places_of(catalog, collection_of(catalog, request.collection)->Ok_0);
    Terrain {
        chunks: catalog.tables[places.chunks as int].table,
        edges: catalog.tables[places.edges as int].table,
        request,
    }
}

/// Whether a node is that of the chunk in a row.
pub open spec fn is_node_of(land: Terrain, node: NeighborView, row: usize) -> bool {
    row < land.chunks.rows.len() && text_in(land.chunks.rows[row as int], 0) == Ok::<Seq<char>, ErrorView>(
        node.node.chunk_id,
    )
}

/// Whether a node is of a chunk that is as many steps from the root as the node says.
pub open spec fn away(land: Terrain, root: usize, node: NeighborView) -> bool {
    exists|row: usize| #[trigger] is_node_of(land, node, row) && land.steps(root, row, node.depth)
}

/// Whether the chunk in a row is among nodes, at most so many steps away.
pub open spec fn explored_within(land: Terrain, nodes: Seq<NeighborView>, row: usize, count: nat) -> bool {
    exists|i: int| 0 <= i < nodes.len() && is_node_of(land, #[trigger] nodes[i], row) && nodes[i].depth <= count
}

/// Exploring finds every chunk once, as many steps from the root as it says. Where nothing was cut,
/// it finds every chunk that can be reached at all, and at its shortest distance.
pub proof fn law_neighborhood_is_complete(catalog: CatalogView, request: NeighborhoodRequestView, floats: Floats)
    requires
        catalog.valid(),
        catalog.tables.len() <= usize::MAX,
    ensures
        neighborhood_of(catalog, request, floats) matches Ok(found) ==> {
            let land = terrain_of(catalog, request);
            let root = row_named(land.chunks.rows, request.chunk_id, 0)->0 as usize;
            &&& forall|i: int, j: int|
                0 <= i < j < found.nodes.len() ==> (#[trigger] found.nodes[i]).node.chunk_id != (
                #[trigger] found.nodes[j]).node.chunk_id
            &&& forall|i: int| 0 <= i < found.nodes.len() ==> away(land, root, #[trigger] found.nodes[i])
            &&& !found.truncated ==> forall|row: usize, count: nat|
                #[trigger] land.steps(root, row, count) ==> explored_within(land, found.nodes, row, count)
        },
{
    if let Ok(result) = neighborhood_of(catalog, request, floats) {
        let info = collection_of(catalog, request.collection)->Ok_0;
        let places = places_of(catalog, info);
        let documents = catalog.tables[places.documents as int].table;
        let land = terrain_of(catalog, request);
        let chunks = land.chunks;
        lemma_collection_kept(catalog, request.collection);
        lemma_table_position(catalog.tables, info.tables.documents, 0);
        lemma_table_position(catalog.tables, info.tables.chunks, 0);
        lemma_table_position(catalog.tables, info.tables.edges, 0);
        assert(chunks.valid());
        assert(chunks.columns == chunk_columns(info.config.profile.dimensions as usize));
        assert(chunks.columns[0].unique);
        assert(distinct_keys(chunks.rows, 0));
        lemma_row_bound(chunks.rows, request.chunk_id, 0);
        let root = row_named(chunks.rows, request.chunk_id, 0)->0 as usize;
        let start = seq![Found { row: root, depth: 0 }];
        assert(start[0].row == root);
        assert(land.steps(root, root, 0));
        assert(found_true(land, root, start, 0));
        assert(seq![root][0] == root);
        assert(at_frontier(start, seq![root], 0));
        lemma_layers(land, floats, root, 0, seq![root], start, false);
        let (found, cut) = layered(chunks, land.edges, request, floats, 0, seq![root], start, false)->Ok_0;
        assert(found[0] == start[0]);
        lemma_nodes(chunks, documents, found, 0, Seq::empty());
        assert forall|i: int| 0 <= i < found.len() implies (#[trigger] found[i]).row < chunks.rows.len() by {
            lemma_steps_bound(land, root, found[i].row, found[i].depth as nat);
        }
        assert forall|i: int, j: int| 0 <= i < j < result.nodes.len() implies (#[trigger] result.nodes[i]).node.chunk_id != (
        #[trigger] result.nodes[j]).node.chunk_id by {
            if result.nodes[i].node.chunk_id == result.nodes[j].node.chunk_id {
                lemma_names_apart(chunks.rows, found[i].row as int, found[j].row as int);
            }
        }
        assert forall|i: int| 0 <= i < result.nodes.len() implies away(land, root, #[trigger] result.nodes[i]) by {
            assert(is_node_of(land, result.nodes[i], found[i].row));
        }
        if !result.truncated {
            assert forall|row: usize, count: nat| #[trigger] land.steps(root, row, count) implies explored_within(
                land,
                result.nodes,
                row,
                count,
            ) by {
                lemma_reached(land, root, found, row, count);
                let i = choose|i: int| 0 <= i < found.len() && (#[trigger] found[i]).row == row && found[i].depth <= count;
                assert(is_node_of(land, result.nodes[i], row));
            }
        }
    }
}

proof fn lemma_steps_bound(land: Terrain, root: usize, to: usize, count: nat)
    requires
        root < land.chunks.rows.len(),
        land.steps(root, to, count),
    ensures
        to < land.chunks.rows.len(),
{
    if count > 0 {
        let before = choose|before: usize|
            land.steps(root, before, (count - 1) as nat) && #[trigger] land.adjacent(before, to);
        lemma_adjacent_bound(land, before, to);
    }
}

} // verus!
