//! What the results of a search are: every chunk once, and every relationship once, between them.

use vstd::prelude::*;
use crate::catalog::{lemma_table_position, CatalogView};
use crate::error::ErrorView;
use crate::float::Floats;
use crate::graph::{chunk_columns, collection_of, text_in};
use crate::graph_edge::{edge_in, linked_rows, row_named, EdgeView};
use crate::graph_near::{chunk_distance, distance_order, distances_from, nearest, NearChunk};
use crate::graph_search::{
    admitted, edges_at, edges_from, edges_sorted, expanded, has_link, has_reached, hit_of, induced, induced_order,
    neighbor_order, returned_edges, same_link, search_result, seeds_from, within_reached, HitView, ReachedView,
    SearchRequestView, SearchState,
};
use crate::graph_store::lemma_collection_kept;
use crate::graph_write::places_of;
use crate::index::{lemma_matching, matching};
use crate::order::{lemma_sorted_each, sorted};
use crate::table::{distinct_keys, TableView};
use crate::value::{key_of, ValueView};

verus! {

/// Whether no chunk is reached twice.
pub open spec fn each_once(reached: Seq<ReachedView>) -> bool {
    forall|i: int, j: int| 0 <= i < j < reached.len() ==> (#[trigger] reached[i]).id != (#[trigger] reached[j]).id
}

/// Whether no two hits are of one chunk.
pub open spec fn hits_once(hits: Seq<HitView>) -> bool {
    forall|i: int, j: int| 0 <= i < j < hits.len() ==> (#[trigger] hits[i]).chunk_id != (#[trigger] hits[j]).chunk_id
}

/// Whether no two relationships are between the same chunks and of one kind.
pub open spec fn links_once(edges: Seq<EdgeView>) -> bool {
    forall|i: int, j: int| 0 <= i < j < edges.len() ==> !same_link(#[trigger] edges[i], #[trigger] edges[j])
}

/// Whether a chunk is among the hits.
pub open spec fn is_hit(hits: Seq<HitView>, id: Seq<char>) -> bool {
    exists|i: int| 0 <= i < hits.len() && (#[trigger] hits[i]).chunk_id == id
}

/// How many of the first `count` relationships start at a chunk.
pub open spec fn starting_at(edges: Seq<EdgeView>, id: Seq<char>, count: nat) -> nat
    decreases count,
{
    if count == 0 {
        0
    } else {
        starting_at(edges, id, (count - 1) as nat) + if edges[count - 1].from_chunk == id {
            1nat
        } else {
            0nat
        }
    }
}

proof fn lemma_starting_prefix(edges: Seq<EdgeView>, more: EdgeView, id: Seq<char>, count: nat)
    requires
        count <= edges.len(),
    ensures
        starting_at(edges.push(more), id, count) == starting_at(edges, id, count),
    decreases count,
{
    if count > 0 {
        lemma_starting_prefix(edges, more, id, (count - 1) as nat);
        assert(edges.push(more)[count - 1] == edges[count - 1]);
    }
}

proof fn lemma_starting_none(edges: Seq<EdgeView>, id: Seq<char>, count: nat)
    requires
        count <= edges.len(),
        forall|i: int| 0 <= i < edges.len() ==> (#[trigger] edges[i]).from_chunk != id,
    ensures
        starting_at(edges, id, count) == 0,
    decreases count,
{
    if count > 0 {
        lemma_starting_none(edges, id, (count - 1) as nat);
    }
}

proof fn lemma_has_reached(reached: Seq<ReachedView>, id: Seq<char>, from: nat)
    ensures
        has_reached(reached, id, from) <==> exists|i: int| from <= i < reached.len() && (#[trigger] reached[i]).id == id,
    decreases reached.len() - from,
{
    if from < reached.len() {
        lemma_has_reached(reached, id, from + 1);
        if has_reached(reached, id, from) && reached[from as int].id != id {
            let i = choose|i: int| from + 1 <= i < reached.len() && (#[trigger] reached[i]).id == id;
            assert(reached[i].id == id);
        }
    }
}

proof fn lemma_has_link(edges: Seq<EdgeView>, edge: EdgeView, from: nat)
    ensures
        has_link(edges, edge, from) <==> exists|i: int| from <= i < edges.len() && same_link(#[trigger] edges[i], edge),
    decreases edges.len() - from,
{
    if from < edges.len() {
        lemma_has_link(edges, edge, from + 1);
        if has_link(edges, edge, from) && !same_link(edges[from as int], edge) {
            let i = choose|i: int| from + 1 <= i < edges.len() && same_link(#[trigger] edges[i], edge);
            assert(same_link(edges[i], edge));
        }
    }
}

proof fn lemma_admitted_once(
    chunks: Seq<Seq<ValueView>>,
    neighbors: Seq<EdgeView>,
    request: SearchRequestView,
    depth: nat,
    from: nat,
    count: nat,
    state: SearchState,
)
    requires
        each_once(state.reached),
        state.reached.len() <= request.max_results,
    ensures
        admitted(chunks, neighbors, request, depth, from, count, state) matches Ok(after) ==> each_once(after.reached)
            && after.reached.len() <= request.max_results && state.reached.len() <= after.reached.len() && forall|i: int|
            0 <= i < state.reached.len() ==> after.reached[i] == #[trigger] state.reached[i],
    decreases neighbors.len() - from,
{
    if from < neighbors.len() {
        let neighbor = neighbors[from as int];
        if row_named(chunks, neighbor.to_chunk, 0) is None {
        } else if has_reached(state.reached, neighbor.to_chunk, 0) {
            lemma_admitted_once(chunks, neighbors, request, depth, from + 1, count, state);
        } else if count == request.neighbor_limit || state.reached.len() == request.max_results {
            lemma_admitted_once(
                chunks,
                neighbors,
                request,
                depth,
                from + 1,
                count,
                SearchState { truncated: true, ..state },
            );
        } else {
            let next = SearchState {
                reached: state.reached.push(ReachedView { id: neighbor.to_chunk, depth: depth + 1 }),
                edges: state.edges.push(neighbor),
                truncated: state.truncated,
            };
            lemma_has_reached(state.reached, neighbor.to_chunk, 0);
            assert(each_once(next.reached));
            lemma_admitted_once(chunks, neighbors, request, depth, from + 1, count + 1, next);
            if let Ok(after) = admitted(chunks, neighbors, request, depth, from + 1, count + 1, next) {
                assert forall|i: int| 0 <= i < state.reached.len() implies after.reached[i] == #[trigger] state.reached[i] by {
                    assert(after.reached[i] == next.reached[i]);
                }
            }
        }
    }
}

proof fn lemma_row_found(rows: Seq<Seq<ValueView>>, id: Seq<char>, from: nat)
    ensures
        row_named(rows, id, from) matches Some(at) ==> from <= at < rows.len() && text_in(rows[at as int], 0) == Ok::<
            Seq<char>,
            ErrorView,
        >(id),
    decreases rows.len() - from,
{
    if from < rows.len() && text_in(rows[from as int], 0) != Ok::<Seq<char>, ErrorView>(id) {
        lemma_row_found(rows, id, from + 1);
    }
}

/// Whether the hits are those of the first chunks reached.
spec fn hits_of(hits: Seq<HitView>, reached: Seq<ReachedView>) -> bool {
    &&& hits.len() <= reached.len()
    &&& forall|i: int| 0 <= i < hits.len() ==> (#[trigger] hits[i]).chunk_id == reached[i].id
}

proof fn lemma_expanded_once(
    documents: TableView,
    chunks: TableView,
    edges: TableView,
    request: SearchRequestView,
    floats: Floats,
    at: nat,
    state: SearchState,
    hits: Seq<HitView>,
)
    requires
        hits.len() == at,
        hits_of(hits, state.reached),
        each_once(state.reached),
        state.reached.len() <= request.max_results,
    ensures
        expanded(documents, chunks, edges, request, floats, at, state, hits) matches Ok((after, found)) ==> hits_of(
            found,
            after.reached,
        ) && found.len() == after.reached.len() && each_once(after.reached),
    decreases request.max_results - at,
{
    if at < state.reached.len() && at < request.max_results {
        let current = state.reached[at as int];
        lemma_row_found(chunks.rows, current.id, 0);
        if let Some(row) = row_named(chunks.rows, current.id, 0) {
            if let Ok(found) = hit_of(chunks.rows[row as int], documents, request.query, current.depth, floats) {
                let longer = hits.push(found);
                assert(found.chunk_id == current.id);
                if current.depth >= request.max_hops {
                    lemma_expanded_once(documents, chunks, edges, request, floats, at + 1, state, longer);
                } else if let Ok(linked) = edges_from(edges, current.id) {
                    let ordered = edges_sorted(linked, neighbor_order(linked));
                    lemma_admitted_once(chunks.rows, ordered, request, current.depth, 0, 0, state);
                    if let Ok(next) = admitted(chunks.rows, ordered, request, current.depth, 0, 0, state) {
                        assert forall|i: int| 0 <= i < longer.len() implies (#[trigger] longer[i]).chunk_id
                            == next.reached[i].id by {
                            assert(next.reached[i] == state.reached[i]);
                        }
                        lemma_expanded_once(documents, chunks, edges, request, floats, at + 1, next, longer);
                    }
                }
            }
        }
    }
}

proof fn lemma_distances(rows: Seq<Seq<ValueView>>, query: Seq<u32>, floats: Floats, from: nat, done: Seq<u64>)
    requires
        from <= rows.len(),
        done.len() == from,
    ensures
        distances_from(rows, query, floats, from, done) matches Ok(all) ==> all.len() == rows.len(),
    decreases rows.len() - from,
{
    if from < rows.len() {
        if let Ok(distance) = chunk_distance(rows[from as int], query, floats) {
            lemma_distances(rows, query, floats, from + 1, done.push(distance));
        }
    }
}

/// The nearest chunks are different rows.
proof fn lemma_nearest(rows: Seq<Seq<ValueView>>, query: Seq<u32>, limit: nat, floats: Floats)
    requires
        rows.len() <= usize::MAX,
    ensures
        nearest(rows, query, limit, floats) matches Ok(found) ==> found.len() <= limit && (forall|i: int|
            0 <= i < found.len() ==> (#[trigger] found[i]).row < rows.len()) && forall|i: int, j: int|
            0 <= i < j < found.len() ==> (#[trigger] found[i]).row != (#[trigger] found[j]).row,
{
    lemma_distances(rows, query, floats, 0, Seq::empty());
    if let Ok(found) = nearest(rows, query, limit, floats) {
        let distances = distances_from(rows, query, floats, 0, Seq::empty())->Ok_0;
        let order = sorted(distances.len() as usize, distance_order(distances));
        lemma_sorted_each(distances.len() as usize, distance_order(distances));
        assert forall|i: int| 0 <= i < found.len() implies (#[trigger] found[i]).row < rows.len() by {
            assert(found[i].row == order[i]);
        }
        assert forall|i: int, j: int| 0 <= i < j < found.len() implies (#[trigger] found[i]).row != (#[trigger] found[j]).row by {
            assert(found[i].row == order[i] && found[j].row == order[j]);
        }
    }
}

/// Whether seeds are the chunks that were found, by their names.
spec fn seeds_of(seeds: Seq<ReachedView>, rows: Seq<Seq<ValueView>>, found: Seq<NearChunk>) -> bool {
    &&& seeds.len() <= found.len()
    &&& forall|i: int|
        0 <= i < seeds.len() ==> text_in(rows[found[i].row as int], 0) == Ok::<Seq<char>, ErrorView>((#[trigger] seeds[i]).id)
}

proof fn lemma_seeds(rows: Seq<Seq<ValueView>>, found: Seq<NearChunk>, from: nat, done: Seq<ReachedView>)
    requires
        from <= found.len(),
        done.len() == from,
        seeds_of(done, rows, found),
    ensures
        seeds_from(rows, found, from, done) matches Ok(seeds) ==> seeds.len() == found.len() && seeds_of(seeds, rows, found),
    decreases found.len() - from,
{
    if from < found.len() {
        if let Ok(id) = text_in(rows[found[from as int].row as int], 0) {
            lemma_seeds(rows, found, from + 1, done.push(ReachedView { id, depth: 0 }));
        }
    }
}

/// Chunks in different rows have different names.
pub proof fn lemma_names_apart(rows: Seq<Seq<ValueView>>, i: int, j: int)
    requires
        distinct_keys(rows, 0),
        0 <= i < rows.len(),
        0 <= j < rows.len(),
        text_in(rows[i], 0) is Ok,
        text_in(rows[i], 0) == text_in(rows[j], 0),
    ensures
        i == j,
{
    assert(key_of(rows[i][0]) == key_of(rows[j][0]));
    if i < j {
        assert(key_of(rows[i][0]) != key_of(rows[j][0]));
    }
    if j < i {
        assert(key_of(rows[j][0]) != key_of(rows[i][0]));
    }
}

spec fn start_at(edges: Seq<EdgeView>, id: Seq<char>) -> bool {
    forall|i: int| 0 <= i < edges.len() ==> (#[trigger] edges[i]).from_chunk == id
}

proof fn lemma_edges_at(rows: Seq<Seq<ValueView>>, positions: Seq<usize>, from: nat, done: Seq<EdgeView>, id: Seq<char>)
    requires
        forall|i: int|
            0 <= i < positions.len() ==> (#[trigger] positions[i]) < rows.len() && rows[positions[i] as int][1]
                == ValueView::Text(id),
        start_at(done, id),
    ensures
        edges_at(rows, positions, from, done) matches Ok(found) ==> start_at(found, id),
    decreases positions.len() - from,
{
    if from < positions.len() {
        let row = rows[positions[from as int] as int];
        if let Ok(edge) = edge_in(row) {
            assert(row[1] == ValueView::Text(id));
            assert(edge.from_chunk == id);
            lemma_edges_at(rows, positions, from + 1, done.push(edge), id);
        }
    }
}

/// The relationships from a chunk start at it.
proof fn lemma_edges_from(edges: TableView, id: Seq<char>)
    requires
        edges.rows.len() <= usize::MAX,
    ensures
        edges_from(edges, id) matches Ok(found) ==> start_at(found, id),
{
    let positions = linked_rows(edges, 1, id);
    lemma_matching(edges.rows, 1, ValueView::Text(id), edges.rows.len());
    assert forall|i: int| 0 <= i < positions.len() implies (#[trigger] positions[i]) < edges.rows.len()
        && edges.rows[positions[i] as int][1] == ValueView::Text(id) by {
        assert(positions.contains(positions[i]));
        let value = edges.rows[positions[i] as int][1];
        assert(key_of(value) == ValueView::Text(id));
    }
    lemma_edges_at(edges.rows, positions, 0, Seq::empty(), id);
}

/// Whether relationships start at a chunk and lead to reached ones.
spec fn led(edges: Seq<EdgeView>, id: Seq<char>, reached: Seq<ReachedView>) -> bool {
    forall|i: int|
        0 <= i < edges.len() ==> (#[trigger] edges[i]).from_chunk == id && has_reached(reached, edges[i].to_chunk, 0)
}

proof fn lemma_within(
    chunks: Seq<Seq<ValueView>>,
    reached: Seq<ReachedView>,
    edges: Seq<EdgeView>,
    from: nat,
    done: Seq<EdgeView>,
    id: Seq<char>,
)
    requires
        start_at(edges, id),
        led(done, id, reached),
    ensures
        within_reached(chunks, reached, edges, from, done) matches Ok(within) ==> led(within, id, reached),
    decreases edges.len() - from,
{
    if from < edges.len() {
        let longer = done.push(edges[from as int]);
        lemma_within(chunks, reached, edges, from + 1, done, id);
        if has_reached(reached, edges[from as int].to_chunk, 0) {
            lemma_within(chunks, reached, edges, from + 1, longer, id);
        }
    }
}

/// Whether relationships lead from some chunks to reached ones, none twice, and at most `limit` from
/// each.
spec fn returned_well(edges: Seq<EdgeView>, hits: Seq<HitView>, from: nat, reached: Seq<ReachedView>, limit: nat) -> bool {
    &&& links_once(edges)
    &&& forall|i: int|
        0 <= i < edges.len() ==> has_reached(reached, (#[trigger] edges[i]).to_chunk, 0) && is_hit(
            hits.take(from as int),
            edges[i].from_chunk,
        )
    &&& forall|id: Seq<char>| #[trigger] starting_at(edges, id, edges.len()) <= limit
}

proof fn lemma_returned(
    ordered: Seq<EdgeView>,
    limit: nat,
    from: nat,
    count: nat,
    done: Seq<EdgeView>,
    truncated: bool,
    hits: Seq<HitView>,
    at: nat,
    reached: Seq<ReachedView>,
)
    requires
        at < hits.len(),
        led(ordered, hits[at as int].chunk_id, reached),
        returned_well(done, hits, at + 1, reached, limit),
        starting_at(done, hits[at as int].chunk_id, done.len()) == count,
        count <= limit,
    ensures
        returned_well(returned_edges(ordered, limit, from, count, done, truncated).0, hits, at + 1, reached, limit),
    decreases ordered.len() - from,
{
    if from < ordered.len() {
        let edge = ordered[from as int];
        let id = hits[at as int].chunk_id;
        lemma_has_link(done, edge, 0);
        if has_link(done, edge, 0) {
            lemma_returned(ordered, limit, from + 1, count, done, truncated, hits, at, reached);
        } else if count == limit {
            lemma_returned(ordered, limit, from + 1, count, done, true, hits, at, reached);
        } else {
            let longer = done.push(edge);
            assert forall|i: int, j: int| 0 <= i < j < longer.len() implies !same_link(
                #[trigger] longer[i],
                #[trigger] longer[j],
            ) by {
                if j < done.len() {
                    assert(!same_link(done[i], done[j]));
                }
            }
            assert forall|other: Seq<char>| #[trigger] starting_at(longer, other, longer.len()) <= limit by {
                lemma_starting_prefix(done, edge, other, done.len());
                assert(starting_at(done, other, done.len()) <= limit);
            }
            lemma_starting_prefix(done, edge, id, done.len());
            let taken = hits.take(at as int + 1);
            assert(taken[at as int].chunk_id == id);
            assert(is_hit(taken, id));
            assert(returned_well(longer, hits, at + 1, reached, limit));
            lemma_returned(ordered, limit, from + 1, count + 1, longer, truncated, hits, at, reached);
        }
    }
}

proof fn lemma_induced(
    chunks: TableView,
    edges: TableView,
    state: SearchState,
    hits: Seq<HitView>,
    limit: nat,
    from: nat,
    done: Seq<EdgeView>,
    truncated: bool,
)
    requires
        from <= hits.len(),
        edges.rows.len() <= usize::MAX,
        hits_once(hits),
        returned_well(done, hits, from, state.reached, limit),
    ensures
        induced(chunks, edges, state, hits, limit, from, done, truncated) matches Ok((returned, _)) ==> returned_well(
            returned,
            hits,
            hits.len(),
            state.reached,
            limit,
        ),
    decreases hits.len() - from,
{
    if from < hits.len() {
        let id = hits[from as int].chunk_id;
        lemma_edges_from(edges, id);
        if let Ok(linked) = edges_from(edges, id) {
            lemma_within(chunks.rows, state.reached, linked, 0, Seq::empty(), id);
            if let Ok(within) = within_reached(chunks.rows, state.reached, linked, 0, Seq::empty()) {
                let before = induced_order(state.edges, within);
                let ordered = edges_sorted(within, before);
                lemma_sorted_each(within.len() as usize, before);
                assert(within.len() <= usize::MAX ==> led(ordered, id, state.reached)) by {
                    if within.len() <= usize::MAX {
                        assert forall|i: int| 0 <= i < ordered.len() implies (#[trigger] ordered[i]).from_chunk == id
                            && has_reached(state.reached, ordered[i].to_chunk, 0) by {
                            let at = sorted(within.len() as usize, before)[i];
                            assert(ordered[i] == within[at as int]);
                        }
                    }
                }
                lemma_within_short(chunks.rows, state.reached, linked, 0, Seq::empty());
                lemma_linked_short(edges, id);
                assert forall|i: int| 0 <= i < done.len() implies (#[trigger] done[i]).from_chunk != id by {
                    assert(is_hit(hits.take(from as int), done[i].from_chunk));
                    let k = choose|k: int|
                        0 <= k < hits.take(from as int).len() && (#[trigger] hits.take(from as int)[k]).chunk_id
                            == done[i].from_chunk;
                    assert(hits[k].chunk_id == done[i].from_chunk);
                }
                lemma_starting_none(done, id, done.len());
                assert(returned_well(done, hits, from + 1, state.reached, limit)) by {
                    assert forall|i: int| 0 <= i < done.len() implies has_reached(
                        state.reached,
                        (#[trigger] done[i]).to_chunk,
                        0,
                    ) && is_hit(hits.take(from as int + 1), done[i].from_chunk) by {
                        let k = choose|k: int|
                            0 <= k < hits.take(from as int).len() && (#[trigger] hits.take(from as int)[k]).chunk_id
                                == done[i].from_chunk;
                        assert(hits.take(from as int + 1)[k] == hits.take(from as int)[k]);
                    }
                }
                lemma_returned(ordered, limit, 0, 0, done, truncated, hits, from, state.reached);
                let (next, more) = returned_edges(ordered, limit, 0, 0, done, truncated);
                lemma_induced(chunks, edges, state, hits, limit, from + 1, next, more);
            }
        }
    }
}

proof fn lemma_within_short(chunks: Seq<Seq<ValueView>>, reached: Seq<ReachedView>, edges: Seq<EdgeView>, from: nat, done: Seq<EdgeView>)
    requires
        done.len() <= from <= edges.len(),
    ensures
        within_reached(chunks, reached, edges, from, done) matches Ok(within) ==> within.len() <= edges.len(),
    decreases edges.len() - from,
{
    if from < edges.len() {
        lemma_within_short(chunks, reached, edges, from + 1, done);
        lemma_within_short(chunks, reached, edges, from + 1, done.push(edges[from as int]));
    }
}

proof fn lemma_edges_short(rows: Seq<Seq<ValueView>>, positions: Seq<usize>, from: nat, done: Seq<EdgeView>)
    requires
        from <= positions.len(),
        done.len() == from,
    ensures
        edges_at(rows, positions, from, done) matches Ok(found) ==> found.len() == positions.len(),
    decreases positions.len() - from,
{
    if from < positions.len() {
        if let Ok(edge) = edge_in(rows[positions[from as int] as int]) {
            lemma_edges_short(rows, positions, from + 1, done.push(edge));
        }
    }
}

proof fn lemma_matching_short(rows: Seq<Seq<ValueView>>, column: int, key: ValueView, count: nat)
    ensures
        matching(rows, column, key, count).len() <= count,
    decreases count,
{
    if count > 0 {
        lemma_matching_short(rows, column, key, (count - 1) as nat);
    }
}

proof fn lemma_linked_short(edges: TableView, id: Seq<char>)
    ensures
        edges_from(edges, id) matches Ok(found) ==> found.len() <= edges.rows.len(),
{
    lemma_edges_short(edges.rows, linked_rows(edges, 1, id), 0, Seq::empty());
    lemma_matching_short(edges.rows, 1, ValueView::Text(id), edges.rows.len());
}

/// A search returns every chunk once. The relationships that it returns are between chunks that it
/// returns, none of them twice, and not more than asked for start at one chunk.
pub proof fn law_search_returns_each_once(catalog: CatalogView, request: SearchRequestView, floats: Floats)
    requires
        catalog.valid(),
        catalog.tables.len() <= usize::MAX,
    ensures
        search_result(catalog, request, floats) matches Ok(found) ==> {
            &&& hits_once(found.hits)
            &&& links_once(found.edges)
            &&& forall|i: int|
                0 <= i < found.edges.len() ==> is_hit(found.hits, (#[trigger] found.edges[i]).from_chunk) && is_hit(
                    found.hits,
                    found.edges[i].to_chunk,
                )
            &&& forall|id: Seq<char>| #[trigger] starting_at(found.edges, id, found.edges.len()) <= request.neighbor_limit
        },
{
    if let Ok(result) = search_result(catalog, request, floats) {
        let info = collection_of(catalog, request.collection)->Ok_0;
        let places = places_of(catalog, info);
        let documents = catalog.tables[places.documents as int].table;
        let chunks = catalog.tables[places.chunks as int].table;
        let edges = catalog.tables[places.edges as int].table;
        lemma_collection_kept(catalog, request.collection);
        lemma_table_position(catalog.tables, info.tables.documents, 0);
        lemma_table_position(catalog.tables, info.tables.chunks, 0);
        lemma_table_position(catalog.tables, info.tables.edges, 0);
        assert(chunks.valid());
        assert(chunks.columns == chunk_columns(info.config.profile.dimensions as usize));
        assert(chunks.columns[0].unique);
        assert(distinct_keys(chunks.rows, 0));
        let found = nearest(chunks.rows, request.query, request.seed_limit, floats)->Ok_0;
        lemma_nearest(chunks.rows, request.query, request.seed_limit, floats);
        lemma_seeds(chunks.rows, found, 0, Seq::empty());
        let seeds = seeds_from(chunks.rows, found, 0, Seq::empty())->Ok_0;
        assert forall|i: int, j: int| 0 <= i < j < seeds.len() implies (#[trigger] seeds[i]).id != (#[trigger] seeds[j]).id by {
            if seeds[i].id == seeds[j].id {
                lemma_names_apart(chunks.rows, found[i].row as int, found[j].row as int);
            }
        }
        let start = SearchState { reached: seeds, edges: Seq::empty(), truncated: false };
        lemma_expanded_once(documents, chunks, edges, request, floats, 0, start, Seq::empty());
        let (state, hits) = expanded(documents, chunks, edges, request, floats, 0, start, Seq::empty())->Ok_0;
        assert(hits_once(hits)) by {
            assert forall|i: int, j: int| 0 <= i < j < hits.len() implies (#[trigger] hits[i]).chunk_id != (
            #[trigger] hits[j]).chunk_id by {
                assert(state.reached[i].id != state.reached[j].id);
            }
        }
        let none = Seq::<EdgeView>::empty();
        assert(returned_well(none, hits, 0, state.reached, request.neighbor_limit));
        lemma_induced(chunks, edges, state, hits, request.neighbor_limit, 0, none, state.truncated);
        assert(hits.take(hits.len() as int) =~= hits);
        assert forall|i: int| 0 <= i < result.edges.len() implies is_hit(hits, (#[trigger] result.edges[i]).from_chunk)
            && is_hit(hits, result.edges[i].to_chunk) by {
            let edge = result.edges[i];
            lemma_has_reached(state.reached, edge.to_chunk, 0);
            let k = choose|k: int| 0 <= k < state.reached.len() && (#[trigger] state.reached[k]).id == edge.to_chunk;
            assert(hits[k].chunk_id == edge.to_chunk);
        }
    }
}

} // verus!
