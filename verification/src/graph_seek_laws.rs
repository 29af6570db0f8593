//! What a search finds: the nearest chunks, and those that their relationships lead to.

use vstd::prelude::*;
use crate::error::ErrorView;
use crate::float::{total_key, Floats};
use crate::graph::{text_in, CollectionView};
use crate::graph_edge::{row_named, EdgeView};
use crate::graph_link_laws::{alike_at, law_nearest_chunks};
use crate::graph_near::{nearest, NearChunk};
use crate::graph_search::{
    admitted, edges_from, edges_sorted, expanded, has_reached, hit_of, induced, neighbor_order, neighbor_rank, returned_edges,
    searched, seeds_from, HitView, ReachedView, SearchRequestView, SearchState,
};
use crate::order::{lemma_sorted_each, sorted};
use crate::table::TableView;
use crate::text::{text_rank, Rank};
use crate::value::ValueView;

verus! {

broadcast use vstd::string::group_string_axioms;

/// Relationships to the chunks next to one come first; of others the heavier ones do, and of those as
/// heavy the one to the first chunk by name.
pub proof fn law_neighbors_first(left: EdgeView, right: EdgeView)
    ensures
        left.kind == "adjacent"@ && right.kind != "adjacent"@ ==> neighbor_rank(left, right) == Rank::Before,
        left.kind != "adjacent"@ && right.kind == "adjacent"@ ==> neighbor_rank(left, right) == Rank::After,
        (left.kind == "adjacent"@) == (right.kind == "adjacent"@) ==> {
            &&& total_key(left.weight) > total_key(right.weight) ==> neighbor_rank(left, right) == Rank::Before
            &&& total_key(left.weight) < total_key(right.weight) ==> neighbor_rank(left, right) == Rank::After
            &&& left.weight == right.weight ==> neighbor_rank(left, right) == text_rank(left.to_chunk, right.to_chunk)
        },
{
}

/// Whether a chunk is among those reached.
spec fn is_reached(reached: Seq<ReachedView>, id: Seq<char>) -> bool {
    exists|i: int| 0 <= i < reached.len() && (#[trigger] reached[i]).id == id
}

proof fn lemma_has_reached(reached: Seq<ReachedView>, id: Seq<char>, from: nat)
    ensures
        has_reached(reached, id, from) <==> exists|i: int| from <= i < reached.len() && (#[trigger] reached[i]).id == id,
    decreases reached.len() - from,
{
    if from < reached.len() {
        lemma_has_reached(reached, id, from + 1);
        if reached[from as int].id == id {
            assert(has_reached(reached, id, from));
        }
    }
}

/// Whether chunks reached are more than before by some that relationships lead to, one step on.
spec fn further(before: Seq<ReachedView>, after: Seq<ReachedView>, neighbors: Seq<EdgeView>, depth: nat) -> bool {
    &&& before.len() <= after.len()
    &&& forall|i: int| 0 <= i < before.len() ==> #[trigger] after[i] == before[i]
    &&& forall|i: int| before.len() <= i < after.len() ==> (#[trigger] after[i]).depth == depth + 1 && leads_to(neighbors, after[i].id)
}

/// Whether one of some relationships leads to a chunk.
pub open spec fn leads_to(neighbors: Seq<EdgeView>, id: Seq<char>) -> bool {
    exists|k: int| 0 <= k < neighbors.len() && (#[trigger] neighbors[k]).to_chunk == id
}

proof fn lemma_admitted(
    chunks: Seq<Seq<ValueView>>,
    neighbors: Seq<EdgeView>,
    request: SearchRequestView,
    depth: nat,
    from: nat,
    count: nat,
    state: SearchState,
)
    requires
        state.reached.len() <= request.max_results,
        from <= neighbors.len(),
    ensures
        admitted(chunks, neighbors, request, depth, from, count, state) matches Ok(next) ==> {
            &&& further(state.reached, next.reached, neighbors, depth)
            &&& next.reached.len() <= request.max_results
            &&& state.truncated ==> next.truncated
            &&& !next.truncated ==> forall|k: int| from <= k < neighbors.len() ==> is_reached(next.reached, (#[trigger] neighbors[k]).to_chunk)
        },
    decreases neighbors.len() - from,
{
    if from < neighbors.len() {
        let neighbor = neighbors[from as int];
        if row_named(chunks, neighbor.to_chunk, 0) is Some {
            lemma_has_reached(state.reached, neighbor.to_chunk, 0);
            if has_reached(state.reached, neighbor.to_chunk, 0) {
                lemma_admitted(chunks, neighbors, request, depth, from + 1, count, state);
                if let Ok(next) = admitted(chunks, neighbors, request, depth, from, count, state) {
                    let i = choose|i: int| 0 <= i < state.reached.len() && (#[trigger] state.reached[i]).id == neighbor.to_chunk;
                    assert(next.reached[i].id == neighbor.to_chunk);
                }
            } else if count == request.neighbor_limit || state.reached.len() == request.max_results {
                lemma_admitted(chunks, neighbors, request, depth, from + 1, count, SearchState { truncated: true, ..state });
            } else {
                let middle = SearchState {
                    reached: state.reached.push(ReachedView { id: neighbor.to_chunk, depth: depth + 1 }),
                    edges: state.edges.push(neighbor),
                    truncated: state.truncated,
                };
                lemma_admitted(chunks, neighbors, request, depth, from + 1, count + 1, middle);
                if let Ok(next) = admitted(chunks, neighbors, request, depth, from, count, state) {
                    let at = state.reached.len() as int;
                    assert(middle.reached[at].id == neighbor.to_chunk);
                    assert(next.reached[at] == middle.reached[at]);
                    assert(leads_to(neighbors, neighbor.to_chunk));
                    assert forall|i: int| 0 <= i < state.reached.len() implies #[trigger] next.reached[i] == state.reached[i] by {
                        assert(middle.reached[i] == state.reached[i]);
                    }
                }
            }
        }
    }
}

proof fn lemma_edges_sorted(edges: Seq<EdgeView>)
    requires
        edges.len() <= usize::MAX,
    ensures
        forall|id: Seq<char>| #[trigger] leads_to(edges_sorted(edges, neighbor_order(edges)), id) <==> leads_to(edges, id),
        edges_sorted(edges, neighbor_order(edges)).len() == edges.len(),
{
    let before = neighbor_order(edges);
    let count = edges.len() as usize;
    let order = sorted(count, before);
    let all = edges_sorted(edges, before);
    lemma_sorted_each(count, before);
    assert forall|id: Seq<char>| #[trigger] leads_to(all, id) <==> leads_to(edges, id) by {
        if leads_to(all, id) {
            let k = choose|k: int| 0 <= k < all.len() && (#[trigger] all[k]).to_chunk == id;
            assert(edges[order[k] as int].to_chunk == id);
        }
        if leads_to(edges, id) {
            let k = choose|k: int| 0 <= k < edges.len() && (#[trigger] edges[k]).to_chunk == id;
            assert(order.contains(k as usize));
            let i = choose|i: int| 0 <= i < order.len() && order[i] == k as usize;
            assert(all[i].to_chunk == id);
        }
    }
}

/// Whether a relationship leads from one chunk to another.
pub open spec fn linked_to(edges: TableView, from: Seq<char>, to: Seq<char>) -> bool {
    edges_from(edges, from) matches Ok(linked) && leads_to(linked, to)
}

/// How a search stands when the chunks before `at` have been looked at.
spec fn sought(
    edges: TableView,
    request: SearchRequestView,
    seeds: Seq<ReachedView>,
    at: nat,
    state: SearchState,
    hits: Seq<HitView>,
) -> bool {
    &&& seeds.len() <= state.reached.len() <= request.max_results
    &&& forall|i: int| 0 <= i < seeds.len() ==> #[trigger] state.reached[i] == seeds[i]
    &&& hits.len() == at
    &&& at <= state.reached.len()
    &&& forall|i: int| 0 <= i < at ==> (#[trigger] hits[i]).chunk_id == state.reached[i].id && hits[i].depth == state.reached[i].depth
    &&& forall|j: int| seeds.len() <= j < state.reached.len() ==> found_by(edges, state.reached, #[trigger] state.reached[j], request)
    &&& !state.truncated ==> forall|i: int, id: Seq<char>|
        0 <= i < at && (#[trigger] state.reached[i]).depth < request.max_hops && #[trigger] linked_to(edges, state.reached[i].id, id)
            ==> is_reached(state.reached, id)
}

/// Whether a chunk is one step on from another that was reached before the last step allowed.
spec fn found_by(edges: TableView, reached: Seq<ReachedView>, chunk: ReachedView, request: SearchRequestView) -> bool {
    exists|i: int|
        0 <= i < reached.len() && (#[trigger] reached[i]).depth + 1 == chunk.depth && reached[i].depth < request.max_hops && linked_to(
            edges,
            reached[i].id,
            chunk.id,
        )
}

proof fn lemma_found_by_longer(
    edges: TableView,
    before: Seq<ReachedView>,
    after: Seq<ReachedView>,
    chunk: ReachedView,
    request: SearchRequestView,
)
    requires
        found_by(edges, before, chunk, request),
        before.len() <= after.len(),
        forall|i: int| 0 <= i < before.len() ==> #[trigger] after[i] == before[i],
    ensures
        found_by(edges, after, chunk, request),
{
    let i = choose|i: int|
        0 <= i < before.len() && (#[trigger] before[i]).depth + 1 == chunk.depth && before[i].depth < request.max_hops && linked_to(
            edges,
            before[i].id,
            chunk.id,
        );
    assert(after[i] == before[i]);
}

proof fn lemma_step_on(
    chunks: TableView,
    edges: TableView,
    request: SearchRequestView,
    seeds: Seq<ReachedView>,
    at: nat,
    state: SearchState,
    hits: Seq<HitView>,
    found: HitView,
    linked: Seq<EdgeView>,
    next: SearchState,
)
    requires
        sought(edges, request, seeds, at, state, hits),
        at < state.reached.len(),
        found.chunk_id == state.reached[at as int].id,
        found.depth == state.reached[at as int].depth,
        state.reached[at as int].depth < request.max_hops,
        edges_from(edges, state.reached[at as int].id) == Ok::<Seq<EdgeView>, ErrorView>(linked),
        linked.len() <= usize::MAX,
        admitted(
            chunks.rows,
            edges_sorted(linked, neighbor_order(linked)),
            request,
            state.reached[at as int].depth,
            0,
            0,
            state,
        ) == Ok::<SearchState, ErrorView>(next),
    ensures
        sought(edges, request, seeds, at + 1, next, hits.push(found)),
{
    let current = state.reached[at as int];
    let all = edges_sorted(linked, neighbor_order(linked));
    lemma_edges_sorted(linked);
    lemma_admitted(chunks.rows, all, request, current.depth, 0, 0, state);
    let more = hits.push(found);
    assert(next.reached[at as int] == current);
    assert forall|i: int| 0 <= i < seeds.len() implies #[trigger] next.reached[i] == seeds[i] by {
        assert(next.reached[i] == state.reached[i]);
    }
    assert forall|i: int| 0 <= i < at + 1 implies (#[trigger] more[i]).chunk_id == next.reached[i].id && more[i].depth
        == next.reached[i].depth by {
        assert(next.reached[i] == state.reached[i]);
        if i < at {
            assert(more[i] == hits[i]);
        }
    }
    assert forall|j: int| seeds.len() <= j < next.reached.len() implies found_by(edges, next.reached, #[trigger] next.reached[j], request) by {
        if j < state.reached.len() {
            assert(next.reached[j] == state.reached[j]);
            lemma_found_by_longer(edges, state.reached, next.reached, state.reached[j], request);
        } else {
            assert(leads_to(all, next.reached[j].id));
            assert(leads_to(linked, next.reached[j].id));
            assert(linked_to(edges, next.reached[at as int].id, next.reached[j].id));
        }
    }
    if !next.truncated {
        assert forall|i: int, id: Seq<char>|
            0 <= i < at + 1 && (#[trigger] next.reached[i]).depth < request.max_hops && #[trigger] linked_to(
                edges,
                next.reached[i].id,
                id,
            ) implies is_reached(next.reached, id) by {
            assert(next.reached[i] == state.reached[i]);
            if i < at {
                assert(is_reached(state.reached, id));
                let k = choose|k: int| 0 <= k < state.reached.len() && (#[trigger] state.reached[k]).id == id;
                assert(next.reached[k].id == id);
            } else {
                assert(leads_to(linked, id));
                assert(leads_to(all, id));
                let k = choose|k: int| 0 <= k < all.len() && (#[trigger] all[k]).to_chunk == id;
                assert(is_reached(next.reached, all[k].to_chunk));
            }
        }
    }
}

proof fn lemma_last_step(
    edges: TableView,
    request: SearchRequestView,
    seeds: Seq<ReachedView>,
    at: nat,
    state: SearchState,
    hits: Seq<HitView>,
    found: HitView,
)
    requires
        sought(edges, request, seeds, at, state, hits),
        at < state.reached.len(),
        found.chunk_id == state.reached[at as int].id,
        found.depth == state.reached[at as int].depth,
        state.reached[at as int].depth >= request.max_hops,
    ensures
        sought(edges, request, seeds, at + 1, state, hits.push(found)),
{
    let more = hits.push(found);
    assert forall|i: int| 0 <= i < at + 1 implies (#[trigger] more[i]).chunk_id == state.reached[i].id && more[i].depth
        == state.reached[i].depth by {
        if i < at {
            assert(more[i] == hits[i]);
        }
    }
}

proof fn lemma_row_of(rows: Seq<Seq<ValueView>>, id: Seq<char>, from: nat)
    ensures
        row_named(rows, id, from) matches Some(at) ==> from <= at < rows.len() && rows[at as int][0] == ValueView::Text(id),
    decreases rows.len() - from,
{
    if from < rows.len() {
        lemma_row_of(rows, id, from + 1);
    }
}

proof fn lemma_expanded(
    documents: TableView,
    chunks: TableView,
    edges: TableView,
    request: SearchRequestView,
    floats: Floats,
    seeds: Seq<ReachedView>,
    at: nat,
    state: SearchState,
    hits: Seq<HitView>,
)
    requires
        sought(edges, request, seeds, at, state, hits),
        edges.rows.len() <= usize::MAX,
    ensures
        expanded(documents, chunks, edges, request, floats, at, state, hits) matches Ok((last, found)) ==> sought(
            edges,
            request,
            seeds,
            found.len(),
            last,
            found,
        ) && found.len() == last.reached.len(),
    decreases request.max_results - at,
{
    if at < state.reached.len() && at < request.max_results {
        let current = state.reached[at as int];
        if let Some(row) = row_named(chunks.rows, current.id, 0) {
            lemma_row_of(chunks.rows, current.id, 0);
            if let Ok(found) = hit_of(chunks.rows[row as int], documents, request.query, current.depth, floats) {
                assert(found.chunk_id == current.id && found.depth == current.depth);
                if current.depth >= request.max_hops {
                    lemma_last_step(edges, request, seeds, at, state, hits, found);
                    lemma_expanded(documents, chunks, edges, request, floats, seeds, at + 1, state, hits.push(found));
                } else if let Ok(linked) = edges_from(edges, current.id) {
                    lemma_edges_bound(edges, current.id);
                    if let Ok(next) = admitted(
                        chunks.rows,
                        edges_sorted(linked, neighbor_order(linked)),
                        request,
                        current.depth,
                        0,
                        0,
                        state,
                    ) {
                        lemma_step_on(chunks, edges, request, seeds, at, state, hits, found, linked, next);
                        lemma_expanded(documents, chunks, edges, request, floats, seeds, at + 1, next, hits.push(found));
                    }
                }
            }
        }
    }
}

proof fn lemma_edges_bound(edges: TableView, id: Seq<char>)
    requires
        edges.rows.len() <= usize::MAX,
    ensures
        edges_from(edges, id) matches Ok(linked) ==> linked.len() <= usize::MAX,
{
    let positions = crate::graph_edge::linked_rows(edges, 1, id);
    lemma_matching_bound(edges.rows, 1, ValueView::Text(id), edges.rows.len());
    lemma_edges_at(edges.rows, positions, 0, Seq::empty());
}

proof fn lemma_matching_bound(rows: Seq<Seq<ValueView>>, column: int, key: ValueView, count: nat)
    ensures
        crate::index::matching(rows, column, key, count).len() <= count,
    decreases count,
{
    if count > 0 {
        lemma_matching_bound(rows, column, key, (count - 1) as nat);
    }
}

proof fn lemma_edges_at(rows: Seq<Seq<ValueView>>, positions: Seq<usize>, from: nat, done: Seq<EdgeView>)
    requires
        from <= positions.len(),
    ensures
        crate::graph_search::edges_at(rows, positions, from, done) matches Ok(edges) ==> edges.len() == done.len() + positions.len()
            - from,
    decreases positions.len() - from,
{
    if from < positions.len() {
        if let Ok(edge) = crate::graph_edge::edge_in(rows[positions[from as int] as int]) {
            lemma_edges_at(rows, positions, from + 1, done.push(edge));
        }
    }
}

proof fn lemma_seeds(rows: Seq<Seq<ValueView>>, found: Seq<NearChunk>, from: nat, done: Seq<ReachedView>)
    requires
        from <= found.len(),
        done.len() == from,
        forall|i: int|
            0 <= i < from ==> (#[trigger] done[i]).depth == 0 && text_in(rows[found[i].row as int], 0) == Ok::<Seq<char>, ErrorView>(
                done[i].id,
            ),
    ensures
        seeds_from(rows, found, from, done) matches Ok(seeds) ==> seeds.len() == found.len() && forall|i: int|
            0 <= i < seeds.len() ==> (#[trigger] seeds[i]).depth == 0 && text_in(rows[found[i].row as int], 0) == Ok::<
                Seq<char>,
                ErrorView,
            >(seeds[i].id),
    decreases found.len() - from,
{
    if from < found.len() {
        if let Ok(id) = text_in(rows[found[from as int].row as int], 0) {
            lemma_seeds(rows, found, from + 1, done.push(ReachedView { id, depth: 0 }));
        }
    }
}

proof fn lemma_returned(edges: Seq<EdgeView>, limit: nat, from: nat, count: nat, done: Seq<EdgeView>, truncated: bool)
    ensures
        truncated ==> returned_edges(edges, limit, from, count, done, truncated).1,
    decreases edges.len() - from,
{
    if from < edges.len() {
        if crate::graph_search::has_link(done, edges[from as int], 0) {
            lemma_returned(edges, limit, from + 1, count, done, truncated);
        } else if count == limit {
            lemma_returned(edges, limit, from + 1, count, done, true);
        } else {
            lemma_returned(edges, limit, from + 1, count + 1, done.push(edges[from as int]), truncated);
        }
    }
}

proof fn lemma_induced(
    chunks: TableView,
    edges: TableView,
    state: SearchState,
    hits: Seq<HitView>,
    limit: nat,
    from: nat,
    done: Seq<EdgeView>,
    truncated: bool,
)
    ensures
        truncated ==> (induced(chunks, edges, state, hits, limit, from, done, truncated) matches Ok((_, cut)) ==> cut),
    decreases hits.len() - from,
{
    if from < hits.len() {
        if let Ok(linked) = edges_from(edges, hits[from as int].chunk_id) {
            if let Ok(within) = crate::graph_search::within_reached(chunks.rows, state.reached, linked, 0, Seq::empty()) {
                let all = edges_sorted(within, crate::graph_search::induced_order(state.edges, within));
                lemma_returned(all, limit, 0, 0, done, truncated);
                let (next, more) = returned_edges(all, limit, 0, 0, done, truncated);
                lemma_induced(chunks, edges, state, hits, limit, from + 1, next, more);
            }
        }
    }
}

/// Whether a chunk is one of the hits.
pub open spec fn is_among(hits: Seq<HitView>, id: Seq<char>) -> bool {
    exists|i: int| 0 <= i < hits.len() && (#[trigger] hits[i]).chunk_id == id
}

/// Whether a hit is one step on from another hit that is not yet as many steps away as are allowed.
pub open spec fn one_step_on(edges: TableView, hits: Seq<HitView>, hit: HitView, most: nat) -> bool {
    exists|i: int|
        0 <= i < hits.len() && (#[trigger] hits[i]).depth + 1 == hit.depth && hits[i].depth < most && linked_to(
            edges,
            hits[i].chunk_id,
            hit.chunk_id,
        )
}

/// A search finds the chunks nearest to the query, the nearest first, and then chunks that
/// relationships lead to from those found, each one step on. Where nothing was cut, it finds every
/// chunk that a relationship leads to from one that is fewer steps away than allowed.
pub proof fn law_search_finds(
    info: CollectionView,
    revision: u64,
    documents: TableView,
    chunks: TableView,
    edges: TableView,
    request: SearchRequestView,
    floats: Floats,
)
    requires
        chunks.rows.len() <= usize::MAX,
        edges.rows.len() <= usize::MAX,
        request.seed_limit <= request.max_results,
    ensures
        searched(info, revision, documents, chunks, edges, request, floats) matches Ok(result) ==> (nearest(
            chunks.rows,
            request.query,
            request.seed_limit,
            floats,
        ) matches Ok(found) && {
            &&& found.len() <= result.hits.len() <= request.max_results
            &&& forall|i: int|
                0 <= i < found.len() ==> (#[trigger] result.hits[i]).depth == 0 && text_in(chunks.rows[found[i].row as int], 0) == Ok::<
                    Seq<char>,
                    ErrorView,
                >(result.hits[i].chunk_id)
            &&& forall|j: int|
                found.len() <= j < result.hits.len() ==> one_step_on(edges, result.hits, #[trigger] result.hits[j], request.max_hops)
            &&& !result.truncated ==> forall|i: int, id: Seq<char>|
                0 <= i < result.hits.len() && (#[trigger] result.hits[i]).depth < request.max_hops && #[trigger] linked_to(
                    edges,
                    result.hits[i].chunk_id,
                    id,
                ) ==> is_among(result.hits, id)
        }),
{
    if let Ok(result) = searched(info, revision, documents, chunks, edges, request, floats) {
        let found = nearest(chunks.rows, request.query, request.seed_limit, floats)->Ok_0;
        law_nearest_chunks(chunks.rows, request.query, request.seed_limit, floats);
        lemma_seeds(chunks.rows, found, 0, Seq::empty());
        let seeds = seeds_from(chunks.rows, found, 0, Seq::empty())->Ok_0;
        let start = SearchState { reached: seeds, edges: Seq::empty(), truncated: false };
        lemma_expanded(documents, chunks, edges, request, floats, seeds, 0, start, Seq::empty());
        let (state, hits) = expanded(documents, chunks, edges, request, floats, 0, start, Seq::empty())->Ok_0;
        lemma_induced(chunks, edges, state, hits, request.neighbor_limit, 0, Seq::empty(), state.truncated);
        assert(hits == result.hits);
        assert forall|i: int| 0 <= i < found.len() implies (#[trigger] hits[i]).depth == 0 && text_in(
            chunks.rows[found[i].row as int],
            0,
        ) == Ok::<Seq<char>, ErrorView>(hits[i].chunk_id) by {
            assert(state.reached[i] == seeds[i]);
        }
        assert forall|j: int| found.len() <= j < hits.len() implies one_step_on(edges, hits, #[trigger] hits[j], request.max_hops) by {
            assert(found_by(edges, state.reached, state.reached[j], request));
            let i = choose|i: int|
                0 <= i < state.reached.len() && (#[trigger] state.reached[i]).depth + 1 == state.reached[j].depth
                    && state.reached[i].depth < request.max_hops && linked_to(edges, state.reached[i].id, state.reached[j].id);
            assert(hits[i].chunk_id == state.reached[i].id);
        }
        if !result.truncated {
            assert forall|i: int, id: Seq<char>|
                0 <= i < hits.len() && (#[trigger] hits[i]).depth < request.max_hops && #[trigger] linked_to(
                    edges,
                    hits[i].chunk_id,
                    id,
                ) implies is_among(hits, id) by {
                assert(hits[i].chunk_id == state.reached[i].id);
                assert(linked_to(edges, state.reached[i].id, id));
                assert(is_reached(state.reached, id));
                let k = choose|k: int| 0 <= k < state.reached.len() && (#[trigger] state.reached[k]).id == id;
                assert(hits[k].chunk_id == id);
            }
        }
    }
}

/// A hit is of the chunk in its row, at its depth, a seed where that is none, and as similar as its
/// vector is near to the query.
pub proof fn law_hit(chunk: Seq<ValueView>, documents: TableView, query: Seq<u32>, depth: nat, floats: Floats)
    ensures
        hit_of(chunk, documents, query, depth, floats) matches Ok(hit) ==> {
            &&& text_in(chunk, 0) == Ok::<Seq<char>, ErrorView>(hit.chunk_id)
            &&& hit.depth == depth
            &&& hit.seed == (depth == 0)
            &&& crate::graph_near::query_distance(chunk, query, floats) matches Ok(distance) && alike_at(
                distance,
                hit.similarity,
                floats,
            )
        },
{
}

} // verus!
