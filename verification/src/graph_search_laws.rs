//! In which order a search returns chunks, and what they cite.

use vstd::prelude::*;
use crate::catalog::CatalogView;
use crate::error::ErrorView;
use crate::float::Floats;
use crate::graph::{collection_of, text_in};
use crate::graph_edge::{row_named, EdgeView};
use crate::graph_near::{nearest, NearChunk};
use crate::graph_search::{
    admitted, edges_from, edges_sorted, expanded, has_reached, hit_of, neighbor_order, search_result, seeds_from,
    HitView, ReachedView, SearchRequestView, SearchState,
};
use crate::graph_write::places_of;
use crate::slice::byte_slice;
use crate::table::TableView;
use crate::value::ValueView;

verus! {

/// Whether chunks are reached in the order of their depth, none more than `bound` deep.
spec fn by_depth(reached: Seq<ReachedView>, bound: nat) -> bool {
    &&& forall|i: int, j: int|
        0 <= i < j < reached.len() ==> (#[trigger] reached[i]).depth <= (#[trigger] reached[j]).depth
    &&& forall|i: int| 0 <= i < reached.len() ==> (#[trigger] reached[i]).depth <= bound
}

proof fn lemma_admitted_by_depth(
    chunks: Seq<Seq<ValueView>>,
    neighbors: Seq<EdgeView>,
    request: SearchRequestView,
    depth: nat,
    from: nat,
    count: nat,
    state: SearchState,
)
    requires
        by_depth(state.reached, depth + 1),
    ensures
        admitted(chunks, neighbors, request, depth, from, count, state) matches Ok(after) ==> by_depth(after.reached, depth + 1)
            && state.reached.len() <= after.reached.len() && after.reached.take(state.reached.len() as int) == state.reached,
    decreases neighbors.len() - from,
{
    if from < neighbors.len() {
        let neighbor = neighbors[from as int];
        if row_named(chunks, neighbor.to_chunk, 0) is None {
        } else if has_reached(state.reached, neighbor.to_chunk, 0) {
            lemma_admitted_by_depth(chunks, neighbors, request, depth, from + 1, count, state);
        } else if count == request.neighbor_limit || state.reached.len() == request.max_results {
            lemma_admitted_by_depth(
                chunks,
                neighbors,
                request,
                depth,
                from + 1,
                count,
                SearchState { truncated: true, ..state },
            );
        } else {
            let next = SearchState {
                reached: state.reached.push(ReachedView { id: neighbor.to_chunk, depth: depth + 1 }),
                edges: state.edges.push(neighbor),
                truncated: state.truncated,
            };
            lemma_admitted_by_depth(chunks, neighbors, request, depth, from + 1, count + 1, next);
            if let Ok(after) = admitted(chunks, neighbors, request, depth, from + 1, count + 1, next) {
                let earlier = state.reached.len() as int;
                assert(after.reached.take(earlier) =~= after.reached.take(next.reached.len() as int).take(earlier));
                assert(next.reached.take(earlier) =~= state.reached);
            }
        }
    } else {
        assert(state.reached.take(state.reached.len() as int) =~= state.reached);
    }
}

/// Whether the hits are those of the first chunks reached.
spec fn hits_follow(hits: Seq<HitView>, reached: Seq<ReachedView>) -> bool {
    &&& hits.len() <= reached.len()
    &&& forall|i: int| 0 <= i < hits.len() ==> (#[trigger] hits[i]).depth == reached[i].depth
}

/// Whether a hit cites a document of the table: its text is what stands in the text of the document
/// between the bytes that it names.
pub open spec fn cites_exactly(documents: TableView, hit: HitView) -> bool {
    exists|at: int|
        0 <= at < documents.rows.len() && text_in(#[trigger] documents.rows[at], 0) == Ok::<Seq<char>, ErrorView>(
            hit.document_id,
        ) && (text_in(documents.rows[at], 3) matches Ok(text) && byte_slice(text, hit.start_byte, hit.end_byte) == Some(
            hit.text,
        ))
}

proof fn lemma_row_found(rows: Seq<Seq<ValueView>>, id: Seq<char>, from: nat)
    ensures
        row_named(rows, id, from) matches Some(at) ==> from <= at < rows.len() && text_in(rows[at as int], 0) == Ok::<
            Seq<char>,
            ErrorView,
        >(id),
    decreases rows.len() - from,
{
    if from < rows.len() && text_in(rows[from as int], 0) != Ok::<Seq<char>, ErrorView>(id) {
        lemma_row_found(rows, id, from + 1);
    }
}

proof fn lemma_hit_cites(chunk: Seq<ValueView>, documents: TableView, query: Seq<u32>, depth: nat, floats: Floats)
    ensures
        hit_of(chunk, documents, query, depth, floats) matches Ok(hit) ==> hit.depth == depth && cites_exactly(documents, hit),
{
    if let Ok(hit) = hit_of(chunk, documents, query, depth, floats) {
        lemma_row_found(documents.rows, hit.document_id, 0);
        let at = row_named(documents.rows, hit.document_id, 0)->0 as int;
        assert(text_in(documents.rows[at], 0) == Ok::<Seq<char>, ErrorView>(hit.document_id));
    }
}

proof fn lemma_expanded_by_depth(
    documents: TableView,
    chunks: TableView,
    edges: TableView,
    request: SearchRequestView,
    floats: Floats,
    at: nat,
    state: SearchState,
    hits: Seq<HitView>,
)
    requires
        hits.len() == at,
        hits_follow(hits, state.reached),
        at < state.reached.len() ==> by_depth(state.reached, state.reached[at as int].depth + 1),
        at >= state.reached.len() ==> exists|bound: nat| by_depth(state.reached, bound),
        forall|i: int| 0 <= i < hits.len() ==> cites_exactly(documents, #[trigger] hits[i]),
    ensures
        expanded(documents, chunks, edges, request, floats, at, state, hits) matches Ok((_, found)) ==> {
            &&& forall|i: int, j: int|
                0 <= i < j < found.len() ==> (#[trigger] found[i]).depth <= (#[trigger] found[j]).depth
            &&& forall|i: int| 0 <= i < found.len() ==> cites_exactly(documents, #[trigger] found[i])
        },
    decreases request.max_results - at,
{
    if at < state.reached.len() && at < request.max_results {
        let current = state.reached[at as int];
        if let Some(row) = row_named(chunks.rows, current.id, 0) {
            lemma_hit_cites(chunks.rows[row as int], documents, request.query, current.depth, floats);
            if let Ok(found) = hit_of(chunks.rows[row as int], documents, request.query, current.depth, floats) {
                let longer = hits.push(found);
                if current.depth >= request.max_hops {
                    lemma_next(state.reached, at);
                    lemma_expanded_by_depth(documents, chunks, edges, request, floats, at + 1, state, longer);
                } else if let Ok(linked) = edges_from(edges, current.id) {
                    let ordered = edges_sorted(linked, neighbor_order(linked));
                    lemma_admitted_by_depth(chunks.rows, ordered, request, current.depth, 0, 0, state);
                    if let Ok(next) = admitted(chunks.rows, ordered, request, current.depth, 0, 0, state) {
                        assert forall|i: int| 0 <= i < state.reached.len() implies next.reached[i] == state.reached[i] by {
                            assert(next.reached.take(state.reached.len() as int)[i] == state.reached[i]);
                        }
                        assert(next.reached[at as int] == current);
                        lemma_next(next.reached, at);
                        lemma_expanded_by_depth(documents, chunks, edges, request, floats, at + 1, next, longer);
                    }
                }
            }
        }
    }
}

/// The bound of a chunk holds for the next one.
proof fn lemma_next(reached: Seq<ReachedView>, at: nat)
    requires
        at < reached.len(),
        by_depth(reached, reached[at as int].depth + 1),
    ensures
        at + 1 < reached.len() ==> by_depth(reached, reached[at as int + 1].depth + 1),
{
    if at + 1 < reached.len() {
        assert(reached[at as int].depth <= reached[at as int + 1].depth);
    }
}

proof fn lemma_seeds_at_no_step(rows: Seq<Seq<ValueView>>, found: Seq<NearChunk>, from: nat, done: Seq<ReachedView>)
    requires
        forall|i: int| 0 <= i < done.len() ==> (#[trigger] done[i]).depth == 0,
    ensures
        seeds_from(rows, found, from, done) matches Ok(seeds) ==> forall|i: int|
            0 <= i < seeds.len() ==> (#[trigger] seeds[i]).depth == 0,
    decreases found.len() - from,
{
    if from < found.len() {
        if let Ok(id) = text_in(rows[found[from as int].row as int], 0) {
            lemma_seeds_at_no_step(rows, found, from + 1, done.push(ReachedView { id, depth: 0 }));
        }
    }
}

/// A search returns the seeds first and then the chunks around them, those at fewer steps before those
/// at more, and each with the exact part of the source text that it cites.
pub proof fn law_seeds_come_first(catalog: CatalogView, request: SearchRequestView, floats: Floats)
    ensures
        search_result(catalog, request, floats) matches Ok(found) ==> {
            let places = places_of(catalog, collection_of(catalog, request.collection)->Ok_0);
            let documents = catalog.tables[places.documents as int].table;
            &&& forall|i: int, j: int|
                0 <= i < j < found.hits.len() ==> (#[trigger] found.hits[i]).depth <= (#[trigger] found.hits[j]).depth
            &&& forall|i: int| 0 <= i < found.hits.len() ==> cites_exactly(documents, #[trigger] found.hits[i])
        },
{
    if search_result(catalog, request, floats) is Ok {
        let info = collection_of(catalog, request.collection)->Ok_0;
        let places = places_of(catalog, info);
        let documents = catalog.tables[places.documents as int].table;
        let chunks = catalog.tables[places.chunks as int].table;
        let edges = catalog.tables[places.edges as int].table;
        let found = nearest(chunks.rows, request.query, request.seed_limit, floats)->Ok_0;
        lemma_seeds_at_no_step(chunks.rows, found, 0, Seq::empty());
        let seeds = seeds_from(chunks.rows, found, 0, Seq::empty())->Ok_0;
        let start = SearchState { reached: seeds, edges: Seq::empty(), truncated: false };
        assert(by_depth(seeds, 0) && by_depth(seeds, 1));
        lemma_expanded_by_depth(documents, chunks, edges, request, floats, 0, start, Seq::empty());
    }
}

} // verus!
