//! What holds of every search, exploration, page, retrieval and selection.

use vstd::prelude::*;
use crate::arithmetic::ZERO;
use crate::catalog::CatalogView;
use crate::float::Floats;
use crate::graph::{collection_of, text_in, CollectionView};
use crate::graph_browse::{
    browsed, browsed_rows, chosen_edges, chosen_links, link_added, link_place, link_rank, links_from, node_ids,
    page_nodes, permitted, reading_sorted, BrowseRequestView,
};
use crate::graph_edge::{edge_in, linked_rows, row_named, EdgeView};
use crate::graph_links::{weighted_sorted, PolicyView};
use crate::graph_near::{nearest, NearChunk};
use crate::graph_neighborhood::{
    among, bounded_links, first_of, found_at, found_rows, layered, link_at, neighborhood_of, nodes_found, rows_of,
    spread, strongest_place, strongest_rank, BoundedView, Found, NeighborView, NeighborhoodRequestView,
};
use crate::graph_node::{node_of, NodeView};
use crate::graph_rag::{
    assembled, candidate_ids, candidate_of, candidates_from, candidates_order, candidates_sorted, ranking,
    CandidateView, RetrievedView,
};
use crate::graph_search::{
    admitted, edges_from, edges_sorted, expanded, has_reached, hit_of, neighbor_order, same_link, search_result,
    seeds_from, HitView, ReachedView, SearchRequestView, SearchState,
};
use crate::graph_select::{
    edges_between, finalized, law_selection_within_limits, raw_relevance, relative, selected_hit, selected_ids,
    selecting, sound_selection, unselected, Chosen, GraphRagSelection, SelectedView, SelectingView,
};
use crate::graph_traversal::{
    accepted, admission_at, direct_admission, direct_places, expanded_from, expansion_start, filled, hopped,
    largest_score, lifted, merged, path_edges, proposed, seed_frontier, seeds_of, seeds_selected, seeds_spread, top,
    with_context, with_ranked, AdmissionView, EvidenceView, ExpansionView, PathView, TraversalView,
};
use crate::graph_write::{places_of, texts_sorted};
use crate::order::lemma_sorted_within;
use crate::table::TableView;
use crate::text::Rank;
use crate::value::ValueView;

verus! {

/// Whether the chunks reached are within the bounds of a search.
spec fn reached_within(reached: Seq<ReachedView>, request: SearchRequestView) -> bool {
    &&& reached.len() <= request.max_results
    &&& forall|i: int| 0 <= i < reached.len() ==> (#[trigger] reached[i]).depth <= request.max_hops
}

proof fn lemma_admitted(
    chunks: Seq<Seq<ValueView>>,
    neighbors: Seq<EdgeView>,
    request: SearchRequestView,
    depth: nat,
    from: nat,
    count: nat,
    state: SearchState,
)
    requires
        reached_within(state.reached, request),
        depth < request.max_hops,
    ensures
        admitted(chunks, neighbors, request, depth, from, count, state) matches Ok(after) ==> reached_within(
            after.reached,
            request,
        ) && state.reached.len() <= after.reached.len(),
    decreases neighbors.len() - from,
{
    if from < neighbors.len() {
        let neighbor = neighbors[from as int];
        if row_named(chunks, neighbor.to_chunk, 0) is None {
        } else if has_reached(state.reached, neighbor.to_chunk, 0) {
            lemma_admitted(chunks, neighbors, request, depth, from + 1, count, state);
        } else if count == request.neighbor_limit || state.reached.len() == request.max_results {
            lemma_admitted(
                chunks,
                neighbors,
                request,
                depth,
                from + 1,
                count,
                SearchState { truncated: true, ..state },
            );
        } else {
            lemma_admitted(
                chunks,
                neighbors,
                request,
                depth,
                from + 1,
                count + 1,
                SearchState {
                    reached: state.reached.push(ReachedView { id: neighbor.to_chunk, depth: depth + 1 }),
                    edges: state.edges.push(neighbor),
                    truncated: state.truncated,
                },
            );
        }
    }
}

spec fn hits_within(hits: Seq<HitView>, request: SearchRequestView) -> bool {
    forall|i: int|
        0 <= i < hits.len() ==> (#[trigger] hits[i]).depth <= request.max_hops && hits[i].seed == (hits[i].depth == 0)
}

proof fn lemma_expanded(
    documents: TableView,
    chunks: TableView,
    edges: TableView,
    request: SearchRequestView,
    floats: Floats,
    at: nat,
    state: SearchState,
    hits: Seq<HitView>,
)
    requires
        reached_within(state.reached, request),
        at <= request.max_results,
        hits.len() == at,
        hits_within(hits, request),
    ensures
        expanded(documents, chunks, edges, request, floats, at, state, hits) matches Ok((_, found)) ==> found.len()
            <= request.max_results && hits_within(found, request),
    decreases request.max_results - at,
{
    if at < state.reached.len() && at < request.max_results {
        let current = state.reached[at as int];
        if let Some(row) = row_named(chunks.rows, current.id, 0) {
            if let Ok(found) = hit_of(chunks.rows[row as int], documents, request.query, current.depth, floats) {
                if current.depth >= request.max_hops {
                    lemma_expanded(documents, chunks, edges, request, floats, at + 1, state, hits.push(found));
                } else if let Ok(linked) = edges_from(edges, current.id) {
                    let ordered = edges_sorted(linked, neighbor_order(linked));
                    lemma_admitted(chunks.rows, ordered, request, current.depth, 0, 0, state);
                    if let Ok(next) = admitted(chunks.rows, ordered, request, current.depth, 0, 0, state) {
                        lemma_expanded(documents, chunks, edges, request, floats, at + 1, next, hits.push(found));
                    }
                }
            }
        }
    }
}

proof fn lemma_seeds(rows: Seq<Seq<ValueView>>, found: Seq<NearChunk>, from: nat, done: Seq<ReachedView>)
    requires
        from <= found.len(),
        done.len() == from,
        forall|i: int| 0 <= i < done.len() ==> (#[trigger] done[i]).depth == 0,
    ensures
        seeds_from(rows, found, from, done) matches Ok(seeds) ==> seeds.len() == found.len() && forall|i: int|
            0 <= i < seeds.len() ==> (#[trigger] seeds[i]).depth == 0,
    decreases found.len() - from,
{
    if from < found.len() {
        if let Ok(id) = text_in(rows[found[from as int].row as int], 0) {
            lemma_seeds(rows, found, from + 1, done.push(ReachedView { id, depth: 0 }));
        }
    }
}

/// A search returns no more chunks than asked for, each at most so many steps from a seed, and the
/// seeds are those at no step.
pub proof fn law_search_bounded(catalog: CatalogView, request: SearchRequestView, floats: Floats)
    ensures
        search_result(catalog, request, floats) matches Ok(found) ==> found.hits.len() <= request.max_results && forall|i: int|
            0 <= i < found.hits.len() ==> (#[trigger] found.hits[i]).depth <= request.max_hops && found.hits[i].seed == (
            found.hits[i].depth == 0),
{
    if search_result(catalog, request, floats) is Ok {
        let info = collection_of(catalog, request.collection)->Ok_0;
        let places = places_of(catalog, info);
        let documents = catalog.tables[places.documents as int].table;
        let chunks = catalog.tables[places.chunks as int].table;
        let edges = catalog.tables[places.edges as int].table;
        let found = nearest(chunks.rows, request.query, request.seed_limit, floats)->Ok_0;
        lemma_seeds(chunks.rows, found, 0, Seq::empty());
        let seeds = seeds_from(chunks.rows, found, 0, Seq::empty())->Ok_0;
        let start = SearchState { reached: seeds, edges: Seq::empty(), truncated: false };
        lemma_expanded(documents, chunks, edges, request, floats, 0, start, Seq::empty());
    }
}

spec fn found_within(found: Seq<Found>, request: NeighborhoodRequestView, root: usize) -> bool {
    &&& 1 <= found.len() <= request.max_nodes
    &&& found[0] == (Found { row: root, depth: 0 })
    &&& forall|i: int| 0 <= i < found.len() ==> (#[trigger] found[i]).depth <= request.max_hops
}

proof fn lemma_layered(
    chunks: TableView,
    edges: TableView,
    request: NeighborhoodRequestView,
    floats: Floats,
    depth: nat,
    frontier: Seq<usize>,
    found: Seq<Found>,
    truncated: bool,
    root: usize,
)
    requires
        request.bounded(),
        found_within(found, request, root),
    ensures
        layered(chunks, edges, request, floats, depth, frontier, found, truncated) matches Ok((after, _)) ==> found_within(
            after,
            request,
            root,
        ),
    decreases request.max_hops + 1 - depth,
{
    if depth < request.max_hops {
        if let Ok((next, more)) = spread(
            chunks,
            edges,
            request,
            floats,
            found_rows(found),
            frontier,
            0,
            Seq::empty(),
            truncated,
        ) {
            let capacity = (request.max_nodes - found.len()) as nat;
            let rows = rows_of(first_of(weighted_sorted(chunks.rows, next, floats), capacity));
            if rows.len() > 0 {
                let after = found_at(found, rows, depth + 1);
                assert forall|i: int| 0 <= i < after.len() implies (#[trigger] after[i]).depth <= request.max_hops by {
                    if i < found.len() {
                        assert(after[i] == found[i]);
                    }
                }
                assert(after[0] == found[0]);
                lemma_layered(
                    chunks,
                    edges,
                    request,
                    floats,
                    depth + 1,
                    rows,
                    after,
                    more || next.len() > capacity,
                    root,
                );
            }
        }
    }
}

spec fn nodes_match(nodes: Seq<NeighborView>, found: Seq<Found>) -> bool {
    &&& nodes.len() <= found.len()
    &&& forall|i: int| 0 <= i < nodes.len() ==> (#[trigger] nodes[i]).depth == found[i].depth
}

proof fn lemma_nodes(chunks: TableView, documents: TableView, found: Seq<Found>, from: nat, done: Seq<NeighborView>)
    requires
        from <= found.len(),
        done.len() == from,
        nodes_match(done, found),
    ensures
        nodes_found(chunks, documents, found, from, done) matches Ok(nodes) ==> nodes.len() == found.len() && nodes_match(
            nodes,
            found,
        ),
    decreases found.len() - from,
{
    if from < found.len() {
        if let Ok(node) = node_of(chunks.rows[found[from as int].row as int], documents, true) {
            lemma_nodes(
                chunks,
                documents,
                found,
                from + 1,
                done.push(NeighborView { node, depth: found[from as int].depth as nat }),
            );
        }
    }
}

proof fn lemma_bounded_links(
    chunks: TableView,
    edges: TableView,
    request: NeighborhoodRequestView,
    seen: Seq<usize>,
    positions: Seq<usize>,
    from: nat,
    done: BoundedView,
)
    requires
        done.ordered.len() <= done.limit,
    ensures
        bounded_links(chunks, edges, request, seen, positions, from, done) matches Ok(after) ==> after.limit == done.limit
            && after.ordered.len() <= after.limit,
    decreases positions.len() - from,
{
    if from < positions.len() {
        if let Ok(edge) = edge_in(edges.rows[positions[from as int] as int]) {
            if !request.includes(edge) {
                lemma_bounded_links(chunks, edges, request, seen, positions, from + 1, done);
            } else if let Some(target) = row_named(chunks.rows, edge.to_chunk, 0) {
                let next = if seen.contains(target as usize) {
                    done.with_edge(edge)
                } else {
                    done
                };
                lemma_with_edge(done, edge);
                lemma_bounded_links(chunks, edges, request, seen, positions, from + 1, next);
            }
        }
    }
}

proof fn lemma_place(edges: Seq<EdgeView>, edge: EdgeView, from: nat)
    requires
        from <= edges.len(),
    ensures
        from <= strongest_place(edges, edge, from) <= edges.len(),
    decreases edges.len() - from,
{
    if from < edges.len() && strongest_rank(edges[from as int], edge) == Rank::Before {
        lemma_place(edges, edge, from + 1);
    }
}

proof fn lemma_link_at(edges: Seq<EdgeView>, edge: EdgeView, from: nat)
    ensures
        link_at(edges, edge, from) matches Some(at) ==> from <= at < edges.len(),
    decreases edges.len() - from,
{
    if from < edges.len() && !same_link(edges[from as int], edge) {
        lemma_link_at(edges, edge, from + 1);
    }
}

proof fn lemma_with_edge(done: BoundedView, edge: EdgeView)
    requires
        done.ordered.len() <= done.limit,
    ensures
        done.with_edge(edge).limit == done.limit,
        done.with_edge(edge).ordered.len() <= done.limit,
{
    lemma_link_at(done.ordered, edge, 0);
    lemma_place(done.ordered, edge, 0);
    if let Some(at) = link_at(done.ordered, edge, 0) {
        lemma_place(done.ordered.remove(at as int), edge, 0);
    }
}

proof fn lemma_among(chunks: TableView, edges: TableView, request: NeighborhoodRequestView, seen: Seq<usize>, from: nat, done: BoundedView)
    requires
        done.ordered.len() <= done.limit,
    ensures
        among(chunks, edges, request, seen, from, done) matches Ok(after) ==> after.limit == done.limit && after.ordered.len()
            <= after.limit,
    decreases seen.len() - from,
{
    if from < seen.len() {
        if let Ok(id) = text_in(chunks.rows[seen[from as int] as int], 0) {
            let positions = linked_rows(edges, 1, id);
            lemma_bounded_links(chunks, edges, request, seen, positions, 0, done);
            if let Ok(next) = bounded_links(chunks, edges, request, seen, positions, 0, done) {
                lemma_among(chunks, edges, request, seen, from + 1, next);
            }
        }
    }
}

/// Exploring returns the root first, at no step, and no more chunks and relationships than asked
/// for, each chunk at most so many steps away.
pub proof fn law_neighborhood_bounded(catalog: CatalogView, request: NeighborhoodRequestView, floats: Floats)
    ensures
        neighborhood_of(catalog, request, floats) matches Ok(found) ==> 1 <= found.nodes.len() <= request.max_nodes
            && found.nodes[0].depth == 0 && found.edges.len() <= request.max_edges && forall|i: int|
            0 <= i < found.nodes.len() ==> (#[trigger] found.nodes[i]).depth <= request.max_hops,
{
    if neighborhood_of(catalog, request, floats) is Ok {
        let info = collection_of(catalog, request.collection)->Ok_0;
        let places = places_of(catalog, info);
        let documents = catalog.tables[places.documents as int].table;
        let chunks = catalog.tables[places.chunks as int].table;
        let edges = catalog.tables[places.edges as int].table;
        let root = row_named(chunks.rows, request.chunk_id, 0)->Some_0 as usize;
        let start = seq![Found { row: root, depth: 0 }];
        lemma_layered(chunks, edges, request, floats, 0, seq![root], start, false, root);
        let (found, truncated) = layered(chunks, edges, request, floats, 0, seq![root], start, false)->Ok_0;
        lemma_nodes(chunks, documents, found, 0, Seq::empty());
        let none = BoundedView { limit: request.max_edges, ordered: Seq::empty(), truncated: false };
        lemma_among(chunks, edges, request, found_rows(found), 0, none);
    }
}

proof fn lemma_link_place(edges: Seq<EdgeView>, edge: EdgeView, from: nat)
    requires
        from <= edges.len(),
    ensures
        from <= link_place(edges, edge, from) <= edges.len(),
    decreases edges.len() - from,
{
    if from < edges.len() && link_rank(edges[from as int], edge) == Rank::Before {
        lemma_link_place(edges, edge, from + 1);
    }
}

/// Whether every relationship leads to one of the chosen chunks.
pub open spec fn edges_within(edges: Seq<EdgeView>, ids: Seq<Seq<char>>) -> bool {
    forall|i: int| 0 <= i < edges.len() ==> ids.contains((#[trigger] edges[i]).to_chunk)
}

proof fn lemma_link_added(edges: Seq<EdgeView>, edge: EdgeView, ids: Seq<Seq<char>>)
    requires
        edges_within(edges, ids),
        ids.contains(edge.to_chunk),
    ensures
        edges_within(link_added(edges, edge), ids),
        link_added(edges, edge).len() <= edges.len() + 1,
{
    lemma_link_at(edges, edge, 0);
    lemma_link_place(edges, edge, 0);
    let place = link_place(edges, edge, 0);
    let after = link_added(edges, edge);
    assert forall|i: int| 0 <= i < after.len() implies ids.contains((#[trigger] after[i]).to_chunk) by {
        if let Some(at) = link_at(edges, edge, 0) {
            assert(ids.contains(edges[i].to_chunk));
        } else if i < place {
            assert(after[i] == edges[i]);
        } else if i > place {
            assert(after[i] == edges[i - 1]);
        }
    }
}

proof fn lemma_chosen_links(
    chunks: TableView,
    edges: TableView,
    ids: Seq<Seq<char>>,
    limit: nat,
    policy: Option<PolicyView>,
    positions: Seq<usize>,
    from: nat,
    done: Seq<EdgeView>,
    truncated: bool,
)
    requires
        done.len() <= limit,
        edges_within(done, ids),
    ensures
        chosen_links(chunks, edges, ids, limit, policy, positions, from, done, truncated) matches Ok((after, _)) ==> after.len()
            <= limit && edges_within(after, ids),
    decreases positions.len() - from,
{
    if from < positions.len() {
        if let Ok(edge) = edge_in(edges.rows[positions[from as int] as int]) {
            if !permitted(policy, edge) {
                lemma_chosen_links(chunks, edges, ids, limit, policy, positions, from + 1, done, truncated);
            } else if row_named(chunks.rows, edge.to_chunk, 0) is None {
            } else if !ids.contains(edge.to_chunk) {
                lemma_chosen_links(chunks, edges, ids, limit, policy, positions, from + 1, done, truncated);
            } else {
                lemma_link_added(done, edge, ids);
                let grown = link_added(done, edge);
                if grown.len() > limit {
                    assert(edges_within(grown.drop_last(), ids)) by {
                        assert forall|i: int| 0 <= i < grown.drop_last().len() implies ids.contains(
                            (#[trigger] grown.drop_last()[i]).to_chunk,
                        ) by {
                            assert(grown.drop_last()[i] == grown[i]);
                        }
                    }
                    lemma_chosen_links(chunks, edges, ids, limit, policy, positions, from + 1, grown.drop_last(), true);
                } else {
                    lemma_chosen_links(chunks, edges, ids, limit, policy, positions, from + 1, grown, truncated);
                }
            }
        }
    }
}

proof fn lemma_links_from(
    chunks: TableView,
    edges: TableView,
    ids: Seq<Seq<char>>,
    limit: nat,
    policy: Option<PolicyView>,
    sources: Seq<Seq<char>>,
    from: nat,
    done: Seq<EdgeView>,
    truncated: bool,
)
    requires
        done.len() <= limit,
        edges_within(done, ids),
    ensures
        links_from(chunks, edges, ids, limit, policy, sources, from, done, truncated) matches Ok((after, _)) ==> after.len()
            <= limit && edges_within(after, ids),
    decreases sources.len() - from,
{
    if from < sources.len() {
        let positions = linked_rows(edges, 1, sources[from as int]);
        lemma_chosen_links(chunks, edges, ids, limit, policy, positions, 0, done, truncated);
        if let Ok((next, more)) = chosen_links(chunks, edges, ids, limit, policy, positions, 0, done, truncated) {
            lemma_links_from(chunks, edges, ids, limit, policy, sources, from + 1, next, more);
        }
    }
}

/// The relationships among chosen chunks are no more than asked for, and lead to chosen chunks.
pub proof fn law_chosen_edges_bounded(
    chunks: TableView,
    edges: TableView,
    ids: Seq<Seq<char>>,
    limit: nat,
    policy: Option<PolicyView>,
)
    ensures
        chosen_edges(chunks, edges, ids, limit, policy) matches Ok((found, _)) ==> found.len() <= limit && edges_within(
            found,
            ids,
        ),
{
    lemma_links_from(chunks, edges, ids, limit, policy, texts_sorted(ids), 0, Seq::empty(), false);
}

proof fn lemma_page(chunks: TableView, documents: TableView, rows: Seq<usize>, from: nat, end: nat, done: Seq<NodeView>)
    requires
        from <= end,
    ensures
        page_nodes(chunks, documents, rows, from, end, done) matches Ok(nodes) ==> nodes.len() <= done.len() + (end - from),
    decreases end - from,
{
    if from < end && from < rows.len() {
        if let Ok(node) = node_of(chunks.rows[rows[from as int] as int], documents, false) {
            lemma_page(chunks, documents, rows, from + 1, end, done.push(node));
        }
    }
}

/// A page holds no more chunks and relationships than asked for.
pub proof fn law_page_bounded(catalog: CatalogView, request: BrowseRequestView, floats: Floats)
    ensures
        browsed(catalog, request, floats) matches Ok(page) ==> page.nodes.len() <= request.limit && page.edges.len()
            <= request.max_edges && edges_within(page.edges, node_ids(page.nodes)),
{
    if browsed(catalog, request, floats) is Ok {
        let info = collection_of(catalog, request.collection)->Ok_0;
        let places = places_of(catalog, info);
        let documents = catalog.tables[places.documents as int].table;
        let chunks = catalog.tables[places.chunks as int].table;
        let edges = catalog.tables[places.edges as int].table;
        let rows = reading_sorted(
            chunks.rows,
            browsed_rows(chunks.rows, request.document_id, 0, Seq::empty()),
            floats,
        );
        let end = request.offset + request.limit;
        lemma_page(chunks, documents, rows, request.offset, end, Seq::empty());
        let nodes = page_nodes(chunks, documents, rows, request.offset, end, Seq::empty())->Ok_0;
        law_chosen_edges_bounded(chunks, edges, node_ids(nodes), request.max_edges, None);
    }
}

proof fn lemma_filled(ranked: Seq<usize>, limit: nat, from: nat, done: Seq<usize>)
    requires
        done.len() <= limit,
    ensures
        filled(ranked, limit, from, done).len() <= limit,
    decreases ranked.len() - from,
{
    if from < ranked.len() && done.len() < limit {
        if done.contains(ranked[from as int]) {
            lemma_filled(ranked, limit, from + 1, done);
        } else {
            lemma_filled(ranked, limit, from + 1, done.push(ranked[from as int]));
        }
    }
}

proof fn lemma_seeds_spread(t: TraversalView, ranked: Seq<usize>, most: nat, from: nat, done: Seq<usize>)
    requires
        done.len() < t.request.seed_limit,
    ensures
        seeds_spread(t, ranked, most, from, done) matches Ok(seeds) ==> seeds.len() <= t.request.seed_limit,
    decreases ranked.len() - from,
{
    if from < ranked.len() {
        if let Ok(document) = text_in(t.chunks.rows[ranked[from as int] as int], 1) {
            if seeds_of(t, done, document, done.len()) >= most {
                lemma_seeds_spread(t, ranked, most, from + 1, done);
            } else if done.len() + 1 < t.request.seed_limit {
                lemma_seeds_spread(t, ranked, most, from + 1, done.push(ranked[from as int]));
            }
        }
    }
}

proof fn lemma_admission_at(list: Seq<AdmissionView>, row: usize, from: nat)
    ensures
        admission_at(list, row, from) matches Some(at) ==> from <= at < list.len(),
    decreases list.len() - from,
{
    if from < list.len() && list[from as int].row != row {
        lemma_admission_at(list, row, from + 1);
    }
}

proof fn lemma_accepted(t: TraversalView, floats: Floats, next: Seq<EvidenceView>, from: nat, state: ExpansionView)
    ensures
        accepted(t, floats, next, from, state).admitted.len() == state.admitted.len(),
    decreases next.len() - from,
{
    if from < next.len() {
        let item = next[from as int];
        let best = state.best.update(item.row as int, item.strength);
        lemma_admission_at(state.admitted, item.row, 0);
        match admission_at(state.admitted, item.row, 0) {
            Some(at) => lemma_accepted(
                t,
                floats,
                next,
                from + 1,
                ExpansionView {
                    admitted: state.admitted.update(
                        at as int,
                        lifted(state.admitted[at as int], item.score.fusion),
                    ),
                    best,
                    ..state
                },
            ),
            None => lemma_accepted(
                t,
                floats,
                next,
                from + 1,
                ExpansionView { context: merged(t, floats, state.context, item), best, ..state },
            ),
        }
    }
}

proof fn lemma_hopped(t: TraversalView, floats: Floats, largest: u64, hops: nat, frontier: Seq<EvidenceView>, state: ExpansionView)
    ensures
        hopped(t, floats, largest, hops, frontier, state) matches Ok(after) ==> after.admitted.len() == state.admitted.len(),
    decreases hops,
{
    if hops > 0 {
        if let Ok((proposals, more)) = proposed(
            t,
            floats,
            largest,
            state.best,
            frontier,
            0,
            Seq::empty(),
            state.truncated,
        ) {
            let next = top(t.chunks.rows, proposals, t.request.candidate_limit, floats);
            let before = ExpansionView { truncated: more || proposals.len() > t.request.candidate_limit, ..state };
            lemma_accepted(t, floats, next, 0, before);
            let after = accepted(t, floats, next, 0, before);
            if next.len() > 0 {
                lemma_hopped(t, floats, largest, (hops - 1) as nat, next, after);
            }
        }
    }
}

proof fn lemma_with_context(t: TraversalView, context: Seq<EvidenceView>, from: nat, admitted: Seq<AdmissionView>)
    requires
        from <= context.len(),
    ensures
        with_context(t, context, from, admitted) matches Ok(after) ==> after.len() == admitted.len() + context.len() - from,
    decreases context.len() - from,
{
    if from < context.len() {
        let item = context[from as int];
        if let Ok(seed_chunk_id) = text_in(t.chunks.rows[item.seed as int], 0) {
            if let Ok(edges) = path_edges(t, item.trace, 0, Seq::empty()) {
                lemma_with_context(
                    t,
                    context,
                    from + 1,
                    admitted.push(
                        AdmissionView {
                            row: item.row,
                            depth: item.trace.len(),
                            score: item.score,
                            retrieval_path: Some(PathView { seed_chunk_id, edges }),
                        },
                    ),
                );
            }
        }
    }
}

proof fn lemma_with_ranked(t: TraversalView, ranked: Seq<usize>, from: nat, admitted: Seq<AdmissionView>, truncated: bool)
    requires
        admitted.len() <= t.request.candidate_limit,
    ensures
        with_ranked(t, ranked, from, admitted, truncated).0.len() <= t.request.candidate_limit,
    decreases ranked.len() - from,
{
    if from < ranked.len() {
        if admission_at(admitted, ranked[from as int], 0) is Some {
            lemma_with_ranked(t, ranked, from + 1, admitted, truncated);
        } else if admitted.len() < t.request.candidate_limit {
            lemma_with_ranked(
                t,
                ranked,
                from + 1,
                admitted.push(direct_admission(t, ranked[from as int])),
                truncated,
            );
        }
    }
}

/// An expansion gives no more candidates than asked for.
pub proof fn law_expansion_bounded(t: TraversalView, floats: Floats, ranked: Seq<usize>)
    requires
        1 <= t.request.seed_limit <= t.request.candidate_limit,
    ensures
        expanded_from(t, floats, ranked) matches Ok((admitted, _)) ==> admitted.len() <= t.request.candidate_limit,
{
    if let Ok(seeds) = seeds_selected(t, ranked) {
        if let Some(most) = t.max_seeds_per_document {
            if t.request.max_hops > 0 {
                lemma_seeds_spread(t, ranked, most, 0, Seq::empty());
            }
        }
        assert(seeds.len() <= t.request.seed_limit);
        let places = direct_places(t.request, seeds.len());
        assert(seeds.len() <= places <= t.request.candidate_limit);
        lemma_filled(ranked, places, 0, seeds);
        let start = expansion_start(t, seeds, ranked);
        let largest = largest_score(t.lexical_scores, 0, ZERO);
        lemma_hopped(t, floats, largest, t.request.max_hops, seed_frontier(t, seeds), start);
        if let Ok(state) = hopped(t, floats, largest, t.request.max_hops, seed_frontier(t, seeds), start) {
            let remaining = (t.request.candidate_limit - state.admitted.len()) as nat;
            let kept = top(t.chunks.rows, state.context, remaining, floats);
            lemma_with_context(t, kept, 0, state.admitted);
            if let Ok(admitted) = with_context(t, kept, 0, state.admitted) {
                lemma_with_ranked(t, ranked, 0, admitted, state.truncated || state.context.len() > remaining);
            }
        }
    }
}

proof fn lemma_candidates(
    chunks: TableView,
    documents: TableView,
    query: Seq<u32>,
    admitted: Seq<AdmissionView>,
    floats: Floats,
    from: nat,
    done: Seq<CandidateView>,
)
    requires
        from <= admitted.len(),
        done.len() == from,
    ensures
        candidates_from(chunks, documents, query, admitted, floats, from, done) matches Ok(found) ==> found.len()
            == admitted.len(),
    decreases admitted.len() - from,
{
    if from < admitted.len() {
        if let Ok(candidate) = candidate_of(chunks, documents, query, admitted[from as int], floats) {
            lemma_candidates(chunks, documents, query, admitted, floats, from + 1, done.push(candidate));
        }
    }
}

/// Whether both ends of every relationship are among the chosen chunks.
pub open spec fn between_chosen(edges: Seq<EdgeView>, ids: Seq<Seq<char>>) -> bool {
    forall|i: int| 0 <= i < edges.len() ==> ids.contains((#[trigger] edges[i]).from_chunk) && ids.contains(edges[i].to_chunk)
}

proof fn lemma_between(edges: Seq<EdgeView>, ids: Seq<Seq<char>>, from: nat, done: Seq<EdgeView>)
    requires
        between_chosen(done, ids),
    ensures
        between_chosen(edges_between(edges, ids, from, done), ids),
    decreases edges.len() - from,
{
    if from < edges.len() {
        if ids.contains(edges[from as int].from_chunk) && ids.contains(edges[from as int].to_chunk) {
            lemma_between(edges, ids, from + 1, done.push(edges[from as int]));
        } else {
            lemma_between(edges, ids, from + 1, done);
        }
    }
}

/// A selection holds no more chunks than asked for, whole and within the budget of context, and its
/// relationships are between them.
pub proof fn law_selection_bounded(
    retrieved: RetrievedView,
    options: GraphRagSelection,
    reranked: Option<Seq<u64>>,
    floats: Floats,
)
    ensures
        finalized(retrieved, options, reranked, floats) matches Ok(result) ==> result.hits.len() <= options.limit
            && result.context_bytes <= options.max_context_bytes && between_chosen(
            result.edges,
            result.hits.map_values(|hit: SelectedView| hit.hit.chunk_id),
        ),
{
    if finalized(retrieved, options, reranked, floats) is Ok {
        let s = SelectingView {
            candidates: retrieved.candidates,
            relevance: relative(raw_relevance(retrieved.candidates, reranked), floats),
            options,
        };
        let start = unselected(retrieved.candidates.len(), retrieved.truncated);
        assert(sound_selection(s, start));
        law_selection_within_limits(s, floats, start);
        let state = selecting(s, floats, start)->Ok_0;
        let ids = selected_ids(s, state.selected);
        lemma_between(retrieved.edges, ids, 0, Seq::empty());
        let hits = state.selected.map_values(|chosen: Chosen| selected_hit(s, reranked, chosen));
        assert(hits.map_values(|hit: SelectedView| hit.hit.chunk_id) =~= ids);
    }
}

/// A retrieval gives no more candidates than asked for, and no more relationships than so many for
/// each of them.
pub proof fn law_retrieval_bounded(
    info: CollectionView,
    revision: u64,
    documents: TableView,
    t: TraversalView,
    hit: bool,
    floats: Floats,
)
    requires
        1 <= t.request.seed_limit <= t.request.candidate_limit <= 100,
    ensures
        assembled(info, revision, documents, t, hit, floats) matches Ok(found) ==> found.candidates.len()
            <= t.request.candidate_limit && found.edges.len() <= t.request.candidate_limit * t.request.neighbor_limit,
{
    let ranked = ranking(t.chunks.rows, t.scores, floats);
    law_expansion_bounded(t, floats, ranked);
    if let Ok((admitted, truncated)) = expanded_from(t, floats, ranked) {
        lemma_candidates(t.chunks, documents, t.request.query, admitted, floats, 0, Seq::empty());
        if let Ok(found) = candidates_from(t.chunks, documents, t.request.query, admitted, floats, 0, Seq::empty()) {
            lemma_sorted_within(found.len() as usize, candidates_order(found));
            let candidates = candidates_sorted(found);
            law_chosen_edges_bounded(
                t.chunks,
                t.edges,
                candidate_ids(candidates),
                t.request.candidate_limit * t.request.neighbor_limit,
                Some(t.policy),
            );
        }
    }
}

} // verus!
