//! Searching a collection: the nearest chunks, and a bounded neighborhood around them.

use vstd::prelude::*;
use crate::catalog::{Catalog, CatalogView};
use crate::error::{outcome, Error, ErrorView};
use crate::float::{computes, floats, rank_total, total_key, FloatReply, FloatTask, Floats};
use crate::graph::{
    check_profile, collection_of, count_in, invalid, misuse, profile_checked, text_at, text_in, usize_at, CollectionView,
    GraphEmbeddingProfile, ProfileView, DOCUMENT_BASE_COLUMNS,
};
use crate::graph_document::{document_metadata, metadata_of, Metadata, MetadataView};
use crate::graph_edge::{edge_in, find_row, linked_rows, read_edge, row_named, rows_linked, EdgeView, GraphEdge};
use crate::graph_near::{measure_query, nearest, nearest_chunks, query_distance, similarity, similarity_of, NearChunk};
use crate::graph_store::open_collection;
use crate::graph_write::places_of;
use crate::order::{sort_positions, sorted, Precedes};
use crate::scan::find_index_on;
use crate::slice::{byte_slice, is_slice};
use crate::table::{Table, TableView};
use crate::text::{
    int_rank, lemma_views_push, next_rank, rank_text, same_text, text_rank, views, Rank,
};
use crate::value::{bool_rank, rank_bools, row_views, Value, ValueView};
use crate::vector::{zero_vector, Vector};

verus! {

broadcast use {vstd::string::group_string_axioms, lemma_views_push};

/// A search around a vector.
#[derive(Debug)]
pub struct GraphSearchRequest {
    pub collection: String,
    pub expected_profile: GraphEmbeddingProfile,
    pub query: Vector,
    pub seed_limit: usize,
    pub max_hops: usize,
    pub neighbor_limit: usize,
    pub max_results: usize,
}

pub struct SearchRequestView {
    pub collection: Seq<char>,
    pub expected_profile: ProfileView,
    pub query: Seq<u32>,
    pub seed_limit: nat,
    pub max_hops: nat,
    pub neighbor_limit: nat,
    pub max_results: nat,
}

impl View for GraphSearchRequest {
    type V = SearchRequestView;

    open spec fn view(&self) -> SearchRequestView {
        SearchRequestView {
            collection: self.collection@,
            expected_profile: self.expected_profile@,
            query: self.query@,
            seed_limit: self.seed_limit as nat,
            max_hops: self.max_hops as nat,
            neighbor_limit: self.neighbor_limit as nat,
            max_results: self.max_results as nat,
        }
    }
}

/// A chunk that was found, with its citation. The similarity is a number as a bit pattern.
pub struct GraphHit {
    pub chunk_id: String,
    pub document_id: String,
    pub title: String,
    pub source: String,
    pub text: String,
    pub metadata: Metadata,
    pub start_byte: usize,
    pub end_byte: usize,
    pub similarity: u64,
    pub depth: usize,
    pub seed: bool,
}

pub struct HitView {
    pub chunk_id: Seq<char>,
    pub document_id: Seq<char>,
    pub title: Seq<char>,
    pub source: Seq<char>,
    pub text: Seq<char>,
    pub metadata: MetadataView,
    pub start_byte: nat,
    pub end_byte: nat,
    pub similarity: u64,
    pub depth: nat,
    pub seed: bool,
}

impl View for GraphHit {
    type V = HitView;

    open spec fn view(&self) -> HitView {
        HitView {
            chunk_id: self.chunk_id@,
            document_id: self.document_id@,
            title: self.title@,
            source: self.source@,
            text: self.text@,
            metadata: self.metadata@,
            start_byte: self.start_byte as nat,
            end_byte: self.end_byte as nat,
            similarity: self.similarity,
            depth: self.depth as nat,
            seed: self.seed,
        }
    }
}

/// What a search found.
pub struct GraphSearchResult {
    pub collection: String,
    pub revision: u64,
    pub hits: Vec<GraphHit>,
    pub edges: Vec<GraphEdge>,
    pub truncated: bool,
}

pub struct SearchView {
    pub collection: Seq<char>,
    pub revision: u64,
    pub hits: Seq<HitView>,
    pub edges: Seq<EdgeView>,
    pub truncated: bool,
}

impl View for GraphSearchResult {
    type V = SearchView;

    open spec fn view(&self) -> SearchView {
        SearchView {
            collection: self.collection@,
            revision: self.revision,
            hits: views(self.hits@),
            edges: views(self.edges@),
            truncated: self.truncated,
        }
    }
}

pub open spec fn missing_chunk() -> ErrorView {
    misuse("graph edge references a missing chunk"@)
}

/// A chunk with the document that it cites.
pub struct CitationView {
    pub document_id: Seq<char>,
    pub document: Seq<ValueView>,
    pub start: nat,
    pub end: nat,
    pub text: Seq<char>,
}

/// What a chunk cites: the part of its document between two bytes.
pub open spec fn citation(chunk: Seq<ValueView>, documents: TableView) -> Result<CitationView, ErrorView> {
    match text_in(chunk, 1) {
        Err(error) => Err(error),
        Ok(document_id) => match row_named(documents.rows, document_id, 0) {
            None => Err(misuse("graph chunk references a missing document"@)),
            Some(at) => match count_in(chunk, 3) {
                Err(error) => Err(error),
                Ok(start) => match count_in(chunk, 4) {
                    Err(error) => Err(error),
                    Ok(end) => match text_in(chunk, 5) {
                        Err(error) => Err(error),
                        Ok(text) => match text_in(documents.rows[at as int], 3) {
                            Err(error) => Err(error),
                            Ok(source) => if byte_slice(source, start as nat, end as nat) != Some(text) {
                                Err(misuse("graph citation no longer matches its source document"@))
                            } else {
                                Ok(
                                    CitationView {
                                        document_id,
                                        document: documents.rows[at as int],
                                        start: start as nat,
                                        end: end as nat,
                                        text,
                                    },
                                )
                            },
                        },
                    },
                },
            },
        },
    }
}

/// What a chunk cites.
pub struct Citation {
    pub document_id: String,
    pub document: usize,
    pub start: usize,
    pub end: usize,
    pub text: String,
}

pub open spec fn citation_found(result: Result<Citation, Error>, documents: TableView) -> Result<CitationView, ErrorView> {
    match result {
        Ok(found) => Ok(
            CitationView {
                document_id: found.document_id@,
                document: documents.rows[found.document as int],
                start: found.start as nat,
                end: found.end as nat,
                text: found.text@,
            },
        ),
        Err(error) => Err(error@),
    }
}

pub fn cite(chunk: &Vec<Value>, documents: &Table) -> (result: Result<Citation, Error>)
    ensures
        citation_found(result, documents@) == citation(views(chunk@), documents@),
        result matches Ok(found) ==> found.document < documents.rows@.len(),
{
    let document_id = text_at(chunk, 1)?;
    let at: usize = match find_row(&documents.rows, document_id) {
        Some(at) => at,
        None => return Err(invalid("graph chunk references a missing document")),
    };
    let start: usize = usize_at(chunk, 3)?;
    let end: usize = usize_at(chunk, 4)?;
    let text = text_at(chunk, 5)?;
    assert(documents@.rows[at as int] == views(documents.rows@[at as int]@));
    let source = text_at(&documents.rows[at], 3)?;
    if !is_slice(source, start, end, text) {
        return Err(invalid("graph citation no longer matches its source document"));
    }
    Ok(Citation { document_id: document_id.to_owned(), document: at, start, end, text: text.to_owned() })
}

/// The hit that a chunk is at this depth.
pub open spec fn hit_of(chunk: Seq<ValueView>, documents: TableView, query: Seq<u32>, depth: nat, floats: Floats) -> Result<
    HitView,
    ErrorView,
> {
    match citation(chunk, documents) {
        Err(error) => Err(error),
        Ok(cited) => match query_distance(chunk, query, floats) {
            Err(error) => Err(error),
            Ok(distance) => match text_in(chunk, 0) {
                Err(error) => Err(error),
                Ok(chunk_id) => match text_in(cited.document, 1) {
                    Err(error) => Err(error),
                    Ok(title) => match text_in(cited.document, 2) {
                        Err(error) => Err(error),
                        Ok(source) => match metadata_of(cited.document, documents.columns) {
                            Err(error) => Err(error),
                            Ok(metadata) => Ok(
                                HitView {
                                    chunk_id,
                                    document_id: cited.document_id,
                                    title,
                                    source,
                                    text: cited.text,
                                    metadata,
                                    start_byte: cited.start,
                                    end_byte: cited.end,
                                    similarity: similarity(distance, floats),
                                    depth,
                                    seed: depth == 0,
                                },
                            ),
                        },
                    },
                },
            },
        },
    }
}

pub fn hit<F: Fn(FloatTask) -> FloatReply>(f: &F, chunk: &Vec<Value>, documents: &Table, query: &Vector, depth: usize) -> (result:
    Result<GraphHit, Error>)
    requires
        computes(*f),
        documents@.columns.len() >= DOCUMENT_BASE_COLUMNS,
    ensures
        outcome(result) == hit_of(views(chunk@), documents@, query@, depth as nat, floats(*f)),
{
    let cited = cite(chunk, documents)?;
    let distance: u64 = measure_query(f, chunk, query)?;
    let row = &documents.rows[cited.document];
    assert(documents@.rows[cited.document as int] == views(row@));
    let chunk_id = text_at(chunk, 0)?.to_owned();
    let title = text_at(row, 1)?.to_owned();
    let source = text_at(row, 2)?.to_owned();
    let metadata = document_metadata(row, &documents.columns)?;
    Ok(
        GraphHit {
            chunk_id,
            document_id: cited.document_id,
            title,
            source,
            text: cited.text,
            metadata,
            start_byte: cited.start,
            end_byte: cited.end,
            similarity: similarity_of(f, distance),
            depth,
            seed: depth == 0,
        },
    )
}

/// The relationships in the rows at the positions from `from` on, after `done`.
pub open spec fn edges_at(rows: Seq<Seq<ValueView>>, positions: Seq<usize>, from: nat, done: Seq<EdgeView>) -> Result<
    Seq<EdgeView>,
    ErrorView,
>
    decreases positions.len() - from,
{
    if from >= positions.len() {
        Ok(done)
    } else {
        match edge_in(rows[positions[from as int] as int]) {
            Err(error) => Err(error),
            Ok(edge) => edges_at(rows, positions, from + 1, done.push(edge)),
        }
    }
}

/// The relationships that start at a chunk.
pub open spec fn edges_from(edges: TableView, id: Seq<char>) -> Result<Seq<EdgeView>, ErrorView> {
    edges_at(edges.rows, linked_rows(edges, 1, id), 0, Seq::empty())
}

pub fn read_edges_from(edges: &Table, index: usize, id: &str) -> (result: Result<Vec<GraphEdge>, Error>)
    requires
        edges.wf(),
        index < edges.indexes@.len(),
        edges.indexes@[index as int].index.column == 1,
    ensures
        match result {
            Ok(found) => edges_from(edges@, id@) == Ok::<Seq<EdgeView>, ErrorView>(views(found@)),
            Err(error) => edges_from(edges@, id@) == Err::<Seq<EdgeView>, ErrorView>(error@),
        },
{
    let positions = rows_linked(edges, index, 1, id);
    let ghost places = positions@;
    let mut found: Vec<GraphEdge> = Vec::new();
    assert(views(found@) =~= Seq::<EdgeView>::empty());
    let mut at: usize = 0;
    while at < positions.len()
        invariant
            at <= positions@.len(),
            places == positions@,
            places == linked_rows(edges@, 1, id@),
            forall|i: int| 0 <= i < positions@.len() ==> (#[trigger] positions@[i]) < edges.rows@.len(),
            edges_at(edges@.rows, places, at as nat, views(found@)) == edges_at(edges@.rows, places, 0, Seq::empty()),
        decreases positions@.len() - at,
    {
        let row = &edges.rows[positions[at]];
        assert(edges@.rows[positions@[at as int] as int] == views(row@));
        found.push(read_edge(row)?);
        at = at + 1;
    }
    Ok(found)
}

pub open spec fn is_adjacent(edge: EdgeView) -> bool {
    edge.kind == "adjacent"@
}

/// The order of relationships: neighboring chunks first, then the heavier, then by the chunk they
/// lead to.
pub open spec fn neighbor_rank(left: EdgeView, right: EdgeView) -> Rank {
    next_rank(
        bool_rank(!is_adjacent(left), !is_adjacent(right)),
        next_rank(
            int_rank(total_key(right.weight), total_key(left.weight)),
            text_rank(left.to_chunk, right.to_chunk),
        ),
    )
}

pub fn rank_neighbors(left: &GraphEdge, right: &GraphEdge) -> (rank: Rank)
    ensures
        rank == neighbor_rank(left@, right@),
{
    let first = !same_text(left.kind.as_str(), "adjacent");
    let second = !same_text(right.kind.as_str(), "adjacent");
    match rank_bools(first, second) {
        Rank::Same => match rank_total(right.weight, left.weight) {
            Rank::Same => rank_text(left.to_chunk.as_str(), right.to_chunk.as_str()),
            rank => rank,
        },
        rank => rank,
    }
}

pub open spec fn neighbor_order(edges: Seq<EdgeView>) -> Precedes {
    |a: usize, b: usize| neighbor_rank(edges[a as int], edges[b as int]) == Rank::Before
}

/// The relationships in their order.
pub open spec fn edges_sorted(edges: Seq<EdgeView>, before: Precedes) -> Seq<EdgeView> {
    sorted(edges.len() as usize, before).map_values(|at: usize| edges[at as int])
}

pub(crate) fn arrange_edges(edges: &Vec<GraphEdge>, order: &Vec<usize>, Ghost(before): Ghost<Precedes>) -> (result: Vec<GraphEdge>)
    requires
        order@ == sorted(edges@.len() as usize, before),
        forall|i: int| 0 <= i < order@.len() ==> (#[trigger] order@[i]) < edges@.len(),
    ensures
        views(result@) == edges_sorted(views(edges@), before),
{
    let mut result: Vec<GraphEdge> = Vec::new();
    let mut index: usize = 0;
    while index < order.len()
        invariant
            index <= order@.len(),
            forall|i: int| 0 <= i < order@.len() ==> (#[trigger] order@[i]) < edges@.len(),
            result@.len() == index,
            forall|i: int| 0 <= i < index ==> (#[trigger] result@[i])@ == edges@[order@[i] as int]@,
        decreases order@.len() - index,
    {
        result.push(edges[order[index]].copy());
        index = index + 1;
    }
    assert(views(result@) =~= edges_sorted(views(edges@), before));
    result
}

fn sort_neighbors(edges: &Vec<GraphEdge>) -> (result: Vec<GraphEdge>)
    ensures
        views(result@) == edges_sorted(views(edges@), neighbor_order(views(edges@))),
{
    let ghost before = neighbor_order(views(edges@));
    let precedes = |a: usize, b: usize| -> (result: bool)
        requires
            a < edges@.len(),
            b < edges@.len(),
        ensures
            result == before(a, b),
        {
            match rank_neighbors(&edges[a], &edges[b]) {
                Rank::Before => true,
                _ => false,
            }
        };
    let order = sort_positions(edges.len(), &precedes, Ghost(before));
    arrange_edges(edges, &order, Ghost(before))
}

/// A chunk that a search has come to.
#[derive(Debug)]
pub struct Reached {
    pub id: String,
    pub depth: usize,
}

pub struct ReachedView {
    pub id: Seq<char>,
    pub depth: nat,
}

impl View for Reached {
    type V = ReachedView;

    open spec fn view(&self) -> ReachedView {
        ReachedView { id: self.id@, depth: self.depth as nat }
    }
}

/// How far a search has come: the chunks in the order in which they were found, and the
/// relationships by which they were.
pub struct SearchState {
    pub reached: Seq<ReachedView>,
    pub edges: Seq<EdgeView>,
    pub truncated: bool,
}

/// Whether a chunk, from `from` on, has been reached.
pub open spec fn has_reached(reached: Seq<ReachedView>, id: Seq<char>, from: nat) -> bool
    decreases reached.len() - from,
{
    from < reached.len() && (reached[from as int].id == id || has_reached(reached, id, from + 1))
}

pub fn was_reached(reached: &Vec<Reached>, id: &str) -> (result: bool)
    ensures
        result == has_reached(views(reached@), id@, 0),
{
    let mut index: usize = 0;
    while index < reached.len()
        invariant
            index <= reached@.len(),
            has_reached(views(reached@), id@, index as nat) == has_reached(views(reached@), id@, 0),
        decreases reached@.len() - index,
    {
        assert(views(reached@)[index as int] == reached@[index as int]@);
        if same_text(reached[index].id.as_str(), id) {
            return true;
        }
        index = index + 1;
    }
    false
}

/// The search after the neighbors from `from` on of a chunk at this depth, of which `count` have
/// been added.
pub open spec fn admitted(
    chunks: Seq<Seq<ValueView>>,
    neighbors: Seq<EdgeView>,
    request: SearchRequestView,
    depth: nat,
    from: nat,
    count: nat,
    state: SearchState,
) -> Result<SearchState, ErrorView>
    decreases neighbors.len() - from,
{
    if from >= neighbors.len() {
        Ok(state)
    } else {
        let neighbor = neighbors[from as int];
        if row_named(chunks, neighbor.to_chunk, 0) is None {
            Err(missing_chunk())
        } else if has_reached(state.reached, neighbor.to_chunk, 0) {
            admitted(chunks, neighbors, request, depth, from + 1, count, state)
        } else if count == request.neighbor_limit || state.reached.len() == request.max_results {
            admitted(chunks, neighbors, request, depth, from + 1, count, SearchState { truncated: true, ..state })
        } else {
            admitted(
                chunks,
                neighbors,
                request,
                depth,
                from + 1,
                count + 1,
                SearchState {
                    reached: state.reached.push(ReachedView { id: neighbor.to_chunk, depth: depth + 1 }),
                    edges: state.edges.push(neighbor),
                    truncated: state.truncated,
                },
            )
        }
    }
}

/// The search after the chunks from `at` on, and the hits after `hits`.
pub open spec fn expanded(
    documents: TableView,
    chunks: TableView,
    edges: TableView,
    request: SearchRequestView,
    floats: Floats,
    at: nat,
    state: SearchState,
    hits: Seq<HitView>,
) -> Result<(SearchState, Seq<HitView>), ErrorView>
    decreases request.max_results - at,
{
    if at >= state.reached.len() || at >= request.max_results {
        Ok((state, hits))
    } else {
        let current = state.reached[at as int];
        match row_named(chunks.rows, current.id, 0) {
            None => Err(missing_chunk()),
            Some(row) => match hit_of(chunks.rows[row as int], documents, request.query, current.depth, floats) {
                Err(error) => Err(error),
                Ok(found) => if current.depth >= request.max_hops {
                    expanded(documents, chunks, edges, request, floats, at + 1, state, hits.push(found))
                } else {
                    match edges_from(edges, current.id) {
                        Err(error) => Err(error),
                        Ok(linked) => match admitted(
                            chunks.rows,
                            edges_sorted(linked, neighbor_order(linked)),
                            request,
                            current.depth,
                            0,
                            0,
                            state,
                        ) {
                            Err(error) => Err(error),
                            Ok(next) => expanded(
                                documents,
                                chunks,
                                edges,
                                request,
                                floats,
                                at + 1,
                                next,
                                hits.push(found),
                            ),
                        },
                    }
                },
            },
        }
    }
}

fn add_neighbors(
    chunks: &Vec<Vec<Value>>,
    neighbors: &Vec<GraphEdge>,
    request: &GraphSearchRequest,
    depth: usize,
    reached: &mut Vec<Reached>,
    edges: &mut Vec<GraphEdge>,
    truncated: &mut bool,
) -> (result: Result<(), Error>)
    requires
        old(reached)@.len() <= request.max_results,
        depth < usize::MAX,
    ensures
        match result {
            Ok(_) => admitted(
                row_views(chunks@),
                views(neighbors@),
                request@,
                depth as nat,
                0,
                0,
                (SearchState { reached: views(old(reached)@), edges: views(old(edges)@), truncated: *old(truncated) }),
            ) == Ok::<SearchState, ErrorView>(
                SearchState {
                    reached: views(final(reached)@),
                    edges: views(final(edges)@),
                    truncated: *final(truncated),
                },
            ) && final(reached)@.len() <= request.max_results,
            Err(error) => admitted(
                row_views(chunks@),
                views(neighbors@),
                request@,
                depth as nat,
                0,
                0,
                (SearchState { reached: views(old(reached)@), edges: views(old(edges)@), truncated: *old(truncated) }),
            ) == Err::<SearchState, ErrorView>(error@),
        },
{
    let ghost start = SearchState { reached: views(reached@), edges: views(edges@), truncated: *truncated };
    let mut count: usize = 0;
    let mut index: usize = 0;
    while index < neighbors.len()
        invariant
            index <= neighbors@.len(),
            count <= index,
            depth < usize::MAX,
            reached@.len() <= request.max_results,
            start == (SearchState {
                reached: views(old(reached)@),
                edges: views(old(edges)@),
                truncated: *old(truncated),
            }),
            admitted(
                row_views(chunks@),
                views(neighbors@),
                request@,
                depth as nat,
                index as nat,
                count as nat,
                (SearchState { reached: views(reached@), edges: views(edges@), truncated: *truncated }),
            ) == admitted(row_views(chunks@), views(neighbors@), request@, depth as nat, 0, 0, start),
        decreases neighbors@.len() - index,
    {
        let neighbor = &neighbors[index];
        assert(views(neighbors@)[index as int] == neighbor@);
        index = index + 1;
        if find_row(chunks, neighbor.to_chunk.as_str()).is_none() {
            return Err(invalid("graph edge references a missing chunk"));
        }
        if was_reached(reached, neighbor.to_chunk.as_str()) {
            continue;
        }
        if count == request.neighbor_limit || reached.len() == request.max_results {
            *truncated = true;
            continue;
        }
        count = count + 1;
        reached.push(Reached { id: neighbor.to_chunk.clone(), depth: depth + 1 });
        edges.push(neighbor.copy());
    }
    Ok(())
}

/// The chunks that a search starts from, after `done`.
pub open spec fn seeds_from(rows: Seq<Seq<ValueView>>, found: Seq<NearChunk>, from: nat, done: Seq<ReachedView>) -> Result<
    Seq<ReachedView>,
    ErrorView,
>
    decreases found.len() - from,
{
    if from >= found.len() {
        Ok(done)
    } else {
        match text_in(rows[found[from as int].row as int], 0) {
            Err(error) => Err(error),
            Ok(id) => seeds_from(rows, found, from + 1, done.push(ReachedView { id, depth: 0 })),
        }
    }
}

fn make_seeds(rows: &Vec<Vec<Value>>, found: &Vec<NearChunk>) -> (result: Result<Vec<Reached>, Error>)
    requires
        forall|i: int| 0 <= i < found@.len() ==> (#[trigger] found@[i]).row < rows@.len(),
    ensures
        match result {
            Ok(seeds) => seeds_from(row_views(rows@), found@, 0, Seq::empty()) == Ok::<Seq<ReachedView>, ErrorView>(
                views(seeds@),
            ) && seeds@.len() == found@.len(),
            Err(error) => seeds_from(row_views(rows@), found@, 0, Seq::empty()) == Err::<Seq<ReachedView>, ErrorView>(
                error@,
            ),
        },
{
    let mut seeds: Vec<Reached> = Vec::new();
    assert(views(seeds@) =~= Seq::<ReachedView>::empty());
    let mut index: usize = 0;
    while index < found.len()
        invariant
            index <= found@.len(),
            seeds@.len() == index,
            forall|i: int| 0 <= i < found@.len() ==> (#[trigger] found@[i]).row < rows@.len(),
            seeds_from(row_views(rows@), found@, index as nat, views(seeds@)) == seeds_from(
                row_views(rows@),
                found@,
                0,
                Seq::empty(),
            ),
        decreases found@.len() - index,
    {
        let at: usize = found[index].row;
        assert(row_views(rows@)[at as int] == views(rows@[at as int]@));
        let id = text_at(&rows[at], 0)?;
        seeds.push(Reached { id: id.to_owned(), depth: 0 });
        index = index + 1;
    }
    Ok(seeds)
}

/// Whether the relationships from `from` on hold one between the same chunks and of the same kind.
pub open spec fn has_link(edges: Seq<EdgeView>, edge: EdgeView, from: nat) -> bool
    decreases edges.len() - from,
{
    from < edges.len() && (same_link(edges[from as int], edge) || has_link(edges, edge, from + 1))
}

pub open spec fn same_link(left: EdgeView, right: EdgeView) -> bool {
    left.from_chunk == right.from_chunk && left.to_chunk == right.to_chunk && left.kind == right.kind
}

pub fn is_same_link(left: &GraphEdge, right: &GraphEdge) -> (result: bool)
    ensures
        result == same_link(left@, right@),
{
    same_text(left.from_chunk.as_str(), right.from_chunk.as_str()) && same_text(
        left.to_chunk.as_str(),
        right.to_chunk.as_str(),
    ) && same_text(left.kind.as_str(), right.kind.as_str())
}

pub fn is_linked(edges: &Vec<GraphEdge>, edge: &GraphEdge) -> (result: bool)
    ensures
        result == has_link(views(edges@), edge@, 0),
{
    let mut index: usize = 0;
    while index < edges.len()
        invariant
            index <= edges@.len(),
            has_link(views(edges@), edge@, index as nat) == has_link(views(edges@), edge@, 0),
        decreases edges@.len() - index,
    {
        assert(views(edges@)[index as int] == edges@[index as int]@);
        if is_same_link(&edges[index], edge) {
            return true;
        }
        index = index + 1;
    }
    false
}

/// The order of relationships among the chunks found: those by which chunks were found first, then
/// as neighbors are, then by kind.
pub open spec fn induced_rank(discovery: Seq<EdgeView>, left: EdgeView, right: EdgeView) -> Rank {
    next_rank(
        bool_rank(!has_link(discovery, left, 0), !has_link(discovery, right, 0)),
        next_rank(neighbor_rank(left, right), text_rank(left.kind, right.kind)),
    )
}

fn rank_induced(discovery: &Vec<GraphEdge>, left: &GraphEdge, right: &GraphEdge) -> (rank: Rank)
    ensures
        rank == induced_rank(views(discovery@), left@, right@),
{
    let first = !is_linked(discovery, left);
    let second = !is_linked(discovery, right);
    match rank_bools(first, second) {
        Rank::Same => match rank_neighbors(left, right) {
            Rank::Same => rank_text(left.kind.as_str(), right.kind.as_str()),
            rank => rank,
        },
        rank => rank,
    }
}

pub open spec fn induced_order(discovery: Seq<EdgeView>, edges: Seq<EdgeView>) -> Precedes {
    |a: usize, b: usize| induced_rank(discovery, edges[a as int], edges[b as int]) == Rank::Before
}

fn sort_induced(discovery: &Vec<GraphEdge>, edges: &Vec<GraphEdge>) -> (result: Vec<GraphEdge>)
    ensures
        views(result@) == edges_sorted(views(edges@), induced_order(views(discovery@), views(edges@))),
{
    let ghost before = induced_order(views(discovery@), views(edges@));
    let precedes = |a: usize, b: usize| -> (result: bool)
        requires
            a < edges@.len(),
            b < edges@.len(),
        ensures
            result == before(a, b),
        {
            match rank_induced(discovery, &edges[a], &edges[b]) {
                Rank::Before => true,
                _ => false,
            }
        };
    let order = sort_positions(edges.len(), &precedes, Ghost(before));
    arrange_edges(edges, &order, Ghost(before))
}

/// The relationships from `from` on that lead to a chunk that was reached, after `done`.
pub open spec fn within_reached(
    chunks: Seq<Seq<ValueView>>,
    reached: Seq<ReachedView>,
    edges: Seq<EdgeView>,
    from: nat,
    done: Seq<EdgeView>,
) -> Result<Seq<EdgeView>, ErrorView>
    decreases edges.len() - from,
{
    if from >= edges.len() {
        Ok(done)
    } else if row_named(chunks, edges[from as int].to_chunk, 0) is None {
        Err(missing_chunk())
    } else if has_reached(reached, edges[from as int].to_chunk, 0) {
        within_reached(chunks, reached, edges, from + 1, done.push(edges[from as int]))
    } else {
        within_reached(chunks, reached, edges, from + 1, done)
    }
}

fn keep_reached(chunks: &Vec<Vec<Value>>, reached: &Vec<Reached>, edges: &Vec<GraphEdge>) -> (result: Result<Vec<GraphEdge>, Error>)
    ensures
        match result {
            Ok(kept) => within_reached(row_views(chunks@), views(reached@), views(edges@), 0, Seq::empty()) == Ok::<
                Seq<EdgeView>,
                ErrorView,
            >(views(kept@)),
            Err(error) => within_reached(row_views(chunks@), views(reached@), views(edges@), 0, Seq::empty()) == Err::<
                Seq<EdgeView>,
                ErrorView,
            >(error@),
        },
{
    let mut kept: Vec<GraphEdge> = Vec::new();
    assert(views(kept@) =~= Seq::<EdgeView>::empty());
    let mut index: usize = 0;
    while index < edges.len()
        invariant
            index <= edges@.len(),
            within_reached(row_views(chunks@), views(reached@), views(edges@), index as nat, views(kept@))
                == within_reached(row_views(chunks@), views(reached@), views(edges@), 0, Seq::empty()),
        decreases edges@.len() - index,
    {
        let edge = &edges[index];
        assert(views(edges@)[index as int] == edge@);
        if find_row(chunks, edge.to_chunk.as_str()).is_none() {
            return Err(invalid("graph edge references a missing chunk"));
        }
        if was_reached(reached, edge.to_chunk.as_str()) {
            kept.push(edge.copy());
        }
        index = index + 1;
    }
    Ok(kept)
}

/// The relationships returned after those from `from` on, of which `count` have been added.
pub open spec fn returned_edges(
    edges: Seq<EdgeView>,
    limit: nat,
    from: nat,
    count: nat,
    done: Seq<EdgeView>,
    truncated: bool,
) -> (Seq<EdgeView>, bool)
    decreases edges.len() - from,
{
    if from >= edges.len() {
        (done, truncated)
    } else if has_link(done, edges[from as int], 0) {
        returned_edges(edges, limit, from + 1, count, done, truncated)
    } else if count == limit {
        returned_edges(edges, limit, from + 1, count, done, true)
    } else {
        returned_edges(edges, limit, from + 1, count + 1, done.push(edges[from as int]), truncated)
    }
}

fn return_edges(edges: &Vec<GraphEdge>, limit: usize, done: &mut Vec<GraphEdge>, truncated: &mut bool)
    ensures
        (views(final(done)@), *final(truncated)) == returned_edges(
            views(edges@),
            limit as nat,
            0,
            0,
            views(old(done)@),
            *old(truncated),
        ),
{
    let mut count: usize = 0;
    let mut index: usize = 0;
    while index < edges.len()
        invariant
            index <= edges@.len(),
            count <= index,
            returned_edges(views(edges@), limit as nat, index as nat, count as nat, views(done@), *truncated)
                == returned_edges(views(edges@), limit as nat, 0, 0, views(old(done)@), *old(truncated)),
        decreases edges@.len() - index,
    {
        let edge = &edges[index];
        assert(views(edges@)[index as int] == edge@);
        index = index + 1;
        if is_linked(done, edge) {
            continue;
        }
        if count == limit {
            *truncated = true;
            continue;
        }
        count = count + 1;
        done.push(edge.copy());
    }
}

/// The relationships among the chunks found, from the chunk `from` on, after `done`.
pub open spec fn induced(
    chunks: TableView,
    edges: TableView,
    state: SearchState,
    hits: Seq<HitView>,
    limit: nat,
    from: nat,
    done: Seq<EdgeView>,
    truncated: bool,
) -> Result<(Seq<EdgeView>, bool), ErrorView>
    decreases hits.len() - from,
{
    if from >= hits.len() {
        Ok((done, truncated))
    } else {
        match edges_from(edges, hits[from as int].chunk_id) {
            Err(error) => Err(error),
            Ok(linked) => match within_reached(chunks.rows, state.reached, linked, 0, Seq::empty()) {
                Err(error) => Err(error),
                Ok(within) => {
                    let (next, more) = returned_edges(
                        edges_sorted(within, induced_order(state.edges, within)),
                        limit,
                        0,
                        0,
                        done,
                        truncated,
                    );
                    induced(chunks, edges, state, hits, limit, from + 1, next, more)
                },
            },
        }
    }
}

/// What a search in these tables finds.
pub open spec fn searched(
    info: CollectionView,
    revision: u64,
    documents: TableView,
    chunks: TableView,
    edges: TableView,
    request: SearchRequestView,
    floats: Floats,
) -> Result<SearchView, ErrorView> {
    match nearest(chunks.rows, request.query, request.seed_limit, floats) {
        Err(error) => Err(error),
        Ok(found) => match seeds_from(chunks.rows, found, 0, Seq::empty()) {
            Err(error) => Err(error),
            Ok(seeds) => {
                let start = SearchState { reached: seeds, edges: Seq::empty(), truncated: false };
                match expanded(documents, chunks, edges, request, floats, 0, start, Seq::empty()) {
                    Err(error) => Err(error),
                    Ok((state, hits)) => match induced(
                        chunks,
                        edges,
                        state,
                        hits,
                        request.neighbor_limit,
                        0,
                        Seq::empty(),
                        state.truncated,
                    ) {
                        Err(error) => Err(error),
                        Ok((returned, truncated)) => Ok(
                            SearchView { collection: info.config.name, revision, hits, edges: returned, truncated },
                        ),
                    },
                }
            },
        },
    }
}

/// What a search finds.
pub open spec fn search_result(catalog: CatalogView, request: SearchRequestView, floats: Floats) -> Result<SearchView, ErrorView> {
    if !search_bounded(request) {
        Err(
            misuse(
                "graph search requires seed_limit 1..20, max_hops 0..3, neighbor_limit 1..32, max_results 1..100, and seeds <= results"@,
            ),
        )
    } else {
        match collection_of(catalog, request.collection) {
            Err(error) => Err(error),
            Ok(info) => match profile_checked(info.config.profile, request.expected_profile) {
                Err(error) => Err(error),
                Ok(_) => if zero_vector(request.query) {
                    Err(ErrorView::ZeroNorm)
                } else {
                    let places = places_of(catalog, info);
                    searched(
                        info,
                        catalog.revision,
                        catalog.tables[places.documents as int].table,
                        catalog.tables[places.chunks as int].table,
                        catalog.tables[places.edges as int].table,
                        request,
                        floats,
                    )
                },
            },
        }
    }
}

/// Whether the bounds of a search are within those of every search.
pub open spec fn search_bounded(request: SearchRequestView) -> bool {
    &&& 1 <= request.seed_limit <= 20
    &&& request.max_hops <= 3
    &&& 1 <= request.neighbor_limit <= 32
    &&& 1 <= request.max_results <= 100
    &&& request.seed_limit <= request.max_results
}

#[verifier::rlimit(60)]
fn explore<F: Fn(FloatTask) -> FloatReply>(
    f: &F,
    documents: &Table,
    chunks: &Table,
    edges: &Table,
    index: usize,
    request: &GraphSearchRequest,
    reached: &mut Vec<Reached>,
    links: &mut Vec<GraphEdge>,
    truncated: &mut bool,
) -> (result: Result<Vec<GraphHit>, Error>)
    requires
        computes(*f),
        edges.wf(),
        index < edges.indexes@.len(),
        edges.indexes@[index as int].index.column == 1,
        documents@.columns.len() >= DOCUMENT_BASE_COLUMNS,
        old(reached)@.len() <= request.max_results,
        request.max_hops <= 3,
    ensures
        match result {
            Ok(hits) => expanded(
                documents@,
                chunks@,
                edges@,
                request@,
                floats(*f),
                0,
                (SearchState { reached: views(old(reached)@), edges: views(old(links)@), truncated: *old(truncated) }),
                Seq::empty(),
            ) == Ok::<(SearchState, Seq<HitView>), ErrorView>(
                (
                    SearchState {
                        reached: views(final(reached)@),
                        edges: views(final(links)@),
                        truncated: *final(truncated),
                    },
                    views(hits@),
                ),
            ),
            Err(error) => expanded(
                documents@,
                chunks@,
                edges@,
                request@,
                floats(*f),
                0,
                (SearchState { reached: views(old(reached)@), edges: views(old(links)@), truncated: *old(truncated) }),
                Seq::empty(),
            ) == Err::<(SearchState, Seq<HitView>), ErrorView>(error@),
        },
{
    let ghost start = SearchState { reached: views(reached@), edges: views(links@), truncated: *truncated };
    let mut hits: Vec<GraphHit> = Vec::new();
    assert(views(hits@) =~= Seq::<HitView>::empty());
    let mut at: usize = 0;
    while at < reached.len()
        invariant
            computes(*f),
            edges.wf(),
            index < edges.indexes@.len(),
            edges.indexes@[index as int].index.column == 1,
            documents@.columns.len() >= DOCUMENT_BASE_COLUMNS,
            request.max_hops <= 3,
            at <= request.max_results,
            reached@.len() <= request.max_results,
            start == (SearchState {
                reached: views(old(reached)@),
                edges: views(old(links)@),
                truncated: *old(truncated),
            }),
            expanded(
                documents@,
                chunks@,
                edges@,
                request@,
                floats(*f),
                at as nat,
                (SearchState { reached: views(reached@), edges: views(links@), truncated: *truncated }),
                views(hits@),
            ) == expanded(documents@, chunks@, edges@, request@, floats(*f), 0, start, Seq::empty()),
        decreases request.max_results - at,
    {
        let id = reached[at].id.clone();
        let depth: usize = reached[at].depth;
        assert(views(reached@)[at as int] == reached@[at as int]@);
        let row: usize = match find_row(&chunks.rows, id.as_str()) {
            Some(row) => row,
            None => return Err(invalid("graph edge references a missing chunk")),
        };
        assert(chunks@.rows[row as int] == views(chunks.rows@[row as int]@));
        let found = hit(f, &chunks.rows[row], documents, &request.query, depth)?;
        if depth < request.max_hops {
            let linked = read_edges_from(edges, index, id.as_str())?;
            let neighbors = sort_neighbors(&linked);
            add_neighbors(&chunks.rows, &neighbors, request, depth, reached, links, truncated)?;
        }
        hits.push(found);
        at = at + 1;
    }
    Ok(hits)
}

fn induce(
    chunks: &Table,
    edges: &Table,
    index: usize,
    reached: &Vec<Reached>,
    discovery: &Vec<GraphEdge>,
    hits: &Vec<GraphHit>,
    limit: usize,
    truncated: &mut bool,
    Ghost(was): Ghost<bool>,
) -> (result: Result<Vec<GraphEdge>, Error>)
    requires
        edges.wf(),
        index < edges.indexes@.len(),
        edges.indexes@[index as int].index.column == 1,
    ensures
        match result {
            Ok(returned) => induced(
                chunks@,
                edges@,
                (SearchState { reached: views(reached@), edges: views(discovery@), truncated: was }),
                views(hits@),
                limit as nat,
                0,
                Seq::empty(),
                *old(truncated),
            ) == Ok::<(Seq<EdgeView>, bool), ErrorView>((views(returned@), *final(truncated))),
            Err(error) => induced(
                chunks@,
                edges@,
                (SearchState { reached: views(reached@), edges: views(discovery@), truncated: was }),
                views(hits@),
                limit as nat,
                0,
                Seq::empty(),
                *old(truncated),
            ) == Err::<(Seq<EdgeView>, bool), ErrorView>(error@),
        },
{
    let ghost state = SearchState { reached: views(reached@), edges: views(discovery@), truncated: was };
    let mut returned: Vec<GraphEdge> = Vec::new();
    assert(views(returned@) =~= Seq::<EdgeView>::empty());
    let mut at: usize = 0;
    while at < hits.len()
        invariant
            edges.wf(),
            index < edges.indexes@.len(),
            edges.indexes@[index as int].index.column == 1,
            at <= hits@.len(),
            state == (SearchState { reached: views(reached@), edges: views(discovery@), truncated: was }),
            induced(
                chunks@,
                edges@,
                state,
                views(hits@),
                limit as nat,
                at as nat,
                views(returned@),
                *truncated,
            ) == induced(chunks@, edges@, state, views(hits@), limit as nat, 0, Seq::empty(), *old(truncated)),
        decreases hits@.len() - at,
    {
        assert(views(hits@)[at as int] == hits@[at as int]@);
        let linked = read_edges_from(edges, index, hits[at].chunk_id.as_str())?;
        let within = keep_reached(&chunks.rows, reached, &linked)?;
        let ordered = sort_induced(discovery, &within);
        return_edges(&ordered, limit, &mut returned, truncated);
        at = at + 1;
    }
    Ok(returned)
}

/// Ranks the nearest chunks, and expands a bounded neighborhood around them.
#[verifier::rlimit(60)]
pub fn graph_search<F: Fn(FloatTask) -> FloatReply>(f: &F, catalog: &Catalog, request: &GraphSearchRequest) -> (result: Result<
    GraphSearchResult,
    Error,
>)
    requires
        computes(*f),
        catalog.wf(),
    ensures
        outcome(result) == search_result(catalog@, request@, floats(*f)),
{
    if request.seed_limit < 1 || request.seed_limit > 20 || request.max_hops > 3 || request.neighbor_limit < 1
        || request.neighbor_limit > 32 || request.max_results < 1 || request.max_results > 100 || request.seed_limit
        > request.max_results {
        return Err(
            invalid(
                "graph search requires seed_limit 1..20, max_hops 0..3, neighbor_limit 1..32, max_results 1..100, and seeds <= results",
            ),
        );
    }
    let (info, places) = open_collection(catalog, request.collection.as_str())?;
    check_profile(&info.config.profile, &request.expected_profile)?;
    if request.query.is_zero() {
        return Err(Error::ZeroNorm);
    }
    proof {
        assert(places == places_of(catalog@, info@));
        assert(catalog@.tables[places.documents as int] == catalog.tables@[places.documents as int]@);
        assert(catalog@.tables[places.chunks as int] == catalog.tables@[places.chunks as int]@);
        assert(catalog@.tables[places.edges as int] == catalog.tables@[places.edges as int]@);
    }
    let documents = &catalog.tables[places.documents].table;
    let chunks = &catalog.tables[places.chunks].table;
    let edges = &catalog.tables[places.edges].table;
    let index: usize = match find_index_on(&edges.indexes, 1) {
        Some(index) => index,
        None => return Err(invalid("graph edge source index is missing")),
    };
    let found = nearest_chunks(f, &chunks.rows, &request.query, request.seed_limit)?;
    let mut reached = make_seeds(&chunks.rows, &found)?;
    let mut discovery: Vec<GraphEdge> = Vec::new();
    assert(views(discovery@) =~= Seq::<EdgeView>::empty());
    let mut truncated = false;
    let hits = explore(f, documents, chunks, edges, index, request, &mut reached, &mut discovery, &mut truncated)?;
    let ghost was = truncated;
    let returned = induce(
        chunks,
        edges,
        index,
        &reached,
        &discovery,
        &hits,
        request.neighbor_limit,
        &mut truncated,
        Ghost(was),
    )?;
    Ok(
        GraphSearchResult {
            collection: info.config.name,
            revision: catalog.revision,
            hits,
            edges: returned,
            truncated,
        },
    )
}

} // verus!
