//! Taking a document into a collection, and changing its metadata.

use vstd::prelude::*;
use crate::arithmetic::{exceeds, is_larger, ONE};
use crate::catalog::{Catalog, CatalogView};
use crate::error::{Error, ErrorView};
use crate::float::{computes, finite, floats, is_finite, FloatReply, FloatTask, Floats};
use crate::graph::{
    base_document_columns, bounded_text, check_profile, chunk_id, chunk_name, collection_of, invalid, literal, misuse,
    profile_checked, profile_key, profile_text, quote, quoted, text_at, text_bounded, text_in, text_literal,
    CollectionView, ConfigView, GraphCollection, GraphCollectionConfig, GraphEmbeddingProfile, GraphTables, ProfileView,
    TablesView, DOCUMENT_BASE_COLUMNS, MAX_CHUNKS, MAX_EDGES, MAX_VECTOR_ELEMENTS,
};
use crate::graph_capacity::{capacity_checked, check_ingest_capacity, text_fits, validate_text_capacity};
use crate::graph_document::{
    check_object, chunk_fingerprint, chunks_of, column_value, document_checked, document_fields, fields_from, fields_of,
    find_chunks, fingerprint, object_checked, read_document, rows_at, stored_document, validate_document,
    DocumentInputView, GraphDocumentInput,
};
use crate::graph_edge::{edge, edge_row, find_row, lemma_small, row_named, row_of_edge, EdgeView, GraphEdge};
use crate::graph_near::{nearest, nearest_chunks, similarity, similarity_of, NearChunk};
use crate::graph_store::{
    insert_sql, open_collection, opened, sql_value, stored, stored_value, write_insert, GraphPlaces,
};
use crate::graph_write::{
    check_revision, document_removed, lemma_collection_tables, lemma_places_apart, lemma_removal_keeps,
    lemma_stored_keeps, places_apart, places_of, remove_document, revision_checked, staged_view, staged_wf,
    GraphIngestResult, IngestView, StagedGraph,
};
use crate::index::{holder, lemma_holder};
use crate::json::{json_notation, json_text, json_without, Json, TreeView};
use crate::table::{distinct_keys, valid_row, valid_value, TableView};
use crate::text::{join3, join_all, joined, lemma_views_push, views};
use crate::value::{copy_rows, key_of, lemma_row_views_push, row_views, Column, ColumnView, Value, ValueView};
use crate::vector::Vector;

verus! {

broadcast use {vstd::string::group_string_axioms, lemma_views_push, lemma_row_views_push};

/// A document to take in, and what the collection must be for that.
pub struct GraphIngestRequest {
    pub collection: String,
    pub expected_revision: u64,
    pub expected_profile: GraphEmbeddingProfile,
    pub document: GraphDocumentInput,
}

pub struct IngestRequestView {
    pub collection: Seq<char>,
    pub expected_revision: u64,
    pub expected_profile: ProfileView,
    pub document: DocumentInputView,
}

impl View for GraphIngestRequest {
    type V = IngestRequestView;

    open spec fn view(&self) -> IngestRequestView {
        IngestRequestView {
            collection: self.collection@,
            expected_revision: self.expected_revision,
            expected_profile: self.expected_profile@,
            document: self.document@,
        }
    }
}

/// The row of a chunk.
pub open spec fn chunk_row(document: DocumentInputView, ordinal: nat, profile: Seq<char>) -> Seq<ValueView> {
    let chunk = document.chunks[ordinal as int];
    seq![
        ValueView::Text(chunk_name(document.id, ordinal)),
        ValueView::Text(document.id),
        ValueView::Integer(ordinal as i64),
        ValueView::Integer(chunk.start_byte as i64),
        ValueView::Integer(chunk.end_byte as i64),
        ValueView::Text(chunk.text),
        ValueView::Text(chunk.embedding_text),
        ValueView::Text(profile),
        ValueView::Vector(chunk.embedding),
    ]
}

/// The rows of a document's chunks.
pub open spec fn chunk_rows(document: DocumentInputView, profile: Seq<char>) -> Seq<Seq<ValueView>> {
    Seq::new(document.chunks.len(), |ordinal: int| chunk_row(document, ordinal as nat, profile))
}

fn make_chunk_rows(document: &GraphDocumentInput, profile: &str) -> (rows: Vec<Vec<Value>>)
    ensures
        row_views(rows@) == chunk_rows(document@, profile@),
        rows@.len() == document.chunks@.len(),
{
    let mut rows: Vec<Vec<Value>> = Vec::new();
    let ghost all = chunk_rows(document@, profile@);
    let mut index: usize = 0;
    assert(row_views(rows@) =~= all.take(0));
    while index < document.chunks.len()
        invariant
            index <= document.chunks@.len(),
            all == chunk_rows(document@, profile@),
            row_views(rows@) == all.take(index as int),
        decreases document.chunks@.len() - index,
    {
        let chunk = &document.chunks[index];
        assert(document@.chunks[index as int] == chunk@);
        let row = vec![
            Value::Text(chunk_id(document.id.as_str(), index)),
            Value::Text(document.id.clone()),
            Value::Integer(index as i64),
            Value::Integer(chunk.start_byte as i64),
            Value::Integer(chunk.end_byte as i64),
            Value::Text(chunk.text.clone()),
            Value::Text(chunk.embedding_text.clone()),
            Value::Text(profile.to_owned()),
            Value::Vector(chunk.embedding.share()),
        ];
        assert(views(row@) =~= all[index as int]);
        rows.push(row);
        index = index + 1;
        assert(all.take(index as int) =~= all.take(index - 1).push(all[index - 1]));
    }
    assert(all.take(all.len() as int) =~= all);
    rows
}

/// The first values of a document's row.
pub open spec fn document_head(document: DocumentInputView, free: TreeView) -> Seq<ValueView> {
    seq![
        ValueView::Text(document.id),
        ValueView::Text(document.title),
        ValueView::Text(document.source),
        ValueView::Text(document.text),
        ValueView::Text(json_notation(free)),
        ValueView::Text(json_notation(document.chunking)),
    ]
}

/// The row of a document.
pub open spec fn document_row(document: DocumentInputView, free: TreeView, fields: Seq<ValueView>, chunks: Seq<Seq<ValueView>>) -> Seq<
    ValueView,
> {
    document_head(document, free).push(ValueView::Text(fingerprint(document_head(document, free), chunks))) + fields
}

fn all_positions(count: usize) -> (positions: Vec<usize>)
    ensures
        positions@.len() == count,
        forall|i: int| 0 <= i < count ==> (#[trigger] positions@[i]) == i,
{
    let mut positions: Vec<usize> = Vec::new();
    while positions.len() < count
        invariant
            positions@.len() <= count,
            forall|i: int| 0 <= i < positions@.len() ==> (#[trigger] positions@[i]) == i,
        decreases count - positions@.len(),
    {
        positions.push(positions.len());
    }
    positions
}

fn make_document_row(document: &GraphDocumentInput, free: &Json, fields: &Vec<Value>, chunks: &Vec<Vec<Value>>) -> (row:
    Vec<Value>)
    requires
        chunks@.len() <= MAX_CHUNKS,
    ensures
        views(row@) == document_row(document@, free@, views(fields@), row_views(chunks@)),
{
    let mut row = vec![
        Value::Text(document.id.clone()),
        Value::Text(document.title.clone()),
        Value::Text(document.source.clone()),
        Value::Text(document.text.clone()),
        Value::Text(json_text(free)),
        Value::Text(json_text(&document.chunking)),
    ];
    let ghost head = document_head(document@, free@);
    assert(views(row@) =~= head);
    let positions = all_positions(chunks.len());
    let print = chunk_fingerprint(&row, 6, chunks, &positions);
    proof {
        assert(views(row@).take(6) =~= head);
        assert(rows_at(row_views(chunks@), positions@) =~= row_views(chunks@));
    }
    row.push(Value::Text(print));
    let ghost base = views(row@);
    let mut index: usize = 0;
    assert(base + views(fields@).take(0) =~= base);
    while index < fields.len()
        invariant
            index <= fields@.len(),
            views(row@) == base + views(fields@).take(index as int),
        decreases fields@.len() - index,
    {
        assert(views(fields@)[index as int] == fields@[index as int]@);
        row.push(fields[index].clone());
        index = index + 1;
        assert(views(row@) =~= base + views(fields@).take(index as int));
    }
    assert(views(fields@).take(index as int) =~= views(fields@));
    row
}

pub open spec fn link(from: Seq<char>, to: Seq<char>, kind: Seq<char>, weight: u64) -> EdgeView {
    EdgeView { from_chunk: from, to_chunk: to, kind, weight }
}

/// The relationships between neighboring chunks from `from` on, after `done`: each way between each
/// chunk and the one before it.
pub open spec fn adjacent_links(id: Seq<char>, count: nat, from: nat, done: Seq<EdgeView>) -> Seq<EdgeView>
    decreases count - from,
{
    if from >= count {
        done
    } else {
        let previous = chunk_name(id, (from - 1) as nat);
        let current = chunk_name(id, from);
        adjacent_links(
            id,
            count,
            from + 1,
            done.push(link(previous, current, "adjacent"@, ONE)).push(link(current, previous, "adjacent"@, ONE)),
        )
    }
}

fn make_adjacent_links(id: &str, count: usize) -> (edges: Vec<GraphEdge>)
    ensures
        views(edges@) == adjacent_links(id@, count as nat, 1, Seq::empty()),
{
    let mut edges: Vec<GraphEdge> = Vec::new();
    assert(views(edges@) =~= Seq::<EdgeView>::empty());
    let mut index: usize = 1;
    while index < count
        invariant
            1 <= index,
            adjacent_links(id@, count as nat, index as nat, views(edges@)) == adjacent_links(id@, count as nat, 1, Seq::empty()),
        decreases count - index,
    {
        let previous = chunk_id(id, index - 1);
        let current = chunk_id(id, index);
        edges.push(edge(previous.as_str(), current.as_str(), "adjacent", ONE));
        edges.push(edge(current.as_str(), previous.as_str(), "adjacent", ONE));
        index = index + 1;
    }
    edges
}

/// The relationships to the chunks found from `from` on, after `done`: each way, where they are
/// alike enough.
pub open spec fn semantic_links(
    rows: Seq<Seq<ValueView>>,
    name: Seq<char>,
    found: Seq<NearChunk>,
    threshold: u64,
    floats: Floats,
    from: nat,
    done: Seq<EdgeView>,
) -> Result<Seq<EdgeView>, ErrorView>
    decreases found.len() - from,
{
    if from >= found.len() {
        Ok(done)
    } else {
        let near = found[from as int];
        if !finite(near.distance) {
            Err(misuse("graph table contains an invalid finite score"@))
        } else {
            let alike = similarity(near.distance, floats);
            if exceeds(threshold, alike) {
                semantic_links(rows, name, found, threshold, floats, from + 1, done)
            } else {
                match text_in(rows[near.row as int], 0) {
                    Err(error) => Err(error),
                    Ok(other) => semantic_links(
                        rows,
                        name,
                        found,
                        threshold,
                        floats,
                        from + 1,
                        done.push(link(name, other, "semantic"@, alike)).push(link(other, name, "semantic"@, alike)),
                    ),
                }
            }
        }
    }
}

/// The relationships of the document's chunks from `from` on to those of other documents.
pub open spec fn all_semantic_links(
    rows: Seq<Seq<ValueView>>,
    document: DocumentInputView,
    config: ConfigView,
    floats: Floats,
    from: nat,
    done: Seq<EdgeView>,
) -> Result<Seq<EdgeView>, ErrorView>
    decreases document.chunks.len() - from,
{
    if from >= document.chunks.len() {
        Ok(done)
    } else {
        match nearest(rows, document.chunks[from as int].embedding, config.semantic_neighbors, floats) {
            Err(error) => Err(error),
            Ok(found) => match semantic_links(
                rows,
                chunk_name(document.id, from),
                found,
                config.semantic_threshold,
                floats,
                0,
                done,
            ) {
                Err(error) => Err(error),
                Ok(done) => all_semantic_links(rows, document, config, floats, from + 1, done),
            },
        }
    }
}

/// The relationships that a document brings into a collection of these chunks.
pub open spec fn document_links(rows: Seq<Seq<ValueView>>, document: DocumentInputView, config: ConfigView, floats: Floats) -> Result<
    Seq<EdgeView>,
    ErrorView,
> {
    let adjacent = adjacent_links(document.id, document.chunks.len(), 1, Seq::empty());
    if config.semantic_neighbors > 0 {
        all_semantic_links(rows, document, config, floats, 0, adjacent)
    } else {
        Ok(adjacent)
    }
}

fn add_semantic_links<F: Fn(FloatTask) -> FloatReply>(
    f: &F,
    rows: &Vec<Vec<Value>>,
    name: &str,
    found: &Vec<NearChunk>,
    threshold: u64,
    edges: &mut Vec<GraphEdge>,
) -> (result: Result<(), Error>)
    requires
        computes(*f),
        forall|i: int| 0 <= i < found@.len() ==> (#[trigger] found@[i]).row < rows@.len(),
    ensures
        match result {
            Ok(_) => semantic_links(row_views(rows@), name@, found@, threshold, floats(*f), 0, views(old(edges)@)) == Ok::<
                Seq<EdgeView>,
                ErrorView,
            >(views(final(edges)@)),
            Err(error) => semantic_links(row_views(rows@), name@, found@, threshold, floats(*f), 0, views(old(edges)@))
                == Err::<Seq<EdgeView>, ErrorView>(error@),
        },
{
    let mut index: usize = 0;
    while index < found.len()
        invariant
            computes(*f),
            index <= found@.len(),
            forall|i: int| 0 <= i < found@.len() ==> (#[trigger] found@[i]).row < rows@.len(),
            semantic_links(row_views(rows@), name@, found@, threshold, floats(*f), index as nat, views(edges@))
                == semantic_links(row_views(rows@), name@, found@, threshold, floats(*f), 0, views(old(edges)@)),
        decreases found@.len() - index,
    {
        let near: NearChunk = found[index];
        index = index + 1;
        if !is_finite(near.distance) {
            return Err(invalid("graph table contains an invalid finite score"));
        }
        let alike: u64 = similarity_of(f, near.distance);
        if is_larger(threshold, alike) {
            continue;
        }
        assert(row_views(rows@)[near.row as int] == views(rows@[near.row as int]@));
        let other = text_at(&rows[near.row], 0)?;
        edges.push(edge(name, other, "semantic", alike));
        edges.push(edge(other, name, "semantic", alike));
    }
    Ok(())
}

fn make_links<F: Fn(FloatTask) -> FloatReply>(
    f: &F,
    rows: &Vec<Vec<Value>>,
    document: &GraphDocumentInput,
    config: &GraphCollectionConfig,
) -> (result: Result<Vec<GraphEdge>, Error>)
    requires
        computes(*f),
    ensures
        match result {
            Ok(edges) => document_links(row_views(rows@), document@, config@, floats(*f)) == Ok::<
                Seq<EdgeView>,
                ErrorView,
            >(views(edges@)),
            Err(error) => document_links(row_views(rows@), document@, config@, floats(*f)) == Err::<
                Seq<EdgeView>,
                ErrorView,
            >(error@),
        },
{
    let mut edges = make_adjacent_links(document.id.as_str(), document.chunks.len());
    if config.semantic_neighbors == 0 {
        return Ok(edges);
    }
    let ghost adjacent = views(edges@);
    let mut index: usize = 0;
    while index < document.chunks.len()
        invariant
            computes(*f),
            index <= document.chunks@.len(),
            config.semantic_neighbors > 0,
            adjacent == adjacent_links(document@.id, document@.chunks.len(), 1, Seq::empty()),
            all_semantic_links(row_views(rows@), document@, config@, floats(*f), index as nat, views(edges@))
                == all_semantic_links(row_views(rows@), document@, config@, floats(*f), 0, adjacent),
        decreases document.chunks@.len() - index,
    {
        assert(document@.chunks[index as int] == document.chunks@[index as int]@);
        let found = nearest_chunks(f, rows, &document.chunks[index].embedding, config.semantic_neighbors)?;
        let name = chunk_id(document.id.as_str(), index);
        add_semantic_links(f, rows, name.as_str(), &found, config.semantic_threshold, &mut edges)?;
        index = index + 1;
    }
    Ok(edges)
}

pub open spec fn edge_rows(edges: Seq<EdgeView>) -> Seq<Seq<ValueView>> {
    edges.map_values(|edge: EdgeView| row_of_edge(edge))
}

fn make_edge_rows(edges: &Vec<GraphEdge>) -> (rows: Vec<Vec<Value>>)
    ensures
        row_views(rows@) == edge_rows(views(edges@)),
        rows@.len() == edges@.len(),
{
    let mut rows: Vec<Vec<Value>> = Vec::new();
    let ghost all = edge_rows(views(edges@));
    assert(row_views(rows@) =~= all.take(0));
    let mut index: usize = 0;
    while index < edges.len()
        invariant
            index <= edges@.len(),
            all == edge_rows(views(edges@)),
            row_views(rows@) == all.take(index as int),
        decreases edges@.len() - index,
    {
        assert(all[index as int] == row_of_edge(edges@[index as int]@));
        rows.push(edge_row(&edges[index]));
        index = index + 1;
        assert(all.take(index as int) =~= all.take(index - 1).push(all[index - 1]));
    }
    assert(all.take(all.len() as int) =~= all);
    rows
}

/// The catalog, with the old document removed, after the new one has been put in.
#[verifier::opaque]
pub open spec fn document_stored(
    removed: CatalogView,
    info: CollectionView,
    places: GraphPlaces,
    document: DocumentInputView,
    floats: Floats,
) -> Result<(CatalogView, Seq<char>, nat), ErrorView> {
    let chunks = removed.tables[places.chunks as int].table.rows;
    let profile = profile_text(info.config.profile);
    let rows = chunk_rows(document, profile);
    if chunks.len() + document.chunks.len() > MAX_CHUNKS {
        Err(misuse("a graph collection can contain at most 10000 chunks"@))
    } else if (chunks.len() + document.chunks.len()) * info.config.profile.dimensions > MAX_VECTOR_ELEMENTS {
        Err(misuse("graph vector storage exceeds 33554432 elements"@))
    } else {
        match fields_of(removed.tables[places.documents as int].table, document.id, document.metadata, floats) {
            Err(error) => Err(error),
            Ok((free, fields)) => {
                let row = seq![document_row(document, free, fields, rows)];
                match stored(removed, info.tables.documents, row, floats) {
                    Err(error) => Err(error),
                    Ok(with_document) => match document_links(chunks, document, info.config, floats) {
                        Err(error) => Err(error),
                        Ok(edges) => match stored(with_document, info.tables.chunks, rows, floats) {
                            Err(error) => Err(error),
                            Ok(with_chunks) => if with_chunks.tables[places.edges as int].table.rows.len() + edges.len()
                                > MAX_EDGES {
                                Err(misuse("graph edge capacity exceeded"@))
                            } else {
                                match stored(with_chunks, info.tables.edges, edge_rows(edges), floats) {
                                    Err(error) => Err(error),
                                    Ok(done) => match text_fits(
                                        done.tables[places.documents as int].table,
                                        done.tables[places.chunks as int].table,
                                        done.tables[places.edges as int].table,
                                    ) {
                                        Err(error) => Err(error),
                                        Ok(_) => Ok(
                                            (
                                                done,
                                                insert_sql(info.tables.documents, row, floats) + insert_sql(
                                                    info.tables.chunks,
                                                    rows,
                                                    floats,
                                                ) + insert_sql(info.tables.edges, edge_rows(edges), floats),
                                                edges.len(),
                                            ),
                                        ),
                                    },
                                }
                            },
                        },
                    },
                }
            },
        }
    }
}

/// What taking in a document does.
pub open spec fn ingested(catalog: CatalogView, request: IngestRequestView, floats: Floats) -> Result<
    (CatalogView, Seq<char>, IngestView),
    ErrorView,
> {
    let document = request.document;
    match document_checked(document, request.expected_profile) {
        Err(error) => Err(error),
        Ok(_) => match revision_checked(catalog.revision, request.expected_revision) {
            Err(error) => Err(error),
            Ok(_) => match collection_of(catalog, request.collection) {
                Err(error) => Err(error),
                Ok(info) => match profile_checked(info.config.profile, request.expected_profile) {
                    Err(error) => Err(error),
                    Ok(_) => {
                        let places = places_of(catalog, info);
                        let documents = catalog.tables[places.documents as int].table;
                        let chunks = catalog.tables[places.chunks as int].table;
                        let edges = catalog.tables[places.edges as int].table;
                        match capacity_checked(info, documents, chunks, edges, document.preview(), floats) {
                            Err(error) => Err(error),
                            Ok(_) => match stored_document(documents, chunks, document.id) {
                                Err(error) => Err(error),
                                Ok(earlier) => match document_removed(catalog, info.tables, places, document.id) {
                                    Err(error) => Err(error),
                                    Ok(removal) => match document_stored(removal.catalog, info, places, document, floats) {
                                        Err(error) => Err(error),
                                        Ok((done, sql, links)) => Ok(
                                            (
                                                done,
                                                removal.sql + sql,
                                                IngestView {
                                                    collection: info.config.name,
                                                    document_id: document.id,
                                                    revision: 0,
                                                    chunks: document.chunks.len(),
                                                    edges_created: links,
                                                    replaced: earlier is Some,
                                                },
                                            ),
                                        ),
                                    },
                                },
                            },
                        }
                    },
                },
            },
        },
    }
}

/// How many rows a table of a catalog has, in a machine word.
fn row_count(catalog: &Catalog, at: usize) -> (count: usize)
    requires
        at < catalog.tables@.len(),
    ensures
        count == catalog@.tables[at as int].table.rows.len(),
{
    assert(catalog@.tables[at as int] == catalog.tables@[at as int]@);
    catalog.tables[at].table.rows.len()
}

#[verifier::rlimit(60)]
fn store_document<F: Fn(FloatTask) -> FloatReply>(
    f: &F,
    staged: &mut Catalog,
    info: &GraphCollection,
    places: &GraphPlaces,
    document: &GraphDocumentInput,
) -> (result: Result<(String, usize), Error>)
    requires
        computes(*f),
        old(staged).wf(),
        places.documents < old(staged).tables@.len(),
        places.chunks < old(staged).tables@.len(),
        places.edges < old(staged).tables@.len(),
        old(staged)@.tables[places.documents as int].table.columns.len() >= DOCUMENT_BASE_COLUMNS,
    ensures
        final(staged).wf(),
        match result {
            Ok((sql, links)) => document_stored(old(staged)@, info@, *places, document@, floats(*f)) == Ok::<
                (CatalogView, Seq<char>, nat),
                ErrorView,
            >((final(staged)@, sql@, links as nat)),
            Err(error) => document_stored(old(staged)@, info@, *places, document@, floats(*f)) == Err::<
                (CatalogView, Seq<char>, nat),
                ErrorView,
            >(error@),
        },
{
    proof {
        reveal(document_stored);
    }
    let ghost removed = staged@;
    let have: usize = row_count(staged, places.chunks);
    let more: usize = document.chunks.len();
    if have > MAX_CHUNKS || more > MAX_CHUNKS - have {
        return Err(invalid("a graph collection can contain at most 10000 chunks"));
    }
    match (have + more).checked_mul(info.config.profile.dimensions) {
        Some(elements) => {
            if elements > MAX_VECTOR_ELEMENTS {
                return Err(invalid("graph vector storage exceeds 33554432 elements"));
            }
        },
        None => return Err(invalid("graph vector storage exceeds 33554432 elements")),
    }
    let profile = profile_key(&info.config.profile);
    let rows = make_chunk_rows(document, profile.as_str());
    proof {
        assert(removed.tables[places.documents as int] == staged.tables@[places.documents as int]@);
        assert(removed.tables[places.chunks as int] == staged.tables@[places.chunks as int]@);
    }
    let fields = document_fields(
        f,
        &staged.tables[places.documents].table,
        document.id.as_str(),
        &document.metadata,
    )?;
    let mut document_rows: Vec<Vec<Value>> = Vec::new();
    assert(row_views(document_rows@) =~= Seq::<Seq<ValueView>>::empty());
    document_rows.push(make_document_row(document, &fields.free, &fields.values, &rows));
    let ghost row = seq![document_row(document@, fields.free@, views(fields.values@), row_views(rows@))];
    assert(row_views(document_rows@) =~= row);
    let chunk_copy = copy_rows(&staged.tables[places.chunks].table.rows);
    staged.store(f, info.tables.documents.as_str(), &document_rows)?;
    let ghost with_document = staged@;
    let edges = make_links(f, &chunk_copy, document, &info.config)?;
    staged.store(f, info.tables.chunks.as_str(), &rows)?;
    proof {
        lemma_stored_keeps(removed, info@.tables.documents, row, floats(*f));
        lemma_stored_keeps(with_document, info@.tables.chunks, row_views(rows@), floats(*f));
        assert(staged@.tables.len() == staged.tables@.len());
    }
    let links: usize = edges.len();
    let ghost with_chunks = staged@;
    let before: usize = row_count(staged, places.edges);
    if before > MAX_EDGES || links > MAX_EDGES - before {
        return Err(invalid("graph edge capacity exceeded"));
    }
    let linked = make_edge_rows(&edges);
    staged.store(f, info.tables.edges.as_str(), &linked)?;
    proof {
        lemma_stored_keeps(with_chunks, info@.tables.edges, edge_rows(views(edges@)), floats(*f));
        assert(staged@.tables.len() == staged.tables@.len());
        assert(staged@.tables[places.documents as int] == staged.tables@[places.documents as int]@);
        assert(staged@.tables[places.chunks as int] == staged.tables@[places.chunks as int]@);
        assert(staged@.tables[places.edges as int] == staged.tables@[places.edges as int]@);
    }
    validate_text_capacity(
        &staged.tables[places.documents].table,
        &staged.tables[places.chunks].table,
        &staged.tables[places.edges].table,
    )?;
    let mut sql = write_insert(f, info.tables.documents.as_str(), &document_rows);
    sql.append(write_insert(f, info.tables.chunks.as_str(), &rows).as_str());
    sql.append(write_insert(f, info.tables.edges.as_str(), &linked).as_str());
    Ok((sql, links))
}

/// Replaces one document, its chunks and every relationship that touches them.
#[verifier::rlimit(60)]
pub fn stage_ingest<F: Fn(FloatTask) -> FloatReply>(f: &F, catalog: &Catalog, request: &GraphIngestRequest) -> (result: Result<
    StagedGraph<GraphIngestResult>,
    Error,
>)
    requires
        computes(*f),
        catalog.wf(),
    ensures
        staged_wf(result),
        staged_view(result) == ingested(catalog@, request@, floats(*f)),
{
    let document = &request.document;
    validate_document(document, &request.expected_profile)?;
    check_revision(catalog, request.expected_revision)?;
    let (info, places) = open_collection(catalog, request.collection.as_str())?;
    check_profile(&info.config.profile, &request.expected_profile)?;
    proof {
        lemma_collection_tables(catalog@, request.collection@);
        lemma_places_apart(catalog@, info@.config.name, info@, places);
        assert(places == places_of(catalog@, info@));
        assert(catalog@.tables[places.documents as int] == catalog.tables@[places.documents as int]@);
        assert(catalog@.tables[places.chunks as int] == catalog.tables@[places.chunks as int]@);
        assert(catalog@.tables[places.edges as int] == catalog.tables@[places.edges as int]@);
    }
    let documents = &catalog.tables[places.documents].table;
    let chunks = &catalog.tables[places.chunks].table;
    let edges = &catalog.tables[places.edges].table;
    let preview = document.preview();
    check_ingest_capacity(f, &info, documents, chunks, edges, &preview)?;
    let replaced = match read_document(documents, chunks, document.id.as_str())? {
        Some(_) => true,
        None => false,
    };
    let mut staged = catalog.duplicate();
    let removal = remove_document(&mut staged, &info.tables, &places, document.id.as_str())?;
    proof {
        lemma_removal_keeps(catalog@, info@.tables, places, document.id@);
        assert(staged@.tables.len() == staged.tables@.len());
    }
    let (text, links) = store_document(f, &mut staged, &info, &places, document)?;
    let mut sql = removal.sql;
    sql.append(text.as_str());
    Ok(
        StagedGraph {
            catalog: staged,
            sql,
            result: GraphIngestResult {
                collection: info.config.name,
                document_id: document.id.clone(),
                revision: 0,
                chunks: document.chunks.len(),
                edges_created: links,
                replaced,
            },
        },
    )
}

/// The row of a document with other metadata.
pub open spec fn refreshed_row(row: Seq<ValueView>, free: TreeView, fields: Seq<ValueView>, chunks: Seq<Seq<ValueView>>) -> Seq<
    ValueView,
> {
    let head = row.take(6).update(4, ValueView::Text(json_notation(free)));
    head.push(ValueView::Text(fingerprint(head, chunks))) + fields
}

/// The SQL of the assignments to the columns from `from` on, after `done`.
pub open spec fn assignments_from(columns: Seq<ColumnView>, row: Seq<ValueView>, floats: Floats, from: nat, done: Seq<Seq<char>>) -> Seq<
    Seq<char>,
>
    decreases columns.len() - from,
{
    if from >= columns.len() {
        done
    } else {
        assignments_from(columns, row, floats, from + 1, done.push(assignment_sql(columns, row, floats, from)))
    }
}

pub open spec fn assignment_sql(columns: Seq<ColumnView>, row: Seq<ValueView>, floats: Floats, at: nat) -> Seq<char> {
    quoted(columns[at as int].name) + "="@ + stored_value(row[at as int], floats)
}

/// The SQL that changes a document's metadata.
pub open spec fn metadata_sql(
    tables: TablesView,
    columns: Seq<ColumnView>,
    row: Seq<ValueView>,
    id: Seq<char>,
    floats: Floats,
) -> Seq<char> {
    let first = seq![assignment_sql(columns, row, floats, 4), assignment_sql(columns, row, floats, 6)];
    "UPDATE "@ + quoted(tables.documents) + " SET "@ + joined(
        assignments_from(columns, row, floats, DOCUMENT_BASE_COLUMNS as nat, first),
        ","@,
    ) + " WHERE document_id="@ + text_literal(id) + ";"@
}

fn write_assignment<F: Fn(FloatTask) -> FloatReply>(f: &F, columns: &Vec<Column>, row: &Vec<Value>, at: usize) -> (text:
    String)
    requires
        computes(*f),
        at < columns@.len(),
        at < row@.len(),
    ensures
        text@ == assignment_sql(views(columns@), views(row@), floats(*f), at as nat),
{
    proof {
        assert(views(columns@)[at as int] == columns@[at as int]@);
        assert(views(row@)[at as int] == row@[at as int]@);
    }
    let value = sql_value(f, &row[at]);
    join3(quote(columns[at].name.as_str()).as_str(), "=", value.as_str())
}

fn write_metadata<F: Fn(FloatTask) -> FloatReply>(
    f: &F,
    tables: &GraphTables,
    columns: &Vec<Column>,
    row: &Vec<Value>,
    id: &str,
) -> (text: String)
    requires
        computes(*f),
        row@.len() == columns@.len(),
        columns@.len() >= DOCUMENT_BASE_COLUMNS,
    ensures
        text@ == metadata_sql(tables@, views(columns@), views(row@), id@, floats(*f)),
{
    let mut parts: Vec<String> = Vec::new();
    parts.push(write_assignment(f, columns, row, 4));
    parts.push(write_assignment(f, columns, row, 6));
    let ghost first = seq![
        assignment_sql(views(columns@), views(row@), floats(*f), 4),
        assignment_sql(views(columns@), views(row@), floats(*f), 6),
    ];
    assert(views(parts@) =~= first);
    let mut index: usize = DOCUMENT_BASE_COLUMNS;
    while index < columns.len()
        invariant
            computes(*f),
            row@.len() == columns@.len(),
            DOCUMENT_BASE_COLUMNS <= index <= columns@.len(),
            assignments_from(views(columns@), views(row@), floats(*f), index as nat, views(parts@)) == assignments_from(
                views(columns@),
                views(row@),
                floats(*f),
                DOCUMENT_BASE_COLUMNS as nat,
                first,
            ),
        decreases columns@.len() - index,
    {
        parts.push(write_assignment(f, columns, row, index));
        index = index + 1;
    }
    let inner = join_all(&parts, ",");
    let mut text = join3("UPDATE ", quote(tables.documents.as_str()).as_str(), " SET ");
    text.append(inner.as_str());
    text.append(" WHERE document_id=");
    text.append(literal(id).as_str());
    text.append(";");
    text
}

/// The catalog with other metadata for a document.
pub open spec fn metadata_put(catalog: CatalogView, info: CollectionView, id: Seq<char>, metadata: TreeView, floats: Floats) -> Result<
    (CatalogView, Seq<char>, IngestView),
    ErrorView,
> {
    let places = places_of(catalog, info);
    let documents = catalog.tables[places.documents as int].table;
    let chunks = catalog.tables[places.chunks as int].table;
    match stored_document(documents, chunks, id) {
        Err(error) => Err(error),
        Ok(None) => Err(misuse("graph document does not exist"@)),
        Ok(Some(document)) => if !document.chunks_intact {
            Err(misuse("stored document chunks changed; reingest before updating metadata"@))
        } else {
            match fields_of(documents, id, metadata, floats) {
                Err(error) => Err(error),
                Ok((free, fields)) => match row_named(documents.rows, id, 0) {
                    None => Err(misuse("graph document does not exist"@)),
                    Some(at) => {
                        let row = refreshed_row(
                            documents.rows[at as int],
                            free,
                            fields,
                            rows_at(chunks.rows, chunks_of(chunks.rows, id)),
                        );
                        let done = catalog.with_rows(places.documents as nat, documents.rows.update(at as int, row));
                        match text_fits(
                            done.tables[places.documents as int].table,
                            chunks,
                            catalog.tables[places.edges as int].table,
                        ) {
                            Err(error) => Err(error),
                            Ok(_) => Ok(
                                (
                                    done,
                                    metadata_sql(info.tables, documents.columns, row, id, floats),
                                    IngestView {
                                        collection: info.config.name,
                                        document_id: id,
                                        revision: 0,
                                        chunks: document.chunk_count,
                                        edges_created: 0,
                                        replaced: true,
                                    },
                                ),
                            ),
                        }
                    },
                },
            }
        },
    }
}

/// What changing the metadata of a document does.
pub open spec fn metadata_updated(
    catalog: CatalogView,
    name: Seq<char>,
    id: Seq<char>,
    metadata: TreeView,
    expected: u64,
    floats: Floats,
) -> Result<(CatalogView, Seq<char>, IngestView), ErrorView> {
    match text_bounded(id, 512, false, "document id"@) {
        Err(error) => Err(error),
        Ok(_) => match object_checked(metadata, "metadata"@) {
            Err(error) => Err(error),
            Ok(_) => match revision_checked(catalog.revision, expected) {
                Err(error) => Err(error),
                Ok(_) => match collection_of(catalog, name) {
                    Err(error) => Err(error),
                    Ok(info) => metadata_put(catalog, info, id, metadata, floats),
                },
            },
        },
    }
}

/// A field's value can be in its column.
proof fn lemma_fields(
    table: TableView,
    id: Seq<char>,
    free: TreeView,
    from: nat,
    done: Seq<ValueView>,
    floats: Floats,
)
    requires
        DOCUMENT_BASE_COLUMNS <= from <= table.columns.len(),
        done.len() == from - DOCUMENT_BASE_COLUMNS,
        forall|k: int| 0 <= k < done.len() ==> field_fits(table, id, k + DOCUMENT_BASE_COLUMNS, #[trigger] done[k]),
    ensures
        fields_from(table, id, free, from, done, floats) matches Ok((_, fields)) ==> fields.len()
            == table.columns.len() - DOCUMENT_BASE_COLUMNS && forall|k: int|
            0 <= k < fields.len() ==> field_fits(table, id, k + DOCUMENT_BASE_COLUMNS, #[trigger] fields[k]),
    decreases table.columns.len() - from,
{
    if from < table.columns.len() {
        if let Ok(value) = column_value(table, id, free, from, floats) {
            let next = done.push(value);
            assert(field_fits(table, id, from as int, value));
            assert forall|k: int| 0 <= k < next.len() implies field_fits(
                table,
                id,
                k + DOCUMENT_BASE_COLUMNS,
                #[trigger] next[k],
            ) by {
                if k < done.len() {
                    assert(next[k] == done[k]);
                }
            }
            lemma_fields(
                table,
                id,
                json_without(free, table.columns[from as int].name),
                from + 1,
                next,
                floats,
            );
        }
    }
}

/// Whether a column can hold the value, and no document but this one holds it where it is unique.
spec fn field_fits(table: TableView, id: Seq<char>, column: int, value: ValueView) -> bool {
    &&& valid_value(table.columns[column], value)
    &&& table.columns[column].unique && !(value is Null) ==> match holder(
        table.rows,
        column,
        key_of(value),
        table.rows.len(),
    ) {
        Some(row) => text_in(table.rows[row as int], 0) == Ok::<Seq<char>, ErrorView>(id),
        None => true,
    }
}

proof fn lemma_row_named(rows: Seq<Seq<ValueView>>, id: Seq<char>, from: nat)
    ensures
        row_named(rows, id, from) matches Some(at) ==> from <= at < rows.len() && text_in(
            rows[at as int],
            0,
        ) == Ok::<Seq<char>, ErrorView>(id),
    decreases rows.len() - from,
{
    if from < rows.len() {
        lemma_row_named(rows, id, from + 1);
    }
}

/// A document's row with other metadata leaves the table valid.
#[verifier::rlimit(60)]
proof fn lemma_refreshed_valid(
    table: TableView,
    id: Seq<char>,
    at: int,
    free: TreeView,
    fields: Seq<ValueView>,
    chunks: Seq<Seq<ValueView>>,
)
    requires
        table.valid(),
        table.rows.len() <= usize::MAX,
        table.columns.len() >= DOCUMENT_BASE_COLUMNS,
        table.columns.take(DOCUMENT_BASE_COLUMNS as int) == base_document_columns(),
        0 <= at < table.rows.len(),
        text_in(table.rows[at], 0) == Ok::<Seq<char>, ErrorView>(id),
        fields.len() == table.columns.len() - DOCUMENT_BASE_COLUMNS,
        forall|k: int| 0 <= k < fields.len() ==> field_fits(table, id, k + DOCUMENT_BASE_COLUMNS, #[trigger] fields[k]),
    ensures
        table.with_rows(table.rows.update(at, refreshed_row(table.rows[at], free, fields, chunks))).valid(),
        valid_row(table.columns, refreshed_row(table.rows[at], free, fields, chunks)),
{
    let old_row = table.rows[at];
    let row = refreshed_row(old_row, free, fields, chunks);
    let rows = table.rows.update(at, row);
    let base = base_document_columns();
    assert(valid_row(table.columns, old_row));
    assert forall|c: int| 0 <= c < DOCUMENT_BASE_COLUMNS implies table.columns[c] == base[c] by {
        assert(table.columns.take(DOCUMENT_BASE_COLUMNS as int)[c] == table.columns[c]);
    }
    assert(row.len() == table.columns.len());
    assert forall|c: int| 0 <= c < table.columns.len() implies valid_value(
        #[trigger] table.columns[c],
        row[c],
    ) by {
        if c < DOCUMENT_BASE_COLUMNS {
            assert(table.columns[c] == base[c]);
            if c != 4 && c != 6 {
                assert(row[c] == old_row[c]);
                assert(valid_value(table.columns[c], old_row[c]));
            }
        } else {
            assert(row[c] == fields[c - DOCUMENT_BASE_COLUMNS]);
            assert(field_fits(table, id, c, fields[c - DOCUMENT_BASE_COLUMNS]));
        }
    }
    assert(valid_row(table.columns, row));
    assert forall|i: int| 0 <= i < rows.len() implies valid_row(table.columns, #[trigger] rows[i]) by {
        if i != at {
            assert(rows[i] == table.rows[i]);
        }
    }
    assert(row[0] == old_row[0]);
    assert forall|c: int| 0 <= c < table.columns.len() && (#[trigger] table.columns[c]).unique implies distinct_keys(
        rows,
        c,
    ) by {
        assert(distinct_keys(table.rows, c));
        if c < DOCUMENT_BASE_COLUMNS {
            assert(table.columns[c] == base[c]);
            assert(c == 0);
            assert forall|i: int, j: int|
                0 <= i < j < rows.len() && !(rows[i][c] is Null) && !(rows[j][c] is Null) implies key_of(
                #[trigger] rows[i][c],
            ) != key_of(#[trigger] rows[j][c]) by {
                assert(rows[i][c] == table.rows[i][c]);
                assert(rows[j][c] == table.rows[j][c]);
            }
        } else {
            let value = fields[c - DOCUMENT_BASE_COLUMNS];
            assert(row[c] == value);
            assert(field_fits(table, id, c, value));
            lemma_one_holder(table, id, at, c, value);
            assert forall|i: int, j: int|
                0 <= i < j < rows.len() && !(rows[i][c] is Null) && !(rows[j][c] is Null) implies key_of(
                #[trigger] rows[i][c],
            ) != key_of(#[trigger] rows[j][c]) by {
                if i == at {
                    assert(rows[j] == table.rows[j]);
                    assert(key_of(table.rows[j][c]) != key_of(value));
                } else if j == at {
                    assert(rows[i] == table.rows[i]);
                    assert(key_of(table.rows[i][c]) != key_of(value));
                } else {
                    assert(rows[i] == table.rows[i]);
                    assert(rows[j] == table.rows[j]);
                    assert(table.rows[i][c] == rows[i][c]);
                    assert(table.rows[j][c] == rows[j][c]);
                }
            }
        }
    }
}

/// No document but this one holds the value.
proof fn lemma_one_holder(table: TableView, id: Seq<char>, at: int, column: int, value: ValueView)
    requires
        table.valid(),
        table.rows.len() <= usize::MAX,
        table.columns.len() >= DOCUMENT_BASE_COLUMNS,
        table.columns.take(DOCUMENT_BASE_COLUMNS as int) == base_document_columns(),
        0 <= at < table.rows.len(),
        text_in(table.rows[at], 0) == Ok::<Seq<char>, ErrorView>(id),
        0 <= column < table.columns.len(),
        table.columns[column].unique,
        field_fits(table, id, column, value),
    ensures
        forall|i: int|
            0 <= i < table.rows.len() && i != at && !(table.rows[i][column] is Null) && !(value is Null)
                ==> key_of(#[trigger] table.rows[i][column]) != key_of(value),
{
    let key = key_of(value);
    lemma_holder(table.rows, column, key, table.rows.len());
    assert(table.columns.take(DOCUMENT_BASE_COLUMNS as int)[0] == table.columns[0]);
    assert(table.columns[0] == base_document_columns()[0]);
    assert(distinct_keys(table.rows, 0));
    assert(distinct_keys(table.rows, column));
    assert forall|i: int|
        0 <= i < table.rows.len() && i != at && !(table.rows[i][column] is Null) && !(value is Null) implies key_of(
        #[trigger] table.rows[i][column],
    ) != key by {
        if key_of(table.rows[i][column]) == key {
            match holder(table.rows, column, key, table.rows.len()) {
                None => {},
                Some(found) => {
                    let h = found as int;
                    assert(key_of(table.rows[h][column]) == key);
                    if h != i {
                        let (a, b) = if h < i {
                            (h, i)
                        } else {
                            (i, h)
                        };
                        assert(key_of(table.rows[a][column]) != key_of(table.rows[b][column]));
                    }
                    assert(h == i);
                    assert(table.rows[h][0] == ValueView::Text(id));
                    assert(table.rows[at][0] == ValueView::Text(id));
                    let (a, b) = if h < at {
                        (h, at)
                    } else {
                        (at, h)
                    };
                    assert(key_of(table.rows[a][0]) != key_of(table.rows[b][0]));
                },
            }
        }
    }
}

fn refresh_row(row: &Vec<Value>, free: &Json, fields: &Vec<Value>, rows: &Vec<Vec<Value>>, positions: &Vec<usize>) -> (result:
    Vec<Value>)
    requires
        row@.len() >= 6,
        forall|i: int| 0 <= i < positions@.len() ==> (#[trigger] positions@[i]) < rows@.len(),
        positions@.len() <= MAX_CHUNKS,
    ensures
        views(result@) == refreshed_row(
            views(row@),
            free@,
            views(fields@),
            rows_at(row_views(rows@), positions@),
        ),
{
    let mut result: Vec<Value> = Vec::new();
    let ghost head = views(row@).take(6).update(4, ValueView::Text(json_notation(free@)));
    assert(views(result@) =~= head.take(0));
    while result.len() < 6
        invariant
            row@.len() >= 6,
            result@.len() <= 6,
            head == views(row@).take(6).update(4, ValueView::Text(json_notation(free@))),
            views(result@) == head.take(result@.len() as int),
        decreases 6 - result@.len(),
    {
        let index: usize = result.len();
        let value = if index == 4 {
            Value::Text(json_text(free))
        } else {
            row[index].clone()
        };
        assert(head[index as int] == value@);
        result.push(value);
        assert(head.take(index + 1) =~= head.take(index as int).push(head[index as int]));
    }
    assert(head.take(6) =~= head);
    let print = chunk_fingerprint(&result, 6, rows, positions);
    assert(views(result@).take(6) =~= head);
    result.push(Value::Text(print));
    let ghost base = views(result@);
    let mut index: usize = 0;
    assert(base + views(fields@).take(0) =~= base);
    while index < fields.len()
        invariant
            index <= fields@.len(),
            views(result@) == base + views(fields@).take(index as int),
        decreases fields@.len() - index,
    {
        assert(views(fields@)[index as int] == fields@[index as int]@);
        result.push(fields[index].clone());
        index = index + 1;
        assert(views(result@) =~= base + views(fields@).take(index as int));
    }
    assert(views(fields@).take(index as int) =~= views(fields@));
    result
}

#[verifier::rlimit(60)]
fn put_metadata<F: Fn(FloatTask) -> FloatReply>(
    f: &F,
    catalog: &Catalog,
    info: GraphCollection,
    places: &GraphPlaces,
    id: &str,
    metadata: &Json,
) -> (result: Result<StagedGraph<GraphIngestResult>, Error>)
    requires
        computes(*f),
        catalog.wf(),
        opened(catalog@, info@, *places),
        *places == places_of(catalog@, info@),
        places_apart(*places),
    ensures
        staged_wf(result),
        staged_view(result) == metadata_put(catalog@, info@, id@, metadata@, floats(*f)),
{
    proof {
        assert(catalog@.tables.len() == catalog.tables@.len());
        assert(catalog@.tables[places.documents as int] == catalog.tables@[places.documents as int]@);
        assert(catalog@.tables[places.chunks as int] == catalog.tables@[places.chunks as int]@);
        assert(catalog@.tables[places.edges as int] == catalog.tables@[places.edges as int]@);
    }
    let documents = &catalog.tables[places.documents].table;
    let chunks = &catalog.tables[places.chunks].table;
    let document = match read_document(documents, chunks, id)? {
        Some(document) => document,
        None => return Err(invalid("graph document does not exist")),
    };
    if !document.chunks_intact {
        return Err(invalid("stored document chunks changed; reingest before updating metadata"));
    }
    let fields = document_fields(f, documents, id, metadata)?;
    let at: usize = match find_row(&documents.rows, id) {
        Some(at) => at,
        None => return Err(invalid("graph document does not exist")),
    };
    proof {
        assert forall|i: int| 0 <= i < chunks.rows@.len() implies (#[trigger] row_views(chunks.rows@)[i]).len() > 2 by {
            assert(valid_row(chunks@.columns, chunks@.rows[i]));
        }
        assert(documents@.rows[at as int] == views(documents.rows@[at as int]@));
        assert(valid_row(documents@.columns, documents@.rows[at as int]));
    }
    let positions = find_chunks(&chunks.rows, id);
    let row = refresh_row(&documents.rows[at], &fields.free, &fields.values, &chunks.rows, &positions);
    let ghost all = documents@.rows;
    let ghost fresh = views(row@);
    proof {
        lemma_row_named(documents@.rows, id@, 0);
        lemma_fields(documents@, id@, metadata@, DOCUMENT_BASE_COLUMNS as nat, Seq::empty(), floats(*f));
        lemma_small(documents);
        lemma_refreshed_valid(
            documents@,
            id@,
            at as int,
            fields.free@,
            views(fields.values@),
            rows_at(chunks@.rows, positions@),
        );
    }
    let sql = write_metadata(f, &info.tables, &documents.columns, &row, id);
    let mut rows = copy_rows(&documents.rows);
    rows.set(at, row);
    assert(row_views(rows@) =~= all.update(at as int, fresh));
    let mut staged = catalog.duplicate();
    assert(staged@.tables.len() == staged.tables@.len());
    staged.set_rows(places.documents, rows);
    proof {
        assert(staged@.tables.len() == staged.tables@.len());
        assert(staged@.tables[places.documents as int] == staged.tables@[places.documents as int]@);
        assert(staged@.tables[places.chunks as int] == staged.tables@[places.chunks as int]@);
        assert(staged@.tables[places.edges as int] == staged.tables@[places.edges as int]@);
    }
    validate_text_capacity(
        &staged.tables[places.documents].table,
        &staged.tables[places.chunks].table,
        &staged.tables[places.edges].table,
    )?;
    Ok(
        StagedGraph {
            catalog: staged,
            sql,
            result: GraphIngestResult {
                collection: info.config.name,
                document_id: id.to_owned(),
                revision: 0,
                chunks: document.chunk_count,
                edges_created: 0,
                replaced: true,
            },
        },
    )
}

/// Changes the metadata of a document, but not its chunks or their relationships.
pub fn stage_metadata<F: Fn(FloatTask) -> FloatReply>(
    f: &F,
    catalog: &Catalog,
    name: &str,
    id: &str,
    metadata: &Json,
    expected: u64,
) -> (result: Result<StagedGraph<GraphIngestResult>, Error>)
    requires
        computes(*f),
        catalog.wf(),
    ensures
        staged_wf(result),
        staged_view(result) == metadata_updated(catalog@, name@, id@, metadata@, expected, floats(*f)),
{
    bounded_text(id, 512, false, "document id")?;
    check_object(metadata, "metadata")?;
    check_revision(catalog, expected)?;
    let (info, places) = open_collection(catalog, name)?;
    proof {
        lemma_collection_tables(catalog@, name@);
        lemma_places_apart(catalog@, info@.config.name, info@, places);
        assert(places == places_of(catalog@, info@));
    }
    put_metadata(f, catalog, info, &places, id, metadata)
}

} // verus!
