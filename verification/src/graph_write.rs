//! Changes to a collection: each is made to a copy of the catalog, with the SQL that does the same.

use vstd::prelude::*;
use crate::arithmetic::ONE;
use crate::catalog::{lemma_table_position, Catalog, CatalogView};
use crate::database::Database;
use crate::error::{plain, Error, ErrorView};
use crate::float::{computes, floats, FloatReply, FloatTask, Floats};
use crate::graph::{
    bounded_text, collection, collection_name, collection_of, document_columns_checked, invalid, literal, misuse,
    named_collection, quote, quoted, schemas_of, schemas_with_columns, table_names, tables_of, text_bounded,
    text_literal, validate_config, validate_document_columns, config_checked, CollectionView, ConfigView,
    GraphCollection, GraphCollectionConfig, GraphEmbeddingProfile, GraphTables, TablesView, DOCUMENT_BASE_COLUMNS,
    MAX_EDGES,
};
use crate::graph_capacity::{document_chunk_ids, document_ids, has_text, text_fits, validate_text_capacity};
use crate::graph_document::{read_document, stored_document};
use crate::graph_edge::{
    check_edge, edge, edge_checked, edge_row, row_named, row_of_edge, find_row, EdgeView, GraphEdge,
};
use crate::graph_store::{
    insert_sql, kept, open_collection, opened, stored, tables_made, write_insert, GraphPlaces,
};
use crate::order::{sort_positions, sorted, Precedes};
use crate::table::{valid_row, Table, TableView};
use crate::text::{join3, join_all, joined, lemma_views_push, rank_text, same_text, text_rank, views, Rank};
use crate::value::{lemma_row_views_push, row_views, Column, ColumnView, Value, ValueView};

verus! {

broadcast use {vstd::string::group_string_axioms, lemma_views_push, lemma_row_views_push};

/// A changed copy of a catalog, with the SQL that does the same and what is said of the change.
pub struct StagedGraph<T> {
    pub catalog: Catalog,
    pub sql: String,
    pub result: T,
}

/// What a staged change is: the catalog, the SQL and the result.
pub open spec fn staged_view<T: View>(result: Result<StagedGraph<T>, Error>) -> Result<(CatalogView, Seq<char>, T::V), ErrorView> {
    match result {
        Ok(staged) => Ok((staged.catalog@, staged.sql@, staged.result@)),
        Err(error) => Err(error@),
    }
}

/// Whether a staged catalog is well formed.
pub open spec fn staged_wf<T>(result: Result<StagedGraph<T>, Error>) -> bool {
    match result {
        Ok(staged) => staged.catalog.wf(),
        Err(_) => true,
    }
}

/// What is said of a document that was taken in.
#[derive(Debug)]
pub struct GraphIngestResult {
    pub collection: String,
    pub document_id: String,
    pub revision: u64,
    pub chunks: usize,
    pub edges_created: usize,
    pub replaced: bool,
}

pub struct IngestView {
    pub collection: Seq<char>,
    pub document_id: Seq<char>,
    pub revision: u64,
    pub chunks: nat,
    pub edges_created: nat,
    pub replaced: bool,
}

impl View for GraphIngestResult {
    type V = IngestView;

    open spec fn view(&self) -> IngestView {
        IngestView {
            collection: self.collection@,
            document_id: self.document_id@,
            revision: self.revision,
            chunks: self.chunks as nat,
            edges_created: self.edges_created as nat,
            replaced: self.replaced,
        }
    }
}

/// What is said of a document that was deleted.
#[derive(Debug)]
pub struct GraphDeleteResult {
    pub document_id: String,
    pub revision: u64,
    pub chunks_removed: usize,
    pub edges_removed: usize,
}

pub struct DeleteView {
    pub document_id: Seq<char>,
    pub revision: u64,
    pub chunks_removed: nat,
    pub edges_removed: nat,
}

impl View for GraphDeleteResult {
    type V = DeleteView;

    open spec fn view(&self) -> DeleteView {
        DeleteView {
            document_id: self.document_id@,
            revision: self.revision,
            chunks_removed: self.chunks_removed as nat,
            edges_removed: self.edges_removed as nat,
        }
    }
}

/// The row of a collection's configuration.
pub open spec fn config_row(config: ConfigView) -> Seq<ValueView> {
    seq![
        ValueView::Integer(1),
        ValueView::Text(config.profile.provider),
        ValueView::Text(config.profile.model),
        ValueView::Integer(config.profile.dimensions as i64),
        ValueView::Integer(config.profile.context_format_version as i64),
        ValueView::Integer(config.semantic_neighbors as i64),
        ValueView::Float(config.semantic_threshold),
    ]
}

fn make_config_row(config: &GraphCollectionConfig) -> (row: Vec<Value>)
    ensures
        views(row@) == config_row(config@),
{
    let row = vec![
        Value::Integer(1),
        Value::Text(config.profile.provider.clone()),
        Value::Text(config.profile.model.clone()),
        Value::Integer(config.profile.dimensions as i64),
        Value::Integer(config.profile.context_format_version as i64),
        Value::Integer(config.semantic_neighbors as i64),
        Value::Float(config.semantic_threshold),
    ];
    assert(views(row@) =~= config_row(config@));
    row
}

/// The catalog with a new collection.
pub open spec fn collection_made(catalog: CatalogView, config: ConfigView, fields: Seq<ColumnView>, floats: Floats) -> Result<
    (CatalogView, Seq<char>, CollectionView),
    ErrorView,
> {
    match named_collection(config.name) {
        Err(error) => Err(error),
        Ok(name) => {
            let config = ConfigView { name, ..config };
            match config_checked(config) {
                Err(error) => Err(error),
                Ok(_) => match document_columns_checked(fields) {
                    Err(error) => Err(error),
                    Ok(_) => {
                        let tables = tables_of(name);
                        match tables_made(
                            catalog,
                            schemas_of(tables, config.profile.dimensions as usize, fields),
                            0,
                            Seq::empty(),
                        ) {
                            Err(error) => Err(error),
                            Ok((made, sql)) => match stored(made, tables.config, seq![config_row(config)], floats) {
                                Err(error) => Err(error),
                                Ok(filled) => match collection_of(filled, name) {
                                    Err(error) => Err(error),
                                    Ok(info) => Ok(
                                        (filled, sql + insert_sql(tables.config, seq![config_row(config)], floats), info),
                                    ),
                                },
                            },
                        }
                    },
                },
            }
        },
    }
}

/// Makes the four tables of a collection, with columns for these fields of its documents.
#[verifier::rlimit(40)]
pub fn stage_collection<F: Fn(FloatTask) -> FloatReply>(
    f: &F,
    catalog: &Catalog,
    config: &GraphCollectionConfig,
    fields: &Vec<Column>,
) -> (result: Result<StagedGraph<GraphCollection>, Error>)
    requires
        computes(*f),
        catalog.wf(),
    ensures
        staged_wf(result),
        staged_view(result) == collection_made(catalog@, config@, views(fields@), floats(*f)),
{
    let name = collection_name(config.name.as_str())?;
    let config = GraphCollectionConfig {
        name,
        profile: GraphEmbeddingProfile {
            provider: config.profile.provider.clone(),
            model: config.profile.model.clone(),
            dimensions: config.profile.dimensions,
            context_format_version: config.profile.context_format_version,
        },
        semantic_neighbors: config.semantic_neighbors,
        semantic_threshold: config.semantic_threshold,
    };
    validate_config(&config)?;
    validate_document_columns(fields.as_slice())?;
    let tables = table_names(config.name.as_str());
    let schemas = schemas_with_columns(&tables, config.profile.dimensions, fields.as_slice());
    let mut staged = catalog.duplicate();
    proof {
        let all = views(schemas@);
        assert(all == schemas_of(tables@, config.profile.dimensions, views(fields@)));
        assert forall|s: int, i: int| 0 <= s < schemas@.len() && 0 <= i < schemas@[s].indexed@.len() implies (
        #[trigger] schemas@[s].indexed@[i]) < schemas@[s].columns@.len() by {
            assert(all[s] == schemas@[s]@);
            assert(all.len() == 4);
            assert(schemas@[s]@.columns.len() == schemas@[s].columns@.len());
        }
    }
    let mut sql = staged.make_tables(&schemas)?;
    let mut rows: Vec<Vec<Value>> = Vec::new();
    assert(row_views(rows@) =~= Seq::<Seq<ValueView>>::empty());
    rows.push(make_config_row(&config));
    assert(row_views(rows@) =~= seq![config_row(config@)]);
    staged.store(f, tables.config.as_str(), &rows)?;
    let text = write_insert(f, tables.config.as_str(), &rows);
    sql.append(text.as_str());
    let info = collection(&staged, config.name.as_str())?;
    Ok(StagedGraph { catalog: staged, sql, result: info })
}

/// Which relationships stay when these chunks go: those that touch none of them.
pub open spec fn edges_staying(rows: Seq<Seq<ValueView>>, ids: Seq<Seq<char>>) -> Seq<bool> {
    rows.map_values(
        |row: Seq<ValueView>|
            match (row[1], row[2]) {
                (ValueView::Text(from), ValueView::Text(to)) => !ids.contains(from) && !ids.contains(to),
                _ => true,
            },
    )
}

/// Which rows stay when those with this text in a column go.
pub open spec fn others_staying(rows: Seq<Seq<ValueView>>, column: int, id: Seq<char>) -> Seq<bool> {
    rows.map_values(|row: Seq<ValueView>| row[column] != ValueView::Text(id))
}

fn keep_edges(rows: &Vec<Vec<Value>>, ids: &Vec<String>) -> (keep: Vec<bool>)
    requires
        forall|i: int| 0 <= i < rows@.len() ==> (#[trigger] row_views(rows@)[i]).len() > 2,
    ensures
        keep@ == edges_staying(row_views(rows@), views(ids@)),
        keep@.len() == rows@.len(),
{
    let mut keep: Vec<bool> = Vec::new();
    let ghost all = edges_staying(row_views(rows@), views(ids@));
    let mut index: usize = 0;
    while index < rows.len()
        invariant
            index <= rows@.len(),
            forall|i: int| 0 <= i < rows@.len() ==> (#[trigger] row_views(rows@)[i]).len() > 2,
            all == edges_staying(row_views(rows@), views(ids@)),
            keep@ == all.take(index as int),
        decreases rows@.len() - index,
    {
        let row = &rows[index];
        proof {
            assert(row_views(rows@)[index as int] == views(row@));
            assert(row_views(rows@)[index as int].len() > 2);
            assert(views(row@)[1] == row@[1]@);
            assert(views(row@)[2] == row@[2]@);
        }
        let stays = match (&row[1], &row[2]) {
            (Value::Text(from), Value::Text(to)) => !has_text(ids, from.as_str()) && !has_text(ids, to.as_str()),
            _ => true,
        };
        assert(all[index as int] == stays);
        keep.push(stays);
        index = index + 1;
        assert(all.take(index as int) =~= all.take(index - 1).push(stays));
    }
    assert(all.take(all.len() as int) =~= all);
    keep
}

fn keep_others(rows: &Vec<Vec<Value>>, column: usize, id: &str) -> (keep: Vec<bool>)
    requires
        forall|i: int| 0 <= i < rows@.len() ==> (#[trigger] row_views(rows@)[i]).len() > column,
    ensures
        keep@ == others_staying(row_views(rows@), column as int, id@),
        keep@.len() == rows@.len(),
{
    let mut keep: Vec<bool> = Vec::new();
    let ghost all = others_staying(row_views(rows@), column as int, id@);
    let mut index: usize = 0;
    while index < rows.len()
        invariant
            index <= rows@.len(),
            forall|i: int| 0 <= i < rows@.len() ==> (#[trigger] row_views(rows@)[i]).len() > column,
            all == others_staying(row_views(rows@), column as int, id@),
            keep@ == all.take(index as int),
        decreases rows@.len() - index,
    {
        let row = &rows[index];
        proof {
            assert(row_views(rows@)[index as int] == views(row@));
            assert(row_views(rows@)[index as int].len() > column);
            assert(views(row@)[column as int] == row@[column as int]@);
        }
        let stays = match &row[column] {
            Value::Text(text) => !same_text(text.as_str(), id),
            _ => true,
        };
        assert(all[index as int] == stays);
        keep.push(stays);
        index = index + 1;
        assert(all.take(index as int) =~= all.take(index - 1).push(stays));
    }
    assert(all.take(all.len() as int) =~= all);
    keep
}

/// Whether one text sorts before another.
pub open spec fn texts_order(texts: Seq<Seq<char>>) -> Precedes {
    |a: usize, b: usize| text_rank(texts[a as int], texts[b as int]) == Rank::Before
}

/// The texts in order.
pub open spec fn texts_sorted(texts: Seq<Seq<char>>) -> Seq<Seq<char>> {
    sorted(texts.len() as usize, texts_order(texts)).map_values(|at: usize| texts[at as int])
}

pub fn sort_texts(texts: &Vec<String>) -> (result: Vec<String>)
    ensures
        views(result@) == texts_sorted(views(texts@)),
        result@.len() == texts@.len(),
{
    let ghost before = texts_order(views(texts@));
    let precedes = |a: usize, b: usize| -> (result: bool)
        requires
            a < texts@.len(),
            b < texts@.len(),
        ensures
            result == before(a, b),
        {
            match rank_text(texts[a].as_str(), texts[b].as_str()) {
                Rank::Before => true,
                _ => false,
            }
        };
    let order = sort_positions(texts.len(), &precedes, Ghost(before));
    let mut result: Vec<String> = Vec::new();
    let mut index: usize = 0;
    while index < order.len()
        invariant
            index <= order@.len(),
            forall|i: int| 0 <= i < order@.len() ==> (#[trigger] order@[i]) < texts@.len(),
            result@.len() == index,
            forall|i: int| 0 <= i < index ==> (#[trigger] result@[i])@ == texts@[order@[i] as int]@,
        decreases order@.len() - index,
    {
        result.push(texts[order[index]].clone());
        index = index + 1;
    }
    assert(views(result@) =~= texts_sorted(views(texts@)));
    result
}

pub open spec fn literals(texts: Seq<Seq<char>>) -> Seq<Seq<char>> {
    texts.map_values(|text: Seq<char>| text_literal(text))
}

/// The SQL that deletes a document with its chunks and their relationships.
pub open spec fn removal_sql(tables: TablesView, ids: Seq<Seq<char>>, id: Seq<char>) -> Seq<char> {
    let listed = joined(texts_sorted(literals(ids)), ","@);
    (if ids.len() == 0 {
        Seq::empty()
    } else {
        "DELETE FROM "@ + quoted(tables.edges) + " WHERE from_chunk IN ("@ + listed + ") OR to_chunk IN ("@ + listed
            + ");"@
    }) + "DELETE FROM "@ + quoted(tables.chunks) + " WHERE document_id="@ + text_literal(id) + ";DELETE FROM "@ + quoted(
        tables.documents,
    ) + " WHERE document_id="@ + text_literal(id) + ";"@
}

fn write_removal(tables: &GraphTables, ids: &Vec<String>, id: &str) -> (sql: String)
    ensures
        sql@ == removal_sql(tables@, views(ids@), id@),
{
    let mut sql = String::new();
    let mut parts: Vec<String> = Vec::new();
    let mut index: usize = 0;
    while index < ids.len()
        invariant
            index <= ids@.len(),
            parts@.len() == index,
            forall|i: int| 0 <= i < index ==> (#[trigger] parts@[i])@ == text_literal(ids@[i]@),
        decreases ids@.len() - index,
    {
        parts.push(literal(ids[index].as_str()));
        index = index + 1;
    }
    assert(views(parts@) =~= literals(views(ids@)));
    let ordered = sort_texts(&parts);
    let listed = join_all(&ordered, ",");
    if ids.len() > 0 {
        sql = join3("DELETE FROM ", quote(tables.edges.as_str()).as_str(), " WHERE from_chunk IN (");
        sql.append(listed.as_str());
        sql.append(") OR to_chunk IN (");
        sql.append(listed.as_str());
        sql.append(");");
    }
    let name = literal(id);
    sql.append("DELETE FROM ");
    sql.append(quote(tables.chunks.as_str()).as_str());
    sql.append(" WHERE document_id=");
    sql.append(name.as_str());
    sql.append(";DELETE FROM ");
    sql.append(quote(tables.documents.as_str()).as_str());
    sql.append(" WHERE document_id=");
    sql.append(name.as_str());
    sql.append(";");
    sql
}

/// A catalog without a document, and how many chunks and relationships went with it.
pub struct RemovalView {
    pub catalog: CatalogView,
    pub sql: Seq<char>,
    pub chunks: nat,
    pub edges: nat,
}

/// The catalog without a document, its chunks and their relationships.
#[verifier::opaque]
pub open spec fn document_removed(catalog: CatalogView, tables: TablesView, places: GraphPlaces, id: Seq<char>) -> Result<
    RemovalView,
    ErrorView,
> {
    let documents = catalog.tables[places.documents as int].table.rows;
    let chunks = catalog.tables[places.chunks as int].table.rows;
    let edges = catalog.tables[places.edges as int].table.rows;
    match document_ids(chunks, edges, id) {
        Err(error) => Err(error),
        Ok((ids, count)) => {
            let edges_left = kept(edges, edges_staying(edges, ids), 0, Seq::empty());
            let without_edges = catalog.with_rows(places.edges as nat, edges_left);
            let without_chunks = without_edges.with_rows(
                places.chunks as nat,
                kept(chunks, others_staying(chunks, 1, id), 0, Seq::empty()),
            );
            let without_document = without_chunks.with_rows(
                places.documents as nat,
                kept(documents, others_staying(documents, 0, id), 0, Seq::empty()),
            );
            Ok(
                RemovalView {
                    catalog: without_document,
                    sql: removal_sql(tables, ids, id),
                    chunks: count,
                    edges: (edges.len() - edges_left.len()) as nat,
                },
            )
        },
    }
}

/// Removing a document keeps the tables where they are, with their columns.
pub proof fn lemma_removal_keeps(catalog: CatalogView, tables: TablesView, places: GraphPlaces, id: Seq<char>)
    requires
        places.documents < catalog.tables.len(),
        places.chunks < catalog.tables.len(),
        places.edges < catalog.tables.len(),
    ensures
        document_removed(catalog, tables, places, id) matches Ok(removal) ==> removal.catalog.tables.len()
            == catalog.tables.len() && forall|i: int|
            0 <= i < catalog.tables.len() ==> (#[trigger] removal.catalog.tables[i]).table.columns
                == catalog.tables[i].table.columns && removal.catalog.tables[i].name == catalog.tables[i].name,
{
    reveal(document_removed);
}

/// What a removal took away.
pub struct Removal {
    pub sql: String,
    pub chunks: usize,
    pub edges: usize,
}

/// Whether the positions are those of three tables.
pub open spec fn places_apart(places: GraphPlaces) -> bool {
    places.documents != places.chunks && places.chunks != places.edges && places.documents != places.edges
}

pub proof fn lemma_places_apart(catalog: CatalogView, name: Seq<char>, info: CollectionView, places: GraphPlaces)
    requires
        info.tables == tables_of(name),
        opened(catalog, info, places),
    ensures
        places_apart(places),
{
    let tables = info.tables;
    lemma_table_position(catalog.tables, tables.documents, 0);
    lemma_table_position(catalog.tables, tables.chunks, 0);
    lemma_table_position(catalog.tables, tables.edges, 0);
    reveal_strlit("_documents");
    reveal_strlit("_chunks");
    reveal_strlit("_edges");
    let head = "graph_"@ + name;
    assert(tables.documents.len() == head.len() + 10);
    assert(tables.chunks.len() == head.len() + 7);
    assert(tables.edges.len() == head.len() + 6);
}

#[verifier::rlimit(40)]
pub(crate) fn remove_document(catalog: &mut Catalog, tables: &GraphTables, places: &GraphPlaces, id: &str) -> (result: Result<
    Removal,
    Error,
>)
    requires
        old(catalog).wf(),
        places_apart(*places),
        places.documents < old(catalog).tables@.len(),
        places.chunks < old(catalog).tables@.len(),
        places.edges < old(catalog).tables@.len(),
        old(catalog)@.tables[places.documents as int].table.columns.len() >= DOCUMENT_BASE_COLUMNS,
        old(catalog)@.tables[places.chunks as int].table.columns.len() == 9,
        old(catalog)@.tables[places.edges as int].table.columns.len() == 5,
    ensures
        final(catalog).wf(),
        match result {
            Ok(removal) => document_removed(old(catalog)@, tables@, *places, id@) == Ok::<RemovalView, ErrorView>(
                RemovalView {
                    catalog: final(catalog)@,
                    sql: removal.sql@,
                    chunks: removal.chunks as nat,
                    edges: removal.edges as nat,
                },
            ),
            Err(error) => document_removed(old(catalog)@, tables@, *places, id@) == Err::<RemovalView, ErrorView>(error@),
        },
{
    proof {
        reveal(document_removed);
    }
    let ghost before = catalog@;
    proof {
        assert(before.tables[places.documents as int] == catalog.tables@[places.documents as int]@);
        assert(before.tables[places.chunks as int] == catalog.tables@[places.chunks as int]@);
        assert(before.tables[places.edges as int] == catalog.tables@[places.edges as int]@);
        let documents = before.tables[places.documents as int].table;
        let chunks = before.tables[places.chunks as int].table;
        let edges = before.tables[places.edges as int].table;
        assert(documents.valid() && chunks.valid() && edges.valid());
        assert forall|i: int| 0 <= i < documents.rows.len() implies (#[trigger] documents.rows[i]).len() > 0 by {
            assert(valid_row(documents.columns, documents.rows[i]));
        }
        assert forall|i: int| 0 <= i < chunks.rows.len() implies (#[trigger] chunks.rows[i]).len() > 1 by {
            assert(valid_row(chunks.columns, chunks.rows[i]));
        }
        assert forall|i: int| 0 <= i < edges.rows.len() implies (#[trigger] edges.rows[i]).len() > 2 by {
            assert(valid_row(edges.columns, edges.rows[i]));
        }
    }
    let found = document_chunk_ids(&catalog.tables[places.chunks].table, &catalog.tables[places.edges].table, id)?;
    let edge_keep = keep_edges(&catalog.tables[places.edges].table.rows, &found.ids);
    let chunk_keep = keep_others(&catalog.tables[places.chunks].table.rows, 1, id);
    let document_keep = keep_others(&catalog.tables[places.documents].table.rows, 0, id);
    let edges: usize = catalog.retain(places.edges, &edge_keep);
    proof {
        assert(catalog@.tables.len() == catalog.tables@.len());
        assert(catalog@.tables[places.chunks as int] == before.tables[places.chunks as int]);
        assert(catalog@.tables[places.chunks as int] == catalog.tables@[places.chunks as int]@);
        assert(catalog.tables@[places.chunks as int].table.rows@.len() == before.tables[places.chunks as int].table.rows.len());
    }
    let _ = catalog.retain(places.chunks, &chunk_keep);
    proof {
        assert(catalog@.tables.len() == catalog.tables@.len());
        assert(catalog@.tables[places.documents as int] == before.tables[places.documents as int]);
        assert(catalog@.tables[places.documents as int] == catalog.tables@[places.documents as int]@);
        assert(catalog.tables@[places.documents as int].table.rows@.len()
            == before.tables[places.documents as int].table.rows.len());
    }
    let _ = catalog.retain(places.documents, &document_keep);
    let sql = write_removal(tables, &found.ids, id);
    Ok(Removal { sql, chunks: found.count, edges })
}

/// Whether a catalog is still at the revision that a change was prepared for.
pub open spec fn revision_checked(actual: u64, expected: u64) -> Result<(), ErrorView> {
    if actual == expected {
        Ok(())
    } else {
        Err(ErrorView::RevisionConflict { expected: expected as nat, actual: actual as nat })
    }
}

pub fn check_revision(catalog: &Catalog, expected: u64) -> (result: Result<(), Error>)
    ensures
        plain(result) == revision_checked(catalog@.revision, expected),
{
    if catalog.revision == expected {
        Ok(())
    } else {
        Err(Error::RevisionConflict { expected, actual: catalog.revision })
    }
}

/// What deleting a document does.
pub open spec fn document_deleted(catalog: CatalogView, name: Seq<char>, id: Seq<char>, expected: u64) -> Result<
    (CatalogView, Seq<char>, DeleteView),
    ErrorView,
> {
    match text_bounded(id, 512, false, "document id"@) {
        Err(error) => Err(error),
        Ok(_) => match revision_checked(catalog.revision, expected) {
            Err(error) => Err(error),
            Ok(_) => match collection_of(catalog, name) {
                Err(error) => Err(error),
                Ok(info) => {
                    let places = places_of(catalog, info);
                    match stored_document(
                        catalog.tables[places.documents as int].table,
                        catalog.tables[places.chunks as int].table,
                        id,
                    ) {
                        Err(error) => Err(error),
                        Ok(None) => Err(misuse("graph document does not exist"@)),
                        Ok(Some(_)) => match document_removed(catalog, info.tables, places, id) {
                            Err(error) => Err(error),
                            Ok(removal) => Ok(
                                (
                                    removal.catalog,
                                    removal.sql,
                                    DeleteView {
                                        document_id: id,
                                        revision: 0,
                                        chunks_removed: removal.chunks,
                                        edges_removed: removal.edges,
                                    },
                                ),
                            ),
                        },
                    }
                },
            },
        },
    }
}

/// The positions of a collection's tables.
pub open spec fn places_of(catalog: CatalogView, info: CollectionView) -> GraphPlaces {
    GraphPlaces {
        documents: catalog.located(info.tables.documents)->Ok_0 as usize,
        chunks: catalog.located(info.tables.chunks)->Ok_0 as usize,
        edges: catalog.located(info.tables.edges)->Ok_0 as usize,
    }
}

pub proof fn lemma_collection_tables(catalog: CatalogView, name: Seq<char>)
    ensures
        collection_of(catalog, name) matches Ok(info) ==> info.tables == tables_of(info.config.name),
{
    reveal(collection_of);
}

/// Deletes a document with its chunks and their relationships.
pub fn stage_document_deletion(catalog: &Catalog, name: &str, id: &str, expected: u64) -> (result: Result<
    StagedGraph<GraphDeleteResult>,
    Error,
>)
    requires
        catalog.wf(),
    ensures
        staged_wf(result),
        staged_view(result) == document_deleted(catalog@, name@, id@, expected),
{
    bounded_text(id, 512, false, "document id")?;
    check_revision(catalog, expected)?;
    let (info, places) = open_collection(catalog, name)?;
    proof {
        lemma_collection_tables(catalog@, name@);
        lemma_places_apart(catalog@, info@.config.name, info@, places);
        assert(places == places_of(catalog@, info@));
        assert(catalog@.tables[places.documents as int] == catalog.tables@[places.documents as int]@);
        assert(catalog@.tables[places.chunks as int] == catalog.tables@[places.chunks as int]@);
    }
    match read_document(&catalog.tables[places.documents].table, &catalog.tables[places.chunks].table, id)? {
        Some(_) => {},
        None => return Err(invalid("graph document does not exist")),
    }
    let mut staged = catalog.duplicate();
    let removal = remove_document(&mut staged, &info.tables, &places, id)?;
    Ok(
        StagedGraph {
            catalog: staged,
            sql: removal.sql,
            result: GraphDeleteResult {
                document_id: id.to_owned(),
                revision: 0,
                chunks_removed: removal.chunks,
                edges_removed: removal.edges,
            },
        },
    )
}

/// A relationship to make or to change.
#[derive(Debug)]
pub struct GraphRelationshipRequest {
    pub collection: String,
    pub expected_revision: u64,
    pub from_chunk: String,
    pub to_chunk: String,
    pub kind: String,
    pub weight: u64,
}

/// What is said of a relationship that was made or changed.
#[derive(Debug)]
pub struct GraphRelationshipResult {
    pub collection: String,
    pub revision: u64,
    pub edge: GraphEdge,
    pub created: bool,
}

pub struct RelationshipView {
    pub collection: Seq<char>,
    pub revision: u64,
    pub edge: EdgeView,
    pub created: bool,
}

impl View for GraphRelationshipResult {
    type V = RelationshipView;

    open spec fn view(&self) -> RelationshipView {
        RelationshipView {
            collection: self.collection@,
            revision: self.revision,
            edge: self.edge@,
            created: self.created,
        }
    }
}

/// A relationship to delete.
#[derive(Debug)]
pub struct GraphRelationshipDeleteRequest {
    pub collection: String,
    pub expected_revision: u64,
    pub from_chunk: String,
    pub to_chunk: String,
    pub kind: String,
}

/// What is said of a relationship that was deleted.
#[derive(Debug)]
pub struct GraphRelationshipDeleteResult {
    pub collection: String,
    pub revision: u64,
    pub edges_removed: usize,
}

pub struct RelationshipDeleteView {
    pub collection: Seq<char>,
    pub revision: u64,
    pub edges_removed: nat,
}

impl View for GraphRelationshipDeleteResult {
    type V = RelationshipDeleteView;

    open spec fn view(&self) -> RelationshipDeleteView {
        RelationshipDeleteView {
            collection: self.collection@,
            revision: self.revision,
            edges_removed: self.edges_removed as nat,
        }
    }
}

/// Which rows stay when those of this relationship go.
pub open spec fn relations_staying(rows: Seq<Seq<ValueView>>, edge: EdgeView) -> Seq<bool> {
    rows.map_values(
        |row: Seq<ValueView>|
            !(row[1] == ValueView::Text(edge.from_chunk) && row[2] == ValueView::Text(edge.to_chunk) && row[3]
                == ValueView::Text(edge.kind)),
    )
}

fn is_text(value: &Value, text: &str) -> (result: bool)
    ensures
        result == (value@ == ValueView::Text(text@)),
{
    match value {
        Value::Text(found) => same_text(found.as_str(), text),
        _ => false,
    }
}

fn keep_relations(rows: &Vec<Vec<Value>>, edge: &GraphEdge) -> (keep: Vec<bool>)
    requires
        forall|i: int| 0 <= i < rows@.len() ==> (#[trigger] row_views(rows@)[i]).len() > 3,
    ensures
        keep@ == relations_staying(row_views(rows@), edge@),
        keep@.len() == rows@.len(),
{
    let mut keep: Vec<bool> = Vec::new();
    let ghost all = relations_staying(row_views(rows@), edge@);
    let mut index: usize = 0;
    while index < rows.len()
        invariant
            index <= rows@.len(),
            forall|i: int| 0 <= i < rows@.len() ==> (#[trigger] row_views(rows@)[i]).len() > 3,
            all == relations_staying(row_views(rows@), edge@),
            keep@ == all.take(index as int),
        decreases rows@.len() - index,
    {
        let row = &rows[index];
        proof {
            assert(row_views(rows@)[index as int] == views(row@));
            assert(row_views(rows@)[index as int].len() > 3);
            assert(views(row@)[1] == row@[1]@);
            assert(views(row@)[2] == row@[2]@);
            assert(views(row@)[3] == row@[3]@);
        }
        let stays = !(is_text(&row[1], edge.from_chunk.as_str()) && is_text(&row[2], edge.to_chunk.as_str()) && is_text(
            &row[3],
            edge.kind.as_str(),
        ));
        assert(all[index as int] == stays);
        keep.push(stays);
        index = index + 1;
        assert(all.take(index as int) =~= all.take(index - 1).push(stays));
    }
    assert(all.take(all.len() as int) =~= all);
    keep
}

/// The SQL that deletes a relationship.
pub open spec fn relation_sql(tables: TablesView, edge: EdgeView) -> Seq<char> {
    "DELETE FROM "@ + quoted(tables.edges) + " WHERE from_chunk="@ + text_literal(edge.from_chunk) + " AND to_chunk="@
        + text_literal(edge.to_chunk) + " AND kind="@ + text_literal(edge.kind) + ";"@
}

/// The catalog without a relationship, how many rows it had, and the SQL where it had any.
pub open spec fn relation_removed(catalog: CatalogView, tables: TablesView, places: GraphPlaces, edge: EdgeView) -> (
    CatalogView,
    nat,
    Seq<char>,
) {
    let rows = catalog.tables[places.edges as int].table.rows;
    let left = kept(rows, relations_staying(rows, edge), 0, Seq::empty());
    let removed = (rows.len() - left.len()) as nat;
    (
        catalog.with_rows(places.edges as nat, left),
        removed,
        if removed > 0 {
            relation_sql(tables, edge)
        } else {
            Seq::empty()
        },
    )
}

fn remove_relationship(catalog: &mut Catalog, tables: &GraphTables, places: &GraphPlaces, edge: &GraphEdge) -> (result: (
    usize,
    String,
))
    requires
        old(catalog).wf(),
        places.edges < old(catalog).tables@.len(),
        old(catalog)@.tables[places.edges as int].table.columns.len() == 5,
    ensures
        final(catalog).wf(),
        (final(catalog)@, result.0 as nat, result.1@) == relation_removed(old(catalog)@, tables@, *places, edge@),
{
    let ghost before = catalog@;
    proof {
        assert(before.tables[places.edges as int] == catalog.tables@[places.edges as int]@);
        let edges = before.tables[places.edges as int].table;
        assert(edges.valid());
        assert forall|i: int| 0 <= i < edges.rows.len() implies (#[trigger] edges.rows[i]).len() > 3 by {
            assert(valid_row(edges.columns, edges.rows[i]));
        }
    }
    let keep = keep_relations(&catalog.tables[places.edges].table.rows, edge);
    let removed: usize = catalog.retain(places.edges, &keep);
    let mut sql = String::new();
    if removed > 0 {
        sql = join3("DELETE FROM ", quote(tables.edges.as_str()).as_str(), " WHERE from_chunk=");
        sql.append(literal(edge.from_chunk.as_str()).as_str());
        sql.append(" AND to_chunk=");
        sql.append(literal(edge.to_chunk.as_str()).as_str());
        sql.append(" AND kind=");
        sql.append(literal(edge.kind.as_str()).as_str());
        sql.append(";");
    }
    (removed, sql)
}

/// Whether both ends of a relationship are chunks.
pub open spec fn endpoints_checked(chunks: TableView, edge: EdgeView) -> Result<(), ErrorView> {
    if row_named(chunks.rows, edge.from_chunk, 0) is Some && row_named(chunks.rows, edge.to_chunk, 0) is Some {
        Ok(())
    } else {
        Err(misuse("relationship endpoints must be existing chunks in this collection"@))
    }
}

fn validate_endpoints(chunks: &Table, edge: &GraphEdge) -> (result: Result<(), Error>)
    ensures
        plain(result) == endpoints_checked(chunks@, edge@),
{
    if find_row(&chunks.rows, edge.from_chunk.as_str()).is_some() && find_row(
        &chunks.rows,
        edge.to_chunk.as_str(),
    ).is_some() {
        Ok(())
    } else {
        Err(invalid("relationship endpoints must be existing chunks in this collection"))
    }
}

/// The catalog with one row for a relationship, in place of any that it had.
pub open spec fn relation_put(catalog: CatalogView, info: CollectionView, edge: EdgeView, floats: Floats) -> Result<
    (CatalogView, Seq<char>, RelationshipView),
    ErrorView,
> {
    let places = places_of(catalog, info);
    match endpoints_checked(catalog.tables[places.chunks as int].table, edge) {
        Err(error) => Err(error),
        Ok(_) => {
            let (removed, count, sql) = relation_removed(catalog, info.tables, places, edge);
            if removed.tables[places.edges as int].table.rows.len() >= MAX_EDGES {
                Err(misuse("graph edge capacity exceeded"@))
            } else {
                match stored(removed, info.tables.edges, seq![row_of_edge(edge)], floats) {
                    Err(error) => Err(error),
                    Ok(done) => match text_fits(
                        done.tables[places.documents as int].table,
                        done.tables[places.chunks as int].table,
                        done.tables[places.edges as int].table,
                    ) {
                        Err(error) => Err(error),
                        Ok(_) => Ok(
                            (
                                done,
                                sql + insert_sql(info.tables.edges, seq![row_of_edge(edge)], floats),
                                RelationshipView {
                                    collection: info.config.name,
                                    revision: 0,
                                    edge,
                                    created: count == 0,
                                },
                            ),
                        ),
                    },
                }
            }
        },
    }
}

/// What making or changing a relationship does.
pub open spec fn relationship_upserted(
    catalog: CatalogView,
    name: Seq<char>,
    expected: u64,
    edge: EdgeView,
    floats: Floats,
) -> Result<(CatalogView, Seq<char>, RelationshipView), ErrorView> {
    match edge_checked(edge) {
        Err(error) => Err(error),
        Ok(_) => match revision_checked(catalog.revision, expected) {
            Err(error) => Err(error),
            Ok(_) => match collection_of(catalog, name) {
                Err(error) => Err(error),
                Ok(info) => relation_put(catalog, info, edge, floats),
            },
        },
    }
}

#[verifier::rlimit(40)]
fn put_relation<F: Fn(FloatTask) -> FloatReply>(
    f: &F,
    catalog: &Catalog,
    info: GraphCollection,
    places: &GraphPlaces,
    relation: GraphEdge,
) -> (result: Result<StagedGraph<GraphRelationshipResult>, Error>)
    requires
        computes(*f),
        catalog.wf(),
        opened(catalog@, info@, *places),
        *places == places_of(catalog@, info@),
    ensures
        staged_wf(result),
        staged_view(result) == relation_put(catalog@, info@, relation@, floats(*f)),
{
    assert(catalog@.tables.len() == catalog.tables@.len());
    assert(catalog@.tables[places.chunks as int] == catalog.tables@[places.chunks as int]@);
    validate_endpoints(&catalog.tables[places.chunks].table, &relation)?;
    let mut staged = catalog.duplicate();
    assert(staged@.tables.len() == staged.tables@.len());
    let (removed, deletion) = remove_relationship(&mut staged, &info.tables, places, &relation);
    let ghost without = staged@;
    proof {
        assert(staged@.tables.len() == staged.tables@.len());
        assert(staged@.tables[places.edges as int] == staged.tables@[places.edges as int]@);
    }
    if staged.tables[places.edges].table.rows.len() >= MAX_EDGES {
        return Err(invalid("graph edge capacity exceeded"));
    }
    let mut rows: Vec<Vec<Value>> = Vec::new();
    assert(row_views(rows@) =~= Seq::<Seq<ValueView>>::empty());
    rows.push(edge_row(&relation));
    assert(row_views(rows@) =~= seq![row_of_edge(relation@)]);
    staged.store(f, info.tables.edges.as_str(), &rows)?;
    proof {
        lemma_stored_keeps(without, info@.tables.edges, row_views(rows@), floats(*f));
        assert(staged@.tables.len() == staged.tables@.len());
        assert(staged@.tables[places.documents as int] == staged.tables@[places.documents as int]@);
        assert(staged@.tables[places.chunks as int] == staged.tables@[places.chunks as int]@);
        assert(staged@.tables[places.edges as int] == staged.tables@[places.edges as int]@);
    }
    validate_text_capacity(
        &staged.tables[places.documents].table,
        &staged.tables[places.chunks].table,
        &staged.tables[places.edges].table,
    )?;
    let mut sql = deletion;
    sql.append(write_insert(f, info.tables.edges.as_str(), &rows).as_str());
    Ok(
        StagedGraph {
            catalog: staged,
            sql,
            result: GraphRelationshipResult {
                collection: info.config.name,
                revision: 0,
                edge: relation,
                created: removed == 0,
            },
        },
    )
}

/// Putting rows into a table keeps the tables where they are, with their columns.
pub proof fn lemma_stored_keeps(catalog: CatalogView, name: Seq<char>, rows: Seq<Seq<ValueView>>, floats: Floats)
    ensures
        stored(catalog, name, rows, floats) matches Ok(after) ==> after.tables.len() == catalog.tables.len() && forall|
            i: int,
        |
            0 <= i < catalog.tables.len() ==> (#[trigger] after.tables[i]).table.columns == catalog.tables[i].table.columns
                && after.tables[i].name == catalog.tables[i].name,
{
    lemma_table_position(catalog.tables, name, 0);
}

/// Makes one directed relationship, or changes its weight.
pub fn stage_relationship<F: Fn(FloatTask) -> FloatReply>(f: &F, catalog: &Catalog, request: &GraphRelationshipRequest) -> (result:
    Result<StagedGraph<GraphRelationshipResult>, Error>)
    requires
        computes(*f),
        catalog.wf(),
    ensures
        staged_wf(result),
        staged_view(result) == relationship_upserted(
            catalog@,
            request.collection@,
            request.expected_revision,
            (EdgeView {
                from_chunk: request.from_chunk@,
                to_chunk: request.to_chunk@,
                kind: request.kind@,
                weight: request.weight,
            }),
            floats(*f),
        ),
{
    let relation = check_edge(
        edge(request.from_chunk.as_str(), request.to_chunk.as_str(), request.kind.as_str(), request.weight),
    )?;
    check_revision(catalog, request.expected_revision)?;
    let (info, places) = open_collection(catalog, request.collection.as_str())?;
    assert(places == places_of(catalog@, info@));
    put_relation(f, catalog, info, &places, relation)
}

/// What deleting a relationship does.
pub open spec fn relationship_deleted(catalog: CatalogView, name: Seq<char>, expected: u64, edge: EdgeView) -> Result<
    (CatalogView, Seq<char>, RelationshipDeleteView),
    ErrorView,
> {
    match edge_checked(edge) {
        Err(error) => Err(error),
        Ok(_) => match revision_checked(catalog.revision, expected) {
            Err(error) => Err(error),
            Ok(_) => match collection_of(catalog, name) {
                Err(error) => Err(error),
                Ok(info) => {
                    let places = places_of(catalog, info);
                    match endpoints_checked(catalog.tables[places.chunks as int].table, edge) {
                        Err(error) => Err(error),
                        Ok(_) => {
                            let (removed, count, sql) = relation_removed(catalog, info.tables, places, edge);
                            if count == 0 {
                                Err(misuse("graph relationship does not exist"@))
                            } else {
                                Ok(
                                    (
                                        removed,
                                        sql,
                                        RelationshipDeleteView {
                                            collection: info.config.name,
                                            revision: 0,
                                            edges_removed: count,
                                        },
                                    ),
                                )
                            }
                        },
                    }
                },
            },
        },
    }
}

/// Deletes a directed relationship.
pub fn stage_relationship_deletion(catalog: &Catalog, request: &GraphRelationshipDeleteRequest) -> (result: Result<
    StagedGraph<GraphRelationshipDeleteResult>,
    Error,
>)
    requires
        catalog.wf(),
    ensures
        staged_wf(result),
        staged_view(result) == relationship_deleted(
            catalog@,
            request.collection@,
            request.expected_revision,
            (EdgeView {
                from_chunk: request.from_chunk@,
                to_chunk: request.to_chunk@,
                kind: request.kind@,
                weight: ONE,
            }),
        ),
{
    let relation = check_edge(
        edge(request.from_chunk.as_str(), request.to_chunk.as_str(), request.kind.as_str(), ONE),
    )?;
    check_revision(catalog, request.expected_revision)?;
    let (info, places) = open_collection(catalog, request.collection.as_str())?;
    proof {
        assert(places == places_of(catalog@, info@));
        assert(catalog@.tables[places.chunks as int] == catalog.tables@[places.chunks as int]@);
    }
    validate_endpoints(&catalog.tables[places.chunks].table, &relation)?;
    let mut staged = catalog.duplicate();
    assert(staged@.tables.len() == staged.tables@.len());
    let (removed, sql) = remove_relationship(&mut staged, &info.tables, &places, &relation);
    if removed == 0 {
        return Err(invalid("graph relationship does not exist"));
    }
    Ok(
        StagedGraph {
            catalog: staged,
            sql,
            result: GraphRelationshipDeleteResult { collection: info.config.name, revision: 0, edges_removed: removed },
        },
    )
}

/// A catalog as it is once a staged change is committed: under its own sequence number where it is
/// logged, one revision on where it is not.
pub open spec fn graph_committed(before: CatalogView, staged: CatalogView, sequence: Option<u64>) -> CatalogView {
    match sequence {
        Some(sequence) => staged.sequenced(sequence).revised(sequence),
        None => staged.revised(before.revision.wrapping_add(1)),
    }
}

impl Database {
    /// Makes a staged change visible, and gives the revision that it makes.
    pub fn commit_graph(&mut self, staged: Catalog, sequence: Option<u64>) -> (revision: u64)
        requires
            old(self).wf(),
            staged.wf(),
        ensures
            final(self).wf(),
            final(self).parse_cache == old(self).parse_cache,
            final(self).catalog@ == graph_committed(old(self).catalog@, staged@, sequence),
            revision == final(self).catalog@.revision,
    {
        let mut staged = staged;
        match sequence {
            Some(sequence) => {
                staged.set_sequence(sequence);
                staged.set_revision(sequence);
            },
            None => {
                staged.set_revision(self.catalog.revision.wrapping_add(1));
            },
        }
        self.catalog = staged;
        self.catalog.revision
    }
}

} // verus!
