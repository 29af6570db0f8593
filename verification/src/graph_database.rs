//! The operations on graph collections that a database offers.

use vstd::prelude::*;
use crate::arithmetic::{ONE, ZERO};
use crate::catalog::CatalogView;
use crate::database::Database;
use crate::error::{outcome, plain, Error, ErrorView};
use crate::float::{computes, floats, FloatReply, FloatTask, Floats};
use crate::graph::{collection, collection_of, CollectionView, GraphCollection, GraphCollectionConfig};
use crate::graph_browse::{browsed, graph_browse, GraphBrowseRequest, GraphBrowseResult};
use crate::graph_capacity::{capacity_checked, check_ingest_capacity};
use crate::graph_document::{
    preview_checked, read_document, stored_document, validate_preview, DocumentView, GraphDocument, GraphDocumentPreview,
    PreviewView,
};
use crate::graph_edge::EdgeView;
use crate::graph_filters::{filter_condition, predicate, DocumentFilter, FilterView};
use crate::graph_ingest::{ingested, metadata_updated, stage_ingest, stage_metadata, GraphIngestRequest};
use crate::graph_links::{GraphNeighborhoodDirection, GraphRagTraversal, PolicyView};
use crate::graph_neighborhood::{graph_neighborhood, neighborhood_of, GraphNeighborhoodRequest, GraphNeighborhoodResult};
use crate::graph_rag::{graph_rag_candidates, graph_rag_candidates_with_traversal, retrieved, GraphRagSnapshot};
use crate::graph_search::{graph_search, search_result, GraphSearchRequest, GraphSearchResult};
use crate::graph_store::open_collection;
use crate::graph_traversal::GraphRagRequest;
use crate::graph_write::{
    collection_made, document_deleted, graph_committed, places_of, relationship_deleted, relationship_upserted,
    sort_texts, stage_collection, stage_document_deletion, stage_relationship, stage_relationship_deletion,
    texts_sorted, DeleteView, GraphDeleteResult, GraphIngestResult, GraphRelationshipDeleteRequest,
    GraphRelationshipDeleteResult, GraphRelationshipRequest, GraphRelationshipResult, IngestView,
};
use crate::json::Json;
use crate::lexical::{query_checked, validate_query_text};
use crate::lexical_cache::LexicalCache;
use crate::schema::{described_indexes, described_tables, ordered_names, IndexInfo, TableInfo};
use crate::text::{chars_of, lemma_views_push, normalized, string_of, views};
use crate::value::{Column, ColumnView};

verus! {

broadcast use {vstd::string::group_string_axioms, lemma_views_push};

/// Whether a text starts with another.
pub open spec fn starts(text: Seq<char>, head: Seq<char>) -> bool {
    head.len() <= text.len() && text.take(head.len() as int) == head
}

/// Whether a text ends with another.
pub open spec fn ends(text: Seq<char>, tail: Seq<char>) -> bool {
    tail.len() <= text.len() && text.skip(text.len() - tail.len()) == tail
}

/// The name of the collection whose settings a table of this name holds.
pub open spec fn configured(table: Seq<char>) -> Option<Seq<char>> {
    let head = "graph_"@;
    let tail = "_config"@;
    if !starts(table, head) {
        None
    } else {
        let rest = table.skip(head.len() as int);
        if !ends(rest, tail) {
            None
        } else {
            Some(rest.take(rest.len() - tail.len()))
        }
    }
}

/// The names of the collections of the tables from `from` on, after `done`.
pub open spec fn configured_from(names: Seq<Seq<char>>, from: nat, done: Seq<Seq<char>>) -> Seq<Seq<char>>
    decreases names.len() - from,
{
    if from >= names.len() {
        done
    } else {
        match configured(names[from as int]) {
            None => configured_from(names, from + 1, done),
            Some(name) => configured_from(names, from + 1, done.push(name)),
        }
    }
}

/// The collections of these names, from `from` on, after `done`.
pub open spec fn collections_from(catalog: CatalogView, names: Seq<Seq<char>>, from: nat, done: Seq<CollectionView>) -> Result<
    Seq<CollectionView>,
    ErrorView,
>
    decreases names.len() - from,
{
    if from >= names.len() {
        Ok(done)
    } else {
        match collection_of(catalog, names[from as int]) {
            Err(error) => Err(error),
            Ok(info) => collections_from(catalog, names, from + 1, done.push(info)),
        }
    }
}

/// All collections, by name.
pub open spec fn collections_of(catalog: CatalogView) -> Result<Seq<CollectionView>, ErrorView> {
    collections_from(
        catalog,
        texts_sorted(configured_from(ordered_names(catalog.tables), 0, Seq::empty())),
        0,
        Seq::empty(),
    )
}

fn chars_match(chars: &Vec<char>, from: usize, part: &Vec<char>) -> (result: bool)
    requires
        from + part@.len() <= chars@.len(),
    ensures
        result == (chars@.subrange(from as int, from + part@.len()) == part@),
{
    let total: usize = chars.len();
    let mut at: usize = 0;
    while at < part.len()
        invariant
            from + part@.len() <= total,
            total == chars@.len(),
            at <= part@.len(),
            forall|i: int| 0 <= i < at ==> chars@[from + i] == part@[i],
        decreases part@.len() - at,
    {
        if chars[from + at] != part[at] {
            assert(chars@.subrange(from as int, from + part@.len())[at as int] != part@[at as int]);
            return false;
        }
        at = at + 1;
    }
    assert(chars@.subrange(from as int, from + part@.len()) =~= part@);
    true
}

fn read_configured(table: &str) -> (result: Option<String>)
    ensures
        match result {
            Some(name) => configured(table@) == Some(name@),
            None => configured(table@) is None,
        },
{
    let chars = chars_of(table);
    let head = chars_of("graph_");
    let tail = chars_of("_config");
    if chars.len() < head.len() || !chars_match(&chars, 0, &head) {
        assert(head@.len() <= table@.len() ==> table@.take(head@.len() as int) =~= table@.subrange(0, head@.len() as int));
        return None;
    }
    assert(table@.take(head@.len() as int) =~= table@.subrange(0, head@.len() as int));
    let ghost rest = table@.skip(head@.len() as int);
    if chars.len() - head.len() < tail.len() {
        return None;
    }
    let start: usize = chars.len() - tail.len();
    assert(rest.skip(rest.len() - tail@.len()) =~= table@.subrange(start as int, start + tail@.len()));
    if !chars_match(&chars, start, &tail) {
        return None;
    }
    assert(rest.take(rest.len() - tail@.len()) =~= table@.subrange(head@.len() as int, start as int));
    Some(string_of(&chars, head.len(), start))
}

/// What a graph change leaves of a catalog: as it was where the change fails.
pub open spec fn changed<T>(before: CatalogView, staged: Result<(CatalogView, Seq<char>, T), ErrorView>) -> CatalogView {
    match staged {
        Err(_) => before,
        Ok((catalog, _, _)) => graph_committed(before, catalog, None),
    }
}

/// The collection that was made, at the revision that it makes.
pub open spec fn made(before: CatalogView, staged: Result<(CatalogView, Seq<char>, CollectionView), ErrorView>) -> Result<
    CollectionView,
    ErrorView,
> {
    match staged {
        Err(error) => Err(error),
        Ok((catalog, _, info)) => Ok(
            CollectionView { revision: graph_committed(before, catalog, None).revision, ..info },
        ),
    }
}

/// What is said of a document, at the revision that the change makes.
pub open spec fn taken_in(before: CatalogView, staged: Result<(CatalogView, Seq<char>, IngestView), ErrorView>) -> Result<
    IngestView,
    ErrorView,
> {
    match staged {
        Err(error) => Err(error),
        Ok((catalog, _, result)) => Ok(
            IngestView { revision: graph_committed(before, catalog, None).revision, ..result },
        ),
    }
}

/// What is said of a deletion, at the revision that it makes.
pub open spec fn taken_out(before: CatalogView, staged: Result<(CatalogView, Seq<char>, DeleteView), ErrorView>) -> Result<
    DeleteView,
    ErrorView,
> {
    match staged {
        Err(error) => Err(error),
        Ok((catalog, _, result)) => Ok(
            DeleteView { revision: graph_committed(before, catalog, None).revision, ..result },
        ),
    }
}

/// The revision at which a document fits into a collection.
pub open spec fn fitting(catalog: CatalogView, name: Seq<char>, document: PreviewView, floats: Floats) -> Result<u64, ErrorView> {
    match preview_checked(document) {
        Err(error) => Err(error),
        Ok(_) => match collection_of(catalog, name) {
            Err(error) => Err(error),
            Ok(info) => {
                let places = places_of(catalog, info);
                match capacity_checked(
                    info,
                    catalog.tables[places.documents as int].table,
                    catalog.tables[places.chunks as int].table,
                    catalog.tables[places.edges as int].table,
                    document,
                    floats,
                ) {
                    Err(error) => Err(error),
                    Ok(_) => Ok(catalog.revision),
                }
            },
        },
    }
}

/// The document of a collection, where there is one.
pub open spec fn document_of(catalog: CatalogView, name: Seq<char>, id: Seq<char>) -> Result<Option<DocumentView>, ErrorView> {
    match collection_of(catalog, name) {
        Err(error) => Err(error),
        Ok(info) => {
            let places = places_of(catalog, info);
            stored_document(
                catalog.tables[places.documents as int].table,
                catalog.tables[places.chunks as int].table,
                id,
            )
        },
    }
}

/// The collection whose documents filters can be held against.
pub open spec fn filtered(catalog: CatalogView, name: Seq<char>, filters: Seq<FilterView>) -> Result<CollectionView, ErrorView> {
    match collection_of(catalog, name) {
        Err(error) => Err(error),
        Ok(info) => match filter_condition(filters) {
            Err(error) => Err(error),
            Ok(_) => Ok(info),
        },
    }
}

impl Database {
    /// The columns of a table.
    pub fn schema(&self, table_name: &str) -> (result: Result<Vec<Column>, Error>)
        ensures
            match result {
                Ok(columns) => self.catalog@.located(normalized(table_name@)) matches Ok(at) && views(columns@)
                    == self.catalog@.tables[at as int].table.columns,
                Err(error) => self.catalog@.located(normalized(table_name@)) == Err::<nat, ErrorView>(error@),
            },
    {
        self.catalog.schema(table_name)
    }

    /// Table names in order.
    pub fn tables(&self) -> (result: Vec<String>)
        ensures
            views(result@) == ordered_names(self.catalog@.tables),
    {
        self.catalog.table_names()
    }

    /// Table summaries in the order of their names.
    pub fn table_info(&self) -> (result: Vec<TableInfo>)
        ensures
            views(result@) == described_tables(self.catalog@.tables),
    {
        self.catalog.table_info()
    }

    /// The indexes of a table.
    pub fn indexes(&self, table_name: &str) -> (result: Result<Vec<IndexInfo>, Error>)
        requires
            self.wf(),
        ensures
            match result {
                Ok(infos) => self.catalog@.located(normalized(table_name@)) matches Ok(at) && views(infos@)
                    == described_indexes(self.catalog@.tables[at as int].table),
                Err(error) => self.catalog@.located(normalized(table_name@)) == Err::<nat, ErrorView>(error@),
            },
    {
        self.catalog.indexes(table_name)
    }

    /// Makes a collection without fields for documents.
    pub fn graph_create_collection<F: Fn(FloatTask) -> FloatReply>(&mut self, f: &F, config: &GraphCollectionConfig) -> (result: Result<
        GraphCollection,
        Error,
    >)
        requires
            computes(*f),
            old(self).wf(),
        ensures
            final(self).wf(),
            final(self).catalog@ == changed(
                old(self).catalog@,
                collection_made(old(self).catalog@, config@, Seq::empty(), floats(*f)),
            ),
            outcome(result) == made(
                old(self).catalog@,
                collection_made(old(self).catalog@, config@, Seq::empty(), floats(*f)),
            ),
    {
        let none: Vec<Column> = Vec::new();
        assert(views(none@) =~= Seq::<ColumnView>::empty());
        self.graph_create_collection_with_columns(f, config, &none)
    }

    /// Makes a collection whose documents have fields.
    pub fn graph_create_collection_with_columns<F: Fn(FloatTask) -> FloatReply>(
        &mut self,
        f: &F,
        config: &GraphCollectionConfig,
        fields: &Vec<Column>,
    ) -> (result: Result<GraphCollection, Error>)
        requires
            computes(*f),
            old(self).wf(),
        ensures
            final(self).wf(),
            final(self).catalog@ == changed(
                old(self).catalog@,
                collection_made(old(self).catalog@, config@, views(fields@), floats(*f)),
            ),
            outcome(result) == made(
                old(self).catalog@,
                collection_made(old(self).catalog@, config@, views(fields@), floats(*f)),
            ),
    {
        let staged = stage_collection(f, &self.catalog, config, fields)?;
        let mut info = staged.result;
        info.revision = self.commit_graph(staged.catalog, None);
        Ok(info)
    }

    /// The collection of this name.
    pub fn graph_collection(&self, name: &str) -> (result: Result<GraphCollection, Error>)
        ensures
            outcome(result) == collection_of(self.catalog@, name@),
    {
        collection(&self.catalog, name)
    }

    /// All collections, by name.
    pub fn graph_collections(&self) -> (result: Result<Vec<GraphCollection>, Error>)
        ensures
            match result {
                Ok(found) => collections_of(self.catalog@) == Ok::<Seq<CollectionView>, ErrorView>(views(found@)),
                Err(error) => collections_of(self.catalog@) == Err::<Seq<CollectionView>, ErrorView>(error@),
            },
    {
        let tables = self.catalog.table_names();
        let ghost all = views(tables@);
        let mut names: Vec<String> = Vec::new();
        assert(views(names@) =~= Seq::<Seq<char>>::empty());
        let mut at: usize = 0;
        while at < tables.len()
            invariant
                all == views(tables@),
                at <= tables@.len(),
                configured_from(all, at as nat, views(names@)) == configured_from(all, 0, Seq::empty()),
            decreases tables@.len() - at,
        {
            assert(all[at as int] == tables@[at as int]@);
            if let Some(name) = read_configured(tables[at].as_str()) {
                names.push(name);
            }
            at = at + 1;
        }
        let ordered = sort_texts(&names);
        let ghost wanted = views(ordered@);
        let mut found: Vec<GraphCollection> = Vec::new();
        assert(views(found@) =~= Seq::<CollectionView>::empty());
        let mut index: usize = 0;
        while index < ordered.len()
            invariant
                wanted == views(ordered@),
                wanted == texts_sorted(configured_from(ordered_names(self.catalog@.tables), 0, Seq::empty())),
                index <= ordered@.len(),
                collections_from(self.catalog@, wanted, index as nat, views(found@)) == collections_of(self.catalog@),
            decreases ordered@.len() - index,
        {
            assert(wanted[index as int] == ordered@[index as int]@);
            found.push(collection(&self.catalog, ordered[index].as_str())?);
            index = index + 1;
        }
        Ok(found)
    }

    /// The document of a collection, where there is one.
    pub fn graph_document(&self, name: &str, document_id: &str) -> (result: Result<Option<GraphDocument>, Error>)
        requires
            self.wf(),
        ensures
            match result {
                Ok(None) => document_of(self.catalog@, name@, document_id@) == Ok::<Option<DocumentView>, ErrorView>(None),
                Ok(Some(document)) => document_of(self.catalog@, name@, document_id@) == Ok::<
                    Option<DocumentView>,
                    ErrorView,
                >(Some(document@)),
                Err(error) => document_of(self.catalog@, name@, document_id@) == Err::<Option<DocumentView>, ErrorView>(
                    error@,
                ),
            },
    {
        let catalog = &self.catalog;
        let (info, places) = open_collection(catalog, name)?;
        proof {
            assert(places == places_of(catalog@, info@));
            assert(catalog@.tables[places.documents as int] == catalog.tables@[places.documents as int]@);
            assert(catalog@.tables[places.chunks as int] == catalog.tables@[places.chunks as int]@);
        }
        read_document(&catalog.tables[places.documents].table, &catalog.tables[places.chunks].table, document_id)
    }

    /// The revision at which a document fits into a collection.
    pub fn graph_check_ingest_capacity<F: Fn(FloatTask) -> FloatReply>(&self, f: &F, name: &str, document: &GraphDocumentPreview<'_>) -> (result: Result<
        u64,
        Error,
    >)
        requires
            computes(*f),
            self.wf(),
        ensures
            plain(result) == fitting(self.catalog@, name@, document@, floats(*f)),
    {
        validate_preview(document)?;
        let catalog = &self.catalog;
        let (info, places) = open_collection(catalog, name)?;
        proof {
            assert(places == places_of(catalog@, info@));
            assert(catalog@.tables[places.documents as int] == catalog.tables@[places.documents as int]@);
            assert(catalog@.tables[places.chunks as int] == catalog.tables@[places.chunks as int]@);
            assert(catalog@.tables[places.edges as int] == catalog.tables@[places.edges as int]@);
        }
        check_ingest_capacity(
            f,
            &info,
            &catalog.tables[places.documents].table,
            &catalog.tables[places.chunks].table,
            &catalog.tables[places.edges].table,
            document,
        )?;
        Ok(catalog.revision)
    }

    /// The collection, once the filters are known to make a condition.
    pub fn graph_validate_document_filters(&self, collection_name: &str, filters: Vec<DocumentFilter>) -> (result: Result<
        GraphCollection,
        Error,
    >)
        ensures
            outcome(result) == filtered(self.catalog@, collection_name@, views(filters@)),
    {
        let info = collection(&self.catalog, collection_name)?;
        let condition = predicate(filters)?;
        Ok(info)
    }

    /// Takes in a document, in the place of an earlier one of its name.
    pub fn graph_ingest_document<F: Fn(FloatTask) -> FloatReply>(&mut self, f: &F, request: &GraphIngestRequest) -> (result: Result<
        GraphIngestResult,
        Error,
    >)
        requires
            computes(*f),
            old(self).wf(),
        ensures
            final(self).wf(),
            final(self).catalog@ == changed(old(self).catalog@, ingested(old(self).catalog@, request@, floats(*f))),
            outcome(result) == taken_in(old(self).catalog@, ingested(old(self).catalog@, request@, floats(*f))),
    {
        let staged = stage_ingest(f, &self.catalog, request)?;
        let mut result = staged.result;
        result.revision = self.commit_graph(staged.catalog, None);
        Ok(result)
    }

    /// Gives a document other metadata; its chunks and relationships stay.
    pub fn graph_update_document_metadata<F: Fn(FloatTask) -> FloatReply>(
        &mut self,
        f: &F,
        collection_name: &str,
        id: &str,
        metadata: &Json,
        expected_revision: u64,
    ) -> (result: Result<GraphIngestResult, Error>)
        requires
            computes(*f),
            old(self).wf(),
        ensures
            final(self).wf(),
            final(self).catalog@ == changed(
                old(self).catalog@,
                metadata_updated(old(self).catalog@, collection_name@, id@, metadata@, expected_revision, floats(*f)),
            ),
            outcome(result) == taken_in(
                old(self).catalog@,
                metadata_updated(old(self).catalog@, collection_name@, id@, metadata@, expected_revision, floats(*f)),
            ),
    {
        let staged = stage_metadata(f, &self.catalog, collection_name, id, metadata, expected_revision)?;
        let mut result = staged.result;
        result.revision = self.commit_graph(staged.catalog, None);
        Ok(result)
    }

    /// Deletes a document with its chunks and their relationships.
    pub fn graph_delete_document(&mut self, collection_name: &str, id: &str, expected_revision: u64) -> (result: Result<
        GraphDeleteResult,
        Error,
    >)
        requires
            old(self).wf(),
        ensures
            final(self).wf(),
            final(self).catalog@ == changed(
                old(self).catalog@,
                document_deleted(old(self).catalog@, collection_name@, id@, expected_revision),
            ),
            outcome(result) == taken_out(
                old(self).catalog@,
                document_deleted(old(self).catalog@, collection_name@, id@, expected_revision),
            ),
    {
        let staged = stage_document_deletion(&self.catalog, collection_name, id, expected_revision)?;
        let mut result = staged.result;
        result.revision = self.commit_graph(staged.catalog, None);
        Ok(result)
    }

    /// Ranks the nearest chunks, and expands a bounded neighborhood around them.
    pub fn graph_search<F: Fn(FloatTask) -> FloatReply>(&self, f: &F, request: &GraphSearchRequest) -> (result: Result<
        GraphSearchResult,
        Error,
    >)
        requires
            computes(*f),
            self.wf(),
        ensures
            outcome(result) == search_result(self.catalog@, request@, floats(*f)),
    {
        graph_search(f, &self.catalog, request)
    }

    /// Explores the stored relationships around a chunk.
    pub fn graph_neighborhood<F: Fn(FloatTask) -> FloatReply>(&self, f: &F, request: &GraphNeighborhoodRequest) -> (result: Result<
        GraphNeighborhoodResult,
        Error,
    >)
        requires
            computes(*f),
            self.wf(),
        ensures
            outcome(result) == neighborhood_of(self.catalog@, request@, floats(*f)),
    {
        graph_neighborhood(f, &self.catalog, request)
    }

    /// Reads a page of a collection, with citations.
    pub fn graph_browse<F: Fn(FloatTask) -> FloatReply>(&self, f: &F, request: &GraphBrowseRequest) -> (result: Result<
        GraphBrowseResult,
        Error,
    >)
        requires
            computes(*f),
            self.wf(),
        ensures
            outcome(result) == browsed(self.catalog@, request@, floats(*f)),
    {
        graph_browse(f, &self.catalog, request)
    }

    /// Retrieves the candidates of a query, expanded along the relationships that leave a chunk.
    pub fn graph_rag_candidates<F: Fn(FloatTask) -> FloatReply>(
        &self,
        f: &F,
        cache: &mut LexicalCache,
        owners: &Vec<u64>,
        owner: u64,
        storage_id: u64,
        request: &GraphRagRequest,
    ) -> (result: Result<GraphRagSnapshot, Error>)
        requires
            computes(*f),
            self.wf(),
            old(cache).wf(),
        ensures
            final(cache).wf(),
            (final(cache)@, outcome(result)) == retrieved(
                old(cache)@,
                owners@,
                owner,
                storage_id,
                self.catalog@,
                request@,
                (PolicyView {
                    direction: GraphNeighborhoodDirection::Outgoing,
                    kind: None,
                    min_weight: ZERO,
                }),
                floats(*f),
            ),
    {
        graph_rag_candidates(f, &self.catalog, cache, owners, owner, storage_id, request)
    }

    /// Retrieves the candidates of a query, expanded along the relationships that the policy lets
    /// through.
    pub fn graph_rag_candidates_with_traversal<F: Fn(FloatTask) -> FloatReply>(
        &self,
        f: &F,
        cache: &mut LexicalCache,
        owners: &Vec<u64>,
        owner: u64,
        storage_id: u64,
        request: &GraphRagRequest,
        policy: &GraphRagTraversal,
    ) -> (result: Result<GraphRagSnapshot, Error>)
        requires
            computes(*f),
            self.wf(),
            old(cache).wf(),
        ensures
            final(cache).wf(),
            (final(cache)@, outcome(result)) == retrieved(
                old(cache)@,
                owners@,
                owner,
                storage_id,
                self.catalog@,
                request@,
                policy@,
                floats(*f),
            ),
    {
        graph_rag_candidates_with_traversal(f, &self.catalog, cache, owners, owner, storage_id, request, policy)
    }

    /// Makes a relationship, or gives one that is there another weight.
    pub fn graph_upsert_relationship<F: Fn(FloatTask) -> FloatReply>(&mut self, f: &F, request: &GraphRelationshipRequest) -> (result: Result<
        GraphRelationshipResult,
        Error,
    >)
        requires
            computes(*f),
            old(self).wf(),
        ensures
            final(self).wf(),
            final(self).catalog@ == changed(
                old(self).catalog@,
                relationship_upserted(
                    old(self).catalog@,
                    request.collection@,
                    request.expected_revision,
                    (EdgeView {
                        from_chunk: request.from_chunk@,
                        to_chunk: request.to_chunk@,
                        kind: request.kind@,
                        weight: request.weight,
                    }),
                    floats(*f),
                ),
            ),
            match relationship_upserted(
                old(self).catalog@,
                request.collection@,
                request.expected_revision,
                (EdgeView {
                    from_chunk: request.from_chunk@,
                    to_chunk: request.to_chunk@,
                    kind: request.kind@,
                    weight: request.weight,
                }),
                floats(*f),
            ) {
                Err(error) => result matches Err(cause) && cause@ == error,
                Ok((_, _, expected)) => result matches Ok(upserted) && upserted.collection@ == expected.collection
                    && upserted.edge@ == expected.edge && upserted.created == expected.created && upserted.revision
                    == final(self).catalog@.revision,
            },
    {
        let staged = stage_relationship(f, &self.catalog, request)?;
        let mut result = staged.result;
        result.revision = self.commit_graph(staged.catalog, None);
        Ok(result)
    }

    /// Deletes a relationship.
    pub fn graph_delete_relationship(&mut self, request: &GraphRelationshipDeleteRequest) -> (result: Result<
        GraphRelationshipDeleteResult,
        Error,
    >)
        requires
            old(self).wf(),
        ensures
            final(self).wf(),
            final(self).catalog@ == changed(
                old(self).catalog@,
                relationship_deleted(
                    old(self).catalog@,
                    request.collection@,
                    request.expected_revision,
                    (EdgeView {
                        from_chunk: request.from_chunk@,
                        to_chunk: request.to_chunk@,
                        kind: request.kind@,
                        weight: ONE,
                    }),
                ),
            ),
            match relationship_deleted(
                old(self).catalog@,
                request.collection@,
                request.expected_revision,
                (EdgeView {
                    from_chunk: request.from_chunk@,
                    to_chunk: request.to_chunk@,
                    kind: request.kind@,
                    weight: ONE,
                }),
            ) {
                Err(error) => result matches Err(cause) && cause@ == error,
                Ok((_, _, expected)) => result matches Ok(deleted) && deleted.collection@ == expected.collection
                    && deleted.edges_removed == expected.edges_removed && deleted.revision
                    == final(self).catalog@.revision,
            },
    {
        let staged = stage_relationship_deletion(&self.catalog, request)?;
        let mut result = staged.result;
        result.revision = self.commit_graph(staged.catalog, None);
        Ok(result)
    }
}

impl GraphRagRequest {
    /// Fails exactly where a text cannot be asked for.
    pub fn validate_query_text(text: &str) -> (result: Result<(), Error>)
        ensures
            plain(result) == query_checked(text@),
    {
        validate_query_text(text)
    }
}

} // verus!
