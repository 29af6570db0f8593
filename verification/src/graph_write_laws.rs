//! What holds of a collection after its documents were changed.

use vstd::prelude::*;
use crate::catalog::{lemma_table_position, table_position, CatalogView};
use crate::error::ErrorView;
use crate::float::Floats;
use crate::graph::{
    chunk_columns, collection_of, edge_columns, named_collection, profile_text, profiles_kept, schemas_kept, schemas_of,
    tables_of, text_bounded, text_in, CollectionView, ConfigView, ProfileView, SchemaView, DOCUMENT_BASE_COLUMNS, MAX_CHUNKS, MAX_EDGES,
};
use crate::graph_capacity::{chunk_names, document_ids, endpoint_names, name_prefix, with_endpoint, with_text};
use crate::graph_database::document_of;
use crate::graph_document::{
    chunks_checked, chunks_of, cites, document_checked, fields_of, fingerprint, ordinal_order, rows_at, stored_document,
    ChunkPreviewView, DocumentInputView, DocumentView,
};
use crate::graph_edge::{edge_checked, edge_in, law_edge_row, row_named, row_of_edge, EdgeView};
use crate::graph_ingest::{
    chunk_row, chunk_rows, document_head, document_links, document_row, document_stored, edge_rows, ingested,
    metadata_updated, refreshed_row, IngestRequestView,
};
use crate::graph_link_laws::{brought, law_document_links};
use crate::graph_store::{kept, lemma_collection_kept, opened, stored, GraphPlaces};
use crate::graph_write::{
    document_deleted, document_removed, edges_staying, lemma_collection_tables, lemma_places_apart, others_staying, places_apart, places_of,
    relations_staying, relationship_deleted, relationship_upserted,
};
use crate::index::{lemma_matching, matching};
use crate::json::{json_notation, json_value, TreeView};
use crate::operators::coerced;
use crate::order::{law_sorted, leads, sorted, weak_order};
use crate::slice::{byte_slice, lemma_slice_within};
use crate::value::{key_of, ColumnView, ValueView};
use crate::write::{coerced_row, typed_row, typed_rows};

verus! {

/// Whether two catalogs have the same tables but for their rows.
pub open spec fn same_tables(before: CatalogView, after: CatalogView) -> bool {
    &&& before.tables.len() == after.tables.len()
    &&& forall|i: int|
        0 <= i < before.tables.len() ==> (#[trigger] after.tables[i]).name == before.tables[i].name
            && after.tables[i].table.columns == before.tables[i].table.columns && after.tables[i].table.indexes
            == before.tables[i].table.indexes
}

pub proof fn lemma_same_position(before: CatalogView, after: CatalogView, name: Seq<char>, from: nat)
    requires
        same_tables(before, after),
    ensures
        table_position(before.tables, name, from) == table_position(after.tables, name, from),
    decreases before.tables.len() - from,
{
    if from < before.tables.len() {
        assert(after.tables[from as int].name == before.tables[from as int].name);
        lemma_same_position(before, after, name, from + 1);
    }
}

proof fn lemma_schemas_stay(before: CatalogView, after: CatalogView, schemas: Seq<SchemaView>, from: nat)
    requires
        same_tables(before, after),
    ensures
        schemas_kept(before, schemas, from) == schemas_kept(after, schemas, from),
    decreases schemas.len() - from,
{
    if from < schemas.len() {
        let name = schemas[from as int].name;
        lemma_same_position(before, after, name, 0);
        lemma_table_position(before.tables, name, 0);
        lemma_schemas_stay(before, after, schemas, from + 1);
    }
}

/// Whether a row is one of those to be kept, from `from` on.
spec fn taken_from(rows: Seq<Seq<ValueView>>, keep: Seq<bool>, from: int, row: Seq<ValueView>) -> bool {
    exists|k: int| from <= k < rows.len() && keep[k] && #[trigger] rows[k] == row
}

/// The rows that stay are those to be kept.
proof fn lemma_kept(rows: Seq<Seq<ValueView>>, keep: Seq<bool>, from: nat, done: Seq<Seq<ValueView>>)
    requires
        from <= rows.len(),
    ensures
        done.len() <= kept(rows, keep, from, done).len() <= done.len() + rows.len() - from,
        kept(rows, keep, from, done).take(done.len() as int) == done,
        forall|i: int|
            done.len() <= i < kept(rows, keep, from, done).len() ==> taken_from(
                rows,
                keep,
                from as int,
                #[trigger] kept(rows, keep, from, done)[i],
            ),
        forall|k: int| from <= k < rows.len() && keep[k] ==> kept(rows, keep, from, done).contains(#[trigger] rows[k]),
    decreases rows.len() - from,
{
    let left = kept(rows, keep, from, done);
    if from < rows.len() {
        let next = if keep[from as int] {
            done.push(rows[from as int])
        } else {
            done
        };
        lemma_kept(rows, keep, from + 1, next);
        assert(left == kept(rows, keep, from + 1, next));
        assert(left.take(done.len() as int) =~= done) by {
            assert(left.take(done.len() as int) =~= left.take(next.len() as int).take(done.len() as int));
            assert(next.take(done.len() as int) =~= done);
        }
        if keep[from as int] {
            assert(left.take(next.len() as int)[done.len() as int] == rows[from as int]);
            assert(left[done.len() as int] == rows[from as int]);
        }
        assert forall|i: int| done.len() <= i < left.len() implies taken_from(rows, keep, from as int, #[trigger] left[i]) by {
            if i < next.len() {
                assert(keep[from as int] && rows[from as int] == left[i]);
            } else {
                assert(taken_from(rows, keep, from as int + 1, left[i]));
            }
        }
        assert forall|k: int| from <= k < rows.len() && keep[k] implies left.contains(#[trigger] rows[k]) by {
            if k == from {
                assert(left[done.len() as int] == rows[k]);
            }
        }
    } else {
        assert(left.take(done.len() as int) =~= done);
    }
}

/// A row that stays is one of the rows that are to stay.
pub proof fn lemma_left_is_taken(rows: Seq<Seq<ValueView>>, keep: Seq<bool>, at: int)
    requires
        0 <= at < kept(rows, keep, 0, Seq::empty()).len(),
    ensures
        exists|k: int|
            0 <= k < rows.len() && keep[k] && #[trigger] rows[k] == kept(rows, keep, 0, Seq::empty())[at],
{
    lemma_kept(rows, keep, 0, Seq::empty());
    assert(taken_from(rows, keep, 0, kept(rows, keep, 0, Seq::empty())[at]));
}

/// What stays of a chunk table still has the profile of the collection.
proof fn lemma_profiles(rows: Seq<Seq<ValueView>>, key: Seq<char>, from: nat)
    ensures
        profiles_kept(rows, key, from) is Ok <==> forall|i: int|
            from <= i < rows.len() ==> text_in(#[trigger] rows[i], 7) == Ok::<Seq<char>, ErrorView>(key),
    decreases rows.len() - from,
{
    if from < rows.len() {
        lemma_profiles(rows, key, from + 1);
        if profiles_kept(rows, key, from) is Ok {
            assert(text_in(rows[from as int], 7) == Ok::<Seq<char>, ErrorView>(key));
        }
    }
}

/// Where only rows of documents, chunks and relationships change, and within the capacity, the
/// collection stays.
proof fn lemma_collection_stays(before: CatalogView, after: CatalogView, name: Seq<char>)
    requires
        collection_of(before, name) is Ok,
        same_tables(before, after),
        before.tables.len() <= usize::MAX,
        ({
            let info = collection_of(before, name)->Ok_0;
            let places = places_of(before, info);
            &&& forall|i: int|
                0 <= i < before.tables.len() && i != places.documents && i != places.chunks && i != places.edges
                    ==> after.tables[i] == #[trigger] before.tables[i]
            &&& after.tables[places.chunks as int].table.rows.len() <= MAX_CHUNKS
            &&& after.tables[places.edges as int].table.rows.len() <= MAX_EDGES
            &&& profiles_kept(after.tables[places.chunks as int].table.rows, profile_text(info.config.profile), 0) is Ok
        }),
    ensures
        collection_of(after, name) is Ok,
        collection_of(after, name)->Ok_0.config == collection_of(before, name)->Ok_0.config,
        collection_of(after, name)->Ok_0.tables == collection_of(before, name)->Ok_0.tables,
        places_of(after, collection_of(after, name)->Ok_0) == places_of(before, collection_of(before, name)->Ok_0),
{
    reveal(collection_of);
    let info = collection_of(before, name)->Ok_0;
    let tables = info.tables;
    lemma_same_position(before, after, tables.config, 0);
    lemma_same_position(before, after, tables.documents, 0);
    lemma_same_position(before, after, tables.chunks, 0);
    lemma_same_position(before, after, tables.edges, 0);
    lemma_table_position(before.tables, tables.config, 0);
    lemma_table_position(before.tables, tables.documents, 0);
    lemma_table_position(before.tables, tables.chunks, 0);
    lemma_table_position(before.tables, tables.edges, 0);
    assert(tables == tables_of(normalized_name(name)));
    lemma_table_names(normalized_name(name));
    let places = places_of(before, info);
    let config_at = before.located(tables.config)->Ok_0;
    assert(after.tables[config_at as int] == before.tables[config_at as int]);
    let fields = before.tables[places.documents as int].table.columns.skip(DOCUMENT_BASE_COLUMNS as int);
    lemma_schemas_stay(before, after, schemas_of(tables, info.config.profile.dimensions as usize, fields), 0);
    assert(after.tables[places.documents as int].table.columns == before.tables[places.documents as int].table.columns);
}

spec fn normalized_name(name: Seq<char>) -> Seq<char> {
    named_collection(name)->Ok_0
}

proof fn lemma_table_names(name: Seq<char>)
    ensures
        tables_of(name).config != tables_of(name).documents,
        tables_of(name).config != tables_of(name).chunks,
        tables_of(name).config != tables_of(name).edges,
{
    reveal_strlit("_documents");
    reveal_strlit("_chunks");
    reveal_strlit("_edges");
    reveal_strlit("_config");
    let tables = tables_of(name);
    let head = "graph_"@ + name;
    assert(tables.config[head.len() as int + 2] == 'o');
    assert(tables.chunks[head.len() as int + 2] == 'h');
    assert(tables.documents.len() == head.len() + 10);
    assert(tables.edges.len() == head.len() + 6);
    assert(tables.config.len() == head.len() + 7);
}

/// A change of a collection that was prepared for another revision than the catalog's is refused,
/// and where nothing else is wrong with the request, the refusal names both revisions.
pub proof fn law_stale_revision_is_refused(
    catalog: CatalogView,
    name: Seq<char>,
    id: Seq<char>,
    expected: u64,
    metadata: TreeView,
    edge: EdgeView,
    request: IngestRequestView,
    floats: Floats,
)
    requires
        expected != catalog.revision,
        request.expected_revision == expected,
    ensures
        document_deleted(catalog, name, id, expected) is Err,
        relationship_upserted(catalog, name, expected, edge, floats) is Err,
        relationship_deleted(catalog, name, expected, edge) is Err,
        ingested(catalog, request, floats) is Err,
        metadata_updated(catalog, name, id, metadata, expected, floats) is Err,
        edge_checked(edge) is Ok ==> relationship_upserted(catalog, name, expected, edge, floats)->Err_0
            == (ErrorView::RevisionConflict { expected: expected as nat, actual: catalog.revision as nat }),
        edge_checked(edge) is Ok ==> relationship_deleted(catalog, name, expected, edge)->Err_0
            == (ErrorView::RevisionConflict { expected: expected as nat, actual: catalog.revision as nat }),
        document_checked(request.document, request.expected_profile) is Ok ==> ingested(catalog, request, floats)->Err_0
            == (ErrorView::RevisionConflict { expected: expected as nat, actual: catalog.revision as nat }),
        text_bounded(id, 512, false, "document id"@) is Ok ==> document_deleted(
            catalog,
            name,
            id,
            expected,
        )->Err_0 == (ErrorView::RevisionConflict { expected: expected as nat, actual: catalog.revision as nat }),
{
}

/// No row is found by a name that none has.
proof fn lemma_none_named(rows: Seq<Seq<ValueView>>, id: Seq<char>, from: nat)
    requires
        forall|i: int| from <= i < rows.len() ==> (#[trigger] rows[i])[0] != ValueView::Text(id),
    ensures
        row_named(rows, id, from) is None,
    decreases rows.len() - from,
{
    if from < rows.len() {
        assert(rows[from as int][0] != ValueView::Text(id));
        lemma_none_named(rows, id, from + 1);
    }
}

proof fn lemma_names_listed(rows: Seq<Seq<ValueView>>, positions: Seq<usize>, from: nat, done: Seq<Seq<char>>)
    ensures
        chunk_names(rows, positions, from, done) matches Ok(names) ==> (forall|text: Seq<char>|
            done.contains(text) ==> #[trigger] names.contains(text)) && forall|i: int|
            from <= i < positions.len() ==> rows[(#[trigger] positions[i]) as int][0] is Text && names.contains(
                rows[positions[i] as int][0]->Text_0,
            ),
    decreases positions.len() - from,
{
    if from < positions.len() {
        if let Ok(name) = text_in(rows[positions[from as int] as int], 0) {
            let next = with_text(done, name);
            lemma_with_text(done, name);
            lemma_names_listed(rows, positions, from + 1, next);
            assert(next.contains(name));
            assert forall|text: Seq<char>| done.contains(text) implies #[trigger] next.contains(text) by {
            }
        }
    }
}

proof fn lemma_with_text(texts: Seq<Seq<char>>, text: Seq<char>)
    ensures
        with_text(texts, text).contains(text),
        forall|other: Seq<char>| texts.contains(other) ==> #[trigger] with_text(texts, text).contains(other),
{
    let after = with_text(texts, text);
    if !texts.contains(text) {
        assert(after[texts.len() as int] == text);
    }
    assert forall|other: Seq<char>| texts.contains(other) implies #[trigger] after.contains(other) by {
        let at = choose|i: int| 0 <= i < texts.len() && texts[i] == other;
        assert(after[at] == other);
    }
}

proof fn lemma_endpoints_listed(rows: Seq<Seq<ValueView>>, prefix: Seq<char>, from: nat, done: Seq<Seq<char>>)
    ensures
        endpoint_names(rows, prefix, from, done) matches Ok(names) ==> forall|text: Seq<char>|
            done.contains(text) ==> #[trigger] names.contains(text),
    decreases rows.len() - from,
{
    if from < rows.len() {
        if let Ok(once) = with_endpoint(rows[from as int], 1, prefix, done) {
            if let Ok(twice) = with_endpoint(rows[from as int], 2, prefix, once) {
                if let Ok(name) = text_in(rows[from as int], 1) {
                    lemma_with_text(done, name);
                }
                if let Ok(name) = text_in(rows[from as int], 2) {
                    lemma_with_text(once, name);
                }
                lemma_endpoints_listed(rows, prefix, from + 1, twice);
                assert forall|text: Seq<char>| done.contains(text) implies #[trigger] twice.contains(text) by {
                    assert(once.contains(text));
                }
            }
        }
    }
}

/// What removing a document leaves.
#[verifier::rlimit(40)]
pub proof fn lemma_removed(catalog: CatalogView, name: Seq<char>, id: Seq<char>)
    requires
        catalog.tables.len() <= usize::MAX,
        collection_of(catalog, name) is Ok,
    ensures
        ({
            let info = collection_of(catalog, name)->Ok_0;
            let places = places_of(catalog, info);
            document_removed(catalog, info.tables, places, id) matches Ok(removal) ==> {
                let after = removal.catalog;
                let documents = catalog.tables[places.documents as int].table.rows;
                let chunks = catalog.tables[places.chunks as int].table.rows;
                let edges = catalog.tables[places.edges as int].table.rows;
                &&& places_apart(places)
                &&& places.documents < catalog.tables.len() && places.chunks < catalog.tables.len() && places.edges
                    < catalog.tables.len()
                &&& same_tables(catalog, after)
                &&& after.revision == catalog.revision
                &&& forall|i: int|
                    0 <= i < catalog.tables.len() && i != places.documents && i != places.chunks && i != places.edges
                        ==> after.tables[i] == #[trigger] catalog.tables[i]
                &&& after.tables[places.documents as int].table.rows == kept(
                    documents,
                    others_staying(documents, 0, id),
                    0,
                    Seq::empty(),
                )
                &&& after.tables[places.chunks as int].table.rows == kept(
                    chunks,
                    others_staying(chunks, 1, id),
                    0,
                    Seq::empty(),
                )
                &&& document_ids(chunks, edges, id) matches Ok((ids, _)) && after.tables[places.edges as int].table.rows
                    == kept(edges, edges_staying(edges, ids), 0, Seq::empty())
            }
        }),
{
    lemma_collection_kept(catalog, name);
    let info = collection_of(catalog, name)->Ok_0;
    let places = places_of(catalog, info);
    lemma_table_position(catalog.tables, info.tables.documents, 0);
    lemma_table_position(catalog.tables, info.tables.chunks, 0);
    lemma_table_position(catalog.tables, info.tables.edges, 0);
    lemma_collection_tables(catalog, name);
    lemma_places_apart(catalog, info.config.name, info, places);
    reveal(document_removed);
}

/// The collection is still there after a document was removed.
pub proof fn lemma_collection_outlives(catalog: CatalogView, name: Seq<char>, id: Seq<char>)
    requires
        catalog.tables.len() <= usize::MAX,
        collection_of(catalog, name) is Ok,
    ensures
        ({
            let info = collection_of(catalog, name)->Ok_0;
            let places = places_of(catalog, info);
            document_removed(catalog, info.tables, places, id) matches Ok(removal) ==> {
                &&& collection_of(removal.catalog, name) matches Ok(left) && left.config == info.config && left.tables
                    == info.tables && places_of(removal.catalog, left) == places
            }
        }),
{
    lemma_removed(catalog, name, id);
    lemma_collection_kept(catalog, name);
    lemma_table_position(catalog.tables, collection_of(catalog, name)->Ok_0.tables.chunks, 0);
    lemma_table_position(catalog.tables, collection_of(catalog, name)->Ok_0.tables.documents, 0);
    lemma_table_position(catalog.tables, collection_of(catalog, name)->Ok_0.tables.edges, 0);
    let info = collection_of(catalog, name)->Ok_0;
    let places = places_of(catalog, info);
    if let Ok(removal) = document_removed(catalog, info.tables, places, id) {
        let chunks = catalog.tables[places.chunks as int].table.rows;
        let edges = catalog.tables[places.edges as int].table.rows;
        let left = removal.catalog.tables[places.chunks as int].table.rows;
        let key = profile_text(info.config.profile);
        lemma_kept(chunks, others_staying(chunks, 1, id), 0, Seq::empty());
        lemma_kept(edges, edges_staying(edges, document_ids(chunks, edges, id)->Ok_0.0), 0, Seq::empty());
        assert(profiles_kept(chunks, key, 0) is Ok) by {
            reveal(collection_of);
            lemma_table_position(catalog.tables, info.tables.chunks, 0);
        }
        lemma_profiles(chunks, key, 0);
        lemma_profiles(left, key, 0);
        assert forall|i: int| 0 <= i < left.len() implies text_in(#[trigger] left[i], 7) == Ok::<Seq<char>, ErrorView>(key) by {
            assert(taken_from(chunks, others_staying(chunks, 1, id), 0, left[i]));
            let k = choose|k: int| 0 <= k < chunks.len() && others_staying(chunks, 1, id)[k] && #[trigger] chunks[k] == left[i];
            assert(text_in(chunks[k], 7) == Ok::<Seq<char>, ErrorView>(key));
        }
        lemma_collection_stays(catalog, removal.catalog, name);
    }
}

/// After a document was deleted, the collection is there and reads no such document. None of its
/// chunks is left, nor a relationship that touches one, and the rows of the other documents and
/// their chunks stay.
pub proof fn law_deleted_document_is_gone(catalog: CatalogView, name: Seq<char>, id: Seq<char>, expected: u64)
    requires
        catalog.tables.len() <= usize::MAX,
        document_deleted(catalog, name, id, expected) is Ok,
    ensures
        ({
            let after = document_deleted(catalog, name, id, expected)->Ok_0.0;
            let places = places_of(catalog, collection_of(catalog, name)->Ok_0);
            let documents = catalog.tables[places.documents as int].table.rows;
            let chunks = catalog.tables[places.chunks as int].table.rows;
            let documents_left = after.tables[places.documents as int].table.rows;
            let chunks_left = after.tables[places.chunks as int].table.rows;
            let edges_left = after.tables[places.edges as int].table.rows;
            &&& document_of(after, name, id) == Ok::<Option<DocumentView>, ErrorView>(None)
            &&& forall|i: int| 0 <= i < chunks_left.len() ==> (#[trigger] chunks_left[i])[1] != ValueView::Text(id)
            &&& forall|i: int, k: int|
                0 <= i < edges_left.len() && 0 <= k < chunks.len() && chunks[k][1] == ValueView::Text(id)
                    ==> !touches(#[trigger] edges_left[i], #[trigger] chunks[k])
            &&& forall|k: int|
                0 <= k < documents.len() && documents[k][0] != ValueView::Text(id) ==> documents_left.contains(
                    #[trigger] documents[k],
                )
            &&& forall|k: int|
                0 <= k < chunks.len() && chunks[k][1] != ValueView::Text(id) ==> chunks_left.contains(#[trigger] chunks[k])
        }),
{
    let info = collection_of(catalog, name)->Ok_0;
    let places = places_of(catalog, info);
    let after = document_deleted(catalog, name, id, expected)->Ok_0.0;
    let documents = catalog.tables[places.documents as int].table.rows;
    let chunks = catalog.tables[places.chunks as int].table.rows;
    let edges = catalog.tables[places.edges as int].table.rows;
    let documents_left = after.tables[places.documents as int].table.rows;
    let chunks_left = after.tables[places.chunks as int].table.rows;
    let edges_left = after.tables[places.edges as int].table.rows;
    lemma_removed(catalog, name, id);
    lemma_collection_outlives(catalog, name, id);
    let staying = others_staying(documents, 0, id);
    let chunks_staying = others_staying(chunks, 1, id);
    lemma_kept(documents, staying, 0, Seq::empty());
    lemma_kept(chunks, chunks_staying, 0, Seq::empty());
    assert forall|i: int| 0 <= i < documents_left.len() implies (#[trigger] documents_left[i])[0] != ValueView::Text(id) by {
        assert(taken_from(documents, staying, 0, documents_left[i]));
        let k = choose|k: int| 0 <= k < documents.len() && staying[k] && #[trigger] documents[k] == documents_left[i];
        assert(documents[k][0] != ValueView::Text(id));
    }
    lemma_none_named(documents_left, id, 0);
    assert forall|i: int| 0 <= i < chunks_left.len() implies (#[trigger] chunks_left[i])[1] != ValueView::Text(id) by {
        assert(taken_from(chunks, chunks_staying, 0, chunks_left[i]));
        let k = choose|k: int| 0 <= k < chunks.len() && chunks_staying[k] && #[trigger] chunks[k] == chunks_left[i];
        assert(chunks[k][1] != ValueView::Text(id));
    }
    lemma_table_position(catalog.tables, info.tables.documents, 0);
    lemma_table_position(catalog.tables, info.tables.chunks, 0);
    lemma_table_position(catalog.tables, info.tables.edges, 0);
    lemma_collection_kept(catalog, name);
    lemma_edges_left(chunks, edges, id);
    reveal(stored_document);
    assert(document_of(after, name, id) == Ok::<Option<DocumentView>, ErrorView>(None));
    assert forall|k: int| 0 <= k < documents.len() && documents[k][0] != ValueView::Text(id) implies documents_left.contains(
        #[trigger] documents[k],
    ) by {
        assert(staying[k]);
    }
    assert forall|k: int| 0 <= k < chunks.len() && chunks[k][1] != ValueView::Text(id) implies chunks_left.contains(
        #[trigger] chunks[k],
    ) by {
        assert(chunks_staying[k]);
    }
}

/// Whether a relationship leads from a chunk or to it.
pub open spec fn touches(edge: Seq<ValueView>, chunk: Seq<ValueView>) -> bool {
    edge[1] is Text && edge[2] is Text && (edge[1] == chunk[0] || edge[2] == chunk[0])
}

/// No relationship that stays touches a chunk that goes.
proof fn lemma_edges_left(chunks: Seq<Seq<ValueView>>, edges: Seq<Seq<ValueView>>, id: Seq<char>)
    requires
        document_ids(chunks, edges, id) is Ok,
        chunks.len() <= usize::MAX,
    ensures
        ({
            let ids = document_ids(chunks, edges, id)->Ok_0.0;
            let left = kept(edges, edges_staying(edges, ids), 0, Seq::empty());
            forall|i: int, k: int|
                0 <= i < left.len() && 0 <= k < chunks.len() && chunks[k][1] == ValueView::Text(id) ==> !touches(
                    #[trigger] left[i],
                    #[trigger] chunks[k],
                )
        }),
{
    let key = ValueView::Text(id);
    let positions = matching(chunks, 1, key, chunks.len());
    let names = chunk_names(chunks, positions, 0, Seq::empty())->Ok_0;
    let ids = document_ids(chunks, edges, id)->Ok_0.0;
    let staying = edges_staying(edges, ids);
    let left = kept(edges, staying, 0, Seq::empty());
    lemma_kept(edges, staying, 0, Seq::empty());
    lemma_matching(chunks, 1, key, chunks.len());
    lemma_names_listed(chunks, positions, 0, Seq::empty());
    lemma_endpoints_listed(edges, name_prefix(id), 0, names);
    assert forall|i: int, k: int|
        0 <= i < left.len() && 0 <= k < chunks.len() && chunks[k][1] == ValueView::Text(id) implies !touches(
        #[trigger] left[i],
        #[trigger] chunks[k],
    ) by {
        assert(taken_from(edges, staying, 0, left[i]));
        let e = choose|e: int| 0 <= e < edges.len() && staying[e] && #[trigger] edges[e] == left[i];
        assert(positions.contains(k as usize));
        let at = choose|at: int| 0 <= at < positions.len() && positions[at] == k as usize;
        assert(chunks[positions[at] as int][0] is Text);
        let text = chunks[k][0]->Text_0;
        assert(names.contains(text));
        assert(ids.contains(text));
        assert(staying[e]);
    }
}

/// What a row becomes in its table.
pub proof fn lemma_row_coerced(columns: Seq<ColumnView>, row: Seq<ValueView>, floats: Floats, from: nat, done: Seq<ValueView>)
    requires
        from <= row.len() <= columns.len(),
        done.len() == from,
        forall|c: int| 0 <= c < from ==> coerced(floats, row[c], columns[c].data_type) == Ok::<ValueView, ErrorView>(
            #[trigger] done[c],
        ),
    ensures
        coerced_row(columns, row, floats, from, done) matches Ok(values) ==> values.len() == row.len() && forall|c: int|
            0 <= c < row.len() ==> coerced(floats, row[c], columns[c].data_type) == Ok::<ValueView, ErrorView>(
                #[trigger] values[c],
            ),
    decreases row.len() - from,
{
    if from < row.len() {
        if let Ok(value) = coerced(floats, row[from as int], columns[from as int].data_type) {
            let next = done.push(value);
            assert forall|c: int| 0 <= c < next.len() implies coerced(floats, row[c], columns[c].data_type) == Ok::<
                ValueView,
                ErrorView,
            >(#[trigger] next[c]) by {
                if c < done.len() {
                    assert(next[c] == done[c]);
                }
            }
            lemma_row_coerced(columns, row, floats, from + 1, next);
        }
    }
}

proof fn lemma_rows_coerced(columns: Seq<ColumnView>, rows: Seq<Seq<ValueView>>, floats: Floats, from: nat, done: Seq<Seq<ValueView>>)
    requires
        from <= rows.len(),
        done.len() == from,
        forall|i: int| 0 <= i < from ==> typed_row(columns, rows[i], floats) == Ok::<Seq<ValueView>, ErrorView>(
            #[trigger] done[i],
        ),
    ensures
        typed_rows(columns, rows, floats, from, done) matches Ok(all) ==> all.len() == rows.len() && forall|i: int|
            0 <= i < rows.len() ==> typed_row(columns, rows[i], floats) == Ok::<Seq<ValueView>, ErrorView>(
                #[trigger] all[i],
            ),
    decreases rows.len() - from,
{
    if from < rows.len() {
        if let Ok(row) = typed_row(columns, rows[from as int], floats) {
            let next = done.push(row);
            assert forall|i: int| 0 <= i < next.len() implies typed_row(columns, rows[i], floats) == Ok::<
                Seq<ValueView>,
                ErrorView,
            >(#[trigger] next[i]) by {
                if i < done.len() {
                    assert(next[i] == done[i]);
                }
            }
            lemma_rows_coerced(columns, rows, floats, from + 1, next);
        }
    }
}

/// Rows put into a table stand after the rows that it had.
pub proof fn lemma_stored(catalog: CatalogView, name: Seq<char>, rows: Seq<Seq<ValueView>>, floats: Floats)
    requires
        catalog.located(name) is Ok,
    ensures
        stored(catalog, name, rows, floats) matches Ok(after) ==> {
            let at = catalog.located(name)->Ok_0 as int;
            let table = catalog.tables[at].table;
            &&& same_tables(catalog, after)
            &&& after.revision == catalog.revision
            &&& forall|i: int| 0 <= i < catalog.tables.len() && i != at ==> after.tables[i] == #[trigger] catalog.tables[i]
            &&& after.tables[at].table.rows.len() == table.rows.len() + rows.len()
            &&& after.tables[at].table.rows.take(table.rows.len() as int) == table.rows
            &&& forall|i: int|
                0 <= i < rows.len() ==> typed_row(table.columns, #[trigger] rows[i], floats) == Ok::<
                    Seq<ValueView>,
                    ErrorView,
                >(after.tables[at].table.rows[table.rows.len() + i])
        },
{
    lemma_table_position(catalog.tables, name, 0);
    let at = catalog.located(name)->Ok_0 as int;
    let table = catalog.tables[at].table;
    if let Ok(after) = stored(catalog, name, rows, floats) {
        if rows.len() == 0 {
            assert(table.rows.take(table.rows.len() as int) =~= table.rows);
        } else {
            lemma_rows_coerced(table.columns, rows, floats, 0, Seq::empty());
            let pending = typed_rows(table.columns, rows, floats, 0, Seq::empty())->Ok_0;
            assert(after == catalog.with_rows(at as nat, table.rows + pending));
            assert((table.rows + pending).take(table.rows.len() as int) =~= table.rows);
            assert forall|i: int| 0 <= i < rows.len() implies typed_row(table.columns, #[trigger] rows[i], floats) == Ok::<
                Seq<ValueView>,
                ErrorView,
            >(after.tables[at].table.rows[table.rows.len() + i]) by {
                assert(pending[i] == (table.rows + pending)[table.rows.len() + i]);
            }
        }
    }
}

/// A chunk's row is in its table as it was made.
pub proof fn lemma_chunk_row_stays(document: DocumentInputView, ordinal: nat, profile: Seq<char>, dimensions: usize, floats: Floats)
    ensures
        typed_row(chunk_columns(dimensions), chunk_row(document, ordinal, profile), floats) matches Ok(row) ==> row
            == chunk_row(document, ordinal, profile),
{
    let columns = chunk_columns(dimensions);
    let given = chunk_row(document, ordinal, profile);
    if let Ok(row) = typed_row(columns, given, floats) {
        lemma_row_coerced(columns, given, floats, 0, Seq::empty());
        assert forall|c: int| 0 <= c < given.len() implies row[c] == given[c] by {
            assert(coerced(floats, given[c], columns[c].data_type) == Ok::<ValueView, ErrorView>(row[c]));
        }
        assert(row =~= given);
    }
}

/// A name that only the row after some others has is found there.
proof fn lemma_last_named(rows: Seq<Seq<ValueView>>, id: Seq<char>, from: nat)
    requires
        from < rows.len(),
        forall|i: int| from <= i < rows.len() - 1 ==> (#[trigger] rows[i])[0] != ValueView::Text(id),
        text_in(rows.last(), 0) == Ok::<Seq<char>, ErrorView>(id),
    ensures
        row_named(rows, id, from) == Some((rows.len() - 1) as nat),
    decreases rows.len() - from,
{
    if from < rows.len() - 1 {
        assert(rows[from as int][0] != ValueView::Text(id));
        lemma_last_named(rows, id, from + 1);
    }
}

/// The rows with a key stand together at the end.
proof fn lemma_matching_end(rows: Seq<Seq<ValueView>>, id: Seq<char>, start: nat, count: nat)
    requires
        count <= rows.len() <= usize::MAX,
        start <= rows.len(),
        forall|i: int| 0 <= i < start ==> (#[trigger] rows[i])[1] != ValueView::Text(id),
        forall|i: int| start <= i < rows.len() ==> (#[trigger] rows[i])[1] == ValueView::Text(id),
    ensures
        ({
            let found = matching(rows, 1, ValueView::Text(id), count);
            &&& found.len() == if count > start {
                (count - start) as nat
            } else {
                0
            }
            &&& forall|k: int| 0 <= k < found.len() ==> (#[trigger] found[k]) == start + k
        }),
    decreases count,
{
    if count > 0 {
        lemma_matching_end(rows, id, start, (count - 1) as nat);
        let value = rows[count - 1][1];
        if count - 1 < start {
            assert(rows[count - 1][1] != ValueView::Text(id));
            assert(key_of(value) == ValueView::Text(id) ==> value == ValueView::Text(id));
        } else {
            assert(rows[count - 1][1] == ValueView::Text(id));
        }
    }
}

/// Positions in strict order that lie below their number are all positions.
proof fn lemma_strict_is_all(order: Seq<usize>, at: int)
    requires
        0 <= at < order.len(),
        forall|i: int, j: int| 0 <= i < j < order.len() ==> (#[trigger] order[i]) < (#[trigger] order[j]),
        forall|i: int| 0 <= i < order.len() ==> (#[trigger] order[i]) < order.len(),
    ensures
        order[at] == at,
{
    lemma_strict_from_below(order, at);
    lemma_strict_from_above(order, at);
}

proof fn lemma_strict_from_below(order: Seq<usize>, at: int)
    requires
        0 <= at < order.len(),
        forall|i: int, j: int| 0 <= i < j < order.len() ==> (#[trigger] order[i]) < (#[trigger] order[j]),
    ensures
        order[at] >= at,
    decreases at,
{
    if at > 0 {
        lemma_strict_from_below(order, at - 1);
        assert(order[at - 1] < order[at]);
    }
}

proof fn lemma_strict_from_above(order: Seq<usize>, at: int)
    requires
        0 <= at < order.len(),
        forall|i: int, j: int| 0 <= i < j < order.len() ==> (#[trigger] order[i]) < (#[trigger] order[j]),
        forall|i: int| 0 <= i < order.len() ==> (#[trigger] order[i]) < order.len(),
    ensures
        order[at] <= at,
    decreases order.len() - at,
{
    if at + 1 < order.len() {
        lemma_strict_from_above(order, at + 1);
        assert(order[at] < order[at + 1]);
    }
}

/// The chunks of a document that were put in last are its chunks, in their order.
proof fn lemma_chunks_at_end(rows: Seq<Seq<ValueView>>, start: nat, document: DocumentInputView, profile: Seq<char>)
    requires
        rows.len() == start + document.chunks.len(),
        rows.len() <= MAX_CHUNKS,
        forall|i: int| 0 <= i < start ==> (#[trigger] rows[i])[1] != ValueView::Text(document.id),
        forall|k: int| 0 <= k < document.chunks.len() ==> rows[start + k] == #[trigger] chunk_rows(document, profile)[k],
    ensures
        chunks_of(rows, document.id).len() == document.chunks.len(),
        forall|k: int| 0 <= k < document.chunks.len() ==> (#[trigger] chunks_of(rows, document.id)[k]) == start + k,
        rows_at(rows, chunks_of(rows, document.id)) == chunk_rows(document, profile),
{
    let id = document.id;
    let made = chunk_rows(document, profile);
    let count = document.chunks.len() as usize;
    assert forall|i: int| start <= i < rows.len() implies (#[trigger] rows[i])[1] == ValueView::Text(id) by {
        assert(rows[start + (i - start)] == made[i - start]);
    }
    lemma_matching_end(rows, id, start, rows.len());
    let found = matching(rows, 1, ValueView::Text(id), rows.len());
    let before = ordinal_order(rows, found);
    assert forall|a: usize, b: usize| a < count && b < count implies #[trigger] before(a, b) == (a < b) by {
        assert(rows[start + a] == made[a as int]);
        assert(rows[start + b] == made[b as int]);
        assert(found[a as int] == start + a);
        assert(found[b as int] == start + b);
    }
    assert(weak_order(before, count));
    law_sorted(count, before);
    let order = sorted(count, before);
    assert forall|i: int, j: int| 0 <= i < j < order.len() implies (#[trigger] order[i]) < (#[trigger] order[j]) by {
        assert(leads(before, order[i], order[j]));
        assert(before(order[i], order[j]) == (order[i] < order[j]));
    }
    let chunks = chunks_of(rows, id);
    assert forall|k: int| 0 <= k < document.chunks.len() implies (#[trigger] chunks[k]) == start + k by {
        lemma_strict_is_all(order, k);
        assert(found[k] == start + k);
    }
    assert(rows_at(rows, chunks) =~= made) by {
        assert forall|k: int| 0 <= k < document.chunks.len() implies rows_at(rows, chunks)[k] == made[k] by {
            assert(chunks[k] == start + k);
            assert(rows[start + k] == made[k]);
        }
    }
}

/// The chunks of a document that was checked are slices of its text.
proof fn lemma_chunks_cut(text: Seq<char>, chunks: Seq<ChunkPreviewView>, from: nat, previous_start: nat, covered: nat, at: int)
    requires
        chunks_checked(text, chunks, from, previous_start, covered) is Ok,
        from <= at < chunks.len(),
    ensures
        byte_slice(text, chunks[at].start_byte, chunks[at].end_byte) == Some(chunks[at].text),
    decreases chunks.len() - from,
{
    let chunk = chunks[from as int];
    if at > from {
        lemma_chunks_cut(text, chunks, from + 1, chunk.start_byte, chunk.end_byte, at);
    }
}

/// The row of a chunk cites the text of its document.
proof fn lemma_chunk_cites(document: DocumentInputView, profile: ProfileView, key: Seq<char>, at: int)
    requires
        document_checked(document, profile) is Ok,
        0 <= at < document.chunks.len(),
    ensures
        cites(document.text, chunk_row(document, at as nat, key)),
{
    reveal(document_checked);
    let chunk = document.chunks[at];
    let previews = document.preview().chunks;
    lemma_chunks_cut(document.text, previews, 0, 0, 0, at);
    assert(previews[at].start_byte == chunk.start_byte && previews[at].end_byte == chunk.end_byte && previews[at].text
        == chunk.text);
    lemma_slice_within(document.text, chunk.start_byte, chunk.end_byte);
}

/// Whether a document is read as it was taken in: with its names, its text and its way of cutting
/// it, and with all of its chunks, unchanged.
pub open spec fn read_as_given(read: DocumentView, document: DocumentInputView) -> bool {
    &&& read.id == document.id
    &&& read.title == document.title
    &&& read.source == document.source
    &&& read.text == document.text
    &&& json_value(json_notation(document.chunking)) == Some(read.chunking)
    &&& read.chunk_count == document.chunks.len()
    &&& read.chunks_intact
}

/// The row that a document gets.
spec fn made_row(removed: CatalogView, info: CollectionView, places: GraphPlaces, document: DocumentInputView, floats: Floats) -> Seq<
    ValueView,
> {
    let (free, fields) = fields_of(
        removed.tables[places.documents as int].table,
        document.id,
        document.metadata,
        floats,
    )->Ok_0;
    document_row(document, free, fields, chunk_rows(document, profile_text(info.config.profile)))
}

spec fn with_document(removed: CatalogView, info: CollectionView, places: GraphPlaces, document: DocumentInputView, floats: Floats) -> CatalogView {
    stored(removed, info.tables.documents, seq![made_row(removed, info, places, document, floats)], floats)->Ok_0
}

spec fn with_chunks(removed: CatalogView, info: CollectionView, places: GraphPlaces, document: DocumentInputView, floats: Floats) -> CatalogView {
    stored(
        with_document(removed, info, places, document, floats),
        info.tables.chunks,
        chunk_rows(document, profile_text(info.config.profile)),
        floats,
    )->Ok_0
}

spec fn made_edges(removed: CatalogView, info: CollectionView, places: GraphPlaces, document: DocumentInputView, floats: Floats) -> Seq<
    Seq<ValueView>,
> {
    edge_rows(document_links(removed.tables[places.chunks as int].table.rows, document, info.config, floats)->Ok_0)
}

/// A document is put in with its row, then the rows of its chunks, then its relationships.
proof fn lemma_put_in(removed: CatalogView, info: CollectionView, places: GraphPlaces, document: DocumentInputView, floats: Floats)
    ensures
        document_stored(removed, info, places, document, floats) matches Ok((after, _, _)) ==> {
            let chunks = chunk_rows(document, profile_text(info.config.profile));
            let first = with_document(removed, info, places, document, floats);
            let second = with_chunks(removed, info, places, document, floats);
            let edges = made_edges(removed, info, places, document, floats);
            &&& stored(removed, info.tables.documents, seq![made_row(removed, info, places, document, floats)], floats)
                == Ok::<CatalogView, ErrorView>(first)
            &&& stored(first, info.tables.chunks, chunks, floats) == Ok::<CatalogView, ErrorView>(second)
            &&& stored(second, info.tables.edges, edges, floats) == Ok::<CatalogView, ErrorView>(after)
            &&& removed.tables[places.chunks as int].table.rows.len() + document.chunks.len() <= MAX_CHUNKS
            &&& second.tables[places.edges as int].table.rows.len() + edges.len() <= MAX_EDGES
        },
{
    reveal(document_stored);
}

/// What putting a document in does to the tables.
proof fn lemma_put_in_tables(removed: CatalogView, info: CollectionView, places: GraphPlaces, document: DocumentInputView, floats: Floats)
    requires
        opened(removed, info, places),
        places_apart(places),
    ensures
        document_stored(removed, info, places, document, floats) matches Ok((after, _, _)) ==> {
            let made = chunk_rows(document, profile_text(info.config.profile));
            let row = made_row(removed, info, places, document, floats);
            let documents = removed.tables[places.documents as int].table;
            let chunks = removed.tables[places.chunks as int].table;
            let documents_now = after.tables[places.documents as int].table.rows;
            let chunks_now = after.tables[places.chunks as int].table.rows;
            &&& same_tables(removed, after)
            &&& forall|i: int|
                0 <= i < removed.tables.len() && i != places.documents && i != places.chunks && i != places.edges
                    ==> after.tables[i] == #[trigger] removed.tables[i]
            &&& documents_now.len() == documents.rows.len() + 1
            &&& documents_now.take(documents.rows.len() as int) == documents.rows
            &&& typed_row(documents.columns, row, floats) == Ok::<Seq<ValueView>, ErrorView>(documents_now.last())
            &&& chunks_now.len() == chunks.rows.len() + made.len()
            &&& chunks_now.len() <= MAX_CHUNKS
            &&& chunks_now.take(chunks.rows.len() as int) == chunks.rows
            &&& forall|k: int|
                0 <= k < made.len() ==> typed_row(chunks.columns, #[trigger] made[k], floats) == Ok::<
                    Seq<ValueView>,
                    ErrorView,
                >(chunks_now[chunks.rows.len() + k])
            &&& after.tables[places.edges as int].table.rows.len() <= MAX_EDGES
        },
{
    if let Ok((after, _, _)) = document_stored(removed, info, places, document, floats) {
        lemma_put_in(removed, info, places, document, floats);
        let made = chunk_rows(document, profile_text(info.config.profile));
        let row = made_row(removed, info, places, document, floats);
        let first = with_document(removed, info, places, document, floats);
        let second = with_chunks(removed, info, places, document, floats);
        let edges = made_edges(removed, info, places, document, floats);
        lemma_stored(removed, info.tables.documents, seq![row], floats);
        lemma_same_position(removed, first, info.tables.chunks, 0);
        lemma_same_position(removed, first, info.tables.edges, 0);
        lemma_stored(first, info.tables.chunks, made, floats);
        lemma_same_position(first, second, info.tables.edges, 0);
        lemma_stored(second, info.tables.edges, edges, floats);
        assert(seq![row][0] == row);
        assert(same_tables(removed, after));
        assert(first.tables[places.chunks as int] == removed.tables[places.chunks as int]);
        assert(second.tables[places.documents as int] == first.tables[places.documents as int]);
        assert(after.tables[places.documents as int] == second.tables[places.documents as int]);
        assert(after.tables[places.chunks as int] == second.tables[places.chunks as int]);
        assert forall|i: int|
            0 <= i < removed.tables.len() && i != places.documents && i != places.chunks && i != places.edges implies after.tables[i]
            == #[trigger] removed.tables[i] by {
            assert(first.tables[i] == removed.tables[i]);
            assert(second.tables[i] == first.tables[i]);
        }
    }
}

/// What the tables of a collection hold after a document was put in.
spec fn put_in(after: CatalogView, places: GraphPlaces, document: DocumentInputView, key: Seq<char>) -> bool {
    let documents = after.tables[places.documents as int].table.rows;
    let chunks = after.tables[places.chunks as int].table.rows;
    let start = chunks.len() - document.chunks.len();
    &&& documents.len() > 0
    &&& forall|i: int| 0 <= i < documents.len() - 1 ==> (#[trigger] documents[i])[0] != ValueView::Text(document.id)
    &&& holds_document(documents.last(), document, chunk_rows(document, key))
    &&& 0 <= start && chunks.len() <= MAX_CHUNKS
    &&& forall|i: int| 0 <= i < start ==> (#[trigger] chunks[i])[1] != ValueView::Text(document.id)
    &&& forall|k: int| 0 <= k < document.chunks.len() ==> chunks[start + k] == #[trigger] chunk_rows(document, key)[k]
}

proof fn lemma_put_in_rows(removed: CatalogView, name: Seq<char>, document: DocumentInputView, floats: Floats)
    requires
        removed.tables.len() <= usize::MAX,
        collection_of(removed, name) is Ok,
        ({
            let places = places_of(removed, collection_of(removed, name)->Ok_0);
            let documents = removed.tables[places.documents as int].table.rows;
            let chunks = removed.tables[places.chunks as int].table.rows;
            &&& places_apart(places)
            &&& forall|i: int| 0 <= i < documents.len() ==> (#[trigger] documents[i])[0] != ValueView::Text(document.id)
            &&& forall|i: int| 0 <= i < chunks.len() ==> (#[trigger] chunks[i])[1] != ValueView::Text(document.id)
        }),
    ensures
        ({
            let info = collection_of(removed, name)->Ok_0;
            let places = places_of(removed, info);
            document_stored(removed, info, places, document, floats) matches Ok((after, _, _)) ==> put_in(
                after,
                places,
                document,
                profile_text(info.config.profile),
            ) && (collection_of(after, name) matches Ok(left) && places_of(after, left) == places)
        }),
{
    let info = collection_of(removed, name)->Ok_0;
    let places = places_of(removed, info);
    let key = profile_text(info.config.profile);
    lemma_collection_kept(removed, name);
    lemma_table_position(removed.tables, info.tables.documents, 0);
    lemma_table_position(removed.tables, info.tables.chunks, 0);
    lemma_table_position(removed.tables, info.tables.edges, 0);
    if let Ok((after, _, _)) = document_stored(removed, info, places, document, floats) {
        lemma_put_in_tables(removed, info, places, document, floats);
        let made = chunk_rows(document, key);
        let documents_left = removed.tables[places.documents as int].table;
        let chunks_left = removed.tables[places.chunks as int].table.rows;
        let documents = after.tables[places.documents as int].table.rows;
        let chunks = after.tables[places.chunks as int].table.rows;
        let start = chunks_left.len();
        let (free, fields) = fields_of(documents_left, document.id, document.metadata, floats)->Ok_0;
        lemma_document_row_stays(documents_left.columns, document, free, fields, made, floats);
        assert forall|k: int| 0 <= k < document.chunks.len() implies chunks[start + k] == #[trigger] made[k] by {
            lemma_chunk_row_stays(document, k as nat, key, info.config.profile.dimensions as usize, floats);
            assert(made[k] == chunk_row(document, k as nat, key));
        }
        assert forall|i: int| 0 <= i < start implies (#[trigger] chunks[i])[1] != ValueView::Text(document.id) by {
            assert(chunks.take(start as int)[i] == chunks_left[i]);
        }
        assert forall|i: int| 0 <= i < documents.len() - 1 implies (#[trigger] documents[i])[0] != ValueView::Text(
            document.id,
        ) by {
            assert(documents.take(documents_left.rows.len() as int)[i] == documents_left.rows[i]);
        }
        assert(profiles_kept(chunks_left, key, 0) is Ok) by {
            reveal(collection_of);
        }
        lemma_profiles(chunks_left, key, 0);
        lemma_profiles(chunks, key, 0);
        assert forall|i: int| 0 <= i < chunks.len() implies text_in(#[trigger] chunks[i], 7) == Ok::<Seq<char>, ErrorView>(
            key,
        ) by {
            if i < start {
                assert(chunks.take(start as int)[i] == chunks_left[i]);
                assert(text_in(chunks_left[i], 7) == Ok::<Seq<char>, ErrorView>(key));
            } else {
                assert(chunks[start + (i - start)] == made[i - start]);
            }
        }
        lemma_collection_stays(removed, after, name);
    }
}

/// What the tables of a collection hold after a document was taken in.
proof fn lemma_ingested(catalog: CatalogView, request: IngestRequestView, floats: Floats)
    requires
        catalog.tables.len() <= usize::MAX,
        ingested(catalog, request, floats) is Ok,
    ensures
        ({
            let after = ingested(catalog, request, floats)->Ok_0.0;
            let info = collection_of(catalog, request.collection)->Ok_0;
            let places = places_of(catalog, info);
            &&& collection_of(after, request.collection) matches Ok(left) && places_of(after, left) == places
            &&& put_in(after, places, request.document, profile_text(info.config.profile))
        }),
{
    let id = request.document.id;
    let name = request.collection;
    let info = collection_of(catalog, name)->Ok_0;
    let places = places_of(catalog, info);
    lemma_removed(catalog, name, id);
    lemma_collection_outlives(catalog, name, id);
    lemma_others_stay(catalog.tables[places.documents as int].table.rows, 0, id);
    lemma_others_stay(catalog.tables[places.chunks as int].table.rows, 1, id);
    let removed = document_removed(catalog, info.tables, places, id)->Ok_0.catalog;
    let left = collection_of(removed, name)->Ok_0;
    lemma_same_document(removed, info, left, places, request.document, floats);
    lemma_put_in_rows(removed, name, request.document, floats);
}

/// How a document is put in depends on the names and the configuration of a collection alone.
proof fn lemma_same_document(
    removed: CatalogView,
    info: CollectionView,
    other: CollectionView,
    places: GraphPlaces,
    document: DocumentInputView,
    floats: Floats,
)
    requires
        info.config == other.config,
        info.tables == other.tables,
    ensures
        document_stored(removed, info, places, document, floats) == document_stored(removed, other, places, document, floats),
{
    reveal(document_stored);
}

/// The rows that stay do not have the text that goes.
proof fn lemma_others_stay(rows: Seq<Seq<ValueView>>, column: int, id: Seq<char>)
    ensures
        forall|i: int|
            0 <= i < kept(rows, others_staying(rows, column, id), 0, Seq::empty()).len() ==> (#[trigger] kept(
                rows,
                others_staying(rows, column, id),
                0,
                Seq::empty(),
            )[i])[column] != ValueView::Text(id),
{
    let staying = others_staying(rows, column, id);
    let left = kept(rows, staying, 0, Seq::empty());
    lemma_kept(rows, staying, 0, Seq::empty());
    assert forall|i: int| 0 <= i < left.len() implies (#[trigger] left[i])[column] != ValueView::Text(id) by {
        assert(taken_from(rows, staying, 0, left[i]));
        let k = choose|k: int| 0 <= k < rows.len() && staying[k] && #[trigger] rows[k] == left[i];
        assert(staying[k]);
    }
}

/// Whether a row holds what a document's row begins with.
pub open spec fn holds_document(row: Seq<ValueView>, document: DocumentInputView, chunks: Seq<Seq<ValueView>>) -> bool {
    &&& row.len() >= DOCUMENT_BASE_COLUMNS
    &&& row[0] == ValueView::Text(document.id)
    &&& row[1] == ValueView::Text(document.title)
    &&& row[2] == ValueView::Text(document.source)
    &&& row[3] == ValueView::Text(document.text)
    &&& row[5] == ValueView::Text(json_notation(document.chunking))
    &&& row[6] == ValueView::Text(fingerprint(row.take(6), chunks))
}

proof fn lemma_document_row_stays(
    columns: Seq<ColumnView>,
    document: DocumentInputView,
    free: TreeView,
    fields: Seq<ValueView>,
    chunks: Seq<Seq<ValueView>>,
    floats: Floats,
)
    ensures
        typed_row(columns, document_row(document, free, fields, chunks), floats) matches Ok(row) ==> holds_document(
            row,
            document,
            chunks,
        ),
{
    let given = document_row(document, free, fields, chunks);
    let head = document_head(document, free);
    if let Ok(row) = typed_row(columns, given, floats) {
        lemma_row_coerced(columns, given, floats, 0, Seq::empty());
        assert forall|c: int| 0 <= c < DOCUMENT_BASE_COLUMNS implies row[c] == #[trigger] given[c] by {
            assert(given[c] is Text);
            assert(coerced(floats, given[c], columns[c].data_type) == Ok::<ValueView, ErrorView>(row[c]));
        }
        assert forall|c: int| 0 <= c < head.len() implies row[c] == #[trigger] head[c] by {
            assert(given[c] == head[c]);
        }
        assert(row.take(6) =~= head);
        assert(row[6] == given[6]);
    }
}

/// A document that was taken in is read as it was given, with its chunks intact, wherever its
/// metadata and its way of cutting the text are read at all.
pub proof fn law_ingested_document_is_read(catalog: CatalogView, request: IngestRequestView, floats: Floats)
    requires
        catalog.tables.len() <= usize::MAX,
        ingested(catalog, request, floats) is Ok,
    ensures
        document_of(ingested(catalog, request, floats)->Ok_0.0, request.collection, request.document.id) matches Ok(found)
            ==> (found matches Some(read) && read_as_given(read, request.document)),
{
    let document = request.document;
    let after = ingested(catalog, request, floats)->Ok_0.0;
    lemma_ingested(catalog, request, floats);
    let info = collection_of(catalog, request.collection)->Ok_0;
    let places = places_of(catalog, info);
    let key = profile_text(info.config.profile);
    let documents = after.tables[places.documents as int].table.rows;
    let chunks = after.tables[places.chunks as int].table.rows;
    let start = (chunks.len() - document.chunks.len()) as nat;
    lemma_last_named(documents, document.id, 0);
    lemma_chunks_at_end(chunks, start, document, key);
    assert(document_checked(document, request.expected_profile) is Ok);
    assert(document.chunks.len() > 0) by {
        reveal(document_checked);
    }
    let positions = chunks_of(chunks, document.id);
    assert forall|i: int| 0 <= i < positions.len() implies cites(document.text, chunks[#[trigger] positions[i] as int]) by {
        lemma_chunk_cites(document, request.expected_profile, key, i);
        assert(chunks[start + i] == chunk_rows(document, key)[i]);
    }
    reveal(stored_document);
}

/// Whether a row is of the relationship between these chunks of this kind.
pub open spec fn same_relation(row: Seq<ValueView>, edge: EdgeView) -> bool {
    row[1] == ValueView::Text(edge.from_chunk) && row[2] == ValueView::Text(edge.to_chunk) && row[3] == ValueView::Text(
        edge.kind,
    )
}

/// The relationships that stay are others than the one that goes.
proof fn lemma_relations_stay(rows: Seq<Seq<ValueView>>, edge: EdgeView)
    ensures
        forall|i: int|
            0 <= i < kept(rows, relations_staying(rows, edge), 0, Seq::empty()).len() ==> !same_relation(
                #[trigger] kept(rows, relations_staying(rows, edge), 0, Seq::empty())[i],
                edge,
            ),
        forall|k: int|
            0 <= k < rows.len() && !same_relation(rows[k], edge) ==> kept(
                rows,
                relations_staying(rows, edge),
                0,
                Seq::empty(),
            ).contains(#[trigger] rows[k]),
{
    let staying = relations_staying(rows, edge);
    let left = kept(rows, staying, 0, Seq::empty());
    lemma_kept(rows, staying, 0, Seq::empty());
    assert forall|i: int| 0 <= i < left.len() implies !same_relation(#[trigger] left[i], edge) by {
        assert(taken_from(rows, staying, 0, left[i]));
        let k = choose|k: int| 0 <= k < rows.len() && staying[k] && #[trigger] rows[k] == left[i];
        assert(staying[k]);
    }
    assert forall|k: int| 0 <= k < rows.len() && !same_relation(rows[k], edge) implies left.contains(#[trigger] rows[k]) by {
        assert(staying[k]);
    }
}

/// A relationship that was made or changed has one row, which reads as it was given; the other
/// relationships stay.
pub proof fn law_relationship_has_one_row(catalog: CatalogView, name: Seq<char>, expected: u64, edge: EdgeView, floats: Floats)
    requires
        catalog.tables.len() <= usize::MAX,
        relationship_upserted(catalog, name, expected, edge, floats) is Ok,
    ensures
        ({
            let after = relationship_upserted(catalog, name, expected, edge, floats)->Ok_0.0;
            let places = places_of(catalog, collection_of(catalog, name)->Ok_0);
            let edges = catalog.tables[places.edges as int].table.rows;
            let now = after.tables[places.edges as int].table.rows;
            &&& now.len() > 0
            &&& edge_in(now.last()) == Ok::<EdgeView, ErrorView>(edge)
            &&& forall|i: int| 0 <= i < now.len() - 1 ==> !same_relation(#[trigger] now[i], edge)
            &&& forall|k: int|
                0 <= k < edges.len() && !same_relation(edges[k], edge) ==> now.contains(#[trigger] edges[k])
        }),
{
    let info = collection_of(catalog, name)->Ok_0;
    let places = places_of(catalog, info);
    let after = relationship_upserted(catalog, name, expected, edge, floats)->Ok_0.0;
    let edges = catalog.tables[places.edges as int].table.rows;
    let now = after.tables[places.edges as int].table.rows;
    lemma_collection_kept(catalog, name);
    lemma_table_position(catalog.tables, info.tables.edges, 0);
    lemma_table_position(catalog.tables, info.tables.chunks, 0);
    lemma_table_position(catalog.tables, info.tables.documents, 0);
    let left = kept(edges, relations_staying(edges, edge), 0, Seq::empty());
    let without = catalog.with_rows(places.edges as nat, left);
    assert(same_tables(catalog, without));
    lemma_same_position(catalog, without, info.tables.edges, 0);
    let row = row_of_edge(edge);
    let columns = edge_columns();
    lemma_stored(without, info.tables.edges, seq![row], floats);
    assert(seq![row][0] == row);
    assert(now.last() == row) by {
        assert(typed_row(columns, row, floats) == Ok::<Seq<ValueView>, ErrorView>(now.last()));
        lemma_row_coerced(columns, row, floats, 0, Seq::empty());
        assert forall|c: int| 0 <= c < row.len() implies now.last()[c] == row[c] by {
            assert(coerced(floats, row[c], columns[c].data_type) == Ok::<ValueView, ErrorView>(now.last()[c]));
        }
        assert(now.last() =~= row);
    }
    law_edge_row(edge);
    lemma_relations_stay(edges, edge);
    assert(now.take(left.len() as int) == left);
    assert forall|i: int| 0 <= i < now.len() - 1 implies !same_relation(#[trigger] now[i], edge) by {
        assert(now.take(left.len() as int)[i] == left[i]);
    }
    assert forall|k: int| 0 <= k < edges.len() && !same_relation(edges[k], edge) implies now.contains(#[trigger] edges[k]) by {
        assert(left.contains(edges[k]));
        let i = choose|i: int| 0 <= i < left.len() && left[i] == edges[k];
        assert(now.take(left.len() as int)[i] == now[i]);
    }
}

/// A relationship that was deleted has no row; the other relationships stay.
pub proof fn law_deleted_relationship_is_gone(catalog: CatalogView, name: Seq<char>, expected: u64, edge: EdgeView)
    requires
        catalog.tables.len() <= usize::MAX,
        relationship_deleted(catalog, name, expected, edge) is Ok,
    ensures
        ({
            let after = relationship_deleted(catalog, name, expected, edge)->Ok_0.0;
            let places = places_of(catalog, collection_of(catalog, name)->Ok_0);
            let edges = catalog.tables[places.edges as int].table.rows;
            let left = after.tables[places.edges as int].table.rows;
            &&& forall|i: int| 0 <= i < left.len() ==> !same_relation(#[trigger] left[i], edge)
            &&& forall|k: int|
                0 <= k < edges.len() && !same_relation(edges[k], edge) ==> left.contains(#[trigger] edges[k])
        }),
{
    let info = collection_of(catalog, name)->Ok_0;
    let places = places_of(catalog, info);
    lemma_collection_kept(catalog, name);
    lemma_table_position(catalog.tables, info.tables.edges, 0);
    lemma_table_position(catalog.tables, info.tables.chunks, 0);
    lemma_table_position(catalog.tables, info.tables.documents, 0);
    lemma_relations_stay(catalog.tables[places.edges as int].table.rows, edge);
}

/// The row found by a name is still the one, where it has been put in place of another of that name.
proof fn lemma_named_again(rows: Seq<Seq<ValueView>>, id: Seq<char>, from: nat, at: nat, row: Seq<ValueView>)
    requires
        row_named(rows, id, from) == Some(at),
        text_in(row, 0) == Ok::<Seq<char>, ErrorView>(id),
    ensures
        from <= at < rows.len(),
        row_named(rows.update(at as int, row), id, from) == Some(at),
        text_in(rows[at as int], 0) == Ok::<Seq<char>, ErrorView>(id),
    decreases rows.len() - from,
{
    if text_in(rows[from as int], 0) != Ok::<Seq<char>, ErrorView>(id) {
        lemma_named_again(rows, id, from + 1, at, row);
        assert(rows.update(at as int, row)[from as int] == rows[from as int]);
    }
}

/// Whether a document differs from another in its metadata alone, and has its chunks intact.
pub open spec fn same_but_metadata(now: DocumentView, before: DocumentView) -> bool {
    &&& now.id == before.id
    &&& now.title == before.title
    &&& now.source == before.source
    &&& now.text == before.text
    &&& now.chunking == before.chunking
    &&& now.chunk_count == before.chunk_count
    &&& now.chunks_intact
}

/// The metadata of a document is changed in place: no chunk and no relationship changes, and the
/// document is there before and after, with everything else as it was and its chunks intact, wherever
/// its new metadata is read at all.
pub proof fn law_metadata_is_changed_in_place(
    catalog: CatalogView,
    name: Seq<char>,
    id: Seq<char>,
    metadata: TreeView,
    expected: u64,
    floats: Floats,
)
    requires
        catalog.tables.len() <= usize::MAX,
        metadata_updated(catalog, name, id, metadata, expected, floats) is Ok,
    ensures
        ({
            let after = metadata_updated(catalog, name, id, metadata, expected, floats)->Ok_0.0;
            let places = places_of(catalog, collection_of(catalog, name)->Ok_0);
            &&& forall|i: int|
                0 <= i < catalog.tables.len() && i != places.documents ==> after.tables[i] == #[trigger] catalog.tables[i]
            &&& document_of(catalog, name, id) matches Ok(Some(before)) && (document_of(after, name, id) matches Ok(found)
                ==> (found matches Some(now) && same_but_metadata(now, before)))
        }),
{
    let info = collection_of(catalog, name)->Ok_0;
    let places = places_of(catalog, info);
    let after = metadata_updated(catalog, name, id, metadata, expected, floats)->Ok_0.0;
    let documents = catalog.tables[places.documents as int].table;
    let chunks = catalog.tables[places.chunks as int].table;
    lemma_collection_kept(catalog, name);
    lemma_table_position(catalog.tables, info.tables.documents, 0);
    lemma_table_position(catalog.tables, info.tables.chunks, 0);
    lemma_table_position(catalog.tables, info.tables.edges, 0);
    lemma_collection_tables(catalog, name);
    lemma_places_apart(catalog, info.config.name, info, places);
    let at = row_named(documents.rows, id, 0)->0;
    let (free, fields) = fields_of(documents, id, metadata, floats)->Ok_0;
    let positions = chunks_of(chunks.rows, id);
    let old_row = documents.rows[at as int];
    let row = refreshed_row(old_row, free, fields, rows_at(chunks.rows, positions));
    reveal(stored_document);
    assert(old_row.len() > 6);
    let head = old_row.take(6).update(4, ValueView::Text(json_notation(free)));
    assert(row.take(6) =~= head);
    assert(row[0] == old_row[0] && row[1] == old_row[1] && row[2] == old_row[2] && row[3] == old_row[3] && row[5]
        == old_row[5]);
    assert(row[6] == ValueView::Text(fingerprint(head, rows_at(chunks.rows, positions))));
    lemma_row_of_name(documents.rows, id, 0);
    lemma_named_again(documents.rows, id, 0, at, row);
    assert(profiles_kept(chunks.rows, profile_text(info.config.profile), 0) is Ok) by {
        reveal(collection_of);
    }
    assert(after.tables[places.documents as int].table.rows == documents.rows.update(at as int, row));
    assert(same_tables(catalog, after));
    lemma_collection_stays(catalog, after, name);
}

proof fn lemma_row_of_name(rows: Seq<Seq<ValueView>>, id: Seq<char>, from: nat)
    ensures
        row_named(rows, id, from) matches Some(at) ==> from <= at < rows.len() && text_in(rows[at as int], 0) == Ok::<
            Seq<char>,
            ErrorView,
        >(id),
    decreases rows.len() - from,
{
    if from < rows.len() && text_in(rows[from as int], 0) != Ok::<Seq<char>, ErrorView>(id) {
        lemma_row_of_name(rows, id, from + 1);
    }
}

/// Whether a row holds a relationship.
pub open spec fn holds_relation(row: Seq<ValueView>, edge: EdgeView) -> bool {
    &&& row.len() == 5
    &&& same_relation(row, edge)
    &&& row[4] == ValueView::Float(edge.weight)
}

/// Whether rows end with these relationships.
pub open spec fn ends_with(rows: Seq<Seq<ValueView>>, links: Seq<EdgeView>) -> bool {
    &&& links.len() <= rows.len()
    &&& forall|i: int| 0 <= i < links.len() ==> holds_relation(rows[rows.len() - links.len() + i], #[trigger] links[i])
}

proof fn lemma_edge_row_stays(edge: EdgeView, floats: Floats)
    ensures
        typed_row(edge_columns(), row_of_edge(edge), floats) matches Ok(row) ==> holds_relation(row, edge),
{
    let columns = edge_columns();
    let given = row_of_edge(edge);
    if let Ok(row) = typed_row(columns, given, floats) {
        lemma_row_coerced(columns, given, floats, 0, Seq::empty());
        assert forall|c: int| 0 <= c < given.len() implies row[c] == given[c] by {
            assert(coerced(floats, given[c], columns[c].data_type) == Ok::<ValueView, ErrorView>(row[c]));
        }
        assert(row[1] == given[1] && row[2] == given[2] && row[3] == given[3] && row[4] == given[4]);
    }
}

proof fn lemma_links_put_in(removed: CatalogView, info: CollectionView, places: GraphPlaces, document: DocumentInputView, floats: Floats)
    requires
        opened(removed, info, places),
        places_apart(places),
    ensures
        document_stored(removed, info, places, document, floats) matches Ok((after, _, created)) ==> {
            let before = removed.tables[places.edges as int].table.rows;
            let now = after.tables[places.edges as int].table.rows;
            let chunks = removed.tables[places.chunks as int].table.rows;
            document_links(chunks, document, info.config, floats) matches Ok(links) && now.len() == before.len() + links.len()
                && created == links.len() && now.take(before.len() as int) == before && ends_with(now, links)
        },
{
    if let Ok((after, _, created)) = document_stored(removed, info, places, document, floats) {
        lemma_put_in(removed, info, places, document, floats);
        let chunks = removed.tables[places.chunks as int].table.rows;
        assert(document_links(chunks, document, info.config, floats) is Ok && created == document_links(
            chunks,
            document,
            info.config,
            floats,
        )->Ok_0.len()) by {
            reveal(document_stored);
        }
        let links = document_links(chunks, document, info.config, floats)->Ok_0;
        let made = chunk_rows(document, profile_text(info.config.profile));
        let row = made_row(removed, info, places, document, floats);
        let first = with_document(removed, info, places, document, floats);
        let second = with_chunks(removed, info, places, document, floats);
        let edges = made_edges(removed, info, places, document, floats);
        lemma_stored(removed, info.tables.documents, seq![row], floats);
        lemma_same_position(removed, first, info.tables.chunks, 0);
        lemma_same_position(removed, first, info.tables.edges, 0);
        lemma_stored(first, info.tables.chunks, made, floats);
        lemma_same_position(first, second, info.tables.edges, 0);
        lemma_stored(second, info.tables.edges, edges, floats);
        assert(first.tables[places.edges as int] == removed.tables[places.edges as int]);
        assert(second.tables[places.edges as int] == first.tables[places.edges as int]);
        let now = after.tables[places.edges as int].table.rows;
        assert forall|i: int| 0 <= i < links.len() implies holds_relation(
            now[now.len() - links.len() + i],
            #[trigger] links[i],
        ) by {
            assert(edges[i] == row_of_edge(links[i]));
            lemma_edge_row_stays(links[i], floats);
        }
    }
}

/// Whether the tables of a collection hold the relationships that a document brought, after those
/// that were there.
spec fn linked(
    after: CatalogView,
    places: GraphPlaces,
    before: Seq<Seq<ValueView>>,
    document: DocumentInputView,
    config: ConfigView,
    created: nat,
    floats: Floats,
) -> bool {
    let now = after.tables[places.edges as int].table.rows;
    let chunks = after.tables[places.chunks as int].table.rows;
    let others = chunks.take(chunks.len() - document.chunks.len());
    &&& now.len() == before.len() + created
    &&& now.take(before.len() as int) == before
    &&& exists|links: Seq<EdgeView>|
        links.len() == created && ends_with(now, links) && #[trigger] brought(links, others, document, config, floats)
}

proof fn lemma_linked(removed: CatalogView, info: CollectionView, places: GraphPlaces, document: DocumentInputView, floats: Floats)
    requires
        opened(removed, info, places),
        places_apart(places),
    ensures
        document_stored(removed, info, places, document, floats) matches Ok((after, _, created)) ==> linked(
            after,
            places,
            removed.tables[places.edges as int].table.rows,
            document,
            info.config,
            created,
            floats,
        ),
{
    lemma_links_put_in(removed, info, places, document, floats);
    if let Ok((after, _, created)) = document_stored(removed, info, places, document, floats) {
        let chunks = removed.tables[places.chunks as int].table.rows;
        let links = document_links(chunks, document, info.config, floats)->Ok_0;
        law_document_links(chunks, document, info.config, floats);
        let now = after.tables[places.chunks as int].table.rows;
        assert(now.take(now.len() - document.chunks.len()) == chunks) by {
            lemma_put_in_tables(removed, info, places, document, floats);
            assert(chunk_rows(document, profile_text(info.config.profile)).len() == document.chunks.len());
        }
        assert(brought(links, chunks, document, info.config, floats));
    }
}

proof fn lemma_opened(removed: CatalogView, name: Seq<char>)
    requires
        removed.tables.len() <= usize::MAX,
        collection_of(removed, name) is Ok,
    ensures
        opened(removed, collection_of(removed, name)->Ok_0, places_of(removed, collection_of(removed, name)->Ok_0)),
{
    let info = collection_of(removed, name)->Ok_0;
    lemma_collection_kept(removed, name);
    lemma_table_position(removed.tables, info.tables.documents, 0);
    lemma_table_position(removed.tables, info.tables.chunks, 0);
    lemma_table_position(removed.tables, info.tables.edges, 0);
}

/// The relationships that a document brings are stored after those that were there and stay. Each is
/// one between chunks that follow each other, or a semantic one whose weight, how alike the chunks
/// are, is not below the threshold of the collection; and each of the chunks nearest to one of the
/// document that is so alike is linked to it both ways.
pub proof fn law_ingested_relationships(catalog: CatalogView, request: IngestRequestView, floats: Floats)
    requires
        catalog.tables.len() <= usize::MAX,
        ingested(catalog, request, floats) is Ok,
    ensures
        ({
            let (after, _, result) = ingested(catalog, request, floats)->Ok_0;
            let info = collection_of(catalog, request.collection)->Ok_0;
            let places = places_of(catalog, info);
            let document = request.document;
            let before = catalog.tables[places.edges as int].table.rows;
            let now = after.tables[places.edges as int].table.rows;
            let chunks = after.tables[places.chunks as int].table.rows;
            let others = chunks.take(chunks.len() - document.chunks.len());
            &&& result.edges_created <= now.len()
            &&& forall|i: int| 0 <= i < now.len() - result.edges_created ==> before.contains(#[trigger] now[i])
            &&& exists|links: Seq<EdgeView>|
                links.len() == result.edges_created && ends_with(now, links) && #[trigger] brought(
                    links,
                    others,
                    document,
                    info.config,
                    floats,
                )
        }),
{
    let id = request.document.id;
    let name = request.collection;
    let document = request.document;
    let info = collection_of(catalog, name)->Ok_0;
    let places = places_of(catalog, info);
    lemma_removed(catalog, name, id);
    lemma_collection_outlives(catalog, name, id);
    let removed = document_removed(catalog, info.tables, places, id)->Ok_0.catalog;
    let left = collection_of(removed, name)->Ok_0;
    lemma_same_document(removed, info, left, places, document, floats);
    lemma_opened(removed, name);
    lemma_linked(removed, left, places, document, floats);
    let (after, _, result) = ingested(catalog, request, floats)->Ok_0;
    let before = catalog.tables[places.edges as int].table.rows;
    let remaining = removed.tables[places.edges as int].table.rows;
    let now = after.tables[places.edges as int].table.rows;
    let ids = document_ids(catalog.tables[places.chunks as int].table.rows, before, id)->Ok_0.0;
    let staying = edges_staying(before, ids);
    lemma_kept(before, staying, 0, Seq::empty());
    assert(linked(after, places, remaining, document, info.config, result.edges_created, floats));
    assert forall|i: int| 0 <= i < now.len() - result.edges_created implies before.contains(#[trigger] now[i]) by {
        assert(now.take(remaining.len() as int)[i] == remaining[i]);
        assert(taken_from(before, staying, 0, remaining[i]));
    }
}

} // verus!
