//! That a collection has room for a document which was found to fit.

use vstd::prelude::*;
use crate::arithmetic::ONE;
use crate::catalog::{lemma_table_position, CatalogView};
use crate::float::Floats;
use crate::graph::{chunk_name, collection_of, text_in, ConfigView, MAX_CHUNKS, MAX_EDGES, MAX_VECTOR_ELEMENTS};
use crate::graph_capacity::{
    capacity_checked, chunk_names, document_ids, endpoint_names, name_prefix, other_edges_bytes, row_bytes, smaller_count,
    with_endpoint, with_text,
};
use crate::graph_document::DocumentInputView;
use crate::graph_edge::EdgeView;
use crate::graph_ingest::{adjacent_links, all_semantic_links, document_links, link, semantic_links};
use crate::graph_near::{chunk_distance, distance_order, distances_from, nearest, similarity, NearChunk};
use crate::graph_store::{kept, lemma_collection_kept};
use crate::graph_write::{document_removed, edges_staying, others_staying, places_of};
use crate::graph_write_laws::lemma_removed;
use crate::index::matching;
use crate::order::lemma_sorted_within;
use crate::value::ValueView;

verus! {

/// A document has no more names of chunks than chunks.
proof fn lemma_names_counted(rows: Seq<Seq<ValueView>>, positions: Seq<usize>, from: nat, done: Seq<Seq<char>>)
    requires
        from <= positions.len(),
    ensures
        chunk_names(rows, positions, from, done) matches Ok(names) ==> names.len() <= done.len() + positions.len() - from,
    decreases positions.len() - from,
{
    if from < positions.len() {
        if let Ok(name) = text_in(rows[positions[from as int] as int], 0) {
            lemma_names_counted(rows, positions, from + 1, with_text(done, name));
        }
    }
}

/// The rows that stay and the rows that go are all rows.
proof fn lemma_others_counted(rows: Seq<Seq<ValueView>>, id: Seq<char>, from: nat, done: Seq<Seq<ValueView>>)
    requires
        from <= rows.len(),
    ensures
        kept(rows, others_staying(rows, 1, id), from, done).len() + matching(rows, 1, ValueView::Text(id), rows.len()).len()
            == done.len() + rows.len() - from + matching(rows, 1, ValueView::Text(id), from).len(),
    decreases rows.len() - from,
{
    if from < rows.len() {
        let row = rows[from as int];
        let staying = others_staying(rows, 1, id);
        let now = matching(rows, 1, ValueView::Text(id), from);
        let next = matching(rows, 1, ValueView::Text(id), from + 1);
        assert(staying[from as int] == (row[1] != ValueView::Text(id)));
        assert(next.len() == now.len() + if row[1] == ValueView::Text(id) {
            1int
        } else {
            0int
        });
        if staying[from as int] {
            lemma_others_counted(rows, id, from + 1, done.push(row));
        } else {
            lemma_others_counted(rows, id, from + 1, done);
        }
    }
}

/// Whether every relationship names its two chunks.
pub open spec fn named_ends(rows: Seq<Seq<ValueView>>, from: nat) -> bool {
    forall|i: int| from <= i < rows.len() ==> text_in(#[trigger] rows[i], 1) is Ok && text_in(rows[i], 2) is Ok
}

proof fn lemma_ends_named(rows: Seq<Seq<ValueView>>, prefix: Seq<char>, from: nat, done: Seq<Seq<char>>)
    ensures
        endpoint_names(rows, prefix, from, done) is Ok ==> named_ends(rows, from),
    decreases rows.len() - from,
{
    if from < rows.len() {
        if let Ok(once) = with_endpoint(rows[from as int], 1, prefix, done) {
            if let Ok(twice) = with_endpoint(rows[from as int], 2, prefix, once) {
                lemma_ends_named(rows, prefix, from + 1, twice);
            }
        }
    }
}

/// The relationships that stay are counted.
proof fn lemma_edges_counted(
    rows: Seq<Seq<ValueView>>,
    ids: Seq<Seq<char>>,
    from: nat,
    bytes: nat,
    count: nat,
    done: Seq<Seq<ValueView>>,
)
    requires
        from <= rows.len(),
        named_ends(rows, from),
    ensures
        other_edges_bytes(rows, ids, from, bytes, count) matches Ok((_, total)) ==> kept(
            rows,
            edges_staying(rows, ids),
            from,
            done,
        ).len() + count == done.len() + total,
    decreases rows.len() - from,
{
    if from < rows.len() {
        let row = rows[from as int];
        let staying = edges_staying(rows, ids);
        assert(text_in(row, 1) is Ok && text_in(row, 2) is Ok);
        let first = text_in(row, 1)->Ok_0;
        let second = text_in(row, 2)->Ok_0;
        assert(staying[from as int] == (!ids.contains(first) && !ids.contains(second)));
        if staying[from as int] {
            lemma_edges_counted(
                rows,
                ids,
                from + 1,
                bytes + row_bytes(row),
                count + 1,
                done.push(row),
            );
        } else {
            lemma_edges_counted(rows, ids, from + 1, bytes, count, done);
        }
    }
}

proof fn lemma_adjacent_counted(id: Seq<char>, count: nat, from: nat, done: Seq<EdgeView>)
    requires
        1 <= from,
    ensures
        adjacent_links(id, count, from, done).len() == done.len() + if from < count {
            (count - from) * 2
        } else {
            0
        },
    decreases count - from,
{
    if from < count {
        let previous = chunk_name(id, (from - 1) as nat);
        let current = chunk_name(id, from);
        lemma_adjacent_counted(
            id,
            count,
            from + 1,
            done.push(link(previous, current, "adjacent"@, ONE)).push(
                link(current, previous, "adjacent"@, ONE),
            ),
        );
    }
}

proof fn lemma_semantic_counted(
    rows: Seq<Seq<ValueView>>,
    name: Seq<char>,
    found: Seq<NearChunk>,
    threshold: u64,
    floats: Floats,
    from: nat,
    done: Seq<EdgeView>,
)
    requires
        from <= found.len(),
    ensures
        semantic_links(rows, name, found, threshold, floats, from, done) matches Ok(links) ==> links.len() <= done.len() + (
        found.len() - from) * 2,
    decreases found.len() - from,
{
    if from < found.len() {
        let near = found[from as int];
        let alike = similarity(near.distance, floats);
        lemma_semantic_counted(rows, name, found, threshold, floats, from + 1, done);
        if let Ok(other) = text_in(rows[near.row as int], 0) {
            lemma_semantic_counted(
                rows,
                name,
                found,
                threshold,
                floats,
                from + 1,
                done.push(link(name, other, "semantic"@, alike)).push(
                    link(other, name, "semantic"@, alike),
                ),
            );
        }
    }
}

pub proof fn lemma_distances_counted(rows: Seq<Seq<ValueView>>, query: Seq<u32>, floats: Floats, from: nat, done: Seq<u64>)
    requires
        from <= rows.len(),
    ensures
        distances_from(rows, query, floats, from, done) matches Ok(distances) ==> distances.len() == done.len() + rows.len()
            - from,
    decreases rows.len() - from,
{
    if from < rows.len() {
        if let Ok(distance) = chunk_distance(rows[from as int], query, floats) {
            lemma_distances_counted(rows, query, floats, from + 1, done.push(distance));
        }
    }
}

pub proof fn lemma_nearest_counted(rows: Seq<Seq<ValueView>>, query: Seq<u32>, limit: nat, floats: Floats)
    requires
        rows.len() <= MAX_CHUNKS,
    ensures
        nearest(rows, query, limit, floats) matches Ok(found) ==> found.len() <= smaller_count(limit, rows.len()),
{
    lemma_distances_counted(rows, query, floats, 0, Seq::empty());
    if let Ok(distances) = distances_from(rows, query, floats, 0, Seq::empty()) {
        lemma_sorted_within(distances.len() as usize, distance_order(distances));
    }
}

proof fn lemma_all_semantic_counted(
    rows: Seq<Seq<ValueView>>,
    document: DocumentInputView,
    config: ConfigView,
    floats: Floats,
    from: nat,
    done: Seq<EdgeView>,
)
    requires
        rows.len() <= MAX_CHUNKS,
        from <= document.chunks.len(),
    ensures
        all_semantic_links(rows, document, config, floats, from, done) matches Ok(links) ==> links.len() <= done.len() + (
        document.chunks.len() - from) * smaller_count(config.semantic_neighbors, rows.len()) * 2,
    decreases document.chunks.len() - from,
{
    let most = smaller_count(config.semantic_neighbors, rows.len()) as int;
    let left = document.chunks.len() - from;
    if from < document.chunks.len() {
        let embedding = document.chunks[from as int].embedding;
        lemma_nearest_counted(rows, embedding, config.semantic_neighbors, floats);
        if let Ok(found) = nearest(rows, embedding, config.semantic_neighbors, floats) {
            let name = chunk_name(document.id, from);
            lemma_semantic_counted(rows, name, found, config.semantic_threshold, floats, 0, done);
            if let Ok(more) = semantic_links(rows, name, found, config.semantic_threshold, floats, 0, done) {
                lemma_all_semantic_counted(rows, document, config, floats, from + 1, more);
                assert(left * most * 2 == (left - 1) * most * 2 + most * 2) by (nonlinear_arith);
            }
        }
    } else {
        assert(left * most * 2 == 0) by (nonlinear_arith)
            requires
                left == 0,
        ;
    }
}

/// What is reckoned to stay of the chunks is no less than what stays, and every relationship names its
/// ends.
pub proof fn lemma_remaining(chunks: Seq<Seq<ValueView>>, edges: Seq<Seq<ValueView>>, id: Seq<char>)
    requires
        document_ids(chunks, edges, id) is Ok,
    ensures
        kept(chunks, others_staying(chunks, 1, id), 0, Seq::empty()).len() + document_ids(chunks, edges, id)->Ok_0.1
            <= chunks.len(),
        named_ends(edges, 0),
{
    let positions = matching(chunks, 1, ValueView::Text(id), chunks.len());
    let names = chunk_names(chunks, positions, 0, Seq::empty())->Ok_0;
    lemma_names_counted(chunks, positions, 0, Seq::empty());
    lemma_others_counted(chunks, id, 0, Seq::empty());
    lemma_ends_named(edges, name_prefix(id), 0, names);
}

/// A collection that has been found to have room for a document has it, once the earlier document of
/// that name is gone, in chunks, in elements of vectors, and in relationships, whatever the
/// document's chunks turn out to be like: the largest number of relationships had been reserved.
pub proof fn law_reserved_counts_suffice(catalog: CatalogView, name: Seq<char>, document: DocumentInputView, floats: Floats)
    requires
        catalog.tables.len() <= usize::MAX,
        collection_of(catalog, name) is Ok,
        ({
            let info = collection_of(catalog, name)->Ok_0;
            let places = places_of(catalog, info);
            &&& capacity_checked(
                info,
                catalog.tables[places.documents as int].table,
                catalog.tables[places.chunks as int].table,
                catalog.tables[places.edges as int].table,
                document.preview(),
                floats,
            ) is Ok
            &&& document_removed(catalog, info.tables, places, document.id) is Ok
        }),
    ensures
        ({
            let info = collection_of(catalog, name)->Ok_0;
            let places = places_of(catalog, info);
            let removed = document_removed(catalog, info.tables, places, document.id)->Ok_0.catalog;
            let chunks = removed.tables[places.chunks as int].table.rows;
            let edges = removed.tables[places.edges as int].table.rows;
            &&& chunks.len() + document.chunks.len() <= MAX_CHUNKS
            &&& (chunks.len() + document.chunks.len()) * info.config.profile.dimensions <= MAX_VECTOR_ELEMENTS
            &&& document_links(chunks, document, info.config, floats) matches Ok(links) ==> edges.len() + links.len()
                <= MAX_EDGES
        }),
{
    let info = collection_of(catalog, name)->Ok_0;
    let places = places_of(catalog, info);
    let id = document.id;
    let count = document.chunks.len();
    let chunks = catalog.tables[places.chunks as int].table.rows;
    let edges = catalog.tables[places.edges as int].table.rows;
    lemma_removed(catalog, name, id);
    lemma_collection_kept(catalog, name);
    lemma_table_position(catalog.tables, info.tables.chunks, 0);
    lemma_table_position(catalog.tables, info.tables.documents, 0);
    lemma_table_position(catalog.tables, info.tables.edges, 0);
    let removed = document_removed(catalog, info.tables, places, id)->Ok_0.catalog;
    let chunks_left = removed.tables[places.chunks as int].table.rows;
    let edges_left = removed.tables[places.edges as int].table.rows;
    let positions = matching(chunks, 1, ValueView::Text(id), chunks.len());
    let (ids, named) = document_ids(chunks, edges, id)->Ok_0;
    let names = chunk_names(chunks, positions, 0, Seq::empty())->Ok_0;
    lemma_names_counted(chunks, positions, 0, Seq::empty());
    lemma_others_counted(chunks, id, 0, Seq::empty());
    lemma_ends_named(edges, name_prefix(id), 0, names);
    lemma_edges_counted(edges, ids, 0, 0, 0, Seq::empty());
    reveal(capacity_checked);
    let remaining = (chunks.len() - named) as nat;
    let preview = document.preview();
    assert(preview.chunks.len() == count);
    assert(chunks_left.len() <= remaining);
    let next = (remaining + count) as int;
    let now = (chunks_left.len() + count) as int;
    let dimensions = info.config.profile.dimensions as int;
    assert(now * dimensions <= next * dimensions) by (nonlinear_arith)
        requires
            0 <= now <= next,
            0 <= dimensions,
    ;
    if let Ok(links) = document_links(chunks_left, document, info.config, floats) {
        let adjacent = adjacent_links(id, count, 1, Seq::empty());
        lemma_adjacent_counted(id, count, 1, Seq::empty());
        lemma_all_semantic_counted(chunks_left, document, info.config, floats, 0, adjacent);
        let most = smaller_count(info.config.semantic_neighbors, chunks_left.len()) as int;
        let reserved = smaller_count(info.config.semantic_neighbors, remaining) as int;
        assert(count * most * 2 <= count * reserved * 2) by (nonlinear_arith)
            requires
                0 <= most <= reserved,
                0 <= count,
        ;
        assert(0 <= count * most * 2) by (nonlinear_arith)
            requires
                0 <= most,
                0 <= count,
        ;
    }
}

} // verus!
