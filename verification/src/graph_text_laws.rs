//! That the text of a document which was found to fit has room.

use vstd::prelude::*;
use crate::arithmetic::ONE;
use crate::catalog::{lemma_table_position, CatalogView};
use crate::error::ErrorView;
use crate::graph::{
    chunk_name, collection_of, edge_columns, profile_text, text_in, CollectionView, ConfigView, DOCUMENT_BASE_COLUMNS,
    MAX_CHUNKS, MAX_COLLECTION_TEXT_BYTES,
};
use crate::graph_capacity::{
    capacity_checked, document_bytes, document_ids, larger_count, new_chunks_bytes, other_chunks_bytes, other_documents_bytes, other_edges_bytes, row_bytes,
    row_bytes_from, rows_bytes, smaller_count, text_fits,
};
use crate::graph_capacity_laws::{
    law_reserved_counts_suffice, lemma_distances_counted, lemma_nearest_counted, lemma_remaining, named_ends,
};
use crate::codec::{hashed, FNV_OFFSET_BASIS};
use crate::float::Floats;
use crate::graph_document::{column_value, fields_from, fields_of, fingerprint, hashed_row, hashed_rows, hex_text, DocumentInputView};
use crate::graph_edge::{edge_name, row_of_edge, EdgeView};
use crate::graph_ingest::{
    adjacent_links, all_semantic_links, chunk_row, chunk_rows, document_head, document_links, document_row, edge_rows, link, semantic_links,
};
use crate::graph_near::{distance_order, distances_from, nearest, similarity, NearChunk};
use crate::order::lemma_sorted_within;
use crate::json::{json_notation, json_without, TreeView};
use crate::operators::coerced;
use crate::graph_store::{kept, lemma_collection_kept, opened, stored, GraphPlaces};
use crate::graph_write::{document_removed, edges_staying, others_staying, places_apart, places_of};
use crate::graph_write_laws::{
    lemma_chunk_row_stays, lemma_collection_outlives, lemma_left_is_taken, lemma_removed, lemma_row_coerced,
    lemma_same_position, lemma_stored,
};
use crate::slice::lemma_byte_count;
use crate::text::{byte_count, decimal_text};
use crate::table::TableView;
use crate::value::{ColumnView, ValueView};
use crate::write::typed_row;

verus! {

proof fn lemma_row_bytes_after(row: Seq<ValueView>, from: nat, done: nat)
    ensures
        row_bytes_from(row, from, done) == done + row_bytes_from(row, from, 0),
    decreases row.len() - from,
{
    if from < row.len() {
        match row[from as int] {
            ValueView::Text(text) => {
                lemma_row_bytes_after(row, from + 1, done + byte_count(text));
                lemma_row_bytes_after(row, from + 1, byte_count(text));
            },
            _ => lemma_row_bytes_after(row, from + 1, done),
        }
    }
}

proof fn lemma_rows_bytes_after(rows: Seq<Seq<ValueView>>, from: nat, done: nat)
    ensures
        rows_bytes(rows, from, done) == done + rows_bytes(rows, from, 0),
    decreases rows.len() - from,
{
    if from < rows.len() {
        lemma_rows_bytes_after(rows, from + 1, done + row_bytes(rows[from as int]));
        lemma_rows_bytes_after(rows, from + 1, row_bytes(rows[from as int]));
    }
}

/// The bytes of the texts in rows.
pub open spec fn held(rows: Seq<Seq<ValueView>>) -> nat {
    rows_bytes(rows, 0, 0)
}

proof fn lemma_bytes_pushed(rows: Seq<Seq<ValueView>>, row: Seq<ValueView>, from: nat)
    requires
        from <= rows.len(),
    ensures
        rows_bytes(rows.push(row), from, 0) == rows_bytes(rows, from, 0) + row_bytes(row),
    decreases rows.len() - from,
{
    let longer = rows.push(row);
    lemma_rows_bytes_after(longer, from + 1, row_bytes(longer[from as int]));
    if from < rows.len() {
        lemma_bytes_pushed(rows, row, from + 1);
        lemma_rows_bytes_after(rows, from + 1, row_bytes(rows[from as int]));
        assert(longer[from as int] == rows[from as int]);
    } else {
        assert(rows_bytes(longer, from + 1, 0) == 0);
    }
}

proof fn lemma_held_together(first: Seq<Seq<ValueView>>, second: Seq<Seq<ValueView>>)
    ensures
        held(first + second) == held(first) + held(second),
    decreases second.len(),
{
    if second.len() == 0 {
        assert(first + second =~= first);
    } else {
        let most = second.drop_last();
        lemma_held_together(first, most);
        lemma_bytes_pushed(first + most, second.last(), 0);
        lemma_bytes_pushed(most, second.last(), 0);
        assert((first + most).push(second.last()) =~= first + second);
        assert(most.push(second.last()) =~= second);
    }
}

proof fn lemma_documents_left(rows: Seq<Seq<ValueView>>, id: Seq<char>, from: nat, bytes: nat, done: Seq<Seq<ValueView>>)
    requires
        from <= rows.len(),
    ensures
        other_documents_bytes(rows, id, from, bytes) matches Ok(total) ==> held(
            kept(rows, others_staying(rows, 0, id), from, done),
        ) + bytes == held(done) + total,
    decreases rows.len() - from,
{
    if from < rows.len() {
        let row = rows[from as int];
        let staying = others_staying(rows, 0, id);
        if let Ok(name) = text_in(row, 0) {
            assert(staying[from as int] == (name != id));
            if name != id {
                lemma_bytes_pushed(done, row, 0);
                lemma_documents_left(rows, id, from + 1, bytes + row_bytes(row), done.push(row));
            } else {
                lemma_documents_left(rows, id, from + 1, bytes, done);
            }
        }
    }
}

/// Whether the chunks of other documents have other names.
pub open spec fn others_named_apart(rows: Seq<Seq<ValueView>>, ids: Seq<Seq<char>>, id: Seq<char>) -> bool {
    forall|k: int|
        0 <= k < rows.len() && (#[trigger] rows[k])[1] != ValueView::Text(id) ==> (text_in(rows[k], 0) matches Ok(name)
            ==> !ids.contains(name))
}

/// The bytes of a row are no fewer than those of its name.
proof fn lemma_name_counted(row: Seq<ValueView>)
    ensures
        text_in(row, 0) matches Ok(name) ==> byte_count(name) <= row_bytes(row),
{
    if let Ok(name) = text_in(row, 0) {
        lemma_row_bytes_after(row, 1, byte_count(name));
    }
}

proof fn lemma_chunks_left(
    rows: Seq<Seq<ValueView>>,
    ids: Seq<Seq<char>>,
    id: Seq<char>,
    from: nat,
    bytes: nat,
    longest: nat,
    done: Seq<Seq<ValueView>>,
)
    requires
        from <= rows.len(),
        others_named_apart(rows, ids, id),
    ensures
        other_chunks_bytes(rows, ids, from, bytes, longest) matches Ok((total, most)) ==> {
            &&& held(kept(rows, others_staying(rows, 1, id), from, done)) + bytes <= held(done) + total
            &&& longest <= most <= longest + total - bytes
            &&& bytes <= total
            &&& forall|k: int|
                from <= k < rows.len() && (#[trigger] rows[k])[1] != ValueView::Text(id) ==> (text_in(rows[k], 0) matches Ok(
                    name,
                ) ==> byte_count(name) <= most)
        },
    decreases rows.len() - from,
{
    if from < rows.len() {
        let row = rows[from as int];
        let staying = others_staying(rows, 1, id);
        if let Ok(name) = text_in(row, 0) {
            assert(staying[from as int] == (row[1] != ValueView::Text(id)));
            lemma_name_counted(row);
            let more = bytes + row_bytes(row);
            let longer = larger_count(longest, byte_count(name));
            lemma_bytes_pushed(done, row, 0);
            if staying[from as int] {
                assert(!ids.contains(name));
                lemma_chunks_left(rows, ids, id, from + 1, more, longer, done.push(row));
            } else if ids.contains(name) {
                lemma_chunks_left(rows, ids, id, from + 1, bytes, longest, done);
            } else {
                lemma_chunks_left(rows, ids, id, from + 1, more, longer, done);
            }
        }
    }
}

proof fn lemma_edges_left(
    rows: Seq<Seq<ValueView>>,
    ids: Seq<Seq<char>>,
    from: nat,
    bytes: nat,
    count: nat,
    done: Seq<Seq<ValueView>>,
)
    requires
        from <= rows.len(),
        named_ends(rows, from),
    ensures
        other_edges_bytes(rows, ids, from, bytes, count) matches Ok((total, _)) ==> held(
            kept(rows, edges_staying(rows, ids), from, done),
        ) + bytes == held(done) + total,
    decreases rows.len() - from,
{
    if from < rows.len() {
        let row = rows[from as int];
        let staying = edges_staying(rows, ids);
        assert(text_in(row, 1) is Ok && text_in(row, 2) is Ok);
        let first = text_in(row, 1)->Ok_0;
        let second = text_in(row, 2)->Ok_0;
        assert(staying[from as int] == (!ids.contains(first) && !ids.contains(second)));
        if staying[from as int] {
            lemma_bytes_pushed(done, row, 0);
            lemma_edges_left(rows, ids, from + 1, bytes + row_bytes(row), count + 1, done.push(row));
        } else {
            lemma_edges_left(rows, ids, from + 1, bytes, count, done);
        }
    }
}

/// An ASCII text has one byte for each character.
proof fn lemma_plain_bytes(text: Seq<char>)
    requires
        forall|i: int| 0 <= i < text.len() ==> (#[trigger] text[i] as u32) < 128,
    ensures
        byte_count(text) == text.len(),
    decreases text.len(),
{
    if text.len() > 0 {
        let one = seq![text[0]];
        let rest = text.drop_first();
        assert forall|i: int| 0 <= i < rest.len() implies (#[trigger] rest[i] as u32) < 128 by {
            assert(rest[i] == text[i + 1]);
        }
        lemma_plain_bytes(rest);
        lemma_byte_count(one, rest);
        assert(one + rest =~= text);
        reveal_with_fuel(vstd::utf8::encode_utf8, 2);
        assert(one.drop_first() =~= Seq::<char>::empty());
        vstd::utf8::char_is_scalar(text[0]);
        assert(vstd::utf8::encode_utf8(one) =~= vstd::utf8::encode_scalar(text[0] as u32));
    }
}

proof fn lemma_hex_plain(value: nat, count: nat)
    ensures
        hex_text(value, count).len() == count,
        forall|i: int| 0 <= i < count ==> (#[trigger] hex_text(value, count)[i] as u32) < 128,
    decreases count,
{
    if count > 0 {
        lemma_hex_plain(value / 16, (count - 1) as nat);
    }
}

/// The largest number of so many digits, and one more.
spec fn ceiling(digits: nat) -> nat
    decreases digits,
{
    if digits == 0 {
        1
    } else {
        10 * ceiling((digits - 1) as nat)
    }
}

proof fn lemma_decimal_plain(value: nat, digits: nat)
    requires
        value < ceiling(digits),
        digits > 0,
    ensures
        decimal_text(value).len() <= digits,
        forall|i: int| 0 <= i < decimal_text(value).len() ==> (#[trigger] decimal_text(value)[i] as u32) < 128,
    decreases digits,
{
    if value >= 10 {
        assert(ceiling(0) == 1);
        assert(ceiling(1) == 10 * ceiling(0));
        assert(digits > 1);
        lemma_decimal_plain(value / 10, (digits - 1) as nat);
    }
}

proof fn lemma_typed_bytes(
    columns: Seq<ColumnView>,
    given: Seq<ValueView>,
    values: Seq<ValueView>,
    floats: Floats,
    from: nat,
    done: nat,
)
    requires
        given.len() == values.len(),
        forall|c: int| 0 <= c < given.len() ==> coerced(floats, given[c], columns[c].data_type) == Ok::<ValueView, ErrorView>(
            #[trigger] values[c],
        ),
    ensures
        row_bytes_from(values, from, done) == row_bytes_from(given, from, done),
    decreases given.len() - from,
{
    if from < given.len() {
        assert(coerced(floats, given[from as int], columns[from as int].data_type) == Ok::<ValueView, ErrorView>(
            values[from as int],
        ));
        match given[from as int] {
            ValueView::Text(text) => lemma_typed_bytes(columns, given, values, floats, from + 1, done + byte_count(text)),
            _ => lemma_typed_bytes(columns, given, values, floats, from + 1, done),
        }
    }
}

proof fn lemma_row_bytes_pushed(row: Seq<ValueView>, value: ValueView, from: nat)
    requires
        from <= row.len(),
    ensures
        row_bytes_from(row.push(value), from, 0) == row_bytes_from(row, from, 0) + match value {
            ValueView::Text(text) => byte_count(text),
            _ => 0,
        },
    decreases row.len() - from,
{
    let longer = row.push(value);
    if from < row.len() {
        assert(longer[from as int] == row[from as int]);
        lemma_row_bytes_pushed(row, value, from + 1);
        if let ValueView::Text(text) = row[from as int] {
            lemma_row_bytes_after(row, from + 1, byte_count(text));
            lemma_row_bytes_after(longer, from + 1, byte_count(text));
        }
    } else {
        assert(row_bytes_from(row, from, 0) == 0);
        assert(longer[from as int] == value);
        reveal_with_fuel(row_bytes_from, 2);
    }
}

proof fn lemma_row_bytes_together(first: Seq<ValueView>, second: Seq<ValueView>)
    ensures
        row_bytes(first + second) == row_bytes(first) + row_bytes(second),
    decreases second.len(),
{
    if second.len() == 0 {
        assert(first + second =~= first);
    } else {
        let most = second.drop_last();
        lemma_row_bytes_together(first, most);
        lemma_row_bytes_pushed(first + most, second.last(), 0);
        lemma_row_bytes_pushed(most, second.last(), 0);
        assert((first + most).push(second.last()) =~= first + second);
        assert(most.push(second.last()) =~= second);
    }
}

/// The bytes of a document's row are those that were reserved for it.
proof fn lemma_document_bytes(document: DocumentInputView, free: TreeView, fields: Seq<ValueView>, chunks: Seq<Seq<ValueView>>)
    ensures
        row_bytes(document_row(document, free, fields, chunks)) == document_bytes(document.preview(), free, fields),
{
    let head = document_head(document, free);
    let mark = fingerprint(head, chunks);
    let first = head.push(ValueView::Text(mark));
    lemma_row_bytes_together(first, fields);
    lemma_row_bytes_pushed(head, ValueView::Text(mark), 0);
    reveal_with_fuel(row_bytes_from, 8);
    assert(row_bytes(head) == byte_count(document.id) + byte_count(document.title) + byte_count(document.source)
        + byte_count(document.text) + byte_count(json_notation(free)) + byte_count(json_notation(document.chunking)));
    lemma_mark_bytes(head, chunks);
}

proof fn lemma_mark_bytes(head: Seq<ValueView>, chunks: Seq<Seq<ValueView>>)
    ensures
        byte_count(fingerprint(head, chunks)) == 16,
{
    let counted = hashed(FNV_OFFSET_BASIS, vstd::bytes::spec_u64_to_le_bytes((chunks.len() + 1) as u64));
    let value = hashed_rows(hashed_row(counted, head), chunks, 0) as nat;
    lemma_hex_plain(value, 16);
    lemma_plain_bytes(hex_text(value, 16));
}

/// The bytes of the chunks' rows are those that were reserved for them.
proof fn lemma_new_chunks(document: DocumentInputView, key: Seq<char>, from: nat, done: nat, longest: nat)
    ensures
        ({
            let reserved = new_chunks_bytes(document.id, document.preview().chunks, byte_count(key), from, done, longest);
            &&& rows_bytes(chunk_rows(document, key), from, done) == reserved.0
            &&& longest <= reserved.1 <= longest + reserved.0 - done
            &&& done <= reserved.0
            &&& forall|k: int|
                from <= k < document.chunks.len() ==> byte_count(#[trigger] chunk_name(document.id, k as nat)) <= reserved.1
        }),
    decreases document.chunks.len() - from,
{
    let previews = document.preview().chunks;
    let rows = chunk_rows(document, key);
    if from < document.chunks.len() {
        let name = chunk_name(document.id, from);
        let chunk = document.chunks[from as int];
        assert(rows[from as int] == chunk_row(document, from, key));
        assert(previews[from as int].text == chunk.text && previews[from as int].embedding_text == chunk.embedding_text);
        let more = byte_count(name) + byte_count(document.id) + byte_count(chunk.text) + byte_count(chunk.embedding_text)
            + byte_count(key);
        assert(row_bytes(chunk_row(document, from, key)) == more) by {
            reveal_with_fuel(row_bytes_from, 10);
        }
        lemma_new_chunks(document, key, from + 1, done + more, larger_count(longest, byte_count(name)));
    }
}

/// The bytes of a relationship's row, where its kind has eight and its ends have no more than so many.
proof fn lemma_edge_bytes(edge: EdgeView, from_most: nat, to_most: nat)
    requires
        byte_count(edge.kind) == 8,
        byte_count(edge.from_chunk) <= from_most < ceiling(17),
        byte_count(edge.to_chunk) <= to_most,
    ensures
        row_bytes(row_of_edge(edge)) <= (from_most + to_most) * 2 + 36,
{
    let digits = decimal_text(byte_count(edge.from_chunk));
    lemma_decimal_plain(byte_count(edge.from_chunk), 17);
    lemma_plain_bytes(digits);
    reveal_strlit(":");
    lemma_plain_bytes(":"@);
    let a = edge.kind + ":"@;
    let b = a + digits;
    let c = b + ":"@;
    let d = c + edge.from_chunk;
    let e = d + ":"@;
    lemma_byte_count(edge.kind, ":"@);
    lemma_byte_count(a, digits);
    lemma_byte_count(b, ":"@);
    lemma_byte_count(c, edge.from_chunk);
    lemma_byte_count(d, ":"@);
    lemma_byte_count(e, edge.to_chunk);
    assert(edge_name(edge) == e + edge.to_chunk);
    assert(row_bytes(row_of_edge(edge)) == byte_count(edge_name(edge)) + byte_count(edge.from_chunk) + byte_count(
        edge.to_chunk,
    ) + byte_count(edge.kind)) by {
        reveal_with_fuel(row_bytes_from, 6);
    }
}

proof fn lemma_kinds()
    ensures
        byte_count("adjacent"@) == 8,
        byte_count("semantic"@) == 8,
{
    reveal_strlit("adjacent");
    reveal_strlit("semantic");
    lemma_plain_bytes("adjacent"@);
    lemma_plain_bytes("semantic"@);
}

/// Two more relationships, each way between two chunks.
proof fn lemma_pair_bytes(done: Seq<EdgeView>, one: EdgeView, other: EdgeView)
    ensures
        held(edge_rows(done.push(one).push(other))) == held(edge_rows(done)) + row_bytes(row_of_edge(one)) + row_bytes(
            row_of_edge(other),
        ),
{
    let rows = edge_rows(done);
    lemma_bytes_pushed(rows, row_of_edge(one), 0);
    lemma_bytes_pushed(rows.push(row_of_edge(one)), row_of_edge(other), 0);
    assert(edge_rows(done.push(one).push(other)) =~= rows.push(row_of_edge(one)).push(row_of_edge(other)));
}

proof fn lemma_adjacent_bytes(id: Seq<char>, count: nat, from: nat, done: Seq<EdgeView>, most: nat)
    requires
        1 <= from,
        most < ceiling(17),
        forall|k: int| 0 <= k < count ==> byte_count(#[trigger] chunk_name(id, k as nat)) <= most,
    ensures
        held(edge_rows(adjacent_links(id, count, from, done))) <= held(edge_rows(done)) + if from < count {
            (count - from) * 2 * (most * 4 + 36)
        } else {
            0
        },
    decreases count - from,
{
    if from < count {
        let previous = chunk_name(id, (from - 1) as nat);
        let current = chunk_name(id, from);
        let one = link(previous, current, "adjacent"@, ONE);
        let other = link(current, previous, "adjacent"@, ONE);
        let at = from as int;
        assert(byte_count(chunk_name(id, at as nat)) <= most && byte_count(chunk_name(id, (at - 1) as nat)) <= most);
        lemma_kinds();
        lemma_edge_bytes(one, most, most);
        lemma_edge_bytes(other, most, most);
        lemma_pair_bytes(done, one, other);
        lemma_adjacent_bytes(id, count, from + 1, done.push(one).push(other), most);
        let left = count - from;
        let each = (most * 4 + 36) as int;
        assert(left * 2 * each == (left - 1) * 2 * each + 2 * each) by (nonlinear_arith);
        assert(left == 1 ==> (left - 1) * 2 * each == 0) by (nonlinear_arith);
    }
}

proof fn lemma_semantic_bytes(
    rows: Seq<Seq<ValueView>>,
    name: Seq<char>,
    found: Seq<NearChunk>,
    threshold: u64,
    floats: Floats,
    from: nat,
    done: Seq<EdgeView>,
    new_most: nat,
    old_most: nat,
)
    requires
        from <= found.len(),
        new_most < ceiling(17),
        old_most < ceiling(17),
        byte_count(name) <= new_most,
        forall|k: int| 0 <= k < found.len() ==> (#[trigger] found[k]).row < rows.len(),
        forall|k: int| 0 <= k < rows.len() ==> (text_in(#[trigger] rows[k], 0) matches Ok(other) ==> byte_count(other)
            <= old_most),
    ensures
        semantic_links(rows, name, found, threshold, floats, from, done) matches Ok(links) ==> held(edge_rows(links)) <= held(
            edge_rows(done),
        ) + (found.len() - from) * 2 * ((new_most + old_most) * 2 + 36),
    decreases found.len() - from,
{
    let left = found.len() - from;
    let each = ((new_most + old_most) * 2 + 36) as int;
    if from < found.len() {
        let near = found[from as int];
        let alike = similarity(near.distance, floats);
        lemma_semantic_bytes(rows, name, found, threshold, floats, from + 1, done, new_most, old_most);
        assert(left * 2 * each == (left - 1) * 2 * each + 2 * each) by (nonlinear_arith);
        if let Ok(other) = text_in(rows[near.row as int], 0) {
            let one = link(name, other, "semantic"@, alike);
            let back = link(other, name, "semantic"@, alike);
            lemma_kinds();
            lemma_edge_bytes(one, new_most, old_most);
            lemma_edge_bytes(back, old_most, new_most);
            lemma_pair_bytes(done, one, back);
            lemma_semantic_bytes(
                rows,
                name,
                found,
                threshold,
                floats,
                from + 1,
                done.push(one).push(back),
                new_most,
                old_most,
            );
        }
    } else {
        assert(left * 2 * each == 0) by (nonlinear_arith)
            requires
                left == 0,
        ;
    }
}

proof fn lemma_all_semantic_bytes(
    rows: Seq<Seq<ValueView>>,
    document: DocumentInputView,
    config: ConfigView,
    floats: Floats,
    from: nat,
    done: Seq<EdgeView>,
    new_most: nat,
    old_most: nat,
)
    requires
        rows.len() <= MAX_CHUNKS,
        from <= document.chunks.len(),
        new_most < ceiling(17),
        old_most < ceiling(17),
        forall|k: int|
            0 <= k < document.chunks.len() ==> byte_count(#[trigger] chunk_name(document.id, k as nat)) <= new_most,
        forall|k: int| 0 <= k < rows.len() ==> (text_in(#[trigger] rows[k], 0) matches Ok(other) ==> byte_count(other)
            <= old_most),
    ensures
        all_semantic_links(rows, document, config, floats, from, done) matches Ok(links) ==> held(edge_rows(links)) <= held(
            edge_rows(done),
        ) + (document.chunks.len() - from) * smaller_count(config.semantic_neighbors, rows.len()) * 2 * ((new_most + old_most)
            * 2 + 36),
    decreases document.chunks.len() - from,
{
    let most = smaller_count(config.semantic_neighbors, rows.len()) as int;
    let left = document.chunks.len() - from;
    let each = ((new_most + old_most) * 2 + 36) as int;
    if from < document.chunks.len() {
        let embedding = document.chunks[from as int].embedding;
        lemma_nearest_counted(rows, embedding, config.semantic_neighbors, floats);
        if let Ok(found) = nearest(rows, embedding, config.semantic_neighbors, floats) {
            let name = chunk_name(document.id, from);
            let at = from as int;
            assert(byte_count(chunk_name(document.id, at as nat)) <= new_most);
            lemma_nearest_within(rows, embedding, config.semantic_neighbors, floats);
            lemma_semantic_bytes(
                rows,
                name,
                found,
                config.semantic_threshold,
                floats,
                0,
                done,
                new_most,
                old_most,
            );
            if let Ok(more) = semantic_links(rows, name, found, config.semantic_threshold, floats, 0, done) {
                lemma_all_semantic_bytes(rows, document, config, floats, from + 1, more, new_most, old_most);
                let here = found.len() as int;
                assert(here * 2 * each <= most * 2 * each) by (nonlinear_arith)
                    requires
                        0 <= here <= most,
                        0 <= each,
                ;
                assert(left * most * 2 * each == (left - 1) * most * 2 * each + most * 2 * each) by (nonlinear_arith);
            }
        }
    } else {
        assert(left * most * 2 * each == 0) by (nonlinear_arith)
            requires
                left == 0,
        ;
    }
}

proof fn lemma_nearest_within(rows: Seq<Seq<ValueView>>, query: Seq<u32>, limit: nat, floats: Floats)
    requires
        rows.len() <= MAX_CHUNKS,
    ensures
        nearest(rows, query, limit, floats) matches Ok(found) ==> forall|k: int|
            0 <= k < found.len() ==> (#[trigger] found[k]).row < rows.len(),
{
    lemma_distances_counted(rows, query, floats, 0, Seq::empty());
    if let Ok(distances) = distances_from(rows, query, floats, 0, Seq::empty()) {
        lemma_sorted_within(distances.len() as usize, distance_order(distances));
    }
}

/// The bytes of a collection's texts.
spec fn all_held(catalog: CatalogView, places: GraphPlaces) -> nat {
    held(catalog.tables[places.documents as int].table.rows) + held(catalog.tables[places.chunks as int].table.rows) + held(
        catalog.tables[places.edges as int].table.rows,
    )
}

proof fn lemma_text_fits(documents: TableView, chunks: TableView, edges: TableView)
    requires
        held(documents.rows) + held(chunks.rows) + held(edges.rows) <= MAX_COLLECTION_TEXT_BYTES,
    ensures
        text_fits(documents, chunks, edges) is Ok,
{
    let first = held(documents.rows);
    lemma_rows_bytes_after(chunks.rows, 0, first);
    lemma_rows_bytes_after(edges.rows, 0, first + held(chunks.rows));
}

/// A row of a relationship is in its table as it was made.
proof fn lemma_edge_row_stays(edge: EdgeView, floats: Floats)
    ensures
        typed_row(edge_columns(), row_of_edge(edge), floats) matches Ok(row) ==> row == row_of_edge(edge),
{
    let columns = edge_columns();
    let given = row_of_edge(edge);
    if let Ok(row) = typed_row(columns, given, floats) {
        lemma_row_coerced(columns, given, floats, 0, Seq::empty());
        assert forall|c: int| 0 <= c < given.len() implies row[c] == given[c] by {
            assert(coerced(floats, given[c], columns[c].data_type) == Ok::<ValueView, ErrorView>(row[c]));
        }
        assert(row =~= given);
    }
}

/// What is held once a document's row, its chunks' rows and its relationships have been put in.
#[verifier::rlimit(40)]
proof fn lemma_held_with(
    removed: CatalogView,
    info: CollectionView,
    places: GraphPlaces,
    document: DocumentInputView,
    links: Seq<EdgeView>,
    floats: Floats,
)
    requires
        opened(removed, info, places),
        places_apart(places),
        fields_of(removed.tables[places.documents as int].table, document.id, document.metadata, floats) is Ok,
    ensures
        ({
            let key = profile_text(info.config.profile);
            let made = chunk_rows(document, key);
            let (free, fields) = fields_of(
                removed.tables[places.documents as int].table,
                document.id,
                document.metadata,
                floats,
            )->Ok_0;
            let row = document_row(document, free, fields, made);
            stored(removed, info.tables.documents, seq![row], floats) matches Ok(first) ==> (stored(
                first,
                info.tables.chunks,
                made,
                floats,
            ) matches Ok(second) ==> (stored(second, info.tables.edges, edge_rows(links), floats) matches Ok(after)
                ==> all_held(after, places) == all_held(removed, places) + document_bytes(document.preview(), free, fields)
                + held(made) + held(edge_rows(links))))
        }),
{
    let key = profile_text(info.config.profile);
    let made = chunk_rows(document, key);
    let documents = removed.tables[places.documents as int].table;
    let chunks = removed.tables[places.chunks as int].table;
    let edges = removed.tables[places.edges as int].table;
    let (free, fields) = fields_of(documents, document.id, document.metadata, floats)->Ok_0;
    let row = document_row(document, free, fields, made);
    let linked = edge_rows(links);
    lemma_stored(removed, info.tables.documents, seq![row], floats);
    if let Ok(first) = stored(removed, info.tables.documents, seq![row], floats) {
        lemma_same_position(removed, first, info.tables.chunks, 0);
        lemma_same_position(removed, first, info.tables.edges, 0);
        lemma_stored(first, info.tables.chunks, made, floats);
        if let Ok(second) = stored(first, info.tables.chunks, made, floats) {
            lemma_same_position(first, second, info.tables.edges, 0);
            lemma_stored(second, info.tables.edges, linked, floats);
            if let Ok(after) = stored(second, info.tables.edges, linked, floats) {
                let documents_now = after.tables[places.documents as int].table.rows;
                let chunks_now = after.tables[places.chunks as int].table.rows;
                let edges_now = after.tables[places.edges as int].table.rows;
                assert(first.tables[places.chunks as int] == removed.tables[places.chunks as int]);
                assert(first.tables[places.edges as int] == removed.tables[places.edges as int]);
                assert(second.tables[places.edges as int] == first.tables[places.edges as int]);
                assert(second.tables[places.documents as int] == first.tables[places.documents as int]);
                assert(after.tables[places.documents as int] == second.tables[places.documents as int]);
                assert(after.tables[places.chunks as int] == second.tables[places.chunks as int]);
                let last = documents_now[documents.rows.len() as int];
                assert(seq![row][0] == row);
                assert(typed_row(documents.columns, row, floats) == Ok::<Seq<ValueView>, ErrorView>(last));
                lemma_row_coerced(documents.columns, row, floats, 0, Seq::empty());
                lemma_typed_bytes(documents.columns, row, last, floats, 0, 0);
                lemma_document_bytes(document, free, fields, made);
                assert(documents_now =~= documents.rows.push(last)) by {
                    assert(documents_now.take(documents.rows.len() as int) == documents.rows);
                    assert forall|i: int| 0 <= i < documents.rows.len() implies documents_now[i] == documents.rows[i] by {
                        assert(documents_now.take(documents.rows.len() as int)[i] == documents.rows[i]);
                    }
                }
                lemma_bytes_pushed(documents.rows, last, 0);
                assert(chunks_now =~= chunks.rows + made) by {
                    assert forall|i: int| 0 <= i < chunks.rows.len() implies chunks_now[i] == chunks.rows[i] by {
                        assert(chunks_now.take(chunks.rows.len() as int)[i] == chunks.rows[i]);
                    }
                    assert forall|k: int| 0 <= k < made.len() implies chunks_now[chunks.rows.len() + k] == made[k] by {
                        lemma_chunk_row_stays(document, k as nat, key, info.config.profile.dimensions as usize, floats);
                        assert(made[k] == chunk_row(document, k as nat, key));
                    }
                }
                lemma_held_together(chunks.rows, made);
                assert(edges_now =~= edges.rows + linked) by {
                    assert forall|i: int| 0 <= i < edges.rows.len() implies edges_now[i] == edges.rows[i] by {
                        assert(edges_now.take(edges.rows.len() as int)[i] == edges.rows[i]);
                    }
                    assert forall|k: int| 0 <= k < linked.len() implies edges_now[edges.rows.len() + k] == linked[k] by {
                        lemma_edge_row_stays(links[k], floats);
                        assert(linked[k] == row_of_edge(links[k]));
                    }
                }
                lemma_held_together(edges.rows, linked);
            }
        }
    }
}

/// Which fields a document gets does not depend on the rows that there are, where it gets them.
proof fn lemma_same_fields(
    first: TableView,
    second: TableView,
    id: Seq<char>,
    free: TreeView,
    from: nat,
    done: Seq<ValueView>,
    floats: Floats,
)
    requires
        first.columns == second.columns,
    ensures
        (fields_from(first, id, free, from, done, floats), fields_from(second, id, free, from, done, floats)) matches (
            Ok(a),
            Ok(b),
        ) ==> a == b,
    decreases first.columns.len() - from,
{
    if from < first.columns.len() {
        if let (Ok(a), Ok(b)) = (
            column_value(first, id, free, from, floats),
            column_value(second, id, free, from, floats),
        ) {
            assert(a == b);
            lemma_same_fields(
                first,
                second,
                id,
                json_without(free, first.columns[from as int].name),
                from + 1,
                done.push(a),
                floats,
            );
        }
    }
}

/// The texts of the relationships that a document gets take no more bytes than the largest number of
/// them was reckoned at.
proof fn lemma_links_bytes(
    rows: Seq<Seq<ValueView>>,
    document: DocumentInputView,
    config: ConfigView,
    floats: Floats,
    remaining: nat,
    new_most: nat,
    old_most: nat,
)
    requires
        rows.len() <= remaining,
        rows.len() <= MAX_CHUNKS,
        document.chunks.len() > 0,
        new_most < ceiling(17),
        old_most < ceiling(17),
        forall|k: int|
            0 <= k < document.chunks.len() ==> byte_count(#[trigger] chunk_name(document.id, k as nat)) <= new_most,
        forall|k: int| 0 <= k < rows.len() ==> (text_in(#[trigger] rows[k], 0) matches Ok(other) ==> byte_count(other)
            <= old_most),
    ensures
        document_links(rows, document, config, floats) matches Ok(links) ==> held(edge_rows(links)) <= (document.chunks.len() - 1)
            * 2 * (new_most * 4 + 36) + document.chunks.len() * smaller_count(config.semantic_neighbors, remaining) * 2 * ((
        new_most + old_most) * 2 + 36),
{
    let count = document.chunks.len() as int;
    let empty = Seq::<EdgeView>::empty();
    let adjacent = adjacent_links(document.id, document.chunks.len(), 1, empty);
    assert(edge_rows(empty) =~= Seq::<Seq<ValueView>>::empty());
    lemma_adjacent_bytes(document.id, document.chunks.len(), 1, empty, new_most);
    lemma_all_semantic_bytes(rows, document, config, floats, 0, adjacent, new_most, old_most);
    let most = smaller_count(config.semantic_neighbors, rows.len()) as int;
    let reserved = smaller_count(config.semantic_neighbors, remaining) as int;
    let each = ((new_most + old_most) * 2 + 36) as int;
    let near = (new_most * 4 + 36) as int;
    assert(0 <= count * most * 2 * each <= count * reserved * 2 * each) by (nonlinear_arith)
        requires
            0 <= most <= reserved,
            0 <= count,
            0 <= each,
    ;
    assert(count == 1 ==> (count - 1) * 2 * near == 0) by (nonlinear_arith);
}

/// A collection that has been found to have room for a document has it for its texts too, once the
/// earlier document of that name is gone: the longest texts that its relationships can have had been
/// reserved. The chunks of other documents must not have names that are made for the document's own.
pub proof fn law_reserved_text_suffices(catalog: CatalogView, name: Seq<char>, document: DocumentInputView, floats: Floats)
    requires
        catalog.tables.len() <= usize::MAX,
        collection_of(catalog, name) is Ok,
        document.chunks.len() > 0,
        ({
            let info = collection_of(catalog, name)->Ok_0;
            let places = places_of(catalog, info);
            let chunks = catalog.tables[places.chunks as int].table;
            let edges = catalog.tables[places.edges as int].table;
            &&& capacity_checked(
                info,
                catalog.tables[places.documents as int].table,
                chunks,
                edges,
                document.preview(),
                floats,
            ) is Ok
            &&& document_removed(catalog, info.tables, places, document.id) is Ok
            &&& document_ids(chunks.rows, edges.rows, document.id) matches Ok((ids, _)) && others_named_apart(
                chunks.rows,
                ids,
                document.id,
            )
        }),
    ensures
        ({
            let info = collection_of(catalog, name)->Ok_0;
            let places = places_of(catalog, info);
            let removed = document_removed(catalog, info.tables, places, document.id)->Ok_0.catalog;
            let made = chunk_rows(document, profile_text(info.config.profile));
            (
                fields_of(removed.tables[places.documents as int].table, document.id, document.metadata, floats),
                document_links(removed.tables[places.chunks as int].table.rows, document, info.config, floats),
            ) matches (Ok((free, fields)), Ok(links)) ==> {
                let row = document_row(document, free, fields, made);
                stored(removed, info.tables.documents, seq![row], floats) matches Ok(first) ==> (stored(
                    first,
                    info.tables.chunks,
                    made,
                    floats,
                ) matches Ok(second) ==> (stored(second, info.tables.edges, edge_rows(links), floats) matches Ok(after)
                    ==> text_fits(
                    after.tables[places.documents as int].table,
                    after.tables[places.chunks as int].table,
                    after.tables[places.edges as int].table,
                ) is Ok))
            }
        }),
{
    let info = collection_of(catalog, name)->Ok_0;
    let places = places_of(catalog, info);
    let id = document.id;
    let key = profile_text(info.config.profile);
    let made = chunk_rows(document, key);
    let documents = catalog.tables[places.documents as int].table;
    let chunks = catalog.tables[places.chunks as int].table.rows;
    let edges = catalog.tables[places.edges as int].table.rows;
    lemma_removed(catalog, name, id);
    lemma_collection_outlives(catalog, name, id);
    lemma_collection_kept(catalog, name);
    lemma_table_position(catalog.tables, info.tables.documents, 0);
    lemma_table_position(catalog.tables, info.tables.chunks, 0);
    lemma_table_position(catalog.tables, info.tables.edges, 0);
    let removed = document_removed(catalog, info.tables, places, id)->Ok_0.catalog;
    lemma_collection_kept(removed, name);
    lemma_table_position(removed.tables, info.tables.documents, 0);
    lemma_table_position(removed.tables, info.tables.chunks, 0);
    lemma_table_position(removed.tables, info.tables.edges, 0);
    let documents_left = removed.tables[places.documents as int].table;
    let chunks_left = removed.tables[places.chunks as int].table.rows;
    let edges_left = removed.tables[places.edges as int].table.rows;
    let (ids, named) = document_ids(chunks, edges, id)->Ok_0;
    let remaining = (chunks.len() - named) as nat;
    law_reserved_counts_suffice(catalog, name, document, floats);
    lemma_remaining(chunks, edges, id);
    lemma_documents_left(documents.rows, id, 0, 0, Seq::empty());
    lemma_chunks_left(chunks, ids, id, 0, 0, 0, Seq::empty());
    lemma_edges_left(edges, ids, 0, 0, 0, Seq::empty());
    lemma_same_fields(documents, documents_left, id, document.metadata, DOCUMENT_BASE_COLUMNS as nat, Seq::empty(), floats);
    reveal(capacity_checked);
    if let (Ok((free, fields)), Ok(links)) = (
        fields_of(documents_left, id, document.metadata, floats),
        document_links(chunks_left, document, info.config, floats),
    ) {
        let first = other_documents_bytes(documents.rows, id, 0, 0)->Ok_0;
        let (second, old_most) = other_chunks_bytes(chunks, ids, 0, 0, 0)->Ok_0;
        let third = other_edges_bytes(edges, ids, 0, 0, 0)->Ok_0.0;
        let start = first + second + third + document_bytes(document.preview(), free, fields);
        let (bytes, new_most) = new_chunks_bytes(id, document.preview().chunks, byte_count(key), 0, start, 0);
        assert(document.preview().chunks.len() == document.chunks.len());
        lemma_new_chunks(document, key, 0, start, 0);
        lemma_rows_bytes_after(made, 0, start);
        let count = document.chunks.len() as int;
        let near = (new_most * 4 + 36) as int;
        let each = ((new_most + old_most) * 2 + 36) as int;
        let reserved = smaller_count(info.config.semantic_neighbors, remaining) as int;
        assert(0 <= (count - 1) * 2 * near && 0 <= count * reserved * 2 * each) by (nonlinear_arith)
            requires
                count >= 1,
                near >= 0,
                reserved >= 0,
                each >= 0,
        ;
        assert(ceiling(17) > MAX_COLLECTION_TEXT_BYTES) by {
            reveal_with_fuel(ceiling, 18);
        }
        assert forall|k: int| 0 <= k < chunks_left.len() implies (text_in(#[trigger] chunks_left[k], 0) matches Ok(other)
            ==> byte_count(other) <= old_most) by {
            lemma_left_is_taken(chunks, others_staying(chunks, 1, id), k);
        }
        lemma_links_bytes(chunks_left, document, info.config, floats, remaining, new_most, old_most);
        lemma_held_with(removed, info, places, document, links, floats);
        let row = document_row(document, free, fields, made);
        if let Ok(one) = stored(removed, info.tables.documents, seq![row], floats) {
            if let Ok(two) = stored(one, info.tables.chunks, made, floats) {
                if let Ok(after) = stored(two, info.tables.edges, edge_rows(links), floats) {
                    lemma_text_fits(
                        after.tables[places.documents as int].table,
                        after.tables[places.chunks as int].table,
                        after.tables[places.edges as int].table,
                    );
                }
            }
        }
    }
}

} // verus!
