//! How much a collection holds, and whether a document still fits.

use vstd::prelude::*;
use crate::error::{plain, Error, ErrorView};
use crate::float::{computes, floats, FloatReply, FloatTask, Floats};
use crate::graph::{
    chunk_id, chunk_name, invalid, misuse, profile_key, profile_text, text_at, text_in, CollectionView, GraphCollection,
    DOCUMENT_BASE_COLUMNS, MAX_CHUNKS, MAX_COLLECTION_TEXT_BYTES, MAX_EDGES, MAX_VECTOR_ELEMENTS,
};
use crate::graph_document::{
    document_fields, fields_of, ChunkPreviewView, GraphChunkPreview, GraphDocumentPreview, PreviewView,
};
use crate::graph_edge::rows_with_text;
use crate::index::matching;
use crate::json::{json_notation, json_text, TreeView};
use crate::table::{valid_row, Table, TableView};
use crate::text::{
    byte_count, chars_of, count_bytes, decimal_count, decimal_text, is_digit, join2, join3, lemma_views_push, same_text,
    views,
};
use crate::value::{row_views, Value, ValueView};

verus! {

broadcast use {vstd::string::group_string_axioms, lemma_views_push};

/// A number, or the largest that a machine word holds.
pub open spec fn capped(value: nat) -> nat {
    if value > usize::MAX {
        usize::MAX as nat
    } else {
        value
    }
}

fn sum(left: usize, right: usize) -> (result: usize)
    ensures
        result == capped((left + right) as nat),
{
    left.saturating_add(right)
}

fn product(left: usize, right: usize) -> (result: usize)
    ensures
        result == capped((left * right) as nat),
{
    match left.checked_mul(right) {
        Some(value) => value,
        None => usize::MAX,
    }
}

proof fn lemma_capped_sum(left: nat, right: nat)
    ensures
        capped(capped(left) + right) == capped(left + right),
        capped(left + capped(right)) == capped(left + right),
{
}

proof fn lemma_capped_product(left: nat, right: nat)
    ensures
        capped(capped(left) * right) == capped(left * right),
{
    if left > usize::MAX && right > 0 {
        assert(capped(left) * right >= usize::MAX) by (nonlinear_arith)
            requires
                capped(left) == usize::MAX,
                right > 0,
        ;
        assert(left * right > usize::MAX) by (nonlinear_arith)
            requires
                left > usize::MAX,
                right > 0,
        ;
    } else if left > usize::MAX {
        assert(capped(left) * right == 0) by (nonlinear_arith)
            requires
                right == 0,
        ;
        assert(left * right == 0) by (nonlinear_arith)
            requires
                right == 0,
        ;
    }
}

/// The bytes of the texts in a row from `from` on, after `done`.
pub open spec fn row_bytes_from(row: Seq<ValueView>, from: nat, done: nat) -> nat
    decreases row.len() - from,
{
    if from >= row.len() {
        done
    } else {
        match row[from as int] {
            ValueView::Text(text) => row_bytes_from(row, from + 1, done + byte_count(text)),
            _ => row_bytes_from(row, from + 1, done),
        }
    }
}

/// The bytes of the texts in a row.
pub open spec fn row_bytes(row: Seq<ValueView>) -> nat {
    row_bytes_from(row, 0, 0)
}

fn row_text_bytes(row: &Vec<Value>) -> (bytes: usize)
    ensures
        bytes == capped(row_bytes(views(row@))),
{
    let mut bytes: usize = 0;
    let ghost mut total: nat = 0;
    let mut index: usize = 0;
    while index < row.len()
        invariant
            index <= row@.len(),
            bytes == capped(total),
            row_bytes_from(views(row@), index as nat, total) == row_bytes(views(row@)),
        decreases row@.len() - index,
    {
        assert(views(row@)[index as int] == row@[index as int]@);
        if let Value::Text(text) = &row[index] {
            bytes = sum(bytes, count_bytes(text.as_str()));
            proof {
                lemma_capped_sum(total, byte_count(text@));
                total = total + byte_count(text@);
            }
        }
        index = index + 1;
    }
    bytes
}

/// The bytes of the texts in the rows from `from` on, after `done`.
pub open spec fn rows_bytes(rows: Seq<Seq<ValueView>>, from: nat, done: nat) -> nat
    decreases rows.len() - from,
{
    if from >= rows.len() {
        done
    } else {
        rows_bytes(rows, from + 1, done + row_bytes(rows[from as int]))
    }
}

proof fn lemma_rows_bytes_grow(rows: Seq<Seq<ValueView>>, from: nat, done: nat)
    ensures
        rows_bytes(rows, from, done) >= done,
    decreases rows.len() - from,
{
    if from < rows.len() {
        lemma_rows_bytes_grow(rows, from + 1, done + row_bytes(rows[from as int]));
    }
}

/// Whether the texts of a collection's documents, chunks and relationships fit.
pub open spec fn text_fits(documents: TableView, chunks: TableView, edges: TableView) -> Result<(), ErrorView> {
    if rows_bytes(edges.rows, 0, rows_bytes(chunks.rows, 0, rows_bytes(documents.rows, 0, 0)))
        > MAX_COLLECTION_TEXT_BYTES {
        Err(misuse("graph text storage exceeds 64 MiB"@))
    } else {
        Ok(())
    }
}

fn table_bytes(table: &Table, done: usize, Ghost(before): Ghost<nat>) -> (bytes: usize)
    requires
        done == capped(before),
    ensures
        bytes == capped(rows_bytes(table@.rows, 0, before)),
{
    let mut bytes: usize = done;
    let ghost mut total: nat = before;
    let mut index: usize = 0;
    while index < table.rows.len()
        invariant
            index <= table.rows@.len(),
            bytes == capped(total),
            rows_bytes(table@.rows, index as nat, total) == rows_bytes(table@.rows, 0, before),
        decreases table.rows@.len() - index,
    {
        assert(table@.rows[index as int] == views(table.rows@[index as int]@));
        let more: usize = row_text_bytes(&table.rows[index]);
        bytes = sum(bytes, more);
        proof {
            let added = row_bytes(table@.rows[index as int]);
            lemma_capped_sum(total, capped(added));
            lemma_capped_sum(total, added);
            total = total + added;
        }
        index = index + 1;
    }
    bytes
}

pub fn validate_text_capacity(documents: &Table, chunks: &Table, edges: &Table) -> (result: Result<(), Error>)
    ensures
        plain(result) == text_fits(documents@, chunks@, edges@),
{
    let first: usize = table_bytes(documents, 0, Ghost(0));
    let ghost one = rows_bytes(documents@.rows, 0, 0);
    let second: usize = table_bytes(chunks, first, Ghost(one));
    let ghost two = rows_bytes(chunks@.rows, 0, one);
    let bytes: usize = table_bytes(edges, second, Ghost(two));
    if bytes > MAX_COLLECTION_TEXT_BYTES {
        return Err(invalid("graph text storage exceeds 64 MiB"));
    }
    Ok(())
}

/// The texts with one more at their end, unless it is among them.
pub open spec fn with_text(texts: Seq<Seq<char>>, text: Seq<char>) -> Seq<Seq<char>> {
    if texts.contains(text) {
        texts
    } else {
        texts.push(text)
    }
}

pub fn has_text(texts: &Vec<String>, text: &str) -> (result: bool)
    ensures
        result == views(texts@).contains(text@),
{
    let mut index: usize = 0;
    while index < texts.len()
        invariant
            index <= texts@.len(),
            forall|i: int| 0 <= i < index ==> (#[trigger] views(texts@)[i]) != text@,
        decreases texts@.len() - index,
    {
        assert(views(texts@)[index as int] == texts@[index as int]@);
        if same_text(texts[index].as_str(), text) {
            return true;
        }
        index = index + 1;
    }
    false
}

pub fn add_text(texts: &mut Vec<String>, text: &str)
    ensures
        views(final(texts)@) == with_text(views(old(texts)@), text@),
{
    if !has_text(texts, text) {
        texts.push(text.to_owned());
    }
}

/// The names of the chunks at the positions from `from` on, after `done`.
pub open spec fn chunk_names(rows: Seq<Seq<ValueView>>, positions: Seq<usize>, from: nat, done: Seq<Seq<char>>) -> Result<
    Seq<Seq<char>>,
    ErrorView,
>
    decreases positions.len() - from,
{
    if from >= positions.len() {
        Ok(done)
    } else {
        match text_in(rows[positions[from as int] as int], 0) {
            Err(error) => Err(error),
            Ok(name) => chunk_names(rows, positions, from + 1, with_text(done, name)),
        }
    }
}

/// Whether a name is one that is made for a chunk of the document whose names begin so.
pub open spec fn generated(name: Seq<char>, prefix: Seq<char>) -> bool {
    &&& name.len() > prefix.len()
    &&& name.take(prefix.len() as int) == prefix
    &&& forall|i: int| prefix.len() <= i < name.len() ==> is_digit(#[trigger] name[i])
}

fn is_generated(name: &str, prefix: &str) -> (result: bool)
    ensures
        result == generated(name@, prefix@),
{
    let chars = chars_of(name);
    let first = chars_of(prefix);
    if chars.len() <= first.len() {
        return false;
    }
    let mut index: usize = 0;
    while index < first.len()
        invariant
            chars@ == name@,
            first@ == prefix@,
            first@.len() < chars@.len(),
            index <= first@.len(),
            forall|i: int| 0 <= i < index ==> name@[i] == prefix@[i],
        decreases first@.len() - index,
    {
        if chars[index] != first[index] {
            assert(name@.take(prefix@.len() as int)[index as int] != prefix@[index as int]);
            return false;
        }
        index = index + 1;
    }
    assert(name@.take(prefix@.len() as int) =~= prefix@);
    while index < chars.len()
        invariant
            chars@ == name@,
            first@ == prefix@,
            first@.len() <= index <= chars@.len(),
            forall|i: int| prefix@.len() <= i < index ==> is_digit(#[trigger] name@[i]),
        decreases chars@.len() - index,
    {
        let c: char = chars[index];
        if !('0' <= c && c <= '9') {
            assert(!is_digit(name@[index as int]));
            return false;
        }
        index = index + 1;
    }
    true
}

/// The names after the one in this column of a row, where it is made for the document.
pub open spec fn with_endpoint(row: Seq<ValueView>, column: nat, prefix: Seq<char>, done: Seq<Seq<char>>) -> Result<
    Seq<Seq<char>>,
    ErrorView,
> {
    match text_in(row, column) {
        Err(error) => Err(error),
        Ok(name) => if generated(name, prefix) {
            Ok(with_text(done, name))
        } else {
            Ok(done)
        },
    }
}

/// The names after those made for the document in the relationships from `from` on.
pub open spec fn endpoint_names(rows: Seq<Seq<ValueView>>, prefix: Seq<char>, from: nat, done: Seq<Seq<char>>) -> Result<
    Seq<Seq<char>>,
    ErrorView,
>
    decreases rows.len() - from,
{
    if from >= rows.len() {
        Ok(done)
    } else {
        match with_endpoint(rows[from as int], 1, prefix, done) {
            Err(error) => Err(error),
            Ok(once) => match with_endpoint(rows[from as int], 2, prefix, once) {
                Err(error) => Err(error),
                Ok(twice) => endpoint_names(rows, prefix, from + 1, twice),
            },
        }
    }
}

/// How the names made for the chunks of a document begin.
pub open spec fn name_prefix(id: Seq<char>) -> Seq<char> {
    decimal_text(byte_count(id)) + ":"@ + id + ":"@
}

/// The names of a document's chunks, also those that only relationships still hold, and how many
/// chunks there are.
pub open spec fn document_ids(chunks: Seq<Seq<ValueView>>, edges: Seq<Seq<ValueView>>, id: Seq<char>) -> Result<
    (Seq<Seq<char>>, nat),
    ErrorView,
> {
    match chunk_names(chunks, matching(chunks, 1, ValueView::Text(id), chunks.len()), 0, Seq::empty()) {
        Err(error) => Err(error),
        Ok(names) => match endpoint_names(edges, name_prefix(id), 0, names) {
            Err(error) => Err(error),
            Ok(all) => Ok((all, names.len())),
        },
    }
}

/// The names of a document's chunks, and how many there are.
pub struct DocumentIds {
    pub ids: Vec<String>,
    pub count: usize,
}

pub open spec fn ids_result(result: Result<DocumentIds, Error>) -> Result<(Seq<Seq<char>>, nat), ErrorView> {
    match result {
        Ok(found) => Ok((views(found.ids@), found.count as nat)),
        Err(error) => Err(error@),
    }
}

fn add_endpoint(row: &Vec<Value>, column: usize, prefix: &str, ids: &mut Vec<String>) -> (result: Result<(), Error>)
    ensures
        match result {
            Ok(_) => with_endpoint(views(row@), column as nat, prefix@, views(old(ids)@)) == Ok::<
                Seq<Seq<char>>,
                ErrorView,
            >(views(final(ids)@)),
            Err(error) => with_endpoint(views(row@), column as nat, prefix@, views(old(ids)@)) == Err::<
                Seq<Seq<char>>,
                ErrorView,
            >(error@),
        },
{
    let name = text_at(row, column)?;
    if is_generated(name, prefix) {
        add_text(ids, name);
    }
    Ok(())
}

pub fn document_chunk_ids(chunks: &Table, edges: &Table, id: &str) -> (result: Result<DocumentIds, Error>)
    requires
        chunks.wf(),
        chunks@.columns.len() == 9,
    ensures
        ids_result(result) == document_ids(chunks@.rows, edges@.rows, id@),
{
    proof {
        assert forall|i: int| 0 <= i < chunks.rows@.len() implies (#[trigger] row_views(chunks.rows@)[i]).len() > 1 by {
            assert(valid_row(chunks@.columns, chunks@.rows[i]));
        }
    }
    let positions = rows_with_text(&chunks.rows, 1, id);
    let ghost found = positions@;
    let mut ids: Vec<String> = Vec::new();
    assert(views(ids@) =~= Seq::<Seq<char>>::empty());
    let mut index: usize = 0;
    while index < positions.len()
        invariant
            index <= positions@.len(),
            found == positions@,
            found == matching(chunks@.rows, 1, ValueView::Text(id@), chunks@.rows.len()),
            forall|i: int| 0 <= i < positions@.len() ==> (#[trigger] positions@[i]) < chunks.rows@.len(),
            chunk_names(chunks@.rows, found, index as nat, views(ids@)) == chunk_names(
                chunks@.rows,
                found,
                0,
                Seq::empty(),
            ),
        decreases positions@.len() - index,
    {
        let row = &chunks.rows[positions[index]];
        assert(chunks@.rows[positions@[index as int] as int] == views(row@));
        let name = text_at(row, 0)?;
        add_text(&mut ids, name);
        index = index + 1;
    }
    let count: usize = ids.len();
    let ghost names = views(ids@);
    let length = decimal_count(count_bytes(id));
    let head = join3(length.as_str(), ":", id);
    let prefix = join2(head.as_str(), ":");
    let mut at: usize = 0;
    while at < edges.rows.len()
        invariant
            at <= edges.rows@.len(),
            prefix@ == name_prefix(id@),
            endpoint_names(edges@.rows, prefix@, at as nat, views(ids@)) == endpoint_names(edges@.rows, prefix@, 0, names),
            count == names.len(),
            chunk_names(
                chunks@.rows,
                matching(chunks@.rows, 1, ValueView::Text(id@), chunks@.rows.len()),
                0,
                Seq::empty(),
            ) == Ok::<Seq<Seq<char>>, ErrorView>(names),
        decreases edges.rows@.len() - at,
    {
        let row = &edges.rows[at];
        assert(edges@.rows[at as int] == views(row@));
        add_endpoint(row, 1, prefix.as_str(), &mut ids)?;
        add_endpoint(row, 2, prefix.as_str(), &mut ids)?;
        at = at + 1;
    }
    Ok(DocumentIds { ids, count })
}

/// The bytes of the documents from `from` on but the one of this name, after `done`.
pub open spec fn other_documents_bytes(rows: Seq<Seq<ValueView>>, id: Seq<char>, from: nat, done: nat) -> Result<nat, ErrorView>
    decreases rows.len() - from,
{
    if from >= rows.len() {
        Ok(done)
    } else {
        match text_in(rows[from as int], 0) {
            Err(error) => Err(error),
            Ok(name) => other_documents_bytes(
                rows,
                id,
                from + 1,
                if name != id {
                    done + row_bytes(rows[from as int])
                } else {
                    done
                },
            ),
        }
    }
}

/// The bytes and the longest name of the chunks from `from` on that stay, after `done`.
pub open spec fn other_chunks_bytes(rows: Seq<Seq<ValueView>>, ids: Seq<Seq<char>>, from: nat, done: nat, longest: nat) -> Result<
    (nat, nat),
    ErrorView,
>
    decreases rows.len() - from,
{
    if from >= rows.len() {
        Ok((done, longest))
    } else {
        match text_in(rows[from as int], 0) {
            Err(error) => Err(error),
            Ok(name) => if ids.contains(name) {
                other_chunks_bytes(rows, ids, from + 1, done, longest)
            } else {
                other_chunks_bytes(
                    rows,
                    ids,
                    from + 1,
                    done + row_bytes(rows[from as int]),
                    larger_count(longest, byte_count(name)),
                )
            },
        }
    }
}

pub open spec fn larger_count(left: nat, right: nat) -> nat {
    if left >= right {
        left
    } else {
        right
    }
}

/// The bytes and the number of the relationships from `from` on that stay, after `done`.
pub open spec fn other_edges_bytes(rows: Seq<Seq<ValueView>>, ids: Seq<Seq<char>>, from: nat, done: nat, count: nat) -> Result<
    (nat, nat),
    ErrorView,
>
    decreases rows.len() - from,
{
    if from >= rows.len() {
        Ok((done, count))
    } else {
        match text_in(rows[from as int], 1) {
            Err(error) => Err(error),
            Ok(first) => if ids.contains(first) {
                other_edges_bytes(rows, ids, from + 1, done, count)
            } else {
                match text_in(rows[from as int], 2) {
                    Err(error) => Err(error),
                    Ok(second) => if ids.contains(second) {
                        other_edges_bytes(rows, ids, from + 1, done, count)
                    } else {
                        other_edges_bytes(rows, ids, from + 1, done + row_bytes(rows[from as int]), count + 1)
                    },
                }
            },
        }
    }
}

fn count_other_documents(rows: &Vec<Vec<Value>>, id: &str) -> (result: Result<usize, Error>)
    ensures
        match result {
            Ok(bytes) => other_documents_bytes(row_views(rows@), id@, 0, 0) matches Ok(total) && bytes == capped(total),
            Err(error) => other_documents_bytes(row_views(rows@), id@, 0, 0) == Err::<nat, ErrorView>(error@),
        },
{
    let mut bytes: usize = 0;
    let ghost mut total: nat = 0;
    let mut index: usize = 0;
    while index < rows.len()
        invariant
            index <= rows@.len(),
            bytes == capped(total),
            other_documents_bytes(row_views(rows@), id@, index as nat, total) == other_documents_bytes(
                row_views(rows@),
                id@,
                0,
                0,
            ),
        decreases rows@.len() - index,
    {
        assert(row_views(rows@)[index as int] == views(rows@[index as int]@));
        let name = text_at(&rows[index], 0)?;
        if !same_text(name, id) {
            bytes = sum(bytes, row_text_bytes(&rows[index]));
            proof {
                let added = row_bytes(row_views(rows@)[index as int]);
                lemma_capped_sum(total, capped(added));
                lemma_capped_sum(total, added);
                total = total + added;
            }
        }
        index = index + 1;
    }
    Ok(bytes)
}

fn count_other_chunks(rows: &Vec<Vec<Value>>, ids: &Vec<String>) -> (result: Result<(usize, usize), Error>)
    ensures
        match result {
            Ok((bytes, longest)) => other_chunks_bytes(row_views(rows@), views(ids@), 0, 0, 0) matches Ok((total, most))
                && bytes == capped(total) && longest == most,
            Err(error) => other_chunks_bytes(row_views(rows@), views(ids@), 0, 0, 0) == Err::<(nat, nat), ErrorView>(error@),
        },
{
    let mut bytes: usize = 0;
    let mut longest: usize = 0;
    let ghost mut total: nat = 0;
    let mut index: usize = 0;
    while index < rows.len()
        invariant
            index <= rows@.len(),
            bytes == capped(total),
            other_chunks_bytes(row_views(rows@), views(ids@), index as nat, total, longest as nat) == other_chunks_bytes(
                row_views(rows@),
                views(ids@),
                0,
                0,
                0,
            ),
        decreases rows@.len() - index,
    {
        assert(row_views(rows@)[index as int] == views(rows@[index as int]@));
        let name = text_at(&rows[index], 0)?;
        if !has_text(ids, name) {
            bytes = sum(bytes, row_text_bytes(&rows[index]));
            let length: usize = count_bytes(name);
            if length > longest {
                longest = length;
            }
            proof {
                let added = row_bytes(row_views(rows@)[index as int]);
                lemma_capped_sum(total, capped(added));
                lemma_capped_sum(total, added);
                total = total + added;
            }
        }
        index = index + 1;
    }
    Ok((bytes, longest))
}

fn count_other_edges(rows: &Vec<Vec<Value>>, ids: &Vec<String>) -> (result: Result<(usize, usize), Error>)
    ensures
        match result {
            Ok((bytes, count)) => other_edges_bytes(row_views(rows@), views(ids@), 0, 0, 0) matches Ok((total, found))
                && bytes == capped(total) && count == found,
            Err(error) => other_edges_bytes(row_views(rows@), views(ids@), 0, 0, 0) == Err::<(nat, nat), ErrorView>(error@),
        },
{
    let mut bytes: usize = 0;
    let mut count: usize = 0;
    let ghost mut total: nat = 0;
    let mut index: usize = 0;
    while index < rows.len()
        invariant
            index <= rows@.len(),
            count <= index,
            bytes == capped(total),
            other_edges_bytes(row_views(rows@), views(ids@), index as nat, total, count as nat) == other_edges_bytes(
                row_views(rows@),
                views(ids@),
                0,
                0,
                0,
            ),
        decreases rows@.len() - index,
    {
        assert(row_views(rows@)[index as int] == views(rows@[index as int]@));
        let first = text_at(&rows[index], 1)?;
        if !has_text(ids, first) {
            let second = text_at(&rows[index], 2)?;
            if !has_text(ids, second) {
                bytes = sum(bytes, row_text_bytes(&rows[index]));
                count = count + 1;
                proof {
                    let added = row_bytes(row_views(rows@)[index as int]);
                    lemma_capped_sum(total, capped(added));
                    lemma_capped_sum(total, added);
                    total = total + added;
                }
            }
        }
        index = index + 1;
    }
    Ok((bytes, count))
}

/// The bytes and the longest name of the document's own chunks from `from` on, after `done`.
pub open spec fn new_chunks_bytes(
    id: Seq<char>,
    chunks: Seq<ChunkPreviewView>,
    profile_bytes: nat,
    from: nat,
    done: nat,
    longest: nat,
) -> (nat, nat)
    decreases chunks.len() - from,
{
    if from >= chunks.len() {
        (done, longest)
    } else {
        let name_bytes = byte_count(chunk_name(id, from));
        new_chunks_bytes(
            id,
            chunks,
            profile_bytes,
            from + 1,
            done + name_bytes + byte_count(id) + byte_count(chunks[from as int].text) + byte_count(
                chunks[from as int].embedding_text,
            ) + profile_bytes,
            larger_count(longest, name_bytes),
        )
    }
}

/// The sum after one more number.
fn extend(bytes: usize, more: usize, Ghost(total): Ghost<nat>) -> (result: usize)
    requires
        bytes == capped(total),
    ensures
        result == capped(total + more as nat),
{
    proof {
        lemma_capped_sum(total, more as nat);
    }
    sum(bytes, more)
}

fn count_new_chunks(id: &str, chunks: &Vec<GraphChunkPreview<'_>>, profile_bytes: usize, done: usize, Ghost(before): Ghost<nat>) -> (result:
    (usize, usize))
    requires
        done == capped(before),
    ensures
        result.0 == capped(new_chunks_bytes(id@, views(chunks@), profile_bytes as nat, 0, before, 0).0),
        result.1 == new_chunks_bytes(id@, views(chunks@), profile_bytes as nat, 0, before, 0).1,
{
    let mut bytes: usize = done;
    let mut longest: usize = 0;
    let ghost mut total: nat = before;
    let mut index: usize = 0;
    while index < chunks.len()
        invariant
            index <= chunks@.len(),
            bytes == capped(total),
            new_chunks_bytes(id@, views(chunks@), profile_bytes as nat, index as nat, total, longest as nat)
                == new_chunks_bytes(id@, views(chunks@), profile_bytes as nat, 0, before, 0),
        decreases chunks@.len() - index,
    {
        let chunk = &chunks[index];
        assert(views(chunks@)[index as int] == chunk@);
        let name_bytes: usize = count_bytes(chunk_id(id, index).as_str());
        let ghost a = total + name_bytes as nat;
        let one: usize = extend(bytes, name_bytes, Ghost(total));
        let ghost b = a + byte_count(id@);
        let two: usize = extend(one, count_bytes(id), Ghost(a));
        let ghost c = b + byte_count(chunk.text@);
        let three: usize = extend(two, count_bytes(chunk.text), Ghost(b));
        let ghost d = c + byte_count(chunk.embedding_text@);
        let four: usize = extend(three, count_bytes(chunk.embedding_text), Ghost(c));
        bytes = extend(four, profile_bytes, Ghost(d));
        if name_bytes > longest {
            longest = name_bytes;
        }
        proof {
            total = d + profile_bytes as nat;
        }
        index = index + 1;
    }
    (bytes, longest)
}

/// The bytes that a document brings but for its chunks.
pub open spec fn document_bytes(document: PreviewView, free: TreeView, fields: Seq<ValueView>) -> nat {
    byte_count(document.id) + byte_count(document.title) + byte_count(document.source) + byte_count(document.text)
        + byte_count(json_notation(free)) + row_bytes(fields) + byte_count(json_notation(document.chunking)) + 16
}

pub open spec fn smaller_count(left: nat, right: nat) -> nat {
    if left <= right {
        left
    } else {
        right
    }
}

/// Whether the relationships and the texts fit, at the largest number of relationships that the
/// document can get.
pub open spec fn fanout_fits(
    chunk_count: nat,
    remaining_chunks: nat,
    remaining_edges: nat,
    neighbors: nat,
    bytes: nat,
    max_new: nat,
    max_existing: nat,
) -> Result<(), ErrorView> {
    let adjacency = if chunk_count == 0 {
        0
    } else {
        ((chunk_count - 1) * 2) as nat
    };
    let semantic = chunk_count * smaller_count(neighbors, remaining_chunks) * 2;
    if remaining_edges + adjacency + semantic > MAX_EDGES {
        Err(misuse("graph edge capacity would be exceeded by the configured fanout"@))
    } else if bytes + adjacency * (max_new * 4 + 36) + semantic * ((max_new + max_existing) * 2 + 36)
        > MAX_COLLECTION_TEXT_BYTES {
        Err(misuse("graph text capacity would exceed 64 MiB with the configured fanout"@))
    } else {
        Ok(())
    }
}

/// Whether a document fits into a collection.
#[verifier::opaque]
pub open spec fn capacity_checked(
    info: CollectionView,
    documents: TableView,
    chunks: TableView,
    edges: TableView,
    document: PreviewView,
    floats: Floats,
) -> Result<(), ErrorView> {
    match fields_of(documents, document.id, document.metadata, floats) {
        Err(error) => Err(error),
        Ok((free, fields)) => match document_ids(chunks.rows, edges.rows, document.id) {
            Err(error) => Err(error),
            Ok((ids, count)) => {
                let remaining = if chunks.rows.len() >= count {
                    (chunks.rows.len() - count) as nat
                } else {
                    0
                };
                let next = remaining + document.chunks.len();
                if next > MAX_CHUNKS {
                    Err(misuse("a graph collection can contain at most 10000 chunks"@))
                } else if next * info.config.profile.dimensions > MAX_VECTOR_ELEMENTS {
                    Err(misuse("graph vector storage exceeds 33554432 elements"@))
                } else {
                    match other_documents_bytes(documents.rows, document.id, 0, 0) {
                        Err(error) => Err(error),
                        Ok(first) => match other_chunks_bytes(chunks.rows, ids, 0, 0, 0) {
                            Err(error) => Err(error),
                            Ok((second, max_existing)) => match other_edges_bytes(edges.rows, ids, 0, 0, 0) {
                                Err(error) => Err(error),
                                Ok((third, remaining_edges)) => {
                                    let (bytes, max_new) = new_chunks_bytes(
                                        document.id,
                                        document.chunks,
                                        byte_count(profile_text(info.config.profile)),
                                        0,
                                        first + second + third + document_bytes(document, free, fields),
                                        0,
                                    );
                                    fanout_fits(
                                        document.chunks.len(),
                                        remaining,
                                        remaining_edges,
                                        info.config.semantic_neighbors,
                                        bytes,
                                        max_new,
                                        max_existing,
                                    )
                                },
                            },
                        },
                    }
                }
            },
        },
    }
}

fn check_fanout(
    chunk_count: usize,
    remaining_chunks: usize,
    remaining_edges: usize,
    neighbors: usize,
    bytes: usize,
    Ghost(total): Ghost<nat>,
    max_new: usize,
    max_existing: usize,
) -> (result: Result<(), Error>)
    requires
        bytes == capped(total),
    ensures
        plain(result) == fanout_fits(
            chunk_count as nat,
            remaining_chunks as nat,
            remaining_edges as nat,
            neighbors as nat,
            total,
            max_new as nat,
            max_existing as nat,
        ),
{
    let fewer: usize = if neighbors <= remaining_chunks {
        neighbors
    } else {
        remaining_chunks
    };
    let before: usize = if chunk_count == 0 {
        0
    } else {
        chunk_count - 1
    };
    let ghost adjacency: nat = (before * 2) as nat;
    let ghost semantic: nat = (chunk_count * fewer * 2) as nat;
    let adjacency_count: usize = product(before, 2);
    let linked: usize = product(chunk_count, fewer);
    let semantic_count: usize = product(linked, 2);
    proof {
        lemma_capped_product((chunk_count * fewer) as nat, 2);
        assert(semantic_count == capped(semantic));
    }
    let edges: usize = extend(remaining_edges, adjacency_count, Ghost(remaining_edges as nat));
    let all_edges: usize = sum(edges, semantic_count);
    proof {
        lemma_capped_sum(remaining_edges as nat, adjacency);
        lemma_capped_sum(remaining_edges as nat + adjacency, semantic);
        lemma_capped_sum(remaining_edges as nat + adjacency, capped(semantic));
        assert(all_edges == capped(remaining_edges as nat + adjacency + semantic));
    }
    if all_edges > MAX_EDGES {
        return Err(invalid("graph edge capacity would be exceeded by the configured fanout"));
    }
    assert(adjacency_count == adjacency && semantic_count == semantic);
    let ghost adjacent: nat = (max_new * 4 + 36) as nat;
    let ghost similar: nat = ((max_new + max_existing) * 2 + 36) as nat;
    let adjacent_bytes: usize = sum(product(max_new, 4), 36);
    let similar_bytes: usize = sum(product(sum(max_new, max_existing), 2), 36);
    proof {
        lemma_capped_sum((max_new * 4) as nat, 36);
        assert(adjacent_bytes == capped(adjacent));
        lemma_capped_product((max_new + max_existing) as nat, 2);
        lemma_capped_sum(((max_new + max_existing) * 2) as nat, 36);
        assert(similar_bytes == capped(similar));
    }
    let first: usize = product(adjacency_count, adjacent_bytes);
    let second: usize = product(semantic_count, similar_bytes);
    proof {
        lemma_capped_product(adjacent, adjacency);
        lemma_capped_product(similar, semantic);
        assert(capped(adjacent) * adjacency == adjacency * capped(adjacent)) by (nonlinear_arith);
        assert(capped(similar) * semantic == semantic * capped(similar)) by (nonlinear_arith);
        assert(adjacent * adjacency == adjacency * adjacent) by (nonlinear_arith);
        assert(similar * semantic == semantic * similar) by (nonlinear_arith);
        assert(first == capped(adjacency * adjacent));
        assert(second == capped(semantic * similar));
    }
    let third: usize = sum(bytes, first);
    let all: usize = sum(third, second);
    proof {
        lemma_capped_sum(total, capped(adjacency * adjacent));
        lemma_capped_sum(total, adjacency * adjacent);
        lemma_capped_sum(total + adjacency * adjacent, capped(semantic * similar));
        lemma_capped_sum(total + adjacency * adjacent, semantic * similar);
        assert(all == capped(total + adjacency * adjacent + semantic * similar));
    }
    if all > MAX_COLLECTION_TEXT_BYTES {
        return Err(invalid("graph text capacity would exceed 64 MiB with the configured fanout"));
    }
    Ok(())
}

/// Whether a document fits into a collection.
#[verifier::rlimit(40)]
pub fn check_ingest_capacity<F: Fn(FloatTask) -> FloatReply>(
    f: &F,
    info: &GraphCollection,
    documents: &Table,
    chunks: &Table,
    edges: &Table,
    document: &GraphDocumentPreview<'_>,
) -> (result: Result<(), Error>)
    requires
        computes(*f),
        documents.wf(),
        chunks.wf(),
        documents@.columns.len() >= DOCUMENT_BASE_COLUMNS,
        chunks@.columns.len() == 9,
    ensures
        plain(result) == capacity_checked(info@, documents@, chunks@, edges@, document@, floats(*f)),
{
    proof {
        reveal(capacity_checked);
    }
    let fields = document_fields(f, documents, document.id, document.metadata)?;
    let found = document_chunk_ids(chunks, edges, document.id)?;
    let remaining: usize = if chunks.rows.len() >= found.count {
        chunks.rows.len() - found.count
    } else {
        0
    };
    let next: usize = sum(remaining, document.chunks.len());
    if next > MAX_CHUNKS {
        return Err(invalid("a graph collection can contain at most 10000 chunks"));
    }
    if product(next, info.config.profile.dimensions) > MAX_VECTOR_ELEMENTS {
        return Err(invalid("graph vector storage exceeds 33554432 elements"));
    }
    let first: usize = count_other_documents(&documents.rows, document.id)?;
    let (second, max_existing) = count_other_chunks(&chunks.rows, &found.ids)?;
    let (third, remaining_edges) = count_other_edges(&edges.rows, &found.ids)?;
    let ghost one = other_documents_bytes(documents@.rows, document.id@, 0, 0)->Ok_0;
    let ghost two = other_chunks_bytes(chunks@.rows, views(found.ids@), 0, 0, 0)->Ok_0.0;
    let ghost three = other_edges_bytes(edges@.rows, views(found.ids@), 0, 0, 0)->Ok_0.0;
    let stored: usize = sum(sum(first, second), third);
    proof {
        lemma_capped_sum(one, capped(two));
        lemma_capped_sum(one, two);
        lemma_capped_sum(one + two, capped(three));
        lemma_capped_sum(one + two, three);
    }
    let ghost t0 = one + two + three;
    let a: usize = extend(stored, count_bytes(document.id), Ghost(t0));
    let ghost t1 = t0 + byte_count(document.id@);
    let b: usize = extend(a, count_bytes(document.title), Ghost(t1));
    let ghost t2 = t1 + byte_count(document.title@);
    let c: usize = extend(b, count_bytes(document.source), Ghost(t2));
    let ghost t3 = t2 + byte_count(document.source@);
    let d: usize = extend(c, count_bytes(document.text), Ghost(t3));
    let ghost t4 = t3 + byte_count(document.text@);
    let e: usize = extend(d, count_bytes(json_text(&fields.free).as_str()), Ghost(t4));
    let ghost t5 = t4 + byte_count(json_notation(fields.free@));
    let g: usize = sum(e, row_text_bytes(&fields.values));
    let ghost t6 = t5 + row_bytes(views(fields.values@));
    proof {
        lemma_capped_sum(t5, capped(row_bytes(views(fields.values@))));
        lemma_capped_sum(t5, row_bytes(views(fields.values@)));
    }
    let h: usize = extend(g, count_bytes(json_text(document.chunking).as_str()), Ghost(t6));
    let ghost t7 = t6 + byte_count(json_notation(document.chunking@));
    let i: usize = extend(h, 16, Ghost(t7));
    let ghost t8 = t7 + 16;
    assert(t8 == one + two + three + document_bytes(document@, fields.free@, views(fields.values@)));
    let profile_bytes: usize = count_bytes(profile_key(&info.config.profile).as_str());
    let (bytes, max_new) = count_new_chunks(document.id, &document.chunks, profile_bytes, i, Ghost(t8));
    let ghost total = new_chunks_bytes(document.id@, views(document.chunks@), profile_bytes as nat, 0, t8, 0).0;
    check_fanout(
        document.chunks.len(),
        remaining,
        remaining_edges,
        info.config.semantic_neighbors,
        bytes,
        Ghost(total),
        max_new,
        max_existing,
    )
}

} // verus!
