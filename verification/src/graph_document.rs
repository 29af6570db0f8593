//! Documents of a chunk graph: what can be one, what its row holds, and whether it is intact.

use vstd::prelude::*;
use crate::codec::{hashed, unsigned, FNV_OFFSET_BASIS, ChecksumIo};
use crate::error::{outcome, plain, Error, ErrorView};
use crate::float::{compute, computes, finite, floats, is_finite, FloatReply, FloatReplyView, FloatTask, FloatTaskView, Floats};
use crate::graph::{
    bounded_text, count_in, invalid, is_object, json_at, misuse, object_in, text_at, text_bounded, text_in, usize_at,
    GraphEmbeddingProfile, ProfileView, DOCUMENT_BASE_COLUMNS, MAX_CHUNKS, MAX_DOCUMENT_BYTES,
    MAX_DOCUMENT_CHUNKS,
};
use crate::graph_edge::{find_row, lemma_small, row_named, rows_with_text};
use crate::index::{holder, lemma_holder, matching};
use crate::json::{
    field, find_entry, is_null, json_node, json_notation, json_text, json_without, remove_entry, take_entries, Json,
    JsonNode, TreeView,
};
use crate::order::{sort_positions, sorted, Precedes};
use crate::slice::{blank, byte_slice, has_char, is_blank, is_slice, slice_bytes};
use crate::table::{valid_row, Table, TableView};
use crate::text::{
    byte_count, count_bytes, integer_value, join2, join3, lemma_views_push, parse_integer, same_text, views,
};
use crate::value::{key_of, row_views, Column, ColumnView, DataType, UniqueKey, Value, ValueView};
use crate::vector::{zero_vector, Vector};

verus! {

broadcast use {vstd::string::group_string_axioms, lemma_views_push};

/// A chunk with its embedding.
#[derive(Debug)]
pub struct GraphChunkInput {
    pub start_byte: usize,
    pub end_byte: usize,
    pub text: String,
    pub embedding_text: String,
    pub embedding: Vector,
}

pub struct ChunkInputView {
    pub start_byte: nat,
    pub end_byte: nat,
    pub text: Seq<char>,
    pub embedding_text: Seq<char>,
    pub embedding: Seq<u32>,
}

impl View for GraphChunkInput {
    type V = ChunkInputView;

    open spec fn view(&self) -> ChunkInputView {
        ChunkInputView {
            start_byte: self.start_byte as nat,
            end_byte: self.end_byte as nat,
            text: self.text@,
            embedding_text: self.embedding_text@,
            embedding: self.embedding@,
        }
    }
}

/// A document with its chunks.
pub struct GraphDocumentInput {
    pub id: String,
    pub title: String,
    pub source: String,
    pub text: String,
    pub metadata: Json,
    pub chunking: Json,
    pub chunks: Vec<GraphChunkInput>,
}

pub struct DocumentInputView {
    pub id: Seq<char>,
    pub title: Seq<char>,
    pub source: Seq<char>,
    pub text: Seq<char>,
    pub metadata: TreeView,
    pub chunking: TreeView,
    pub chunks: Seq<ChunkInputView>,
}

impl View for GraphDocumentInput {
    type V = DocumentInputView;

    open spec fn view(&self) -> DocumentInputView {
        DocumentInputView {
            id: self.id@,
            title: self.title@,
            source: self.source@,
            text: self.text@,
            metadata: self.metadata@,
            chunking: self.chunking@,
            chunks: views(self.chunks@),
        }
    }
}

/// A chunk that has no embedding yet.
#[derive(Debug)]
pub struct GraphChunkPreview<'a> {
    pub start_byte: usize,
    pub end_byte: usize,
    pub text: &'a str,
    pub embedding_text: &'a str,
}

#[verifier::ext_equal]
pub struct ChunkPreviewView {
    pub start_byte: nat,
    pub end_byte: nat,
    pub text: Seq<char>,
    pub embedding_text: Seq<char>,
}

impl<'a> View for GraphChunkPreview<'a> {
    type V = ChunkPreviewView;

    open spec fn view(&self) -> ChunkPreviewView {
        ChunkPreviewView {
            start_byte: self.start_byte as nat,
            end_byte: self.end_byte as nat,
            text: self.text@,
            embedding_text: self.embedding_text@,
        }
    }
}

/// A document whose chunks have no embeddings yet.
pub struct GraphDocumentPreview<'a> {
    pub id: &'a str,
    pub title: &'a str,
    pub source: &'a str,
    pub text: &'a str,
    pub metadata: &'a Json,
    pub chunking: &'a Json,
    pub chunks: Vec<GraphChunkPreview<'a>>,
}

pub struct PreviewView {
    pub id: Seq<char>,
    pub title: Seq<char>,
    pub source: Seq<char>,
    pub text: Seq<char>,
    pub metadata: TreeView,
    pub chunking: TreeView,
    pub chunks: Seq<ChunkPreviewView>,
}

impl<'a> View for GraphDocumentPreview<'a> {
    type V = PreviewView;

    open spec fn view(&self) -> PreviewView {
        PreviewView {
            id: self.id@,
            title: self.title@,
            source: self.source@,
            text: self.text@,
            metadata: self.metadata@,
            chunking: self.chunking@,
            chunks: views(self.chunks@),
        }
    }
}

impl DocumentInputView {
    /// The document without the embeddings.
    pub open spec fn preview(self) -> PreviewView {
        PreviewView {
            id: self.id,
            title: self.title,
            source: self.source,
            text: self.text,
            metadata: self.metadata,
            chunking: self.chunking,
            chunks: self.chunks.map_values(
                |chunk: ChunkInputView|
                    ChunkPreviewView {
                        start_byte: chunk.start_byte,
                        end_byte: chunk.end_byte,
                        text: chunk.text,
                        embedding_text: chunk.embedding_text,
                    },
            ),
        }
    }
}

impl GraphDocumentInput {
    /// The document without the embeddings.
    pub fn preview(&self) -> (preview: GraphDocumentPreview<'_>)
        ensures
            preview@ == self@.preview(),
    {
        let mut chunks: Vec<GraphChunkPreview<'_>> = Vec::new();
        let ghost all = self@.preview().chunks;
        let mut index: usize = 0;
        while index < self.chunks.len()
            invariant
                index <= self.chunks@.len(),
                all == self@.preview().chunks,
                views(chunks@) == all.take(index as int),
            decreases self.chunks@.len() - index,
        {
            let chunk = &self.chunks[index];
            let item = GraphChunkPreview {
                start_byte: chunk.start_byte,
                end_byte: chunk.end_byte,
                text: chunk.text.as_str(),
                embedding_text: chunk.embedding_text.as_str(),
            };
            assert(all[index as int] == item@);
            chunks.push(item);
            index = index + 1;
            assert(all.take(index as int) =~= all.take(index - 1).push(all[index - 1]));
        }
        assert(all.take(all.len() as int) =~= all);
        GraphDocumentPreview {
            id: self.id.as_str(),
            title: self.title.as_str(),
            source: self.source.as_str(),
            text: self.text.as_str(),
            metadata: &self.metadata,
            chunking: &self.chunking,
            chunks,
        }
    }
}

/// Whether a JSON value can be stored under this label.
pub open spec fn object_checked(tree: TreeView, label: Seq<char>) -> Result<(), ErrorView> {
    if !(tree is Record) || byte_count(json_notation(tree)) > 65536 {
        Err(misuse(label + " must be a JSON object of at most 65536 bytes"@))
    } else {
        Ok(())
    }
}

pub fn check_object(json: &Json, label: &str) -> (result: Result<(), Error>)
    ensures
        plain(result) == object_checked(json@, label@),
{
    if !is_object(json) || count_bytes(json_text(json).as_str()) > 65536 {
        return Err(Error::InvalidQuery(join2(label, " must be a JSON object of at most 65536 bytes")));
    }
    Ok(())
}

pub open spec fn uncovered() -> ErrorView {
    misuse("chunk byte offsets must match UTF-8 source slices and cover the document in order"@)
}

/// Whether a chunk is the slice that it says, follows the ones before, and leaves out only white
/// space.
pub open spec fn chunk_follows(
    text: Seq<char>,
    chunk: ChunkPreviewView,
    first: bool,
    previous_start: nat,
    covered: nat,
) -> bool {
    &&& chunk.start_byte < chunk.end_byte
    &&& byte_slice(text, chunk.start_byte, chunk.end_byte) == Some(chunk.text)
    &&& chunk.start_byte > covered ==> (byte_slice(text, covered, chunk.start_byte) matches Some(gap) && blank(gap))
    &&& !first ==> chunk.start_byte > previous_start && chunk.end_byte > covered
}

/// Whether the chunks from `from` on cover the text, of which the ones before cover all up to
/// `covered`.
pub open spec fn chunks_checked(
    text: Seq<char>,
    chunks: Seq<ChunkPreviewView>,
    from: nat,
    previous_start: nat,
    covered: nat,
) -> Result<(), ErrorView>
    decreases chunks.len() - from,
{
    if from >= chunks.len() {
        if byte_slice(text, covered, byte_count(text)) matches Some(rest) && blank(rest) {
            Ok(())
        } else {
            Err(misuse("chunks must cover all non-whitespace source text"@))
        }
    } else {
        let chunk = chunks[from as int];
        if !chunk_follows(text, chunk, from == 0, previous_start, covered) {
            Err(uncovered())
        } else {
            match text_bounded(chunk.embedding_text, 32768, false, "embedding text"@) {
                Err(error) => Err(error),
                Ok(_) => chunks_checked(text, chunks, from + 1, chunk.start_byte, chunk.end_byte),
            }
        }
    }
}

/// Whether a document can be taken in.
pub open spec fn preview_checked(document: PreviewView) -> Result<(), ErrorView> {
    match text_bounded(document.id, 512, false, "document id"@) {
        Err(error) => Err(error),
        Ok(_) => match text_bounded(document.title, 1024, true, "document title"@) {
            Err(error) => Err(error),
            Ok(_) => match text_bounded(document.source, 4096, true, "document source"@) {
                Err(error) => Err(error),
                Ok(_) => match text_bounded(document.text, MAX_DOCUMENT_BYTES as nat, false, "document text"@) {
                    Err(error) => Err(error),
                    Ok(_) => match object_checked(document.metadata, "metadata"@) {
                        Err(error) => Err(error),
                        Ok(_) => match object_checked(document.chunking, "chunking"@) {
                            Err(error) => Err(error),
                            Ok(_) => if document.chunks.len() == 0 || document.chunks.len() > MAX_DOCUMENT_CHUNKS {
                                Err(misuse("document must contain 1..256 chunks"@))
                            } else {
                                chunks_checked(document.text, document.chunks, 0, 0, 0)
                            },
                        },
                    },
                },
            },
        },
    }
}

fn follows(text: &str, chunk: &GraphChunkPreview<'_>, first: bool, previous_start: usize, covered: usize) -> (result: bool)
    ensures
        result == chunk_follows(text@, chunk@, first, previous_start as nat, covered as nat),
{
    if chunk.start_byte >= chunk.end_byte {
        return false;
    }
    if !is_slice(text, chunk.start_byte, chunk.end_byte, chunk.text) {
        return false;
    }
    if chunk.start_byte > covered {
        match slice_bytes(text, covered, chunk.start_byte) {
            Some(gap) => {
                if !is_blank(gap.as_str()) {
                    return false;
                }
            },
            None => return false,
        }
    }
    first || (chunk.start_byte > previous_start && chunk.end_byte > covered)
}

fn check_chunks(text: &str, chunks: &Vec<GraphChunkPreview<'_>>) -> (result: Result<(), Error>)
    ensures
        plain(result) == chunks_checked(text@, views(chunks@), 0, 0, 0),
{
    let mut previous_start: usize = 0;
    let mut covered: usize = 0;
    let mut index: usize = 0;
    while index < chunks.len()
        invariant
            index <= chunks@.len(),
            chunks_checked(text@, views(chunks@), index as nat, previous_start as nat, covered as nat) == chunks_checked(
                text@,
                views(chunks@),
                0,
                0,
                0,
            ),
        decreases chunks@.len() - index,
    {
        let chunk = &chunks[index];
        assert(views(chunks@)[index as int] == chunk@);
        if !follows(text, chunk, index == 0, previous_start, covered) {
            return Err(invalid("chunk byte offsets must match UTF-8 source slices and cover the document in order"));
        }
        bounded_text(chunk.embedding_text, 32768, false, "embedding text")?;
        previous_start = chunk.start_byte;
        covered = chunk.end_byte;
        index = index + 1;
    }
    match slice_bytes(text, covered, count_bytes(text)) {
        Some(rest) => {
            if is_blank(rest.as_str()) {
                return Ok(());
            }
        },
        None => {},
    }
    Err(invalid("chunks must cover all non-whitespace source text"))
}

pub fn validate_preview(document: &GraphDocumentPreview<'_>) -> (result: Result<(), Error>)
    ensures
        plain(result) == preview_checked(document@),
{
    bounded_text(document.id, 512, false, "document id")?;
    bounded_text(document.title, 1024, true, "document title")?;
    bounded_text(document.source, 4096, true, "document source")?;
    bounded_text(document.text, MAX_DOCUMENT_BYTES, false, "document text")?;
    check_object(document.metadata, "metadata")?;
    check_object(document.chunking, "chunking")?;
    if document.chunks.len() == 0 || document.chunks.len() > MAX_DOCUMENT_CHUNKS {
        return Err(invalid("document must contain 1..256 chunks"));
    }
    check_chunks(document.text, &document.chunks)
}

/// Whether the embeddings from `from` on are of the profile's dimensions and not zero.
pub open spec fn embeddings_checked(chunks: Seq<ChunkInputView>, dimensions: nat, from: nat) -> Result<(), ErrorView>
    decreases chunks.len() - from,
{
    if from >= chunks.len() {
        Ok(())
    } else {
        let embedding = chunks[from as int].embedding;
        if embedding.len() != dimensions {
            Err(ErrorView::DimensionMismatch { left: dimensions, right: embedding.len() })
        } else if zero_vector(embedding) {
            Err(ErrorView::ZeroNorm)
        } else {
            embeddings_checked(chunks, dimensions, from + 1)
        }
    }
}

/// Whether a document with embeddings can be taken in.
#[verifier::opaque]
pub open spec fn document_checked(document: DocumentInputView, profile: ProfileView) -> Result<(), ErrorView> {
    match preview_checked(document.preview()) {
        Err(error) => Err(error),
        Ok(_) => embeddings_checked(document.chunks, profile.dimensions, 0),
    }
}

pub fn validate_document(document: &GraphDocumentInput, profile: &GraphEmbeddingProfile) -> (result: Result<(), Error>)
    ensures
        plain(result) == document_checked(document@, profile@),
{
    proof {
        reveal(document_checked);
    }
    let preview = document.preview();
    validate_preview(&preview)?;
    let ghost all = views(document.chunks@);
    let mut index: usize = 0;
    while index < document.chunks.len()
        invariant
            index <= document.chunks@.len(),
            all == views(document.chunks@),
            preview_checked(document@.preview()) is Ok,
            embeddings_checked(all, profile.dimensions as nat, index as nat) == embeddings_checked(
                all,
                profile.dimensions as nat,
                0,
            ),
        decreases document.chunks@.len() - index,
    {
        let embedding = &document.chunks[index].embedding;
        reveal(document_checked);
        assert(all[index as int].embedding == embedding@);
        if embedding.dimensions() != profile.dimensions {
            return Err(Error::DimensionMismatch { left: profile.dimensions, right: embedding.dimensions() });
        }
        if embedding.is_zero() {
            return Err(Error::ZeroNorm);
        }
        index = index + 1;
    }
    Ok(())
}

/// A JSON object over which fields of a document are laid.
pub struct Metadata {
    pub object: Json,
    pub fields: Vec<(String, Value)>,
}

pub struct MetadataView {
    pub object: TreeView,
    pub fields: Seq<(Seq<char>, ValueView)>,
}

pub open spec fn field_views(fields: Seq<(String, Value)>) -> Seq<(Seq<char>, ValueView)> {
    fields.map_values(|entry: (String, Value)| (entry.0@, entry.1@))
}

impl View for Metadata {
    type V = MetadataView;

    open spec fn view(&self) -> MetadataView {
        MetadataView { object: self.object@, fields: field_views(self.fields@) }
    }
}

/// The value of a field that JSON gives; none where it is of another type.
pub open spec fn field_value(data_type: DataType, input: TreeView, floats: Floats) -> Option<ValueView> {
    match (data_type, input) {
        (DataType::Text, TreeView::Text(text)) => if text.contains('\0') {
            None
        } else {
            Some(ValueView::Text(text))
        },
        (DataType::Integer, TreeView::Number(text)) => match integer_value(text) {
            Some(value) => Some(ValueView::Integer(value as i64)),
            None => None,
        },
        (DataType::Float, TreeView::Number(text)) => match floats(FloatTaskView::Parse(text)) {
            FloatReplyView::Number(bits) => if finite(bits) {
                Some(ValueView::Float(bits))
            } else {
                None
            },
            _ => None,
        },
        (DataType::Boolean, TreeView::Boolean(value)) => Some(ValueView::Boolean(value)),
        _ => None,
    }
}

fn read_field<F: Fn(FloatTask) -> FloatReply>(f: &F, data_type: &DataType, input: &Json) -> (result: Option<Value>)
    requires
        computes(*f),
    ensures
        match result {
            Some(value) => field_value(*data_type, input@, floats(*f)) == Some(value@),
            None => field_value(*data_type, input@, floats(*f)) is None,
        },
{
    let node = json_node(input);
    match (data_type, node) {
        (DataType::Text, JsonNode::Text(text)) => {
            if has_char(text.as_str(), '\0') {
                None
            } else {
                Some(Value::Text(text))
            }
        },
        (DataType::Integer, JsonNode::Number(text)) => match parse_integer(text.as_str()) {
            Some(value) => Some(Value::Integer(value)),
            None => None,
        },
        (DataType::Float, JsonNode::Number(text)) => match compute(f, FloatTask::Parse(text)) {
            FloatReply::Number(bits) => {
                if is_finite(bits) {
                    Some(Value::Float(bits))
                } else {
                    None
                }
            },
            _ => None,
        },
        (DataType::Boolean, JsonNode::Boolean(value)) => Some(Value::Boolean(value)),
        _ => None,
    }
}

/// The value that a document gives a column, or why it cannot.
pub open spec fn column_value(
    table: TableView,
    id: Seq<char>,
    free: TreeView,
    index: nat,
    floats: Floats,
) -> Result<ValueView, ErrorView> {
    let column = table.columns[index as int];
    let input = match field(free, column.name) {
        Some(input) => input,
        None => TreeView::Null,
    };
    let given = if input is Null {
        if column.nullable {
            Ok(ValueView::Null)
        } else {
            Err(ErrorView::NullViolation(column.name))
        }
    } else {
        match field_value(column.data_type, input, floats) {
            Some(value) => Ok(value),
            None => Err(
                misuse("metadata field '"@ + column.name + "' must match "@ + column.data_type.notation()),
            ),
        }
    };
    match given {
        Err(error) => Err(error),
        Ok(value) => if column.unique && !(value is Null) {
            match holder(table.rows, index as int, key_of(value), table.rows.len()) {
                Some(row) => if text_in(table.rows[row as int], 0) == Ok::<Seq<char>, ErrorView>(id) {
                    Ok(value)
                } else {
                    Err(ErrorView::UniqueViolation(column.name))
                },
                None => Ok(value),
            }
        } else {
            Ok(value)
        },
    }
}

/// The free entries and the values of the columns from `from` on, after `done`.
pub open spec fn fields_from(
    table: TableView,
    id: Seq<char>,
    free: TreeView,
    from: nat,
    done: Seq<ValueView>,
    floats: Floats,
) -> Result<(TreeView, Seq<ValueView>), ErrorView>
    decreases table.columns.len() - from,
{
    if from >= table.columns.len() {
        Ok((free, done))
    } else {
        match column_value(table, id, free, from, floats) {
            Err(error) => Err(error),
            Ok(value) => fields_from(
                table,
                id,
                json_without(free, table.columns[from as int].name),
                from + 1,
                done.push(value),
                floats,
            ),
        }
    }
}

/// What a document's metadata gives: the entries without a column, and the values of the columns.
pub open spec fn fields_of(table: TableView, id: Seq<char>, metadata: TreeView, floats: Floats) -> Result<
    (TreeView, Seq<ValueView>),
    ErrorView,
> {
    match object_checked(metadata, "metadata"@) {
        Err(error) => Err(error),
        Ok(_) => fields_from(table, id, metadata, DOCUMENT_BASE_COLUMNS as nat, Seq::empty(), floats),
    }
}

fn read_column_value<F: Fn(FloatTask) -> FloatReply>(f: &F, table: &Table, id: &str, free: &Json, index: usize) -> (result:
    Result<Value, Error>)
    requires
        computes(*f),
        table.wf(),
        index < table.columns@.len(),
    ensures
        outcome(result) == column_value(table@, id@, free@, index as nat, floats(*f)),
{
    let column = &table.columns[index];
    assert(table@.columns[index as int] == column@);
    let entries = take_entries(free);
    let mut value = Value::Null;
    let mut given = false;
    match find_entry(&entries, column.name.as_str()) {
        Some(input) => {
            if !is_null(input) {
                given = true;
                match read_field(f, &column.data_type, input) {
                    Some(found) => {
                        value = found;
                    },
                    None => {
                        let expected = column.data_type.to_text();
                        let head = join3("metadata field '", column.name.as_str(), "' must match ");
                        return Err(Error::InvalidQuery(join2(head.as_str(), expected.as_str())));
                    },
                }
            }
        },
        None => {},
    }
    if !given && !column.nullable {
        return Err(Error::NullViolation(column.name.clone()));
    }
    if column.unique && !value.is_null() {
        let key = UniqueKey::of(&value);
        assert(table.unique_keys@[index as int] is Some);
        if let Some(map) = &table.unique_keys[index] {
            proof {
                assert(map.column == index);
                assert(map.covers(table@.rows, table.rows@.len()));
            }
            let found = map.lookup(&key);
            proof {
                assert(found == holder(table@.rows, index as int, key@, table.rows@.len()));
                lemma_small(table);
                lemma_holder(table@.rows, index as int, key@, table.rows@.len());
            }
            if let Some(row) = found {
                assert(table@.rows[row as int] == views(table.rows@[row as int]@));
                let mine = match text_at(&table.rows[row], 0) {
                    Ok(text) => same_text(text, id),
                    Err(_) => false,
                };
                if !mine {
                    return Err(Error::UniqueViolation(column.name.clone()));
                }
            }
        }
    }
    Ok(value)
}

/// What a document's metadata gives: the entries without a column, and the values of the columns.
pub struct DocumentFields {
    pub free: Json,
    pub values: Vec<Value>,
}

pub open spec fn fields_result(result: Result<DocumentFields, Error>) -> Result<(TreeView, Seq<ValueView>), ErrorView> {
    match result {
        Ok(fields) => Ok((fields.free@, views(fields.values@))),
        Err(error) => Err(error@),
    }
}

pub fn document_fields<F: Fn(FloatTask) -> FloatReply>(f: &F, table: &Table, id: &str, metadata: &Json) -> (result: Result<
    DocumentFields,
    Error,
>)
    requires
        computes(*f),
        table.wf(),
        table.columns@.len() >= DOCUMENT_BASE_COLUMNS,
    ensures
        fields_result(result) == fields_of(table@, id@, metadata@, floats(*f)),
{
    check_object(metadata, "metadata")?;
    let mut free = metadata.share();
    let mut values: Vec<Value> = Vec::new();
    assert(views(values@) =~= Seq::<ValueView>::empty());
    let mut index: usize = DOCUMENT_BASE_COLUMNS;
    while index < table.columns.len()
        invariant
            computes(*f),
            table.wf(),
            DOCUMENT_BASE_COLUMNS <= index <= table.columns@.len(),
            object_checked(metadata@, "metadata"@) is Ok,
            fields_from(table@, id@, free@, index as nat, views(values@), floats(*f)) == fields_from(
                table@,
                id@,
                metadata@,
                DOCUMENT_BASE_COLUMNS as nat,
                Seq::empty(),
                floats(*f),
            ),
        decreases table.columns@.len() - index,
    {
        assert(table@.columns[index as int] == table.columns@[index as int]@);
        let value = read_column_value(f, table, id, &free, index)?;
        values.push(value);
        free = remove_entry(&free, table.columns[index].name.as_str());
        index = index + 1;
    }
    Ok(DocumentFields { free, values })
}

/// The value of a field as it is returned.
pub open spec fn returned_field(column: ColumnView, row: Seq<ValueView>, index: nat) -> Result<ValueView, ErrorView> {
    let value = row[index as int];
    let fits = index < row.len() && match (value, column.data_type) {
        (ValueView::Null, _) => column.nullable,
        (ValueView::Text(_), DataType::Text) => true,
        (ValueView::Integer(_), DataType::Integer) => true,
        (ValueView::Float(bits), DataType::Float) => finite(bits),
        (ValueView::Boolean(_), DataType::Boolean) => true,
        _ => false,
    };
    if fits {
        Ok(value)
    } else {
        Err(misuse("graph document contains an invalid custom field"@))
    }
}

/// The fields of a document from the column `from` on, after `done`.
pub open spec fn returned_fields(
    columns: Seq<ColumnView>,
    row: Seq<ValueView>,
    from: nat,
    done: Seq<(Seq<char>, ValueView)>,
) -> Result<Seq<(Seq<char>, ValueView)>, ErrorView>
    decreases columns.len() - from,
{
    if from >= columns.len() {
        Ok(done)
    } else {
        match returned_field(columns[from as int], row, from) {
            Err(error) => Err(error),
            Ok(value) => returned_fields(columns, row, from + 1, done.push((columns[from as int].name, value))),
        }
    }
}

/// The metadata of a document.
pub open spec fn metadata_of(row: Seq<ValueView>, columns: Seq<ColumnView>) -> Result<MetadataView, ErrorView> {
    match object_in(row, 4) {
        Err(error) => Err(error),
        Ok(object) => match returned_fields(columns, row, DOCUMENT_BASE_COLUMNS as nat, Seq::empty()) {
            Err(error) => Err(error),
            Ok(fields) => Ok(MetadataView { object, fields }),
        },
    }
}

fn return_field(column: &Column, row: &Vec<Value>, index: usize) -> (result: Result<Value, Error>)
    ensures
        outcome(result) == returned_field(column@, views(row@), index as nat),
{
    if index < row.len() {
        assert(views(row@)[index as int] == row@[index as int]@);
        match (&row[index], &column.data_type) {
            (Value::Null, _) => {
                if column.nullable {
                    return Ok(Value::Null);
                }
            },
            (Value::Text(text), DataType::Text) => return Ok(Value::Text(text.clone())),
            (Value::Integer(number), DataType::Integer) => return Ok(Value::Integer(*number)),
            (Value::Float(bits), DataType::Float) => {
                if is_finite(*bits) {
                    return Ok(Value::Float(*bits));
                }
            },
            (Value::Boolean(truth), DataType::Boolean) => return Ok(Value::Boolean(*truth)),
            _ => {},
        }
    }
    Err(invalid("graph document contains an invalid custom field"))
}

pub fn document_metadata(row: &Vec<Value>, columns: &Vec<Column>) -> (result: Result<Metadata, Error>)
    requires
        columns@.len() >= DOCUMENT_BASE_COLUMNS,
    ensures
        outcome(result) == metadata_of(views(row@), views(columns@)),
{
    let object = json_at(row, 4)?;
    let mut fields: Vec<(String, Value)> = Vec::new();
    assert(field_views(fields@) =~= Seq::empty());
    let mut index: usize = DOCUMENT_BASE_COLUMNS;
    while index < columns.len()
        invariant
            DOCUMENT_BASE_COLUMNS <= index <= columns@.len(),
            object_in(views(row@), 4) == Ok::<TreeView, ErrorView>(object@),
            returned_fields(views(columns@), views(row@), index as nat, field_views(fields@)) == returned_fields(
                views(columns@),
                views(row@),
                DOCUMENT_BASE_COLUMNS as nat,
                Seq::empty(),
            ),
        decreases columns@.len() - index,
    {
        assert(views(columns@)[index as int] == columns@[index as int]@);
        let value = return_field(&columns[index], row, index)?;
        let ghost before = field_views(fields@);
        let name = columns[index].name.clone();
        fields.push((name, value));
        assert(field_views(fields@) =~= before.push((name@, value@)));
        index = index + 1;
    }
    Ok(Metadata { object, fields })
}

/// The hash after the parts of a value.
pub open spec fn hashed_value(hash: u64, value: ValueView) -> u64 {
    match value {
        ValueView::Null => hashed(hash, seq![110u8]),
        ValueView::Integer(value) => hashed(
            hashed(hash, seq![105u8]),
            vstd::bytes::spec_u64_to_le_bytes(unsigned(value)),
        ),
        ValueView::Float(bits) => hashed(hashed(hash, seq![102u8]), vstd::bytes::spec_u64_to_le_bytes(bits)),
        ValueView::Boolean(value) => hashed(hash, seq![if value { 116u8 } else { 98u8 }]),
        ValueView::Text(text) => hashed(
            hashed(hashed(hash, seq![115u8]), vstd::bytes::spec_u64_to_le_bytes(byte_count(text) as u64)),
            vstd::utf8::encode_utf8(text),
        ),
        ValueView::Vector(elements) => hashed_elements(
            hashed(hashed(hash, seq![118u8]), vstd::bytes::spec_u64_to_le_bytes(elements.len() as u64)),
            elements,
            0,
        ),
    }
}

/// The hash after the elements from `from` on.
pub open spec fn hashed_elements(hash: u64, elements: Seq<u32>, from: nat) -> u64
    decreases elements.len() - from,
{
    if from >= elements.len() {
        hash
    } else {
        hashed_elements(hashed(hash, vstd::bytes::spec_u32_to_le_bytes(elements[from as int])), elements, from + 1)
    }
}

/// The hash after the values from `from` on.
pub open spec fn hashed_values(hash: u64, row: Seq<ValueView>, from: nat) -> u64
    decreases row.len() - from,
{
    if from >= row.len() {
        hash
    } else {
        hashed_values(hashed_value(hash, row[from as int]), row, from + 1)
    }
}

/// The hash after a row.
pub open spec fn hashed_row(hash: u64, row: Seq<ValueView>) -> u64 {
    hashed_values(hashed(hash, vstd::bytes::spec_u64_to_le_bytes(row.len() as u64)), row, 0)
}

/// The hash after the rows from `from` on.
pub open spec fn hashed_rows(hash: u64, rows: Seq<Seq<ValueView>>, from: nat) -> u64
    decreases rows.len() - from,
{
    if from >= rows.len() {
        hash
    } else {
        hashed_rows(hashed_row(hash, rows[from as int]), rows, from + 1)
    }
}

pub open spec fn hex_digit(value: nat) -> char {
    if value < 10 {
        (48 + value) as char
    } else {
        (87 + value) as char
    }
}

/// The last `count` hexadecimal digits of a number.
pub open spec fn hex_text(value: nat, count: nat) -> Seq<char>
    decreases count,
{
    if count == 0 {
        Seq::empty()
    } else {
        hex_text(value / 16, (count - 1) as nat).push(hex_digit(value % 16))
    }
}

fn write_hex(value: u64, count: usize) -> (text: String)
    ensures
        text@ == hex_text(value as nat, count as nat),
    decreases count,
{
    if count == 0 {
        return String::new();
    }
    let mut text = write_hex(value / 16, count - 1);
    let digit: u8 = (value % 16) as u8;
    let code: u8 = if digit < 10 {
        48 + digit
    } else {
        87 + digit
    };
    text.push(code as char);
    text
}

/// A fingerprint of a document's row and its chunks' rows, which shows changes to them but proves
/// no origin.
pub open spec fn fingerprint(document: Seq<ValueView>, rows: Seq<Seq<ValueView>>) -> Seq<char> {
    let counted = hashed(FNV_OFFSET_BASIS, vstd::bytes::spec_u64_to_le_bytes((rows.len() + 1) as u64));
    hex_text(hashed_rows(hashed_row(counted, document), rows, 0) as nat, 16)
}

fn hash_bytes(hash: u64, bytes: &[u8]) -> (result: u64)
    ensures
        result == hashed(hash, bytes@),
{
    let mut io = ChecksumIo { inner: (), hash, enabled: true };
    io.update(bytes);
    io.hash
}

fn hash_u64(hash: u64, value: u64) -> (result: u64)
    ensures
        result == hashed(hash, vstd::bytes::spec_u64_to_le_bytes(value)),
{
    let bytes = vstd::bytes::u64_to_le_bytes(value);
    hash_bytes(hash, bytes.as_slice())
}

fn hash_tag(hash: u64, tag: u8) -> (result: u64)
    ensures
        result == hashed(hash, seq![tag]),
{
    let bytes: Vec<u8> = vec![tag];
    assert(bytes@ =~= seq![tag]);
    hash_bytes(hash, bytes.as_slice())
}

fn hash_elements(hash: u64, vector: &Vector) -> (result: u64)
    ensures
        result == hashed_elements(hash, vector@, 0),
{
    let elements = vector.as_slice();
    let mut now: u64 = hash;
    let mut index: usize = 0;
    while index < elements.len()
        invariant
            index <= elements@.len(),
            elements@ == vector@,
            hashed_elements(now, vector@, index as nat) == hashed_elements(hash, vector@, 0),
        decreases elements@.len() - index,
    {
        let bytes = vstd::bytes::u32_to_le_bytes(elements[index]);
        now = hash_bytes(now, bytes.as_slice());
        index = index + 1;
    }
    now
}

fn hash_value(hash: u64, value: &Value) -> (result: u64)
    ensures
        result == hashed_value(hash, value@),
{
    match value {
        Value::Null => hash_tag(hash, 110),
        Value::Integer(number) => {
            let bits: u64 = if *number >= 0 {
                *number as u64
            } else {
                (*number as i128 + 0x1_0000_0000_0000_0000) as u64
            };
            hash_u64(hash_tag(hash, 105), bits)
        },
        Value::Float(bits) => hash_u64(hash_tag(hash, 102), *bits),
        Value::Boolean(truth) => {
            let tag: u8 = if *truth {
                116
            } else {
                98
            };
            hash_tag(hash, tag)
        },
        Value::Text(text) => {
            let bytes = text.as_str().as_bytes();
            let tagged: u64 = hash_u64(hash_tag(hash, 115), bytes.len() as u64);
            hash_bytes(tagged, bytes)
        },
        Value::Vector(vector) => {
            let tagged: u64 = hash_u64(hash_tag(hash, 118), vector.dimensions() as u64);
            hash_elements(tagged, vector)
        },
    }
}

fn hash_row(hash: u64, row: &Vec<Value>, count: usize) -> (result: u64)
    requires
        count <= row@.len(),
    ensures
        result == hashed_row(hash, views(row@).take(count as int)),
{
    let ghost part = views(row@).take(count as int);
    let start: u64 = hash_u64(hash, count as u64);
    let mut now: u64 = start;
    let mut index: usize = 0;
    while index < count
        invariant
            index <= count <= row@.len(),
            part == views(row@).take(count as int),
            hashed_values(now, part, index as nat) == hashed_values(start, part, 0),
        decreases count - index,
    {
        assert(part[index as int] == row@[index as int]@);
        now = hash_value(now, &row[index]);
        index = index + 1;
    }
    now
}

/// The rows at these positions.
pub open spec fn rows_at(rows: Seq<Seq<ValueView>>, positions: Seq<usize>) -> Seq<Seq<ValueView>> {
    positions.map_values(|at: usize| rows[at as int])
}

/// A fingerprint of the first `count` values of a document's row and of its chunks' rows.
pub fn chunk_fingerprint(document: &Vec<Value>, count: usize, rows: &Vec<Vec<Value>>, positions: &Vec<usize>) -> (text: String)
    requires
        count <= document@.len(),
        forall|i: int| 0 <= i < positions@.len() ==> (#[trigger] positions@[i]) < rows@.len(),
        positions@.len() < u64::MAX,
    ensures
        text@ == fingerprint(views(document@).take(count as int), rows_at(row_views(rows@), positions@)),
{
    let ghost chosen = rows_at(row_views(rows@), positions@);
    let counted: u64 = hash_u64(FNV_OFFSET_BASIS, positions.len() as u64 + 1);
    let start: u64 = hash_row(counted, document, count);
    let mut now: u64 = start;
    let mut index: usize = 0;
    while index < positions.len()
        invariant
            index <= positions@.len(),
            chosen == rows_at(row_views(rows@), positions@),
            forall|i: int| 0 <= i < positions@.len() ==> (#[trigger] positions@[i]) < rows@.len(),
            hashed_rows(now, chosen, index as nat) == hashed_rows(start, chosen, 0),
        decreases positions@.len() - index,
    {
        let row = &rows[positions[index]];
        proof {
            assert(chosen[index as int] == views(row@));
            assert(views(row@).take(row@.len() as int) =~= views(row@));
        }
        now = hash_row(now, row, row.len());
        index = index + 1;
    }
    write_hex(now, 16)
}

/// The position of a chunk in its document; minus one where the row holds none.
pub open spec fn ordinal_of(row: Seq<ValueView>) -> int {
    match row[2] {
        ValueView::Integer(ordinal) => ordinal as int,
        _ => -1,
    }
}

/// Whether one chunk goes before another in their document.
pub open spec fn ordinal_order(rows: Seq<Seq<ValueView>>, positions: Seq<usize>) -> Precedes {
    |a: usize, b: usize| ordinal_of(rows[positions[a as int] as int]) < ordinal_of(rows[positions[b as int] as int])
}

/// The positions of a document's chunks in their order.
pub open spec fn chunks_of(rows: Seq<Seq<ValueView>>, id: Seq<char>) -> Seq<usize> {
    let found = matching(rows, 1, ValueView::Text(id), rows.len());
    sorted(found.len() as usize, ordinal_order(rows, found)).map_values(|at: usize| found[at as int])
}

fn read_ordinal(row: &Vec<Value>) -> (ordinal: i64)
    requires
        row@.len() > 2,
    ensures
        ordinal == ordinal_of(views(row@)),
{
    assert(views(row@)[2] == row@[2]@);
    match &row[2] {
        Value::Integer(ordinal) => *ordinal,
        _ => -1,
    }
}

pub fn find_chunks(rows: &Vec<Vec<Value>>, id: &str) -> (result: Vec<usize>)
    requires
        forall|i: int| 0 <= i < rows@.len() ==> (#[trigger] row_views(rows@)[i]).len() > 2,
    ensures
        result@ == chunks_of(row_views(rows@), id@),
        result@.len() <= rows@.len(),
        forall|i: int| 0 <= i < result@.len() ==> (#[trigger] result@[i]) < rows@.len(),
{
    let found = rows_with_text(rows, 1, id);
    let ghost before = ordinal_order(row_views(rows@), found@);
    let precedes = |a: usize, b: usize| -> (result: bool)
        requires
            a < found@.len(),
            b < found@.len(),
            forall|i: int| 0 <= i < found@.len() ==> (#[trigger] found@[i]) < rows@.len(),
            forall|i: int| 0 <= i < rows@.len() ==> (#[trigger] row_views(rows@)[i]).len() > 2,
        ensures
            result == before(a, b),
        {
            let first = &rows[found[a]];
            let second = &rows[found[b]];
            proof {
                assert(row_views(rows@)[found@[a as int] as int] == views(first@));
                assert(row_views(rows@)[found@[b as int] as int] == views(second@));
            }
            read_ordinal(first) < read_ordinal(second)
        };
    let order = sort_positions(found.len(), &precedes, Ghost(before));
    let mut result: Vec<usize> = Vec::new();
    let mut index: usize = 0;
    while index < order.len()
        invariant
            index <= order@.len(),
            forall|i: int| 0 <= i < order@.len() ==> (#[trigger] order@[i]) < found@.len(),
            forall|i: int| 0 <= i < found@.len() ==> (#[trigger] found@[i]) < rows@.len(),
            result@.len() == index,
            forall|i: int| 0 <= i < index ==> (#[trigger] result@[i]) == found@[order@[i] as int],
        decreases order@.len() - index,
    {
        result.push(found[order[index]]);
        index = index + 1;
    }
    assert(result@ =~= chunks_of(row_views(rows@), id@));
    result
}

/// A document as it stands.
pub struct GraphDocument {
    pub id: String,
    pub title: String,
    pub source: String,
    pub text: String,
    pub metadata: Metadata,
    pub chunking: Json,
    pub chunk_count: usize,
    pub chunks_intact: bool,
}

pub struct DocumentView {
    pub id: Seq<char>,
    pub title: Seq<char>,
    pub source: Seq<char>,
    pub text: Seq<char>,
    pub metadata: MetadataView,
    pub chunking: TreeView,
    pub chunk_count: nat,
    pub chunks_intact: bool,
}

impl View for GraphDocument {
    type V = DocumentView;

    open spec fn view(&self) -> DocumentView {
        DocumentView {
            id: self.id@,
            title: self.title@,
            source: self.source@,
            text: self.text@,
            metadata: self.metadata@,
            chunking: self.chunking@,
            chunk_count: self.chunk_count as nat,
            chunks_intact: self.chunks_intact,
        }
    }
}

/// Whether a chunk's row holds the slice of the source that it says.
pub open spec fn cites(source: Seq<char>, chunk: Seq<ValueView>) -> bool {
    match (count_in(chunk, 3), count_in(chunk, 4), text_in(chunk, 5)) {
        (Ok(start), Ok(end), Ok(text)) => byte_slice(source, start as nat, end as nat) == Some(text),
        _ => false,
    }
}

pub fn is_cited(source: &str, chunk: &Vec<Value>) -> (result: bool)
    ensures
        result == cites(source@, views(chunk@)),
{
    let start: usize = match usize_at(chunk, 3) {
        Ok(start) => start,
        Err(_) => return false,
    };
    let end: usize = match usize_at(chunk, 4) {
        Ok(end) => end,
        Err(_) => return false,
    };
    match text_at(chunk, 5) {
        Ok(text) => is_slice(source, start, end, text),
        Err(_) => false,
    }
}

/// The document whose row this is.
pub open spec fn document_in(row: Seq<ValueView>, columns: Seq<ColumnView>, chunks: Seq<Seq<ValueView>>, id: Seq<char>) -> Result<
    DocumentView,
    ErrorView,
> {
    match text_in(row, 0) {
        Err(error) => Err(error),
        Ok(found) => match text_in(row, 1) {
            Err(error) => Err(error),
            Ok(title) => match text_in(row, 2) {
                Err(error) => Err(error),
                Ok(source) => match text_in(row, 3) {
                    Err(error) => Err(error),
                    Ok(text) => match metadata_of(row, columns) {
                        Err(error) => Err(error),
                        Ok(metadata) => match object_in(row, 5) {
                            Err(error) => Err(error),
                            Ok(chunking) => match text_in(row, 6) {
                                Err(error) => Err(error),
                                Ok(stored) => {
                                    let positions = chunks_of(chunks, id);
                                    Ok(
                                        DocumentView {
                                            id: found,
                                            title,
                                            source,
                                            text,
                                            metadata,
                                            chunking,
                                            chunk_count: positions.len(),
                                            chunks_intact: positions.len() > 0 && stored == fingerprint(
                                                row.take(6),
                                                rows_at(chunks, positions),
                                            ) && forall|i: int|
                                                0 <= i < positions.len() ==> cites(
                                                    text,
                                                    chunks[#[trigger] positions[i] as int],
                                                ),
                                        },
                                    )
                                },
                            },
                        },
                    },
                },
            },
        },
    }
}

/// The document of this name, where there is one.
#[verifier::opaque]
pub open spec fn stored_document(documents: TableView, chunks: TableView, id: Seq<char>) -> Result<Option<DocumentView>, ErrorView> {
    match row_named(documents.rows, id, 0) {
        None => Ok(None),
        Some(at) => match document_in(documents.rows[at as int], documents.columns, chunks.rows, id) {
            Err(error) => Err(error),
            Ok(document) => Ok(Some(document)),
        },
    }
}

fn all_cited(source: &str, rows: &Vec<Vec<Value>>, positions: &Vec<usize>) -> (result: bool)
    requires
        forall|i: int| 0 <= i < positions@.len() ==> (#[trigger] positions@[i]) < rows@.len(),
    ensures
        result == forall|i: int|
            0 <= i < positions@.len() ==> cites(source@, row_views(rows@)[#[trigger] positions@[i] as int]),
{
    let mut index: usize = 0;
    while index < positions.len()
        invariant
            index <= positions@.len(),
            forall|i: int| 0 <= i < positions@.len() ==> (#[trigger] positions@[i]) < rows@.len(),
            forall|i: int| 0 <= i < index ==> cites(source@, row_views(rows@)[#[trigger] positions@[i] as int]),
        decreases positions@.len() - index,
    {
        assert(row_views(rows@)[positions@[index as int] as int] == views(rows@[positions@[index as int] as int]@));
        if !is_cited(source, &rows[positions[index]]) {
            assert(!cites(source@, row_views(rows@)[positions@[index as int] as int]));
            return false;
        }
        index = index + 1;
    }
    true
}

/// Whether the tables have the columns that documents and chunks have, and not too many chunks.
pub open spec fn managed(documents: TableView, chunks: TableView) -> bool {
    &&& documents.columns.len() >= DOCUMENT_BASE_COLUMNS
    &&& chunks.columns.len() == 9
    &&& chunks.rows.len() <= MAX_CHUNKS
}

/// The document of this name, where there is one.
pub fn read_document(documents: &Table, chunks: &Table, id: &str) -> (result: Result<Option<GraphDocument>, Error>)
    requires
        documents.wf(),
        chunks.wf(),
        managed(documents@, chunks@),
    ensures
        match result {
            Ok(None) => stored_document(documents@, chunks@, id@) == Ok::<Option<DocumentView>, ErrorView>(None),
            Ok(Some(document)) => stored_document(documents@, chunks@, id@) == Ok::<Option<DocumentView>, ErrorView>(
                Some(document@),
            ),
            Err(error) => stored_document(documents@, chunks@, id@) == Err::<Option<DocumentView>, ErrorView>(error@),
        },
{
    proof {
        reveal(stored_document);
    }
    let at: usize = match find_row(&documents.rows, id) {
        Some(at) => at,
        None => return Ok(None),
    };
    let row = &documents.rows[at];
    proof {
        assert(documents@.rows[at as int] == views(row@));
        assert(valid_row(documents@.columns, documents@.rows[at as int]));
        assert forall|i: int| 0 <= i < chunks.rows@.len() implies (#[trigger] row_views(chunks.rows@)[i]).len() > 2 by {
            assert(valid_row(chunks@.columns, chunks@.rows[i]));
        }
    }
    let found = text_at(row, 0)?.to_owned();
    let title = text_at(row, 1)?.to_owned();
    let source = text_at(row, 2)?.to_owned();
    let text = text_at(row, 3)?.to_owned();
    let metadata = document_metadata(row, &documents.columns)?;
    let chunking = json_at(row, 5)?;
    let stored = text_at(row, 6)?;
    let positions = find_chunks(&chunks.rows, id);
    let chunk_count: usize = positions.len();
    let mut chunks_intact = false;
    if chunk_count > 0 {
        let expected = chunk_fingerprint(row, 6, &chunks.rows, &positions);
        chunks_intact = same_text(stored, expected.as_str()) && all_cited(text.as_str(), &chunks.rows, &positions);
    }
    Ok(
        Some(
            GraphDocument { id: found, title, source, text, metadata, chunking, chunk_count, chunks_intact },
        ),
    )
}

} // verus!
