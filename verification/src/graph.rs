//! Chunk graphs kept in ordinary tables: their names, their schemas, and what makes a collection.

use vstd::prelude::*;
use crate::arithmetic::{between, is_between, ONE, ZERO};
use crate::catalog::{Catalog, CatalogView};
use crate::error::{outcome, plain, Error, ErrorView};
use crate::float::{finite, is_finite};
use crate::json::{json_node, json_value, quote_json, quoted_json, read_json, Json, JsonNode, TreeView};
use crate::parameters::{double, doubled};
use crate::scan::{find_index_on, has_index};
use crate::slice::{blank, has_char, is_blank, lemma_byte_count, lemma_bytes_cover};
use crate::table::{IndexView, Table};
use crate::text::{
    byte_count, chars_of, count_bytes, decimal, decimal_count, decimal_text, is_digit, join2, join3, lemma_decimal_text,
    lemma_views_push, normalize_name, normalized, same_text, views,
};
use crate::value::{row_views, Column, ColumnView, DataType, Value, ValueView};
use crate::vector::{Vector, MAX_VECTOR_DIMENSIONS};

verus! {

broadcast use {vstd::string::group_string_axioms, lemma_views_push};

pub const MAX_CHUNKS: usize = 10000;

pub const MAX_DOCUMENT_CHUNKS: usize = 256;

pub const MAX_EDGES: usize = 340000;

pub const MAX_DOCUMENT_BYTES: usize = 1048576;

pub const MAX_VECTOR_ELEMENTS: usize = 33554432;

pub const MAX_COLLECTION_TEXT_BYTES: usize = 67108864;

pub const DOCUMENT_BASE_COLUMNS: usize = 7;

pub const MAX_DOCUMENT_COLUMNS: usize = 32;

/// Which embeddings a collection holds.
#[derive(Debug)]
pub struct GraphEmbeddingProfile {
    pub provider: String,
    pub model: String,
    pub dimensions: usize,
    pub context_format_version: u32,
}

pub struct ProfileView {
    pub provider: Seq<char>,
    pub model: Seq<char>,
    pub dimensions: nat,
    pub context_format_version: nat,
}

impl View for GraphEmbeddingProfile {
    type V = ProfileView;

    open spec fn view(&self) -> ProfileView {
        ProfileView {
            provider: self.provider@,
            model: self.model@,
            dimensions: self.dimensions as nat,
            context_format_version: self.context_format_version as nat,
        }
    }
}

/// How a collection is made. The threshold is a number as a bit pattern.
#[derive(Debug)]
pub struct GraphCollectionConfig {
    pub name: String,
    pub profile: GraphEmbeddingProfile,
    pub semantic_neighbors: usize,
    pub semantic_threshold: u64,
}

pub struct ConfigView {
    pub name: Seq<char>,
    pub profile: ProfileView,
    pub semantic_neighbors: nat,
    pub semantic_threshold: u64,
}

impl View for GraphCollectionConfig {
    type V = ConfigView;

    open spec fn view(&self) -> ConfigView {
        ConfigView {
            name: self.name@,
            profile: self.profile@,
            semantic_neighbors: self.semantic_neighbors as nat,
            semantic_threshold: self.semantic_threshold,
        }
    }
}

/// The names of a collection's tables.
#[derive(Debug)]
pub struct GraphTables {
    pub config: String,
    pub documents: String,
    pub chunks: String,
    pub edges: String,
}

pub struct TablesView {
    pub config: Seq<char>,
    pub documents: Seq<char>,
    pub chunks: Seq<char>,
    pub edges: Seq<char>,
}

impl View for GraphTables {
    type V = TablesView;

    open spec fn view(&self) -> TablesView {
        TablesView { config: self.config@, documents: self.documents@, chunks: self.chunks@, edges: self.edges@ }
    }
}

/// One field of a document that has a column of its own.
#[derive(Debug)]
pub struct GraphDocumentColumn {
    pub name: String,
    pub data_type: String,
    pub nullable: bool,
    pub unique: bool,
}

pub struct DocumentColumnView {
    pub name: Seq<char>,
    pub data_type: Seq<char>,
    pub nullable: bool,
    pub unique: bool,
}

impl View for GraphDocumentColumn {
    type V = DocumentColumnView;

    open spec fn view(&self) -> DocumentColumnView {
        DocumentColumnView {
            name: self.name@,
            data_type: self.data_type@,
            nullable: self.nullable,
            unique: self.unique,
        }
    }
}

/// A collection as it stands.
#[derive(Debug)]
pub struct GraphCollection {
    pub config: GraphCollectionConfig,
    pub revision: u64,
    pub document_count: usize,
    pub chunk_count: usize,
    pub edge_count: usize,
    pub tables: GraphTables,
    pub document_columns: Vec<GraphDocumentColumn>,
}

pub struct CollectionView {
    pub config: ConfigView,
    pub revision: u64,
    pub document_count: nat,
    pub chunk_count: nat,
    pub edge_count: nat,
    pub tables: TablesView,
    pub document_columns: Seq<DocumentColumnView>,
}

impl View for GraphCollection {
    type V = CollectionView;

    open spec fn view(&self) -> CollectionView {
        CollectionView {
            config: self.config@,
            revision: self.revision,
            document_count: self.document_count as nat,
            chunk_count: self.chunk_count as nat,
            edge_count: self.edge_count as nat,
            tables: self.tables@,
            document_columns: views(self.document_columns@),
        }
    }
}

pub open spec fn misuse(message: Seq<char>) -> ErrorView {
    ErrorView::InvalidQuery(message)
}

/// The error of a graph request that cannot be met.
pub fn invalid(message: &str) -> (error: Error)
    ensures
        error@ == misuse(message@),
{
    Error::InvalidQuery(message.to_owned())
}

/// A name in double quotes.
pub open spec fn quoted(value: Seq<char>) -> Seq<char> {
    "\""@ + doubled(value, '"') + "\""@
}

/// A name in double quotes.
pub fn quote(value: &str) -> (text: String)
    ensures
        text@ == quoted(value@),
{
    let inner = double(value, '"');
    join3("\"", inner.as_str(), "\"")
}

/// A text in single quotes.
pub open spec fn text_literal(value: Seq<char>) -> Seq<char> {
    "'"@ + doubled(value, '\'') + "'"@
}

/// A text in single quotes.
pub fn literal(value: &str) -> (text: String)
    ensures
        text@ == text_literal(value@),
{
    let inner = double(value, '\'');
    join3("'", inner.as_str(), "'")
}

/// Whether a text is short enough, is not blank unless it may be, and holds no NUL.
pub open spec fn text_bounded(value: Seq<char>, max: nat, empty: bool, label: Seq<char>) -> Result<(), ErrorView> {
    if byte_count(value) > max || (!empty && blank(value)) || value.contains('\0') {
        Err(
            misuse(
                label + " is empty, contains NUL, or exceeds "@ + decimal_text(max) + " UTF-8 bytes"@,
            ),
        )
    } else {
        Ok(())
    }
}

pub fn bounded_text(value: &str, max: usize, empty: bool, label: &str) -> (result: Result<(), Error>)
    ensures
        plain(result) == text_bounded(value@, max as nat, empty, label@),
{
    if count_bytes(value) > max || (!empty && is_blank(value)) || has_char(value, '\0') {
        let most = decimal_count(max);
        let head = join3(label, " is empty, contains NUL, or exceeds ", most.as_str());
        return Err(Error::InvalidQuery(join2(head.as_str(), " UTF-8 bytes")));
    }
    Ok(())
}

pub open spec fn lower_letter(c: char) -> bool {
    'a' <= c && c <= 'z'
}

pub open spec fn name_char(c: char) -> bool {
    lower_letter(c) || ('0' <= c && c <= '9') || c == '_'
}

/// Whether a text is a lower-case letter and up to `max` characters of names in all.
pub open spec fn plain_name(name: Seq<char>, max: nat) -> bool {
    &&& 0 < name.len() <= max
    &&& lower_letter(name[0])
    &&& forall|i: int| 0 <= i < name.len() ==> name_char(#[trigger] name[i])
}

pub fn is_plain_name(name: &str, max: usize) -> (result: bool)
    ensures
        result == plain_name(name@, max as nat),
{
    let chars = chars_of(name);
    if chars.len() == 0 || chars.len() > max {
        return false;
    }
    if !('a' <= chars[0] && chars[0] <= 'z') {
        return false;
    }
    let mut index: usize = 0;
    while index < chars.len()
        invariant
            chars@ == name@,
            index <= chars@.len(),
            forall|i: int| 0 <= i < index ==> name_char(#[trigger] name@[i]),
        decreases chars@.len() - index,
    {
        let c: char = chars[index];
        if !(('a' <= c && c <= 'z') || ('0' <= c && c <= '9') || c == '_') {
            assert(!name_char(name@[index as int]));
            return false;
        }
        index = index + 1;
    }
    true
}

/// The name of a collection in lower case, where it is one.
pub open spec fn named_collection(name: Seq<char>) -> Result<Seq<char>, ErrorView> {
    if plain_name(normalized(name), 48) {
        Ok(normalized(name))
    } else {
        Err(
            misuse(
                "collection name must start with an ASCII letter and contain at most 48 ASCII letters, digits, or underscores"@,
            ),
        )
    }
}

pub fn collection_name(name: &str) -> (result: Result<String, Error>)
    ensures
        outcome(result) == named_collection(name@),
{
    let lower = normalize_name(name);
    if is_plain_name(lower.as_str(), 48) {
        Ok(lower)
    } else {
        Err(
            invalid(
                "collection name must start with an ASCII letter and contain at most 48 ASCII letters, digits, or underscores",
            ),
        )
    }
}

/// Whether a collection can be made this way.
pub open spec fn config_checked(config: ConfigView) -> Result<(), ErrorView> {
    match text_bounded(config.profile.provider, 64, false, "embedding provider"@) {
        Err(error) => Err(error),
        Ok(_) => match text_bounded(config.profile.model, 128, false, "embedding model"@) {
            Err(error) => Err(error),
            Ok(_) => if config.profile.dimensions == 0 || config.profile.dimensions > MAX_VECTOR_DIMENSIONS
                || config.profile.context_format_version != 1 {
                Err(misuse("graph embedding dimensions or context format version are invalid"@))
            } else if config.semantic_neighbors > 16 || !finite(config.semantic_threshold) || !between(
                config.semantic_threshold,
                ZERO,
                ONE,
            ) {
                Err(
                    misuse("semantic_neighbors must be 0..16 and semantic_threshold must be finite in 0..1"@),
                )
            } else {
                Ok(())
            },
        },
    }
}

pub fn validate_config(config: &GraphCollectionConfig) -> (result: Result<(), Error>)
    ensures
        plain(result) == config_checked(config@),
{
    bounded_text(config.profile.provider.as_str(), 64, false, "embedding provider")?;
    bounded_text(config.profile.model.as_str(), 128, false, "embedding model")?;
    if config.profile.dimensions == 0 || config.profile.dimensions > MAX_VECTOR_DIMENSIONS
        || config.profile.context_format_version != 1 {
        return Err(invalid("graph embedding dimensions or context format version are invalid"));
    }
    if config.semantic_neighbors > 16 || !is_finite(config.semantic_threshold) || !is_between(
        config.semantic_threshold,
        ZERO,
        ONE,
    ) {
        return Err(invalid("semantic_neighbors must be 0..16 and semantic_threshold must be finite in 0..1"));
    }
    Ok(())
}

/// How a profile is written beside each chunk.
pub open spec fn profile_text(profile: ProfileView) -> Seq<char> {
    "{\"provider\":"@ + quoted_json(profile.provider) + ",\"model\":"@ + quoted_json(profile.model)
        + ",\"dimensions\":"@ + decimal_text(profile.dimensions) + ",\"context_format_version\":"@ + decimal_text(
        profile.context_format_version,
    ) + "}"@
}

pub fn profile_key(profile: &GraphEmbeddingProfile) -> (text: String)
    ensures
        text@ == profile_text(profile@),
{
    let mut text = join2("{\"provider\":", quote_json(profile.provider.as_str()).as_str());
    text.append(",\"model\":");
    text.append(quote_json(profile.model.as_str()).as_str());
    text.append(",\"dimensions\":");
    text.append(decimal_count(profile.dimensions).as_str());
    text.append(",\"context_format_version\":");
    text.append(decimal(profile.context_format_version as u64).as_str());
    text.append("}");
    text
}

pub open spec fn profile_checked(actual: ProfileView, expected: ProfileView) -> Result<(), ErrorView> {
    if actual == expected {
        Ok(())
    } else {
        Err(
            misuse(
                "graph embedding profile changed; use the collection's provider, model, dimensions, and context format"@,
            ),
        )
    }
}

pub fn check_profile(actual: &GraphEmbeddingProfile, expected: &GraphEmbeddingProfile) -> (result: Result<(), Error>)
    ensures
        plain(result) == profile_checked(actual@, expected@),
{
    if same_text(actual.provider.as_str(), expected.provider.as_str()) && same_text(
        actual.model.as_str(),
        expected.model.as_str(),
    ) && actual.dimensions == expected.dimensions && actual.context_format_version == expected.context_format_version {
        Ok(())
    } else {
        Err(
            invalid(
                "graph embedding profile changed; use the collection's provider, model, dimensions, and context format",
            ),
        )
    }
}

/// The names of the tables of a collection.
pub open spec fn tables_of(name: Seq<char>) -> TablesView {
    TablesView {
        config: "graph_"@ + name + "_config"@,
        documents: "graph_"@ + name + "_documents"@,
        chunks: "graph_"@ + name + "_chunks"@,
        edges: "graph_"@ + name + "_edges"@,
    }
}

pub fn table_names(name: &str) -> (tables: GraphTables)
    ensures
        tables@ == tables_of(name@),
{
    GraphTables {
        config: join3("graph_", name, "_config"),
        documents: join3("graph_", name, "_documents"),
        chunks: join3("graph_", name, "_chunks"),
        edges: join3("graph_", name, "_edges"),
    }
}

/// The name of the index of a table on a column.
pub open spec fn named_index(table: Seq<char>, column: Seq<char>) -> Seq<char> {
    table + "_"@ + column + "_idx"@
}

pub fn index_name(table: &str, column: &str) -> (name: String)
    ensures
        name@ == named_index(table@, column@),
{
    let head = join3(table, "_", column);
    join2(head.as_str(), "_idx")
}

/// The name of a chunk: the length of the document's name, that name, and the chunk's position.
pub open spec fn chunk_name(document: Seq<char>, ordinal: nat) -> Seq<char> {
    decimal_text(byte_count(document)) + ":"@ + document + ":"@ + decimal_text(ordinal)
}

pub fn chunk_id(document: &str, ordinal: usize) -> (id: String)
    ensures
        id@ == chunk_name(document@, ordinal as nat),
{
    let length = decimal_count(count_bytes(document));
    let head = join3(length.as_str(), ":", document);
    let place = decimal_count(ordinal);
    join3(head.as_str(), ":", place.as_str())
}

proof fn lemma_first_colon(number: nat, rest: Seq<char>, other: nat, others: Seq<char>)
    requires
        decimal_text(number) + ":"@ + rest == decimal_text(other) + ":"@ + others,
    ensures
        number == other,
        rest == others,
{
    lemma_decimal_text(number);
    lemma_decimal_text(other);
    reveal_strlit(":");
    let a = decimal_text(number);
    let b = decimal_text(other);
    let left = a + ":"@ + rest;
    let right = b + ":"@ + others;
    assert(left[a.len() as int] == ':');
    assert(right[b.len() as int] == ':');
    if a.len() < b.len() {
        assert(right[a.len() as int] == b[a.len() as int]);
        assert(is_digit(b[a.len() as int]));
    }
    if b.len() < a.len() {
        assert(left[b.len() as int] == a[b.len() as int]);
        assert(is_digit(a[b.len() as int]));
    }
    assert(left.take(a.len() as int) =~= a);
    assert(right.take(b.len() as int) =~= b);
    assert(left.skip(a.len() as int + 1) =~= rest);
    assert(right.skip(b.len() as int + 1) =~= others);
}

proof fn lemma_document_ends(first: Seq<char>, rest: Seq<char>, second: Seq<char>, others: Seq<char>)
    requires
        first.len() <= second.len(),
        byte_count(first) == byte_count(second),
        first + rest == second + others,
    ensures
        first == second,
        rest == others,
{
    let left = first + rest;
    let more = second.skip(first.len() as int);
    assert(first =~= second.take(first.len() as int)) by {
        assert forall|i: int| 0 <= i < first.len() implies first[i] == second[i] by {
            assert(left[i] == first[i]);
            assert((second + others)[i] == second[i]);
        }
    }
    assert(second =~= first + more);
    lemma_byte_count(first, more);
    lemma_bytes_cover(more);
    assert(first =~= second);
    assert(left.skip(first.len() as int) =~= rest);
    assert((second + others).skip(second.len() as int) =~= others);
}

/// Different chunks have different names, whatever colons and digits the names of their documents
/// hold.
pub proof fn law_chunk_names_differ(first: Seq<char>, ordinal: nat, second: Seq<char>, other: nat)
    ensures
        chunk_name(first, ordinal) == chunk_name(second, other) ==> first == second && ordinal == other,
{
    if chunk_name(first, ordinal) == chunk_name(second, other) {
        let rest = ":"@ + decimal_text(ordinal);
        let others = ":"@ + decimal_text(other);
        assert(chunk_name(first, ordinal) =~= decimal_text(byte_count(first)) + ":"@ + (first + rest));
        assert(chunk_name(second, other) =~= decimal_text(byte_count(second)) + ":"@ + (second + others));
        lemma_first_colon(byte_count(first), first + rest, byte_count(second), second + others);
        if first.len() <= second.len() {
            lemma_document_ends(first, rest, second, others);
        } else {
            lemma_document_ends(second, others, first, rest);
        }
        reveal_strlit(":");
        assert(rest.skip(1) =~= decimal_text(ordinal));
        assert(others.skip(1) =~= decimal_text(other));
        lemma_decimal_text(ordinal);
        lemma_decimal_text(other);
    }
}

/// A column that holds no `NULL`.
pub open spec fn fixed(name: Seq<char>, data_type: DataType, unique: bool) -> ColumnView {
    ColumnView { name, data_type, nullable: false, unique }
}

fn column(name: &str, data_type: DataType, unique: bool) -> (column: Column)
    ensures
        column@ == fixed(name@, data_type, unique),
{
    Column { name: name.to_owned(), data_type, nullable: false, unique }
}

pub open spec fn config_columns() -> Seq<ColumnView> {
    seq![
        fixed("id"@, DataType::Integer, true),
        fixed("provider"@, DataType::Text, false),
        fixed("model"@, DataType::Text, false),
        fixed("dimensions"@, DataType::Integer, false),
        fixed("context_format_version"@, DataType::Integer, false),
        fixed("semantic_neighbors"@, DataType::Integer, false),
        fixed("semantic_threshold"@, DataType::Float, false),
    ]
}

pub open spec fn base_document_columns() -> Seq<ColumnView> {
    seq![
        fixed("document_id"@, DataType::Text, true),
        fixed("title"@, DataType::Text, false),
        fixed("source"@, DataType::Text, false),
        fixed("text"@, DataType::Text, false),
        fixed("metadata"@, DataType::Text, false),
        fixed("chunking"@, DataType::Text, false),
        fixed("chunk_fingerprint"@, DataType::Text, false),
    ]
}

pub open spec fn chunk_columns(dimensions: usize) -> Seq<ColumnView> {
    seq![
        fixed("chunk_id"@, DataType::Text, true),
        fixed("document_id"@, DataType::Text, false),
        fixed("ordinal"@, DataType::Integer, false),
        fixed("start_byte"@, DataType::Integer, false),
        fixed("end_byte"@, DataType::Integer, false),
        fixed("text"@, DataType::Text, false),
        fixed("embedding_text"@, DataType::Text, false),
        fixed("embedding_profile"@, DataType::Text, false),
        fixed("embedding"@, DataType::Vector(dimensions), false),
    ]
}

pub open spec fn edge_columns() -> Seq<ColumnView> {
    seq![
        fixed("edge_id"@, DataType::Text, true),
        fixed("from_chunk"@, DataType::Text, false),
        fixed("to_chunk"@, DataType::Text, false),
        fixed("kind"@, DataType::Text, false),
        fixed("weight"@, DataType::Float, false),
    ]
}

fn make_config_columns() -> (columns: Vec<Column>)
    ensures
        views(columns@) == config_columns(),
{
    let columns = vec![
        column("id", DataType::Integer, true),
        column("provider", DataType::Text, false),
        column("model", DataType::Text, false),
        column("dimensions", DataType::Integer, false),
        column("context_format_version", DataType::Integer, false),
        column("semantic_neighbors", DataType::Integer, false),
        column("semantic_threshold", DataType::Float, false),
    ];
    assert(views(columns@) =~= config_columns());
    columns
}

fn make_base_document_columns() -> (columns: Vec<Column>)
    ensures
        views(columns@) == base_document_columns(),
{
    let columns = vec![
        column("document_id", DataType::Text, true),
        column("title", DataType::Text, false),
        column("source", DataType::Text, false),
        column("text", DataType::Text, false),
        column("metadata", DataType::Text, false),
        column("chunking", DataType::Text, false),
        column("chunk_fingerprint", DataType::Text, false),
    ];
    assert(views(columns@) =~= base_document_columns());
    columns
}

fn make_chunk_columns(dimensions: usize) -> (columns: Vec<Column>)
    ensures
        views(columns@) == chunk_columns(dimensions),
{
    let columns = vec![
        column("chunk_id", DataType::Text, true),
        column("document_id", DataType::Text, false),
        column("ordinal", DataType::Integer, false),
        column("start_byte", DataType::Integer, false),
        column("end_byte", DataType::Integer, false),
        column("text", DataType::Text, false),
        column("embedding_text", DataType::Text, false),
        column("embedding_profile", DataType::Text, false),
        column("embedding", DataType::Vector(dimensions), false),
    ];
    assert(views(columns@) =~= chunk_columns(dimensions));
    columns
}

fn make_edge_columns() -> (columns: Vec<Column>)
    ensures
        views(columns@) == edge_columns(),
{
    let columns = vec![
        column("edge_id", DataType::Text, true),
        column("from_chunk", DataType::Text, false),
        column("to_chunk", DataType::Text, false),
        column("kind", DataType::Text, false),
        column("weight", DataType::Float, false),
    ];
    assert(views(columns@) =~= edge_columns());
    columns
}

/// The schema of one table of a collection: its name, its columns, and the columns with an index.
pub struct GraphSchema {
    pub name: String,
    pub columns: Vec<Column>,
    pub indexed: Vec<usize>,
}

pub struct SchemaView {
    pub name: Seq<char>,
    pub columns: Seq<ColumnView>,
    pub indexed: Seq<usize>,
}

impl View for GraphSchema {
    type V = SchemaView;

    open spec fn view(&self) -> SchemaView {
        SchemaView { name: self.name@, columns: views(self.columns@), indexed: self.indexed@ }
    }
}

/// The indexed columns of the document table: the document's name and every field.
pub open spec fn document_indexed(fields: nat) -> Seq<usize> {
    Seq::new(fields + 1, |i: int| if i == 0 { 0usize } else { (DOCUMENT_BASE_COLUMNS + i - 1) as usize })
}

/// The schemas of a collection's tables.
pub open spec fn schemas_of(tables: TablesView, dimensions: usize, fields: Seq<ColumnView>) -> Seq<SchemaView> {
    seq![
        SchemaView { name: tables.config, columns: config_columns(), indexed: Seq::empty() },
        SchemaView {
            name: tables.documents,
            columns: base_document_columns() + fields,
            indexed: document_indexed(fields.len()),
        },
        SchemaView { name: tables.chunks, columns: chunk_columns(dimensions), indexed: seq![0usize, 1usize] },
        SchemaView { name: tables.edges, columns: edge_columns(), indexed: seq![1usize, 2usize] },
    ]
}

fn document_schema(name: &str, fields: &[Column]) -> (schema: GraphSchema)
    requires
        fields@.len() <= MAX_DOCUMENT_COLUMNS,
    ensures
        schema@ == (SchemaView {
            name: name@,
            columns: base_document_columns() + views(fields@),
            indexed: document_indexed(fields@.len()),
        }),
{
    let mut columns = make_base_document_columns();
    let mut indexed: Vec<usize> = vec![0usize];
    let mut index: usize = 0;
    while index < fields.len()
        invariant
            index <= fields@.len(),
            fields@.len() <= MAX_DOCUMENT_COLUMNS,
            views(columns@) == base_document_columns() + views(fields@).take(index as int),
            indexed@ == document_indexed(index as nat),
        decreases fields@.len() - index,
    {
        let field = &fields[index];
        columns.push(
            Column { name: field.name.clone(), data_type: field.data_type, nullable: field.nullable, unique: field.unique },
        );
        indexed.push(DOCUMENT_BASE_COLUMNS + index);
        index = index + 1;
        proof {
            assert(views(fields@).take(index as int) =~= views(fields@).take(index - 1).push(fields@[index - 1]@));
            assert(views(columns@) =~= base_document_columns() + views(fields@).take(index as int));
            assert(indexed@ =~= document_indexed(index as nat));
        }
    }
    assert(views(fields@).take(index as int) =~= views(fields@));
    GraphSchema { name: name.to_owned(), columns, indexed }
}

/// The schemas of a collection's tables.
pub fn schemas_with_columns(tables: &GraphTables, dimensions: usize, fields: &[Column]) -> (schemas: Vec<GraphSchema>)
    requires
        fields@.len() <= MAX_DOCUMENT_COLUMNS,
    ensures
        views(schemas@) == schemas_of(tables@, dimensions, views(fields@)),
{
    let config = GraphSchema { name: tables.config.clone(), columns: make_config_columns(), indexed: Vec::new() };
    assert(config.indexed@ =~= Seq::<usize>::empty());
    let documents = document_schema(tables.documents.as_str(), fields);
    let chunks = GraphSchema {
        name: tables.chunks.clone(),
        columns: make_chunk_columns(dimensions),
        indexed: vec![0usize, 1usize],
    };
    assert(chunks.indexed@ =~= seq![0usize, 1usize]);
    let edges = GraphSchema { name: tables.edges.clone(), columns: make_edge_columns(), indexed: vec![1usize, 2usize] };
    assert(edges.indexed@ =~= seq![1usize, 2usize]);
    let schemas = vec![config, documents, chunks, edges];
    assert(views(schemas@) =~= schemas_of(tables@, dimensions, views(fields@)));
    schemas
}

/// The columns that every document has, and the fields checked so far, by name.
pub open spec fn named_before(fields: Seq<ColumnView>, count: nat, name: Seq<char>) -> bool {
    (exists|i: int| 0 <= i < base_document_columns().len() && (#[trigger] base_document_columns()[i]).name == name) || exists|
        i: int,
    |
        0 <= i < count && (#[trigger] fields[i]).name == name
}

/// Whether the columns from `from` on can be those of the fields of a document.
pub open spec fn fields_checked(fields: Seq<ColumnView>, from: nat) -> Result<(), ErrorView>
    decreases fields.len() - from,
{
    if from >= fields.len() {
        Ok(())
    } else {
        let field = fields[from as int];
        if !plain_name(field.name, 48) {
            Err(
                misuse(
                    "document column names must start with a lowercase ASCII letter and contain at most 48 lowercase ASCII letters, digits, or underscores"@,
                ),
            )
        } else if named_before(fields, from, field.name) {
            Err(ErrorView::DuplicateColumn(field.name))
        } else if field.data_type is Vector {
            Err(misuse("custom document columns support TEXT, INTEGER, DOUBLE, and BOOLEAN"@))
        } else {
            fields_checked(fields, from + 1)
        }
    }
}

/// Whether the columns can be those of the fields of a document.
pub open spec fn document_columns_checked(fields: Seq<ColumnView>) -> Result<(), ErrorView> {
    if fields.len() > MAX_DOCUMENT_COLUMNS {
        Err(misuse("a graph collection supports at most 32 custom document columns"@))
    } else {
        fields_checked(fields, 0)
    }
}

fn has_column_named(columns: &[Column], count: usize, name: &str) -> (result: bool)
    requires
        count <= columns@.len(),
    ensures
        result == exists|i: int| 0 <= i < count && (#[trigger] views(columns@)[i]).name == name@,
{
    let mut index: usize = 0;
    while index < count
        invariant
            index <= count <= columns@.len(),
            forall|i: int| 0 <= i < index ==> (#[trigger] views(columns@)[i]).name != name@,
        decreases count - index,
    {
        assert(views(columns@)[index as int] == columns@[index as int]@);
        if same_text(columns[index].name.as_str(), name) {
            return true;
        }
        index = index + 1;
    }
    false
}

pub fn validate_document_columns(columns: &[Column]) -> (result: Result<(), Error>)
    ensures
        plain(result) == document_columns_checked(views(columns@)),
{
    if columns.len() > MAX_DOCUMENT_COLUMNS {
        return Err(invalid("a graph collection supports at most 32 custom document columns"));
    }
    let base = make_base_document_columns();
    let ghost fields = views(columns@);
    let mut index: usize = 0;
    while index < columns.len()
        invariant
            index <= columns@.len(),
            columns@.len() <= MAX_DOCUMENT_COLUMNS,
            fields == views(columns@),
            views(base@) == base_document_columns(),
            fields_checked(fields, index as nat) == fields_checked(fields, 0),
        decreases columns@.len() - index,
    {
        let field = &columns[index];
        assert(fields[index as int] == field@);
        if !is_plain_name(field.name.as_str(), 48) {
            return Err(
                invalid(
                    "document column names must start with a lowercase ASCII letter and contain at most 48 lowercase ASCII letters, digits, or underscores",
                ),
            );
        }
        let known = has_column_named(base.as_slice(), base.len(), field.name.as_str());
        let repeated = has_column_named(columns, index, field.name.as_str());
        assert((known || repeated) == named_before(fields, index as nat, field.name@));
        if known || repeated {
            return Err(Error::DuplicateColumn(field.name.clone()));
        }
        if let DataType::Vector(_) = field.data_type {
            return Err(invalid("custom document columns support TEXT, INTEGER, DOUBLE, and BOOLEAN"));
        }
        index = index + 1;
    }
    Ok(())
}

pub open spec fn text_error() -> ErrorView {
    misuse("graph table contains an invalid text field"@)
}

pub open spec fn integer_error() -> ErrorView {
    misuse("graph table contains an invalid integer field"@)
}

/// The text in a row.
pub open spec fn text_in(row: Seq<ValueView>, index: nat) -> Result<Seq<char>, ErrorView> {
    if index < row.len() {
        match row[index as int] {
            ValueView::Text(text) => Ok(text),
            _ => Err(text_error()),
        }
    } else {
        Err(text_error())
    }
}

pub fn text_at(row: &Vec<Value>, index: usize) -> (result: Result<&str, Error>)
    ensures
        match result {
            Ok(text) => text_in(views(row@), index as nat) == Ok::<Seq<char>, ErrorView>(text@),
            Err(error) => text_in(views(row@), index as nat) == Err::<Seq<char>, ErrorView>(error@),
        },
{
    if index < row.len() {
        assert(views(row@)[index as int] == row@[index as int]@);
        match &row[index] {
            Value::Text(text) => Ok(text.as_str()),
            _ => Err(invalid("graph table contains an invalid text field")),
        }
    } else {
        Err(invalid("graph table contains an invalid text field"))
    }
}

/// The count in a row.
pub open spec fn count_in(row: Seq<ValueView>, index: nat) -> Result<usize, ErrorView> {
    if index < row.len() {
        match row[index as int] {
            ValueView::Integer(value) => if 0 <= value <= usize::MAX {
                Ok(value as usize)
            } else {
                Err(integer_error())
            },
            _ => Err(integer_error()),
        }
    } else {
        Err(integer_error())
    }
}

pub fn usize_at(row: &Vec<Value>, index: usize) -> (result: Result<usize, Error>)
    ensures
        plain(result) == count_in(views(row@), index as nat),
{
    if index < row.len() {
        assert(views(row@)[index as int] == row@[index as int]@);
        match &row[index] {
            Value::Integer(value) => {
                if *value >= 0 && *value as u64 <= usize::MAX as u64 {
                    Ok(*value as usize)
                } else {
                    Err(invalid("graph table contains an invalid integer field"))
                }
            },
            _ => Err(invalid("graph table contains an invalid integer field")),
        }
    } else {
        Err(invalid("graph table contains an invalid integer field"))
    }
}

/// The finite number in a row.
pub open spec fn number_in(row: Seq<ValueView>, index: nat) -> Result<u64, ErrorView> {
    if index < row.len() && row[index as int] is Float && finite(row[index as int]->Float_0) {
        Ok(row[index as int]->Float_0)
    } else {
        Err(misuse("graph table contains an invalid finite score"@))
    }
}

pub fn number_at(row: &Vec<Value>, index: usize) -> (result: Result<u64, Error>)
    ensures
        plain(result) == number_in(views(row@), index as nat),
{
    if index < row.len() {
        assert(views(row@)[index as int] == row@[index as int]@);
        if let Value::Float(bits) = &row[index] {
            if is_finite(*bits) {
                return Ok(*bits);
            }
        }
    }
    Err(invalid("graph table contains an invalid finite score"))
}

/// The JSON object in a row.
pub open spec fn object_in(row: Seq<ValueView>, index: nat) -> Result<TreeView, ErrorView> {
    match text_in(row, index) {
        Err(error) => Err(error),
        Ok(text) => match json_value(text) {
            None => Err(misuse("graph table contains invalid JSON metadata"@)),
            Some(tree) => if tree is Record {
                Ok(tree)
            } else {
                Err(misuse("graph metadata and chunking must be JSON objects"@))
            },
        },
    }
}

pub fn is_object(json: &Json) -> (result: bool)
    ensures
        result == (json@ is Record),
{
    match json_node(json) {
        JsonNode::Record(_) => true,
        _ => false,
    }
}

pub fn json_at(row: &Vec<Value>, index: usize) -> (result: Result<Json, Error>)
    ensures
        outcome(result) == object_in(views(row@), index as nat),
{
    let text = text_at(row, index)?;
    match read_json(text) {
        None => Err(invalid("graph table contains invalid JSON metadata")),
        Some(json) => {
            if is_object(&json) {
                Ok(json)
            } else {
                Err(invalid("graph metadata and chunking must be JSON objects"))
            }
        },
    }
}

fn same_columns(left: &Vec<Column>, right: &Vec<Column>) -> (same: bool)
    ensures
        same == (views(left@) == views(right@)),
{
    if left.len() != right.len() {
        assert(views(left@).len() != views(right@).len());
        return false;
    }
    let mut index: usize = 0;
    while index < left.len()
        invariant
            left@.len() == right@.len(),
            index <= left@.len(),
            forall|i: int| 0 <= i < index ==> views(left@)[i] == views(right@)[i],
        decreases left@.len() - index,
    {
        proof {
            assert(views(left@)[index as int] == left@[index as int]@);
            assert(views(right@)[index as int] == right@[index as int]@);
        }
        if !same_text(left[index].name.as_str(), right[index].name.as_str()) || left[index].data_type
            != right[index].data_type || left[index].nullable != right[index].nullable || left[index].unique
            != right[index].unique {
            return false;
        }
        index = index + 1;
    }
    assert(views(left@) =~= views(right@));
    true
}

/// The profile and the settings that the first row of the configuration table holds.
pub open spec fn config_in(name: Seq<char>, row: Seq<ValueView>) -> Result<ConfigView, ErrorView> {
    match count_in(row, 0) {
        Err(error) => Err(error),
        Ok(id) => if id != 1 {
            Err(misuse("graph configuration id must be one"@))
        } else {
            match text_in(row, 1) {
                Err(error) => Err(error),
                Ok(provider) => match text_in(row, 2) {
                    Err(error) => Err(error),
                    Ok(model) => match count_in(row, 3) {
                        Err(error) => Err(error),
                        Ok(dimensions) => match count_in(row, 4) {
                            Err(error) => Err(error),
                            Ok(version) => if version > u32::MAX {
                                Err(misuse("invalid context version"@))
                            } else {
                                match count_in(row, 5) {
                                    Err(error) => Err(error),
                                    Ok(neighbors) => match number_in(row, 6) {
                                        Err(error) => Err(error),
                                        Ok(threshold) => Ok(
                                            ConfigView {
                                                name,
                                                profile: ProfileView {
                                                    provider,
                                                    model,
                                                    dimensions: dimensions as nat,
                                                    context_format_version: version as nat,
                                                },
                                                semantic_neighbors: neighbors as nat,
                                                semantic_threshold: threshold,
                                            },
                                        ),
                                    },
                                }
                            },
                        },
                    },
                },
            }
        },
    }
}

fn read_config(name: &str, row: &Vec<Value>) -> (result: Result<GraphCollectionConfig, Error>)
    ensures
        outcome(result) == config_in(name@, views(row@)),
{
    let id: usize = usize_at(row, 0)?;
    if id != 1 {
        return Err(invalid("graph configuration id must be one"));
    }
    let provider = text_at(row, 1)?;
    let model = text_at(row, 2)?;
    let dimensions: usize = usize_at(row, 3)?;
    let version: usize = usize_at(row, 4)?;
    if version as u64 > u32::MAX as u64 {
        return Err(invalid("invalid context version"));
    }
    let semantic_neighbors: usize = usize_at(row, 5)?;
    let semantic_threshold: u64 = number_at(row, 6)?;
    Ok(
        GraphCollectionConfig {
            name: name.to_owned(),
            profile: GraphEmbeddingProfile {
                provider: provider.to_owned(),
                model: model.to_owned(),
                dimensions,
                context_format_version: version as u32,
            },
            semantic_neighbors,
            semantic_threshold,
        },
    )
}

/// Whether every one of these columns, from `from` on, has an index.
pub open spec fn all_indexed(indexes: Seq<IndexView>, columns: Seq<usize>, from: nat) -> bool
    decreases columns.len() - from,
{
    from >= columns.len() || (has_index(indexes, columns[from as int] as nat, 0) && all_indexed(indexes, columns, from + 1))
}

/// Whether the tables of the schemas from `from` on are as they were made.
pub open spec fn schemas_kept(catalog: CatalogView, schemas: Seq<SchemaView>, from: nat) -> Result<(), ErrorView>
    decreases schemas.len() - from,
{
    if from >= schemas.len() {
        Ok(())
    } else {
        let schema = schemas[from as int];
        match catalog.located(schema.name) {
            Err(error) => Err(error),
            Ok(at) => if catalog.tables[at as int].table.columns != schema.columns || !all_indexed(
                catalog.tables[at as int].table.indexes,
                schema.indexed,
                0,
            ) {
                Err(misuse("graph managed table schema or required scalar index changed"@))
            } else {
                schemas_kept(catalog, schemas, from + 1)
            },
        }
    }
}

fn has_indexes(table: &Table, columns: &Vec<usize>) -> (result: bool)
    ensures
        result == all_indexed(table@.indexes, columns@, 0),
{
    let mut index: usize = 0;
    while index < columns.len()
        invariant
            index <= columns@.len(),
            all_indexed(table@.indexes, columns@, index as nat) == all_indexed(table@.indexes, columns@, 0),
        decreases columns@.len() - index,
    {
        if find_index_on(&table.indexes, columns[index]).is_none() {
            return false;
        }
        index = index + 1;
    }
    true
}

fn check_schemas(catalog: &Catalog, schemas: &Vec<GraphSchema>) -> (result: Result<(), Error>)
    ensures
        plain(result) == schemas_kept(catalog@, views(schemas@), 0),
{
    let mut index: usize = 0;
    while index < schemas.len()
        invariant
            index <= schemas@.len(),
            schemas_kept(catalog@, views(schemas@), index as nat) == schemas_kept(catalog@, views(schemas@), 0),
        decreases schemas@.len() - index,
    {
        let schema = &schemas[index];
        assert(views(schemas@)[index as int] == schema@);
        let at: usize = catalog.locate(schema.name.as_str())?;
        assert(catalog@.tables[at as int] == catalog.tables@[at as int]@);
        let table = &catalog.tables[at].table;
        if !same_columns(&table.columns, &schema.columns) || !has_indexes(table, &schema.indexed) {
            return Err(invalid("graph managed table schema or required scalar index changed"));
        }
        index = index + 1;
    }
    Ok(())
}

/// Whether every chunk, from `from` on, has the embedding profile.
pub open spec fn profiles_kept(rows: Seq<Seq<ValueView>>, key: Seq<char>, from: nat) -> Result<(), ErrorView>
    decreases rows.len() - from,
{
    if from >= rows.len() {
        Ok(())
    } else {
        match text_in(rows[from as int], 7) {
            Err(error) => Err(error),
            Ok(text) => if text != key {
                Err(misuse("stored chunks do not match the collection embedding profile"@))
            } else {
                profiles_kept(rows, key, from + 1)
            },
        }
    }
}

fn check_profiles(rows: &Vec<Vec<Value>>, key: &str) -> (result: Result<(), Error>)
    ensures
        plain(result) == profiles_kept(row_views(rows@), key@, 0),
{
    let mut index: usize = 0;
    while index < rows.len()
        invariant
            index <= rows@.len(),
            profiles_kept(row_views(rows@), key@, index as nat) == profiles_kept(row_views(rows@), key@, 0),
        decreases rows@.len() - index,
    {
        assert(row_views(rows@)[index as int] == views(rows@[index as int]@));
        let text = text_at(&rows[index], 7)?;
        if !same_text(text, key) {
            return Err(invalid("stored chunks do not match the collection embedding profile"));
        }
        index = index + 1;
    }
    Ok(())
}

pub open spec fn described_fields(fields: Seq<ColumnView>) -> Seq<DocumentColumnView> {
    fields.map_values(
        |field: ColumnView|
            DocumentColumnView {
                name: field.name,
                data_type: field.data_type.notation(),
                nullable: field.nullable,
                unique: field.unique,
            },
    )
}

fn describe_fields(columns: &Vec<Column>) -> (fields: Vec<GraphDocumentColumn>)
    requires
        columns@.len() >= DOCUMENT_BASE_COLUMNS,
    ensures
        views(fields@) == described_fields(views(columns@).skip(DOCUMENT_BASE_COLUMNS as int)),
{
    let mut fields: Vec<GraphDocumentColumn> = Vec::new();
    let ghost all = described_fields(views(columns@).skip(DOCUMENT_BASE_COLUMNS as int));
    let mut index: usize = DOCUMENT_BASE_COLUMNS;
    while index < columns.len()
        invariant
            DOCUMENT_BASE_COLUMNS <= index <= columns@.len(),
            all == described_fields(views(columns@).skip(DOCUMENT_BASE_COLUMNS as int)),
            views(fields@) == all.take(index - DOCUMENT_BASE_COLUMNS),
        decreases columns@.len() - index,
    {
        let column = &columns[index];
        let ghost place = index - DOCUMENT_BASE_COLUMNS;
        let field = GraphDocumentColumn {
            name: column.name.clone(),
            data_type: column.data_type.to_text(),
            nullable: column.nullable,
            unique: column.unique,
        };
        assert(all[place] == field@);
        fields.push(field);
        index = index + 1;
        assert(all.take(place + 1) =~= all.take(place).push(all[place]));
    }
    assert(all.take(all.len() as int) =~= all);
    fields
}

/// The counts and columns of a collection whose configuration has been read.
pub open spec fn collection_body(catalog: CatalogView, config: ConfigView, tables: TablesView) -> Result<CollectionView, ErrorView> {
    match config_checked(config) {
        Err(error) => Err(error),
        Ok(_) => match catalog.located(tables.documents) {
            Err(error) => Err(error),
            Ok(documents_at) => {
                let documents = catalog.tables[documents_at as int].table;
                if documents.columns.len() < DOCUMENT_BASE_COLUMNS {
                    Err(misuse("graph document schema is missing required columns"@))
                } else {
                    let fields = documents.columns.skip(DOCUMENT_BASE_COLUMNS as int);
                    match document_columns_checked(fields) {
                        Err(error) => Err(error),
                        Ok(_) => match schemas_kept(
                            catalog,
                            schemas_of(tables, config.profile.dimensions as usize, fields),
                            0,
                        ) {
                            Err(error) => Err(error),
                            Ok(_) => match catalog.located(tables.chunks) {
                                Err(error) => Err(error),
                                Ok(chunks_at) => match catalog.located(tables.edges) {
                                    Err(error) => Err(error),
                                    Ok(edges_at) => {
                                        let chunks = catalog.tables[chunks_at as int].table;
                                        let edges = catalog.tables[edges_at as int].table;
                                        if chunks.rows.len() > MAX_CHUNKS || edges.rows.len() > MAX_EDGES {
                                            Err(misuse("graph collection exceeds its supported capacity"@))
                                        } else {
                                            match profiles_kept(chunks.rows, profile_text(config.profile), 0) {
                                                Err(error) => Err(error),
                                                Ok(_) => Ok(
                                                    CollectionView {
                                                        config,
                                                        revision: catalog.revision,
                                                        document_count: documents.rows.len(),
                                                        chunk_count: chunks.rows.len(),
                                                        edge_count: edges.rows.len(),
                                                        tables,
                                                        document_columns: described_fields(fields),
                                                    },
                                                ),
                                            }
                                        }
                                    },
                                },
                            },
                        },
                    }
                }
            },
        },
    }
}

/// The collection of this name.
#[verifier::opaque]
pub open spec fn collection_of(catalog: CatalogView, name: Seq<char>) -> Result<CollectionView, ErrorView> {
    match named_collection(name) {
        Err(error) => Err(error),
        Ok(name) => {
            let tables = tables_of(name);
            match catalog.located(tables.config) {
                Err(error) => Err(error),
                Ok(at) => {
                    let table = catalog.tables[at as int].table;
                    if table.columns != config_columns() || table.rows.len() != 1 {
                        Err(misuse("graph configuration schema or singleton record changed"@))
                    } else {
                        match config_in(name, table.rows[0]) {
                            Err(error) => Err(error),
                            Ok(config) => collection_body(catalog, config, tables),
                        }
                    }
                },
            }
        },
    }
}

fn finish_collection(catalog: &Catalog, config: GraphCollectionConfig, tables: GraphTables) -> (result: Result<
    GraphCollection,
    Error,
>)
    ensures
        outcome(result) == collection_body(catalog@, config@, tables@),
{
    validate_config(&config)?;
    let documents_at: usize = catalog.locate(tables.documents.as_str())?;
    assert(catalog@.tables[documents_at as int] == catalog.tables@[documents_at as int]@);
    let columns = &catalog.tables[documents_at].table.columns;
    if columns.len() < DOCUMENT_BASE_COLUMNS {
        return Err(invalid("graph document schema is missing required columns"));
    }
    let fields = vstd::slice::slice_subrange(columns.as_slice(), DOCUMENT_BASE_COLUMNS, columns.len());
    assert(views(fields@) =~= views(columns@).skip(DOCUMENT_BASE_COLUMNS as int));
    validate_document_columns(fields)?;
    let schemas = schemas_with_columns(&tables, config.profile.dimensions, fields);
    check_schemas(catalog, &schemas)?;
    let chunks_at: usize = catalog.locate(tables.chunks.as_str())?;
    let edges_at: usize = catalog.locate(tables.edges.as_str())?;
    proof {
        assert(catalog@.tables[chunks_at as int] == catalog.tables@[chunks_at as int]@);
        assert(catalog@.tables[edges_at as int] == catalog.tables@[edges_at as int]@);
    }
    let chunks = &catalog.tables[chunks_at].table;
    let edges = &catalog.tables[edges_at].table;
    if chunks.rows.len() > MAX_CHUNKS || edges.rows.len() > MAX_EDGES {
        return Err(invalid("graph collection exceeds its supported capacity"));
    }
    let key = profile_key(&config.profile);
    check_profiles(&chunks.rows, key.as_str())?;
    Ok(
        GraphCollection {
            config,
            revision: catalog.revision,
            document_count: catalog.tables[documents_at].table.rows.len(),
            chunk_count: chunks.rows.len(),
            edge_count: edges.rows.len(),
            tables,
            document_columns: describe_fields(columns),
        },
    )
}

/// The collection of this name.
pub fn collection(catalog: &Catalog, name: &str) -> (result: Result<GraphCollection, Error>)
    ensures
        outcome(result) == collection_of(catalog@, name@),
{
    proof {
        reveal(collection_of);
    }
    let name = collection_name(name)?;
    let tables = table_names(name.as_str());
    let at: usize = catalog.locate(tables.config.as_str())?;
    assert(catalog@.tables[at as int] == catalog.tables@[at as int]@);
    let table = &catalog.tables[at].table;
    let columns = make_config_columns();
    if !same_columns(&table.columns, &columns) || table.rows.len() != 1 {
        return Err(invalid("graph configuration schema or singleton record changed"));
    }
    assert(table@.rows[0] == views(table.rows@[0]@));
    let config = read_config(name.as_str(), &table.rows[0])?;
    finish_collection(catalog, config, tables)
}

} // verus!
