//! Chunks with their citations, as browsing and exploring return them.

use vstd::prelude::*;
use crate::error::{outcome, Error, ErrorView};
use crate::graph::{count_in, json_at, object_in, text_at, text_in, usize_at, DOCUMENT_BASE_COLUMNS};
use crate::graph_document::{document_metadata, field_views, metadata_of, Metadata, MetadataView};
use crate::graph_search::{citation, cite, CitationView};
use crate::table::{Table, TableView};
use crate::text::views;
use crate::value::{Value, ValueView};

verus! {

/// A chunk with its citation.
pub struct GraphNode {
    pub chunk_id: String,
    pub document_id: String,
    pub title: String,
    pub source: String,
    pub text: String,
    pub metadata: Metadata,
    pub start_byte: usize,
    pub end_byte: usize,
    pub ordinal: usize,
}

pub struct NodeView {
    pub chunk_id: Seq<char>,
    pub document_id: Seq<char>,
    pub title: Seq<char>,
    pub source: Seq<char>,
    pub text: Seq<char>,
    pub metadata: MetadataView,
    pub start_byte: nat,
    pub end_byte: nat,
    pub ordinal: nat,
}

impl View for GraphNode {
    type V = NodeView;

    open spec fn view(&self) -> NodeView {
        NodeView {
            chunk_id: self.chunk_id@,
            document_id: self.document_id@,
            title: self.title@,
            source: self.source@,
            text: self.text@,
            metadata: self.metadata@,
            start_byte: self.start_byte as nat,
            end_byte: self.end_byte as nat,
            ordinal: self.ordinal as nat,
        }
    }
}

/// The node that a chunk is with its citation and the metadata of its document.
pub open spec fn cited_node(
    chunk: Seq<ValueView>,
    cited: CitationView,
    metadata: Result<MetadataView, ErrorView>,
) -> Result<NodeView, ErrorView> {
    match text_in(chunk, 0) {
        Err(error) => Err(error),
        Ok(chunk_id) => match text_in(cited.document, 1) {
            Err(error) => Err(error),
            Ok(title) => match text_in(cited.document, 2) {
                Err(error) => Err(error),
                Ok(source) => match metadata {
                    Err(error) => Err(error),
                    Ok(metadata) => match count_in(chunk, 2) {
                        Err(error) => Err(error),
                        Ok(ordinal) => Ok(
                            NodeView {
                                chunk_id,
                                document_id: cited.document_id,
                                title,
                                source,
                                text: cited.text,
                                metadata,
                                start_byte: cited.start,
                                end_byte: cited.end,
                                ordinal: ordinal as nat,
                            },
                        ),
                    },
                },
            },
        },
    }
}

/// The metadata of a document without its fields.
pub open spec fn bare_metadata(document: Seq<ValueView>) -> Result<MetadataView, ErrorView> {
    match object_in(document, 4) {
        Err(error) => Err(error),
        Ok(object) => Ok(MetadataView { object, fields: Seq::empty() }),
    }
}

/// The node that a chunk is; its metadata hold the fields of the document where asked for.
pub open spec fn node_of(chunk: Seq<ValueView>, documents: TableView, fields: bool) -> Result<NodeView, ErrorView> {
    match citation(chunk, documents) {
        Err(error) => Err(error),
        Ok(cited) => cited_node(
            chunk,
            cited,
            if fields {
                metadata_of(cited.document, documents.columns)
            } else {
                bare_metadata(cited.document)
            },
        ),
    }
}

fn read_metadata(document: &Vec<Value>, documents: &Table, fields: bool) -> (result: Result<Metadata, Error>)
    requires
        documents.columns@.len() >= DOCUMENT_BASE_COLUMNS,
    ensures
        outcome(result) == (if fields {
            metadata_of(views(document@), views(documents.columns@))
        } else {
            bare_metadata(views(document@))
        }),
{
    if fields {
        document_metadata(document, &documents.columns)
    } else {
        let object = json_at(document, 4)?;
        let none: Vec<(String, Value)> = Vec::new();
        assert(field_views(none@) =~= Seq::empty());
        Ok(Metadata { object, fields: none })
    }
}

pub fn node(chunk: &Vec<Value>, documents: &Table, fields: bool) -> (result: Result<GraphNode, Error>)
    requires
        documents.columns@.len() >= DOCUMENT_BASE_COLUMNS,
    ensures
        outcome(result) == node_of(views(chunk@), documents@, fields),
{
    let cited = cite(chunk, documents)?;
    let row = &documents.rows[cited.document];
    assert(documents@.rows[cited.document as int] == views(row@));
    let chunk_id = text_at(chunk, 0)?.to_owned();
    let title = text_at(row, 1)?.to_owned();
    let source = text_at(row, 2)?.to_owned();
    let metadata = read_metadata(row, documents, fields)?;
    let ordinal: usize = usize_at(chunk, 2)?;
    Ok(
        GraphNode {
            chunk_id,
            document_id: cited.document_id,
            title,
            source,
            text: cited.text,
            metadata,
            start_byte: cited.start,
            end_byte: cited.end,
            ordinal,
        },
    )
}

} // verus!
