//! Relationships between chunks, and the rows that hold them.

use vstd::prelude::*;
use crate::arithmetic::{between, is_between, ONE, ZERO};
use crate::error::{outcome, Error, ErrorView};
use crate::float::finite;
use crate::graph::{
    bounded_text, invalid, is_plain_name, misuse, number_at, number_in, plain_name, text_at, text_bounded, text_in,
};
use crate::index::{lemma_matching, matching};
use crate::table::{Table, TableView};
use crate::text::{byte_count, count_bytes, decimal_count, decimal_text, join3, lemma_views_push, same_text, views};
use crate::value::{row_views, UniqueKey, Value, ValueView};

verus! {

broadcast use {vstd::string::group_string_axioms, lemma_views_push};

/// A directed relationship. The weight is a number as a bit pattern.
#[derive(Debug)]
pub struct GraphEdge {
    pub from_chunk: String,
    pub to_chunk: String,
    pub kind: String,
    pub weight: u64,
}

pub struct EdgeView {
    pub from_chunk: Seq<char>,
    pub to_chunk: Seq<char>,
    pub kind: Seq<char>,
    pub weight: u64,
}

impl View for GraphEdge {
    type V = EdgeView;

    open spec fn view(&self) -> EdgeView {
        EdgeView { from_chunk: self.from_chunk@, to_chunk: self.to_chunk@, kind: self.kind@, weight: self.weight }
    }
}

impl GraphEdge {
    /// A copy of the relationship.
    pub fn copy(&self) -> (edge: GraphEdge)
        ensures
            edge@ == self@,
    {
        GraphEdge {
            from_chunk: self.from_chunk.clone(),
            to_chunk: self.to_chunk.clone(),
            kind: self.kind.clone(),
            weight: self.weight,
        }
    }
}

/// A relationship.
pub fn edge(from_chunk: &str, to_chunk: &str, kind: &str, weight: u64) -> (edge: GraphEdge)
    ensures
        edge@ == (EdgeView { from_chunk: from_chunk@, to_chunk: to_chunk@, kind: kind@, weight }),
{
    GraphEdge { from_chunk: from_chunk.to_owned(), to_chunk: to_chunk.to_owned(), kind: kind.to_owned(), weight }
}

/// The name of a relationship: its kind, the length of the first chunk's name, and both names.
pub open spec fn edge_name(edge: EdgeView) -> Seq<char> {
    edge.kind + ":"@ + decimal_text(byte_count(edge.from_chunk)) + ":"@ + edge.from_chunk + ":"@ + edge.to_chunk
}

/// The row of a relationship.
pub open spec fn row_of_edge(edge: EdgeView) -> Seq<ValueView> {
    seq![
        ValueView::Text(edge_name(edge)),
        ValueView::Text(edge.from_chunk),
        ValueView::Text(edge.to_chunk),
        ValueView::Text(edge.kind),
        ValueView::Float(edge.weight),
    ]
}

pub fn edge_row(edge: &GraphEdge) -> (row: Vec<Value>)
    ensures
        views(row@) == row_of_edge(edge@),
{
    let length = decimal_count(count_bytes(edge.from_chunk.as_str()));
    let head = join3(edge.kind.as_str(), ":", length.as_str());
    let middle = join3(head.as_str(), ":", edge.from_chunk.as_str());
    let name = join3(middle.as_str(), ":", edge.to_chunk.as_str());
    let row = vec![
        Value::Text(name),
        Value::Text(edge.from_chunk.clone()),
        Value::Text(edge.to_chunk.clone()),
        Value::Text(edge.kind.clone()),
        Value::Float(edge.weight),
    ];
    assert(views(row@) =~= row_of_edge(edge@));
    row
}

/// Whether a relationship can be: one of a plain kind, of a weight up to one, between two chunks.
pub open spec fn edge_checked(edge: EdgeView) -> Result<EdgeView, ErrorView> {
    if !plain_name(edge.kind, 64) || !between(edge.weight, ZERO, ONE) || edge.from_chunk == edge.to_chunk {
        Err(misuse("graph edge kind, weight, or endpoints are invalid"@))
    } else {
        match text_bounded(edge.from_chunk, 1024, false, "relationship source"@) {
            Err(error) => Err(error),
            Ok(_) => match text_bounded(edge.to_chunk, 1024, false, "relationship target"@) {
                Err(error) => Err(error),
                Ok(_) => Ok(edge),
            },
        }
    }
}

pub fn check_edge(edge: GraphEdge) -> (result: Result<GraphEdge, Error>)
    ensures
        outcome(result) == edge_checked(edge@),
{
    if !is_plain_name(edge.kind.as_str(), 64) || !is_between(edge.weight, ZERO, ONE) || same_text(
        edge.from_chunk.as_str(),
        edge.to_chunk.as_str(),
    ) {
        return Err(invalid("graph edge kind, weight, or endpoints are invalid"));
    }
    bounded_text(edge.from_chunk.as_str(), 1024, false, "relationship source")?;
    bounded_text(edge.to_chunk.as_str(), 1024, false, "relationship target")?;
    Ok(edge)
}

/// The relationship that a row holds.
pub open spec fn edge_in(row: Seq<ValueView>) -> Result<EdgeView, ErrorView> {
    match text_in(row, 1) {
        Err(error) => Err(error),
        Ok(from_chunk) => match text_in(row, 2) {
            Err(error) => Err(error),
            Ok(to_chunk) => match text_in(row, 3) {
                Err(error) => Err(error),
                Ok(kind) => match number_in(row, 4) {
                    Err(error) => Err(error),
                    Ok(weight) => edge_checked(EdgeView { from_chunk, to_chunk, kind, weight }),
                },
            },
        },
    }
}

pub fn read_edge(row: &Vec<Value>) -> (result: Result<GraphEdge, Error>)
    ensures
        outcome(result) == edge_in(views(row@)),
{
    let from_chunk = text_at(row, 1)?;
    let to_chunk = text_at(row, 2)?;
    let kind = text_at(row, 3)?;
    let weight: u64 = number_at(row, 4)?;
    check_edge(edge(from_chunk, to_chunk, kind, weight))
}

/// A relationship that can be is the one that its row holds.
pub proof fn law_edge_row(edge: EdgeView)
    requires
        edge_checked(edge) is Ok,
    ensures
        edge_in(row_of_edge(edge)) == Ok::<EdgeView, ErrorView>(edge),
{
    assert(finite(edge.weight));
}

/// The rows of the table whose text in a column is this one, by the index on the column.
pub open spec fn linked_rows(table: TableView, column: nat, id: Seq<char>) -> Seq<usize> {
    matching(table.rows, column as int, ValueView::Text(id), table.rows.len())
}

/// The rows whose text in a column is this one.
pub fn rows_linked(table: &Table, index: usize, column: usize, id: &str) -> (rows: Vec<usize>)
    requires
        table.wf(),
        index < table.indexes@.len(),
        table.indexes@[index as int].index.column == column,
    ensures
        rows@ == linked_rows(table@, column as nat, id@),
        forall|i: int| 0 <= i < rows@.len() ==> (#[trigger] rows@[i]) < table.rows@.len(),
{
    let key = UniqueKey::Text(id.to_owned());
    let rows = table.indexes[index].index.lookup(&key);
    proof {
        assert(table.indexes@[index as int].index.covers(table@.rows, table.rows@.len()));
        assert(rows@ == matching(table@.rows, column as int, key@, table.rows@.len()));
        lemma_small(table);
        lemma_matching(table@.rows, column as int, key@, table.rows@.len());
    }
    rows
}

pub proof fn lemma_small(table: &Table)
    ensures
        table@.rows.len() <= usize::MAX,
{
    assert(table@.rows.len() == table.rows@.len());
    assert(table.rows@.len() <= usize::MAX) by {
        let total: usize = table.rows.len();
        assert(total == table.rows@.len());
    }
}

/// The first row, from `from` on, whose text in the first column is this one.
pub open spec fn row_named(rows: Seq<Seq<ValueView>>, id: Seq<char>, from: nat) -> Option<nat>
    decreases rows.len() - from,
{
    if from >= rows.len() {
        None
    } else if text_in(rows[from as int], 0) == Ok::<Seq<char>, ErrorView>(id) {
        Some(from)
    } else {
        row_named(rows, id, from + 1)
    }
}

pub fn find_row(rows: &Vec<Vec<Value>>, id: &str) -> (result: Option<usize>)
    ensures
        match result {
            Some(at) => row_named(row_views(rows@), id@, 0) == Some(at as nat) && at < rows@.len(),
            None => row_named(row_views(rows@), id@, 0) is None,
        },
{
    let mut at: usize = 0;
    while at < rows.len()
        invariant
            at <= rows@.len(),
            row_named(row_views(rows@), id@, at as nat) == row_named(row_views(rows@), id@, 0),
        decreases rows@.len() - at,
    {
        assert(row_views(rows@)[at as int] == views(rows@[at as int]@));
        if let Ok(text) = text_at(&rows[at], 0) {
            if same_text(text, id) {
                return Some(at);
            }
        }
        at = at + 1;
    }
    None
}

/// The rows, below `count`, whose text in a column is this one.
pub fn rows_with_text(rows: &Vec<Vec<Value>>, column: usize, id: &str) -> (result: Vec<usize>)
    requires
        forall|i: int| 0 <= i < rows@.len() ==> (#[trigger] row_views(rows@)[i]).len() > column,
    ensures
        result@ == matching(row_views(rows@), column as int, ValueView::Text(id@), rows@.len()),
        result@.len() <= rows@.len(),
        forall|i: int| 0 <= i < result@.len() ==> (#[trigger] result@[i]) < rows@.len(),
{
    let mut result: Vec<usize> = Vec::new();
    let mut at: usize = 0;
    while at < rows.len()
        invariant
            forall|i: int| 0 <= i < rows@.len() ==> (#[trigger] row_views(rows@)[i]).len() > column,
            at <= rows@.len(),
            result@ == matching(row_views(rows@), column as int, ValueView::Text(id@), at as nat),
            result@.len() <= at,
            forall|i: int| 0 <= i < result@.len() ==> (#[trigger] result@[i]) < at,
        decreases rows@.len() - at,
    {
        proof {
            assert(row_views(rows@)[at as int] == views(rows@[at as int]@));
            assert(row_views(rows@)[at as int].len() > column);
            assert(row_views(rows@)[at as int][column as int] == rows@[at as int]@[column as int]@);
        }
        if let Value::Text(text) = &rows[at][column] {
            if same_text(text.as_str(), id) {
                result.push(at);
            }
        }
        at = at + 1;
    }
    result
}

} // verus!
