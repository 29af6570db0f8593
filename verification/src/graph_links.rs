//! The stored relationships of a collection, as exploring walks them.

use vstd::prelude::*;
use crate::arithmetic::{between, is_between, maximum, maximum_of, ONE, ZERO};
use crate::error::{plain, Error, ErrorView};
use crate::float::{
    at_least, computes, finite, floats, is_at_least, is_finite, rank_total, total_key, FloatReply, FloatTask, Floats,
};
use crate::graph::{invalid, misuse};
use crate::graph_edge::{check_edge, edge, edge_checked, linked_rows, rows_linked, EdgeView, GraphEdge};
use crate::order::{sort_positions, sorted, Precedes};
use crate::table::Table;
use crate::text::{int_rank, next_rank, same_text, views, Rank};
use crate::value::{compare_sort_values, row_views, sort_rank, Value, ValueView};

verus! {

broadcast use vstd::string::group_string_axioms;

/// Along which arrows exploring goes.
#[derive(Clone, Copy, Debug, PartialEq, Eq, Structural)]
pub enum GraphNeighborhoodDirection {
    Outgoing,
    Incoming,
    Both,
}

impl Default for GraphNeighborhoodDirection {
    fn default() -> (direction: GraphNeighborhoodDirection)
        ensures
            direction == GraphNeighborhoodDirection::Both,
    {
        GraphNeighborhoodDirection::Both
    }
}

/// Whether the label is one that a stored relationship can have.
pub open spec fn kind_checked(kind: Option<Seq<char>>) -> Result<(), ErrorView> {
    match kind {
        None => Ok(()),
        Some(kind) => match edge_checked(
            EdgeView { from_chunk: "source"@, to_chunk: "target"@, kind, weight: ONE },
        ) {
            Err(error) => Err(error),
            Ok(_) => Ok(()),
        },
    }
}

pub open spec fn optional_text(text: Option<String>) -> Option<Seq<char>> {
    match text {
        None => None,
        Some(text) => Some(text@),
    }
}

pub fn check_kind(kind: &Option<String>) -> (result: Result<(), Error>)
    ensures
        plain(result) == kind_checked(optional_text(*kind)),
{
    if let Some(kind) = kind {
        check_edge(edge("source", "target", kind.as_str(), ONE))?;
    }
    Ok(())
}

/// Whether exploring follows a relationship: one of this kind, where one is asked for, and at least
/// as heavy as asked.
pub open spec fn included(kind: Option<Seq<char>>, min_weight: u64, edge: EdgeView) -> bool {
    (kind matches Some(kind) ==> kind == edge.kind) && at_least(edge.weight, min_weight)
}

pub fn is_included(kind: &Option<String>, min_weight: u64, edge: &GraphEdge) -> (result: bool)
    ensures
        result == included(optional_text(*kind), min_weight, edge@),
{
    let labelled = match kind {
        None => true,
        Some(kind) => same_text(kind.as_str(), edge.kind.as_str()),
    };
    labelled && is_at_least(edge.weight, min_weight)
}

/// Which relationships retrieval follows. The least weight is a number as a bit pattern.
#[derive(Debug)]
pub struct GraphRagTraversal {
    pub direction: GraphNeighborhoodDirection,
    pub kind: Option<String>,
    pub min_weight: u64,
}

pub struct PolicyView {
    pub direction: GraphNeighborhoodDirection,
    pub kind: Option<Seq<char>>,
    pub min_weight: u64,
}

impl View for GraphRagTraversal {
    type V = PolicyView;

    open spec fn view(&self) -> PolicyView {
        PolicyView { direction: self.direction, kind: optional_text(self.kind), min_weight: self.min_weight }
    }
}

impl Default for GraphRagTraversal {
    fn default() -> (policy: GraphRagTraversal)
        ensures
            policy@ == (PolicyView { direction: GraphNeighborhoodDirection::Outgoing, kind: None, min_weight: ZERO }),
    {
        GraphRagTraversal { direction: GraphNeighborhoodDirection::Outgoing, kind: None, min_weight: ZERO }
    }
}

impl PolicyView {
    pub open spec fn checked(self) -> Result<(), ErrorView> {
        if !finite(self.min_weight) || !between(self.min_weight, ZERO, ONE) {
            Err(misuse("RAG minimum relationship weight must be finite and in 0..1"@))
        } else {
            kind_checked(self.kind)
        }
    }

    /// Whether retrieval follows a relationship.
    pub open spec fn includes(self, edge: EdgeView) -> bool {
        included(self.kind, self.min_weight, edge)
    }
}

impl GraphRagTraversal {
    /// Fails exactly where the weight is no number from 0 to 1 or the kind is no label.
    pub fn validate(&self) -> (result: Result<(), Error>)
        ensures
            plain(result) == self@.checked(),
    {
        if !is_finite(self.min_weight) || !is_between(self.min_weight, ZERO, ONE) {
            return Err(invalid("RAG minimum relationship weight must be finite and in 0..1"));
        }
        check_kind(&self.kind)
    }

    pub fn includes(&self, edge: &GraphEdge) -> (result: bool)
        ensures
            result == self@.includes(edge@),
    {
        is_included(&self.kind, self.min_weight, edge)
    }
}

/// The value in a column; `NULL` where there is none.
pub open spec fn value_or_null(row: Seq<ValueView>, column: nat) -> ValueView {
    if column < row.len() {
        row[column as int]
    } else {
        ValueView::Null
    }
}

/// The order of two rows by a column.
pub open spec fn column_rank(left: Seq<ValueView>, right: Seq<ValueView>, column: nat, floats: Floats) -> Rank {
    sort_rank(floats, value_or_null(left, column), value_or_null(right, column))
}

pub fn rank_column<F: Fn(FloatTask) -> FloatReply>(f: &F, left: &Vec<Value>, right: &Vec<Value>, column: usize) -> (rank: Rank)
    requires
        computes(*f),
    ensures
        rank == column_rank(views(left@), views(right@), column as nat, floats(*f)),
{
    let none = Value::Null;
    if column < left.len() {
        assert(views(left@)[column as int] == left@[column as int]@);
        if column < right.len() {
            assert(views(right@)[column as int] == right@[column as int]@);
            compare_sort_values(f, &left[column], &right[column])
        } else {
            compare_sort_values(f, &left[column], &none)
        }
    } else if column < right.len() {
        assert(views(right@)[column as int] == right@[column as int]@);
        compare_sort_values(f, &none, &right[column])
    } else {
        compare_sort_values(f, &none, &none)
    }
}

/// The order of two rows by their first column.
pub open spec fn id_rank(rows: Seq<Seq<ValueView>>, left: usize, right: usize, floats: Floats) -> Rank {
    column_rank(rows[left as int], rows[right as int], 0, floats)
}

pub fn rank_ids<F: Fn(FloatTask) -> FloatReply>(f: &F, rows: &Vec<Vec<Value>>, left: usize, right: usize) -> (rank: Rank)
    requires
        computes(*f),
        left < rows@.len(),
        right < rows@.len(),
    ensures
        rank == id_rank(row_views(rows@), left, right, floats(*f)),
{
    assert(row_views(rows@)[left as int] == views(rows@[left as int]@));
    assert(row_views(rows@)[right as int] == views(rows@[right as int]@));
    rank_column(f, &rows[left], &rows[right], 0)
}

/// The tables that exploring reads, with the indexes on the two ends of relationships.
pub struct GraphLinks<'a> {
    pub chunks: &'a Table,
    pub edges: &'a Table,
    pub outgoing: usize,
    pub incoming: usize,
}

impl<'a> GraphLinks<'a> {
    pub open spec fn wf(self) -> bool {
        &&& self.edges.wf()
        &&& self.outgoing < self.edges.indexes@.len()
        &&& self.edges.indexes@[self.outgoing as int].index.column == 1
        &&& self.incoming < self.edges.indexes@.len()
        &&& self.edges.indexes@[self.incoming as int].index.column == 2
    }

    /// The relationships that start at a chunk, as rows.
    pub fn leaving(&self, id: &str) -> (rows: Vec<usize>)
        requires
            self.wf(),
        ensures
            rows@ == linked_rows(self.edges@, 1, id@),
            forall|i: int| 0 <= i < rows@.len() ==> (#[trigger] rows@[i]) < self.edges.rows@.len(),
    {
        rows_linked(self.edges, self.outgoing, 1, id)
    }

    /// The relationships that end at a chunk, as rows.
    pub fn arriving(&self, id: &str) -> (rows: Vec<usize>)
        requires
            self.wf(),
        ensures
            rows@ == linked_rows(self.edges@, 2, id@),
            forall|i: int| 0 <= i < rows@.len() ==> (#[trigger] rows@[i]) < self.edges.rows@.len(),
    {
        rows_linked(self.edges, self.incoming, 2, id)
    }
}

/// A row with a weight, a number as a bit pattern.
#[derive(Clone, Copy, Debug)]
pub struct Weighted {
    pub row: usize,
    pub weight: u64,
}

/// The first place, from `from` on, at which the row stands.
pub open spec fn weighted_at(list: Seq<Weighted>, row: usize, from: nat) -> Option<nat>
    decreases list.len() - from,
{
    if from >= list.len() {
        None
    } else if list[from as int].row == row {
        Some(from)
    } else {
        weighted_at(list, row, from + 1)
    }
}

/// The list with a row: at the larger of two weights where it is there already, else at the end.
pub open spec fn coalesced(list: Seq<Weighted>, row: usize, weight: u64) -> Seq<Weighted> {
    match weighted_at(list, row, 0) {
        Some(at) => list.update(
            at as int,
            Weighted { row: list[at as int].row, weight: maximum(list[at as int].weight, weight) },
        ),
        None => list.push(Weighted { row, weight }),
    }
}

/// Every row of the list is below `count`.
pub open spec fn rows_below(list: Seq<Weighted>, count: nat) -> bool {
    forall|i: int| 0 <= i < list.len() ==> (#[trigger] list[i]).row < count
}

pub(crate) fn coalesce(list: &mut Vec<Weighted>, row: usize, weight: u64, Ghost(count): Ghost<nat>)
    requires
        rows_below(old(list)@, count),
        row < count,
    ensures
        final(list)@ == coalesced(old(list)@, row, weight),
        rows_below(final(list)@, count),
        final(list)@.len() <= old(list)@.len() + 1,
{
    let mut at: usize = 0;
    while at < list.len()
        invariant
            at <= list@.len(),
            list@ == old(list)@,
            rows_below(list@, count),
            row < count,
            weighted_at(list@, row, at as nat) == weighted_at(list@, row, 0),
        decreases list@.len() - at,
    {
        if list[at].row == row {
            let larger: u64 = maximum_of(list[at].weight, weight);
            list.set(at, Weighted { row, weight: larger });
            return;
        }
        at = at + 1;
    }
    list.push(Weighted { row, weight });
}

/// The order of weighted rows: the heavier first, then by identifier.
pub open spec fn weighted_rank(rows: Seq<Seq<ValueView>>, left: Weighted, right: Weighted, floats: Floats) -> Rank {
    next_rank(
        int_rank(total_key(right.weight), total_key(left.weight)),
        id_rank(rows, left.row, right.row, floats),
    )
}

pub open spec fn weighted_order(rows: Seq<Seq<ValueView>>, list: Seq<Weighted>, floats: Floats) -> Precedes {
    |a: usize, b: usize| weighted_rank(rows, list[a as int], list[b as int], floats) == Rank::Before
}

pub open spec fn weighted_sorted(rows: Seq<Seq<ValueView>>, list: Seq<Weighted>, floats: Floats) -> Seq<Weighted> {
    sorted(list.len() as usize, weighted_order(rows, list, floats)).map_values(|at: usize| list[at as int])
}

/// Sorts weighted rows, the heaviest first.
pub fn rank_weighted<F: Fn(FloatTask) -> FloatReply>(f: &F, rows: &Vec<Vec<Value>>, list: &Vec<Weighted>) -> (result: Vec<Weighted>)
    requires
        computes(*f),
        rows_below(list@, rows@.len()),
    ensures
        result@ == weighted_sorted(row_views(rows@), list@, floats(*f)),
        rows_below(result@, rows@.len()),
        result@.len() == list@.len(),
{
    let ghost results = floats(*f);
    let ghost before = weighted_order(row_views(rows@), list@, results);
    let precedes = |a: usize, b: usize| -> (result: bool)
        requires
            a < list@.len(),
            b < list@.len(),
        ensures
            result == before(a, b),
        {
            assert(list@[a as int].row < rows@.len() && list@[b as int].row < rows@.len());
            match rank_total(list[b].weight, list[a].weight) {
                Rank::Before => true,
                Rank::After => false,
                Rank::Same => match rank_ids(f, rows, list[a].row, list[b].row) {
                    Rank::Before => true,
                    _ => false,
                },
            }
        };
    let order = sort_positions(list.len(), &precedes, Ghost(before));
    let mut result: Vec<Weighted> = Vec::new();
    let mut index: usize = 0;
    while index < order.len()
        invariant
            index <= order@.len(),
            rows_below(list@, rows@.len()),
            rows_below(result@, rows@.len()),
            forall|i: int| 0 <= i < order@.len() ==> (#[trigger] order@[i]) < list@.len(),
            result@.len() == index,
            forall|i: int| 0 <= i < index ==> (#[trigger] result@[i]) == list@[order@[i] as int],
        decreases order@.len() - index,
    {
        result.push(list[order[index]]);
        index = index + 1;
    }
    assert(result@ =~= weighted_sorted(row_views(rows@), list@, results));
    result
}

pub fn has_row(rows: &Vec<usize>, row: usize) -> (result: bool)
    ensures
        result == rows@.contains(row),
{
    let mut index: usize = 0;
    while index < rows.len()
        invariant
            index <= rows@.len(),
            forall|i: int| 0 <= i < index ==> rows@[i] != row,
        decreases rows@.len() - index,
    {
        if rows[index] == row {
            assert(rows@[index as int] == row);
            return true;
        }
        index = index + 1;
    }
    false
}

} // verus!
