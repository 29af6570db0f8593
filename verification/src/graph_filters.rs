//! Which chunks filters on the fields of documents leave.

use vstd::prelude::*;
use crate::ast::{BinaryOperator, BinaryView, Expr, ExprView};
use crate::error::{outcome, Error, ErrorView};
use crate::eval::{evaluate, evaluated, EvalContext, ScopeView};
use crate::float::{computes, floats, FloatReply, FloatTask, Floats};
use crate::graph::{invalid, misuse, text_at, text_in};
use crate::graph_browse::has_id;
use crate::graph_edge::lemma_small;
use crate::graph_neighborhood::all_below;
use crate::read::all_positions;
use crate::scan::{index_candidates, indexed_candidate_rows, lemma_candidates_valid};
use crate::slice::has_char;
use crate::table::{lemma_valid_width, Table, TableView};
use crate::text::{byte_count, count_bytes, lemma_views_push, views};
use crate::value::{Value, ValueView};

verus! {

broadcast use {vstd::string::group_string_axioms, lemma_views_push};

pub const MAX_DOCUMENT_FILTERS: usize = 32;

/// A filter: the value that a field is held against, and the condition that it makes on the columns
/// of documents.
pub struct DocumentFilter {
    pub value: Value,
    pub condition: Result<Expr, Error>,
}

pub struct FilterView {
    pub value: ValueView,
    pub condition: Result<ExprView, ErrorView>,
}

impl View for DocumentFilter {
    type V = FilterView;

    open spec fn view(&self) -> FilterView {
        FilterView { value: self.value@, condition: outcome(self.condition) }
    }
}

/// Whether the value of a filter is a text that no filter may have.
pub open spec fn unfit(value: ValueView) -> bool {
    value matches ValueView::Text(text) && (byte_count(text) > 65536 || text.contains('\0'))
}

/// The conditions of the filters from `from` on, all of them to hold with `done`.
pub open spec fn conjoined(filters: Seq<FilterView>, from: nat, done: Option<ExprView>) -> Result<Option<ExprView>, ErrorView>
    decreases filters.len() - from,
{
    if from >= filters.len() {
        Ok(done)
    } else if unfit(filters[from as int].value) {
        Err(misuse("document filter text must contain at most 65536 bytes and no NUL"@))
    } else {
        match filters[from as int].condition {
            Err(error) => Err(error),
            Ok(condition) => conjoined(
                filters,
                from + 1,
                match done {
                    None => Some(condition),
                    Some(left) => Some(ExprView::BinaryOp(Box::new(left), BinaryView::And, Box::new(condition))),
                },
            ),
        }
    }
}

/// The condition that the filters make together; none where there are none.
pub open spec fn filter_condition(filters: Seq<FilterView>) -> Result<Option<ExprView>, ErrorView> {
    if filters.len() > MAX_DOCUMENT_FILTERS {
        Err(misuse("RAG accepts at most 32 document filters"@))
    } else {
        conjoined(filters, 0, None)
    }
}

pub open spec fn condition_view(condition: Option<Expr>) -> Option<ExprView> {
    match condition {
        None => None,
        Some(condition) => Some(condition@),
    }
}

fn is_unfit(value: &Value) -> (result: bool)
    ensures
        result == unfit(value@),
{
    match value {
        Value::Text(text) => count_bytes(text.as_str()) > 65536 || has_char(text.as_str(), '\0'),
        _ => false,
    }
}

/// The condition that the filters make together.
pub fn predicate(filters: Vec<DocumentFilter>) -> (result: Result<Option<Expr>, Error>)
    ensures
        match result {
            Ok(condition) => filter_condition(views(filters@)) == Ok::<Option<ExprView>, ErrorView>(
                condition_view(condition),
            ),
            Err(error) => filter_condition(views(filters@)) == Err::<Option<ExprView>, ErrorView>(error@),
        },
{
    if filters.len() > MAX_DOCUMENT_FILTERS {
        assert(views(filters@).len() == filters@.len());
        return Err(invalid("RAG accepts at most 32 document filters"));
    }
    let ghost all = views(filters@);
    let mut rest = filters;
    let mut selection: Option<Expr> = None;
    let ghost mut from: nat = 0;
    assert(all.skip(0) =~= all);
    while rest.len() > 0
        invariant
            from <= all.len(),
            views(rest@) == all.skip(from as int),
            conjoined(all, from, condition_view(selection)) == conjoined(all, 0, None),
            all.len() <= MAX_DOCUMENT_FILTERS,
            all == views(filters@),
        decreases rest@.len(),
    {
        let ghost before = views(rest@);
        let filter = rest.remove(0);
        proof {
            assert(before.len() == rest@.len() + 1);
            assert(before[0] == filter@);
            assert(all.skip(from as int).len() == all.len() - from);
            assert(all.skip(from as int)[0] == all[from as int]);
            assert forall|i: int| 0 <= i < rest@.len() implies (#[trigger] views(rest@)[i]) == all.skip(from as int + 1)[i] by {
                assert(views(rest@)[i] == before[i + 1]);
            }
            assert(views(rest@) =~= all.skip(from as int + 1));
        }
        if is_unfit(&filter.value) {
            return Err(invalid("document filter text must contain at most 65536 bytes and no NUL"));
        }
        let condition = match filter.condition {
            Err(error) => return Err(error),
            Ok(condition) => condition,
        };
        selection = match selection {
            None => Some(condition),
            Some(left) => Some(Expr::BinaryOp(Box::new(left), BinaryOperator::And, Box::new(condition))),
        };
        proof {
            from = from + 1;
        }
    }
    Ok(selection)
}

/// Whether a document meets a condition.
pub open spec fn meets(documents: TableView, condition: ExprView, row: Seq<ValueView>, floats: Floats) -> Result<bool, ErrorView> {
    match evaluated(condition, ScopeView::plain(documents.columns, row), floats) {
        Err(error) => Err(error),
        Ok(value) => match value.as_bool() {
            Err(error) => Err(error),
            Ok(truth) => Ok(truth == Some(true)),
        },
    }
}

/// The documents at the positions from `from` on that meet a condition, after `done`.
pub open spec fn allowed_from(
    documents: TableView,
    condition: ExprView,
    positions: Seq<usize>,
    floats: Floats,
    from: nat,
    done: Seq<Seq<char>>,
) -> Result<Seq<Seq<char>>, ErrorView>
    decreases positions.len() - from,
{
    if from >= positions.len() {
        Ok(done)
    } else {
        let row = documents.rows[positions[from as int] as int];
        match meets(documents, condition, row, floats) {
            Err(error) => Err(error),
            Ok(false) => allowed_from(documents, condition, positions, floats, from + 1, done),
            Ok(true) => match text_in(row, 0) {
                Err(error) => Err(error),
                Ok(id) => allowed_from(documents, condition, positions, floats, from + 1, done.push(id)),
            },
        }
    }
}

/// Whether each chunk from `from` on is of one of the documents, after `done`.
pub open spec fn marked_from(chunks: TableView, allowed: Seq<Seq<char>>, from: nat, done: Seq<bool>) -> Result<Seq<bool>, ErrorView>
    decreases chunks.rows.len() - from,
{
    if from >= chunks.rows.len() {
        Ok(done)
    } else {
        match text_in(chunks.rows[from as int], 1) {
            Err(error) => Err(error),
            Ok(id) => marked_from(chunks, allowed, from + 1, done.push(allowed.contains(id))),
        }
    }
}

/// The documents that a condition is to be tried on: those that the indexes leave, or all.
pub open spec fn tried(documents: TableView, condition: ExprView, floats: Floats) -> Seq<usize> {
    match index_candidates(documents, condition, floats) {
        Some(candidates) => candidates.rows,
        None => all_positions(documents.rows.len()),
    }
}

/// Which chunks a condition on their documents leaves; none where there is no condition.
pub open spec fn eligible(documents: TableView, chunks: TableView, condition: Option<ExprView>, floats: Floats) -> Result<
    Option<Seq<bool>>,
    ErrorView,
> {
    match condition {
        None => Ok(None),
        Some(condition) => match allowed_from(
            documents,
            condition,
            tried(documents, condition, floats),
            floats,
            0,
            Seq::empty(),
        ) {
            Err(error) => Err(error),
            Ok(allowed) => if allowed.len() == 0 {
                Ok(Some(Seq::new(chunks.rows.len(), |i: int| false)))
            } else {
                match marked_from(chunks, allowed, 0, Seq::empty()) {
                    Err(error) => Err(error),
                    Ok(marks) => Ok(Some(marks)),
                }
            },
        },
    }
}

fn find_allowed<F: Fn(FloatTask) -> FloatReply>(f: &F, documents: &Table, condition: &Expr, positions: &Vec<usize>) -> (result: Result<
    Vec<String>,
    Error,
>)
    requires
        computes(*f),
        documents.wf(),
        all_below(positions@, documents.rows@.len()),
    ensures
        match result {
            Ok(allowed) => allowed_from(documents@, condition@, positions@, floats(*f), 0, Seq::empty()) == Ok::<
                Seq<Seq<char>>,
                ErrorView,
            >(views(allowed@)),
            Err(error) => allowed_from(documents@, condition@, positions@, floats(*f), 0, Seq::empty()) == Err::<
                Seq<Seq<char>>,
                ErrorView,
            >(error@),
        },
{
    let mut allowed: Vec<String> = Vec::new();
    assert(views(allowed@) =~= Seq::<Seq<char>>::empty());
    let mut at: usize = 0;
    while at < positions.len()
        invariant
            computes(*f),
            documents.wf(),
            all_below(positions@, documents.rows@.len()),
            at <= positions@.len(),
            allowed_from(documents@, condition@, positions@, floats(*f), at as nat, views(allowed@)) == allowed_from(
                documents@,
                condition@,
                positions@,
                floats(*f),
                0,
                Seq::empty(),
            ),
        decreases positions@.len() - at,
    {
        assert(positions@[at as int] < documents.rows@.len());
        let row = &documents.rows[positions[at]];
        proof {
            assert(documents@.rows[positions@[at as int] as int] == views(row@));
            lemma_valid_width(documents@);
        }
        let context = EvalContext::new(&documents.columns, row);
        let value = evaluate(f, condition, &context)?;
        if let Some(true) = value.as_bool()? {
            allowed.push(text_at(row, 0)?.to_owned());
        }
        at = at + 1;
    }
    Ok(allowed)
}

fn mark_chunks(chunks: &Table, allowed: &Vec<String>) -> (result: Result<Vec<bool>, Error>)
    ensures
        match result {
            Ok(marks) => marked_from(chunks@, views(allowed@), 0, Seq::empty()) == Ok::<Seq<bool>, ErrorView>(marks@),
            Err(error) => marked_from(chunks@, views(allowed@), 0, Seq::empty()) == Err::<Seq<bool>, ErrorView>(error@),
        },
{
    let mut marks: Vec<bool> = Vec::new();
    let mut at: usize = 0;
    while at < chunks.rows.len()
        invariant
            at <= chunks.rows@.len(),
            marked_from(chunks@, views(allowed@), at as nat, marks@) == marked_from(
                chunks@,
                views(allowed@),
                0,
                Seq::empty(),
            ),
        decreases chunks.rows@.len() - at,
    {
        assert(chunks@.rows[at as int] == views(chunks.rows@[at as int]@));
        let id = text_at(&chunks.rows[at], 1)?;
        marks.push(has_id(allowed, id));
        at = at + 1;
    }
    Ok(marks)
}

/// Which chunks a condition on their documents leaves.
pub fn eligible_chunks<F: Fn(FloatTask) -> FloatReply>(f: &F, documents: &Table, chunks: &Table, condition: &Option<Expr>) -> (result: Result<
    Option<Vec<bool>>,
    Error,
>)
    requires
        computes(*f),
        documents.wf(),
    ensures
        match result {
            Ok(None) => eligible(documents@, chunks@, condition_view(*condition), floats(*f)) == Ok::<
                Option<Seq<bool>>,
                ErrorView,
            >(None),
            Ok(Some(marks)) => eligible(documents@, chunks@, condition_view(*condition), floats(*f)) == Ok::<
                Option<Seq<bool>>,
                ErrorView,
            >(Some(marks@)),
            Err(error) => eligible(documents@, chunks@, condition_view(*condition), floats(*f)) == Err::<
                Option<Seq<bool>>,
                ErrorView,
            >(error@),
        },
{
    let condition = match condition {
        None => return Ok(None),
        Some(condition) => condition,
    };
    proof {
        lemma_small(documents);
        lemma_candidates_valid(documents@, condition@, floats(*f));
    }
    let positions = match indexed_candidate_rows(f, documents, condition) {
        Some(candidates) => candidates.rows,
        None => {
            let total: usize = documents.rows.len();
            let mut positions: Vec<usize> = Vec::new();
            while positions.len() < total
                invariant
                    positions@.len() <= total,
                    forall|i: int| 0 <= i < positions@.len() ==> (#[trigger] positions@[i]) == i,
                decreases total - positions@.len(),
            {
                let at: usize = positions.len();
                positions.push(at);
            }
            assert(positions@ =~= all_positions(documents@.rows.len()));
            positions
        },
    };
    let allowed = find_allowed(f, documents, condition, &positions)?;
    assert(views(allowed@).len() == allowed@.len());
    if allowed.len() == 0 {
        let total: usize = chunks.rows.len();
        let mut marks: Vec<bool> = Vec::new();
        while marks.len() < total
            invariant
                marks@.len() <= total,
                forall|i: int| 0 <= i < marks@.len() ==> !(#[trigger] marks@[i]),
            decreases total - marks@.len(),
        {
            marks.push(false);
        }
        assert(marks@ =~= Seq::new(chunks@.rows.len(), |i: int| false));
        return Ok(Some(marks));
    }
    Ok(Some(mark_chunks(chunks, &allowed)?))
}

} // verus!
