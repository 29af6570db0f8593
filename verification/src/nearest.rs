//! Queries that order one table by the distance of a vector column from a constant.

use vstd::prelude::*;
use crate::aggregate::{picked_rows, rows_of_width, valid_positions};
use crate::ast::{same_expr, Distinct, Expr, ExprView, OrderItem, OrderView};
use crate::candidate::{
    keyed, order_candidates, ordered, retained, retained_rows, rows_result, take_window, values_of, window, Candidate,
    CandidateView,
};
use crate::error::{Error, ErrorView};
use crate::eval::{borrowed, is_selected, selects, EvalContext, ScopeView};
use crate::float::{computes, floats, scored, FloatReply, FloatTask, Floats};
use crate::projection::{
    find_order_alias, matched_distance, order_output, plain_column, simple_column_expression, vector_expression,
    OutputView, Projection, ProjectionView, VectorDistance, VectorDistanceView,
};
use crate::select::{candidate_result, candidates_result};
use crate::text::{lemma_views_push, views};
use crate::value::{lemma_row_views_push, mismatch, row_views, type_mismatch, Column, ColumnView, Value, ValueView};

verus! {

broadcast use {vstd::string::group_string_axioms, lemma_views_push, lemma_row_views_push};

/// What an output of a ranked row is: one of its columns, or its distance.
#[derive(Clone, Copy, Debug, PartialEq, Eq, Structural)]
pub enum FastProjection {
    Column(usize),
    Score,
}

/// A query that orders by a distance and selects columns and the distance alone.
pub struct FastVectorTopKPlan {
    pub distance: VectorDistance,
    pub projections: Vec<FastProjection>,
}

pub struct FastPlanView {
    pub distance: VectorDistanceView,
    pub projections: Seq<FastProjection>,
}

impl View for FastVectorTopKPlan {
    type V = FastPlanView;

    open spec fn view(&self) -> FastPlanView {
        FastPlanView { distance: self.distance@, projections: self.projections@ }
    }
}

/// The outputs from `from` on as columns and the distance, after `done`; none where one is
/// something else.
pub open spec fn fast_projections(
    projection: Seq<ProjectionView>,
    distance: ExprView,
    columns: Seq<ColumnView>,
    from: nat,
    done: Seq<FastProjection>,
) -> Option<Seq<FastProjection>>
    decreases projection.len() - from,
{
    if from >= projection.len() {
        Some(done)
    } else {
        match projection[from as int].output {
            OutputView::Expr(expression) => if expression == distance {
                fast_projections(projection, distance, columns, from + 1, done.push(FastProjection::Score))
            } else {
                match plain_column(expression, columns) {
                    Some(column) => fast_projections(
                        projection,
                        distance,
                        columns,
                        from + 1,
                        done.push(FastProjection::Column(column as usize)),
                    ),
                    None => None,
                }
            },
            OutputView::At(_) => None,
        }
    }
}

/// The plan of a query by distance; none where the query is no such one.
pub open spec fn fast_plan(
    distinct: Distinct,
    items: Seq<OrderView>,
    columns: Seq<ColumnView>,
    projection: Seq<ProjectionView>,
    offset: nat,
    limit: nat,
    floats: Floats,
) -> Result<Option<FastPlanView>, ErrorView> {
    if distinct != Distinct::No || items.len() != 1 {
        Ok(None)
    } else {
        match order_output(items[0].expr, projection) {
            OutputView::Expr(expression) => match matched_distance(expression, columns, floats) {
                Err(error) => Err(error),
                Ok(None) => Ok(None),
                Ok(Some(distance)) => match fast_projections(projection, expression, columns, 0, Seq::empty()) {
                    None => Ok(None),
                    Some(projections) => match retained(true, offset, Some(limit)) {
                        Err(error) => Err(error),
                        Ok(_) => Ok(Some(FastPlanView { distance, projections })),
                    },
                },
            },
            OutputView::At(_) => Ok(None),
        }
    }
}

/// Whether the plan speaks of these columns.
pub open spec fn plan_within(plan: FastPlanView, width: nat) -> bool {
    &&& plan.distance.column < width
    &&& forall|i: int|
        0 <= i < plan.projections.len() ==> (#[trigger] plan.projections[i] matches FastProjection::Column(column) ==> column
            < width)
}

fn build_projections(projection: &Vec<Projection<'_>>, distance: &Expr, columns: &Vec<Column>) -> (result: Option<
    Vec<FastProjection>,
>)
    ensures
        match result {
            Some(out) => fast_projections(views(projection@), distance@, views(columns@), 0, Seq::empty()) == Some(out@)
                && forall|i: int|
                0 <= i < out@.len() ==> (#[trigger] out@[i] matches FastProjection::Column(column) ==> column < columns@.len()),
            None => fast_projections(views(projection@), distance@, views(columns@), 0, Seq::empty()) is None,
        },
{
    let mut out: Vec<FastProjection> = Vec::new();
    let mut index: usize = 0;
    while index < projection.len()
        invariant
            index <= projection@.len(),
            forall|i: int|
                0 <= i < out@.len() ==> (#[trigger] out@[i] matches FastProjection::Column(column) ==> column < columns@.len()),
            fast_projections(views(projection@), distance@, views(columns@), index as nat, out@) == fast_projections(
                views(projection@),
                distance@,
                views(columns@),
                0,
                Seq::empty(),
            ),
        decreases projection@.len() - index,
    {
        assert(views(projection@)[index as int] == projection@[index as int]@);
        match projection[index].output.expression() {
            Some(expression) => {
                if same_expr(expression, distance) {
                    out.push(FastProjection::Score);
                } else {
                    match simple_column_expression(expression, columns) {
                        Some(column) => out.push(FastProjection::Column(column)),
                        None => return None,
                    }
                }
            },
            None => return None,
        }
        index = index + 1;
    }
    Some(out)
}

pub open spec fn fast_result(result: Result<Option<FastVectorTopKPlan>, Error>) -> Result<Option<FastPlanView>, ErrorView> {
    match result {
        Ok(Some(plan)) => Ok(Some(plan@)),
        Ok(None) => Ok(None),
        Err(error) => Err(error@),
    }
}

impl FastVectorTopKPlan {
    /// The plan of a query by distance; none where the query is no such one.
    pub fn build<F: Fn(FloatTask) -> FloatReply>(
        f: &F,
        distinct: Distinct,
        items: &Vec<OrderItem>,
        columns: &Vec<Column>,
        projection: &Vec<Projection<'_>>,
        offset: usize,
        limit: usize,
    ) -> (result: Result<Option<FastVectorTopKPlan>, Error>)
        requires
            computes(*f),
        ensures
            fast_result(result) == fast_plan(
                distinct,
                views(items@),
                views(columns@),
                views(projection@),
                offset as nat,
                limit as nat,
                floats(*f),
            ),
            result matches Ok(Some(plan)) ==> plan_within(plan@, columns@.len()),
    {
        if distinct != Distinct::No || items.len() != 1 {
            return Ok(None);
        }
        assert(views(items@)[0] == items@[0]@);
        let order = &items[0].expr;
        let expression = match find_order_alias(order, projection) {
            Some(index) => {
                assert(views(projection@)[index as int] == projection@[index as int]@);
                match projection[index].output.expression() {
                    Some(expression) => expression,
                    None => return Ok(None),
                }
            },
            None => order,
        };
        assert(order_output(order@, views(projection@)) == OutputView::Expr(expression@));
        let distance = match vector_expression(f, expression, columns)? {
            Some(distance) => distance,
            None => return Ok(None),
        };
        let projections = match build_projections(projection, expression, columns) {
            Some(projections) => projections,
            None => return Ok(None),
        };
        retained_rows(true, offset, Some(limit))?;
        Ok(Some(FastVectorTopKPlan { distance, projections }))
    }
}

/// The distance of a row.
pub open spec fn row_score(plan: FastPlanView, row: Seq<ValueView>, floats: Floats) -> Result<ValueView, ErrorView> {
    match row[plan.distance.column as int] {
        ValueView::Null => Ok(ValueView::Null),
        ValueView::Vector(elements) => match scored(floats, plan.distance.metric, elements, plan.distance.query) {
            Ok(bits) => Ok(ValueView::Float(bits)),
            Err(error) => Err(error),
        },
        value => Err(mismatch("VECTOR"@, value)),
    }
}

/// The outputs of a row with its distance.
pub open spec fn materialized(plan: FastPlanView, row: Seq<ValueView>, score: ValueView) -> Seq<ValueView> {
    plan.projections.map_values(
        |output: FastProjection|
            match output {
                FastProjection::Column(column) => row[column as int],
                FastProjection::Score => score,
            },
    )
}

/// The candidate that a row makes; none where the condition does not select it.
pub open spec fn scored_row(
    plan: FastPlanView,
    columns: Seq<ColumnView>,
    row: Seq<ValueView>,
    selection: Option<ExprView>,
    floats: Floats,
) -> Result<Option<CandidateView>, ErrorView> {
    match selects(selection, ScopeView::plain(columns, row), floats) {
        Err(error) => Err(error),
        Ok(false) => Ok(None),
        Ok(true) => match row_score(plan, row, floats) {
            Err(error) => Err(error),
            Ok(score) => Ok(Some(CandidateView { values: materialized(plan, row, score), order: seq![score] })),
        },
    }
}

/// The candidates that the rows from `from` on make, after `done`.
pub open spec fn scored_rows(
    plan: FastPlanView,
    columns: Seq<ColumnView>,
    rows: Seq<Seq<ValueView>>,
    selection: Option<ExprView>,
    floats: Floats,
    from: nat,
    done: Seq<CandidateView>,
) -> Result<Seq<CandidateView>, ErrorView>
    decreases rows.len() - from,
{
    if from >= rows.len() {
        Ok(done)
    } else {
        match scored_row(plan, columns, rows[from as int], selection, floats) {
            Err(error) => Err(error),
            Ok(None) => scored_rows(plan, columns, rows, selection, floats, from + 1, done),
            Ok(Some(candidate)) => scored_rows(plan, columns, rows, selection, floats, from + 1, done.push(candidate)),
        }
    }
}

/// The nearest rows, within the window.
pub open spec fn nearest_rows(
    plan: FastPlanView,
    items: Seq<OrderView>,
    columns: Seq<ColumnView>,
    source: Seq<Seq<ValueView>>,
    selection: Option<ExprView>,
    offset: nat,
    limit: nat,
    floats: Floats,
) -> Result<Seq<Seq<ValueView>>, ErrorView> {
    match scored_rows(plan, columns, source, selection, floats, 0, Seq::empty()) {
        Err(error) => Err(error),
        Ok(candidates) => Ok(values_of(window(ordered(candidates, items, floats), offset, Some(limit)))),
    }
}

fn materialize(plan: &FastVectorTopKPlan, row: &Vec<Value>, score: &Value) -> (values: Vec<Value>)
    requires
        plan_within(plan@, row@.len()),
    ensures
        views(values@) == materialized(plan@, views(row@), score@),
{
    let mut out: Vec<Value> = Vec::new();
    let mut index: usize = 0;
    while index < plan.projections.len()
        invariant
            plan_within(plan@, row@.len()),
            index <= plan.projections@.len(),
            out@.len() == index,
            forall|i: int| 0 <= i < index ==> (#[trigger] out@[i])@ == materialized(plan@, views(row@), score@)[i],
        decreases plan.projections@.len() - index,
    {
        assert(plan@.projections[index as int] == plan.projections@[index as int]);
        let value = match plan.projections[index] {
            FastProjection::Column(column) => row[column].clone(),
            FastProjection::Score => score.clone(),
        };
        out.push(value);
        index = index + 1;
    }
    assert(views(out@) =~= materialized(plan@, views(row@), score@));
    out
}

fn score_row<F: Fn(FloatTask) -> FloatReply>(f: &F, plan: &FastVectorTopKPlan, context: &EvalContext<'_>, selection: Option<&Expr>) -> (result:
    Result<Option<Candidate>, Error>)
    requires
        computes(*f),
        context@.valid(),
        context.schema.sources is None,
        context.excluded is None,
        plan_within(plan@, context.row@.len()),
    ensures
        candidate_result(result) == scored_row(
            plan@,
            context@.schema.columns,
            context@.row,
            borrowed(selection),
            floats(*f),
        ),
        result matches Ok(Some(candidate)) ==> candidate.order@.len() == 1,
{
    assert(context@ == ScopeView::plain(context@.schema.columns, context@.row));
    if !is_selected(f, selection, context)? {
        return Ok(None);
    }
    let row = context.row;
    assert(views(row@)[plan.distance.column as int] == row@[plan.distance.column as int]@);
    let score = match &row[plan.distance.column] {
        Value::Null => Value::Null,
        Value::Vector(vector) => Value::Float(plan.distance.metric.score(f, vector, &plan.distance.query)?),
        value => return Err(type_mismatch("VECTOR", value)),
    };
    let values = materialize(plan, row, &score);
    let mut order: Vec<Value> = Vec::new();
    order.push(score);
    assert(views(order@) =~= seq![score@]);
    Ok(Some(Candidate { values, order }))
}

fn score_rows<F: Fn(FloatTask) -> FloatReply>(
    f: &F,
    plan: &FastVectorTopKPlan,
    columns: &Vec<Column>,
    rows: &Vec<Vec<Value>>,
    picked: &Vec<usize>,
    selection: Option<&Expr>,
) -> (result: Result<Vec<Candidate>, Error>)
    requires
        computes(*f),
        plan_within(plan@, columns@.len()),
        rows_of_width(row_views(rows@), columns@.len()),
        valid_positions(picked@, rows@.len()),
    ensures
        candidates_result(result) == scored_rows(
            plan@,
            views(columns@),
            picked_rows(row_views(rows@), picked@),
            borrowed(selection),
            floats(*f),
            0,
            Seq::empty(),
        ),
        result matches Ok(candidates) ==> keyed(views(candidates@), 1),
{
    let ghost source = picked_rows(row_views(rows@), picked@);
    let mut out: Vec<Candidate> = Vec::new();
    assert(views(out@) =~= Seq::<CandidateView>::empty());
    let mut index: usize = 0;
    while index < picked.len()
        invariant
            computes(*f),
            plan_within(plan@, columns@.len()),
            rows_of_width(row_views(rows@), columns@.len()),
            valid_positions(picked@, rows@.len()),
            source == picked_rows(row_views(rows@), picked@),
            index <= picked@.len(),
            keyed(views(out@), 1),
            scored_rows(plan@, views(columns@), source, borrowed(selection), floats(*f), index as nat, views(out@))
                == scored_rows(plan@, views(columns@), source, borrowed(selection), floats(*f), 0, Seq::empty()),
        decreases picked@.len() - index,
    {
        let ghost before = views(out@);
        let row = &rows[picked[index]];
        proof {
            assert(source[index as int] == row_views(rows@)[picked@[index as int] as int]);
            assert(row_views(rows@)[picked@[index as int] as int] == views(row@));
            assert(row_views(rows@)[picked@[index as int] as int].len() == columns@.len());
        }
        let context = EvalContext::new(columns, row);
        assert(context@.schema.columns == views(columns@) && context@.row == views(row@));
        if let Some(candidate) = score_row(f, plan, &context, selection)? {
            out.push(candidate);
            assert forall|i: int| 0 <= i < views(out@).len() implies (#[trigger] views(out@)[i]).order.len() == 1 by {
                if i < before.len() {
                    assert(views(out@)[i] == before[i]);
                }
            }
        }
        index = index + 1;
    }
    Ok(out)
}

/// The nearest rows, within the window.
pub fn run_fast_vector_top_k<F: Fn(FloatTask) -> FloatReply>(
    f: &F,
    plan: &FastVectorTopKPlan,
    items: &Vec<OrderItem>,
    columns: &Vec<Column>,
    rows: &Vec<Vec<Value>>,
    picked: &Vec<usize>,
    selection: Option<&Expr>,
    offset: usize,
    limit: usize,
) -> (result: Result<Vec<Vec<Value>>, Error>)
    requires
        computes(*f),
        items@.len() == 1,
        plan_within(plan@, columns@.len()),
        rows_of_width(row_views(rows@), columns@.len()),
        valid_positions(picked@, rows@.len()),
    ensures
        rows_result(result) == nearest_rows(
            plan@,
            views(items@),
            views(columns@),
            picked_rows(row_views(rows@), picked@),
            borrowed(selection),
            offset as nat,
            limit as nat,
            floats(*f),
        ),
{
    let candidates = score_rows(f, plan, columns, rows, picked, selection)?;
    let ranked = order_candidates(f, &candidates, items);
    Ok(take_window(&ranked, offset, Some(limit)))
}

} // verus!
