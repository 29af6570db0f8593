//! That a query by distance finds the rows that any other plan of it finds.

use vstd::prelude::*;
use crate::ast::{last_name, ArgumentView, BinaryView, Distinct, ExprView, FunctionView, OrderView, SelectView};
use crate::candidate::{
    candidate_order, deduplicated, one_category, orderable, ordered, sort_category, window, CandidateView,
};
use crate::error::ErrorView;
use crate::eval::{argument_values, evaluated, function_metric, scalar_function, ScalarFunction, ScopeView};
use crate::float::{scored, FloatTaskView, Floats, Metric};
use crate::nearest::{
    fast_plan, fast_projections, materialized, nearest_rows, row_score, scored_row, scored_rows, FastPlanView, FastProjection,
};
use crate::operators::{measured, operator_metric};
use crate::order::{lemma_sorted_within, sorted};
use crate::projection::{
    bare_distance, distance_either, labels, lemma_label_position, matched_distance, order_alias, order_output,
    plain_column, OutputView, ProjectionView, VectorDistanceView,
};
use crate::read::{plain_rows, SourceView};
use crate::restore::holdable;
use crate::scan::law_constant;
use crate::select::{order_aliases, order_values, output_values, row_candidate, row_candidates, QueryPlanView};
use crate::table::{valid_row, valid_value};
use crate::value::{lemma_column_position, type_of, ColumnView, DataType, ValueView};

verus! {

/// Whether distances do not depend on which of two vectors comes first.
pub open spec fn symmetric(floats: Floats) -> bool {
    &&& forall|a: Seq<u32>, b: Seq<u32>|
        #[trigger] floats(FloatTaskView::Distance(a, b)) == floats(FloatTaskView::Distance(b, a))
    &&& forall|a: Seq<u32>, b: Seq<u32>|
        #[trigger] floats(FloatTaskView::SquaredDistance(a, b)) == floats(FloatTaskView::SquaredDistance(b, a))
    &&& forall|a: Seq<u32>, b: Seq<u32>|
        #[trigger] floats(FloatTaskView::DotProduct(a, b)) == floats(FloatTaskView::DotProduct(b, a))
    &&& forall|a: Seq<u32>, b: Seq<u32>|
        #[trigger] floats(FloatTaskView::CosineDistance(a, b)) == floats(FloatTaskView::CosineDistance(b, a))
}

/// Whether a table with these columns can hold the row on a machine.
pub open spec fn stored_row(columns: Seq<ColumnView>, row: Seq<ValueView>) -> bool {
    &&& valid_row(columns, row)
    &&& forall|c: int| 0 <= c < row.len() ==> holdable(#[trigger] row[c])
}

proof fn lemma_symmetric_score(floats: Floats, metric: Metric, left: Seq<u32>, right: Seq<u32>)
    requires
        symmetric(floats),
        left.len() == right.len(),
    ensures
        scored(floats, metric, left, right) == scored(floats, metric, right, left),
{
    assert(floats(FloatTaskView::Distance(left, right)) == floats(FloatTaskView::Distance(right, left)));
    assert(floats(FloatTaskView::SquaredDistance(left, right)) == floats(FloatTaskView::SquaredDistance(right, left)));
    assert(floats(FloatTaskView::DotProduct(left, right)) == floats(FloatTaskView::DotProduct(right, left)));
    assert(floats(FloatTaskView::CosineDistance(left, right)) == floats(FloatTaskView::CosineDistance(right, left)));
}

proof fn lemma_plain_column(expression: ExprView, columns: Seq<ColumnView>, row: Seq<ValueView>, floats: Floats)
    ensures
        plain_column(expression, columns) matches Some(index) ==> evaluated(expression, ScopeView::plain(columns, row), floats)
            == Ok::<ValueView, ErrorView>(row[index as int]),
    decreases expression,
{
    match expression {
        ExprView::Nested(inner) => lemma_plain_column(*inner, columns, row, floats),
        _ => {},
    }
}

/// What a metric gives on the vector of a row and the constant, in either order.
proof fn lemma_measured(d: VectorDistanceView, columns: Seq<ColumnView>, row: Seq<ValueView>, floats: Floats)
    requires
        d.column < columns.len(),
        columns[d.column as int].data_type == DataType::Vector(d.query.len() as usize),
        d.query.len() <= usize::MAX,
        stored_row(columns, row),
        symmetric(floats),
    ensures
        ({
            let score = row_score(FastPlanView { distance: d, projections: Seq::empty() }, row, floats);
            let value = row[d.column as int];
            &&& measured(floats, d.metric, value, ValueView::Vector(d.query)) == score
            &&& measured(floats, d.metric, ValueView::Vector(d.query), value) == score
        }),
{
    let value = row[d.column as int];
    assert(valid_value(columns[d.column as int], value));
    assert(holdable(value));
    match value {
        ValueView::Vector(elements) => {
            assert(type_of(value) == Some(DataType::Vector(elements.len() as usize)));
            assert(elements.len() == d.query.len());
            lemma_symmetric_score(floats, d.metric, elements, d.query);
        },
        _ => {},
    }
}

pub proof fn lemma_function_names(name: Seq<char>)
    requires
        function_metric(name) is Some,
    ensures
        scalar_function(name) == ScalarFunction::Measure(function_metric(name)->0),
{
    reveal_strlit("vector");
    reveal_strlit("vector_dims");
    reveal_strlit("dimensions");
    reveal_strlit("vector_norm");
    reveal_strlit("norm");
    reveal_strlit("normalize");
    reveal_strlit("normalize_vector");
    reveal_strlit("l2_distance");
    reveal_strlit("euclidean_distance");
    reveal_strlit("squared_l2_distance");
    reveal_strlit("cosine_distance");
    reveal_strlit("dot_product");
    reveal_strlit("inner_product");
    assert("vector"@.len() == 6);
    assert("vector_dims"@.len() == 11);
    assert("dimensions"@.len() == 10);
    assert("vector_norm"@.len() == 11);
    assert("norm"@.len() == 4);
    assert("normalize"@.len() == 9);
    assert("normalize_vector"@.len() == 16);
    assert("l2_distance"@.len() == 11);
    assert("euclidean_distance"@.len() == 18);
    assert("squared_l2_distance"@.len() == 19);
    assert("cosine_distance"@.len() == 15);
    assert("dot_product"@.len() == 11);
    assert("inner_product"@.len() == 13);
    assert("vector_dims"@[0] == 'v' && "vector_norm"@[0] == 'v');
    assert("l2_distance"@[0] == 'l' && "dot_product"@[0] == 'd');
}

/// The sides of a distance have the values of the row and of the constant.
proof fn lemma_sides(
    left: ExprView,
    right: ExprView,
    metric: Metric,
    columns: Seq<ColumnView>,
    row: Seq<ValueView>,
    floats: Floats,
)
    ensures
        distance_either(left, right, metric, columns, floats) matches Ok(Some(d)) ==> d.metric == metric && ({
            let scope = ScopeView::plain(columns, row);
            let a = evaluated(left, scope, floats);
            let b = evaluated(right, scope, floats);
            let value = Ok::<ValueView, ErrorView>(row[d.column as int]);
            let query = Ok::<ValueView, ErrorView>(ValueView::Vector(d.query));
            (a == value && b == query) || (a == query && b == value)
        }),
{
    let scope = ScopeView::plain(columns, row);
    lemma_plain_column(left, columns, row, floats);
    lemma_plain_column(right, columns, row, floats);
    if evaluated(left, ScopeView::none(), floats) is Ok {
        law_constant(left, scope, floats);
    }
    if evaluated(right, ScopeView::none(), floats) is Ok {
        law_constant(right, scope, floats);
    }
}

proof fn lemma_column_within(expression: ExprView, columns: Seq<ColumnView>)
    ensures
        plain_column(expression, columns) matches Some(index) ==> index < columns.len(),
    decreases expression,
{
    match expression {
        ExprView::Identifier(identifier, _) => lemma_column_position(columns, identifier.name(), 0),
        ExprView::CompoundIdentifier(parts, _) => {
            if parts.len() > 0 {
                lemma_column_position(columns, parts.last().name(), 0);
            }
        },
        ExprView::Nested(inner) => lemma_column_within(*inner, columns),
        _ => {},
    }
}

proof fn lemma_either_within(left: ExprView, right: ExprView, metric: Metric, columns: Seq<ColumnView>, floats: Floats)
    ensures
        distance_either(left, right, metric, columns, floats) matches Ok(Some(d)) ==> d.column < columns.len(),
{
    lemma_column_within(left, columns);
    lemma_column_within(right, columns);
}

/// A call of a distance function has the value of the metric on its arguments.
proof fn lemma_call(function: FunctionView, left: ExprView, right: ExprView, scope: ScopeView, floats: Floats, a: ValueView, b: ValueView)
    requires
        !function.distinct,
        !function.modified,
        function.arguments.len() == 2,
        function.arguments[0] == ArgumentView::Expr(left),
        function.arguments[1] == ArgumentView::Expr(right),
        function_metric(last_name(function.name)) is Some,
        evaluated(left, scope, floats) == Ok::<ValueView, ErrorView>(a),
        evaluated(right, scope, floats) == Ok::<ValueView, ErrorView>(b),
    ensures
        evaluated(ExprView::Function(function), scope, floats) == measured(
            floats,
            function_metric(last_name(function.name))->0,
            a,
            b,
        ),
{
    lemma_function_names(last_name(function.name));
    let none = Seq::<ValueView>::empty();
    assert(argument_values(function.arguments, scope, floats, 2, none.push(a).push(b)) == Ok::<Seq<ValueView>, ErrorView>(
        none.push(a).push(b),
    ));
    assert(argument_values(function.arguments, scope, floats, 1, none.push(a)) == Ok::<Seq<ValueView>, ErrorView>(
        none.push(a).push(b),
    ));
    assert(argument_values(function.arguments, scope, floats, 0, none) == Ok::<Seq<ValueView>, ErrorView>(
        none.push(a).push(b),
    ));
}

proof fn lemma_bare_distance(
    expression: ExprView,
    columns: Seq<ColumnView>,
    row: Seq<ValueView>,
    floats: Floats,
    d: VectorDistanceView,
)
    requires
        bare_distance(expression, columns, floats) == Ok::<Option<VectorDistanceView>, ErrorView>(Some(d)),
        columns[d.column as int].data_type == DataType::Vector(d.query.len() as usize),
        d.query.len() <= usize::MAX,
        stored_row(columns, row),
        symmetric(floats),
    ensures
        d.column < columns.len(),
        evaluated(expression, ScopeView::plain(columns, row), floats) == row_score(
            FastPlanView { distance: d, projections: Seq::empty() },
            row,
            floats,
        ),
{
    let scope = ScopeView::plain(columns, row);
    match expression {
        ExprView::Function(function) => {
            let arguments = function.arguments;
            match (arguments[0], arguments[1]) {
                (ArgumentView::Expr(left), ArgumentView::Expr(right)) => {
                    let metric = function_metric(last_name(function.name))->0;
                    lemma_sides(left, right, metric, columns, row, floats);
                    lemma_either_within(left, right, metric, columns, floats);
                    lemma_measured(d, columns, row, floats);
                    let a = evaluated(left, scope, floats)->Ok_0;
                    let b = evaluated(right, scope, floats)->Ok_0;
                    lemma_call(function, left, right, scope, floats, a, b);
                },
                _ => {},
            }
        },
        ExprView::BinaryOp(left, BinaryView::Custom(operator), right) => {
            let metric = operator_metric(operator)->0;
            lemma_sides(*left, *right, metric, columns, row, floats);
            lemma_either_within(*left, *right, metric, columns, floats);
            lemma_measured(d, columns, row, floats);
        },
        _ => {},
    }
}

/// The distance that a plan ranks by is the value of the expression that the query orders by.
proof fn lemma_distance(
    expression: ExprView,
    columns: Seq<ColumnView>,
    row: Seq<ValueView>,
    floats: Floats,
    plan: FastPlanView,
)
    requires
        matched_distance(expression, columns, floats) == Ok::<Option<VectorDistanceView>, ErrorView>(Some(plan.distance)),
        stored_row(columns, row),
        symmetric(floats),
    ensures
        plan.distance.column < columns.len(),
        evaluated(expression, ScopeView::plain(columns, row), floats) == row_score(plan, row, floats),
{
    let d = plan.distance;
    match expression {
        ExprView::Nested(inner) => lemma_bare_distance(*inner, columns, row, floats, d),
        _ => lemma_bare_distance(expression, columns, row, floats, d),
    }
}

/// The values of outputs as a plan gives them.
spec fn outputs_given(list: Seq<FastProjection>, row: Seq<ValueView>, score: ValueView) -> Seq<ValueView> {
    list.map_values(
        |output: FastProjection|
            match output {
                FastProjection::Column(column) => row[column as int],
                FastProjection::Score => score,
            },
    )
}

/// Whether an output, from `from` on, is the expression.
spec fn any_output(projection: Seq<ProjectionView>, expression: ExprView, from: nat) -> bool {
    exists|i: int| from <= i < projection.len() && (#[trigger] projection[i]).output == OutputView::Expr(expression)
}

proof fn lemma_outputs(
    projection: Seq<ProjectionView>,
    expression: ExprView,
    columns: Seq<ColumnView>,
    row: Seq<ValueView>,
    floats: Floats,
    score: ValueView,
    from: nat,
    done: Seq<FastProjection>,
)
    requires
        columns.len() <= usize::MAX,
        evaluated(expression, ScopeView::plain(columns, row), floats) == Ok::<ValueView, ErrorView>(score),
        from == done.len(),
        from <= projection.len(),
        fast_projections(projection, expression, columns, from, done) is Some,
    ensures
        ({
            let list = fast_projections(projection, expression, columns, from, done)->0;
            &&& list.len() == projection.len()
            &&& forall|i: int| 0 <= i < done.len() ==> list[i] == done[i]
            &&& forall|i: int|
                from <= i < projection.len() && (#[trigger] projection[i]).output == OutputView::Expr(expression) ==> list[i]
                    == FastProjection::Score
            &&& output_values(projection, ScopeView::plain(columns, row), floats, from, outputs_given(done, row, score))
                == Ok::<Seq<ValueView>, ErrorView>(outputs_given(list, row, score))
        }),
    decreases projection.len() - from,
{
    if from < projection.len() {
        if let OutputView::Expr(found) = projection[from as int].output {
            let next = if found == expression {
                FastProjection::Score
            } else {
                FastProjection::Column(plain_column(found, columns)->0 as usize)
            };
            if found != expression {
                lemma_plain_column(found, columns, row, floats);
                lemma_column_within(found, columns);
            }
            lemma_outputs(projection, expression, columns, row, floats, score, from + 1, done.push(next));
            let list = fast_projections(projection, expression, columns, from + 1, done.push(next))->0;
            assert(list[from as int] == done.push(next)[from as int]);
            let value = evaluated(found, ScopeView::plain(columns, row), floats)->Ok_0;
            assert(outputs_given(done, row, score).push(value) =~= outputs_given(done.push(next), row, score));
            assert forall|i: int| 0 <= i < done.len() implies list[i] == done[i] by {
                assert(list[i] == done.push(next)[i]);
            }
        }
    }
}

proof fn lemma_outputs_fail(
    projection: Seq<ProjectionView>,
    expression: ExprView,
    columns: Seq<ColumnView>,
    row: Seq<ValueView>,
    floats: Floats,
    error: ErrorView,
    from: nat,
    done: Seq<FastProjection>,
    values: Seq<ValueView>,
)
    requires
        evaluated(expression, ScopeView::plain(columns, row), floats) == Err::<ValueView, ErrorView>(error),
        from <= projection.len(),
        fast_projections(projection, expression, columns, from, done) is Some,
    ensures
        output_values(projection, ScopeView::plain(columns, row), floats, from, values) matches Err(found) ==> found == error,
        any_output(projection, expression, from) ==> output_values(
            projection,
            ScopeView::plain(columns, row),
            floats,
            from,
            values,
        ) is Err,
    decreases projection.len() - from,
{
    if from < projection.len() {
        if let OutputView::Expr(found) = projection[from as int].output {
            if found != expression {
                lemma_plain_column(found, columns, row, floats);
                let value = evaluated(found, ScopeView::plain(columns, row), floats)->Ok_0;
                lemma_outputs_fail(
                    projection,
                    expression,
                    columns,
                    row,
                    floats,
                    error,
                    from + 1,
                    done.push(FastProjection::Column(plain_column(found, columns)->0 as usize)),
                    values.push(value),
                );
                if any_output(projection, expression, from) {
                    let i = choose|i: int|
                        from <= i < projection.len() && (#[trigger] projection[i]).output == OutputView::Expr(expression);
                    assert(i != from);
                    assert(projection[i].output == OutputView::Expr(expression));
                    assert(any_output(projection, expression, from + 1));
                }
            }
        }
    }
}

/// A row makes the same candidate under the plan by distance as under any other.
proof fn lemma_same_candidate(
    distinct: Distinct,
    items: Seq<OrderView>,
    columns: Seq<ColumnView>,
    projection: Seq<ProjectionView>,
    offset: nat,
    limit: nat,
    floats: Floats,
    plan: FastPlanView,
    row: Seq<ValueView>,
    selection: Option<ExprView>,
)
    requires
        fast_plan(distinct, items, columns, projection, offset, limit, floats) == Ok::<Option<FastPlanView>, ErrorView>(
            Some(plan),
        ),
        columns.len() <= usize::MAX,
        stored_row(columns, row),
        symmetric(floats),
    ensures
        row_candidate(
            selection,
            projection,
            items,
            order_aliases(items, projection),
            ScopeView::plain(columns, row),
            floats,
        ) == scored_row(plan, columns, row, selection, floats),
        scored_row(plan, columns, row, selection, floats) matches Ok(Some(candidate)) ==> candidate.order.len() == 1 && (
        candidate.order[0] is Null || candidate.order[0] is Float),
{
    let scope = ScopeView::plain(columns, row);
    let aliases = order_aliases(items, projection);
    let order = items[0].expr;
    let expression = order_output(order, projection)->Expr_0;
    lemma_distance(expression, columns, row, floats, plan);
    if let ExprView::Identifier(identifier, _) = order {
        lemma_label_position(labels(projection), identifier.name(), 0);
    }
    assert(aliases[0] == order_alias(order, labels(projection)));
    reveal_with_fuel(order_values, 2);
    match row_score(plan, row, floats) {
        Ok(score) => {
            lemma_outputs(projection, expression, columns, row, floats, score, 0, Seq::empty());
            let none = Seq::<FastProjection>::empty();
            assert(outputs_given(none, row, score) =~= Seq::<ValueView>::empty());
            assert(outputs_given(plan.projections, row, score) =~= materialized(plan, row, score));
            let values = outputs_given(plan.projections, row, score);
            if let Some(index) = aliases[0] {
                assert(projection[index as int].output == OutputView::Expr(expression));
                assert(plan.projections[index as int] == FastProjection::Score);
                assert(values[index as int] == score);
            }
            assert(Seq::<ValueView>::empty().push(score) =~= seq![score]);
        },
        Err(error) => {
            lemma_outputs_fail(projection, expression, columns, row, floats, error, 0, Seq::empty(), Seq::empty());
            if let Some(index) = aliases[0] {
                assert(projection[index as int].output == OutputView::Expr(expression));
                assert(any_output(projection, expression, 0));
            }
        },
    }
}

/// Whether candidates are ordered by one value each, a number or none.
spec fn by_number(candidates: Seq<CandidateView>) -> bool {
    forall|i: int|
        0 <= i < candidates.len() ==> (#[trigger] candidates[i]).order.len() == 1 && (candidates[i].order[0] is Null
            || candidates[i].order[0] is Float)
}

proof fn lemma_same_candidates(
    distinct: Distinct,
    items: Seq<OrderView>,
    columns: Seq<ColumnView>,
    projection: Seq<ProjectionView>,
    offset: nat,
    limit: nat,
    floats: Floats,
    plan: FastPlanView,
    rows: Seq<Seq<ValueView>>,
    selection: Option<ExprView>,
    from: nat,
    done: Seq<CandidateView>,
)
    requires
        fast_plan(distinct, items, columns, projection, offset, limit, floats) == Ok::<Option<FastPlanView>, ErrorView>(
            Some(plan),
        ),
        columns.len() <= usize::MAX,
        forall|i: int| 0 <= i < rows.len() ==> stored_row(columns, #[trigger] rows[i]),
        symmetric(floats),
        by_number(done),
    ensures
        row_candidates(columns, rows, selection, projection, items, floats, from, done) == scored_rows(
            plan,
            columns,
            rows,
            selection,
            floats,
            from,
            done,
        ),
        scored_rows(plan, columns, rows, selection, floats, from, done) matches Ok(candidates) ==> by_number(candidates),
    decreases rows.len() - from,
{
    if from < rows.len() {
        let row = rows[from as int];
        lemma_same_candidate(distinct, items, columns, projection, offset, limit, floats, plan, row, selection);
        match scored_row(plan, columns, row, selection, floats) {
            Ok(None) => lemma_same_candidates(
                distinct,
                items,
                columns,
                projection,
                offset,
                limit,
                floats,
                plan,
                rows,
                selection,
                from + 1,
                done,
            ),
            Ok(Some(candidate)) => {
                assert(by_number(done.push(candidate)));
                lemma_same_candidates(
                    distinct,
                    items,
                    columns,
                    projection,
                    offset,
                    limit,
                    floats,
                    plan,
                    rows,
                    selection,
                    from + 1,
                    done.push(candidate),
                );
            },
            Err(_) => {},
        }
    }
}

proof fn lemma_one_category(candidates: Seq<CandidateView>, from: nat, expected: Option<Seq<char>>)
    requires
        by_number(candidates),
        expected is None || expected == Some("numeric"@),
    ensures
        one_category(candidates, 0, from, expected) is Ok,
    decreases candidates.len() - from,
{
    if from < candidates.len() {
        assert(candidates[from as int].order.len() == 1);
        match sort_category(candidates[from as int].order[0]) {
            Ok(Some(category)) => lemma_one_category(candidates, from + 1, Some("numeric"@)),
            _ => lemma_one_category(candidates, from + 1, expected),
        }
    }
}

/// A query by distance that is planned as such finds the rows that it finds without that plan, in the same order:
/// ranking by distance is exact.
pub proof fn law_nearest_is_exact(
    plan: QueryPlanView,
    select: SelectView,
    items: Seq<OrderView>,
    read: SourceView,
    limit: nat,
    fast: FastPlanView,
    floats: Floats,
)
    requires
        plan.limit == Some(limit),
        fast_plan(select.distinct, items, read.columns, plan.projection, plan.offset, limit, floats) == Ok::<
            Option<FastPlanView>,
            ErrorView,
        >(Some(fast)),
        read.columns.len() <= usize::MAX,
        forall|i: int| 0 <= i < read.rows.len() ==> stored_row(read.columns, #[trigger] read.rows[i]),
        symmetric(floats),
    ensures
        nearest_rows(fast, items, read.columns, read.rows, read.residual, plan.offset, limit, floats) == plain_rows(
            plan,
            select,
            items,
            read,
            floats,
        ),
{
    let none = Seq::<CandidateView>::empty();
    lemma_same_candidates(
        select.distinct,
        items,
        read.columns,
        plan.projection,
        plan.offset,
        limit,
        floats,
        fast,
        read.rows,
        read.residual,
        0,
        none,
    );
    match scored_rows(fast, read.columns, read.rows, read.residual, floats, 0, none) {
        Ok(candidates) => {
            assert(deduplicated(candidates, false) == candidates);
            let all = ordered(candidates, items, floats);
            let before = candidate_order(candidates, items, floats);
            lemma_sorted_within(candidates.len() as usize, before);
            let kept = window(all, 0, Some(plan.offset + limit));
            assert forall|i: int| 0 <= i < kept.len() implies (#[trigger] kept[i]).order.len() == 1 && (kept[i].order[0] is Null
                || kept[i].order[0] is Float) by {
                let at = sorted(candidates.len() as usize, before)[i];
                assert(all[i] == candidates[at as int]);
                assert(candidates[at as int].order.len() == 1);
            }
            lemma_one_category(kept, 0, None);
            reveal_with_fuel(orderable, 2);
        },
        Err(_) => {},
    }
}

} // verus!
