//! That the intent of a query is what its execution gives.

use vstd::prelude::*;
use crate::ast::{last_name, BinaryView, BodyView, ExprView, FunctionView, QueryView, SelectView};
use crate::catalog::CatalogView;
use crate::error::ErrorView;
use crate::eval::{function_metric, SchemaView};
use crate::explain::source_columns;
use crate::float::Floats;
use crate::intent::{analyzed, output_intent, output_intents, schema_intent, source_title, IntentColumnView};
use crate::nearest_laws::lemma_function_names;
use crate::projection::{
    bare_distance, matched_distance, output_type, plain_column, projected, OutputView, ProjectionView,
};
use crate::read::{query_result, source_table};
use crate::select::{lemma_projected_expressions, output_types, planned};
use crate::types::{aggregate_kind, expression_type};
use crate::value::{ColumnView, DataType};

verus! {

/// No distance function is an aggregate.
proof fn lemma_metric_is_no_aggregate(name: Seq<char>)
    requires
        function_metric(name) is Some,
    ensures
        aggregate_kind(name) is None,
{
    reveal_strlit("count");
    reveal_strlit("sum");
    reveal_strlit("avg");
    reveal_strlit("min");
    reveal_strlit("max");
    reveal_strlit("l2_distance");
    reveal_strlit("euclidean_distance");
    reveal_strlit("squared_l2_distance");
    reveal_strlit("cosine_distance");
    reveal_strlit("dot_product");
    reveal_strlit("inner_product");
    assert(name.len() >= 11);
}

/// The type of a column that an expression is.
proof fn lemma_column_typed(expression: ExprView, columns: Seq<ColumnView>, floats: Floats)
    ensures
        plain_column(expression, columns) matches Some(index) ==> expression_type(
            expression,
            SchemaView::plain(columns),
            floats,
        ) == Ok::<Option<DataType>, ErrorView>(Some(columns[index as int].data_type)),
    decreases expression,
{
    match expression {
        ExprView::Nested(inner) => lemma_column_typed(*inner, columns, floats),
        _ => {},
    }
}

/// A call of a distance function that has a type is a floating-point number.
proof fn lemma_call_typed(function: FunctionView, schema: SchemaView, floats: Floats)
    requires
        function_metric(last_name(function.name)) is Some,
    ensures
        expression_type(ExprView::Function(function), schema, floats) matches Ok(data_type) ==> data_type == Some(
            DataType::Float,
        ),
{
    lemma_metric_is_no_aggregate(last_name(function.name));
    lemma_function_names(last_name(function.name));
}

/// A vector operator that has a type is a floating-point number.
proof fn lemma_operator_typed(left: ExprView, text: Seq<char>, right: ExprView, schema: SchemaView, floats: Floats)
    ensures
        expression_type(
            ExprView::BinaryOp(Box::new(left), BinaryView::Custom(text), Box::new(right)),
            schema,
            floats,
        ) matches Ok(data_type) ==> data_type == Some(DataType::Float),
{
}

proof fn lemma_bare_typed(expression: ExprView, columns: Seq<ColumnView>, schema: SchemaView, floats: Floats)
    ensures
        bare_distance(expression, columns, floats) matches Ok(Some(_)) ==> (expression_type(expression, schema, floats) matches Ok(
            data_type,
        ) ==> data_type == Some(DataType::Float)),
{
    match expression {
        ExprView::Function(function) => {
            if function_metric(last_name(function.name)) is Some {
                lemma_call_typed(function, schema, floats);
            }
        },
        ExprView::BinaryOp(left, BinaryView::Custom(text), right) => {
            lemma_operator_typed(*left, text, *right, schema, floats);
        },
        _ => {},
    }
}

/// A distance that has a type is a floating-point number.
proof fn lemma_distance_typed(expression: ExprView, columns: Seq<ColumnView>, floats: Floats)
    ensures
        matched_distance(expression, columns, floats) matches Ok(Some(_)) ==> (expression_type(
            expression,
            SchemaView::plain(columns),
            floats,
        ) matches Ok(data_type) ==> data_type == Some(DataType::Float)),
{
    match expression {
        ExprView::Nested(inner) => lemma_bare_typed(*inner, columns, SchemaView::plain(columns), floats),
        _ => lemma_bare_typed(expression, columns, SchemaView::plain(columns), floats),
    }
}

/// An output has the type that its intent states.
proof fn lemma_output_typed(item: ProjectionView, columns: Seq<ColumnView>, floats: Floats)
    requires
        item.output is Expr,
    ensures
        (output_intent(item, columns, floats), output_type(item.output, SchemaView::plain(columns), floats)) matches (
            Ok(column),
            Ok(data_type),
        ) ==> column.output_name == item.label && column.data_type == data_type,
{
    if let OutputView::Expr(expression) = item.output {
        lemma_column_typed(expression, columns, floats);
        lemma_distance_typed(expression, columns, floats);
    }
}

proof fn lemma_intents_each(
    projection: Seq<ProjectionView>,
    columns: Seq<ColumnView>,
    floats: Floats,
    from: nat,
    done: Seq<IntentColumnView>,
)
    requires
        from <= projection.len(),
        done.len() == from,
        forall|i: int| 0 <= i < from ==> output_intent(projection[i], columns, floats) == Ok::<IntentColumnView, ErrorView>(
            #[trigger] done[i],
        ),
    ensures
        output_intents(projection, columns, floats, from, done) matches Ok(all) ==> all.len() == projection.len() && forall|
            i: int,
        |
            0 <= i < projection.len() ==> output_intent(projection[i], columns, floats) == Ok::<
                IntentColumnView,
                ErrorView,
            >(#[trigger] all[i]),
    decreases projection.len() - from,
{
    if from < projection.len() {
        if let Ok(column) = output_intent(projection[from as int], columns, floats) {
            let next = done.push(column);
            assert forall|i: int| 0 <= i < next.len() implies output_intent(projection[i], columns, floats) == Ok::<
                IntentColumnView,
                ErrorView,
            >(#[trigger] next[i]) by {
                if i < done.len() {
                    assert(next[i] == done[i]);
                }
            }
            lemma_intents_each(projection, columns, floats, from + 1, next);
        }
    }
}

proof fn lemma_types_each(
    projection: Seq<ProjectionView>,
    schema: SchemaView,
    floats: Floats,
    from: nat,
    done: Seq<Option<DataType>>,
)
    requires
        from <= projection.len(),
        done.len() == from,
        forall|i: int| 0 <= i < from ==> output_type(projection[i].output, schema, floats) == Ok::<
            Option<DataType>,
            ErrorView,
        >(#[trigger] done[i]),
    ensures
        output_types(projection, schema, floats, from, done) matches Ok(all) ==> all.len() == projection.len() && forall|
            i: int,
        |
            0 <= i < projection.len() ==> output_type(projection[i].output, schema, floats) == Ok::<
                Option<DataType>,
                ErrorView,
            >(#[trigger] all[i]),
    decreases projection.len() - from,
{
    if from < projection.len() {
        if let Ok(data_type) = output_type(projection[from as int].output, schema, floats) {
            let next = done.push(data_type);
            assert forall|i: int| 0 <= i < next.len() implies output_type(projection[i].output, schema, floats) == Ok::<
                Option<DataType>,
                ErrorView,
            >(#[trigger] next[i]) by {
                if i < done.len() {
                    assert(next[i] == done[i]);
                }
            }
            lemma_types_each(projection, schema, floats, from + 1, next);
        }
    }
}

/// Over one schema, what is planned for a query is what its intent states.
proof fn lemma_intent_is_planned(
    table: Option<Seq<char>>,
    columns: Seq<ColumnView>,
    select: SelectView,
    query: QueryView,
    floats: Floats,
)
    ensures
        (schema_intent(table, columns, select, query, floats), planned(select, query, columns, floats)) matches (
            Ok(intent),
            Ok(plan),
        ) ==> {
            &&& intent.columns.len() == plan.projection.len() == plan.types.len()
            &&& forall|i: int|
                0 <= i < intent.columns.len() ==> (#[trigger] intent.columns[i]).output_name == plan.projection[i].label
                    && intent.columns[i].data_type == plan.types[i]
        },
{
    if let (Ok(intent), Ok(plan)) = (
        schema_intent(table, columns, select, query, floats),
        planned(select, query, columns, floats),
    ) {
        let schema = SchemaView::plain(columns);
        let projection = projected(select.projection, columns, 0, Seq::empty())->Ok_0;
        lemma_projected_expressions(select.projection, columns, 0, Seq::empty());
        lemma_intents_each(projection, columns, floats, 0, Seq::empty());
        lemma_types_each(projection, schema, floats, 0, Seq::empty());
        assert forall|i: int| 0 <= i < intent.columns.len() implies (#[trigger] intent.columns[i]).output_name
            == plan.projection[i].label && intent.columns[i].data_type == plan.types[i] by {
            lemma_output_typed(projection[i], columns, floats);
            assert(output_type(projection[i].output, schema, floats) == Ok::<Option<DataType>, ErrorView>(plan.types[i]));
        }
    }
}

/// The intent of a query names its outputs as the executed query does, with the same types.
pub proof fn law_intent_describes_the_result(catalog: CatalogView, query: QueryView, floats: Floats)
    requires
        analyzed(catalog, query, floats) is Ok,
        query_result(catalog, query, floats) is Ok,
    ensures
        ({
            let intent = analyzed(catalog, query, floats)->Ok_0;
            let result = query_result(catalog, query, floats)->Ok_0;
            &&& intent.columns.len() == result.columns.len() == result.column_types.len()
            &&& forall|i: int|
                0 <= i < intent.columns.len() ==> (#[trigger] intent.columns[i]).output_name == result.columns[i]
                    && intent.columns[i].data_type == result.column_types[i]
        }),
{
    if let BodyView::Select(select) = query.body {
        if let Ok(at) = source_table(catalog, select.from, "joins and multiple FROM items"@) {
            lemma_intent_is_planned(
                source_title(catalog, at),
                source_columns(catalog, at),
                select,
                query,
                floats,
            );
        }
    }
}

} // verus!
