//! `SELECT` over one table.

use vstd::prelude::*;
use crate::aggregate::{picked_rows, rows_of_width, valid_positions};
use crate::ast::{
    optional, Expr, ExprView, OrderItem, OrderView, Phrase, PhraseView, Query, QueryView, Select, SelectItemView,
    SelectView,
};
use crate::candidate::{keyed, optional_count, Candidate, CandidateView};
use crate::error::{invalid, plain, unsupported, Error, ErrorView};
use crate::eval::{
    borrowed, evaluate, evaluate_constant, evaluated, is_selected, selects, EvalContext, Schema, SchemaView, ScopeView,
};
use crate::float::{computes, floats, FloatReply, FloatTask, Floats};
use crate::projection::{
    build_projection, column_reference, every_column, find_order_alias, labels, order_alias, order_output,
    output_aggregates, output_known, output_type, output_value, outputs_within, phrase_label, projected, OutputView,
    Projection, ProjectionView,
};
use crate::text::{join2, join3, lemma_views_push, views};
use crate::types::{
    boolean, both, contains_aggregate, ensure_boolean_type, ensure_sortable_scalar_type, expression_contains_aggregate,
    expression_data_type, expression_type, known_columns, sortable, validate_expression_columns,
};
use crate::value::{lemma_row_views_push, row_views, Column, ColumnView, DataType, Value, ValueView};

verus! {

broadcast use {vstd::string::group_string_axioms, lemma_views_push, lemma_row_views_push};

/// The count that `LIMIT` or `OFFSET` gives.
pub open spec fn count_value(expression: ExprView, label: Seq<char>, floats: Floats) -> Result<nat, ErrorView> {
    match evaluated(expression, ScopeView::none(), floats) {
        Err(error) => Err(error),
        Ok(value) => match value {
            ValueView::Integer(count) if count >= 0 => if count <= usize::MAX {
                Ok(count as nat)
            } else {
                Err(ErrorView::InvalidQuery(label + " is too large"@))
            },
            _ => Err(
                ErrorView::InvalidQuery(label + " must be a non-negative integer, found "@ + value.notation(floats)),
            ),
        },
    }
}

/// The count that `LIMIT` or `OFFSET` gives.
pub fn usize_expression<F: Fn(FloatTask) -> FloatReply>(f: &F, expression: &Expr, label: &str) -> (result: Result<usize, Error>)
    requires
        computes(*f),
    ensures
        match result {
            Ok(count) => count_value(expression@, label@, floats(*f)) == Ok::<nat, ErrorView>(count as nat),
            Err(error) => count_value(expression@, label@, floats(*f)) == Err::<nat, ErrorView>(error@),
        },
{
    let value = evaluate_constant(f, expression)?;
    match value {
        Value::Integer(count) if count >= 0 => {
            let wide: u64 = count as u64;
            if wide <= usize::MAX as u64 {
                Ok(count as usize)
            } else {
                Err(Error::InvalidQuery(join2(label, " is too large")))
            }
        },
        _ => {
            let text = value.to_text(f);
            Err(Error::InvalidQuery(join3(label, " must be a non-negative integer, found ", text.as_str())))
        },
    }
}

/// The offset of a query; none is zero.
pub open spec fn offset_value(query: QueryView, floats: Floats) -> Result<nat, ErrorView> {
    match query.offset {
        Some(expression) => count_value(expression, "OFFSET"@, floats),
        None => Ok(0),
    }
}

/// The limit of a query.
pub open spec fn limit_value(query: QueryView, floats: Floats) -> Result<Option<nat>, ErrorView> {
    match query.limit {
        Some(expression) => match count_value(expression, "LIMIT"@, floats) {
            Ok(count) => Ok(Some(count)),
            Err(error) => Err(error),
        },
        None => Ok(None),
    }
}

pub fn query_offset<F: Fn(FloatTask) -> FloatReply>(f: &F, query: &Query) -> (result: Result<usize, Error>)
    requires
        computes(*f),
    ensures
        match result {
            Ok(count) => offset_value(query@, floats(*f)) == Ok::<nat, ErrorView>(count as nat),
            Err(error) => offset_value(query@, floats(*f)) == Err::<nat, ErrorView>(error@),
        },
{
    match &query.offset {
        Some(expression) => usize_expression(f, expression, "OFFSET"),
        None => Ok(0),
    }
}

pub fn query_limit<F: Fn(FloatTask) -> FloatReply>(f: &F, query: &Query) -> (result: Result<Option<usize>, Error>)
    requires
        computes(*f),
    ensures
        match result {
            Ok(count) => limit_value(query@, floats(*f)) == Ok::<Option<nat>, ErrorView>(optional_count(count)),
            Err(error) => limit_value(query@, floats(*f)) == Err::<Option<nat>, ErrorView>(error@),
        },
{
    match &query.limit {
        Some(expression) => {
            let count: usize = usize_expression(f, expression, "LIMIT")?;
            Ok(Some(count))
        },
        None => Ok(None),
    }
}

/// The types of the outputs from `from` on, after `done`.
pub open spec fn output_types(
    projection: Seq<ProjectionView>,
    schema: SchemaView,
    floats: Floats,
    from: nat,
    done: Seq<Option<DataType>>,
) -> Result<Seq<Option<DataType>>, ErrorView>
    decreases projection.len() - from,
{
    if from >= projection.len() {
        Ok(done)
    } else {
        match output_type(projection[from as int].output, schema, floats) {
            Err(error) => Err(error),
            Ok(data_type) => output_types(projection, schema, floats, from + 1, done.push(data_type)),
        }
    }
}

pub fn types_of_outputs<F: Fn(FloatTask) -> FloatReply>(f: &F, projection: &Vec<Projection<'_>>, schema: &Schema<'_>) -> (result: Result<
    Vec<Option<DataType>>,
    Error,
>)
    requires
        computes(*f),
        schema@.valid(),
        outputs_within(views(projection@), schema.columns@.len()),
    ensures
        match result {
            Ok(types) => output_types(views(projection@), schema@, floats(*f), 0, Seq::empty()) == Ok::<
                Seq<Option<DataType>>,
                ErrorView,
            >(types@),
            Err(error) => output_types(views(projection@), schema@, floats(*f), 0, Seq::empty()) == Err::<
                Seq<Option<DataType>>,
                ErrorView,
            >(error@),
        },
{
    let mut out: Vec<Option<DataType>> = Vec::new();
    let mut index: usize = 0;
    while index < projection.len()
        invariant
            computes(*f),
            schema@.valid(),
            outputs_within(views(projection@), schema.columns@.len()),
            index <= projection@.len(),
            output_types(views(projection@), schema@, floats(*f), index as nat, out@) == output_types(
                views(projection@),
                schema@,
                floats(*f),
                0,
                Seq::empty(),
            ),
        decreases projection@.len() - index,
    {
        assert(views(projection@)[index as int] == projection@[index as int]@);
        let data_type = projection[index].output.data_type(f, schema)?;
        out.push(data_type);
        index = index + 1;
    }
    Ok(out)
}

/// Whether the columns that the outputs from `from` on name exist.
pub open spec fn outputs_known(projection: Seq<ProjectionView>, schema: SchemaView, from: nat) -> Result<(), ErrorView>
    decreases projection.len() - from,
{
    if from >= projection.len() {
        Ok(())
    } else {
        match output_known(projection[from as int].output, schema) {
            Err(error) => Err(error),
            Ok(_) => outputs_known(projection, schema, from + 1),
        }
    }
}

pub fn check_outputs(projection: &Vec<Projection<'_>>, schema: &Schema<'_>) -> (result: Result<(), Error>)
    requires
        schema@.valid(),
    ensures
        plain(result) == outputs_known(views(projection@), schema@, 0),
{
    let mut index: usize = 0;
    while index < projection.len()
        invariant
            schema@.valid(),
            index <= projection@.len(),
            outputs_known(views(projection@), schema@, index as nat) == outputs_known(views(projection@), schema@, 0),
        decreases projection@.len() - index,
    {
        assert(views(projection@)[index as int] == projection@[index as int]@);
        projection[index].output.check_columns(schema)?;
        index = index + 1;
    }
    Ok(())
}

/// Whether a condition names existing columns and is one.
pub open spec fn condition_checked(condition: Option<PhraseView>, schema: SchemaView, floats: Floats) -> Result<(), ErrorView> {
    match condition {
        None => Ok(()),
        Some(phrase) => match known_columns(phrase.expr, schema) {
            Err(error) => Err(error),
            Ok(_) => condition_typed(condition, schema, floats),
        },
    }
}

/// Whether a condition has the type of one.
pub open spec fn condition_typed(condition: Option<PhraseView>, schema: SchemaView, floats: Floats) -> Result<(), ErrorView> {
    match condition {
        None => Ok(()),
        Some(phrase) => match expression_type(phrase.expr, schema, floats) {
            Err(error) => Err(error),
            Ok(data_type) => boolean(data_type),
        },
    }
}

pub fn check_condition_type<F: Fn(FloatTask) -> FloatReply>(f: &F, condition: &Option<Phrase>, schema: &Schema<'_>) -> (result: Result<
    (),
    Error,
>)
    requires
        computes(*f),
        schema@.valid(),
    ensures
        plain(result) == condition_typed(optional(*condition), schema@, floats(*f)),
{
    match condition {
        None => Ok(()),
        Some(phrase) => {
            let data_type = expression_data_type(f, &phrase.expr, schema)?;
            ensure_boolean_type(data_type)
        },
    }
}

pub fn check_condition<F: Fn(FloatTask) -> FloatReply>(f: &F, condition: &Option<Phrase>, schema: &Schema<'_>) -> (result: Result<
    (),
    Error,
>)
    requires
        computes(*f),
        schema@.valid(),
    ensures
        plain(result) == condition_checked(optional(*condition), schema@, floats(*f)),
{
    match condition {
        None => Ok(()),
        Some(phrase) => {
            validate_expression_columns(&phrase.expr, schema)?;
            check_condition_type(f, condition, schema)
        },
    }
}

/// Whether rows can be ordered by an item.
pub open spec fn order_checked(item: OrderView, projection: Seq<ProjectionView>, schema: SchemaView, floats: Floats) -> Result<
    (),
    ErrorView,
> {
    both(
        if order_alias(item.expr, labels(projection)) is Some {
            Ok(())
        } else {
            known_columns(item.expr, schema)
        },
        match output_type(order_output(item.expr, projection), schema, floats) {
            Err(error) => Err(error),
            Ok(data_type) => sortable(data_type),
        },
    )
}

/// Whether rows can be ordered by the items from `from` on.
pub open spec fn orders_checked(
    items: Seq<OrderView>,
    projection: Seq<ProjectionView>,
    schema: SchemaView,
    floats: Floats,
    from: nat,
) -> Result<(), ErrorView>
    decreases items.len() - from,
{
    if from >= items.len() {
        Ok(())
    } else {
        match order_checked(items[from as int], projection, schema, floats) {
            Err(error) => Err(error),
            Ok(_) => orders_checked(items, projection, schema, floats, from + 1),
        }
    }
}

fn check_order<F: Fn(FloatTask) -> FloatReply>(f: &F, item: &OrderItem, projection: &Vec<Projection<'_>>, schema: &Schema<'_>) -> (result:
    Result<(), Error>)
    requires
        computes(*f),
        schema@.valid(),
        outputs_within(views(projection@), schema.columns@.len()),
    ensures
        plain(result) == order_checked(item@, views(projection@), schema@, floats(*f)),
{
    match find_order_alias(&item.expr, projection) {
        Some(index) => {
            assert(views(projection@)[index as int] == projection@[index as int]@);
            let data_type = projection[index].output.data_type(f, schema)?;
            ensure_sortable_scalar_type(data_type)
        },
        None => {
            validate_expression_columns(&item.expr, schema)?;
            let data_type = expression_data_type(f, &item.expr, schema)?;
            ensure_sortable_scalar_type(data_type)
        },
    }
}

pub fn check_orders<F: Fn(FloatTask) -> FloatReply>(
    f: &F,
    items: &Vec<OrderItem>,
    projection: &Vec<Projection<'_>>,
    schema: &Schema<'_>,
) -> (result: Result<(), Error>)
    requires
        computes(*f),
        schema@.valid(),
        outputs_within(views(projection@), schema.columns@.len()),
    ensures
        plain(result) == orders_checked(views(items@), views(projection@), schema@, floats(*f), 0),
{
    let mut index: usize = 0;
    while index < items.len()
        invariant
            computes(*f),
            schema@.valid(),
            outputs_within(views(projection@), schema.columns@.len()),
            index <= items@.len(),
            orders_checked(views(items@), views(projection@), schema@, floats(*f), index as nat) == orders_checked(
                views(items@),
                views(projection@),
                schema@,
                floats(*f),
                0,
            ),
        decreases items@.len() - index,
    {
        check_order(f, &items[index], projection, schema)?;
        index = index + 1;
    }
    Ok(())
}

/// Whether a phrase, from `from` on, is made with an aggregate.
pub open spec fn any_phrase_aggregates(phrases: Seq<PhraseView>, from: nat) -> bool
    decreases phrases.len() - from,
{
    from < phrases.len() && (contains_aggregate(phrases[from as int].expr) || any_phrase_aggregates(phrases, from + 1))
}

/// Whether an output, from `from` on, is made with an aggregate.
pub open spec fn any_output_aggregates(projection: Seq<ProjectionView>, from: nat) -> bool
    decreases projection.len() - from,
{
    from < projection.len() && (output_aggregates(projection[from as int].output) || any_output_aggregates(
        projection,
        from + 1,
    ))
}

pub open spec fn phrase_aggregates(phrase: Option<PhraseView>) -> bool {
    phrase matches Some(phrase) && contains_aggregate(phrase.expr)
}

/// Whether aggregates stand only where they may.
pub open spec fn aggregates_placed(selection: Option<PhraseView>, group_by: Seq<PhraseView>) -> Result<(), ErrorView> {
    if phrase_aggregates(selection) {
        Err(ErrorView::InvalidQuery("aggregate functions are not allowed in WHERE"@))
    } else if any_phrase_aggregates(group_by, 0) {
        Err(ErrorView::InvalidQuery("aggregate functions are not allowed in GROUP BY"@))
    } else {
        Ok(())
    }
}

fn phrases_contain_aggregate(phrases: &Vec<Phrase>) -> (result: bool)
    ensures
        result == any_phrase_aggregates(views(phrases@), 0),
{
    let mut index: usize = 0;
    while index < phrases.len()
        invariant
            index <= phrases@.len(),
            any_phrase_aggregates(views(phrases@), index as nat) == any_phrase_aggregates(views(phrases@), 0),
        decreases phrases@.len() - index,
    {
        if expression_contains_aggregate(&phrases[index].expr) {
            return true;
        }
        index = index + 1;
    }
    false
}

pub fn outputs_contain_aggregate(projection: &Vec<Projection<'_>>) -> (result: bool)
    ensures
        result == any_output_aggregates(views(projection@), 0),
{
    let mut index: usize = 0;
    while index < projection.len()
        invariant
            index <= projection@.len(),
            any_output_aggregates(views(projection@), index as nat) == any_output_aggregates(views(projection@), 0),
        decreases projection@.len() - index,
    {
        if projection[index].output.aggregates() {
            return true;
        }
        index = index + 1;
    }
    false
}

pub fn phrase_contains_aggregate(phrase: &Option<Phrase>) -> (result: bool)
    ensures
        result == phrase_aggregates(optional(*phrase)),
{
    match phrase {
        Some(phrase) => expression_contains_aggregate(&phrase.expr),
        None => false,
    }
}

/// Fails exactly when an aggregate stands where none may.
pub fn validate_aggregate_placement(selection: &Option<Phrase>, group_by: &Vec<Phrase>) -> (result: Result<(), Error>)
    ensures
        plain(result) == aggregates_placed(optional(*selection), views(group_by@)),
{
    if phrase_contains_aggregate(selection) {
        return Err(invalid("aggregate functions are not allowed in WHERE"));
    }
    if phrases_contain_aggregate(group_by) {
        return Err(invalid("aggregate functions are not allowed in GROUP BY"));
    }
    Ok(())
}

/// Whether the phrases from `from` on have types.
pub open spec fn phrases_typed(phrases: Seq<PhraseView>, schema: SchemaView, floats: Floats, from: nat) -> Result<(), ErrorView>
    decreases phrases.len() - from,
{
    if from >= phrases.len() {
        Ok(())
    } else {
        match expression_type(phrases[from as int].expr, schema, floats) {
            Err(error) => Err(error),
            Ok(_) => phrases_typed(phrases, schema, floats, from + 1),
        }
    }
}

fn check_phrase_types<F: Fn(FloatTask) -> FloatReply>(f: &F, phrases: &Vec<Phrase>, schema: &Schema<'_>) -> (result: Result<
    (),
    Error,
>)
    requires
        computes(*f),
        schema@.valid(),
    ensures
        plain(result) == phrases_typed(views(phrases@), schema@, floats(*f), 0),
{
    let mut index: usize = 0;
    while index < phrases.len()
        invariant
            computes(*f),
            schema@.valid(),
            index <= phrases@.len(),
            phrases_typed(views(phrases@), schema@, floats(*f), index as nat) == phrases_typed(
                views(phrases@),
                schema@,
                floats(*f),
                0,
            ),
        decreases phrases@.len() - index,
    {
        expression_data_type(f, &phrases[index].expr, schema)?;
        index = index + 1;
    }
    Ok(())
}

/// Whether the columns that the phrases from `from` on name exist.
pub open spec fn phrases_known(phrases: Seq<PhraseView>, schema: SchemaView, from: nat) -> Result<(), ErrorView>
    decreases phrases.len() - from,
{
    if from >= phrases.len() {
        Ok(())
    } else {
        match known_columns(phrases[from as int].expr, schema) {
            Err(error) => Err(error),
            Ok(_) => phrases_known(phrases, schema, from + 1),
        }
    }
}

/// Fails exactly when a column that a phrase names does not exist.
pub fn check_phrases(phrases: &Vec<Phrase>, schema: &Schema<'_>) -> (result: Result<(), Error>)
    requires
        schema@.valid(),
    ensures
        plain(result) == phrases_known(views(phrases@), schema@, 0),
{
    let mut index: usize = 0;
    while index < phrases.len()
        invariant
            schema@.valid(),
            index <= phrases@.len(),
            phrases_known(views(phrases@), schema@, index as nat) == phrases_known(views(phrases@), schema@, 0),
        decreases phrases@.len() - index,
    {
        validate_expression_columns(&phrases[index].expr, schema)?;
        index = index + 1;
    }
    Ok(())
}

/// A query that has been checked against a schema.
pub struct Plan<'a> {
    pub projection: Vec<Projection<'a>>,
    pub types: Vec<Option<DataType>>,
    pub offset: usize,
    pub limit: Option<usize>,
    pub group_by: &'a Vec<Phrase>,
}

pub struct QueryPlanView {
    pub projection: Seq<ProjectionView>,
    pub types: Seq<Option<DataType>>,
    pub offset: nat,
    pub limit: Option<nat>,
    pub group_by: Seq<PhraseView>,
}

impl<'a> View for Plan<'a> {
    type V = QueryPlanView;

    open spec fn view(&self) -> QueryPlanView {
        QueryPlanView {
            projection: views(self.projection@),
            types: self.types@,
            offset: self.offset as nat,
            limit: optional_count(self.limit),
            group_by: views(self.group_by@),
        }
    }
}

/// The window and the grouping of a query whose outputs have been checked.
pub open spec fn bounded(
    select: SelectView,
    query: QueryView,
    schema: SchemaView,
    floats: Floats,
    projection: Seq<ProjectionView>,
    types: Seq<Option<DataType>>,
) -> Result<QueryPlanView, ErrorView> {
    match offset_value(query, floats) {
        Err(error) => Err(error),
        Ok(offset) => match limit_value(query, floats) {
            Err(error) => Err(error),
            Ok(limit) => match select.group_by {
                None => Err(ErrorView::Unsupported("GROUP BY ALL"@)),
                Some(group_by) => match both(
                    aggregates_placed(select.selection, group_by),
                    both(phrases_typed(group_by, schema, floats, 0), condition_typed(select.having, schema, floats)),
                ) {
                    Err(error) => Err(error),
                    Ok(_) => Ok(QueryPlanView { projection, types, offset, limit, group_by }),
                },
            },
        },
    }
}

/// A query checked against a schema.
pub open spec fn planned(select: SelectView, query: QueryView, columns: Seq<ColumnView>, floats: Floats) -> Result<
    QueryPlanView,
    ErrorView,
> {
    let schema = SchemaView::plain(columns);
    match projected(select.projection, columns, 0, Seq::empty()) {
        Err(error) => Err(error),
        Ok(projection) => match output_types(projection, schema, floats, 0, Seq::empty()) {
            Err(error) => Err(error),
            Ok(types) => match both(
                outputs_known(projection, schema, 0),
                both(
                    condition_checked(select.selection, schema, floats),
                    orders_checked(query.order_by, projection, schema, floats, 0),
                ),
            ) {
                Err(error) => Err(error),
                Ok(_) => bounded(select, query, schema, floats, projection, types),
            },
        },
    }
}

pub open spec fn plan_result(result: Result<Plan<'_>, Error>) -> Result<QueryPlanView, ErrorView> {
    match result {
        Ok(plan) => Ok(plan@),
        Err(error) => Err(error@),
    }
}

/// The outputs of a plain projection are expressions.
pub proof fn lemma_projected_expressions(
    items: Seq<SelectItemView>,
    columns: Seq<ColumnView>,
    from: nat,
    done: Seq<ProjectionView>,
)
    requires
        forall|i: int| 0 <= i < done.len() ==> (#[trigger] done[i]).output is Expr,
    ensures
        projected(items, columns, from, done) matches Ok(projection) ==> forall|i: int|
            0 <= i < projection.len() ==> (#[trigger] projection[i]).output is Expr,
    decreases items.len() - from,
{
    if from < items.len() {
        match items[from as int] {
            SelectItemView::Unnamed(phrase) => {
                lemma_projected_expressions(
                    items,
                    columns,
                    from + 1,
                    done.push(
                        ProjectionView {
                            output: OutputView::Expr(phrase.expr),
                            label: phrase_label(phrase),
                        },
                    ),
                );
            },
            SelectItemView::Aliased(expression, alias) => {
                lemma_projected_expressions(
                    items,
                    columns,
                    from + 1,
                    done.push(ProjectionView { output: OutputView::Expr(expression), label: alias.name() }),
                );
            },
            SelectItemView::Wildcard { qualifier, plain, text } => {
                if plain {
                    lemma_every_column(columns, 0, done);
                    lemma_projected_expressions(
                        items,
                        columns,
                        from + 1,
                        every_column(columns, 0, done),
                    );
                }
            },
        }
    }
}

proof fn lemma_every_column(columns: Seq<ColumnView>, from: nat, done: Seq<ProjectionView>)
    requires
        forall|i: int| 0 <= i < done.len() ==> (#[trigger] done[i]).output is Expr,
    ensures
        forall|i: int|
            0 <= i < every_column(columns, from, done).len() ==> (
            #[trigger] every_column(columns, from, done)[i]).output is Expr,
    decreases columns.len() - from,
{
    if from < columns.len() {
        let name = columns[from as int].name;
        lemma_every_column(
            columns,
            from + 1,
            done.push(
                ProjectionView {
                    output: OutputView::Expr(column_reference(name)),
                    label: name,
                },
            ),
        );
    }
}

/// Checks a query against a schema.
pub fn plan_query<'a, F: Fn(FloatTask) -> FloatReply>(f: &F, select: &'a Select, query: &'a Query, columns: &Vec<Column>) -> (result:
    Result<Plan<'a>, Error>)
    requires
        computes(*f),
    ensures
        plan_result(result) == planned(select@, query@, views(columns@), floats(*f)),
        result matches Ok(plan) ==> forall|i: int|
            0 <= i < plan.projection@.len() ==> (#[trigger] plan@.projection[i]).output is Expr,
{
    let schema = Schema { columns, sources: None };
    let projection = build_projection(&select.projection, columns)?;
    proof {
        lemma_projected_expressions(select@.projection, views(columns@), 0, Seq::empty());
    }
    let types = types_of_outputs(f, &projection, &schema)?;
    check_outputs(&projection, &schema)?;
    check_condition(f, &select.selection, &schema)?;
    check_orders(f, &query.order_by, &projection, &schema)?;
    let offset: usize = query_offset(f, query)?;
    let limit = query_limit(f, query)?;
    let group_by = match &select.group_by {
        Some(group_by) => group_by,
        None => return Err(unsupported("GROUP BY ALL")),
    };
    validate_aggregate_placement(&select.selection, group_by)?;
    check_phrase_types(f, group_by, &schema)?;
    check_condition_type(f, &select.having, &schema)?;
    Ok(Plan { projection, types, offset, limit, group_by })
}

/// The value that a row is ordered by under an item.
pub open spec fn order_value(
    item: OrderView,
    alias: Option<nat>,
    values: Seq<ValueView>,
    scope: ScopeView,
    floats: Floats,
) -> Result<ValueView, ErrorView> {
    match alias {
        Some(index) => Ok(values[index as int]),
        None => evaluated(item.expr, scope, floats),
    }
}

/// The outputs that the items name by their labels.
pub open spec fn order_aliases(items: Seq<OrderView>, projection: Seq<ProjectionView>) -> Seq<Option<nat>> {
    items.map_values(|item: OrderView| order_alias(item.expr, labels(projection)))
}

pub open spec fn alias_views(aliases: Seq<Option<usize>>) -> Seq<Option<nat>> {
    aliases.map_values(|alias: Option<usize>| optional_count(alias))
}

/// Whether each alias is one of so many outputs.
pub open spec fn aliases_within(aliases: Seq<Option<usize>>, count: nat) -> bool {
    forall|i: int| 0 <= i < aliases.len() ==> (#[trigger] aliases[i] matches Some(index) ==> index < count)
}

/// The outputs that the items name by their labels.
pub fn find_order_aliases(items: &Vec<OrderItem>, projection: &Vec<Projection<'_>>) -> (result: Vec<Option<usize>>)
    ensures
        alias_views(result@) == order_aliases(views(items@), views(projection@)),
        aliases_within(result@, projection@.len()),
{
    let mut out: Vec<Option<usize>> = Vec::new();
    let mut index: usize = 0;
    while index < items.len()
        invariant
            index <= items@.len(),
            out@.len() == index,
            aliases_within(out@, projection@.len()),
            forall|i: int|
                0 <= i < index ==> optional_count(#[trigger] out@[i]) == order_alias(
                    items@[i].expr@,
                    labels(views(projection@)),
                ),
        decreases items@.len() - index,
    {
        out.push(find_order_alias(&items[index].expr, projection));
        index = index + 1;
    }
    assert(alias_views(out@) =~= order_aliases(views(items@), views(projection@)));
    out
}

/// The values that a row is ordered by under the items from `from` on, after `done`.
pub open spec fn order_values(
    items: Seq<OrderView>,
    aliases: Seq<Option<nat>>,
    values: Seq<ValueView>,
    scope: ScopeView,
    floats: Floats,
    from: nat,
    done: Seq<ValueView>,
) -> Result<Seq<ValueView>, ErrorView>
    decreases items.len() - from,
{
    if from >= items.len() {
        Ok(done)
    } else {
        match order_value(items[from as int], aliases[from as int], values, scope, floats) {
            Err(error) => Err(error),
            Ok(value) => order_values(items, aliases, values, scope, floats, from + 1, done.push(value)),
        }
    }
}

/// The values of the outputs from `from` on, after `done`.
pub open spec fn output_values(
    projection: Seq<ProjectionView>,
    scope: ScopeView,
    floats: Floats,
    from: nat,
    done: Seq<ValueView>,
) -> Result<Seq<ValueView>, ErrorView>
    decreases projection.len() - from,
{
    if from >= projection.len() {
        Ok(done)
    } else {
        match output_value(projection[from as int].output, scope, floats) {
            Err(error) => Err(error),
            Ok(value) => output_values(projection, scope, floats, from + 1, done.push(value)),
        }
    }
}

/// The candidate that a row makes; none where the condition does not select it.
pub open spec fn row_candidate(
    selection: Option<ExprView>,
    projection: Seq<ProjectionView>,
    items: Seq<OrderView>,
    aliases: Seq<Option<nat>>,
    scope: ScopeView,
    floats: Floats,
) -> Result<Option<CandidateView>, ErrorView> {
    match selects(selection, scope, floats) {
        Err(error) => Err(error),
        Ok(false) => Ok(None),
        Ok(true) => match output_values(projection, scope, floats, 0, Seq::empty()) {
            Err(error) => Err(error),
            Ok(values) => match order_values(items, aliases, values, scope, floats, 0, Seq::empty()) {
                Err(error) => Err(error),
                Ok(order) => Ok(Some(CandidateView { values, order })),
            },
        },
    }
}

/// The candidates that the rows from `from` on make, after `done`.
pub open spec fn row_candidates(
    columns: Seq<ColumnView>,
    rows: Seq<Seq<ValueView>>,
    selection: Option<ExprView>,
    projection: Seq<ProjectionView>,
    items: Seq<OrderView>,
    floats: Floats,
    from: nat,
    done: Seq<CandidateView>,
) -> Result<Seq<CandidateView>, ErrorView>
    decreases rows.len() - from,
{
    if from >= rows.len() {
        Ok(done)
    } else {
        match row_candidate(
            selection,
            projection,
            items,
            order_aliases(items, projection),
            ScopeView::plain(columns, rows[from as int]),
            floats,
        ) {
            Err(error) => Err(error),
            Ok(None) => row_candidates(columns, rows, selection, projection, items, floats, from + 1, done),
            Ok(Some(candidate)) => row_candidates(
                columns,
                rows,
                selection,
                projection,
                items,
                floats,
                from + 1,
                done.push(candidate),
            ),
        }
    }
}

fn evaluate_outputs<F: Fn(FloatTask) -> FloatReply>(f: &F, projection: &Vec<Projection<'_>>, context: &EvalContext<'_>) -> (result:
    Result<Vec<Value>, Error>)
    requires
        computes(*f),
        context@.valid(),
        outputs_within(views(projection@), context.row@.len()),
    ensures
        match result {
            Ok(values) => output_values(views(projection@), context@, floats(*f), 0, Seq::empty()) == Ok::<
                Seq<ValueView>,
                ErrorView,
            >(views(values@)) && values@.len() == projection@.len(),
            Err(error) => output_values(views(projection@), context@, floats(*f), 0, Seq::empty()) == Err::<
                Seq<ValueView>,
                ErrorView,
            >(error@),
        },
{
    let mut out: Vec<Value> = Vec::new();
    assert(views(out@) =~= Seq::<ValueView>::empty());
    let mut index: usize = 0;
    while index < projection.len()
        invariant
            computes(*f),
            context@.valid(),
            outputs_within(views(projection@), context.row@.len()),
            index <= projection@.len(),
            out@.len() == index,
            output_values(views(projection@), context@, floats(*f), index as nat, views(out@)) == output_values(
                views(projection@),
                context@,
                floats(*f),
                0,
                Seq::empty(),
            ),
        decreases projection@.len() - index,
    {
        assert(views(projection@)[index as int] == projection@[index as int]@);
        let value = projection[index].output.value(f, context)?;
        out.push(value);
        index = index + 1;
    }
    Ok(out)
}

fn evaluate_orders<F: Fn(FloatTask) -> FloatReply>(
    f: &F,
    items: &Vec<OrderItem>,
    aliases: &Vec<Option<usize>>,
    values: &Vec<Value>,
    context: &EvalContext<'_>,
) -> (result: Result<Vec<Value>, Error>)
    requires
        computes(*f),
        context@.valid(),
        aliases@.len() == items@.len(),
        aliases_within(aliases@, values@.len()),
    ensures
        match result {
            Ok(order) => order_values(
                views(items@),
                alias_views(aliases@),
                views(values@),
                context@,
                floats(*f),
                0,
                Seq::empty(),
            ) == Ok::<Seq<ValueView>, ErrorView>(views(order@)) && order@.len() == items@.len(),
            Err(error) => order_values(
                views(items@),
                alias_views(aliases@),
                views(values@),
                context@,
                floats(*f),
                0,
                Seq::empty(),
            ) == Err::<Seq<ValueView>, ErrorView>(error@),
        },
{
    let mut out: Vec<Value> = Vec::new();
    assert(views(out@) =~= Seq::<ValueView>::empty());
    let mut index: usize = 0;
    while index < items.len()
        invariant
            computes(*f),
            context@.valid(),
            aliases@.len() == items@.len(),
            aliases_within(aliases@, values@.len()),
            index <= items@.len(),
            out@.len() == index,
            order_values(
                views(items@),
                alias_views(aliases@),
                views(values@),
                context@,
                floats(*f),
                index as nat,
                views(out@),
            ) == order_values(
                views(items@),
                alias_views(aliases@),
                views(values@),
                context@,
                floats(*f),
                0,
                Seq::empty(),
            ),
        decreases items@.len() - index,
    {
        assert(views(items@)[index as int] == items@[index as int]@);
        assert(alias_views(aliases@)[index as int] == optional_count(aliases@[index as int]));
        let value = match aliases[index] {
            Some(at) => {
                assert(views(values@)[at as int] == values@[at as int]@);
                values[at].clone()
            },
            None => evaluate(f, &items[index].expr, context)?,
        };
        out.push(value);
        index = index + 1;
    }
    Ok(out)
}

pub open spec fn candidate_result(result: Result<Option<Candidate>, Error>) -> Result<Option<CandidateView>, ErrorView> {
    match result {
        Ok(Some(candidate)) => Ok(Some(candidate@)),
        Ok(None) => Ok(None),
        Err(error) => Err(error@),
    }
}

/// The candidate that a row makes; none where the condition does not select it.
pub fn make_candidate<F: Fn(FloatTask) -> FloatReply>(
    f: &F,
    selection: Option<&Expr>,
    projection: &Vec<Projection<'_>>,
    items: &Vec<OrderItem>,
    aliases: &Vec<Option<usize>>,
    context: &EvalContext<'_>,
) -> (result: Result<Option<Candidate>, Error>)
    requires
        computes(*f),
        context@.valid(),
        outputs_within(views(projection@), context.row@.len()),
        aliases@.len() == items@.len(),
        aliases_within(aliases@, projection@.len()),
    ensures
        candidate_result(result) == row_candidate(
            borrowed(selection),
            views(projection@),
            views(items@),
            alias_views(aliases@),
            context@,
            floats(*f),
        ),
        result matches Ok(Some(candidate)) ==> candidate.order@.len() == items@.len(),
{
    if !is_selected(f, selection, context)? {
        return Ok(None);
    }
    let values = evaluate_outputs(f, projection, context)?;
    let order = evaluate_orders(f, items, aliases, &values, context)?;
    Ok(Some(Candidate { values, order }))
}

pub open spec fn candidates_result(result: Result<Vec<Candidate>, Error>) -> Result<Seq<CandidateView>, ErrorView> {
    match result {
        Ok(candidates) => Ok(views(candidates@)),
        Err(error) => Err(error@),
    }
}

/// The candidates that the picked rows make.
pub fn make_candidates<F: Fn(FloatTask) -> FloatReply>(
    f: &F,
    columns: &Vec<Column>,
    rows: &Vec<Vec<Value>>,
    picked: &Vec<usize>,
    selection: Option<&Expr>,
    projection: &Vec<Projection<'_>>,
    items: &Vec<OrderItem>,
) -> (result: Result<Vec<Candidate>, Error>)
    requires
        computes(*f),
        rows_of_width(row_views(rows@), columns@.len()),
        valid_positions(picked@, rows@.len()),
        outputs_within(views(projection@), columns@.len()),
    ensures
        candidates_result(result) == row_candidates(
            views(columns@),
            picked_rows(row_views(rows@), picked@),
            borrowed(selection),
            views(projection@),
            views(items@),
            floats(*f),
            0,
            Seq::empty(),
        ),
        result matches Ok(candidates) ==> keyed(views(candidates@), items@.len()),
{
    let ghost source = picked_rows(row_views(rows@), picked@);
    let aliases = find_order_aliases(items, projection);
    assert(alias_views(aliases@).len() == items@.len());
    let mut out: Vec<Candidate> = Vec::new();
    assert(views(out@) =~= Seq::<CandidateView>::empty());
    let mut index: usize = 0;
    while index < picked.len()
        invariant
            computes(*f),
            rows_of_width(row_views(rows@), columns@.len()),
            valid_positions(picked@, rows@.len()),
            outputs_within(views(projection@), columns@.len()),
            aliases@.len() == items@.len(),
            aliases_within(aliases@, projection@.len()),
            alias_views(aliases@) == order_aliases(views(items@), views(projection@)),
            source == picked_rows(row_views(rows@), picked@),
            index <= picked@.len(),
            keyed(views(out@), items@.len()),
            row_candidates(
                views(columns@),
                source,
                borrowed(selection),
                views(projection@),
                views(items@),
                floats(*f),
                index as nat,
                views(out@),
            ) == row_candidates(
                views(columns@),
                source,
                borrowed(selection),
                views(projection@),
                views(items@),
                floats(*f),
                0,
                Seq::empty(),
            ),
        decreases picked@.len() - index,
    {
        let ghost before = views(out@);
        let row = &rows[picked[index]];
        proof {
            assert(source[index as int] == row_views(rows@)[picked@[index as int] as int]);
            assert(row_views(rows@)[picked@[index as int] as int] == views(row@));
            assert(row_views(rows@)[picked@[index as int] as int].len() == columns@.len());
        }
        let context = EvalContext::new(columns, row);
        if let Some(candidate) = make_candidate(f, selection, projection, items, &aliases, &context)? {
            out.push(candidate);
            assert forall|i: int| 0 <= i < views(out@).len() implies (#[trigger] views(out@)[i]).order.len() == items@.len() by {
                if i < before.len() {
                    assert(views(out@)[i] == before[i]);
                }
            }
        }
        index = index + 1;
    }
    Ok(out)
}

} // verus!
