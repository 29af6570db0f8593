//! The outputs of a query: what is selected, how it is called, and what rows are ordered by.

use vstd::prelude::*;
use crate::ast::{
    argument_view, ident_name, Argument, ArgumentView, BinaryOperator, BinaryView, Expr, ExprView, Function,
    FunctionView, Ident, IdentView, Phrase, PhraseView, SelectItem, SelectItemView,
};
use crate::error::{outcome, plain, Error, ErrorView};
use crate::eval::{
    evaluate, evaluate_constant, evaluated, function_metric, metric_of_function, EvalContext, Schema, SchemaView,
    ScopeView,
};
use crate::float::{computes, floats, FloatReply, FloatTask, Floats, Metric};
use crate::operators::{metric_of_operator, operator_metric};
use crate::text::{join2, lemma_views_push, normalize_name, normalized, views};
use crate::types::{
    contains_aggregate, expression_contains_aggregate, expression_data_type, expression_type, known_columns,
    validate_expression_columns,
};
use crate::value::{find_column, found_column, Column, ColumnView, DataType, Value, ValueView};
use crate::vector::Vector;
use crate::ast::{last_name, object_name};

verus! {

broadcast use {vstd::string::group_string_axioms, lemma_views_push};

/// What one output column holds: the value of an expression, or the value of one column of the
/// source.
#[derive(Debug)]
pub enum Output<'a> {
    Given(&'a Expr),
    Made(Expr),
    At(usize),
}

pub enum OutputView {
    Expr(ExprView),
    At(nat),
}

impl<'a> View for Output<'a> {
    type V = OutputView;

    open spec fn view(&self) -> OutputView {
        match self {
            Output::Given(expression) => OutputView::Expr(expression@),
            Output::Made(expression) => OutputView::Expr(expression@),
            Output::At(index) => OutputView::At(*index as nat),
        }
    }
}

/// One output column.
#[derive(Debug)]
pub struct Projection<'a> {
    pub output: Output<'a>,
    pub label: String,
}

pub struct ProjectionView {
    pub output: OutputView,
    pub label: Seq<char>,
}

impl<'a> View for Projection<'a> {
    type V = ProjectionView;

    open spec fn view(&self) -> ProjectionView {
        ProjectionView { output: self.output@, label: self.label@ }
    }
}

/// The labels of the output columns.
pub open spec fn labels(projection: Seq<ProjectionView>) -> Seq<Seq<char>> {
    projection.map_values(|item: ProjectionView| item.label)
}

/// The label of an expression without an alias.
pub open spec fn phrase_label(phrase: PhraseView) -> Seq<char> {
    match phrase.expr {
        ExprView::Identifier(identifier, _) => identifier.name(),
        ExprView::CompoundIdentifier(parts, _) => if parts.len() == 0 {
            phrase.text
        } else {
            parts.last().name()
        },
        _ => phrase.text,
    }
}

/// The label of an expression without an alias.
pub fn expression_label(phrase: &Phrase) -> (label: String)
    ensures
        label@ == phrase_label(phrase@),
{
    match &phrase.expr {
        Expr::Identifier(identifier, _) => ident_name(identifier),
        Expr::CompoundIdentifier(parts, _) => {
            if parts.len() == 0 {
                phrase.text.clone()
            } else {
                ident_name(&parts[parts.len() - 1])
            }
        },
        _ => phrase.text.clone(),
    }
}

/// The expression that names a column.
pub open spec fn column_reference(name: Seq<char>) -> ExprView {
    ExprView::Identifier(IdentView { value: name, quoted: false }, name)
}

/// The columns, each as an output under its own name, from `from` on, after `done`.
pub open spec fn every_column(columns: Seq<ColumnView>, from: nat, done: Seq<ProjectionView>) -> Seq<ProjectionView>
    decreases columns.len() - from,
{
    if from >= columns.len() {
        done
    } else {
        let name = columns[from as int].name;
        every_column(
            columns,
            from + 1,
            done.push(ProjectionView { output: OutputView::Expr(column_reference(name)), label: name }),
        )
    }
}

/// The outputs that the items from `from` on select, after `done`.
pub open spec fn projected(items: Seq<SelectItemView>, columns: Seq<ColumnView>, from: nat, done: Seq<ProjectionView>) -> Result<
    Seq<ProjectionView>,
    ErrorView,
>
    decreases items.len() - from,
{
    if from >= items.len() {
        Ok(done)
    } else {
        match items[from as int] {
            SelectItemView::Unnamed(phrase) => projected(
                items,
                columns,
                from + 1,
                done.push(ProjectionView { output: OutputView::Expr(phrase.expr), label: phrase_label(phrase) }),
            ),
            SelectItemView::Aliased(expression, alias) => projected(
                items,
                columns,
                from + 1,
                done.push(ProjectionView { output: OutputView::Expr(expression), label: alias.name() }),
            ),
            SelectItemView::Wildcard { qualifier, plain, text } => if plain {
                projected(items, columns, from + 1, every_column(columns, 0, done))
            } else {
                Err(ErrorView::Unsupported("wildcard projection "@ + text))
            },
        }
    }
}

fn append_columns<'a>(columns: &Vec<Column>, out: &mut Vec<Projection<'a>>)
    ensures
        views(final(out)@) == every_column(views(columns@), 0, views(old(out)@)),
{
    let ghost start = views(out@);
    let mut index: usize = 0;
    while index < columns.len()
        invariant
            index <= columns@.len(),
            every_column(views(columns@), index as nat, views(out@)) == every_column(views(columns@), 0, start),
        decreases columns@.len() - index,
    {
        assert(views(columns@)[index as int] == columns@[index as int]@);
        let name = &columns[index].name;
        let identifier = Ident { value: name.clone(), quoted: false };
        let item = Projection { output: Output::Made(Expr::Identifier(identifier, name.clone())), label: name.clone() };
        assert(item@ == ProjectionView { output: OutputView::Expr(column_reference(name@)), label: name@ });
        out.push(item);
        index = index + 1;
    }
}

/// The outputs that a `SELECT` list selects.
pub fn build_projection<'a>(items: &'a Vec<SelectItem>, columns: &Vec<Column>) -> (result: Result<Vec<Projection<'a>>, Error>)
    ensures
        match result {
            Ok(projection) => projected(views(items@), views(columns@), 0, Seq::empty()) == Ok::<
                Seq<ProjectionView>,
                ErrorView,
            >(views(projection@)),
            Err(error) => projected(views(items@), views(columns@), 0, Seq::empty()) == Err::<Seq<ProjectionView>, ErrorView>(
                error@,
            ),
        },
{
    let mut out: Vec<Projection<'a>> = Vec::new();
    assert(views(out@) =~= Seq::<ProjectionView>::empty());
    let mut index: usize = 0;
    while index < items.len()
        invariant
            index <= items@.len(),
            projected(views(items@), views(columns@), index as nat, views(out@)) == projected(
                views(items@),
                views(columns@),
                0,
                Seq::empty(),
            ),
        decreases items@.len() - index,
    {
        assert(views(items@)[index as int] == items@[index as int]@);
        match &items[index] {
            SelectItem::Unnamed(phrase) => {
                let item = Projection { output: Output::Given(&phrase.expr), label: expression_label(phrase) };
                out.push(item);
            },
            SelectItem::Aliased(expression, alias) => {
                let item = Projection { output: Output::Given(expression), label: ident_name(alias) };
                out.push(item);
            },
            SelectItem::Wildcard { qualifier: _, plain, text } => {
                if !*plain {
                    return Err(Error::Unsupported(join2("wildcard projection ", text.as_str())));
                }
                append_columns(columns, &mut out);
            },
        }
        index = index + 1;
    }
    Ok(out)
}

/// Copies of the labels.
pub fn copy_labels(projection: &Vec<Projection<'_>>) -> (result: Vec<String>)
    ensures
        views(result@) == labels(views(projection@)),
{
    let mut out: Vec<String> = Vec::new();
    let mut index: usize = 0;
    while index < projection.len()
        invariant
            index <= projection@.len(),
            out@.len() == index,
            forall|i: int| 0 <= i < index ==> (#[trigger] out@[i])@ == projection@[i].label@,
        decreases projection@.len() - index,
    {
        out.push(projection[index].label.clone());
        index = index + 1;
    }
    assert(views(out@) =~= labels(views(projection@)));
    out
}

/// The value of an output for a row.
pub open spec fn output_value(output: OutputView, scope: ScopeView, floats: Floats) -> Result<ValueView, ErrorView> {
    match output {
        OutputView::Expr(expression) => evaluated(expression, scope, floats),
        OutputView::At(index) => Ok(scope.row[index as int]),
    }
}

/// The type of an output.
pub open spec fn output_type(output: OutputView, schema: SchemaView, floats: Floats) -> Result<Option<DataType>, ErrorView> {
    match output {
        OutputView::Expr(expression) => expression_type(expression, schema, floats),
        OutputView::At(index) => Ok(Some(schema.columns[index as int].data_type)),
    }
}

/// Whether the columns that an output names exist.
pub open spec fn output_known(output: OutputView, schema: SchemaView) -> Result<(), ErrorView> {
    match output {
        OutputView::Expr(expression) => known_columns(expression, schema),
        OutputView::At(_) => Ok(()),
    }
}

/// Whether an output is made with an aggregate.
pub open spec fn output_aggregates(output: OutputView) -> bool {
    match output {
        OutputView::Expr(expression) => contains_aggregate(expression),
        OutputView::At(_) => false,
    }
}

/// Whether an output that is a column is one of the columns.
pub open spec fn output_within(output: OutputView, width: nat) -> bool {
    output matches OutputView::At(index) ==> index < width
}

/// Whether each output that is a column is one of the columns.
pub open spec fn outputs_within(projection: Seq<ProjectionView>, width: nat) -> bool {
    forall|i: int| 0 <= i < projection.len() ==> output_within((#[trigger] projection[i]).output, width)
}

impl<'a> Output<'a> {
    pub fn value<F: Fn(FloatTask) -> FloatReply>(&self, f: &F, context: &EvalContext<'_>) -> (result: Result<Value, Error>)
        requires
            computes(*f),
            context@.valid(),
            output_within(self@, context.row@.len()),
        ensures
            outcome(result) == output_value(self@, context@, floats(*f)),
    {
        match self {
            Output::Given(expression) => evaluate(f, expression, context),
            Output::Made(expression) => evaluate(f, expression, context),
            Output::At(index) => {
                assert(views(context.row@)[*index as int] == context.row@[*index as int]@);
                Ok(context.row[*index].clone())
            },
        }
    }

    pub fn data_type<F: Fn(FloatTask) -> FloatReply>(&self, f: &F, schema: &Schema<'_>) -> (result: Result<
        Option<DataType>,
        Error,
    >)
        requires
            computes(*f),
            schema@.valid(),
            output_within(self@, schema.columns@.len()),
        ensures
            plain(result) == output_type(self@, schema@, floats(*f)),
    {
        match self {
            Output::Given(expression) => expression_data_type(f, expression, schema),
            Output::Made(expression) => expression_data_type(f, expression, schema),
            Output::At(index) => {
                assert(views(schema.columns@)[*index as int] == schema.columns@[*index as int]@);
                Ok(Some(schema.columns[*index].data_type))
            },
        }
    }

    pub fn check_columns(&self, schema: &Schema<'_>) -> (result: Result<(), Error>)
        requires
            schema@.valid(),
        ensures
            plain(result) == output_known(self@, schema@),
    {
        match self {
            Output::Given(expression) => validate_expression_columns(expression, schema),
            Output::Made(expression) => validate_expression_columns(expression, schema),
            Output::At(_) => Ok(()),
        }
    }

    pub fn aggregates(&self) -> (result: bool)
        ensures
            result == output_aggregates(self@),
    {
        match self {
            Output::Given(expression) => expression_contains_aggregate(expression),
            Output::Made(expression) => expression_contains_aggregate(expression),
            Output::At(_) => false,
        }
    }

    /// The expression of the output.
    pub fn expression(&self) -> (result: Option<&Expr>)
        ensures
            match result {
                Some(expression) => self@ == OutputView::Expr(expression@),
                None => self@ is At,
            },
    {
        match self {
            Output::Given(expression) => Some(expression),
            Output::Made(expression) => Some(expression),
            Output::At(_) => None,
        }
    }
}

/// The first label, from `from` on, of this name; case does not matter in labels.
pub open spec fn label_position(labels: Seq<Seq<char>>, name: Seq<char>, from: nat) -> Option<nat>
    decreases labels.len() - from,
{
    if from >= labels.len() {
        None
    } else if normalized(labels[from as int]) == name {
        Some(from)
    } else {
        label_position(labels, name, from + 1)
    }
}

pub proof fn lemma_label_position(labels: Seq<Seq<char>>, name: Seq<char>, from: nat)
    ensures
        label_position(labels, name, from) matches Some(index) ==> from <= index < labels.len(),
    decreases labels.len() - from,
{
    if from < labels.len() && normalized(labels[from as int]) != name {
        lemma_label_position(labels, name, from + 1);
    }
}

/// The output that an ordering names by its label.
pub open spec fn order_alias(order: ExprView, labels: Seq<Seq<char>>) -> Option<nat> {
    match order {
        ExprView::Identifier(identifier, _) => label_position(labels, identifier.name(), 0),
        _ => None,
    }
}

/// What an ordering orders by: the output that it names by its label, or else its expression.
pub open spec fn order_output(order: ExprView, projection: Seq<ProjectionView>) -> OutputView {
    match order_alias(order, labels(projection)) {
        Some(index) => projection[index as int].output,
        None => OutputView::Expr(order),
    }
}

/// The output that an ordering names by its label.
pub fn find_order_alias(order: &Expr, projection: &Vec<Projection<'_>>) -> (result: Option<usize>)
    ensures
        match result {
            Some(index) => order_alias(order@, labels(views(projection@))) == Some(index as nat) && index
                < projection@.len(),
            None => order_alias(order@, labels(views(projection@))) is None,
        },
{
    let name = match order {
        Expr::Identifier(identifier, _) => ident_name(identifier),
        _ => return None,
    };
    let ghost all = labels(views(projection@));
    let mut index: usize = 0;
    while index < projection.len()
        invariant
            all == labels(views(projection@)),
            order_alias(order@, all) == label_position(all, name@, 0),
            index <= projection@.len(),
            label_position(all, name@, index as nat) == label_position(all, name@, 0),
        decreases projection@.len() - index,
    {
        let label = normalize_name(projection[index].label.as_str());
        assert(all[index as int] == projection@[index as int].label@);
        if label == name {
            return Some(index);
        }
        index = index + 1;
    }
    None
}

/// The column that an expression is, whatever it is qualified with.
pub open spec fn plain_column(expression: ExprView, columns: Seq<ColumnView>) -> Option<nat>
    decreases expression,
{
    match expression {
        ExprView::Identifier(identifier, _) => match found_column(columns, identifier.name()) {
            Ok(index) => Some(index),
            Err(_) => None,
        },
        ExprView::CompoundIdentifier(parts, _) => if parts.len() == 0 {
            None
        } else {
            match found_column(columns, parts.last().name()) {
                Ok(index) => Some(index),
                Err(_) => None,
            }
        },
        ExprView::Nested(inner) => plain_column(*inner, columns),
        _ => None,
    }
}

/// The column that an expression is, whatever it is qualified with.
pub fn simple_column_expression(expression: &Expr, columns: &Vec<Column>) -> (result: Option<usize>)
    ensures
        match result {
            Some(index) => plain_column(expression@, views(columns@)) == Some(index as nat) && index < columns@.len(),
            None => plain_column(expression@, views(columns@)) is None,
        },
    decreases expression,
{
    match expression {
        Expr::Identifier(identifier, _) => {
            let name = ident_name(identifier);
            match find_column(columns, name.as_str()) {
                Ok(index) => Some(index),
                Err(_) => None,
            }
        },
        Expr::CompoundIdentifier(parts, _) => {
            if parts.len() == 0 {
                return None;
            }
            let name = ident_name(&parts[parts.len() - 1]);
            match find_column(columns, name.as_str()) {
                Ok(index) => Some(index),
                Err(_) => None,
            }
        },
        Expr::Nested(inner) => simple_column_expression(inner, columns),
        _ => None,
    }
}

/// A distance between a vector column and a constant vector.
pub struct VectorDistance {
    pub column: usize,
    pub query: Vector,
    pub metric: Metric,
}

#[verifier::ext_equal]
pub struct VectorDistanceView {
    pub column: nat,
    pub query: Seq<u32>,
    pub metric: Metric,
}

impl View for VectorDistance {
    type V = VectorDistanceView;

    open spec fn view(&self) -> VectorDistanceView {
        VectorDistanceView { column: self.column as nat, query: self.query@, metric: self.metric }
    }
}

pub open spec fn found_distance(result: Result<Option<VectorDistance>, Error>) -> Result<
    Option<VectorDistanceView>,
    ErrorView,
> {
    match result {
        Ok(Some(distance)) => Ok(Some(distance@)),
        Ok(None) => Ok(None),
        Err(error) => Err(error@),
    }
}

/// The distance that has `column` as its vector column and `query` as its constant. A side that is
/// no constant because it names a column is passed over.
pub open spec fn distance_between(
    column: ExprView,
    query: ExprView,
    metric: Metric,
    columns: Seq<ColumnView>,
    floats: Floats,
) -> Result<Option<VectorDistanceView>, ErrorView> {
    match plain_column(column, columns) {
        None => Ok(None),
        Some(index) => if columns[index as int].data_type is Vector {
            match evaluated(query, ScopeView::none(), floats) {
                Ok(ValueView::Vector(elements)) => Ok(
                    Some(VectorDistanceView { column: index, query: elements, metric }),
                ),
                Ok(_) => Ok(None),
                Err(ErrorView::ColumnNotFound(_)) => Ok(None),
                Err(error) => Err(error),
            }
        } else {
            Ok(None)
        },
    }
}

/// The distance between the two, whichever of them is the column.
pub open spec fn distance_either(
    left: ExprView,
    right: ExprView,
    metric: Metric,
    columns: Seq<ColumnView>,
    floats: Floats,
) -> Result<Option<VectorDistanceView>, ErrorView> {
    match distance_between(left, right, metric, columns, floats) {
        Ok(None) => distance_between(right, left, metric, columns, floats),
        found => found,
    }
}

/// The distance that a function call computes.
pub open spec fn function_distance(function: FunctionView, columns: Seq<ColumnView>, floats: Floats) -> Result<
    Option<VectorDistanceView>,
    ErrorView,
> {
    if function.distinct || function.modified || function.arguments.len() != 2 {
        Ok(None)
    } else {
        match (function.arguments[0], function.arguments[1], function_metric(last_name(function.name))) {
            (ArgumentView::Expr(left), ArgumentView::Expr(right), Some(metric)) => distance_either(
                left,
                right,
                metric,
                columns,
                floats,
            ),
            _ => Ok(None),
        }
    }
}

/// The distance that an expression outside parentheses computes.
pub open spec fn bare_distance(expression: ExprView, columns: Seq<ColumnView>, floats: Floats) -> Result<
    Option<VectorDistanceView>,
    ErrorView,
> {
    match expression {
        ExprView::Function(function) => function_distance(function, columns, floats),
        ExprView::BinaryOp(left, BinaryView::Custom(operator), right) => match operator_metric(operator) {
            Some(metric) => distance_either(*left, *right, metric, columns, floats),
            None => Ok(None),
        },
        _ => Ok(None),
    }
}

/// The distance that an expression computes, if it is one between a vector column and a constant.
pub open spec fn vector_distance(expression: ExprView, columns: Seq<ColumnView>, floats: Floats) -> Result<
    Option<VectorDistanceView>,
    ErrorView,
> {
    match expression {
        ExprView::Nested(inner) => bare_distance(*inner, columns, floats),
        other => bare_distance(other, columns, floats),
    }
}

fn find_distance<F: Fn(FloatTask) -> FloatReply>(
    f: &F,
    column: &Expr,
    query: &Expr,
    metric: Metric,
    columns: &Vec<Column>,
) -> (result: Result<Option<VectorDistance>, Error>)
    requires
        computes(*f),
    ensures
        found_distance(result) == distance_between(column@, query@, metric, views(columns@), floats(*f)),
        result matches Ok(Some(distance)) ==> distance.column < columns@.len(),
{
    let index: usize = match simple_column_expression(column, columns) {
        Some(index) => index,
        None => return Ok(None),
    };
    assert(views(columns@)[index as int] == columns@[index as int]@);
    match columns[index].data_type {
        DataType::Vector(_) => {},
        _ => return Ok(None),
    }
    match evaluate_constant(f, query) {
        Ok(Value::Vector(query)) => Ok(Some(VectorDistance { column: index, query, metric })),
        Ok(_) => Ok(None),
        Err(Error::ColumnNotFound(_)) => Ok(None),
        Err(error) => Err(error),
    }
}

fn find_distance_either<F: Fn(FloatTask) -> FloatReply>(
    f: &F,
    left: &Expr,
    right: &Expr,
    metric: Metric,
    columns: &Vec<Column>,
) -> (result: Result<Option<VectorDistance>, Error>)
    requires
        computes(*f),
    ensures
        found_distance(result) == distance_either(left@, right@, metric, views(columns@), floats(*f)),
        result matches Ok(Some(distance)) ==> distance.column < columns@.len(),
{
    match find_distance(f, left, right, metric, columns) {
        Ok(None) => find_distance(f, right, left, metric, columns),
        found => found,
    }
}

fn find_function_distance<F: Fn(FloatTask) -> FloatReply>(f: &F, function: &Function, columns: &Vec<Column>) -> (result:
    Result<Option<VectorDistance>, Error>)
    requires
        computes(*f),
    ensures
        found_distance(result) == function_distance(function@, views(columns@), floats(*f)),
        result matches Ok(Some(distance)) ==> distance.column < columns@.len(),
{
    if function.distinct || function.modified || function.arguments.len() != 2 {
        return Ok(None);
    }
    let name = object_name(&function.name);
    let metric = metric_of_function(name.as_str());
    assert(function@.arguments[0] == argument_view(function.arguments@[0]));
    assert(function@.arguments[1] == argument_view(function.arguments@[1]));
    match (&function.arguments[0], &function.arguments[1], metric) {
        (Argument::Expr(left), Argument::Expr(right), Some(metric)) => find_distance_either(f, left, right, metric, columns),
        _ => Ok(None),
    }
}

fn find_bare_distance<F: Fn(FloatTask) -> FloatReply>(f: &F, expression: &Expr, columns: &Vec<Column>) -> (result: Result<
    Option<VectorDistance>,
    Error,
>)
    requires
        computes(*f),
    ensures
        found_distance(result) == bare_distance(expression@, views(columns@), floats(*f)),
        result matches Ok(Some(distance)) ==> distance.column < columns@.len(),
{
    match expression {
        Expr::Function(function) => find_function_distance(f, function, columns),
        Expr::BinaryOp(left, operator, right) => match operator {
            BinaryOperator::Custom(operator) => match metric_of_operator(operator.as_str()) {
                Some(metric) => find_distance_either(f, left, right, metric, columns),
                None => Ok(None),
            },
            _ => Ok(None),
        },
        _ => Ok(None),
    }
}

/// The distance that an expression computes, if it is one between a vector column and a constant.
pub fn parse_fast_vector_distance<F: Fn(FloatTask) -> FloatReply>(f: &F, expression: &Expr, columns: &Vec<Column>) -> (result:
    Result<Option<VectorDistance>, Error>)
    requires
        computes(*f),
    ensures
        found_distance(result) == vector_distance(expression@, views(columns@), floats(*f)),
        result matches Ok(Some(distance)) ==> distance.column < columns@.len(),
{
    match expression {
        Expr::Nested(inner) => find_bare_distance(f, inner, columns),
        _ => find_bare_distance(f, expression, columns),
    }
}

/// A distance whose constant has the dimensions of its column.
pub open spec fn matched_distance(expression: ExprView, columns: Seq<ColumnView>, floats: Floats) -> Result<
    Option<VectorDistanceView>,
    ErrorView,
> {
    match vector_distance(expression, columns, floats) {
        Ok(Some(distance)) => match columns[distance.column as int].data_type {
            DataType::Vector(dimensions) => if distance.query.len() == dimensions {
                Ok(Some(distance))
            } else {
                Err(ErrorView::DimensionMismatch { left: dimensions as nat, right: distance.query.len() })
            },
            _ => Ok(None),
        },
        other => other,
    }
}

/// A distance whose constant has the dimensions of its column.
pub fn vector_expression<F: Fn(FloatTask) -> FloatReply>(f: &F, expression: &Expr, columns: &Vec<Column>) -> (result: Result<
    Option<VectorDistance>,
    Error,
>)
    requires
        computes(*f),
    ensures
        found_distance(result) == matched_distance(expression@, views(columns@), floats(*f)),
        result matches Ok(Some(distance)) ==> distance.column < columns@.len(),
{
    match parse_fast_vector_distance(f, expression, columns)? {
        Some(distance) => {
            assert(views(columns@)[distance.column as int] == columns@[distance.column as int]@);
            match columns[distance.column].data_type {
                DataType::Vector(dimensions) => {
                    let found: usize = distance.query.dimensions();
                    if found != dimensions {
                        return Err(Error::DimensionMismatch { left: dimensions, right: found });
                    }
                    Ok(Some(distance))
                },
                _ => Ok(None),
            }
        },
        None => Ok(None),
    }
}

} // verus!
