//! Static checks of expressions: the columns that they name, the types that they have, and the
//! aggregates that they hold.

use vstd::prelude::*;
use crate::ast::{
    argument_view, argument_views, expr_views, last_name, object_name, Argument, ArgumentView, BinaryOperator,
    BinaryView, Expr, ExprView, Function, FunctionView, Test, UnaryOperator, UnaryView,
};
use crate::error::{invalid, outcome, plain, unsupported, Error, ErrorView};
use crate::eval::{
    argument_count_error, compound_identified, identified, require_argument_count, scalar_function, scalar_function_of,
    ScalarFunction, Schema, SchemaView,
};
use crate::float::{computes, floats, FloatReply, FloatTask, Floats};
use crate::operators::{
    literal_value, logical_type, metric_of_operator, operator_metric, parse_data_type, sql_literal, Comparison,
    OperatorKind, OperatorKindView,
};
use crate::text::{decimal_count, decimal_text, join2, join3, same_text, views};
use crate::value::{declared_value_type_name, type_of, value_data_type, DataType};
use crate::vector::MAX_VECTOR_DIMENSIONS;

verus! {

broadcast use vstd::string::group_string_axioms;

/// An aggregate function.
#[derive(Clone, Copy, Debug, PartialEq, Eq, Structural)]
pub enum AggregateKind {
    Count,
    Sum,
    Average,
    Minimum,
    Maximum,
}

/// The aggregate of this name.
pub open spec fn aggregate_kind(name: Seq<char>) -> Option<AggregateKind> {
    if name == "count"@ {
        Some(AggregateKind::Count)
    } else if name == "sum"@ {
        Some(AggregateKind::Sum)
    } else if name == "avg"@ {
        Some(AggregateKind::Average)
    } else if name == "min"@ {
        Some(AggregateKind::Minimum)
    } else if name == "max"@ {
        Some(AggregateKind::Maximum)
    } else {
        None
    }
}

/// The aggregate of this name.
pub fn aggregate_kind_of(name: &str) -> (kind: Option<AggregateKind>)
    ensures
        kind == aggregate_kind(name@),
{
    if same_text(name, "count") {
        Some(AggregateKind::Count)
    } else if same_text(name, "sum") {
        Some(AggregateKind::Sum)
    } else if same_text(name, "avg") {
        Some(AggregateKind::Average)
    } else if same_text(name, "min") {
        Some(AggregateKind::Minimum)
    } else if same_text(name, "max") {
        Some(AggregateKind::Maximum)
    } else {
        None
    }
}

/// Whether a function is an aggregate.
pub open spec fn is_aggregate(function: FunctionView) -> bool {
    aggregate_kind(last_name(function.name)) is Some
}

/// Whether the expression is a call of an aggregate or holds one.
pub open spec fn contains_aggregate(expression: ExprView) -> bool
    decreases expression, 0nat,
{
    match expression {
        ExprView::Array(items, _, _) => any_aggregate(items, 0),
        ExprView::Function(function) => is_aggregate(function) || any_argument_aggregate(function.arguments, 0),
        ExprView::BinaryOp(left, _, right) => contains_aggregate(*left) || contains_aggregate(*right),
        ExprView::UnaryOp(_, inner) => contains_aggregate(*inner),
        ExprView::Nested(inner) => contains_aggregate(*inner),
        ExprView::Test(_, inner) => contains_aggregate(*inner),
        ExprView::Cast { expr, data_type, formatted } => contains_aggregate(*expr),
        ExprView::Between { expr, negated, low, high } => contains_aggregate(*expr) || contains_aggregate(*low)
            || contains_aggregate(*high),
        ExprView::InList { expr, list, negated } => contains_aggregate(*expr) || any_aggregate(list, 0),
        ExprView::Like { expr, pattern, negated, escape, insensitive } => contains_aggregate(*expr) || contains_aggregate(
            *pattern,
        ),
        _ => false,
    }
}

/// Whether one of the expressions from `from` on holds an aggregate.
pub open spec fn any_aggregate(items: Seq<ExprView>, from: nat) -> bool
    decreases items, (items.len() - from) as nat,
{
    from < items.len() && (contains_aggregate(items[from as int]) || any_aggregate(items, from + 1))
}

/// Whether one of the arguments from `from` on holds an aggregate.
pub open spec fn any_argument_aggregate(arguments: Seq<ArgumentView>, from: nat) -> bool
    decreases arguments, (arguments.len() - from) as nat,
{
    from < arguments.len() && ((match arguments[from as int] {
        ArgumentView::Expr(expr) => contains_aggregate(expr),
        _ => false,
    }) || any_argument_aggregate(arguments, from + 1))
}

fn list_contains_aggregate(items: &Vec<Expr>) -> (result: bool)
    ensures
        result == any_aggregate(expr_views(items@), 0),
    decreases items, 0nat,
{
    let mut index: usize = 0;
    while index < items.len()
        invariant
            index <= items@.len(),
            any_aggregate(expr_views(items@), index as nat) == any_aggregate(expr_views(items@), 0),
        decreases items@.len() - index,
    {
        if expression_contains_aggregate(&items[index]) {
            return true;
        }
        index = index + 1;
    }
    false
}

fn arguments_contain_aggregate(arguments: &Vec<Argument>) -> (result: bool)
    ensures
        result == any_argument_aggregate(argument_views(arguments@), 0),
    decreases arguments, 0nat,
{
    let mut index: usize = 0;
    while index < arguments.len()
        invariant
            index <= arguments@.len(),
            any_argument_aggregate(argument_views(arguments@), index as nat) == any_argument_aggregate(
                argument_views(arguments@),
                0,
            ),
        decreases arguments@.len() - index,
    {
        assert(argument_views(arguments@)[index as int] == argument_view(arguments@[index as int]));
        if let Argument::Expr(expr) = &arguments[index] {
            if expression_contains_aggregate(expr) {
                return true;
            }
        }
        index = index + 1;
    }
    false
}

fn function_contains_aggregate(function: &Function) -> (result: bool)
    ensures
        result == contains_aggregate(ExprView::Function(function@)),
    decreases function, 0nat,
{
    let name = object_name(&function.name);
    if aggregate_kind_of(name.as_str()).is_some() {
        return true;
    }
    arguments_contain_aggregate(&function.arguments)
}

/// Whether the expression is a call of an aggregate or holds one.
#[verifier::rlimit(40)]
pub fn expression_contains_aggregate(expression: &Expr) -> (result: bool)
    ensures
        result == contains_aggregate(expression@),
    decreases expression, 1nat,
{
    match expression {
        Expr::Array(items, _, _) => list_contains_aggregate(items),
        Expr::Function(function) => function_contains_aggregate(function),
        Expr::BinaryOp(left, _, right) => expression_contains_aggregate(left) || expression_contains_aggregate(right),
        Expr::UnaryOp(_, inner) => expression_contains_aggregate(inner),
        Expr::Nested(inner) => expression_contains_aggregate(inner),
        Expr::Test(_, inner) => expression_contains_aggregate(inner),
        Expr::Cast { expr, data_type: _, formatted: _ } => expression_contains_aggregate(expr),
        Expr::Between { expr, negated: _, low, high } => expression_contains_aggregate(expr)
            || expression_contains_aggregate(low) || expression_contains_aggregate(high),
        Expr::InList { expr, list, negated: _ } => expression_contains_aggregate(expr) || list_contains_aggregate(list),
        Expr::Like { expr, pattern, negated: _, escape: _, insensitive: _ } => expression_contains_aggregate(expr)
            || expression_contains_aggregate(pattern),
        _ => false,
    }
}

/// A call of an aggregate: what it computes, of which expression (none for `COUNT(*)`), and
/// whether of distinct values.
pub struct AggregateSpec<'a> {
    pub kind: AggregateKind,
    pub argument: Option<&'a Expr>,
    pub distinct: bool,
}

pub struct AggregateView {
    pub kind: AggregateKind,
    pub argument: Option<ExprView>,
    pub distinct: bool,
}

impl<'a> View for AggregateSpec<'a> {
    type V = AggregateView;

    open spec fn view(&self) -> AggregateView {
        AggregateView {
            kind: self.kind,
            argument: match self.argument {
                Some(expr) => Some(expr@),
                None => None,
            },
            distinct: self.distinct,
        }
    }
}

/// The aggregate that a function call denotes.
pub open spec fn parsed_aggregate(function: FunctionView) -> Result<AggregateView, ErrorView> {
    let name = last_name(function.name);
    if function.modified || function.special {
        Err(ErrorView::Unsupported("aggregate modifiers on "@ + function.name_text))
    } else {
        match aggregate_kind(name) {
            None => Err(ErrorView::Unsupported("aggregate "@ + name)),
            Some(kind) => if function.arguments.len() != 1 {
                Err(
                    ErrorView::InvalidQuery(
                        name + " expects one argument, received "@ + decimal_text(function.arguments.len()),
                    ),
                )
            } else {
                match function.arguments[0] {
                    ArgumentView::Expr(expr) => if contains_aggregate(expr) {
                        Err(ErrorView::InvalidQuery("nested aggregate functions are not supported"@))
                    } else {
                        Ok(AggregateView { kind, argument: Some(expr), distinct: function.distinct })
                    },
                    ArgumentView::Wildcard(_) => if kind == AggregateKind::Count && !function.distinct {
                        Ok(AggregateView { kind, argument: None, distinct: function.distinct })
                    } else {
                        Err(ErrorView::InvalidQuery(name + "(DISTINCT *) is not supported"@))
                    },
                    ArgumentView::Named(_) => Err(ErrorView::Unsupported("named aggregate arguments"@)),
                }
            },
        }
    }
}

/// The aggregate that a function call denotes.
pub fn parse_aggregate<'a>(function: &'a Function) -> (result: Result<AggregateSpec<'a>, Error>)
    ensures
        outcome(result) == parsed_aggregate(function@),
{
    if function.modified || function.special {
        return Err(Error::Unsupported(join2("aggregate modifiers on ", function.name_text.as_str())));
    }
    let name = object_name(&function.name);
    let kind = match aggregate_kind_of(name.as_str()) {
        Some(kind) => kind,
        None => return Err(Error::Unsupported(join2("aggregate ", name.as_str()))),
    };
    if function.arguments.len() != 1 {
        return Err(
            Error::InvalidQuery(
                join3(
                    name.as_str(),
                    " expects one argument, received ",
                    decimal_count(function.arguments.len()).as_str(),
                ),
            ),
        );
    }
    assert(argument_views(function.arguments@)[0] == argument_view(function.arguments@[0]));
    match &function.arguments[0] {
        Argument::Expr(expr) => {
            if expression_contains_aggregate(expr) {
                return Err(invalid("nested aggregate functions are not supported"));
            }
            Ok(AggregateSpec { kind, argument: Some(expr), distinct: function.distinct })
        },
        Argument::Wildcard(_) => {
            if kind == AggregateKind::Count && !function.distinct {
                Ok(AggregateSpec { kind, argument: None, distinct: function.distinct })
            } else {
                Err(Error::InvalidQuery(join2(name.as_str(), "(DISTINCT *) is not supported")))
            }
        },
        Argument::Named(_) => Err(unsupported("named aggregate arguments")),
    }
}

/// The first error of two checks.
pub open spec fn both(first: Result<(), ErrorView>, second: Result<(), ErrorView>) -> Result<(), ErrorView> {
    match first {
        Err(error) => Err(error),
        Ok(_) => second,
    }
}

pub open spec fn checked_column(result: Result<nat, ErrorView>) -> Result<(), ErrorView> {
    match result {
        Ok(_) => Ok(()),
        Err(error) => Err(error),
    }
}

/// Whether every column that the expression names exists, or the error for the first that does
/// not.
pub open spec fn known_columns(expression: ExprView, schema: SchemaView) -> Result<(), ErrorView>
    decreases expression, 0nat,
{
    match expression {
        ExprView::Identifier(identifier, _) => checked_column(identified(schema, identifier)),
        ExprView::CompoundIdentifier(parts, _) => checked_column(compound_identified(schema, parts)),
        ExprView::Array(items, _, _) => all_known_columns(items, schema, 0),
        ExprView::Function(function) => argument_columns(function.arguments, schema, 0),
        ExprView::BinaryOp(left, _, right) => both(known_columns(*left, schema), known_columns(*right, schema)),
        ExprView::UnaryOp(_, inner) => known_columns(*inner, schema),
        ExprView::Nested(inner) => known_columns(*inner, schema),
        ExprView::Test(_, inner) => known_columns(*inner, schema),
        ExprView::Between { expr, negated, low, high } => both(
            known_columns(*expr, schema),
            both(known_columns(*low, schema), known_columns(*high, schema)),
        ),
        ExprView::InList { expr, list, negated } => both(
            known_columns(*expr, schema),
            all_known_columns(list, schema, 0),
        ),
        ExprView::Like { expr, pattern, negated, escape, insensitive } => both(
            known_columns(*expr, schema),
            known_columns(*pattern, schema),
        ),
        ExprView::Cast { expr, data_type, formatted } => known_columns(*expr, schema),
        _ => Ok(()),
    }
}

pub open spec fn all_known_columns(items: Seq<ExprView>, schema: SchemaView, from: nat) -> Result<(), ErrorView>
    decreases items, (items.len() - from) as nat,
{
    if from >= items.len() {
        Ok(())
    } else {
        both(known_columns(items[from as int], schema), all_known_columns(items, schema, from + 1))
    }
}

pub open spec fn argument_columns(arguments: Seq<ArgumentView>, schema: SchemaView, from: nat) -> Result<(), ErrorView>
    decreases arguments, (arguments.len() - from) as nat,
{
    if from >= arguments.len() {
        Ok(())
    } else {
        both(
            match arguments[from as int] {
                ArgumentView::Expr(expr) => known_columns(expr, schema),
                _ => Ok(()),
            },
            argument_columns(arguments, schema, from + 1),
        )
    }
}

fn validate_list_columns(items: &Vec<Expr>, schema: &Schema<'_>) -> (result: Result<(), Error>)
    requires
        schema@.valid(),
    ensures
        plain(result) == all_known_columns(expr_views(items@), schema@, 0),
    decreases items, 0nat,
{
    let mut index: usize = 0;
    while index < items.len()
        invariant
            schema@.valid(),
            index <= items@.len(),
            all_known_columns(expr_views(items@), schema@, index as nat) == all_known_columns(
                expr_views(items@),
                schema@,
                0,
            ),
        decreases items@.len() - index,
    {
        validate_expression_columns(&items[index], schema)?;
        index = index + 1;
    }
    Ok(())
}

fn validate_argument_columns(arguments: &Vec<Argument>, schema: &Schema<'_>) -> (result: Result<(), Error>)
    requires
        schema@.valid(),
    ensures
        plain(result) == argument_columns(argument_views(arguments@), schema@, 0),
    decreases arguments, 0nat,
{
    let mut index: usize = 0;
    while index < arguments.len()
        invariant
            schema@.valid(),
            index <= arguments@.len(),
            argument_columns(argument_views(arguments@), schema@, index as nat) == argument_columns(
                argument_views(arguments@),
                schema@,
                0,
            ),
        decreases arguments@.len() - index,
    {
        assert(argument_views(arguments@)[index as int] == argument_view(arguments@[index as int]));
        if let Argument::Expr(expr) = &arguments[index] {
            validate_expression_columns(expr, schema)?;
        }
        index = index + 1;
    }
    Ok(())
}

fn validate_function_columns(function: &Function, schema: &Schema<'_>) -> (result: Result<(), Error>)
    requires
        schema@.valid(),
    ensures
        plain(result) == known_columns(ExprView::Function(function@), schema@),
    decreases function, 0nat,
{
    validate_argument_columns(&function.arguments, schema)
}

/// Fails exactly when the expression names a column that does not exist.
#[verifier::rlimit(60)]
pub fn validate_expression_columns(expression: &Expr, schema: &Schema<'_>) -> (result: Result<(), Error>)
    requires
        schema@.valid(),
    ensures
        plain(result) == known_columns(expression@, schema@),
    decreases expression, 1nat,
{
    match expression {
        Expr::Identifier(identifier, _) => {
            schema.resolve(identifier)?;
            Ok(())
        },
        Expr::CompoundIdentifier(parts, _) => {
            schema.resolve_compound(parts)?;
            Ok(())
        },
        Expr::Array(items, _, _) => validate_list_columns(items, schema),
        Expr::Function(function) => validate_function_columns(function, schema),
        Expr::BinaryOp(left, _, right) => {
            validate_expression_columns(left, schema)?;
            validate_expression_columns(right, schema)
        },
        Expr::UnaryOp(_, inner) => validate_expression_columns(inner, schema),
        Expr::Nested(inner) => validate_expression_columns(inner, schema),
        Expr::Test(_, inner) => validate_expression_columns(inner, schema),
        Expr::Between { expr, negated: _, low, high } => {
            validate_expression_columns(expr, schema)?;
            validate_expression_columns(low, schema)?;
            validate_expression_columns(high, schema)
        },
        Expr::InList { expr, list, negated: _ } => {
            validate_expression_columns(expr, schema)?;
            validate_list_columns(list, schema)
        },
        Expr::Like { expr, pattern, negated: _, escape: _, insensitive: _ } => {
            validate_expression_columns(expr, schema)?;
            validate_expression_columns(pattern, schema)
        },
        Expr::Cast { expr, data_type: _, formatted: _ } => validate_expression_columns(expr, schema),
        _ => Ok(()),
    }
}

/// The error for an expression of another declared type than expected.
pub open spec fn declared_mismatch(expected: Seq<char>, found: DataType) -> ErrorView {
    ErrorView::TypeMismatch { expected, found: found.value_name() }
}

fn declared_type_mismatch(expected: &str, found: &DataType) -> (error: Error)
    ensures
        error@ == declared_mismatch(expected@, *found),
{
    Error::TypeMismatch { expected: expected.to_owned(), found: declared_value_type_name(found).to_owned() }
}

pub open spec fn numeric(data_type: Option<DataType>) -> Result<(), ErrorView> {
    match data_type {
        None | Some(DataType::Integer) | Some(DataType::Float) => Ok(()),
        Some(found) => Err(declared_mismatch("numeric value"@, found)),
    }
}

pub fn ensure_numeric_type(data_type: Option<DataType>) -> (result: Result<(), Error>)
    ensures
        plain(result) == numeric(data_type),
{
    match data_type {
        None | Some(DataType::Integer) | Some(DataType::Float) => Ok(()),
        Some(found) => Err(declared_type_mismatch("numeric value", &found)),
    }
}

pub open spec fn boolean(data_type: Option<DataType>) -> Result<(), ErrorView> {
    match data_type {
        None | Some(DataType::Boolean) => Ok(()),
        Some(found) => Err(declared_mismatch("BOOLEAN"@, found)),
    }
}

pub fn ensure_boolean_type(data_type: Option<DataType>) -> (result: Result<(), Error>)
    ensures
        plain(result) == boolean(data_type),
{
    match data_type {
        None | Some(DataType::Boolean) => Ok(()),
        Some(found) => Err(declared_type_mismatch("BOOLEAN", &found)),
    }
}

pub open spec fn textual(data_type: Option<DataType>) -> Result<(), ErrorView> {
    match data_type {
        None | Some(DataType::Text) => Ok(()),
        Some(found) => Err(declared_mismatch("TEXT"@, found)),
    }
}

pub fn ensure_text_type(data_type: Option<DataType>) -> (result: Result<(), Error>)
    ensures
        plain(result) == textual(data_type),
{
    match data_type {
        None | Some(DataType::Text) => Ok(()),
        Some(found) => Err(declared_type_mismatch("TEXT", &found)),
    }
}

pub open spec fn vectorial(data_type: Option<DataType>) -> Result<Option<usize>, ErrorView> {
    match data_type {
        None => Ok(None),
        Some(DataType::Vector(dimensions)) => Ok(Some(dimensions)),
        Some(found) => Err(declared_mismatch("VECTOR"@, found)),
    }
}

pub fn ensure_vector_type(data_type: Option<DataType>) -> (result: Result<Option<usize>, Error>)
    ensures
        plain(result) == vectorial(data_type),
{
    match data_type {
        None => Ok(None),
        Some(DataType::Vector(dimensions)) => Ok(Some(dimensions)),
        Some(found) => Err(declared_type_mismatch("VECTOR", &found)),
    }
}

pub open spec fn vector_pair(left: Option<DataType>, right: Option<DataType>) -> Result<(), ErrorView> {
    match vectorial(left) {
        Err(error) => Err(error),
        Ok(a) => match vectorial(right) {
            Err(error) => Err(error),
            Ok(b) => match (a, b) {
                (Some(a), Some(b)) => if a != b {
                    Err(ErrorView::DimensionMismatch { left: a as nat, right: b as nat })
                } else {
                    Ok(())
                },
                _ => Ok(()),
            },
        },
    }
}

pub fn ensure_vector_pair(left: Option<DataType>, right: Option<DataType>) -> (result: Result<(), Error>)
    ensures
        plain(result) == vector_pair(left, right),
{
    let a = ensure_vector_type(left)?;
    let b = ensure_vector_type(right)?;
    match (a, b) {
        (Some(left), Some(right)) => {
            if left != right {
                return Err(Error::DimensionMismatch { left, right });
            }
            Ok(())
        },
        _ => Ok(()),
    }
}

pub open spec fn sortable(data_type: Option<DataType>) -> Result<(), ErrorView> {
    match data_type {
        Some(DataType::Vector(dimensions)) => Err(
            declared_mismatch("sortable scalar value"@, DataType::Vector(dimensions)),
        ),
        _ => Ok(()),
    }
}

pub fn ensure_sortable_scalar_type(data_type: Option<DataType>) -> (result: Result<(), Error>)
    ensures
        plain(result) == sortable(data_type),
{
    match data_type {
        Some(DataType::Vector(dimensions)) => Err(
            declared_type_mismatch("sortable scalar value", &DataType::Vector(dimensions)),
        ),
        _ => Ok(()),
    }
}

pub open spec fn is_number_type(data_type: DataType) -> bool {
    data_type == DataType::Integer || data_type == DataType::Float
}

/// Whether values of the two types can be compared: numbers with numbers, scalars with scalars
/// of the same type, and vectors for equality only.
pub open spec fn comparable(left: Option<DataType>, right: Option<DataType>, operator: Comparison) -> Result<(), ErrorView> {
    match (left, right) {
        (Some(a), Some(b)) => if (is_number_type(a) && is_number_type(b)) || (a == b && !(a is Vector)) || (a is Vector
            && b is Vector && (operator == Comparison::Eq || operator == Comparison::NotEq)) {
            Ok(())
        } else {
            Err(
                ErrorView::TypeMismatch {
                    expected: "comparable values"@,
                    found: a.value_name() + " and "@ + b.value_name(),
                },
            )
        },
        _ => Ok(()),
    }
}

fn is_vector_type(data_type: DataType) -> (result: bool)
    ensures
        result == (data_type is Vector),
{
    match data_type {
        DataType::Vector(_) => true,
        _ => false,
    }
}

pub fn ensure_comparable_types(left: Option<DataType>, right: Option<DataType>, operator: Comparison) -> (result: Result<
    (),
    Error,
>)
    ensures
        plain(result) == comparable(left, right, operator),
{
    match (left, right) {
        (Some(a), Some(b)) => {
            let numbers = (a == DataType::Integer || a == DataType::Float) && (b == DataType::Integer || b
                == DataType::Float);
            let vectors = is_vector_type(a) && is_vector_type(b) && (operator == Comparison::Eq || operator
                == Comparison::NotEq);
            if numbers || (a == b && !is_vector_type(a)) || vectors {
                Ok(())
            } else {
                Err(
                    Error::TypeMismatch {
                        expected: "comparable values".to_owned(),
                        found: join3(declared_value_type_name(&a), " and ", declared_value_type_name(&b)),
                    },
                )
            }
        },
        _ => Ok(()),
    }
}

/// The type of an arithmetic expression.
pub open spec fn arithmetic_type(left: Option<DataType>, right: Option<DataType>) -> Result<Option<DataType>, ErrorView> {
    match both(numeric(left), numeric(right)) {
        Err(error) => Err(error),
        Ok(_) => Ok(
            if left == Some(DataType::Float) || right == Some(DataType::Float) {
                Some(DataType::Float)
            } else if left is Some {
                left
            } else {
                right
            },
        ),
    }
}

pub fn numeric_result_type(left: Option<DataType>, right: Option<DataType>) -> (result: Result<Option<DataType>, Error>)
    ensures
        plain(result) == arithmetic_type(left, right),
{
    ensure_numeric_type(left)?;
    ensure_numeric_type(right)?;
    match (left, right) {
        (Some(DataType::Float), _) => Ok(Some(DataType::Float)),
        (_, Some(DataType::Float)) => Ok(Some(DataType::Float)),
        (Some(found), _) => Ok(Some(found)),
        (None, found) => Ok(found),
    }
}

/// The type of an array of so many items.
pub open spec fn array_type(count: nat) -> Result<Option<DataType>, ErrorView> {
    if count == 0 {
        Err(ErrorView::InvalidVectorDimension)
    } else if count > MAX_VECTOR_DIMENSIONS {
        Err(ErrorView::VectorDimensionLimit { found: count, max: MAX_VECTOR_DIMENSIONS as nat })
    } else {
        Ok(Some(DataType::Vector(count as usize)))
    }
}

fn vector_type(count: usize) -> (result: Result<Option<DataType>, Error>)
    ensures
        plain(result) == array_type(count as nat),
{
    if count == 0 {
        return Err(Error::InvalidVectorDimension);
    }
    if count > MAX_VECTOR_DIMENSIONS {
        return Err(Error::VectorDimensionLimit { found: count, max: MAX_VECTOR_DIMENSIONS });
    }
    Ok(Some(DataType::Vector(count)))
}

pub open spec fn column_type(schema: SchemaView, column: Result<nat, ErrorView>) -> Result<Option<DataType>, ErrorView> {
    match column {
        Ok(index) => Ok(Some(schema.columns[index as int].data_type)),
        Err(error) => Err(error),
    }
}

/// The error for a binary operator without a type.
pub open spec fn typed_binary(left: Option<DataType>, right: Option<DataType>, operator: BinaryView) -> Result<
    Option<DataType>,
    ErrorView,
> {
    match operator.kind() {
        OperatorKindView::Compare(comparison) => match comparable(left, right, comparison) {
            Err(error) => Err(error),
            Ok(_) => Ok(Some(DataType::Boolean)),
        },
        OperatorKindView::And | OperatorKindView::Or => match both(boolean(left), boolean(right)) {
            Err(error) => Err(error),
            Ok(_) => Ok(Some(DataType::Boolean)),
        },
        OperatorKindView::Compute(_) => arithmetic_type(left, right),
        OperatorKindView::Custom(text) => if operator_metric(text) is Some {
            match vector_pair(left, right) {
                Err(error) => Err(error),
                Ok(_) => Ok(Some(DataType::Float)),
            }
        } else {
            Err(ErrorView::Unsupported("custom operator "@ + text))
        },
        OperatorKindView::Other(_) => Err(ErrorView::Unsupported("binary operator "@ + operator.notation())),
    }
}

fn binary_type(left: Option<DataType>, right: Option<DataType>, operator: &BinaryOperator) -> (result: Result<
    Option<DataType>,
    Error,
>)
    ensures
        plain(result) == typed_binary(left, right, operator@),
{
    match operator.kind() {
        OperatorKind::Compare(comparison) => {
            ensure_comparable_types(left, right, comparison)?;
            Ok(Some(DataType::Boolean))
        },
        OperatorKind::And => {
            ensure_boolean_type(left)?;
            ensure_boolean_type(right)?;
            Ok(Some(DataType::Boolean))
        },
        OperatorKind::Or => {
            ensure_boolean_type(left)?;
            ensure_boolean_type(right)?;
            Ok(Some(DataType::Boolean))
        },
        OperatorKind::Compute(_) => numeric_result_type(left, right),
        OperatorKind::Custom(text) => {
            if metric_of_operator(text.as_str()).is_some() {
                ensure_vector_pair(left, right)?;
                Ok(Some(DataType::Float))
            } else {
                Err(Error::Unsupported(join2("custom operator ", text.as_str())))
            }
        },
        OperatorKind::Other(_) => Err(
            Error::Unsupported(join2("binary operator ", operator.to_text().as_str())),
        ),
    }
}

/// The type of a unary operator's value.
pub open spec fn typed_unary(operator: UnaryView, operand: Option<DataType>) -> Result<Option<DataType>, ErrorView> {
    match operator {
        UnaryView::Not => match boolean(operand) {
            Err(error) => Err(error),
            Ok(_) => Ok(Some(DataType::Boolean)),
        },
        UnaryView::Plus | UnaryView::Minus => match numeric(operand) {
            Err(error) => Err(error),
            Ok(_) => Ok(operand),
        },
        UnaryView::Other(text) => Err(ErrorView::Unsupported("unary operator "@ + text)),
    }
}

fn unary_type(operator: &UnaryOperator, operand: Option<DataType>) -> (result: Result<Option<DataType>, Error>)
    ensures
        plain(result) == typed_unary(operator@, operand),
{
    match operator {
        UnaryOperator::Not => {
            ensure_boolean_type(operand)?;
            Ok(Some(DataType::Boolean))
        },
        UnaryOperator::Plus => {
            ensure_numeric_type(operand)?;
            Ok(operand)
        },
        UnaryOperator::Minus => {
            ensure_numeric_type(operand)?;
            Ok(operand)
        },
        UnaryOperator::Other(text) => Err(Error::Unsupported(join2("unary operator ", text.as_str()))),
    }
}

/// The type of an aggregate over an argument of this type.
pub open spec fn aggregate_type(kind: AggregateKind, argument: Option<DataType>) -> Result<Option<DataType>, ErrorView> {
    match kind {
        AggregateKind::Count => Ok(Some(DataType::Integer)),
        AggregateKind::Average => match numeric(argument) {
            Err(error) => Err(error),
            Ok(_) => Ok(Some(DataType::Float)),
        },
        AggregateKind::Sum => match numeric(argument) {
            Err(error) => Err(error),
            Ok(_) => Ok(argument),
        },
        _ => match sortable(argument) {
            Err(error) => Err(error),
            Ok(_) => Ok(argument),
        },
    }
}

fn type_of_aggregate(kind: AggregateKind, argument: Option<DataType>) -> (result: Result<Option<DataType>, Error>)
    ensures
        plain(result) == aggregate_type(kind, argument),
{
    match kind {
        AggregateKind::Count => Ok(Some(DataType::Integer)),
        AggregateKind::Average => {
            ensure_numeric_type(argument)?;
            Ok(Some(DataType::Float))
        },
        AggregateKind::Sum => {
            ensure_numeric_type(argument)?;
            Ok(argument)
        },
        _ => {
            ensure_sortable_scalar_type(argument)?;
            Ok(argument)
        },
    }
}

/// Whether every type from `from` on is numeric.
pub open spec fn all_numeric(types: Seq<Option<DataType>>, from: nat) -> Result<(), ErrorView>
    decreases types.len() - from,
{
    if from >= types.len() {
        Ok(())
    } else {
        both(numeric(types[from as int]), all_numeric(types, from + 1))
    }
}

/// The type of a scalar function on arguments of these types.
pub open spec fn scalar_type(name: Seq<char>, types: Seq<Option<DataType>>) -> Result<Option<DataType>, ErrorView> {
    match scalar_function(name) {
        ScalarFunction::Vector => match array_type(types.len()) {
            Err(error) => Err(error),
            Ok(result) => match all_numeric(types, 0) {
                Err(error) => Err(error),
                Ok(_) => Ok(result),
            },
        },
        ScalarFunction::Dimensions => if types.len() != 1 {
            Err(argument_count_error(name, types.len(), 1))
        } else {
            match vectorial(types[0]) {
                Err(error) => Err(error),
                Ok(_) => Ok(Some(DataType::Integer)),
            }
        },
        ScalarFunction::Norm => if types.len() != 1 {
            Err(argument_count_error(name, types.len(), 1))
        } else {
            match vectorial(types[0]) {
                Err(error) => Err(error),
                Ok(_) => Ok(Some(DataType::Float)),
            }
        },
        ScalarFunction::Normalize => if types.len() != 1 {
            Err(argument_count_error(name, types.len(), 1))
        } else {
            match vectorial(types[0]) {
                Err(error) => Err(error),
                Ok(_) => Ok(types[0]),
            }
        },
        ScalarFunction::Measure(_) => if types.len() != 2 {
            Err(argument_count_error(name, types.len(), 2))
        } else {
            match vector_pair(types[0], types[1]) {
                Err(error) => Err(error),
                Ok(_) => Ok(Some(DataType::Float)),
            }
        },
        ScalarFunction::Unknown => Err(ErrorView::Unsupported("function "@ + name)),
    }
}

fn type_of_scalar(name: &str, types: &Vec<Option<DataType>>) -> (result: Result<Option<DataType>, Error>)
    ensures
        plain(result) == scalar_type(name@, types@),
{
    match scalar_function_of(name) {
        ScalarFunction::Vector => {
            let found = vector_type(types.len())?;
            let mut index: usize = 0;
            while index < types.len()
                invariant
                    index <= types@.len(),
                    scalar_function(name@) == ScalarFunction::Vector,
                    array_type(types@.len()) is Ok,
                    all_numeric(types@, index as nat) == all_numeric(types@, 0),
                decreases types@.len() - index,
            {
                ensure_numeric_type(types[index])?;
                index = index + 1;
            }
            Ok(found)
        },
        ScalarFunction::Dimensions => {
            require_argument_count(name, types.len(), 1)?;
            ensure_vector_type(types[0])?;
            Ok(Some(DataType::Integer))
        },
        ScalarFunction::Norm => {
            require_argument_count(name, types.len(), 1)?;
            ensure_vector_type(types[0])?;
            Ok(Some(DataType::Float))
        },
        ScalarFunction::Normalize => {
            require_argument_count(name, types.len(), 1)?;
            ensure_vector_type(types[0])?;
            Ok(types[0])
        },
        ScalarFunction::Measure(_) => {
            require_argument_count(name, types.len(), 2)?;
            ensure_vector_pair(types[0], types[1])?;
            Ok(Some(DataType::Float))
        },
        ScalarFunction::Unknown => Err(Error::Unsupported(join2("function ", name))),
    }
}

/// Whether every argument from `from` on is a plain expression.
pub open spec fn plain_arguments(arguments: Seq<ArgumentView>, from: nat) -> bool
    decreases arguments.len() - from,
{
    from >= arguments.len() || (arguments[from as int] is Expr && plain_arguments(arguments, from + 1))
}

/// The types of the arguments from `from` on, after `done`.
pub open spec fn argument_types(
    arguments: Seq<ArgumentView>,
    schema: SchemaView,
    floats: Floats,
    from: nat,
    done: Seq<Option<DataType>>,
) -> Result<Seq<Option<DataType>>, ErrorView>
    decreases arguments, (arguments.len() - from) as nat,
{
    if from >= arguments.len() {
        Ok(done)
    } else {
        match arguments[from as int] {
            ArgumentView::Expr(expr) => match expression_type(expr, schema, floats) {
                Err(error) => Err(error),
                Ok(found) => argument_types(arguments, schema, floats, from + 1, done.push(found)),
            },
            _ => Ok(done),
        }
    }
}

/// Whether the items from `from` on are numeric.
pub open spec fn numeric_items(items: Seq<ExprView>, schema: SchemaView, floats: Floats, from: nat) -> Result<(), ErrorView>
    decreases items, (items.len() - from) as nat,
{
    if from >= items.len() {
        Ok(())
    } else {
        match expression_type(items[from as int], schema, floats) {
            Err(error) => Err(error),
            Ok(found) => both(numeric(found), numeric_items(items, schema, floats, from + 1)),
        }
    }
}

/// Whether the items from `from` on can be compared with a value of this type.
pub open spec fn comparable_items(
    value: Option<DataType>,
    items: Seq<ExprView>,
    schema: SchemaView,
    floats: Floats,
    from: nat,
) -> Result<(), ErrorView>
    decreases items, (items.len() - from) as nat,
{
    if from >= items.len() {
        Ok(())
    } else {
        match expression_type(items[from as int], schema, floats) {
            Err(error) => Err(error),
            Ok(found) => both(
                comparable(value, found, Comparison::Eq),
                comparable_items(value, items, schema, floats, from + 1),
            ),
        }
    }
}

/// The type of an expression; none where SQL does not give one, as for `NULL`.
pub open spec fn expression_type(expression: ExprView, schema: SchemaView, floats: Floats) -> Result<Option<DataType>, ErrorView>
    decreases expression, 0nat,
{
    match expression {
        ExprView::Value(literal) => match literal_value(floats, literal) {
            Err(error) => Err(error),
            Ok(value) => Ok(type_of(value)),
        },
        ExprView::Identifier(identifier, _) => column_type(schema, identified(schema, identifier)),
        ExprView::CompoundIdentifier(parts, _) => column_type(schema, compound_identified(schema, parts)),
        ExprView::Nested(inner) => expression_type(*inner, schema, floats),
        ExprView::Array(items, _, _) => match numeric_items(items, schema, floats, 0) {
            Err(error) => Err(error),
            Ok(_) => array_type(items.len()),
        },
        ExprView::Function(function) => if is_aggregate(function) {
            match parsed_aggregate(function) {
                Err(error) => Err(error),
                Ok(spec) => if spec.argument is None {
                    aggregate_type(spec.kind, None)
                } else {
                    match function.arguments[0] {
                        ArgumentView::Expr(argument) => match expression_type(argument, schema, floats) {
                            Err(error) => Err(error),
                            Ok(found) => aggregate_type(spec.kind, found),
                        },
                        _ => aggregate_type(spec.kind, None),
                    }
                },
            }
        } else if function.distinct || function.modified {
            Err(ErrorView::Unsupported("function modifiers on "@ + function.name_text))
        } else if !plain_arguments(function.arguments, 0) {
            Err(ErrorView::Unsupported("named or wildcard function arguments"@))
        } else {
            match argument_types(function.arguments, schema, floats, 0, Seq::empty()) {
                Err(error) => Err(error),
                Ok(types) => scalar_type(last_name(function.name), types),
            }
        },
        ExprView::BinaryOp(left, operator, right) => match expression_type(*left, schema, floats) {
            Err(error) => Err(error),
            Ok(a) => match expression_type(*right, schema, floats) {
                Err(error) => Err(error),
                Ok(b) => typed_binary(a, b, operator),
            },
        },
        ExprView::UnaryOp(operator, inner) => match expression_type(*inner, schema, floats) {
            Err(error) => Err(error),
            Ok(found) => typed_unary(operator, found),
        },
        ExprView::Test(test, inner) => match expression_type(*inner, schema, floats) {
            Err(error) => Err(error),
            Ok(found) => if test == Test::IsNull || test == Test::IsNotNull {
                Ok(Some(DataType::Boolean))
            } else {
                match boolean(found) {
                    Err(error) => Err(error),
                    Ok(_) => Ok(Some(DataType::Boolean)),
                }
            },
        },
        ExprView::Between { expr, negated, low, high } => match expression_type(*expr, schema, floats) {
            Err(error) => Err(error),
            Ok(value) => match expression_type(*low, schema, floats) {
                Err(error) => Err(error),
                Ok(lowest) => match expression_type(*high, schema, floats) {
                    Err(error) => Err(error),
                    Ok(highest) => match both(
                        comparable(value, lowest, Comparison::GtEq),
                        comparable(value, highest, Comparison::LtEq),
                    ) {
                        Err(error) => Err(error),
                        Ok(_) => Ok(Some(DataType::Boolean)),
                    },
                },
            },
        },
        ExprView::InList { expr, list, negated } => match expression_type(*expr, schema, floats) {
            Err(error) => Err(error),
            Ok(value) => match comparable_items(value, list, schema, floats, 0) {
                Err(error) => Err(error),
                Ok(_) => Ok(Some(DataType::Boolean)),
            },
        },
        ExprView::Like { expr, pattern, negated, escape, insensitive } => match expression_type(*expr, schema, floats) {
            Err(error) => Err(error),
            Ok(value) => match expression_type(*pattern, schema, floats) {
                Err(error) => Err(error),
                Ok(wanted) => match both(textual(value), textual(wanted)) {
                    Err(error) => Err(error),
                    Ok(_) => Ok(Some(DataType::Boolean)),
                },
            },
        },
        ExprView::Cast { expr, data_type, formatted } => match expression_type(*expr, schema, floats) {
            Err(error) => Err(error),
            Ok(_) => match logical_type(data_type) {
                Err(error) => Err(error),
                Ok(data_type) => Ok(Some(data_type)),
            },
        },
        ExprView::Other(text) => Err(ErrorView::Unsupported("expression "@ + text)),
    }
}

fn are_plain_arguments(arguments: &Vec<Argument>) -> (result: bool)
    ensures
        result == plain_arguments(argument_views(arguments@), 0),
{
    let mut index: usize = 0;
    while index < arguments.len()
        invariant
            index <= arguments@.len(),
            plain_arguments(argument_views(arguments@), index as nat) == plain_arguments(argument_views(arguments@), 0),
        decreases arguments@.len() - index,
    {
        assert(argument_views(arguments@)[index as int] == argument_view(arguments@[index as int]));
        match &arguments[index] {
            Argument::Expr(_) => {},
            _ => return false,
        }
        index = index + 1;
    }
    true
}

fn types_of_arguments<F: Fn(FloatTask) -> FloatReply>(
    f: &F,
    arguments: &Vec<Argument>,
    schema: &Schema<'_>,
) -> (result: Result<Vec<Option<DataType>>, Error>)
    requires
        computes(*f),
        schema@.valid(),
    ensures
        match result {
            Ok(types) => argument_types(argument_views(arguments@), schema@, floats(*f), 0, Seq::empty()) == Ok::<
                Seq<Option<DataType>>,
                ErrorView,
            >(types@),
            Err(error) => argument_types(argument_views(arguments@), schema@, floats(*f), 0, Seq::empty()) == Err::<
                Seq<Option<DataType>>,
                ErrorView,
            >(error@),
        },
    decreases arguments, 0nat,
{
    let mut types: Vec<Option<DataType>> = Vec::new();
    let mut index: usize = 0;
    while index < arguments.len()
        invariant
            computes(*f),
            schema@.valid(),
            index <= arguments@.len(),
            argument_types(argument_views(arguments@), schema@, floats(*f), index as nat, types@) == argument_types(
                argument_views(arguments@),
                schema@,
                floats(*f),
                0,
                Seq::empty(),
            ),
        decreases arguments@.len() - index,
    {
        assert(argument_views(arguments@)[index as int] == argument_view(arguments@[index as int]));
        match &arguments[index] {
            Argument::Expr(expr) => {
                let found = expression_data_type(f, expr, schema)?;
                types.push(found);
            },
            _ => return Ok(types),
        }
        index = index + 1;
    }
    Ok(types)
}

fn check_numeric_items<F: Fn(FloatTask) -> FloatReply>(f: &F, items: &Vec<Expr>, schema: &Schema<'_>) -> (result: Result<
    (),
    Error,
>)
    requires
        computes(*f),
        schema@.valid(),
    ensures
        plain(result) == numeric_items(expr_views(items@), schema@, floats(*f), 0),
    decreases items, 0nat,
{
    let mut index: usize = 0;
    while index < items.len()
        invariant
            computes(*f),
            schema@.valid(),
            index <= items@.len(),
            numeric_items(expr_views(items@), schema@, floats(*f), index as nat) == numeric_items(
                expr_views(items@),
                schema@,
                floats(*f),
                0,
            ),
        decreases items@.len() - index,
    {
        let found = expression_data_type(f, &items[index], schema)?;
        ensure_numeric_type(found)?;
        index = index + 1;
    }
    Ok(())
}

fn check_comparable_items<F: Fn(FloatTask) -> FloatReply>(
    f: &F,
    value: Option<DataType>,
    items: &Vec<Expr>,
    schema: &Schema<'_>,
) -> (result: Result<(), Error>)
    requires
        computes(*f),
        schema@.valid(),
    ensures
        plain(result) == comparable_items(value, expr_views(items@), schema@, floats(*f), 0),
    decreases items, 0nat,
{
    let mut index: usize = 0;
    while index < items.len()
        invariant
            computes(*f),
            schema@.valid(),
            index <= items@.len(),
            comparable_items(value, expr_views(items@), schema@, floats(*f), index as nat) == comparable_items(
                value,
                expr_views(items@),
                schema@,
                floats(*f),
                0,
            ),
        decreases items@.len() - index,
    {
        let found = expression_data_type(f, &items[index], schema)?;
        ensure_comparable_types(value, found, Comparison::Eq)?;
        index = index + 1;
    }
    Ok(())
}

fn function_data_type<F: Fn(FloatTask) -> FloatReply>(f: &F, function: &Function, schema: &Schema<'_>) -> (result: Result<
    Option<DataType>,
    Error,
>)
    requires
        computes(*f),
        schema@.valid(),
    ensures
        plain(result) == expression_type(ExprView::Function(function@), schema@, floats(*f)),
    decreases function, 0nat,
{
    let name = object_name(&function.name);
    if aggregate_kind_of(name.as_str()).is_some() {
        let spec = parse_aggregate(function)?;
        assert(function@.arguments.len() == 1 ==> argument_views(function.arguments@)[0] == argument_view(
            function.arguments@[0],
        ));
        if spec.argument.is_none() {
            return type_of_aggregate(spec.kind, None);
        }
        let argument = match &function.arguments[0] {
            Argument::Expr(argument) => expression_data_type(f, argument, schema)?,
            _ => None,
        };
        return type_of_aggregate(spec.kind, argument);
    }
    if function.distinct || function.modified {
        return Err(Error::Unsupported(join2("function modifiers on ", function.name_text.as_str())));
    }
    if !are_plain_arguments(&function.arguments) {
        return Err(unsupported("named or wildcard function arguments"));
    }
    let types = types_of_arguments(f, &function.arguments, schema)?;
    type_of_scalar(name.as_str(), &types)
}

/// The type of an expression; none where SQL does not give one, as for `NULL`.
pub fn expression_data_type<F: Fn(FloatTask) -> FloatReply>(f: &F, expression: &Expr, schema: &Schema<'_>) -> (result:
    Result<Option<DataType>, Error>)
    requires
        computes(*f),
        schema@.valid(),
    ensures
        plain(result) == expression_type(expression@, schema@, floats(*f)),
    decreases expression, 1nat,
{
    match expression {
        Expr::Value(literal) => {
            let value = sql_literal(f, literal)?;
            Ok(value_data_type(&value))
        },
        Expr::Identifier(identifier, _) => {
            let index: usize = schema.resolve(identifier)?;
            assert(views(schema.columns@)[index as int] == schema.columns@[index as int]@);
            Ok(Some(schema.columns[index].data_type))
        },
        Expr::CompoundIdentifier(parts, _) => {
            let index: usize = schema.resolve_compound(parts)?;
            assert(views(schema.columns@)[index as int] == schema.columns@[index as int]@);
            Ok(Some(schema.columns[index].data_type))
        },
        Expr::Nested(inner) => expression_data_type(f, inner, schema),
        Expr::Array(items, _, _) => {
            check_numeric_items(f, items, schema)?;
            vector_type(items.len())
        },
        Expr::Function(function) => function_data_type(f, function, schema),
        Expr::BinaryOp(left, operator, right) => {
            let a = expression_data_type(f, left, schema)?;
            let b = expression_data_type(f, right, schema)?;
            binary_type(a, b, operator)
        },
        Expr::UnaryOp(operator, inner) => {
            let found = expression_data_type(f, inner, schema)?;
            unary_type(operator, found)
        },
        Expr::Test(test, inner) => {
            let found = expression_data_type(f, inner, schema)?;
            if *test != Test::IsNull && *test != Test::IsNotNull {
                ensure_boolean_type(found)?;
            }
            Ok(Some(DataType::Boolean))
        },
        Expr::Between { expr, negated: _, low, high } => {
            let value = expression_data_type(f, expr, schema)?;
            let lowest = expression_data_type(f, low, schema)?;
            let highest = expression_data_type(f, high, schema)?;
            ensure_comparable_types(value, lowest, Comparison::GtEq)?;
            ensure_comparable_types(value, highest, Comparison::LtEq)?;
            Ok(Some(DataType::Boolean))
        },
        Expr::InList { expr, list, negated: _ } => {
            let value = expression_data_type(f, expr, schema)?;
            check_comparable_items(f, value, list, schema)?;
            Ok(Some(DataType::Boolean))
        },
        Expr::Like { expr, pattern, negated: _, escape: _, insensitive: _ } => {
            let value = expression_data_type(f, expr, schema)?;
            let wanted = expression_data_type(f, pattern, schema)?;
            ensure_text_type(value)?;
            ensure_text_type(wanted)?;
            Ok(Some(DataType::Boolean))
        },
        Expr::Cast { expr, data_type, formatted: _ } => {
            expression_data_type(f, expr, schema)?;
            let data_type = parse_data_type(data_type)?;
            Ok(Some(data_type))
        },
        Expr::Other(text) => Err(Error::Unsupported(join2("expression ", text.as_str()))),
    }
}

} // verus!
