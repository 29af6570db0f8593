//! Grouping and aggregate functions.

use vstd::prelude::*;
use crate::ast::{
    expr_views, object_name, same_expr, Expr, ExprView, Function, Phrase, PhraseView, UnaryOperator, UnaryView,
};
use crate::error::{invalid, outcome, plain, unsupported, Error, ErrorView};
use crate::eval::{
    apply_between, apply_binary, apply_like, apply_membership, apply_test, between_value, binary_value, evaluate, evaluated,
    like_value, membership, test_value, EvalContext, Schema, SchemaView, ScopeView,
};
use crate::float::{
    compute_number, computes, finite, floats, is_finite, number, FloatReply, FloatTask, FloatTaskView, Floats,
};
use crate::operators::{
    apply_unary, coerce, coerced, compare_values, compared, literal_value, logical_type, parse_data_type, sql_literal,
    unary_value, Comparison, OperatorKind,
};
use crate::text::{join3, lemma_views_push, views};
use crate::types::{
    aggregate_kind_of, both, is_aggregate, known_columns, parse_aggregate, parsed_aggregate,
    validate_expression_columns, AggregateKind, AggregateSpec, AggregateView,
};
use crate::value::{key_of, keys_of, mismatch, row_views, type_mismatch, Column, UniqueKey, Value, ValueView};

verus! {

broadcast use {vstd::string::group_string_axioms, lemma_views_push};

/// The rows at the given positions.
pub open spec fn picked_rows(rows: Seq<Seq<ValueView>>, picked: Seq<usize>) -> Seq<Seq<ValueView>> {
    picked.map_values(|index: usize| rows[index as int])
}

/// Whether the positions are those of rows.
pub open spec fn valid_positions(picked: Seq<usize>, count: nat) -> bool {
    forall|i: int| 0 <= i < picked.len() ==> (#[trigger] picked[i]) < count
}

/// Whether every row has so many values.
pub open spec fn rows_of_width(rows: Seq<Seq<ValueView>>, width: nat) -> bool {
    forall|i: int| 0 <= i < rows.len() ==> (#[trigger] rows[i]).len() == width
}

/// Rows with the same values of the grouping expressions.
pub struct AggregateGroup {
    pub values: Vec<Value>,
    pub rows: Vec<usize>,
}

pub struct GroupView {
    pub values: Seq<ValueView>,
    pub rows: Seq<Seq<ValueView>>,
}

impl AggregateGroup {
    /// The group with its rows' values.
    pub open spec fn of(self, rows: Seq<Seq<ValueView>>) -> GroupView {
        GroupView { values: views(self.values@), rows: picked_rows(rows, self.rows@) }
    }
}

/// The argument's values that are no `NULL`, and of equal ones only the first where `distinct`,
/// in the rows from `from` on, after `done`.
pub open spec fn aggregate_inputs(
    argument: ExprView,
    distinct: bool,
    rows: Seq<Seq<ValueView>>,
    schema: SchemaView,
    floats: Floats,
    from: nat,
    done: Seq<ValueView>,
) -> Result<Seq<ValueView>, ErrorView>
    decreases rows.len() - from,
{
    if from >= rows.len() {
        Ok(done)
    } else {
        match evaluated(argument, (ScopeView { schema, row: rows[from as int], excluded: None }), floats) {
            Err(error) => Err(error),
            Ok(value) => if value is Null || (distinct && keys_of(done).contains(key_of(value))) {
                aggregate_inputs(argument, distinct, rows, schema, floats, from + 1, done)
            } else {
                aggregate_inputs(argument, distinct, rows, schema, floats, from + 1, done.push(value))
            },
        }
    }
}

/// The sum of the values from `from` on and those before: integers exactly, and as
/// floating-point numbers from the first one on that is one.
pub open spec fn sum_from(
    floats: Floats,
    values: Seq<ValueView>,
    from: nat,
    integers: i64,
    reals: u64,
    saw_real: bool,
) -> Result<ValueView, ErrorView>
    decreases values.len() - from,
{
    if from >= values.len() {
        if saw_real {
            if finite(reals) {
                Ok(ValueView::Float(reals))
            } else {
                Err(ErrorView::InvalidQuery("non-finite SUM result"@))
            }
        } else {
            Ok(ValueView::Integer(integers))
        }
    } else {
        match values[from as int] {
            ValueView::Integer(value) => if saw_real {
                sum_from(
                    floats,
                    values,
                    from + 1,
                    integers,
                    number(floats, FloatTaskView::Add(reals, number(floats, FloatTaskView::FromInteger(value)))),
                    true,
                )
            } else {
                match integers.checked_add(value) {
                    Some(sum) => sum_from(floats, values, from + 1, sum, reals, false),
                    None => Err(ErrorView::InvalidQuery("SUM integer overflow"@)),
                }
            },
            ValueView::Float(bits) => {
                let start = if saw_real { reals } else { number(floats, FloatTaskView::FromInteger(integers)) };
                sum_from(floats, values, from + 1, integers, number(floats, FloatTaskView::Add(start, bits)), true)
            },
            value => Err(mismatch("numeric aggregate argument"@, value)),
        }
    }
}

/// The sum of values; `NULL` of none.
pub open spec fn summed(floats: Floats, values: Seq<ValueView>) -> Result<ValueView, ErrorView> {
    if values.len() == 0 {
        Ok(ValueView::Null)
    } else {
        sum_from(floats, values, 0, 0, 0, false)
    }
}

/// The floating-point sum of the values from `from` on and `sum`.
pub open spec fn total_from(floats: Floats, values: Seq<ValueView>, from: nat, sum: u64) -> Result<u64, ErrorView>
    decreases values.len() - from,
{
    if from >= values.len() {
        Ok(sum)
    } else {
        match values[from as int].as_number(floats) {
            Err(error) => Err(error),
            Ok(None) => Err(ErrorView::InvalidQuery("AVG argument cannot be NULL"@)),
            Ok(Some(bits)) => total_from(floats, values, from + 1, number(floats, FloatTaskView::Add(sum, bits))),
        }
    }
}

/// The average of values; `NULL` of none.
pub open spec fn averaged(floats: Floats, values: Seq<ValueView>) -> Result<ValueView, ErrorView> {
    if values.len() == 0 {
        Ok(ValueView::Null)
    } else {
        match total_from(floats, values, 0, 0) {
            Err(error) => Err(error),
            Ok(sum) => {
                let count = number(floats, FloatTaskView::FromInteger(values.len() as i64));
                let result = number(floats, FloatTaskView::Divide(sum, count));
                if finite(result) {
                    Ok(ValueView::Float(result))
                } else {
                    Err(ErrorView::InvalidQuery("non-finite AVG result"@))
                }
            },
        }
    }
}

/// The extreme of `best` and the values from `from` up to the last but one.
pub open spec fn extreme_from(
    floats: Floats,
    values: Seq<ValueView>,
    operator: Comparison,
    from: nat,
    best: ValueView,
) -> Result<ValueView, ErrorView>
    decreases values.len() - from,
{
    if from + 1 >= values.len() {
        if best is Vector {
            Err(mismatch("sortable scalar aggregate argument"@, best))
        } else {
            Ok(best)
        }
    } else {
        match compared(floats, values[from as int], best, operator) {
            Err(error) => Err(error),
            Ok(better) => extreme_from(
                floats,
                values,
                operator,
                from + 1,
                if better == ValueView::Boolean(true) {
                    values[from as int]
                } else {
                    best
                },
            ),
        }
    }
}

/// The least or greatest of values; `NULL` of none.
pub open spec fn extreme(floats: Floats, values: Seq<ValueView>, operator: Comparison) -> Result<ValueView, ErrorView> {
    if values.len() == 0 {
        Ok(ValueView::Null)
    } else {
        extreme_from(floats, values, operator, 0, values.last())
    }
}

/// A count as a value.
pub open spec fn counted(count: nat) -> Result<ValueView, ErrorView> {
    if count <= i64::MAX {
        Ok(ValueView::Integer(count as i64))
    } else {
        Err(ErrorView::InvalidQuery("COUNT result is too large"@))
    }
}

/// The value of an aggregate over rows.
pub open spec fn aggregated(spec: AggregateView, rows: Seq<Seq<ValueView>>, schema: SchemaView, floats: Floats) -> Result<
    ValueView,
    ErrorView,
> {
    match spec.argument {
        None => counted(rows.len()),
        Some(argument) => match known_columns(argument, schema) {
            Err(error) => Err(error),
            Ok(_) => match aggregate_inputs(argument, spec.distinct, rows, schema, floats, 0, Seq::empty()) {
                Err(error) => Err(error),
                Ok(values) => match spec.kind {
                    AggregateKind::Count => counted(values.len()),
                    AggregateKind::Sum => summed(floats, values),
                    AggregateKind::Average => averaged(floats, values),
                    AggregateKind::Minimum => extreme(floats, values, Comparison::Lt),
                    AggregateKind::Maximum => extreme(floats, values, Comparison::Gt),
                },
            },
        },
    }
}

fn count_value(count: usize) -> (result: Result<Value, Error>)
    ensures
        outcome(result) == counted(count as nat),
{
    if count as u64 <= i64::MAX as u64 {
        Ok(Value::Integer(count as i64))
    } else {
        Err(invalid("COUNT result is too large"))
    }
}

/// The sum of values; `NULL` of none.
pub fn aggregate_sum<F: Fn(FloatTask) -> FloatReply>(f: &F, values: &Vec<Value>) -> (result: Result<Value, Error>)
    requires
        computes(*f),
    ensures
        outcome(result) == summed(floats(*f), views(values@)),
{
    if values.len() == 0 {
        return Ok(Value::Null);
    }
    let mut integers: i64 = 0;
    let mut reals: u64 = 0;
    let mut saw_real = false;
    let mut index: usize = 0;
    while index < values.len()
        invariant
            computes(*f),
            values@.len() > 0,
            index <= values@.len(),
            sum_from(floats(*f), views(values@), index as nat, integers, reals, saw_real) == sum_from(
                floats(*f),
                views(values@),
                0,
                0,
                0,
                false,
            ),
        decreases values@.len() - index,
    {
        match &values[index] {
            Value::Integer(value) => {
                if saw_real {
                    let converted: u64 = compute_number(f, FloatTask::FromInteger(*value));
                    reals = compute_number(f, FloatTask::Add(reals, converted));
                } else {
                    match integers.checked_add(*value) {
                        Some(sum) => {
                            integers = sum;
                        },
                        None => return Err(invalid("SUM integer overflow")),
                    }
                }
            },
            Value::Float(bits) => {
                if !saw_real {
                    reals = compute_number(f, FloatTask::FromInteger(integers));
                    saw_real = true;
                }
                reals = compute_number(f, FloatTask::Add(reals, *bits));
            },
            value => return Err(type_mismatch("numeric aggregate argument", value)),
        }
        index = index + 1;
    }
    if saw_real {
        if !is_finite(reals) {
            return Err(invalid("non-finite SUM result"));
        }
        Ok(Value::Float(reals))
    } else {
        Ok(Value::Integer(integers))
    }
}

/// The average of values; `NULL` of none.
pub fn aggregate_average<F: Fn(FloatTask) -> FloatReply>(f: &F, values: &Vec<Value>) -> (result: Result<Value, Error>)
    requires
        computes(*f),
    ensures
        outcome(result) == averaged(floats(*f), views(values@)),
{
    if values.len() == 0 {
        return Ok(Value::Null);
    }
    let mut sum: u64 = 0;
    let mut index: usize = 0;
    while index < values.len()
        invariant
            computes(*f),
            values@.len() > 0,
            index <= values@.len(),
            total_from(floats(*f), views(values@), index as nat, sum) == total_from(floats(*f), views(values@), 0, 0),
        decreases values@.len() - index,
    {
        match values[index].as_number(f)? {
            Some(bits) => {
                sum = compute_number(f, FloatTask::Add(sum, bits));
            },
            None => return Err(invalid("AVG argument cannot be NULL")),
        }
        index = index + 1;
    }
    let count: u64 = compute_number(f, FloatTask::FromInteger(values.len() as i64));
    let average: u64 = compute_number(f, FloatTask::Divide(sum, count));
    if !is_finite(average) {
        return Err(invalid("non-finite AVG result"));
    }
    Ok(Value::Float(average))
}

/// The least or greatest of values; `NULL` of none.
pub fn aggregate_extreme<F: Fn(FloatTask) -> FloatReply>(f: &F, values: &Vec<Value>, operator: Comparison) -> (result:
    Result<Value, Error>)
    requires
        computes(*f),
    ensures
        outcome(result) == extreme(floats(*f), views(values@), operator),
{
    if values.len() == 0 {
        return Ok(Value::Null);
    }
    let last: usize = values.len() - 1;
    let mut best: usize = last;
    let mut index: usize = 0;
    while index < last
        invariant
            computes(*f),
            last == values@.len() - 1,
            index <= last,
            best <= last,
            extreme_from(floats(*f), views(values@), operator, index as nat, views(values@)[best as int]) == extreme(
                floats(*f),
                views(values@),
                operator,
            ),
        decreases last - index,
    {
        if let Value::Boolean(true) = compare_values(f, &values[index], &values[best], operator)? {
            best = index;
        }
        index = index + 1;
    }
    match &values[best] {
        Value::Vector(_) => Err(type_mismatch("sortable scalar aggregate argument", &values[best])),
        value => Ok(value.clone()),
    }
}

fn holds_key(values: &Vec<Value>, key: &UniqueKey) -> (result: bool)
    ensures
        result == keys_of(views(values@)).contains(key@),
{
    let mut index: usize = 0;
    while index < values.len()
        invariant
            index <= values@.len(),
            forall|i: int| 0 <= i < index ==> key_of(#[trigger] values@[i]@) != key@,
        decreases values@.len() - index,
    {
        if UniqueKey::of(&values[index]).same_as(key) {
            assert(keys_of(views(values@))[index as int] == key@);
            return true;
        }
        index = index + 1;
    }
    assert forall|i: int| 0 <= i < values@.len() implies keys_of(views(values@))[i] != key@ by {
        assert(key_of(values@[i]@) != key@);
    }
    false
}

/// The value of an aggregate over rows.
pub fn evaluate_aggregate<F: Fn(FloatTask) -> FloatReply>(
    f: &F,
    spec: &AggregateSpec<'_>,
    rows: &Vec<Vec<Value>>,
    picked: &Vec<usize>,
    columns: &Vec<Column>,
) -> (result: Result<Value, Error>)
    requires
        computes(*f),
        valid_positions(picked@, rows@.len()),
        rows_of_width(row_views(rows@), columns@.len()),
    ensures
        outcome(result) == aggregated(
            spec@,
            picked_rows(row_views(rows@), picked@),
            SchemaView::plain(views(columns@)),
            floats(*f),
        ),
{
    let argument = match spec.argument {
        None => return count_value(picked.len()),
        Some(argument) => argument,
    };
    let schema = Schema { columns, sources: None };
    validate_expression_columns(argument, &schema)?;
    let values = collect_inputs(f, argument, spec.distinct, rows, picked, columns)?;
    match spec.kind {
        AggregateKind::Count => count_value(values.len()),
        AggregateKind::Sum => aggregate_sum(f, &values),
        AggregateKind::Average => aggregate_average(f, &values),
        AggregateKind::Minimum => aggregate_extreme(f, &values, Comparison::Lt),
        AggregateKind::Maximum => aggregate_extreme(f, &values, Comparison::Gt),
    }
}

fn collect_inputs<F: Fn(FloatTask) -> FloatReply>(
    f: &F,
    argument: &Expr,
    distinct: bool,
    rows: &Vec<Vec<Value>>,
    picked: &Vec<usize>,
    columns: &Vec<Column>,
) -> (result: Result<Vec<Value>, Error>)
    requires
        computes(*f),
        valid_positions(picked@, rows@.len()),
        rows_of_width(row_views(rows@), columns@.len()),
    ensures
        match result {
            Ok(values) => aggregate_inputs(
                argument@,
                distinct,
                picked_rows(row_views(rows@), picked@),
                SchemaView::plain(views(columns@)),
                floats(*f),
                0,
                Seq::empty(),
            ) == Ok::<Seq<ValueView>, ErrorView>(views(values@)),
            Err(error) => aggregate_inputs(
                argument@,
                distinct,
                picked_rows(row_views(rows@), picked@),
                SchemaView::plain(views(columns@)),
                floats(*f),
                0,
                Seq::empty(),
            ) == Err::<Seq<ValueView>, ErrorView>(error@),
        },
{
    let ghost source = picked_rows(row_views(rows@), picked@);
    let ghost schema = SchemaView::plain(views(columns@));
    let mut values: Vec<Value> = Vec::new();
    assert(views(values@) =~= Seq::<ValueView>::empty());
    let mut index: usize = 0;
    while index < picked.len()
        invariant
            computes(*f),
            valid_positions(picked@, rows@.len()),
            rows_of_width(row_views(rows@), columns@.len()),
            source == picked_rows(row_views(rows@), picked@),
            schema == SchemaView::plain(views(columns@)),
            index <= picked@.len(),
            aggregate_inputs(argument@, distinct, source, schema, floats(*f), index as nat, views(values@))
                == aggregate_inputs(argument@, distinct, source, schema, floats(*f), 0, Seq::empty()),
        decreases picked@.len() - index,
    {
        let position: usize = picked[index];
        assert(row_views(rows@)[position as int] == views(rows@[position as int]@));
        assert(source[index as int] == views(rows@[position as int]@));
        let context = EvalContext::new(columns, &rows[position]);
        let value = evaluate(f, argument, &context)?;
        if !value.is_null() {
            let repeated = if distinct {
                let key = UniqueKey::of(&value);
                holds_key(&values, &key)
            } else {
                false
            };
            if !repeated {
                values.push(value);
            }
        }
        index = index + 1;
    }
    Ok(values)
}

/// The first of the phrases, from `from` on, that is this expression.
pub open spec fn phrase_position(phrases: Seq<PhraseView>, expression: ExprView, from: nat) -> Option<nat>
    decreases phrases.len() - from,
{
    if from >= phrases.len() {
        None
    } else if phrases[from as int].expr == expression {
        Some(from)
    } else {
        phrase_position(phrases, expression, from + 1)
    }
}

/// The first of the phrases that is this expression.
pub fn find_phrase(phrases: &Vec<Phrase>, expression: &Expr) -> (result: Option<usize>)
    ensures
        match result {
            Some(index) => phrase_position(views(phrases@), expression@, 0) == Some(index as nat) && index < phrases@.len(),
            None => phrase_position(views(phrases@), expression@, 0) is None,
        },
{
    let mut index: usize = 0;
    while index < phrases.len()
        invariant
            index <= phrases@.len(),
            phrase_position(views(phrases@), expression@, index as nat) == phrase_position(
                views(phrases@),
                expression@,
                0,
            ),
        decreases phrases@.len() - index,
    {
        if same_expr(&phrases[index].expr, expression) {
            return Some(index);
        }
        index = index + 1;
    }
    None
}

/// The message that an expression is neither grouped by nor aggregated.
pub open spec fn not_grouped(text: Seq<char>) -> ErrorView {
    ErrorView::InvalidQuery("expression '"@ + text + "' must appear in GROUP BY or be aggregated"@)
}

pub open spec fn not_in_aggregate(text: Seq<char>) -> ErrorView {
    ErrorView::Unsupported("expression '"@ + text + "' in aggregate query"@)
}

/// Whether an expression can be computed for a group: it is grouped by, an aggregate, or made of
/// such ones.
pub open spec fn groupable(expression: ExprView, group_by: Seq<PhraseView>, schema: SchemaView) -> Result<(), ErrorView>
    decreases expression, 0nat,
{
    if phrase_position(group_by, expression, 0) is Some {
        known_columns(expression, schema)
    } else {
        match expression {
            ExprView::Function(function) => if is_aggregate(function) {
                match parsed_aggregate(function) {
                    Err(error) => Err(error),
                    Ok(spec) => match spec.argument {
                        Some(argument) => known_columns(argument, schema),
                        None => Ok(()),
                    },
                }
            } else {
                Err(ErrorView::Unsupported("scalar function '"@ + function.text + "' in aggregate expression"@))
            },
            ExprView::Value(_) => Ok(()),
            ExprView::Array(items, _, _) => all_groupable(items, group_by, schema, 0),
            ExprView::BinaryOp(left, _, right) => both(
                groupable(*left, group_by, schema),
                groupable(*right, group_by, schema),
            ),
            ExprView::UnaryOp(_, inner) => groupable(*inner, group_by, schema),
            ExprView::Nested(inner) => groupable(*inner, group_by, schema),
            ExprView::Test(_, inner) => groupable(*inner, group_by, schema),
            ExprView::Cast { expr, data_type, formatted } => groupable(*expr, group_by, schema),
            ExprView::Between { expr, negated, low, high } => both(
                groupable(*expr, group_by, schema),
                both(groupable(*low, group_by, schema), groupable(*high, group_by, schema)),
            ),
            ExprView::InList { expr, list, negated } => both(
                groupable(*expr, group_by, schema),
                all_groupable(list, group_by, schema, 0),
            ),
            ExprView::Like { expr, pattern, negated, escape, insensitive } => both(
                groupable(*expr, group_by, schema),
                groupable(*pattern, group_by, schema),
            ),
            ExprView::Identifier(_, text) => Err(not_grouped(text)),
            ExprView::CompoundIdentifier(_, text) => Err(not_grouped(text)),
            ExprView::Other(text) => Err(not_in_aggregate(text)),
        }
    }
}

pub open spec fn all_groupable(items: Seq<ExprView>, group_by: Seq<PhraseView>, schema: SchemaView, from: nat) -> Result<
    (),
    ErrorView,
>
    decreases items, (items.len() - from) as nat,
{
    if from >= items.len() {
        Ok(())
    } else {
        both(groupable(items[from as int], group_by, schema), all_groupable(items, group_by, schema, from + 1))
    }
}

fn validate_group_list(items: &Vec<Expr>, group_by: &Vec<Phrase>, schema: &Schema<'_>) -> (result: Result<(), Error>)
    requires
        schema@.valid(),
    ensures
        plain(result) == all_groupable(expr_views(items@), views(group_by@), schema@, 0),
    decreases items, 0nat,
{
    let mut index: usize = 0;
    while index < items.len()
        invariant
            schema@.valid(),
            index <= items@.len(),
            all_groupable(expr_views(items@), views(group_by@), schema@, index as nat) == all_groupable(
                expr_views(items@),
                views(group_by@),
                schema@,
                0,
            ),
        decreases items@.len() - index,
    {
        validate_group_expression(&items[index], group_by, schema)?;
        index = index + 1;
    }
    Ok(())
}

fn validate_group_function(function: &Function, group_by: &Vec<Phrase>, schema: &Schema<'_>) -> (result: Result<(), Error>)
    requires
        schema@.valid(),
        phrase_position(views(group_by@), ExprView::Function(function@), 0) is None,
    ensures
        plain(result) == groupable(ExprView::Function(function@), views(group_by@), schema@),
{
    let name = object_name(&function.name);
    if aggregate_kind_of(name.as_str()).is_some() {
        let spec = parse_aggregate(function)?;
        if let Some(argument) = spec.argument {
            validate_expression_columns(argument, schema)?;
        }
        return Ok(());
    }
    Err(
        Error::Unsupported(
            join3("scalar function '", function.text.as_str(), "' in aggregate expression"),
        ),
    )
}

/// Fails exactly when an expression cannot be computed for a group.
#[verifier::rlimit(60)]
pub fn validate_group_expression(expression: &Expr, group_by: &Vec<Phrase>, schema: &Schema<'_>) -> (result: Result<
    (),
    Error,
>)
    requires
        schema@.valid(),
    ensures
        plain(result) == groupable(expression@, views(group_by@), schema@),
    decreases expression, 1nat,
{
    if find_phrase(group_by, expression).is_some() {
        return validate_expression_columns(expression, schema);
    }
    match expression {
        Expr::Function(function) => validate_group_function(function, group_by, schema),
        Expr::Value(_) => Ok(()),
        Expr::Array(items, _, _) => validate_group_list(items, group_by, schema),
        Expr::BinaryOp(left, _, right) => {
            validate_group_expression(left, group_by, schema)?;
            validate_group_expression(right, group_by, schema)
        },
        Expr::UnaryOp(_, inner) => validate_group_expression(inner, group_by, schema),
        Expr::Nested(inner) => validate_group_expression(inner, group_by, schema),
        Expr::Test(_, inner) => validate_group_expression(inner, group_by, schema),
        Expr::Cast { expr, data_type: _, formatted: _ } => validate_group_expression(expr, group_by, schema),
        Expr::Between { expr, negated: _, low, high } => {
            validate_group_expression(expr, group_by, schema)?;
            validate_group_expression(low, group_by, schema)?;
            validate_group_expression(high, group_by, schema)
        },
        Expr::InList { expr, list, negated: _ } => {
            validate_group_expression(expr, group_by, schema)?;
            validate_group_list(list, group_by, schema)
        },
        Expr::Like { expr, pattern, negated: _, escape: _, insensitive: _ } => {
            validate_group_expression(expr, group_by, schema)?;
            validate_group_expression(pattern, group_by, schema)
        },
        Expr::Identifier(_, text) => Err(
            Error::InvalidQuery(
                join3("expression '", text.as_str(), "' must appear in GROUP BY or be aggregated"),
            ),
        ),
        Expr::CompoundIdentifier(_, text) => Err(
            Error::InvalidQuery(
                join3("expression '", text.as_str(), "' must appear in GROUP BY or be aggregated"),
            ),
        ),
        Expr::Other(text) => Err(Error::Unsupported(join3("expression '", text.as_str(), "' in aggregate query"))),
    }
}

pub open spec fn not_in_having(text: Seq<char>) -> ErrorView {
    ErrorView::Unsupported("expression '"@ + text + "' in HAVING"@)
}

pub open spec fn group_unary_error(operator: UnaryView) -> ErrorView {
    match operator {
        UnaryView::Other(text) => ErrorView::Unsupported("operator "@ + text + " in HAVING expression"@),
        _ => ErrorView::Unsupported(Seq::empty()),
    }
}

fn unary_error(operator: &UnaryOperator) -> (error: Error)
    ensures
        error@ == group_unary_error(operator@),
{
    match operator {
        UnaryOperator::Other(text) => Error::Unsupported(join3("operator ", text.as_str(), " in HAVING expression")),
        _ => Error::Unsupported(String::new()),
    }
}

/// Whether an equal item and a `NULL` are met in the list from `from` on, or were before.
pub open spec fn group_members(
    value: ValueView,
    list: Seq<ExprView>,
    group_by: Seq<PhraseView>,
    group: GroupView,
    schema: SchemaView,
    floats: Floats,
    from: nat,
    found: bool,
    saw_null: bool,
) -> Result<(bool, bool), ErrorView>
    decreases list, (list.len() - from) as nat,
{
    if from >= list.len() {
        Ok((found, saw_null))
    } else {
        match grouped_value(list[from as int], group_by, group, schema, floats) {
            Err(error) => Err(error),
            Ok(item) => match compared(floats, value, item, Comparison::Eq) {
                Err(error) => Err(error),
                Ok(equal) => group_members(
                    value,
                    list,
                    group_by,
                    group,
                    schema,
                    floats,
                    from + 1,
                    found || equal == ValueView::Boolean(true),
                    saw_null || equal is Null,
                ),
            },
        }
    }
}

/// The value of an expression for a group.
pub open spec fn grouped_value(
    expression: ExprView,
    group_by: Seq<PhraseView>,
    group: GroupView,
    schema: SchemaView,
    floats: Floats,
) -> Result<ValueView, ErrorView>
    decreases expression, 0nat,
{
    match phrase_position(group_by, expression, 0) {
        Some(index) => Ok(group.values[index as int]),
        None => match expression {
            ExprView::Function(function) => if is_aggregate(function) {
                match parsed_aggregate(function) {
                    Err(error) => Err(error),
                    Ok(spec) => aggregated(spec, group.rows, schema, floats),
                }
            } else {
                Err(not_in_having(function.text))
            },
            ExprView::Value(literal) => literal_value(floats, literal),
            ExprView::Nested(inner) => grouped_value(*inner, group_by, group, schema, floats),
            ExprView::BinaryOp(left, operator, right) => match grouped_value(*left, group_by, group, schema, floats) {
                Err(error) => Err(error),
                Ok(a) => if operator is And && a == ValueView::Boolean(false) {
                    Ok(ValueView::Boolean(false))
                } else if operator is Or && a == ValueView::Boolean(true) {
                    Ok(ValueView::Boolean(true))
                } else {
                    match grouped_value(*right, group_by, group, schema, floats) {
                        Err(error) => Err(error),
                        Ok(b) => binary_value(
                            floats,
                            a,
                            b,
                            operator,
                            "operator "@ + operator.notation() + " in HAVING expression"@,
                        ),
                    }
                },
            },
            ExprView::UnaryOp(operator, inner) => match grouped_value(*inner, group_by, group, schema, floats) {
                Err(error) => Err(error),
                Ok(value) => unary_value(operator, value, group_unary_error(operator)),
            },
            ExprView::Test(test, inner) => match grouped_value(*inner, group_by, group, schema, floats) {
                Err(error) => Err(error),
                Ok(value) => test_value(test, value),
            },
            ExprView::Between { expr, negated, low, high } => match grouped_value(*expr, group_by, group, schema, floats) {
                Err(error) => Err(error),
                Ok(value) => match grouped_value(*low, group_by, group, schema, floats) {
                    Err(error) => Err(error),
                    Ok(lowest) => match grouped_value(*high, group_by, group, schema, floats) {
                        Err(error) => Err(error),
                        Ok(highest) => between_value(floats, value, lowest, highest, negated),
                    },
                },
            },
            ExprView::InList { expr, list, negated } => match grouped_value(*expr, group_by, group, schema, floats) {
                Err(error) => Err(error),
                Ok(value) => match group_members(
                    value,
                    list,
                    group_by,
                    group,
                    schema,
                    floats,
                    0,
                    false,
                    value is Null,
                ) {
                    Err(error) => Err(error),
                    Ok((found, saw_null)) => membership(found, saw_null, negated),
                },
            },
            ExprView::Like { expr, pattern, negated, escape, insensitive } => if escape is Some {
                Err(ErrorView::Unsupported("LIKE ... ESCAPE in HAVING"@))
            } else {
                match grouped_value(*expr, group_by, group, schema, floats) {
                    Err(error) => Err(error),
                    Ok(value) => match grouped_value(*pattern, group_by, group, schema, floats) {
                        Err(error) => Err(error),
                        Ok(wanted) => like_value(value, wanted, negated, insensitive),
                    },
                }
            },
            ExprView::Cast { expr, data_type, formatted } => match grouped_value(*expr, group_by, group, schema, floats) {
                Err(error) => Err(error),
                Ok(value) => match logical_type(data_type) {
                    Err(error) => Err(error),
                    Ok(data_type) => coerced(floats, value, data_type),
                },
            },
            ExprView::Identifier(_, text) => Err(not_grouped(text)),
            ExprView::CompoundIdentifier(_, text) => Err(not_grouped(text)),
            ExprView::Array(_, _, text) => Err(not_in_having(text)),
            ExprView::Other(text) => Err(not_in_having(text)),
        },
    }
}

/// A group to be evaluated, with the rows and the columns that it is a part of.
pub struct GroupContext<'a> {
    pub group_by: &'a Vec<Phrase>,
    pub group: &'a AggregateGroup,
    pub rows: &'a Vec<Vec<Value>>,
    pub columns: &'a Vec<Column>,
}

impl<'a> GroupContext<'a> {
    pub open spec fn valid(self) -> bool {
        &&& valid_positions(self.group.rows@, self.rows@.len())
        &&& rows_of_width(row_views(self.rows@), self.columns@.len())
        &&& self.group.values@.len() == self.group_by@.len()
    }

    pub open spec fn group_view(self) -> GroupView {
        self.group.of(row_views(self.rows@))
    }

    pub open spec fn schema(self) -> SchemaView {
        SchemaView::plain(views(self.columns@))
    }
}

fn evaluate_group_function<F: Fn(FloatTask) -> FloatReply>(f: &F, function: &Function, context: &GroupContext<'_>) -> (result:
    Result<Value, Error>)
    requires
        computes(*f),
        context.valid(),
        phrase_position(views(context.group_by@), ExprView::Function(function@), 0) is None,
    ensures
        outcome(result) == grouped_value(
            ExprView::Function(function@),
            views(context.group_by@),
            context.group_view(),
            context.schema(),
            floats(*f),
        ),
{
    let name = object_name(&function.name);
    if aggregate_kind_of(name.as_str()).is_some() {
        let spec = parse_aggregate(function)?;
        return evaluate_aggregate(f, &spec, context.rows, &context.group.rows, context.columns);
    }
    Err(Error::Unsupported(join3("expression '", function.text.as_str(), "' in HAVING")))
}

fn evaluate_group_members<F: Fn(FloatTask) -> FloatReply>(
    f: &F,
    value: &Value,
    list: &Vec<Expr>,
    context: &GroupContext<'_>,
) -> (result: Result<(bool, bool), Error>)
    requires
        computes(*f),
        context.valid(),
    ensures
        plain(result) == group_members(
            value@,
            expr_views(list@),
            views(context.group_by@),
            context.group_view(),
            context.schema(),
            floats(*f),
            0,
            false,
            value@ is Null,
        ),
    decreases list, 0nat,
{
    let mut found = false;
    let mut saw_null = value.is_null();
    let mut index: usize = 0;
    while index < list.len()
        invariant
            computes(*f),
            context.valid(),
            index <= list@.len(),
            group_members(
                value@,
                expr_views(list@),
                views(context.group_by@),
                context.group_view(),
                context.schema(),
                floats(*f),
                index as nat,
                found,
                saw_null,
            ) == group_members(
                value@,
                expr_views(list@),
                views(context.group_by@),
                context.group_view(),
                context.schema(),
                floats(*f),
                0,
                false,
                value@ is Null,
            ),
        decreases list@.len() - index,
    {
        let item = evaluate_group_expression(f, &list[index], context)?;
        match compare_values(f, value, &item, Comparison::Eq)? {
            Value::Boolean(true) => {
                found = true;
            },
            Value::Null => {
                saw_null = true;
            },
            _ => {},
        }
        index = index + 1;
    }
    Ok((found, saw_null))
}

fn is_boolean(value: &Value, flag: bool) -> (result: bool)
    ensures
        result == (value@ == ValueView::Boolean(flag)),
{
    match value {
        Value::Boolean(found) => *found == flag,
        _ => false,
    }
}

/// The value of an expression for a group.
#[verifier::rlimit(80)]
pub fn evaluate_group_expression<F: Fn(FloatTask) -> FloatReply>(
    f: &F,
    expression: &Expr,
    context: &GroupContext<'_>,
) -> (result: Result<Value, Error>)
    requires
        computes(*f),
        context.valid(),
    ensures
        outcome(result) == grouped_value(
            expression@,
            views(context.group_by@),
            context.group_view(),
            context.schema(),
            floats(*f),
        ),
    decreases expression, 1nat,
{
    if let Some(index) = find_phrase(context.group_by, expression) {
        return Ok(context.group.values[index].clone());
    }
    match expression {
        Expr::Function(function) => evaluate_group_function(f, function, context),
        Expr::Value(literal) => sql_literal(f, literal),
        Expr::Nested(inner) => evaluate_group_expression(f, inner, context),
        Expr::BinaryOp(left, operator, right) => {
            let a = evaluate_group_expression(f, left, context)?;
            match operator.kind() {
                OperatorKind::And => {
                    if is_boolean(&a, false) {
                        return Ok(Value::Boolean(false));
                    }
                },
                OperatorKind::Or => {
                    if is_boolean(&a, true) {
                        return Ok(Value::Boolean(true));
                    }
                },
                _ => {},
            }
            let b = evaluate_group_expression(f, right, context)?;
            let unknown = join3("operator ", operator.to_text().as_str(), " in HAVING expression");
            apply_binary(f, &a, &b, operator, unknown)
        },
        Expr::UnaryOp(operator, inner) => {
            let value = evaluate_group_expression(f, inner, context)?;
            apply_unary(operator, value, unary_error(operator))
        },
        Expr::Test(test, inner) => {
            let value = evaluate_group_expression(f, inner, context)?;
            apply_test(*test, &value)
        },
        Expr::Between { expr, negated, low, high } => {
            let value = evaluate_group_expression(f, expr, context)?;
            let lowest = evaluate_group_expression(f, low, context)?;
            let highest = evaluate_group_expression(f, high, context)?;
            apply_between(f, &value, &lowest, &highest, *negated)
        },
        Expr::InList { expr, list, negated } => {
            let value = evaluate_group_expression(f, expr, context)?;
            let (found, saw_null) = evaluate_group_members(f, &value, list, context)?;
            apply_membership(found, saw_null, *negated)
        },
        Expr::Like { expr, pattern, negated, escape, insensitive } => {
            if escape.is_some() {
                return Err(unsupported("LIKE ... ESCAPE in HAVING"));
            }
            let value = evaluate_group_expression(f, expr, context)?;
            let wanted = evaluate_group_expression(f, pattern, context)?;
            apply_like(&value, &wanted, *negated, *insensitive)
        },
        Expr::Cast { expr, data_type, formatted: _ } => {
            let value = evaluate_group_expression(f, expr, context)?;
            let data_type = parse_data_type(data_type)?;
            coerce(f, value, data_type)
        },
        Expr::Identifier(_, text) => Err(
            Error::InvalidQuery(
                join3("expression '", text.as_str(), "' must appear in GROUP BY or be aggregated"),
            ),
        ),
        Expr::CompoundIdentifier(_, text) => Err(
            Error::InvalidQuery(
                join3("expression '", text.as_str(), "' must appear in GROUP BY or be aggregated"),
            ),
        ),
        Expr::Array(_, _, text) => Err(Error::Unsupported(join3("expression '", text.as_str(), "' in HAVING"))),
        Expr::Other(text) => Err(Error::Unsupported(join3("expression '", text.as_str(), "' in HAVING"))),
    }
}

} // verus!
