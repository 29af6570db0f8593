//! Operators on SQL values: comparison, arithmetic, three-valued logic, pattern matching and
//! conversion between types.

use vstd::prelude::*;
use crate::ast::{BinaryOperator, BinaryView, Literal, LiteralView, TypeName, TypeNameView, UnaryOperator, UnaryView,
    last_name, object_name};
use crate::error::{invalid, outcome, Error, ErrorView};
use crate::float::{
    compute, compute_number, computes, finite, floats, is_finite, is_zero, magnitude, narrow, narrowed, negate, negated,
    number, number_rank, rank_numbers, scored, FloatReply, FloatReplyView, FloatTask, FloatTaskView, Floats, Metric,
};
use crate::text::{chars_of, int_rank, join2, join3, parse_integer, parse_unsigned, integer_value, rank_text, same_text,
    text_rank, unsigned_value, views, Rank};
use crate::value::{bool_rank, mismatch, rank_bools, rank_integers, type_mismatch, DataType, Value, ValueView};
use crate::vector::{element_finite, element_is_finite, new_vector, same_elements, Vector, MAX_VECTOR_DIMENSIONS};

verus! {

broadcast use vstd::string::group_string_axioms;

/// A comparison operator.
#[derive(Clone, Copy, Debug, PartialEq, Eq, Structural)]
pub enum Comparison {
    Eq,
    NotEq,
    Gt,
    GtEq,
    Lt,
    LtEq,
}

/// An arithmetic operator.
#[derive(Clone, Copy, Debug, PartialEq, Eq, Structural)]
pub enum Arithmetic {
    Plus,
    Minus,
    Multiply,
    Divide,
    Modulo,
}

/// What kind of operator a binary operator is.
pub enum OperatorKind<'a> {
    And,
    Or,
    Compare(Comparison),
    Compute(Arithmetic),
    Custom(&'a String),
    Other(&'a String),
}

pub enum OperatorKindView {
    And,
    Or,
    Compare(Comparison),
    Compute(Arithmetic),
    Custom(Seq<char>),
    Other(Seq<char>),
}

impl BinaryView {
    pub open spec fn kind(self) -> OperatorKindView {
        match self {
            BinaryView::Plus => OperatorKindView::Compute(Arithmetic::Plus),
            BinaryView::Minus => OperatorKindView::Compute(Arithmetic::Minus),
            BinaryView::Multiply => OperatorKindView::Compute(Arithmetic::Multiply),
            BinaryView::Divide => OperatorKindView::Compute(Arithmetic::Divide),
            BinaryView::Modulo => OperatorKindView::Compute(Arithmetic::Modulo),
            BinaryView::Eq => OperatorKindView::Compare(Comparison::Eq),
            BinaryView::NotEq => OperatorKindView::Compare(Comparison::NotEq),
            BinaryView::Gt => OperatorKindView::Compare(Comparison::Gt),
            BinaryView::GtEq => OperatorKindView::Compare(Comparison::GtEq),
            BinaryView::Lt => OperatorKindView::Compare(Comparison::Lt),
            BinaryView::LtEq => OperatorKindView::Compare(Comparison::LtEq),
            BinaryView::And => OperatorKindView::And,
            BinaryView::Or => OperatorKindView::Or,
            BinaryView::Custom(text) => OperatorKindView::Custom(text),
            BinaryView::Other(text) => OperatorKindView::Other(text),
        }
    }
}

impl<'a> OperatorKind<'a> {
    pub open spec fn of_view(self) -> OperatorKindView {
        match self {
            OperatorKind::And => OperatorKindView::And,
            OperatorKind::Or => OperatorKindView::Or,
            OperatorKind::Compare(c) => OperatorKindView::Compare(c),
            OperatorKind::Compute(a) => OperatorKindView::Compute(a),
            OperatorKind::Custom(text) => OperatorKindView::Custom(text@),
            OperatorKind::Other(text) => OperatorKindView::Other(text@),
        }
    }
}

impl BinaryOperator {
    /// What kind of operator this is.
    pub fn kind<'a>(&'a self) -> (kind: OperatorKind<'a>)
        ensures
            kind.of_view() == self@.kind(),
    {
        match self {
            BinaryOperator::Plus => OperatorKind::Compute(Arithmetic::Plus),
            BinaryOperator::Minus => OperatorKind::Compute(Arithmetic::Minus),
            BinaryOperator::Multiply => OperatorKind::Compute(Arithmetic::Multiply),
            BinaryOperator::Divide => OperatorKind::Compute(Arithmetic::Divide),
            BinaryOperator::Modulo => OperatorKind::Compute(Arithmetic::Modulo),
            BinaryOperator::Eq => OperatorKind::Compare(Comparison::Eq),
            BinaryOperator::NotEq => OperatorKind::Compare(Comparison::NotEq),
            BinaryOperator::Gt => OperatorKind::Compare(Comparison::Gt),
            BinaryOperator::GtEq => OperatorKind::Compare(Comparison::GtEq),
            BinaryOperator::Lt => OperatorKind::Compare(Comparison::Lt),
            BinaryOperator::LtEq => OperatorKind::Compare(Comparison::LtEq),
            BinaryOperator::And => OperatorKind::And,
            BinaryOperator::Or => OperatorKind::Or,
            BinaryOperator::Custom(text) => OperatorKind::Custom(text),
            BinaryOperator::Other(text) => OperatorKind::Other(text),
        }
    }
}

impl Comparison {
    /// Whether the comparison holds of two values of this rank.
    pub open spec fn holds(self, rank: Rank) -> bool {
        match self {
            Comparison::Eq => rank == Rank::Same,
            Comparison::NotEq => rank != Rank::Same,
            Comparison::Gt => rank == Rank::After,
            Comparison::GtEq => rank != Rank::Before,
            Comparison::Lt => rank == Rank::Before,
            Comparison::LtEq => rank != Rank::After,
        }
    }

    /// Whether the comparison holds of two values of this rank.
    pub fn accepts(self, rank: Rank) -> (result: bool)
        ensures
            result == self.holds(rank),
    {
        match self {
            Comparison::Eq => rank == Rank::Same,
            Comparison::NotEq => rank != Rank::Same,
            Comparison::Gt => rank == Rank::After,
            Comparison::GtEq => rank != Rank::Before,
            Comparison::Lt => rank == Rank::Before,
            Comparison::LtEq => rank != Rank::After,
        }
    }
}

/// The rank of two numbers, or the error that they cannot be compared.
pub open spec fn comparable_rank(rank: Option<Rank>) -> Result<Rank, ErrorView> {
    match rank {
        Some(rank) => Ok(rank),
        None => Err(ErrorView::InvalidQuery("cannot compare NaN"@)),
    }
}

/// The rank of two values that are no `NULL`.
pub open spec fn value_rank(floats: Floats, left: ValueView, right: ValueView) -> Result<Rank, ErrorView> {
    match (left, right) {
        (ValueView::Integer(a), ValueView::Integer(b)) => Ok(int_rank(a as int, b as int)),
        (ValueView::Integer(a), ValueView::Float(b)) => comparable_rank(
            number_rank(number(floats, FloatTaskView::FromInteger(a)), b),
        ),
        (ValueView::Float(a), ValueView::Integer(b)) => comparable_rank(
            number_rank(a, number(floats, FloatTaskView::FromInteger(b))),
        ),
        (ValueView::Float(a), ValueView::Float(b)) => comparable_rank(number_rank(a, b)),
        (ValueView::Text(a), ValueView::Text(b)) => Ok(text_rank(a, b)),
        (ValueView::Boolean(a), ValueView::Boolean(b)) => Ok(bool_rank(a, b)),
        _ => Err(
            ErrorView::TypeMismatch {
                expected: "comparable values"@,
                found: left.kind_name() + " and "@ + right.kind_name(),
            },
        ),
    }
}

/// The value of a comparison: `NULL` where either side is; vectors are only equal or not.
pub open spec fn compared(floats: Floats, left: ValueView, right: ValueView, operator: Comparison) -> Result<
    ValueView,
    ErrorView,
> {
    match (left, right) {
        (ValueView::Null, _) => Ok(ValueView::Null),
        (_, ValueView::Null) => Ok(ValueView::Null),
        (ValueView::Vector(a), ValueView::Vector(b)) if operator == Comparison::Eq => Ok(
            ValueView::Boolean(same_elements(a, b)),
        ),
        (ValueView::Vector(a), ValueView::Vector(b)) if operator == Comparison::NotEq => Ok(
            ValueView::Boolean(!same_elements(a, b)),
        ),
        _ => match value_rank(floats, left, right) {
            Ok(rank) => Ok(ValueView::Boolean(operator.holds(rank))),
            Err(error) => Err(error),
        },
    }
}

fn known_or_error(rank: Option<Rank>) -> (result: Result<Rank, Error>)
    ensures
        match result {
            Ok(rank0) => comparable_rank(rank) == Ok::<Rank, ErrorView>(rank0),
            Err(error) => comparable_rank(rank) == Err::<Rank, ErrorView>(error@),
        },
{
    match rank {
        Some(rank) => Ok(rank),
        None => Err(invalid("cannot compare NaN")),
    }
}

fn rank_values<F: Fn(FloatTask) -> FloatReply>(f: &F, left: &Value, right: &Value) -> (result: Result<Rank, Error>)
    requires
        computes(*f),
    ensures
        match result {
            Ok(rank) => value_rank(floats(*f), left@, right@) == Ok::<Rank, ErrorView>(rank),
            Err(error) => value_rank(floats(*f), left@, right@) == Err::<Rank, ErrorView>(error@),
        },
{
    match (left, right) {
        (Value::Integer(a), Value::Integer(b)) => Ok(rank_integers(*a, *b)),
        (Value::Integer(a), Value::Float(b)) => known_or_error(
            rank_numbers(compute_number(f, FloatTask::FromInteger(*a)), *b),
        ),
        (Value::Float(a), Value::Integer(b)) => known_or_error(
            rank_numbers(*a, compute_number(f, FloatTask::FromInteger(*b))),
        ),
        (Value::Float(a), Value::Float(b)) => known_or_error(rank_numbers(*a, *b)),
        (Value::Text(a), Value::Text(b)) => Ok(rank_text(a.as_str(), b.as_str())),
        (Value::Boolean(a), Value::Boolean(b)) => Ok(rank_bools(*a, *b)),
        (left, right) => Err(
            Error::TypeMismatch {
                expected: "comparable values".to_owned(),
                found: join3(left.kind_name(), " and ", right.kind_name()),
            },
        ),
    }
}

/// The value of a comparison: `NULL` where either side is; vectors are only equal or not.
pub fn compare_values<F: Fn(FloatTask) -> FloatReply>(
    f: &F,
    left: &Value,
    right: &Value,
    operator: Comparison,
) -> (result: Result<Value, Error>)
    requires
        computes(*f),
    ensures
        outcome(result) == compared(floats(*f), left@, right@, operator),
{
    match (left, right) {
        (Value::Null, _) => Ok(Value::Null),
        (_, Value::Null) => Ok(Value::Null),
        (Value::Vector(a), Value::Vector(b)) if operator == Comparison::Eq => Ok(Value::Boolean(a.same_as(b))),
        (Value::Vector(a), Value::Vector(b)) if operator == Comparison::NotEq => Ok(Value::Boolean(!a.same_as(b))),
        (left, right) => {
            let rank = rank_values(f, left, right)?;
            Ok(Value::Boolean(operator.accepts(rank)))
        },
    }
}

/// Integer arithmetic; none on overflow.
pub open spec fn integer_arithmetic(left: i64, right: i64, operator: Arithmetic) -> Option<i64> {
    match operator {
        Arithmetic::Plus => left.checked_add(right),
        Arithmetic::Minus => left.checked_sub(right),
        Arithmetic::Multiply => left.checked_mul(right),
        Arithmetic::Divide => left.checked_div(right),
        Arithmetic::Modulo => left.checked_rem(right),
    }
}

pub open spec fn float_task(left: u64, right: u64, operator: Arithmetic) -> FloatTaskView {
    match operator {
        Arithmetic::Plus => FloatTaskView::Add(left, right),
        Arithmetic::Minus => FloatTaskView::Subtract(left, right),
        Arithmetic::Multiply => FloatTaskView::Multiply(left, right),
        Arithmetic::Divide => FloatTaskView::Divide(left, right),
        Arithmetic::Modulo => FloatTaskView::Remainder(left, right),
    }
}

pub open spec fn divides(operator: Arithmetic) -> bool {
    operator == Arithmetic::Divide || operator == Arithmetic::Modulo
}

/// The value of an arithmetic expression.
pub open spec fn calculated(floats: Floats, left: ValueView, right: ValueView, operator: Arithmetic) -> Result<
    ValueView,
    ErrorView,
> {
    match (left, right) {
        (ValueView::Null, _) => Ok(ValueView::Null),
        (_, ValueView::Null) => Ok(ValueView::Null),
        (ValueView::Integer(a), ValueView::Integer(b)) => if divides(operator) && b == 0 {
            Err(ErrorView::InvalidQuery("division by zero"@))
        } else {
            match integer_arithmetic(a, b, operator) {
                Some(value) => Ok(ValueView::Integer(value)),
                None => Err(ErrorView::InvalidQuery("integer overflow"@)),
            }
        },
        _ => match left.as_number(floats) {
            Err(error) => Err(error),
            Ok(None) => Ok(ValueView::Null),
            Ok(Some(a)) => match right.as_number(floats) {
                Err(error) => Err(error),
                Ok(None) => Ok(ValueView::Null),
                Ok(Some(b)) => if divides(operator) && magnitude(b) == 0 {
                    Err(ErrorView::InvalidQuery("division by zero"@))
                } else if !finite(number(floats, float_task(a, b, operator))) {
                    Err(ErrorView::InvalidQuery("non-finite numeric result"@))
                } else {
                    Ok(ValueView::Float(number(floats, float_task(a, b, operator))))
                },
            },
        },
    }
}

/// The value of an arithmetic expression.
pub fn numeric_binary<F: Fn(FloatTask) -> FloatReply>(
    f: &F,
    left: &Value,
    right: &Value,
    operator: Arithmetic,
) -> (result: Result<Value, Error>)
    requires
        computes(*f),
    ensures
        outcome(result) == calculated(floats(*f), left@, right@, operator),
{
    let dividing = operator == Arithmetic::Divide || operator == Arithmetic::Modulo;
    match (left, right) {
        (Value::Null, _) => Ok(Value::Null),
        (_, Value::Null) => Ok(Value::Null),
        (Value::Integer(a), Value::Integer(b)) => {
            if dividing && *b == 0 {
                return Err(invalid("division by zero"));
            }
            let value = match operator {
                Arithmetic::Plus => a.checked_add(*b),
                Arithmetic::Minus => a.checked_sub(*b),
                Arithmetic::Multiply => a.checked_mul(*b),
                Arithmetic::Divide => a.checked_div(*b),
                Arithmetic::Modulo => a.checked_rem(*b),
            };
            match value {
                Some(value) => Ok(Value::Integer(value)),
                None => Err(invalid("integer overflow")),
            }
        },
        (left, right) => {
            let a: u64 = match left.as_number(f)? {
                Some(a) => a,
                None => return Ok(Value::Null),
            };
            let b: u64 = match right.as_number(f)? {
                Some(b) => b,
                None => return Ok(Value::Null),
            };
            if dividing && is_zero(b) {
                return Err(invalid("division by zero"));
            }
            let task = match operator {
                Arithmetic::Plus => FloatTask::Add(a, b),
                Arithmetic::Minus => FloatTask::Subtract(a, b),
                Arithmetic::Multiply => FloatTask::Multiply(a, b),
                Arithmetic::Divide => FloatTask::Divide(a, b),
                Arithmetic::Modulo => FloatTask::Remainder(a, b),
            };
            let bits: u64 = compute_number(f, task);
            if !is_finite(bits) {
                return Err(invalid("non-finite numeric result"));
            }
            Ok(Value::Float(bits))
        },
    }
}

/// Three-valued conjunction.
pub open spec fn conjunction(left: ValueView, right: ValueView) -> Result<ValueView, ErrorView> {
    match (left.as_bool(), right.as_bool()) {
        (Err(error), _) => Err(error),
        (_, Err(error)) => Err(error),
        (Ok(a), Ok(b)) => if a == Some(false) || b == Some(false) {
            Ok(ValueView::Boolean(false))
        } else if a == Some(true) && b == Some(true) {
            Ok(ValueView::Boolean(true))
        } else {
            Ok(ValueView::Null)
        },
    }
}

/// Three-valued disjunction.
pub open spec fn disjunction(left: ValueView, right: ValueView) -> Result<ValueView, ErrorView> {
    match (left.as_bool(), right.as_bool()) {
        (Err(error), _) => Err(error),
        (_, Err(error)) => Err(error),
        (Ok(a), Ok(b)) => if a == Some(true) || b == Some(true) {
            Ok(ValueView::Boolean(true))
        } else if a == Some(false) && b == Some(false) {
            Ok(ValueView::Boolean(false))
        } else {
            Ok(ValueView::Null)
        },
    }
}

/// Three-valued negation.
pub open spec fn negation(value: ValueView) -> Result<ValueView, ErrorView> {
    match value.as_bool() {
        Err(error) => Err(error),
        Ok(Some(value)) => Ok(ValueView::Boolean(!value)),
        Ok(None) => Ok(ValueView::Null),
    }
}

/// Three-valued conjunction.
pub fn sql_and(left: &Value, right: &Value) -> (result: Result<Value, Error>)
    ensures
        outcome(result) == conjunction(left@, right@),
{
    let a = left.as_bool()?;
    let b = right.as_bool()?;
    match (a, b) {
        (Some(false), _) => Ok(Value::Boolean(false)),
        (_, Some(false)) => Ok(Value::Boolean(false)),
        (Some(true), Some(true)) => Ok(Value::Boolean(true)),
        _ => Ok(Value::Null),
    }
}

/// Three-valued disjunction.
pub fn sql_or(left: &Value, right: &Value) -> (result: Result<Value, Error>)
    ensures
        outcome(result) == disjunction(left@, right@),
{
    let a = left.as_bool()?;
    let b = right.as_bool()?;
    match (a, b) {
        (Some(true), _) => Ok(Value::Boolean(true)),
        (_, Some(true)) => Ok(Value::Boolean(true)),
        (Some(false), Some(false)) => Ok(Value::Boolean(false)),
        _ => Ok(Value::Null),
    }
}

fn sql_not(value: &Value) -> (result: Result<Value, Error>)
    ensures
        outcome(result) == negation(value@),
{
    match value.as_bool()? {
        Some(value) => Ok(Value::Boolean(!value)),
        None => Ok(Value::Null),
    }
}

/// The value, negated where `negate` is set.
pub open spec fn negated_if(value: ValueView, negate: bool) -> Result<ValueView, ErrorView> {
    if negate {
        negation(value)
    } else {
        Ok(value)
    }
}

/// The value, negated where `negate` is set.
pub fn boolean_not_if(value: Value, negate: bool) -> (result: Result<Value, Error>)
    ensures
        outcome(result) == negated_if(value@, negate),
{
    if !negate {
        return Ok(value);
    }
    sql_not(&value)
}

/// In three-valued logic the negation of a conjunction is the disjunction of the negations.
pub proof fn law_de_morgan(left: ValueView, right: ValueView)
    requires
        left.as_bool() is Ok,
        right.as_bool() is Ok,
    ensures
        negation(conjunction(left, right)->Ok_0) == disjunction(negation(left)->Ok_0, negation(right)->Ok_0),
        negation(disjunction(left, right)->Ok_0) == conjunction(negation(left)->Ok_0, negation(right)->Ok_0),
{
}

/// The value of a unary operator.
pub open spec fn unary_value(operator: UnaryView, value: ValueView, unknown: ErrorView) -> Result<ValueView, ErrorView> {
    match operator {
        UnaryView::Not => negation(value),
        UnaryView::Plus => match value {
            ValueView::Integer(_) | ValueView::Float(_) | ValueView::Null => Ok(value),
            _ => Err(mismatch("numeric value"@, value)),
        },
        UnaryView::Minus => match value {
            ValueView::Integer(number) => if number == i64::MIN {
                Err(ErrorView::InvalidQuery("integer overflow"@))
            } else {
                Ok(ValueView::Integer((-number) as i64))
            },
            ValueView::Float(bits) => Ok(ValueView::Float(negated(bits))),
            ValueView::Null => Ok(ValueView::Null),
            _ => Err(mismatch("numeric value"@, value)),
        },
        UnaryView::Other(_) => Err(unknown),
    }
}

/// The value of a unary operator; `unknown` is the error for one that is not supported.
pub fn apply_unary(operator: &UnaryOperator, value: Value, unknown: Error) -> (result: Result<Value, Error>)
    ensures
        outcome(result) == unary_value(operator@, value@, unknown@),
{
    match operator {
        UnaryOperator::Not => sql_not(&value),
        UnaryOperator::Plus => match value {
            Value::Integer(number) => Ok(Value::Integer(number)),
            Value::Float(bits) => Ok(Value::Float(bits)),
            Value::Null => Ok(Value::Null),
            value => Err(type_mismatch("numeric value", &value)),
        },
        UnaryOperator::Minus => match value {
            Value::Integer(number) => {
                if number == i64::MIN {
                    Err(invalid("integer overflow"))
                } else {
                    Ok(Value::Integer(-number))
                }
            },
            Value::Float(bits) => Ok(Value::Float(negate(bits))),
            Value::Null => Ok(Value::Null),
            value => Err(type_mismatch("numeric value", &value)),
        },
        UnaryOperator::Other(_) => Err(unknown),
    }
}

/// The metric of a vector operator.
pub open spec fn operator_metric(operator: Seq<char>) -> Option<Metric> {
    if operator == "<->"@ {
        Some(Metric::L2)
    } else if operator == "<#>"@ {
        Some(Metric::NegativeDotProduct)
    } else if operator == "<=>"@ {
        Some(Metric::Cosine)
    } else {
        None
    }
}

/// The metric of a vector operator.
pub fn metric_of_operator(operator: &str) -> (metric: Option<Metric>)
    ensures
        metric == operator_metric(operator@),
{
    if same_text(operator, "<->") {
        Some(Metric::L2)
    } else if same_text(operator, "<#>") {
        Some(Metric::NegativeDotProduct)
    } else if same_text(operator, "<=>") {
        Some(Metric::Cosine)
    } else {
        None
    }
}

/// A metric on two values; `NULL` where either is.
pub open spec fn measured(floats: Floats, metric: Metric, left: ValueView, right: ValueView) -> Result<ValueView, ErrorView> {
    match left.as_vector() {
        Err(error) => Err(error),
        Ok(a) => match right.as_vector() {
            Err(error) => Err(error),
            Ok(b) => match (a, b) {
                (Some(a), Some(b)) => match scored(floats, metric, a, b) {
                    Ok(bits) => Ok(ValueView::Float(bits)),
                    Err(error) => Err(error),
                },
                _ => Ok(ValueView::Null),
            },
        },
    }
}

/// A metric on two values; `NULL` where either is.
pub fn measure<F: Fn(FloatTask) -> FloatReply>(f: &F, metric: Metric, left: &Value, right: &Value) -> (result: Result<
    Value,
    Error,
>)
    requires
        computes(*f),
    ensures
        outcome(result) == measured(floats(*f), metric, left@, right@),
{
    let a = left.as_vector()?;
    let b = right.as_vector()?;
    match (a, b) {
        (Some(a), Some(b)) => {
            let bits: u64 = metric.score(f, a, b)?;
            Ok(Value::Float(bits))
        },
        _ => Ok(Value::Null),
    }
}

/// The value of a vector operator.
pub open spec fn vector_operation(floats: Floats, left: ValueView, right: ValueView, operator: Seq<char>) -> Result<
    ValueView,
    ErrorView,
> {
    match operator_metric(operator) {
        Some(metric) => measured(floats, metric, left, right),
        None => match (left.as_vector(), right.as_vector()) {
            (Err(error), _) => Err(error),
            (_, Err(error)) => Err(error),
            (Ok(a), Ok(b)) => if a is None || b is None {
                Ok(ValueView::Null)
            } else {
                Err(ErrorView::Unsupported("custom operator "@ + operator))
            },
        },
    }
}

/// The value of a vector operator.
pub fn vector_operator<F: Fn(FloatTask) -> FloatReply>(
    f: &F,
    left: &Value,
    right: &Value,
    operator: &str,
) -> (result: Result<Value, Error>)
    requires
        computes(*f),
    ensures
        outcome(result) == vector_operation(floats(*f), left@, right@, operator@),
{
    match metric_of_operator(operator) {
        Some(metric) => measure(f, metric, left, right),
        None => {
            let a = left.as_vector()?;
            let b = right.as_vector()?;
            match (a, b) {
                (Some(_), Some(_)) => Err(Error::Unsupported(join2("custom operator ", operator))),
                _ => Ok(Value::Null),
            }
        },
    }
}

/// Whether the text matches the pattern, in which `%` stands for any text and `_` for one
/// character.
pub open spec fn like(text: Seq<char>, pattern: Seq<char>) -> bool
    decreases pattern.len(), text.len(),
{
    if pattern.len() == 0 {
        text.len() == 0
    } else if pattern.last() == '%' {
        like(text, pattern.drop_last()) || (text.len() > 0 && like(text.drop_last(), pattern))
    } else {
        text.len() > 0 && (pattern.last() == '_' || text.last() == pattern.last()) && like(
            text.drop_last(),
            pattern.drop_last(),
        )
    }
}

/// A pattern that ends in `%` matches exactly the texts of which some prefix matches the
/// rest of the pattern.
pub proof fn law_like_any_suffix(text: Seq<char>, pattern: Seq<char>)
    ensures
        like(text, pattern.push('%')) <==> exists|k: int| 0 <= k <= text.len() && like(#[trigger] text.take(k), pattern),
    decreases text.len(),
{
    let longer = pattern.push('%');
    assert(longer.drop_last() =~= pattern);
    assert(text.take(text.len() as int) =~= text);
    if text.len() > 0 {
        law_like_any_suffix(text.drop_last(), pattern);
        let shorter = text.drop_last();
        assert forall|k: int| 0 <= k <= shorter.len() implies shorter.take(k) == #[trigger] text.take(k) by {
            assert(shorter.take(k) =~= text.take(k));
        }
        if like(text, longer) && !like(text, pattern) {
            let k = choose|k: int| 0 <= k <= shorter.len() && like(#[trigger] shorter.take(k), pattern);
            assert(like(text.take(k), pattern));
        }
        if exists|k: int| 0 <= k <= text.len() && like(#[trigger] text.take(k), pattern) {
            let k = choose|k: int| 0 <= k <= text.len() && like(#[trigger] text.take(k), pattern);
            if k < text.len() {
                assert(like(shorter.take(k), pattern));
            }
        }
    } else {
        if exists|k: int| 0 <= k <= text.len() && like(#[trigger] text.take(k), pattern) {
            let k = choose|k: int| 0 <= k <= text.len() && like(#[trigger] text.take(k), pattern);
            assert(text.take(k) =~= text);
        }
    }
}

/// A pattern without wildcards matches exactly itself.
pub proof fn law_like_literal(text: Seq<char>, pattern: Seq<char>)
    requires
        forall|i: int| 0 <= i < pattern.len() ==> #[trigger] pattern[i] != '%' && pattern[i] != '_',
    ensures
        like(text, pattern) <==> text == pattern,
    decreases pattern.len(),
{
    if pattern.len() > 0 {
        if text.len() > 0 {
            law_like_literal(text.drop_last(), pattern.drop_last());
            assert(text =~= text.drop_last().push(text.last()));
            assert(pattern =~= pattern.drop_last().push(pattern.last()));
        }
    } else {
        assert(text.len() == 0 ==> text =~= pattern);
    }
}

/// Whether the text matches the pattern.
pub fn like_matches(text: &str, pattern: &str) -> (result: bool)
    ensures
        result == like(text@, pattern@),
{
    let value = chars_of(text);
    let wanted = chars_of(pattern);
    let size: usize = value.len();
    // `previous_empty` and `previous[i]` say whether the empty prefix and the prefix of length
    // `i + 1` match the part of the pattern that is done.
    let mut previous_empty = true;
    let mut previous: Vec<bool> = Vec::new();
    let mut filled: usize = 0;
    while filled < size
        invariant
            filled <= size,
            previous@.len() == filled,
            forall|i: int| 0 <= i < filled ==> !previous@[i],
        decreases size - filled,
    {
        previous.push(false);
        filled = filled + 1;
    }
    proof {
        assert(pattern@.take(0) =~= Seq::<char>::empty());
    }
    let mut done: usize = 0;
    while done < wanted.len()
        invariant
            value@ == text@,
            wanted@ == pattern@,
            size == value@.len(),
            done <= wanted@.len(),
            previous@.len() == size,
            previous_empty == like(text@.take(0), pattern@.take(done as int)),
            forall|i: int| 0 <= i < size ==> #[trigger] previous@[i] == like(text@.take(i + 1), pattern@.take(done as int)),
        decreases wanted@.len() - done,
    {
        let symbol = wanted[done];
        let ghost shorter = pattern@.take(done as int);
        let ghost longer = pattern@.take(done + 1);
        proof {
            assert(longer.drop_last() =~= shorter);
            assert(longer.last() == symbol);
            assert(text@.take(0).len() == 0);
        }
        let current_empty = symbol == '%' && previous_empty;
        let mut current: Vec<bool> = Vec::new();
        let mut index: usize = 0;
        while index < size
            invariant
                value@ == text@,
                size == value@.len(),
                index <= size,
                previous@.len() == size,
                current@.len() == index,
                longer.len() > 0,
                longer.drop_last() == shorter,
                longer.last() == symbol,
                previous_empty == like(text@.take(0), shorter),
                current_empty == like(text@.take(0), longer),
                forall|i: int| 0 <= i < size ==> #[trigger] previous@[i] == like(text@.take(i + 1), shorter),
                forall|i: int| 0 <= i < index ==> #[trigger] current@[i] == like(text@.take(i + 1), longer),
            decreases size - index,
        {
            let previous_before = if index == 0 { previous_empty } else { previous[index - 1] };
            let current_before = if index == 0 { current_empty } else { current[index - 1] };
            let ghost part = text@.take(index + 1);
            proof {
                assert(part.drop_last() =~= text@.take(index as int));
                assert(part.last() == value@[index as int]);
                assert(previous@[index as int] == like(part, shorter));
                assert(previous_before == like(part.drop_last(), shorter));
                assert(current_before == like(part.drop_last(), longer));
            }
            let matched = if symbol == '%' {
                current_before || previous[index]
            } else if symbol == '_' {
                previous_before
            } else {
                previous_before && value[index] == symbol
            };
            assert(matched == like(part, longer));
            current.push(matched);
            index = index + 1;
        }
        previous = current;
        previous_empty = current_empty;
        done = done + 1;
    }
    assert(text@.take(size as int) =~= text@);
    assert(pattern@.take(done as int) =~= pattern@);
    if size == 0 {
        previous_empty
    } else {
        previous[size - 1]
    }
}

/// Whether a number's digits write a floating-point number.
pub open spec fn has_point(digits: Seq<char>) -> bool {
    digits.contains('.') || digits.contains('e') || digits.contains('E')
}

/// The value of a literal.
pub open spec fn literal_value(floats: Floats, literal: LiteralView) -> Result<ValueView, ErrorView> {
    match literal {
        LiteralView::Number { digits, long } => if has_point(digits) {
            match floats(FloatTaskView::Parse(digits)) {
                FloatReplyView::Number(bits) => if finite(bits) {
                    Ok(ValueView::Float(bits))
                } else {
                    Err(ErrorView::InvalidQuery("numbers must be finite"@))
                },
                _ => Err(ErrorView::InvalidQuery("invalid number "@ + digits)),
            }
        } else {
            match integer_value(digits) {
                Some(value) => Ok(ValueView::Integer(value as i64)),
                None => Err(ErrorView::InvalidQuery("integer is out of range: "@ + digits)),
            }
        },
        LiteralView::Text { form, text } => Ok(ValueView::Text(text)),
        LiteralView::Boolean(value) => Ok(ValueView::Boolean(value)),
        LiteralView::Null => Ok(ValueView::Null),
        LiteralView::Other(text) => Err(ErrorView::Unsupported("literal "@ + text)),
    }
}

fn writes_point(digits: &str) -> (result: bool)
    ensures
        result == has_point(digits@),
{
    let chars = chars_of(digits);
    let mut index: usize = 0;
    while index < chars.len()
        invariant
            chars@ == digits@,
            index <= chars@.len(),
            forall|i: int| 0 <= i < index ==> chars@[i] != '.' && chars@[i] != 'e' && chars@[i] != 'E',
        decreases chars@.len() - index,
    {
        if chars[index] == '.' || chars[index] == 'e' || chars[index] == 'E' {
            assert(digits@[index as int] == chars@[index as int]);
            return true;
        }
        index = index + 1;
    }
    false
}

/// The value of a literal.
pub fn sql_literal<F: Fn(FloatTask) -> FloatReply>(f: &F, literal: &Literal) -> (result: Result<Value, Error>)
    requires
        computes(*f),
    ensures
        outcome(result) == literal_value(floats(*f), literal@),
{
    match literal {
        Literal::Number { digits, long: _ } => {
            if writes_point(digits.as_str()) {
                match compute(f, FloatTask::Parse(digits.clone())) {
                    FloatReply::Number(bits) => {
                        if !is_finite(bits) {
                            return Err(invalid("numbers must be finite"));
                        }
                        Ok(Value::Float(bits))
                    },
                    _ => Err(Error::InvalidQuery(join2("invalid number ", digits.as_str()))),
                }
            } else {
                match parse_integer(digits.as_str()) {
                    Some(value) => Ok(Value::Integer(value)),
                    None => Err(Error::InvalidQuery(join2("integer is out of range: ", digits.as_str()))),
                }
            }
        },
        Literal::Text { form: _, text } => Ok(Value::Text(text.clone())),
        Literal::Boolean(value) => Ok(Value::Boolean(*value)),
        Literal::Null => Ok(Value::Null),
        Literal::Other(text) => Err(Error::Unsupported(join2("literal ", text.as_str()))),
    }
}

pub open spec fn integer_form(form: Seq<char>) -> bool {
    form == "TinyInt"@ || form == "Int2"@ || form == "SmallInt"@ || form == "MediumInt"@ || form == "Int"@ || form
        == "Int4"@ || form == "Int64"@ || form == "Integer"@ || form == "BigInt"@ || form == "Int8"@
}

pub open spec fn float_form(form: Seq<char>) -> bool {
    form == "Float"@ || form == "Float4"@ || form == "Float64"@ || form == "Real"@ || form == "Float8"@ || form
        == "Double"@ || form == "DoublePrecision"@ || form == "Numeric"@ || form == "Decimal"@ || form == "Dec"@
}

pub open spec fn text_form(form: Seq<char>) -> bool {
    form == "Text"@ || form == "String"@ || form == "Character"@ || form == "Char"@ || form == "CharacterVarying"@
        || form == "CharVarying"@ || form == "Varchar"@ || form == "Nvarchar"@
}

pub open spec fn boolean_form(form: Seq<char>) -> bool {
    form == "Bool"@ || form == "Boolean"@
}

/// The logical type of a type as a statement writes it.
pub open spec fn logical_type(written: TypeNameView) -> Result<DataType, ErrorView> {
    if integer_form(written.form) {
        Ok(DataType::Integer)
    } else if float_form(written.form) {
        Ok(DataType::Float)
    } else if text_form(written.form) {
        Ok(DataType::Text)
    } else if boolean_form(written.form) {
        Ok(DataType::Boolean)
    } else if written.form == "Custom"@ && last_name(written.name) == "vector"@ {
        if written.modifiers.len() != 1 {
            Err(
                ErrorView::InvalidQuery(
                    "VECTOR type requires exactly one dimension, for example VECTOR(384)"@,
                ),
            )
        } else {
            match unsigned_value(written.modifiers[0], usize::MAX as nat) {
                None => Err(ErrorView::InvalidQuery("invalid vector dimension "@ + written.modifiers[0])),
                Some(dimensions) => if dimensions == 0 {
                    Err(ErrorView::InvalidVectorDimension)
                } else if dimensions > MAX_VECTOR_DIMENSIONS {
                    Err(
                        ErrorView::VectorDimensionLimit {
                            found: dimensions,
                            max: MAX_VECTOR_DIMENSIONS as nat,
                        },
                    )
                } else {
                    Ok(DataType::Vector(dimensions as usize))
                },
            }
        }
    } else {
        Err(ErrorView::Unsupported("data type "@ + written.text))
    }
}

fn is_integer_form(form: &str) -> (result: bool)
    ensures
        result == integer_form(form@),
{
    same_text(form, "TinyInt") || same_text(form, "Int2") || same_text(form, "SmallInt") || same_text(form, "MediumInt")
        || same_text(form, "Int") || same_text(form, "Int4") || same_text(form, "Int64") || same_text(form, "Integer")
        || same_text(form, "BigInt") || same_text(form, "Int8")
}

fn is_float_form(form: &str) -> (result: bool)
    ensures
        result == float_form(form@),
{
    same_text(form, "Float") || same_text(form, "Float4") || same_text(form, "Float64") || same_text(form, "Real")
        || same_text(form, "Float8") || same_text(form, "Double") || same_text(form, "DoublePrecision") || same_text(
        form,
        "Numeric",
    ) || same_text(form, "Decimal") || same_text(form, "Dec")
}

fn is_text_form(form: &str) -> (result: bool)
    ensures
        result == text_form(form@),
{
    same_text(form, "Text") || same_text(form, "String") || same_text(form, "Character") || same_text(form, "Char")
        || same_text(form, "CharacterVarying") || same_text(form, "CharVarying") || same_text(form, "Varchar")
        || same_text(form, "Nvarchar")
}

/// The logical type of a type as a statement writes it.
pub fn parse_data_type(written: &TypeName) -> (result: Result<DataType, Error>)
    ensures
        match result {
            Ok(data_type) => logical_type(written@) == Ok::<DataType, ErrorView>(data_type),
            Err(error) => logical_type(written@) == Err::<DataType, ErrorView>(error@),
        },
{
    let form = written.form.as_str();
    if is_integer_form(form) {
        return Ok(DataType::Integer);
    }
    if is_float_form(form) {
        return Ok(DataType::Float);
    }
    if is_text_form(form) {
        return Ok(DataType::Text);
    }
    if same_text(form, "Bool") || same_text(form, "Boolean") {
        return Ok(DataType::Boolean);
    }
    let name = object_name(&written.name);
    if same_text(form, "Custom") && same_text(name.as_str(), "vector") {
        if written.modifiers.len() != 1 {
            return Err(invalid("VECTOR type requires exactly one dimension, for example VECTOR(384)"));
        }
        let modifier = written.modifiers[0].as_str();
        assert(views(written.modifiers@)[0] == modifier@);
        return match parse_unsigned(modifier, usize::MAX as u64) {
            None => Err(Error::InvalidQuery(join2("invalid vector dimension ", modifier))),
            Some(dimensions) => {
                let dimensions: usize = dimensions as usize;
                if dimensions == 0 {
                    Err(Error::InvalidVectorDimension)
                } else if dimensions > MAX_VECTOR_DIMENSIONS {
                    Err(Error::VectorDimensionLimit { found: dimensions, max: MAX_VECTOR_DIMENSIONS })
                } else {
                    Ok(DataType::Vector(dimensions))
                }
            },
        };
    }
    Err(Error::Unsupported(join2("data type ", written.text.as_str())))
}

/// The value as one of the given type: an integer becomes a floating-point number where one is
/// expected; every other change of type is an error.
pub open spec fn coerced(floats: Floats, value: ValueView, data_type: DataType) -> Result<ValueView, ErrorView> {
    match (value, data_type) {
        (ValueView::Null, _) => Ok(ValueView::Null),
        (ValueView::Integer(_), DataType::Integer) => Ok(value),
        (ValueView::Integer(number0), DataType::Float) => Ok(
            ValueView::Float(number(floats, FloatTaskView::FromInteger(number0))),
        ),
        (ValueView::Float(_), DataType::Float) => Ok(value),
        (ValueView::Text(_), DataType::Text) => Ok(value),
        (ValueView::Boolean(_), DataType::Boolean) => Ok(value),
        (ValueView::Vector(elements), DataType::Vector(dimensions)) => if elements.len() == dimensions {
            Ok(value)
        } else {
            Err(ErrorView::DimensionMismatch { left: dimensions as nat, right: elements.len() })
        },
        _ => Err(mismatch(data_type.notation(), value)),
    }
}

/// The value as one of the given type.
pub fn coerce<F: Fn(FloatTask) -> FloatReply>(f: &F, value: Value, data_type: DataType) -> (result: Result<Value, Error>)
    requires
        computes(*f),
    ensures
        outcome(result) == coerced(floats(*f), value@, data_type),
{
    match (value, data_type) {
        (Value::Null, _) => Ok(Value::Null),
        (Value::Integer(number), DataType::Integer) => Ok(Value::Integer(number)),
        (Value::Integer(number), DataType::Float) => Ok(
            Value::Float(compute_number(f, FloatTask::FromInteger(number))),
        ),
        (Value::Float(bits), DataType::Float) => Ok(Value::Float(bits)),
        (Value::Text(text), DataType::Text) => Ok(Value::Text(text)),
        (Value::Boolean(flag), DataType::Boolean) => Ok(Value::Boolean(flag)),
        (Value::Vector(vector), DataType::Vector(dimensions)) => {
            let found: usize = vector.dimensions();
            if found == dimensions {
                Ok(Value::Vector(vector))
            } else {
                Err(Error::DimensionMismatch { left: dimensions, right: found })
            }
        },
        (value, expected) => Err(type_mismatch(expected.to_text().as_str(), &value)),
    }
}

/// Coercing a value to a type a second time changes nothing.
pub proof fn law_coerce_twice(floats: Floats, value: ValueView, data_type: DataType)
    requires
        coerced(floats, value, data_type) is Ok,
    ensures
        coerced(floats, coerced(floats, value, data_type)->Ok_0, data_type) == coerced(floats, value, data_type),
{
}

/// The elements nearest to these numbers.
pub open spec fn narrowed_all(floats: Floats, numbers: Seq<u64>) -> Seq<u32> {
    numbers.map_values(|bits: u64| narrowed(floats, bits))
}

/// The vector of these numbers.
pub open spec fn vector_of(floats: Floats, numbers: Seq<u64>) -> Result<ValueView, ErrorView> {
    let elements = narrowed_all(floats, numbers);
    if exists|i: int| 0 <= i < elements.len() && !element_finite(#[trigger] elements[i]) {
        Err(ErrorView::InvalidQuery("vector elements must be finite numbers"@))
    } else {
        match new_vector(elements) {
            Ok(elements) => Ok(ValueView::Vector(elements)),
            Err(error) => Err(error),
        }
    }
}

/// The vector of these numbers.
pub fn make_vector<F: Fn(FloatTask) -> FloatReply>(f: &F, numbers: &Vec<u64>) -> (result: Result<Value, Error>)
    requires
        computes(*f),
    ensures
        outcome(result) == vector_of(floats(*f), numbers@),
{
    let mut elements: Vec<u32> = Vec::new();
    let mut index: usize = 0;
    while index < numbers.len()
        invariant
            computes(*f),
            index <= numbers@.len(),
            elements@ == narrowed_all(floats(*f), numbers@).take(index as int),
        decreases numbers@.len() - index,
    {
        elements.push(narrow(f, numbers[index]));
        index = index + 1;
        assert(elements@ =~= narrowed_all(floats(*f), numbers@).take(index as int));
    }
    assert(elements@ =~= narrowed_all(floats(*f), numbers@));
    let mut checked: usize = 0;
    while checked < elements.len()
        invariant
            elements@ == narrowed_all(floats(*f), numbers@),
            checked <= elements@.len(),
            forall|i: int| 0 <= i < checked ==> element_finite(#[trigger] elements@[i]),
        decreases elements@.len() - checked,
    {
        if !element_is_finite(elements[checked]) {
            return Err(invalid("vector elements must be finite numbers"));
        }
        checked = checked + 1;
    }
    let vector = Vector::new(elements)?;
    Ok(Value::Vector(vector))
}

} // verus!
