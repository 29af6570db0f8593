//! Evaluation of expressions against one row.

use vstd::prelude::*;
use crate::ast::{
    argument_view, argument_views, expr_views, ident_name, last_name, object_name, Argument, ArgumentView,
    BinaryOperator, BinaryView, Expr, ExprView, Function, FunctionView, Ident, IdentView, Test, UnaryOperator,
    UnaryView,
};
use crate::error::{invalid, outcome, unsupported, Error, ErrorView};
use crate::float::{
    compute_number, computes, floats, normalized as normalize_vector, number, unit_vector, FloatReply, FloatTask,
    FloatTaskView, Floats, Metric,
};
use crate::operators::{
    apply_unary, boolean_not_if, calculated, coerce, coerced, compare_values, compared, conjunction, disjunction, like,
    like_matches, literal_value, logical_type, make_vector, measure, measured, negated_if, numeric_binary,
    operator_metric, parse_data_type, sql_and, sql_literal, sql_or, unary_value, vector_of, vector_operation,
    vector_operator, Comparison, OperatorKind, OperatorKindView,
};
use crate::text::{decimal_count, decimal_text, join2, join3, lemma_views_push, normalized, same_name, same_text, views};
use crate::unicode::{lowered, to_lowercase};
use crate::value::{find_column, found_column, Column, ColumnView, Value, ValueView};

verus! {

broadcast use vstd::string::group_string_axioms;

/// A table within the row of a join: its name or alias, and its columns' place.
#[derive(Debug)]
pub struct JoinSource {
    pub qualifier: String,
    pub start: usize,
    pub width: usize,
}

#[verifier::ext_equal]
pub struct JoinSourceView {
    pub qualifier: Seq<char>,
    pub start: nat,
    pub width: nat,
}

impl View for JoinSource {
    type V = JoinSourceView;

    open spec fn view(&self) -> JoinSourceView {
        JoinSourceView { qualifier: self.qualifier@, start: self.start as nat, width: self.width as nat }
    }
}

/// The columns that an expression can refer to; the sources are given for a join.
#[derive(Clone, Copy)]
pub struct Schema<'a> {
    pub columns: &'a Vec<Column>,
    pub sources: Option<&'a Vec<JoinSource>>,
}

pub struct SchemaView {
    pub columns: Seq<ColumnView>,
    pub sources: Option<Seq<JoinSourceView>>,
}

impl<'a> View for Schema<'a> {
    type V = SchemaView;

    open spec fn view(&self) -> SchemaView {
        SchemaView {
            columns: views(self.columns@),
            sources: match self.sources {
                Some(sources) => Some(views(sources@)),
                None => None,
            },
        }
    }
}

impl SchemaView {
    /// Whether every source's columns are columns of the schema.
    pub open spec fn valid(self) -> bool {
        self.sources matches Some(sources) ==> forall|i: int|
            0 <= i < sources.len() ==> (#[trigger] sources[i]).start + sources[i].width <= self.columns.len()
    }

    /// The schema of an expression that can refer to no column.
    pub open spec fn none() -> SchemaView {
        SchemaView { columns: Seq::empty(), sources: None }
    }

    pub open spec fn plain(columns: Seq<ColumnView>) -> SchemaView {
        SchemaView { columns, sources: None }
    }
}

/// A row and what its values are called; `excluded` is the row that an upsert proposes.
#[derive(Clone, Copy)]
pub struct EvalContext<'a> {
    pub schema: Schema<'a>,
    pub row: &'a Vec<Value>,
    pub excluded: Option<&'a Vec<Value>>,
}

pub struct ScopeView {
    pub schema: SchemaView,
    pub row: Seq<ValueView>,
    pub excluded: Option<Seq<ValueView>>,
}

impl<'a> View for EvalContext<'a> {
    type V = ScopeView;

    open spec fn view(&self) -> ScopeView {
        ScopeView {
            schema: self.schema@,
            row: views(self.row@),
            excluded: match self.excluded {
                Some(values) => Some(views(values@)),
                None => None,
            },
        }
    }
}

impl ScopeView {
    /// Whether there is one value for each column.
    pub open spec fn valid(self) -> bool {
        &&& self.schema.valid()
        &&& self.row.len() == self.schema.columns.len()
        &&& self.excluded matches Some(values) ==> values.len() == self.schema.columns.len()
    }

    /// The scope of an expression that refers to no column.
    pub open spec fn none() -> ScopeView {
        ScopeView { schema: SchemaView::none(), row: Seq::empty(), excluded: None }
    }

    pub open spec fn plain(columns: Seq<ColumnView>, row: Seq<ValueView>) -> ScopeView {
        ScopeView { schema: SchemaView::plain(columns), row, excluded: None }
    }

    pub open spec fn upsert(columns: Seq<ColumnView>, row: Seq<ValueView>, excluded: Seq<ValueView>) -> ScopeView {
        ScopeView { schema: SchemaView::plain(columns), row, excluded: Some(excluded) }
    }
}

impl<'a> EvalContext<'a> {
    /// The scope of a row of one table.
    pub fn new(columns: &'a Vec<Column>, row: &'a Vec<Value>) -> (context: EvalContext<'a>)
        ensures
            context@ == ScopeView::plain(views(columns@), views(row@)),
    {
        EvalContext { schema: Schema { columns, sources: None }, row, excluded: None }
    }

    /// The scope of an upsert: the stored row and the row proposed for insertion.
    pub fn upsert(columns: &'a Vec<Column>, row: &'a Vec<Value>, excluded: &'a Vec<Value>) -> (context: EvalContext<'a>)
        ensures
            context@ == ScopeView::upsert(views(columns@), views(row@), views(excluded@)),
    {
        EvalContext { schema: Schema { columns, sources: None }, row, excluded: Some(excluded) }
    }
}

/// The first source of a join, from `from` on, that is called `qualifier`.
pub open spec fn source_position(sources: Seq<JoinSourceView>, qualifier: Seq<char>, from: nat) -> Option<nat>
    decreases sources.len() - from,
{
    if from >= sources.len() {
        None
    } else if normalized(sources[from as int].qualifier) == normalized(qualifier) {
        Some(from)
    } else {
        source_position(sources, qualifier, from + 1)
    }
}

/// The columns of the source that is called `qualifier`.
pub open spec fn source_range(sources: Seq<JoinSourceView>, qualifier: Seq<char>) -> Result<(nat, nat), ErrorView> {
    match source_position(sources, qualifier, 0) {
        Some(index) => Ok((sources[index as int].start, sources[index as int].start + sources[index as int].width)),
        None => Err(ErrorView::InvalidQuery("unknown JOIN table qualifier '"@ + qualifier + "'"@)),
    }
}

/// The first column in `from..to` of this name.
pub open spec fn named_column(columns: Seq<ColumnView>, name: Seq<char>, from: nat, to: nat) -> Option<nat>
    decreases to - from,
{
    if from >= to {
        None
    } else if normalized(columns[from as int].name) == normalized(name) {
        Some(from)
    } else {
        named_column(columns, name, from + 1, to)
    }
}

/// The only column in `from..to` of this name.
pub open spec fn only_column(columns: Seq<ColumnView>, name: Seq<char>, from: nat, to: nat) -> Result<nat, ErrorView> {
    match named_column(columns, name, from, to) {
        None => Err(ErrorView::ColumnNotFound(name)),
        Some(index) => match named_column(columns, name, index + 1, to) {
            None => Ok(index),
            Some(_) => Err(
                ErrorView::InvalidQuery("ambiguous JOIN column '"@ + name + "'; qualify it with a table alias"@),
            ),
        },
    }
}

/// The column that an identifier refers to.
pub open spec fn identified(schema: SchemaView, identifier: IdentView) -> Result<nat, ErrorView> {
    match schema.sources {
        None => found_column(schema.columns, identifier.name()),
        Some(_) => only_column(schema.columns, identifier.name(), 0, schema.columns.len()),
    }
}

/// The column that a dotted name refers to.
pub open spec fn compound_identified(schema: SchemaView, parts: Seq<IdentView>) -> Result<nat, ErrorView> {
    match schema.sources {
        None => if parts.len() == 0 {
            Err(ErrorView::InvalidQuery("empty identifier"@))
        } else {
            found_column(schema.columns, parts.last().name())
        },
        Some(sources) => if parts.len() == 2 {
            match source_range(sources, parts[0].name()) {
                Err(error) => Err(error),
                Ok((from, to)) => only_column(schema.columns, parts[1].name(), from, to),
            }
        } else {
            Err(ErrorView::Unsupported("JOIN keys must be scalar column references"@))
        },
    }
}

pub proof fn lemma_named_column(columns: Seq<ColumnView>, name: Seq<char>, from: nat, to: nat)
    ensures
        named_column(columns, name, from, to) matches Some(index) ==> from <= index < to,
    decreases to - from,
{
    if from < to && normalized(columns[from as int].name) != normalized(name) {
        lemma_named_column(columns, name, from + 1, to);
    }
}

fn find_named_column(columns: &Vec<Column>, name: &str, from: usize, to: usize) -> (result: Option<usize>)
    requires
        to <= columns@.len(),
    ensures
        match result {
            Some(index) => named_column(views(columns@), name@, from as nat, to as nat) == Some(index as nat) && from
                <= index < to,
            None => named_column(views(columns@), name@, from as nat, to as nat) is None,
        },
{
    let mut index: usize = from;
    while index < to
        invariant
            to <= columns@.len(),
            from <= index,
            from <= to ==> index <= to,
            named_column(views(columns@), name@, index as nat, to as nat) == named_column(
                views(columns@),
                name@,
                from as nat,
                to as nat,
            ),
        decreases to - index,
    {
        if same_name(columns[index].name.as_str(), name) {
            return Some(index);
        }
        index = index + 1;
    }
    None
}

fn find_only_column(columns: &Vec<Column>, name: String, from: usize, to: usize) -> (result: Result<usize, Error>)
    requires
        to <= columns@.len(),
    ensures
        match result {
            Ok(index) => only_column(views(columns@), name@, from as nat, to as nat) == Ok::<nat, ErrorView>(index as nat)
                && index < columns@.len(),
            Err(error) => only_column(views(columns@), name@, from as nat, to as nat) == Err::<nat, ErrorView>(error@),
        },
{
    match find_named_column(columns, name.as_str(), from, to) {
        None => Err(Error::ColumnNotFound(name)),
        Some(index) => match find_named_column(columns, name.as_str(), index + 1, to) {
            None => Ok(index),
            Some(_) => Err(
                Error::InvalidQuery(
                    join3("ambiguous JOIN column '", name.as_str(), "'; qualify it with a table alias"),
                ),
            ),
        },
    }
}

/// The columns of the source that is called `qualifier`.
pub fn find_source_range(sources: &Vec<JoinSource>, qualifier: &str) -> (result: Result<(usize, usize), Error>)
    requires
        forall|i: int| 0 <= i < sources@.len() ==> (#[trigger] sources@[i]).start + sources@[i].width <= usize::MAX,
    ensures
        match result {
            Ok((from, to)) => source_range(views(sources@), qualifier@) == Ok::<(nat, nat), ErrorView>(
                (from as nat, to as nat),
            ) && exists|i: int|
                0 <= i < sources@.len() && from == (#[trigger] sources@[i]).start && to == from + sources@[i].width,
            Err(error) => source_range(views(sources@), qualifier@) == Err::<(nat, nat), ErrorView>(error@),
        },
{
    let mut index: usize = 0;
    while index < sources.len()
        invariant
            index <= sources@.len(),
            forall|i: int| 0 <= i < sources@.len() ==> (#[trigger] sources@[i]).start + sources@[i].width <= usize::MAX,
            source_position(views(sources@), qualifier@, index as nat) == source_position(views(sources@), qualifier@, 0),
        decreases sources@.len() - index,
    {
        let source = &sources[index];
        if same_name(source.qualifier.as_str(), qualifier) {
            assert(views(sources@)[index as int] == source@);
            return Ok((source.start, source.start + source.width));
        }
        index = index + 1;
    }
    Err(Error::InvalidQuery(join3("unknown JOIN table qualifier '", qualifier, "'")))
}

impl<'a> Schema<'a> {
    /// The column that an identifier refers to.
    pub fn resolve(&self, identifier: &Ident) -> (result: Result<usize, Error>)
        ensures
            match result {
                Ok(index) => identified(self@, identifier@) == Ok::<nat, ErrorView>(index as nat) && index
                    < self.columns@.len(),
                Err(error) => identified(self@, identifier@) == Err::<nat, ErrorView>(error@),
            },
    {
        let name = ident_name(identifier);
        match self.sources {
            None => find_column(self.columns, name.as_str()),
            Some(_) => find_only_column(self.columns, name, 0, self.columns.len()),
        }
    }

    /// The column that a dotted name refers to.
    pub fn resolve_compound(&self, parts: &Vec<Ident>) -> (result: Result<usize, Error>)
        requires
            self@.valid(),
        ensures
            match result {
                Ok(index) => compound_identified(self@, views(parts@)) == Ok::<nat, ErrorView>(index as nat) && index
                    < self.columns@.len(),
                Err(error) => compound_identified(self@, views(parts@)) == Err::<nat, ErrorView>(error@),
            },
    {
        match self.sources {
            None => {
                if parts.len() == 0 {
                    return Err(invalid("empty identifier"));
                }
                let name = ident_name(&parts[parts.len() - 1]);
                find_column(self.columns, name.as_str())
            },
            Some(sources) => {
                if parts.len() != 2 {
                    return Err(unsupported("JOIN keys must be scalar column references"));
                }
                let qualifier = ident_name(&parts[0]);
                let total: usize = self.columns.len();
                proof {
                    assert forall|i: int| 0 <= i < sources@.len() implies (#[trigger] sources@[i]).start
                        + sources@[i].width <= total by {
                        assert(self@.sources->0[i] == sources@[i]@);
                    }
                }
                let (from, to) = find_source_range(sources, qualifier.as_str())?;
                find_only_column(self.columns, ident_name(&parts[1]), from, to)
            },
        }
    }
}

/// The value that an identifier refers to.
pub open spec fn column_value(scope: ScopeView, identifier: IdentView) -> Result<ValueView, ErrorView> {
    match identified(scope.schema, identifier) {
        Ok(index) => Ok(scope.row[index as int]),
        Err(error) => Err(error),
    }
}

/// The value that a dotted name refers to; `excluded.name` is the value proposed for insertion.
pub open spec fn compound_value(scope: ScopeView, parts: Seq<IdentView>) -> Result<ValueView, ErrorView> {
    match compound_identified(scope.schema, parts) {
        Ok(index) => match scope.excluded {
            Some(values) => if parts.len() == 2 && parts[0].name() == "excluded"@ {
                Ok(values[index as int])
            } else {
                Ok(scope.row[index as int])
            },
            None => Ok(scope.row[index as int]),
        },
        Err(error) => Err(error),
    }
}

impl<'a> EvalContext<'a> {
    pub fn column(&self, identifier: &Ident) -> (result: Result<Value, Error>)
        requires
            self@.valid(),
        ensures
            outcome(result) == column_value(self@, identifier@),
    {
        let index: usize = self.schema.resolve(identifier)?;
        assert(views(self.row@)[index as int] == self.row@[index as int]@);
        Ok(self.row[index].clone())
    }

    pub fn compound_column(&self, parts: &Vec<Ident>) -> (result: Result<Value, Error>)
        requires
            self@.valid(),
        ensures
            outcome(result) == compound_value(self@, views(parts@)),
    {
        let index: usize = self.schema.resolve_compound(parts)?;
        if parts.len() == 2 {
            let qualifier = ident_name(&parts[0]);
            if same_text(qualifier.as_str(), "excluded") {
                if let Some(values) = self.excluded {
                    assert(views(values@)[index as int] == values@[index as int]@);
                    return Ok(values[index].clone());
                }
            }
        }
        assert(views(self.row@)[index as int] == self.row@[index as int]@);
        Ok(self.row[index].clone())
    }
}

/// The value of a test.
pub open spec fn test_value(test: Test, value: ValueView) -> Result<ValueView, ErrorView> {
    match test {
        Test::IsNull => Ok(ValueView::Boolean(value is Null)),
        Test::IsNotNull => Ok(ValueView::Boolean(!(value is Null))),
        _ => match value.as_bool() {
            Err(error) => Err(error),
            Ok(truth) => Ok(
                ValueView::Boolean(
                    match test {
                        Test::IsTrue => truth == Some(true),
                        Test::IsFalse => truth == Some(false),
                        Test::IsNotTrue => truth != Some(true),
                        _ => truth != Some(false),
                    },
                ),
            ),
        },
    }
}

/// The value of a test.
pub fn apply_test(test: Test, value: &Value) -> (result: Result<Value, Error>)
    ensures
        outcome(result) == test_value(test, value@),
{
    if test == Test::IsNull {
        return Ok(Value::Boolean(value.is_null()));
    }
    if test == Test::IsNotNull {
        return Ok(Value::Boolean(!value.is_null()));
    }
    let truth = value.as_bool()?;
    let is_true = match truth {
        Some(flag) => flag,
        None => false,
    };
    let is_false = match truth {
        Some(flag) => !flag,
        None => false,
    };
    Ok(
        Value::Boolean(
            match test {
                Test::IsTrue => is_true,
                Test::IsFalse => is_false,
                Test::IsNotTrue => !is_true,
                _ => !is_false,
            },
        ),
    )
}

/// The value of `BETWEEN`.
pub open spec fn between_value(
    floats: Floats,
    value: ValueView,
    low: ValueView,
    high: ValueView,
    negated: bool,
) -> Result<ValueView, ErrorView> {
    match compared(floats, value, low, Comparison::GtEq) {
        Err(error) => Err(error),
        Ok(lower) => match compared(floats, value, high, Comparison::LtEq) {
            Err(error) => Err(error),
            Ok(upper) => match conjunction(lower, upper) {
                Err(error) => Err(error),
                Ok(inside) => negated_if(inside, negated),
            },
        },
    }
}

/// The value of a membership test once it is known whether an equal item and a `NULL` were met.
pub open spec fn membership(found: bool, saw_null: bool, negated: bool) -> Result<ValueView, ErrorView> {
    negated_if(
        if found {
            ValueView::Boolean(true)
        } else if saw_null {
            ValueView::Null
        } else {
            ValueView::Boolean(false)
        },
        negated,
    )
}

/// The value of `LIKE`, or of `ILIKE` where case does not count.
pub open spec fn like_value(value: ValueView, pattern: ValueView, negated: bool, insensitive: bool) -> Result<
    ValueView,
    ErrorView,
> {
    match (value, pattern) {
        (ValueView::Null, _) => Ok(ValueView::Null),
        (_, ValueView::Null) => Ok(ValueView::Null),
        (ValueView::Text(text), ValueView::Text(wanted)) => negated_if(
            ValueView::Boolean(
                if insensitive {
                    like(lowered(text), lowered(wanted))
                } else {
                    like(text, wanted)
                },
            ),
            negated,
        ),
        _ => Err(
            ErrorView::TypeMismatch {
                expected: "TEXT LIKE TEXT"@,
                found: value.kind_name() + " LIKE "@ + pattern.kind_name(),
            },
        ),
    }
}

/// The value of `LIKE`, or of `ILIKE` where case does not count.
pub fn apply_like(value: &Value, pattern: &Value, negated: bool, insensitive: bool) -> (result: Result<Value, Error>)
    ensures
        outcome(result) == like_value(value@, pattern@, negated, insensitive),
{
    match (value, pattern) {
        (Value::Null, _) => Ok(Value::Null),
        (_, Value::Null) => Ok(Value::Null),
        (Value::Text(text), Value::Text(wanted)) => {
            let matched = if insensitive {
                let text = to_lowercase(text.as_str());
                let wanted = to_lowercase(wanted.as_str());
                like_matches(text.as_str(), wanted.as_str())
            } else {
                like_matches(text.as_str(), wanted.as_str())
            };
            boolean_not_if(Value::Boolean(matched), negated)
        },
        (left, right) => Err(
            Error::TypeMismatch {
                expected: "TEXT LIKE TEXT".to_owned(),
                found: join3(left.kind_name(), " LIKE ", right.kind_name()),
            },
        ),
    }
}

/// The metric of a distance function.
pub open spec fn function_metric(name: Seq<char>) -> Option<Metric> {
    if name == "l2_distance"@ || name == "euclidean_distance"@ {
        Some(Metric::L2)
    } else if name == "squared_l2_distance"@ {
        Some(Metric::SquaredL2)
    } else if name == "cosine_distance"@ {
        Some(Metric::Cosine)
    } else if name == "dot_product"@ || name == "inner_product"@ {
        Some(Metric::DotProduct)
    } else {
        None
    }
}

/// The metric of a distance function.
pub fn metric_of_function(name: &str) -> (metric: Option<Metric>)
    ensures
        metric == function_metric(name@),
{
    if same_text(name, "l2_distance") || same_text(name, "euclidean_distance") {
        Some(Metric::L2)
    } else if same_text(name, "squared_l2_distance") {
        Some(Metric::SquaredL2)
    } else if same_text(name, "cosine_distance") {
        Some(Metric::Cosine)
    } else if same_text(name, "dot_product") || same_text(name, "inner_product") {
        Some(Metric::DotProduct)
    } else {
        None
    }
}

/// A scalar function, by what it computes.
#[derive(Clone, Copy, Debug, PartialEq, Eq, Structural)]
pub enum ScalarFunction {
    Vector,
    Dimensions,
    Norm,
    Normalize,
    Measure(Metric),
    Unknown,
}

/// The scalar function of this name.
pub open spec fn scalar_function(name: Seq<char>) -> ScalarFunction {
    if name == "vector"@ {
        ScalarFunction::Vector
    } else if name == "vector_dims"@ || name == "dimensions"@ {
        ScalarFunction::Dimensions
    } else if name == "vector_norm"@ || name == "norm"@ {
        ScalarFunction::Norm
    } else if name == "normalize"@ || name == "normalize_vector"@ {
        ScalarFunction::Normalize
    } else {
        match function_metric(name) {
            Some(metric) => ScalarFunction::Measure(metric),
            None => ScalarFunction::Unknown,
        }
    }
}

/// The scalar function of this name.
pub fn scalar_function_of(name: &str) -> (function: ScalarFunction)
    ensures
        function == scalar_function(name@),
{
    if same_text(name, "vector") {
        ScalarFunction::Vector
    } else if same_text(name, "vector_dims") || same_text(name, "dimensions") {
        ScalarFunction::Dimensions
    } else if same_text(name, "vector_norm") || same_text(name, "norm") {
        ScalarFunction::Norm
    } else if same_text(name, "normalize") || same_text(name, "normalize_vector") {
        ScalarFunction::Normalize
    } else {
        match metric_of_function(name) {
            Some(metric) => ScalarFunction::Measure(metric),
            None => ScalarFunction::Unknown,
        }
    }
}

/// The error for a wrong number of arguments.
pub open spec fn argument_count_error(name: Seq<char>, found: nat, expected: nat) -> ErrorView {
    ErrorView::InvalidQuery(
        name + " expects "@ + decimal_text(expected) + " argument(s), received "@ + decimal_text(found),
    )
}

/// Fails exactly when the number of arguments is not the expected one.
pub fn require_argument_count(name: &str, found: usize, expected: usize) -> (result: Result<(), Error>)
    ensures
        match result {
            Ok(()) => found == expected,
            Err(error) => found != expected && error@ == argument_count_error(name@, found as nat, expected as nat),
        },
{
    if found != expected {
        let mut text = join3(name, " expects ", decimal_count(expected).as_str());
        text.append(" argument(s), received ");
        let count = decimal_count(found);
        text.append(count.as_str());
        return Err(Error::InvalidQuery(text));
    }
    Ok(())
}

/// The numbers of `VECTOR`'s arguments from `from` on, after `done`.
pub open spec fn vector_arguments(floats: Floats, arguments: Seq<ValueView>, from: nat, done: Seq<u64>) -> Result<
    Seq<u64>,
    ErrorView,
>
    decreases arguments.len() - from,
{
    if from >= arguments.len() {
        Ok(done)
    } else {
        match arguments[from as int].as_number(floats) {
            Err(error) => Err(error),
            Ok(None) => Err(ErrorView::InvalidQuery("VECTOR arguments cannot be NULL"@)),
            Ok(Some(bits)) => vector_arguments(floats, arguments, from + 1, done.push(bits)),
        }
    }
}

/// The value of a scalar function on its arguments.
pub open spec fn function_value(floats: Floats, name: Seq<char>, arguments: Seq<ValueView>) -> Result<ValueView, ErrorView> {
    match scalar_function(name) {
        ScalarFunction::Vector => match vector_arguments(floats, arguments, 0, Seq::empty()) {
            Err(error) => Err(error),
            Ok(numbers) => vector_of(floats, numbers),
        },
        ScalarFunction::Dimensions => if arguments.len() != 1 {
            Err(argument_count_error(name, arguments.len(), 1))
        } else {
            match arguments[0].as_vector() {
                Err(error) => Err(error),
                Ok(Some(elements)) => Ok(ValueView::Integer(elements.len() as i64)),
                Ok(None) => Ok(ValueView::Null),
            }
        },
        ScalarFunction::Norm => if arguments.len() != 1 {
            Err(argument_count_error(name, arguments.len(), 1))
        } else {
            match arguments[0].as_vector() {
                Err(error) => Err(error),
                Ok(Some(elements)) => Ok(ValueView::Float(number(floats, FloatTaskView::Norm(elements)))),
                Ok(None) => Ok(ValueView::Null),
            }
        },
        ScalarFunction::Normalize => if arguments.len() != 1 {
            Err(argument_count_error(name, arguments.len(), 1))
        } else {
            match arguments[0].as_vector() {
                Err(error) => Err(error),
                Ok(Some(elements)) => match unit_vector(floats, elements) {
                    Ok(elements) => Ok(ValueView::Vector(elements)),
                    Err(error) => Err(error),
                },
                Ok(None) => Ok(ValueView::Null),
            }
        },
        ScalarFunction::Measure(metric) => if arguments.len() != 2 {
            Err(argument_count_error(name, arguments.len(), 2))
        } else {
            measured(floats, metric, arguments[0], arguments[1])
        },
        ScalarFunction::Unknown => Err(ErrorView::Unsupported("function "@ + name)),
    }
}

/// The value of a scalar function on its arguments.
pub fn call_function<F: Fn(FloatTask) -> FloatReply>(f: &F, name: &str, arguments: &Vec<Value>) -> (result: Result<
    Value,
    Error,
>)
    requires
        computes(*f),
    ensures
        outcome(result) == function_value(floats(*f), name@, views(arguments@)),
{
    match scalar_function_of(name) {
        ScalarFunction::Vector => {
            let mut numbers: Vec<u64> = Vec::new();
            let mut index: usize = 0;
            while index < arguments.len()
                invariant
                    computes(*f),
                    scalar_function(name@) == ScalarFunction::Vector,
                    index <= arguments@.len(),
                    vector_arguments(floats(*f), views(arguments@), index as nat, numbers@) == vector_arguments(
                        floats(*f),
                        views(arguments@),
                        0,
                        Seq::empty(),
                    ),
                decreases arguments@.len() - index,
            {
                assert(views(arguments@)[index as int] == arguments@[index as int]@);
                match arguments[index].as_number(f) {
                    Err(error) => return Err(error),
                    Ok(None) => return Err(invalid("VECTOR arguments cannot be NULL")),
                    Ok(Some(bits)) => numbers.push(bits),
                }
                index = index + 1;
            }
            make_vector(f, &numbers)
        },
        ScalarFunction::Dimensions => {
            require_argument_count(name, arguments.len(), 1)?;
            match arguments[0].as_vector()? {
                Some(vector) => Ok(Value::Integer(vector.dimensions() as i64)),
                None => Ok(Value::Null),
            }
        },
        ScalarFunction::Norm => {
            require_argument_count(name, arguments.len(), 1)?;
            match arguments[0].as_vector()? {
                Some(vector) => Ok(Value::Float(compute_number(f, FloatTask::Norm(vector.share())))),
                None => Ok(Value::Null),
            }
        },
        ScalarFunction::Normalize => {
            require_argument_count(name, arguments.len(), 1)?;
            match arguments[0].as_vector()? {
                Some(vector) => {
                    let unit = normalize_vector(f, vector)?;
                    Ok(Value::Vector(unit))
                },
                None => Ok(Value::Null),
            }
        },
        ScalarFunction::Measure(metric) => {
            require_argument_count(name, arguments.len(), 2)?;
            measure(f, metric, &arguments[0], &arguments[1])
        },
        ScalarFunction::Unknown => Err(Error::Unsupported(join2("function ", name))),
    }
}

/// The values of items from `from` on, after `done`.
pub open spec fn evaluated_all(
    items: Seq<ExprView>,
    scope: ScopeView,
    floats: Floats,
    from: nat,
    done: Seq<ValueView>,
) -> Result<Seq<ValueView>, ErrorView>
    decreases items, (items.len() - from) as nat,
{
    if from >= items.len() {
        Ok(done)
    } else {
        match evaluated(items[from as int], scope, floats) {
            Err(error) => Err(error),
            Ok(value) => evaluated_all(items, scope, floats, from + 1, done.push(value)),
        }
    }
}

/// The numbers of an array's items from `from` on, after `done`.
pub open spec fn array_numbers(
    items: Seq<ExprView>,
    scope: ScopeView,
    floats: Floats,
    from: nat,
    done: Seq<Option<u64>>,
) -> Result<Seq<Option<u64>>, ErrorView>
    decreases items, (items.len() - from) as nat,
{
    if from >= items.len() {
        Ok(done)
    } else {
        match evaluated(items[from as int], scope, floats) {
            Err(error) => Err(error),
            Ok(value) => match value.as_number(floats) {
                Err(error) => Err(error),
                Ok(entry) => array_numbers(items, scope, floats, from + 1, done.push(entry)),
            },
        }
    }
}

/// Whether an equal item and a `NULL` are met in the list from `from` on, or were before.
pub open spec fn list_members(
    value: ValueView,
    list: Seq<ExprView>,
    scope: ScopeView,
    floats: Floats,
    from: nat,
    found: bool,
    saw_null: bool,
) -> Result<(bool, bool), ErrorView>
    decreases list, (list.len() - from) as nat,
{
    if from >= list.len() {
        Ok((found, saw_null))
    } else {
        match evaluated(list[from as int], scope, floats) {
            Err(error) => Err(error),
            Ok(item) => match compared(floats, value, item, Comparison::Eq) {
                Err(error) => Err(error),
                Ok(equal) => list_members(
                    value,
                    list,
                    scope,
                    floats,
                    from + 1,
                    found || equal == ValueView::Boolean(true),
                    saw_null || equal is Null,
                ),
            },
        }
    }
}

/// The values of a function's arguments from `from` on, after `done`.
pub open spec fn argument_values(
    arguments: Seq<ArgumentView>,
    scope: ScopeView,
    floats: Floats,
    from: nat,
    done: Seq<ValueView>,
) -> Result<Seq<ValueView>, ErrorView>
    decreases arguments, (arguments.len() - from) as nat,
{
    if from >= arguments.len() {
        Ok(done)
    } else {
        match arguments[from as int] {
            ArgumentView::Expr(expr) => match evaluated(expr, scope, floats) {
                Err(error) => Err(error),
                Ok(value) => argument_values(arguments, scope, floats, from + 1, done.push(value)),
            },
            _ => Err(ErrorView::Unsupported("named or wildcard function arguments"@)),
        }
    }
}

/// The numbers, or the error that one of them is missing.
pub open spec fn present_numbers(numbers: Seq<Option<u64>>) -> Result<Seq<u64>, ErrorView> {
    if exists|i: int| 0 <= i < numbers.len() && (#[trigger] numbers[i]) is None {
        Err(ErrorView::InvalidQuery("vector literals cannot contain NULL"@))
    } else {
        Ok(numbers.map_values(|entry: Option<u64>| entry->0))
    }
}

/// The value of a binary operator other than a logical one.
pub open spec fn binary_value(
    floats: Floats,
    left: ValueView,
    right: ValueView,
    operator: BinaryView,
    unknown: Seq<char>,
) -> Result<ValueView, ErrorView> {
    match operator.kind() {
        OperatorKindView::And => conjunction(left, right),
        OperatorKindView::Or => disjunction(left, right),
        OperatorKindView::Compare(comparison) => compared(floats, left, right, comparison),
        OperatorKindView::Compute(arithmetic) => calculated(floats, left, right, arithmetic),
        OperatorKindView::Custom(text) => vector_operation(floats, left, right, text),
        OperatorKindView::Other(_) => Err(ErrorView::Unsupported(unknown)),
    }
}

/// The value of an expression in a scope.
pub open spec fn evaluated(expression: ExprView, scope: ScopeView, floats: Floats) -> Result<ValueView, ErrorView>
    decreases expression, 0nat,
{
    match expression {
        ExprView::Value(literal) => literal_value(floats, literal),
        ExprView::Identifier(identifier, _) => column_value(scope, identifier),
        ExprView::CompoundIdentifier(parts, _) => compound_value(scope, parts),
        ExprView::Nested(inner) => evaluated(*inner, scope, floats),
        ExprView::Array(items, _, _) => match array_numbers(items, scope, floats, 0, Seq::empty()) {
            Err(error) => Err(error),
            Ok(entries) => match present_numbers(entries) {
                Err(error) => Err(error),
                Ok(numbers) => vector_of(floats, numbers),
            },
        },
        ExprView::Function(function) => if function.distinct || function.modified {
            Err(ErrorView::Unsupported("function modifiers on "@ + function.name_text))
        } else {
            match argument_values(function.arguments, scope, floats, 0, Seq::empty()) {
                Err(error) => Err(error),
                Ok(arguments) => function_value(floats, last_name(function.name), arguments),
            }
        },
        ExprView::BinaryOp(left, operator, right) => match evaluated(*left, scope, floats) {
            Err(error) => Err(error),
            Ok(a) => match operator.kind() {
                OperatorKindView::And => match a.as_bool() {
                    Err(error) => Err(error),
                    Ok(Some(false)) => Ok(ValueView::Boolean(false)),
                    Ok(_) => match evaluated(*right, scope, floats) {
                        Err(error) => Err(error),
                        Ok(b) => conjunction(a, b),
                    },
                },
                OperatorKindView::Or => match a.as_bool() {
                    Err(error) => Err(error),
                    Ok(Some(true)) => Ok(ValueView::Boolean(true)),
                    Ok(_) => match evaluated(*right, scope, floats) {
                        Err(error) => Err(error),
                        Ok(b) => disjunction(a, b),
                    },
                },
                _ => match evaluated(*right, scope, floats) {
                    Err(error) => Err(error),
                    Ok(b) => binary_value(floats, a, b, operator, "binary operator "@ + operator.notation()),
                },
            },
        },
        ExprView::UnaryOp(operator, inner) => match evaluated(*inner, scope, floats) {
            Err(error) => Err(error),
            Ok(value) => unary_value(operator, value, unknown_unary(operator)),
        },
        ExprView::Test(test, inner) => match evaluated(*inner, scope, floats) {
            Err(error) => Err(error),
            Ok(value) => test_value(test, value),
        },
        ExprView::Between { expr, negated, low, high } => match evaluated(*expr, scope, floats) {
            Err(error) => Err(error),
            Ok(value) => match evaluated(*low, scope, floats) {
                Err(error) => Err(error),
                Ok(lowest) => match compared(floats, value, lowest, Comparison::GtEq) {
                    Err(error) => Err(error),
                    Ok(_) => match evaluated(*high, scope, floats) {
                        Err(error) => Err(error),
                        Ok(highest) => between_value(floats, value, lowest, highest, negated),
                    },
                },
            },
        },
        ExprView::InList { expr, list, negated } => match evaluated(*expr, scope, floats) {
            Err(error) => Err(error),
            Ok(value) => match list_members(value, list, scope, floats, 0, false, value is Null) {
                Err(error) => Err(error),
                Ok((found, saw_null)) => membership(found, saw_null, negated),
            },
        },
        ExprView::Like { expr, pattern, negated, escape, insensitive } => if escape is Some {
            Err(ErrorView::Unsupported("LIKE ... ESCAPE"@))
        } else {
            match evaluated(*expr, scope, floats) {
                Err(error) => Err(error),
                Ok(value) => match evaluated(*pattern, scope, floats) {
                    Err(error) => Err(error),
                    Ok(wanted) => like_value(value, wanted, negated, insensitive),
                },
            }
        },
        ExprView::Cast { expr, data_type, formatted } => match evaluated(*expr, scope, floats) {
            Err(error) => Err(error),
            Ok(value) => match logical_type(data_type) {
                Err(error) => Err(error),
                Ok(data_type) => coerced(floats, value, data_type),
            },
        },
        ExprView::Other(text) => Err(ErrorView::Unsupported("expression "@ + text)),
    }
}

/// The error for a unary operator that is not supported.
pub open spec fn unknown_unary(operator: UnaryView) -> ErrorView {
    match operator {
        UnaryView::Other(text) => ErrorView::Unsupported("unary operator "@ + text),
        _ => ErrorView::Unsupported(Seq::empty()),
    }
}

fn unary_error(operator: &UnaryOperator) -> (error: Error)
    ensures
        error@ == unknown_unary(operator@),
{
    match operator {
        UnaryOperator::Other(text) => Error::Unsupported(join2("unary operator ", text.as_str())),
        _ => Error::Unsupported(String::new()),
    }
}

/// The value of a binary operator on two values; `unknown` is the message for one that is not
/// supported.
pub fn apply_binary<F: Fn(FloatTask) -> FloatReply>(
    f: &F,
    left: &Value,
    right: &Value,
    operator: &BinaryOperator,
    unknown: String,
) -> (result: Result<Value, Error>)
    requires
        computes(*f),
    ensures
        outcome(result) == binary_value(floats(*f), left@, right@, operator@, unknown@),
{
    match operator.kind() {
        OperatorKind::And => sql_and(left, right),
        OperatorKind::Or => sql_or(left, right),
        OperatorKind::Compare(comparison) => compare_values(f, left, right, comparison),
        OperatorKind::Compute(arithmetic) => numeric_binary(f, left, right, arithmetic),
        OperatorKind::Custom(text) => vector_operator(f, left, right, text.as_str()),
        OperatorKind::Other(_) => Err(Error::Unsupported(unknown)),
    }
}

/// The value of `BETWEEN` on three values.
pub fn apply_between<F: Fn(FloatTask) -> FloatReply>(
    f: &F,
    value: &Value,
    low: &Value,
    high: &Value,
    negated: bool,
) -> (result: Result<Value, Error>)
    requires
        computes(*f),
    ensures
        outcome(result) == between_value(floats(*f), value@, low@, high@, negated),
{
    let lower = compare_values(f, value, low, Comparison::GtEq)?;
    let upper = compare_values(f, value, high, Comparison::LtEq)?;
    let inside = sql_and(&lower, &upper)?;
    boolean_not_if(inside, negated)
}

/// The value of a membership test.
pub fn apply_membership(found: bool, saw_null: bool, negated: bool) -> (result: Result<Value, Error>)
    ensures
        outcome(result) == membership(found, saw_null, negated),
{
    let value = if found {
        Value::Boolean(true)
    } else if saw_null {
        Value::Null
    } else {
        Value::Boolean(false)
    };
    boolean_not_if(value, negated)
}

/// The numbers, or the error that one of them is missing.
fn take_numbers(entries: &Vec<Option<u64>>) -> (result: Result<Vec<u64>, Error>)
    ensures
        match result {
            Ok(numbers) => present_numbers(entries@) == Ok::<Seq<u64>, ErrorView>(numbers@),
            Err(error) => present_numbers(entries@) == Err::<Seq<u64>, ErrorView>(error@),
        },
{
    let mut numbers: Vec<u64> = Vec::new();
    let mut index: usize = 0;
    while index < entries.len()
        invariant
            index <= entries@.len(),
            numbers@.len() == index,
            forall|i: int| 0 <= i < index ==> (#[trigger] entries@[i]) == Some(numbers@[i]),
        decreases entries@.len() - index,
    {
        match entries[index] {
            Some(bits) => numbers.push(bits),
            None => {
                assert(entries@[index as int] is None);
                return Err(invalid("vector literals cannot contain NULL"));
            },
        }
        index = index + 1;
    }
    assert(numbers@ =~= entries@.map_values(|entry: Option<u64>| entry->0));
    Ok(numbers)
}

fn evaluate_array<F: Fn(FloatTask) -> FloatReply>(
    f: &F,
    items: &Vec<Expr>,
    context: &EvalContext<'_>,
) -> (result: Result<Value, Error>)
    requires
        computes(*f),
        context@.valid(),
    ensures
        outcome(result) == (match array_numbers(expr_views(items@), context@, floats(*f), 0, Seq::empty()) {
            Err(error) => Err(error),
            Ok(entries) => match present_numbers(entries) {
                Err(error) => Err(error),
                Ok(numbers) => vector_of(floats(*f), numbers),
            },
        }),
    decreases items, 0nat,
{
    let mut entries: Vec<Option<u64>> = Vec::new();
    let mut index: usize = 0;
    while index < items.len()
        invariant
            computes(*f),
            context@.valid(),
            index <= items@.len(),
            array_numbers(expr_views(items@), context@, floats(*f), index as nat, entries@) == array_numbers(
                expr_views(items@),
                context@,
                floats(*f),
                0,
                Seq::empty(),
            ),
        decreases items@.len() - index,
    {
        let value = evaluate(f, &items[index], context)?;
        let entry = value.as_number(f)?;
        entries.push(entry);
        index = index + 1;
    }
    let numbers = take_numbers(&entries)?;
    make_vector(f, &numbers)
}

fn evaluate_arguments<F: Fn(FloatTask) -> FloatReply>(
    f: &F,
    arguments: &Vec<Argument>,
    context: &EvalContext<'_>,
) -> (result: Result<Vec<Value>, Error>)
    requires
        computes(*f),
        context@.valid(),
    ensures
        match result {
            Ok(values) => argument_values(argument_views(arguments@), context@, floats(*f), 0, Seq::empty()) == Ok::<
                Seq<ValueView>,
                ErrorView,
            >(views(values@)),
            Err(error) => argument_values(argument_views(arguments@), context@, floats(*f), 0, Seq::empty()) == Err::<
                Seq<ValueView>,
                ErrorView,
            >(error@),
        },
    decreases arguments, 0nat,
{
    let mut values: Vec<Value> = Vec::new();
    let mut index: usize = 0;
    assert(views(values@) =~= Seq::<ValueView>::empty());
    while index < arguments.len()
        invariant
            computes(*f),
            context@.valid(),
            index <= arguments@.len(),
            argument_values(argument_views(arguments@), context@, floats(*f), index as nat, views(values@))
                == argument_values(argument_views(arguments@), context@, floats(*f), 0, Seq::empty()),
        decreases arguments@.len() - index,
    {
        assert(argument_views(arguments@)[index as int] == argument_view(arguments@[index as int]));
        match &arguments[index] {
            Argument::Expr(expr) => {
                let value = evaluate(f, expr, context)?;
                proof {
                    lemma_views_push(values@, value);
                }
                values.push(value);
            },
            _ => return Err(unsupported("named or wildcard function arguments")),
        }
        index = index + 1;
    }
    Ok(values)
}

fn evaluate_function<F: Fn(FloatTask) -> FloatReply>(
    f: &F,
    function: &Function,
    context: &EvalContext<'_>,
) -> (result: Result<Value, Error>)
    requires
        computes(*f),
        context@.valid(),
    ensures
        outcome(result) == evaluated(ExprView::Function(function@), context@, floats(*f)),
    decreases function, 0nat,
{
    if function.distinct || function.modified {
        return Err(Error::Unsupported(join2("function modifiers on ", function.name_text.as_str())));
    }
    let values = evaluate_arguments(f, &function.arguments, context)?;
    let name = object_name(&function.name);
    call_function(f, name.as_str(), &values)
}

fn evaluate_members<F: Fn(FloatTask) -> FloatReply>(
    f: &F,
    value: &Value,
    list: &Vec<Expr>,
    context: &EvalContext<'_>,
) -> (result: Result<(bool, bool), Error>)
    requires
        computes(*f),
        context@.valid(),
    ensures
        match result {
            Ok(pair) => list_members(value@, expr_views(list@), context@, floats(*f), 0, false, value@ is Null) == Ok::<
                (bool, bool),
                ErrorView,
            >(pair),
            Err(error) => list_members(value@, expr_views(list@), context@, floats(*f), 0, false, value@ is Null)
                == Err::<(bool, bool), ErrorView>(error@),
        },
    decreases list, 0nat,
{
    let mut found = false;
    let mut saw_null = value.is_null();
    let mut index: usize = 0;
    while index < list.len()
        invariant
            computes(*f),
            context@.valid(),
            index <= list@.len(),
            list_members(value@, expr_views(list@), context@, floats(*f), index as nat, found, saw_null) == list_members(
                value@,
                expr_views(list@),
                context@,
                floats(*f),
                0,
                false,
                value@ is Null,
            ),
        decreases list@.len() - index,
    {
        let item = evaluate(f, &list[index], context)?;
        match compare_values(f, value, &item, Comparison::Eq)? {
            Value::Boolean(true) => {
                found = true;
            },
            Value::Null => {
                saw_null = true;
            },
            _ => {},
        }
        index = index + 1;
    }
    Ok((found, saw_null))
}

/// The value of an expression in a scope.
pub fn evaluate<F: Fn(FloatTask) -> FloatReply>(f: &F, expression: &Expr, context: &EvalContext<'_>) -> (result: Result<
    Value,
    Error,
>)
    requires
        computes(*f),
        context@.valid(),
    ensures
        outcome(result) == evaluated(expression@, context@, floats(*f)),
    decreases expression, 1nat,
{
    match expression {
        Expr::Value(literal) => sql_literal(f, literal),
        Expr::Identifier(identifier, _) => context.column(identifier),
        Expr::CompoundIdentifier(parts, _) => context.compound_column(parts),
        Expr::Nested(inner) => evaluate(f, inner, context),
        Expr::Array(items, _, _) => evaluate_array(f, items, context),
        Expr::Function(function) => evaluate_function(f, function, context),
        Expr::BinaryOp(left, operator, right) => {
            let a = evaluate(f, left, context)?;
            match operator.kind() {
                OperatorKind::And => {
                    if let Some(false) = a.as_bool()? {
                        return Ok(Value::Boolean(false));
                    }
                    let b = evaluate(f, right, context)?;
                    sql_and(&a, &b)
                },
                OperatorKind::Or => {
                    if let Some(true) = a.as_bool()? {
                        return Ok(Value::Boolean(true));
                    }
                    let b = evaluate(f, right, context)?;
                    sql_or(&a, &b)
                },
                _ => {
                    let b = evaluate(f, right, context)?;
                    let unknown = join2("binary operator ", operator.to_text().as_str());
                    apply_binary(f, &a, &b, operator, unknown)
                },
            }
        },
        Expr::UnaryOp(operator, inner) => {
            let value = evaluate(f, inner, context)?;
            apply_unary(operator, value, unary_error(operator))
        },
        Expr::Test(test, inner) => {
            let value = evaluate(f, inner, context)?;
            apply_test(*test, &value)
        },
        Expr::Between { expr, negated, low, high } => {
            let value = evaluate(f, expr, context)?;
            let lowest = evaluate(f, low, context)?;
            let lower = compare_values(f, &value, &lowest, Comparison::GtEq)?;
            let highest = evaluate(f, high, context)?;
            let upper = compare_values(f, &value, &highest, Comparison::LtEq)?;
            let inside = sql_and(&lower, &upper)?;
            boolean_not_if(inside, *negated)
        },
        Expr::InList { expr, list, negated } => {
            let value = evaluate(f, expr, context)?;
            let (found, saw_null) = evaluate_members(f, &value, list, context)?;
            apply_membership(found, saw_null, *negated)
        },
        Expr::Like { expr, pattern, negated, escape, insensitive } => {
            if escape.is_some() {
                return Err(unsupported("LIKE ... ESCAPE"));
            }
            let value = evaluate(f, expr, context)?;
            let wanted = evaluate(f, pattern, context)?;
            apply_like(&value, &wanted, *negated, *insensitive)
        },
        Expr::Cast { expr, data_type, formatted: _ } => {
            let value = evaluate(f, expr, context)?;
            let data_type = parse_data_type(data_type)?;
            coerce(f, value, data_type)
        },
        Expr::Other(text) => Err(Error::Unsupported(join2("expression ", text.as_str()))),
    }
}

/// Whether a condition selects a row: no condition selects every row, and a condition those of
/// which it is true.
pub open spec fn selects(condition: Option<ExprView>, scope: ScopeView, floats: Floats) -> Result<bool, ErrorView> {
    match condition {
        None => Ok(true),
        Some(expression) => match evaluated(expression, scope, floats) {
            Err(error) => Err(error),
            Ok(value) => match value.as_bool() {
                Err(error) => Err(error),
                Ok(truth) => Ok(truth == Some(true)),
            },
        },
    }
}

/// Whether a condition selects a row.
pub fn is_selected<F: Fn(FloatTask) -> FloatReply>(f: &F, condition: Option<&Expr>, context: &EvalContext<'_>) -> (result:
    Result<bool, Error>)
    requires
        computes(*f),
        context@.valid(),
    ensures
        crate::error::plain(result) == selects(
            match condition {
                Some(expression) => Some(expression@),
                None => None,
            },
            context@,
            floats(*f),
        ),
{
    match condition {
        None => Ok(true),
        Some(expression) => {
            let value = evaluate(f, expression, context)?;
            match value.as_bool()? {
                Some(truth) => Ok(truth),
                None => Ok(false),
            }
        },
    }
}

/// The view of a borrowed expression that may be missing.
pub open spec fn borrowed(expression: Option<&Expr>) -> Option<ExprView> {
    match expression {
        Some(expression) => Some(expression@),
        None => None,
    }
}

/// The value of an expression that refers to no column.
pub fn evaluate_constant<F: Fn(FloatTask) -> FloatReply>(f: &F, expression: &Expr) -> (result: Result<Value, Error>)
    requires
        computes(*f),
    ensures
        outcome(result) == evaluated(expression@, ScopeView::none(), floats(*f)),
{
    let columns: Vec<Column> = Vec::new();
    let row: Vec<Value> = Vec::new();
    let context = EvalContext::new(&columns, &row);
    proof {
        assert(context@.row =~= Seq::<ValueView>::empty());
        assert(context@.schema.columns =~= Seq::<ColumnView>::empty());
    }
    evaluate(f, expression, &context)
}

/// A vector operator is written for the function of its metric: both have the same value, or the
/// same error, whatever stands on their sides.
pub proof fn law_operator_is_its_function(
    left: ExprView,
    operator: BinaryView,
    right: ExprView,
    function: FunctionView,
    scope: ScopeView,
    floats: Floats,
)
    requires
        operator matches BinaryView::Custom(text) && (operator_metric(text) matches Some(metric) && scalar_function(
            last_name(function.name),
        ) == ScalarFunction::Measure(metric)),
        !function.distinct && !function.modified,
        function.arguments == seq![ArgumentView::Expr(left), ArgumentView::Expr(right)],
    ensures
        evaluated(ExprView::BinaryOp(Box::new(left), operator, Box::new(right)), scope, floats) == evaluated(
            ExprView::Function(function),
            scope,
            floats,
        ),
{
    reveal_with_fuel(argument_values, 4);
    let arguments = function.arguments;
    if let Ok(a) = evaluated(left, scope, floats) {
        let one = Seq::<ValueView>::empty().push(a);
        assert(argument_values(arguments, scope, floats, 0, Seq::empty()) == argument_values(
            arguments,
            scope,
            floats,
            1,
            one,
        ));
        if let Ok(b) = evaluated(right, scope, floats) {
            let both = one.push(b);
            assert(argument_values(arguments, scope, floats, 1, one) == argument_values(arguments, scope, floats, 2, both));
            assert(both[0] == a && both[1] == b);
        }
    }
}

} // verus!
