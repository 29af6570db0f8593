//! That the type of an expression tells the type of its values.

use vstd::prelude::*;
use crate::ast::{last_name, ArgumentView, ExprView, IdentView};
use crate::eval::{
    argument_values, array_numbers, compound_identified, evaluated, function_value, identified, lemma_named_column, scalar_function,
    source_position, source_range, vector_arguments, JoinSourceView, ScopeView,
};
use crate::float::{FloatReplyView, FloatTaskView, Floats};
use crate::types::{aggregate_kind, argument_types, expression_type, scalar_type};
use crate::value::{lemma_column_position, type_of, DataType, ValueView};

verus! {

/// Whether a value is `NULL` or of a type; where there is no type it is `NULL`.
pub open spec fn is_of(value: ValueView, found: Option<DataType>) -> bool {
    value is Null || type_of(value) == found
}

/// Whether the values of a row are of the types of its columns.
pub open spec fn typed_scope(scope: ScopeView) -> bool {
    &&& scope.valid()
    &&& scope.excluded is None
    &&& forall|c: int| 0 <= c < scope.row.len() ==> is_of(#[trigger] scope.row[c], Some(scope.schema.columns[c].data_type))
}

/// Whether a vector of unit length has as many elements as the one that it is made of.
pub open spec fn keeps_dimensions(floats: Floats) -> bool {
    forall|elements: Seq<u32>|
        (#[trigger] floats(FloatTaskView::Normalize(elements))) matches FloatReplyView::Elements(unit) ==> unit.len() == elements.len()
}

proof fn lemma_identified(scope: ScopeView, identifier: IdentView)
    requires
        scope.valid(),
    ensures
        identified(scope.schema, identifier) matches Ok(index) ==> index < scope.schema.columns.len(),
{
    lemma_column_position(scope.schema.columns, identifier.name(), 0);
    lemma_named_column(scope.schema.columns, identifier.name(), 0, scope.schema.columns.len());
}

proof fn lemma_source(sources: Seq<JoinSourceView>, qualifier: Seq<char>, from: nat)
    ensures
        source_position(sources, qualifier, from) matches Some(index) ==> index < sources.len(),
    decreases sources.len() - from,
{
    if from < sources.len() {
        lemma_source(sources, qualifier, from + 1);
    }
}

proof fn lemma_compound(scope: ScopeView, parts: Seq<IdentView>)
    requires
        scope.valid(),
    ensures
        compound_identified(scope.schema, parts) matches Ok(index) ==> index < scope.schema.columns.len(),
{
    match scope.schema.sources {
        None => {
            if parts.len() > 0 {
                lemma_column_position(scope.schema.columns, parts.last().name(), 0);
            }
        },
        Some(sources) => {
            if parts.len() == 2 {
                if let Ok((from, to)) = source_range(sources, parts[0].name()) {
                    lemma_source(sources, parts[0].name(), 0);
                    lemma_named_column(scope.schema.columns, parts[1].name(), from, to);
                }
            }
        },
    }
}

proof fn lemma_array(items: Seq<ExprView>, scope: ScopeView, floats: Floats, from: nat, done: Seq<Option<u64>>)
    requires
        from <= items.len(),
        done.len() == from,
    ensures
        array_numbers(items, scope, floats, from, done) matches Ok(entries) ==> entries.len() == items.len(),
    decreases items.len() - from,
{
    if from < items.len() {
        if let Ok(value) = evaluated(items[from as int], scope, floats) {
            if let Ok(entry) = value.as_number(floats) {
                lemma_array(items, scope, floats, from + 1, done.push(entry));
            }
        }
    }
}

proof fn lemma_vector_arguments(floats: Floats, arguments: Seq<ValueView>, from: nat, done: Seq<u64>)
    requires
        from <= arguments.len(),
        done.len() == from,
    ensures
        vector_arguments(floats, arguments, from, done) matches Ok(numbers) ==> numbers.len() == arguments.len(),
    decreases arguments.len() - from,
{
    if from < arguments.len() {
        if let Ok(Some(bits)) = arguments[from as int].as_number(floats) {
            lemma_vector_arguments(floats, arguments, from + 1, done.push(bits));
        }
    }
}

/// No name is both that of an aggregate and that of a scalar function.
pub proof fn law_names_are_apart(name: Seq<char>)
    ensures
        aggregate_kind(name) is Some ==> scalar_function(name) is Unknown,
{
    reveal_strlit("count");
    reveal_strlit("sum");
    reveal_strlit("avg");
    reveal_strlit("min");
    reveal_strlit("max");
    reveal_strlit("vector");
    reveal_strlit("vector_dims");
    reveal_strlit("dimensions");
    reveal_strlit("vector_norm");
    reveal_strlit("norm");
    reveal_strlit("normalize");
    reveal_strlit("normalize_vector");
    reveal_strlit("l2_distance");
    reveal_strlit("euclidean_distance");
    reveal_strlit("squared_l2_distance");
    reveal_strlit("cosine_distance");
    reveal_strlit("dot_product");
    reveal_strlit("inner_product");
    assert("count"@.len() == 5);
    assert("sum"@.len() == 3);
    assert("avg"@.len() == 3);
    assert("min"@.len() == 3);
    assert("max"@.len() == 3);
    assert("vector"@.len() == 6);
    assert("vector_dims"@.len() == 11);
    assert("dimensions"@.len() == 10);
    assert("vector_norm"@.len() == 11);
    assert("norm"@.len() == 4);
    assert("normalize"@.len() == 9);
    assert("normalize_vector"@.len() == 16);
    assert("l2_distance"@.len() == 11);
    assert("euclidean_distance"@.len() == 18);
    assert("squared_l2_distance"@.len() == 19);
    assert("cosine_distance"@.len() == 15);
    assert("dot_product"@.len() == 11);
    assert("inner_product"@.len() == 13);
}

proof fn lemma_scalar(floats: Floats, name: Seq<char>, arguments: Seq<ValueView>, types: Seq<Option<DataType>>)
    requires
        keeps_dimensions(floats),
        arguments.len() == types.len(),
        forall|i: int| 0 <= i < arguments.len() ==> is_of(#[trigger] arguments[i], types[i]),
    ensures
        function_value(floats, name, arguments) matches Ok(value) ==> (scalar_type(name, types) matches Ok(found) ==> is_of(value, found)),
{
    lemma_vector_arguments(floats, arguments, 0, Seq::empty());
    if arguments.len() > 0 {
        assert(is_of(arguments[0], types[0]));
    }
}

proof fn lemma_arguments(
    arguments: Seq<ArgumentView>,
    scope: ScopeView,
    floats: Floats,
    from: nat,
    values: Seq<ValueView>,
    types: Seq<Option<DataType>>,
)
    requires
        from <= arguments.len(),
        values.len() == from,
        types.len() == from,
        forall|i: int| 0 <= i < from ==> is_of(#[trigger] values[i], types[i]),
        forall|i: int| from <= i < arguments.len() ==> argument_typed(#[trigger] arguments[i], scope, floats),
    ensures
        argument_values(arguments, scope, floats, from, values) matches Ok(all) ==> (argument_types(
            arguments,
            scope.schema,
            floats,
            from,
            types,
        ) matches Ok(found) ==> all.len() == found.len() && forall|i: int| 0 <= i < all.len() ==> is_of(#[trigger] all[i], found[i])),
    decreases arguments.len() - from,
{
    if from < arguments.len() {
        assert(argument_typed(arguments[from as int], scope, floats));
        if let ArgumentView::Expr(expr) = arguments[from as int] {
            if let Ok(value) = evaluated(expr, scope, floats) {
                if let Ok(found) = expression_type(expr, scope.schema, floats) {
                    lemma_arguments(arguments, scope, floats, from + 1, values.push(value), types.push(found));
                }
            }
        }
    }
}

/// Whether the value of an argument is of its type.
spec fn argument_typed(argument: ArgumentView, scope: ScopeView, floats: Floats) -> bool {
    argument matches ArgumentView::Expr(expr) ==> value_typed(expr, scope, floats)
}

/// Whether the value of an expression is of its type.
pub open spec fn value_typed(expression: ExprView, scope: ScopeView, floats: Floats) -> bool {
    evaluated(expression, scope, floats) matches Ok(value) ==> (expression_type(expression, scope.schema, floats) matches Ok(found)
        ==> is_of(value, found))
}

/// The value of an expression is `NULL` or of the type that the expression has.
pub proof fn law_values_are_of_their_types(expression: ExprView, scope: ScopeView, floats: Floats)
    requires
        typed_scope(scope),
        keeps_dimensions(floats),
    ensures
        value_typed(expression, scope, floats),
    decreases expression,
{
    match expression {
        ExprView::Value(literal) => {},
        ExprView::Identifier(identifier, _) => {
            lemma_identified(scope, identifier);
        },
        ExprView::CompoundIdentifier(parts, _) => {
            lemma_compound(scope, parts);
        },
        ExprView::Nested(inner) => {
            law_values_are_of_their_types(*inner, scope, floats);
        },
        ExprView::Array(items, _, _) => {
            lemma_array(items, scope, floats, 0, Seq::empty());
        },
        ExprView::Function(function) => {
            assert forall|i: int| 0 <= i < function.arguments.len() implies argument_typed(#[trigger] function.arguments[i], scope, floats) by {
                if let ArgumentView::Expr(expr) = function.arguments[i] {
                    law_values_are_of_their_types(expr, scope, floats);
                }
            }
            law_names_are_apart(last_name(function.name));
            lemma_arguments(function.arguments, scope, floats, 0, Seq::empty(), Seq::empty());
            if let Ok(values) = argument_values(function.arguments, scope, floats, 0, Seq::empty()) {
                if let Ok(types) = argument_types(function.arguments, scope.schema, floats, 0, Seq::empty()) {
                    lemma_scalar(floats, last_name(function.name), values, types);
                }
            }
        },
        ExprView::BinaryOp(left, operator, right) => {
            law_values_are_of_their_types(*left, scope, floats);
            law_values_are_of_their_types(*right, scope, floats);
        },
        ExprView::UnaryOp(operator, inner) => {
            law_values_are_of_their_types(*inner, scope, floats);
        },
        ExprView::Test(test, inner) => {},
        ExprView::Between { expr, negated, low, high } => {},
        ExprView::InList { expr, list, negated } => {},
        ExprView::Like { expr, pattern, negated, escape, insensitive } => {},
        ExprView::Cast { expr, data_type, formatted } => {},
        ExprView::Other(text) => {},
    }
}

} // verus!
