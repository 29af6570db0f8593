//! What aggregates give of the rows of a group.

use vstd::prelude::*;
use crate::aggregate::{
    aggregate_inputs, aggregated, averaged, extreme, extreme_from, grouped_value, phrase_position, sum_from, summed,
    total_from, GroupView,
};
use crate::ast::{last_name, ArgumentView, ExprView, FunctionView, PhraseView};
use crate::error::ErrorView;
use crate::eval::{evaluated, SchemaView, ScopeView};
use crate::float::{not_a_number, number, number_key, FloatTaskView, Floats};
use crate::operators::{compared, Comparison};
use crate::text::{lemma_text_order, text_rank, Rank};
use crate::types::{aggregate_kind, parsed_aggregate};
use crate::value::{key_of, keys_of, ValueView};

verus! {

broadcast use vstd::string::group_string_axioms;

/// The value of an argument in a row.
pub open spec fn argument_at(argument: ExprView, rows: Seq<Seq<ValueView>>, schema: SchemaView, floats: Floats, at: int) -> Result<
    ValueView,
    ErrorView,
> {
    evaluated(argument, (ScopeView { schema, row: rows[at], excluded: None }), floats)
}

/// Whether an argument has a value in a row that is no `NULL`.
pub open spec fn counts_at(argument: ExprView, rows: Seq<Seq<ValueView>>, schema: SchemaView, floats: Floats, at: int) -> bool {
    argument_at(argument, rows, schema, floats, at) matches Ok(value) && !(value is Null)
}

/// In how many of the first `count` rows an argument has a value that is no `NULL`.
pub open spec fn rows_counted(argument: ExprView, rows: Seq<Seq<ValueView>>, schema: SchemaView, floats: Floats, count: nat) -> nat
    decreases count,
{
    if count == 0 {
        0
    } else {
        rows_counted(argument, rows, schema, floats, (count - 1) as nat) + if counts_at(
            argument,
            rows,
            schema,
            floats,
            count - 1,
        ) {
            1nat
        } else {
            0nat
        }
    }
}

/// The keys of the values of an argument that are no `NULL`.
pub open spec fn argument_keys(argument: ExprView, rows: Seq<Seq<ValueView>>, schema: SchemaView, floats: Floats) -> Set<ValueView> {
    Set::new(
        |key: ValueView|
            exists|at: int|
                0 <= at < rows.len() && #[trigger] counts_at(argument, rows, schema, floats, at) && key_of(
                    argument_at(argument, rows, schema, floats, at)->Ok_0,
                ) == key,
    )
}

/// Whether values are those of an argument in the first `upto` rows at ascending positions: all that
/// are no `NULL`, or of equal ones the first where they have to be distinct.
pub open spec fn drawn(
    argument: ExprView,
    distinct: bool,
    rows: Seq<Seq<ValueView>>,
    schema: SchemaView,
    floats: Floats,
    upto: nat,
    values: Seq<ValueView>,
    positions: Seq<int>,
) -> bool {
    &&& positions.len() == values.len()
    &&& forall|i: int|
        0 <= i < positions.len() ==> 0 <= #[trigger] positions[i] < upto && argument_at(
            argument,
            rows,
            schema,
            floats,
            positions[i],
        ) == Ok::<ValueView, ErrorView>(values[i]) && !(values[i] is Null)
    &&& forall|i: int, j: int| 0 <= i < j < positions.len() ==> positions[i] < positions[j]
    &&& forall|at: int| 0 <= at < upto ==> (#[trigger] argument_at(argument, rows, schema, floats, at)) is Ok
    &&& !distinct ==> forall|at: int|
        0 <= at < upto && #[trigger] counts_at(argument, rows, schema, floats, at) ==> positions.contains(at)
    &&& distinct ==> forall|at: int|
        0 <= at < upto && #[trigger] counts_at(argument, rows, schema, floats, at) ==> keys_of(values).contains(
            key_of(argument_at(argument, rows, schema, floats, at)->Ok_0),
        )
    &&& distinct ==> forall|i: int, j: int|
        0 <= i < j < values.len() ==> key_of(#[trigger] values[i]) != key_of(#[trigger] values[j])
}

proof fn lemma_inputs(
    argument: ExprView,
    distinct: bool,
    rows: Seq<Seq<ValueView>>,
    schema: SchemaView,
    floats: Floats,
    from: nat,
    done: Seq<ValueView>,
    kept: Seq<int>,
) -> (positions: Seq<int>)
    requires
        from <= rows.len(),
        drawn(argument, distinct, rows, schema, floats, from, done, kept),
    ensures
        aggregate_inputs(argument, distinct, rows, schema, floats, from, done) matches Ok(values) ==> drawn(
            argument,
            distinct,
            rows,
            schema,
            floats,
            rows.len(),
            values,
            positions,
        ),
    decreases rows.len() - from,
{
    if from >= rows.len() {
        kept
    } else {
        match argument_at(argument, rows, schema, floats, from as int) {
            Err(_) => kept,
            Ok(value) => {
                let counts = counts_at(argument, rows, schema, floats, from as int);
                if value is Null || (distinct && keys_of(done).contains(key_of(value))) {
                    assert(drawn(argument, distinct, rows, schema, floats, from + 1, done, kept));
                    lemma_inputs(argument, distinct, rows, schema, floats, from + 1, done, kept)
                } else {
                    let longer = done.push(value);
                    let more = kept.push(from as int);
                    assert(keys_of(longer) =~= keys_of(done).push(key_of(value)));
                    assert forall|at: int|
                        !distinct && 0 <= at < from + 1 && #[trigger] counts_at(
                            argument,
                            rows,
                            schema,
                            floats,
                            at,
                        ) implies more.contains(at) by {
                        if at < from {
                            let i = choose|i: int| 0 <= i < kept.len() && kept[i] == at;
                            assert(more[i] == at);
                        } else {
                            assert(more[kept.len() as int] == at);
                        }
                    }
                    assert forall|at: int|
                        distinct && 0 <= at < from + 1 && #[trigger] counts_at(
                            argument,
                            rows,
                            schema,
                            floats,
                            at,
                        ) implies keys_of(longer).contains(key_of(argument_at(argument, rows, schema, floats, at)->Ok_0)) by {
                        let key = key_of(argument_at(argument, rows, schema, floats, at)->Ok_0);
                        if at < from {
                            let i = choose|i: int| 0 <= i < keys_of(done).len() && keys_of(done)[i] == key;
                            assert(keys_of(longer)[i] == key);
                        } else {
                            assert(keys_of(longer)[done.len() as int] == key);
                        }
                    }
                    assert forall|i: int, j: int| distinct && 0 <= i < j < longer.len() implies key_of(#[trigger] longer[i])
                        != key_of(#[trigger] longer[j]) by {
                        if j == done.len() {
                            assert(keys_of(done)[i] == key_of(done[i]));
                        }
                    }
                    lemma_inputs(argument, distinct, rows, schema, floats, from + 1, longer, more)
                }
            },
        }
    }
}

/// The sum of the integers among the first `count` values.
pub open spec fn integer_total(values: Seq<ValueView>, count: nat) -> int
    decreases count,
{
    if count == 0 {
        0
    } else {
        integer_total(values, (count - 1) as nat) + match values[count - 1] {
            ValueView::Integer(value) => value as int,
            _ => 0,
        }
    }
}

/// The numbers of the first `count` values added one after another to a first one.
pub open spec fn number_total(values: Seq<ValueView>, count: nat, first: u64, floats: Floats) -> u64
    decreases count,
{
    if count == 0 {
        first
    } else {
        let before = number_total(values, (count - 1) as nat, first, floats);
        match values[count - 1] {
            ValueView::Integer(value) => number(
                floats,
                FloatTaskView::Add(before, number(floats, FloatTaskView::FromInteger(value))),
            ),
            ValueView::Float(bits) => number(floats, FloatTaskView::Add(before, bits)),
            _ => before,
        }
    }
}

/// Whether every value is an integer.
pub open spec fn all_integers(values: Seq<ValueView>) -> bool {
    forall|i: int| 0 <= i < values.len() ==> (#[trigger] values[i]) is Integer
}

/// Whether every value is a floating-point number.
pub open spec fn all_floats(values: Seq<ValueView>) -> bool {
    forall|i: int| 0 <= i < values.len() ==> (#[trigger] values[i]) is Float && !not_a_number(values[i]->Float_0)
}

/// Whether every value is a text.
pub open spec fn all_texts(values: Seq<ValueView>) -> bool {
    forall|i: int| 0 <= i < values.len() ==> (#[trigger] values[i]) is Text
}

/// Whether every value is a truth value.
pub open spec fn all_booleans(values: Seq<ValueView>) -> bool {
    forall|i: int| 0 <= i < values.len() ==> (#[trigger] values[i]) is Boolean
}

/// Whether a result is the sum of values: exact of integers, and of floating-point numbers what is
/// had by adding them in their order.
pub open spec fn sums(values: Seq<ValueView>, result: ValueView, floats: Floats) -> bool {
    &&& values.len() == 0 ==> result is Null
    &&& values.len() > 0 && all_integers(values) ==> (result matches ValueView::Integer(total) && total == integer_total(
        values,
        values.len(),
    ))
    &&& values.len() > 0 && all_floats(values) ==> result == ValueView::Float(
        number_total(values, values.len(), number(floats, FloatTaskView::FromInteger(0)), floats),
    )
}

/// Whether a result is the average of values: their total, as numbers, divided by how many they are.
pub open spec fn averages(values: Seq<ValueView>, result: ValueView, floats: Floats) -> bool {
    &&& values.len() == 0 ==> result is Null
    &&& values.len() > 0 ==> result == ValueView::Float(
        number(
            floats,
            FloatTaskView::Divide(
                number_total(values, values.len(), 0, floats),
                number(floats, FloatTaskView::FromInteger(values.len() as i64)),
            ),
        ),
    )
}

/// Whether one value is smaller than another one of its type.
pub open spec fn smaller(first: ValueView, second: ValueView) -> bool {
    match (first, second) {
        (ValueView::Integer(a), ValueView::Integer(b)) => a < b,
        (ValueView::Float(a), ValueView::Float(b)) => number_key(a) < number_key(b),
        (ValueView::Text(a), ValueView::Text(b)) => text_rank(a, b) == Rank::Before,
        (ValueView::Boolean(a), ValueView::Boolean(b)) => !a && b,
        _ => false,
    }
}

/// Whether values are of one type that is ordered.
pub open spec fn of_one_kind(values: Seq<ValueView>) -> bool {
    all_integers(values) || all_floats(values) || all_texts(values) || all_booleans(values)
}

/// Whether a result is the least of values.
pub open spec fn is_least(values: Seq<ValueView>, result: ValueView) -> bool {
    &&& values.len() == 0 ==> result is Null
    &&& values.len() > 0 ==> values.contains(result)
    &&& of_one_kind(values) ==> forall|i: int| 0 <= i < values.len() ==> !smaller(#[trigger] values[i], result)
}

/// Whether a result is the greatest of values.
pub open spec fn is_greatest(values: Seq<ValueView>, result: ValueView) -> bool {
    &&& values.len() == 0 ==> result is Null
    &&& values.len() > 0 ==> values.contains(result)
    &&& of_one_kind(values) ==> forall|i: int| 0 <= i < values.len() ==> !smaller(result, #[trigger] values[i])
}

proof fn lemma_integer_sum(floats: Floats, values: Seq<ValueView>, from: nat, sum: i64)
    requires
        from <= values.len(),
        all_integers(values),
        sum == integer_total(values, from),
    ensures
        sum_from(floats, values, from, sum, 0, false) matches Ok(result) ==> (result matches ValueView::Integer(total)
            && total == integer_total(values, values.len())),
    decreases values.len() - from,
{
    if from < values.len() {
        if let ValueView::Integer(value) = values[from as int] {
            if let Some(next) = sum.checked_add(value) {
                lemma_integer_sum(floats, values, from + 1, next);
            }
        }
    }
}

proof fn lemma_float_sum(floats: Floats, values: Seq<ValueView>, from: nat, integers: i64, reals: u64)
    requires
        0 < from <= values.len(),
        all_floats(values),
        reals == number_total(values, from, number(floats, FloatTaskView::FromInteger(0)), floats),
    ensures
        sum_from(floats, values, from, integers, reals, true) matches Ok(result) ==> result == ValueView::Float(
            number_total(values, values.len(), number(floats, FloatTaskView::FromInteger(0)), floats),
        ),
    decreases values.len() - from,
{
    if from < values.len() {
        let bits = values[from as int]->Float_0;
        let next = number(floats, FloatTaskView::Add(reals, bits));
        assert(number_total(values, from + 1, number(floats, FloatTaskView::FromInteger(0)), floats) == next);
        lemma_float_sum(floats, values, from + 1, integers, next);
    }
}

proof fn lemma_summed(floats: Floats, values: Seq<ValueView>)
    ensures
        summed(floats, values) matches Ok(result) ==> sums(values, result, floats),
{
    if values.len() > 0 {
        if all_integers(values) {
            lemma_integer_sum(floats, values, 0, 0);
        }
        if all_floats(values) {
            let start = number(floats, FloatTaskView::FromInteger(0));
            let bits = values[0]->Float_0;
            let first = number(floats, FloatTaskView::Add(start, bits));
            assert(values[0] == ValueView::Float(bits));
            reveal_with_fuel(number_total, 2);
            assert(number_total(values, 1, start, floats) == first);
            lemma_float_sum(floats, values, 1, 0, first);
            assert(sum_from(floats, values, 0, 0, 0, false) == sum_from(floats, values, 1, 0, first, true));
        }
    }
}

proof fn lemma_total(floats: Floats, values: Seq<ValueView>, from: nat, sum: u64)
    requires
        from <= values.len(),
        sum == number_total(values, from, 0, floats),
    ensures
        total_from(floats, values, from, sum) matches Ok(total) ==> total == number_total(values, values.len(), 0, floats),
    decreases values.len() - from,
{
    if from < values.len() {
        if let Ok(Some(bits)) = values[from as int].as_number(floats) {
            let next = number(floats, FloatTaskView::Add(sum, bits));
            assert(number_total(values, from + 1, 0, floats) == next);
            lemma_total(floats, values, from + 1, next);
        }
    }
}

proof fn lemma_averaged(floats: Floats, values: Seq<ValueView>)
    ensures
        averaged(floats, values) matches Ok(result) ==> averages(values, result, floats),
{
    if values.len() > 0 {
        lemma_total(floats, values, 0, 0);
    }
}

/// What is smaller than nothing that is smaller is smaller itself.
proof fn lemma_smaller(values: Seq<ValueView>, a: int, b: int, c: int)
    requires
        of_one_kind(values),
        0 <= a < values.len(),
        0 <= b < values.len(),
        0 <= c < values.len(),
    ensures
        smaller(values[a], values[b]) && !smaller(values[c], values[b]) ==> smaller(values[a], values[c]),
        smaller(values[a], values[b]) && !smaller(values[a], values[c]) ==> smaller(values[c], values[b]),
        !smaller(values[a], values[a]),
{
    if all_floats(values) {
        assert(values[a] is Float && values[b] is Float && values[c] is Float);
    }
    if all_texts(values) {
        lemma_text_order(values[a]->Text_0, values[b]->Text_0, values[c]->Text_0);
        lemma_text_order(values[a]->Text_0, values[c]->Text_0, values[b]->Text_0);
        lemma_text_order(values[c]->Text_0, values[a]->Text_0, values[b]->Text_0);
        lemma_text_order(values[c]->Text_0, values[b]->Text_0, values[a]->Text_0);
        lemma_text_order(values[b]->Text_0, values[c]->Text_0, values[a]->Text_0);
        lemma_text_order(values[b]->Text_0, values[a]->Text_0, values[c]->Text_0);
    }
}

proof fn lemma_compared(floats: Floats, values: Seq<ValueView>, a: int, b: int)
    requires
        of_one_kind(values),
        0 <= a < values.len(),
        0 <= b < values.len(),
    ensures
        compared(floats, values[a], values[b], Comparison::Lt) == Ok::<ValueView, ErrorView>(
            ValueView::Boolean(smaller(values[a], values[b])),
        ),
        compared(floats, values[a], values[b], Comparison::Gt) == Ok::<ValueView, ErrorView>(
            ValueView::Boolean(smaller(values[b], values[a])),
        ),
{
    if all_floats(values) {
        assert(values[a] is Float && values[b] is Float);
    }
    if all_texts(values) {
        lemma_text_order(values[a]->Text_0, values[b]->Text_0, values[b]->Text_0);
        lemma_text_order(values[b]->Text_0, values[a]->Text_0, values[a]->Text_0);
    }
}

proof fn lemma_least(floats: Floats, values: Seq<ValueView>, from: nat, best: int)
    requires
        0 < values.len(),
        0 <= best < values.len(),
        of_one_kind(values) ==> forall|i: int|
            0 <= i < from || i == values.len() - 1 ==> 0 <= i < values.len() ==> !smaller(#[trigger] values[i], values[best]),
    ensures
        extreme_from(floats, values, Comparison::Lt, from, values[best]) matches Ok(result) ==> is_least(values, result),
    decreases values.len() - from,
{
    if from + 1 < values.len() {
        if let Ok(better) = compared(floats, values[from as int], values[best], Comparison::Lt) {
            let next = if better == ValueView::Boolean(true) {
                from as int
            } else {
                best
            };
            if of_one_kind(values) {
                lemma_compared(floats, values, from as int, best);
                assert forall|i: int|
                    0 <= i < from + 1 || i == values.len() - 1 implies 0 <= i < values.len() ==> !smaller(
                    #[trigger] values[i],
                    values[next],
                ) by {
                    if 0 <= i < values.len() {
                        lemma_smaller(values, i, next, best);
                        lemma_smaller(values, i, i, next);
                        if i < from || i == values.len() - 1 {
                            assert(!smaller(values[i], values[best]));
                        }
                        lemma_smaller(values, from as int, best, i);
                    }
                }
            }
            lemma_least(floats, values, from + 1, next);
        }
    }
}

proof fn lemma_greatest(floats: Floats, values: Seq<ValueView>, from: nat, best: int)
    requires
        0 < values.len(),
        0 <= best < values.len(),
        of_one_kind(values) ==> forall|i: int|
            0 <= i < from || i == values.len() - 1 ==> 0 <= i < values.len() ==> !smaller(values[best], #[trigger] values[i]),
    ensures
        extreme_from(floats, values, Comparison::Gt, from, values[best]) matches Ok(result) ==> is_greatest(values, result),
    decreases values.len() - from,
{
    if from + 1 < values.len() {
        if let Ok(better) = compared(floats, values[from as int], values[best], Comparison::Gt) {
            let next = if better == ValueView::Boolean(true) {
                from as int
            } else {
                best
            };
            if of_one_kind(values) {
                lemma_compared(floats, values, from as int, best);
                assert forall|i: int|
                    0 <= i < from + 1 || i == values.len() - 1 implies 0 <= i < values.len() ==> !smaller(
                    values[next],
                    #[trigger] values[i],
                ) by {
                    if 0 <= i < values.len() {
                        if i < from || i == values.len() - 1 {
                            assert(!smaller(values[best], values[i]));
                        }
                        lemma_smaller(values, best, from as int, i);
                        lemma_smaller(values, next, i, best);
                        lemma_smaller(values, i, i, i);
                    }
                }
            }
            lemma_greatest(floats, values, from + 1, next);
        }
    }
}

proof fn lemma_extreme(floats: Floats, values: Seq<ValueView>)
    ensures
        extreme(floats, values, Comparison::Lt) matches Ok(result) ==> is_least(values, result),
        extreme(floats, values, Comparison::Gt) matches Ok(result) ==> is_greatest(values, result),
{
    if values.len() > 0 {
        let last = values.len() - 1;
        if of_one_kind(values) {
            lemma_smaller(values, last, last, last);
        }
        lemma_least(floats, values, 0, last);
        lemma_greatest(floats, values, 0, last);
    }
}

proof fn lemma_aggregate_names()
    ensures
        aggregate_kind("count"@) is Some,
        aggregate_kind("sum"@) is Some,
        aggregate_kind("avg"@) is Some,
        aggregate_kind("min"@) is Some,
        aggregate_kind("max"@) is Some,
        aggregate_kind("count"@)->0 is Count,
        aggregate_kind("sum"@)->0 is Sum,
        aggregate_kind("avg"@)->0 is Average,
        aggregate_kind("min"@)->0 is Minimum,
        aggregate_kind("max"@)->0 is Maximum,
{
    reveal_strlit("count");
    reveal_strlit("sum");
    reveal_strlit("avg");
    reveal_strlit("min");
    reveal_strlit("max");
    assert("sum"@[0] != "avg"@[0] && "sum"@[0] != "min"@[0] && "sum"@[0] != "max"@[0]);
    assert("avg"@[0] != "min"@[0] && "avg"@[0] != "max"@[0] && "min"@[1] != "max"@[1]);
}

/// Whether the result of an aggregate is what its name says of the values drawn.
pub open spec fn told_by_name(name: Seq<char>, values: Seq<ValueView>, result: ValueView, floats: Floats) -> bool {
    &&& name == "count"@ ==> (result matches ValueView::Integer(count) && count == values.len())
    &&& name == "sum"@ ==> sums(values, result, floats)
    &&& name == "avg"@ ==> averages(values, result, floats)
    &&& name == "min"@ ==> is_least(values, result)
    &&& name == "max"@ ==> is_greatest(values, result)
}

/// Whether a result is that of an aggregate over values which were drawn from rows.
pub open spec fn aggregates(
    function: FunctionView,
    argument: ExprView,
    rows: Seq<Seq<ValueView>>,
    schema: SchemaView,
    floats: Floats,
    result: ValueView,
) -> bool {
    exists|values: Seq<ValueView>, positions: Seq<int>|
        #[trigger] drawn(argument, function.distinct, rows, schema, floats, rows.len(), values, positions) && told_by_name(
            last_name(function.name),
            values,
            result,
            floats,
        )
}

/// An aggregate of an expression looks at every row of the group, passes over `NULL`, and over
/// values that it has met where it is of distinct ones, and no others. `COUNT` is how many values
/// are left, `SUM` their sum, `AVG` the total divided by the number, and `MIN` and `MAX` those of them
/// that none is smaller or greater than.
pub proof fn law_aggregates_tell_of_their_rows(
    function: FunctionView,
    argument: ExprView,
    group_by: Seq<PhraseView>,
    group: GroupView,
    schema: SchemaView,
    floats: Floats,
)
    requires
        function.arguments == seq![ArgumentView::Expr(argument)],
        last_name(function.name) == "count"@ || last_name(function.name) == "sum"@ || last_name(function.name) == "avg"@
            || last_name(function.name) == "min"@ || last_name(function.name) == "max"@,
        phrase_position(group_by, ExprView::Function(function), 0) is None,
    ensures
        grouped_value(ExprView::Function(function), group_by, group, schema, floats) matches Ok(result) ==> aggregates(
            function,
            argument,
            group.rows,
            schema,
            floats,
            result,
        ),
{
    lemma_aggregate_names();
    let name = last_name(function.name);
    if let Ok(result) = grouped_value(ExprView::Function(function), group_by, group, schema, floats) {
        let spec = parsed_aggregate(function)->Ok_0;
        assert(function.arguments[0] == ArgumentView::Expr(argument));
        assert(spec.argument == Some(argument) && spec.distinct == function.distinct);
        assert(aggregated(spec, group.rows, schema, floats) == Ok::<ValueView, ErrorView>(result));
        let none = Seq::<ValueView>::empty();
        let positions = lemma_inputs(argument, function.distinct, group.rows, schema, floats, 0, none, Seq::empty());
        let values = aggregate_inputs(argument, function.distinct, group.rows, schema, floats, 0, none)->Ok_0;
        lemma_summed(floats, values);
        lemma_averaged(floats, values);
        lemma_extreme(floats, values);
        reveal_strlit("count");
        reveal_strlit("sum");
        reveal_strlit("avg");
        reveal_strlit("min");
        reveal_strlit("max");
        assert("sum"@[0] != "avg"@[0] && "sum"@[0] != "min"@[0] && "sum"@[0] != "max"@[0]);
        assert("avg"@[0] != "min"@[0] && "avg"@[0] != "max"@[0] && "min"@[1] != "max"@[1]);
        assert(told_by_name(name, values, result, floats));
        assert(drawn(argument, function.distinct, group.rows, schema, floats, group.rows.len(), values, positions));
    }
}

/// How many positions of a sequence are below `upto`.
spec fn below(positions: Seq<int>, upto: int) -> nat
    decreases positions.len(),
{
    if positions.len() == 0 {
        0
    } else {
        below(positions.drop_last(), upto) + if positions.last() < upto {
            1nat
        } else {
            0nat
        }
    }
}

proof fn lemma_below(positions: Seq<int>, at: int)
    requires
        forall|i: int, j: int| 0 <= i < j < positions.len() ==> positions[i] < positions[j],
    ensures
        below(positions, at + 1) == below(positions, at) + if positions.contains(at) {
            1nat
        } else {
            0nat
        },
    decreases positions.len(),
{
    if positions.len() > 0 {
        let shorter = positions.drop_last();
        lemma_below(shorter, at);
        if positions.last() == at {
            assert(positions[positions.len() - 1] == at);
            if shorter.contains(at) {
                let i = choose|i: int| 0 <= i < shorter.len() && shorter[i] == at;
                assert(positions[i] == at);
            }
        } else if positions.contains(at) {
            let i = choose|i: int| 0 <= i < positions.len() && positions[i] == at;
            assert(shorter[i] == at);
        } else if shorter.contains(at) {
            let i = choose|i: int| 0 <= i < shorter.len() && shorter[i] == at;
            assert(positions[i] == at);
        }
    }
}

proof fn lemma_all_below(positions: Seq<int>, upto: int)
    ensures
        (forall|i: int| 0 <= i < positions.len() ==> #[trigger] positions[i] < upto) ==> below(positions, upto) == positions.len(),
        (forall|i: int| 0 <= i < positions.len() ==> #[trigger] positions[i] >= upto) ==> below(positions, upto) == 0,
    decreases positions.len(),
{
    if positions.len() > 0 {
        let shorter = positions.drop_last();
        lemma_all_below(shorter, upto);
        assert(positions.last() == positions[positions.len() - 1]);
        assert forall|i: int| 0 <= i < shorter.len() implies #[trigger] shorter[i] == positions[i] by {}
    }
}

proof fn lemma_rows_counted(
    argument: ExprView,
    rows: Seq<Seq<ValueView>>,
    schema: SchemaView,
    floats: Floats,
    values: Seq<ValueView>,
    positions: Seq<int>,
    count: nat,
)
    requires
        drawn(argument, false, rows, schema, floats, rows.len(), values, positions),
        count <= rows.len(),
    ensures
        below(positions, count as int) == rows_counted(argument, rows, schema, floats, count),
    decreases count,
{
    if count == 0 {
        lemma_all_below(positions, 0);
    } else {
        lemma_rows_counted(argument, rows, schema, floats, values, positions, (count - 1) as nat);
        lemma_below(positions, count - 1);
        if positions.contains(count - 1) {
            let i = choose|i: int| 0 <= i < positions.len() && positions[i] == count - 1;
            assert(counts_at(argument, rows, schema, floats, positions[i]));
        }
    }
}

/// `COUNT(*)` is the number of rows, `COUNT(x)` the number of those in which `x` is no `NULL`, and
/// `COUNT(DISTINCT x)` the number of different values of `x`, which `NULL` is none of.
pub proof fn law_count(
    function: FunctionView,
    argument: ExprView,
    star: Seq<char>,
    group_by: Seq<PhraseView>,
    group: GroupView,
    schema: SchemaView,
    floats: Floats,
)
    requires
        last_name(function.name) == "count"@,
        phrase_position(group_by, ExprView::Function(function), 0) is None,
    ensures
        ({
            let result = grouped_value(ExprView::Function(function), group_by, group, schema, floats);
            &&& function.arguments == seq![ArgumentView::Wildcard(star)] && result is Ok ==> (result->Ok_0 matches ValueView::Integer(
                count,
            ) && count == group.rows.len())
            &&& function.arguments == seq![ArgumentView::Expr(argument)] && !function.distinct && result is Ok ==> (
            result->Ok_0 matches ValueView::Integer(count) && count == rows_counted(
                argument,
                group.rows,
                schema,
                floats,
                group.rows.len(),
            ))
            &&& function.arguments == seq![ArgumentView::Expr(argument)] && function.distinct && result is Ok ==> (
            result->Ok_0 matches ValueView::Integer(count) && argument_keys(argument, group.rows, schema, floats).finite()
                && count == argument_keys(argument, group.rows, schema, floats).len())
        }),
{
    lemma_aggregate_names();
    let result = grouped_value(ExprView::Function(function), group_by, group, schema, floats);
    if function.arguments == seq![ArgumentView::Wildcard(star)] {
        assert(function.arguments[0] == ArgumentView::Wildcard(star));
    }
    if function.arguments == seq![ArgumentView::Expr(argument)] && result is Ok {
        law_aggregates_tell_of_their_rows(function, argument, group_by, group, schema, floats);
        let rows = group.rows;
        let (values, positions) = choose|values: Seq<ValueView>, positions: Seq<int>|
            #[trigger] drawn(argument, function.distinct, rows, schema, floats, rows.len(), values, positions) && told_by_name(
                last_name(function.name),
                values,
                result->Ok_0,
                floats,
            );
        if !function.distinct {
            lemma_rows_counted(argument, rows, schema, floats, values, positions, rows.len());
            lemma_all_below(positions, rows.len() as int);
        } else {
            let keys = keys_of(values);
            assert(keys.no_duplicates()) by {
                assert forall|i: int, j: int| 0 <= i < keys.len() && 0 <= j < keys.len() && i != j implies keys[i] != keys[j] by {
                    assert(keys[i] == key_of(values[i]) && keys[j] == key_of(values[j]));
                    if i < j {
                        assert(key_of(values[i]) != key_of(values[j]));
                    } else {
                        assert(key_of(values[j]) != key_of(values[i]));
                    }
                }
            }
            keys.unique_seq_to_set();
            let all = argument_keys(argument, rows, schema, floats);
            assert forall|key: ValueView| all.contains(key) <==> keys.to_set().contains(key) by {
                if all.contains(key) {
                    let at = choose|at: int|
                        0 <= at < rows.len() && #[trigger] counts_at(argument, rows, schema, floats, at) && key_of(
                            argument_at(argument, rows, schema, floats, at)->Ok_0,
                        ) == key;
                    assert(keys.contains(key));
                }
                if keys.contains(key) {
                    let i = choose|i: int| 0 <= i < keys.len() && keys[i] == key;
                    assert(positions[i] < rows.len());
                    assert(counts_at(argument, rows, schema, floats, positions[i]));
                }
            }
            assert(all =~= keys.to_set());
        }
    }
}

} // verus!
