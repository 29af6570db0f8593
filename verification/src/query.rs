//! Running a query: grouped, by vector distance, or row by row.

use vstd::prelude::*;
use crate::aggregate::{
    evaluate_group_expression, groupable, grouped_value, picked_rows, rows_of_width, valid_positions, validate_group_expression,
    AggregateGroup, GroupContext, GroupView,
};
use crate::ast::{
    optional, same_expr, Distinct, Expr, ExprView, OrderItem, OrderView, Phrase, PhraseView, Select, SelectView,
};
use crate::candidate::{
    check_rows, checked_rows, deduplicate, deduplicated, keyed, rows_result, Candidate, CandidateView,
};
use crate::error::{outcome, plain, Error, ErrorView};
use crate::eval::{
    borrowed, evaluate, evaluated, is_selected, selects, EvalContext, Schema, SchemaView, ScopeView,
};
use crate::float::{computes, floats, FloatReply, FloatTask, Floats};
use crate::projection::{find_order_alias, labels, order_alias, OutputView, Projection, ProjectionView};
use crate::select::{candidate_result, candidates_result, check_phrases, phrases_known, Plan, QueryPlanView};
use crate::text::{lemma_views_push, views};
use crate::types::both;
use crate::value::{
    keys_of, lemma_row_views_push, row_keys, row_views, same_keys, Column, ColumnView, UniqueKey, Value, ValueView,
};

verus! {

broadcast use {vstd::string::group_string_axioms, lemma_views_push, lemma_row_views_push};

/// Whether an output can be computed for a group.
pub open spec fn output_groupable(output: OutputView, group_by: Seq<PhraseView>, schema: SchemaView) -> Result<(), ErrorView> {
    match output {
        OutputView::Expr(expression) => groupable(expression, group_by, schema),
        OutputView::At(_) => Ok(()),
    }
}

/// Whether the outputs from `from` on can be computed for a group.
pub open spec fn outputs_groupable(
    projection: Seq<ProjectionView>,
    group_by: Seq<PhraseView>,
    schema: SchemaView,
    from: nat,
) -> Result<(), ErrorView>
    decreases projection.len() - from,
{
    if from >= projection.len() {
        Ok(())
    } else {
        match output_groupable(projection[from as int].output, group_by, schema) {
            Err(error) => Err(error),
            Ok(_) => outputs_groupable(projection, group_by, schema, from + 1),
        }
    }
}

/// Whether groups can be ordered by the items from `from` on.
pub open spec fn orders_groupable(
    items: Seq<OrderView>,
    projection: Seq<ProjectionView>,
    group_by: Seq<PhraseView>,
    schema: SchemaView,
    from: nat,
) -> Result<(), ErrorView>
    decreases items.len() - from,
{
    if from >= items.len() {
        Ok(())
    } else if order_alias(items[from as int].expr, labels(projection)) is Some {
        orders_groupable(items, projection, group_by, schema, from + 1)
    } else {
        match groupable(items[from as int].expr, group_by, schema) {
            Err(error) => Err(error),
            Ok(_) => orders_groupable(items, projection, group_by, schema, from + 1),
        }
    }
}

pub open spec fn phrase_groupable(phrase: Option<PhraseView>, group_by: Seq<PhraseView>, schema: SchemaView) -> Result<
    (),
    ErrorView,
> {
    match phrase {
        Some(phrase) => groupable(phrase.expr, group_by, schema),
        None => Ok(()),
    }
}

/// Whether a grouped query can be computed for its groups.
pub open spec fn query_groupable(plan: QueryPlanView, having: Option<PhraseView>, items: Seq<OrderView>, schema: SchemaView) -> Result<
    (),
    ErrorView,
> {
    both(
        phrases_known(plan.group_by, schema, 0),
        both(
            outputs_groupable(plan.projection, plan.group_by, schema, 0),
            both(
                phrase_groupable(having, plan.group_by, schema),
                orders_groupable(items, plan.projection, plan.group_by, schema, 0),
            ),
        ),
    )
}

pub fn check_group_outputs(projection: &Vec<Projection<'_>>, group_by: &Vec<Phrase>, schema: &Schema<'_>) -> (result: Result<
    (),
    Error,
>)
    requires
        schema@.valid(),
    ensures
        plain(result) == outputs_groupable(views(projection@), views(group_by@), schema@, 0),
{
    let mut index: usize = 0;
    while index < projection.len()
        invariant
            schema@.valid(),
            index <= projection@.len(),
            outputs_groupable(views(projection@), views(group_by@), schema@, index as nat) == outputs_groupable(
                views(projection@),
                views(group_by@),
                schema@,
                0,
            ),
        decreases projection@.len() - index,
    {
        assert(views(projection@)[index as int] == projection@[index as int]@);
        if let Some(expression) = projection[index].output.expression() {
            validate_group_expression(expression, group_by, schema)?;
        }
        index = index + 1;
    }
    Ok(())
}

fn check_group_orders(
    items: &Vec<OrderItem>,
    projection: &Vec<Projection<'_>>,
    group_by: &Vec<Phrase>,
    schema: &Schema<'_>,
) -> (result: Result<(), Error>)
    requires
        schema@.valid(),
    ensures
        plain(result) == orders_groupable(views(items@), views(projection@), views(group_by@), schema@, 0),
{
    let mut index: usize = 0;
    while index < items.len()
        invariant
            schema@.valid(),
            index <= items@.len(),
            orders_groupable(views(items@), views(projection@), views(group_by@), schema@, index as nat)
                == orders_groupable(views(items@), views(projection@), views(group_by@), schema@, 0),
        decreases items@.len() - index,
    {
        assert(views(items@)[index as int] == items@[index as int]@);
        if find_order_alias(&items[index].expr, projection).is_none() {
            validate_group_expression(&items[index].expr, group_by, schema)?;
        }
        index = index + 1;
    }
    Ok(())
}

pub fn check_group_phrase(phrase: &Option<Phrase>, group_by: &Vec<Phrase>, schema: &Schema<'_>) -> (result: Result<(), Error>)
    requires
        schema@.valid(),
    ensures
        plain(result) == phrase_groupable(optional(*phrase), views(group_by@), schema@),
{
    match phrase {
        Some(phrase) => validate_group_expression(&phrase.expr, group_by, schema),
        None => Ok(()),
    }
}

/// The first group, from `from` on, whose values have these keys.
pub open spec fn group_position(groups: Seq<GroupView>, keys: Seq<ValueView>, from: nat) -> Option<nat>
    decreases groups.len() - from,
{
    if from >= groups.len() {
        None
    } else if keys_of(groups[from as int].values) == keys {
        Some(from)
    } else {
        group_position(groups, keys, from + 1)
    }
}

/// The values of the phrases from `from` on, after `done`.
pub open spec fn phrase_values(phrases: Seq<PhraseView>, scope: ScopeView, floats: Floats, from: nat, done: Seq<ValueView>) -> Result<
    Seq<ValueView>,
    ErrorView,
>
    decreases phrases.len() - from,
{
    if from >= phrases.len() {
        Ok(done)
    } else {
        match evaluated(phrases[from as int].expr, scope, floats) {
            Err(error) => Err(error),
            Ok(value) => phrase_values(phrases, scope, floats, from + 1, done.push(value)),
        }
    }
}

/// The groups with a row added to the one at `at`.
pub open spec fn row_added(groups: Seq<GroupView>, at: nat, row: Seq<ValueView>) -> Seq<GroupView> {
    let group = groups[at as int];
    groups.update(at as int, GroupView { values: group.values, rows: group.rows.push(row) })
}

/// The groups with one more row: in the group of its values, which is new where there is none. A
/// query without `GROUP BY` has one group.
pub open spec fn row_grouped(groups: Seq<GroupView>, values: Seq<ValueView>, row: Seq<ValueView>) -> Seq<GroupView> {
    match group_position(groups, keys_of(values), 0) {
        Some(at) => row_added(groups, at, row),
        None => groups.push(GroupView { values, rows: seq![row] }),
    }
}

/// The groups of the rows from `from` on, after `done`.
pub open spec fn row_groups(
    columns: Seq<ColumnView>,
    rows: Seq<Seq<ValueView>>,
    selection: Option<ExprView>,
    group_by: Seq<PhraseView>,
    floats: Floats,
    from: nat,
    done: Seq<GroupView>,
) -> Result<Seq<GroupView>, ErrorView>
    decreases rows.len() - from,
{
    if from >= rows.len() {
        Ok(done)
    } else {
        let row = rows[from as int];
        let scope = ScopeView::plain(columns, row);
        match selects(selection, scope, floats) {
            Err(error) => Err(error),
            Ok(false) => row_groups(columns, rows, selection, group_by, floats, from + 1, done),
            Ok(true) => if group_by.len() == 0 {
                row_groups(columns, rows, selection, group_by, floats, from + 1, row_added(done, 0, row))
            } else {
                match phrase_values(group_by, scope, floats, 0, Seq::empty()) {
                    Err(error) => Err(error),
                    Ok(values) => row_groups(
                        columns,
                        rows,
                        selection,
                        group_by,
                        floats,
                        from + 1,
                        row_grouped(done, values, row),
                    ),
                }
            },
        }
    }
}

/// The groups before any row is seen.
pub open spec fn first_groups(group_by: Seq<PhraseView>) -> Seq<GroupView> {
    if group_by.len() == 0 {
        seq![GroupView { values: Seq::empty(), rows: Seq::empty() }]
    } else {
        Seq::empty()
    }
}

pub open spec fn group_views(groups: Seq<AggregateGroup>, rows: Seq<Seq<ValueView>>) -> Seq<GroupView> {
    groups.map_values(|group: AggregateGroup| group.of(rows))
}

fn evaluate_phrases<F: Fn(FloatTask) -> FloatReply>(f: &F, phrases: &Vec<Phrase>, context: &EvalContext<'_>) -> (result: Result<
    Vec<Value>,
    Error,
>)
    requires
        computes(*f),
        context@.valid(),
    ensures
        match result {
            Ok(values) => phrase_values(views(phrases@), context@, floats(*f), 0, Seq::empty()) == Ok::<
                Seq<ValueView>,
                ErrorView,
            >(views(values@)) && values@.len() == phrases@.len(),
            Err(error) => phrase_values(views(phrases@), context@, floats(*f), 0, Seq::empty()) == Err::<
                Seq<ValueView>,
                ErrorView,
            >(error@),
        },
{
    let mut out: Vec<Value> = Vec::new();
    assert(views(out@) =~= Seq::<ValueView>::empty());
    let mut index: usize = 0;
    while index < phrases.len()
        invariant
            computes(*f),
            context@.valid(),
            index <= phrases@.len(),
            out@.len() == index,
            phrase_values(views(phrases@), context@, floats(*f), index as nat, views(out@)) == phrase_values(
                views(phrases@),
                context@,
                floats(*f),
                0,
                Seq::empty(),
            ),
        decreases phrases@.len() - index,
    {
        assert(views(phrases@)[index as int] == phrases@[index as int]@);
        let value = evaluate(f, &phrases[index].expr, context)?;
        out.push(value);
        index = index + 1;
    }
    Ok(out)
}

fn find_group(groups: &Vec<AggregateGroup>, keys: &Vec<UniqueKey>, Ghost(rows): Ghost<Seq<Seq<ValueView>>>) -> (result: Option<usize>)
    ensures
        match result {
            Some(at) => group_position(group_views(groups@, rows), views(keys@), 0) == Some(at as nat) && at < groups@.len(),
            None => group_position(group_views(groups@, rows), views(keys@), 0) is None,
        },
{
    let mut at: usize = 0;
    while at < groups.len()
        invariant
            at <= groups@.len(),
            group_position(group_views(groups@, rows), views(keys@), at as nat) == group_position(
                group_views(groups@, rows),
                views(keys@),
                0,
            ),
        decreases groups@.len() - at,
    {
        assert(group_views(groups@, rows)[at as int] == groups@[at as int].of(rows));
        let other = row_keys(&groups[at].values);
        if same_keys(&other, keys) {
            return Some(at);
        }
        at = at + 1;
    }
    None
}

/// Whether the groups hold positions of rows and one value for each phrase.
pub open spec fn valid_groups(groups: Seq<AggregateGroup>, count: nat, width: nat) -> bool {
    forall|i: int|
        0 <= i < groups.len() ==> valid_positions((#[trigger] groups[i]).rows@, count) && groups[i].values@.len() == width
}

fn add_row(groups: &mut Vec<AggregateGroup>, at: usize, position: usize, Ghost(rows): Ghost<Seq<Seq<ValueView>>>, Ghost(width): Ghost<nat>)
    requires
        at < old(groups)@.len(),
        position < rows.len(),
        valid_groups(old(groups)@, rows.len(), width),
    ensures
        group_views(final(groups)@, rows) == row_added(group_views(old(groups)@, rows), at as nat, rows[position as int]),
        valid_groups(final(groups)@, rows.len(), width),
{
    let ghost before = groups@;
    groups[at].rows.push(position);
    proof {
        let after = groups@;
        assert(after[at as int].rows@ == before[at as int].rows@.push(position));
        assert(picked_rows(rows, after[at as int].rows@) =~= picked_rows(rows, before[at as int].rows@).push(
            rows[position as int],
        ));
        assert(group_views(after, rows) =~= row_added(group_views(before, rows), at as nat, rows[position as int]));
        assert forall|i: int| 0 <= i < after.len() implies valid_positions((#[trigger] after[i]).rows@, rows.len())
            && after[i].values@.len() == width by {
            assert(valid_positions(before[i].rows@, rows.len()));
            if i != at {
                assert(after[i] == before[i]);
            }
        }
    }
}

fn new_group(groups: &mut Vec<AggregateGroup>, values: Vec<Value>, position: usize, Ghost(rows): Ghost<Seq<Seq<ValueView>>>)
    requires
        position < rows.len(),
        valid_groups(old(groups)@, rows.len(), values@.len()),
    ensures
        group_views(final(groups)@, rows) == group_views(old(groups)@, rows).push(
            GroupView { values: views(values@), rows: seq![rows[position as int]] },
        ),
        valid_groups(final(groups)@, rows.len(), values@.len()),
{
    let ghost before = groups@;
    let mut members: Vec<usize> = Vec::new();
    members.push(position);
    let group = AggregateGroup { values, rows: members };
    proof {
        assert(picked_rows(rows, group.rows@) =~= seq![rows[position as int]]);
    }
    groups.push(group);
    proof {
        assert(group_views(groups@, rows) =~= group_views(before, rows).push(
            GroupView { values: views(values@), rows: seq![rows[position as int]] },
        ));
    }
}

/// The groups of the picked rows.
pub fn group_rows<F: Fn(FloatTask) -> FloatReply>(
    f: &F,
    columns: &Vec<Column>,
    rows: &Vec<Vec<Value>>,
    picked: &Vec<usize>,
    selection: Option<&Expr>,
    group_by: &Vec<Phrase>,
) -> (result: Result<Vec<AggregateGroup>, Error>)
    requires
        computes(*f),
        rows_of_width(row_views(rows@), columns@.len()),
        valid_positions(picked@, rows@.len()),
    ensures
        match result {
            Ok(groups) => row_groups(
                views(columns@),
                picked_rows(row_views(rows@), picked@),
                borrowed(selection),
                views(group_by@),
                floats(*f),
                0,
                first_groups(views(group_by@)),
            ) == Ok::<Seq<GroupView>, ErrorView>(group_views(groups@, row_views(rows@))) && valid_groups(
                groups@,
                rows@.len(),
                group_by@.len(),
            ),
            Err(error) => row_groups(
                views(columns@),
                picked_rows(row_views(rows@), picked@),
                borrowed(selection),
                views(group_by@),
                floats(*f),
                0,
                first_groups(views(group_by@)),
            ) == Err::<Seq<GroupView>, ErrorView>(error@),
        },
{
    let ghost all = row_views(rows@);
    let ghost source = picked_rows(all, picked@);
    let ghost phrases = views(group_by@);
    let mut groups: Vec<AggregateGroup> = Vec::new();
    if group_by.len() == 0 {
        groups.push(AggregateGroup { values: Vec::new(), rows: Vec::new() });
    }
    proof {
        assert(group_views(groups@, all) =~= first_groups(phrases)) by {
            if group_by@.len() == 0 {
                let group = groups@[0];
                assert(views(group.values@) =~= Seq::<ValueView>::empty());
                assert(picked_rows(all, group.rows@) =~= Seq::<Seq<ValueView>>::empty());
            }
        }
    }
    let mut index: usize = 0;
    while index < picked.len()
        invariant
            computes(*f),
            rows_of_width(row_views(rows@), columns@.len()),
            valid_positions(picked@, rows@.len()),
            all == row_views(rows@),
            source == picked_rows(all, picked@),
            phrases == views(group_by@),
            index <= picked@.len(),
            valid_groups(groups@, rows@.len(), group_by@.len()),
            group_by@.len() == 0 ==> groups@.len() >= 1,
            row_groups(
                views(columns@),
                source,
                borrowed(selection),
                phrases,
                floats(*f),
                index as nat,
                group_views(groups@, all),
            ) == row_groups(views(columns@), source, borrowed(selection), phrases, floats(*f), 0, first_groups(phrases)),
        decreases picked@.len() - index,
    {
        let position: usize = picked[index];
        let row = &rows[position];
        proof {
            assert(source[index as int] == all[position as int]);
            assert(all[position as int] == views(row@));
            assert(all[position as int].len() == columns@.len());
        }
        let context = EvalContext::new(columns, row);
        if is_selected(f, selection, &context)? {
            if group_by.len() == 0 {
                add_row(&mut groups, 0, position, Ghost(all), Ghost(group_by@.len()));
            } else {
                let values = evaluate_phrases(f, group_by, &context)?;
                let keys = row_keys(&values);
                match find_group(&groups, &keys, Ghost(all)) {
                    Some(at) => add_row(&mut groups, at, position, Ghost(all), Ghost(group_by@.len())),
                    None => new_group(&mut groups, values, position, Ghost(all)),
                }
            }
        }
        index = index + 1;
    }
    Ok(groups)
}

/// The first output, from `from` on, that is this expression.
pub open spec fn output_position(projection: Seq<ProjectionView>, expression: ExprView, from: nat) -> Option<nat>
    decreases projection.len() - from,
{
    if from >= projection.len() {
        None
    } else if projection[from as int].output == OutputView::Expr(expression) {
        Some(from)
    } else {
        output_position(projection, expression, from + 1)
    }
}

fn find_output(projection: &Vec<Projection<'_>>, expression: &Expr) -> (result: Option<usize>)
    ensures
        match result {
            Some(index) => output_position(views(projection@), expression@, 0) == Some(index as nat) && index
                < projection@.len(),
            None => output_position(views(projection@), expression@, 0) is None,
        },
{
    let mut index: usize = 0;
    while index < projection.len()
        invariant
            index <= projection@.len(),
            output_position(views(projection@), expression@, index as nat) == output_position(
                views(projection@),
                expression@,
                0,
            ),
        decreases projection@.len() - index,
    {
        assert(views(projection@)[index as int] == projection@[index as int]@);
        if let Some(other) = projection[index].output.expression() {
            if same_expr(other, expression) {
                return Some(index);
            }
        }
        index = index + 1;
    }
    None
}

/// The value that a group is ordered by.
pub open spec fn group_order_value(
    expression: ExprView,
    plan: QueryPlanView,
    values: Seq<ValueView>,
    group: GroupView,
    schema: SchemaView,
    floats: Floats,
) -> Result<ValueView, ErrorView> {
    match order_alias(expression, labels(plan.projection)) {
        Some(index) => Ok(values[index as int]),
        None => match output_position(plan.projection, expression, 0) {
            Some(index) => Ok(values[index as int]),
            None => grouped_value(expression, plan.group_by, group, schema, floats),
        },
    }
}

/// The values that a group is ordered by under the items from `from` on, after `done`.
pub open spec fn group_order_values(
    items: Seq<OrderView>,
    plan: QueryPlanView,
    values: Seq<ValueView>,
    group: GroupView,
    schema: SchemaView,
    floats: Floats,
    from: nat,
    done: Seq<ValueView>,
) -> Result<Seq<ValueView>, ErrorView>
    decreases items.len() - from,
{
    if from >= items.len() {
        Ok(done)
    } else {
        match group_order_value(items[from as int].expr, plan, values, group, schema, floats) {
            Err(error) => Err(error),
            Ok(value) => group_order_values(items, plan, values, group, schema, floats, from + 1, done.push(value)),
        }
    }
}

/// The value of an output for a group.
pub open spec fn group_output(
    output: OutputView,
    group_by: Seq<PhraseView>,
    group: GroupView,
    schema: SchemaView,
    floats: Floats,
) -> Result<ValueView, ErrorView> {
    match output {
        OutputView::Expr(expression) => grouped_value(expression, group_by, group, schema, floats),
        OutputView::At(_) => Ok(ValueView::Null),
    }
}

/// The values of the outputs from `from` on for a group, after `done`.
pub open spec fn group_outputs(
    projection: Seq<ProjectionView>,
    group_by: Seq<PhraseView>,
    group: GroupView,
    schema: SchemaView,
    floats: Floats,
    from: nat,
    done: Seq<ValueView>,
) -> Result<Seq<ValueView>, ErrorView>
    decreases projection.len() - from,
{
    if from >= projection.len() {
        Ok(done)
    } else {
        match group_output(projection[from as int].output, group_by, group, schema, floats) {
            Err(error) => Err(error),
            Ok(value) => group_outputs(projection, group_by, group, schema, floats, from + 1, done.push(value)),
        }
    }
}

/// Whether `HAVING` keeps a group.
pub open spec fn group_kept(
    having: Option<PhraseView>,
    group_by: Seq<PhraseView>,
    group: GroupView,
    schema: SchemaView,
    floats: Floats,
) -> Result<bool, ErrorView> {
    match having {
        None => Ok(true),
        Some(phrase) => match grouped_value(phrase.expr, group_by, group, schema, floats) {
            Err(error) => Err(error),
            Ok(value) => match value.as_bool() {
                Err(error) => Err(error),
                Ok(truth) => Ok(truth == Some(true)),
            },
        },
    }
}

/// The candidate that a group makes; none where `HAVING` does not keep it.
pub open spec fn group_candidate(
    plan: QueryPlanView,
    having: Option<PhraseView>,
    items: Seq<OrderView>,
    group: GroupView,
    schema: SchemaView,
    floats: Floats,
) -> Result<Option<CandidateView>, ErrorView> {
    match group_kept(having, plan.group_by, group, schema, floats) {
        Err(error) => Err(error),
        Ok(false) => Ok(None),
        Ok(true) => match group_outputs(plan.projection, plan.group_by, group, schema, floats, 0, Seq::empty()) {
            Err(error) => Err(error),
            Ok(values) => match group_order_values(items, plan, values, group, schema, floats, 0, Seq::empty()) {
                Err(error) => Err(error),
                Ok(order) => Ok(Some(CandidateView { values, order })),
            },
        },
    }
}

/// The candidates that the groups from `from` on make, after `done`.
pub open spec fn group_candidates(
    plan: QueryPlanView,
    having: Option<PhraseView>,
    items: Seq<OrderView>,
    groups: Seq<GroupView>,
    schema: SchemaView,
    floats: Floats,
    from: nat,
    done: Seq<CandidateView>,
) -> Result<Seq<CandidateView>, ErrorView>
    decreases groups.len() - from,
{
    if from >= groups.len() {
        Ok(done)
    } else {
        match group_candidate(plan, having, items, groups[from as int], schema, floats) {
            Err(error) => Err(error),
            Ok(None) => group_candidates(plan, having, items, groups, schema, floats, from + 1, done),
            Ok(Some(candidate)) => group_candidates(
                plan,
                having,
                items,
                groups,
                schema,
                floats,
                from + 1,
                done.push(candidate),
            ),
        }
    }
}

/// The rows of a grouped query.
pub open spec fn grouped_rows(
    plan: QueryPlanView,
    select: SelectView,
    items: Seq<OrderView>,
    columns: Seq<ColumnView>,
    source: Seq<Seq<ValueView>>,
    selection: Option<ExprView>,
    floats: Floats,
) -> Result<Seq<Seq<ValueView>>, ErrorView> {
    let schema = SchemaView::plain(columns);
    match query_groupable(plan, select.having, items, schema) {
        Err(error) => Err(error),
        Ok(_) => match row_groups(columns, source, selection, plan.group_by, floats, 0, first_groups(plan.group_by)) {
            Err(error) => Err(error),
            Ok(groups) => match group_candidates(plan, select.having, items, groups, schema, floats, 0, Seq::empty()) {
                Err(error) => Err(error),
                Ok(candidates) => checked_rows(
                    deduplicated(candidates, select.distinct != Distinct::No),
                    items,
                    plan.offset,
                    plan.limit,
                    floats,
                ),
            },
        },
    }
}

fn evaluate_group_outputs<F: Fn(FloatTask) -> FloatReply>(
    f: &F,
    projection: &Vec<Projection<'_>>,
    context: &GroupContext<'_>,
) -> (result: Result<Vec<Value>, Error>)
    requires
        computes(*f),
        context.valid(),
    ensures
        match result {
            Ok(values) => group_outputs(
                views(projection@),
                views(context.group_by@),
                context.group_view(),
                context.schema(),
                floats(*f),
                0,
                Seq::empty(),
            ) == Ok::<Seq<ValueView>, ErrorView>(views(values@)) && values@.len() == projection@.len(),
            Err(error) => group_outputs(
                views(projection@),
                views(context.group_by@),
                context.group_view(),
                context.schema(),
                floats(*f),
                0,
                Seq::empty(),
            ) == Err::<Seq<ValueView>, ErrorView>(error@),
        },
{
    let mut out: Vec<Value> = Vec::new();
    assert(views(out@) =~= Seq::<ValueView>::empty());
    let mut index: usize = 0;
    while index < projection.len()
        invariant
            computes(*f),
            context.valid(),
            index <= projection@.len(),
            out@.len() == index,
            group_outputs(
                views(projection@),
                views(context.group_by@),
                context.group_view(),
                context.schema(),
                floats(*f),
                index as nat,
                views(out@),
            ) == group_outputs(
                views(projection@),
                views(context.group_by@),
                context.group_view(),
                context.schema(),
                floats(*f),
                0,
                Seq::empty(),
            ),
        decreases projection@.len() - index,
    {
        assert(views(projection@)[index as int] == projection@[index as int]@);
        let value = match projection[index].output.expression() {
            Some(expression) => evaluate_group_expression(f, expression, context)?,
            None => Value::Null,
        };
        out.push(value);
        index = index + 1;
    }
    Ok(out)
}

fn aggregate_order_value<F: Fn(FloatTask) -> FloatReply>(
    f: &F,
    expression: &Expr,
    plan: &Plan<'_>,
    values: &Vec<Value>,
    context: &GroupContext<'_>,
) -> (result: Result<Value, Error>)
    requires
        computes(*f),
        context.valid(),
        context.group_by == plan.group_by,
        values@.len() == plan.projection@.len(),
    ensures
        outcome(result) == group_order_value(
            expression@,
            plan@,
            views(values@),
            context.group_view(),
            context.schema(),
            floats(*f),
        ),
{
    if let Some(index) = find_order_alias(expression, &plan.projection) {
        assert(views(values@)[index as int] == values@[index as int]@);
        return Ok(values[index].clone());
    }
    if let Some(index) = find_output(&plan.projection, expression) {
        assert(views(values@)[index as int] == values@[index as int]@);
        return Ok(values[index].clone());
    }
    evaluate_group_expression(f, expression, context)
}

fn evaluate_group_orders<F: Fn(FloatTask) -> FloatReply>(
    f: &F,
    items: &Vec<OrderItem>,
    plan: &Plan<'_>,
    values: &Vec<Value>,
    context: &GroupContext<'_>,
) -> (result: Result<Vec<Value>, Error>)
    requires
        computes(*f),
        context.valid(),
        context.group_by == plan.group_by,
        values@.len() == plan.projection@.len(),
    ensures
        match result {
            Ok(order) => group_order_values(
                views(items@),
                plan@,
                views(values@),
                context.group_view(),
                context.schema(),
                floats(*f),
                0,
                Seq::empty(),
            ) == Ok::<Seq<ValueView>, ErrorView>(views(order@)) && order@.len() == items@.len(),
            Err(error) => group_order_values(
                views(items@),
                plan@,
                views(values@),
                context.group_view(),
                context.schema(),
                floats(*f),
                0,
                Seq::empty(),
            ) == Err::<Seq<ValueView>, ErrorView>(error@),
        },
{
    let mut out: Vec<Value> = Vec::new();
    assert(views(out@) =~= Seq::<ValueView>::empty());
    let mut index: usize = 0;
    while index < items.len()
        invariant
            computes(*f),
            context.valid(),
            context.group_by == plan.group_by,
            values@.len() == plan.projection@.len(),
            index <= items@.len(),
            out@.len() == index,
            group_order_values(
                views(items@),
                plan@,
                views(values@),
                context.group_view(),
                context.schema(),
                floats(*f),
                index as nat,
                views(out@),
            ) == group_order_values(
                views(items@),
                plan@,
                views(values@),
                context.group_view(),
                context.schema(),
                floats(*f),
                0,
                Seq::empty(),
            ),
        decreases items@.len() - index,
    {
        assert(views(items@)[index as int] == items@[index as int]@);
        let value = aggregate_order_value(f, &items[index].expr, plan, values, context)?;
        out.push(value);
        index = index + 1;
    }
    Ok(out)
}

fn keep_group<F: Fn(FloatTask) -> FloatReply>(f: &F, having: &Option<Phrase>, context: &GroupContext<'_>) -> (result: Result<
    bool,
    Error,
>)
    requires
        computes(*f),
        context.valid(),
    ensures
        plain(result) == group_kept(
            optional(*having),
            views(context.group_by@),
            context.group_view(),
            context.schema(),
            floats(*f),
        ),
{
    match having {
        None => Ok(true),
        Some(phrase) => {
            let value = evaluate_group_expression(f, &phrase.expr, context)?;
            match value.as_bool()? {
                Some(truth) => Ok(truth),
                None => Ok(false),
            }
        },
    }
}

fn make_group_candidate<F: Fn(FloatTask) -> FloatReply>(
    f: &F,
    plan: &Plan<'_>,
    having: &Option<Phrase>,
    items: &Vec<OrderItem>,
    context: &GroupContext<'_>,
) -> (result: Result<Option<Candidate>, Error>)
    requires
        computes(*f),
        context.valid(),
        context.group_by == plan.group_by,
    ensures
        candidate_result(result) == group_candidate(
            plan@,
            optional(*having),
            views(items@),
            context.group_view(),
            context.schema(),
            floats(*f),
        ),
        result matches Ok(Some(candidate)) ==> candidate.order@.len() == items@.len(),
{
    if !keep_group(f, having, context)? {
        return Ok(None);
    }
    let values = evaluate_group_outputs(f, &plan.projection, context)?;
    let order = evaluate_group_orders(f, items, plan, &values, context)?;
    Ok(Some(Candidate { values, order }))
}

fn make_group_candidates<F: Fn(FloatTask) -> FloatReply>(
    f: &F,
    plan: &Plan<'_>,
    having: &Option<Phrase>,
    items: &Vec<OrderItem>,
    groups: &Vec<AggregateGroup>,
    rows: &Vec<Vec<Value>>,
    columns: &Vec<Column>,
) -> (result: Result<Vec<Candidate>, Error>)
    requires
        computes(*f),
        rows_of_width(row_views(rows@), columns@.len()),
        valid_groups(groups@, rows@.len(), plan.group_by@.len()),
    ensures
        candidates_result(result) == group_candidates(
            plan@,
            optional(*having),
            views(items@),
            group_views(groups@, row_views(rows@)),
            SchemaView::plain(views(columns@)),
            floats(*f),
            0,
            Seq::empty(),
        ),
        result matches Ok(candidates) ==> keyed(views(candidates@), items@.len()),
{
    let ghost all = group_views(groups@, row_views(rows@));
    let ghost schema = SchemaView::plain(views(columns@));
    let mut out: Vec<Candidate> = Vec::new();
    assert(views(out@) =~= Seq::<CandidateView>::empty());
    let mut index: usize = 0;
    while index < groups.len()
        invariant
            computes(*f),
            rows_of_width(row_views(rows@), columns@.len()),
            valid_groups(groups@, rows@.len(), plan.group_by@.len()),
            all == group_views(groups@, row_views(rows@)),
            schema == SchemaView::plain(views(columns@)),
            index <= groups@.len(),
            keyed(views(out@), items@.len()),
            group_candidates(plan@, optional(*having), views(items@), all, schema, floats(*f), index as nat, views(out@))
                == group_candidates(plan@, optional(*having), views(items@), all, schema, floats(*f), 0, Seq::empty()),
        decreases groups@.len() - index,
    {
        let ghost before = views(out@);
        assert(all[index as int] == groups@[index as int].of(row_views(rows@)));
        assert(valid_positions(groups@[index as int].rows@, rows@.len()));
        let context = GroupContext { group_by: plan.group_by, group: &groups[index], rows, columns };
        if let Some(candidate) = make_group_candidate(f, plan, having, items, &context)? {
            out.push(candidate);
            assert forall|i: int| 0 <= i < views(out@).len() implies (#[trigger] views(out@)[i]).order.len() == items@.len() by {
                if i < before.len() {
                    assert(views(out@)[i] == before[i]);
                }
            }
        }
        index = index + 1;
    }
    Ok(out)
}

/// The rows of a grouped query.
pub fn run_aggregate_query<F: Fn(FloatTask) -> FloatReply>(
    f: &F,
    plan: &Plan<'_>,
    select: &Select,
    items: &Vec<OrderItem>,
    columns: &Vec<Column>,
    rows: &Vec<Vec<Value>>,
    picked: &Vec<usize>,
    selection: Option<&Expr>,
) -> (result: Result<Vec<Vec<Value>>, Error>)
    requires
        computes(*f),
        rows_of_width(row_views(rows@), columns@.len()),
        valid_positions(picked@, rows@.len()),
    ensures
        rows_result(result) == grouped_rows(
            plan@,
            select@,
            views(items@),
            views(columns@),
            picked_rows(row_views(rows@), picked@),
            borrowed(selection),
            floats(*f),
        ),
{
    let schema = Schema { columns, sources: None };
    check_phrases(plan.group_by, &schema)?;
    check_group_outputs(&plan.projection, plan.group_by, &schema)?;
    check_group_phrase(&select.having, plan.group_by, &schema)?;
    check_group_orders(items, &plan.projection, plan.group_by, &schema)?;
    let groups = group_rows(f, columns, rows, picked, selection, plan.group_by)?;
    let candidates = make_group_candidates(f, plan, &select.having, items, &groups, rows, columns)?;
    let distinct = match select.distinct {
        Distinct::No => false,
        _ => true,
    };
    let candidates = deduplicate(candidates, distinct);
    check_rows(f, &candidates, items, plan.offset, plan.limit)
}

} // verus!
