//! Which rows a query gives, with what values, and in what order.

use vstd::prelude::*;
use crate::aggregate::{grouped_value, GroupView};
use crate::ast::{Distinct, ExprView, OrderView, PhraseView, SelectItemView, SelectView};
use crate::candidate::{deduplicated, item_rank, order_rank, ordered, CandidateView};
use crate::error::ErrorView;
use crate::eval::{evaluated, SchemaView, ScopeView};
use crate::float::{not_a_number, number_key, Floats};
use crate::projection::{every_column, output_value, projected, OutputView, ProjectionView};
use crate::query::{
    first_groups, group_candidate, group_candidates, group_output, group_outputs, grouped_rows, row_groups,
};
use crate::read::{plain_rows, SourceView};
use crate::select::{
    limit_value, offset_value, order_aliases, order_value, order_values, output_values, row_candidate, row_candidates, QueryPlanView,
};
use crate::text::{text_rank, Rank};
use crate::value::{ColumnView, ValueView};

verus! {

/// Whether a condition is met by a row: it is true there. One that is not known is not met.
pub open spec fn met(condition: Option<ExprView>, columns: Seq<ColumnView>, row: Seq<ValueView>, floats: Floats) -> bool {
    condition matches Some(expression) ==> evaluated(expression, ScopeView::plain(columns, row), floats) == Ok::<
        ValueView,
        ErrorView,
    >(ValueView::Boolean(true))
}

/// Whether positions are those of the rows that meet a condition, in their order.
pub open spec fn selected_positions(
    picked: Seq<int>,
    columns: Seq<ColumnView>,
    rows: Seq<Seq<ValueView>>,
    condition: Option<ExprView>,
    floats: Floats,
) -> bool {
    &&& forall|i: int| 0 <= i < picked.len() ==> 0 <= #[trigger] picked[i] < rows.len() && met(condition, columns, rows[picked[i]], floats)
    &&& forall|i: int, j: int| 0 <= i < j < picked.len() ==> #[trigger] picked[i] < #[trigger] picked[j]
    &&& forall|at: int| 0 <= at < rows.len() && #[trigger] met(condition, columns, rows[at], floats) ==> picked.contains(at)
}

/// Whether a candidate holds the outputs and the keys of a row.
pub open spec fn outputs_of(
    candidate: CandidateView,
    projection: Seq<ProjectionView>,
    items: Seq<OrderView>,
    scope: ScopeView,
    floats: Floats,
) -> bool {
    &&& candidate.values.len() == projection.len()
    &&& forall|c: int|
        0 <= c < projection.len() ==> output_value((#[trigger] projection[c]).output, scope, floats) == Ok::<ValueView, ErrorView>(
            candidate.values[c],
        )
    &&& candidate.order.len() == items.len()
    &&& forall|k: int|
        0 <= k < items.len() ==> match order_aliases(items, projection)[k] {
            Some(at) => candidate.order[k] == candidate.values[at as int],
            None => evaluated((#[trigger] items[k]).expr, scope, floats) == Ok::<ValueView, ErrorView>(candidate.order[k]),
        }
}

proof fn lemma_output_values(projection: Seq<ProjectionView>, scope: ScopeView, floats: Floats, from: nat, done: Seq<ValueView>)
    requires
        from <= projection.len(),
        done.len() == from,
        forall|c: int|
            0 <= c < from ==> output_value((#[trigger] projection[c]).output, scope, floats) == Ok::<ValueView, ErrorView>(done[c]),
    ensures
        output_values(projection, scope, floats, from, done) matches Ok(values) ==> values.len() == projection.len() && forall|c: int|
            0 <= c < projection.len() ==> output_value((#[trigger] projection[c]).output, scope, floats) == Ok::<
                ValueView,
                ErrorView,
            >(values[c]),
    decreases projection.len() - from,
{
    if from < projection.len() {
        if let Ok(value) = output_value(projection[from as int].output, scope, floats) {
            lemma_output_values(projection, scope, floats, from + 1, done.push(value));
        }
    }
}

proof fn lemma_order_values(
    items: Seq<OrderView>,
    aliases: Seq<Option<nat>>,
    values: Seq<ValueView>,
    scope: ScopeView,
    floats: Floats,
    from: nat,
    done: Seq<ValueView>,
)
    requires
        from <= items.len(),
        done.len() == from,
        forall|k: int|
            0 <= k < from ==> order_value(#[trigger] items[k], aliases[k], values, scope, floats) == Ok::<ValueView, ErrorView>(done[k]),
    ensures
        order_values(items, aliases, values, scope, floats, from, done) matches Ok(keys) ==> keys.len() == items.len() && forall|k: int|
            0 <= k < items.len() ==> order_value(#[trigger] items[k], aliases[k], values, scope, floats) == Ok::<
                ValueView,
                ErrorView,
            >(keys[k]),
    decreases items.len() - from,
{
    if from < items.len() {
        if let Ok(value) = order_value(items[from as int], aliases[from as int], values, scope, floats) {
            lemma_order_values(items, aliases, values, scope, floats, from + 1, done.push(value));
        }
    }
}

proof fn lemma_row_candidate(
    condition: Option<ExprView>,
    projection: Seq<ProjectionView>,
    items: Seq<OrderView>,
    columns: Seq<ColumnView>,
    row: Seq<ValueView>,
    floats: Floats,
)
    ensures
        row_candidate(condition, projection, items, order_aliases(items, projection), ScopeView::plain(columns, row), floats) matches Ok(
            made,
        ) ==> (made is Some <==> met(condition, columns, row, floats)) && (made matches Some(candidate) ==> outputs_of(
            candidate,
            projection,
            items,
            ScopeView::plain(columns, row),
            floats,
        )),
{
    let scope = ScopeView::plain(columns, row);
    let aliases = order_aliases(items, projection);
    lemma_output_values(projection, scope, floats, 0, Seq::empty());
    if let Ok(values) = output_values(projection, scope, floats, 0, Seq::empty()) {
        lemma_order_values(items, aliases, values, scope, floats, 0, Seq::empty());
        if let Ok(order) = order_values(items, aliases, values, scope, floats, 0, Seq::empty()) {
            let candidate = CandidateView { values, order };
            assert forall|k: int| 0 <= k < items.len() implies match aliases[k] {
                Some(at) => candidate.order[k] == candidate.values[at as int],
                None => evaluated((#[trigger] items[k]).expr, scope, floats) == Ok::<ValueView, ErrorView>(candidate.order[k]),
            } by {
                assert(order_value(items[k], aliases[k], values, scope, floats) == Ok::<ValueView, ErrorView>(order[k]));
            }
            assert(outputs_of(candidate, projection, items, scope, floats));
        }
    }
}

/// Whether candidates are made from the rows at some positions.
pub open spec fn made_from(
    candidates: Seq<CandidateView>,
    picked: Seq<int>,
    columns: Seq<ColumnView>,
    rows: Seq<Seq<ValueView>>,
    projection: Seq<ProjectionView>,
    items: Seq<OrderView>,
    floats: Floats,
) -> bool {
    &&& candidates.len() == picked.len()
    &&& forall|i: int|
        0 <= i < picked.len() ==> outputs_of(
            candidates[i],
            projection,
            items,
            ScopeView::plain(columns, rows[#[trigger] picked[i]]),
            floats,
        )
}

proof fn lemma_row_candidates(
    columns: Seq<ColumnView>,
    rows: Seq<Seq<ValueView>>,
    condition: Option<ExprView>,
    projection: Seq<ProjectionView>,
    items: Seq<OrderView>,
    floats: Floats,
    from: nat,
    done: Seq<CandidateView>,
    before: Seq<int>,
) -> (picked: Seq<int>)
    requires
        from <= rows.len(),
        made_from(done, before, columns, rows, projection, items, floats),
        selected_positions(before, columns, rows.take(from as int), condition, floats),
    ensures
        row_candidates(columns, rows, condition, projection, items, floats, from, done) matches Ok(all) ==> made_from(
            all,
            picked,
            columns,
            rows,
            projection,
            items,
            floats,
        ) && selected_positions(picked, columns, rows, condition, floats),
    decreases rows.len() - from,
{
    if from < rows.len() {
        let row = rows[from as int];
        let first = rows.take(from as int);
        let more = rows.take(from as int + 1);
        lemma_row_candidate(condition, projection, items, columns, row, floats);
        assert(more[from as int] == row);
        assert forall|i: int| 0 <= i < from implies #[trigger] first[i] == more[i] by {
        }
        match row_candidate(condition, projection, items, order_aliases(items, projection), ScopeView::plain(columns, row), floats) {
            Ok(Some(candidate)) => {
                let next = before.push(from as int);
                assert forall|i: int| 0 <= i < next.len() implies outputs_of(
                    done.push(candidate)[i],
                    projection,
                    items,
                    ScopeView::plain(columns, rows[#[trigger] next[i]]),
                    floats,
                ) by {
                    if i < before.len() {
                        assert(next[i] == before[i]);
                    }
                }
                assert forall|i: int| 0 <= i < next.len() implies 0 <= #[trigger] next[i] < more.len() && met(
                    condition,
                    columns,
                    more[next[i]],
                    floats,
                ) by {
                    if i < before.len() {
                        assert(next[i] == before[i]);
                        assert(first[before[i]] == more[before[i]]);
                    }
                }
                assert forall|i: int, j: int| 0 <= i < j < next.len() implies #[trigger] next[i] < #[trigger] next[j] by {
                    assert(next[i] == before[i]);
                    if j < before.len() {
                        assert(next[j] == before[j]);
                    }
                }
                assert forall|at: int| 0 <= at < more.len() && #[trigger] met(condition, columns, more[at], floats) implies next.contains(
                    at,
                ) by {
                    if at < from {
                        assert(met(condition, columns, first[at], floats));
                        let i = choose|i: int| 0 <= i < before.len() && before[i] == at;
                        assert(next[i] == at);
                    } else {
                        assert(next[before.len() as int] == at);
                    }
                }
                lemma_row_candidates(columns, rows, condition, projection, items, floats, from + 1, done.push(candidate), next)
            },
            Ok(None) => {
                assert forall|i: int| 0 <= i < before.len() implies 0 <= #[trigger] before[i] < more.len() && met(
                    condition,
                    columns,
                    more[before[i]],
                    floats,
                ) by {
                    assert(first[before[i]] == more[before[i]]);
                }
                assert forall|at: int| 0 <= at < more.len() && #[trigger] met(condition, columns, more[at], floats) implies before.contains(
                    at,
                ) by {
                    if at < from {
                        assert(met(condition, columns, first[at], floats));
                    }
                }
                lemma_row_candidates(columns, rows, condition, projection, items, floats, from + 1, done, before)
            },
            Err(_) => before,
        }
    } else {
        assert(rows.take(from as int) =~= rows);
        before
    }
}

/// Whether rows are those of a list from an offset on, at most so many.
pub open spec fn taken(rows: Seq<Seq<ValueView>>, all: Seq<CandidateView>, offset: nat, limit: Option<nat>) -> bool {
    &&& forall|i: int| 0 <= i < rows.len() ==> offset + i < all.len() && #[trigger] rows[i] == all[offset + i].values
    &&& limit matches Some(most) ==> rows.len() <= most
    &&& all.len() <= offset ==> rows.len() == 0
    &&& all.len() > offset && limit is None ==> rows.len() == all.len() - offset
    &&& all.len() > offset ==> (limit matches Some(most) ==> rows.len() == most || rows.len() == all.len() - offset)
}

/// A query that does not group its rows gives those that meet its condition, with the values of its
/// outputs: in the order of the table, or as `ORDER BY` says; without what comes before the offset,
/// and no more than the limit.
pub proof fn law_rows_of_query(plan: QueryPlanView, select: SelectView, items: Seq<OrderView>, read: SourceView, floats: Floats)
    ensures
        plain_rows(plan, select, items, read, floats) matches Ok(rows) ==> exists|candidates: Seq<CandidateView>, picked: Seq<int>|
            selected_positions(picked, read.columns, read.rows, read.residual, floats) && #[trigger] made_from(
                candidates,
                picked,
                read.columns,
                read.rows,
                plan.projection,
                items,
                floats,
            ) && taken(
                rows,
                arranged(candidates, select.distinct != Distinct::No, items, floats),
                plan.offset,
                plan.limit,
            ),
{
    if let Ok(rows) = plain_rows(plan, select, items, read, floats) {
        assert(read.rows.take(0) =~= Seq::<Seq<ValueView>>::empty());
        let picked = lemma_row_candidates(
            read.columns,
            read.rows,
            read.residual,
            plan.projection,
            items,
            floats,
            0,
            Seq::empty(),
            Seq::empty(),
        );
        let candidates = row_candidates(read.columns, read.rows, read.residual, plan.projection, items, floats, 0, Seq::empty())->Ok_0;
        assert(made_from(candidates, picked, read.columns, read.rows, plan.projection, items, floats));
    }
}

/// Candidates without those whose values come again, where that is asked for, in the order of
/// `ORDER BY`, where there is one.
pub open spec fn arranged(candidates: Seq<CandidateView>, distinct: bool, items: Seq<OrderView>, floats: Floats) -> Seq<CandidateView> {
    let unique = if distinct {
        deduplicated(candidates, true)
    } else {
        candidates
    };
    if items.len() == 0 {
        unique
    } else {
        ordered(unique, items, floats)
    }
}

/// A count after `LIMIT` or `OFFSET` is the integer that is written there. Without one, every row is
/// asked for from the first on.
pub proof fn law_limit_and_offset(query: crate::ast::QueryView, floats: Floats)
    ensures
        query.offset is None ==> offset_value(query, floats) == Ok::<nat, ErrorView>(0),
        query.limit is None ==> limit_value(query, floats) == Ok::<Option<nat>, ErrorView>(None),
        query.offset matches Some(written) ==> (offset_value(query, floats) matches Ok(count) ==> evaluated(
            written,
            ScopeView::none(),
            floats,
        ) == Ok::<ValueView, ErrorView>(ValueView::Integer(count as i64)) && count <= i64::MAX),
        query.limit matches Some(written) ==> (limit_value(query, floats) matches Ok(count) ==> (count matches Some(count) && evaluated(
            written,
            ScopeView::none(),
            floats,
        ) == Ok::<ValueView, ErrorView>(ValueView::Integer(count as i64)) && count <= i64::MAX)),
{
}

/// One item of `ORDER BY` puts smaller values first, or larger ones where it is descending. `NULL`
/// comes last, or first where it is descending, unless it says where.
pub proof fn law_order_of_values(item: OrderView, left: ValueView, right: ValueView, floats: Floats)
    ensures
        ({
            let descending = item.ascending == Some(false);
            let nulls_first = item.nulls_first == Some(true) || (item.nulls_first is None && descending);
            let rank = item_rank(item, left, right, floats);
            &&& left is Null && right is Null ==> rank == Rank::Same
            &&& left is Null && !(right is Null) ==> rank == (if nulls_first {
                Rank::Before
            } else {
                Rank::After
            })
            &&& !(left is Null) && right is Null ==> rank == (if nulls_first {
                Rank::After
            } else {
                Rank::Before
            })
            &&& (left, right) matches (ValueView::Integer(a), ValueView::Integer(b)) ==> {
                &&& a == b <==> rank == Rank::Same
                &&& a < b <==> rank == (if descending {
                    Rank::After
                } else {
                    Rank::Before
                })
            }
            &&& (left, right) matches (ValueView::Float(a), ValueView::Float(b)) ==> !not_a_number(a) && !not_a_number(b) ==> {
                &&& number_key(a) == number_key(b) <==> rank == Rank::Same
                &&& number_key(a) < number_key(b) <==> rank == (if descending {
                    Rank::After
                } else {
                    Rank::Before
                })
            }
            &&& (left, right) matches (ValueView::Text(a), ValueView::Text(b)) ==> {
                &&& text_rank(a, b) == Rank::Same <==> rank == Rank::Same
                &&& text_rank(a, b) == Rank::Before <==> rank == (if descending {
                    Rank::After
                } else {
                    Rank::Before
                })
            }
            &&& (left, right) matches (ValueView::Boolean(a), ValueView::Boolean(b)) ==> {
                &&& a == b <==> rank == Rank::Same
                &&& !a && b <==> rank == (if descending {
                    Rank::After
                } else {
                    Rank::Before
                })
            }
        }),
{
}

/// Rows are ordered by the first item under which they differ.
pub proof fn law_first_item_decides(
    items: Seq<OrderView>,
    left: Seq<ValueView>,
    right: Seq<ValueView>,
    floats: Floats,
    from: nat,
    at: int,
)
    requires
        from <= at < items.len(),
        forall|k: int| from <= k < at ==> item_rank(#[trigger] items[k], left[k], right[k], floats) == Rank::Same,
        item_rank(items[at], left[at], right[at], floats) != Rank::Same,
    ensures
        order_rank(items, left, right, floats, from) == item_rank(items[at], left[at], right[at], floats),
    decreases at - from,
{
    if from < at {
        assert(item_rank(items[from as int], left[from as int], right[from as int], floats) == Rank::Same);
        law_first_item_decides(items, left, right, floats, from + 1, at);
    }
}

/// The outputs of a query are its items in their order, each under its alias or the name of its
/// column; a wildcard is every column under its name.
pub open spec fn lists(projection: Seq<ProjectionView>, items: Seq<SelectItemView>, columns: Seq<ColumnView>) -> bool
    decreases items.len(),
{
    if items.len() == 0 {
        projection.len() == 0
    } else {
        match items.last() {
            SelectItemView::Unnamed(phrase) => projection.len() > 0 && projection.last().output == OutputView::Expr(phrase.expr) && (
            phrase.expr matches ExprView::Identifier(name, _) ==> projection.last().label == name.name()) && lists(
                projection.drop_last(),
                items.drop_last(),
                columns,
            ),
            SelectItemView::Aliased(expression, alias) => projection.len() > 0 && projection.last().output == OutputView::Expr(
                expression,
            ) && projection.last().label == alias.name() && lists(projection.drop_last(), items.drop_last(), columns),
            SelectItemView::Wildcard { .. } => projection.len() >= columns.len() && (forall|c: int|
                0 <= c < columns.len() ==> (#[trigger] projection[projection.len() - columns.len() + c]).label == columns[c].name
                    && names_column(projection[projection.len() - columns.len() + c].output, columns[c].name)) && lists(
                projection.take(projection.len() - columns.len()),
                items.drop_last(),
                columns,
            ),
        }
    }
}

/// Whether an output is the column of a name.
pub open spec fn names_column(output: OutputView, name: Seq<char>) -> bool {
    output matches OutputView::Expr(expression) && (expression matches ExprView::Identifier(identifier, _) && identifier.value == name
        && !identifier.quoted)
}

proof fn lemma_every_column(columns: Seq<ColumnView>, from: nat, done: Seq<ProjectionView>)
    requires
        from <= columns.len(),
    ensures
        ({
            let all = every_column(columns, from, done);
            &&& all.len() == done.len() + columns.len() - from
            &&& all.take(done.len() as int) == done
            &&& forall|c: int|
                from <= c < columns.len() ==> (#[trigger] all[done.len() + c - from]).label == columns[c].name && names_column(
                    all[done.len() + c - from].output,
                    columns[c].name,
                )
        }),
    decreases columns.len() - from,
{
    if from < columns.len() {
        let name = columns[from as int].name;
        let added = ProjectionView { output: OutputView::Expr(crate::projection::column_reference(name)), label: name };
        let next = done.push(added);
        lemma_every_column(columns, from + 1, next);
        let all = every_column(columns, from, done);
        assert(all.take(done.len() as int) =~= done) by {
            assert forall|i: int| 0 <= i < done.len() implies all.take(done.len() as int)[i] == done[i] by {
                assert(all.take(next.len() as int)[i] == next[i]);
            }
        }
        assert forall|c: int| from <= c < columns.len() implies (#[trigger] all[done.len() + c - from]).label == columns[c].name
            && names_column(all[done.len() + c - from].output, columns[c].name) by {
            if c == from {
                assert(all.take(next.len() as int)[done.len() as int] == next[done.len() as int]);
            } else {
                assert(all[next.len() + c - (from + 1)].label == columns[c].name);
            }
        }
    } else {
        assert(done.take(done.len() as int) =~= done);
    }
}

proof fn lemma_projected(items: Seq<SelectItemView>, columns: Seq<ColumnView>, from: nat, done: Seq<ProjectionView>)
    requires
        from <= items.len(),
        lists(done, items.take(from as int), columns),
    ensures
        projected(items, columns, from, done) matches Ok(projection) ==> lists(projection, items, columns),
    decreases items.len() - from,
{
    if from < items.len() {
        let more = items.take(from as int + 1);
        assert(more.drop_last() =~= items.take(from as int));
        match items[from as int] {
            SelectItemView::Unnamed(phrase) => {
                let next = done.push(
                    ProjectionView { output: OutputView::Expr(phrase.expr), label: crate::projection::phrase_label(phrase) },
                );
                assert(next.drop_last() =~= done);
                lemma_projected(items, columns, from + 1, next);
            },
            SelectItemView::Aliased(expression, alias) => {
                let next = done.push(ProjectionView { output: OutputView::Expr(expression), label: alias.name() });
                assert(next.drop_last() =~= done);
                lemma_projected(items, columns, from + 1, next);
            },
            SelectItemView::Wildcard { qualifier, plain, text } => if plain {
                let next = every_column(columns, 0, done);
                lemma_every_column(columns, 0, done);
                assert(next.take(next.len() - columns.len()) =~= done);
                assert forall|c: int| 0 <= c < columns.len() implies (#[trigger] next[next.len() - columns.len() + c]).label
                    == columns[c].name && names_column(next[next.len() - columns.len() + c].output, columns[c].name) by {
                    assert(next[done.len() + c - 0].label == columns[c].name);
                }
                lemma_projected(items, columns, from + 1, next);
            },
        }
    } else {
        assert(items.take(from as int) =~= items);
    }
}

/// The outputs of a query are the items that it lists.
pub proof fn law_outputs_are_listed(items: Seq<SelectItemView>, columns: Seq<ColumnView>)
    ensures
        projected(items, columns, 0, Seq::empty()) matches Ok(projection) ==> lists(projection, items, columns),
{
    assert(items.take(0) =~= Seq::<SelectItemView>::empty());
    lemma_projected(items, columns, 0, Seq::empty());
}

/// Whether `HAVING` is true of a group.
pub open spec fn group_met(
    having: Option<PhraseView>,
    group_by: Seq<PhraseView>,
    group: GroupView,
    schema: SchemaView,
    floats: Floats,
) -> bool {
    having matches Some(phrase) ==> grouped_value(phrase.expr, group_by, group, schema, floats) == Ok::<ValueView, ErrorView>(
        ValueView::Boolean(true),
    )
}

/// Whether values are the outputs of a group.
pub open spec fn group_values(
    values: Seq<ValueView>,
    projection: Seq<ProjectionView>,
    group_by: Seq<PhraseView>,
    group: GroupView,
    schema: SchemaView,
    floats: Floats,
) -> bool {
    &&& values.len() == projection.len()
    &&& forall|c: int|
        0 <= c < projection.len() ==> ((#[trigger] projection[c]).output matches OutputView::Expr(expression) ==> grouped_value(
            expression,
            group_by,
            group,
            schema,
            floats,
        ) == Ok::<ValueView, ErrorView>(values[c]))
}

proof fn lemma_group_outputs(
    projection: Seq<ProjectionView>,
    group_by: Seq<PhraseView>,
    group: GroupView,
    schema: SchemaView,
    floats: Floats,
    from: nat,
    done: Seq<ValueView>,
)
    requires
        from <= projection.len(),
        group_values(done, projection.take(from as int), group_by, group, schema, floats),
    ensures
        group_outputs(projection, group_by, group, schema, floats, from, done) matches Ok(values) ==> group_values(
            values,
            projection,
            group_by,
            group,
            schema,
            floats,
        ),
    decreases projection.len() - from,
{
    if from < projection.len() {
        if let Ok(value) = group_output(projection[from as int].output, group_by, group, schema, floats) {
            let more = projection.take(from as int + 1);
            let next = done.push(value);
            assert forall|c: int| 0 <= c < more.len() implies ((#[trigger] more[c]).output matches OutputView::Expr(expression)
                ==> grouped_value(expression, group_by, group, schema, floats) == Ok::<ValueView, ErrorView>(next[c])) by {
                if c < from {
                    assert(projection.take(from as int)[c] == more[c]);
                }
            }
            lemma_group_outputs(projection, group_by, group, schema, floats, from + 1, next);
        }
    } else {
        assert(projection.take(from as int) =~= projection);
    }
}

/// Whether candidates are made from the groups of which `HAVING` is true, in their order.
pub open spec fn made_from_groups(
    candidates: Seq<CandidateView>,
    picked: Seq<int>,
    plan: QueryPlanView,
    having: Option<PhraseView>,
    groups: Seq<GroupView>,
    schema: SchemaView,
    floats: Floats,
) -> bool {
    &&& candidates.len() == picked.len()
    &&& forall|i: int|
        0 <= i < picked.len() ==> 0 <= #[trigger] picked[i] < groups.len() && group_met(
            having,
            plan.group_by,
            groups[picked[i]],
            schema,
            floats,
        ) && group_values(candidates[i].values, plan.projection, plan.group_by, groups[picked[i]], schema, floats)
    &&& forall|i: int, j: int| 0 <= i < j < picked.len() ==> #[trigger] picked[i] < #[trigger] picked[j]
    &&& forall|at: int|
        0 <= at < groups.len() && #[trigger] group_met(having, plan.group_by, groups[at], schema, floats) ==> picked.contains(at)
}

proof fn lemma_group_candidates(
    plan: QueryPlanView,
    having: Option<PhraseView>,
    items: Seq<OrderView>,
    groups: Seq<GroupView>,
    schema: SchemaView,
    floats: Floats,
    from: nat,
    done: Seq<CandidateView>,
    before: Seq<int>,
) -> (picked: Seq<int>)
    requires
        from <= groups.len(),
        made_from_groups(done, before, plan, having, groups.take(from as int), schema, floats),
    ensures
        group_candidates(plan, having, items, groups, schema, floats, from, done) matches Ok(all) ==> made_from_groups(
            all,
            picked,
            plan,
            having,
            groups,
            schema,
            floats,
        ),
    decreases groups.len() - from,
{
    if from < groups.len() {
        let group = groups[from as int];
        let first = groups.take(from as int);
        let more = groups.take(from as int + 1);
        assert(more[from as int] == group);
        assert forall|i: int| 0 <= i < from implies #[trigger] first[i] == more[i] by {
        }
        assert(plan.projection.take(0) =~= Seq::<ProjectionView>::empty());
        lemma_group_outputs(plan.projection, plan.group_by, group, schema, floats, 0, Seq::empty());
        match group_candidate(plan, having, items, group, schema, floats) {
            Ok(Some(candidate)) => {
                let next = before.push(from as int);
                let all = done.push(candidate);
                assert forall|i: int| 0 <= i < next.len() implies 0 <= #[trigger] next[i] < more.len() && group_met(
                    having,
                    plan.group_by,
                    more[next[i]],
                    schema,
                    floats,
                ) && group_values(all[i].values, plan.projection, plan.group_by, more[next[i]], schema, floats) by {
                    if i < before.len() {
                        assert(next[i] == before[i]);
                        assert(first[before[i]] == more[before[i]]);
                    }
                }
                assert forall|i: int, j: int| 0 <= i < j < next.len() implies #[trigger] next[i] < #[trigger] next[j] by {
                    assert(next[i] == before[i]);
                    if j < before.len() {
                        assert(next[j] == before[j]);
                    }
                }
                assert forall|at: int|
                    0 <= at < more.len() && #[trigger] group_met(having, plan.group_by, more[at], schema, floats) implies next.contains(at) by {
                    if at < from {
                        assert(group_met(having, plan.group_by, first[at], schema, floats));
                        let i = choose|i: int| 0 <= i < before.len() && before[i] == at;
                        assert(next[i] == at);
                    } else {
                        assert(next[before.len() as int] == at);
                    }
                }
                lemma_group_candidates(plan, having, items, groups, schema, floats, from + 1, all, next)
            },
            Ok(None) => {
                assert forall|i: int| 0 <= i < before.len() implies 0 <= #[trigger] before[i] < more.len() && group_met(
                    having,
                    plan.group_by,
                    more[before[i]],
                    schema,
                    floats,
                ) && group_values(done[i].values, plan.projection, plan.group_by, more[before[i]], schema, floats) by {
                    assert(first[before[i]] == more[before[i]]);
                }
                assert forall|at: int|
                    0 <= at < more.len() && #[trigger] group_met(having, plan.group_by, more[at], schema, floats) implies before.contains(at) by {
                    if at < from {
                        assert(group_met(having, plan.group_by, first[at], schema, floats));
                    }
                }
                lemma_group_candidates(plan, having, items, groups, schema, floats, from + 1, done, before)
            },
            Err(_) => before,
        }
    } else {
        assert(groups.take(from as int) =~= groups);
        before
    }
}

/// A query that groups its rows gives a row for every group of which `HAVING` is true, with the
/// values of its outputs for the group: in the order of the groups, or as `ORDER BY` says; without
/// what comes before the offset, and no more than the limit.
pub proof fn law_groups_of_query(
    plan: QueryPlanView,
    select: SelectView,
    items: Seq<OrderView>,
    columns: Seq<ColumnView>,
    source: Seq<Seq<ValueView>>,
    condition: Option<ExprView>,
    floats: Floats,
)
    ensures
        grouped_rows(plan, select, items, columns, source, condition, floats) matches Ok(rows) ==> (row_groups(
            columns,
            source,
            condition,
            plan.group_by,
            floats,
            0,
            first_groups(plan.group_by),
        ) matches Ok(groups) && exists|candidates: Seq<CandidateView>, picked: Seq<int>| #[trigger]
            made_from_groups(candidates, picked, plan, select.having, groups, SchemaView::plain(columns), floats) && taken(
                rows,
                arranged(candidates, select.distinct != Distinct::No, items, floats),
                plan.offset,
                plan.limit,
            )),
{
    if let Ok(rows) = grouped_rows(plan, select, items, columns, source, condition, floats) {
        let schema = SchemaView::plain(columns);
        let groups = row_groups(columns, source, condition, plan.group_by, floats, 0, first_groups(plan.group_by))->Ok_0;
        assert(groups.take(0) =~= Seq::<GroupView>::empty());
        let picked = lemma_group_candidates(plan, select.having, items, groups, schema, floats, 0, Seq::empty(), Seq::empty());
        let candidates = group_candidates(plan, select.having, items, groups, schema, floats, 0, Seq::empty())->Ok_0;
        assert(made_from_groups(candidates, picked, plan, select.having, groups, schema, floats));
    }
}

} // verus!
