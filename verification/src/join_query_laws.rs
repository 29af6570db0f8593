//! Which rows a query over joined tables gives, and what its outputs are.

use vstd::prelude::*;
use crate::ast::{ExprView, IdentView, SelectItemView};
use crate::candidate::{values_of, window, CandidateView};
use crate::eval::{source_position, source_range, JoinSourceView, SchemaView};
use crate::float::Floats;
use crate::join::StageView;
use crate::join_laws::{derived, given, goes_with, joined_row, joins, law_joined_rows, wanted};
use crate::join_query::{
    allowed_limit, any_empty, columns_between, join_projected, join_rows, limited, needed_rows, visited_rows, JoinOutputView, JoinStateView,
};
use crate::catalog::QueryResultView;
use crate::projection::{phrase_label, OutputView, ProjectionView};
use crate::select_laws::{arranged, taken};
use crate::text::normalized;
use crate::value::{ColumnView, ValueView};

verus! {

/// Whether candidates are made from the joined rows that a query selects, from all of them and from
/// no others.
pub open spec fn all_joined(
    candidates: Seq<CandidateView>,
    stages: Seq<StageView>,
    output: JoinOutputView,
    rows: Seq<Seq<ValueView>>,
    floats: Floats,
) -> bool {
    &&& forall|i: int| 0 <= i < candidates.len() ==> derived(stages, output, rows, #[trigger] candidates[i], floats)
    &&& forall|at: int, whole: Seq<ValueView>| #[trigger]
        joined_row(stages, rows, at, whole, floats) && wanted(output, whole, floats) ==> given(output, whole, candidates, floats)
}

proof fn lemma_nothing_joins(stages: Seq<StageView>, depth: nat, row: Seq<ValueView>, whole: Seq<ValueView>, floats: Floats)
    requires
        any_empty(stages, depth),
    ensures
        !joins(stages, depth, row, whole, floats),
    decreases stages.len() - depth,
{
    let stage = stages[depth as int];
    if stage.outer || stage.rows.len() > 0 {
        assert forall|at: int| #[trigger] goes_with(stage, row, at, floats) implies !joins(
            stages,
            depth + 1,
            row + stage.rows[at],
            whole,
            floats,
        ) by {
            lemma_nothing_joins(stages, depth + 1, row + stage.rows[at], whole, floats);
        }
        lemma_nothing_joins(stages, depth + 1, row + crate::join_laws::all_null(stage.width), whole, floats);
    }
}

/// A query over joined tables gives the joined rows that it selects: in the order of `ORDER BY` where
/// there is one, without what comes before the offset, and no more than the limit.
pub proof fn law_rows_of_join(
    stages: Seq<StageView>,
    output: JoinOutputView,
    rows: Seq<Seq<ValueView>>,
    offset: nat,
    limit: Option<nat>,
    floats: Floats,
)
    requires
        !output.distinct,
        output.capacity is None,
        forall|d: int| 0 <= d < stages.len() ==> (#[trigger] stages[d]).rows.len() <= usize::MAX,
    ensures
        join_rows(stages, output, rows, offset, limit, floats) matches Ok((chosen, _)) ==> {
            &&& limit == Some(0nat) ==> chosen.len() == 0
            &&& limit != Some(0nat) ==> exists|candidates: Seq<CandidateView>| #[trigger]
                all_joined(candidates, stages, output, rows, floats) && taken(
                    chosen,
                    arranged(candidates, false, output.items, floats),
                    offset,
                    limit,
                )
        },
{
    if let Ok((chosen, _)) = join_rows(stages, output, rows, offset, limit, floats) {
        if limit != Some(0nat) {
            if rows.len() == 0 || any_empty(stages, 0) {
                let none = Seq::<CandidateView>::empty();
                assert forall|at: int, whole: Seq<ValueView>| !#[trigger] joined_row(stages, rows, at, whole, floats) by {
                    if 0 <= at < rows.len() {
                        lemma_nothing_joins(stages, 0, rows[at], whole, floats);
                    }
                }
                assert(all_joined(none, stages, output, rows, floats));
                assert(arranged(none, false, output.items, floats).len() == 0);
            } else {
                law_joined_rows(stages, output, rows, floats);
                let state = visited_rows(stages, output, rows, 0, JoinStateView::start(), floats)->Ok_0;
                assert(all_joined(state.candidates, stages, output, rows, floats));
            }
        }
    }
}

/// A query over joined tables may stop as soon as it has as many rows as it needs: what comes after
/// them changes nothing of what it gives.
pub proof fn law_enough_rows(all: Seq<CandidateView>, ordered: bool, offset: nat, limit: Option<nat>)
    ensures
        needed_rows(ordered, offset, limit) matches Some(count) ==> {
            &&& !ordered
            &&& limit is Some
            &&& count <= all.len() ==> values_of(window(all.take(count as int), offset, limit)) == values_of(window(all, offset, limit))
        },
{
    if let Some(count) = needed_rows(ordered, offset, limit) {
        if count <= all.len() {
            assert(window(all.take(count as int), offset, limit) =~= window(all, offset, limit));
        }
    }
}

/// No more rows are drawn than are asked for, and no fewer than show that a result is too large. A
/// result is given as it is unless it has more rows than may be given.
pub proof fn law_result_limit(asked: Option<nat>, most: Option<nat>, result: QueryResultView)
    ensures
        asked matches Some(count) ==> (allowed_limit(asked, most) matches Some(drawn) && drawn <= count),
        most is None ==> allowed_limit(asked, most) == asked,
        most matches Some(highest) ==> highest < usize::MAX ==> {
            &&& allowed_limit(asked, most) matches Some(drawn)
            &&& drawn <= highest + 1
            &&& drawn != asked.unwrap_or(drawn) ==> drawn > highest
            &&& asked is None ==> drawn > highest
        },
        limited(result, most) is Ok <==> (most matches Some(highest) ==> result.rows.len() <= highest),
        limited(result, most) matches Ok(given) ==> given == result,
{
}

/// Whether the columns from one place to another are those that a wildcard stands for: all of them, or
/// those of the table that it is qualified by.
pub open spec fn stands_for(qualifier: Option<Seq<IdentView>>, schema: SchemaView, first: nat, last: nat) -> bool {
    match qualifier {
        None => first == 0 && last == schema.columns.len(),
        Some(parts) => parts.len() == 1 && exists|s: int|
            0 <= s < schema.sources->0.len() && normalized((#[trigger] schema.sources->0[s]).qualifier) == normalized(parts[0].name())
                && first == schema.sources->0[s].start && last == first + schema.sources->0[s].width,
    }
}

/// Whether the last outputs are the columns from one place to another, each under its name.
pub open spec fn ends_with_columns(projection: Seq<ProjectionView>, columns: Seq<ColumnView>, first: nat, last: nat) -> bool {
    &&& first <= last
    &&& projection.len() >= last - first
    &&& forall|c: int|
        first <= c < last ==> #[trigger] projection[projection.len() - last + c] == (ProjectionView {
            output: OutputView::At(c as nat),
            label: columns[c].name,
        })
}

/// Whether outputs are the items of a query over joined tables, in their order: each expression under
/// its alias or the name of its column, and each wildcard as the columns that it stands for.
pub open spec fn join_lists(projection: Seq<ProjectionView>, items: Seq<SelectItemView>, schema: SchemaView) -> bool
    decreases items.len(),
{
    if items.len() == 0 {
        projection.len() == 0
    } else {
        match items.last() {
            SelectItemView::Unnamed(phrase) => projection.len() > 0 && projection.last().output == OutputView::Expr(phrase.expr) && (
            phrase.expr matches ExprView::Identifier(name, _) ==> projection.last().label == name.name()) && join_lists(
                projection.drop_last(),
                items.drop_last(),
                schema,
            ),
            SelectItemView::Aliased(expression, alias) => projection.len() > 0 && projection.last().output == OutputView::Expr(
                expression,
            ) && projection.last().label == alias.name() && join_lists(projection.drop_last(), items.drop_last(), schema),
            SelectItemView::Wildcard { qualifier, .. } => exists|first: nat, last: nat| #[trigger]
                stands_for(qualifier, schema, first, last) && ends_with_columns(projection, schema.columns, first, last) && join_lists(
                    projection.take(projection.len() - (last - first)),
                    items.drop_last(),
                    schema,
                ),
        }
    }
}

proof fn lemma_columns_between(columns: Seq<ColumnView>, from: nat, to: nat, done: Seq<ProjectionView>)
    requires
        from <= to,
    ensures
        ({
            let all = columns_between(columns, from, to, done);
            &&& all.len() == done.len() + to - from
            &&& all.take(done.len() as int) == done
            &&& ends_with_columns(all, columns, from, to)
        }),
    decreases to - from,
{
    if from < to {
        let added = ProjectionView { output: OutputView::At(from), label: columns[from as int].name };
        let next = done.push(added);
        lemma_columns_between(columns, from + 1, to, next);
        let all = columns_between(columns, from, to, done);
        assert forall|i: int| 0 <= i < next.len() implies #[trigger] all[i] == next[i] by {
            assert(all.take(next.len() as int)[i] == next[i]);
        }
        assert(all.take(done.len() as int) =~= done);
        assert forall|c: int| from <= c < to implies #[trigger] all[all.len() - to + c] == (ProjectionView {
            output: OutputView::At(c as nat),
            label: columns[c].name,
        }) by {
            if c == from {
                assert(all[done.len() as int] == next[done.len() as int]);
            }
        }
    } else {
        assert(done.take(done.len() as int) =~= done);
    }
}

proof fn lemma_source(sources: Seq<JoinSourceView>, qualifier: Seq<char>, from: nat)
    ensures
        source_position(sources, qualifier, from) matches Some(index) ==> index < sources.len() && normalized(
            sources[index as int].qualifier,
        ) == normalized(qualifier),
    decreases sources.len() - from,
{
    if from < sources.len() {
        lemma_source(sources, qualifier, from + 1);
    }
}

proof fn lemma_join_projected(items: Seq<SelectItemView>, schema: SchemaView, from: nat, done: Seq<ProjectionView>)
    requires
        from <= items.len(),
        join_lists(done, items.take(from as int), schema),
    ensures
        join_projected(items, schema, from, done) matches Ok(projection) ==> join_lists(projection, items, schema),
    decreases items.len() - from,
{
    if from < items.len() {
        let more = items.take(from as int + 1);
        assert(more.drop_last() =~= items.take(from as int));
        match items[from as int] {
            SelectItemView::Unnamed(phrase) => {
                let next = done.push(ProjectionView { output: OutputView::Expr(phrase.expr), label: phrase_label(phrase) });
                assert(next.drop_last() =~= done);
                lemma_join_projected(items, schema, from + 1, next);
            },
            SelectItemView::Aliased(expression, alias) => {
                let next = done.push(ProjectionView { output: OutputView::Expr(expression), label: alias.name() });
                assert(next.drop_last() =~= done);
                lemma_join_projected(items, schema, from + 1, next);
            },
            SelectItemView::Wildcard { qualifier, plain, text } => {
                if let Ok((first, last)) = crate::join_query::wildcard_range(qualifier, plain, text, schema) {
                    if let Some(parts) = qualifier {
                        lemma_source(schema.sources->0, parts[0].name(), 0);
                        assert(source_range(schema.sources->0, parts[0].name()) is Ok);
                        let s = source_position(schema.sources->0, parts[0].name(), 0)->0;
                        assert(normalized(schema.sources->0[s as int].qualifier) == normalized(parts[0].name()));
                    }
                    assert(stands_for(qualifier, schema, first, last));
                    let next = columns_between(schema.columns, first, last, done);
                    lemma_columns_between(schema.columns, first, last, done);
                    assert(next.take(next.len() - (last - first)) =~= done);
                    assert(join_lists(next, more, schema));
                    lemma_join_projected(items, schema, from + 1, next);
                }
            },
        }
    } else {
        assert(items.take(from as int) =~= items);
    }
}

/// The outputs of a query over joined tables are the items that it lists.
pub proof fn law_outputs_of_join(items: Seq<SelectItemView>, schema: SchemaView)
    ensures
        join_projected(items, schema, 0, Seq::empty()) matches Ok(projection) ==> join_lists(projection, items, schema),
{
    assert(items.take(0) =~= Seq::<SelectItemView>::empty());
    lemma_join_projected(items, schema, 0, Seq::empty());
}

} // verus!
