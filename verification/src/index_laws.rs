//! That indexes change what a query examines, and not what it finds.

use vstd::prelude::*;
use crate::aggregate::{picked_rows, GroupView};
use crate::ast::{ExprView, OrderView, PhraseView, SelectView};
use crate::candidate::CandidateView;
use crate::error::ErrorView;
use crate::eval::{selects, ScopeView};
use crate::float::Floats;
use crate::nearest::{fast_plan, scored_row, scored_rows, FastPlanView};

use crate::projection::ProjectionView;
use crate::query::{first_groups, phrase_values, row_added, row_grouped, row_groups};
use crate::read::{planned_rows, source, SourceView};
use crate::scan::{index_candidates, law_index_candidates, lemma_candidates_valid};
use crate::select::{order_aliases, row_candidate, row_candidates, QueryPlanView};
use crate::table::TableView;
use crate::value::{ColumnView, ValueView};

verus! {

/// The rows from `from` on that a condition selects.
pub open spec fn selected_rows(
    columns: Seq<ColumnView>,
    rows: Seq<Seq<ValueView>>,
    selection: Option<ExprView>,
    floats: Floats,
    from: nat,
) -> Seq<Seq<ValueView>>
    decreases rows.len() - from,
{
    if from >= rows.len() {
        Seq::empty()
    } else {
        let rest = selected_rows(columns, rows, selection, floats, from + 1);
        if selects(selection, ScopeView::plain(columns, rows[from as int]), floats) == Ok::<bool, ErrorView>(true) {
            seq![rows[from as int]] + rest
        } else {
            rest
        }
    }
}

/// Whether a condition can be decided on every row.
pub open spec fn decided(columns: Seq<ColumnView>, rows: Seq<Seq<ValueView>>, selection: Option<ExprView>, floats: Floats) -> bool {
    forall|i: int| 0 <= i < rows.len() ==> selects(selection, ScopeView::plain(columns, #[trigger] rows[i]), floats) is Ok
}

/// What is chosen from `at` on is what the condition selects from `from` on.
spec fn in_step(
    columns: Seq<ColumnView>,
    rows: Seq<Seq<ValueView>>,
    selection: Option<ExprView>,
    floats: Floats,
    from: nat,
    chosen: Seq<Seq<ValueView>>,
    at: nat,
) -> bool {
    &&& at <= chosen.len()
    &&& chosen.skip(at as int) == selected_rows(columns, rows, selection, floats, from)
}

proof fn lemma_step(
    columns: Seq<ColumnView>,
    rows: Seq<Seq<ValueView>>,
    selection: Option<ExprView>,
    floats: Floats,
    from: nat,
    chosen: Seq<Seq<ValueView>>,
    at: nat,
)
    requires
        in_step(columns, rows, selection, floats, from, chosen, at),
        from < rows.len(),
    ensures
        selects(selection, ScopeView::plain(columns, rows[from as int]), floats) == Ok::<bool, ErrorView>(true)
            ==> at < chosen.len() && chosen[at as int] == rows[from as int] && in_step(
            columns,
            rows,
            selection,
            floats,
            from + 1,
            chosen,
            at + 1,
        ),
        selects(selection, ScopeView::plain(columns, rows[from as int]), floats) != Ok::<bool, ErrorView>(true)
            ==> in_step(columns, rows, selection, floats, from + 1, chosen, at),
{
    let rest = selected_rows(columns, rows, selection, floats, from + 1);
    if selects(selection, ScopeView::plain(columns, rows[from as int]), floats) == Ok::<bool, ErrorView>(true) {
        assert(chosen.skip(at as int)[0] == rows[from as int]);
        assert(chosen.skip(at as int + 1) =~= chosen.skip(at as int).skip(1));
        assert((seq![rows[from as int]] + rest).skip(1) =~= rest);
    }
}

proof fn lemma_candidates_of_selected(
    columns: Seq<ColumnView>,
    rows: Seq<Seq<ValueView>>,
    selection: Option<ExprView>,
    projection: Seq<ProjectionView>,
    items: Seq<OrderView>,
    floats: Floats,
    from: nat,
    chosen: Seq<Seq<ValueView>>,
    at: nat,
    done: Seq<CandidateView>,
)
    requires
        decided(columns, rows, selection, floats),
        in_step(columns, rows, selection, floats, from, chosen, at),
    ensures
        row_candidates(columns, rows, selection, projection, items, floats, from, done) == row_candidates(
            columns,
            chosen,
            None,
            projection,
            items,
            floats,
            at,
            done,
        ),
    decreases rows.len() - from,
{
    if from < rows.len() {
        lemma_step(columns, rows, selection, floats, from, chosen, at);
        let row = rows[from as int];
        let scope = ScopeView::plain(columns, row);
        assert(selects(selection, scope, floats) is Ok);
        if selects(selection, scope, floats)->Ok_0 {
            let aliases = order_aliases(items, projection);
            let found = row_candidate(selection, projection, items, aliases, scope, floats);
            assert(found == row_candidate(None, projection, items, aliases, scope, floats));
            if let Ok(Some(candidate)) = found {
                lemma_candidates_of_selected(
                    columns,
                    rows,
                    selection,
                    projection,
                    items,
                    floats,
                    from + 1,
                    chosen,
                    at + 1,
                    done.push(candidate),
                );
            }
        } else {
            lemma_candidates_of_selected(columns, rows, selection, projection, items, floats, from + 1, chosen, at, done);
        }
    } else {
        assert(chosen.skip(at as int).len() == 0);
    }
}

proof fn lemma_scores_of_selected(
    plan: FastPlanView,
    columns: Seq<ColumnView>,
    rows: Seq<Seq<ValueView>>,
    selection: Option<ExprView>,
    floats: Floats,
    from: nat,
    chosen: Seq<Seq<ValueView>>,
    at: nat,
    done: Seq<CandidateView>,
)
    requires
        decided(columns, rows, selection, floats),
        in_step(columns, rows, selection, floats, from, chosen, at),
    ensures
        scored_rows(plan, columns, rows, selection, floats, from, done) == scored_rows(
            plan,
            columns,
            chosen,
            None,
            floats,
            at,
            done,
        ),
    decreases rows.len() - from,
{
    if from < rows.len() {
        lemma_step(columns, rows, selection, floats, from, chosen, at);
        let row = rows[from as int];
        let scope = ScopeView::plain(columns, row);
        assert(selects(selection, scope, floats) is Ok);
        if selects(selection, scope, floats)->Ok_0 {
            let found = scored_row(plan, columns, row, selection, floats);
            assert(found == scored_row(plan, columns, row, None, floats));
            if let Ok(Some(candidate)) = found {
                lemma_scores_of_selected(plan, columns, rows, selection, floats, from + 1, chosen, at + 1, done.push(candidate));
            }
        } else {
            lemma_scores_of_selected(plan, columns, rows, selection, floats, from + 1, chosen, at, done);
        }
    } else {
        assert(chosen.skip(at as int).len() == 0);
    }
}

proof fn lemma_groups_of_selected(
    columns: Seq<ColumnView>,
    rows: Seq<Seq<ValueView>>,
    selection: Option<ExprView>,
    group_by: Seq<PhraseView>,
    floats: Floats,
    from: nat,
    chosen: Seq<Seq<ValueView>>,
    at: nat,
    done: Seq<GroupView>,
)
    requires
        decided(columns, rows, selection, floats),
        in_step(columns, rows, selection, floats, from, chosen, at),
    ensures
        row_groups(columns, rows, selection, group_by, floats, from, done) == row_groups(
            columns,
            chosen,
            None,
            group_by,
            floats,
            at,
            done,
        ),
    decreases rows.len() - from,
{
    if from < rows.len() {
        lemma_step(columns, rows, selection, floats, from, chosen, at);
        let row = rows[from as int];
        let scope = ScopeView::plain(columns, row);
        assert(selects(selection, scope, floats) is Ok);
        if selects(selection, scope, floats)->Ok_0 {
            if group_by.len() == 0 {
                lemma_groups_of_selected(
                    columns,
                    rows,
                    selection,
                    group_by,
                    floats,
                    from + 1,
                    chosen,
                    at + 1,
                    row_added(done, 0, row),
                );
            } else if let Ok(values) = phrase_values(group_by, scope, floats, 0, Seq::empty()) {
                lemma_groups_of_selected(
                    columns,
                    rows,
                    selection,
                    group_by,
                    floats,
                    from + 1,
                    chosen,
                    at + 1,
                    row_grouped(done, values, row),
                );
            }
        } else {
            lemma_groups_of_selected(columns, rows, selection, group_by, floats, from + 1, chosen, at, done);
        }
    } else {
        assert(chosen.skip(at as int).len() == 0);
    }
}

proof fn lemma_pruned(
    table: TableView,
    condition: ExprView,
    floats: Floats,
    from: nat,
    at: nat,
)
    requires
        table.valid(),
        table.rows.len() <= usize::MAX,
        decided(table.columns, table.rows, Some(condition), floats),
        index_candidates(table, condition, floats) is Some,
        from <= table.rows.len(),
        ({
            let positions = index_candidates(table, condition, floats)->0.rows;
            &&& at <= positions.len()
            &&& at > 0 ==> positions[at - 1] < from
            &&& at < positions.len() ==> positions[at as int] >= from
        }),
    ensures
        ({
            let candidates = index_candidates(table, condition, floats)->0;
            let residual = if candidates.exact {
                None
            } else {
                Some(condition)
            };
            selected_rows(table.columns, table.rows, Some(condition), floats, from) == selected_rows(
                table.columns,
                picked_rows(table.rows, candidates.rows),
                residual,
                floats,
                at,
            )
        }),
    decreases table.rows.len() - from,
{
    let candidates = index_candidates(table, condition, floats)->0;
    let positions = candidates.rows;
    lemma_candidates_valid(table, condition, floats);
    if from < table.rows.len() {
        let scope = ScopeView::plain(table.columns, table.rows[from as int]);
        law_index_candidates(table, condition, from as usize, floats);
        assert(selects(Some(condition), scope, floats) is Ok);
        if at < positions.len() && positions[at as int] == from {
            assert(positions.contains(from as usize));
            assert(picked_rows(table.rows, positions)[at as int] == table.rows[from as int]);
            assert(at + 1 < positions.len() ==> positions[at as int + 1] > positions[at as int]);
            lemma_pruned(table, condition, floats, from + 1, at + 1);
        } else {
            if positions.contains(from as usize) {
                let k = choose|k: int| 0 <= k < positions.len() && positions[k] == from as usize;
                if k < at {
                    assert(k < at - 1 ==> positions[k] < positions[at - 1]);
                } else if k > at {
                    assert(positions[at as int] < positions[k]);
                }
                assert(false);
            }
            lemma_pruned(table, condition, floats, from + 1, at);
        }
    } else {
        assert(at < positions.len() ==> positions[at as int] < table.rows.len());
    }
}

/// What a query reads where there are no indexes.
pub open spec fn unindexed(table: TableView, condition: ExprView) -> SourceView {
    SourceView { table: Some(table), columns: table.columns, rows: table.rows, residual: Some(condition) }
}

/// Indexes leave out only rows that a query does not find: the rows of a query are those that it has without
/// indexes, in the same order, wherever its condition can be decided on every row.
pub proof fn law_indexes_keep_rows(
    plan: QueryPlanView,
    select: SelectView,
    items: Seq<OrderView>,
    table: TableView,
    phrase: PhraseView,
    floats: Floats,
)
    requires
        table.valid(),
        table.rows.len() <= usize::MAX,
        decided(table.columns, table.rows, Some(phrase.expr), floats),
    ensures
        planned_rows(plan, select, items, source(Some(table), Some(phrase), floats), floats) == planned_rows(
            plan,
            select,
            items,
            unindexed(table, phrase.expr),
            floats,
        ),
{
    let condition = phrase.expr;
    if let Some(candidates) = index_candidates(table, condition, floats) {
        let read = source(Some(table), Some(phrase), floats);
        let columns = table.columns;
        let picked = picked_rows(table.rows, candidates.rows);
        lemma_candidates_valid(table, condition, floats);
        lemma_pruned(table, condition, floats, 0, 0);
        assert forall|i: int| 0 <= i < picked.len() implies selects(
            read.residual,
            ScopeView::plain(columns, #[trigger] picked[i]),
            floats,
        ) is Ok by {
            assert(picked[i] == table.rows[candidates.rows[i] as int]);
        }
        let chosen = selected_rows(columns, table.rows, Some(condition), floats, 0);
        assert(chosen.skip(0) =~= chosen);
        assert(in_step(columns, table.rows, Some(condition), floats, 0, chosen, 0));
        assert(in_step(columns, picked, read.residual, floats, 0, chosen, 0));
        let none = Seq::<CandidateView>::empty();
        lemma_candidates_of_selected(
            columns,
            table.rows,
            Some(condition),
            plan.projection,
            items,
            floats,
            0,
            chosen,
            0,
            none,
        );
        lemma_candidates_of_selected(columns, picked, read.residual, plan.projection, items, floats, 0, chosen, 0, none);
        let groups = first_groups(plan.group_by);
        lemma_groups_of_selected(columns, table.rows, Some(condition), plan.group_by, floats, 0, chosen, 0, groups);
        lemma_groups_of_selected(columns, picked, read.residual, plan.group_by, floats, 0, chosen, 0, groups);
        if let Some(limit) = plan.limit {
            if let Ok(Some(fast)) = fast_plan(
                select.distinct,
                items,
                columns,
                plan.projection,
                plan.offset,
                limit,
                floats,
            ) {
                lemma_scores_of_selected(fast, columns, table.rows, Some(condition), floats, 0, chosen, 0, none);
                lemma_scores_of_selected(fast, columns, picked, read.residual, floats, 0, chosen, 0, none);
            }
        }
    }
}

} // verus!
