//! What rows written into a table become: their values, and what a conflict does.

use vstd::prelude::*;
use crate::ast::{AssignmentView, ExprView};
use crate::catalog::{filled_row, listed_row, null_row};
use crate::error::ErrorView;
use crate::eval::{evaluated, ScopeView};
use crate::float::Floats;
use crate::index::{holder, lemma_holder};
use crate::operators::coerced;
use crate::table::{any_repeat, distinct_keys, law_unique_check_suffices, repeats, unique_checked, TableView};
use crate::value::{key_of, same_value, ColumnView, ValueView};
use crate::write::{
    accepted_rows, assigned_row, conflict_position, conflicts, copied_row, equal_position, holds_equal, insert_outcome,
    nothing_touched, replaced_row, upsert_outcome, upserted, PlanView, ReplacementView,
};

verus! {

/// Whether positions of columns are different ones.
pub open spec fn different(targets: Seq<usize>, count: nat) -> bool {
    &&& forall|i: int| 0 <= i < targets.len() ==> (#[trigger] targets[i]) < count
    &&& forall|i: int, j: int| 0 <= i < j < targets.len() ==> #[trigger] targets[i] != #[trigger] targets[j]
}

/// Whether a value is that of an expression as one of a column's type.
pub open spec fn written(expression: ExprView, scope: ScopeView, column: ColumnView, value: ValueView, floats: Floats) -> bool {
    evaluated(expression, scope, floats) matches Ok(raw) && coerced(floats, raw, column.data_type) == Ok::<ValueView, ErrorView>(value)
}

proof fn lemma_filled_row(
    columns: Seq<ColumnView>,
    targets: Seq<usize>,
    expressions: Seq<ExprView>,
    floats: Floats,
    from: nat,
    row: Seq<ValueView>,
)
    requires
        different(targets, columns.len()),
        row.len() == columns.len(),
        expressions.len() == targets.len(),
        from <= targets.len(),
        forall|k: int|
            0 <= k < from ==> written(
                #[trigger] expressions[k],
                ScopeView::none(),
                columns[targets[k] as int],
                row[targets[k] as int],
                floats,
            ),
        forall|c: int| 0 <= c < columns.len() && !targets.take(from as int).contains(c as usize) ==> (#[trigger] row[c]) is Null,
    ensures
        filled_row(columns, targets, expressions, floats, from, row) matches Ok(done) ==> {
            &&& done.len() == columns.len()
            &&& forall|k: int|
                0 <= k < targets.len() ==> written(
                    #[trigger] expressions[k],
                    ScopeView::none(),
                    columns[targets[k] as int],
                    done[targets[k] as int],
                    floats,
                )
            &&& forall|c: int| 0 <= c < columns.len() && !targets.contains(c as usize) ==> (#[trigger] done[c]) is Null
        },
    decreases expressions.len() - from,
{
    if from < expressions.len() {
        let at = targets[from as int] as int;
        if let Ok(raw) = evaluated(expressions[from as int], ScopeView::none(), floats) {
            if let Ok(value) = coerced(floats, raw, columns[at].data_type) {
                let next = row.update(at, value);
                assert forall|k: int| 0 <= k < from + 1 implies written(
                    #[trigger] expressions[k],
                    ScopeView::none(),
                    columns[targets[k] as int],
                    next[targets[k] as int],
                    floats,
                ) by {
                    if k < from {
                        assert(targets[k] != targets[from as int]);
                    }
                }
                let more = targets.take(from as int + 1);
                assert forall|c: int| 0 <= c < columns.len() && !more.contains(c as usize) implies (#[trigger] next[c]) is Null by {
                    assert(more[from as int] == targets[from as int]);
                    let less = targets.take(from as int);
                    if less.contains(c as usize) {
                        let i = choose|i: int| 0 <= i < less.len() && less[i] == c as usize;
                        assert(more[i] == c as usize);
                    }
                    assert(row[c] is Null);
                }
                lemma_filled_row(columns, targets, expressions, floats, from + 1, next);
            }
        }
    } else {
        assert(targets.take(from as int) =~= targets);
    }
}

/// A row that `INSERT` lists has the value of each expression in the column that it is for, as one of
/// that column's type, and `NULL` in every other column.
pub proof fn law_listed_row(columns: Seq<ColumnView>, targets: Seq<usize>, expressions: Seq<ExprView>, floats: Floats)
    requires
        different(targets, columns.len()),
    ensures
        listed_row(columns, targets, expressions, floats) matches Ok(row) ==> {
            &&& row.len() == columns.len()
            &&& expressions.len() == targets.len()
            &&& forall|k: int|
                0 <= k < targets.len() ==> written(
                    #[trigger] expressions[k],
                    ScopeView::none(),
                    columns[targets[k] as int],
                    row[targets[k] as int],
                    floats,
                )
            &&& forall|c: int| 0 <= c < columns.len() && !targets.contains(c as usize) ==> (#[trigger] row[c]) is Null
        },
{
    if expressions.len() == targets.len() {
        lemma_filled_row(columns, targets, expressions, floats, 0, null_row(columns.len()));
    }
}

proof fn lemma_assigned_row(
    assignments: Seq<AssignmentView>,
    targets: Seq<usize>,
    scope: ScopeView,
    floats: Floats,
    from: nat,
    row: Seq<ValueView>,
    old: Seq<ValueView>,
)
    requires
        different(targets, row.len()),
        old.len() == row.len(),
        assignments.len() == targets.len(),
        from <= targets.len(),
        forall|k: int|
            0 <= k < from ==> written(
                (#[trigger] assignments[k]).value,
                scope,
                scope.schema.columns[targets[k] as int],
                row[targets[k] as int],
                floats,
            ),
        forall|c: int| 0 <= c < row.len() && !targets.take(from as int).contains(c as usize) ==> (#[trigger] row[c]) == old[c],
    ensures
        assigned_row(assignments, targets, scope, floats, from, row) matches Ok(done) ==> assigned(
            assignments,
            targets,
            scope,
            old,
            done,
            floats,
        ),
    decreases assignments.len() - from,
{
    if from < assignments.len() {
        let at = targets[from as int] as int;
        if let Ok(raw) = evaluated(assignments[from as int].value, scope, floats) {
            if let Ok(value) = coerced(floats, raw, scope.schema.columns[at].data_type) {
                let next = row.update(at, value);
                assert forall|k: int| 0 <= k < from + 1 implies written(
                    (#[trigger] assignments[k]).value,
                    scope,
                    scope.schema.columns[targets[k] as int],
                    next[targets[k] as int],
                    floats,
                ) by {
                    if k < from {
                        assert(targets[k] != targets[from as int]);
                    }
                }
                let more = targets.take(from as int + 1);
                assert forall|c: int| 0 <= c < next.len() && !more.contains(c as usize) implies (#[trigger] next[c]) == old[c] by {
                    assert(more[from as int] == targets[from as int]);
                    let less = targets.take(from as int);
                    if less.contains(c as usize) {
                        let i = choose|i: int| 0 <= i < less.len() && less[i] == c as usize;
                        assert(more[i] == c as usize);
                    }
                    assert(row[c] == old[c]);
                }
                lemma_assigned_row(assignments, targets, scope, floats, from + 1, next, old);
            }
        }
    } else {
        assert(targets.take(from as int) =~= targets);
    }
}

/// Whether a row is another one with assignments made to it: each column assigned to has the value of
/// its expression in the scope, and every other is as it was.
pub open spec fn assigned(
    assignments: Seq<AssignmentView>,
    targets: Seq<usize>,
    scope: ScopeView,
    old: Seq<ValueView>,
    row: Seq<ValueView>,
    floats: Floats,
) -> bool {
    &&& row.len() == old.len()
    &&& forall|k: int|
        0 <= k < targets.len() ==> written(
            (#[trigger] assignments[k]).value,
            scope,
            scope.schema.columns[targets[k] as int],
            row[targets[k] as int],
            floats,
        )
    &&& forall|c: int| 0 <= c < row.len() && !targets.contains(c as usize) ==> (#[trigger] row[c]) == old[c]
}

/// Assignments are all made from the values that the row had before any of them.
pub proof fn law_assignments(
    assignments: Seq<AssignmentView>,
    targets: Seq<usize>,
    scope: ScopeView,
    floats: Floats,
    row: Seq<ValueView>,
)
    requires
        different(targets, row.len()),
        assignments.len() == targets.len(),
    ensures
        assigned_row(assignments, targets, scope, floats, 0, row) matches Ok(done) ==> assigned(
            assignments,
            targets,
            scope,
            row,
            done,
            floats,
        ),
{
    lemma_assigned_row(assignments, targets, scope, floats, 0, row, row);
}

/// Whether a value stands in a column of a row, and is not `NULL`.
pub open spec fn stands_in(row: Seq<ValueView>, column: int, value: ValueView) -> bool {
    !(row[column] is Null) && key_of(row[column]) == key_of(value)
}

proof fn lemma_repeats(base: Seq<Seq<ValueView>>, pending: Seq<Seq<ValueView>>, column: int, from: nat)
    requires
        base.len() <= usize::MAX,
        pending.len() <= usize::MAX,
        any_repeat(base, pending, column, from),
    ensures
        !distinct_keys(base + pending, column),
    decreases pending.len() - from,
{
    let all = base + pending;
    if repeats(base, pending, column, from as int) {
        let value = pending[from as int][column];
        lemma_holder(base, column, key_of(value), base.len());
        lemma_holder(pending, column, key_of(value), from);
        let j = base.len() + from;
        assert(all[j as int] == pending[from as int]);
        if let Some(i) = holder(base, column, key_of(value), base.len()) {
            assert(all[i as int] == base[i as int]);
            assert(key_of(all[i as int][column]) == key_of(all[j as int][column]));
        } else {
            let i = holder(pending, column, key_of(value), from)->Some_0;
            assert(all[base.len() + i] == pending[i as int]);
            assert(key_of(all[base.len() + i][column]) == key_of(all[j as int][column]));
        }
    } else {
        lemma_repeats(base, pending, column, from + 1);
    }
}

proof fn lemma_unique_refused(columns: Seq<ColumnView>, base: Seq<Seq<ValueView>>, pending: Seq<Seq<ValueView>>, from: nat)
    requires
        base.len() <= usize::MAX,
        pending.len() <= usize::MAX,
        unique_checked(columns, base, pending, from) is Err,
    ensures
        exists|c: int| from <= c < columns.len() && (#[trigger] columns[c]).unique && !distinct_keys(base + pending, c),
    decreases columns.len() - from,
{
    if columns[from as int].unique && any_repeat(base, pending, from as int, 0) {
        lemma_repeats(base, pending, from as int, 0);
        assert(columns[from as int].unique);
    } else {
        lemma_unique_refused(columns, base, pending, from + 1);
    }
}

/// Without a conflict clause, rows are added behind those that are there, unless a unique column would
/// then hold a value twice: exactly then nothing is added.
pub proof fn law_plain_insertion(table: TableView, pending: Seq<Seq<ValueView>>, floats: Floats)
    requires
        table.valid(),
        table.rows.len() <= usize::MAX,
        pending.len() <= usize::MAX,
    ensures
        insert_outcome(table, pending, PlanView::Fail, floats) is Ok <==> forall|c: int|
            0 <= c < table.columns.len() && (#[trigger] table.columns[c]).unique ==> distinct_keys(table.rows + pending, c),
        insert_outcome(table, pending, PlanView::Fail, floats) matches Ok((rows, count)) ==> rows == table.rows + pending && count
            == pending.len(),
{
    if unique_checked(table.columns, table.rows, pending, 0) is Ok {
        assert forall|c: int| 0 <= c < table.columns.len() && (#[trigger] table.columns[c]).unique implies distinct_keys(
            table.rows + pending,
            c,
        ) by {
            law_unique_check_suffices(table.columns, table.rows, pending, c);
        }
    } else {
        lemma_unique_refused(table.columns, table.rows, pending, 0);
    }
}

/// Whether a row conflicts with one of others in one of the columns.
pub open spec fn clashes(rows: Seq<Seq<ValueView>>, row: Seq<ValueView>, columns: Seq<usize>) -> bool {
    exists|i: int, k: int|
        0 <= i < rows.len() && 0 <= k < columns.len() && !(row[columns[k] as int] is Null) && #[trigger] same_value(
            rows[i][columns[k] as int],
            row[columns[k] as int],
        )
}

proof fn lemma_holds_equal(rows: Seq<Seq<ValueView>>, column: int, value: ValueView, from: nat)
    ensures
        holds_equal(rows, column, value, from) <==> exists|i: int| from <= i < rows.len() && #[trigger] same_value(rows[i][column], value),
    decreases rows.len() - from,
{
    if from < rows.len() {
        lemma_holds_equal(rows, column, value, from + 1);
    }
}

/// Whether every number in rows is one.
pub open spec fn numbers_only(rows: Seq<Seq<ValueView>>) -> bool {
    forall|i: int, c: int|
        0 <= i < rows.len() && 0 <= c < rows[i].len() ==> ((#[trigger] rows[i][c]) matches ValueView::Float(bits)
            ==> !crate::float::not_a_number(bits))
}

proof fn lemma_conflicts(
    table: TableView,
    accepted: Seq<Seq<ValueView>>,
    candidate: Seq<ValueView>,
    columns: Seq<usize>,
    from: nat,
)
    requires
        table.rows.len() <= usize::MAX,
        numbers_only(table.rows),
        numbers_only(seq![candidate]),
        forall|i: int| 0 <= i < table.rows.len() ==> (#[trigger] table.rows[i]).len() == table.columns.len(),
        candidate.len() == table.columns.len(),
        forall|k: int| 0 <= k < columns.len() ==> (#[trigger] columns[k]) < table.columns.len(),
    ensures
        conflicts(table, accepted, candidate, columns, from) <==> exists|i: int, k: int|
            0 <= i < (table.rows + accepted).len() && from <= k < columns.len() && !(candidate[columns[k] as int] is Null)
                && #[trigger] same_value((table.rows + accepted)[i][columns[k] as int], candidate[columns[k] as int]),
    decreases columns.len() - from,
{
    let all = table.rows + accepted;
    if from < columns.len() {
        lemma_conflicts(table, accepted, candidate, columns, from + 1);
        let column = columns[from as int] as int;
        let value = candidate[column];
        lemma_holder(table.rows, column, key_of(value), table.rows.len());
        lemma_holds_equal(accepted, column, value, 0);
        assert(seq![candidate][0] == candidate);
        assert(seq![candidate][0][column] == value);
        assert forall|i: int| 0 <= i < table.rows.len() implies (#[trigger] same_value(table.rows[i][column], value) <==> key_of(
            table.rows[i][column],
        ) == key_of(value)) by {
            crate::value::law_key_is_equality(table.rows[i][column], value);
        }
        if !(value is Null) {
            if let Some(at) = holder(table.rows, column, key_of(value), table.rows.len()) {
                assert(all[at as int] == table.rows[at as int]);
                assert(same_value(table.rows[at as int][column], value));
                assert(same_value(all[at as int][columns[from as int] as int], candidate[columns[from as int] as int]));
            }
            if holds_equal(accepted, column, value, 0) {
                let i = choose|i: int| 0 <= i < accepted.len() && #[trigger] same_value(accepted[i][column], value);
                assert(all[table.rows.len() + i] == accepted[i]);
                assert(same_value(
                    all[table.rows.len() + i][columns[from as int] as int],
                    candidate[columns[from as int] as int],
                ));
            }
            assert forall|i: int| 0 <= i < all.len() && #[trigger] same_value(all[i][column], value) implies conflicts(
                table,
                accepted,
                candidate,
                columns,
                from,
            ) by {
                if i < table.rows.len() {
                    assert(all[i] == table.rows[i]);
                    assert(same_value(table.rows[i][column], value));
                    assert(!(table.rows[i][column] is Null));
                } else {
                    assert(all[i] == accepted[i - table.rows.len()]);
                    assert(same_value(accepted[i - table.rows.len()][column], value));
                }
            }
        }
    }
}

/// Whether rows are those at some positions of others, each of which clashes with none before it;
/// those left out do.
pub open spec fn unclashing(
    kept: Seq<Seq<ValueView>>,
    picked: Seq<int>,
    base: Seq<Seq<ValueView>>,
    pending: Seq<Seq<ValueView>>,
    columns: Seq<usize>,
) -> bool {
    &&& kept.len() == picked.len()
    &&& forall|i: int| 0 <= i < picked.len() ==> 0 <= #[trigger] picked[i] < pending.len() && kept[i] == pending[picked[i]]
    &&& forall|i: int, j: int| 0 <= i < j < picked.len() ==> #[trigger] picked[i] < #[trigger] picked[j]
    &&& forall|i: int| 0 <= i < picked.len() ==> !clashes(base + kept.take(i), pending[#[trigger] picked[i]], columns)
    &&& forall|at: int|
        0 <= at < pending.len() && !picked.contains(at) ==> clashes(base + kept, #[trigger] pending[at], columns)
}

proof fn lemma_clashes_more(base: Seq<Seq<ValueView>>, kept: Seq<Seq<ValueView>>, added: Seq<ValueView>, row: Seq<ValueView>, columns: Seq<usize>)
    requires
        clashes(base + kept, row, columns),
    ensures
        clashes(base + kept.push(added), row, columns),
{
    let less = base + kept;
    let more = base + kept.push(added);
    let (i, k) = choose|i: int, k: int|
        0 <= i < less.len() && 0 <= k < columns.len() && !(row[columns[k] as int] is Null) && #[trigger] same_value(
            less[i][columns[k] as int],
            row[columns[k] as int],
        );
    assert(more[i] == less[i]);
    assert(same_value(more[i][columns[k] as int], row[columns[k] as int]));
}

proof fn lemma_accepted(
    table: TableView,
    pending: Seq<Seq<ValueView>>,
    columns: Seq<usize>,
    from: nat,
    accepted: Seq<Seq<ValueView>>,
    before: Seq<int>,
) -> (picked: Seq<int>)
    requires
        table.rows.len() <= usize::MAX,
        numbers_only(table.rows),
        numbers_only(pending),
        forall|i: int| 0 <= i < table.rows.len() ==> (#[trigger] table.rows[i]).len() == table.columns.len(),
        forall|i: int| 0 <= i < pending.len() ==> (#[trigger] pending[i]).len() == table.columns.len(),
        forall|k: int| 0 <= k < columns.len() ==> (#[trigger] columns[k]) < table.columns.len(),
        from <= pending.len(),
        unclashing(accepted, before, table.rows, pending.take(from as int), columns),
    ensures
        unclashing(accepted_rows(table, pending, columns, from, accepted), picked, table.rows, pending, columns),
    decreases pending.len() - from,
{
    if from < pending.len() {
        let row = pending[from as int];
        let first = pending.take(from as int);
        let more = pending.take(from as int + 1);
        assert(more[from as int] == row);
        assert forall|i: int| 0 <= i < from implies #[trigger] first[i] == more[i] by {
        }
        assert(numbers_only(seq![row])) by {
            assert forall|i: int, c: int| 0 <= i < 1 && 0 <= c < seq![row][i].len() implies ((#[trigger] seq![row][i][c]) matches ValueView::Float(
                bits,
            ) ==> !crate::float::not_a_number(bits)) by {
                assert(seq![row][i][c] == pending[from as int][c]);
            }
        }
        lemma_conflicts(table, accepted, row, columns, 0);
        assert(conflicts(table, accepted, row, columns, 0) == clashes(table.rows + accepted, row, columns));
        if conflicts(table, accepted, row, columns, 0) {
            assert forall|i: int| 0 <= i < before.len() implies 0 <= #[trigger] before[i] < more.len() && accepted[i] == more[before[i]]
                && !clashes(table.rows + accepted.take(i), more[before[i]], columns) by {
                assert(first[before[i]] == more[before[i]]);
            }
            assert forall|at: int| 0 <= at < more.len() && !before.contains(at) implies clashes(
                table.rows + accepted,
                #[trigger] more[at],
                columns,
            ) by {
                if at < from {
                    assert(clashes(table.rows + accepted, first[at], columns));
                }
            }
            lemma_accepted(table, pending, columns, from + 1, accepted, before)
        } else {
            let next = accepted.push(row);
            let after = before.push(from as int);
            assert forall|i: int| 0 <= i < after.len() implies 0 <= #[trigger] after[i] < more.len() && next[i] == more[after[i]]
                && !clashes(table.rows + next.take(i), more[after[i]], columns) by {
                assert(next.take(i) =~= accepted.take(i));
                if i < before.len() {
                    assert(after[i] == before[i]);
                    assert(first[before[i]] == more[before[i]]);
                } else {
                    assert(accepted.take(i) =~= accepted);
                }
            }
            assert forall|i: int, j: int| 0 <= i < j < after.len() implies #[trigger] after[i] < #[trigger] after[j] by {
                assert(after[i] == before[i]);
                if j < before.len() {
                    assert(after[j] == before[j]);
                }
            }
            assert forall|at: int| 0 <= at < more.len() && !after.contains(at) implies clashes(
                table.rows + next,
                #[trigger] more[at],
                columns,
            ) by {
                if at < from {
                    if before.contains(at) {
                        let i = choose|i: int| 0 <= i < before.len() && before[i] == at;
                        assert(after[i] == at);
                    }
                    assert(clashes(table.rows + accepted, first[at], columns));
                    lemma_clashes_more(table.rows, accepted, row, more[at], columns);
                } else {
                    assert(after[before.len() as int] == at);
                }
            }
            lemma_accepted(table, pending, columns, from + 1, next, after)
        }
    } else {
        assert(pending.take(from as int) =~= pending);
        before
    }
}

/// `DO NOTHING` adds the rows that conflict with no row before them in the columns that it is for, in
/// their order, and leaves the others out. The rows that were there stay.
pub proof fn law_do_nothing(table: TableView, pending: Seq<Seq<ValueView>>, columns: Seq<usize>, floats: Floats)
    requires
        table.rows.len() <= usize::MAX,
        numbers_only(table.rows),
        numbers_only(pending),
        forall|i: int| 0 <= i < table.rows.len() ==> (#[trigger] table.rows[i]).len() == table.columns.len(),
        forall|i: int| 0 <= i < pending.len() ==> (#[trigger] pending[i]).len() == table.columns.len(),
        forall|k: int| 0 <= k < columns.len() ==> (#[trigger] columns[k]) < table.columns.len(),
    ensures
        insert_outcome(table, pending, PlanView::DoNothing(columns), floats) matches Ok((rows, count)) ==> {
            &&& rows.len() == table.rows.len() + count
            &&& rows.take(table.rows.len() as int) == table.rows
            &&& exists|picked: Seq<int>| #[trigger]
                unclashing(rows.skip(table.rows.len() as int), picked, table.rows, pending, columns)
        },
{
    if let Ok((rows, count)) = insert_outcome(table, pending, PlanView::DoNothing(columns), floats) {
        assert(pending.take(0) =~= Seq::<Seq<ValueView>>::empty());
        let picked = lemma_accepted(table, pending, columns, 0, Seq::empty(), Seq::empty());
        let accepted = accepted_rows(table, pending, columns, 0, Seq::empty());
        assert(rows.take(table.rows.len() as int) =~= table.rows);
        assert(rows.skip(table.rows.len() as int) =~= accepted);
        assert(unclashing(rows.skip(table.rows.len() as int), picked, table.rows, pending, columns));
    }
}

proof fn lemma_copied_row(excluded: Seq<ValueView>, copied: Seq<usize>, from: nat, row: Seq<ValueView>, old: Seq<ValueView>)
    requires
        row.len() == old.len(),
        row.len() <= usize::MAX,
        from <= copied.len(),
        forall|k: int| 0 <= k < copied.len() ==> (#[trigger] copied[k]) < row.len(),
        forall|c: int|
            0 <= c < row.len() ==> (#[trigger] row[c]) == (if copied.take(from as int).contains(c as usize) {
                excluded[c]
            } else {
                old[c]
            }),
    ensures
        copied_row(excluded, copied, from, row).len() == old.len(),
        forall|c: int|
            0 <= c < old.len() ==> (#[trigger] copied_row(excluded, copied, from, row)[c]) == (if copied.contains(c as usize) {
                excluded[c]
            } else {
                old[c]
            }),
    decreases copied.len() - from,
{
    if from < copied.len() {
        let at = copied[from as int] as int;
        let next = row.update(at, excluded[at]);
        let less = copied.take(from as int);
        let more = copied.take(from as int + 1);
        assert forall|c: int| 0 <= c < next.len() implies (#[trigger] next[c]) == (if more.contains(c as usize) {
            excluded[c]
        } else {
            old[c]
        }) by {
            assert(more[from as int] == copied[from as int]);
            if less.contains(c as usize) {
                let i = choose|i: int| 0 <= i < less.len() && less[i] == c as usize;
                assert(more[i] == c as usize);
            }
            if more.contains(c as usize) && c != at {
                let i = choose|i: int| 0 <= i < more.len() && more[i] == c as usize;
                assert(less[i] == c as usize);
            }
            assert(row[c] == row[c]);
        }
        lemma_copied_row(excluded, copied, from + 1, next, old);
    } else {
        assert(copied.take(from as int) =~= copied);
    }
}

/// Whether rows are what one row with `DO UPDATE` makes of others. Where none has its value in the
/// column of conflict, it is added; else the first that has is replaced, and every other row stays.
pub open spec fn one_upserted(
    columns: Seq<ColumnView>,
    column: int,
    replacement: ReplacementView,
    rows: Seq<Seq<ValueView>>,
    added: Seq<ValueView>,
    after: Seq<Seq<ValueView>>,
    floats: Floats,
) -> bool {
    if added[column] is Null || forall|i: int| 0 <= i < rows.len() ==> !same_value(#[trigger] rows[i][column], added[column]) {
        after == rows.push(added)
    } else {
        exists|at: int| #[trigger]
            first_equal(rows, column, added[column], at) && after.len() == rows.len() && (forall|i: int|
                0 <= i < rows.len() && i != at ==> #[trigger] after[i] == rows[i]) && takes_over(
                columns,
                replacement,
                rows[at],
                added,
                after[at],
                floats,
            )
    }
}

/// Whether a row is the first with a value in a column.
pub open spec fn first_equal(rows: Seq<Seq<ValueView>>, column: int, value: ValueView, at: int) -> bool {
    &&& 0 <= at < rows.len()
    &&& same_value(rows[at][column], value)
    &&& forall|i: int| 0 <= i < at ==> !same_value(#[trigger] rows[i][column], value)
}

/// Whether a row is what a conflict makes of a stored one: the columns asked for are those of the row
/// that was to be inserted, or have the values assigned to them where the condition is true.
pub open spec fn takes_over(
    columns: Seq<ColumnView>,
    replacement: ReplacementView,
    old: Seq<ValueView>,
    added: Seq<ValueView>,
    row: Seq<ValueView>,
    floats: Floats,
) -> bool {
    match replacement {
        ReplacementView::Copy(copied) => row.len() == old.len() && forall|c: int|
            0 <= c < old.len() ==> (#[trigger] row[c]) == (if copied.contains(c as usize) {
                added[c]
            } else {
                old[c]
            }),
        ReplacementView::Assign(update, targets) => {
            let scope = ScopeView { schema: crate::eval::SchemaView::plain(columns), row: old, excluded: Some(added) };
            if update.selection matches Some(condition) && evaluated(condition, scope, floats) != Ok::<ValueView, ErrorView>(
                ValueView::Boolean(true),
            ) {
                row == old
            } else {
                assigned(update.assignments, targets, scope, old, row, floats)
            }
        },
    }
}

proof fn lemma_equal_position(rows: Seq<Seq<ValueView>>, column: int, value: ValueView, from: nat)
    ensures
        match equal_position(rows, column, value, from) {
            None => forall|i: int| from <= i < rows.len() ==> !same_value(#[trigger] rows[i][column], value),
            Some(at) => from <= at < rows.len() && same_value(rows[at as int][column], value) && forall|i: int|
                from <= i < at ==> !same_value(#[trigger] rows[i][column], value),
        },
    decreases rows.len() - from,
{
    if from < rows.len() && !same_value(rows[from as int][column], value) {
        lemma_equal_position(rows, column, value, from + 1);
    }
}

/// Whether a replacement is for columns of a table.
pub open spec fn fits_columns(replacement: ReplacementView, count: nat) -> bool {
    match replacement {
        ReplacementView::Copy(copied) => forall|k: int| 0 <= k < copied.len() ==> (#[trigger] copied[k]) < count,
        ReplacementView::Assign(update, targets) => different(targets, count) && targets.len() == update.assignments.len(),
    }
}

proof fn lemma_takes_over(
    columns: Seq<ColumnView>,
    replacement: ReplacementView,
    old: Seq<ValueView>,
    added: Seq<ValueView>,
    floats: Floats,
)
    requires
        old.len() <= usize::MAX,
        fits_columns(replacement, old.len()),
    ensures
        replaced_row(columns, replacement, old, added, floats) matches Ok(made) ==> takes_over(
            columns,
            replacement,
            old,
            added,
            match made {
                Some(row) => row,
                None => old,
            },
            floats,
        ),
{
    match replacement {
        ReplacementView::Copy(copied) => {
            assert(copied.take(0) =~= Seq::<usize>::empty());
            lemma_copied_row(added, copied, 0, old, old);
        },
        ReplacementView::Assign(update, targets) => {
            law_assignments(update.assignments, targets, ScopeView::upsert(columns, old, added), floats, old);
        },
    }
}

/// Whether rows come from others by rows with `DO UPDATE`, one after the other.
pub open spec fn all_upserted(
    columns: Seq<ColumnView>,
    column: int,
    replacement: ReplacementView,
    pending: Seq<Seq<ValueView>>,
    states: Seq<Seq<Seq<ValueView>>>,
    floats: Floats,
) -> bool {
    &&& states.len() == pending.len() + 1
    &&& forall|k: int|
        0 <= k < pending.len() ==> one_upserted(
            columns,
            column,
            replacement,
            states[k],
            #[trigger] pending[k],
            states[k + 1],
            floats,
        )
}

proof fn lemma_upserted(
    columns: Seq<ColumnView>,
    pending: Seq<Seq<ValueView>>,
    conflict_column: usize,
    replacement: ReplacementView,
    floats: Floats,
    from: nat,
    rows: Seq<Seq<ValueView>>,
    touched: Seq<bool>,
    affected: nat,
    states: Seq<Seq<Seq<ValueView>>>,
) -> (after: Seq<Seq<Seq<ValueView>>>)
    requires
        from <= pending.len(),
        columns.len() <= usize::MAX,
        fits_columns(replacement, columns.len()),
        forall|i: int| 0 <= i < rows.len() ==> (#[trigger] rows[i]).len() == columns.len(),
        forall|i: int| 0 <= i < pending.len() ==> (#[trigger] pending[i]).len() == columns.len(),
        all_upserted(columns, conflict_column as int, replacement, pending.take(from as int), states, floats),
        states.last() == rows,
    ensures
        upserted(columns, pending, conflict_column, replacement, floats, from, rows, touched, affected) matches Ok((done, _)) ==> all_upserted(
            columns,
            conflict_column as int,
            replacement,
            pending,
            after,
            floats,
        ) && after.last() == done && after[0] == states[0],
    decreases pending.len() - from,
{
    let column = conflict_column as int;
    if from < pending.len() {
        let added = pending[from as int];
        let less = pending.take(from as int);
        let more = pending.take(from as int + 1);
        if !(added[column] is Null) {
            lemma_equal_position(rows, column, added[column], 0);
        }
        let next = match conflict_position(rows, column, added) {
            None => rows.push(added),
            Some(at) => match replaced_row(columns, replacement, rows[at as int], added, floats) {
                Ok(Some(row)) => rows.update(at as int, row),
                _ => rows,
            },
        };
        let steps = states.push(next);
        if upserted(columns, pending, conflict_column, replacement, floats, from, rows, touched, affected) is Ok {
            if let Some(at) = conflict_position(rows, column, added) {
                lemma_takes_over(columns, replacement, rows[at as int], added, floats);
                assert(first_equal(rows, column, added[column], at as int));
            }
            assert(one_upserted(columns, column, replacement, rows, added, next, floats));
            assert forall|k: int| 0 <= k < more.len() implies one_upserted(
                columns,
                column,
                replacement,
                steps[k],
                #[trigger] more[k],
                steps[k + 1],
                floats,
            ) by {
                if k < from {
                    assert(less[k] == more[k]);
                    assert(steps[k] == states[k] && steps[k + 1] == states[k + 1]);
                }
            }
            assert forall|i: int| 0 <= i < next.len() implies (#[trigger] next[i]).len() == columns.len() by {
                if i < rows.len() {
                    assert(rows[i].len() == columns.len());
                }
            }
            match conflict_position(rows, column, added) {
                None => lemma_upserted(
                    columns,
                    pending,
                    conflict_column,
                    replacement,
                    floats,
                    from + 1,
                    next,
                    touched.push(true),
                    affected + 1,
                    steps,
                ),
                Some(at) => {
                    let count = if replaced_row(columns, replacement, rows[at as int], added, floats)->Ok_0 is Some {
                        affected + 1
                    } else {
                        affected
                    };
                    lemma_upserted(
                        columns,
                        pending,
                        conflict_column,
                        replacement,
                        floats,
                        from + 1,
                        next,
                        touched.update(at as int, true),
                        count,
                        steps,
                    )
                },
            }
        } else {
            states
        }
    } else {
        assert(pending.take(from as int) =~= pending);
        states
    }
}

/// `DO UPDATE` takes one row after the other: it adds those whose value in the column of conflict no
/// row has, and else replaces in the row that has it what is to be replaced.
pub proof fn law_do_update(
    table: TableView,
    pending: Seq<Seq<ValueView>>,
    conflict_column: usize,
    replacement: ReplacementView,
    floats: Floats,
)
    requires
        table.columns.len() <= usize::MAX,
        fits_columns(replacement, table.columns.len()),
        forall|i: int| 0 <= i < table.rows.len() ==> (#[trigger] table.rows[i]).len() == table.columns.len(),
        forall|i: int| 0 <= i < pending.len() ==> (#[trigger] pending[i]).len() == table.columns.len(),
    ensures
        upsert_outcome(table, pending, conflict_column, replacement, floats) matches Ok((rows, _)) ==> exists|states: Seq<
            Seq<Seq<ValueView>>,
        >| #[trigger]
            all_upserted(table.columns, conflict_column as int, replacement, pending, states, floats) && states[0] == table.rows
                && states.last() == rows,
{
    assert(pending.take(0) =~= Seq::<Seq<ValueView>>::empty());
    let states = lemma_upserted(
        table.columns,
        pending,
        conflict_column,
        replacement,
        floats,
        0,
        table.rows,
        nothing_touched(table.rows.len()),
        0,
        seq![table.rows],
    );
}

} // verus!
