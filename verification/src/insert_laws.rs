//! That typed rows are inserted as SQL inserts them.

use vstd::prelude::*;
use crate::ast::{last_name, BodyView, ExprView, IdentView, OnInsertView, QueryView};
use crate::catalog::{
    command, conflict_plan, filled_row, inserted, lemma_table_position, listed_row, listed_rows, null_row, table_position,
    typed_inserted, typed_plan, CatalogView, ExecutionView, InsertConflictView, NamedTableView,
};
use crate::error::ErrorView;
use crate::eval::{evaluated, ScopeView};
use crate::float::Floats;
use crate::index::{holder, lemma_holder};
use crate::operators::coerced;
use crate::table::{unique_checked, TableView};
use crate::text::normalized;
use crate::value::{key_of, law_key_is_equality, same_value, ColumnView, ValueView};
use crate::write::{accepted_rows, coerced_row, conflicts, holds_equal, typed_row, typed_rows, PlanView};

verus! {

/// Whether expressions are constants with these values, one for each column.
pub open spec fn spells(expressions: Seq<ExprView>, values: Seq<ValueView>, width: nat, floats: Floats) -> bool {
    &&& expressions.len() == width
    &&& values.len() == width
    &&& forall|i: int|
        0 <= i < width ==> evaluated(#[trigger] expressions[i], ScopeView::none(), floats) == Ok::<ValueView, ErrorView>(
            values[i],
        )
}

/// The positions of all columns.
spec fn every_target(width: nat) -> Seq<usize> {
    Seq::new(width, |i: int| i as usize)
}

/// Filling a row from its first column on gives the row of the values in the types of the columns.
proof fn lemma_filled(
    columns: Seq<ColumnView>,
    expressions: Seq<ExprView>,
    values: Seq<ValueView>,
    floats: Floats,
    from: nat,
    row: Seq<ValueView>,
)
    requires
        spells(expressions, values, columns.len(), floats),
        from <= columns.len() <= usize::MAX,
        row.len() == columns.len(),
    ensures
        match (
            filled_row(columns, every_target(columns.len()), expressions, floats, from, row),
            coerced_row(columns, values, floats, from, row.take(from as int)),
        ) {
            (Ok(filled), Ok(typed)) => filled == typed,
            (Err(first), Err(second)) => first == second,
            _ => false,
        },
    decreases columns.len() - from,
{
    if from < columns.len() {
        assert(evaluated(expressions[from as int], ScopeView::none(), floats) == Ok::<ValueView, ErrorView>(
            values[from as int],
        ));
        if let Ok(value) = coerced(floats, values[from as int], columns[from as int].data_type) {
            let next = row.update(from as int, value);
            assert(next.take(from as int + 1) =~= row.take(from as int).push(value));
            lemma_filled(columns, expressions, values, floats, from + 1, next);
        }
    } else {
        assert(row.take(from as int) =~= row);
    }
}

proof fn lemma_row_listed(columns: Seq<ColumnView>, expressions: Seq<ExprView>, values: Seq<ValueView>, floats: Floats)
    requires
        spells(expressions, values, columns.len(), floats),
        columns.len() <= usize::MAX,
    ensures
        listed_row(columns, every_target(columns.len()), expressions, floats) == typed_row(columns, values, floats),
{
    let empty = null_row(columns.len());
    lemma_filled(columns, expressions, values, floats, 0, empty);
    assert(empty.take(0) =~= Seq::<ValueView>::empty());
}

proof fn lemma_rows_listed(
    columns: Seq<ColumnView>,
    lists: Seq<Seq<ExprView>>,
    rows: Seq<Seq<ValueView>>,
    floats: Floats,
    from: nat,
    done: Seq<Seq<ValueView>>,
)
    requires
        columns.len() <= usize::MAX,
        lists.len() == rows.len(),
        forall|i: int| 0 <= i < lists.len() ==> spells(#[trigger] lists[i], rows[i], columns.len(), floats),
    ensures
        listed_rows(columns, every_target(columns.len()), lists, floats, from, done) == typed_rows(
            columns,
            rows,
            floats,
            from,
            done,
        ),
    decreases lists.len() - from,
{
    if from < lists.len() {
        assert(spells(lists[from as int], rows[from as int], columns.len(), floats));
        lemma_row_listed(columns, lists[from as int], rows[from as int], floats);
        if let Ok(row) = typed_row(columns, rows[from as int], floats) {
            lemma_rows_listed(columns, lists, rows, floats, from + 1, done.push(row));
        }
    }
}

/// Typed rows are inserted exactly as an `INSERT` of constants with their values: with the same
/// change to the catalog, the same number of rows and the same errors.
pub proof fn law_typed_rows_like_sql(
    catalog: CatalogView,
    name: Seq<IdentView>,
    query: QueryView,
    on_insert: Option<OnInsertView>,
    table: Seq<char>,
    rows: Seq<Seq<ValueView>>,
    conflict: InsertConflictView,
    floats: Floats,
)
    requires
        normalized(table) == last_name(name),
        catalog.located(last_name(name)) matches Ok(at) ==> {
            let columns = catalog.tables[at as int].table.columns;
            &&& columns.len() <= usize::MAX
            &&& conflict_plan(columns, on_insert) == typed_plan(columns, conflict)
            &&& query.body matches BodyView::Values(lists) && lists.len() == rows.len() && forall|i: int|
                0 <= i < lists.len() ==> spells(#[trigger] lists[i], rows[i], columns.len(), floats)
        },
        query.body is Values,
    ensures
        inserted(catalog, name, Seq::empty(), Some(query), on_insert, floats) == match typed_inserted(
            catalog,
            table,
            rows,
            conflict,
            floats,
        ) {
            Err(error) => Err::<(CatalogView, ExecutionView), ErrorView>(error),
            Ok((after, affected)) => Ok((after, command("INSERT"@, affected))),
        },
{
    if let Ok(at) = catalog.located(last_name(name)) {
        let columns = catalog.tables[at as int].table.columns;
        if let BodyView::Values(lists) = query.body {
            lemma_rows_listed(columns, lists, rows, floats, 0, Seq::empty());
        }
    }
}

/// Equal values have equal keys.
proof fn lemma_equal_keys(left: ValueView, right: ValueView)
    requires
        same_value(left, right),
    ensures
        key_of(left) == key_of(right),
{
    law_key_is_equality(left, right);
}

/// Whether a candidate conflicts in one column with a stored row or an accepted one.
spec fn conflicts_at(
    rows: Seq<Seq<ValueView>>,
    accepted: Seq<Seq<ValueView>>,
    candidate: Seq<ValueView>,
    column: int,
) -> bool {
    !(candidate[column] is Null) && (holder(rows, column, key_of(candidate[column]), rows.len()) is Some || holds_equal(
        accepted,
        column,
        candidate[column],
        0,
    ))
}

proof fn lemma_conflicts(
    table: TableView,
    accepted: Seq<Seq<ValueView>>,
    candidate: Seq<ValueView>,
    columns: Seq<usize>,
    from: nat,
)
    ensures
        conflicts(table, accepted, candidate, columns, from) <==> exists|k: int|
            from <= k < columns.len() && conflicts_at(table.rows, accepted, candidate, #[trigger] columns[k] as int),
    decreases columns.len() - from,
{
    if from < columns.len() {
        lemma_conflicts(table, accepted, candidate, columns, from + 1);
        if conflicts_at(table.rows, accepted, candidate, columns[from as int] as int) {
            assert(conflicts(table, accepted, candidate, columns, from));
        }
    }
}

proof fn lemma_holds_equal(rows: Seq<Seq<ValueView>>, column: int, value: ValueView, from: nat)
    ensures
        holds_equal(rows, column, value, from) ==> exists|i: int|
            from <= i < rows.len() && same_value((#[trigger] rows[i])[column], value),
    decreases rows.len() - from,
{
    if from < rows.len() {
        lemma_holds_equal(rows, column, value, from + 1);
    }
}

/// A key that some row holds has a holder.
proof fn lemma_held(rows: Seq<Seq<ValueView>>, column: int, at: int, key: ValueView)
    requires
        0 <= at < rows.len() <= usize::MAX,
        !(rows[at][column] is Null),
        key_of(rows[at][column]) == key,
    ensures
        holder(rows, column, key, rows.len()) is Some,
{
    lemma_holder(rows, column, key, rows.len());
}

/// What was accepted before stays accepted.
proof fn lemma_accepted_grows(
    table: TableView,
    pending: Seq<Seq<ValueView>>,
    columns: Seq<usize>,
    from: nat,
    accepted: Seq<Seq<ValueView>>,
)
    ensures
        accepted.len() <= accepted_rows(table, pending, columns, from, accepted).len(),
        accepted_rows(table, pending, columns, from, accepted).take(accepted.len() as int) == accepted,
    decreases pending.len() - from,
{
    let all = accepted_rows(table, pending, columns, from, accepted);
    if from >= pending.len() {
        assert(all.take(accepted.len() as int) =~= accepted);
    } else if conflicts(table, accepted, pending[from as int], columns, 0) {
        lemma_accepted_grows(table, pending, columns, from + 1, accepted);
    } else {
        let next = accepted.push(pending[from as int]);
        lemma_accepted_grows(table, pending, columns, from + 1, next);
        assert(all.take(accepted.len() as int) =~= next.take(accepted.len() as int)) by {
            assert(all.take(next.len() as int) == next);
            assert(all.take(accepted.len() as int) =~= all.take(next.len() as int).take(accepted.len() as int));
        }
        assert(next.take(accepted.len() as int) =~= accepted);
    }
}

/// Whether a row has a key in one of the columns.
pub open spec fn keyed(row: Seq<ValueView>, columns: Seq<usize>) -> bool {
    exists|k: int| 0 <= k < columns.len() && !(row[(#[trigger] columns[k]) as int] is Null)
}

/// Once the pending rows are in, each of them conflicts.
proof fn lemma_pending_conflict(
    table: TableView,
    pending: Seq<Seq<ValueView>>,
    columns: Seq<usize>,
    from: nat,
    accepted: Seq<Seq<ValueView>>,
    at: int,
)
    requires
        from <= at < pending.len(),
        keyed(pending[at], columns),
        table.rows.len() + accepted_rows(table, pending, columns, from, accepted).len() <= usize::MAX,
    ensures
        conflicts(
            table.with_rows(table.rows + accepted_rows(table, pending, columns, from, accepted)),
            Seq::empty(),
            pending[at],
            columns,
            0,
        ),
    decreases pending.len() - from,
{
    let candidate = pending[from as int];
    let all = accepted_rows(table, pending, columns, from, accepted);
    let next = if conflicts(table, accepted, candidate, columns, 0) {
        accepted
    } else {
        accepted.push(candidate)
    };
    if at > from {
        lemma_pending_conflict(table, pending, columns, from + 1, next, at);
    } else {
        let rows = table.rows + all;
        let later = table.with_rows(rows);
        lemma_conflicts(later, Seq::empty(), candidate, columns, 0);
        lemma_conflicts(table, accepted, candidate, columns, 0);
        lemma_accepted_grows(table, pending, columns, from + 1, next);
        if conflicts(table, accepted, candidate, columns, 0) {
            let k = choose|k: int|
                0 <= k < columns.len() && conflicts_at(table.rows, accepted, candidate, #[trigger] columns[k] as int);
            let column = columns[k] as int;
            let key = key_of(candidate[column]);
            if holder(table.rows, column, key, table.rows.len()) is Some {
                lemma_holder(table.rows, column, key, table.rows.len());
                let position = holder(table.rows, column, key, table.rows.len())->0 as int;
                assert(rows[position] == table.rows[position]);
                lemma_held(rows, column, position, key);
            } else {
                lemma_holds_equal(accepted, column, candidate[column], 0);
                let i = choose|i: int|
                    0 <= i < accepted.len() && same_value((#[trigger] accepted[i])[column], candidate[column]);
                lemma_equal_keys(accepted[i][column], candidate[column]);
                assert(all.take(accepted.len() as int)[i] == accepted[i]);
                assert(rows[table.rows.len() + i] == accepted[i]);
                lemma_held(rows, column, table.rows.len() + i, key);
            }
            assert(conflicts_at(later.rows, Seq::empty(), candidate, columns[k] as int));
        } else {
            let k = choose|k: int| 0 <= k < columns.len() && !(candidate[(#[trigger] columns[k]) as int] is Null);
            let column = columns[k] as int;
            assert(all.take(next.len() as int)[accepted.len() as int] == candidate);
            assert(rows[(table.rows.len() + accepted.len()) as int] == candidate);
            lemma_held(rows, column, (table.rows.len() + accepted.len()) as int, key_of(candidate[column]));
            assert(conflicts_at(later.rows, Seq::empty(), candidate, columns[k] as int));
        }
    }
}

proof fn lemma_none_accepted(table: TableView, pending: Seq<Seq<ValueView>>, columns: Seq<usize>, from: nat)
    requires
        forall|i: int| from <= i < pending.len() ==> conflicts(table, Seq::empty(), #[trigger] pending[i], columns, 0),
    ensures
        accepted_rows(table, pending, columns, from, Seq::empty()) == Seq::<Seq<ValueView>>::empty(),
    decreases pending.len() - from,
{
    if from < pending.len() {
        assert(conflicts(table, Seq::empty(), pending[from as int], columns, 0));
        lemma_none_accepted(table, pending, columns, from + 1);
    }
}

proof fn lemma_nothing_repeats(columns: Seq<ColumnView>, base: Seq<Seq<ValueView>>, from: nat)
    ensures
        unique_checked(columns, base, Seq::empty(), from) is Ok,
    decreases columns.len() - from,
{
    if from < columns.len() {
        lemma_nothing_repeats(columns, base, from + 1);
    }
}

/// A batch of rows with keys that is inserted again, with conflicting rows passed over, changes
/// nothing the second time.
pub proof fn law_replayed_batch_changes_nothing(
    catalog: CatalogView,
    name: Seq<char>,
    rows: Seq<Seq<ValueView>>,
    conflict: InsertConflictView,
    floats: Floats,
)
    requires
        conflict is DoNothing,
        typed_inserted(catalog, name, rows, conflict, floats) is Ok,
        ({
            let at = catalog.located(normalized(name))->Ok_0 as int;
            let after = typed_inserted(catalog, name, rows, conflict, floats)->Ok_0.0;
            let columns = catalog.tables[at].table.columns;
            let pending = typed_rows(columns, rows, floats, 0, Seq::empty())->Ok_0;
            &&& after.tables[at].table.rows.len() <= usize::MAX
            &&& typed_plan(columns, conflict) matches Ok(PlanView::DoNothing(keys)) && forall|i: int|
                0 <= i < pending.len() ==> keyed(#[trigger] pending[i], keys)
        }),
    ensures
        ({
            let after = typed_inserted(catalog, name, rows, conflict, floats)->Ok_0.0;
            typed_inserted(after, name, rows, conflict, floats) == Ok::<(CatalogView, nat), ErrorView>((after, 0))
        }),
{
    let at = catalog.located(normalized(name))->Ok_0;
    let (after, affected) = typed_inserted(catalog, name, rows, conflict, floats)->Ok_0;
    let table = catalog.tables[at as int].table;
    let keys = typed_plan(table.columns, conflict)->Ok_0->DoNothing_0;
    let pending = typed_rows(table.columns, rows, floats, 0, Seq::empty())->Ok_0;
    let accepted = accepted_rows(table, pending, keys, 0, Seq::empty());
    lemma_table_position(catalog.tables, normalized(name), 0);
    let stored = table.with_rows(table.rows + accepted);
    assert(after.tables[at as int].table == stored);
    assert forall|i: int| 0 <= i < pending.len() implies conflicts(stored, Seq::empty(), #[trigger] pending[i], keys, 0) by {
        assert(keyed(pending[i], keys));
        lemma_pending_conflict(table, pending, keys, 0, Seq::empty(), i);
    }
    lemma_none_accepted(stored, pending, keys, 0);
    lemma_nothing_repeats(table.columns, stored.rows, 0);
    lemma_same_names(catalog.tables, after.tables, normalized(name), 0);
    assert(stored.rows + Seq::<Seq<ValueView>>::empty() =~= stored.rows);
    assert(after.with_rows(at, stored.rows).tables =~= after.tables);
}

proof fn lemma_same_names(before: Seq<NamedTableView>, after: Seq<NamedTableView>, name: Seq<char>, from: nat)
    requires
        before.len() == after.len(),
        forall|i: int| 0 <= i < before.len() ==> (#[trigger] after[i]).name == before[i].name,
    ensures
        table_position(before, name, from) == table_position(after, name, from),
    decreases before.len() - from,
{
    if from < before.len() {
        assert(after[from as int].name == before[from as int].name);
        lemma_same_names(before, after, name, from + 1);
    }
}

} // verus!
