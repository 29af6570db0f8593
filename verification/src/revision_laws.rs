//! That the revision of a catalog tells whether it was changed.

use vstd::prelude::*;
use crate::ast::{
    last_name, AssignmentView, BodyView, ExprView, IdentView, OnInsertView, QueryView, StatementView, TableWithJoinsView,
};
use crate::catalog::{
    conflict_plan, deleted, insert_targets, inserted, kept_rows, lemma_table_position, listed_rows, source_name,
    table_position, typed_inserted, typed_plan, updated, updated_rows, CatalogView, ExecutionView, InsertConflictView,
    NamedTableView,
};
use crate::database::{answered, logged_as};
use crate::error::ErrorView;
use crate::execute::{executed, executed_all};
use crate::float::Floats;
use crate::notation::parsed;
use crate::eval::{selects, ScopeView};
use crate::schema::{
    index_owner, index_position, indexes_dropped, last_names, tables_dropped, with_indexes, without_indexes, without_tables,
};
use crate::table::TableView;
use crate::text::normalized;
use crate::value::{ColumnView, ValueView};
use crate::write::{
    assigned_names, assigned_row, conflict_position, insert_outcome, nothing_touched, replaced_row, target_columns, typed_rows, upserted,
    PlanView, ReplacementView,
};

verus! {

/// Whether a catalog is as it was, or one revision later.
pub open spec fn stepped(before: CatalogView, after: CatalogView) -> bool {
    after == before || after.revision == before.revision.wrapping_add(1)
}

proof fn lemma_same_rows(catalog: CatalogView, at: nat)
    requires
        at < catalog.tables.len(),
    ensures
        catalog.with_rows(at, catalog.tables[at as int].table.rows) == catalog,
{
    assert(catalog.with_rows(at, catalog.tables[at as int].table.rows).tables =~= catalog.tables);
}

proof fn lemma_upserted(
    columns: Seq<ColumnView>,
    pending: Seq<Seq<ValueView>>,
    conflict_column: usize,
    replacement: ReplacementView,
    floats: Floats,
    from: nat,
    rows: Seq<Seq<ValueView>>,
    touched: Seq<bool>,
    affected: nat,
)
    ensures
        upserted(columns, pending, conflict_column, replacement, floats, from, rows, touched, affected) matches Ok((now, count))
            ==> count >= affected && (count == affected ==> now == rows),
    decreases pending.len() - from,
{
    if from < pending.len() {
        let row = pending[from as int];
        match conflict_position(rows, conflict_column as int, row) {
            None => {
                lemma_upserted(
                    columns,
                    pending,
                    conflict_column,
                    replacement,
                    floats,
                    from + 1,
                    rows.push(row),
                    touched.push(true),
                    affected + 1,
                );
            },
            Some(at) => {
                if !touched[at as int] {
                    match replaced_row(columns, replacement, rows[at as int], row, floats) {
                        Ok(None) => {
                            lemma_upserted(
                                columns,
                                pending,
                                conflict_column,
                                replacement,
                                floats,
                                from + 1,
                                rows,
                                touched.update(at as int, true),
                                affected,
                            );
                        },
                        Ok(Some(changed)) => {
                            lemma_upserted(
                                columns,
                                pending,
                                conflict_column,
                                replacement,
                                floats,
                                from + 1,
                                rows.update(at as int, changed),
                                touched.update(at as int, true),
                                affected + 1,
                            );
                        },
                        Err(_) => {},
                    }
                }
            },
        }
    }
}

/// An insertion that affects no row leaves the rows as they are.
proof fn lemma_inserted(table: TableView, pending: Seq<Seq<ValueView>>, plan: PlanView, floats: Floats)
    ensures
        insert_outcome(table, pending, plan, floats) matches Ok((rows, affected)) ==> affected == 0 ==> rows == table.rows,
{
    if let Ok((rows, affected)) = insert_outcome(table, pending, plan, floats) {
        match plan {
            PlanView::Fail => {
                assert(affected == 0 ==> rows =~= table.rows);
            },
            PlanView::DoNothing(_) => {
                assert(affected == 0 ==> rows =~= table.rows);
            },
            PlanView::DoUpdate { conflict_column, update } => {
                let targets = target_columns(
                    table.columns,
                    assigned_names(update.assignments),
                    ErrorView::InvalidQuery("empty ON CONFLICT assignment"@),
                    0,
                    Seq::empty(),
                )->Ok_0;
                lemma_upserted(
                    table.columns,
                    pending,
                    conflict_column,
                    ReplacementView::Assign(update, targets),
                    floats,
                    0,
                    table.rows,
                    nothing_touched(table.rows.len()),
                    0,
                );
            },
            PlanView::ReplaceColumns { conflict_column, update_columns } => {
                lemma_upserted(
                    table.columns,
                    pending,
                    conflict_column,
                    ReplacementView::Copy(update_columns),
                    floats,
                    0,
                    table.rows,
                    nothing_touched(table.rows.len()),
                    0,
                );
            },
        }
    }
}

proof fn lemma_updated(
    table: TableView,
    assignments: Seq<AssignmentView>,
    targets: Seq<usize>,
    selection: Option<ExprView>,
    floats: Floats,
    from: nat,
    done: Seq<Seq<ValueView>>,
    affected: nat,
)
    requires
        from <= table.rows.len(),
    ensures
        updated_rows(table, assignments, targets, selection, floats, from, done, affected) matches Ok((rows, count)) ==> count
            >= affected && (count == affected ==> rows == done + table.rows.skip(from as int)),
    decreases table.rows.len() - from,
{
    if from < table.rows.len() {
        let row = table.rows[from as int];
        let scope = ScopeView::plain(table.columns, row);
        match selects(selection, scope, floats) {
            Ok(false) => {
                lemma_updated(table, assignments, targets, selection, floats, from + 1, done.push(row), affected);
                assert(done.push(row) + table.rows.skip(from as int + 1) =~= done + table.rows.skip(from as int));
            },
            Ok(true) => {
                if let Ok(changed) = assigned_row(assignments, targets, scope, floats, 0, row) {
                    lemma_updated(
                        table,
                        assignments,
                        targets,
                        selection,
                        floats,
                        from + 1,
                        done.push(changed),
                        affected + 1,
                    );
                }
            },
            Err(_) => {},
        }
    } else {
        assert(done + table.rows.skip(from as int) =~= done);
    }
}

proof fn lemma_kept(table: TableView, selection: Option<ExprView>, floats: Floats, from: nat, kept: Seq<Seq<ValueView>>)
    requires
        from <= table.rows.len(),
    ensures
        kept_rows(table, selection, floats, from, kept) matches Ok(rows) ==> rows.len() <= kept.len() + table.rows.len() - from
            && (rows.len() == kept.len() + table.rows.len() - from ==> rows == kept + table.rows.skip(from as int)),
    decreases table.rows.len() - from,
{
    if from < table.rows.len() {
        let row = table.rows[from as int];
        if let Ok(deleted) = selects(selection, ScopeView::plain(table.columns, row), floats) {
            if deleted {
                lemma_kept(table, selection, floats, from + 1, kept);
            } else {
                lemma_kept(table, selection, floats, from + 1, kept.push(row));
                assert(kept.push(row) + table.rows.skip(from as int + 1) =~= kept + table.rows.skip(from as int));
            }
        }
    } else {
        assert(kept + table.rows.skip(from as int) =~= kept);
    }
}

proof fn lemma_without_tables(tables: Seq<NamedTableView>, names: Seq<Seq<char>>, from: nat, count: nat)
    ensures
        without_tables(tables, names, from, count).1 >= count,
        without_tables(tables, names, from, count).1 == count ==> without_tables(tables, names, from, count).0 == tables,
    decreases names.len() - from,
{
    if from < names.len() {
        match table_position(tables, names[from as int], 0) {
            Some(at) => lemma_without_tables(tables.remove(at as int), names, from + 1, count + 1),
            None => lemma_without_tables(tables, names, from + 1, count),
        }
    }
}

proof fn lemma_without_indexes(catalog: CatalogView, names: Seq<Seq<char>>, from: nat, count: nat)
    ensures
        without_indexes(catalog, names, from, count).1 >= count,
        without_indexes(catalog, names, from, count).1 == count ==> without_indexes(catalog, names, from, count).0 == catalog,
        without_indexes(catalog, names, from, count).0.revision == catalog.revision,
    decreases names.len() - from,
{
    if from < names.len() {
        let name = names[from as int];
        match index_owner(catalog.tables, name, 0) {
            Some(at) => {
                let indexes = catalog.tables[at as int].table.indexes;
                let position = index_position(indexes, name, 0)->0;
                lemma_without_indexes(
                    with_indexes(catalog, at, indexes.remove(position as int)),
                    names,
                    from + 1,
                    count + 1,
                );
            },
            None => lemma_without_indexes(catalog, names, from + 1, count),
        }
    }
}

proof fn lemma_insert_steps(
    catalog: CatalogView,
    name: Seq<IdentView>,
    names: Seq<IdentView>,
    source: Option<QueryView>,
    on_insert: Option<OnInsertView>,
    floats: Floats,
)
    ensures
        inserted(catalog, name, names, source, on_insert, floats) matches Ok((after, _)) ==> stepped(catalog, after),
{
    if let Ok(at) = catalog.located(last_name(name)) {
        lemma_table_position(catalog.tables, last_name(name), 0);
        lemma_same_rows(catalog, at);
        let table = catalog.tables[at as int].table;
        if let Some(query) = source {
            if let BodyView::Values(lists) = query.body {
                if let Ok(plan) = conflict_plan(table.columns, on_insert) {
                    if let Ok(targets) = insert_targets(table.columns, names) {
                        if let Ok(pending) = listed_rows(table.columns, targets, lists, floats, 0, Seq::empty()) {
                            lemma_inserted(table, pending, plan, floats);
                        }
                    }
                }
            }
        }
    }
}

proof fn lemma_update_steps(
    catalog: CatalogView,
    source: TableWithJoinsView,
    assignments: Seq<AssignmentView>,
    selection: Option<ExprView>,
    floats: Floats,
)
    ensures
        updated(catalog, source, assignments, selection, floats) matches Ok((after, _)) ==> stepped(catalog, after),
{
    if let Ok(name) = source_name(source.relation) {
        if let Ok(at) = catalog.located(name) {
            lemma_table_position(catalog.tables, name, 0);
            lemma_same_rows(catalog, at);
            let table = catalog.tables[at as int].table;
            let targets = target_columns(
                table.columns,
                assigned_names(assignments),
                ErrorView::InvalidQuery("empty UPDATE assignment"@),
                0,
                Seq::empty(),
            )->Ok_0;
            lemma_updated(table, assignments, targets, selection, floats, 0, Seq::empty(), 0);
            assert(Seq::<Seq<ValueView>>::empty() + table.rows.skip(0) =~= table.rows);
        }
    }
}

proof fn lemma_delete_steps(catalog: CatalogView, from: Seq<TableWithJoinsView>, selection: Option<ExprView>, floats: Floats)
    ensures
        deleted(catalog, from, selection, floats) matches Ok((after, _)) ==> stepped(catalog, after),
{
    if from.len() == 1 {
        if let Ok(name) = source_name(from[0].relation) {
            if let Ok(at) = catalog.located(name) {
                lemma_table_position(catalog.tables, name, 0);
                lemma_same_rows(catalog, at);
                let table = catalog.tables[at as int].table;
                lemma_kept(table, selection, floats, 0, Seq::empty());
                assert(Seq::<Seq<ValueView>>::empty() + table.rows.skip(0) =~= table.rows);
            }
        }
    }
}

proof fn lemma_drop_steps(catalog: CatalogView, names: Seq<Seq<IdentView>>, if_exists: bool)
    ensures
        tables_dropped(catalog, names, if_exists) matches Ok((after, _)) ==> stepped(catalog, after),
        indexes_dropped(catalog, names, if_exists) matches Ok((after, _)) ==> stepped(catalog, after),
{
    lemma_without_tables(catalog.tables, last_names(names), 0, 0);
    lemma_without_indexes(catalog, last_names(names), 0, 0);
}

/// A statement leaves the catalog as it is, or takes it to the next revision.
pub proof fn law_statement_steps(catalog: CatalogView, statement: StatementView, floats: Floats)
    ensures
        executed(catalog, statement, floats) matches Ok((after, _)) ==> stepped(catalog, after),
{
    reveal(executed);
    match statement {
        StatementView::Insert { table_name, columns, source, on_insert, returning } => {
            lemma_insert_steps(catalog, table_name, columns, source, on_insert, floats);
        },
        StatementView::Update { table, assignments, selection, extended } => {
            lemma_update_steps(catalog, table, assignments, selection, floats);
        },
        StatementView::Delete { from, selection, extended } => {
            lemma_delete_steps(catalog, from, selection, floats);
        },
        StatementView::Drop { kind, names, if_exists, modified } => {
            lemma_drop_steps(catalog, names, if_exists);
        },
        _ => {},
    }
}

/// Typed rows leave the catalog as it is, or take it to the next revision.
pub proof fn law_typed_rows_step(
    catalog: CatalogView,
    name: Seq<char>,
    rows: Seq<Seq<ValueView>>,
    conflict: InsertConflictView,
    floats: Floats,
)
    ensures
        typed_inserted(catalog, name, rows, conflict, floats) matches Ok((after, _)) ==> stepped(catalog, after),
{
    if let Ok(at) = catalog.located(normalized(name)) {
        lemma_table_position(catalog.tables, normalized(name), 0);
        lemma_same_rows(catalog, at);
        let table = catalog.tables[at as int].table;
        if let (Ok(plan), Ok(pending)) = (
            typed_plan(table.columns, conflict),
            typed_rows(table.columns, rows, floats, 0, Seq::empty()),
        ) {
            lemma_inserted(table, pending, plan, floats);
        }
    }
}

/// Whether a catalog is so many revisions later, and as it was where that is none.
spec fn advanced(before: CatalogView, after: CatalogView, steps: nat) -> bool {
    &&& after.revision as int == (before.revision + steps) % 0x1_0000_0000_0000_0000
    &&& steps == 0 ==> after == before
}

proof fn lemma_steps(
    catalog: CatalogView,
    statements: Seq<StatementView>,
    floats: Floats,
    from: nat,
    done: Seq<ExecutionView>,
) -> (steps: nat)
    requires
        from <= statements.len(),
    ensures
        steps <= statements.len() - from,
        executed_all(catalog, statements, floats, from, done) matches Ok((after, _)) ==> advanced(catalog, after, steps),
    decreases statements.len() - from,
{
    if from >= statements.len() {
        0
    } else {
        match executed(catalog, statements[from as int], floats) {
            Err(_) => 0,
            Ok((after, result)) => {
                law_statement_steps(catalog, statements[from as int], floats);
                let rest = lemma_steps(after, statements, floats, from + 1, done.push(result));
                if after == catalog {
                    rest
                } else {
                    rest + 1
                }
            },
        }
    }
}

/// Where statements leave the revision of a catalog as it was, they have changed nothing: what was
/// saved or logged under a revision is what the catalog holds.
pub proof fn law_revision_tells_changes(catalog: CatalogView, statements: Seq<StatementView>, floats: Floats)
    requires
        statements.len() <= u64::MAX,
        executed_all(catalog, statements, floats, 0, Seq::empty()) is Ok,
        executed_all(catalog, statements, floats, 0, Seq::empty())->Ok_0.0.revision == catalog.revision,
    ensures
        executed_all(catalog, statements, floats, 0, Seq::empty())->Ok_0.0 == catalog,
{
    let steps = lemma_steps(catalog, statements, floats, 0, Seq::empty());
}

/// A request that is answered and not logged has changed nothing, so nothing of it can be lost.
pub proof fn law_unlogged_request_changed_nothing(catalog: CatalogView, sql: Seq<char>, floats: Floats)
    requires
        parsed(sql) matches Ok(statements) ==> statements.len() <= u64::MAX,
        answered(catalog, sql, floats) is Ok,
        logged_as(catalog, answered(catalog, sql, floats)->Ok_0.0) == Ok::<Option<u64>, ErrorView>(None),
    ensures
        answered(catalog, sql, floats)->Ok_0.0 == catalog,
{
    if let Ok(statements) = parsed(sql) {
        law_revision_tells_changes(catalog, statements, floats);
    }
}

} // verus!
