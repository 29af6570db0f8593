//! That the tables which statements make can be saved.

use vstd::prelude::*;
use crate::ast::{last_name, ColumnDefView, ExprView, IdentView, OrderView, StatementView, TableConstraintView};
use crate::catalog::{
    column_options, constrained_columns, declared_columns, declares, lemma_table_position, new_columns, source_name, table_created,
    table_position, typed_inserted, CatalogView, ExecutionView, InsertConflictView, NamedTableView,
};
use crate::error::ErrorView;
use crate::execute::{executed, executed_all};
use crate::float::Floats;
use crate::operators::logical_type;
use crate::restore::{holdable, index_names_apart, law_snapshot_restores, storable, storable_table, storable_type};
use crate::schema::{
    index_created, index_owner, index_position, last_names, with_indexes, without_indexes, without_tables,
};
use crate::snapshot::{arranged_tables, loaded, snapshot_of};
use crate::table::IndexView;
use crate::text::normalized;
use crate::value::{found_column, lemma_column_position, ColumnView, ValueView};

verus! {

/// Whether there are columns, each with a name of its own, and no vector is longer than the limit.
pub open spec fn sound_columns(columns: Seq<ColumnView>) -> bool {
    &&& columns.len() > 0
    &&& forall|c: int| 0 <= c < columns.len() ==> storable_type((#[trigger] columns[c]).data_type)
    &&& forall|c: int, d: int| 0 <= c < d < columns.len() ==> (#[trigger] columns[c]).name != (#[trigger] columns[d]).name
}

/// Whether each index has a name of its own and is on a column that holds no vectors.
pub open spec fn sound_indexes(columns: Seq<ColumnView>, indexes: Seq<IndexView>) -> bool {
    &&& forall|i: int|
        0 <= i < indexes.len() ==> (#[trigger] indexes[i]).column < columns.len() && !(
        columns[indexes[i].column as int].data_type is Vector)
    &&& forall|i: int, j: int| 0 <= i < j < indexes.len() ==> (#[trigger] indexes[i]).name != (#[trigger] indexes[j]).name
}

/// Whether tables are as statements make them: each has columns, and the names of tables, of the
/// columns of one table and of all indexes are distinct.
pub open spec fn sound(tables: Seq<NamedTableView>) -> bool {
    &&& forall|i: int|
        0 <= i < tables.len() ==> sound_columns((#[trigger] tables[i]).table.columns) && sound_indexes(
            tables[i].table.columns,
            tables[i].table.indexes,
        )
    &&& forall|i: int, j: int| 0 <= i < j < tables.len() ==> (#[trigger] tables[i]).name != (#[trigger] tables[j]).name
    &&& forall|i: int, j: int|
        0 <= i < j < tables.len() ==> index_names_apart((#[trigger] tables[i]).table, (#[trigger] tables[j]).table)
}

/// Whether no table, column or index has an empty name.
pub open spec fn named(tables: Seq<NamedTableView>) -> bool {
    &&& forall|i: int| 0 <= i < tables.len() ==> (#[trigger] tables[i]).name.len() > 0
    &&& forall|i: int, c: int|
        0 <= i < tables.len() && 0 <= c < tables[i].table.columns.len() ==> (#[trigger] tables[i].table.columns[c]).name.len()
            > 0
    &&& forall|i: int, k: int|
        0 <= i < tables.len() && 0 <= k < tables[i].table.indexes.len() ==> (#[trigger] tables[i].table.indexes[k]).name.len()
            > 0
}

/// Whether every value is of a size that a machine can hold.
pub open spec fn all_holdable(tables: Seq<NamedTableView>) -> bool {
    forall|i: int, r: int, c: int|
        0 <= i < tables.len() && 0 <= r < tables[i].table.rows.len() && 0 <= c < tables[i].table.columns.len() ==> holdable(
            #[trigger] tables[i].table.rows[r][c],
        )
}

proof fn lemma_declared(definitions: Seq<ColumnDefView>, from: nat, done: Seq<ColumnView>)
    requires
        from <= definitions.len(),
        done.len() == from,
        forall|c: int| 0 <= c < done.len() ==> storable_type((#[trigger] done[c]).data_type),
        forall|c: int, d: int| 0 <= c < d < done.len() ==> (#[trigger] done[c]).name != (#[trigger] done[d]).name,
    ensures
        definitions.len() > 0 ==> (declared_columns(definitions, from, done) matches Ok(columns) ==> sound_columns(columns)),
    decreases definitions.len() - from,
{
    if from < definitions.len() {
        let definition = definitions[from as int];
        let name = definition.name.name();
        if !declares(done, name) {
            if let Ok(data_type) = logical_type(definition.data_type) {
                if let Ok((nullable, unique)) = column_options(definition.options, 0, true, false) {
                    lemma_declared(definitions, from + 1, done.push(ColumnView { name, data_type, nullable, unique }));
                }
            }
        }
    }
}

proof fn lemma_constrained(constraints: Seq<TableConstraintView>, from: nat, columns: Seq<ColumnView>)
    requires
        sound_columns(columns),
    ensures
        constrained_columns(constraints, from, columns) matches Ok(after) ==> sound_columns(after),
    decreases constraints.len() - from,
{
    if from < constraints.len() {
        if let TableConstraintView::Unique { columns: names, is_primary } = constraints[from as int] {
            if names.len() == 1 {
                if let Ok(at) = found_column(columns, names[0].name()) {
                    lemma_column_position(columns, names[0].name(), 0);
                    let column = columns[at as int];
                    lemma_constrained(
                        constraints,
                        from + 1,
                        columns.update(
                            at as int,
                            ColumnView {
                                name: column.name,
                                data_type: column.data_type,
                                nullable: column.nullable && !is_primary,
                                unique: true,
                            },
                        ),
                    );
                }
            }
        }
    }
}

proof fn lemma_table_created(
    catalog: CatalogView,
    name: Seq<IdentView>,
    definitions: Seq<ColumnDefView>,
    constraints: Seq<TableConstraintView>,
    if_not_exists: bool,
)
    requires
        sound(catalog.tables),
    ensures
        table_created(catalog, name, definitions, constraints, if_not_exists) matches Ok((after, _)) ==> sound(after.tables),
{
    lemma_table_position(catalog.tables, last_name(name), 0);
    if let Ok(columns) = new_columns(definitions, constraints) {
        lemma_declared(definitions, 0, Seq::empty());
        lemma_constrained(constraints, 0, declared_columns(definitions, 0, Seq::empty())->Ok_0);
    }
}

proof fn lemma_with_rows(catalog: CatalogView, at: nat, rows: Seq<Seq<ValueView>>)
    requires
        sound(catalog.tables),
        at < catalog.tables.len(),
    ensures
        sound(catalog.with_rows(at, rows).tables),
{
    let after = catalog.with_rows(at, rows).tables;
    assert forall|i: int, j: int| 0 <= i < j < after.len() implies index_names_apart(
        (#[trigger] after[i]).table,
        (#[trigger] after[j]).table,
    ) by {
        assert(index_names_apart(catalog.tables[i].table, catalog.tables[j].table));
    }
}

proof fn lemma_without_tables(tables: Seq<NamedTableView>, names: Seq<Seq<char>>, from: nat, count: nat)
    requires
        sound(tables),
    ensures
        sound(without_tables(tables, names, from, count).0),
    decreases names.len() - from,
{
    if from < names.len() {
        let name = names[from as int];
        lemma_table_position(tables, name, 0);
        match table_position(tables, name, 0) {
            Some(at) => {
                let after = tables.remove(at as int);
                assert forall|i: int, j: int| 0 <= i < j < after.len() implies (#[trigger] after[i]).name != (
                #[trigger] after[j]).name && index_names_apart(after[i].table, after[j].table) by {
                    let a = if i < at { i } else { i + 1 };
                    let b = if j < at { j } else { j + 1 };
                    assert(after[i] == tables[a]);
                    assert(after[j] == tables[b]);
                }
                lemma_without_tables(after, names, from + 1, count + 1);
            },
            None => lemma_without_tables(tables, names, from + 1, count),
        }
    }
}

proof fn lemma_index_position(indexes: Seq<IndexView>, name: Seq<char>, from: nat)
    ensures
        match index_position(indexes, name, from) {
            Some(at) => from <= at < indexes.len(),
            None => forall|i: int| from <= i < indexes.len() ==> (#[trigger] indexes[i]).name != name,
        },
    decreases indexes.len() - from,
{
    if from < indexes.len() && indexes[from as int].name != name {
        lemma_index_position(indexes, name, from + 1);
    }
}

proof fn lemma_index_owner(tables: Seq<NamedTableView>, name: Seq<char>, from: nat)
    ensures
        match index_owner(tables, name, from) {
            Some(at) => from <= at < tables.len() && index_position(tables[at as int].table.indexes, name, 0) is Some,
            None => forall|t: int, i: int|
                from <= t < tables.len() && 0 <= i < tables[t].table.indexes.len() ==> (
                #[trigger] tables[t].table.indexes[i]).name != name,
        },
    decreases tables.len() - from,
{
    if from < tables.len() {
        lemma_index_position(tables[from as int].table.indexes, name, 0);
        if index_position(tables[from as int].table.indexes, name, 0) is None {
            lemma_index_owner(tables, name, from + 1);
        }
    }
}

/// Other indexes on one table leave tables sound where they have names of their own.
proof fn lemma_with_indexes(catalog: CatalogView, at: nat, indexes: Seq<IndexView>)
    requires
        sound(catalog.tables),
        at < catalog.tables.len(),
        sound_indexes(catalog.tables[at as int].table.columns, indexes),
        forall|t: int, i: int, k: int|
            0 <= t < catalog.tables.len() && t != at && 0 <= i < catalog.tables[t].table.indexes.len() && 0 <= k
                < indexes.len() ==> (#[trigger] catalog.tables[t].table.indexes[i]).name != (#[trigger] indexes[k]).name,
    ensures
        sound(with_indexes(catalog, at, indexes).tables),
{
    let tables = catalog.tables;
    let after = with_indexes(catalog, at, indexes).tables;
    assert forall|i: int, j: int| 0 <= i < j < after.len() implies index_names_apart(
        (#[trigger] after[i]).table,
        (#[trigger] after[j]).table,
    ) by {
        assert(index_names_apart(tables[i].table, tables[j].table));
        if i == at {
            assert forall|k: int, l: int|
                0 <= k < indexes.len() && 0 <= l < tables[j].table.indexes.len() implies (#[trigger] indexes[k]).name != (
            #[trigger] tables[j].table.indexes[l]).name by {}
        }
        if j == at {
            assert forall|k: int, l: int|
                0 <= k < tables[i].table.indexes.len() && 0 <= l < indexes.len() implies (
            #[trigger] tables[i].table.indexes[k]).name != (#[trigger] indexes[l]).name by {}
        }
    }
}

proof fn lemma_index_created(
    catalog: CatalogView,
    name: Option<Seq<IdentView>>,
    table_name: Seq<IdentView>,
    columns: Seq<OrderView>,
    if_not_exists: bool,
)
    requires
        sound(catalog.tables),
    ensures
        index_created(catalog, name, table_name, columns, if_not_exists) matches Ok((after, _)) ==> sound(after.tables),
{
    if name is Some && columns.len() == 1 {
        if let ExprView::Identifier(column, _) = columns[0].expr {
            let name = last_name(name->0);
            lemma_index_owner(catalog.tables, name, 0);
            if index_owner(catalog.tables, name, 0) is None {
                if let Ok(at) = catalog.located(last_name(table_name)) {
                    lemma_table_position(catalog.tables, last_name(table_name), 0);
                    let table = catalog.tables[at as int].table;
                    if let Ok(position) = found_column(table.columns, column.name()) {
                        lemma_column_position(table.columns, column.name(), 0);
                        if !(table.columns[position as int].data_type is Vector) {
                            let index = IndexView { name, column: position };
                            let indexes = table.indexes.push(index);
                            assert forall|t: int, i: int, k: int|
                                0 <= t < catalog.tables.len() && t != at && 0 <= i < catalog.tables[t].table.indexes.len()
                                    && 0 <= k < indexes.len() implies (#[trigger] catalog.tables[t].table.indexes[i]).name != (
                            #[trigger] indexes[k]).name by {
                                if k < table.indexes.len() {
                                    if t < at {
                                        assert(index_names_apart(catalog.tables[t].table, catalog.tables[at as int].table));
                                    } else {
                                        assert(index_names_apart(catalog.tables[at as int].table, catalog.tables[t].table));
                                    }
                                    assert(indexes[k] == catalog.tables[at as int].table.indexes[k]);
                                }
                            }
                            lemma_with_indexes(catalog, at, indexes);
                        }
                    }
                }
            }
        }
    }
}

proof fn lemma_without_indexes(catalog: CatalogView, names: Seq<Seq<char>>, from: nat, count: nat)
    requires
        sound(catalog.tables),
    ensures
        sound(without_indexes(catalog, names, from, count).0.tables),
    decreases names.len() - from,
{
    if from < names.len() {
        let name = names[from as int];
        lemma_index_owner(catalog.tables, name, 0);
        match index_owner(catalog.tables, name, 0) {
            Some(at) => {
                let indexes = catalog.tables[at as int].table.indexes;
                lemma_index_position(indexes, name, 0);
                let position = index_position(indexes, name, 0)->0;
                let left = indexes.remove(position as int);
                assert forall|k: int| 0 <= k < left.len() implies exists|l: int|
                    0 <= l < indexes.len() && #[trigger] left[k] == #[trigger] indexes[l] by {
                    let l = if k < position { k } else { k + 1 };
                    assert(left[k] == indexes[l]);
                }
                assert forall|k: int, l: int| 0 <= k < l < left.len() implies (#[trigger] left[k]).name != (
                #[trigger] left[l]).name by {
                    let a = if k < position { k } else { k + 1 };
                    let b = if l < position { l } else { l + 1 };
                    assert(left[k] == indexes[a]);
                    assert(left[l] == indexes[b]);
                }
                assert forall|t: int, i: int, k: int|
                    0 <= t < catalog.tables.len() && t != at && 0 <= i < catalog.tables[t].table.indexes.len() && 0 <= k
                        < left.len() implies (#[trigger] catalog.tables[t].table.indexes[i]).name != (#[trigger] left[k]).name by {
                    let l = if k < position { k } else { k + 1 };
                    assert(left[k] == catalog.tables[at as int].table.indexes[l]);
                    if t < at {
                        assert(index_names_apart(catalog.tables[t].table, catalog.tables[at as int].table));
                    } else {
                        assert(index_names_apart(catalog.tables[at as int].table, catalog.tables[t].table));
                    }
                }
                lemma_with_indexes(catalog, at, left);
                lemma_without_indexes(with_indexes(catalog, at, left), names, from + 1, count + 1);
            },
            None => lemma_without_indexes(catalog, names, from + 1, count),
        }
    }
}

/// Other rows in the located table leave tables sound, whatever they are.
proof fn lemma_located_rows(catalog: CatalogView, name: Seq<char>)
    requires
        sound(catalog.tables),
    ensures
        catalog.located(name) matches Ok(at) ==> forall|rows: Seq<Seq<ValueView>>|
            sound(#[trigger] catalog.with_rows(at, rows).tables),
{
    lemma_table_position(catalog.tables, name, 0);
    if let Ok(at) = catalog.located(name) {
        assert forall|rows: Seq<Seq<ValueView>>| sound(#[trigger] catalog.with_rows(at, rows).tables) by {
            lemma_with_rows(catalog, at, rows);
        }
    }
}

/// A statement that succeeds on tables with distinct names, with columns and with no index on a
/// vector leaves such tables.
pub proof fn law_statements_keep_tables_sound(catalog: CatalogView, statement: StatementView, floats: Floats)
    requires
        sound(catalog.tables),
    ensures
        executed(catalog, statement, floats) matches Ok((after, _)) ==> sound(after.tables),
{
    reveal(executed);
    match statement {
        StatementView::CreateTable { name, columns, constraints, if_not_exists, from_query } => {
            lemma_table_created(catalog, name, columns, constraints, if_not_exists);
        },
        StatementView::CreateIndex { name, table_name, method, columns, if_not_exists, special } => {
            lemma_index_created(catalog, name, table_name, columns, if_not_exists);
        },
        StatementView::Insert { table_name, columns, source, on_insert, returning } => {
            lemma_located_rows(catalog, last_name(table_name));
        },
        StatementView::Update { table, assignments, selection, extended } => {
            if let Ok(name) = source_name(table.relation) {
                lemma_located_rows(catalog, name);
            }
        },
        StatementView::Delete { from, selection, extended } => {
            if from.len() == 1 {
                if let Ok(name) = source_name(from[0].relation) {
                    lemma_located_rows(catalog, name);
                }
            }
        },
        StatementView::Drop { kind, names, if_exists, modified } => {
            lemma_without_tables(catalog.tables, last_names(names), 0, 0);
            lemma_without_indexes(catalog, last_names(names), 0, 0);
        },
        _ => {},
    }
}

/// Rows that are inserted without SQL leave such tables too.
pub proof fn law_typed_rows_keep_tables_sound(
    catalog: CatalogView,
    name: Seq<char>,
    rows: Seq<Seq<ValueView>>,
    conflict: InsertConflictView,
    floats: Floats,
)
    requires
        sound(catalog.tables),
    ensures
        typed_inserted(catalog, name, rows, conflict, floats) matches Ok((after, _)) ==> sound(after.tables),
{
    lemma_located_rows(catalog, normalized(name));
}

proof fn lemma_all_keep(
    catalog: CatalogView,
    statements: Seq<StatementView>,
    floats: Floats,
    from: nat,
    done: Seq<ExecutionView>,
)
    requires
        sound(catalog.tables),
    ensures
        executed_all(catalog, statements, floats, from, done) matches Ok((after, _)) ==> sound(after.tables),
    decreases statements.len() - from,
{
    if from < statements.len() {
        law_statements_keep_tables_sound(catalog, statements[from as int], floats);
        if let Ok((after, result)) = executed(catalog, statements[from as int], floats) {
            lemma_all_keep(after, statements, floats, from + 1, done.push(result));
        }
    }
}

/// Whatever statements make of an empty catalog is restored from its snapshot, with the tables and
/// indexes in the order of their names, as long as it is valid, no name is empty, and it is within
/// the limits of a snapshot and of the machine.
pub proof fn law_made_catalogs_are_restored(
    start: CatalogView,
    statements: Seq<StatementView>,
    floats: Floats,
    made: CatalogView,
    results: Seq<ExecutionView>,
)
    requires
        start.tables.len() == 0,
        executed_all(start, statements, floats, 0, Seq::empty()) == Ok::<(CatalogView, Seq<ExecutionView>), ErrorView>(
            (made, results),
        ),
        made.valid(),
        named(made.tables),
        all_holdable(made.tables),
        made.tables.len() <= usize::MAX,
        forall|i: int| 0 <= i < made.tables.len() ==> (#[trigger] made.tables[i]).table.indexes.len() <= usize::MAX,
        snapshot_of(arranged_tables(made.tables), made.durable_sequence) is Ok,
    ensures
        loaded(snapshot_of(arranged_tables(made.tables), made.durable_sequence)->Ok_0) == Ok::<CatalogView, ErrorView>(
            CatalogView { tables: arranged_tables(made.tables), revision: 0, durable_sequence: made.durable_sequence },
        ),
{
    lemma_all_keep(start, statements, floats, 0, Seq::empty());
    let tables = made.tables;
    assert forall|i: int| 0 <= i < tables.len() implies (#[trigger] tables[i]).name.len() > 0 && storable_table(
        tables[i].table,
    ) by {
        let table = tables[i].table;
        assert(sound_columns(table.columns));
        assert forall|r: int, c: int| 0 <= r < table.rows.len() && 0 <= c < table.columns.len() implies holdable(
            #[trigger] table.rows[r][c],
        ) by {
            assert(holdable(tables[i].table.rows[r][c]));
        }
        assert forall|c: int| 0 <= c < table.columns.len() implies (#[trigger] table.columns[c]).name.len() > 0 by {
            assert(tables[i].table.columns[c].name.len() > 0);
        }
        assert forall|k: int| 0 <= k < table.indexes.len() implies (#[trigger] table.indexes[k]).name.len() > 0 by {
            assert(tables[i].table.indexes[k].name.len() > 0);
        }
    }
    assert(storable(tables));
    law_snapshot_restores(made);
}

} // verus!
