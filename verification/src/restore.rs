//! What is read back of a snapshot is what was written.

use vstd::prelude::*;
use crate::catalog::{declares, table_position, CatalogView, NamedTableView};
use crate::codec::{
    begins, bool_byte, checksum, corrupted, law_signed, law_string_back, lemma_begins, lemma_begins_further, lemma_u32_back,
    lemma_u64_back, lemma_u8_back, put_string, taken_bool, taken_count, unsigned,
};
use crate::error::ErrorView;
use crate::index::lemma_holder;
use crate::order::{law_sorted, sorted};
use crate::schema::{
    index_order, index_owner, index_position, lemma_index_order, lemma_table_order, table_order,
};
use crate::snapshot::{
    arranged_indexes, arranged_table, arranged_tables, count_bytes_of, loaded, put_column, put_columns, put_elements,
    put_indexes, put_row, put_rows, put_table, put_tables, put_type, put_value, signature, snapshot_head, snapshot_of,
    taken_column, taken_columns, taken_contents, taken_elements, taken_indexes, taken_row, taken_rows, taken_tables,
    taken_type, taken_value, FORMAT_VERSION, MAX_COLUMNS, MAX_INDEXES, MAX_ROWS, MAX_TABLES,
};
use crate::table::{
    any_repeat, distinct_keys, null_checked, repeats, unique_checked, valid_row, valid_value, IndexView, TableView,
};
use crate::value::{key_of, type_of, ColumnView, DataType, ValueView};
use crate::vector::{element_finite, lemma_new_vector_elements, vector_elements, MAX_VECTOR_DIMENSIONS};

verus! {

/// Whether a column can have the type: a vector has a dimension, and not too many.
pub open spec fn storable_type(data_type: DataType) -> bool {
    match data_type {
        DataType::Vector(dimensions) => 1 <= dimensions <= MAX_VECTOR_DIMENSIONS,
        _ => true,
    }
}

/// Whether the value is of a size that a machine can hold.
pub open spec fn holdable(value: ValueView) -> bool {
    value matches ValueView::Vector(elements) ==> elements.len() <= usize::MAX
}

/// Whether a table has columns, each of them and each of the indexes has a name of its own, and no
/// index is on a vector.
pub open spec fn storable_table(table: TableView) -> bool {
    &&& table.valid()
    &&& table.columns.len() > 0
    &&& forall|i: int, c: int|
        0 <= i < table.rows.len() && 0 <= c < table.columns.len() ==> holdable(#[trigger] table.rows[i][c])
    &&& forall|c: int|
        0 <= c < table.columns.len() ==> (#[trigger] table.columns[c]).name.len() > 0 && storable_type(
            table.columns[c].data_type,
        )
    &&& forall|c: int, d: int|
        0 <= c < d < table.columns.len() ==> (#[trigger] table.columns[c]).name != (#[trigger] table.columns[d]).name
    &&& forall|i: int|
        0 <= i < table.indexes.len() ==> (#[trigger] table.indexes[i]).name.len() > 0 && !(
        table.columns[table.indexes[i].column as int].data_type is Vector)
    &&& forall|i: int, j: int|
        0 <= i < j < table.indexes.len() ==> (#[trigger] table.indexes[i]).name != (#[trigger] table.indexes[j]).name
}

/// Whether two tables have no index name in common.
pub open spec fn index_names_apart(first: TableView, second: TableView) -> bool {
    forall|i: int, j: int|
        0 <= i < first.indexes.len() && 0 <= j < second.indexes.len() ==> (#[trigger] first.indexes[i]).name != (
        #[trigger] second.indexes[j]).name
}

/// Whether tables can be saved and read back: each has a name of its own and each index has one of
/// its own among all.
pub open spec fn storable(tables: Seq<NamedTableView>) -> bool {
    &&& forall|i: int| 0 <= i < tables.len() ==> (#[trigger] tables[i]).name.len() > 0 && storable_table(tables[i].table)
    &&& forall|i: int, j: int| 0 <= i < j < tables.len() ==> (#[trigger] tables[i]).name != (#[trigger] tables[j]).name
    &&& forall|i: int, j: int|
        0 <= i < j < tables.len() ==> index_names_apart((#[trigger] tables[i]).table, (#[trigger] tables[j]).table)
}

proof fn lemma_count_back(count: nat, label: Seq<char>, maximum: usize, done: Seq<u8>, all: Seq<u8>)
    requires
        count <= maximum,
        begins(done + count_bytes_of(count), all),
    ensures
        begins(done, done + count_bytes_of(count)),
        begins(done, all),
        taken_count(all, done.len(), label, maximum) == Ok::<(usize, nat), ErrorView>(
            (count as usize, (done + count_bytes_of(count)).len()),
        ),
{
    lemma_u64_back(count as u64, done, all);
}

proof fn lemma_bool_back(value: bool, label: Seq<char>, done: Seq<u8>, all: Seq<u8>)
    requires
        begins(done + seq![bool_byte(value)], all),
    ensures
        begins(done, done + seq![bool_byte(value)]),
        begins(done, all),
        taken_bool(all, done.len(), label) == Ok::<(bool, nat), ErrorView>((value, (done + seq![bool_byte(value)]).len())),
{
    lemma_u8_back(bool_byte(value), done, all);
}

proof fn lemma_type_back(data_type: DataType, done: Seq<u8>, all: Seq<u8>)
    requires
        storable_type(data_type),
        begins(put_type(data_type, done), all),
    ensures
        begins(done, put_type(data_type, done)),
        begins(done, all),
        taken_type(all, done.len()) == Ok::<(DataType, nat), ErrorView>((data_type, put_type(data_type, done).len())),
{
    match data_type {
        DataType::Integer => lemma_u8_back(1, done, all),
        DataType::Float => lemma_u8_back(2, done, all),
        DataType::Text => lemma_u8_back(3, done, all),
        DataType::Boolean => lemma_u8_back(4, done, all),
        DataType::Vector(dimensions) => {
            let tagged = done + seq![5u8];
            lemma_count_back(dimensions as nat, "vector dimensions"@, MAX_VECTOR_DIMENSIONS, tagged, all);
            lemma_u8_back(5, done, all);
            lemma_begins_further(done, tagged, tagged + count_bytes_of(dimensions as nat));
        },
    }
}

proof fn lemma_elements_back(elements: Seq<u32>, from: nat, done: Seq<u8>, all: Seq<u8>)
    requires
        from <= elements.len(),
        put_elements(elements, from, done) is Ok,
        begins(put_elements(elements, from, done)->Ok_0, all),
    ensures
        begins(done, put_elements(elements, from, done)->Ok_0),
        taken_elements(all, done.len(), elements.len(), elements.take(from as int)) == Ok::<(Seq<u32>, nat), ErrorView>(
            (elements, put_elements(elements, from, done)->Ok_0.len()),
        ),
        forall|i: int| from <= i < elements.len() ==> element_finite(#[trigger] elements[i]),
    decreases elements.len() - from,
{
    let result = put_elements(elements, from, done)->Ok_0;
    if from < elements.len() {
        let next = done + vstd::bytes::spec_u32_to_le_bytes(elements[from as int]);
        lemma_elements_back(elements, from + 1, next, all);
        lemma_begins_further(next, result, all);
        lemma_u32_back(elements[from as int], done, all);
        lemma_begins_further(done, next, result);
        assert(elements.take(from as int).push(elements[from as int]) =~= elements.take(from as int + 1));
    } else {
        assert(elements.take(from as int) =~= elements);
        assert(done.take(done.len() as int) =~= done);
    }
}

proof fn lemma_value_back(value: ValueView, data_type: DataType, done: Seq<u8>, all: Seq<u8>)
    requires
        storable_type(data_type),
        value is Null || type_of(value) == Some(data_type),
        holdable(value),
        put_value(value, data_type, done) is Ok,
        begins(put_value(value, data_type, done)->Ok_0, all),
    ensures
        begins(done, put_value(value, data_type, done)->Ok_0),
        taken_value(all, done.len(), data_type) == Ok::<(ValueView, nat), ErrorView>(
            (value, put_value(value, data_type, done)->Ok_0.len()),
        ),
{
    let result = put_value(value, data_type, done)->Ok_0;
    let marked = done + seq![1u8];
    match value {
        ValueView::Null => lemma_u8_back(0, done, all),
        ValueView::Integer(number) => {
            lemma_u64_back(unsigned(number), marked, all);
            law_signed(number);
        },
        ValueView::Float(bits) => lemma_u64_back(bits, marked, all),
        ValueView::Text(text) => law_string_back(text, marked, all),
        ValueView::Boolean(truth) => lemma_bool_back(truth, "boolean value"@, marked, all),
        ValueView::Vector(elements) => {
            lemma_elements_back(elements, 0, marked, all);
            assert(elements.take(0) =~= Seq::<u32>::empty());
            assert(vector_elements(elements));
            lemma_new_vector_elements(elements);
        },
    }
    if !(value is Null) {
        assert(begins(marked, result));
        lemma_begins_further(marked, result, all);
        lemma_u8_back(1, done, all);
        lemma_begins_further(done, marked, result);
    }
}

proof fn lemma_row_back(columns: Seq<ColumnView>, row: Seq<ValueView>, from: nat, done: Seq<u8>, all: Seq<u8>)
    requires
        from <= columns.len(),
        valid_row(columns, row),
        forall|c: int| 0 <= c < columns.len() ==> holdable(#[trigger] row[c]),
        forall|c: int| 0 <= c < columns.len() ==> storable_type((#[trigger] columns[c]).data_type),
        put_row(columns, row, from, done) is Ok,
        begins(put_row(columns, row, from, done)->Ok_0, all),
    ensures
        begins(done, put_row(columns, row, from, done)->Ok_0),
        taken_row(all, done.len(), columns, row.take(from as int)) == Ok::<(Seq<ValueView>, nat), ErrorView>(
            (row, put_row(columns, row, from, done)->Ok_0.len()),
        ),
    decreases columns.len() - from,
{
    let result = put_row(columns, row, from, done)->Ok_0;
    if from < columns.len() {
        let data_type = columns[from as int].data_type;
        let value = row[from as int];
        assert(valid_value(columns[from as int], value));
        let next = put_value(value, data_type, done)->Ok_0;
        lemma_row_back(columns, row, from + 1, next, all);
        lemma_begins_further(next, result, all);
        lemma_value_back(value, data_type, done, all);
        lemma_begins_further(done, next, result);
        assert(row.take(from as int).push(value) =~= row.take(from as int + 1));
    } else {
        assert(row.take(from as int) =~= row);
        assert(done.take(done.len() as int) =~= done);
    }
}

proof fn lemma_valid_row_checked(columns: Seq<ColumnView>, row: Seq<ValueView>, from: nat)
    requires
        valid_row(columns, row),
    ensures
        null_checked(columns, row, from) is Ok,
    decreases columns.len() - from,
{
    if from < columns.len() {
        assert(valid_value(columns[from as int], row[from as int]));
        lemma_valid_row_checked(columns, row, from + 1);
    }
}

proof fn lemma_rows_back(
    name: Seq<char>,
    columns: Seq<ColumnView>,
    rows: Seq<Seq<ValueView>>,
    from: nat,
    done: Seq<u8>,
    all: Seq<u8>,
)
    requires
        from <= rows.len(),
        forall|i: int| 0 <= i < rows.len() ==> valid_row(columns, #[trigger] rows[i]),
        forall|i: int, c: int| 0 <= i < rows.len() && 0 <= c < columns.len() ==> holdable(#[trigger] rows[i][c]),
        forall|c: int| 0 <= c < columns.len() ==> storable_type((#[trigger] columns[c]).data_type),
        put_rows(columns, rows, from, done) is Ok,
        begins(put_rows(columns, rows, from, done)->Ok_0, all),
    ensures
        begins(done, put_rows(columns, rows, from, done)->Ok_0),
        taken_rows(all, done.len(), name, columns, rows.len(), rows.take(from as int)) == Ok::<
            (Seq<Seq<ValueView>>, nat),
            ErrorView,
        >((rows, put_rows(columns, rows, from, done)->Ok_0.len())),
    decreases rows.len() - from,
{
    let result = put_rows(columns, rows, from, done)->Ok_0;
    if from < rows.len() {
        let row = rows[from as int];
        let next = put_row(columns, row, 0, done)->Ok_0;
        lemma_rows_back(name, columns, rows, from + 1, next, all);
        lemma_begins_further(next, result, all);
        lemma_row_back(columns, row, 0, done, all);
        lemma_begins_further(done, next, result);
        assert(row.take(0) =~= Seq::<ValueView>::empty());
        lemma_valid_row_checked(columns, row, 0);
        assert(rows.take(from as int).push(row) =~= rows.take(from as int + 1));
    } else {
        assert(rows.take(from as int) =~= rows);
        assert(done.take(done.len() as int) =~= done);
    }
}

proof fn lemma_column_back(name: Seq<char>, column: ColumnView, before: Seq<ColumnView>, done: Seq<u8>, all: Seq<u8>)
    requires
        column.name.len() > 0,
        storable_type(column.data_type),
        !declares(before, column.name),
        put_column(column, done) is Ok,
        begins(put_column(column, done)->Ok_0, all),
    ensures
        begins(done, put_column(column, done)->Ok_0),
        taken_column(all, done.len(), name, before) == Ok::<(ColumnView, nat), ErrorView>(
            (column, put_column(column, done)->Ok_0.len()),
        ),
{
    let named = put_string(column.name, done)->Ok_0;
    let typed = put_type(column.data_type, named);
    let nullable = typed + seq![bool_byte(column.nullable)];
    let result = nullable + seq![bool_byte(column.unique)];
    lemma_bool_back(column.unique, "column unique flag"@, nullable, all);
    lemma_bool_back(column.nullable, "column nullable flag"@, typed, all);
    lemma_type_back(column.data_type, named, all);
    law_string_back(column.name, done, all);
    lemma_begins_further(done, named, typed);
    lemma_begins_further(done, typed, nullable);
    lemma_begins_further(done, nullable, result);
}

proof fn lemma_columns_back(name: Seq<char>, columns: Seq<ColumnView>, from: nat, done: Seq<u8>, all: Seq<u8>)
    requires
        from <= columns.len(),
        forall|c: int|
            0 <= c < columns.len() ==> (#[trigger] columns[c]).name.len() > 0 && storable_type(columns[c].data_type),
        forall|c: int, d: int| 0 <= c < d < columns.len() ==> (#[trigger] columns[c]).name != (#[trigger] columns[d]).name,
        put_columns(columns, from, done) is Ok,
        begins(put_columns(columns, from, done)->Ok_0, all),
    ensures
        begins(done, put_columns(columns, from, done)->Ok_0),
        taken_columns(all, done.len(), name, columns.len(), columns.take(from as int)) == Ok::<
            (Seq<ColumnView>, nat),
            ErrorView,
        >((columns, put_columns(columns, from, done)->Ok_0.len())),
    decreases columns.len() - from,
{
    let result = put_columns(columns, from, done)->Ok_0;
    if from < columns.len() {
        let column = columns[from as int];
        let before = columns.take(from as int);
        let next = put_column(column, done)->Ok_0;
        lemma_columns_back(name, columns, from + 1, next, all);
        lemma_begins_further(next, result, all);
        assert(!declares(before, column.name)) by {
            assert forall|i: int| 0 <= i < before.len() implies (#[trigger] before[i]).name != column.name by {
                assert(before[i] == columns[i]);
            }
        }
        lemma_column_back(name, column, before, done, all);
        lemma_begins_further(done, next, result);
        assert(before.push(column) =~= columns.take(from as int + 1));
    } else {
        assert(columns.take(from as int) =~= columns);
        assert(done.take(done.len() as int) =~= done);
    }
}

proof fn lemma_no_position(indexes: Seq<IndexView>, name: Seq<char>, from: nat)
    requires
        forall|i: int| 0 <= i < indexes.len() ==> (#[trigger] indexes[i]).name != name,
    ensures
        index_position(indexes, name, from) is None,
    decreases indexes.len() - from,
{
    if from < indexes.len() {
        lemma_no_position(indexes, name, from + 1);
    }
}

proof fn lemma_no_owner(tables: Seq<NamedTableView>, name: Seq<char>, from: nat)
    requires
        forall|t: int, i: int|
            0 <= t < tables.len() && 0 <= i < tables[t].table.indexes.len() ==> (#[trigger] tables[t].table.indexes[i]).name
                != name,
    ensures
        index_owner(tables, name, from) is None,
    decreases tables.len() - from,
{
    if from < tables.len() {
        lemma_no_position(tables[from as int].table.indexes, name, 0);
        lemma_no_owner(tables, name, from + 1);
    }
}

proof fn lemma_no_table(tables: Seq<NamedTableView>, name: Seq<char>, from: nat)
    requires
        forall|t: int| 0 <= t < tables.len() ==> (#[trigger] tables[t]).name != name,
    ensures
        table_position(tables, name, from) is None,
    decreases tables.len() - from,
{
    if from < tables.len() {
        lemma_no_table(tables, name, from + 1);
    }
}

proof fn lemma_indexes_back(
    name: Seq<char>,
    columns: Seq<ColumnView>,
    tables: Seq<NamedTableView>,
    indexes: Seq<IndexView>,
    from: nat,
    done: Seq<u8>,
    all: Seq<u8>,
)
    requires
        from <= indexes.len(),
        columns.len() <= MAX_COLUMNS,
        forall|i: int|
            0 <= i < indexes.len() ==> (#[trigger] indexes[i]).name.len() > 0 && indexes[i].column < columns.len() && !(
            columns[indexes[i].column as int].data_type is Vector),
        forall|i: int, j: int| 0 <= i < j < indexes.len() ==> (#[trigger] indexes[i]).name != (#[trigger] indexes[j]).name,
        forall|i: int| 0 <= i < indexes.len() ==> index_owner(tables, (#[trigger] indexes[i]).name, 0) is None,
        put_indexes(indexes, from, done) is Ok,
        begins(put_indexes(indexes, from, done)->Ok_0, all),
    ensures
        begins(done, put_indexes(indexes, from, done)->Ok_0),
        taken_indexes(all, done.len(), name, columns, tables, indexes.len(), indexes.take(from as int)) == Ok::<
            (Seq<IndexView>, nat),
            ErrorView,
        >((indexes, put_indexes(indexes, from, done)->Ok_0.len())),
    decreases indexes.len() - from,
{
    let result = put_indexes(indexes, from, done)->Ok_0;
    if from < indexes.len() {
        let entry = indexes[from as int];
        let before = indexes.take(from as int);
        let named = put_string(entry.name, done)->Ok_0;
        let next = named + count_bytes_of(entry.column);
        lemma_indexes_back(name, columns, tables, indexes, from + 1, next, all);
        lemma_begins_further(next, result, all);
        lemma_count_back(entry.column, "index column"@, columns.len() as usize, named, all);
        law_string_back(entry.name, done, all);
        lemma_begins_further(done, named, next);
        lemma_begins_further(done, next, result);
        assert forall|i: int| 0 <= i < before.len() implies (#[trigger] before[i]).name != entry.name by {
            assert(before[i] == indexes[i]);
        }
        lemma_no_position(before, entry.name, 0);
        assert(entry == IndexView { name: entry.name, column: (entry.column as usize) as nat });
        assert(before.push(entry) =~= indexes.take(from as int + 1));
    } else {
        assert(indexes.take(from as int) =~= indexes);
        assert(done.take(done.len() as int) =~= done);
    }
}

proof fn lemma_distinct_no_repeat(rows: Seq<Seq<ValueView>>, column: int, from: nat)
    requires
        distinct_keys(rows, column),
        rows.len() <= usize::MAX,
    ensures
        !any_repeat(Seq::empty(), rows, column, from),
    decreases rows.len() - from,
{
    if from < rows.len() {
        let value = rows[from as int][column];
        lemma_holder(Seq::<Seq<ValueView>>::empty(), column, key_of(value), 0);
        lemma_holder(rows, column, key_of(value), from);
        assert(!repeats(Seq::empty(), rows, column, from as int));
        lemma_distinct_no_repeat(rows, column, from + 1);
    }
}

proof fn lemma_valid_table_unique(table: TableView, from: nat)
    requires
        table.valid(),
        table.rows.len() <= usize::MAX,
    ensures
        unique_checked(table.columns, Seq::empty(), table.rows, from) is Ok,
    decreases table.columns.len() - from,
{
    if from < table.columns.len() {
        if table.columns[from as int].unique {
            assert(distinct_keys(table.rows, from as int));
            lemma_distinct_no_repeat(table.rows, from as int, 0);
        }
        lemma_valid_table_unique(table, from + 1);
    }
}

#[verifier::rlimit(40)]
proof fn lemma_contents_back(entry: NamedTableView, tables: Seq<NamedTableView>, named: Seq<u8>, done: Seq<u8>, all: Seq<u8>)
    requires
        storable_table(entry.table),
        forall|i: int|
            0 <= i < entry.table.indexes.len() ==> index_owner(tables, (#[trigger] entry.table.indexes[i]).name, 0) is None,
        put_string(entry.name, done) == Ok::<Seq<u8>, ErrorView>(named),
        put_table(entry, done) is Ok,
        begins(put_table(entry, done)->Ok_0, all),
    ensures
        begins(named, put_table(entry, done)->Ok_0),
        taken_contents(all, named.len(), FORMAT_VERSION, entry.name, tables) == Ok::<(TableView, nat), ErrorView>(
            (entry.table, put_table(entry, done)->Ok_0.len()),
        ),
{
    let table = entry.table;
    let columns = table.columns;
    let name = entry.name;
    let result = put_table(entry, done)->Ok_0;
    let counted = named + count_bytes_of(columns.len());
    let shaped = put_columns(columns, 0, counted)->Ok_0;
    let index_counted = shaped + count_bytes_of(table.indexes.len());
    let indexed = put_indexes(table.indexes, 0, index_counted)->Ok_0;
    let row_counted = indexed + count_bytes_of(table.rows.len());
    lemma_rows_back(name, columns, table.rows, 0, row_counted, all);
    lemma_begins_further(row_counted, result, all);
    lemma_count_back(table.rows.len(), "row count"@, MAX_ROWS, indexed, all);
    lemma_indexes_back(name, columns, tables, table.indexes, 0, index_counted, all);
    lemma_begins_further(index_counted, indexed, all);
    lemma_count_back(table.indexes.len(), "index count"@, MAX_INDEXES, shaped, all);
    lemma_columns_back(name, columns, 0, counted, all);
    lemma_begins_further(counted, shaped, all);
    lemma_count_back(columns.len(), "column count"@, MAX_COLUMNS, named, all);
    lemma_begins_further(named, counted, shaped);
    lemma_begins_further(named, shaped, index_counted);
    lemma_begins_further(named, index_counted, indexed);
    lemma_begins_further(named, indexed, row_counted);
    lemma_begins_further(named, row_counted, result);
    assert(table.rows.take(0) =~= Seq::<Seq<ValueView>>::empty());
    assert(table.indexes.take(0) =~= Seq::<IndexView>::empty());
    assert(columns.take(0) =~= Seq::<ColumnView>::empty());
    lemma_valid_table_unique(table, 0);
}

proof fn lemma_tables_back(tables: Seq<NamedTableView>, from: nat, done: Seq<u8>, all: Seq<u8>)
    requires
        from <= tables.len(),
        storable(tables),
        put_tables(tables, from, done) is Ok,
        begins(put_tables(tables, from, done)->Ok_0, all),
    ensures
        begins(done, put_tables(tables, from, done)->Ok_0),
        taken_tables(all, done.len(), FORMAT_VERSION, tables.len(), tables.take(from as int)) == Ok::<
            (Seq<NamedTableView>, nat),
            ErrorView,
        >((tables, put_tables(tables, from, done)->Ok_0.len())),
    decreases tables.len() - from,
{
    let result = put_tables(tables, from, done)->Ok_0;
    if from < tables.len() {
        let entry = tables[from as int];
        let before = tables.take(from as int);
        let next = put_table(entry, done)->Ok_0;
        let named = put_string(entry.name, done)->Ok_0;
        lemma_tables_back(tables, from + 1, next, all);
        lemma_begins_further(next, result, all);
        assert forall|t: int| 0 <= t < before.len() implies (#[trigger] before[t]).name != entry.name by {
            assert(before[t] == tables[t]);
        }
        lemma_no_table(before, entry.name, 0);
        assert forall|i: int| 0 <= i < entry.table.indexes.len() implies index_owner(
            before,
            (#[trigger] entry.table.indexes[i]).name,
            0,
        ) is None by {
            let title = entry.table.indexes[i].name;
            assert forall|t: int, k: int|
                0 <= t < before.len() && 0 <= k < before[t].table.indexes.len() implies (
            #[trigger] before[t].table.indexes[k]).name != title by {
                assert(before[t] == tables[t]);
                assert(index_names_apart(tables[t].table, tables[from as int].table));
                assert(tables[t].table.indexes[k].name != entry.table.indexes[i].name);
            }
            lemma_no_owner(before, title, 0);
        }
        lemma_contents_back(entry, before, named, done, all);
        lemma_begins_further(named, next, all);
        law_string_back(entry.name, done, all);
        lemma_begins_further(done, named, next);
        lemma_begins_further(done, next, result);
        assert(before.push(NamedTableView { name: entry.name, table: entry.table }) =~= tables.take(from as int + 1));
    } else {
        assert(tables.take(from as int) =~= tables);
        assert(done.take(done.len() as int) =~= done);
    }
}

/// A snapshot of tables that can be saved holds these tables.
pub proof fn law_snapshot_holds_tables(tables: Seq<NamedTableView>, sequence: u64)
    requires
        storable(tables),
        snapshot_of(tables, sequence) is Ok,
    ensures
        loaded(snapshot_of(tables, sequence)->Ok_0) == Ok::<CatalogView, ErrorView>(
            CatalogView { tables, revision: 0, durable_sequence: sequence },
        ),
{
    let all = snapshot_of(tables, sequence)->Ok_0;
    let head = snapshot_head(tables.len(), sequence);
    let body = put_tables(tables, 0, head)->Ok_0;
    let first = Seq::empty() + signature();
    let versioned = first + vstd::bytes::spec_u32_to_le_bytes(FORMAT_VERSION);
    let sequenced = versioned + vstd::bytes::spec_u64_to_le_bytes(sequence);
    assert(all == body + vstd::bytes::spec_u64_to_le_bytes(checksum(body)));
    assert(all.take(all.len() as int) =~= all);
    lemma_u64_back(checksum(body), body, all);
    lemma_tables_back(tables, 0, head, all);
    lemma_begins_further(head, body, all);
    lemma_count_back(tables.len(), "table count"@, MAX_TABLES, sequenced, all);
    lemma_u64_back(sequence, versioned, all);
    lemma_u32_back(FORMAT_VERSION, first, all);
    lemma_begins(Seq::empty(), signature(), all);
    assert(signature().len() == 8);
    assert(first.len() == 8);
    assert(tables.take(0) =~= Seq::<NamedTableView>::empty());
    assert(all.take(body.len() as int) == body);
}

proof fn lemma_arranged_indexes(table: TableView)
    requires
        storable_table(table),
        table.indexes.len() <= usize::MAX,
    ensures
        arranged_indexes(table.indexes).len() == table.indexes.len(),
        forall|i: int|
            0 <= i < table.indexes.len() ==> table.indexes.contains(#[trigger] arranged_indexes(table.indexes)[i]),
        storable_table(
            TableView { columns: table.columns, rows: table.rows, indexes: arranged_indexes(table.indexes) },
        ),
{
    let indexes = table.indexes;
    let count = indexes.len() as usize;
    let before = index_order(indexes);
    lemma_index_order(indexes);
    law_sorted(count, before);
    let order = sorted(count, before);
    let arranged = arranged_indexes(indexes);
    assert forall|i: int| 0 <= i < indexes.len() implies indexes.contains(#[trigger] arranged[i]) by {
        assert(arranged[i] == indexes[order[i] as int]);
    }
    let other = TableView { columns: table.columns, rows: table.rows, indexes: arranged };
    assert forall|i: int| 0 <= i < other.indexes.len() implies (#[trigger] other.indexes[i]).name.len() > 0
        && other.indexes[i].column < other.columns.len() && !(
    other.columns[other.indexes[i].column as int].data_type is Vector) by {
        assert(other.indexes[i] == indexes[order[i] as int]);
    }
    assert forall|i: int, j: int| 0 <= i < j < other.indexes.len() implies (#[trigger] other.indexes[i]).name != (
    #[trigger] other.indexes[j]).name by {
        let a = order[i] as int;
        let b = order[j] as int;
        assert(other.indexes[i] == indexes[a]);
        assert(other.indexes[j] == indexes[b]);
        assert(a != b);
        if a < b {
            assert(indexes[a].name != indexes[b].name);
        } else {
            assert(indexes[b].name != indexes[a].name);
        }
    }
}

proof fn lemma_arranged_tables(tables: Seq<NamedTableView>)
    requires
        storable(tables),
        tables.len() <= usize::MAX,
        forall|i: int| 0 <= i < tables.len() ==> (#[trigger] tables[i]).table.indexes.len() <= usize::MAX,
    ensures
        storable(arranged_tables(tables)),
        arranged_tables(tables).len() == tables.len(),
{
    let count = tables.len() as usize;
    let before = table_order(tables);
    lemma_table_order(tables);
    law_sorted(count, before);
    let order = sorted(count, before);
    let arranged = arranged_tables(tables);
    assert forall|i: int| 0 <= i < arranged.len() implies (#[trigger] arranged[i]).name.len() > 0 && storable_table(
        arranged[i].table,
    ) by {
        let entry = tables[order[i] as int];
        assert(arranged[i] == arranged_table(entry));
        lemma_arranged_indexes(entry.table);
    }
    assert forall|i: int, j: int| 0 <= i < j < arranged.len() implies (#[trigger] arranged[i]).name != (
    #[trigger] arranged[j]).name && index_names_apart(arranged[i].table, arranged[j].table) by {
        let a = order[i] as int;
        let b = order[j] as int;
        assert(arranged[i] == arranged_table(tables[a]));
        assert(arranged[j] == arranged_table(tables[b]));
        assert(a != b);
        lemma_arranged_indexes(tables[a].table);
        lemma_arranged_indexes(tables[b].table);
        if a < b {
            assert(tables[a].name != tables[b].name);
            assert(index_names_apart(tables[a].table, tables[b].table));
        } else {
            assert(tables[b].name != tables[a].name);
            assert(index_names_apart(tables[b].table, tables[a].table));
        }
        assert forall|k: int, l: int|
            0 <= k < arranged[i].table.indexes.len() && 0 <= l < arranged[j].table.indexes.len() implies (
        #[trigger] arranged[i].table.indexes[k]).name != (#[trigger] arranged[j].table.indexes[l]).name by {
            let first = arranged_indexes(tables[a].table.indexes);
            let second = arranged_indexes(tables[b].table.indexes);
            let m = choose|m: int| 0 <= m < tables[a].table.indexes.len() && first[k] == tables[a].table.indexes[m];
            let n = choose|n: int| 0 <= n < tables[b].table.indexes.len() && second[l] == tables[b].table.indexes[n];
            assert(first[k] == tables[a].table.indexes[m]);
            assert(second[l] == tables[b].table.indexes[n]);
        }
    }
}

/// What is loaded of the snapshot of a catalog is its tables in the order of their names, each with
/// its columns, its rows and its indexes, and the number of the last change that was logged.
pub proof fn law_snapshot_restores(catalog: CatalogView)
    requires
        storable(catalog.tables),
        catalog.tables.len() <= usize::MAX,
        forall|i: int| 0 <= i < catalog.tables.len() ==> (#[trigger] catalog.tables[i]).table.indexes.len() <= usize::MAX,
        snapshot_of(arranged_tables(catalog.tables), catalog.durable_sequence) is Ok,
    ensures
        loaded(snapshot_of(arranged_tables(catalog.tables), catalog.durable_sequence)->Ok_0) == Ok::<
            CatalogView,
            ErrorView,
        >(
            CatalogView {
                tables: arranged_tables(catalog.tables),
                revision: 0,
                durable_sequence: catalog.durable_sequence,
            },
        ),
{
    lemma_arranged_tables(catalog.tables);
    law_snapshot_holds_tables(arranged_tables(catalog.tables), catalog.durable_sequence);
}

/// A snapshot of tables that can be saved is refused with anything behind it.
pub proof fn law_appended_bytes_are_refused(tables: Seq<NamedTableView>, sequence: u64, more: Seq<u8>)
    requires
        storable(tables),
        snapshot_of(tables, sequence) is Ok,
        more.len() > 0,
    ensures
        loaded(snapshot_of(tables, sequence)->Ok_0 + more) == Err::<CatalogView, ErrorView>(
            corrupted("trailing data after catalog"@),
        ),
{
    let written = snapshot_of(tables, sequence)->Ok_0;
    let all = written + more;
    let head = snapshot_head(tables.len(), sequence);
    let body = put_tables(tables, 0, head)->Ok_0;
    let first = Seq::empty() + signature();
    let versioned = first + vstd::bytes::spec_u32_to_le_bytes(FORMAT_VERSION);
    let sequenced = versioned + vstd::bytes::spec_u64_to_le_bytes(sequence);
    assert(written == body + vstd::bytes::spec_u64_to_le_bytes(checksum(body)));
    assert(all.take(written.len() as int) =~= written);
    lemma_u64_back(checksum(body), body, all);
    lemma_tables_back(tables, 0, head, all);
    lemma_begins_further(head, body, all);
    lemma_count_back(tables.len(), "table count"@, MAX_TABLES, sequenced, all);
    lemma_u64_back(sequence, versioned, all);
    lemma_u32_back(FORMAT_VERSION, first, all);
    lemma_begins(Seq::empty(), signature(), all);
    assert(signature().len() == 8);
    assert(first.len() == 8);
    assert(tables.take(0) =~= Seq::<NamedTableView>::empty());
    assert(all.take(body.len() as int) == body);
}

} // verus!
