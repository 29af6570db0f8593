//! Versioned binary snapshots of a catalog.

use vstd::prelude::*;
use crate::catalog::{declares, is_declared, table_position, Catalog, CatalogView, NamedTable, NamedTableView};
use crate::codec::{
    advanced, became, bool_byte, checksum, corrupt, corrupted, ensure_maximum, put_string, read_bool, read_count,
    read_exact, read_i64, read_string, read_u32, read_u64, read_u8, taken, taken_bool, taken_count, taken_i64,
    taken_string, taken_u32, taken_u64, taken_u8, unsigned, within, write_bool, write_bytes, write_count, write_i64,
    write_string, write_u32, write_u64, write_u8, wrote, ChecksumIo, Source,
};
use crate::error::{outcome, plain, Error, ErrorView};
use crate::float::{finite, is_finite};
use crate::index::HashIndex;
use crate::order::sorted;
use crate::schema::{find_index, index_order, index_owner, index_position, sorted_indexes, table_order};
use crate::table::{
    lemma_checked_row, lemma_checked_table, null_checked, unique_checked, valid_row, validate_distinct, validate_row,
    IndexView, NamedIndex, Table, TableView,
};
use crate::text::{decimal, decimal_text, join2, join3, lemma_views_push, views};
use crate::value::{
    lemma_row_views_push, row_views, type_of, Column, ColumnView, DataType, Value, ValueView,
};
use crate::vector::{element_finite, element_is_finite, new_vector, Vector, MAX_VECTOR_DIMENSIONS};

verus! {

broadcast use {vstd::string::group_string_axioms, lemma_views_push, lemma_row_views_push};

pub const FORMAT_VERSION: u32 = 3;

pub const MAX_TABLES: usize = 100000;

pub const MAX_COLUMNS: usize = 100000;

pub const MAX_INDEXES: usize = 100000;

pub const MAX_ROWS: usize = 10000000;

/// The bytes that a snapshot begins with.
pub open spec fn signature() -> Seq<u8> {
    seq![86u8, 69u8, 67u8, 84u8, 79u8, 82u8, 83u8, 0u8]
}

/// The bytes that a snapshot begins with: `VECTORS` and a zero.
pub fn magic() -> (bytes: Vec<u8>)
    ensures
        bytes@ == signature(),
{
    let bytes: Vec<u8> = vec![86u8, 69u8, 67u8, 84u8, 79u8, 82u8, 83u8, 0u8];
    assert(bytes@ =~= signature());
    bytes
}

pub open spec fn count_bytes_of(count: nat) -> Seq<u8> {
    vstd::bytes::spec_u64_to_le_bytes(count as u64)
}

/// The bytes with a type at their end.
pub open spec fn put_type(data_type: DataType, done: Seq<u8>) -> Seq<u8> {
    match data_type {
        DataType::Integer => done + seq![1u8],
        DataType::Float => done + seq![2u8],
        DataType::Text => done + seq![3u8],
        DataType::Boolean => done + seq![4u8],
        DataType::Vector(dimensions) => done + seq![5u8] + count_bytes_of(dimensions as nat),
    }
}

fn write_data_type(writer: &mut ChecksumIo<Vec<u8>>, data_type: &DataType)
    requires
        old(writer).wf(),
    ensures
        became(*old(writer), *final(writer), put_type(*data_type, old(writer).bytes())),
{
    match data_type {
        DataType::Integer => write_u8(writer, 1),
        DataType::Float => write_u8(writer, 2),
        DataType::Text => write_u8(writer, 3),
        DataType::Boolean => write_u8(writer, 4),
        DataType::Vector(dimensions) => {
            write_u8(writer, 5);
            write_count(writer, *dimensions);
        },
    }
}

/// The bytes with the elements from `from` on at their end.
pub open spec fn put_elements(elements: Seq<u32>, from: nat, done: Seq<u8>) -> Result<Seq<u8>, ErrorView>
    decreases elements.len() - from,
{
    if from >= elements.len() {
        Ok(done)
    } else if !element_finite(elements[from as int]) {
        Err(corrupted("in-memory vector contains a non-finite value"@))
    } else {
        put_elements(elements, from + 1, done + vstd::bytes::spec_u32_to_le_bytes(elements[from as int]))
    }
}

pub open spec fn mismatched(value: ValueView, data_type: DataType) -> ErrorView {
    corrupted("in-memory "@ + value.kind_name() + " value does not match "@ + data_type.notation())
}

/// The bytes with a value at their end.
pub open spec fn put_value(value: ValueView, data_type: DataType, done: Seq<u8>) -> Result<Seq<u8>, ErrorView> {
    let marked = done + seq![1u8];
    match value {
        ValueView::Null => Ok(done + seq![0u8]),
        ValueView::Integer(value) if data_type == DataType::Integer => Ok(
            marked + vstd::bytes::spec_u64_to_le_bytes(unsigned(value)),
        ),
        ValueView::Float(bits) if data_type == DataType::Float && finite(bits) => Ok(
            marked + vstd::bytes::spec_u64_to_le_bytes(bits),
        ),
        ValueView::Text(text) if data_type == DataType::Text => put_string(text, marked),
        ValueView::Boolean(value) if data_type == DataType::Boolean => Ok(marked + seq![bool_byte(value)]),
        ValueView::Vector(elements) if data_type == DataType::Vector(elements.len() as usize) => put_elements(
            elements,
            0,
            marked,
        ),
        _ => Err(mismatched(value, data_type)),
    }
}

fn write_elements(writer: &mut ChecksumIo<Vec<u8>>, vector: &Vector) -> (result: Result<(), Error>)
    requires
        old(writer).wf(),
    ensures
        wrote(*old(writer), *final(writer), result, put_elements(vector@, 0, old(writer).bytes())),
{
    let elements = vector.as_slice();
    let mut index: usize = 0;
    while index < elements.len()
        invariant
            writer.wf(),
            writer.enabled == old(writer).enabled,
            index <= elements@.len(),
            elements@ == vector@,
            put_elements(vector@, index as nat, writer.bytes()) == put_elements(vector@, 0, old(writer).bytes()),
        decreases elements@.len() - index,
    {
        if !element_is_finite(elements[index]) {
            return Err(corrupt("in-memory vector contains a non-finite value"));
        }
        write_u32(writer, elements[index]);
        index = index + 1;
    }
    Ok(())
}

fn mismatch(value: &Value, data_type: &DataType) -> (error: Error)
    ensures
        error@ == mismatched(value@, *data_type),
{
    let expected = data_type.to_text();
    let head = join2("in-memory ", value.kind_name());
    Error::CorruptSnapshot(join3(head.as_str(), " value does not match ", expected.as_str()))
}

fn write_value(writer: &mut ChecksumIo<Vec<u8>>, value: &Value, data_type: &DataType) -> (result: Result<(), Error>)
    requires
        old(writer).wf(),
    ensures
        wrote(*old(writer), *final(writer), result, put_value(value@, *data_type, old(writer).bytes())),
{
    if value.is_null() {
        write_u8(writer, 0);
        return Ok(());
    }
    write_u8(writer, 1);
    match value {
        Value::Integer(number) => {
            if let DataType::Integer = data_type {
                write_i64(writer, *number);
                return Ok(());
            }
        },
        Value::Float(bits) => {
            if let DataType::Float = data_type {
                if is_finite(*bits) {
                    write_u64(writer, *bits);
                    return Ok(());
                }
            }
        },
        Value::Text(text) => {
            if let DataType::Text = data_type {
                return write_string(writer, text.as_str());
            }
        },
        Value::Boolean(truth) => {
            if let DataType::Boolean = data_type {
                write_bool(writer, *truth);
                return Ok(());
            }
        },
        Value::Vector(vector) => {
            if let DataType::Vector(dimensions) = data_type {
                if vector.dimensions() == *dimensions {
                    return write_elements(writer, vector);
                }
            }
        },
        Value::Null => {},
    }
    Err(mismatch(value, data_type))
}

/// The bytes with the values from `from` on at their end.
pub open spec fn put_row(columns: Seq<ColumnView>, row: Seq<ValueView>, from: nat, done: Seq<u8>) -> Result<Seq<u8>, ErrorView>
    decreases columns.len() - from,
{
    if from >= columns.len() {
        Ok(done)
    } else {
        match put_value(row[from as int], columns[from as int].data_type, done) {
            Err(error) => Err(error),
            Ok(done) => put_row(columns, row, from + 1, done),
        }
    }
}

/// The bytes with the rows from `from` on at their end.
pub open spec fn put_rows(columns: Seq<ColumnView>, rows: Seq<Seq<ValueView>>, from: nat, done: Seq<u8>) -> Result<
    Seq<u8>,
    ErrorView,
>
    decreases rows.len() - from,
{
    if from >= rows.len() {
        Ok(done)
    } else {
        match put_row(columns, rows[from as int], 0, done) {
            Err(error) => Err(error),
            Ok(done) => put_rows(columns, rows, from + 1, done),
        }
    }
}

fn write_row(writer: &mut ChecksumIo<Vec<u8>>, columns: &Vec<Column>, row: &Vec<Value>) -> (result: Result<(), Error>)
    requires
        old(writer).wf(),
        row@.len() == columns@.len(),
    ensures
        wrote(*old(writer), *final(writer), result, put_row(views(columns@), views(row@), 0, old(writer).bytes())),
{
    let mut index: usize = 0;
    while index < columns.len()
        invariant
            writer.wf(),
            writer.enabled == old(writer).enabled,
            row@.len() == columns@.len(),
            index <= columns@.len(),
            put_row(views(columns@), views(row@), index as nat, writer.bytes()) == put_row(
                views(columns@),
                views(row@),
                0,
                old(writer).bytes(),
            ),
        decreases columns@.len() - index,
    {
        proof {
            assert(views(columns@)[index as int] == columns@[index as int]@);
            assert(views(row@)[index as int] == row@[index as int]@);
        }
        write_value(writer, &row[index], &columns[index].data_type)?;
        index = index + 1;
    }
    Ok(())
}

fn write_rows(writer: &mut ChecksumIo<Vec<u8>>, columns: &Vec<Column>, rows: &Vec<Vec<Value>>) -> (result: Result<(), Error>)
    requires
        old(writer).wf(),
        forall|i: int| 0 <= i < rows@.len() ==> (#[trigger] row_views(rows@)[i]).len() == columns@.len(),
    ensures
        wrote(*old(writer), *final(writer), result, put_rows(views(columns@), row_views(rows@), 0, old(writer).bytes())),
{
    let mut index: usize = 0;
    while index < rows.len()
        invariant
            writer.wf(),
            writer.enabled == old(writer).enabled,
            forall|i: int| 0 <= i < rows@.len() ==> (#[trigger] row_views(rows@)[i]).len() == columns@.len(),
            index <= rows@.len(),
            put_rows(views(columns@), row_views(rows@), index as nat, writer.bytes()) == put_rows(
                views(columns@),
                row_views(rows@),
                0,
                old(writer).bytes(),
            ),
        decreases rows@.len() - index,
    {
        proof {
            assert(row_views(rows@)[index as int] == views(rows@[index as int]@));
            assert(row_views(rows@)[index as int].len() == columns@.len());
        }
        write_row(writer, columns, &rows[index])?;
        index = index + 1;
    }
    Ok(())
}

/// The bytes with one column at their end.
pub open spec fn put_column(column: ColumnView, done: Seq<u8>) -> Result<Seq<u8>, ErrorView> {
    match put_string(column.name, done) {
        Err(error) => Err(error),
        Ok(named) => Ok(
            put_type(column.data_type, named) + seq![bool_byte(column.nullable)] + seq![bool_byte(column.unique)],
        ),
    }
}

/// The bytes with the columns from `from` on at their end.
pub open spec fn put_columns(columns: Seq<ColumnView>, from: nat, done: Seq<u8>) -> Result<Seq<u8>, ErrorView>
    decreases columns.len() - from,
{
    if from >= columns.len() {
        Ok(done)
    } else {
        match put_column(columns[from as int], done) {
            Err(error) => Err(error),
            Ok(done) => put_columns(columns, from + 1, done),
        }
    }
}

fn write_columns(writer: &mut ChecksumIo<Vec<u8>>, columns: &Vec<Column>) -> (result: Result<(), Error>)
    requires
        old(writer).wf(),
    ensures
        wrote(*old(writer), *final(writer), result, put_columns(views(columns@), 0, old(writer).bytes())),
{
    let mut index: usize = 0;
    while index < columns.len()
        invariant
            writer.wf(),
            writer.enabled == old(writer).enabled,
            index <= columns@.len(),
            put_columns(views(columns@), index as nat, writer.bytes()) == put_columns(
                views(columns@),
                0,
                old(writer).bytes(),
            ),
        decreases columns@.len() - index,
    {
        assert(views(columns@)[index as int] == columns@[index as int]@);
        let column = &columns[index];
        write_string(writer, column.name.as_str())?;
        write_data_type(writer, &column.data_type);
        write_bool(writer, column.nullable);
        write_bool(writer, column.unique);
        index = index + 1;
    }
    Ok(())
}

/// The bytes with the indexes from `from` on at their end.
pub open spec fn put_indexes(indexes: Seq<IndexView>, from: nat, done: Seq<u8>) -> Result<Seq<u8>, ErrorView>
    decreases indexes.len() - from,
{
    if from >= indexes.len() {
        Ok(done)
    } else {
        match put_string(indexes[from as int].name, done) {
            Err(error) => Err(error),
            Ok(done) => put_indexes(indexes, from + 1, done + count_bytes_of(indexes[from as int].column)),
        }
    }
}

/// The indexes in the order of their names.
pub open spec fn arranged_indexes(indexes: Seq<IndexView>) -> Seq<IndexView> {
    sorted(indexes.len() as usize, index_order(indexes)).map_values(|at: usize| indexes[at as int])
}

fn write_indexes(writer: &mut ChecksumIo<Vec<u8>>, indexes: &Vec<NamedIndex>) -> (result: Result<(), Error>)
    requires
        old(writer).wf(),
    ensures
        wrote(
            *old(writer),
            *final(writer),
            result,
            put_indexes(arranged_indexes(views(indexes@)), 0, old(writer).bytes()),
        ),
{
    let order = sorted_indexes(indexes);
    let ghost arranged = arranged_indexes(views(indexes@));
    let mut index: usize = 0;
    while index < order.len()
        invariant
            writer.wf(),
            writer.enabled == old(writer).enabled,
            index <= order@.len(),
            arranged == arranged_indexes(views(indexes@)),
            order@ == sorted(indexes@.len() as usize, index_order(views(indexes@))),
            forall|i: int| 0 <= i < order@.len() ==> (#[trigger] order@[i]) < indexes@.len(),
            put_indexes(arranged, index as nat, writer.bytes()) == put_indexes(arranged, 0, old(writer).bytes()),
        decreases order@.len() - index,
    {
        let at: usize = order[index];
        let entry = &indexes[at];
        assert(arranged[index as int] == entry@);
        write_string(writer, entry.name.as_str())?;
        write_count(writer, entry.index.column);
        index = index + 1;
    }
    Ok(())
}

/// The bytes with a table at their end; its indexes stand in the order given.
pub open spec fn put_table(entry: NamedTableView, done: Seq<u8>) -> Result<Seq<u8>, ErrorView> {
    let table = entry.table;
    match within("column count"@, table.columns.len(), MAX_COLUMNS as nat) {
        Err(error) => Err(error),
        Ok(_) => match within("index count"@, table.indexes.len(), MAX_INDEXES as nat) {
            Err(error) => Err(error),
            Ok(_) => match within("row count"@, table.rows.len(), MAX_ROWS as nat) {
                Err(error) => Err(error),
                Ok(_) => match put_string(entry.name, done) {
                    Err(error) => Err(error),
                    Ok(named) => match put_columns(table.columns, 0, named + count_bytes_of(table.columns.len())) {
                        Err(error) => Err(error),
                        Ok(shaped) => match put_indexes(table.indexes, 0, shaped + count_bytes_of(table.indexes.len())) {
                            Err(error) => Err(error),
                            Ok(indexed) => put_rows(
                                table.columns,
                                table.rows,
                                0,
                                indexed + count_bytes_of(table.rows.len()),
                            ),
                        },
                    },
                },
            },
        },
    }
}

/// The table with its indexes in the order of their names.
pub open spec fn arranged_table(entry: NamedTableView) -> NamedTableView {
    NamedTableView {
        name: entry.name,
        table: TableView {
            columns: entry.table.columns,
            rows: entry.table.rows,
            indexes: arranged_indexes(entry.table.indexes),
        },
    }
}

fn write_table(writer: &mut ChecksumIo<Vec<u8>>, entry: &NamedTable) -> (result: Result<(), Error>)
    requires
        old(writer).wf(),
        entry.table.wf(),
    ensures
        wrote(*old(writer), *final(writer), result, put_table(arranged_table(entry@), old(writer).bytes())),
{
    let table = &entry.table;
    let order = sorted_indexes(&table.indexes);
    assert(arranged_indexes(table@.indexes).len() == table.indexes@.len());
    ensure_maximum("column count", table.columns.len(), MAX_COLUMNS)?;
    ensure_maximum("index count", table.indexes.len(), MAX_INDEXES)?;
    ensure_maximum("row count", table.rows.len(), MAX_ROWS)?;
    write_string(writer, entry.name.as_str())?;
    write_count(writer, table.columns.len());
    write_columns(writer, &table.columns)?;
    write_count(writer, table.indexes.len());
    write_indexes(writer, &table.indexes)?;
    write_count(writer, table.rows.len());
    proof {
        assert forall|i: int| 0 <= i < table.rows@.len() implies (#[trigger] row_views(table.rows@)[i]).len()
            == table.columns@.len() by {
            assert(valid_row(table@.columns, table@.rows[i]));
        }
    }
    write_rows(writer, &table.columns, &table.rows)
}

/// The bytes with the tables from `from` on at their end.
pub open spec fn put_tables(tables: Seq<NamedTableView>, from: nat, done: Seq<u8>) -> Result<Seq<u8>, ErrorView>
    decreases tables.len() - from,
{
    if from >= tables.len() {
        Ok(done)
    } else {
        match put_table(tables[from as int], done) {
            Err(error) => Err(error),
            Ok(done) => put_tables(tables, from + 1, done),
        }
    }
}

/// The tables in the order of their names, each with its indexes in the order of theirs.
pub open spec fn arranged_tables(tables: Seq<NamedTableView>) -> Seq<NamedTableView> {
    sorted(tables.len() as usize, table_order(tables)).map_values(|at: usize| arranged_table(tables[at as int]))
}

/// The bytes before the tables: the version, the number of the last change that was logged, and how
/// many tables follow.
pub open spec fn snapshot_head(count: nat, sequence: u64) -> Seq<u8> {
    Seq::empty() + signature() + vstd::bytes::spec_u32_to_le_bytes(FORMAT_VERSION) + vstd::bytes::spec_u64_to_le_bytes(
        sequence,
    ) + count_bytes_of(count)
}

/// The snapshot of tables in this order.
pub open spec fn snapshot_of(tables: Seq<NamedTableView>, sequence: u64) -> Result<Seq<u8>, ErrorView> {
    match within("table count"@, tables.len(), MAX_TABLES as nat) {
        Err(error) => Err(error),
        Ok(_) => match put_tables(tables, 0, snapshot_head(tables.len(), sequence)) {
            Err(error) => Err(error),
            Ok(body) => Ok(body + vstd::bytes::spec_u64_to_le_bytes(checksum(body))),
        },
    }
}

/// The snapshot of a catalog.
pub fn write_catalog(catalog: &Catalog) -> (result: Result<Vec<u8>, Error>)
    requires
        catalog.wf(),
    ensures
        outcome(result) == snapshot_of(arranged_tables(catalog@.tables), catalog@.durable_sequence),
{
    let order = catalog.sorted_tables();
    let ghost arranged = arranged_tables(catalog@.tables);
    assert(arranged.len() == catalog.tables@.len());
    ensure_maximum("table count", catalog.tables.len(), MAX_TABLES)?;
    let mut writer: ChecksumIo<Vec<u8>> = ChecksumIo::new(Vec::new());
    assert(writer.bytes() =~= Seq::<u8>::empty());
    let signature_bytes = magic();
    write_bytes(&mut writer, signature_bytes.as_slice());
    write_u32(&mut writer, FORMAT_VERSION);
    write_u64(&mut writer, catalog.durable_sequence);
    write_count(&mut writer, catalog.tables.len());
    let ghost head = snapshot_head(arranged.len(), catalog@.durable_sequence);
    assert(writer.bytes() == head);
    let mut index: usize = 0;
    while index < order.len()
        invariant
            catalog.wf(),
            writer.wf(),
            writer.enabled,
            index <= order@.len(),
            order@ == sorted(catalog@.tables.len() as usize, table_order(catalog@.tables)),
            forall|i: int| 0 <= i < order@.len() ==> (#[trigger] order@[i]) < catalog.tables@.len(),
            arranged == arranged_tables(catalog@.tables),
            put_tables(arranged, index as nat, writer.bytes()) == put_tables(arranged, 0, head),
            head == snapshot_head(arranged.len(), catalog@.durable_sequence),
            within("table count"@, arranged.len(), MAX_TABLES as nat) is Ok,
        decreases order@.len() - index,
    {
        let at: usize = order[index];
        proof {
            assert(catalog@.tables[at as int] == catalog.tables@[at as int]@);
            assert(arranged[index as int] == arranged_table(catalog@.tables[at as int]));
        }
        write_table(&mut writer, &catalog.tables[at])?;
        index = index + 1;
    }
    let ghost body = writer.bytes();
    let sum: u64 = writer.finish_hash();
    write_u64(&mut writer, sum);
    Ok(writer.into_inner())
}

/// The next type.
pub open spec fn taken_type(bytes: Seq<u8>, at: nat) -> Result<(DataType, nat), ErrorView> {
    match taken_u8(bytes, at) {
        Err(error) => Err(error),
        Ok((tag, next)) => if tag == 1 {
            Ok((DataType::Integer, next))
        } else if tag == 2 {
            Ok((DataType::Float, next))
        } else if tag == 3 {
            Ok((DataType::Text, next))
        } else if tag == 4 {
            Ok((DataType::Boolean, next))
        } else if tag == 5 {
            match taken_count(bytes, next, "vector dimensions"@, MAX_VECTOR_DIMENSIONS) {
                Err(error) => Err(error),
                Ok((dimensions, next)) => if dimensions == 0 {
                    Err(corrupted("vector dimension is zero"@))
                } else {
                    Ok((DataType::Vector(dimensions), next))
                },
            }
        } else {
            Err(corrupted("unknown data type tag "@ + decimal_text(tag as nat)))
        },
    }
}

fn read_data_type(reader: &mut ChecksumIo<Source>) -> (result: Result<DataType, Error>)
    requires
        old(reader).wf(),
    ensures
        advanced(*old(reader), *final(reader), plain(result), taken_type(old(reader).bytes(), old(reader).at())),
{
    let tag: u8 = read_u8(reader)?;
    if tag == 1 {
        Ok(DataType::Integer)
    } else if tag == 2 {
        Ok(DataType::Float)
    } else if tag == 3 {
        Ok(DataType::Text)
    } else if tag == 4 {
        Ok(DataType::Boolean)
    } else if tag == 5 {
        let dimensions: usize = read_count(reader, "vector dimensions", MAX_VECTOR_DIMENSIONS)?;
        if dimensions == 0 {
            return Err(corrupt("vector dimension is zero"));
        }
        Ok(DataType::Vector(dimensions))
    } else {
        let found = decimal(tag as u64);
        Err(Error::CorruptSnapshot(join2("unknown data type tag ", found.as_str())))
    }
}

/// The next elements, up to `count`, after `done`.
pub open spec fn taken_elements(bytes: Seq<u8>, at: nat, count: nat, done: Seq<u32>) -> Result<(Seq<u32>, nat), ErrorView>
    decreases count - done.len(),
{
    if done.len() >= count {
        Ok((done, at))
    } else {
        match taken_u32(bytes, at) {
            Err(error) => Err(error),
            Ok((element, next)) => if element_finite(element) {
                taken_elements(bytes, next, count, done.push(element))
            } else {
                Err(corrupted("vector contains a non-finite value"@))
            },
        }
    }
}

fn read_elements(reader: &mut ChecksumIo<Source>, count: usize) -> (result: Result<Vec<u32>, Error>)
    requires
        old(reader).wf(),
    ensures
        advanced(
            *old(reader),
            *final(reader),
            outcome(result),
            taken_elements(old(reader).bytes(), old(reader).at(), count as nat, Seq::empty()),
        ),
        result matches Ok(elements) ==> elements@.len() == count,
{
    let mut elements: Vec<u32> = Vec::new();
    while elements.len() < count
        invariant
            reader.wf(),
            reader.bytes() == old(reader).bytes(),
            reader.enabled == old(reader).enabled,
            elements@.len() <= count,
            taken_elements(reader.bytes(), reader.at(), count as nat, elements@) == taken_elements(
                old(reader).bytes(),
                old(reader).at(),
                count as nat,
                Seq::empty(),
            ),
        decreases count - elements@.len(),
    {
        let element: u32 = read_u32(reader)?;
        if !element_is_finite(element) {
            return Err(corrupt("vector contains a non-finite value"));
        }
        elements.push(element);
    }
    Ok(elements)
}

/// The next value that is not `NULL`, of a type.
pub open spec fn taken_given(bytes: Seq<u8>, at: nat, data_type: DataType) -> Result<(ValueView, nat), ErrorView> {
    match data_type {
        DataType::Integer => match taken_i64(bytes, at) {
            Err(error) => Err(error),
            Ok((value, next)) => Ok((ValueView::Integer(value), next)),
        },
        DataType::Float => match taken_u64(bytes, at) {
            Err(error) => Err(error),
            Ok((bits, next)) => if finite(bits) {
                Ok((ValueView::Float(bits), next))
            } else {
                Err(corrupted("non-finite floating-point value"@))
            },
        },
        DataType::Text => match taken_string(bytes, at) {
            Err(error) => Err(error),
            Ok((text, next)) => Ok((ValueView::Text(text), next)),
        },
        DataType::Boolean => match taken_bool(bytes, at, "boolean value"@) {
            Err(error) => Err(error),
            Ok((value, next)) => Ok((ValueView::Boolean(value), next)),
        },
        DataType::Vector(dimensions) => match taken_elements(bytes, at, dimensions as nat, Seq::empty()) {
            Err(error) => Err(error),
            Ok((elements, next)) => match new_vector(elements) {
                Err(error) => Err(error),
                Ok(elements) => Ok((ValueView::Vector(elements), next)),
            },
        },
    }
}

/// The next value of a type.
pub open spec fn taken_value(bytes: Seq<u8>, at: nat, data_type: DataType) -> Result<(ValueView, nat), ErrorView> {
    match taken_u8(bytes, at) {
        Err(error) => Err(error),
        Ok((marker, next)) => if marker == 0 {
            Ok((ValueView::Null, next))
        } else if marker == 1 {
            taken_given(bytes, next, data_type)
        } else {
            Err(corrupted("invalid NULL marker "@ + decimal_text(marker as nat)))
        },
    }
}

/// A value of a type, or `NULL`.
pub open spec fn value_fits(value: ValueView, data_type: DataType) -> bool {
    value is Null || type_of(value) == Some(data_type)
}

fn read_given(reader: &mut ChecksumIo<Source>, data_type: &DataType) -> (result: Result<Value, Error>)
    requires
        old(reader).wf(),
    ensures
        advanced(
            *old(reader),
            *final(reader),
            outcome(result),
            taken_given(old(reader).bytes(), old(reader).at(), *data_type),
        ),
        result matches Ok(value) ==> value_fits(value@, *data_type),
{
    match data_type {
        DataType::Integer => Ok(Value::Integer(read_i64(reader)?)),
        DataType::Float => {
            let bits: u64 = read_u64(reader)?;
            if !is_finite(bits) {
                return Err(corrupt("non-finite floating-point value"));
            }
            Ok(Value::Float(bits))
        },
        DataType::Text => Ok(Value::Text(read_string(reader)?)),
        DataType::Boolean => Ok(Value::Boolean(read_bool(reader, "boolean value")?)),
        DataType::Vector(dimensions) => {
            let elements = read_elements(reader, *dimensions)?;
            let vector = Vector::new(elements)?;
            assert(vector@ == elements@);
            Ok(Value::Vector(vector))
        },
    }
}

fn read_value(reader: &mut ChecksumIo<Source>, data_type: &DataType) -> (result: Result<Value, Error>)
    requires
        old(reader).wf(),
    ensures
        advanced(
            *old(reader),
            *final(reader),
            outcome(result),
            taken_value(old(reader).bytes(), old(reader).at(), *data_type),
        ),
        result matches Ok(value) ==> value_fits(value@, *data_type),
{
    let marker: u8 = read_u8(reader)?;
    if marker == 0 {
        return Ok(Value::Null);
    }
    if marker != 1 {
        let found = decimal(marker as u64);
        return Err(Error::CorruptSnapshot(join2("invalid NULL marker ", found.as_str())));
    }
    read_given(reader, data_type)
}

/// The next values of the columns, after `done`.
pub open spec fn taken_row(bytes: Seq<u8>, at: nat, columns: Seq<ColumnView>, done: Seq<ValueView>) -> Result<
    (Seq<ValueView>, nat),
    ErrorView,
>
    decreases columns.len() - done.len(),
{
    if done.len() >= columns.len() {
        Ok((done, at))
    } else {
        match taken_value(bytes, at, columns[done.len() as int].data_type) {
            Err(error) => Err(error),
            Ok((value, next)) => taken_row(bytes, next, columns, done.push(value)),
        }
    }
}

/// The message about a table.
pub open spec fn about_table(before: Seq<char>, name: Seq<char>, after: Seq<char>) -> ErrorView {
    corrupted(before + name + after)
}

/// The next rows, up to `count`, after `done`.
pub open spec fn taken_rows(
    bytes: Seq<u8>,
    at: nat,
    name: Seq<char>,
    columns: Seq<ColumnView>,
    count: nat,
    done: Seq<Seq<ValueView>>,
) -> Result<(Seq<Seq<ValueView>>, nat), ErrorView>
    decreases count - done.len(),
{
    if done.len() >= count {
        Ok((done, at))
    } else {
        match taken_row(bytes, at, columns, Seq::empty()) {
            Err(error) => Err(error),
            Ok((row, next)) => match null_checked(columns, row, 0) {
                Err(error) => Err(about_table("invalid row in table '"@, name, "': "@ + error.message())),
                Ok(_) => taken_rows(bytes, next, name, columns, count, done.push(row)),
            },
        }
    }
}

fn read_row(reader: &mut ChecksumIo<Source>, columns: &Vec<Column>) -> (result: Result<Vec<Value>, Error>)
    requires
        old(reader).wf(),
    ensures
        match result {
            Ok(row) => advanced(
                *old(reader),
                *final(reader),
                Ok::<Seq<ValueView>, ErrorView>(views(row@)),
                taken_row(old(reader).bytes(), old(reader).at(), views(columns@), Seq::empty()),
            ) && row@.len() == columns@.len() && forall|c: int|
                0 <= c < columns@.len() ==> value_fits(#[trigger] views(row@)[c], views(columns@)[c].data_type),
            Err(error) => taken_row(old(reader).bytes(), old(reader).at(), views(columns@), Seq::empty()) == Err::<
                (Seq<ValueView>, nat),
                ErrorView,
            >(error@),
        },
{
    let mut row: Vec<Value> = Vec::new();
    assert(views(row@) =~= Seq::<ValueView>::empty());
    while row.len() < columns.len()
        invariant
            reader.wf(),
            reader.bytes() == old(reader).bytes(),
            reader.enabled == old(reader).enabled,
            row@.len() <= columns@.len(),
            forall|c: int| 0 <= c < row@.len() ==> value_fits(#[trigger] views(row@)[c], views(columns@)[c].data_type),
            taken_row(reader.bytes(), reader.at(), views(columns@), views(row@)) == taken_row(
                old(reader).bytes(),
                old(reader).at(),
                views(columns@),
                Seq::empty(),
            ),
        decreases columns@.len() - row@.len(),
    {
        let index: usize = row.len();
        assert(views(columns@)[index as int] == columns@[index as int]@);
        let value = read_value(reader, &columns[index].data_type)?;
        let ghost before = views(row@);
        row.push(value);
        proof {
            assert forall|c: int| 0 <= c < row@.len() implies value_fits(
                #[trigger] views(row@)[c],
                views(columns@)[c].data_type,
            ) by {
                if c < before.len() {
                    assert(views(row@)[c] == before[c]);
                }
            }
        }
    }
    Ok(row)
}

fn read_rows(reader: &mut ChecksumIo<Source>, name: &str, columns: &Vec<Column>, count: usize) -> (result: Result<
    Vec<Vec<Value>>,
    Error,
>)
    requires
        old(reader).wf(),
    ensures
        match result {
            Ok(rows) => advanced(
                *old(reader),
                *final(reader),
                Ok::<Seq<Seq<ValueView>>, ErrorView>(row_views(rows@)),
                taken_rows(old(reader).bytes(), old(reader).at(), name@, views(columns@), count as nat, Seq::empty()),
            ) && rows@.len() == count && forall|i: int|
                0 <= i < rows@.len() ==> valid_row(views(columns@), #[trigger] row_views(rows@)[i]),
            Err(error) => taken_rows(
                old(reader).bytes(),
                old(reader).at(),
                name@,
                views(columns@),
                count as nat,
                Seq::empty(),
            ) == Err::<(Seq<Seq<ValueView>>, nat), ErrorView>(error@),
        },
{
    let mut rows: Vec<Vec<Value>> = Vec::new();
    assert(row_views(rows@) =~= Seq::<Seq<ValueView>>::empty());
    while rows.len() < count
        invariant
            reader.wf(),
            reader.bytes() == old(reader).bytes(),
            reader.enabled == old(reader).enabled,
            rows@.len() <= count,
            forall|i: int| 0 <= i < rows@.len() ==> valid_row(views(columns@), #[trigger] row_views(rows@)[i]),
            taken_rows(reader.bytes(), reader.at(), name@, views(columns@), count as nat, row_views(rows@)) == taken_rows(
                old(reader).bytes(),
                old(reader).at(),
                name@,
                views(columns@),
                count as nat,
                Seq::empty(),
            ),
        decreases count - rows@.len(),
    {
        let row = read_row(reader, columns)?;
        match validate_row(columns, &row) {
            Ok(_) => {},
            Err(error) => {
                let text = error.message();
                let tail = join2("': ", text.as_str());
                return Err(Error::CorruptSnapshot(join3("invalid row in table '", name, tail.as_str())));
            },
        }
        let ghost before = row_views(rows@);
        proof {
            lemma_checked_row(views(columns@), views(row@));
        }
        rows.push(row);
        proof {
            assert forall|i: int| 0 <= i < rows@.len() implies valid_row(views(columns@), #[trigger] row_views(rows@)[i]) by {
                if i < before.len() {
                    assert(row_views(rows@)[i] == before[i]);
                }
            }
        }
    }
    Ok(rows)
}

/// The next column of a table, after those in `done`.
pub open spec fn taken_column(bytes: Seq<u8>, at: nat, name: Seq<char>, done: Seq<ColumnView>) -> Result<
    (ColumnView, nat),
    ErrorView,
> {
    match taken_string(bytes, at) {
        Err(error) => Err(error),
        Ok((title, next)) => if title.len() == 0 || declares(done, title) {
            Err(about_table("table '"@, name, "' has an empty or duplicate column name"@))
        } else {
            match taken_type(bytes, next) {
                Err(error) => Err(error),
                Ok((data_type, next)) => match taken_bool(bytes, next, "column nullable flag"@) {
                    Err(error) => Err(error),
                    Ok((nullable, next)) => match taken_bool(bytes, next, "column unique flag"@) {
                        Err(error) => Err(error),
                        Ok((unique, next)) => Ok((ColumnView { name: title, data_type, nullable, unique }, next)),
                    },
                },
            }
        },
    }
}

/// The next columns, up to `count`, after `done`.
pub open spec fn taken_columns(bytes: Seq<u8>, at: nat, name: Seq<char>, count: nat, done: Seq<ColumnView>) -> Result<
    (Seq<ColumnView>, nat),
    ErrorView,
>
    decreases count - done.len(),
{
    if done.len() >= count {
        Ok((done, at))
    } else {
        match taken_column(bytes, at, name, done) {
            Err(error) => Err(error),
            Ok((column, next)) => taken_columns(bytes, next, name, count, done.push(column)),
        }
    }
}

fn read_column(reader: &mut ChecksumIo<Source>, name: &str, done: &Vec<Column>) -> (result: Result<Column, Error>)
    requires
        old(reader).wf(),
    ensures
        advanced(
            *old(reader),
            *final(reader),
            outcome(result),
            taken_column(old(reader).bytes(), old(reader).at(), name@, views(done@)),
        ),
{
    let title = read_string(reader)?;
    if title.as_str().is_empty() || is_declared(done, title.as_str()) {
        return Err(Error::CorruptSnapshot(join3("table '", name, "' has an empty or duplicate column name")));
    }
    let data_type = read_data_type(reader)?;
    let nullable = read_bool(reader, "column nullable flag")?;
    let unique = read_bool(reader, "column unique flag")?;
    Ok(Column { name: title, data_type, nullable, unique })
}

fn read_columns(reader: &mut ChecksumIo<Source>, name: &str, count: usize) -> (result: Result<Vec<Column>, Error>)
    requires
        old(reader).wf(),
    ensures
        match result {
            Ok(columns) => advanced(
                *old(reader),
                *final(reader),
                Ok::<Seq<ColumnView>, ErrorView>(views(columns@)),
                taken_columns(old(reader).bytes(), old(reader).at(), name@, count as nat, Seq::empty()),
            ) && columns@.len() == count,
            Err(error) => taken_columns(old(reader).bytes(), old(reader).at(), name@, count as nat, Seq::empty()) == Err::<
                (Seq<ColumnView>, nat),
                ErrorView,
            >(error@),
        },
{
    let mut columns: Vec<Column> = Vec::new();
    assert(views(columns@) =~= Seq::<ColumnView>::empty());
    while columns.len() < count
        invariant
            reader.wf(),
            reader.bytes() == old(reader).bytes(),
            reader.enabled == old(reader).enabled,
            columns@.len() <= count,
            taken_columns(reader.bytes(), reader.at(), name@, count as nat, views(columns@)) == taken_columns(
                old(reader).bytes(),
                old(reader).at(),
                name@,
                count as nat,
                Seq::empty(),
            ),
        decreases count - columns@.len(),
    {
        let column = read_column(reader, name, &columns)?;
        columns.push(column);
    }
    Ok(columns)
}

/// The next index of a table, after those in `done` and those of the tables before.
pub open spec fn taken_index(
    bytes: Seq<u8>,
    at: nat,
    name: Seq<char>,
    columns: Seq<ColumnView>,
    tables: Seq<NamedTableView>,
    done: Seq<IndexView>,
) -> Result<(IndexView, nat), ErrorView> {
    match taken_string(bytes, at) {
        Err(error) => Err(error),
        Ok((title, next)) => if title.len() == 0 || index_position(done, title, 0) is Some || index_owner(
            tables,
            title,
            0,
        ) is Some {
            Err(about_table("table '"@, name, "' has an empty or duplicate index name"@))
        } else {
            match taken_count(bytes, next, "index column"@, columns.len() as usize) {
                Err(error) => Err(error),
                Ok((column, next)) => if column >= columns.len() {
                    Err(about_table("index '"@, title, "' references a missing column"@))
                } else if columns[column as int].data_type is Vector {
                    Err(about_table("index '"@, title, "' targets a vector column"@))
                } else {
                    Ok((IndexView { name: title, column: column as nat }, next))
                },
            }
        },
    }
}

/// The next indexes, up to `count`, after `done`.
pub open spec fn taken_indexes(
    bytes: Seq<u8>,
    at: nat,
    name: Seq<char>,
    columns: Seq<ColumnView>,
    tables: Seq<NamedTableView>,
    count: nat,
    done: Seq<IndexView>,
) -> Result<(Seq<IndexView>, nat), ErrorView>
    decreases count - done.len(),
{
    if done.len() >= count {
        Ok((done, at))
    } else {
        match taken_index(bytes, at, name, columns, tables, done) {
            Err(error) => Err(error),
            Ok((index, next)) => taken_indexes(bytes, next, name, columns, tables, count, done.push(index)),
        }
    }
}

fn read_index(
    reader: &mut ChecksumIo<Source>,
    name: &str,
    columns: &Vec<Column>,
    catalog: &Catalog,
    done: &Vec<NamedIndex>,
) -> (result: Result<NamedIndex, Error>)
    requires
        old(reader).wf(),
    ensures
        advanced(
            *old(reader),
            *final(reader),
            outcome(result),
            taken_index(old(reader).bytes(), old(reader).at(), name@, views(columns@), catalog@.tables, views(done@)),
        ),
        result matches Ok(index) ==> index@.column < columns@.len(),
{
    let title = read_string(reader)?;
    if title.as_str().is_empty() || find_index(done, title.as_str()).is_some() || catalog.find_index_owner(
        title.as_str(),
    ).is_some() {
        return Err(Error::CorruptSnapshot(join3("table '", name, "' has an empty or duplicate index name")));
    }
    let total: usize = columns.len();
    let column: usize = read_count(reader, "index column", total)?;
    if column >= total {
        return Err(Error::CorruptSnapshot(join3("index '", title.as_str(), "' references a missing column")));
    }
    assert(views(columns@)[column as int] == columns@[column as int]@);
    if let DataType::Vector(_) = columns[column].data_type {
        return Err(Error::CorruptSnapshot(join3("index '", title.as_str(), "' targets a vector column")));
    }
    Ok(NamedIndex { name: title, index: HashIndex::new(column) })
}

fn read_indexes(
    reader: &mut ChecksumIo<Source>,
    name: &str,
    columns: &Vec<Column>,
    catalog: &Catalog,
    count: usize,
) -> (result: Result<Vec<NamedIndex>, Error>)
    requires
        old(reader).wf(),
    ensures
        match result {
            Ok(indexes) => advanced(
                *old(reader),
                *final(reader),
                Ok::<Seq<IndexView>, ErrorView>(views(indexes@)),
                taken_indexes(
                    old(reader).bytes(),
                    old(reader).at(),
                    name@,
                    views(columns@),
                    catalog@.tables,
                    count as nat,
                    Seq::empty(),
                ),
            ) && forall|i: int| 0 <= i < indexes@.len() ==> (#[trigger] views(indexes@)[i]).column < columns@.len(),
            Err(error) => taken_indexes(
                old(reader).bytes(),
                old(reader).at(),
                name@,
                views(columns@),
                catalog@.tables,
                count as nat,
                Seq::empty(),
            ) == Err::<(Seq<IndexView>, nat), ErrorView>(error@),
        },
{
    let mut indexes: Vec<NamedIndex> = Vec::new();
    assert(views(indexes@) =~= Seq::<IndexView>::empty());
    while indexes.len() < count
        invariant
            reader.wf(),
            reader.bytes() == old(reader).bytes(),
            reader.enabled == old(reader).enabled,
            indexes@.len() <= count,
            forall|i: int| 0 <= i < indexes@.len() ==> (#[trigger] views(indexes@)[i]).column < columns@.len(),
            taken_indexes(
                reader.bytes(),
                reader.at(),
                name@,
                views(columns@),
                catalog@.tables,
                count as nat,
                views(indexes@),
            ) == taken_indexes(
                old(reader).bytes(),
                old(reader).at(),
                name@,
                views(columns@),
                catalog@.tables,
                count as nat,
                Seq::empty(),
            ),
        decreases count - indexes@.len(),
    {
        let index = read_index(reader, name, columns, catalog, &indexes)?;
        let ghost before = views(indexes@);
        indexes.push(index);
        proof {
            assert forall|i: int| 0 <= i < indexes@.len() implies (#[trigger] views(indexes@)[i]).column < columns@.len() by {
                if i < before.len() {
                    assert(views(indexes@)[i] == before[i]);
                }
            }
        }
    }
    Ok(indexes)
}

/// The contents of a table of this name, after the tables before.
pub open spec fn taken_contents(bytes: Seq<u8>, at: nat, version: u32, name: Seq<char>, tables: Seq<NamedTableView>) -> Result<
    (TableView, nat),
    ErrorView,
> {
    match taken_count(bytes, at, "column count"@, MAX_COLUMNS) {
        Err(error) => Err(error),
        Ok((column_count, next)) => if column_count == 0 {
            Err(about_table("table '"@, name, "' has no columns"@))
        } else {
            match taken_columns(bytes, next, name, column_count as nat, Seq::empty()) {
                Err(error) => Err(error),
                Ok((columns, next)) => match (if version >= 2 {
                    taken_count(bytes, next, "index count"@, MAX_INDEXES)
                } else {
                    Ok((0usize, next))
                }) {
                    Err(error) => Err(error),
                    Ok((index_count, next)) => match taken_indexes(
                        bytes,
                        next,
                        name,
                        columns,
                        tables,
                        index_count as nat,
                        Seq::empty(),
                    ) {
                        Err(error) => Err(error),
                        Ok((indexes, next)) => match taken_count(bytes, next, "row count"@, MAX_ROWS) {
                            Err(error) => Err(error),
                            Ok((row_count, next)) => match taken_rows(
                                bytes,
                                next,
                                name,
                                columns,
                                row_count as nat,
                                Seq::empty(),
                            ) {
                                Err(error) => Err(error),
                                Ok((rows, next)) => match unique_checked(columns, Seq::empty(), rows, 0) {
                                    Err(error) => Err(
                                        about_table("invalid table '"@, name, "': "@ + error.message()),
                                    ),
                                    Ok(_) => Ok((TableView { columns, rows, indexes }, next)),
                                },
                            },
                        },
                    },
                },
            }
        },
    }
}

#[verifier::rlimit(40)]
fn read_contents(reader: &mut ChecksumIo<Source>, version: u32, name: &str, catalog: &Catalog) -> (result: Result<Table, Error>)
    requires
        old(reader).wf(),
    ensures
        match result {
            Ok(table) => advanced(
                *old(reader),
                *final(reader),
                Ok::<TableView, ErrorView>(table@),
                taken_contents(old(reader).bytes(), old(reader).at(), version, name@, catalog@.tables),
            ) && table.wf(),
            Err(error) => taken_contents(old(reader).bytes(), old(reader).at(), version, name@, catalog@.tables) == Err::<
                (TableView, nat),
                ErrorView,
            >(error@),
        },
{
    let column_count: usize = read_count(reader, "column count", MAX_COLUMNS)?;
    if column_count == 0 {
        return Err(Error::CorruptSnapshot(join3("table '", name, "' has no columns")));
    }
    let columns = read_columns(reader, name, column_count)?;
    let index_count: usize = if version >= 2 {
        read_count(reader, "index count", MAX_INDEXES)?
    } else {
        0
    };
    let indexes = read_indexes(reader, name, &columns, catalog, index_count)?;
    let row_count: usize = read_count(reader, "row count", MAX_ROWS)?;
    let rows = read_rows(reader, name, &columns, row_count)?;
    proof {
        assert forall|i: int| 0 <= i < row_views(rows@).len() implies (#[trigger] row_views(rows@)[i]).len() == columns@.len() by {
            assert(valid_row(views(columns@), row_views(rows@)[i]));
        }
    }
    match validate_distinct(&columns, &rows) {
        Ok(_) => {},
        Err(error) => {
            let text = error.message();
            let tail = join2("': ", text.as_str());
            return Err(Error::CorruptSnapshot(join3("invalid table '", name, tail.as_str())));
        },
    }
    proof {
        let bare = TableView { columns: views(columns@), rows: Seq::empty(), indexes: views(indexes@) };
        assert(bare.valid());
        lemma_checked_table(bare, row_views(rows@));
    }
    Ok(Table::new(columns, rows, indexes))
}

/// The next tables, up to `count`, after `done`.
pub open spec fn taken_tables(bytes: Seq<u8>, at: nat, version: u32, count: nat, done: Seq<NamedTableView>) -> Result<
    (Seq<NamedTableView>, nat),
    ErrorView,
>
    decreases count - done.len(),
{
    if done.len() >= count {
        Ok((done, at))
    } else {
        match taken_string(bytes, at) {
            Err(error) => Err(error),
            Ok((name, next)) => if name.len() == 0 {
                Err(corrupted("table name is empty"@))
            } else if table_position(done, name, 0) is Some {
                Err(about_table("duplicate table '"@, name, "'"@))
            } else {
                match taken_contents(bytes, next, version, name, done) {
                    Err(error) => Err(error),
                    Ok((table, next)) => taken_tables(
                        bytes,
                        next,
                        version,
                        count,
                        done.push(NamedTableView { name, table }),
                    ),
                }
            },
        }
    }
}

/// What follows the tables: the checksum of all before it, and nothing else.
pub open spec fn checked_end(bytes: Seq<u8>, at: nat, tables: Seq<NamedTableView>, sequence: u64) -> Result<
    CatalogView,
    ErrorView,
> {
    match taken_u64(bytes, at) {
        Err(error) => Err(error),
        Ok((stored, next)) => if stored != checksum(bytes.take(at as int)) {
            Err(corrupted("snapshot checksum does not match"@))
        } else if next < bytes.len() {
            Err(corrupted("trailing data after catalog"@))
        } else {
            Ok(CatalogView { tables, revision: 0, durable_sequence: sequence })
        },
    }
}

/// The number of the last change that was logged before a snapshot. The first two versions do not
/// hold it.
pub open spec fn taken_sequence(bytes: Seq<u8>, at: nat, version: u32) -> Result<(u64, nat), ErrorView> {
    if version >= 3 {
        taken_u64(bytes, at)
    } else {
        Ok((0, at))
    }
}

/// The catalog that a snapshot holds.
pub open spec fn loaded(bytes: Seq<u8>) -> Result<CatalogView, ErrorView> {
    match taken(bytes, 0, 8) {
        Err(error) => Err(error),
        Ok((first, next)) => if first != signature() {
            Err(corrupted("invalid file signature"@))
        } else {
            match taken_u32(bytes, next) {
                Err(error) => Err(error),
                Ok((version, next)) => if version < 1 || version > FORMAT_VERSION {
                    Err(
                        corrupted(
                            "unsupported format version "@ + decimal_text(version as nat)
                                + "; supported versions are 1 through "@ + decimal_text(FORMAT_VERSION as nat),
                        ),
                    )
                } else {
                    match taken_sequence(bytes, next, version) {
                        Err(error) => Err(error),
                        Ok((sequence, next)) => match taken_count(bytes, next, "table count"@, MAX_TABLES) {
                            Err(error) => Err(error),
                            Ok((count, next)) => match taken_tables(bytes, next, version, count as nat, Seq::empty()) {
                                Err(error) => Err(error),
                                Ok((tables, next)) => checked_end(bytes, next, tables, sequence),
                            },
                        },
                    }
                },
            }
        },
    }
}

fn same_bytes(left: &Vec<u8>, right: &Vec<u8>) -> (same: bool)
    ensures
        same == (left@ == right@),
{
    if left.len() != right.len() {
        return false;
    }
    let mut index: usize = 0;
    while index < left.len()
        invariant
            left@.len() == right@.len(),
            index <= left@.len(),
            forall|i: int| 0 <= i < index ==> left@[i] == right@[i],
        decreases left@.len() - index,
    {
        if left[index] != right[index] {
            return false;
        }
        index = index + 1;
    }
    assert(left@ =~= right@);
    true
}

fn read_tables(reader: &mut ChecksumIo<Source>, version: u32, count: usize) -> (result: Result<Catalog, Error>)
    requires
        old(reader).wf(),
    ensures
        match result {
            Ok(catalog) => advanced(
                *old(reader),
                *final(reader),
                Ok::<Seq<NamedTableView>, ErrorView>(catalog@.tables),
                taken_tables(old(reader).bytes(), old(reader).at(), version, count as nat, Seq::empty()),
            ) && catalog.wf() && catalog@.revision == 0 && catalog@.durable_sequence == 0,
            Err(error) => taken_tables(old(reader).bytes(), old(reader).at(), version, count as nat, Seq::empty()) == Err::<
                (Seq<NamedTableView>, nat),
                ErrorView,
            >(error@),
        },
{
    let mut catalog = Catalog::new();
    while catalog.tables.len() < count
        invariant
            reader.wf(),
            reader.bytes() == old(reader).bytes(),
            reader.enabled == old(reader).enabled,
            catalog.wf(),
            catalog@.revision == 0,
            catalog@.durable_sequence == 0,
            catalog.tables@.len() <= count,
            taken_tables(reader.bytes(), reader.at(), version, count as nat, catalog@.tables) == taken_tables(
                old(reader).bytes(),
                old(reader).at(),
                version,
                count as nat,
                Seq::empty(),
            ),
        decreases count - catalog.tables@.len(),
    {
        let name = read_string(reader)?;
        if name.as_str().is_empty() {
            return Err(corrupt("table name is empty"));
        }
        if catalog.position(name.as_str()).is_some() {
            return Err(Error::CorruptSnapshot(join3("duplicate table '", name.as_str(), "'")));
        }
        let table = read_contents(reader, version, name.as_str(), &catalog)?;
        let ghost before = catalog@.tables;
        catalog.add_table(name, table);
        assert(catalog@.tables.len() == catalog.tables@.len());
    }
    Ok(catalog)
}

/// The catalog that a snapshot holds.
pub fn load(bytes: Vec<u8>) -> (result: Result<Catalog, Error>)
    ensures
        match result {
            Ok(catalog) => loaded(bytes@) == Ok::<CatalogView, ErrorView>(catalog@) && catalog.wf(),
            Err(error) => loaded(bytes@) == Err::<CatalogView, ErrorView>(error@),
        },
{
    let total: usize = bytes.len();
    let mut reader = ChecksumIo::new(Source { bytes, at: 0 });
    assert(reader.inner.bytes@.take(0) =~= Seq::<u8>::empty());
    let first = read_exact(&mut reader, 8)?;
    let expected = magic();
    if !same_bytes(&first, &expected) {
        return Err(corrupt("invalid file signature"));
    }
    let version: u32 = read_u32(&mut reader)?;
    if version < 1 || version > FORMAT_VERSION {
        let found = decimal(version as u64);
        let latest = decimal(FORMAT_VERSION as u64);
        let head = join2("unsupported format version ", found.as_str());
        return Err(
            Error::CorruptSnapshot(join3(head.as_str(), "; supported versions are 1 through ", latest.as_str())),
        );
    }
    let sequence: u64 = if version >= 3 {
        read_u64(&mut reader)?
    } else {
        0
    };
    let count: usize = read_count(&mut reader, "table count", MAX_TABLES)?;
    let mut catalog = read_tables(&mut reader, version, count)?;
    let calculated: u64 = reader.finish_hash();
    let stored: u64 = read_u64(&mut reader)?;
    if calculated != stored {
        return Err(corrupt("snapshot checksum does not match"));
    }
    if reader.inner.at < total {
        return Err(corrupt("trailing data after catalog"));
    }
    catalog.set_sequence(sequence);
    Ok(catalog)
}

/// What a snapshot holds is only read where the checksum of all but its last eight bytes stands in
/// those.
pub proof fn law_checksum_guards(bytes: Seq<u8>)
    requires
        loaded(bytes) is Ok,
    ensures
        bytes.len() >= 8,
        vstd::bytes::spec_u64_from_le_bytes(bytes.skip(bytes.len() - 8)) == checksum(bytes.take(bytes.len() - 8)),
{
    let (_, next) = taken(bytes, 0, 8)->Ok_0;
    let (version, next) = taken_u32(bytes, next)->Ok_0;
    let (_, next) = taken_sequence(bytes, next, version)->Ok_0;
    let (count, next) = taken_count(bytes, next, "table count"@, MAX_TABLES)->Ok_0;
    let (tables, next) = taken_tables(bytes, next, version, count as nat, Seq::empty())->Ok_0;
    assert(next + 8 == bytes.len());
    assert(bytes.subrange(next as int, bytes.len() as int) =~= bytes.skip(bytes.len() - 8));
}

} // verus!
