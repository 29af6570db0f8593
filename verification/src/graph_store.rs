//! Rows of a collection's tables, put in and taken out, and the SQL that does the same.

use vstd::prelude::*;
use crate::catalog::{
    lemma_rows_replaced, lemma_rows_within, lemma_table_position, rows_within, table_position, Catalog, CatalogView,
    NamedTableView,
};
use crate::error::{Error, ErrorView};
use crate::float::{compute_text, computes, floats, notation, FloatReply, FloatTask, FloatTaskView, Floats};
use crate::graph::{
    all_indexed, base_document_columns, collection, collection_of, edge_columns, chunk_columns, index_name, literal,
    named_index, quote, quoted, schemas_kept, schemas_of, text_literal, CollectionView, GraphCollection, GraphSchema,
    SchemaView, DOCUMENT_BASE_COLUMNS, MAX_CHUNKS, MAX_EDGES,
};
use crate::index::HashIndex;
use crate::parameters::{element_list, element_sources};
use crate::scan::has_index;
use crate::table::{IndexView, NamedIndex, Table, TableView};
use crate::text::{join3, join_all, joined, lemma_views_push, signed_decimal, signed_decimal_text, views};
use crate::value::{copy_columns, copy_row, lemma_row_views_push, row_views, Column, ColumnView, Value, ValueView};
use crate::write::{
    apply_insert_plan, insert_outcome, prepare_typed_rows, typed_rows, InsertConflictPlan, PlanView,
};

verus! {

broadcast use {vstd::string::group_string_axioms, lemma_views_push, lemma_row_views_push};

/// The SQL that denotes a stored value.
pub open spec fn stored_value(value: ValueView, floats: Floats) -> Seq<char> {
    match value {
        ValueView::Null => "NULL"@,
        ValueView::Integer(value) => signed_decimal_text(value as int),
        ValueView::Float(bits) => notation(floats, FloatTaskView::SourceText(bits)),
        ValueView::Text(text) => text_literal(text),
        ValueView::Boolean(value) => if value {
            "true"@
        } else {
            "false"@
        },
        ValueView::Vector(elements) => "ARRAY["@ + joined(element_sources(floats, elements), ","@) + "]"@,
    }
}

pub fn sql_value<F: Fn(FloatTask) -> FloatReply>(f: &F, value: &Value) -> (text: String)
    requires
        computes(*f),
    ensures
        text@ == stored_value(value@, floats(*f)),
{
    match value {
        Value::Null => "NULL".to_owned(),
        Value::Integer(number) => signed_decimal(*number),
        Value::Float(bits) => compute_text(f, FloatTask::SourceText(*bits)),
        Value::Text(text) => literal(text.as_str()),
        Value::Boolean(truth) => {
            if *truth {
                "true".to_owned()
            } else {
                "false".to_owned()
            }
        },
        Value::Vector(vector) => {
            let inner = element_list(f, vector);
            join3("ARRAY[", inner.as_str(), "]")
        },
    }
}

/// The SQL of a row's values.
pub open spec fn stored_values(row: Seq<ValueView>, floats: Floats) -> Seq<Seq<char>> {
    row.map_values(|value: ValueView| stored_value(value, floats))
}

/// The SQL of a row.
pub open spec fn stored_row(row: Seq<ValueView>, floats: Floats) -> Seq<char> {
    "("@ + joined(stored_values(row, floats), ","@) + ")"@
}

fn write_stored_row<F: Fn(FloatTask) -> FloatReply>(f: &F, row: &Vec<Value>) -> (text: String)
    requires
        computes(*f),
    ensures
        text@ == stored_row(views(row@), floats(*f)),
{
    let mut parts: Vec<String> = Vec::new();
    let mut index: usize = 0;
    while index < row.len()
        invariant
            computes(*f),
            index <= row@.len(),
            parts@.len() == index,
            forall|i: int| 0 <= i < index ==> (#[trigger] parts@[i])@ == stored_value(row@[i]@, floats(*f)),
        decreases row@.len() - index,
    {
        parts.push(sql_value(f, &row[index]));
        index = index + 1;
    }
    assert(views(parts@) =~= stored_values(views(row@), floats(*f)));
    let inner = join_all(&parts, ",");
    join3("(", inner.as_str(), ")")
}

/// The SQL that inserts rows; nothing where there are none.
pub open spec fn insert_sql(name: Seq<char>, rows: Seq<Seq<ValueView>>, floats: Floats) -> Seq<char> {
    if rows.len() == 0 {
        Seq::empty()
    } else {
        "INSERT INTO "@ + quoted(name) + " VALUES "@ + joined(
            rows.map_values(|row: Seq<ValueView>| stored_row(row, floats)),
            ","@,
        ) + ";"@
    }
}

pub fn write_insert<F: Fn(FloatTask) -> FloatReply>(f: &F, name: &str, rows: &Vec<Vec<Value>>) -> (text: String)
    requires
        computes(*f),
    ensures
        text@ == insert_sql(name@, row_views(rows@), floats(*f)),
{
    if rows.len() == 0 {
        return String::new();
    }
    let mut parts: Vec<String> = Vec::new();
    let mut index: usize = 0;
    while index < rows.len()
        invariant
            computes(*f),
            index <= rows@.len(),
            parts@.len() == index,
            forall|i: int| 0 <= i < index ==> (#[trigger] parts@[i])@ == stored_row(views(rows@[i]@), floats(*f)),
        decreases rows@.len() - index,
    {
        parts.push(write_stored_row(f, &rows[index]));
        index = index + 1;
    }
    assert(views(parts@) =~= row_views(rows@).map_values(|row: Seq<ValueView>| stored_row(row, floats(*f))));
    let inner = join_all(&parts, ",");
    let mut text = join3("INSERT INTO ", quote(name).as_str(), " VALUES ");
    text.append(inner.as_str());
    text.append(";");
    text
}

/// The catalog with rows put into the table of this name.
pub open spec fn stored(catalog: CatalogView, name: Seq<char>, rows: Seq<Seq<ValueView>>, floats: Floats) -> Result<
    CatalogView,
    ErrorView,
> {
    if rows.len() == 0 {
        Ok(catalog)
    } else {
        match catalog.located(name) {
            Err(error) => Err(error),
            Ok(at) => match typed_rows(catalog.tables[at as int].table.columns, rows, floats, 0, Seq::empty()) {
                Err(error) => Err(error),
                Ok(pending) => match insert_outcome(catalog.tables[at as int].table, pending, PlanView::Fail, floats) {
                    Err(error) => Err(error),
                    Ok((rows, _)) => Ok(catalog.with_rows(at, rows)),
                },
            },
        }
    }
}

impl Catalog {
    /// Puts rows into the table of this name.
    pub fn store<F: Fn(FloatTask) -> FloatReply>(&mut self, f: &F, name: &str, rows: &Vec<Vec<Value>>) -> (result: Result<
        (),
        Error,
    >)
        requires
            computes(*f),
            old(self).wf(),
        ensures
            final(self).wf(),
            match result {
                Ok(_) => stored(old(self)@, name@, row_views(rows@), floats(*f)) == Ok::<CatalogView, ErrorView>(final(self)@),
                Err(error) => stored(old(self)@, name@, row_views(rows@), floats(*f)) == Err::<CatalogView, ErrorView>(error@)
                    && final(self)@ == old(self)@,
            },
    {
        if rows.len() == 0 {
            return Ok(());
        }
        let at: usize = self.locate(name)?;
        let ghost before = self@;
        let ghost tables = self.tables@;
        assert(before.tables[at as int] == tables[at as int]@);
        let pending = prepare_typed_rows(f, &self.tables[at].table.columns, rows)?;
        let result = apply_insert_plan(f, &mut self.tables[at].table, pending, &InsertConflictPlan::Fail);
        let ghost now = self.tables@[at as int].table@.rows;
        proof {
            assert(self.tables@ == tables.update(at as int, self.tables@[at as int]));
            assert(self@.tables =~= before.with_rows(at as nat, now).tables);
            assert(self@ == before.with_rows(at as nat, now));
            lemma_rows_replaced(before, at as nat, now);
        }
        match result {
            Ok(_) => Ok(()),
            Err(error) => {
                assert(self@.tables =~= before.tables);
                Err(error)
            },
        }
    }
}

/// The rows, from `from` on, that are to be kept, after `done`.
pub open spec fn kept(rows: Seq<Seq<ValueView>>, keep: Seq<bool>, from: nat, done: Seq<Seq<ValueView>>) -> Seq<Seq<ValueView>>
    decreases rows.len() - from,
{
    if from >= rows.len() {
        done
    } else if keep[from as int] {
        kept(rows, keep, from + 1, done.push(rows[from as int]))
    } else {
        kept(rows, keep, from + 1, done)
    }
}

impl Catalog {
    /// Takes the other rows out of the table at `at`, and says how many there were.
    pub fn retain(&mut self, at: usize, keep: &Vec<bool>) -> (removed: usize)
        requires
            old(self).wf(),
            at < old(self).tables@.len(),
            keep@.len() == old(self).tables@[at as int].table.rows@.len(),
        ensures
            final(self).wf(),
            final(self)@ == old(self)@.with_rows(
                at as nat,
                kept(old(self)@.tables[at as int].table.rows, keep@, 0, Seq::empty()),
            ),
            removed == old(self)@.tables[at as int].table.rows.len() - kept(
                old(self)@.tables[at as int].table.rows,
                keep@,
                0,
                Seq::empty(),
            ).len(),
    {
        let table = &self.tables[at].table;
        let ghost entry = self@.tables[at as int].table;
        assert(entry == table@);
        let mut rows: Vec<Vec<Value>> = Vec::new();
        let ghost mut places: Seq<int> = Seq::empty();
        assert(row_views(rows@) =~= Seq::<Seq<ValueView>>::empty());
        let mut index: usize = 0;
        while index < table.rows.len()
            invariant
                index <= table.rows@.len(),
                keep@.len() == table.rows@.len(),
                entry == table@,
                rows@.len() <= index,
                kept(entry.rows, keep@, index as nat, row_views(rows@)) == kept(entry.rows, keep@, 0, Seq::empty()),
                rows_within(entry.rows, row_views(rows@), places),
                forall|i: int| 0 <= i < places.len() ==> (#[trigger] places[i]) < index,
            decreases table.rows@.len() - index,
        {
            assert(entry.rows[index as int] == views(table.rows@[index as int]@));
            if keep[index] {
                let ghost before = row_views(rows@);
                let ghost earlier = places;
                rows.push(copy_row(&table.rows[index]));
                proof {
                    places = places.push(index as int);
                    assert forall|i: int| 0 <= i < places.len() implies 0 <= (#[trigger] places[i]) < entry.rows.len()
                        && row_views(rows@)[i] == entry.rows[places[i]] by {
                        if i < earlier.len() {
                            assert(row_views(rows@)[i] == before[i]);
                        }
                    }
                }
            }
            index = index + 1;
        }
        let removed: usize = table.rows.len() - rows.len();
        proof {
            lemma_rows_within(entry, row_views(rows@), places);
        }
        self.set_rows(at, rows);
        removed
    }
}

/// The SQL that declares a column.
pub open spec fn column_sql(column: ColumnView) -> Seq<char> {
    quoted(column.name) + " "@ + column.data_type.notation() + (if column.nullable {
        ""@
    } else {
        " NOT NULL"@
    }) + (if column.unique {
        " UNIQUE"@
    } else {
        ""@
    })
}

fn write_column(column: &Column) -> (text: String)
    ensures
        text@ == column_sql(column@),
{
    let mut text = join3(quote(column.name.as_str()).as_str(), " ", column.data_type.to_text().as_str());
    if column.nullable {
        text.append("");
    } else {
        text.append(" NOT NULL");
    }
    if column.unique {
        text.append(" UNIQUE");
    } else {
        text.append("");
    }
    text
}

/// The SQL that makes the indexes from `from` on, after `done`.
pub open spec fn indexes_sql(schema: SchemaView, from: nat, done: Seq<char>) -> Seq<char>
    decreases schema.indexed.len() - from,
{
    if from >= schema.indexed.len() {
        done
    } else {
        let column = schema.columns[schema.indexed[from as int] as int].name;
        indexes_sql(
            schema,
            from + 1,
            done + "CREATE INDEX "@ + quoted(named_index(schema.name, column)) + " ON "@ + quoted(schema.name)
                + " USING HASH ("@ + quoted(column) + ");"@,
        )
    }
}

/// The SQL that makes a table with its indexes.
pub open spec fn schema_sql(schema: SchemaView) -> Seq<char> {
    indexes_sql(
        schema,
        0,
        "CREATE TABLE "@ + quoted(schema.name) + " ("@ + joined(
            schema.columns.map_values(|column: ColumnView| column_sql(column)),
            ","@,
        ) + ");"@,
    )
}

fn write_schema(schema: &GraphSchema) -> (text: String)
    requires
        forall|i: int| 0 <= i < schema.indexed@.len() ==> (#[trigger] schema.indexed@[i]) < schema.columns@.len(),
    ensures
        text@ == schema_sql(schema@),
{
    let mut parts: Vec<String> = Vec::new();
    let mut index: usize = 0;
    while index < schema.columns.len()
        invariant
            index <= schema.columns@.len(),
            parts@.len() == index,
            forall|i: int| 0 <= i < index ==> (#[trigger] parts@[i])@ == column_sql(schema.columns@[i]@),
        decreases schema.columns@.len() - index,
    {
        parts.push(write_column(&schema.columns[index]));
        index = index + 1;
    }
    assert(views(parts@) =~= schema@.columns.map_values(|column: ColumnView| column_sql(column)));
    let inner = join_all(&parts, ",");
    let mut text = join3("CREATE TABLE ", quote(schema.name.as_str()).as_str(), " (");
    text.append(inner.as_str());
    text.append(");");
    let mut place: usize = 0;
    while place < schema.indexed.len()
        invariant
            place <= schema.indexed@.len(),
            forall|i: int| 0 <= i < schema.indexed@.len() ==> (#[trigger] schema.indexed@[i]) < schema.columns@.len(),
            indexes_sql(schema@, place as nat, text@) == schema_sql(schema@),
        decreases schema.indexed@.len() - place,
    {
        let at: usize = schema.indexed[place];
        assert(schema@.columns[at as int] == schema.columns@[at as int]@);
        let column = schema.columns[at].name.as_str();
        let title = index_name(schema.name.as_str(), column);
        text.append("CREATE INDEX ");
        text.append(quote(title.as_str()).as_str());
        text.append(" ON ");
        text.append(quote(schema.name.as_str()).as_str());
        text.append(" USING HASH (");
        text.append(quote(column).as_str());
        text.append(");");
        place = place + 1;
    }
    text
}

/// The indexes of a new table.
pub open spec fn new_indexes(schema: SchemaView) -> Seq<IndexView> {
    schema.indexed.map_values(
        |at: usize| IndexView { name: named_index(schema.name, schema.columns[at as int].name), column: at as nat },
    )
}

/// A new table.
pub open spec fn new_table(schema: SchemaView) -> NamedTableView {
    NamedTableView {
        name: schema.name,
        table: TableView { columns: schema.columns, rows: Seq::empty(), indexes: new_indexes(schema) },
    }
}

/// The catalog with the tables of the schemas from `from` on, and the SQL that makes them.
pub open spec fn tables_made(catalog: CatalogView, schemas: Seq<SchemaView>, from: nat, sql: Seq<char>) -> Result<
    (CatalogView, Seq<char>),
    ErrorView,
>
    decreases schemas.len() - from,
{
    if from >= schemas.len() {
        Ok((catalog, sql))
    } else {
        let schema = schemas[from as int];
        if table_position(catalog.tables, schema.name, 0) is Some {
            Err(ErrorView::TableAlreadyExists(schema.name))
        } else {
            tables_made(
                CatalogView { tables: catalog.tables.push(new_table(schema)), ..catalog },
                schemas,
                from + 1,
                sql + schema_sql(schema),
            )
        }
    }
}

fn make_table(schema: &GraphSchema) -> (table: Table)
    requires
        forall|i: int| 0 <= i < schema.indexed@.len() ==> (#[trigger] schema.indexed@[i]) < schema.columns@.len(),
    ensures
        table.wf(),
        table@ == new_table(schema@).table,
{
    let mut indexes: Vec<NamedIndex> = Vec::new();
    let mut place: usize = 0;
    while place < schema.indexed.len()
        invariant
            place <= schema.indexed@.len(),
            forall|i: int| 0 <= i < schema.indexed@.len() ==> (#[trigger] schema.indexed@[i]) < schema.columns@.len(),
            indexes@.len() == place,
            forall|i: int| 0 <= i < place ==> (#[trigger] indexes@[i])@ == new_indexes(schema@)[i],
        decreases schema.indexed@.len() - place,
    {
        let at: usize = schema.indexed[place];
        assert(schema@.columns[at as int] == schema.columns@[at as int]@);
        let title = index_name(schema.name.as_str(), schema.columns[at].name.as_str());
        indexes.push(NamedIndex { name: title, index: HashIndex::new(at) });
        place = place + 1;
    }
    assert(views(indexes@) =~= new_indexes(schema@));
    let rows: Vec<Vec<Value>> = Vec::new();
    assert(row_views(rows@) =~= Seq::<Seq<ValueView>>::empty());
    let columns = copy_columns(&schema.columns);
    proof {
        assert forall|i: int| 0 <= i < new_indexes(schema@).len() implies (#[trigger] new_indexes(schema@)[i]).column
            < schema.columns@.len() by {
            assert(new_indexes(schema@)[i].column == schema.indexed@[i]);
        }
    }
    Table::new(columns, rows, indexes)
}

impl Catalog {
    /// Makes the tables of the schemas, and gives the SQL that does the same.
    pub fn make_tables(&mut self, schemas: &Vec<GraphSchema>) -> (result: Result<String, Error>)
        requires
            old(self).wf(),
            forall|s: int, i: int|
                0 <= s < schemas@.len() && 0 <= i < schemas@[s].indexed@.len() ==> (#[trigger] schemas@[s].indexed@[i])
                    < schemas@[s].columns@.len(),
        ensures
            final(self).wf(),
            match result {
                Ok(sql) => tables_made(old(self)@, views(schemas@), 0, Seq::empty()) == Ok::<
                    (CatalogView, Seq<char>),
                    ErrorView,
                >((final(self)@, sql@)),
                Err(error) => tables_made(old(self)@, views(schemas@), 0, Seq::empty()) == Err::<
                    (CatalogView, Seq<char>),
                    ErrorView,
                >(error@),
            },
    {
        let mut sql = String::new();
        let mut index: usize = 0;
        while index < schemas.len()
            invariant
                self.wf(),
                index <= schemas@.len(),
                forall|s: int, i: int|
                    0 <= s < schemas@.len() && 0 <= i < schemas@[s].indexed@.len() ==> (#[trigger] schemas@[s].indexed@[i])
                        < schemas@[s].columns@.len(),
                tables_made(self@, views(schemas@), index as nat, sql@) == tables_made(
                    old(self)@,
                    views(schemas@),
                    0,
                    Seq::empty(),
                ),
            decreases schemas@.len() - index,
        {
            let schema = &schemas[index];
            assert(views(schemas@)[index as int] == schema@);
            if self.position(schema.name.as_str()).is_some() {
                return Err(Error::TableAlreadyExists(schema.name.clone()));
            }
            assert forall|i: int| 0 <= i < schema.indexed@.len() implies (#[trigger] schema.indexed@[i])
                < schema.columns@.len() by {
                assert(schemas@[index as int].indexed@[i] < schemas@[index as int].columns@.len());
            }
            sql.append(write_schema(schema).as_str());
            let table = make_table(schema);
            self.add_table(schema.name.clone(), table);
            index = index + 1;
        }
        Ok(sql)
    }
}

/// The positions of a collection's tables.
pub struct GraphPlaces {
    pub documents: usize,
    pub chunks: usize,
    pub edges: usize,
}

/// Whether the tables at the positions are those of the collection, as it was made.
pub open spec fn opened(catalog: CatalogView, info: CollectionView, places: GraphPlaces) -> bool {
    &&& catalog.located(info.tables.documents) == Ok::<nat, ErrorView>(places.documents as nat)
    &&& catalog.located(info.tables.chunks) == Ok::<nat, ErrorView>(places.chunks as nat)
    &&& catalog.located(info.tables.edges) == Ok::<nat, ErrorView>(places.edges as nat)
    &&& places.documents < catalog.tables.len()
    &&& places.chunks < catalog.tables.len()
    &&& places.edges < catalog.tables.len()
    &&& catalog.tables[places.documents as int].table.columns.len() >= DOCUMENT_BASE_COLUMNS
    &&& catalog.tables[places.documents as int].table.columns.take(DOCUMENT_BASE_COLUMNS as int) == base_document_columns()
    &&& catalog.tables[places.chunks as int].table.columns == chunk_columns(info.config.profile.dimensions as usize)
    &&& catalog.tables[places.chunks as int].table.rows.len() <= MAX_CHUNKS
    &&& catalog.tables[places.edges as int].table.columns == edge_columns()
    &&& catalog.tables[places.edges as int].table.rows.len() <= MAX_EDGES
    &&& has_index(catalog.tables[places.edges as int].table.indexes, 1, 0)
    &&& has_index(catalog.tables[places.edges as int].table.indexes, 2, 0)
}

/// The collection of this name with the positions of its tables.
pub fn open_collection(catalog: &Catalog, name: &str) -> (result: Result<(GraphCollection, GraphPlaces), Error>)
    ensures
        match result {
            Ok((info, places)) => collection_of(catalog@, name@) == Ok::<CollectionView, ErrorView>(info@) && opened(
                catalog@,
                info@,
                places,
            ) && places.documents < catalog.tables@.len() && places.chunks < catalog.tables@.len() && places.edges
                < catalog.tables@.len(),
            Err(error) => collection_of(catalog@, name@) == Err::<CollectionView, ErrorView>(error@),
        },
{
    let info = collection(catalog, name)?;
    proof {
        lemma_collection_kept(catalog@, name@);
    }
    let documents: usize = catalog.locate(info.tables.documents.as_str())?;
    let chunks: usize = catalog.locate(info.tables.chunks.as_str())?;
    let edges: usize = catalog.locate(info.tables.edges.as_str())?;
    Ok((info, GraphPlaces { documents, chunks, edges }))
}

pub proof fn lemma_collection_kept(catalog: CatalogView, name: Seq<char>)
    requires
        collection_of(catalog, name) is Ok,
    ensures
        ({
            let info = collection_of(catalog, name)->Ok_0;
            let documents = catalog.located(info.tables.documents);
            let chunks = catalog.located(info.tables.chunks);
            let edges = catalog.located(info.tables.edges);
            &&& documents is Ok && chunks is Ok && edges is Ok
            &&& opened(
                catalog,
                info,
                GraphPlaces {
                    documents: documents->Ok_0 as usize,
                    chunks: chunks->Ok_0 as usize,
                    edges: edges->Ok_0 as usize,
                },
            ) || documents->Ok_0 > usize::MAX || chunks->Ok_0 > usize::MAX || edges->Ok_0 > usize::MAX
        }),
{
    reveal(collection_of);
    let info = collection_of(catalog, name)->Ok_0;
    let tables = info.tables;
    let documents_at = catalog.located(tables.documents)->Ok_0;
    let fields = catalog.tables[documents_at as int].table.columns.skip(DOCUMENT_BASE_COLUMNS as int);
    let schemas = schemas_of(tables, info.config.profile.dimensions as usize, fields);
    reveal_with_fuel(schemas_kept, 5);
    assert(schemas_kept(catalog, schemas, 0) is Ok);
    assert(schemas[1].name == tables.documents);
    assert(catalog.tables[documents_at as int].table.columns == base_document_columns() + fields);
    assert((base_document_columns() + fields).take(DOCUMENT_BASE_COLUMNS as int) =~= base_document_columns());
    assert(schemas[2].name == tables.chunks);
    assert(schemas[3].name == tables.edges);
    assert(schemas_kept(catalog, schemas, 1) is Ok);
    assert(schemas_kept(catalog, schemas, 2) is Ok);
    assert(schemas_kept(catalog, schemas, 3) is Ok);
    let edges_at = catalog.located(tables.edges)->Ok_0;
    reveal_with_fuel(all_indexed, 3);
    assert(schemas[3].indexed =~= seq![1usize, 2usize]);
    assert(all_indexed(catalog.tables[edges_at as int].table.indexes, schemas[3].indexed, 0));
    assert(has_index(catalog.tables[edges_at as int].table.indexes, 1, 0));
    assert(all_indexed(catalog.tables[edges_at as int].table.indexes, schemas[3].indexed, 1));
    assert(has_index(catalog.tables[edges_at as int].table.indexes, 2, 0));
    lemma_table_position(catalog.tables, tables.documents, 0);
    lemma_table_position(catalog.tables, tables.chunks, 0);
    lemma_table_position(catalog.tables, tables.edges, 0);
}

} // verus!
