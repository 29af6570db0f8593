//! Statements that drop tables and define indexes, and what can be read of a schema.

use vstd::prelude::*;
use crate::ast::{ident_name, last_name, name_lists, object_name, optional, optional_name, Expr, ExprView, Ident, IdentView, OrderItem, OrderView};
use crate::catalog::{
    command, table_position, transition, Catalog, CatalogView, ExecutionResult, ExecutionView, NamedTable, NamedTableView,
};
use crate::error::{invalid, plain, unsupported, Error, ErrorView};
use crate::index::HashIndex;
use crate::order::{law_sorted, leads, sort_positions, sorted, weak_order, Precedes};
use crate::table::{valid_row, IndexView, NamedIndex, TableView};
use crate::text::{
    lemma_text_order, lemma_text_rank_same, lemma_views_push, normalize_name, normalized, rank_text, text_rank, views, Rank,
};
use crate::value::{copy_columns, find_column, found_column, lemma_row_views_push, Column, DataType};

verus! {

broadcast use {vstd::string::group_string_axioms, lemma_views_push, lemma_row_views_push};

/// Read-only metadata for a scalar hash index.
#[derive(Debug)]
pub struct IndexInfo {
    pub name: String,
    pub column: String,
}

#[verifier::ext_equal]
pub struct IndexInfoView {
    pub name: Seq<char>,
    pub column: Seq<char>,
}

impl View for IndexInfo {
    type V = IndexInfoView;

    open spec fn view(&self) -> IndexInfoView {
        IndexInfoView { name: self.name@, column: self.column@ }
    }
}

/// Read-only summary of a table and its in-memory footprint shape.
#[derive(Debug)]
pub struct TableInfo {
    pub name: String,
    pub row_count: usize,
    pub column_count: usize,
    pub index_count: usize,
}

#[verifier::ext_equal]
pub struct TableInfoView {
    pub name: Seq<char>,
    pub row_count: nat,
    pub column_count: nat,
    pub index_count: nat,
}

impl View for TableInfo {
    type V = TableInfoView;

    open spec fn view(&self) -> TableInfoView {
        TableInfoView {
            name: self.name@,
            row_count: self.row_count as nat,
            column_count: self.column_count as nat,
            index_count: self.index_count as nat,
        }
    }
}

/// The first name, from `from` on, that names no table.
pub open spec fn missing_table(tables: Seq<NamedTableView>, names: Seq<Seq<char>>, from: nat) -> Option<Seq<char>>
    decreases names.len() - from,
{
    if from >= names.len() {
        None
    } else if table_position(tables, names[from as int], 0) is None {
        Some(names[from as int])
    } else {
        missing_table(tables, names, from + 1)
    }
}

/// The tables without those that the names from `from` on name, and how many have gone.
pub open spec fn without_tables(tables: Seq<NamedTableView>, names: Seq<Seq<char>>, from: nat, count: nat) -> (
    Seq<NamedTableView>,
    nat,
)
    decreases names.len() - from,
{
    if from >= names.len() {
        (tables, count)
    } else {
        match table_position(tables, names[from as int], 0) {
            Some(at) => without_tables(tables.remove(at as int), names, from + 1, count + 1),
            None => without_tables(tables, names, from + 1, count),
        }
    }
}

/// The last parts of the names.
pub open spec fn last_names(names: Seq<Seq<IdentView>>) -> Seq<Seq<char>> {
    names.map_values(|name: Seq<IdentView>| last_name(name))
}

/// What `DROP TABLE` does to the catalog. Unless missing tables are passed over, one that is
/// missing keeps all the others.
pub open spec fn tables_dropped(catalog: CatalogView, names: Seq<Seq<IdentView>>, if_exists: bool) -> Result<
    (CatalogView, ExecutionView),
    ErrorView,
> {
    let names = last_names(names);
    match missing_table(catalog.tables, names, 0) {
        Some(name) if !if_exists => Err(ErrorView::TableNotFound(name)),
        _ => {
            let (tables, count) = without_tables(catalog.tables, names, 0, 0);
            let after = CatalogView {
                tables,
                revision: catalog.revision,
                durable_sequence: catalog.durable_sequence,
            };
            Ok((after.changed_if(count), command("DROP TABLE"@, count)))
        },
    }
}

/// The first index, from `from` on, of this name.
pub open spec fn index_position(indexes: Seq<IndexView>, name: Seq<char>, from: nat) -> Option<nat>
    decreases indexes.len() - from,
{
    if from >= indexes.len() {
        None
    } else if indexes[from as int].name == name {
        Some(from)
    } else {
        index_position(indexes, name, from + 1)
    }
}

/// The first table, from `from` on, with an index of this name.
pub open spec fn index_owner(tables: Seq<NamedTableView>, name: Seq<char>, from: nat) -> Option<nat>
    decreases tables.len() - from,
{
    if from >= tables.len() {
        None
    } else if index_position(tables[from as int].table.indexes, name, 0) is Some {
        Some(from)
    } else {
        index_owner(tables, name, from + 1)
    }
}

/// The catalog with other indexes on one table.
pub open spec fn with_indexes(catalog: CatalogView, at: nat, indexes: Seq<IndexView>) -> CatalogView {
    let entry = catalog.tables[at as int];
    CatalogView {
        tables: catalog.tables.update(
            at as int,
            NamedTableView {
                name: entry.name,
                table: TableView { columns: entry.table.columns, rows: entry.table.rows, indexes },
            },
        ),
        revision: catalog.revision,
        durable_sequence: catalog.durable_sequence,
    }
}

/// What `CREATE INDEX` does to the catalog.
pub open spec fn index_created(
    catalog: CatalogView,
    name: Option<Seq<IdentView>>,
    table_name: Seq<IdentView>,
    columns: Seq<OrderView>,
    if_not_exists: bool,
) -> Result<(CatalogView, ExecutionView), ErrorView> {
    match name {
        None => Err(ErrorView::InvalidQuery("CREATE INDEX requires a name"@)),
        Some(name) => if columns.len() != 1 {
            Err(ErrorView::Unsupported("multi-column and expression indexes"@))
        } else {
            match columns[0].expr {
                ExprView::Identifier(column, _) => {
                    let name = last_name(name);
                    if index_owner(catalog.tables, name, 0) is Some {
                        if if_not_exists {
                            Ok((catalog, command("CREATE INDEX"@, 0)))
                        } else {
                            Err(ErrorView::IndexAlreadyExists(name))
                        }
                    } else {
                        match catalog.located(last_name(table_name)) {
                            Err(error) => Err(error),
                            Ok(at) => {
                                let table = catalog.tables[at as int].table;
                                match found_column(table.columns, column.name()) {
                                    Err(error) => Err(error),
                                    Ok(position) => if table.columns[position as int].data_type is Vector {
                                        Err(
                                            ErrorView::Unsupported(
                                                "hash indexes on VECTOR columns; index a scalar filter column"@,
                                            ),
                                        )
                                    } else {
                                        let index = IndexView { name, column: position };
                                        Ok(
                                            (
                                                with_indexes(catalog, at, table.indexes.push(index)).changed(),
                                                command("CREATE INDEX"@, 0),
                                            ),
                                        )
                                    },
                                }
                            },
                        }
                    }
                },
                _ => Err(ErrorView::Unsupported("expression indexes"@)),
            }
        },
    }
}

/// The first name, from `from` on, that names no index.
pub open spec fn missing_index(tables: Seq<NamedTableView>, names: Seq<Seq<char>>, from: nat) -> Option<Seq<char>>
    decreases names.len() - from,
{
    if from >= names.len() {
        None
    } else if index_owner(tables, names[from as int], 0) is None {
        Some(names[from as int])
    } else {
        missing_index(tables, names, from + 1)
    }
}

/// The catalog without the indexes that the names from `from` on name, and how many have gone.
pub open spec fn without_indexes(catalog: CatalogView, names: Seq<Seq<char>>, from: nat, count: nat) -> (CatalogView, nat)
    decreases names.len() - from,
{
    if from >= names.len() {
        (catalog, count)
    } else {
        let name = names[from as int];
        match index_owner(catalog.tables, name, 0) {
            Some(at) => {
                let indexes = catalog.tables[at as int].table.indexes;
                let position = index_position(indexes, name, 0)->0;
                without_indexes(with_indexes(catalog, at, indexes.remove(position as int)), names, from + 1, count + 1)
            },
            None => without_indexes(catalog, names, from + 1, count),
        }
    }
}

/// What `DROP INDEX` does to the catalog.
pub open spec fn indexes_dropped(catalog: CatalogView, names: Seq<Seq<IdentView>>, if_exists: bool) -> Result<
    (CatalogView, ExecutionView),
    ErrorView,
> {
    let names = last_names(names);
    match missing_index(catalog.tables, names, 0) {
        Some(name) if !if_exists => Err(ErrorView::IndexNotFound(name)),
        _ => {
            let (after, count) = without_indexes(catalog, names, 0, 0);
            Ok((after.changed_if(count), command("DROP INDEX"@, count)))
        },
    }
}

fn object_names(names: &Vec<Vec<Ident>>) -> (result: Vec<String>)
    ensures
        views(result@) == last_names(name_lists(names@)),
{
    let mut out: Vec<String> = Vec::new();
    let mut index: usize = 0;
    while index < names.len()
        invariant
            index <= names@.len(),
            out@.len() == index,
            forall|i: int| 0 <= i < index ==> (#[trigger] out@[i])@ == last_name(views(names@[i]@)),
        decreases names@.len() - index,
    {
        out.push(object_name(&names[index]));
        index = index + 1;
    }
    assert(views(out@) =~= last_names(name_lists(names@)));
    out
}

/// The position of the index of this name among a table's.
pub(crate) fn find_index(indexes: &Vec<NamedIndex>, name: &str) -> (result: Option<usize>)
    ensures
        match result {
            Some(at) => index_position(views(indexes@), name@, 0) == Some(at as nat) && at < indexes@.len(),
            None => index_position(views(indexes@), name@, 0) is None,
        },
{
    let mut at: usize = 0;
    while at < indexes.len()
        invariant
            at <= indexes@.len(),
            index_position(views(indexes@), name@, at as nat) == index_position(views(indexes@), name@, 0),
        decreases indexes@.len() - at,
    {
        assert(views(indexes@)[at as int] == indexes@[at as int]@);
        if *indexes[at].name.as_str() == *name {
            return Some(at);
        }
        at = at + 1;
    }
    None
}

impl Catalog {
    /// Removes the table at `at`.
    fn remove_table(&mut self, at: usize)
        requires
            old(self).wf(),
            at < old(self).tables@.len(),
        ensures
            final(self).wf(),
            final(self)@ == (CatalogView {
                tables: old(self)@.tables.remove(at as int),
                revision: old(self)@.revision,
                durable_sequence: old(self)@.durable_sequence,
            }),
    {
        let ghost before = self@;
        let ghost entries = self.tables@;
        let removed = self.tables.remove(at);
        proof {
            let after = self@;
            assert(after.tables =~= before.tables.remove(at as int));
            assert forall|i: int| 0 <= i < after.tables.len() implies (#[trigger] after.tables[i]).table.valid()
                && self.tables@[i].table.wf() by {
                if i < at {
                    assert(self.tables@[i] == entries[i]);
                    assert(after.tables[i] == before.tables[i]);
                } else {
                    assert(self.tables@[i] == entries[i + 1]);
                    assert(after.tables[i] == before.tables[i + 1]);
                }
            }
            assert forall|i: int| 0 <= i < self.tables@.len() implies (#[trigger] self.tables@[i]).table.wf() by {
                assert(after.tables[i].table.valid());
            }
            assert forall|i: int, j: int| 0 <= i < j < after.tables.len() implies (#[trigger] after.tables[i]).name != (
            #[trigger] after.tables[j]).name by {
                let a = if i < at {
                    i
                } else {
                    i + 1
                };
                let b = if j < at {
                    j
                } else {
                    j + 1
                };
                assert(after.tables[i] == before.tables[a]);
                assert(after.tables[j] == before.tables[b]);
            }
        }
    }

    fn find_missing_table(&self, names: &Vec<String>) -> (result: Option<String>)
        ensures
            optional(result) == missing_table(self@.tables, views(names@), 0),
    {
        let mut index: usize = 0;
        while index < names.len()
            invariant
                index <= names@.len(),
                missing_table(self@.tables, views(names@), index as nat) == missing_table(self@.tables, views(names@), 0),
            decreases names@.len() - index,
        {
            if self.position(names[index].as_str()).is_none() {
                return Some(names[index].clone());
            }
            index = index + 1;
        }
        None
    }

    /// `DROP TABLE`.
    pub fn drop_tables(&mut self, names: &Vec<Vec<Ident>>, if_exists: bool) -> (result: Result<ExecutionResult, Error>)
        requires
            old(self).wf(),
        ensures
            final(self).wf(),
            transition(old(self)@, final(self)@, result, tables_dropped(old(self)@, name_lists(names@), if_exists)),
    {
        let names = object_names(names);
        let ghost all = views(names@);
        let ghost before = self@;
        if !if_exists {
            if let Some(missing) = self.find_missing_table(&names) {
                return Err(Error::TableNotFound(missing));
            }
        }
        let mut rows_affected: usize = 0;
        let mut index: usize = 0;
        while index < names.len()
            invariant
                all == views(names@),
                self.wf(),
                index <= names@.len(),
                rows_affected <= index,
                self@.revision == before.revision,
                self@.durable_sequence == before.durable_sequence,
                without_tables(self@.tables, all, index as nat, rows_affected as nat) == without_tables(
                    before.tables,
                    all,
                    0,
                    0,
                ),
            decreases names@.len() - index,
        {
            if let Some(at) = self.position(names[index].as_str()) {
                self.remove_table(at);
                rows_affected = rows_affected + 1;
            }
            index = index + 1;
        }
        if rows_affected > 0 {
            self.mark_changed();
        }
        Ok(ExecutionResult::Command { tag: "DROP TABLE", rows_affected })
    }

    /// The first table with an index of this name.
    pub(crate) fn find_index_owner(&self, name: &str) -> (result: Option<usize>)
        ensures
            match result {
                Some(at) => index_owner(self@.tables, name@, 0) == Some(at as nat) && at < self.tables@.len()
                    && index_position(self@.tables[at as int].table.indexes, name@, 0) is Some,
                None => index_owner(self@.tables, name@, 0) is None,
            },
    {
        let mut at: usize = 0;
        while at < self.tables.len()
            invariant
                at <= self.tables@.len(),
                index_owner(self@.tables, name@, at as nat) == index_owner(self@.tables, name@, 0),
            decreases self.tables@.len() - at,
        {
            assert(self@.tables[at as int] == self.tables@[at as int]@);
            if find_index(&self.tables[at].table.indexes, name).is_some() {
                return Some(at);
            }
            at = at + 1;
        }
        None
    }

    /// `CREATE INDEX`.
    pub fn create_index(
        &mut self,
        name: &Option<Vec<Ident>>,
        table_name: &Vec<Ident>,
        columns: &Vec<OrderItem>,
        if_not_exists: bool,
    ) -> (result: Result<ExecutionResult, Error>)
        requires
            old(self).wf(),
        ensures
            final(self).wf(),
            transition(
                old(self)@,
                final(self)@,
                result,
                index_created(
                    old(self)@,
                    optional_name(*name),
                    views(table_name@),
                    views(columns@),
                    if_not_exists,
                ),
            ),
    {
        let name = match name {
            Some(parts) => object_name(parts),
            None => return Err(invalid("CREATE INDEX requires a name")),
        };
        if columns.len() != 1 {
            return Err(unsupported("multi-column and expression indexes"));
        }
        assert(views(columns@)[0] == columns@[0]@);
        let column_name = match &columns[0].expr {
            Expr::Identifier(identifier, _) => ident_name(identifier),
            _ => return Err(unsupported("expression indexes")),
        };
        let table_name = object_name(table_name);
        if self.find_index_owner(name.as_str()).is_some() {
            if if_not_exists {
                return Ok(ExecutionResult::Command { tag: "CREATE INDEX", rows_affected: 0 });
            }
            return Err(Error::IndexAlreadyExists(name));
        }
        let at: usize = self.locate(table_name.as_str())?;
        assert(self@.tables[at as int] == self.tables@[at as int]@);
        let column: usize = find_column(&self.tables[at].table.columns, column_name.as_str())?;
        assert(views(self.tables@[at as int].table.columns@)[column as int] == self.tables@[at as int].table.columns@[column as int]@);
        if let DataType::Vector(_) = self.tables[at].table.columns[column].data_type {
            return Err(unsupported("hash indexes on VECTOR columns; index a scalar filter column"));
        }
        self.add_index(at, name, column);
        self.mark_changed();
        Ok(ExecutionResult::Command { tag: "CREATE INDEX", rows_affected: 0 })
    }

    fn add_index(&mut self, at: usize, name: String, column: usize)
        requires
            old(self).wf(),
            at < old(self).tables@.len(),
            column < old(self).tables@[at as int].table.columns@.len(),
        ensures
            final(self).wf(),
            final(self)@ == with_indexes(
                old(self)@,
                at as nat,
                old(self)@.tables[at as int].table.indexes.push(IndexView { name: name@, column: column as nat }),
            ),
    {
        let ghost before = self@;
        let ghost entries = self.tables@;
        assert(before.tables[at as int] == entries[at as int]@);
        let ghost added = IndexView { name: name@, column: column as nat };
        proof {
            let table = entries[at as int].table;
            assert(table.wf());
            assert forall|i: int| 0 <= i < table.rows@.len() implies (#[trigger] table.rows@[i])@.len() > column by {
                assert(valid_row(table@.columns, table@.rows[i]));
                assert(table@.rows[i] == views(table.rows@[i]@));
            }
        }
        let mut index = HashIndex::new(column);
        index.rebuild(&self.tables[at].table.rows);
        let entry = NamedIndex { name, index };
        self.tables[at].table.indexes.push(entry);
        proof {
            lemma_indexes_replaced(*self, before, entries, at as int, before.tables[at as int].table.indexes.push(added));
        }
    }

    fn remove_index(&mut self, at: usize, position: usize)
        requires
            old(self).wf(),
            at < old(self).tables@.len(),
            position < old(self).tables@[at as int].table.indexes@.len(),
        ensures
            final(self).wf(),
            final(self)@ == with_indexes(
                old(self)@,
                at as nat,
                old(self)@.tables[at as int].table.indexes.remove(position as int),
            ),
    {
        let ghost before = self@;
        let ghost entries = self.tables@;
        assert(before.tables[at as int] == entries[at as int]@);
        let removed = self.tables[at].table.indexes.remove(position);
        proof {
            assert(self.tables@[at as int].table@.indexes =~= before.tables[at as int].table.indexes.remove(
                position as int,
            ));
            let kept = self.tables@[at as int].table.indexes@;
            let had = entries[at as int].table.indexes@;
            assert forall|i: int| 0 <= i < kept.len() implies (#[trigger] kept[i]).index.column
                < entries[at as int].table.columns@.len() && kept[i].index.covers(
                entries[at as int].table@.rows,
                entries[at as int].table.rows@.len(),
            ) by {
                assert(entries[at as int].table.wf());
                if i < position {
                    assert(kept[i] == had[i]);
                } else {
                    assert(kept[i] == had[i + 1]);
                }
            }
            lemma_indexes_replaced(
                *self,
                before,
                entries,
                at as int,
                before.tables[at as int].table.indexes.remove(position as int),
            );
        }
    }

    fn find_missing_index(&self, names: &Vec<String>) -> (result: Option<String>)
        ensures
            optional(result) == missing_index(self@.tables, views(names@), 0),
    {
        let mut index: usize = 0;
        while index < names.len()
            invariant
                index <= names@.len(),
                missing_index(self@.tables, views(names@), index as nat) == missing_index(self@.tables, views(names@), 0),
            decreases names@.len() - index,
        {
            if self.find_index_owner(names[index].as_str()).is_none() {
                return Some(names[index].clone());
            }
            index = index + 1;
        }
        None
    }

    /// `DROP INDEX`.
    pub fn drop_indexes(&mut self, names: &Vec<Vec<Ident>>, if_exists: bool) -> (result: Result<ExecutionResult, Error>)
        requires
            old(self).wf(),
        ensures
            final(self).wf(),
            transition(old(self)@, final(self)@, result, indexes_dropped(old(self)@, name_lists(names@), if_exists)),
    {
        let names = object_names(names);
        let ghost all = views(names@);
        let ghost before = self@;
        if !if_exists {
            if let Some(missing) = self.find_missing_index(&names) {
                return Err(Error::IndexNotFound(missing));
            }
        }
        let mut rows_affected: usize = 0;
        let mut index: usize = 0;
        while index < names.len()
            invariant
                all == views(names@),
                self.wf(),
                index <= names@.len(),
                rows_affected <= index,
                without_indexes(self@, all, index as nat, rows_affected as nat) == without_indexes(before, all, 0, 0),
            decreases names@.len() - index,
        {
            if let Some(at) = self.find_index_owner(names[index].as_str()) {
                assert(self@.tables[at as int] == self.tables@[at as int]@);
                if let Some(position) = find_index(&self.tables[at].table.indexes, names[index].as_str()) {
                    self.remove_index(at, position);
                    rows_affected = rows_affected + 1;
                }
            }
            index = index + 1;
        }
        if rows_affected > 0 {
            self.mark_changed();
        }
        Ok(ExecutionResult::Command { tag: "DROP INDEX", rows_affected })
    }
}

/// A catalog keeps its well-formedness where the indexes of one table change to others that are
/// those of its rows.
proof fn lemma_indexes_replaced(
    after: Catalog,
    before: CatalogView,
    entries: Seq<NamedTable>,
    at: int,
    indexes: Seq<IndexView>,
)
    requires
        before.valid(),
        before.tables == views(entries),
        forall|i: int| 0 <= i < entries.len() ==> (#[trigger] entries[i]).table.wf(),
        0 <= at < entries.len(),
        after.revision == before.revision,
        after.durable_sequence == before.durable_sequence,
        after.tables@ == entries.update(at, after.tables@[at]),
        after.tables@[at].name == entries[at].name,
        after.tables@[at].table.columns == entries[at].table.columns,
        after.tables@[at].table.rows == entries[at].table.rows,
        after.tables@[at].table.unique_keys == entries[at].table.unique_keys,
        after.tables@[at].table@.indexes == indexes,
        forall|i: int|
            0 <= i < after.tables@[at].table.indexes@.len() ==> (#[trigger] after.tables@[at].table.indexes@[i]).index.column
                < entries[at].table.columns@.len() && after.tables@[at].table.indexes@[i].index.covers(
                entries[at].table@.rows,
                entries[at].table.rows@.len(),
            ),
    ensures
        after.wf(),
        after@ == with_indexes(before, at as nat, indexes),
{
    assert(before.tables[at] == entries[at]@);
    assert(entries[at].table.wf());
    assert(after@.tables =~= with_indexes(before, at as nat, indexes).tables);
    let table = after.tables@[at].table;
    assert forall|i: int| 0 <= i < table@.indexes.len() implies (#[trigger] table@.indexes[i]).column < table@.columns.len() by {
        assert(table@.indexes[i] == table.indexes@[i]@);
    }
    assert(table@.valid());
    assert(table.wf());
    assert forall|i: int| 0 <= i < after.tables@.len() implies (#[trigger] after.tables@[i]).table.wf() by {
        if i != at {
            assert(after.tables@[i] == entries[i]);
        }
    }
    assert forall|i: int| 0 <= i < after@.tables.len() implies (#[trigger] after@.tables[i]).table.valid() by {
        assert(after@.tables[i] == after.tables@[i]@);
        assert(after.tables@[i].table.wf());
    }
    assert forall|i: int, j: int| 0 <= i < j < after@.tables.len() implies (#[trigger] after@.tables[i]).name != (
    #[trigger] after@.tables[j]).name by {
        assert(after@.tables[i].name == before.tables[i].name);
        assert(after@.tables[j].name == before.tables[j].name);
    }
}

/// Whether one table's name sorts before another's.
pub open spec fn table_order(tables: Seq<NamedTableView>) -> Precedes {
    |a: usize, b: usize| text_rank(tables[a as int].name, tables[b as int].name) == Rank::Before
}

/// Whether one index's name sorts before another's.
pub open spec fn index_order(indexes: Seq<IndexView>) -> Precedes {
    |a: usize, b: usize| text_rank(indexes[a as int].name, indexes[b as int].name) == Rank::Before
}

pub open spec fn described(entry: NamedTableView) -> TableInfoView {
    TableInfoView {
        name: entry.name,
        row_count: entry.table.rows.len(),
        column_count: entry.table.columns.len(),
        index_count: entry.table.indexes.len(),
    }
}

/// The tables in the order of their names, described.
pub open spec fn described_tables(tables: Seq<NamedTableView>) -> Seq<TableInfoView> {
    sorted(tables.len() as usize, table_order(tables)).map_values(|at: usize| described(tables[at as int]))
}

/// The names of the tables in order.
pub open spec fn ordered_names(tables: Seq<NamedTableView>) -> Seq<Seq<char>> {
    sorted(tables.len() as usize, table_order(tables)).map_values(|at: usize| tables[at as int].name)
}

/// The indexes of a table in the order of their names, described.
pub open spec fn described_indexes(table: TableView) -> Seq<IndexInfoView> {
    sorted(table.indexes.len() as usize, index_order(table.indexes)).map_values(
        |at: usize|
            IndexInfoView {
                name: table.indexes[at as int].name,
                column: table.columns[table.indexes[at as int].column as int].name,
            },
    )
}

pub(crate) fn sorted_indexes(indexes: &Vec<NamedIndex>) -> (result: Vec<usize>)
    ensures
        result@ == sorted(indexes@.len() as usize, index_order(views(indexes@))),
        result@.len() == indexes@.len(),
        forall|i: int| 0 <= i < result@.len() ==> (#[trigger] result@[i]) < indexes@.len(),
{
    let ghost before = index_order(views(indexes@));
    let precedes = |a: usize, b: usize| -> (result: bool)
        requires
            a < indexes@.len(),
            b < indexes@.len(),
        ensures
            result == before(a, b),
        {
            match rank_text(indexes[a].name.as_str(), indexes[b].name.as_str()) {
                Rank::Before => true,
                _ => false,
            }
        };
    sort_positions(indexes.len(), &precedes, Ghost(before))
}

impl Catalog {
    pub(crate) fn sorted_tables(&self) -> (result: Vec<usize>)
        ensures
            result@.len() == self.tables@.len(),
            result@ == sorted(self@.tables.len() as usize, table_order(self@.tables)),
            forall|i: int| 0 <= i < result@.len() ==> (#[trigger] result@[i]) < self.tables@.len(),
    {
        let tables = &self.tables;
        let ghost order = table_order(views(tables@));
        let precedes = |a: usize, b: usize| -> (before: bool)
            requires
                a < tables@.len(),
                b < tables@.len(),
            ensures
                before == order(a, b),
            {
                match rank_text(tables[a].name.as_str(), tables[b].name.as_str()) {
                    Rank::Before => true,
                    _ => false,
                }
            };
        sort_positions(tables.len(), &precedes, Ghost(order))
    }

    /// A copy of a table's columns.
    pub fn schema(&self, table_name: &str) -> (result: Result<Vec<Column>, Error>)
        ensures
            match result {
                Ok(columns) => self@.located(normalized(table_name@)) matches Ok(at) && views(columns@)
                    == self@.tables[at as int].table.columns,
                Err(error) => self@.located(normalized(table_name@)) == Err::<nat, ErrorView>(error@),
            },
    {
        let name = normalize_name(table_name);
        let at: usize = self.locate(name.as_str())?;
        assert(self@.tables[at as int] == self.tables@[at as int]@);
        Ok(copy_columns(&self.tables[at].table.columns))
    }

    /// Table names in order.
    pub fn table_names(&self) -> (result: Vec<String>)
        ensures
            views(result@) == ordered_names(self@.tables),
    {
        let order = self.sorted_tables();
        let mut out: Vec<String> = Vec::new();
        let mut index: usize = 0;
        while index < order.len()
            invariant
                index <= order@.len(),
                forall|i: int| 0 <= i < order@.len() ==> (#[trigger] order@[i]) < self.tables@.len(),
                out@.len() == index,
                forall|i: int| 0 <= i < index ==> (#[trigger] out@[i])@ == self@.tables[order@[i] as int].name,
            decreases order@.len() - index,
        {
            out.push(self.tables[order[index]].name.clone());
            index = index + 1;
        }
        assert(views(out@) =~= ordered_names(self@.tables));
        out
    }

    /// Table summaries in the order of their names.
    pub fn table_info(&self) -> (result: Vec<TableInfo>)
        ensures
            views(result@) == described_tables(self@.tables),
    {
        let order = self.sorted_tables();
        let mut out: Vec<TableInfo> = Vec::new();
        let mut index: usize = 0;
        while index < order.len()
            invariant
                index <= order@.len(),
                forall|i: int| 0 <= i < order@.len() ==> (#[trigger] order@[i]) < self.tables@.len(),
                out@.len() == index,
                forall|i: int| 0 <= i < index ==> (#[trigger] out@[i])@ == described(self@.tables[order@[i] as int]),
            decreases order@.len() - index,
        {
            let entry = &self.tables[order[index]];
            let info = TableInfo {
                name: entry.name.clone(),
                row_count: entry.table.rows.len(),
                column_count: entry.table.columns.len(),
                index_count: entry.table.indexes.len(),
            };
            assert(info@ == described(self@.tables[order@[index as int] as int]));
            out.push(info);
            index = index + 1;
        }
        assert(views(out@) =~= described_tables(self@.tables));
        out
    }

    /// Index metadata of a table in the order of the names.
    pub fn indexes(&self, table_name: &str) -> (result: Result<Vec<IndexInfo>, Error>)
        requires
            self.wf(),
        ensures
            match result {
                Ok(infos) => self@.located(normalized(table_name@)) matches Ok(at) && views(infos@) == described_indexes(
                    self@.tables[at as int].table,
                ),
                Err(error) => self@.located(normalized(table_name@)) == Err::<nat, ErrorView>(error@),
            },
    {
        let name = normalize_name(table_name);
        let at: usize = self.locate(name.as_str())?;
        assert(self@.tables[at as int] == self.tables@[at as int]@);
        assert(self@.tables[at as int].table.valid());
        let table = &self.tables[at].table;
        let indexes = &table.indexes;
        let order = sorted_indexes(indexes);
        let mut out: Vec<IndexInfo> = Vec::new();
        let mut index: usize = 0;
        while index < order.len()
            invariant
                index <= order@.len(),
                indexes == &table.indexes,
                table@.valid(),
                forall|i: int| 0 <= i < order@.len() ==> (#[trigger] order@[i]) < indexes@.len(),
                out@.len() == index,
                forall|i: int|
                    0 <= i < index ==> (#[trigger] out@[i])@ == (IndexInfoView {
                        name: table@.indexes[order@[i] as int].name,
                        column: table@.columns[table@.indexes[order@[i] as int].column as int].name,
                    }),
            decreases order@.len() - index,
        {
            let entry = &indexes[order[index]];
            assert(table@.indexes[order@[index as int] as int] == entry@);
            assert(table@.columns[entry.index.column as int] == table.columns@[entry.index.column as int]@);
            let info = IndexInfo { name: entry.name.clone(), column: table.columns[entry.index.column].name.clone() };
            out.push(info);
            index = index + 1;
        }
        assert(views(out@) =~= described_indexes(table@));
        Ok(out)
    }
}

/// The durable sequence number after this one.
pub open spec fn following_sequence(sequence: u64) -> Result<u64, ErrorView> {
    if sequence == u64::MAX {
        Err(ErrorView::StorageIo("durable sequence exhausted"@))
    } else {
        Ok((sequence + 1) as u64)
    }
}

/// The durable sequence number after this one.
pub fn next_durable_sequence(sequence: u64) -> (result: Result<u64, Error>)
    ensures
        plain(result) == following_sequence(sequence),
{
    if sequence == u64::MAX {
        Err(Error::StorageIo("durable sequence exhausted".to_owned()))
    } else {
        Ok(sequence + 1)
    }
}

pub proof fn lemma_table_order(tables: Seq<NamedTableView>)
    ensures
        weak_order(table_order(tables), tables.len() as usize),
{
    let before = table_order(tables);
    let count = tables.len() as usize;
    assert forall|a: usize| a < count implies !#[trigger] before(a, a) by {
        lemma_text_order(tables[a as int].name, tables[a as int].name, tables[a as int].name);
    }
    assert forall|a: usize, b: usize, c: usize|
        a < count && b < count && c < count && #[trigger] before(a, b) && #[trigger] before(b, c) implies before(a, c) by {
        lemma_text_order(tables[a as int].name, tables[b as int].name, tables[c as int].name);
    }
    assert forall|a: usize, b: usize, c: usize|
        a < count && b < count && c < count && !#[trigger] before(a, b) && !#[trigger] before(b, c) implies !before(a, c) by {
        lemma_text_order(tables[a as int].name, tables[b as int].name, tables[c as int].name);
    }
}

pub proof fn lemma_index_order(indexes: Seq<IndexView>)
    ensures
        weak_order(index_order(indexes), indexes.len() as usize),
{
    let before = index_order(indexes);
    let count = indexes.len() as usize;
    assert forall|a: usize| a < count implies !#[trigger] before(a, a) by {
        lemma_text_order(indexes[a as int].name, indexes[a as int].name, indexes[a as int].name);
    }
    assert forall|a: usize, b: usize, c: usize|
        a < count && b < count && c < count && #[trigger] before(a, b) && #[trigger] before(b, c) implies before(a, c) by {
        lemma_text_order(indexes[a as int].name, indexes[b as int].name, indexes[c as int].name);
    }
    assert forall|a: usize, b: usize, c: usize|
        a < count && b < count && c < count && !#[trigger] before(a, b) && !#[trigger] before(b, c) implies !before(a, c) by {
        lemma_text_order(indexes[a as int].name, indexes[b as int].name, indexes[c as int].name);
    }
}

/// Every table of a valid catalog is listed once, and each name sorts before the ones after it.
pub proof fn law_names_ascend(catalog: CatalogView)
    requires
        catalog.valid(),
        catalog.tables.len() <= usize::MAX,
    ensures
        ordered_names(catalog.tables).len() == catalog.tables.len(),
        forall|i: int, j: int|
            0 <= i < j < catalog.tables.len() ==> text_rank(
                #[trigger] ordered_names(catalog.tables)[i],
                #[trigger] ordered_names(catalog.tables)[j],
            ) == Rank::Before,
{
    let tables = catalog.tables;
    let before = table_order(tables);
    let count = tables.len() as usize;
    lemma_table_order(tables);
    law_sorted(count, before);
    let order = sorted(count, before);
    let names = ordered_names(tables);
    assert forall|i: int, j: int| 0 <= i < j < tables.len() implies text_rank(#[trigger] names[i], #[trigger] names[j])
        == Rank::Before by {
        let a = order[i];
        let b = order[j];
        assert(leads(before, a, b));
        let first = tables[a as int].name;
        let second = tables[b as int].name;
        assert(first != second) by {
            assert(a != b);
            if a < b {
                assert(tables[a as int].name != tables[b as int].name);
            } else {
                assert(tables[b as int].name != tables[a as int].name);
            }
        }
        lemma_text_order(first, second, second);
        lemma_text_order(second, first, first);
        lemma_text_rank_same(first, second, 0);
        assert(first.skip(0) =~= first);
        assert(second.skip(0) =~= second);
    }
}

} // verus!
