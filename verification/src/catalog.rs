//! The tables of a database, and the statements that change them.

use vstd::prelude::*;
use crate::ast::{
    ident_name, last_name, object_name, optional, Assignment, AssignmentView, Body, BodyView, ColumnDef, ColumnDefView,
    ColumnOption, ColumnOptionView, ConflictTarget, ConflictTargetView, Expr, ExprView, Ident, IdentView, OnInsert,
    OnInsertView, Query, QueryView, Relation, RelationView, TableConstraint, TableConstraintView, TableWithJoins,
    TableWithJoinsView,
};
use crate::error::{invalid, outcome, plain, unsupported, Error, ErrorView};
use crate::eval::{borrowed, evaluate_constant, evaluated, is_selected, selects, EvalContext, ScopeView};
use crate::float::{computes, floats, FloatReply, FloatTask, Floats};
use crate::operators::{coerce, coerced, logical_type, parse_data_type};
use crate::table::{
    distinct_keys, lemma_checked_row, lemma_checked_table, null_checked, unique_checked, valid_row, validate_distinct,
    validate_row, Table, TableView,
};
use crate::text::{decimal_count, decimal_text, join2, join3, lemma_views_push, normalize_name, normalized, views};
use crate::value::{
    copy_row, find_column, found_column, key_of, lemma_row_views_push, row_views, Column, ColumnView, DataType, Value,
    ValueView,
};
use crate::write::{
    apply_insert_plan, assigned_names, assigned_row, assign_row, assignment_names, insert_outcome, lemma_coerced_type,
    lemma_valid_typed, name_views, prepare_typed_rows, resolve_targets, target_columns, typed_rows, typed_values,
    unique_column, valid_rows, InsertConflictPlan, PlanView,
};

verus! {

broadcast use {vstd::string::group_string_axioms, lemma_views_push, lemma_row_views_push};

/// Rows and column labels produced by `SELECT`.
#[derive(Debug)]
pub struct QueryResult {
    pub columns: Vec<String>,
    /// Declared type of each output column. `None` is used only when SQL does
    /// not provide enough information to type an expression, such as `NULL`.
    pub column_types: Vec<Option<DataType>>,
    pub rows: Vec<Vec<Value>>,
    /// Number of source rows evaluated after index pruning.
    pub rows_examined: usize,
}

#[verifier::ext_equal]
pub struct QueryResultView {
    pub columns: Seq<Seq<char>>,
    pub column_types: Seq<Option<DataType>>,
    pub rows: Seq<Seq<ValueView>>,
    pub rows_examined: nat,
}

impl View for QueryResult {
    type V = QueryResultView;

    open spec fn view(&self) -> QueryResultView {
        QueryResultView {
            columns: views(self.columns@),
            column_types: self.column_types@,
            rows: row_views(self.rows@),
            rows_examined: self.rows_examined as nat,
        }
    }
}

impl QueryResult {
    pub fn row_count(&self) -> (count: usize)
        ensures
            count == self@.rows.len(),
    {
        self.rows.len()
    }
}

/// Result of one SQL statement.
#[derive(Debug)]
pub enum ExecutionResult {
    Query(QueryResult),
    Command { tag: &'static str, rows_affected: usize },
}

pub enum ExecutionView {
    Query(QueryResultView),
    Command { tag: Seq<char>, rows_affected: nat },
}

impl View for ExecutionResult {
    type V = ExecutionView;

    open spec fn view(&self) -> ExecutionView {
        match self {
            ExecutionResult::Query(result) => ExecutionView::Query(result@),
            ExecutionResult::Command { tag, rows_affected } => ExecutionView::Command {
                tag: tag@,
                rows_affected: *rows_affected as nat,
            },
        }
    }
}

/// Conflict behavior for typed bulk insertion.
#[derive(Debug)]
pub enum InsertConflict {
    /// Reject the entire batch when any unique constraint is violated.
    Fail,
    /// Skip rows that conflict with the target, or any unique column when the
    /// target is `None`.
    DoNothing { target: Option<String> },
    /// Replace the listed columns from the incoming row when `target` conflicts.
    DoUpdate { target: String, update_columns: Vec<String> },
}

#[allow(inconsistent_fields)]
pub enum InsertConflictView {
    Fail,
    DoNothing { target: Option<Seq<char>> },
    DoUpdate { target: Seq<char>, update_columns: Seq<Seq<char>> },
}

impl View for InsertConflict {
    type V = InsertConflictView;

    open spec fn view(&self) -> InsertConflictView {
        match self {
            InsertConflict::Fail => InsertConflictView::Fail,
            InsertConflict::DoNothing { target } => InsertConflictView::DoNothing { target: optional(*target) },
            InsertConflict::DoUpdate { target, update_columns } => InsertConflictView::DoUpdate {
                target: target@,
                update_columns: views(update_columns@),
            },
        }
    }
}

impl Default for InsertConflict {
    fn default() -> (conflict: InsertConflict)
        ensures
            conflict == InsertConflict::Fail,
    {
        InsertConflict::Fail
    }
}

/// A table with its name.
#[derive(Debug)]
pub struct NamedTable {
    pub name: String,
    pub table: Table,
}

#[verifier::ext_equal]
pub struct NamedTableView {
    pub name: Seq<char>,
    pub table: TableView,
}

impl View for NamedTable {
    type V = NamedTableView;

    open spec fn view(&self) -> NamedTableView {
        NamedTableView { name: self.name@, table: self.table@ }
    }
}

/// The tables of a database, with the number of changes made and the last durable one.
#[derive(Debug)]
pub struct Catalog {
    pub tables: Vec<NamedTable>,
    pub revision: u64,
    pub durable_sequence: u64,
}

#[verifier::ext_equal]
pub struct CatalogView {
    pub tables: Seq<NamedTableView>,
    pub revision: u64,
    pub durable_sequence: u64,
}

impl View for Catalog {
    type V = CatalogView;

    open spec fn view(&self) -> CatalogView {
        CatalogView {
            tables: views(self.tables@),
            revision: self.revision,
            durable_sequence: self.durable_sequence,
        }
    }
}

/// The first table, from `from` on, of this name.
pub open spec fn table_position(tables: Seq<NamedTableView>, name: Seq<char>, from: nat) -> Option<nat>
    decreases tables.len() - from,
{
    if from >= tables.len() {
        None
    } else if tables[from as int].name == name {
        Some(from)
    } else {
        table_position(tables, name, from + 1)
    }
}

pub proof fn lemma_table_position(tables: Seq<NamedTableView>, name: Seq<char>, from: nat)
    ensures
        match table_position(tables, name, from) {
            Some(at) => from <= at < tables.len() && tables[at as int].name == name,
            None => forall|i: int| from <= i < tables.len() ==> (#[trigger] tables[i]).name != name,
        },
    decreases tables.len() - from,
{
    if from < tables.len() && tables[from as int].name != name {
        lemma_table_position(tables, name, from + 1);
    }
}

impl CatalogView {
    /// Whether table names are distinct and every table is valid.
    pub open spec fn valid(self) -> bool {
        &&& forall|i: int| 0 <= i < self.tables.len() ==> (#[trigger] self.tables[i]).table.valid()
        &&& forall|i: int, j: int|
            0 <= i < j < self.tables.len() ==> (#[trigger] self.tables[i]).name != (#[trigger] self.tables[j]).name
    }

    /// The position of the table of this name, or the error that there is none.
    pub open spec fn located(self, name: Seq<char>) -> Result<nat, ErrorView> {
        match table_position(self.tables, name, 0) {
            Some(at) => Ok(at),
            None => Err(ErrorView::TableNotFound(name)),
        }
    }

    /// The catalog one change later.
    pub open spec fn changed(self) -> CatalogView {
        CatalogView {
            tables: self.tables,
            revision: self.revision.wrapping_add(1),
            durable_sequence: self.durable_sequence,
        }
    }

    /// The catalog with other rows in one table.
    pub open spec fn with_rows(self, at: nat, rows: Seq<Seq<ValueView>>) -> CatalogView {
        CatalogView {
            tables: self.tables.update(
                at as int,
                NamedTableView {
                    name: self.tables[at as int].name,
                    table: self.tables[at as int].table.with_rows(rows),
                },
            ),
            revision: self.revision,
            durable_sequence: self.durable_sequence,
        }
    }

    /// The catalog, counted as changed where rows were affected.
    pub open spec fn changed_if(self, affected: nat) -> CatalogView {
        if affected > 0 {
            self.changed()
        } else {
            self
        }
    }
}

impl Catalog {
    /// Whether the catalog is valid and the tables' indexes are those of their rows.
    pub open spec fn wf(self) -> bool {
        &&& self@.valid()
        &&& forall|i: int| 0 <= i < self.tables@.len() ==> (#[trigger] self.tables@[i]).table.wf()
    }

    /// A catalog without tables.
    pub fn new() -> (catalog: Catalog)
        ensures
            catalog@ == (CatalogView { tables: Seq::empty(), revision: 0, durable_sequence: 0 }),
            catalog.wf(),
    {
        let catalog = Catalog { tables: Vec::new(), revision: 0, durable_sequence: 0 };
        assert(catalog@.tables =~= Seq::empty());
        catalog
    }

    /// The position of the table of this name.
    pub fn position(&self, name: &str) -> (result: Option<usize>)
        ensures
            match result {
                Some(at) => table_position(self@.tables, name@, 0) == Some(at as nat) && at < self.tables@.len()
                    && self.tables@[at as int].name@ == name@,
                None => table_position(self@.tables, name@, 0) is None,
            },
    {
        let mut at: usize = 0;
        while at < self.tables.len()
            invariant
                at <= self.tables@.len(),
                table_position(self@.tables, name@, at as nat) == table_position(self@.tables, name@, 0),
            decreases self.tables@.len() - at,
        {
            assert(self@.tables[at as int] == self.tables@[at as int]@);
            if *self.tables[at].name.as_str() == *name {
                return Some(at);
            }
            at = at + 1;
        }
        None
    }

    /// The position of the table of this name, or the error that there is none.
    pub fn locate(&self, name: &str) -> (result: Result<usize, Error>)
        ensures
            match result {
                Ok(at) => self@.located(name@) == Ok::<nat, ErrorView>(at as nat) && at < self.tables@.len()
                    && self.tables@[at as int].name@ == name@,
                Err(error) => self@.located(name@) == Err::<nat, ErrorView>(error@),
            },
    {
        match self.position(name) {
            Some(at) => Ok(at),
            None => Err(Error::TableNotFound(name.to_owned())),
        }
    }

    /// Counts one change.
    pub fn mark_changed(&mut self)
        ensures
            final(self)@ == old(self)@.changed(),
            final(self).tables == old(self).tables,
    {
        self.revision = self.revision.wrapping_add(1);
    }

    /// A copy of the catalog.
    pub fn duplicate(&self) -> (catalog: Catalog)
        requires
            self.wf(),
        ensures
            catalog@ == self@,
            catalog.wf(),
    {
        let mut tables: Vec<NamedTable> = Vec::new();
        let mut at: usize = 0;
        while at < self.tables.len()
            invariant
                self.wf(),
                at <= self.tables@.len(),
                tables@.len() == at,
                forall|i: int| 0 <= i < at ==> (#[trigger] tables@[i])@ == self.tables@[i]@ && tables@[i].table.wf(),
            decreases self.tables@.len() - at,
        {
            tables.push(
                NamedTable { name: self.tables[at].name.clone(), table: self.tables[at].table.duplicate() },
            );
            at = at + 1;
        }
        assert(views(tables@) =~= views(self.tables@));
        Catalog { tables, revision: self.revision, durable_sequence: self.durable_sequence }
    }
}

pub open spec fn command(tag: Seq<char>, rows_affected: nat) -> ExecutionView {
    ExecutionView::Command { tag, rows_affected }
}

/// Whether a column may be `NULL` and is unique, after the options from `from` on.
pub open spec fn column_options(options: Seq<ColumnOptionView>, from: nat, nullable: bool, unique: bool) -> Result<
    (bool, bool),
    ErrorView,
>
    decreases options.len() - from,
{
    if from >= options.len() {
        Ok((nullable, unique))
    } else {
        match options[from as int] {
            ColumnOptionView::Null => column_options(options, from + 1, true, unique),
            ColumnOptionView::NotNull => column_options(options, from + 1, false, unique),
            ColumnOptionView::Unique { is_primary } => column_options(options, from + 1, nullable && !is_primary, true),
            ColumnOptionView::Comment => column_options(options, from + 1, nullable, unique),
            ColumnOptionView::Other(text) => Err(ErrorView::Unsupported("column option "@ + text)),
        }
    }
}

/// Whether a column of exactly this name is among the columns.
pub open spec fn declares(columns: Seq<ColumnView>, name: Seq<char>) -> bool {
    exists|i: int| 0 <= i < columns.len() && (#[trigger] columns[i]).name == name
}

/// The columns that the definitions from `from` on declare, after `done`.
pub open spec fn declared_columns(definitions: Seq<ColumnDefView>, from: nat, done: Seq<ColumnView>) -> Result<
    Seq<ColumnView>,
    ErrorView,
>
    decreases definitions.len() - from,
{
    if from >= definitions.len() {
        Ok(done)
    } else {
        let definition = definitions[from as int];
        let name = definition.name.name();
        if declares(done, name) {
            Err(ErrorView::DuplicateColumn(name))
        } else {
            match logical_type(definition.data_type) {
                Err(error) => Err(error),
                Ok(data_type) => match column_options(definition.options, 0, true, false) {
                    Err(error) => Err(error),
                    Ok((nullable, unique)) => declared_columns(
                        definitions,
                        from + 1,
                        done.push(ColumnView { name, data_type, nullable, unique }),
                    ),
                },
            }
        }
    }
}

/// The columns after the constraints from `from` on.
pub open spec fn constrained_columns(constraints: Seq<TableConstraintView>, from: nat, columns: Seq<ColumnView>) -> Result<
    Seq<ColumnView>,
    ErrorView,
>
    decreases constraints.len() - from,
{
    if from >= constraints.len() {
        Ok(columns)
    } else {
        match constraints[from as int] {
            TableConstraintView::Unique { columns: names, is_primary } => if names.len() == 1 {
                match found_column(columns, names[0].name()) {
                    Err(error) => Err(error),
                    Ok(at) => {
                        let column = columns[at as int];
                        constrained_columns(
                            constraints,
                            from + 1,
                            columns.update(
                                at as int,
                                ColumnView {
                                    name: column.name,
                                    data_type: column.data_type,
                                    nullable: column.nullable && !is_primary,
                                    unique: true,
                                },
                            ),
                        )
                    },
                }
            } else {
                Err(ErrorView::Unsupported("composite UNIQUE and PRIMARY KEY constraints"@))
            },
            TableConstraintView::Other(text) => Err(ErrorView::Unsupported("table constraint "@ + text)),
        }
    }
}

/// The columns of a new table.
pub open spec fn new_columns(definitions: Seq<ColumnDefView>, constraints: Seq<TableConstraintView>) -> Result<
    Seq<ColumnView>,
    ErrorView,
> {
    if definitions.len() == 0 {
        Err(ErrorView::InvalidQuery("a table must contain at least one column"@))
    } else {
        match declared_columns(definitions, 0, Seq::empty()) {
            Err(error) => Err(error),
            Ok(columns) => constrained_columns(constraints, 0, columns),
        }
    }
}

fn read_options(options: &Vec<ColumnOption>) -> (result: Result<(bool, bool), Error>)
    ensures
        plain(result) == column_options(views(options@), 0, true, false),
{
    let mut nullable = true;
    let mut unique = false;
    let mut index: usize = 0;
    while index < options.len()
        invariant
            index <= options@.len(),
            column_options(views(options@), index as nat, nullable, unique) == column_options(
                views(options@),
                0,
                true,
                false,
            ),
        decreases options@.len() - index,
    {
        match &options[index] {
            ColumnOption::Null => {
                nullable = true;
            },
            ColumnOption::NotNull => {
                nullable = false;
            },
            ColumnOption::Unique { is_primary } => {
                unique = true;
                if *is_primary {
                    nullable = false;
                }
            },
            ColumnOption::Comment => {},
            ColumnOption::Other(text) => return Err(Error::Unsupported(join2("column option ", text.as_str()))),
        }
        index = index + 1;
    }
    Ok((nullable, unique))
}

pub(crate) fn is_declared(columns: &Vec<Column>, name: &str) -> (result: bool)
    ensures
        result == declares(views(columns@), name@),
{
    let mut index: usize = 0;
    while index < columns.len()
        invariant
            index <= columns@.len(),
            forall|i: int| 0 <= i < index ==> (#[trigger] views(columns@)[i]).name != name@,
        decreases columns@.len() - index,
    {
        assert(views(columns@)[index as int] == columns@[index as int]@);
        if *columns[index].name.as_str() == *name {
            return true;
        }
        index = index + 1;
    }
    false
}

fn declare_columns(definitions: &Vec<ColumnDef>) -> (result: Result<Vec<Column>, Error>)
    ensures
        match result {
            Ok(columns) => declared_columns(views(definitions@), 0, Seq::empty()) == Ok::<Seq<ColumnView>, ErrorView>(
                views(columns@),
            ),
            Err(error) => declared_columns(views(definitions@), 0, Seq::empty()) == Err::<Seq<ColumnView>, ErrorView>(
                error@,
            ),
        },
{
    let mut columns: Vec<Column> = Vec::new();
    assert(views(columns@) =~= Seq::<ColumnView>::empty());
    let mut index: usize = 0;
    while index < definitions.len()
        invariant
            index <= definitions@.len(),
            declared_columns(views(definitions@), index as nat, views(columns@)) == declared_columns(
                views(definitions@),
                0,
                Seq::empty(),
            ),
        decreases definitions@.len() - index,
    {
        let definition = &definitions[index];
        let name = ident_name(&definition.name);
        if is_declared(&columns, name.as_str()) {
            return Err(Error::DuplicateColumn(name));
        }
        let data_type = parse_data_type(&definition.data_type)?;
        let (nullable, unique) = read_options(&definition.options)?;
        let column = Column { name, data_type, nullable, unique };
        assert(column@ == ColumnView { name: name@, data_type, nullable, unique });
        columns.push(column);
        index = index + 1;
    }
    Ok(columns)
}

fn constrain_columns(constraints: &Vec<TableConstraint>, given: Vec<Column>) -> (result: Result<Vec<Column>, Error>)
    ensures
        match result {
            Ok(columns) => constrained_columns(views(constraints@), 0, views(given@)) == Ok::<Seq<ColumnView>, ErrorView>(
                views(columns@),
            ),
            Err(error) => constrained_columns(views(constraints@), 0, views(given@)) == Err::<Seq<ColumnView>, ErrorView>(
                error@,
            ),
        },
{
    let ghost start = views(given@);
    let mut columns = given;
    let mut index: usize = 0;
    while index < constraints.len()
        invariant
            start == views(given@),
            index <= constraints@.len(),
            constrained_columns(views(constraints@), index as nat, views(columns@)) == constrained_columns(
                views(constraints@),
                0,
                start,
            ),
        decreases constraints@.len() - index,
    {
        match &constraints[index] {
            TableConstraint::Unique { columns: names, is_primary } => {
                if names.len() != 1 {
                    return Err(unsupported("composite UNIQUE and PRIMARY KEY constraints"));
                }
                assert(views(names@)[0] == names@[0]@);
                let name = ident_name(&names[0]);
                let at: usize = find_column(&columns, name.as_str())?;
                let ghost before = views(columns@);
                assert(before[at as int] == columns@[at as int]@);
                columns[at].unique = true;
                if *is_primary {
                    columns[at].nullable = false;
                }
                proof {
                    let column = before[at as int];
                    assert(views(columns@) =~= before.update(
                        at as int,
                        ColumnView {
                            name: column.name,
                            data_type: column.data_type,
                            nullable: column.nullable && !*is_primary,
                            unique: true,
                        },
                    ));
                }
            },
            TableConstraint::Other(text) => return Err(
                Error::Unsupported(join2("table constraint ", text.as_str())),
            ),
        }
        index = index + 1;
    }
    Ok(columns)
}

/// What `CREATE TABLE` does to the catalog.
pub open spec fn table_created(
    catalog: CatalogView,
    name: Seq<IdentView>,
    definitions: Seq<ColumnDefView>,
    constraints: Seq<TableConstraintView>,
    if_not_exists: bool,
) -> Result<(CatalogView, ExecutionView), ErrorView> {
    let name = last_name(name);
    match new_columns(definitions, constraints) {
        Err(error) => Err(error),
        Ok(columns) => if table_position(catalog.tables, name, 0) is Some {
            if if_not_exists {
                Ok((catalog, command("CREATE TABLE"@, 0)))
            } else {
                Err(ErrorView::TableAlreadyExists(name))
            }
        } else {
            let table = TableView { columns, rows: Seq::empty(), indexes: Seq::empty() };
            let tables = catalog.tables.push(NamedTableView { name, table });
            Ok(
                (
                    (CatalogView {
                        tables,
                        revision: catalog.revision,
                        durable_sequence: catalog.durable_sequence,
                    }).changed(),
                    command("CREATE TABLE"@, 0),
                ),
            )
        },
    }
}

/// The result of a statement on a catalog, which a failure leaves as it was.
pub open spec fn transition(
    before: CatalogView,
    after: CatalogView,
    result: Result<ExecutionResult, Error>,
    expected: Result<(CatalogView, ExecutionView), ErrorView>,
) -> bool {
    match result {
        Ok(value) => expected == Ok::<(CatalogView, ExecutionView), ErrorView>((after, value@)),
        Err(error) => expected == Err::<(CatalogView, ExecutionView), ErrorView>(error@) && after == before,
    }
}

impl Catalog {
    /// Adds a table.
    pub fn add_table(&mut self, name: String, table: Table)
        requires
            old(self).wf(),
            table.wf(),
            table_position(old(self)@.tables, name@, 0) is None,
        ensures
            final(self)@ == (CatalogView {
                tables: old(self)@.tables.push(NamedTableView { name: name@, table: table@ }),
                revision: old(self)@.revision,
                durable_sequence: old(self)@.durable_sequence,
            }),
            final(self).wf(),
    {
        let ghost before = self@;
        let entry = NamedTable { name, table };
        proof {
            lemma_table_position(before.tables, name@, 0);
        }
        self.tables.push(entry);
        proof {
            let after = self@;
            assert forall|i: int| 0 <= i < after.tables.len() implies (#[trigger] after.tables[i]).table.valid() by {
                if i < before.tables.len() {
                    assert(after.tables[i] == before.tables[i]);
                }
            }
            assert forall|i: int, j: int| 0 <= i < j < after.tables.len() implies (#[trigger] after.tables[i]).name != (
            #[trigger] after.tables[j]).name by {
                assert(after.tables[i] == before.tables[i]);
                if j < before.tables.len() {
                    assert(after.tables[j] == before.tables[j]);
                }
            }
        }
    }

    /// `CREATE TABLE`.
    pub fn create_table(
        &mut self,
        name: &Vec<Ident>,
        definitions: &Vec<ColumnDef>,
        constraints: &Vec<TableConstraint>,
        if_not_exists: bool,
    ) -> (result: Result<ExecutionResult, Error>)
        requires
            old(self).wf(),
        ensures
            final(self).wf(),
            transition(
                old(self)@,
                final(self)@,
                result,
                table_created(old(self)@, views(name@), views(definitions@), views(constraints@), if_not_exists),
            ),
    {
        let name = object_name(name);
        if definitions.len() == 0 {
            return Err(invalid("a table must contain at least one column"));
        }
        let columns = declare_columns(definitions)?;
        let columns = constrain_columns(constraints, columns)?;
        if self.position(name.as_str()).is_some() {
            if if_not_exists {
                return Ok(ExecutionResult::Command { tag: "CREATE TABLE", rows_affected: 0 });
            }
            return Err(Error::TableAlreadyExists(name));
        }
        let table = Table::empty(columns);
        self.add_table(name, table);
        self.mark_changed();
        Ok(ExecutionResult::Command { tag: "CREATE TABLE", rows_affected: 0 })
    }
}

/// The positions of the unique columns from `from` on, after `done`.
pub open spec fn unique_columns(columns: Seq<ColumnView>, from: nat, done: Seq<usize>) -> Seq<usize>
    decreases columns.len() - from,
{
    if from >= columns.len() {
        done
    } else {
        unique_columns(
            columns,
            from + 1,
            if columns[from as int].unique {
                done.push(from as usize)
            } else {
                done
            },
        )
    }
}

fn find_unique_columns(columns: &Vec<Column>) -> (result: Vec<usize>)
    ensures
        result@ == unique_columns(views(columns@), 0, Seq::empty()),
        forall|i: int| 0 <= i < result@.len() ==> unique_column(views(columns@), #[trigger] result@[i]),
{
    let mut out: Vec<usize> = Vec::new();
    let mut index: usize = 0;
    while index < columns.len()
        invariant
            index <= columns@.len(),
            unique_columns(views(columns@), index as nat, out@) == unique_columns(views(columns@), 0, Seq::empty()),
            forall|i: int| 0 <= i < out@.len() ==> unique_column(views(columns@), #[trigger] out@[i]),
        decreases columns@.len() - index,
    {
        assert(views(columns@)[index as int] == columns@[index as int]@);
        if columns[index].unique {
            out.push(index);
        }
        index = index + 1;
    }
    out
}

/// The unique column of this name; `label` begins the error for one that is not unique.
pub open spec fn unique_target(columns: Seq<ColumnView>, name: Seq<char>, label: Seq<char>) -> Result<usize, ErrorView> {
    match found_column(columns, name) {
        Err(error) => Err(error),
        Ok(at) => if columns[at as int].unique {
            Ok(at as usize)
        } else {
            Err(ErrorView::InvalidQuery(label + columns[at as int].name + "' is not unique"@))
        },
    }
}

fn resolve_unique_column(columns: &Vec<Column>, name: &str, label: &str) -> (result: Result<usize, Error>)
    ensures
        plain(result) == unique_target(views(columns@), name@, label@),
        result matches Ok(at) ==> unique_column(views(columns@), at),
{
    let at: usize = find_column(columns, name)?;
    assert(views(columns@)[at as int] == columns@[at as int]@);
    if columns[at].unique {
        Ok(at)
    } else {
        Err(Error::InvalidQuery(join3(label, columns[at].name.as_str(), "' is not unique")))
    }
}

/// The unique column that a conflict clause names.
pub open spec fn conflict_target(columns: Seq<ColumnView>, target: ConflictTargetView) -> Result<usize, ErrorView> {
    match target {
        ConflictTargetView::Columns(names) => if names.len() == 1 {
            unique_target(columns, names[0].name(), "ON CONFLICT target '"@)
        } else {
            Err(ErrorView::Unsupported("composite ON CONFLICT targets"@))
        },
        ConflictTargetView::Constraint => Err(ErrorView::Unsupported("named ON CONFLICT constraints"@)),
    }
}

fn resolve_conflict_target(columns: &Vec<Column>, target: &ConflictTarget) -> (result: Result<usize, Error>)
    ensures
        plain(result) == conflict_target(views(columns@), target@),
        result matches Ok(at) ==> unique_column(views(columns@), at),
{
    match target {
        ConflictTarget::Columns(names) => {
            if names.len() != 1 {
                return Err(unsupported("composite ON CONFLICT targets"));
            }
            assert(views(names@)[0] == names@[0]@);
            let name = ident_name(&names[0]);
            resolve_unique_column(columns, name.as_str(), "ON CONFLICT target '")
        },
        ConflictTarget::Constraint => Err(unsupported("named ON CONFLICT constraints")),
    }
}

/// The plan of a conflict clause.
pub open spec fn conflict_plan(columns: Seq<ColumnView>, on_insert: Option<OnInsertView>) -> Result<PlanView, ErrorView> {
    match on_insert {
        None => Ok(PlanView::Fail),
        Some(OnInsertView::DuplicateKeyUpdate) => Err(ErrorView::Unsupported("ON DUPLICATE KEY UPDATE"@)),
        Some(OnInsertView::DoNothing(None)) => Ok(PlanView::DoNothing(unique_columns(columns, 0, Seq::empty()))),
        Some(OnInsertView::DoNothing(Some(target))) => match conflict_target(columns, target) {
            Err(error) => Err(error),
            Ok(at) => Ok(PlanView::DoNothing(seq![at])),
        },
        Some(OnInsertView::DoUpdate(None, _)) => Err(
            ErrorView::InvalidQuery("ON CONFLICT DO UPDATE requires a conflict target"@),
        ),
        Some(OnInsertView::DoUpdate(Some(target), update)) => match conflict_target(columns, target) {
            Err(error) => Err(error),
            Ok(at) => Ok(PlanView::DoUpdate { conflict_column: at, update }),
        },
    }
}

/// The plan of a conflict clause.
pub fn resolve_conflict_plan<'a>(columns: &Vec<Column>, on_insert: &'a Option<OnInsert>) -> (result: Result<
    InsertConflictPlan<'a>,
    Error,
>)
    ensures
        outcome(result) == conflict_plan(views(columns@), optional(*on_insert)),
        result matches Ok(plan) ==> plan@.valid(views(columns@)),
{
    match on_insert {
        None => Ok(InsertConflictPlan::Fail),
        Some(OnInsert::DuplicateKeyUpdate) => Err(unsupported("ON DUPLICATE KEY UPDATE")),
        Some(OnInsert::DoNothing(None)) => Ok(InsertConflictPlan::DoNothing(find_unique_columns(columns))),
        Some(OnInsert::DoNothing(Some(target))) => {
            let at: usize = resolve_conflict_target(columns, target)?;
            let mut targets: Vec<usize> = Vec::new();
            targets.push(at);
            assert(targets@ =~= seq![at]);
            Ok(InsertConflictPlan::DoNothing(targets))
        },
        Some(OnInsert::DoUpdate(None, _)) => Err(invalid("ON CONFLICT DO UPDATE requires a conflict target")),
        Some(OnInsert::DoUpdate(Some(target), update)) => {
            let at: usize = resolve_conflict_target(columns, target)?;
            Ok(InsertConflictPlan::DoUpdate { conflict_column: at, update })
        },
    }
}

/// The names of columns to be updated.
pub open spec fn listed_names(names: Seq<Seq<char>>) -> Seq<Option<Seq<char>>> {
    names.map_values(|name: Seq<char>| Some(normalized(name)))
}

/// The plan of a typed insertion.
pub open spec fn typed_plan(columns: Seq<ColumnView>, conflict: InsertConflictView) -> Result<PlanView, ErrorView> {
    match conflict {
        InsertConflictView::Fail => Ok(PlanView::Fail),
        InsertConflictView::DoNothing { target: None } => Ok(
            PlanView::DoNothing(unique_columns(columns, 0, Seq::empty())),
        ),
        InsertConflictView::DoNothing { target: Some(name) } => match unique_target(columns, name, "conflict target '"@) {
            Err(error) => Err(error),
            Ok(at) => Ok(PlanView::DoNothing(seq![at])),
        },
        InsertConflictView::DoUpdate { target, update_columns } => if update_columns.len() == 0 {
            Err(ErrorView::InvalidQuery("typed conflict update requires at least one update column"@))
        } else {
            match target_columns(
                columns,
                listed_names(update_columns),
                ErrorView::InvalidQuery(""@),
                0,
                Seq::empty(),
            ) {
                Err(error) => Err(error),
                Ok(targets) => match unique_target(columns, target, "conflict target '"@) {
                    Err(error) => Err(error),
                    Ok(at) => Ok(PlanView::ReplaceColumns { conflict_column: at, update_columns: targets }),
                },
            }
        },
    }
}

/// The plan of a typed insertion.
pub fn resolve_typed_conflict_plan(columns: &Vec<Column>, conflict: &InsertConflict) -> (result: Result<
    InsertConflictPlan<'static>,
    Error,
>)
    ensures
        outcome(result) == typed_plan(views(columns@), conflict@),
        result matches Ok(plan) ==> plan@.valid(views(columns@)),
{
    match conflict {
        InsertConflict::Fail => Ok(InsertConflictPlan::Fail),
        InsertConflict::DoNothing { target: None } => Ok(InsertConflictPlan::DoNothing(find_unique_columns(columns))),
        InsertConflict::DoNothing { target: Some(name) } => {
            let at: usize = resolve_unique_column(columns, name.as_str(), "conflict target '")?;
            let mut targets: Vec<usize> = Vec::new();
            targets.push(at);
            assert(targets@ =~= seq![at]);
            Ok(InsertConflictPlan::DoNothing(targets))
        },
        InsertConflict::DoUpdate { target, update_columns } => {
            if update_columns.len() == 0 {
                return Err(invalid("typed conflict update requires at least one update column"));
            }
            let mut names: Vec<Option<String>> = Vec::new();
            let mut index: usize = 0;
            while index < update_columns.len()
                invariant
                    index <= update_columns@.len(),
                    names@.len() == index,
                    forall|i: int|
                        0 <= i < index ==> (#[trigger] names@[i]) is Some && names@[i]->0@ == normalized(
                            update_columns@[i]@,
                        ),
                decreases update_columns@.len() - index,
            {
                names.push(Some(normalize_name(update_columns[index].as_str())));
                index = index + 1;
            }
            assert(name_views(names@) =~= listed_names(views(update_columns@)));
            let targets = resolve_targets(columns, &names, "")?;
            let at: usize = resolve_unique_column(columns, target.as_str(), "conflict target '")?;
            Ok(InsertConflictPlan::ReplaceColumns { conflict_column: at, update_columns: targets })
        },
    }
}

/// The columns that an `INSERT` gives values for.
pub open spec fn insert_targets(columns: Seq<ColumnView>, names: Seq<IdentView>) -> Result<Seq<usize>, ErrorView> {
    if names.len() == 0 {
        Ok(Seq::new(columns.len(), |i: int| i as usize))
    } else {
        target_columns(
            columns,
            names.map_values(|name: IdentView| Some(name.name())),
            ErrorView::InvalidQuery(""@),
            0,
            Seq::empty(),
        )
    }
}

fn resolve_insert_targets(columns: &Vec<Column>, names: &Vec<Ident>) -> (result: Result<Vec<usize>, Error>)
    ensures
        match result {
            Ok(targets) => insert_targets(views(columns@), views(names@)) == Ok::<Seq<usize>, ErrorView>(targets@)
                && forall|i: int| 0 <= i < targets@.len() ==> (#[trigger] targets@[i]) < columns@.len(),
            Err(error) => insert_targets(views(columns@), views(names@)) == Err::<Seq<usize>, ErrorView>(error@),
        },
{
    if names.len() == 0 {
        let mut targets: Vec<usize> = Vec::new();
        let mut index: usize = 0;
        while index < columns.len()
            invariant
                index <= columns@.len(),
                targets@.len() == index,
                forall|i: int| 0 <= i < index ==> (#[trigger] targets@[i]) == i,
            decreases columns@.len() - index,
        {
            targets.push(index);
            index = index + 1;
        }
        assert(targets@ =~= Seq::new(views(columns@).len(), |i: int| i as usize));
        return Ok(targets);
    }
    let mut written: Vec<Option<String>> = Vec::new();
    let mut index: usize = 0;
    while index < names.len()
        invariant
            index <= names@.len(),
            written@.len() == index,
            forall|i: int| 0 <= i < index ==> (#[trigger] written@[i]) is Some && written@[i]->0@ == names@[i]@.name(),
        decreases names@.len() - index,
    {
        written.push(Some(ident_name(&names[index])));
        index = index + 1;
    }
    assert(name_views(written@) =~= views(names@).map_values(|name: IdentView| Some(name.name())));
    resolve_targets(columns, &written, "")
}

/// The row with the values of the expressions from `from` on.
pub open spec fn filled_row(
    columns: Seq<ColumnView>,
    targets: Seq<usize>,
    expressions: Seq<ExprView>,
    floats: Floats,
    from: nat,
    row: Seq<ValueView>,
) -> Result<Seq<ValueView>, ErrorView>
    decreases expressions.len() - from,
{
    if from >= expressions.len() {
        Ok(row)
    } else {
        match evaluated(expressions[from as int], ScopeView::none(), floats) {
            Err(error) => Err(error),
            Ok(value) => match coerced(floats, value, columns[targets[from as int] as int].data_type) {
                Err(error) => Err(error),
                Ok(value) => filled_row(
                    columns,
                    targets,
                    expressions,
                    floats,
                    from + 1,
                    row.update(targets[from as int] as int, value),
                ),
            },
        }
    }
}

pub open spec fn null_row(count: nat) -> Seq<ValueView> {
    Seq::new(count, |i: int| ValueView::Null)
}

/// The row that a list of expressions makes.
pub open spec fn listed_row(columns: Seq<ColumnView>, targets: Seq<usize>, expressions: Seq<ExprView>, floats: Floats) -> Result<
    Seq<ValueView>,
    ErrorView,
> {
    if expressions.len() != targets.len() {
        Err(
            ErrorView::InvalidQuery(
                "INSERT row has "@ + decimal_text(expressions.len()) + " value(s), expected "@ + decimal_text(
                    targets.len(),
                ),
            ),
        )
    } else {
        match filled_row(columns, targets, expressions, floats, 0, null_row(columns.len())) {
            Err(error) => Err(error),
            Ok(row) => match null_checked(columns, row, 0) {
                Err(error) => Err(error),
                Ok(_) => Ok(row),
            },
        }
    }
}

/// The rows that lists of expressions from `from` on make, after `done`.
pub open spec fn listed_rows(
    columns: Seq<ColumnView>,
    targets: Seq<usize>,
    lists: Seq<Seq<ExprView>>,
    floats: Floats,
    from: nat,
    done: Seq<Seq<ValueView>>,
) -> Result<Seq<Seq<ValueView>>, ErrorView>
    decreases lists.len() - from,
{
    if from >= lists.len() {
        Ok(done)
    } else {
        match listed_row(columns, targets, lists[from as int], floats) {
            Err(error) => Err(error),
            Ok(row) => listed_rows(columns, targets, lists, floats, from + 1, done.push(row)),
        }
    }
}

fn fill_row<F: Fn(FloatTask) -> FloatReply>(
    f: &F,
    columns: &Vec<Column>,
    targets: &Vec<usize>,
    expressions: &Vec<Expr>,
) -> (result: Result<Vec<Value>, Error>)
    requires
        computes(*f),
        targets@.len() == expressions@.len(),
        forall|i: int| 0 <= i < targets@.len() ==> (#[trigger] targets@[i]) < columns@.len(),
    ensures
        match result {
            Ok(row) => filled_row(
                views(columns@),
                targets@,
                views(expressions@),
                floats(*f),
                0,
                null_row(columns@.len()),
            ) == Ok::<Seq<ValueView>, ErrorView>(views(row@)) && typed_values(views(columns@), views(row@)),
            Err(error) => filled_row(
                views(columns@),
                targets@,
                views(expressions@),
                floats(*f),
                0,
                null_row(columns@.len()),
            ) == Err::<Seq<ValueView>, ErrorView>(error@),
        },
{
    let mut row: Vec<Value> = Vec::new();
    while row.len() < columns.len()
        invariant
            row@.len() <= columns@.len(),
            forall|i: int| 0 <= i < row@.len() ==> (#[trigger] row@[i])@ is Null,
        decreases columns@.len() - row@.len(),
    {
        row.push(Value::Null);
    }
    assert(views(row@) =~= null_row(columns@.len()));
    let mut index: usize = 0;
    while index < expressions.len()
        invariant
            computes(*f),
            targets@.len() == expressions@.len(),
            forall|i: int| 0 <= i < targets@.len() ==> (#[trigger] targets@[i]) < columns@.len(),
            typed_values(views(columns@), views(row@)),
            index <= expressions@.len(),
            filled_row(views(columns@), targets@, views(expressions@), floats(*f), index as nat, views(row@))
                == filled_row(
                views(columns@),
                targets@,
                views(expressions@),
                floats(*f),
                0,
                null_row(columns@.len()),
            ),
        decreases expressions@.len() - index,
    {
        let ghost before = views(row@);
        let value = evaluate_constant(f, &expressions[index])?;
        let target: usize = targets[index];
        assert(views(columns@)[target as int] == columns@[target as int]@);
        let value = coerce(f, value, columns[target].data_type)?;
        proof {
            lemma_coerced_type(
                floats(*f),
                evaluated(views(expressions@)[index as int], ScopeView::none(), floats(*f))->Ok_0,
                views(columns@)[target as int].data_type,
            );
        }
        let ghost set = value@;
        row[target] = value;
        assert(views(row@) =~= before.update(target as int, set));
        index = index + 1;
    }
    Ok(row)
}

fn fill_rows<F: Fn(FloatTask) -> FloatReply>(
    f: &F,
    columns: &Vec<Column>,
    targets: &Vec<usize>,
    lists: &Vec<Vec<Expr>>,
) -> (result: Result<Vec<Vec<Value>>, Error>)
    requires
        computes(*f),
        forall|i: int| 0 <= i < targets@.len() ==> (#[trigger] targets@[i]) < columns@.len(),
    ensures
        match result {
            Ok(rows) => listed_rows(
                views(columns@),
                targets@,
                lists@.map_values(|row: Vec<Expr>| views(row@)),
                floats(*f),
                0,
                Seq::empty(),
            ) == Ok::<Seq<Seq<ValueView>>, ErrorView>(row_views(rows@)) && valid_rows(views(columns@), row_views(rows@)),
            Err(error) => listed_rows(
                views(columns@),
                targets@,
                lists@.map_values(|row: Vec<Expr>| views(row@)),
                floats(*f),
                0,
                Seq::empty(),
            ) == Err::<Seq<Seq<ValueView>>, ErrorView>(error@),
        },
{
    let ghost all = lists@.map_values(|row: Vec<Expr>| views(row@));
    let mut rows: Vec<Vec<Value>> = Vec::new();
    assert(row_views(rows@) =~= Seq::<Seq<ValueView>>::empty());
    let mut index: usize = 0;
    while index < lists.len()
        invariant
            computes(*f),
            forall|i: int| 0 <= i < targets@.len() ==> (#[trigger] targets@[i]) < columns@.len(),
            all == lists@.map_values(|row: Vec<Expr>| views(row@)),
            index <= lists@.len(),
            valid_rows(views(columns@), row_views(rows@)),
            listed_rows(views(columns@), targets@, all, floats(*f), index as nat, row_views(rows@)) == listed_rows(
                views(columns@),
                targets@,
                all,
                floats(*f),
                0,
                Seq::empty(),
            ),
        decreases lists@.len() - index,
    {
        let expressions = &lists[index];
        assert(all[index as int] == views(expressions@));
        if expressions.len() != targets.len() {
            let mut text = join3("INSERT row has ", decimal_count(expressions.len()).as_str(), " value(s), expected ");
            let expected = decimal_count(targets.len());
            text.append(expected.as_str());
            return Err(Error::InvalidQuery(text));
        }
        let row = fill_row(f, columns, targets, expressions)?;
        validate_row(columns, &row)?;
        let ghost before = row_views(rows@);
        proof {
            lemma_checked_row(views(columns@), views(row@));
        }
        rows.push(row);
        proof {
            assert forall|i: int| 0 <= i < rows@.len() implies valid_row(views(columns@), #[trigger] row_views(rows@)[i]) by {
                if i < before.len() {
                    assert(row_views(rows@)[i] == before[i]);
                }
            }
        }
        index = index + 1;
    }
    Ok(rows)
}

/// What an insertion of given rows into one table does to the catalog.
pub open spec fn rows_inserted(
    catalog: CatalogView,
    at: nat,
    pending: Seq<Seq<ValueView>>,
    plan: PlanView,
    floats: Floats,
) -> Result<(CatalogView, nat), ErrorView> {
    match insert_outcome(catalog.tables[at as int].table, pending, plan, floats) {
        Err(error) => Err(error),
        Ok((rows, affected)) => Ok((catalog.with_rows(at, rows).changed_if(affected), affected)),
    }
}

/// What `INSERT` does to the catalog.
pub open spec fn inserted(
    catalog: CatalogView,
    name: Seq<IdentView>,
    names: Seq<IdentView>,
    source: Option<QueryView>,
    on_insert: Option<OnInsertView>,
    floats: Floats,
) -> Result<(CatalogView, ExecutionView), ErrorView> {
    match source {
        None => Err(ErrorView::InvalidQuery("INSERT has no source"@)),
        Some(query) => match query.body {
            BodyView::Values(lists) => match catalog.located(last_name(name)) {
                Err(error) => Err(error),
                Ok(at) => {
                    let columns = catalog.tables[at as int].table.columns;
                    match conflict_plan(columns, on_insert) {
                        Err(error) => Err(error),
                        Ok(plan) => match insert_targets(columns, names) {
                            Err(error) => Err(error),
                            Ok(targets) => match listed_rows(columns, targets, lists, floats, 0, Seq::empty()) {
                                Err(error) => Err(error),
                                Ok(pending) => match rows_inserted(catalog, at, pending, plan, floats) {
                                    Err(error) => Err(error),
                                    Ok((after, affected)) => Ok((after, command("INSERT"@, affected))),
                                },
                            },
                        },
                    }
                },
            },
            _ => Err(ErrorView::Unsupported("INSERT ... SELECT"@)),
        },
    }
}

/// What a typed insertion does to the catalog.
pub open spec fn typed_inserted(
    catalog: CatalogView,
    name: Seq<char>,
    rows: Seq<Seq<ValueView>>,
    conflict: InsertConflictView,
    floats: Floats,
) -> Result<(CatalogView, nat), ErrorView> {
    match catalog.located(normalized(name)) {
        Err(error) => Err(error),
        Ok(at) => {
            let columns = catalog.tables[at as int].table.columns;
            match typed_plan(columns, conflict) {
                Err(error) => Err(error),
                Ok(plan) => match typed_rows(columns, rows, floats, 0, Seq::empty()) {
                    Err(error) => Err(error),
                    Ok(pending) => rows_inserted(catalog, at, pending, plan, floats),
                },
            }
        },
    }
}

/// A valid catalog with valid rows in one table is valid.
pub proof fn lemma_rows_replaced(catalog: CatalogView, at: nat, rows: Seq<Seq<ValueView>>)
    requires
        catalog.valid(),
        at < catalog.tables.len(),
        catalog.tables[at as int].table.with_rows(rows).valid(),
    ensures
        catalog.with_rows(at, rows).valid(),
{
    let after = catalog.with_rows(at, rows);
    assert forall|i: int| 0 <= i < after.tables.len() implies (#[trigger] after.tables[i]).table.valid() by {
        if i != at {
            assert(after.tables[i] == catalog.tables[i]);
        }
    }
    assert forall|i: int, j: int| 0 <= i < j < after.tables.len() implies (#[trigger] after.tables[i]).name != (
    #[trigger] after.tables[j]).name by {
        assert(after.tables[i].name == catalog.tables[i].name);
        assert(after.tables[j].name == catalog.tables[j].name);
    }
}

impl Catalog {
    /// Inserts rows into the table at `at`.
    pub fn insert_pending<F: Fn(FloatTask) -> FloatReply>(
        &mut self,
        f: &F,
        at: usize,
        pending: Vec<Vec<Value>>,
        plan: &InsertConflictPlan<'_>,
    ) -> (result: Result<usize, Error>)
        requires
            computes(*f),
            old(self).wf(),
            at < old(self).tables@.len(),
            valid_rows(old(self)@.tables[at as int].table.columns, row_views(pending@)),
            plan@.valid(old(self)@.tables[at as int].table.columns),
        ensures
            final(self).wf(),
            match result {
                Ok(count) => rows_inserted(old(self)@, at as nat, row_views(pending@), plan@, floats(*f)) == Ok::<
                    (CatalogView, nat),
                    ErrorView,
                >((final(self)@, count as nat)),
                Err(error) => rows_inserted(old(self)@, at as nat, row_views(pending@), plan@, floats(*f)) == Err::<
                    (CatalogView, nat),
                    ErrorView,
                >(error@) && final(self)@ == old(self)@,
            },
    {
        let ghost before = self@;
        let ghost tables = self.tables@;
        assert(before.tables[at as int] == tables[at as int]@);
        let result = apply_insert_plan(f, &mut self.tables[at].table, pending, plan);
        let ghost rows = self.tables@[at as int].table@.rows;
        proof {
            assert(self.tables@ == tables.update(at as int, self.tables@[at as int]));
            assert(self@.tables =~= before.with_rows(at as nat, rows).tables);
            assert(self@ == before.with_rows(at as nat, rows));
            lemma_rows_replaced(before, at as nat, rows);
        }
        match result {
            Ok(count) => {
                if count > 0 {
                    self.mark_changed();
                }
                Ok(count)
            },
            Err(error) => {
                proof {
                    assert(self@.tables =~= before.tables);
                }
                Err(error)
            },
        }
    }

    /// Inserts fully typed rows in schema order.
    pub fn insert_rows<F: Fn(FloatTask) -> FloatReply>(
        &mut self,
        f: &F,
        table_name: &str,
        rows: &Vec<Vec<Value>>,
        conflict: &InsertConflict,
    ) -> (result: Result<usize, Error>)
        requires
            computes(*f),
            old(self).wf(),
        ensures
            final(self).wf(),
            match result {
                Ok(count) => typed_inserted(old(self)@, table_name@, row_views(rows@), conflict@, floats(*f)) == Ok::<
                    (CatalogView, nat),
                    ErrorView,
                >((final(self)@, count as nat)),
                Err(error) => typed_inserted(old(self)@, table_name@, row_views(rows@), conflict@, floats(*f)) == Err::<
                    (CatalogView, nat),
                    ErrorView,
                >(error@) && final(self)@ == old(self)@,
            },
    {
        let name = normalize_name(table_name);
        let at: usize = self.locate(name.as_str())?;
        assert(self@.tables[at as int] == self.tables@[at as int]@);
        let plan = resolve_typed_conflict_plan(&self.tables[at].table.columns, conflict)?;
        let pending = prepare_typed_rows(f, &self.tables[at].table.columns, rows)?;
        self.insert_pending(f, at, pending, &plan)
    }

    /// `INSERT`.
    pub fn insert<F: Fn(FloatTask) -> FloatReply>(
        &mut self,
        f: &F,
        name: &Vec<Ident>,
        names: &Vec<Ident>,
        source: &Option<Query>,
        on_insert: &Option<OnInsert>,
    ) -> (result: Result<ExecutionResult, Error>)
        requires
            computes(*f),
            old(self).wf(),
        ensures
            final(self).wf(),
            transition(
                old(self)@,
                final(self)@,
                result,
                inserted(
                    old(self)@,
                    views(name@),
                    views(names@),
                    optional(*source),
                    optional(*on_insert),
                    floats(*f),
                ),
            ),
    {
        let name = object_name(name);
        let query = match source {
            Some(query) => query,
            None => return Err(invalid("INSERT has no source")),
        };
        let lists = match &query.body {
            Body::Values(lists) => lists,
            _ => return Err(unsupported("INSERT ... SELECT")),
        };
        let at: usize = self.locate(name.as_str())?;
        assert(self@.tables[at as int] == self.tables@[at as int]@);
        let plan = resolve_conflict_plan(&self.tables[at].table.columns, on_insert)?;
        let targets = resolve_insert_targets(&self.tables[at].table.columns, names)?;
        let pending = fill_rows(f, &self.tables[at].table.columns, &targets, lists)?;
        let rows_affected: usize = self.insert_pending(f, at, pending, &plan)?;
        Ok(ExecutionResult::Command { tag: "INSERT", rows_affected })
    }
}

/// The name of the table that a source is, or the error that it is none.
pub open spec fn source_name(relation: RelationView) -> Result<Seq<char>, ErrorView> {
    match relation {
        RelationView::Table { name, called, decorated, alias, text } => if called {
            Err(ErrorView::Unsupported("table source "@ + text))
        } else {
            Ok(last_name(name))
        },
        RelationView::Other(text) => Err(ErrorView::Unsupported("table source "@ + text)),
    }
}

/// The name of the table that a source is, or the error that it is none.
pub fn table_factor_name(relation: &Relation) -> (result: Result<String, Error>)
    ensures
        outcome(result) == source_name(relation@),
{
    match relation {
        Relation::Table { name, called, decorated: _, alias: _, text } => {
            if *called {
                Err(Error::Unsupported(join2("table source ", text.as_str())))
            } else {
                Ok(object_name(name))
            }
        },
        Relation::Other(text) => Err(Error::Unsupported(join2("table source ", text.as_str()))),
    }
}

/// The rows from `from` on that the condition does not select, after `kept`.
pub open spec fn kept_rows(
    table: TableView,
    selection: Option<ExprView>,
    floats: Floats,
    from: nat,
    kept: Seq<Seq<ValueView>>,
) -> Result<Seq<Seq<ValueView>>, ErrorView>
    decreases table.rows.len() - from,
{
    if from >= table.rows.len() {
        Ok(kept)
    } else {
        match selects(selection, ScopeView::plain(table.columns, table.rows[from as int]), floats) {
            Err(error) => Err(error),
            Ok(deleted) => kept_rows(
                table,
                selection,
                floats,
                from + 1,
                if deleted {
                    kept
                } else {
                    kept.push(table.rows[from as int])
                },
            ),
        }
    }
}

/// What `DELETE` does to the catalog.
pub open spec fn deleted(
    catalog: CatalogView,
    from: Seq<TableWithJoinsView>,
    selection: Option<ExprView>,
    floats: Floats,
) -> Result<(CatalogView, ExecutionView), ErrorView> {
    if from.len() != 1 || from[0].joins.len() != 0 {
        Err(ErrorView::Unsupported("DELETE with joins or multiple tables"@))
    } else {
        match source_name(from[0].relation) {
            Err(error) => Err(error),
            Ok(name) => match catalog.located(name) {
                Err(error) => Err(error),
                Ok(at) => {
                    let table = catalog.tables[at as int].table;
                    match kept_rows(table, selection, floats, 0, Seq::empty()) {
                        Err(error) => Err(error),
                        Ok(kept) => {
                            let affected = (table.rows.len() - kept.len()) as nat;
                            Ok((catalog.with_rows(at, kept).changed_if(affected), command("DELETE"@, affected)))
                        },
                    }
                },
            },
        }
    }
}

/// Whether each of the rows is one of the table's, in the order of the table.
pub open spec fn rows_within(rows: Seq<Seq<ValueView>>, kept: Seq<Seq<ValueView>>, places: Seq<int>) -> bool {
    &&& places.len() == kept.len()
    &&& forall|i: int| 0 <= i < places.len() ==> 0 <= (#[trigger] places[i]) < rows.len() && kept[i] == rows[places[i]]
    &&& forall|i: int, j: int| 0 <= i < j < places.len() ==> (#[trigger] places[i]) < (#[trigger] places[j])
}

/// Some of a valid table's rows make a valid table.
pub proof fn lemma_rows_within(table: TableView, kept: Seq<Seq<ValueView>>, places: Seq<int>)
    requires
        table.valid(),
        rows_within(table.rows, kept, places),
    ensures
        table.with_rows(kept).valid(),
{
    assert forall|i: int| 0 <= i < kept.len() implies valid_row(table.columns, #[trigger] kept[i]) by {
        assert(kept[i] == table.rows[places[i]]);
    }
    assert forall|c: int| 0 <= c < table.columns.len() && (#[trigger] table.columns[c]).unique implies distinct_keys(
        kept,
        c,
    ) by {
        assert(distinct_keys(table.rows, c));
        assert forall|i: int, j: int|
            0 <= i < j < kept.len() && !(kept[i][c] is Null) && !(kept[j][c] is Null) implies key_of(
            #[trigger] kept[i][c],
        ) != key_of(#[trigger] kept[j][c]) by {
            assert(kept[i] == table.rows[places[i]]);
            assert(kept[j] == table.rows[places[j]]);
            assert(places[i] < places[j]);
            assert(table.rows[places[i]][c] == kept[i][c]);
            assert(table.rows[places[j]][c] == kept[j][c]);
        }
    }
}

fn keep_rows<F: Fn(FloatTask) -> FloatReply>(f: &F, table: &Table, selection: Option<&Expr>) -> (result: Result<
    Vec<Vec<Value>>,
    Error,
>)
    requires
        computes(*f),
        table.wf(),
    ensures
        match result {
            Ok(kept) => kept_rows(table@, borrowed(selection), floats(*f), 0, Seq::empty()) == Ok::<
                Seq<Seq<ValueView>>,
                ErrorView,
            >(row_views(kept@)) && table@.with_rows(row_views(kept@)).valid() && kept@.len() <= table.rows@.len(),
            Err(error) => kept_rows(table@, borrowed(selection), floats(*f), 0, Seq::empty()) == Err::<
                Seq<Seq<ValueView>>,
                ErrorView,
            >(error@),
        },
{
    let mut kept: Vec<Vec<Value>> = Vec::new();
    let ghost mut places: Seq<int> = Seq::empty();
    assert(row_views(kept@) =~= Seq::<Seq<ValueView>>::empty());
    let mut index: usize = 0;
    while index < table.rows.len()
        invariant
            computes(*f),
            table.wf(),
            index <= table.rows@.len(),
            kept@.len() <= index,
            rows_within(table@.rows, row_views(kept@), places),
            forall|i: int| 0 <= i < places.len() ==> (#[trigger] places[i]) < index,
            kept_rows(table@, borrowed(selection), floats(*f), index as nat, row_views(kept@)) == kept_rows(
                table@,
                borrowed(selection),
                floats(*f),
                0,
                Seq::empty(),
            ),
        decreases table.rows@.len() - index,
    {
        proof {
            assert(valid_row(table@.columns, table@.rows[index as int]));
            assert(table@.rows[index as int] == views(table.rows@[index as int]@));
        }
        let context = EvalContext::new(&table.columns, &table.rows[index]);
        let removed = is_selected(f, selection, &context)?;
        if !removed {
            let ghost before = row_views(kept@);
            let ghost old_places = places;
            let copy = copy_row(&table.rows[index]);
            kept.push(copy);
            proof {
                places = places.push(index as int);
                assert(row_views(kept@) == before.push(table@.rows[index as int]));
                assert forall|i: int| 0 <= i < places.len() implies 0 <= (#[trigger] places[i]) < table@.rows.len()
                    && row_views(kept@)[i] == table@.rows[places[i]] && places[i] < index + 1 by {
                    if i < old_places.len() {
                        assert(places[i] == old_places[i]);
                        assert(row_views(kept@)[i] == before[i]);
                    }
                }
                assert forall|i: int, j: int| 0 <= i < j < places.len() implies (#[trigger] places[i]) < (
                #[trigger] places[j]) by {
                    assert(places[i] == old_places[i]);
                    if j < old_places.len() {
                        assert(places[j] == old_places[j]);
                    }
                }
            }
        }
        index = index + 1;
    }
    proof {
        lemma_rows_within(table@, row_views(kept@), places);
    }
    Ok(kept)
}

/// The rows with the selected ones from `from` on updated, after `done`, and how many were.
pub open spec fn updated_rows(
    table: TableView,
    assignments: Seq<AssignmentView>,
    targets: Seq<usize>,
    selection: Option<ExprView>,
    floats: Floats,
    from: nat,
    done: Seq<Seq<ValueView>>,
    affected: nat,
) -> Result<(Seq<Seq<ValueView>>, nat), ErrorView>
    decreases table.rows.len() - from,
{
    if from >= table.rows.len() {
        Ok((done, affected))
    } else {
        let row = table.rows[from as int];
        let scope = ScopeView::plain(table.columns, row);
        match selects(selection, scope, floats) {
            Err(error) => Err(error),
            Ok(false) => updated_rows(table, assignments, targets, selection, floats, from + 1, done.push(row), affected),
            Ok(true) => match assigned_row(assignments, targets, scope, floats, 0, row) {
                Err(error) => Err(error),
                Ok(changed) => match null_checked(table.columns, changed, 0) {
                    Err(error) => Err(error),
                    Ok(_) => updated_rows(
                        table,
                        assignments,
                        targets,
                        selection,
                        floats,
                        from + 1,
                        done.push(changed),
                        affected + 1,
                    ),
                },
            },
        }
    }
}

/// What `UPDATE` does to the catalog.
pub open spec fn updated(
    catalog: CatalogView,
    source: TableWithJoinsView,
    assignments: Seq<AssignmentView>,
    selection: Option<ExprView>,
    floats: Floats,
) -> Result<(CatalogView, ExecutionView), ErrorView> {
    if source.joins.len() != 0 {
        Err(ErrorView::Unsupported("UPDATE with joins"@))
    } else if assignments.len() == 0 {
        Err(ErrorView::InvalidQuery("UPDATE requires at least one assignment"@))
    } else {
        match source_name(source.relation) {
            Err(error) => Err(error),
            Ok(name) => match catalog.located(name) {
                Err(error) => Err(error),
                Ok(at) => {
                    let table = catalog.tables[at as int].table;
                    match target_columns(
                        table.columns,
                        assigned_names(assignments),
                        ErrorView::InvalidQuery("empty UPDATE assignment"@),
                        0,
                        Seq::empty(),
                    ) {
                        Err(error) => Err(error),
                        Ok(targets) => match updated_rows(
                            table,
                            assignments,
                            targets,
                            selection,
                            floats,
                            0,
                            Seq::empty(),
                            0,
                        ) {
                            Err(error) => Err(error),
                            Ok((rows, affected)) => match unique_checked(table.columns, Seq::empty(), rows, 0) {
                                Err(error) => Err(error),
                                Ok(_) => Ok(
                                    (
                                        catalog.with_rows(at, rows).changed_if(affected),
                                        command("UPDATE"@, affected),
                                    ),
                                ),
                            },
                        },
                    }
                },
            },
        }
    }
}

fn update_rows<F: Fn(FloatTask) -> FloatReply>(
    f: &F,
    table: &Table,
    assignments: &Vec<Assignment>,
    targets: &Vec<usize>,
    selection: Option<&Expr>,
) -> (result: Result<(Vec<Vec<Value>>, usize), Error>)
    requires
        computes(*f),
        table.wf(),
        targets@.len() == assignments@.len(),
        forall|i: int| 0 <= i < targets@.len() ==> (#[trigger] targets@[i]) < table.columns@.len(),
    ensures
        match result {
            Ok((rows, affected)) => updated_rows(
                table@,
                views(assignments@),
                targets@,
                borrowed(selection),
                floats(*f),
                0,
                Seq::empty(),
                0,
            ) == Ok::<(Seq<Seq<ValueView>>, nat), ErrorView>((row_views(rows@), affected as nat)) && valid_rows(
                table@.columns,
                row_views(rows@),
            ),
            Err(error) => updated_rows(
                table@,
                views(assignments@),
                targets@,
                borrowed(selection),
                floats(*f),
                0,
                Seq::empty(),
                0,
            ) == Err::<(Seq<Seq<ValueView>>, nat), ErrorView>(error@),
        },
{
    let mut rows: Vec<Vec<Value>> = Vec::new();
    assert(row_views(rows@) =~= Seq::<Seq<ValueView>>::empty());
    let mut affected: usize = 0;
    let mut index: usize = 0;
    while index < table.rows.len()
        invariant
            computes(*f),
            table.wf(),
            targets@.len() == assignments@.len(),
            forall|i: int| 0 <= i < targets@.len() ==> (#[trigger] targets@[i]) < table.columns@.len(),
            index <= table.rows@.len(),
            affected <= index,
            valid_rows(table@.columns, row_views(rows@)),
            updated_rows(
                table@,
                views(assignments@),
                targets@,
                borrowed(selection),
                floats(*f),
                index as nat,
                row_views(rows@),
                affected as nat,
            ) == updated_rows(
                table@,
                views(assignments@),
                targets@,
                borrowed(selection),
                floats(*f),
                0,
                Seq::empty(),
                0,
            ),
        decreases table.rows@.len() - index,
    {
        let ghost row = table@.rows[index as int];
        let ghost before = row_views(rows@);
        proof {
            assert(valid_row(table@.columns, row));
            assert(row == views(table.rows@[index as int]@));
            lemma_valid_typed(table@.columns, row);
        }
        let context = EvalContext::new(&table.columns, &table.rows[index]);
        let matches = is_selected(f, selection, &context)?;
        let copy = copy_row(&table.rows[index]);
        if matches {
            let changed = assign_row(f, assignments, targets, &context, copy)?;
            validate_row(&table.columns, &changed)?;
            proof {
                lemma_checked_row(table@.columns, views(changed@));
            }
            rows.push(changed);
            affected = affected + 1;
        } else {
            rows.push(copy);
        }
        proof {
            assert forall|i: int| 0 <= i < rows@.len() implies valid_row(table@.columns, #[trigger] row_views(rows@)[i]) by {
                if i < before.len() {
                    assert(row_views(rows@)[i] == before[i]);
                }
            }
        }
        index = index + 1;
    }
    Ok((rows, affected))
}

impl Catalog {
    /// Puts other rows into the table at `at`.
    pub(crate) fn set_rows(&mut self, at: usize, rows: Vec<Vec<Value>>)
        requires
            old(self).wf(),
            at < old(self).tables@.len(),
            old(self)@.tables[at as int].table.with_rows(row_views(rows@)).valid(),
        ensures
            final(self).wf(),
            final(self)@ == old(self)@.with_rows(at as nat, row_views(rows@)),
    {
        let ghost before = self@;
        let ghost tables = self.tables@;
        assert(before.tables[at as int] == tables[at as int]@);
        self.tables[at].table.replace_rows(rows);
        proof {
            assert(self.tables@ == tables.update(at as int, self.tables@[at as int]));
            assert(self@.tables =~= before.with_rows(at as nat, row_views(rows@)).tables);
            lemma_rows_replaced(before, at as nat, row_views(rows@));
        }
    }

    /// `DELETE`. The whole condition is evaluated before any row is removed.
    pub fn delete<F: Fn(FloatTask) -> FloatReply>(
        &mut self,
        f: &F,
        from: &Vec<TableWithJoins>,
        selection: Option<&Expr>,
    ) -> (result: Result<ExecutionResult, Error>)
        requires
            computes(*f),
            old(self).wf(),
        ensures
            final(self).wf(),
            transition(
                old(self)@,
                final(self)@,
                result,
                deleted(old(self)@, views(from@), borrowed(selection), floats(*f)),
            ),
    {
        if from.len() != 1 || from[0].joins.len() != 0 {
            assert(from@.len() == 1 ==> views(from@)[0] == from@[0]@);
            return Err(unsupported("DELETE with joins or multiple tables"));
        }
        assert(views(from@)[0] == from@[0]@);
        let name = table_factor_name(&from[0].relation)?;
        let at: usize = self.locate(name.as_str())?;
        assert(self@.tables[at as int] == self.tables@[at as int]@);
        let kept = keep_rows(f, &self.tables[at].table, selection)?;
        let rows_affected: usize = self.tables[at].table.rows.len() - kept.len();
        self.set_rows(at, kept);
        if rows_affected > 0 {
            self.mark_changed();
        }
        Ok(ExecutionResult::Command { tag: "DELETE", rows_affected })
    }

    /// `UPDATE`. Every assigned value is computed from the row as it was, and all rows are checked
    /// before any is replaced.
    pub fn update<F: Fn(FloatTask) -> FloatReply>(
        &mut self,
        f: &F,
        source: &TableWithJoins,
        assignments: &Vec<Assignment>,
        selection: Option<&Expr>,
    ) -> (result: Result<ExecutionResult, Error>)
        requires
            computes(*f),
            old(self).wf(),
        ensures
            final(self).wf(),
            transition(
                old(self)@,
                final(self)@,
                result,
                updated(old(self)@, source@, views(assignments@), borrowed(selection), floats(*f)),
            ),
    {
        if source.joins.len() != 0 {
            return Err(unsupported("UPDATE with joins"));
        }
        if assignments.len() == 0 {
            return Err(invalid("UPDATE requires at least one assignment"));
        }
        let name = table_factor_name(&source.relation)?;
        let at: usize = self.locate(name.as_str())?;
        assert(self@.tables[at as int] == self.tables@[at as int]@);
        let names = assignment_names(assignments);
        assert(name_views(names@).len() == names@.len());
        let targets = resolve_targets(&self.tables[at].table.columns, &names, "empty UPDATE assignment")?;
        let (rows, rows_affected) = update_rows(f, &self.tables[at].table, assignments, &targets, selection)?;
        let total: usize = rows.len();
        proof {
            let columns = self@.tables[at as int].table.columns;
            assert forall|i: int| 0 <= i < rows@.len() implies (#[trigger] row_views(rows@)[i]).len() == columns.len() by {
                assert(valid_row(columns, row_views(rows@)[i]));
            }
        }
        validate_distinct(&self.tables[at].table.columns, &rows)?;
        proof {
            lemma_checked_table(self@.tables[at as int].table, row_views(rows@));
        }
        self.set_rows(at, rows);
        if rows_affected > 0 {
            self.mark_changed();
        }
        Ok(ExecutionResult::Command { tag: "UPDATE", rows_affected })
    }
}

} // verus!
