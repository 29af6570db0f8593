//! Changes to a table's rows: insertion with its conflict clauses, update and deletion.

use vstd::prelude::*;
use crate::aggregate::rows_of_width;
use crate::ast::{ident_name, Assignment, AssignmentView, DoUpdate, DoUpdateView};
use crate::error::{invalid, Error, ErrorView};
use crate::eval::{evaluate, evaluated, is_selected, selects, EvalContext, ScopeView};
use crate::float::{computes, floats, FloatReply, FloatTask, Floats};
use crate::index::holder;
use crate::operators::{coerce, coerced};
use crate::table::{
    lemma_checked_row, lemma_checked_table, lemma_extended_table, null_checked, unique_checked, valid_row, valid_value,
    validate_distinct, validate_row, Table, TableView,
};
use crate::text::{decimal_count, decimal_text, join3, lemma_views_push, views};
use crate::value::{
    copy_row, copy_rows, find_column, found_column, is_same_value, key_of, lemma_row_views_push, row_views, same_value,
    type_of, Column, ColumnView, DataType, UniqueKey, Value, ValueView,
};

verus! {

broadcast use {vstd::string::group_string_axioms, lemma_views_push, lemma_row_views_push};

/// A coerced value is `NULL` or of the type that it was coerced to.
pub proof fn lemma_coerced_type(floats: Floats, value: ValueView, data_type: DataType)
    ensures
        coerced(floats, value, data_type) matches Ok(found) ==> found is Null || type_of(found) == Some(data_type),
{
}

/// The row's values from `from` on as values of the columns' types, after `done`.
pub open spec fn coerced_row(
    columns: Seq<ColumnView>,
    row: Seq<ValueView>,
    floats: Floats,
    from: nat,
    done: Seq<ValueView>,
) -> Result<Seq<ValueView>, ErrorView>
    decreases row.len() - from,
{
    if from >= row.len() || from >= columns.len() {
        Ok(done)
    } else {
        match coerced(floats, row[from as int], columns[from as int].data_type) {
            Err(error) => Err(error),
            Ok(value) => coerced_row(columns, row, floats, from + 1, done.push(value)),
        }
    }
}

/// A row given in schema order as a row of the table.
pub open spec fn typed_row(columns: Seq<ColumnView>, row: Seq<ValueView>, floats: Floats) -> Result<Seq<ValueView>, ErrorView> {
    if row.len() != columns.len() {
        Err(
            ErrorView::InvalidQuery(
                "typed insert row has "@ + decimal_text(row.len()) + " value(s), expected "@ + decimal_text(columns.len()),
            ),
        )
    } else {
        match coerced_row(columns, row, floats, 0, Seq::empty()) {
            Err(error) => Err(error),
            Ok(values) => match null_checked(columns, values, 0) {
                Err(error) => Err(error),
                Ok(_) => Ok(values),
            },
        }
    }
}

/// Rows from `from` on, given in schema order, as rows of the table, after `done`.
pub open spec fn typed_rows(
    columns: Seq<ColumnView>,
    rows: Seq<Seq<ValueView>>,
    floats: Floats,
    from: nat,
    done: Seq<Seq<ValueView>>,
) -> Result<Seq<Seq<ValueView>>, ErrorView>
    decreases rows.len() - from,
{
    if from >= rows.len() {
        Ok(done)
    } else {
        match typed_row(columns, rows[from as int], floats) {
            Err(error) => Err(error),
            Ok(row) => typed_rows(columns, rows, floats, from + 1, done.push(row)),
        }
    }
}

proof fn lemma_coerced_row(columns: Seq<ColumnView>, row: Seq<ValueView>, floats: Floats, from: nat, done: Seq<ValueView>)
    requires
        row.len() == columns.len(),
        done.len() == from,
        from <= row.len(),
        forall|c: int| 0 <= c < from ==> done[c] is Null || type_of(done[c]) == Some((#[trigger] columns[c]).data_type),
    ensures
        coerced_row(columns, row, floats, from, done) matches Ok(values) ==> values.len() == columns.len() && forall|
            c: int,
        |
            0 <= c < columns.len() ==> values[c] is Null || type_of(values[c]) == Some((#[trigger] columns[c]).data_type),
    decreases row.len() - from,
{
    if from < row.len() {
        lemma_coerced_type(floats, row[from as int], columns[from as int].data_type);
        if let Ok(value) = coerced(floats, row[from as int], columns[from as int].data_type) {
            lemma_coerced_row(columns, row, floats, from + 1, done.push(value));
        }
    }
}

/// A row accepted for insertion is valid.
pub proof fn lemma_typed_row(columns: Seq<ColumnView>, row: Seq<ValueView>, floats: Floats)
    ensures
        typed_row(columns, row, floats) matches Ok(values) ==> valid_row(columns, values),
{
    if row.len() == columns.len() {
        lemma_coerced_row(columns, row, floats, 0, Seq::empty());
        if let Ok(values) = typed_row(columns, row, floats) {
            lemma_checked_row(columns, values);
        }
    }
}

fn coerce_row<F: Fn(FloatTask) -> FloatReply>(f: &F, columns: &Vec<Column>, row: &Vec<Value>) -> (result: Result<
    Vec<Value>,
    Error,
>)
    requires
        computes(*f),
    ensures
        match result {
            Ok(values) => coerced_row(views(columns@), views(row@), floats(*f), 0, Seq::empty()) == Ok::<
                Seq<ValueView>,
                ErrorView,
            >(views(values@)),
            Err(error) => coerced_row(views(columns@), views(row@), floats(*f), 0, Seq::empty()) == Err::<
                Seq<ValueView>,
                ErrorView,
            >(error@),
        },
{
    let mut out: Vec<Value> = Vec::new();
    assert(views(out@) =~= Seq::<ValueView>::empty());
    let mut index: usize = 0;
    while index < row.len() && index < columns.len()
        invariant
            computes(*f),
            index <= row@.len(),
            index <= columns@.len(),
            coerced_row(views(columns@), views(row@), floats(*f), index as nat, views(out@)) == coerced_row(
                views(columns@),
                views(row@),
                floats(*f),
                0,
                Seq::empty(),
            ),
        decreases row@.len() - index,
    {
        let value = coerce(f, row[index].clone(), columns[index].data_type)?;
        out.push(value);
        index = index + 1;
    }
    Ok(out)
}

fn prepare_typed_row<F: Fn(FloatTask) -> FloatReply>(f: &F, columns: &Vec<Column>, row: &Vec<Value>) -> (result: Result<
    Vec<Value>,
    Error,
>)
    requires
        computes(*f),
    ensures
        match result {
            Ok(values) => typed_row(views(columns@), views(row@), floats(*f)) == Ok::<Seq<ValueView>, ErrorView>(
                views(values@),
            ),
            Err(error) => typed_row(views(columns@), views(row@), floats(*f)) == Err::<Seq<ValueView>, ErrorView>(error@),
        },
{
    if row.len() != columns.len() {
        let mut text = join3("typed insert row has ", decimal_count(row.len()).as_str(), " value(s), expected ");
        let expected = decimal_count(columns.len());
        text.append(expected.as_str());
        return Err(Error::InvalidQuery(text));
    }
    let values = coerce_row(f, columns, row)?;
    validate_row(columns, &values)?;
    Ok(values)
}

/// Rows given in schema order as rows of the table.
pub fn prepare_typed_rows<F: Fn(FloatTask) -> FloatReply>(f: &F, columns: &Vec<Column>, rows: &Vec<Vec<Value>>) -> (result:
    Result<Vec<Vec<Value>>, Error>)
    requires
        computes(*f),
    ensures
        match result {
            Ok(pending) => typed_rows(views(columns@), row_views(rows@), floats(*f), 0, Seq::empty()) == Ok::<
                Seq<Seq<ValueView>>,
                ErrorView,
            >(row_views(pending@)) && forall|i: int|
                0 <= i < pending@.len() ==> valid_row(views(columns@), #[trigger] row_views(pending@)[i]),
            Err(error) => typed_rows(views(columns@), row_views(rows@), floats(*f), 0, Seq::empty()) == Err::<
                Seq<Seq<ValueView>>,
                ErrorView,
            >(error@),
        },
{
    let mut out: Vec<Vec<Value>> = Vec::new();
    assert(row_views(out@) =~= Seq::<Seq<ValueView>>::empty());
    let mut index: usize = 0;
    while index < rows.len()
        invariant
            computes(*f),
            index <= rows@.len(),
            typed_rows(views(columns@), row_views(rows@), floats(*f), index as nat, row_views(out@)) == typed_rows(
                views(columns@),
                row_views(rows@),
                floats(*f),
                0,
                Seq::empty(),
            ),
            forall|i: int| 0 <= i < out@.len() ==> valid_row(views(columns@), #[trigger] row_views(out@)[i]),
        decreases rows@.len() - index,
    {
        assert(row_views(rows@)[index as int] == views(rows@[index as int]@));
        let row = prepare_typed_row(f, columns, &rows[index])?;
        proof {
            lemma_typed_row(views(columns@), views(rows@[index as int]@), floats(*f));
            let before = row_views(out@);
            assert forall|i: int| 0 <= i < out@.len() + 1 implies valid_row(
                views(columns@),
                #[trigger] before.push(views(row@))[i],
            ) by {
                if i < out@.len() {
                    assert(before.push(views(row@))[i] == before[i]);
                }
            }
        }
        out.push(row);
        index = index + 1;
    }
    Ok(out)
}

/// What happens to a row whose value in a unique column is already there.
pub enum InsertConflictPlan<'a> {
    Fail,
    DoNothing(Vec<usize>),
    DoUpdate { conflict_column: usize, update: &'a DoUpdate },
    ReplaceColumns { conflict_column: usize, update_columns: Vec<usize> },
}

#[allow(inconsistent_fields)]
pub enum PlanView {
    Fail,
    DoNothing(Seq<usize>),
    DoUpdate { conflict_column: usize, update: DoUpdateView },
    ReplaceColumns { conflict_column: usize, update_columns: Seq<usize> },
}

impl<'a> View for InsertConflictPlan<'a> {
    type V = PlanView;

    open spec fn view(&self) -> PlanView {
        match self {
            InsertConflictPlan::Fail => PlanView::Fail,
            InsertConflictPlan::DoNothing(columns) => PlanView::DoNothing(columns@),
            InsertConflictPlan::DoUpdate { conflict_column, update } => PlanView::DoUpdate {
                conflict_column: *conflict_column,
                update: update@,
            },
            InsertConflictPlan::ReplaceColumns { conflict_column, update_columns } => PlanView::ReplaceColumns {
                conflict_column: *conflict_column,
                update_columns: update_columns@,
            },
        }
    }
}

/// Whether a position is that of a unique column.
pub open spec fn unique_column(columns: Seq<ColumnView>, column: usize) -> bool {
    column < columns.len() && columns[column as int].unique
}

impl PlanView {
    /// Whether the plan's conflict columns are unique and its other columns exist.
    pub open spec fn valid(self, columns: Seq<ColumnView>) -> bool {
        match self {
            PlanView::Fail => true,
            PlanView::DoNothing(targets) => forall|i: int|
                0 <= i < targets.len() ==> unique_column(columns, #[trigger] targets[i]),
            PlanView::DoUpdate { conflict_column, update } => unique_column(columns, conflict_column),
            PlanView::ReplaceColumns { conflict_column, update_columns } => unique_column(columns, conflict_column)
                && forall|i: int| 0 <= i < update_columns.len() ==> (#[trigger] update_columns[i]) < columns.len(),
        }
    }
}

/// Whether some of the rows from `from` on holds an equal value in the column.
pub open spec fn holds_equal(rows: Seq<Seq<ValueView>>, column: int, value: ValueView, from: nat) -> bool
    decreases rows.len() - from,
{
    from < rows.len() && (same_value(rows[from as int][column], value) || holds_equal(rows, column, value, from + 1))
}

/// Whether a candidate conflicts, in one of the columns from `from` on, with a stored row or an
/// accepted one.
pub open spec fn conflicts(
    table: TableView,
    accepted: Seq<Seq<ValueView>>,
    candidate: Seq<ValueView>,
    columns: Seq<usize>,
    from: nat,
) -> bool
    decreases columns.len() - from,
{
    if from >= columns.len() {
        false
    } else {
        let column = columns[from as int] as int;
        let value = candidate[column];
        (!(value is Null) && (holder(table.rows, column, key_of(value), table.rows.len()) is Some || holds_equal(
            accepted,
            column,
            value,
            0,
        ))) || conflicts(table, accepted, candidate, columns, from + 1)
    }
}

/// The pending rows from `from` on that conflict with no stored or accepted row, after `accepted`.
pub open spec fn accepted_rows(
    table: TableView,
    pending: Seq<Seq<ValueView>>,
    columns: Seq<usize>,
    from: nat,
    accepted: Seq<Seq<ValueView>>,
) -> Seq<Seq<ValueView>>
    decreases pending.len() - from,
{
    if from >= pending.len() {
        accepted
    } else if conflicts(table, accepted, pending[from as int], columns, 0) {
        accepted_rows(table, pending, columns, from + 1, accepted)
    } else {
        accepted_rows(table, pending, columns, from + 1, accepted.push(pending[from as int]))
    }
}

fn rows_hold_equal(rows: &Vec<Vec<Value>>, column: usize, value: &Value) -> (result: bool)
    requires
        forall|i: int| 0 <= i < rows@.len() ==> (#[trigger] rows@[i])@.len() > column,
    ensures
        result == holds_equal(row_views(rows@), column as int, value@, 0),
{
    let mut index: usize = 0;
    while index < rows.len()
        invariant
            forall|i: int| 0 <= i < rows@.len() ==> (#[trigger] rows@[i])@.len() > column,
            index <= rows@.len(),
            holds_equal(row_views(rows@), column as int, value@, index as nat) == holds_equal(
                row_views(rows@),
                column as int,
                value@,
                0,
            ),
        decreases rows@.len() - index,
    {
        assert(row_views(rows@)[index as int] == views(rows@[index as int]@));
        if is_same_value(&rows[index][column], value) {
            return true;
        }
        index = index + 1;
    }
    false
}

fn row_conflicts(table: &Table, accepted: &Vec<Vec<Value>>, candidate: &Vec<Value>, columns: &Vec<usize>) -> (result: bool)
    requires
        table.wf(),
        rows_of_width(row_views(accepted@), table.columns@.len()),
        candidate@.len() == table.columns@.len(),
        forall|i: int| 0 <= i < columns@.len() ==> unique_column(table@.columns, #[trigger] columns@[i]),
    ensures
        result == conflicts(table@, row_views(accepted@), views(candidate@), columns@, 0),
{
    proof {
        assert forall|i: int| 0 <= i < accepted@.len() implies (#[trigger] accepted@[i])@.len() == table.columns@.len() by {
            assert(row_views(accepted@)[i].len() == table.columns@.len());
            assert(row_views(accepted@)[i] == views(accepted@[i]@));
        }
    }
    let mut index: usize = 0;
    while index < columns.len()
        invariant
            table.wf(),
            forall|i: int| 0 <= i < accepted@.len() ==> (#[trigger] accepted@[i])@.len() == table.columns@.len(),
            candidate@.len() == table.columns@.len(),
            forall|i: int| 0 <= i < columns@.len() ==> unique_column(table@.columns, #[trigger] columns@[i]),
            index <= columns@.len(),
            conflicts(table@, row_views(accepted@), views(candidate@), columns@, index as nat) == conflicts(
                table@,
                row_views(accepted@),
                views(candidate@),
                columns@,
                0,
            ),
        decreases columns@.len() - index,
    {
        let column: usize = columns[index];
        assert(unique_column(table@.columns, column));
        let value = &candidate[column];
        assert(views(candidate@)[column as int] == value@);
        if !value.is_null() {
            let key = UniqueKey::of(value);
            assert(table@.columns[column as int] == table.columns@[column as int]@);
            let stored = match &table.unique_keys[column] {
                Some(map) => map.lookup(&key).is_some(),
                None => false,
            };
            if stored || rows_hold_equal(accepted, column, value) {
                return true;
            }
        }
        index = index + 1;
    }
    false
}

/// The first of the rows, from `from` on, with an equal value in the column.
pub open spec fn equal_position(rows: Seq<Seq<ValueView>>, column: int, value: ValueView, from: nat) -> Option<nat>
    decreases rows.len() - from,
{
    if from >= rows.len() {
        None
    } else if same_value(rows[from as int][column], value) {
        Some(from)
    } else {
        equal_position(rows, column, value, from + 1)
    }
}

/// The stored row with which a pending row conflicts.
pub open spec fn conflict_position(rows: Seq<Seq<ValueView>>, column: int, pending: Seq<ValueView>) -> Option<nat> {
    if pending[column] is Null {
        None
    } else {
        equal_position(rows, column, pending[column], 0)
    }
}

/// The columns that assignments or a list name, from `from` on, after `done`. Each is named once.
pub open spec fn target_columns(
    columns: Seq<ColumnView>,
    names: Seq<Option<Seq<char>>>,
    missing: ErrorView,
    from: nat,
    done: Seq<usize>,
) -> Result<Seq<usize>, ErrorView>
    decreases names.len() - from,
{
    if from >= names.len() {
        Ok(done)
    } else {
        match names[from as int] {
            None => Err(missing),
            Some(name) => if names.take(from as int).contains(Some(name)) {
                Err(ErrorView::DuplicateColumn(name))
            } else {
                match found_column(columns, name) {
                    Err(error) => Err(error),
                    Ok(index) => target_columns(columns, names, missing, from + 1, done.push(index as usize)),
                }
            },
        }
    }
}

/// The names as views.
pub open spec fn name_views(names: Seq<Option<String>>) -> Seq<Option<Seq<char>>> {
    names.map_values(
        |name: Option<String>|
            match name {
                Some(name) => Some(name@),
                None => None,
            },
    )
}

/// The columns that names denote, each named once; `missing` is the error for a missing name.
pub fn resolve_targets(columns: &Vec<Column>, names: &Vec<Option<String>>, missing: &str) -> (result: Result<
    Vec<usize>,
    Error,
>)
    ensures
        match result {
            Ok(targets) => target_columns(
                views(columns@),
                name_views(names@),
                ErrorView::InvalidQuery(missing@),
                0,
                Seq::empty(),
            ) == Ok::<Seq<usize>, ErrorView>(targets@) && targets@.len() == names@.len() && forall|i: int|
                0 <= i < targets@.len() ==> (#[trigger] targets@[i]) < columns@.len(),
            Err(error) => target_columns(
                views(columns@),
                name_views(names@),
                ErrorView::InvalidQuery(missing@),
                0,
                Seq::empty(),
            ) == Err::<Seq<usize>, ErrorView>(error@),
        },
{
    let ghost all = name_views(names@);
    let mut targets: Vec<usize> = Vec::new();
    let mut index: usize = 0;
    while index < names.len()
        invariant
            all == name_views(names@),
            index <= names@.len(),
            targets@.len() == index,
            forall|i: int| 0 <= i < targets@.len() ==> (#[trigger] targets@[i]) < columns@.len(),
            target_columns(views(columns@), all, ErrorView::InvalidQuery(missing@), index as nat, targets@)
                == target_columns(views(columns@), all, ErrorView::InvalidQuery(missing@), 0, Seq::empty()),
        decreases names@.len() - index,
    {
        let name = match &names[index] {
            Some(name) => name,
            None => {
                assert(all[index as int] is None);
                return Err(invalid(missing));
            },
        };
        assert(all[index as int] == Some(name@));
        let mut earlier: usize = 0;
        while earlier < index
            invariant
                all == name_views(names@),
                earlier <= index < names@.len(),
                all[index as int] == Some(name@),
                target_columns(views(columns@), all, ErrorView::InvalidQuery(missing@), index as nat, targets@)
                    == target_columns(views(columns@), all, ErrorView::InvalidQuery(missing@), 0, Seq::empty()),
                forall|i: int| 0 <= i < earlier ==> all[i] != Some(name@),
            decreases index - earlier,
        {
            if let Some(other) = &names[earlier] {
                if *other == *name {
                    proof {
                        assert(all.take(index as int)[earlier as int] == Some(name@));
                        assert(all.take(index as int).contains(Some(name@)));
                    }
                    return Err(Error::DuplicateColumn(name.clone()));
                }
            }
            earlier = earlier + 1;
        }
        assert(!all.take(index as int).contains(Some(name@))) by {
            if all.take(index as int).contains(Some(name@)) {
                let i = choose|i: int| 0 <= i < index && all.take(index as int)[i] == Some(name@);
                assert(all[i] == Some(name@));
            }
        }
        let column: usize = find_column(columns, name.as_str())?;
        targets.push(column);
        index = index + 1;
    }
    Ok(targets)
}

/// The names that assignments give to, by the last part of each target.
pub open spec fn assigned_names(assignments: Seq<AssignmentView>) -> Seq<Option<Seq<char>>> {
    assignments.map_values(
        |assignment: AssignmentView|
            if assignment.target.len() == 0 {
                None
            } else {
                Some(assignment.target.last().name())
            },
    )
}

/// The names that assignments give to, by the last part of each target.
pub fn assignment_names(assignments: &Vec<Assignment>) -> (names: Vec<Option<String>>)
    ensures
        name_views(names@) == assigned_names(views(assignments@)),
{
    let mut names: Vec<Option<String>> = Vec::new();
    let mut index: usize = 0;
    while index < assignments.len()
        invariant
            index <= assignments@.len(),
            names@.len() == index,
            forall|i: int|
                0 <= i < index ==> #[trigger] name_views(names@)[i] == assigned_names(views(assignments@))[i],
        decreases assignments@.len() - index,
    {
        let target = &assignments[index].target;
        let ghost before = name_views(names@);
        assert(views(assignments@)[index as int].target == views(target@));
        let name = if target.len() == 0 {
            None
        } else {
            Some(ident_name(&target[target.len() - 1]))
        };
        names.push(name);
        proof {
            assert forall|i: int| 0 <= i < index + 1 implies #[trigger] name_views(names@)[i] == assigned_names(
                views(assignments@),
            )[i] by {
                if i < index {
                    assert(name_views(names@)[i] == before[i]);
                }
            }
        }
        index = index + 1;
    }
    assert(name_views(names@) =~= assigned_names(views(assignments@)));
    names
}

/// The row with the assignments from `from` on made to it; every value is computed in one scope.
pub open spec fn assigned_row(
    assignments: Seq<AssignmentView>,
    targets: Seq<usize>,
    scope: ScopeView,
    floats: Floats,
    from: nat,
    row: Seq<ValueView>,
) -> Result<Seq<ValueView>, ErrorView>
    decreases assignments.len() - from,
{
    if from >= assignments.len() {
        Ok(row)
    } else {
        match evaluated(assignments[from as int].value, scope, floats) {
            Err(error) => Err(error),
            Ok(value) => match coerced(
                floats,
                value,
                scope.schema.columns[targets[from as int] as int].data_type,
            ) {
                Err(error) => Err(error),
                Ok(value) => assigned_row(
                    assignments,
                    targets,
                    scope,
                    floats,
                    from + 1,
                    row.update(targets[from as int] as int, value),
                ),
            },
        }
    }
}

/// Whether each value of a row is `NULL` or of its column's type.
pub open spec fn typed_values(columns: Seq<ColumnView>, row: Seq<ValueView>) -> bool {
    &&& row.len() == columns.len()
    &&& forall|c: int|
        0 <= c < columns.len() ==> row[c] is Null || type_of(row[c]) == Some((#[trigger] columns[c]).data_type)
}

pub proof fn lemma_valid_typed(columns: Seq<ColumnView>, row: Seq<ValueView>)
    requires
        valid_row(columns, row),
    ensures
        typed_values(columns, row),
{
    assert forall|c: int| 0 <= c < columns.len() implies row[c] is Null || type_of(row[c]) == Some(
        (#[trigger] columns[c]).data_type,
    ) by {
        assert(valid_value(columns[c], row[c]));
    }
}

pub fn assign_row<F: Fn(FloatTask) -> FloatReply>(
    f: &F,
    assignments: &Vec<Assignment>,
    targets: &Vec<usize>,
    context: &EvalContext<'_>,
    given: Vec<Value>,
) -> (result: Result<Vec<Value>, Error>)
    requires
        computes(*f),
        context@.valid(),
        targets@.len() == assignments@.len(),
        forall|i: int| 0 <= i < targets@.len() ==> (#[trigger] targets@[i]) < context@.schema.columns.len(),
        typed_values(context@.schema.columns, views(given@)),
    ensures
        match result {
            Ok(values) => assigned_row(views(assignments@), targets@, context@, floats(*f), 0, views(given@)) == Ok::<
                Seq<ValueView>,
                ErrorView,
            >(views(values@)) && typed_values(context@.schema.columns, views(values@)),
            Err(error) => assigned_row(views(assignments@), targets@, context@, floats(*f), 0, views(given@)) == Err::<
                Seq<ValueView>,
                ErrorView,
            >(error@),
        },
{
    let ghost start = views(given@);
    let mut row = given;
    let mut index: usize = 0;
    while index < assignments.len()
        invariant
            computes(*f),
            start == views(given@),
            context@.valid(),
            targets@.len() == assignments@.len(),
            forall|i: int| 0 <= i < targets@.len() ==> (#[trigger] targets@[i]) < context@.schema.columns.len(),
            typed_values(context@.schema.columns, views(row@)),
            index <= assignments@.len(),
            assigned_row(views(assignments@), targets@, context@, floats(*f), index as nat, views(row@)) == assigned_row(
                views(assignments@),
                targets@,
                context@,
                floats(*f),
                0,
                start,
            ),
        decreases assignments@.len() - index,
    {
        let ghost before = views(row@);
        let value = evaluate(f, &assignments[index].value, context)?;
        let target: usize = targets[index];
        assert(context@.schema.columns[target as int] == context.schema.columns@[target as int]@);
        let value = coerce(f, value, context.schema.columns[target].data_type)?;
        proof {
            lemma_coerced_type(
                floats(*f),
                evaluated(views(assignments@)[index as int].value, context@, floats(*f))->Ok_0,
                context@.schema.columns[target as int].data_type,
            );
        }
        let ghost set = value@;
        row[target] = value;
        proof {
            assert(views(row@) =~= before.update(target as int, set));
        }
        index = index + 1;
    }
    Ok(row)
}

/// What replaces a stored row when a pending row conflicts with it.
pub enum Replacement<'a> {
    Assign(&'a DoUpdate, Vec<usize>),
    Copy(&'a Vec<usize>),
}

pub enum ReplacementView {
    Assign(DoUpdateView, Seq<usize>),
    Copy(Seq<usize>),
}

impl<'a> View for Replacement<'a> {
    type V = ReplacementView;

    open spec fn view(&self) -> ReplacementView {
        match self {
            Replacement::Assign(update, targets) => ReplacementView::Assign(update@, targets@),
            Replacement::Copy(columns) => ReplacementView::Copy(columns@),
        }
    }
}

impl ReplacementView {
    pub open spec fn valid(self, columns: Seq<ColumnView>) -> bool {
        match self {
            ReplacementView::Assign(update, targets) => targets.len() == update.assignments.len() && forall|i: int|
                0 <= i < targets.len() ==> (#[trigger] targets[i]) < columns.len(),
            ReplacementView::Copy(copied) => forall|i: int|
                0 <= i < copied.len() ==> (#[trigger] copied[i]) < columns.len(),
        }
    }
}

/// The row with the columns from `from` on copied from another row.
pub open spec fn copied_row(excluded: Seq<ValueView>, copied: Seq<usize>, from: nat, row: Seq<ValueView>) -> Seq<ValueView>
    decreases copied.len() - from,
{
    if from >= copied.len() {
        row
    } else {
        let column = copied[from as int] as int;
        copied_row(excluded, copied, from + 1, row.update(column, excluded[column]))
    }
}

/// The row in place of a stored one; none where the stored row stays.
pub open spec fn replaced_row(
    columns: Seq<ColumnView>,
    replacement: ReplacementView,
    existing: Seq<ValueView>,
    excluded: Seq<ValueView>,
    floats: Floats,
) -> Result<Option<Seq<ValueView>>, ErrorView> {
    match replacement {
        ReplacementView::Copy(copied) => Ok(Some(copied_row(excluded, copied, 0, existing))),
        ReplacementView::Assign(update, targets) => {
            let scope = ScopeView::upsert(columns, existing, excluded);
            match selects(update.selection, scope, floats) {
                Err(error) => Err(error),
                Ok(false) => Ok(None),
                Ok(true) => match assigned_row(update.assignments, targets, scope, floats, 0, existing) {
                    Err(error) => Err(error),
                    Ok(row) => Ok(Some(row)),
                },
            }
        },
    }
}

fn replace_row<F: Fn(FloatTask) -> FloatReply>(
    f: &F,
    columns: &Vec<Column>,
    replacement: &Replacement<'_>,
    existing: &Vec<Value>,
    excluded: &Vec<Value>,
) -> (result: Result<Option<Vec<Value>>, Error>)
    requires
        computes(*f),
        replacement@.valid(views(columns@)),
        typed_values(views(columns@), views(existing@)),
        typed_values(views(columns@), views(excluded@)),
    ensures
        match result {
            Ok(Some(row)) => replaced_row(
                views(columns@),
                replacement@,
                views(existing@),
                views(excluded@),
                floats(*f),
            ) == Ok::<Option<Seq<ValueView>>, ErrorView>(Some(views(row@))) && typed_values(
                views(columns@),
                views(row@),
            ),
            Ok(None) => replaced_row(
                views(columns@),
                replacement@,
                views(existing@),
                views(excluded@),
                floats(*f),
            ) == Ok::<Option<Seq<ValueView>>, ErrorView>(None),
            Err(error) => replaced_row(
                views(columns@),
                replacement@,
                views(existing@),
                views(excluded@),
                floats(*f),
            ) == Err::<Option<Seq<ValueView>>, ErrorView>(error@),
        },
{
    match replacement {
        Replacement::Copy(copied) => {
            let mut row = copy_row(existing);
            let mut index: usize = 0;
            while index < copied.len()
                invariant
                    forall|i: int| 0 <= i < copied@.len() ==> (#[trigger] copied@[i]) < columns@.len(),
                    typed_values(views(columns@), views(row@)),
                    typed_values(views(columns@), views(excluded@)),
                    index <= copied@.len(),
                    copied_row(views(excluded@), copied@, index as nat, views(row@)) == copied_row(
                        views(excluded@),
                        copied@,
                        0,
                        views(existing@),
                    ),
                decreases copied@.len() - index,
            {
                let column: usize = copied[index];
                let ghost before = views(row@);
                assert(views(excluded@)[column as int] == excluded@[column as int]@);
                assert(views(columns@)[column as int] == columns@[column as int]@);
                let value = excluded[column].clone();
                let ghost set = value@;
                row[column] = value;
                assert(views(row@) =~= before.update(column as int, set));
                index = index + 1;
            }
            Ok(Some(row))
        },
        Replacement::Assign(update, targets) => {
            let context = EvalContext::upsert(columns, existing, excluded);
            let condition = match &update.selection {
                Some(expression) => Some(expression),
                None => None,
            };
            if !is_selected(f, condition, &context)? {
                return Ok(None);
            }
            let row = assign_row(f, &update.assignments, targets, &context, copy_row(existing))?;
            Ok(Some(row))
        },
    }
}

/// What an upsert makes of the stored rows with the pending rows from `from` on: the rows, which
/// of them it touched, and how many it changed or added.
pub open spec fn upserted(
    columns: Seq<ColumnView>,
    pending: Seq<Seq<ValueView>>,
    conflict_column: usize,
    replacement: ReplacementView,
    floats: Floats,
    from: nat,
    rows: Seq<Seq<ValueView>>,
    touched: Seq<bool>,
    affected: nat,
) -> Result<(Seq<Seq<ValueView>>, nat), ErrorView>
    decreases pending.len() - from,
{
    if from >= pending.len() {
        Ok((rows, affected))
    } else {
        match conflict_position(rows, conflict_column as int, pending[from as int]) {
            None => upserted(
                columns,
                pending,
                conflict_column,
                replacement,
                floats,
                from + 1,
                rows.push(pending[from as int]),
                touched.push(true),
                affected + 1,
            ),
            Some(at) => if touched[at as int] {
                Err(ErrorView::InvalidQuery("ON CONFLICT DO UPDATE cannot affect the same row twice"@))
            } else {
                match replaced_row(columns, replacement, rows[at as int], pending[from as int], floats) {
                    Err(error) => Err(error),
                    Ok(None) => upserted(
                        columns,
                        pending,
                        conflict_column,
                        replacement,
                        floats,
                        from + 1,
                        rows,
                        touched.update(at as int, true),
                        affected,
                    ),
                    Ok(Some(row)) => match null_checked(columns, row, 0) {
                        Err(error) => Err(error),
                        Ok(_) => upserted(
                            columns,
                            pending,
                            conflict_column,
                            replacement,
                            floats,
                            from + 1,
                            rows.update(at as int, row),
                            touched.update(at as int, true),
                            affected + 1,
                        ),
                    },
                }
            },
        }
    }
}

pub open spec fn nothing_touched(count: nat) -> Seq<bool> {
    Seq::new(count, |i: int| false)
}

/// The rows and the number of changed ones after an upsert, all of whose rows must be distinct in
/// the unique columns.
pub open spec fn upsert_outcome(
    table: TableView,
    pending: Seq<Seq<ValueView>>,
    conflict_column: usize,
    replacement: ReplacementView,
    floats: Floats,
) -> Result<(Seq<Seq<ValueView>>, nat), ErrorView> {
    match upserted(
        table.columns,
        pending,
        conflict_column,
        replacement,
        floats,
        0,
        table.rows,
        nothing_touched(table.rows.len()),
        0,
    ) {
        Err(error) => Err(error),
        Ok((rows, affected)) => match unique_checked(table.columns, Seq::empty(), rows, 0) {
            Err(error) => Err(error),
            Ok(_) => Ok((rows, affected)),
        },
    }
}

/// The rows and the number of changed ones after an insertion.
pub open spec fn insert_outcome(table: TableView, pending: Seq<Seq<ValueView>>, plan: PlanView, floats: Floats) -> Result<
    (Seq<Seq<ValueView>>, nat),
    ErrorView,
> {
    match plan {
        PlanView::Fail => match unique_checked(table.columns, table.rows, pending, 0) {
            Err(error) => Err(error),
            Ok(_) => Ok((table.rows + pending, pending.len())),
        },
        PlanView::DoNothing(columns) => {
            let accepted = accepted_rows(table, pending, columns, 0, Seq::empty());
            match unique_checked(table.columns, table.rows, accepted, 0) {
                Err(error) => Err(error),
                Ok(_) => Ok((table.rows + accepted, accepted.len())),
            }
        },
        PlanView::DoUpdate { conflict_column, update } => if update.assignments.len() == 0 {
            Err(ErrorView::InvalidQuery("ON CONFLICT DO UPDATE requires at least one assignment"@))
        } else {
            match target_columns(
                table.columns,
                assigned_names(update.assignments),
                ErrorView::InvalidQuery("empty ON CONFLICT assignment"@),
                0,
                Seq::empty(),
            ) {
                Err(error) => Err(error),
                Ok(targets) => upsert_outcome(
                    table,
                    pending,
                    conflict_column,
                    ReplacementView::Assign(update, targets),
                    floats,
                ),
            }
        },
        PlanView::ReplaceColumns { conflict_column, update_columns } => upsert_outcome(
            table,
            pending,
            conflict_column,
            ReplacementView::Copy(update_columns),
            floats,
        ),
    }
}

fn find_equal(rows: &Vec<Vec<Value>>, column: usize, value: &Value) -> (result: Option<usize>)
    requires
        forall|i: int| 0 <= i < rows@.len() ==> (#[trigger] rows@[i])@.len() > column,
    ensures
        match result {
            Some(at) => equal_position(row_views(rows@), column as int, value@, 0) == Some(at as nat) && at < rows@.len(),
            None => equal_position(row_views(rows@), column as int, value@, 0) is None,
        },
{
    let mut index: usize = 0;
    while index < rows.len()
        invariant
            forall|i: int| 0 <= i < rows@.len() ==> (#[trigger] rows@[i])@.len() > column,
            index <= rows@.len(),
            equal_position(row_views(rows@), column as int, value@, index as nat) == equal_position(
                row_views(rows@),
                column as int,
                value@,
                0,
            ),
        decreases rows@.len() - index,
    {
        assert(row_views(rows@)[index as int] == views(rows@[index as int]@));
        if is_same_value(&rows[index][column], value) {
            return Some(index);
        }
        index = index + 1;
    }
    None
}

/// Whether all rows are valid.
pub open spec fn valid_rows(columns: Seq<ColumnView>, rows: Seq<Seq<ValueView>>) -> bool {
    forall|i: int| 0 <= i < rows.len() ==> valid_row(columns, #[trigger] rows[i])
}

#[verifier::rlimit(60)]
fn upsert_rows<F: Fn(FloatTask) -> FloatReply>(
    f: &F,
    table: &Table,
    pending: &Vec<Vec<Value>>,
    conflict_column: usize,
    replacement: &Replacement<'_>,
) -> (result: Result<(Vec<Vec<Value>>, usize), Error>)
    requires
        computes(*f),
        table.wf(),
        valid_rows(table@.columns, row_views(pending@)),
        conflict_column < table@.columns.len(),
        replacement@.valid(table@.columns),
    ensures
        match result {
            Ok((rows, affected)) => upsert_outcome(table@, row_views(pending@), conflict_column, replacement@, floats(*f))
                == Ok::<(Seq<Seq<ValueView>>, nat), ErrorView>((row_views(rows@), affected as nat)) && valid_rows(
                table@.columns,
                row_views(rows@),
            ),
            Err(error) => upsert_outcome(table@, row_views(pending@), conflict_column, replacement@, floats(*f)) == Err::<
                (Seq<Seq<ValueView>>, nat),
                ErrorView,
            >(error@),
        },
{
    let ghost columns = table@.columns;
    let ghost all = row_views(pending@);
    let mut rows = copy_rows(&table.rows);
    let mut touched: Vec<bool> = Vec::new();
    while touched.len() < rows.len()
        invariant
            touched@.len() <= rows@.len(),
            forall|i: int| 0 <= i < touched@.len() ==> !touched@[i],
        decreases rows@.len() - touched@.len(),
    {
        touched.push(false);
    }
    assert(touched@ =~= nothing_touched(table@.rows.len()));
    let mut affected: usize = 0;
    let mut index: usize = 0;
    while index < pending.len()
        invariant
            computes(*f),
            table.wf(),
            columns == table@.columns,
            all == row_views(pending@),
            valid_rows(columns, all),
            conflict_column < columns.len(),
            replacement@.valid(columns),
            valid_rows(columns, row_views(rows@)),
            touched@.len() == rows@.len(),
            index <= pending@.len(),
            affected <= index,
            upserted(
                columns,
                all,
                conflict_column,
                replacement@,
                floats(*f),
                index as nat,
                row_views(rows@),
                touched@,
                affected as nat,
            ) == upserted(
                columns,
                all,
                conflict_column,
                replacement@,
                floats(*f),
                0,
                table@.rows,
                nothing_touched(table@.rows.len()),
                0,
            ),
        decreases pending@.len() - index,
    {
        let excluded = &pending[index];
        proof {
            assert(all[index as int] == views(excluded@));
            assert(valid_row(columns, all[index as int]));
            assert forall|i: int| 0 <= i < rows@.len() implies (#[trigger] rows@[i])@.len() > conflict_column by {
                assert(valid_row(columns, row_views(rows@)[i]));
                assert(row_views(rows@)[i] == views(rows@[i]@));
            }
        }
        let value = &excluded[conflict_column];
        assert(views(excluded@)[conflict_column as int] == value@);
        let conflict = if value.is_null() {
            None
        } else {
            find_equal(&rows, conflict_column, value)
        };
        match conflict {
            None => {
                let ghost before = row_views(rows@);
                let copy = copy_row(excluded);
                rows.push(copy);
                touched.push(true);
                affected = affected + 1;
                proof {
                    assert(row_views(rows@) == before.push(all[index as int]));
                    assert forall|i: int| 0 <= i < rows@.len() implies valid_row(columns, #[trigger] row_views(rows@)[i]) by {
                        if i < before.len() {
                            assert(row_views(rows@)[i] == before[i]);
                        }
                    }
                }
            },
            Some(at) => {
                if touched[at] {
                    return Err(invalid("ON CONFLICT DO UPDATE cannot affect the same row twice"));
                }
                let ghost before = row_views(rows@);
                proof {
                    assert(before[at as int] == views(rows@[at as int]@));
                    assert(valid_row(columns, before[at as int]));
                    lemma_valid_typed(columns, before[at as int]);
                    lemma_valid_typed(columns, all[index as int]);
                }
                let replaced = replace_row(f, &table.columns, replacement, &rows[at], excluded)?;
                touched[at] = true;
                if let Some(row) = replaced {
                    validate_row(&table.columns, &row)?;
                    let ghost set = views(row@);
                    proof {
                        lemma_checked_row(columns, set);
                    }
                    rows[at] = row;
                    affected = affected + 1;
                    proof {
                        assert(row_views(rows@) =~= before.update(at as int, set));
                        assert forall|i: int| 0 <= i < rows@.len() implies valid_row(columns, #[trigger] row_views(rows@)[i]) by {
                            if i != at {
                                assert(row_views(rows@)[i] == before[i]);
                            }
                        }
                    }
                }
            },
        }
        index = index + 1;
    }
    proof {
        assert forall|i: int| 0 <= i < rows@.len() implies (#[trigger] row_views(rows@)[i]).len() == columns.len() by {
            assert(valid_row(columns, row_views(rows@)[i]));
        }
    }
    validate_distinct(&table.columns, &rows)?;
    Ok((rows, affected))
}

fn accept_rows(table: &Table, pending: &Vec<Vec<Value>>, columns: &Vec<usize>) -> (accepted: Vec<Vec<Value>>)
    requires
        table.wf(),
        valid_rows(table@.columns, row_views(pending@)),
        forall|i: int| 0 <= i < columns@.len() ==> unique_column(table@.columns, #[trigger] columns@[i]),
    ensures
        row_views(accepted@) == accepted_rows(table@, row_views(pending@), columns@, 0, Seq::empty()),
        valid_rows(table@.columns, row_views(accepted@)),
{
    let ghost all = row_views(pending@);
    let mut accepted: Vec<Vec<Value>> = Vec::new();
    assert(row_views(accepted@) =~= Seq::<Seq<ValueView>>::empty());
    let mut index: usize = 0;
    while index < pending.len()
        invariant
            table.wf(),
            all == row_views(pending@),
            valid_rows(table@.columns, all),
            forall|i: int| 0 <= i < columns@.len() ==> unique_column(table@.columns, #[trigger] columns@[i]),
            index <= pending@.len(),
            valid_rows(table@.columns, row_views(accepted@)),
            accepted_rows(table@, all, columns@, index as nat, row_views(accepted@)) == accepted_rows(
                table@,
                all,
                columns@,
                0,
                Seq::empty(),
            ),
        decreases pending@.len() - index,
    {
        proof {
            assert(all[index as int] == views(pending@[index as int]@));
            assert(valid_row(table@.columns, all[index as int]));
            assert forall|i: int| 0 <= i < accepted@.len() implies (#[trigger] row_views(accepted@)[i]).len()
                == table.columns@.len() by {
                assert(valid_row(table@.columns, row_views(accepted@)[i]));
            }
        }
        if !row_conflicts(table, &accepted, &pending[index], columns) {
            let ghost before = row_views(accepted@);
            let copy = copy_row(&pending[index]);
            accepted.push(copy);
            proof {
                assert forall|i: int| 0 <= i < accepted@.len() implies valid_row(
                    table@.columns,
                    #[trigger] row_views(accepted@)[i],
                ) by {
                    if i < before.len() {
                        assert(row_views(accepted@)[i] == before[i]);
                    }
                }
            }
        }
        index = index + 1;
    }
    accepted
}

/// Inserts the pending rows by the plan. A failure leaves the table as it was.
#[verifier::rlimit(60)]
pub fn apply_insert_plan<F: Fn(FloatTask) -> FloatReply>(
    f: &F,
    table: &mut Table,
    pending: Vec<Vec<Value>>,
    plan: &InsertConflictPlan<'_>,
) -> (result: Result<usize, Error>)
    requires
        computes(*f),
        old(table).wf(),
        valid_rows(old(table)@.columns, row_views(pending@)),
        plan@.valid(old(table)@.columns),
    ensures
        final(table).wf(),
        match result {
            Ok(count) => insert_outcome(old(table)@, row_views(pending@), plan@, floats(*f)) == Ok::<
                (Seq<Seq<ValueView>>, nat),
                ErrorView,
            >((final(table)@.rows, count as nat)) && final(table)@ == old(table)@.with_rows(final(table)@.rows),
            Err(error) => insert_outcome(old(table)@, row_views(pending@), plan@, floats(*f)) == Err::<
                (Seq<Seq<ValueView>>, nat),
                ErrorView,
            >(error@) && final(table)@ == old(table)@,
        },
{
    let ghost start = table@;
    let stored: usize = table.rows.len();
    match plan {
        InsertConflictPlan::Fail => {
            proof {
                assert forall|i: int| 0 <= i < pending@.len() implies (#[trigger] row_views(pending@)[i]).len()
                    == table.columns@.len() by {
                    assert(valid_row(start.columns, row_views(pending@)[i]));
                }
            }
            table.validate_unique(&pending)?;
            let count: usize = pending.len();
            proof {
                lemma_extended_table(start, row_views(pending@));
            }
            table.append_rows(pending);
            Ok(count)
        },
        InsertConflictPlan::DoNothing(columns) => {
            let accepted = accept_rows(table, &pending, columns);
            proof {
                assert forall|i: int| 0 <= i < accepted@.len() implies (#[trigger] row_views(accepted@)[i]).len()
                    == table.columns@.len() by {
                    assert(valid_row(start.columns, row_views(accepted@)[i]));
                }
            }
            table.validate_unique(&accepted)?;
            let count: usize = accepted.len();
            proof {
                lemma_extended_table(start, row_views(accepted@));
            }
            table.append_rows(accepted);
            Ok(count)
        },
        InsertConflictPlan::DoUpdate { conflict_column, update } => {
            if update.assignments.len() == 0 {
                return Err(invalid("ON CONFLICT DO UPDATE requires at least one assignment"));
            }
            let names = assignment_names(&update.assignments);
            assert(name_views(names@).len() == names@.len());
            let targets = resolve_targets(&table.columns, &names, "empty ON CONFLICT assignment")?;
            let replacement = Replacement::Assign(update, targets);
            let (rows, count) = upsert_rows(f, table, &pending, *conflict_column, &replacement)?;
            let total: usize = rows.len();
            proof {
                lemma_checked_table(start, row_views(rows@));
            }
            table.replace_rows(rows);
            Ok(count)
        },
        InsertConflictPlan::ReplaceColumns { conflict_column, update_columns } => {
            let replacement = Replacement::Copy(update_columns);
            let (rows, count) = upsert_rows(f, table, &pending, *conflict_column, &replacement)?;
            let total: usize = rows.len();
            proof {
                lemma_checked_table(start, row_views(rows@));
            }
            table.replace_rows(rows);
            Ok(count)
        },
    }
}

} // verus!
