//! That a query reads what was written.

use vstd::prelude::*;
use crate::ast::{Distinct, QueryView, SelectItemView, SelectView};
use crate::candidate::{values_of, window, CandidateView};
use crate::catalog::{rows_inserted, CatalogView, QueryResultView};
use crate::error::ErrorView;
use crate::eval::{evaluated, ScopeView, SchemaView};
use crate::float::Floats;
use crate::projection::{column_reference, every_column, labels, projected, OutputView, ProjectionView};
use crate::read::{read_result, source};
use crate::select::{any_output_aggregates, output_types, output_values, outputs_known, row_candidates};
use crate::table::TableView;
use crate::text::normalized;
use crate::value::{column_position, ColumnView, DataType, ValueView};
use crate::write::PlanView;

verus! {

/// Whether a query asks for every column of every row.
pub open spec fn asks_for_all(select: SelectView, query: QueryView) -> bool {
    &&& select.distinct == Distinct::No
    &&& select.projection.len() == 1
    &&& (select.projection[0] matches SelectItemView::Wildcard { plain, .. } && plain)
    &&& select.selection is None
    &&& select.having is None
    &&& (select.group_by matches Some(phrases) && phrases.len() == 0)
    &&& query.order_by.len() == 0
    &&& query.limit is None
    &&& query.offset is None
}

/// Whether columns have different names, whatever the case of their letters.
pub open spec fn names_differ(columns: Seq<ColumnView>) -> bool {
    forall|i: int, j: int|
        0 <= i < j < columns.len() ==> normalized((#[trigger] columns[i]).name) != normalized((#[trigger] columns[j]).name)
}

proof fn lemma_normalized_again(text: Seq<char>)
    ensures
        normalized(normalized(text)) == normalized(text),
{
    assert(normalized(normalized(text)) =~= normalized(text));
}

proof fn lemma_own_column(columns: Seq<ColumnView>, at: int, from: nat)
    requires
        names_differ(columns),
        from <= at < columns.len(),
    ensures
        column_position(columns, normalized(columns[at].name), from) == Some(at as nat),
    decreases at - from,
{
    lemma_normalized_again(columns[at].name);
    if from < at {
        assert(normalized(columns[from as int].name) != normalized(columns[at].name));
        lemma_own_column(columns, at, from + 1);
    }
}

spec fn column_output(column: ColumnView) -> ProjectionView {
    ProjectionView { output: OutputView::Expr(column_reference(column.name)), label: column.name }
}

proof fn lemma_every_column(columns: Seq<ColumnView>, from: nat, done: Seq<ProjectionView>)
    requires
        from == done.len(),
        from <= columns.len(),
        forall|i: int| 0 <= i < from ==> done[i] == column_output(#[trigger] columns[i]),
    ensures
        every_column(columns, from, done).len() == columns.len(),
        forall|i: int| 0 <= i < columns.len() ==> every_column(columns, from, done)[i] == column_output(#[trigger] columns[i]),
    decreases columns.len() - from,
{
    if from < columns.len() {
        lemma_every_column(columns, from + 1, done.push(column_output(columns[from as int])));
    }
}

/// Whether the outputs are the columns.
spec fn outputs_are(projection: Seq<ProjectionView>, columns: Seq<ColumnView>) -> bool {
    &&& projection.len() == columns.len()
    &&& forall|i: int| 0 <= i < columns.len() ==> projection[i] == column_output(#[trigger] columns[i])
}

spec fn types_of(columns: Seq<ColumnView>) -> Seq<Option<DataType>> {
    columns.map_values(|column: ColumnView| Some(column.data_type))
}

proof fn lemma_checks(projection: Seq<ProjectionView>, columns: Seq<ColumnView>, floats: Floats, from: nat)
    requires
        outputs_are(projection, columns),
        names_differ(columns),
        from <= columns.len(),
    ensures
        output_types(projection, SchemaView::plain(columns), floats, from, types_of(columns).take(from as int)) == Ok::<
            Seq<Option<DataType>>,
            ErrorView,
        >(types_of(columns)),
        outputs_known(projection, SchemaView::plain(columns), from) is Ok,
        !any_output_aggregates(projection, from),
    decreases columns.len() - from,
{
    if from < columns.len() {
        lemma_own_column(columns, from as int, 0);
        assert(projection[from as int] == column_output(columns[from as int]));
        lemma_checks(projection, columns, floats, from + 1);
        assert(types_of(columns).take(from as int).push(Some(columns[from as int].data_type)) =~= types_of(columns).take(
            from as int + 1,
        ));
    } else {
        assert(types_of(columns).take(from as int) =~= types_of(columns));
    }
}

proof fn lemma_row_read(projection: Seq<ProjectionView>, columns: Seq<ColumnView>, row: Seq<ValueView>, floats: Floats, from: nat)
    requires
        outputs_are(projection, columns),
        names_differ(columns),
        row.len() == columns.len(),
        from <= columns.len(),
    ensures
        output_values(projection, ScopeView::plain(columns, row), floats, from, row.take(from as int)) == Ok::<
            Seq<ValueView>,
            ErrorView,
        >(row),
    decreases columns.len() - from,
{
    if from < columns.len() {
        lemma_own_column(columns, from as int, 0);
        assert(projection[from as int] == column_output(columns[from as int]));
        assert(evaluated(column_reference(columns[from as int].name), ScopeView::plain(columns, row), floats) == Ok::<
            ValueView,
            ErrorView,
        >(row[from as int]));
        lemma_row_read(projection, columns, row, floats, from + 1);
        assert(row.take(from as int).push(row[from as int]) =~= row.take(from as int + 1));
    } else {
        assert(row.take(from as int) =~= row);
    }
}

/// The candidates that are the rows themselves.
spec fn rows_as_candidates(rows: Seq<Seq<ValueView>>) -> Seq<CandidateView> {
    rows.map_values(|row: Seq<ValueView>| CandidateView { values: row, order: Seq::empty() })
}

proof fn lemma_rows_read(
    projection: Seq<ProjectionView>,
    columns: Seq<ColumnView>,
    rows: Seq<Seq<ValueView>>,
    floats: Floats,
    from: nat,
)
    requires
        outputs_are(projection, columns),
        names_differ(columns),
        forall|i: int| 0 <= i < rows.len() ==> (#[trigger] rows[i]).len() == columns.len(),
        from <= rows.len(),
    ensures
        row_candidates(
            columns,
            rows,
            None,
            projection,
            Seq::empty(),
            floats,
            from,
            rows_as_candidates(rows).take(from as int),
        ) == Ok::<Seq<CandidateView>, ErrorView>(rows_as_candidates(rows)),
    decreases rows.len() - from,
{
    let all = rows_as_candidates(rows);
    if from < rows.len() {
        let row = rows[from as int];
        lemma_row_read(projection, columns, row, floats, 0);
        assert(row.take(0) =~= Seq::<ValueView>::empty());
        lemma_rows_read(projection, columns, rows, floats, from + 1);
        assert(all.take(from as int).push(all[from as int]) =~= all.take(from as int + 1));
    } else {
        assert(all.take(from as int) =~= all);
    }
}

/// A query for all of a table gives its rows as they are stored, under the names and with the types of its columns.
pub proof fn law_all_rows_are_read(select: SelectView, query: QueryView, table: TableView, floats: Floats)
    requires
        asks_for_all(select, query),
        table.valid(),
        names_differ(table.columns),
    ensures
        read_result(select, query, source(Some(table), None, floats), floats) == Ok::<QueryResultView, ErrorView>(
            QueryResultView {
                columns: table.columns.map_values(|column: ColumnView| column.name),
                column_types: table.columns.map_values(|column: ColumnView| Some(column.data_type)),
                rows: table.rows,
                rows_examined: table.rows.len(),
            },
        ),
{
    let columns = table.columns;
    let none = Seq::<ProjectionView>::empty();
    let projection = every_column(columns, 0, none);
    lemma_every_column(columns, 0, none);
    reveal_with_fuel(projected, 2);
    assert(projected(select.projection, columns, 0, none) == Ok::<Seq<ProjectionView>, ErrorView>(projection));
    lemma_checks(projection, columns, floats, 0);
    assert(types_of(columns).take(0) =~= Seq::<Option<DataType>>::empty());
    lemma_rows_read(projection, columns, table.rows, floats, 0);
    let all = rows_as_candidates(table.rows);
    assert(all.take(0) =~= Seq::<CandidateView>::empty());
    assert(query.order_by =~= Seq::empty());
    assert(window(all, 0, None) =~= all);
    assert(values_of(all) =~= table.rows);
    assert(labels(projection) =~= columns.map_values(|column: ColumnView| column.name));
    assert(types_of(columns) =~= columns.map_values(|column: ColumnView| Some(column.data_type)));
}

/// Rows that were inserted are read behind those that were there before.
pub proof fn law_inserted_rows_are_read(
    select: SelectView,
    query: QueryView,
    catalog: CatalogView,
    at: nat,
    pending: Seq<Seq<ValueView>>,
    floats: Floats,
)
    requires
        asks_for_all(select, query),
        at < catalog.tables.len(),
        rows_inserted(catalog, at, pending, PlanView::Fail, floats) is Ok,
        rows_inserted(catalog, at, pending, PlanView::Fail, floats)->Ok_0.0.valid(),
        names_differ(catalog.tables[at as int].table.columns),
    ensures
        ({
            let after = rows_inserted(catalog, at, pending, PlanView::Fail, floats)->Ok_0.0;
            let table = after.tables[at as int].table;
            read_result(select, query, source(Some(table), None, floats), floats) matches Ok(result) && result.rows
                == catalog.tables[at as int].table.rows + pending
        }),
{
    let after = rows_inserted(catalog, at, pending, PlanView::Fail, floats)->Ok_0.0;
    assert(after.tables[at as int].table.valid());
    law_all_rows_are_read(select, query, after.tables[at as int].table, floats);
}

} // verus!
