//! Running a `SELECT` against the catalog.

use vstd::prelude::*;
use crate::aggregate::{picked_rows, rows_of_width, valid_positions};
use crate::ast::{
    optional, Body, BodyView, Distinct, Expr, ExprView, OrderView, Phrase, PhraseView, Query, QueryView, Select, SelectView,
    TableWithJoins, TableWithJoinsView,
};
use crate::candidate::{
    choose_rows, chosen_rows, deduplicate, deduplicated, optional_count, retained, retained_rows, rows_result,
};
use crate::catalog::{source_name, table_factor_name, Catalog, CatalogView, QueryResult, QueryResultView};
use crate::error::{invalid, outcome, plain, unsupported, Error, ErrorView};
use crate::eval::borrowed;
use crate::float::{computes, floats, FloatReply, FloatTask, Floats};
use crate::nearest::{fast_plan, nearest_rows, run_fast_vector_top_k, FastVectorTopKPlan};
use crate::projection::{copy_labels, labels};
use crate::query::{grouped_rows, run_aggregate_query};
use crate::scan::{index_candidates, indexed_candidate_rows, lemma_candidates_valid};
use crate::select::{
    any_output_aggregates, make_candidates, outputs_contain_aggregate, phrase_aggregates, phrase_contains_aggregate,
    plan_query, planned, row_candidates, Plan, QueryPlanView,
};
use crate::table::{lemma_valid_width, Table, TableView};
use crate::text::{lemma_views_push, views};
use crate::value::{lemma_row_views_push, row_views, Column, ColumnView, Value, ValueView};

verus! {

broadcast use {vstd::string::group_string_axioms, lemma_views_push, lemma_row_views_push};

/// The table that a query reads; none where it has no `FROM`.
pub open spec fn source_table(catalog: CatalogView, from: Seq<TableWithJoinsView>, joined: Seq<char>) -> Result<
    Option<nat>,
    ErrorView,
> {
    if from.len() == 0 {
        Ok(None)
    } else if from.len() == 1 && from[0].joins.len() == 0 {
        match source_name(from[0].relation) {
            Err(error) => Err(error),
            Ok(name) => match catalog.located(name) {
                Err(error) => Err(error),
                Ok(at) => Ok(Some(at)),
            },
        }
    } else {
        Err(ErrorView::Unsupported(joined))
    }
}

/// The table that a query reads; none where it has no `FROM`. `joined` is what is said of a join.
pub fn find_source_table(catalog: &Catalog, from: &Vec<TableWithJoins>, joined: &str) -> (result: Result<Option<usize>, Error>)
    ensures
        match result {
            Ok(at) => source_table(catalog@, views(from@), joined@) == Ok::<Option<nat>, ErrorView>(optional_count(at)) && (
            at matches Some(at) ==> at < catalog.tables@.len()),
            Err(error) => source_table(catalog@, views(from@), joined@) == Err::<Option<nat>, ErrorView>(error@),
        },
{
    if from.len() == 0 {
        return Ok(None);
    }
    assert(views(from@)[0] == from@[0]@);
    if from.len() == 1 && from[0].joins.len() == 0 {
        let name = table_factor_name(&from[0].relation)?;
        let at: usize = catalog.locate(name.as_str())?;
        Ok(Some(at))
    } else {
        Err(unsupported(joined))
    }
}

/// Whether a query has only clauses that can be run.
pub open spec fn query_extended() -> ErrorView {
    ErrorView::Unsupported("CTEs, LIMIT BY, FETCH, row locks, and FOR clauses"@)
}

/// The error for a `SELECT` with further clauses.
pub open spec fn select_advanced() -> ErrorView {
    ErrorView::Unsupported("TOP, SELECT INTO, and advanced SELECT clauses"@)
}

/// Fails exactly when a `SELECT` has a clause that cannot be run.
pub fn validate_select(select: &Select) -> (result: Result<(), Error>)
    ensures
        plain(result) == (if select@.advanced {
            Err::<(), ErrorView>(select_advanced())
        } else {
            Ok::<(), ErrorView>(())
        }),
{
    if select.advanced {
        Err(unsupported("TOP, SELECT INTO, and advanced SELECT clauses"))
    } else {
        Ok(())
    }
}

/// The positions below `count`.
pub open spec fn all_positions(count: nat) -> Seq<usize> {
    Seq::new(count, |i: int| i as usize)
}

pub open spec fn phrase_expr(phrase: Option<PhraseView>) -> Option<ExprView> {
    match phrase {
        Some(phrase) => Some(phrase.expr),
        None => None,
    }
}

/// What a query reads: the schema, the rows to be examined, and what is left of the condition.
pub struct SourceView {
    pub table: Option<TableView>,
    pub columns: Seq<ColumnView>,
    pub rows: Seq<Seq<ValueView>>,
    pub residual: Option<ExprView>,
}

/// What a query reads. Without a table that is one row without columns.
pub open spec fn source(table: Option<TableView>, selection: Option<PhraseView>, floats: Floats) -> SourceView {
    match table {
        None => SourceView { table, columns: Seq::empty(), rows: seq![Seq::empty()], residual: phrase_expr(selection) },
        Some(found) => match selection {
            None => SourceView { table, columns: found.columns, rows: found.rows, residual: None },
            Some(phrase) => match index_candidates(found, phrase.expr, floats) {
                None => SourceView { table, columns: found.columns, rows: found.rows, residual: Some(phrase.expr) },
                Some(candidates) => SourceView {
                    table,
                    columns: found.columns,
                    rows: picked_rows(found.rows, candidates.rows),
                    residual: if candidates.exact {
                        None
                    } else {
                        Some(phrase.expr)
                    },
                },
            },
        },
    }
}

/// Whether a query groups its rows.
pub open spec fn aggregates(plan: QueryPlanView, having: Option<PhraseView>) -> bool {
    plan.group_by.len() > 0 || any_output_aggregates(plan.projection, 0) || phrase_aggregates(having)
}

/// The rows of a query, row by row.
pub open spec fn plain_rows(
    plan: QueryPlanView,
    select: SelectView,
    items: Seq<OrderView>,
    read: SourceView,
    floats: Floats,
) -> Result<Seq<Seq<ValueView>>, ErrorView> {
    match retained(items.len() > 0, plan.offset, plan.limit) {
        Err(error) => Err(error),
        Ok(_) => match row_candidates(
            read.columns,
            read.rows,
            read.residual,
            plan.projection,
            items,
            floats,
            0,
            Seq::empty(),
        ) {
            Err(error) => Err(error),
            Ok(candidates) => chosen_rows(
                deduplicated(candidates, select.distinct != Distinct::No),
                items,
                plan.offset,
                plan.limit,
                floats,
            ),
        },
    }
}

/// The rows of a query without aggregates: the nearest ones where it is by distance and limited.
pub open spec fn ungrouped_rows(
    plan: QueryPlanView,
    select: SelectView,
    items: Seq<OrderView>,
    read: SourceView,
    floats: Floats,
) -> Result<Seq<Seq<ValueView>>, ErrorView> {
    match (read.table, plan.limit) {
        (Some(_), Some(limit)) => match fast_plan(
            select.distinct,
            items,
            read.columns,
            plan.projection,
            plan.offset,
            limit,
            floats,
        ) {
            Err(error) => Err(error),
            Ok(Some(fast)) => nearest_rows(
                fast,
                items,
                read.columns,
                read.rows,
                read.residual,
                plan.offset,
                limit,
                floats,
            ),
            Ok(None) => plain_rows(plan, select, items, read, floats),
        },
        _ => plain_rows(plan, select, items, read, floats),
    }
}

/// The rows of a checked query.
pub open spec fn planned_rows(
    plan: QueryPlanView,
    select: SelectView,
    items: Seq<OrderView>,
    read: SourceView,
    floats: Floats,
) -> Result<Seq<Seq<ValueView>>, ErrorView> {
    if aggregates(plan, select.having) {
        grouped_rows(plan, select, items, read.columns, read.rows, read.residual, floats)
    } else if select.having is Some {
        Err(ErrorView::InvalidQuery("HAVING requires GROUP BY or an aggregate expression"@))
    } else {
        ungrouped_rows(plan, select, items, read, floats)
    }
}

/// The result of a query over what it reads.
pub open spec fn read_result(select: SelectView, query: QueryView, read: SourceView, floats: Floats) -> Result<
    QueryResultView,
    ErrorView,
> {
    match planned(select, query, read.columns, floats) {
        Err(error) => Err(error),
        Ok(plan) => match planned_rows(plan, select, query.order_by, read, floats) {
            Err(error) => Err(error),
            Ok(rows) => Ok(
                QueryResultView {
                    columns: labels(plan.projection),
                    column_types: plan.types,
                    rows,
                    rows_examined: read.rows.len(),
                },
            ),
        },
    }
}

pub open spec fn table_at(catalog: CatalogView, at: Option<nat>) -> Option<TableView> {
    match at {
        Some(at) => Some(catalog.tables[at as int].table),
        None => None,
    }
}

/// The result of a query.
pub open spec fn query_result(catalog: CatalogView, query: QueryView, floats: Floats) -> Result<QueryResultView, ErrorView> {
    if query.extended {
        Err(query_extended())
    } else {
        match query.body {
            BodyView::Select(select) => if select.advanced {
                Err(select_advanced())
            } else {
                match source_table(catalog, select.from, "joins and multiple FROM items"@) {
                    Err(error) => Err(error),
                    Ok(at) => read_result(
                        select,
                        query,
                        source(table_at(catalog, at), select.selection, floats),
                        floats,
                    ),
                }
            },
            _ => Err(ErrorView::Unsupported("set operations and nested queries"@)),
        }
    }
}

fn positions(count: usize) -> (result: Vec<usize>)
    ensures
        result@ == all_positions(count as nat),
{
    let mut out: Vec<usize> = Vec::new();
    let mut index: usize = 0;
    while index < count
        invariant
            index <= count,
            out@.len() == index,
            forall|i: int| 0 <= i < index ==> (#[trigger] out@[i]) == i,
        decreases count - index,
    {
        out.push(index);
        index = index + 1;
    }
    assert(out@ =~= all_positions(count as nat));
    out
}

/// The rows to be examined, and whether the condition is met by all of them.
pub fn scan_table<F: Fn(FloatTask) -> FloatReply>(f: &F, table: &Table, selection: &Option<Phrase>) -> (result: (Vec<usize>, bool))
    requires
        computes(*f),
        table.wf(),
    ensures
        valid_positions(result.0@, table.rows@.len()),
        picked_rows(table@.rows, result.0@) == source(Some(table@), optional(*selection), floats(*f)).rows,
        source(Some(table@), optional(*selection), floats(*f)).residual == (if result.1 {
            None
        } else {
            phrase_expr(optional(*selection))
        }),
{
    if let Some(phrase) = selection {
        if let Some(candidates) = indexed_candidate_rows(f, table, &phrase.expr) {
            let total: usize = table.rows.len();
            proof {
                assert(table@.rows.len() == total);
                lemma_candidates_valid(table@, phrase.expr@, floats(*f));
            }
            return (candidates.rows, candidates.exact);
        }
    }
    let all = positions(table.rows.len());
    proof {
        assert(picked_rows(table@.rows, all@) =~= table@.rows);
    }
    (all, false)
}

/// The rows of a checked query.
fn run_planned<F: Fn(FloatTask) -> FloatReply>(
    f: &F,
    plan: &Plan<'_>,
    select: &Select,
    query: &Query,
    from_table: bool,
    columns: &Vec<Column>,
    rows: &Vec<Vec<Value>>,
    picked: &Vec<usize>,
    residual: Option<&Expr>,
    Ghost(read): Ghost<SourceView>,
) -> (result: Result<Vec<Vec<Value>>, Error>)
    requires
        computes(*f),
        rows_of_width(row_views(rows@), columns@.len()),
        valid_positions(picked@, rows@.len()),
        forall|i: int| 0 <= i < plan.projection@.len() ==> (#[trigger] plan@.projection[i]).output is Expr,
        read.columns == views(columns@),
        read.rows == picked_rows(row_views(rows@), picked@),
        read.residual == borrowed(residual),
        read.table is Some == from_table,
    ensures
        rows_result(result) == planned_rows(plan@, select@, query@.order_by, read, floats(*f)),
{
    let items = &query.order_by;
    if plan.group_by.len() > 0 || outputs_contain_aggregate(&plan.projection) || phrase_contains_aggregate(&select.having) {
        return run_aggregate_query(f, plan, select, items, columns, rows, picked, residual);
    }
    if select.having.is_some() {
        return Err(invalid("HAVING requires GROUP BY or an aggregate expression"));
    }
    if from_table {
        if let Some(limit) = plan.limit {
            if let Some(fast) = FastVectorTopKPlan::build(
                f,
                select.distinct,
                items,
                columns,
                &plan.projection,
                plan.offset,
                limit,
            )? {
                return run_fast_vector_top_k(f, &fast, items, columns, rows, picked, residual, plan.offset, limit);
            }
        }
    }
    retained_rows(items.len() > 0, plan.offset, plan.limit)?;
    let candidates = make_candidates(f, columns, rows, picked, residual, &plan.projection, items)?;
    let distinct = match select.distinct {
        Distinct::No => false,
        _ => true,
    };
    let candidates = deduplicate(candidates, distinct);
    choose_rows(f, &candidates, items, plan.offset, plan.limit)
}

fn run_source<F: Fn(FloatTask) -> FloatReply>(
    f: &F,
    select: &Select,
    query: &Query,
    from_table: bool,
    columns: &Vec<Column>,
    rows: &Vec<Vec<Value>>,
    picked: &Vec<usize>,
    residual: Option<&Expr>,
    Ghost(read): Ghost<SourceView>,
) -> (result: Result<QueryResult, Error>)
    requires
        computes(*f),
        rows_of_width(row_views(rows@), columns@.len()),
        valid_positions(picked@, rows@.len()),
        read.columns == views(columns@),
        read.rows == picked_rows(row_views(rows@), picked@),
        read.residual == borrowed(residual),
        read.table is Some == from_table,
    ensures
        outcome(result) == read_result(select@, query@, read, floats(*f)),
{
    let plan = plan_query(f, select, query, columns)?;
    let result_rows = run_planned(f, &plan, select, query, from_table, columns, rows, picked, residual, Ghost(read))?;
    let names = copy_labels(&plan.projection);
    Ok(QueryResult { columns: names, column_types: plan.types, rows: result_rows, rows_examined: picked.len() })
}

/// Runs a query.
pub fn run_query<F: Fn(FloatTask) -> FloatReply>(f: &F, catalog: &Catalog, query: &Query) -> (result: Result<QueryResult, Error>)
    requires
        computes(*f),
        catalog.wf(),
    ensures
        outcome(result) == query_result(catalog@, query@, floats(*f)),
{
    if query.extended {
        return Err(unsupported("CTEs, LIMIT BY, FETCH, row locks, and FOR clauses"));
    }
    let select = match &query.body {
        Body::Select(select) => select,
        _ => return Err(unsupported("set operations and nested queries")),
    };
    validate_select(select)?;
    match find_source_table(catalog, &select.from, "joins and multiple FROM items")? {
        Some(at) => {
            let table = &catalog.tables[at].table;
            assert(catalog@.tables[at as int] == catalog.tables@[at as int]@);
            proof {
                lemma_valid_width(table@);
            }
            let (picked, exact) = scan_table(f, table, &select.selection);
            let residual = match &select.selection {
                Some(phrase) => if exact {
                    None
                } else {
                    Some(&phrase.expr)
                },
                None => None,
            };
            let ghost read = source(Some(table@), optional(select.selection), floats(*f));
            run_source(f, select, query, true, &table.columns, &table.rows, &picked, residual, Ghost(read))
        },
        None => {
            let columns: Vec<Column> = Vec::new();
            let mut rows: Vec<Vec<Value>> = Vec::new();
            rows.push(Vec::new());
            let picked = positions(1);
            let residual = match &select.selection {
                Some(phrase) => Some(&phrase.expr),
                None => None,
            };
            let ghost read = source(None, optional(select.selection), floats(*f));
            proof {
                assert(views(columns@) =~= Seq::<ColumnView>::empty());
                assert(views(rows@[0]@) =~= Seq::<ValueView>::empty());
                assert(row_views(rows@) =~= seq![Seq::<ValueView>::empty()]);
                assert(picked_rows(row_views(rows@), picked@) =~= seq![Seq::<ValueView>::empty()]);
            }
            run_source(f, select, query, false, &columns, &rows, &picked, residual, Ghost(read))
        },
    }
}

/// The names and the types of a query's outputs, and the errors of its types, are those of the columns that it reads:
/// what rows there are does not matter to them.
pub proof fn law_types_ignore_rows(select: SelectView, query: QueryView, first: SourceView, second: SourceView, floats: Floats)
    requires
        first.columns == second.columns,
    ensures
        planned(select, query, first.columns, floats) matches Err(error) ==> read_result(select, query, first, floats) == Err::<
            QueryResultView,
            ErrorView,
        >(error) && read_result(select, query, second, floats) == Err::<QueryResultView, ErrorView>(error),
        (read_result(select, query, first, floats), read_result(select, query, second, floats)) matches (Ok(a), Ok(b))
            ==> a.columns == b.columns && a.column_types == b.column_types,
{
}

} // verus!
