//! `EXPLAIN`: the steps of a query as text.

use vstd::prelude::*;
use crate::ast::{
    optional, Body, BodyView, OrderItem, OrderView, Phrase, PhraseView, Query, QueryView, Select, SelectView,
};
use crate::candidate::{optional_count, retained, retained_rows};
use crate::catalog::{Catalog, CatalogView, QueryResult, QueryResultView};
use crate::error::{outcome, plain, unsupported, Error, ErrorView};
use crate::eval::{Schema, SchemaView};
use crate::float::{computes, floats, FloatReply, FloatTask, Floats};
use crate::nearest::{fast_plan, FastPlanView, FastVectorTopKPlan};
use crate::projection::{build_projection, copy_labels, labels, projected, Projection, ProjectionView};
use crate::read::{find_source_table, select_advanced, source_table, validate_select};
use crate::scan::{index_candidates, indexed_candidate_rows};
use crate::select::{
    aggregates_placed, any_output_aggregates, limit_value, offset_value, outputs_contain_aggregate, phrase_aggregates,
    phrase_contains_aggregate, query_limit, query_offset, validate_aggregate_placement,
};
use crate::table::{Table, TableView};
use crate::text::{
    decimal_count, decimal_text, join2, join3, join_all, joined, lemma_views_push, views,
};
use crate::types::{known_columns, validate_expression_columns};
use crate::value::{lemma_row_views_push, row_views, Column, ColumnView, DataType, Value, ValueView};

verus! {

broadcast use {vstd::string::group_string_axioms, lemma_views_push, lemma_row_views_push};

pub open spec fn order_texts(items: Seq<OrderView>) -> Seq<Seq<char>> {
    items.map_values(|item: OrderView| item.text)
}

pub open spec fn phrase_texts(phrases: Seq<PhraseView>) -> Seq<Seq<char>> {
    phrases.map_values(|phrase: PhraseView| phrase.text)
}

/// The notations of the items.
pub fn copy_order_texts(items: &Vec<OrderItem>) -> (result: Vec<String>)
    ensures
        views(result@) == order_texts(views(items@)),
{
    let mut out: Vec<String> = Vec::new();
    let mut index: usize = 0;
    while index < items.len()
        invariant
            index <= items@.len(),
            out@.len() == index,
            forall|i: int| 0 <= i < index ==> (#[trigger] out@[i])@ == items@[i].text@,
        decreases items@.len() - index,
    {
        out.push(items[index].text.clone());
        index = index + 1;
    }
    assert(views(out@) =~= order_texts(views(items@)));
    out
}

/// The notations of the phrases.
pub fn copy_phrase_texts(phrases: &Vec<Phrase>) -> (result: Vec<String>)
    ensures
        views(result@) == phrase_texts(views(phrases@)),
{
    let mut out: Vec<String> = Vec::new();
    let mut index: usize = 0;
    while index < phrases.len()
        invariant
            index <= phrases@.len(),
            out@.len() == index,
            forall|i: int| 0 <= i < index ==> (#[trigger] out@[i])@ == phrases@[i].text@,
        decreases phrases@.len() - index,
    {
        out.push(phrases[index].text.clone());
        index = index + 1;
    }
    assert(views(out@) =~= phrase_texts(views(phrases@)));
    out
}

/// How many rows the indexes of a table leave for a condition, and whether they cover it.
pub open spec fn index_use(table: TableView, selection: Option<PhraseView>, floats: Floats) -> Option<(nat, bool)> {
    match selection {
        None => None,
        Some(phrase) => match index_candidates(table, phrase.expr, floats) {
            Some(candidates) => Some((candidates.rows.len(), candidates.exact)),
            None => None,
        },
    }
}

/// The step that reads the rows.
pub open spec fn scan_step(catalog: CatalogView, at: Option<nat>, selection: Option<PhraseView>, floats: Floats) -> Seq<char> {
    match at {
        None => "Source: single row"@,
        Some(at) => {
            let entry = catalog.tables[at as int];
            match index_use(entry.table, selection, floats) {
                Some((count, _)) => "Scan: scalar hash index on "@ + entry.name + " ("@ + decimal_text(count) + " of "@
                    + decimal_text(entry.table.rows.len()) + " row(s))"@,
                None => "Scan: sequential on "@ + entry.name + " ("@ + decimal_text(entry.table.rows.len()) + " row(s))"@,
            }
        },
    }
}

/// Whether the indexes cover the condition.
pub open spec fn filter_covered(catalog: CatalogView, at: Option<nat>, selection: Option<PhraseView>, floats: Floats) -> bool {
    match at {
        None => false,
        Some(at) => index_use(catalog.tables[at as int].table, selection, floats) matches Some((_, exact)) && exact,
    }
}

/// The steps up to the condition.
pub open spec fn source_steps(catalog: CatalogView, at: Option<nat>, selection: Option<PhraseView>, floats: Floats) -> Seq<
    Seq<char>,
> {
    let steps = seq![scan_step(catalog, at, selection, floats)];
    match selection {
        None => steps,
        Some(phrase) => steps.push(
            if filter_covered(catalog, at, selection, floats) {
                "Filter: "@ + phrase.text + " (covered by scalar hash index)"@
            } else {
                "Filter: "@ + phrase.text
            },
        ),
    }
}

/// The steps of grouping.
pub open spec fn group_steps(steps: Seq<Seq<char>>, group_by: Seq<PhraseView>, having: Option<PhraseView>) -> Seq<Seq<char>> {
    let steps = steps.push(
        if group_by.len() == 0 {
            "Aggregate: global"@
        } else {
            "Aggregate: group by "@ + joined(phrase_texts(group_by), ", "@)
        },
    );
    match having {
        Some(phrase) => steps.push("Having: "@ + phrase.text),
        None => steps,
    }
}

/// The step that orders the rows.
pub open spec fn order_step(
    items: Seq<OrderView>,
    fast: Option<FastPlanView>,
    columns: Seq<ColumnView>,
    kept: Option<nat>,
) -> Seq<char> {
    let order = joined(order_texts(items), ", "@);
    match kept {
        Some(kept) => match fast {
            Some(plan) => "VectorTopK: "@ + order + " (direct scoring on "@ + columns[plan.distance.column as int].name
                + "; deferred projection; retain "@ + decimal_text(kept) + " row(s))"@,
            None => "TopK: "@ + order + " (retain "@ + decimal_text(kept) + " row(s))"@,
        },
        None => "Sort: "@ + order,
    }
}

/// The steps of the window.
pub open spec fn window_steps(steps: Seq<Seq<char>>, offset: nat, limit: Option<nat>) -> Seq<Seq<char>> {
    let steps = if offset != 0 {
        steps.push("Offset: "@ + decimal_text(offset))
    } else {
        steps
    };
    match limit {
        Some(limit) => steps.push("Limit: "@ + decimal_text(limit)),
        None => steps,
    }
}

/// What `EXPLAIN VERBOSE` adds.
pub open spec fn verbose_steps(steps: Seq<Seq<char>>, verbose: bool, tables: nat, present: bool) -> Seq<Seq<char>> {
    if verbose {
        steps.push(
            "Catalog: "@ + decimal_text(tables) + " table(s), source present: "@ + (if present {
                "true"@
            } else {
                "false"@
            }),
        )
    } else {
        steps
    }
}

/// The steps of a query after those of its source.
pub open spec fn query_steps(
    select: SelectView,
    query: QueryView,
    columns: Seq<ColumnView>,
    projection: Seq<ProjectionView>,
    group_by: Seq<PhraseView>,
    steps: Seq<Seq<char>>,
    floats: Floats,
) -> Result<Seq<Seq<char>>, ErrorView> {
    let grouped = group_by.len() > 0 || any_output_aggregates(projection, 0) || phrase_aggregates(select.having);
    let steps = (if grouped {
        group_steps(steps, group_by, select.having)
    } else {
        steps
    }).push("Projection: "@ + joined(labels(projection), ", "@));
    match offset_value(query, floats) {
        Err(error) => Err(error),
        Ok(offset) => match limit_value(query, floats) {
            Err(error) => Err(error),
            Ok(limit) => match fast_for(grouped, select, query, columns, projection, offset, limit, floats) {
                Err(error) => Err(error),
                Ok(fast) => if query.order_by.len() == 0 {
                    Ok(window_steps(steps, offset, limit))
                } else {
                    match retained(true, offset, limit) {
                        Err(error) => Err(error),
                        Ok(kept) => Ok(
                            window_steps(steps.push(order_step(query.order_by, fast, columns, kept)), offset, limit),
                        ),
                    }
                },
            },
        },
    }
}

/// The plan by distance of a limited query without aggregates.
pub open spec fn fast_for(
    grouped: bool,
    select: SelectView,
    query: QueryView,
    columns: Seq<ColumnView>,
    projection: Seq<ProjectionView>,
    offset: nat,
    limit: Option<nat>,
    floats: Floats,
) -> Result<Option<FastPlanView>, ErrorView> {
    match limit {
        Some(limit) if !grouped => fast_plan(select.distinct, query.order_by, columns, projection, offset, limit, floats),
        _ => Ok(None),
    }
}

/// The columns that a query can refer to.
pub open spec fn source_columns(catalog: CatalogView, at: Option<nat>) -> Seq<ColumnView> {
    match at {
        Some(at) => catalog.tables[at as int].table.columns,
        None => Seq::empty(),
    }
}

/// The steps of a query over its source.
pub open spec fn explained_steps(
    catalog: CatalogView,
    select: SelectView,
    query: QueryView,
    at: Option<nat>,
    verbose: bool,
    floats: Floats,
) -> Result<Seq<Seq<char>>, ErrorView> {
    let columns = source_columns(catalog, at);
    match (match select.selection {
        Some(phrase) => known_columns(phrase.expr, SchemaView::plain(columns)),
        None => Ok(()),
    }) {
        Err(error) => Err(error),
        Ok(_) => match projected(select.projection, columns, 0, Seq::empty()) {
            Err(error) => Err(error),
            Ok(projection) => match select.group_by {
                None => Err(ErrorView::Unsupported("GROUP BY ALL"@)),
                Some(group_by) => match aggregates_placed(select.selection, group_by) {
                    Err(error) => Err(error),
                    Ok(_) => match query_steps(
                        select,
                        query,
                        columns,
                        projection,
                        group_by,
                        source_steps(catalog, at, select.selection, floats),
                        floats,
                    ) {
                        Err(error) => Err(error),
                        Ok(steps) => Ok(verbose_steps(steps, verbose, catalog.tables.len(), at is Some)),
                    },
                },
            },
        },
    }
}

/// The steps as the rows of a result.
pub open spec fn steps_result(steps: Seq<Seq<char>>) -> QueryResultView {
    QueryResultView {
        columns: seq!["plan"@],
        column_types: seq![Some(DataType::Text)],
        rows: steps.map_values(|step: Seq<char>| seq![ValueView::Text(step)]),
        rows_examined: 0,
    }
}

/// The result of `EXPLAIN`.
pub open spec fn explained(catalog: CatalogView, query: QueryView, verbose: bool, floats: Floats) -> Result<
    QueryResultView,
    ErrorView,
> {
    match query.body {
        BodyView::Select(select) => if select.advanced {
            Err(select_advanced())
        } else {
            match source_table(catalog, select.from, "EXPLAIN for joins"@) {
                Err(error) => Err(error),
                Ok(at) => match explained_steps(catalog, select, query, at, verbose, floats) {
                    Err(error) => Err(error),
                    Ok(steps) => Ok(steps_result(steps)),
                },
            }
        },
        _ => Err(ErrorView::Unsupported("EXPLAIN for set operations"@)),
    }
}

fn find_index_use<F: Fn(FloatTask) -> FloatReply>(f: &F, table: &Table, selection: &Option<Phrase>) -> (result: Option<
    (usize, bool),
>)
    requires
        computes(*f),
        table.wf(),
    ensures
        match result {
            Some((count, exact)) => index_use(table@, optional(*selection), floats(*f)) == Some((count as nat, exact)),
            None => index_use(table@, optional(*selection), floats(*f)) is None,
        },
{
    match selection {
        None => None,
        Some(phrase) => match indexed_candidate_rows(f, table, &phrase.expr) {
            Some(candidates) => Some((candidates.rows.len(), candidates.exact)),
            None => None,
        },
    }
}

fn explain_source<F: Fn(FloatTask) -> FloatReply>(f: &F, catalog: &Catalog, at: Option<usize>, selection: &Option<Phrase>) -> (steps: Vec<
    String,
>)
    requires
        computes(*f),
        catalog.wf(),
        at matches Some(at) ==> at < catalog.tables@.len(),
    ensures
        views(steps@) == source_steps(catalog@, optional_count(at), optional(*selection), floats(*f)),
{
    let mut steps: Vec<String> = Vec::new();
    let mut covered = false;
    match at {
        None => {
            steps.push("Source: single row".to_owned());
        },
        Some(at) => {
            let entry = &catalog.tables[at];
            assert(catalog@.tables[at as int] == entry@);
            let total = decimal_count(entry.table.rows.len());
            match find_index_use(f, &entry.table, selection) {
                Some((count, exact)) => {
                    covered = exact;
                    let mut text = join3("Scan: scalar hash index on ", entry.name.as_str(), " (");
                    let count = decimal_count(count);
                    text.append(count.as_str());
                    text.append(" of ");
                    text.append(total.as_str());
                    text.append(" row(s))");
                    steps.push(text);
                },
                None => {
                    let mut text = join3("Scan: sequential on ", entry.name.as_str(), " (");
                    text.append(total.as_str());
                    text.append(" row(s))");
                    steps.push(text);
                },
            }
        },
    }
    assert(views(steps@) =~= seq![scan_step(catalog@, optional_count(at), optional(*selection), floats(*f))]);
    if let Some(phrase) = selection {
        let mut text = join2("Filter: ", phrase.text.as_str());
        if covered {
            text.append(" (covered by scalar hash index)");
        }
        steps.push(text);
    }
    steps
}

fn explain_groups(steps: &mut Vec<String>, group_by: &Vec<Phrase>, having: &Option<Phrase>)
    ensures
        views(final(steps)@) == group_steps(views(old(steps)@), views(group_by@), optional(*having)),
{
    if group_by.len() == 0 {
        steps.push("Aggregate: global".to_owned());
    } else {
        let texts = copy_phrase_texts(group_by);
        let list = join_all(&texts, ", ");
        steps.push(join2("Aggregate: group by ", list.as_str()));
    }
    if let Some(phrase) = having {
        steps.push(join2("Having: ", phrase.text.as_str()));
    }
}

fn explain_window(steps: &mut Vec<String>, offset: usize, limit: Option<usize>)
    ensures
        views(final(steps)@) == window_steps(views(old(steps)@), offset as nat, optional_count(limit)),
{
    if offset != 0 {
        let count = decimal_count(offset);
        steps.push(join2("Offset: ", count.as_str()));
    }
    if let Some(limit) = limit {
        let count = decimal_count(limit);
        steps.push(join2("Limit: ", count.as_str()));
    }
}

fn explain_order(items: &Vec<OrderItem>, fast: &Option<FastVectorTopKPlan>, columns: &Vec<Column>, kept: Option<usize>) -> (text: String)
    requires
        fast matches Some(plan) ==> plan.distance.column < columns@.len(),
    ensures
        text@ == order_step(views(items@), optional(*fast), views(columns@), optional_count(kept)),
{
    let texts = copy_order_texts(items);
    let order = join_all(&texts, ", ");
    match kept {
        Some(kept) => {
            let count = decimal_count(kept);
            match fast {
                Some(plan) => {
                    assert(views(columns@)[plan.distance.column as int] == columns@[plan.distance.column as int]@);
                    let mut text = join3("VectorTopK: ", order.as_str(), " (direct scoring on ");
                    text.append(columns[plan.distance.column].name.as_str());
                    text.append("; deferred projection; retain ");
                    text.append(count.as_str());
                    text.append(" row(s))");
                    text
                },
                None => {
                    let mut text = join3("TopK: ", order.as_str(), " (retain ");
                    text.append(count.as_str());
                    text.append(" row(s))");
                    text
                },
            }
        },
        None => join2("Sort: ", order.as_str()),
    }
}

pub open spec fn steps_of(result: Result<Vec<String>, Error>) -> Result<Seq<Seq<char>>, ErrorView> {
    match result {
        Ok(steps) => Ok(views(steps@)),
        Err(error) => Err(error@),
    }
}

fn explain_steps<F: Fn(FloatTask) -> FloatReply>(
    f: &F,
    select: &Select,
    query: &Query,
    columns: &Vec<Column>,
    projection: &Vec<Projection<'_>>,
    group_by: &Vec<Phrase>,
    given: Vec<String>,
) -> (result: Result<Vec<String>, Error>)
    requires
        computes(*f),
    ensures
        steps_of(result) == query_steps(
            select@,
            query@,
            views(columns@),
            views(projection@),
            views(group_by@),
            views(given@),
            floats(*f),
        ),
{
    let mut steps = given;
    let grouped = group_by.len() > 0 || outputs_contain_aggregate(projection) || phrase_contains_aggregate(&select.having);
    if grouped {
        explain_groups(&mut steps, group_by, &select.having);
    }
    let names = copy_labels(projection);
    let list = join_all(&names, ", ");
    steps.push(join2("Projection: ", list.as_str()));
    let offset: usize = query_offset(f, query)?;
    let limit = query_limit(f, query)?;
    let fast = match limit {
        Some(limit) => if grouped {
            None
        } else {
            FastVectorTopKPlan::build(f, select.distinct, &query.order_by, columns, projection, offset, limit)?
        },
        None => None,
    };
    if query.order_by.len() > 0 {
        let kept = retained_rows(true, offset, limit)?;
        let text = explain_order(&query.order_by, &fast, columns, kept);
        steps.push(text);
    }
    explain_window(&mut steps, offset, limit);
    Ok(steps)
}

fn make_result(steps: &Vec<String>) -> (result: QueryResult)
    ensures
        result@ == steps_result(views(steps@)),
{
    let mut columns: Vec<String> = Vec::new();
    columns.push("plan".to_owned());
    let mut column_types: Vec<Option<DataType>> = Vec::new();
    column_types.push(Some(DataType::Text));
    let mut rows: Vec<Vec<Value>> = Vec::new();
    let mut index: usize = 0;
    while index < steps.len()
        invariant
            index <= steps@.len(),
            rows@.len() == index,
            forall|i: int| 0 <= i < index ==> views((#[trigger] rows@[i])@) == seq![ValueView::Text(steps@[i]@)],
        decreases steps@.len() - index,
    {
        let mut row: Vec<Value> = Vec::new();
        row.push(Value::Text(steps[index].clone()));
        assert(views(row@) =~= seq![ValueView::Text(steps@[index as int]@)]);
        rows.push(row);
        index = index + 1;
    }
    assert(views(columns@) =~= seq!["plan"@]);
    assert(column_types@ =~= seq![Some(DataType::Text)]);
    assert(row_views(rows@) =~= steps_result(views(steps@)).rows);
    QueryResult { columns, column_types, rows, rows_examined: 0 }
}

fn explain_table<F: Fn(FloatTask) -> FloatReply>(
    f: &F,
    catalog: &Catalog,
    select: &Select,
    query: &Query,
    at: Option<usize>,
    columns: &Vec<Column>,
    verbose: bool,
) -> (result: Result<Vec<String>, Error>)
    requires
        computes(*f),
        catalog.wf(),
        at matches Some(at) ==> at < catalog.tables@.len(),
        views(columns@) == source_columns(catalog@, optional_count(at)),
    ensures
        steps_of(result) == explained_steps(catalog@, select@, query@, optional_count(at), verbose, floats(*f)),
{
    let schema = Schema { columns, sources: None };
    let given = explain_source(f, catalog, at, &select.selection);
    if let Some(phrase) = &select.selection {
        validate_expression_columns(&phrase.expr, &schema)?;
    }
    let projection = build_projection(&select.projection, columns)?;
    let group_by = match &select.group_by {
        Some(group_by) => group_by,
        None => return Err(unsupported("GROUP BY ALL")),
    };
    validate_aggregate_placement(&select.selection, group_by)?;
    let mut steps = explain_steps(f, select, query, columns, &projection, group_by, given)?;
    if verbose {
        let count = decimal_count(catalog.tables.len());
        let mut text = join3("Catalog: ", count.as_str(), " table(s), source present: ");
        if at.is_some() {
            text.append("true");
        } else {
            text.append("false");
        }
        steps.push(text);
    }
    Ok(steps)
}

/// `EXPLAIN`: the steps of a query as text.
pub fn explain_query<F: Fn(FloatTask) -> FloatReply>(f: &F, catalog: &Catalog, query: &Query, verbose: bool) -> (result: Result<
    QueryResult,
    Error,
>)
    requires
        computes(*f),
        catalog.wf(),
    ensures
        outcome(result) == explained(catalog@, query@, verbose, floats(*f)),
{
    let select = match &query.body {
        Body::Select(select) => select,
        _ => return Err(unsupported("EXPLAIN for set operations")),
    };
    validate_select(select)?;
    let at = find_source_table(catalog, &select.from, "EXPLAIN for joins")?;
    let none: Vec<Column> = Vec::new();
    assert(views(none@) =~= Seq::<ColumnView>::empty());
    let columns = match at {
        Some(at) => {
            assert(catalog@.tables[at as int] == catalog.tables@[at as int]@);
            &catalog.tables[at].table.columns
        },
        None => &none,
    };
    let steps = explain_table(f, catalog, select, query, at, columns, verbose)?;
    Ok(make_result(&steps))
}

} // verus!
