//! Running a query over a chain of joins.

use vstd::prelude::*;
use crate::ast::{
    ident_name, Distinct, Expr, ExprView, Ident, IdentView, Join, JoinView, OrderItem, OrderView, Phrase, PhraseView,
    Query, QueryView, Select, SelectItem, SelectItemView, SelectView,
};
use crate::candidate::{
    choose_rows, chosen_rows, has_keys, holds_keys, keyed, optional_count, retained, retained_rows, Candidate,
    CandidateView,
};
use crate::catalog::{Catalog, CatalogView, QueryResult, QueryResultView};
use crate::error::{outcome, plain, unsupported, Error, ErrorView};
use crate::eval::{
    borrowed, find_source_range, is_selected, selects, source_range, EvalContext, JoinSource, SchemaView, ScopeView,
};
use crate::float::{computes, floats, FloatReply, FloatTask, Floats};
use crate::join::{
    appended, bind_expression, bindable, bound_condition, check_bound_condition, find_matches, make_stage, stage_matches,
    staged, JoinSchema, JoinStage, StageView, MAX_JOIN_TABLES,
};
use crate::projection::{
    copy_labels, expression_label, label_position, labels, output_type, output_within, outputs_within, phrase_label,
    Output, OutputView, Projection, ProjectionView,
};
use crate::read::phrase_expr;
use crate::select::{
    aggregates_placed, alias_views, aliases_within, limit_value, make_candidate, offset_value, output_types,
    query_limit, query_offset, row_candidate, types_of_outputs, validate_aggregate_placement,
};
use crate::table::{valid_row, Table};
use crate::text::{join2, join3, lemma_views_push, normalize_name, normalized, views};
use crate::types::{
    both, contains_aggregate, ensure_sortable_scalar_type, expression_contains_aggregate, expression_data_type,
    sortable,
};
use crate::value::{
    copy_columns, copy_row, keys_of, lemma_row_views_push, row_keys, row_views, Column, ColumnView, DataType, Value,
    ValueView,
};

verus! {

broadcast use {vstd::string::group_string_axioms, lemma_views_push, lemma_row_views_push};

/// What becomes of the rows of a join. `capacity` is the number of result rows after which no
/// further one is needed.
pub struct JoinOutput<'a> {
    pub schema: &'a JoinSchema,
    pub selection: Option<&'a Expr>,
    pub projection: &'a Vec<Projection<'a>>,
    pub items: &'a Vec<OrderItem>,
    pub aliases: &'a Vec<Option<usize>>,
    pub distinct: bool,
    pub capacity: Option<usize>,
}

pub struct JoinOutputView {
    pub schema: SchemaView,
    pub selection: Option<ExprView>,
    pub projection: Seq<ProjectionView>,
    pub items: Seq<OrderView>,
    pub aliases: Seq<Option<nat>>,
    pub distinct: bool,
    pub capacity: Option<nat>,
}

impl<'a> View for JoinOutput<'a> {
    type V = JoinOutputView;

    open spec fn view(&self) -> JoinOutputView {
        JoinOutputView {
            schema: self.schema@,
            selection: borrowed(self.selection),
            projection: views(self.projection@),
            items: views(self.items@),
            aliases: alias_views(self.aliases@),
            distinct: self.distinct,
            capacity: optional_count(self.capacity),
        }
    }
}

impl<'a> JoinOutput<'a> {
    pub open spec fn wf(self) -> bool {
        &&& self.schema@.valid()
        &&& outputs_within(views(self.projection@), self.schema.columns@.len())
        &&& self.aliases@.len() == self.items@.len()
        &&& aliases_within(self.aliases@, self.projection@.len())
    }
}

/// The result rows so far, and how many joined rows have been examined.
pub struct JoinState {
    pub candidates: Vec<Candidate>,
    pub rows_examined: usize,
}

#[verifier::ext_equal]
pub struct JoinStateView {
    pub candidates: Seq<CandidateView>,
    pub rows_examined: nat,
}

impl View for JoinState {
    type V = JoinStateView;

    open spec fn view(&self) -> JoinStateView {
        JoinStateView { candidates: views(self.candidates@), rows_examined: self.rows_examined as nat }
    }
}

impl JoinStateView {
    /// The state before any row.
    pub open spec fn start() -> JoinStateView {
        JoinStateView { candidates: Seq::empty(), rows_examined: 0 }
    }

    /// The state after one more row has been examined.
    pub open spec fn examined(self) -> JoinStateView {
        JoinStateView {
            candidates: self.candidates,
            rows_examined: if self.rows_examined < usize::MAX {
                self.rows_examined + 1
            } else {
                self.rows_examined
            },
        }
    }

    /// Whether no further row is needed.
    pub open spec fn full(self, capacity: Option<nat>) -> bool {
        capacity matches Some(count) && self.candidates.len() >= count
    }

    /// The state with one more result row; one equal to an earlier one is left out where rows are
    /// to be distinct.
    pub open spec fn offered(self, candidate: CandidateView, distinct: bool) -> JoinStateView {
        if distinct && holds_keys(self.candidates, keys_of(candidate.values), 0) {
            self
        } else {
            JoinStateView { candidates: self.candidates.push(candidate), rows_examined: self.rows_examined }
        }
    }
}

impl JoinState {
    fn examine(&mut self)
        ensures
            final(self)@ == old(self)@.examined(),
            final(self).candidates == old(self).candidates,
    {
        if self.rows_examined < usize::MAX {
            self.rows_examined = self.rows_examined + 1;
        }
    }

    fn is_full(&self, capacity: Option<usize>) -> (result: bool)
        ensures
            result == self@.full(optional_count(capacity)),
    {
        match capacity {
            Some(count) => self.candidates.len() >= count,
            None => false,
        }
    }

    fn offer(&mut self, candidate: Candidate, distinct: bool, Ghost(count): Ghost<nat>)
        requires
            keyed(old(self)@.candidates, count),
            candidate@.order.len() == count,
        ensures
            final(self)@ == old(self)@.offered(candidate@, distinct),
            keyed(final(self)@.candidates, count),
    {
        if distinct {
            let keys = row_keys(&candidate.values);
            if has_keys(&self.candidates, &keys) {
                return;
            }
        }
        let ghost before = self@;
        let ghost added = candidate@;
        self.candidates.push(candidate);
        proof {
            assert(self@.candidates == before.candidates.push(added));
            assert forall|i: int| 0 <= i < self@.candidates.len() implies (#[trigger] self@.candidates[i]).order.len()
                == count by {
                if i < before.candidates.len() {
                    assert(self@.candidates[i] == before.candidates[i]);
                }
            }
        }
    }
}

/// The scope of a joined row.
pub open spec fn joined_scope(schema: SchemaView, row: Seq<ValueView>) -> ScopeView {
    ScopeView { schema, row, excluded: None }
}

/// The state after a whole joined row.
pub open spec fn emitted(output: JoinOutputView, row: Seq<ValueView>, state: JoinStateView, floats: Floats) -> Result<
    JoinStateView,
    ErrorView,
> {
    match row_candidate(
        output.selection,
        output.projection,
        output.items,
        output.aliases,
        joined_scope(output.schema, row),
        floats,
    ) {
        Err(error) => Err(error),
        Ok(None) => Ok(state),
        Ok(Some(candidate)) => Ok(state.offered(candidate, output.distinct)),
    }
}

pub open spec fn nulls(count: nat) -> Seq<ValueView> {
    Seq::new(count, |i: int| ValueView::Null)
}

/// The state after the stages from `depth` on have been joined to a row.
#[verifier::opaque]
pub open spec fn visited(
    stages: Seq<StageView>,
    output: JoinOutputView,
    depth: nat,
    row: Seq<ValueView>,
    state: JoinStateView,
    floats: Floats,
) -> Result<JoinStateView, ErrorView>
    decreases stages.len() - depth, 1nat, 0nat,
{
    if depth >= stages.len() {
        emitted(output, row, state, floats)
    } else {
        visited_matches(
            stages,
            output,
            depth,
            row,
            stage_matches(stages[depth as int], row, floats),
            0,
            false,
            state,
            floats,
        )
    }
}

/// The state after the matches from `from` on have been joined to a row; `matched` says whether the
/// condition held of an earlier one. A row that nothing matches is kept by an outer join.
pub open spec fn visited_matches(
    stages: Seq<StageView>,
    output: JoinOutputView,
    depth: nat,
    row: Seq<ValueView>,
    matches: Seq<usize>,
    from: nat,
    matched: bool,
    state: JoinStateView,
    floats: Floats,
) -> Result<JoinStateView, ErrorView>
    decreases stages.len() - depth, 0nat, matches.len() - from,
{
    if depth >= stages.len() {
        Ok(state)
    } else {
        let stage = stages[depth as int];
        if from >= matches.len() {
            if stage.outer && !matched {
                visited(stages, output, depth + 1, row + nulls(stage.width), state.examined(), floats)
            } else {
                Ok(state)
            }
        } else {
            let next = row + stage.rows[matches[from as int] as int];
            match selects(Some(stage.on), joined_scope(stage.schema, next), floats) {
                Err(error) => Err(error),
                Ok(false) => visited_matches(
                    stages,
                    output,
                    depth,
                    row,
                    matches,
                    from + 1,
                    matched,
                    state.examined(),
                    floats,
                ),
                Ok(true) => match visited(stages, output, depth + 1, next, state.examined(), floats) {
                    Err(error) => Err(error),
                    Ok(after) => if after.full(output.capacity) {
                        Ok(after)
                    } else {
                        visited_matches(stages, output, depth, row, matches, from + 1, true, after, floats)
                    },
                },
            }
        }
    }
}

/// The state after the rows from `from` on of the first table.
pub open spec fn visited_rows(
    stages: Seq<StageView>,
    output: JoinOutputView,
    rows: Seq<Seq<ValueView>>,
    from: nat,
    state: JoinStateView,
    floats: Floats,
) -> Result<JoinStateView, ErrorView>
    decreases rows.len() - from,
{
    if from >= rows.len() {
        Ok(state)
    } else {
        match visited(stages, output, 0, rows[from as int], state, floats) {
            Err(error) => Err(error),
            Ok(after) => if after.full(output.capacity) {
                Ok(after)
            } else {
                visited_rows(stages, output, rows, from + 1, after, floats)
            },
        }
    }
}

/// Whether each stage starts where the one before it ends, and the last ends where the schema
/// does.
pub open spec fn chained(stages: Seq<JoinStage<'_>>, width: nat, total: nat) -> bool {
    &&& forall|i: int| 0 <= i < stages.len() ==> (#[trigger] stages[i]).wf()
    &&& stages.len() > 0 ==> stages[0].boundary == width
    &&& forall|i: int, j: int|
        0 <= i && j == i + 1 && j < stages.len() ==> (#[trigger] stages[j]).boundary == (
        #[trigger] stages[i]).schema.columns@.len()
    &&& total == if stages.len() == 0 {
        width
    } else {
        stages.last().schema.columns@.len()
    }
}

/// How wide a row is before the stage at `depth`.
pub open spec fn width_at(stages: Seq<JoinStage<'_>>, depth: nat, total: nat) -> nat {
    if depth < stages.len() {
        stages[depth as int].boundary as nat
    } else {
        total
    }
}

fn extended_row(row: &Vec<Value>, added: &Vec<Value>) -> (result: Vec<Value>)
    ensures
        views(result@) == views(row@) + views(added@),
{
    let mut out = copy_row(row);
    let mut tail = copy_row(added);
    let ghost first = views(out@);
    let ghost second = views(tail@);
    out.append(&mut tail);
    assert(views(out@) =~= first + second);
    out
}

fn null_extended_row(row: &Vec<Value>, count: usize) -> (result: Vec<Value>)
    ensures
        views(result@) == views(row@) + nulls(count as nat),
{
    let mut out = copy_row(row);
    let ghost first = views(out@);
    assert(views(out@) =~= first + nulls(0));
    let mut index: usize = 0;
    while index < count
        invariant
            index <= count,
            views(out@) == first + nulls(index as nat),
        decreases count - index,
    {
        let value = Value::Null;
        out.push(value);
        assert(first + nulls((index + 1) as nat) =~= (first + nulls(index as nat)).push(ValueView::Null));
        index = index + 1;
    }
    out
}

fn joined_context<'a>(schema: &'a JoinSchema, row: &'a Vec<Value>) -> (context: EvalContext<'a>)
    ensures
        context@ == joined_scope(schema@, views(row@)),
        context.row == row,
        context.schema.columns == &schema.columns,
{
    EvalContext { schema: schema.of(), row, excluded: None }
}

fn emit<F: Fn(FloatTask) -> FloatReply>(f: &F, output: &JoinOutput<'_>, row: &Vec<Value>, state: &mut JoinState) -> (result: Result<
    (),
    Error,
>)
    requires
        computes(*f),
        output.wf(),
        row@.len() == output.schema.columns@.len(),
        keyed(old(state)@.candidates, output.items@.len()),
    ensures
        match result {
            Ok(_) => emitted(output@, views(row@), old(state)@, floats(*f)) == Ok::<JoinStateView, ErrorView>(final(state)@),
            Err(error) => emitted(output@, views(row@), old(state)@, floats(*f)) == Err::<JoinStateView, ErrorView>(error@),
        },
        keyed(final(state)@.candidates, output.items@.len()),
{
    let context = joined_context(output.schema, row);
    match make_candidate(f, output.selection, output.projection, output.items, output.aliases, &context)? {
        Some(candidate) => {
            state.offer(candidate, output.distinct, Ghost(output.items@.len()));
            Ok(())
        },
        None => Ok(()),
    }
}

/// Joins the stages from `depth` on to a row.
#[verifier::rlimit(60)]
fn visit_join_chain<F: Fn(FloatTask) -> FloatReply>(
    f: &F,
    stages: &Vec<JoinStage<'_>>,
    output: &JoinOutput<'_>,
    depth: usize,
    row: &Vec<Value>,
    state: &mut JoinState,
    Ghost(width): Ghost<nat>,
) -> (result: Result<(), Error>)
    requires
        computes(*f),
        output.wf(),
        chained(stages@, width, output.schema.columns@.len()),
        depth <= stages@.len(),
        row@.len() == width_at(stages@, depth as nat, output.schema.columns@.len()),
        keyed(old(state)@.candidates, output.items@.len()),
    ensures
        match result {
            Ok(_) => visited(views(stages@), output@, depth as nat, views(row@), old(state)@, floats(*f)) == Ok::<
                JoinStateView,
                ErrorView,
            >(final(state)@),
            Err(error) => visited(views(stages@), output@, depth as nat, views(row@), old(state)@, floats(*f)) == Err::<
                JoinStateView,
                ErrorView,
            >(error@),
        },
        keyed(final(state)@.candidates, output.items@.len()),
    decreases stages@.len() - depth,
{
    proof {
        reveal_with_fuel(visited, 1);
    }
    if depth >= stages.len() {
        return emit(f, output, row, state);
    }
    let stage = &stages[depth];
    assert(views(stages@)[depth as int] == stage@);
    assert(stage.wf());
    let matches = find_matches(f, stage, row);
    let ghost goal = visited(views(stages@), output@, depth as nat, views(row@), state@, floats(*f));
    let deeper: usize = depth + 1;
    let mut matched = false;
    let mut index: usize = 0;
    while index < matches.len()
        invariant
            computes(*f),
            output.wf(),
            chained(stages@, width, output.schema.columns@.len()),
            depth < stages@.len(),
            deeper == depth + 1,
            stage == &stages@[depth as int],
            stage.wf(),
            views(stages@)[depth as int] == stage@,
            row@.len() == stage.boundary,
            keyed(state@.candidates, output.items@.len()),
            forall|i: int| 0 <= i < matches@.len() ==> (#[trigger] matches@[i]) < stage.table.rows@.len(),
            index <= matches@.len(),
            goal == visited(views(stages@), output@, depth as nat, views(row@), old(state)@, floats(*f)),
            goal == visited_matches(
                views(stages@),
                output@,
                depth as nat,
                views(row@),
                matches@,
                index as nat,
                matched,
                state@,
                floats(*f),
            ),
        decreases matches@.len() - index,
    {
        let right = &stage.table.rows[matches[index]];
        let next = extended_row(row, right);
        proof {
            reveal_with_fuel(visited, 1);
            assert(stage.table@.rows[matches@[index as int] as int] == views(right@));
            assert(valid_row(stage.table@.columns, stage.table@.rows[matches@[index as int] as int]));
            assert(views(next@).len() == stage.boundary + stage.table.columns@.len());
            assert(width_at(stages@, (depth + 1) as nat, output.schema.columns@.len()) == stage.schema.columns@.len()) by {
                if depth + 1 < stages@.len() {
                    assert(stages@[depth + 1].boundary == stages@[depth as int].schema.columns@.len());
                }
            }
        }
        state.examine();
        let context = joined_context(&stage.schema, &next);
        if is_selected(f, Some(stage.on), &context)? {
            matched = true;
            visit_join_chain(f, stages, output, deeper, &next, state, Ghost(width))?;
            if state.is_full(output.capacity) {
                return Ok(());
            }
        }
        index = index + 1;
    }
    if stage.outer && !matched {
        let next = null_extended_row(row, stage.table.columns.len());
        proof {
            assert(views(next@).len() == stage.boundary + stage.table.columns@.len());
            assert(width_at(stages@, (depth + 1) as nat, output.schema.columns@.len()) == stage.schema.columns@.len()) by {
                if depth + 1 < stages@.len() {
                    assert(stages@[depth + 1].boundary == stages@[depth as int].schema.columns@.len());
                }
            }
        }
        state.examine();
        return visit_join_chain(f, stages, output, deeper, &next, state, Ghost(width));
    }
    Ok(())
}

fn visit_rows<F: Fn(FloatTask) -> FloatReply>(
    f: &F,
    stages: &Vec<JoinStage<'_>>,
    output: &JoinOutput<'_>,
    table: &Table,
) -> (result: Result<JoinState, Error>)
    requires
        computes(*f),
        output.wf(),
        table.wf(),
        stages@.len() > 0,
        chained(stages@, table.columns@.len(), output.schema.columns@.len()),
    ensures
        match result {
            Ok(state) => visited_rows(
                views(stages@),
                output@,
                table@.rows,
                0,
                JoinStateView::start(),
                floats(*f),
            ) == Ok::<JoinStateView, ErrorView>(state@) && keyed(state@.candidates, output.items@.len()),
            Err(error) => visited_rows(
                views(stages@),
                output@,
                table@.rows,
                0,
                JoinStateView::start(),
                floats(*f),
            ) == Err::<JoinStateView, ErrorView>(error@),
        },
{
    let mut state = JoinState { candidates: Vec::new(), rows_examined: 0 };
    assert(state@.candidates =~= Seq::<CandidateView>::empty());
    let mut index: usize = 0;
    while index < table.rows.len()
        invariant
            computes(*f),
            output.wf(),
            table.wf(),
            stages@.len() > 0,
            chained(stages@, table.columns@.len(), output.schema.columns@.len()),
            index <= table.rows@.len(),
            keyed(state@.candidates, output.items@.len()),
            visited_rows(views(stages@), output@, table@.rows, index as nat, state@, floats(*f)) == visited_rows(
                views(stages@),
                output@,
                table@.rows,
                0,
                JoinStateView::start(),
                floats(*f),
            ),
        decreases table.rows@.len() - index,
    {
        let row = &table.rows[index];
        proof {
            assert(valid_row(table@.columns, table@.rows[index as int]));
            assert(table@.rows[index as int] == views(row@));
            assert(stages@[0].boundary == table.columns@.len());
        }
        visit_join_chain(f, stages, output, 0, row, &mut state, Ghost(table.columns@.len()))?;
        if state.is_full(output.capacity) {
            return Ok(state);
        }
        index = index + 1;
    }
    Ok(state)
}

/// The stages of the joins from `from` on, after `done`, and the schema with all of them.
pub open spec fn join_stages(
    catalog: CatalogView,
    schema: SchemaView,
    joins: Seq<JoinView>,
    floats: Floats,
    from: nat,
    done: Seq<StageView>,
) -> Result<(SchemaView, Seq<StageView>), ErrorView>
    decreases joins.len() - from,
{
    if from >= joins.len() {
        Ok((schema, done))
    } else {
        match appended(catalog, schema, joins[from as int].relation) {
            Err(error) => Err(error),
            Ok((wider, at)) => match staged(wider, catalog.tables[at as int].table, joins[from as int].operator, floats) {
                Err(error) => Err(error),
                Ok(stage) => join_stages(catalog, wider, joins, floats, from + 1, done.push(stage)),
            },
        }
    }
}

/// The columns from `from` up to `to`, each as an output under its own name, after `done`.
pub open spec fn columns_between(columns: Seq<ColumnView>, from: nat, to: nat, done: Seq<ProjectionView>) -> Seq<ProjectionView>
    decreases to - from,
{
    if from >= to {
        done
    } else {
        columns_between(
            columns,
            from + 1,
            to,
            done.push(ProjectionView { output: OutputView::At(from), label: columns[from as int].name }),
        )
    }
}

/// The columns that a wildcard stands for.
pub open spec fn wildcard_range(qualifier: Option<Seq<IdentView>>, plain: bool, text: Seq<char>, schema: SchemaView) -> Result<
    (nat, nat),
    ErrorView,
> {
    let refused = Err(ErrorView::Unsupported("JOIN wildcard projection "@ + text));
    if !plain {
        refused
    } else {
        match qualifier {
            None => Ok((0, schema.columns.len())),
            Some(parts) => if parts.len() == 1 {
                source_range(schema.sources->0, parts[0].name())
            } else {
                refused
            },
        }
    }
}

/// The outputs that the items from `from` on select from a join, after `done`.
pub open spec fn join_projected(items: Seq<SelectItemView>, schema: SchemaView, from: nat, done: Seq<ProjectionView>) -> Result<
    Seq<ProjectionView>,
    ErrorView,
>
    decreases items.len() - from,
{
    if from >= items.len() {
        Ok(done)
    } else {
        match items[from as int] {
            SelectItemView::Wildcard { qualifier, plain, text } => match wildcard_range(qualifier, plain, text, schema) {
                Err(error) => Err(error),
                Ok((first, last)) => join_projected(
                    items,
                    schema,
                    from + 1,
                    columns_between(schema.columns, first, last, done),
                ),
            },
            SelectItemView::Unnamed(phrase) => match bindable(phrase.expr, schema) {
                Err(error) => Err(error),
                Ok(_) => join_projected(
                    items,
                    schema,
                    from + 1,
                    done.push(ProjectionView { output: OutputView::Expr(phrase.expr), label: phrase_label(phrase) }),
                ),
            },
            SelectItemView::Aliased(expression, alias) => match bindable(expression, schema) {
                Err(error) => Err(error),
                Ok(_) => join_projected(
                    items,
                    schema,
                    from + 1,
                    done.push(ProjectionView { output: OutputView::Expr(expression), label: alias.name() }),
                ),
            },
        }
    }
}

/// How many labels, from `from` on, are this name; case does not matter in labels.
pub open spec fn label_count(labels: Seq<Seq<char>>, name: Seq<char>, from: nat) -> nat
    decreases labels.len() - from,
{
    if from >= labels.len() {
        0
    } else {
        label_count(labels, name, from + 1) + (if normalized(labels[from as int]) == name {
            1nat
        } else {
            0nat
        })
    }
}

/// The output that an ordering of a join names by its label; case does not matter.
pub open spec fn join_alias(order: ExprView, labels: Seq<Seq<char>>) -> Result<Option<nat>, ErrorView> {
    match order {
        ExprView::Identifier(identifier, text) => {
            let name = normalized(identifier.name());
            if label_count(labels, name, 0) > 1 {
                Err(ErrorView::InvalidQuery("ambiguous JOIN ORDER BY alias '"@ + text + "'"@))
            } else {
                Ok(label_position(labels, name, 0))
            }
        },
        _ => Ok(None),
    }
}

/// What an item orders the rows of a join by.
pub open spec fn join_order(item: OrderView, projection: Seq<ProjectionView>, schema: SchemaView, floats: Floats) -> Result<
    Option<nat>,
    ErrorView,
> {
    match join_alias(item.expr, labels(projection)) {
        Err(error) => Err(error),
        Ok(alias) => match both(
            if alias is Some {
                Ok(())
            } else {
                bindable(item.expr, schema)
            },
            match output_type(
                match alias {
                    Some(index) => projection[index as int].output,
                    None => OutputView::Expr(item.expr),
                },
                schema,
                floats,
            ) {
                Err(error) => Err(error),
                Ok(data_type) => sortable(data_type),
            },
        ) {
            Err(error) => Err(error),
            Ok(_) => Ok(alias),
        },
    }
}

/// What the items from `from` on order the rows of a join by, after `done`.
pub open spec fn join_orders(
    items: Seq<OrderView>,
    projection: Seq<ProjectionView>,
    schema: SchemaView,
    floats: Floats,
    from: nat,
    done: Seq<Option<nat>>,
) -> Result<Seq<Option<nat>>, ErrorView>
    decreases items.len() - from,
{
    if from >= items.len() {
        Ok(done)
    } else {
        match join_order(items[from as int], projection, schema, floats) {
            Err(error) => Err(error),
            Ok(alias) => join_orders(items, projection, schema, floats, from + 1, done.push(alias)),
        }
    }
}

/// Whether an item of a `SELECT` list, from `from` on, is made with an aggregate.
pub open spec fn any_item_aggregates(items: Seq<SelectItemView>, from: nat) -> bool
    decreases items.len() - from,
{
    from < items.len() && (match items[from as int] {
        SelectItemView::Unnamed(phrase) => contains_aggregate(phrase.expr),
        SelectItemView::Aliased(expression, _) => contains_aggregate(expression),
        _ => false,
    } || any_item_aggregates(items, from + 1))
}

/// Whether an ordering, from `from` on, is made with an aggregate.
pub open spec fn any_order_aggregates(items: Seq<OrderView>, from: nat) -> bool
    decreases items.len() - from,
{
    from < items.len() && (contains_aggregate(items[from as int].expr) || any_order_aggregates(items, from + 1))
}

/// Whether a query is one that can be run over joins.
pub open spec fn join_supported(select: SelectView, query: QueryView) -> Result<(), ErrorView> {
    match aggregates_placed(select.selection, Seq::empty()) {
        Err(error) => Err(error),
        Ok(_) => if select.from[0].joins.len() >= MAX_JOIN_TABLES {
            Err(ErrorView::Unsupported("JOIN queries support at most 16 tables"@))
        } else if !(select.group_by matches Some(phrases) && phrases.len() == 0) || select.having is Some
            || any_item_aggregates(select.projection, 0) || any_order_aggregates(query.order_by, 0) {
            Err(ErrorView::Unsupported("aggregate expressions, GROUP BY, and HAVING in JOIN queries"@))
        } else if select.distinct == Distinct::On {
            Err(ErrorView::Unsupported("DISTINCT ON in JOIN queries"@))
        } else {
            Ok(())
        },
    }
}

/// The limit of a query of whose rows no more than `most` are allowed: one more is asked for, so
/// that an excess shows.
pub open spec fn allowed_limit(limit: Option<nat>, most: Option<nat>) -> Option<nat> {
    match most {
        None => limit,
        Some(most) => {
            let bound = if most < usize::MAX {
                most + 1
            } else {
                most
            };
            match limit {
                Some(limit) => Some(
                    if limit <= bound {
                        limit
                    } else {
                        bound
                    },
                ),
                None => Some(bound),
            }
        },
    }
}

/// How many rows a join without `ORDER BY` needs.
pub open spec fn needed_rows(ordered: bool, offset: nat, limit: Option<nat>) -> Option<nat> {
    match limit {
        Some(limit) if !ordered && offset + limit <= usize::MAX => Some(offset + limit),
        _ => None,
    }
}

/// Whether an inner stage, from `from` on, has no rows.
pub open spec fn any_empty(stages: Seq<StageView>, from: nat) -> bool
    decreases stages.len() - from,
{
    from < stages.len() && ((!stages[from as int].outer && stages[from as int].rows.len() == 0) || any_empty(
        stages,
        from + 1,
    ))
}

/// The rows of a join and how many were examined.
pub open spec fn join_rows(
    stages: Seq<StageView>,
    output: JoinOutputView,
    rows: Seq<Seq<ValueView>>,
    offset: nat,
    limit: Option<nat>,
    floats: Floats,
) -> Result<(Seq<Seq<ValueView>>, nat), ErrorView> {
    if limit == Some(0nat) || rows.len() == 0 || any_empty(stages, 0) {
        Ok((Seq::empty(), 0))
    } else {
        match visited_rows(stages, output, rows, 0, JoinStateView::start(), floats) {
            Err(error) => Err(error),
            Ok(state) => match chosen_rows(state.candidates, output.items, offset, limit, floats) {
                Err(error) => Err(error),
                Ok(chosen) => Ok((chosen, state.rows_examined)),
            },
        }
    }
}

/// A result of no more rows than allowed.
pub open spec fn limited(result: QueryResultView, most: Option<nat>) -> Result<QueryResultView, ErrorView> {
    match most {
        Some(most) if result.rows.len() > most => Err(
            ErrorView::ResultLimitExceeded { found_at_least: result.rows.len(), max: most },
        ),
        _ => Ok(result),
    }
}

/// The result of a query over stages whose outputs have been bound.
pub open spec fn bound_join(
    stages: Seq<StageView>,
    schema: SchemaView,
    rows: Seq<Seq<ValueView>>,
    select: SelectView,
    query: QueryView,
    projection: Seq<ProjectionView>,
    types: Seq<Option<DataType>>,
    aliases: Seq<Option<nat>>,
    most: Option<nat>,
    floats: Floats,
) -> Result<QueryResultView, ErrorView> {
    match offset_value(query, floats) {
        Err(error) => Err(error),
        Ok(offset) => match limit_value(query, floats) {
            Err(error) => Err(error),
            Ok(asked) => {
                let limit = allowed_limit(asked, most);
                let ordered = query.order_by.len() > 0;
                match retained(ordered, offset, limit) {
                    Err(error) => Err(error),
                    Ok(_) => {
                        let output = JoinOutputView {
                            schema,
                            selection: phrase_expr(select.selection),
                            projection,
                            items: query.order_by,
                            aliases,
                            distinct: select.distinct != Distinct::No,
                            capacity: needed_rows(ordered, offset, limit),
                        };
                        match join_rows(stages, output, rows, offset, limit, floats) {
                            Err(error) => Err(error),
                            Ok((chosen, examined)) => limited(
                                QueryResultView {
                                    columns: labels(projection),
                                    column_types: types,
                                    rows: chosen,
                                    rows_examined: examined,
                                },
                                most,
                            ),
                        }
                    },
                }
            },
        },
    }
}

/// The result of a query over bound stages.
pub open spec fn staged_join(
    stages: Seq<StageView>,
    schema: SchemaView,
    rows: Seq<Seq<ValueView>>,
    select: SelectView,
    query: QueryView,
    most: Option<nat>,
    floats: Floats,
) -> Result<QueryResultView, ErrorView> {
    match (match select.selection {
        Some(phrase) => bound_condition(phrase.expr, schema, floats),
        None => Ok(()),
    }) {
        Err(error) => Err(error),
        Ok(_) => match join_projected(select.projection, schema, 0, Seq::empty()) {
            Err(error) => Err(error),
            Ok(projection) => match output_types(projection, schema, floats, 0, Seq::empty()) {
                Err(error) => Err(error),
                Ok(types) => match join_orders(query.order_by, projection, schema, floats, 0, Seq::empty()) {
                    Err(error) => Err(error),
                    Ok(aliases) => bound_join(stages, schema, rows, select, query, projection, types, aliases, most, floats),
                },
            },
        },
    }
}

/// The result of a query over joins, of whose rows no more than `most` are allowed.
pub open spec fn join_result(
    catalog: CatalogView,
    select: SelectView,
    query: QueryView,
    most: Option<nat>,
    floats: Floats,
) -> Result<QueryResultView, ErrorView> {
    match join_supported(select, query) {
        Err(error) => Err(error),
        Ok(_) => match appended(
            catalog,
            SchemaView { columns: Seq::empty(), sources: Some(Seq::empty()) },
            select.from[0].relation,
        ) {
            Err(error) => Err(error),
            Ok((first, at)) => match join_stages(catalog, first, select.from[0].joins, floats, 0, Seq::empty()) {
                Err(error) => Err(error),
                Ok((schema, stages)) => staged_join(
                    stages,
                    schema,
                    catalog.tables[at as int].table.rows,
                    select,
                    query,
                    most,
                    floats,
                ),
            },
        },
    }
}

fn items_contain_aggregate(items: &Vec<SelectItem>) -> (result: bool)
    ensures
        result == any_item_aggregates(views(items@), 0),
{
    let mut index: usize = 0;
    while index < items.len()
        invariant
            index <= items@.len(),
            any_item_aggregates(views(items@), index as nat) == any_item_aggregates(views(items@), 0),
        decreases items@.len() - index,
    {
        assert(views(items@)[index as int] == items@[index as int]@);
        let found = match &items[index] {
            SelectItem::Unnamed(phrase) => expression_contains_aggregate(&phrase.expr),
            SelectItem::Aliased(expression, _) => expression_contains_aggregate(expression),
            _ => false,
        };
        if found {
            return true;
        }
        index = index + 1;
    }
    false
}

fn orders_contain_aggregate(items: &Vec<OrderItem>) -> (result: bool)
    ensures
        result == any_order_aggregates(views(items@), 0),
{
    let mut index: usize = 0;
    while index < items.len()
        invariant
            index <= items@.len(),
            any_order_aggregates(views(items@), index as nat) == any_order_aggregates(views(items@), 0),
        decreases items@.len() - index,
    {
        assert(views(items@)[index as int] == items@[index as int]@);
        if expression_contains_aggregate(&items[index].expr) {
            return true;
        }
        index = index + 1;
    }
    false
}

fn check_join_supported(select: &Select, query: &Query) -> (result: Result<(), Error>)
    requires
        select.from@.len() > 0,
    ensures
        plain(result) == join_supported(select@, query@),
{
    let none: Vec<Phrase> = Vec::new();
    assert(views(none@) =~= Seq::<PhraseView>::empty());
    validate_aggregate_placement(&select.selection, &none)?;
    assert(select@.from[0] == select.from@[0]@);
    if select.from[0].joins.len() >= MAX_JOIN_TABLES {
        return Err(unsupported("JOIN queries support at most 16 tables"));
    }
    let ungrouped = match &select.group_by {
        Some(phrases) => phrases.len() == 0,
        None => false,
    };
    if !ungrouped || select.having.is_some() || items_contain_aggregate(&select.projection) || orders_contain_aggregate(
        &query.order_by,
    ) {
        return Err(unsupported("aggregate expressions, GROUP BY, and HAVING in JOIN queries"));
    }
    if select.distinct == Distinct::On {
        return Err(unsupported("DISTINCT ON in JOIN queries"));
    }
    Ok(())
}

pub open spec fn stages_result(result: Result<(JoinSchema, Vec<JoinStage<'_>>), Error>) -> Result<
    (SchemaView, Seq<StageView>),
    ErrorView,
> {
    match result {
        Ok((schema, stages)) => Ok((schema@, views(stages@))),
        Err(error) => Err(error@),
    }
}

fn copy_schema(schema: &JoinSchema) -> (copy: JoinSchema)
    requires
        schema@.valid(),
    ensures
        copy@ == schema@,
        copy@.valid(),
        copy.columns@.len() == schema.columns@.len(),
{
    let columns = copy_columns(&schema.columns);
    assert(views(columns@).len() == schema.columns@.len());
    let mut sources: Vec<JoinSource> = Vec::new();
    let mut index: usize = 0;
    while index < schema.sources.len()
        invariant
            index <= schema.sources@.len(),
            sources@.len() == index,
            forall|i: int| 0 <= i < index ==> (#[trigger] sources@[i])@ == schema.sources@[i]@,
        decreases schema.sources@.len() - index,
    {
        let source = &schema.sources[index];
        sources.push(
            JoinSource { qualifier: source.qualifier.clone(), start: source.start, width: source.width },
        );
        index = index + 1;
    }
    assert(views(sources@) =~= views(schema.sources@));
    JoinSchema { columns, sources }
}

fn build_stages<'a, F: Fn(FloatTask) -> FloatReply>(
    f: &F,
    catalog: &'a Catalog,
    first: JoinSchema,
    joins: &'a Vec<Join>,
) -> (result: Result<(JoinSchema, Vec<JoinStage<'a>>), Error>)
    requires
        computes(*f),
        catalog.wf(),
        first@.valid(),
    ensures
        stages_result(result) == join_stages(catalog@, first@, views(joins@), floats(*f), 0, Seq::empty()),
        result matches Ok((schema, stages)) ==> schema@.valid() && stages@.len() == joins@.len() && chained(
            stages@,
            first.columns@.len(),
            schema.columns@.len(),
        ),
{
    let ghost start = first@;
    let ghost width = first.columns@.len();
    let mut schema = first;
    let mut stages: Vec<JoinStage<'a>> = Vec::new();
    assert(views(stages@) =~= Seq::<StageView>::empty());
    let mut index: usize = 0;
    while index < joins.len()
        invariant
            computes(*f),
            catalog.wf(),
            start == first@,
            width == first.columns@.len(),
            schema@.valid(),
            index <= joins@.len(),
            stages@.len() == index,
            chained(stages@, width, schema.columns@.len()),
            join_stages(catalog@, schema@, views(joins@), floats(*f), index as nat, views(stages@)) == join_stages(
                catalog@,
                start,
                views(joins@),
                floats(*f),
                0,
                Seq::empty(),
            ),
        decreases joins@.len() - index,
    {
        assert(views(joins@)[index as int] == joins@[index as int]@);
        let ghost before = stages@;
        let ghost narrow = schema.columns@.len();
        let ghost narrow_view = schema@;
        let (wider, at) = schema.append(catalog, &joins[index].relation)?;
        let table = &catalog.tables[at].table;
        proof {
            assert(catalog@.tables[at as int] == catalog.tables@[at as int]@);
            assert(wider@.columns =~= narrow_view.columns + table@.columns);
            assert(wider@.columns.skip(narrow as int) =~= table@.columns);
        }
        let copy = copy_schema(&wider);
        let stage = make_stage(f, copy, table, &joins[index].operator)?;
        stages.push(stage);
        schema = wider;
        proof {
            assert(stages@.last() == stage);
            assert forall|i: int| 0 <= i < stages@.len() implies (#[trigger] stages@[i]).wf() by {
                if i < before.len() {
                    assert(stages@[i] == before[i]);
                }
            }
            assert forall|i: int, j: int| 0 <= i && j == i + 1 && j < stages@.len() implies (#[trigger] stages@[j]).boundary == (
            #[trigger] stages@[i]).schema.columns@.len() by {
                assert(stages@[i] == before[i]);
                if j < before.len() {
                    assert(stages@[j] == before[j]);
                } else {
                    assert(before[i] == before.last());
                }
            }
        }
        index = index + 1;
    }
    Ok((schema, stages))
}

fn append_between<'a>(columns: &Vec<Column>, from: usize, to: usize, out: &mut Vec<Projection<'a>>)
    requires
        to <= columns@.len(),
        outputs_within(views(old(out)@), columns@.len()),
    ensures
        views(final(out)@) == columns_between(views(columns@), from as nat, to as nat, views(old(out)@)),
        outputs_within(views(final(out)@), columns@.len()),
{
    let ghost start = views(out@);
    let mut index: usize = from;
    while index < to
        invariant
            to <= columns@.len(),
            outputs_within(views(out@), columns@.len()),
            from <= index,
            columns_between(views(columns@), index as nat, to as nat, views(out@)) == columns_between(
                views(columns@),
                from as nat,
                to as nat,
                start,
            ),
        decreases to - index,
    {
        assert(views(columns@)[index as int] == columns@[index as int]@);
        let ghost before = views(out@);
        let item = Projection { output: Output::At(index), label: columns[index].name.clone() };
        assert(item@ == ProjectionView { output: OutputView::At(index as nat), label: columns@[index as int].name@ });
        out.push(item);
        assert forall|i: int| 0 <= i < views(out@).len() implies output_within(
            (#[trigger] views(out@)[i]).output,
            columns@.len(),
        ) by {
            if i < before.len() {
                assert(views(out@)[i] == before[i]);
            }
        }
        index = index + 1;
    }
}

fn find_wildcard_range(qualifier: &Option<Vec<Ident>>, plain: bool, text: &str, schema: &JoinSchema) -> (result: Result<
    (usize, usize),
    Error,
>)
    requires
        schema@.valid(),
    ensures
        match result {
            Ok((from, to)) => wildcard_range(
                match *qualifier {
                    Some(parts) => Some(views(parts@)),
                    None => None,
                },
                plain,
                text@,
                schema@,
            ) == Ok::<(nat, nat), ErrorView>((from as nat, to as nat)) && to <= schema.columns@.len(),
            Err(error) => wildcard_range(
                match *qualifier {
                    Some(parts) => Some(views(parts@)),
                    None => None,
                },
                plain,
                text@,
                schema@,
            ) == Err::<(nat, nat), ErrorView>(error@),
        },
{
    if !plain {
        return Err(Error::Unsupported(join2("JOIN wildcard projection ", text)));
    }
    match qualifier {
        None => Ok((0, schema.columns.len())),
        Some(parts) => {
            if parts.len() != 1 {
                return Err(Error::Unsupported(join2("JOIN wildcard projection ", text)));
            }
            assert(views(parts@)[0] == parts@[0]@);
            let name = ident_name(&parts[0]);
            let total: usize = schema.columns.len();
            proof {
                assert forall|i: int| 0 <= i < schema.sources@.len() implies (#[trigger] schema.sources@[i]).start
                    + schema.sources@[i].width <= total by {
                    assert(schema@.sources->0[i] == schema.sources@[i]@);
                }
            }
            find_source_range(&schema.sources, name.as_str())
        },
    }
}

pub open spec fn projection_result(result: Result<Vec<Projection<'_>>, Error>) -> Result<Seq<ProjectionView>, ErrorView> {
    match result {
        Ok(projection) => Ok(views(projection@)),
        Err(error) => Err(error@),
    }
}

fn build_join_projection<'a>(items: &'a Vec<SelectItem>, schema: &JoinSchema) -> (result: Result<Vec<Projection<'a>>, Error>)
    requires
        schema@.valid(),
    ensures
        projection_result(result) == join_projected(views(items@), schema@, 0, Seq::empty()),
        result matches Ok(projection) ==> outputs_within(views(projection@), schema.columns@.len()),
{
    let mut out: Vec<Projection<'a>> = Vec::new();
    assert(views(out@) =~= Seq::<ProjectionView>::empty());
    let mut index: usize = 0;
    while index < items.len()
        invariant
            schema@.valid(),
            index <= items@.len(),
            outputs_within(views(out@), schema.columns@.len()),
            join_projected(views(items@), schema@, index as nat, views(out@)) == join_projected(
                views(items@),
                schema@,
                0,
                Seq::empty(),
            ),
        decreases items@.len() - index,
    {
        assert(views(items@)[index as int] == items@[index as int]@);
        let ghost before = views(out@);
        match &items[index] {
            SelectItem::Wildcard { qualifier, plain, text } => {
                let (from, to) = find_wildcard_range(qualifier, *plain, text.as_str(), schema)?;
                append_between(&schema.columns, from, to, &mut out);
            },
            SelectItem::Unnamed(phrase) => {
                bind_expression(&phrase.expr, &schema.of())?;
                let item = Projection { output: Output::Given(&phrase.expr), label: expression_label(phrase) };
                out.push(item);
                assert forall|i: int| 0 <= i < views(out@).len() implies output_within(
                    (#[trigger] views(out@)[i]).output,
                    schema.columns@.len(),
                ) by {
                    if i < before.len() {
                        assert(views(out@)[i] == before[i]);
                    }
                }
            },
            SelectItem::Aliased(expression, alias) => {
                bind_expression(expression, &schema.of())?;
                let item = Projection { output: Output::Given(expression), label: ident_name(alias) };
                out.push(item);
                assert forall|i: int| 0 <= i < views(out@).len() implies output_within(
                    (#[trigger] views(out@)[i]).output,
                    schema.columns@.len(),
                ) by {
                    if i < before.len() {
                        assert(views(out@)[i] == before[i]);
                    }
                }
            },
        }
        index = index + 1;
    }
    Ok(out)
}

pub open spec fn alias_result(result: Result<Option<usize>, Error>) -> Result<Option<nat>, ErrorView> {
    match result {
        Ok(alias) => Ok(optional_count(alias)),
        Err(error) => Err(error@),
    }
}

fn count_labels(projection: &Vec<Projection<'_>>, name: &str) -> (result: usize)
    ensures
        result == label_count(labels(views(projection@)), name@, 0),
        result <= projection@.len(),
{
    let ghost all = labels(views(projection@));
    let total: usize = projection.len();
    let mut count: usize = 0;
    let mut index: usize = total;
    while index > 0
        invariant
            all == labels(views(projection@)),
            total == projection@.len(),
            index <= total,
            count <= total - index,
            count == label_count(all, name@, index as nat),
        decreases index,
    {
        index = index - 1;
        assert(all[index as int] == projection@[index as int].label@);
        let label = normalize_name(projection[index].label.as_str());
        if *label.as_str() == *name {
            count = count + 1;
        }
    }
    count
}

fn find_label(projection: &Vec<Projection<'_>>, name: &str) -> (result: Option<usize>)
    ensures
        optional_count(result) == label_position(labels(views(projection@)), name@, 0),
        result matches Some(index) ==> index < projection@.len(),
{
    let ghost all = labels(views(projection@));
    let mut index: usize = 0;
    while index < projection.len()
        invariant
            all == labels(views(projection@)),
            index <= projection@.len(),
            label_position(all, name@, index as nat) == label_position(all, name@, 0),
        decreases projection@.len() - index,
    {
        assert(all[index as int] == projection@[index as int].label@);
        let label = normalize_name(projection[index].label.as_str());
        if *label.as_str() == *name {
            return Some(index);
        }
        index = index + 1;
    }
    None
}

fn find_join_alias(order: &Expr, projection: &Vec<Projection<'_>>) -> (result: Result<Option<usize>, Error>)
    ensures
        alias_result(result) == join_alias(order@, labels(views(projection@))),
        result matches Ok(Some(index)) ==> index < projection@.len(),
{
    match order {
        Expr::Identifier(identifier, text) => {
            let title = ident_name(identifier);
            let name = normalize_name(title.as_str());
            if count_labels(projection, name.as_str()) > 1 {
                return Err(Error::InvalidQuery(join3("ambiguous JOIN ORDER BY alias '", text.as_str(), "'")));
            }
            Ok(find_label(projection, name.as_str()))
        },
        _ => Ok(None),
    }
}

fn bind_join_order<F: Fn(FloatTask) -> FloatReply>(
    f: &F,
    item: &OrderItem,
    projection: &Vec<Projection<'_>>,
    schema: &JoinSchema,
) -> (result: Result<Option<usize>, Error>)
    requires
        computes(*f),
        schema@.valid(),
        outputs_within(views(projection@), schema.columns@.len()),
    ensures
        alias_result(result) == join_order(item@, views(projection@), schema@, floats(*f)),
        result matches Ok(Some(index)) ==> index < projection@.len(),
{
    let alias = find_join_alias(&item.expr, projection)?;
    let data_type = match alias {
        Some(index) => {
            assert(views(projection@)[index as int] == projection@[index as int]@);
            projection[index].output.data_type(f, &schema.of())?
        },
        None => {
            bind_expression(&item.expr, &schema.of())?;
            expression_data_type(f, &item.expr, &schema.of())?
        },
    };
    ensure_sortable_scalar_type(data_type)?;
    Ok(alias)
}

fn bind_join_orders<F: Fn(FloatTask) -> FloatReply>(
    f: &F,
    items: &Vec<OrderItem>,
    projection: &Vec<Projection<'_>>,
    schema: &JoinSchema,
) -> (result: Result<Vec<Option<usize>>, Error>)
    requires
        computes(*f),
        schema@.valid(),
        outputs_within(views(projection@), schema.columns@.len()),
    ensures
        match result {
            Ok(aliases) => join_orders(views(items@), views(projection@), schema@, floats(*f), 0, Seq::empty()) == Ok::<
                Seq<Option<nat>>,
                ErrorView,
            >(alias_views(aliases@)) && aliases@.len() == items@.len() && aliases_within(aliases@, projection@.len()),
            Err(error) => join_orders(views(items@), views(projection@), schema@, floats(*f), 0, Seq::empty()) == Err::<
                Seq<Option<nat>>,
                ErrorView,
            >(error@),
        },
{
    let mut out: Vec<Option<usize>> = Vec::new();
    assert(alias_views(out@) =~= Seq::<Option<nat>>::empty());
    let mut index: usize = 0;
    while index < items.len()
        invariant
            computes(*f),
            schema@.valid(),
            outputs_within(views(projection@), schema.columns@.len()),
            index <= items@.len(),
            out@.len() == index,
            aliases_within(out@, projection@.len()),
            join_orders(views(items@), views(projection@), schema@, floats(*f), index as nat, alias_views(out@))
                == join_orders(views(items@), views(projection@), schema@, floats(*f), 0, Seq::empty()),
        decreases items@.len() - index,
    {
        assert(views(items@)[index as int] == items@[index as int]@);
        let ghost before = out@;
        let alias = bind_join_order(f, &items[index], projection, schema)?;
        out.push(alias);
        assert(alias_views(out@) =~= alias_views(before).push(optional_count(alias)));
        index = index + 1;
    }
    Ok(out)
}

fn is_any_empty(stages: &Vec<JoinStage<'_>>) -> (result: bool)
    ensures
        result == any_empty(views(stages@), 0),
{
    let mut index: usize = 0;
    while index < stages.len()
        invariant
            index <= stages@.len(),
            any_empty(views(stages@), index as nat) == any_empty(views(stages@), 0),
        decreases stages@.len() - index,
    {
        assert(views(stages@)[index as int] == stages@[index as int]@);
        if !stages[index].outer && stages[index].table.rows.len() == 0 {
            return true;
        }
        index = index + 1;
    }
    false
}

fn allow_limit(limit: Option<usize>, most: Option<usize>) -> (result: Option<usize>)
    ensures
        optional_count(result) == allowed_limit(optional_count(limit), optional_count(most)),
{
    match most {
        None => limit,
        Some(most) => {
            let bound: usize = if most < usize::MAX {
                most + 1
            } else {
                most
            };
            match limit {
                Some(limit) => Some(
                    if limit <= bound {
                        limit
                    } else {
                        bound
                    },
                ),
                None => Some(bound),
            }
        },
    }
}

fn count_needed(ordered: bool, offset: usize, limit: Option<usize>) -> (result: Option<usize>)
    ensures
        optional_count(result) == needed_rows(ordered, offset as nat, optional_count(limit)),
{
    match limit {
        Some(limit) => if ordered {
            None
        } else {
            offset.checked_add(limit)
        },
        None => None,
    }
}

pub open spec fn join_rows_result(result: Result<(Vec<Vec<Value>>, usize), Error>) -> Result<(Seq<Seq<ValueView>>, nat), ErrorView> {
    match result {
        Ok((rows, examined)) => Ok((row_views(rows@), examined as nat)),
        Err(error) => Err(error@),
    }
}

fn run_stages<F: Fn(FloatTask) -> FloatReply>(
    f: &F,
    stages: &Vec<JoinStage<'_>>,
    output: &JoinOutput<'_>,
    table: &Table,
    offset: usize,
    limit: Option<usize>,
) -> (result: Result<(Vec<Vec<Value>>, usize), Error>)
    requires
        computes(*f),
        output.wf(),
        table.wf(),
        stages@.len() > 0,
        chained(stages@, table.columns@.len(), output.schema.columns@.len()),
        retained(output.items@.len() > 0, offset as nat, optional_count(limit)) is Ok,
    ensures
        join_rows_result(result) == join_rows(
            views(stages@),
            output@,
            table@.rows,
            offset as nat,
            optional_count(limit),
            floats(*f),
        ),
{
    let none = match limit {
        Some(limit) => limit == 0,
        None => false,
    };
    if none || table.rows.len() == 0 || is_any_empty(stages) {
        let rows: Vec<Vec<Value>> = Vec::new();
        assert(row_views(rows@) =~= Seq::<Seq<ValueView>>::empty());
        return Ok((rows, 0));
    }
    let state = visit_rows(f, stages, output, table)?;
    let rows = choose_rows(f, &state.candidates, output.items, offset, limit)?;
    Ok((rows, state.rows_examined))
}

fn enforce_query_row_limit(result: QueryResult, most: Option<usize>) -> (limited_result: Result<QueryResult, Error>)
    ensures
        outcome(limited_result) == limited(result@, optional_count(most)),
{
    assert(result@.rows.len() == result.rows@.len());
    match most {
        Some(most) => {
            let found: usize = result.rows.len();
            if found > most {
                Err(Error::ResultLimitExceeded { found_at_least: found, max: most })
            } else {
                Ok(result)
            }
        },
        None => Ok(result),
    }
}

fn run_bound<'a, F: Fn(FloatTask) -> FloatReply>(
    f: &F,
    stages: &Vec<JoinStage<'_>>,
    schema: &'a JoinSchema,
    table: &Table,
    select: &'a Select,
    query: &'a Query,
    projection: &'a Vec<Projection<'a>>,
    types: Vec<Option<DataType>>,
    aliases: &'a Vec<Option<usize>>,
    most: Option<usize>,
) -> (result: Result<QueryResult, Error>)
    requires
        computes(*f),
        table.wf(),
        stages@.len() > 0,
        schema@.valid(),
        chained(stages@, table.columns@.len(), schema.columns@.len()),
        outputs_within(views(projection@), schema.columns@.len()),
        aliases@.len() == query.order_by@.len(),
        aliases_within(aliases@, projection@.len()),
    ensures
        outcome(result) == bound_join(
            views(stages@),
            schema@,
            table@.rows,
            select@,
            query@,
            views(projection@),
            types@,
            alias_views(aliases@),
            optional_count(most),
            floats(*f),
        ),
{
    let offset: usize = query_offset(f, query)?;
    let asked = query_limit(f, query)?;
    let limit = allow_limit(asked, most);
    let ordered = query.order_by.len() > 0;
    retained_rows(ordered, offset, limit)?;
    let selection = match &select.selection {
        Some(phrase) => Some(&phrase.expr),
        None => None,
    };
    let distinct = match select.distinct {
        Distinct::No => false,
        _ => true,
    };
    let output = JoinOutput {
        schema,
        selection,
        projection,
        items: &query.order_by,
        aliases,
        distinct,
        capacity: count_needed(ordered, offset, limit),
    };
    let (rows, rows_examined) = run_stages(f, stages, &output, table, offset, limit)?;
    let columns = copy_labels(projection);
    let result = QueryResult { columns, column_types: types, rows, rows_examined };
    enforce_query_row_limit(result, most)
}

/// Runs a query over joins, of whose rows no more than `most` are allowed.
pub fn run_join_query<F: Fn(FloatTask) -> FloatReply>(
    f: &F,
    catalog: &Catalog,
    select: &Select,
    query: &Query,
    most: Option<usize>,
) -> (result: Result<QueryResult, Error>)
    requires
        computes(*f),
        catalog.wf(),
        select.from@.len() > 0,
        select.from@[0].joins@.len() > 0,
    ensures
        outcome(result) == join_result(catalog@, select@, query@, optional_count(most), floats(*f)),
{
    check_join_supported(select, query)?;
    assert(select@.from[0] == select.from@[0]@);
    let from = &select.from[0];
    let empty = JoinSchema::empty();
    let (first, at) = empty.append(catalog, &from.relation)?;
    let table = &catalog.tables[at].table;
    assert(catalog@.tables[at as int] == catalog.tables@[at as int]@);
    let (schema, stages) = build_stages(f, catalog, first, &from.joins)?;
    if let Some(phrase) = &select.selection {
        check_bound_condition(f, &phrase.expr, &schema.of())?;
    }
    let projection = build_join_projection(&select.projection, &schema)?;
    let types = types_of_outputs(f, &projection, &schema.of())?;
    let aliases = bind_join_orders(f, &query.order_by, &projection, &schema)?;
    run_bound(f, &stages, &schema, table, select, query, &projection, types, &aliases, most)
}

} // verus!
