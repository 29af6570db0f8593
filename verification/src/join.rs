//! Chains of joins on scalar equality.

use vstd::prelude::*;
use crate::ast::{
    argument_view, argument_views, expr_view, expr_views, ident_name, last_name, object_name, optional, Argument,
    ArgumentView, BinaryOperator, BinaryView, Expr, ExprView, Function, JoinOperator, JoinOperatorView, Relation,
    RelationView,
};
use crate::catalog::{Catalog, CatalogView};
use crate::error::{invalid, plain, unsupported, Error, ErrorView};
use crate::eval::{compound_identified, identified, source_position, JoinSource, JoinSourceView, Schema, SchemaView};
use crate::float::{compute_number, computes, floats, number, FloatReply, FloatTask, FloatTaskView, Floats};
use crate::index::matching;
use crate::operators::{compared, Comparison};
use crate::scan::find_index_on;
use crate::table::{valid_row, valid_value, Table, TableView};
use crate::text::{join2, lemma_text_rank_same, lemma_views_push, same_name, views};
use crate::types::{
    boolean, both, checked_column, comparable, contains_aggregate, ensure_boolean_type, ensure_comparable_types,
    expression_contains_aggregate, expression_data_type, expression_type,
};
use crate::value::{
    copy_columns, key_of, lemma_row_views_push, row_views, type_of, Column, ColumnView, DataType, UniqueKey, Value, ValueView,
};

verus! {

broadcast use {vstd::string::group_string_axioms, lemma_views_push, lemma_row_views_push};

/// How many tables a query can join.
pub const MAX_JOIN_TABLES: usize = 16;

/// Whether every name in an expression is bound, and nothing in it that a join cannot evaluate.
pub open spec fn bindable(expression: ExprView, schema: SchemaView) -> Result<(), ErrorView>
    decreases expression, 0nat,
{
    match expression {
        ExprView::Identifier(identifier, _) => checked_column(identified(schema, identifier)),
        ExprView::CompoundIdentifier(parts, _) => checked_column(compound_identified(schema, parts)),
        ExprView::Array(items, _, _) => all_bindable(items, schema, 0),
        ExprView::Function(function) => if function.null_treatment {
            Err(ErrorView::Unsupported("function NULL treatment in JOIN"@))
        } else {
            arguments_bindable(function.arguments, schema, 0)
        },
        ExprView::BinaryOp(left, _, right) => both(bindable(*left, schema), bindable(*right, schema)),
        ExprView::UnaryOp(_, inner) => bindable(*inner, schema),
        ExprView::Nested(inner) => bindable(*inner, schema),
        ExprView::Test(_, inner) => bindable(*inner, schema),
        ExprView::Cast { expr, data_type, formatted } => if formatted {
            Err(ErrorView::Unsupported("CAST ... FORMAT in JOIN"@))
        } else {
            bindable(*expr, schema)
        },
        ExprView::Between { expr, negated, low, high } => both(
            bindable(*expr, schema),
            both(bindable(*low, schema), bindable(*high, schema)),
        ),
        ExprView::InList { expr, list, negated } => both(bindable(*expr, schema), all_bindable(list, schema, 0)),
        ExprView::Like { expr, pattern, negated, escape, insensitive } => if escape is Some {
            Err(ErrorView::Unsupported("LIKE ... ESCAPE"@))
        } else {
            both(bindable(*expr, schema), bindable(*pattern, schema))
        },
        ExprView::Value(_) => Ok(()),
        ExprView::Other(_) => Ok(()),
    }
}

/// Whether the items from `from` on are bindable.
pub open spec fn all_bindable(items: Seq<ExprView>, schema: SchemaView, from: nat) -> Result<(), ErrorView>
    decreases items, (items.len() - from) as nat,
{
    if from >= items.len() {
        Ok(())
    } else {
        both(bindable(items[from as int], schema), all_bindable(items, schema, from + 1))
    }
}

/// Whether the arguments from `from` on are bindable.
pub open spec fn arguments_bindable(arguments: Seq<ArgumentView>, schema: SchemaView, from: nat) -> Result<(), ErrorView>
    decreases arguments, (arguments.len() - from) as nat,
{
    if from >= arguments.len() {
        Ok(())
    } else {
        match arguments[from as int] {
            ArgumentView::Expr(expression) => both(
                bindable(expression, schema),
                arguments_bindable(arguments, schema, from + 1),
            ),
            _ => Err(ErrorView::Unsupported("JOIN function wildcard or named arguments"@)),
        }
    }
}

fn bind_list(items: &Vec<Expr>, schema: &Schema<'_>) -> (result: Result<(), Error>)
    requires
        schema@.valid(),
    ensures
        plain(result) == all_bindable(expr_views(items@), schema@, 0),
    decreases items, 0nat,
{
    let mut index: usize = 0;
    while index < items.len()
        invariant
            schema@.valid(),
            index <= items@.len(),
            all_bindable(expr_views(items@), schema@, index as nat) == all_bindable(expr_views(items@), schema@, 0),
        decreases items@.len() - index,
    {
        assert(expr_views(items@)[index as int] == expr_view(items@[index as int]));
        bind_expression(&items[index], schema)?;
        index = index + 1;
    }
    Ok(())
}

fn bind_arguments(arguments: &Vec<Argument>, schema: &Schema<'_>) -> (result: Result<(), Error>)
    requires
        schema@.valid(),
    ensures
        plain(result) == arguments_bindable(argument_views(arguments@), schema@, 0),
    decreases arguments, 0nat,
{
    let mut index: usize = 0;
    while index < arguments.len()
        invariant
            schema@.valid(),
            index <= arguments@.len(),
            arguments_bindable(argument_views(arguments@), schema@, index as nat) == arguments_bindable(
                argument_views(arguments@),
                schema@,
                0,
            ),
        decreases arguments@.len() - index,
    {
        assert(argument_views(arguments@)[index as int] == argument_view(arguments@[index as int]));
        match &arguments[index] {
            Argument::Expr(expression) => bind_expression(expression, schema)?,
            _ => return Err(unsupported("JOIN function wildcard or named arguments")),
        }
        index = index + 1;
    }
    Ok(())
}

fn bind_function(function: &Function, schema: &Schema<'_>) -> (result: Result<(), Error>)
    requires
        schema@.valid(),
    ensures
        plain(result) == bindable(ExprView::Function(function@), schema@),
    decreases function, 0nat,
{
    if function.null_treatment {
        return Err(unsupported("function NULL treatment in JOIN"));
    }
    bind_arguments(&function.arguments, schema)
}

/// Fails exactly when a name in an expression is not bound, or a join cannot evaluate a part of it.
#[verifier::rlimit(60)]
pub fn bind_expression(expression: &Expr, schema: &Schema<'_>) -> (result: Result<(), Error>)
    requires
        schema@.valid(),
    ensures
        plain(result) == bindable(expression@, schema@),
    decreases expression, 1nat,
{
    match expression {
        Expr::Identifier(identifier, _) => {
            schema.resolve(identifier)?;
            Ok(())
        },
        Expr::CompoundIdentifier(parts, _) => {
            schema.resolve_compound(parts)?;
            Ok(())
        },
        Expr::Array(items, _, _) => bind_list(items, schema),
        Expr::Function(function) => bind_function(function, schema),
        Expr::BinaryOp(left, _, right) => {
            bind_expression(left, schema)?;
            bind_expression(right, schema)
        },
        Expr::UnaryOp(_, inner) => bind_expression(inner, schema),
        Expr::Nested(inner) => bind_expression(inner, schema),
        Expr::Test(_, inner) => bind_expression(inner, schema),
        Expr::Cast { expr, data_type: _, formatted } => {
            if *formatted {
                return Err(unsupported("CAST ... FORMAT in JOIN"));
            }
            bind_expression(expr, schema)
        },
        Expr::Between { expr, negated: _, low, high } => {
            bind_expression(expr, schema)?;
            bind_expression(low, schema)?;
            bind_expression(high, schema)
        },
        Expr::InList { expr, list, negated: _ } => {
            bind_expression(expr, schema)?;
            bind_list(list, schema)
        },
        Expr::Like { expr, pattern, negated: _, escape, insensitive: _ } => {
            if escape.is_some() {
                return Err(unsupported("LIKE ... ESCAPE"));
            }
            bind_expression(expr, schema)?;
            bind_expression(pattern, schema)
        },
        Expr::Value(_) => Ok(()),
        Expr::Other(_) => Ok(()),
    }
}

/// A table to be joined: its place in the catalog, and the name by which it is called.
pub open spec fn joined_table(catalog: CatalogView, relation: RelationView) -> Result<(nat, Seq<char>), ErrorView> {
    match relation {
        RelationView::Table { name, called, decorated, alias, text } => if called || decorated {
            Err(ErrorView::Unsupported("JOIN table source "@ + text))
        } else {
            match alias {
                Some(alias) if alias.renames => Err(ErrorView::Unsupported("JOIN table aliases with column lists"@)),
                _ => match catalog.located(last_name(name)) {
                    Err(error) => Err(error),
                    Ok(at) => Ok(
                        (
                            at,
                            match alias {
                                Some(alias) => alias.name.name(),
                                None => last_name(name),
                            },
                        ),
                    ),
                },
            }
        },
        RelationView::Other(text) => Err(ErrorView::Unsupported("JOIN table source "@ + text)),
    }
}

fn find_joined_table(catalog: &Catalog, relation: &Relation) -> (result: Result<(usize, String), Error>)
    ensures
        match result {
            Ok((at, qualifier)) => joined_table(catalog@, relation@) == Ok::<(nat, Seq<char>), ErrorView>(
                (at as nat, qualifier@),
            ) && at < catalog.tables@.len(),
            Err(error) => joined_table(catalog@, relation@) == Err::<(nat, Seq<char>), ErrorView>(error@),
        },
{
    match relation {
        Relation::Table { name, called, decorated, alias, text } => {
            if *called || *decorated {
                return Err(Error::Unsupported(join2("JOIN table source ", text.as_str())));
            }
            let title = object_name(name);
            let qualifier = match alias {
                Some(alias) => {
                    if alias.renames {
                        return Err(unsupported("JOIN table aliases with column lists"));
                    }
                    ident_name(&alias.name)
                },
                None => title.clone(),
            };
            let at: usize = catalog.locate(title.as_str())?;
            Ok((at, qualifier))
        },
        Relation::Other(text) => Err(Error::Unsupported(join2("JOIN table source ", text.as_str()))),
    }
}

/// The schema of a join with one more table.
pub open spec fn widened(schema: SchemaView, qualifier: Seq<char>, columns: Seq<ColumnView>) -> SchemaView {
    SchemaView {
        columns: schema.columns + columns,
        sources: Some(
            schema.sources->0.push(
                JoinSourceView { qualifier, start: schema.columns.len(), width: columns.len() },
            ),
        ),
    }
}

/// The schema of a join with one more table, and the table's place.
pub open spec fn appended(catalog: CatalogView, schema: SchemaView, relation: RelationView) -> Result<
    (SchemaView, nat),
    ErrorView,
> {
    match joined_table(catalog, relation) {
        Err(error) => Err(error),
        Ok((at, qualifier)) => if source_position(schema.sources->0, qualifier, 0) is Some {
            Err(ErrorView::InvalidQuery("JOIN requires distinct table names or aliases"@))
        } else {
            Ok((widened(schema, qualifier, catalog.tables[at as int].table.columns), at))
        },
    }
}

/// The columns and the tables of a join.
pub struct JoinSchema {
    pub columns: Vec<Column>,
    pub sources: Vec<JoinSource>,
}

impl View for JoinSchema {
    type V = SchemaView;

    open spec fn view(&self) -> SchemaView {
        SchemaView { columns: views(self.columns@), sources: Some(views(self.sources@)) }
    }
}

impl JoinSchema {
    /// The schema as expressions refer to it.
    pub fn of(&self) -> (schema: Schema<'_>)
        ensures
            schema@ == self@,
            schema.columns == &self.columns,
    {
        Schema { columns: &self.columns, sources: Some(&self.sources) }
    }

    fn knows(&self, qualifier: &str) -> (result: bool)
        ensures
            result == source_position(views(self.sources@), qualifier@, 0) is Some,
    {
        let mut index: usize = 0;
        while index < self.sources.len()
            invariant
                index <= self.sources@.len(),
                source_position(views(self.sources@), qualifier@, index as nat) == source_position(
                    views(self.sources@),
                    qualifier@,
                    0,
                ),
            decreases self.sources@.len() - index,
        {
            assert(views(self.sources@)[index as int] == self.sources@[index as int]@);
            if same_name(self.sources[index].qualifier.as_str(), qualifier) {
                return true;
            }
            index = index + 1;
        }
        false
    }

    /// A copy with one more table's columns.
    fn widen(&self, qualifier: String, columns: &Vec<Column>) -> (result: JoinSchema)
        requires
            self@.valid(),
        ensures
            result@ == widened(self@, qualifier@, views(columns@)),
            result@.valid(),
            result.columns@.len() == self.columns@.len() + columns@.len(),
    {
        let mut all = copy_columns(&self.columns);
        let start: usize = all.len();
        let mut added = copy_columns(columns);
        let width: usize = added.len();
        assert(views(all@).len() == self.columns@.len());
        assert(views(added@).len() == columns@.len());
        let ghost first = views(all@);
        let ghost second = views(added@);
        all.append(&mut added);
        assert(views(all@) =~= first + second);
        let mut sources: Vec<JoinSource> = Vec::new();
        let mut index: usize = 0;
        while index < self.sources.len()
            invariant
                index <= self.sources@.len(),
                sources@.len() == index,
                forall|i: int| 0 <= i < index ==> (#[trigger] sources@[i])@ == self.sources@[i]@,
            decreases self.sources@.len() - index,
        {
            let source = &self.sources[index];
            sources.push(JoinSource { qualifier: source.qualifier.clone(), start: source.start, width: source.width });
            index = index + 1;
        }
        assert(views(sources@) =~= views(self.sources@));
        let source = JoinSource { qualifier, start, width };
        sources.push(source);
        let result = JoinSchema { columns: all, sources };
        proof {
            let listed = result@.sources->0;
            assert(result@.columns =~= self@.columns + views(columns@));
            assert forall|i: int| 0 <= i < listed.len() implies (#[trigger] listed[i]).start + listed[i].width
                <= result@.columns.len() by {
                if i < self.sources@.len() {
                    assert(listed[i] == self@.sources->0[i]);
                }
            }
        }
        result
    }

    /// The schema of no table.
    pub fn empty() -> (schema: JoinSchema)
        ensures
            schema@ == (SchemaView { columns: Seq::empty(), sources: Some(Seq::empty()) }),
            schema@.valid(),
            schema.columns@.len() == 0,
    {
        let schema = JoinSchema { columns: Vec::new(), sources: Vec::new() };
        assert(views(schema.columns@) =~= Seq::<ColumnView>::empty());
        assert(views(schema.sources@) =~= Seq::<JoinSourceView>::empty());
        schema
    }

    /// A copy with one more table, and the table's place.
    pub fn append(&self, catalog: &Catalog, relation: &Relation) -> (result: Result<(JoinSchema, usize), Error>)
        requires
            self@.valid(),
        ensures
            match result {
                Ok((schema, at)) => appended(catalog@, self@, relation@) == Ok::<(SchemaView, nat), ErrorView>(
                    (schema@, at as nat),
                ) && schema@.valid() && at < catalog.tables@.len() && schema.columns@.len() == self.columns@.len()
                    + catalog.tables@[at as int].table.columns@.len(),
                Err(error) => appended(catalog@, self@, relation@) == Err::<(SchemaView, nat), ErrorView>(error@),
            },
    {
        let (at, qualifier) = find_joined_table(catalog, relation)?;
        if self.knows(qualifier.as_str()) {
            return Err(invalid("JOIN requires distinct table names or aliases"));
        }
        assert(catalog@.tables[at as int] == catalog.tables@[at as int]@);
        Ok((self.widen(qualifier, &catalog.tables[at].table.columns), at))
    }
}

/// Whether an expression is the name of a column.
pub open spec fn is_reference(expression: ExprView) -> bool {
    expression is Identifier || expression is CompoundIdentifier
}

/// The column that a name refers to.
pub open spec fn referenced(expression: ExprView, schema: SchemaView) -> Result<nat, ErrorView> {
    match expression {
        ExprView::Identifier(identifier, _) => identified(schema, identifier),
        ExprView::CompoundIdentifier(parts, _) => compound_identified(schema, parts),
        _ => Err(ErrorView::Unsupported("JOIN keys must be scalar column references"@)),
    }
}

fn resolve_reference(expression: &Expr, schema: &Schema<'_>) -> (result: Result<usize, Error>)
    requires
        schema@.valid(),
    ensures
        match result {
            Ok(index) => referenced(expression@, schema@) == Ok::<nat, ErrorView>(index as nat) && index
                < schema.columns@.len(),
            Err(error) => referenced(expression@, schema@) == Err::<nat, ErrorView>(error@),
        },
{
    match expression {
        Expr::Identifier(identifier, _) => schema.resolve(identifier),
        Expr::CompoundIdentifier(parts, _) => schema.resolve_compound(parts),
        _ => Err(unsupported("JOIN keys must be scalar column references")),
    }
}

/// The columns of an equality between what stands before `boundary` and what stands after it: the
/// first, and the place of the second after `boundary`.
pub open spec fn key_pair(a: nat, b: nat, boundary: nat) -> Option<(nat, nat)> {
    if a < boundary && b >= boundary {
        Some((a, (b - boundary) as nat))
    } else if a >= boundary && b < boundary {
        Some((b, (a - boundary) as nat))
    } else {
        None
    }
}

/// The columns by whose equality a condition joins a table that starts at `boundary`.
pub open spec fn equijoin(condition: ExprView, schema: SchemaView, boundary: nat) -> Result<Option<(nat, nat)>, ErrorView>
    decreases condition,
{
    match condition {
        ExprView::Nested(inner) => equijoin(*inner, schema, boundary),
        ExprView::BinaryOp(left, BinaryView::And, right) => match equijoin(*left, schema, boundary) {
            Err(error) => Err(error),
            Ok(first) => match equijoin(*right, schema, boundary) {
                Err(error) => Err(error),
                Ok(second) => Ok(
                    if first is Some {
                        first
                    } else {
                        second
                    },
                ),
            },
        },
        ExprView::BinaryOp(left, BinaryView::Eq, right) => if is_reference(*left) && is_reference(*right) {
            match referenced(*left, schema) {
                Err(error) => Err(error),
                Ok(a) => match referenced(*right, schema) {
                    Err(error) => Err(error),
                    Ok(b) => Ok(key_pair(a, b, boundary)),
                },
            }
        } else {
            Ok(None)
        },
        _ => Ok(None),
    }
}

fn is_column_reference(expression: &Expr) -> (result: bool)
    ensures
        result == is_reference(expression@),
{
    match expression {
        Expr::Identifier(_, _) => true,
        Expr::CompoundIdentifier(_, _) => true,
        _ => false,
    }
}

pub open spec fn pair_view(pair: Option<(usize, usize)>) -> Option<(nat, nat)> {
    match pair {
        Some((a, b)) => Some((a as nat, b as nat)),
        None => None,
    }
}

/// The columns by whose equality a condition joins a table that starts at `boundary`.
pub fn equijoin_key(condition: &Expr, schema: &Schema<'_>, boundary: usize) -> (result: Result<Option<(usize, usize)>, Error>)
    requires
        schema@.valid(),
        boundary <= schema.columns@.len(),
    ensures
        match result {
            Ok(pair) => equijoin(condition@, schema@, boundary as nat) == Ok::<Option<(nat, nat)>, ErrorView>(pair_view(pair))
                && (pair matches Some((a, b)) ==> a < boundary && boundary + b < schema.columns@.len()),
            Err(error) => equijoin(condition@, schema@, boundary as nat) == Err::<Option<(nat, nat)>, ErrorView>(error@),
        },
    decreases condition,
{
    match condition {
        Expr::Nested(inner) => equijoin_key(inner, schema, boundary),
        Expr::BinaryOp(left, operator, right) => match operator {
            BinaryOperator::And => {
                let first = equijoin_key(left, schema, boundary)?;
                let second = equijoin_key(right, schema, boundary)?;
                if first.is_some() {
                    Ok(first)
                } else {
                    Ok(second)
                }
            },
            BinaryOperator::Eq => {
                if is_column_reference(left) && is_column_reference(right) {
                    let a: usize = resolve_reference(left, schema)?;
                    let b: usize = resolve_reference(right, schema)?;
                    if a < boundary && b >= boundary {
                        Ok(Some((a, b - boundary)))
                    } else if a >= boundary && b < boundary {
                        Ok(Some((b, a - boundary)))
                    } else {
                        Ok(None)
                    }
                } else {
                    Ok(None)
                }
            },
            _ => Ok(None),
        },
        _ => Ok(None),
    }
}

/// One joined table: the schema up to it, its rows, the columns that are equal, and the condition.
pub struct JoinStage<'a> {
    pub schema: JoinSchema,
    pub table: &'a Table,
    pub boundary: usize,
    pub left_key: usize,
    pub right_key: usize,
    pub numeric_coercion: bool,
    pub outer: bool,
    pub on: &'a Expr,
}

pub struct StageView {
    pub schema: SchemaView,
    pub rows: Seq<Seq<ValueView>>,
    pub width: nat,
    pub left_key: nat,
    pub right_key: nat,
    pub numeric_coercion: bool,
    pub outer: bool,
    pub on: ExprView,
}

impl<'a> View for JoinStage<'a> {
    type V = StageView;

    open spec fn view(&self) -> StageView {
        StageView {
            schema: self.schema@,
            rows: self.table@.rows,
            width: self.table.columns@.len(),
            left_key: self.left_key as nat,
            right_key: self.right_key as nat,
            numeric_coercion: self.numeric_coercion,
            outer: self.outer,
            on: self.on@,
        }
    }
}

impl<'a> JoinStage<'a> {
    pub open spec fn wf(self) -> bool {
        &&& self.schema@.valid()
        &&& self.table.wf()
        &&& self.schema.columns@.len() == self.boundary + self.table.columns@.len()
        &&& self.left_key < self.boundary
        &&& self.right_key < self.table.columns@.len()
        &&& !(self.table.columns@[self.right_key as int].data_type is Vector)
    }
}

/// The condition of a join, and whether unmatched rows are kept.
pub open spec fn join_condition(operator: JoinOperatorView) -> Result<(bool, ExprView), ErrorView> {
    match operator {
        JoinOperatorView::Inner(on) => Ok((false, on)),
        JoinOperatorView::LeftOuter(on) => Ok((true, on)),
        JoinOperatorView::Other => Err(
            ErrorView::Unsupported("JOIN requires INNER or LEFT JOIN with an ON scalar equality"@),
        ),
    }
}

/// Whether two key columns can be compared as scalars.
pub open spec fn keys_checked(left: DataType, right: DataType) -> Result<(), ErrorView> {
    if left is Vector || right is Vector {
        Err(ErrorView::Unsupported("JOIN keys must be scalar columns"@))
    } else {
        comparable(Some(left), Some(right), Comparison::Eq)
    }
}

/// Whether a condition is bound and is one.
pub open spec fn bound_condition(condition: ExprView, schema: SchemaView, floats: Floats) -> Result<(), ErrorView> {
    match bindable(condition, schema) {
        Err(error) => Err(error),
        Ok(_) => match expression_type(condition, schema, floats) {
            Err(error) => Err(error),
            Ok(data_type) => boolean(data_type),
        },
    }
}

/// The stage of a table that is the last of the schema.
pub open spec fn staged(schema: SchemaView, table: TableView, operator: JoinOperatorView, floats: Floats) -> Result<
    StageView,
    ErrorView,
> {
    match join_condition(operator) {
        Err(error) => Err(error),
        Ok((outer, on)) => if contains_aggregate(on) {
            Err(ErrorView::Unsupported("aggregate expressions in JOIN ON"@))
        } else {
            let boundary = (schema.columns.len() - table.columns.len()) as nat;
            match equijoin(on, schema, boundary) {
                Err(error) => Err(error),
                Ok(None) => Err(
                    ErrorView::Unsupported(
                        "JOIN ON requires scalar column equality between an earlier table and the newly joined table"@,
                    ),
                ),
                Ok(Some((left_key, right_key))) => {
                    let left = schema.columns[left_key as int].data_type;
                    let right = table.columns[right_key as int].data_type;
                    match both(keys_checked(left, right), bound_condition(on, schema, floats)) {
                        Err(error) => Err(error),
                        Ok(_) => Ok(
                            StageView {
                                schema,
                                rows: table.rows,
                                width: table.columns.len(),
                                left_key,
                                right_key,
                                numeric_coercion: left != right,
                                outer,
                                on,
                            },
                        ),
                    }
                },
            }
        },
    }
}

fn check_keys(left: DataType, right: DataType) -> (result: Result<(), Error>)
    ensures
        plain(result) == keys_checked(left, right),
{
    match (left, right) {
        (DataType::Vector(_), _) => Err(unsupported("JOIN keys must be scalar columns")),
        (_, DataType::Vector(_)) => Err(unsupported("JOIN keys must be scalar columns")),
        _ => ensure_comparable_types(Some(left), Some(right), Comparison::Eq),
    }
}

pub fn check_bound_condition<F: Fn(FloatTask) -> FloatReply>(f: &F, condition: &Expr, schema: &Schema<'_>) -> (result: Result<(), Error>)
    requires
        computes(*f),
        schema@.valid(),
    ensures
        plain(result) == bound_condition(condition@, schema@, floats(*f)),
{
    bind_expression(condition, schema)?;
    let data_type = expression_data_type(f, condition, schema)?;
    ensure_boolean_type(data_type)
}

/// The stage of a table that is the last of the schema.
pub fn make_stage<'a, F: Fn(FloatTask) -> FloatReply>(f: &F, schema: JoinSchema, table: &'a Table, operator: &'a JoinOperator) -> (result: Result<
    JoinStage<'a>,
    Error,
>)
    requires
        computes(*f),
        schema@.valid(),
        table.wf(),
        table.columns@.len() <= schema.columns@.len(),
        table@.columns == schema@.columns.skip(schema.columns@.len() - table.columns@.len()),
    ensures
        match result {
            Ok(stage) => staged(schema@, table@, operator@, floats(*f)) == Ok::<StageView, ErrorView>(stage@) && stage.wf()
                && stage.schema == schema && stage.table == table,
            Err(error) => staged(schema@, table@, operator@, floats(*f)) == Err::<StageView, ErrorView>(error@),
        },
{
    let (outer, on) = match operator {
        JoinOperator::Inner(on) => (false, on),
        JoinOperator::LeftOuter(on) => (true, on),
        JoinOperator::Other => return Err(
            unsupported("JOIN requires INNER or LEFT JOIN with an ON scalar equality"),
        ),
    };
    if expression_contains_aggregate(on) {
        return Err(unsupported("aggregate expressions in JOIN ON"));
    }
    let boundary: usize = schema.columns.len() - table.columns.len();
    let keys = equijoin_key(on, &schema.of(), boundary)?;
    let (left_key, right_key) = match keys {
        Some(keys) => keys,
        None => return Err(
            unsupported(
                "JOIN ON requires scalar column equality between an earlier table and the newly joined table",
            ),
        ),
    };
    assert(schema@.columns[left_key as int] == schema.columns@[left_key as int]@);
    assert(table@.columns[right_key as int] == table.columns@[right_key as int]@);
    let left = schema.columns[left_key].data_type;
    let right = table.columns[right_key].data_type;
    check_keys(left, right)?;
    check_bound_condition(f, on, &schema.of())?;
    let numeric_coercion = left != right;
    Ok(JoinStage { schema, table, boundary, left_key, right_key, numeric_coercion, outer, on })
}

/// The key by which a value is joined; an integer that meets floating-point numbers is one of them.
pub open spec fn join_key(value: ValueView, coercion: bool, floats: Floats) -> Option<ValueView> {
    match value {
        ValueView::Null => None,
        ValueView::Integer(number0) if coercion => Some(
            key_of(ValueView::Float(number(floats, FloatTaskView::FromInteger(number0)))),
        ),
        _ => Some(key_of(value)),
    }
}

/// The rows below `count` that a key joins.
pub open spec fn join_matching(
    rows: Seq<Seq<ValueView>>,
    column: int,
    key: ValueView,
    coercion: bool,
    floats: Floats,
    count: nat,
) -> Seq<usize>
    decreases count,
{
    if count == 0 {
        Seq::empty()
    } else {
        let before = join_matching(rows, column, key, coercion, floats, (count - 1) as nat);
        if join_key(rows[count - 1][column], coercion, floats) == Some(key) {
            before.push((count - 1) as usize)
        } else {
            before
        }
    }
}

/// The rows of a stage that a row joins.
pub open spec fn stage_matches(stage: StageView, row: Seq<ValueView>, floats: Floats) -> Seq<usize> {
    match join_key(row[stage.left_key as int], stage.numeric_coercion, floats) {
        None => Seq::empty(),
        Some(key) => join_matching(
            stage.rows,
            stage.right_key as int,
            key,
            stage.numeric_coercion,
            floats,
            stage.rows.len(),
        ),
    }
}

/// Without coercion a maintained index gives the rows that a key joins.
proof fn lemma_join_matching(rows: Seq<Seq<ValueView>>, column: int, key: ValueView, floats: Floats, count: nat)
    requires
        count <= rows.len(),
        forall|i: int| 0 <= i < rows.len() ==> !((#[trigger] rows[i])[column] is Vector),
    ensures
        join_matching(rows, column, key, false, floats, count) == matching(rows, column, key, count),
    decreases count,
{
    if count > 0 {
        lemma_join_matching(rows, column, key, floats, (count - 1) as nat);
        assert(!(rows[count - 1][column] is Vector));
    }
}

proof fn lemma_join_positions(
    rows: Seq<Seq<ValueView>>,
    column: int,
    key: ValueView,
    coercion: bool,
    floats: Floats,
    count: nat,
)
    requires
        count <= rows.len(),
        rows.len() <= usize::MAX,
    ensures
        forall|i: int|
            0 <= i < join_matching(rows, column, key, coercion, floats, count).len() ==> (
            #[trigger] join_matching(rows, column, key, coercion, floats, count)[i]) < count,
    decreases count,
{
    if count > 0 {
        lemma_join_positions(rows, column, key, coercion, floats, (count - 1) as nat);
        let before = join_matching(rows, column, key, coercion, floats, (count - 1) as nat);
        let now = join_matching(rows, column, key, coercion, floats, count);
        assert forall|i: int| 0 <= i < now.len() implies (#[trigger] now[i]) < count by {
            if i < before.len() {
                assert(now[i] == before[i]);
            }
        }
    }
}

fn key_of_join<F: Fn(FloatTask) -> FloatReply>(f: &F, value: &Value, coercion: bool) -> (key: Option<UniqueKey>)
    requires
        computes(*f),
    ensures
        optional(key) == join_key(value@, coercion, floats(*f)),
{
    match value {
        Value::Null => None,
        Value::Integer(number) => {
            if coercion {
                let bits: u64 = compute_number(f, FloatTask::FromInteger(*number));
                Some(UniqueKey::of(&Value::Float(bits)))
            } else {
                Some(UniqueKey::of(value))
            }
        },
        _ => Some(UniqueKey::of(value)),
    }
}

fn scan_matches<F: Fn(FloatTask) -> FloatReply>(f: &F, rows: &Vec<Vec<Value>>, column: usize, key: &UniqueKey, coercion: bool) -> (result: Vec<
    usize,
>)
    requires
        computes(*f),
        forall|i: int| 0 <= i < rows@.len() ==> (#[trigger] rows@[i])@.len() > column,
    ensures
        result@ == join_matching(row_views(rows@), column as int, key@, coercion, floats(*f), rows@.len()),
{
    let mut out: Vec<usize> = Vec::new();
    let mut index: usize = 0;
    while index < rows.len()
        invariant
            computes(*f),
            forall|i: int| 0 <= i < rows@.len() ==> (#[trigger] rows@[i])@.len() > column,
            index <= rows@.len(),
            out@ == join_matching(row_views(rows@), column as int, key@, coercion, floats(*f), index as nat),
        decreases rows@.len() - index,
    {
        let row = &rows[index];
        assert(row_views(rows@)[index as int] == views(row@));
        assert(views(row@)[column as int] == row@[column as int]@);
        if let Some(other) = key_of_join(f, &row[column], coercion) {
            if other.same_as(key) {
                out.push(index);
            }
        }
        index = index + 1;
    }
    out
}

/// The rows of a stage that a row joins.
pub fn find_matches<F: Fn(FloatTask) -> FloatReply>(f: &F, stage: &JoinStage<'_>, row: &Vec<Value>) -> (result: Vec<usize>)
    requires
        computes(*f),
        stage.wf(),
        row@.len() == stage.boundary,
    ensures
        result@ == stage_matches(stage@, views(row@), floats(*f)),
        forall|i: int| 0 <= i < result@.len() ==> (#[trigger] result@[i]) < stage.table.rows@.len(),
{
    assert(views(row@)[stage.left_key as int] == row@[stage.left_key as int]@);
    let key = match key_of_join(f, &row[stage.left_key], stage.numeric_coercion) {
        Some(key) => key,
        None => return Vec::new(),
    };
    let table = stage.table;
    let total: usize = table.rows.len();
    proof {
        assert(table@.rows.len() == total);
        lemma_join_positions(
            table@.rows,
            stage.right_key as int,
            key@,
            stage.numeric_coercion,
            floats(*f),
            table@.rows.len(),
        );
        assert forall|i: int| 0 <= i < table.rows@.len() implies (#[trigger] table.rows@[i])@.len() > stage.right_key by {
            assert(valid_row(table@.columns, table@.rows[i]));
            assert(table@.rows[i] == views(table.rows@[i]@));
        }
    }
    if !stage.numeric_coercion {
        if let Some(position) = find_index_on(&table.indexes, stage.right_key) {
            proof {
                let column = stage.right_key as int;
                assert forall|i: int| 0 <= i < table@.rows.len() implies !((#[trigger] table@.rows[i])[column] is Vector) by {
                    assert(valid_row(table@.columns, table@.rows[i]));
                    assert(valid_value(table@.columns[column], table@.rows[i][column]));
                    assert(table@.columns[column] == table.columns@[column]@);
                }
                lemma_join_matching(table@.rows, column, key@, floats(*f), table@.rows.len());
                assert(table.indexes@[position as int].index.covers(table@.rows, table.rows@.len()));
            }
            return table.indexes[position].index.lookup(&key);
        }
    }
    scan_matches(f, &table.rows, stage.right_key, &key, stage.numeric_coercion)
}

/// The rows with a key are exactly those found by it.
proof fn lemma_join_contains(
    rows: Seq<Seq<ValueView>>,
    column: int,
    key: ValueView,
    coercion: bool,
    floats: Floats,
    count: nat,
    at: usize,
)
    requires
        at < count <= rows.len(),
        rows.len() <= usize::MAX,
    ensures
        join_matching(rows, column, key, coercion, floats, count).contains(at) <==> join_key(
            rows[at as int][column],
            coercion,
            floats,
        ) == Some(key),
    decreases count,
{
    let before = join_matching(rows, column, key, coercion, floats, (count - 1) as nat);
    let now = join_matching(rows, column, key, coercion, floats, count);
    lemma_join_positions(rows, column, key, coercion, floats, (count - 1) as nat);
    if at == count - 1 {
        if now.len() > before.len() {
            assert(now[before.len() as int] == at);
        } else if now.contains(at) {
            let i = choose|i: int| 0 <= i < now.len() && now[i] == at;
            assert(before[i] == at);
        }
    } else {
        lemma_join_contains(rows, column, key, coercion, floats, (count - 1) as nat, at);
        if before.contains(at) {
            let i = choose|i: int| 0 <= i < before.len() && before[i] == at;
            assert(now[i] == at);
        } else if now.contains(at) {
            let i = choose|i: int| 0 <= i < now.len() && now[i] == at;
            assert(i < before.len());
            assert(before[i] == at);
        }
    }
}

/// A row meets exactly the rows of the joined table whose key is equal to its own as SQL compares
/// them, and no row where either key is `NULL`. Keys that cannot be compared decide nothing.
pub proof fn law_equal_keys_are_joined(stage: StageView, row: Seq<ValueView>, at: usize, floats: Floats)
    requires
        at < stage.rows.len() <= usize::MAX,
        !(row[stage.left_key as int] is Vector),
        !(stage.rows[at as int][stage.right_key as int] is Vector),
        row[stage.left_key as int] is Null || stage.rows[at as int][stage.right_key as int] is Null || stage.numeric_coercion
            == (type_of(row[stage.left_key as int]) != type_of(stage.rows[at as int][stage.right_key as int])),
    ensures
        ({
            let left = row[stage.left_key as int];
            let right = stage.rows[at as int][stage.right_key as int];
            let joined = stage_matches(stage, row, floats).contains(at);
            match compared(floats, left, right, Comparison::Eq) {
                Ok(value) => joined <==> value == ValueView::Boolean(true),
                Err(_) => true,
            }
        }),
{
    let left = row[stage.left_key as int];
    let right = stage.rows[at as int][stage.right_key as int];
    if let Some(key) = join_key(left, stage.numeric_coercion, floats) {
        lemma_join_contains(
            stage.rows,
            stage.right_key as int,
            key,
            stage.numeric_coercion,
            floats,
            stage.rows.len(),
            at,
        );
    }
    if let (ValueView::Text(a), ValueView::Text(b)) = (left, right) {
        lemma_text_rank_same(a, b, 0);
        assert(a.skip(0) =~= a && b.skip(0) =~= b);
    }
}

} // verus!
