//! What a query is for: its outputs and their roles, its clauses, and the vector search in it.

use vstd::prelude::*;
use crate::ast::{
    optional, Body, BodyView, Distinct, Expr, OrderItem, OrderView, Phrase, PhraseView, Query, QueryView, Select,
    SelectView,
};
use crate::candidate::optional_count;
use crate::catalog::{Catalog, CatalogView};
use crate::error::{invalid, outcome, plain, unsupported, Error, ErrorView};
use crate::eval::{Schema, SchemaView};
use crate::explain::{copy_order_texts, copy_phrase_texts, fast_for, order_texts, phrase_texts, source_columns};
use crate::float::{computes, floats, FloatReply, FloatTask, Floats};
use crate::nearest::FastVectorTopKPlan;
use crate::projection::{
    build_projection, find_order_alias, matched_distance, order_output, output_aggregates, output_known, output_type,
    outputs_within, plain_column, projected, simple_column_expression, vector_expression, OutputView, Projection,
    ProjectionView,
};
use crate::query::{check_group_outputs, check_group_phrase, output_groupable, outputs_groupable, phrase_groupable};
use crate::aggregate::validate_group_expression;
use crate::read::{find_source_table, query_extended, select_advanced, source_table, validate_select};
use crate::select::{
    aggregates_placed, any_output_aggregates, check_condition, check_condition_type, check_outputs, condition_checked,
    condition_typed, lemma_projected_expressions, limit_value, offset_value, outputs_contain_aggregate, outputs_known,
    phrase_aggregates, phrase_contains_aggregate, query_limit, query_offset, validate_aggregate_placement,
};
use crate::text::{
    chars_of, decimal_count, decimal_text, join2, join3, join_all, joined, lemma_views_push, normalize_name, normalized,
    same_text, string_of, views,
};
use crate::types::{
    both, ensure_sortable_scalar_type, expression_data_type, expression_type, known_columns, sortable,
    validate_expression_columns,
};
use crate::value::{lemma_row_views_push, Column, ColumnView, DataType};

verus! {

broadcast use {vstd::string::group_string_axioms, lemma_views_push, lemma_row_views_push};

/// Semantic role assigned to a selected output column.
#[derive(Clone, Copy, Debug, PartialEq, Eq, Structural)]
pub enum QueryColumnRole {
    Identifier,
    Content,
    Attribute,
    Embedding,
    SimilarityScore,
    Aggregate,
    Computed,
}

impl QueryColumnRole {
    /// The name of the role.
    pub open spec fn notation(self) -> Seq<char> {
        match self {
            QueryColumnRole::Identifier => "identifier"@,
            QueryColumnRole::Content => "content"@,
            QueryColumnRole::Attribute => "attribute"@,
            QueryColumnRole::Embedding => "embedding"@,
            QueryColumnRole::SimilarityScore => "similarity_score"@,
            QueryColumnRole::Aggregate => "aggregate"@,
            QueryColumnRole::Computed => "computed"@,
        }
    }

    /// The name of the role.
    pub fn to_text(&self) -> (text: &'static str)
        ensures
            text@ == self.notation(),
    {
        match self {
            QueryColumnRole::Identifier => "identifier",
            QueryColumnRole::Content => "content",
            QueryColumnRole::Attribute => "attribute",
            QueryColumnRole::Embedding => "embedding",
            QueryColumnRole::SimilarityScore => "similarity_score",
            QueryColumnRole::Aggregate => "aggregate",
            QueryColumnRole::Computed => "computed",
        }
    }
}

/// Schema-aware description of one `SELECT` output.
#[derive(Debug)]
pub struct QueryIntentColumn {
    pub output_name: String,
    pub source_column: Option<String>,
    pub data_type: Option<DataType>,
    pub role: QueryColumnRole,
}

#[verifier::ext_equal]
pub struct IntentColumnView {
    pub output_name: Seq<char>,
    pub source_column: Option<Seq<char>>,
    pub data_type: Option<DataType>,
    pub role: QueryColumnRole,
}

impl View for QueryIntentColumn {
    type V = IntentColumnView;

    open spec fn view(&self) -> IntentColumnView {
        IntentColumnView {
            output_name: self.output_name@,
            source_column: optional(self.source_column),
            data_type: self.data_type,
            role: self.role,
        }
    }
}

/// Vector-ranking behavior recognized in a `SELECT` order expression.
#[derive(Debug)]
pub struct VectorQueryIntent {
    pub metric: String,
    pub column: String,
    pub dimensions: usize,
    pub descending: bool,
    pub optimized: bool,
}

#[verifier::ext_equal]
pub struct VectorIntentView {
    pub metric: Seq<char>,
    pub column: Seq<char>,
    pub dimensions: nat,
    pub descending: bool,
    pub optimized: bool,
}

impl View for VectorQueryIntent {
    type V = VectorIntentView;

    open spec fn view(&self) -> VectorIntentView {
        VectorIntentView {
            metric: self.metric@,
            column: self.column@,
            dimensions: self.dimensions as nat,
            descending: self.descending,
            optimized: self.optimized,
        }
    }
}

/// Validated, schema-aware intent extracted from one read-only SQL query.
#[derive(Debug)]
pub struct QueryIntent {
    pub table: Option<String>,
    pub columns: Vec<QueryIntentColumn>,
    pub distinct: bool,
    pub aggregation: bool,
    pub filter: Option<String>,
    pub group_by: Vec<String>,
    pub having: Option<String>,
    pub order_by: Vec<String>,
    pub limit: Option<usize>,
    pub offset: usize,
    pub vector_search: Option<VectorQueryIntent>,
    pub summary: String,
}

#[verifier::ext_equal]
pub struct IntentView {
    pub table: Option<Seq<char>>,
    pub columns: Seq<IntentColumnView>,
    pub distinct: bool,
    pub aggregation: bool,
    pub filter: Option<Seq<char>>,
    pub group_by: Seq<Seq<char>>,
    pub having: Option<Seq<char>>,
    pub order_by: Seq<Seq<char>>,
    pub limit: Option<nat>,
    pub offset: nat,
    pub vector_search: Option<VectorIntentView>,
    pub summary: Seq<char>,
}

impl View for QueryIntent {
    type V = IntentView;

    open spec fn view(&self) -> IntentView {
        IntentView {
            table: optional(self.table),
            columns: views(self.columns@),
            distinct: self.distinct,
            aggregation: self.aggregation,
            filter: optional(self.filter),
            group_by: views(self.group_by@),
            having: optional(self.having),
            order_by: views(self.order_by@),
            limit: optional_count(self.limit),
            offset: self.offset as nat,
            vector_search: optional(self.vector_search),
            summary: self.summary@,
        }
    }
}

/// Whether a word names textual content.
pub open spec fn content_word(word: Seq<char>) -> bool {
    word == "answer"@ || word == "body"@ || word == "chunk"@ || word == "content"@ || word == "description"@ || word
        == "document"@ || word == "label"@ || word == "name"@ || word == "question"@ || word == "summary"@ || word
        == "text"@ || word == "title"@
}

fn is_content_word(word: &str) -> (result: bool)
    ensures
        result == content_word(word@),
{
    same_text(word, "answer") || same_text(word, "body") || same_text(word, "chunk") || same_text(word, "content")
        || same_text(word, "description") || same_text(word, "document") || same_text(word, "label") || same_text(
        word,
        "name",
    ) || same_text(word, "question") || same_text(word, "summary") || same_text(word, "text") || same_text(word, "title")
}

/// Whether a part of the name between underscores, of those that end at `at` or later, names
/// content; the first of them starts at `start`.
pub open spec fn content_part(name: Seq<char>, start: nat, at: nat) -> bool
    decreases name.len() - at,
{
    if at >= name.len() {
        content_word(name.subrange(start as int, name.len() as int))
    } else if name[at as int] == '_' {
        content_word(name.subrange(start as int, at as int)) || content_part(name, at + 1, at + 1)
    } else {
        content_part(name, start, at + 1)
    }
}

/// Whether a column's name, or a part of it between underscores, names textual content.
pub open spec fn content_name(name: Seq<char>) -> bool {
    content_word(normalized(name)) || content_part(normalized(name), 0, 0)
}

/// Whether a column's name, or a part of it between underscores, names textual content.
pub fn content_column_name(name: &str) -> (result: bool)
    ensures
        result == content_name(name@),
{
    let lower = normalize_name(name);
    if is_content_word(lower.as_str()) {
        return true;
    }
    let chars = chars_of(lower.as_str());
    let mut start: usize = 0;
    let mut at: usize = 0;
    while at < chars.len()
        invariant
            chars@ == normalized(name@),
            start <= at <= chars@.len(),
            content_part(chars@, start as nat, at as nat) == content_part(chars@, 0, 0),
        decreases chars@.len() - at,
    {
        if chars[at] == '_' {
            let word = string_of(&chars, start, at);
            if is_content_word(word.as_str()) {
                return true;
            }
            start = at + 1;
        }
        at = at + 1;
    }
    let word = string_of(&chars, start, at);
    is_content_word(word.as_str())
}

/// The role of a column that is selected as it is.
pub open spec fn role_of(column: ColumnView) -> QueryColumnRole {
    if column.data_type is Vector {
        QueryColumnRole::Embedding
    } else if column.unique {
        QueryColumnRole::Identifier
    } else if column.data_type is Text && content_name(column.name) {
        QueryColumnRole::Content
    } else {
        QueryColumnRole::Attribute
    }
}

/// The role of a column that is selected as it is.
pub fn column_role(column: &Column) -> (role: QueryColumnRole)
    ensures
        role == role_of(column@),
{
    match column.data_type {
        DataType::Vector(_) => QueryColumnRole::Embedding,
        _ => {
            if column.unique {
                return QueryColumnRole::Identifier;
            }
            match column.data_type {
                DataType::Text => if content_column_name(column.name.as_str()) {
                    QueryColumnRole::Content
                } else {
                    QueryColumnRole::Attribute
                },
                _ => QueryColumnRole::Attribute,
            }
        },
    }
}

/// The facts that a summary is made of.
pub struct IntentSummary {
    pub table: Option<Seq<char>>,
    pub column_count: nat,
    pub distinct: bool,
    pub aggregate: bool,
    pub filtered: bool,
    pub group_by: Seq<Seq<char>>,
    pub having: bool,
    pub limit: Option<nat>,
    pub vector_search: Option<VectorIntentView>,
}

pub open spec fn summary_columns(count: nat) -> Seq<char> {
    if count == 1 {
        "1 selected column"@
    } else {
        decimal_text(count) + " selected columns"@
    }
}

pub open spec fn summary_limit(limit: Option<nat>) -> Seq<char> {
    match limit {
        None => ""@,
        Some(limit) => ", limited to "@ + decimal_text(limit) + (if limit == 1 {
            " row"@
        } else {
            " rows"@
        }),
    }
}

pub open spec fn summary_filter(filtered: bool) -> Seq<char> {
    if filtered {
        " after applying a relational filter"@
    } else {
        ""@
    }
}

pub open spec fn summary_groups(group_by: Seq<Seq<char>>) -> Seq<char> {
    if group_by.len() == 0 {
        ""@
    } else {
        ", grouped by "@ + joined(group_by, ", "@)
    }
}

/// A sentence that says what a query does.
pub open spec fn summarized(intent: IntentSummary) -> Seq<char> {
    let columns = summary_columns(intent.column_count);
    let limit = summary_limit(intent.limit);
    let filter = summary_filter(intent.filtered);
    match (intent.table, intent.vector_search) {
        (Some(table), Some(vector)) => "Rank rows from '"@ + table + "' by "@ + vector.metric + " on '"@ + vector.column + "'"@
            + filter + "; return "@ + columns + limit,
        (Some(table), None) => if intent.aggregate {
            "Aggregate rows from '"@ + table + "'"@ + filter + summary_groups(intent.group_by) + (if intent.having {
                " and filter the resulting groups"@
            } else {
                ""@
            }) + "; return "@ + columns + limit
        } else {
            "Read"@ + (if intent.distinct {
                " distinct"@
            } else {
                ""@
            }) + " "@ + columns + " from '"@ + table + "'"@ + filter + limit
        },
        (None, _) => "Compute "@ + columns + limit,
    }
}

fn limit_text(limit: Option<usize>) -> (text: String)
    ensures
        text@ == summary_limit(optional_count(limit)),
{
    match limit {
        None => "".to_owned(),
        Some(limit) => {
            let count = decimal_count(limit);
            join3(
                ", limited to ",
                count.as_str(),
                if limit == 1 {
                    " row"
                } else {
                    " rows"
                },
            )
        },
    }
}

fn groups_text(group_by: &Vec<String>) -> (text: String)
    ensures
        text@ == summary_groups(views(group_by@)),
{
    if group_by.len() == 0 {
        "".to_owned()
    } else {
        let list = join_all(group_by, ", ");
        join2(", grouped by ", list.as_str())
    }
}

/// A sentence that says what a query does.
pub fn intent_summary(
    table: &Option<String>,
    column_count: usize,
    distinct: bool,
    aggregate: bool,
    filtered: bool,
    group_by: &Vec<String>,
    having: bool,
    limit: Option<usize>,
    vector_search: &Option<VectorQueryIntent>,
) -> (text: String)
    ensures
        text@ == summarized(
            (IntentSummary {
                table: optional(*table),
                column_count: column_count as nat,
                distinct,
                aggregate,
                filtered,
                group_by: views(group_by@),
                having,
                limit: optional_count(limit),
                vector_search: optional(*vector_search),
            }),
        ),
{
    let columns = if column_count == 1 {
        "1 selected column".to_owned()
    } else {
        let count = decimal_count(column_count);
        join2(count.as_str(), " selected columns")
    };
    let limit = limit_text(limit);
    let filter: &str = if filtered {
        " after applying a relational filter"
    } else {
        ""
    };
    match (table, vector_search) {
        (Some(table), Some(vector)) => {
            let mut text = join3("Rank rows from '", table.as_str(), "' by ");
            text.append(vector.metric.as_str());
            text.append(" on '");
            text.append(vector.column.as_str());
            text.append("'");
            text.append(filter);
            text.append("; return ");
            text.append(columns.as_str());
            text.append(limit.as_str());
            text
        },
        (Some(table), None) => {
            if aggregate {
                let groups = groups_text(group_by);
                let mut text = join3("Aggregate rows from '", table.as_str(), "'");
                text.append(filter);
                text.append(groups.as_str());
                text.append(
                    if having {
                        " and filter the resulting groups"
                    } else {
                        ""
                    },
                );
                text.append("; return ");
                text.append(columns.as_str());
                text.append(limit.as_str());
                text
            } else {
                let mut text = join3(
                    "Read",
                    if distinct {
                        " distinct"
                    } else {
                        ""
                    },
                    " ",
                );
                text.append(columns.as_str());
                text.append(" from '");
                text.append(table.as_str());
                text.append("'");
                text.append(filter);
                text.append(limit.as_str());
                text
            }
        },
        (None, _) => join3("Compute ", columns.as_str(), limit.as_str()),
    }
}

/// Whether what an item orders by names existing columns and can be ordered.
pub open spec fn intent_order(item: OrderView, projection: Seq<ProjectionView>, schema: SchemaView, floats: Floats) -> Result<
    (),
    ErrorView,
> {
    let output = order_output(item.expr, projection);
    both(
        output_known(output, schema),
        match output_type(output, schema, floats) {
            Err(error) => Err(error),
            Ok(data_type) => sortable(data_type),
        },
    )
}

/// Whether what the items from `from` on order by names existing columns and can be ordered.
pub open spec fn intent_orders(
    items: Seq<OrderView>,
    projection: Seq<ProjectionView>,
    schema: SchemaView,
    floats: Floats,
    from: nat,
) -> Result<(), ErrorView>
    decreases items.len() - from,
{
    if from >= items.len() {
        Ok(())
    } else {
        match intent_order(items[from as int], projection, schema, floats) {
            Err(error) => Err(error),
            Ok(_) => intent_orders(items, projection, schema, floats, from + 1),
        }
    }
}

/// Whether the grouping phrases from `from` on name existing columns and have types.
pub open spec fn intent_groups(phrases: Seq<PhraseView>, schema: SchemaView, floats: Floats, from: nat) -> Result<(), ErrorView>
    decreases phrases.len() - from,
{
    if from >= phrases.len() {
        Ok(())
    } else {
        match known_columns(phrases[from as int].expr, schema) {
            Err(error) => Err(error),
            Ok(_) => match expression_type(phrases[from as int].expr, schema, floats) {
                Err(error) => Err(error),
                Ok(_) => intent_groups(phrases, schema, floats, from + 1),
            },
        }
    }
}

/// Whether what the items from `from` on order by can be computed for a group.
pub open spec fn intent_group_orders(
    items: Seq<OrderView>,
    projection: Seq<ProjectionView>,
    group_by: Seq<PhraseView>,
    schema: SchemaView,
    from: nat,
) -> Result<(), ErrorView>
    decreases items.len() - from,
{
    if from >= items.len() {
        Ok(())
    } else {
        match output_groupable(order_output(items[from as int].expr, projection), group_by, schema) {
            Err(error) => Err(error),
            Ok(_) => intent_group_orders(items, projection, group_by, schema, from + 1),
        }
    }
}

/// Whether the grouping of a query can be computed.
pub open spec fn intent_grouping(
    select: SelectView,
    items: Seq<OrderView>,
    projection: Seq<ProjectionView>,
    group_by: Seq<PhraseView>,
    grouped: bool,
    schema: SchemaView,
    floats: Floats,
) -> Result<(), ErrorView> {
    if grouped {
        both(
            intent_groups(group_by, schema, floats, 0),
            both(
                outputs_groupable(projection, group_by, schema, 0),
                both(
                    both(phrase_groupable(select.having, group_by, schema), condition_typed(select.having, schema, floats)),
                    intent_group_orders(items, projection, group_by, schema, 0),
                ),
            ),
        )
    } else if select.having is Some {
        Err(ErrorView::InvalidQuery("HAVING requires GROUP BY or an aggregate expression"@))
    } else {
        Ok(())
    }
}

/// The vector search that an item asks for.
pub open spec fn item_search(
    item: OrderView,
    projection: Seq<ProjectionView>,
    columns: Seq<ColumnView>,
    optimized: bool,
    floats: Floats,
) -> Result<Option<VectorIntentView>, ErrorView> {
    match order_output(item.expr, projection) {
        OutputView::Expr(expression) => match matched_distance(expression, columns, floats) {
            Err(error) => Err(error),
            Ok(None) => Ok(None),
            Ok(Some(distance)) => Ok(
                Some(
                    VectorIntentView {
                        metric: distance.metric.name(),
                        column: columns[distance.column as int].name,
                        dimensions: distance.query.len(),
                        descending: item.descending(),
                        optimized,
                    },
                ),
            ),
        },
        OutputView::At(_) => Ok(None),
    }
}

/// The vector search that the first of the items from `from` on asks for.
pub open spec fn first_search(
    items: Seq<OrderView>,
    projection: Seq<ProjectionView>,
    columns: Seq<ColumnView>,
    optimized: bool,
    floats: Floats,
    from: nat,
) -> Result<Option<VectorIntentView>, ErrorView>
    decreases items.len() - from,
{
    if from >= items.len() {
        Ok(None)
    } else {
        match item_search(items[from as int], projection, columns, optimized, floats) {
            Ok(None) => first_search(items, projection, columns, optimized, floats, from + 1),
            found => found,
        }
    }
}

/// What one output is.
pub open spec fn output_intent(item: ProjectionView, columns: Seq<ColumnView>, floats: Floats) -> Result<
    IntentColumnView,
    ErrorView,
> {
    match item.output {
        OutputView::Expr(expression) => match plain_column(expression, columns) {
            Some(index) => Ok(
                IntentColumnView {
                    output_name: item.label,
                    source_column: Some(columns[index as int].name),
                    data_type: Some(columns[index as int].data_type),
                    role: role_of(columns[index as int]),
                },
            ),
            None => match matched_distance(expression, columns, floats) {
                Err(error) => Err(error),
                Ok(Some(_)) => Ok(
                    IntentColumnView {
                        output_name: item.label,
                        source_column: None,
                        data_type: Some(DataType::Float),
                        role: QueryColumnRole::SimilarityScore,
                    },
                ),
                Ok(None) => match expression_type(expression, SchemaView::plain(columns), floats) {
                    Err(error) => Err(error),
                    Ok(data_type) => Ok(
                        IntentColumnView {
                            output_name: item.label,
                            source_column: None,
                            data_type,
                            role: if output_aggregates(item.output) {
                                QueryColumnRole::Aggregate
                            } else {
                                QueryColumnRole::Computed
                            },
                        },
                    ),
                },
            },
        },
        OutputView::At(_) => Ok(
            IntentColumnView {
                output_name: item.label,
                source_column: None,
                data_type: None,
                role: QueryColumnRole::Computed,
            },
        ),
    }
}

/// What the outputs from `from` on are, after `done`.
pub open spec fn output_intents(
    projection: Seq<ProjectionView>,
    columns: Seq<ColumnView>,
    floats: Floats,
    from: nat,
    done: Seq<IntentColumnView>,
) -> Result<Seq<IntentColumnView>, ErrorView>
    decreases projection.len() - from,
{
    if from >= projection.len() {
        Ok(done)
    } else {
        match output_intent(projection[from as int], columns, floats) {
            Err(error) => Err(error),
            Ok(column) => output_intents(projection, columns, floats, from + 1, done.push(column)),
        }
    }
}

pub open spec fn phrase_text(phrase: Option<PhraseView>) -> Option<Seq<char>> {
    match phrase {
        Some(phrase) => Some(phrase.text),
        None => None,
    }
}

/// The intent of a query whose clauses have been checked.
pub open spec fn described_intent(
    table: Option<Seq<char>>,
    select: SelectView,
    query: QueryView,
    columns: Seq<IntentColumnView>,
    group_by: Seq<PhraseView>,
    grouped: bool,
    offset: nat,
    limit: Option<nat>,
    search: Option<VectorIntentView>,
) -> IntentView {
    IntentView {
        table,
        columns,
        distinct: select.distinct != Distinct::No,
        aggregation: grouped,
        filter: phrase_text(select.selection),
        group_by: phrase_texts(group_by),
        having: phrase_text(select.having),
        order_by: order_texts(query.order_by),
        limit,
        offset,
        vector_search: search,
        summary: summarized(
            IntentSummary {
                table,
                column_count: columns.len(),
                distinct: select.distinct != Distinct::No,
                aggregate: grouped,
                filtered: select.selection is Some,
                group_by: phrase_texts(group_by),
                having: select.having is Some,
                limit,
                vector_search: search,
            },
        ),
    }
}

/// The intent of a query with this grouping and window.
pub open spec fn bounded_intent(
    table: Option<Seq<char>>,
    schema: Seq<ColumnView>,
    select: SelectView,
    query: QueryView,
    projection: Seq<ProjectionView>,
    group_by: Seq<PhraseView>,
    offset: nat,
    limit: Option<nat>,
    floats: Floats,
) -> Result<IntentView, ErrorView> {
    let grouped = group_by.len() > 0 || any_output_aggregates(projection, 0) || phrase_aggregates(select.having);
    match both(
        aggregates_placed(select.selection, group_by),
        intent_grouping(select, query.order_by, projection, group_by, grouped, SchemaView::plain(schema), floats),
    ) {
        Err(error) => Err(error),
        Ok(_) => match fast_for(grouped, select, query, schema, projection, offset, limit, floats) {
            Err(error) => Err(error),
            Ok(fast) => match first_search(query.order_by, projection, schema, fast is Some, floats, 0) {
                Err(error) => Err(error),
                Ok(search) => match output_intents(projection, schema, floats, 0, Seq::empty()) {
                    Err(error) => Err(error),
                    Ok(columns) => Ok(
                        described_intent(table, select, query, columns, group_by, grouped, offset, limit, search),
                    ),
                },
            },
        },
    }
}

/// The intent of a query over a schema.
pub open spec fn schema_intent(
    table: Option<Seq<char>>,
    schema: Seq<ColumnView>,
    select: SelectView,
    query: QueryView,
    floats: Floats,
) -> Result<IntentView, ErrorView> {
    let scope = SchemaView::plain(schema);
    match projected(select.projection, schema, 0, Seq::empty()) {
        Err(error) => Err(error),
        Ok(projection) => match both(
            outputs_known(projection, scope, 0),
            both(
                condition_checked(select.selection, scope, floats),
                intent_orders(query.order_by, projection, scope, floats, 0),
            ),
        ) {
            Err(error) => Err(error),
            Ok(_) => match offset_value(query, floats) {
                Err(error) => Err(error),
                Ok(offset) => match limit_value(query, floats) {
                    Err(error) => Err(error),
                    Ok(limit) => match select.group_by {
                        None => Err(ErrorView::Unsupported("GROUP BY ALL"@)),
                        Some(group_by) => bounded_intent(
                            table,
                            schema,
                            select,
                            query,
                            projection,
                            group_by,
                            offset,
                            limit,
                            floats,
                        ),
                    },
                },
            },
        },
    }
}

/// The name of the table that a query reads.
pub open spec fn source_title(catalog: CatalogView, at: Option<nat>) -> Option<Seq<char>> {
    match at {
        Some(at) => Some(catalog.tables[at as int].name),
        None => None,
    }
}

/// The intent of a query.
pub open spec fn analyzed(catalog: CatalogView, query: QueryView, floats: Floats) -> Result<IntentView, ErrorView> {
    if query.extended {
        Err(query_extended())
    } else {
        match query.body {
            BodyView::Select(select) => if select.advanced {
                Err(select_advanced())
            } else {
                match source_table(catalog, select.from, "query intent for joins and multiple FROM items"@) {
                    Err(error) => Err(error),
                    Ok(at) => schema_intent(
                        source_title(catalog, at),
                        source_columns(catalog, at),
                        select,
                        query,
                        floats,
                    ),
                }
            },
            _ => Err(ErrorView::Unsupported("query intent for set operations and nested queries"@)),
        }
    }
}

fn check_intent_orders<F: Fn(FloatTask) -> FloatReply>(
    f: &F,
    items: &Vec<OrderItem>,
    projection: &Vec<Projection<'_>>,
    schema: &Schema<'_>,
) -> (result: Result<(), Error>)
    requires
        computes(*f),
        schema@.valid(),
        outputs_within(views(projection@), schema.columns@.len()),
    ensures
        plain(result) == intent_orders(views(items@), views(projection@), schema@, floats(*f), 0),
{
    let mut index: usize = 0;
    while index < items.len()
        invariant
            computes(*f),
            schema@.valid(),
            outputs_within(views(projection@), schema.columns@.len()),
            index <= items@.len(),
            intent_orders(views(items@), views(projection@), schema@, floats(*f), index as nat) == intent_orders(
                views(items@),
                views(projection@),
                schema@,
                floats(*f),
                0,
            ),
        decreases items@.len() - index,
    {
        assert(views(items@)[index as int] == items@[index as int]@);
        let data_type = match find_order_alias(&items[index].expr, projection) {
            Some(at) => {
                assert(views(projection@)[at as int] == projection@[at as int]@);
                projection[at].output.check_columns(schema)?;
                projection[at].output.data_type(f, schema)?
            },
            None => {
                validate_expression_columns(&items[index].expr, schema)?;
                expression_data_type(f, &items[index].expr, schema)?
            },
        };
        ensure_sortable_scalar_type(data_type)?;
        index = index + 1;
    }
    Ok(())
}

fn check_intent_groups<F: Fn(FloatTask) -> FloatReply>(f: &F, phrases: &Vec<Phrase>, schema: &Schema<'_>) -> (result: Result<
    (),
    Error,
>)
    requires
        computes(*f),
        schema@.valid(),
    ensures
        plain(result) == intent_groups(views(phrases@), schema@, floats(*f), 0),
{
    let mut index: usize = 0;
    while index < phrases.len()
        invariant
            computes(*f),
            schema@.valid(),
            index <= phrases@.len(),
            intent_groups(views(phrases@), schema@, floats(*f), index as nat) == intent_groups(
                views(phrases@),
                schema@,
                floats(*f),
                0,
            ),
        decreases phrases@.len() - index,
    {
        assert(views(phrases@)[index as int] == phrases@[index as int]@);
        validate_expression_columns(&phrases[index].expr, schema)?;
        expression_data_type(f, &phrases[index].expr, schema)?;
        index = index + 1;
    }
    Ok(())
}

fn check_intent_group_orders(
    items: &Vec<OrderItem>,
    projection: &Vec<Projection<'_>>,
    group_by: &Vec<Phrase>,
    schema: &Schema<'_>,
) -> (result: Result<(), Error>)
    requires
        schema@.valid(),
    ensures
        plain(result) == intent_group_orders(views(items@), views(projection@), views(group_by@), schema@, 0),
{
    let mut index: usize = 0;
    while index < items.len()
        invariant
            schema@.valid(),
            index <= items@.len(),
            intent_group_orders(views(items@), views(projection@), views(group_by@), schema@, index as nat)
                == intent_group_orders(views(items@), views(projection@), views(group_by@), schema@, 0),
        decreases items@.len() - index,
    {
        assert(views(items@)[index as int] == items@[index as int]@);
        match find_order_alias(&items[index].expr, projection) {
            Some(at) => {
                assert(views(projection@)[at as int] == projection@[at as int]@);
                if let Some(expression) = projection[at].output.expression() {
                    validate_group_expression(expression, group_by, schema)?;
                }
            },
            None => validate_group_expression(&items[index].expr, group_by, schema)?,
        }
        index = index + 1;
    }
    Ok(())
}

pub open spec fn search_result(result: Result<Option<VectorQueryIntent>, Error>) -> Result<Option<VectorIntentView>, ErrorView> {
    match result {
        Ok(Some(search)) => Ok(Some(search@)),
        Ok(None) => Ok(None),
        Err(error) => Err(error@),
    }
}

fn search_expression<F: Fn(FloatTask) -> FloatReply>(
    f: &F,
    expression: &Expr,
    descending: bool,
    columns: &Vec<Column>,
    optimized: bool,
) -> (result: Result<Option<VectorQueryIntent>, Error>)
    requires
        computes(*f),
    ensures
        search_result(result) == (match matched_distance(expression@, views(columns@), floats(*f)) {
            Err(error) => Err(error),
            Ok(None) => Ok(None),
            Ok(Some(distance)) => Ok(
                Some(
                    VectorIntentView {
                        metric: distance.metric.name(),
                        column: views(columns@)[distance.column as int].name,
                        dimensions: distance.query.len(),
                        descending,
                        optimized,
                    },
                ),
            ),
        }),
{
    match vector_expression(f, expression, columns)? {
        None => Ok(None),
        Some(distance) => {
            assert(views(columns@)[distance.column as int] == columns@[distance.column as int]@);
            Ok(
                Some(
                    VectorQueryIntent {
                        metric: distance.metric.intent_name().to_owned(),
                        column: columns[distance.column].name.clone(),
                        dimensions: distance.query.dimensions(),
                        descending,
                        optimized,
                    },
                ),
            )
        },
    }
}

fn find_search<F: Fn(FloatTask) -> FloatReply>(
    f: &F,
    items: &Vec<OrderItem>,
    projection: &Vec<Projection<'_>>,
    columns: &Vec<Column>,
    optimized: bool,
) -> (result: Result<Option<VectorQueryIntent>, Error>)
    requires
        computes(*f),
    ensures
        search_result(result) == first_search(
            views(items@),
            views(projection@),
            views(columns@),
            optimized,
            floats(*f),
            0,
        ),
{
    let mut index: usize = 0;
    while index < items.len()
        invariant
            computes(*f),
            index <= items@.len(),
            first_search(views(items@), views(projection@), views(columns@), optimized, floats(*f), index as nat)
                == first_search(views(items@), views(projection@), views(columns@), optimized, floats(*f), 0),
        decreases items@.len() - index,
    {
        let item = &items[index];
        assert(views(items@)[index as int] == item@);
        let descending = match item.ascending {
            Some(ascending) => !ascending,
            None => false,
        };
        let found = match find_order_alias(&item.expr, projection) {
            Some(at) => {
                assert(views(projection@)[at as int] == projection@[at as int]@);
                match projection[at].output.expression() {
                    Some(expression) => search_expression(f, expression, descending, columns, optimized)?,
                    None => None,
                }
            },
            None => search_expression(f, &item.expr, descending, columns, optimized)?,
        };
        if found.is_some() {
            return Ok(found);
        }
        index = index + 1;
    }
    Ok(None)
}

fn describe_output<F: Fn(FloatTask) -> FloatReply>(f: &F, item: &Projection<'_>, columns: &Vec<Column>) -> (result: Result<
    QueryIntentColumn,
    Error,
>)
    requires
        computes(*f),
    ensures
        outcome(result) == output_intent(item@, views(columns@), floats(*f)),
{
    let expression = match item.output.expression() {
        Some(expression) => expression,
        None => return Ok(
            QueryIntentColumn {
                output_name: item.label.clone(),
                source_column: None,
                data_type: None,
                role: QueryColumnRole::Computed,
            },
        ),
    };
    if let Some(index) = simple_column_expression(expression, columns) {
        let column = &columns[index];
        assert(views(columns@)[index as int] == column@);
        return Ok(
            QueryIntentColumn {
                output_name: item.label.clone(),
                source_column: Some(column.name.clone()),
                data_type: Some(column.data_type),
                role: column_role(column),
            },
        );
    }
    if vector_expression(f, expression, columns)?.is_some() {
        return Ok(
            QueryIntentColumn {
                output_name: item.label.clone(),
                source_column: None,
                data_type: Some(DataType::Float),
                role: QueryColumnRole::SimilarityScore,
            },
        );
    }
    let schema = Schema { columns, sources: None };
    let data_type = expression_data_type(f, expression, &schema)?;
    Ok(
        QueryIntentColumn {
            output_name: item.label.clone(),
            source_column: None,
            data_type,
            role: if item.output.aggregates() {
                QueryColumnRole::Aggregate
            } else {
                QueryColumnRole::Computed
            },
        },
    )
}

fn describe_outputs<F: Fn(FloatTask) -> FloatReply>(f: &F, projection: &Vec<Projection<'_>>, columns: &Vec<Column>) -> (result: Result<
    Vec<QueryIntentColumn>,
    Error,
>)
    requires
        computes(*f),
    ensures
        match result {
            Ok(out) => output_intents(views(projection@), views(columns@), floats(*f), 0, Seq::empty()) == Ok::<
                Seq<IntentColumnView>,
                ErrorView,
            >(views(out@)),
            Err(error) => output_intents(views(projection@), views(columns@), floats(*f), 0, Seq::empty()) == Err::<
                Seq<IntentColumnView>,
                ErrorView,
            >(error@),
        },
{
    let mut out: Vec<QueryIntentColumn> = Vec::new();
    assert(views(out@) =~= Seq::<IntentColumnView>::empty());
    let mut index: usize = 0;
    while index < projection.len()
        invariant
            computes(*f),
            index <= projection@.len(),
            output_intents(views(projection@), views(columns@), floats(*f), index as nat, views(out@)) == output_intents(
                views(projection@),
                views(columns@),
                floats(*f),
                0,
                Seq::empty(),
            ),
        decreases projection@.len() - index,
    {
        assert(views(projection@)[index as int] == projection@[index as int]@);
        let column = describe_output(f, &projection[index], columns)?;
        out.push(column);
        index = index + 1;
    }
    Ok(out)
}

fn copy_phrase_text(phrase: &Option<Phrase>) -> (text: Option<String>)
    ensures
        optional(text) == phrase_text(optional(*phrase)),
{
    match phrase {
        Some(phrase) => Some(phrase.text.clone()),
        None => None,
    }
}

fn check_grouping<F: Fn(FloatTask) -> FloatReply>(
    f: &F,
    select: &Select,
    items: &Vec<OrderItem>,
    projection: &Vec<Projection<'_>>,
    group_by: &Vec<Phrase>,
    grouped: bool,
    schema: &Schema<'_>,
) -> (result: Result<(), Error>)
    requires
        computes(*f),
        schema@.valid(),
    ensures
        plain(result) == intent_grouping(
            select@,
            views(items@),
            views(projection@),
            views(group_by@),
            grouped,
            schema@,
            floats(*f),
        ),
{
    if grouped {
        check_intent_groups(f, group_by, schema)?;
        check_group_outputs(projection, group_by, schema)?;
        check_group_phrase(&select.having, group_by, schema)?;
        check_condition_type(f, &select.having, schema)?;
        check_intent_group_orders(items, projection, group_by, schema)
    } else if select.having.is_some() {
        Err(invalid("HAVING requires GROUP BY or an aggregate expression"))
    } else {
        Ok(())
    }
}

fn bound_intent<F: Fn(FloatTask) -> FloatReply>(
    f: &F,
    table: Option<String>,
    schema: &Vec<Column>,
    select: &Select,
    query: &Query,
    projection: &Vec<Projection<'_>>,
    group_by: &Vec<Phrase>,
    offset: usize,
    limit: Option<usize>,
) -> (result: Result<QueryIntent, Error>)
    requires
        computes(*f),
    ensures
        outcome(result) == bounded_intent(
            optional(table),
            views(schema@),
            select@,
            query@,
            views(projection@),
            views(group_by@),
            offset as nat,
            optional_count(limit),
            floats(*f),
        ),
{
    let scope = Schema { columns: schema, sources: None };
    validate_aggregate_placement(&select.selection, group_by)?;
    let grouped = group_by.len() > 0 || outputs_contain_aggregate(projection) || phrase_contains_aggregate(&select.having);
    check_grouping(f, select, &query.order_by, projection, group_by, grouped, &scope)?;
    let optimized = match limit {
        Some(limit) => if grouped {
            false
        } else {
            FastVectorTopKPlan::build(f, select.distinct, &query.order_by, schema, projection, offset, limit)?.is_some()
        },
        None => false,
    };
    let vector_search = find_search(f, &query.order_by, projection, schema, optimized)?;
    let columns = describe_outputs(f, projection, schema)?;
    let distinct = match select.distinct {
        Distinct::No => false,
        _ => true,
    };
    let groups = copy_phrase_texts(group_by);
    let summary = intent_summary(
        &table,
        columns.len(),
        distinct,
        grouped,
        select.selection.is_some(),
        &groups,
        select.having.is_some(),
        limit,
        &vector_search,
    );
    Ok(
        QueryIntent {
            table,
            columns,
            distinct,
            aggregation: grouped,
            filter: copy_phrase_text(&select.selection),
            group_by: groups,
            having: copy_phrase_text(&select.having),
            order_by: copy_order_texts(&query.order_by),
            limit,
            offset,
            vector_search,
            summary,
        },
    )
}

fn schema_query_intent<F: Fn(FloatTask) -> FloatReply>(
    f: &F,
    table: Option<String>,
    schema: &Vec<Column>,
    select: &Select,
    query: &Query,
) -> (result: Result<QueryIntent, Error>)
    requires
        computes(*f),
    ensures
        outcome(result) == schema_intent(optional(table), views(schema@), select@, query@, floats(*f)),
{
    let scope = Schema { columns: schema, sources: None };
    let projection = build_projection(&select.projection, schema)?;
    proof {
        lemma_projected_expressions(select@.projection, views(schema@), 0, Seq::empty());
    }
    check_outputs(&projection, &scope)?;
    check_condition(f, &select.selection, &scope)?;
    check_intent_orders(f, &query.order_by, &projection, &scope)?;
    let offset: usize = query_offset(f, query)?;
    let limit = query_limit(f, query)?;
    let group_by = match &select.group_by {
        Some(group_by) => group_by,
        None => return Err(unsupported("GROUP BY ALL")),
    };
    bound_intent(f, table, schema, select, query, &projection, group_by, offset, limit)
}

/// The intent of a query.
pub fn analyze_query_intent<F: Fn(FloatTask) -> FloatReply>(f: &F, catalog: &Catalog, query: &Query) -> (result: Result<
    QueryIntent,
    Error,
>)
    requires
        computes(*f),
    ensures
        outcome(result) == analyzed(catalog@, query@, floats(*f)),
{
    if query.extended {
        return Err(unsupported("CTEs, LIMIT BY, FETCH, row locks, and FOR clauses"));
    }
    let select = match &query.body {
        Body::Select(select) => select,
        _ => return Err(unsupported("query intent for set operations and nested queries")),
    };
    validate_select(select)?;
    match find_source_table(catalog, &select.from, "query intent for joins and multiple FROM items")? {
        Some(at) => {
            assert(catalog@.tables[at as int] == catalog.tables@[at as int]@);
            let entry = &catalog.tables[at];
            schema_query_intent(f, Some(entry.name.clone()), &entry.table.columns, select, query)
        },
        None => {
            let none: Vec<Column> = Vec::new();
            assert(views(none@) =~= Seq::<ColumnView>::empty());
            schema_query_intent(f, None, &none, select, query)
        },
    }
}

} // verus!
