//! The statements of SQL text.

use vstd::prelude::*;
use crate::ast::{
    name_lists, optional, optional_name, Alias, AliasView, Assignment, AssignmentView, Body, BodyView, ColumnDef,
    ColumnDefView, ColumnOption, ColumnOptionView, ConflictTarget, ConflictTargetView, Distinct, DoUpdate, DoUpdateView,
    DropKind, DropKindView, Expr, ExprView, Ident, IdentView, Join, JoinOperator, JoinOperatorView, JoinView, OnInsert,
    OnInsertView, OrderItem, OrderView, Phrase, PhraseView, Query, QueryView, Relation, RelationView, Select,
    SelectItem, SelectItemView, SelectView, Statement, StatementView, TableConstraint, TableConstraintView,
    TableWithJoins, TableWithJoinsView,
};
use crate::json::{entries_of, items_of, TreeView};
use crate::sql::{
    expr_of, given, ident_of, idents_of, is_given, is_marked, listed, make_expr, make_ident, make_idents, make_name,
    make_type_part, marked, part, take_listed, take_variant, type_part, variant,
};
use crate::syntax::{
    constraint_notation, constraint_text, entry_views, expression_notation, expression_text, find_entry,
    is_null, is_unwritable, object_notation, object_text, option_notation, option_text, ordering_notation, ordering_text,
    relation_notation, relation_text, selection_notation, selection_text, statement_notation, statement_text,
    syntax_node, take_entries, take_items, take_text, unwritable, Syntax, SyntaxNode,
};
use crate::text::{lemma_views_push, same_text, views};

verus! {

broadcast use {vstd::string::group_string_axioms, lemma_views_push};

/// An expression with its notation.
pub open spec fn phrase_of(tree: TreeView) -> PhraseView {
    PhraseView { expr: expr_of(tree), text: expression_notation(tree) }
}

fn make_phrase(json: &Syntax) -> (phrase: Phrase)
    ensures
        phrase@ == phrase_of(json@),
{
    Phrase { expr: make_expr(json), text: expression_text(json) }
}

pub open spec fn phrases_of(items: Seq<TreeView>) -> Seq<PhraseView> {
    items.map_values(|item: TreeView| phrase_of(item))
}

fn make_phrases(items: &Vec<Syntax>) -> (result: Vec<Phrase>)
    ensures
        views(result@) == phrases_of(views(items@)),
{
    let mut out: Vec<Phrase> = Vec::new();
    let mut index: usize = 0;
    while index < items.len()
        invariant
            index <= items@.len(),
            out@.len() == index,
            forall|i: int| 0 <= i < index ==> (#[trigger] out@[i])@ == phrase_of(items@[i]@),
        decreases items@.len() - index,
    {
        let made = make_phrase(&items[index]);
        out.push(made);
        index = index + 1;
    }
    assert(views(out@) =~= phrases_of(views(items@)));
    out
}

/// The value of an optional entry.
pub open spec fn optional_part(tree: TreeView, name: Seq<char>) -> Option<TreeView> {
    match part(tree, name) {
        Some(value) => if value is Null {
            None
        } else {
            Some(value)
        },
        None => None,
    }
}

fn find_optional<'a>(entries: &'a Vec<(String, Syntax)>, name: &str, Ghost(tree): Ghost<TreeView>) -> (result: Option<&'a Syntax>)
    requires
        entry_views(entries@) == entries_of(tree),
    ensures
        match result {
            Some(found) => optional_part(tree, name@) == Some(found@),
            None => optional_part(tree, name@) is None,
        },
{
    match find_entry(entries, name) {
        Some(found) => if is_null(found) {
            None
        } else {
            Some(found)
        },
        None => None,
    }
}

pub open spec fn optional_expr(tree: TreeView, name: Seq<char>) -> Option<ExprView> {
    match optional_part(tree, name) {
        Some(value) => Some(expr_of(value)),
        None => None,
    }
}

pub open spec fn optional_phrase(tree: TreeView, name: Seq<char>) -> Option<PhraseView> {
    match optional_part(tree, name) {
        Some(value) => Some(phrase_of(value)),
        None => None,
    }
}

fn make_optional_expr(entries: &Vec<(String, Syntax)>, name: &str, Ghost(tree): Ghost<TreeView>) -> (result: Option<Expr>)
    requires
        entry_views(entries@) == entries_of(tree),
    ensures
        optional(result) == optional_expr(tree, name@),
{
    match find_optional(entries, name, Ghost(tree)) {
        Some(found) => Some(make_expr(found)),
        None => None,
    }
}

fn make_optional_phrase(entries: &Vec<(String, Syntax)>, name: &str, Ghost(tree): Ghost<TreeView>) -> (result: Option<Phrase>)
    requires
        entry_views(entries@) == entries_of(tree),
    ensures
        optional(result) == optional_phrase(tree, name@),
{
    match find_optional(entries, name, Ghost(tree)) {
        Some(found) => Some(make_phrase(found)),
        None => None,
    }
}

/// The expression of an entry.
pub open spec fn required_expr(tree: TreeView, name: Seq<char>) -> ExprView {
    match part(tree, name) {
        Some(value) => expr_of(value),
        None => ExprView::Other(""@),
    }
}

fn make_required_expr(entries: &Vec<(String, Syntax)>, name: &str, Ghost(tree): Ghost<TreeView>) -> (result: Expr)
    requires
        entry_views(entries@) == entries_of(tree),
    ensures
        result@ == required_expr(tree, name@),
{
    match find_entry(entries, name) {
        Some(found) => make_expr(found),
        None => Expr::Other("".to_owned()),
    }
}

/// A truth value that may be missing.
pub open spec fn optional_truth(tree: TreeView, name: Seq<char>) -> Option<bool> {
    match part(tree, name) {
        Some(TreeView::Boolean(value)) => Some(value),
        _ => None,
    }
}

fn find_truth(entries: &Vec<(String, Syntax)>, name: &str, Ghost(tree): Ghost<TreeView>) -> (result: Option<bool>)
    requires
        entry_views(entries@) == entries_of(tree),
    ensures
        result == optional_truth(tree, name@),
{
    match find_entry(entries, name) {
        Some(found) => match syntax_node(found) {
            SyntaxNode::Boolean(value) => Some(value),
            _ => None,
        },
        None => None,
    }
}

/// One item of `ORDER BY`.
pub open spec fn order_of(tree: TreeView) -> OrderView {
    OrderView {
        expr: required_expr(tree, "expr"@),
        ascending: optional_truth(tree, "asc"@),
        nulls_first: optional_truth(tree, "nulls_first"@),
        text: ordering_notation(tree),
    }
}

fn make_order(json: &Syntax) -> (item: OrderItem)
    ensures
        item@ == order_of(json@),
{
    let entries = take_entries(json);
    OrderItem {
        expr: make_required_expr(&entries, "expr", Ghost(json@)),
        ascending: find_truth(&entries, "asc", Ghost(json@)),
        nulls_first: find_truth(&entries, "nulls_first", Ghost(json@)),
        text: ordering_text(json),
    }
}

pub open spec fn orders_of(items: Seq<TreeView>) -> Seq<OrderView> {
    items.map_values(|item: TreeView| order_of(item))
}

fn make_orders(items: &Vec<Syntax>) -> (result: Vec<OrderItem>)
    ensures
        views(result@) == orders_of(views(items@)),
{
    let mut out: Vec<OrderItem> = Vec::new();
    let mut index: usize = 0;
    while index < items.len()
        invariant
            index <= items@.len(),
            out@.len() == index,
            forall|i: int| 0 <= i < index ==> (#[trigger] out@[i])@ == order_of(items@[i]@),
        decreases items@.len() - index,
    {
        let made = make_order(&items[index]);
        out.push(made);
        index = index + 1;
    }
    assert(views(out@) =~= orders_of(views(items@)));
    out
}

/// The identifier of an entry.
pub open spec fn ident_part(tree: TreeView, name: Seq<char>) -> IdentView {
    match part(tree, name) {
        Some(value) => ident_of(value),
        None => IdentView { value: ""@, quoted: false },
    }
}

fn make_ident_part(entries: &Vec<(String, Syntax)>, name: &str, Ghost(tree): Ghost<TreeView>) -> (result: Ident)
    requires
        entry_views(entries@) == entries_of(tree),
    ensures
        result@ == ident_part(tree, name@),
{
    match find_entry(entries, name) {
        Some(found) => make_ident(found),
        None => Ident { value: "".to_owned(), quoted: false },
    }
}

/// Whether a wildcard has no further options.
pub open spec fn plain_wildcard(tree: TreeView) -> bool {
    !given(tree, "opt_exclude"@) && !given(tree, "opt_except"@) && !given(tree, "opt_rename"@) && !given(
        tree,
        "opt_replace"@,
    )
}

fn is_plain_wildcard(json: &Syntax) -> (result: bool)
    ensures
        result == plain_wildcard(json@),
{
    let entries = take_entries(json);
    !is_given(&entries, "opt_exclude") && !is_given(&entries, "opt_except") && !is_given(&entries, "opt_rename")
        && !is_given(&entries, "opt_replace")
}

/// An item of a `SELECT` list that is a wildcard.
pub open spec fn wildcard_of(tree: TreeView, form: Seq<char>, held: TreeView) -> SelectItemView {
    let parts = items_of(held);
    if form == "QualifiedWildcard"@ && parts.len() == 2 {
        SelectItemView::Wildcard {
            qualifier: Some(idents_of(items_of(parts[0]))),
            plain: plain_wildcard(parts[1]),
            text: selection_notation(tree),
        }
    } else {
        SelectItemView::Wildcard {
            qualifier: None,
            plain: form == "Wildcard"@ && plain_wildcard(held),
            text: selection_notation(tree),
        }
    }
}

/// An item of a `SELECT` list.
pub open spec fn item_of(tree: TreeView) -> SelectItemView {
    match variant(tree) {
        (form, Some(held)) => if form == "UnnamedExpr"@ {
            SelectItemView::Unnamed(phrase_of(held))
        } else if form == "ExprWithAlias"@ {
            SelectItemView::Aliased(required_expr(held, "expr"@), ident_part(held, "alias"@))
        } else {
            wildcard_of(tree, form, held)
        },
        _ => SelectItemView::Wildcard { qualifier: None, plain: false, text: selection_notation(tree) },
    }
}

fn make_item(json: &Syntax) -> (item: SelectItem)
    ensures
        item@ == item_of(json@),
{
    let (form, held) = take_variant(json);
    let held = match held {
        Some(held) => held,
        None => return SelectItem::Wildcard { qualifier: None, plain: false, text: selection_text(json) },
    };
    if same_text(form.as_str(), "UnnamedExpr") {
        return SelectItem::Unnamed(make_phrase(&held));
    }
    if same_text(form.as_str(), "ExprWithAlias") {
        let entries = take_entries(&held);
        return SelectItem::Aliased(
            make_required_expr(&entries, "expr", Ghost(held@)),
            make_ident_part(&entries, "alias", Ghost(held@)),
        );
    }
    let parts = take_items(&held);
    if same_text(form.as_str(), "QualifiedWildcard") && parts.len() == 2 {
        assert(views(parts@)[0] == parts@[0]@);
        assert(views(parts@)[1] == parts@[1]@);
        let qualifier = make_name(&parts[0]);
        return SelectItem::Wildcard {
            qualifier: Some(qualifier),
            plain: is_plain_wildcard(&parts[1]),
            text: selection_text(json),
        };
    }
    SelectItem::Wildcard {
        qualifier: None,
        plain: same_text(form.as_str(), "Wildcard") && is_plain_wildcard(&held),
        text: selection_text(json),
    }
}

pub open spec fn items_made(items: Seq<TreeView>) -> Seq<SelectItemView> {
    items.map_values(|item: TreeView| item_of(item))
}

fn make_items(items: &Vec<Syntax>) -> (result: Vec<SelectItem>)
    ensures
        views(result@) == items_made(views(items@)),
{
    let mut out: Vec<SelectItem> = Vec::new();
    let mut index: usize = 0;
    while index < items.len()
        invariant
            index <= items@.len(),
            out@.len() == index,
            forall|i: int| 0 <= i < index ==> (#[trigger] out@[i])@ == item_of(items@[i]@),
        decreases items@.len() - index,
    {
        let made = make_item(&items[index]);
        out.push(made);
        index = index + 1;
    }
    assert(views(out@) =~= items_made(views(items@)));
    out
}

/// The alias of a source.
pub open spec fn alias_of(tree: TreeView) -> Option<AliasView> {
    match optional_part(tree, "alias"@) {
        Some(alias) => Some(
            AliasView { name: ident_part(alias, "name"@), renames: listed(alias, "columns"@).len() > 0 },
        ),
        None => None,
    }
}

fn make_alias(entries: &Vec<(String, Syntax)>, Ghost(tree): Ghost<TreeView>) -> (result: Option<Alias>)
    requires
        entry_views(entries@) == entries_of(tree),
    ensures
        optional(result) == alias_of(tree),
{
    match find_optional(entries, "alias", Ghost(tree)) {
        Some(found) => {
            let inner = take_entries(found);
            let columns = take_listed(&inner, "columns");
            assert(views(columns@).len() == columns@.len());
            Some(Alias { name: make_ident_part(&inner, "name", Ghost(found@)), renames: columns.len() > 0 })
        },
        None => None,
    }
}

/// A source of rows.
pub open spec fn relation_of(tree: TreeView) -> RelationView {
    match variant(tree) {
        (form, Some(held)) => if form == "Table"@ {
            RelationView::Table {
                name: idents_of(listed(held, "name"@)),
                called: given(held, "args"@),
                decorated: listed(held, "with_hints"@).len() > 0 || given(held, "version"@) || listed(
                    held,
                    "partitions"@,
                ).len() > 0,
                alias: alias_of(held),
                text: relation_notation(tree),
            }
        } else {
            RelationView::Other(relation_notation(tree))
        },
        _ => RelationView::Other(relation_notation(tree)),
    }
}

fn make_relation(json: &Syntax) -> (relation: Relation)
    ensures
        relation@ == relation_of(json@),
{
    let (form, held) = take_variant(json);
    if let Some(held) = held {
        if same_text(form.as_str(), "Table") {
            let entries = take_entries(&held);
            let names = take_listed(&entries, "name");
            let hints = take_listed(&entries, "with_hints");
            let partitions = take_listed(&entries, "partitions");
            assert(views(hints@).len() == hints@.len());
            assert(views(partitions@).len() == partitions@.len());
            let decorated = hints.len() > 0 || is_given(&entries, "version") || partitions.len() > 0;
            return Relation::Table {
                name: make_idents(&names),
                called: is_given(&entries, "args"),
                decorated,
                alias: make_alias(&entries, Ghost(held@)),
                text: relation_text(json),
            };
        }
    }
    Relation::Other(relation_text(json))
}

pub open spec fn relation_part(tree: TreeView) -> RelationView {
    match part(tree, "relation"@) {
        Some(value) => relation_of(value),
        None => RelationView::Other(""@),
    }
}

fn make_relation_part(entries: &Vec<(String, Syntax)>, Ghost(tree): Ghost<TreeView>) -> (relation: Relation)
    requires
        entry_views(entries@) == entries_of(tree),
    ensures
        relation@ == relation_part(tree),
{
    match find_entry(entries, "relation") {
        Some(found) => make_relation(found),
        None => Relation::Other("".to_owned()),
    }
}

/// The condition of a join that has one.
pub open spec fn on_of(tree: TreeView) -> Option<ExprView> {
    match variant(tree) {
        (form, Some(held)) => if form == "On"@ {
            Some(expr_of(held))
        } else {
            None
        },
        _ => None,
    }
}

/// How a table is joined.
pub open spec fn join_operator_of(tree: TreeView) -> JoinOperatorView {
    match variant(tree) {
        (form, Some(held)) => match on_of(held) {
            Some(on) => if form == "Inner"@ {
                JoinOperatorView::Inner(on)
            } else if form == "LeftOuter"@ {
                JoinOperatorView::LeftOuter(on)
            } else {
                JoinOperatorView::Other
            },
            None => JoinOperatorView::Other,
        },
        _ => JoinOperatorView::Other,
    }
}

fn make_on(json: &Syntax) -> (result: Option<Expr>)
    ensures
        optional(result) == on_of(json@),
{
    let (form, held) = take_variant(json);
    match held {
        Some(held) => if same_text(form.as_str(), "On") {
            Some(make_expr(&held))
        } else {
            None
        },
        None => None,
    }
}

fn make_join_operator(json: &Syntax) -> (operator: JoinOperator)
    ensures
        operator@ == join_operator_of(json@),
{
    let (form, held) = take_variant(json);
    match held {
        Some(held) => match make_on(&held) {
            Some(on) => if same_text(form.as_str(), "Inner") {
                JoinOperator::Inner(on)
            } else if same_text(form.as_str(), "LeftOuter") {
                JoinOperator::LeftOuter(on)
            } else {
                JoinOperator::Other
            },
            None => JoinOperator::Other,
        },
        None => JoinOperator::Other,
    }
}

/// A joined table.
pub open spec fn join_of(tree: TreeView) -> JoinView {
    JoinView {
        relation: relation_part(tree),
        operator: match part(tree, "join_operator"@) {
            Some(value) => join_operator_of(value),
            None => JoinOperatorView::Other,
        },
    }
}

fn make_join(json: &Syntax) -> (join: Join)
    ensures
        join@ == join_of(json@),
{
    let entries = take_entries(json);
    let relation = make_relation_part(&entries, Ghost(json@));
    let operator = match find_entry(&entries, "join_operator") {
        Some(found) => make_join_operator(found),
        None => JoinOperator::Other,
    };
    Join { relation, operator }
}

pub open spec fn joins_of(items: Seq<TreeView>) -> Seq<JoinView> {
    items.map_values(|item: TreeView| join_of(item))
}

fn make_joins(items: &Vec<Syntax>) -> (result: Vec<Join>)
    ensures
        views(result@) == joins_of(views(items@)),
{
    let mut out: Vec<Join> = Vec::new();
    let mut index: usize = 0;
    while index < items.len()
        invariant
            index <= items@.len(),
            out@.len() == index,
            forall|i: int| 0 <= i < index ==> (#[trigger] out@[i])@ == join_of(items@[i]@),
        decreases items@.len() - index,
    {
        let made = make_join(&items[index]);
        out.push(made);
        index = index + 1;
    }
    assert(views(out@) =~= joins_of(views(items@)));
    out
}

/// One item of `FROM`.
pub open spec fn source_of(tree: TreeView) -> TableWithJoinsView {
    TableWithJoinsView { relation: relation_part(tree), joins: joins_of(listed(tree, "joins"@)) }
}

fn make_source(json: &Syntax) -> (source: TableWithJoins)
    ensures
        source@ == source_of(json@),
{
    let entries = take_entries(json);
    let relation = make_relation_part(&entries, Ghost(json@));
    let joins = take_listed(&entries, "joins");
    TableWithJoins { relation, joins: make_joins(&joins) }
}

pub open spec fn sources_of(items: Seq<TreeView>) -> Seq<TableWithJoinsView> {
    items.map_values(|item: TreeView| source_of(item))
}

fn make_sources(items: &Vec<Syntax>) -> (result: Vec<TableWithJoins>)
    ensures
        views(result@) == sources_of(views(items@)),
{
    let mut out: Vec<TableWithJoins> = Vec::new();
    let mut index: usize = 0;
    while index < items.len()
        invariant
            index <= items@.len(),
            out@.len() == index,
            forall|i: int| 0 <= i < index ==> (#[trigger] out@[i])@ == source_of(items@[i]@),
        decreases items@.len() - index,
    {
        let made = make_source(&items[index]);
        out.push(made);
        index = index + 1;
    }
    assert(views(out@) =~= sources_of(views(items@)));
    out
}

pub open spec fn distinct_of(tree: TreeView) -> Distinct {
    match optional_part(tree, "distinct"@) {
        None => Distinct::No,
        Some(TreeView::Text(_)) => Distinct::Rows,
        Some(_) => Distinct::On,
    }
}

fn find_distinct(entries: &Vec<(String, Syntax)>, Ghost(tree): Ghost<TreeView>) -> (result: Distinct)
    requires
        entry_views(entries@) == entries_of(tree),
    ensures
        result == distinct_of(tree),
{
    match find_optional(entries, "distinct", Ghost(tree)) {
        None => Distinct::No,
        Some(found) => match syntax_node(found) {
            SyntaxNode::Text(_) => Distinct::Rows,
            _ => Distinct::On,
        },
    }
}

/// The expressions that rows are grouped by; none for `GROUP BY ALL`.
pub open spec fn group_of(tree: TreeView) -> Option<Seq<PhraseView>> {
    match part(tree, "group_by"@) {
        Some(value) => match variant(value) {
            (form, Some(held)) => if form == "Expressions"@ {
                Some(phrases_of(items_of(held)))
            } else {
                None
            },
            _ => None,
        },
        None => None,
    }
}

pub open spec fn optional_phrases(phrases: Option<Vec<Phrase>>) -> Option<Seq<PhraseView>> {
    match phrases {
        Some(phrases) => Some(views(phrases@)),
        None => None,
    }
}

fn make_group(entries: &Vec<(String, Syntax)>, Ghost(tree): Ghost<TreeView>) -> (result: Option<Vec<Phrase>>)
    requires
        entry_views(entries@) == entries_of(tree),
    ensures
        optional_phrases(result) == group_of(tree),
{
    match find_entry(entries, "group_by") {
        Some(found) => {
            let (form, held) = take_variant(found);
            match held {
                Some(held) => if same_text(form.as_str(), "Expressions") {
                    let items = take_items(&held);
                    Some(make_phrases(&items))
                } else {
                    None
                },
                None => None,
            }
        },
        None => None,
    }
}

/// Whether a list of this name has items.
fn has_items(entries: &Vec<(String, Syntax)>, name: &str, Ghost(tree): Ghost<TreeView>) -> (result: bool)
    requires
        entry_views(entries@) == entries_of(tree),
    ensures
        result == (listed(tree, name@).len() > 0),
{
    let items = take_listed(entries, name);
    assert(views(items@).len() == items@.len());
    items.len() > 0
}

/// Whether a `SELECT` has further clauses.
pub open spec fn advanced_of(tree: TreeView) -> bool {
    given(tree, "top"@) || given(tree, "into"@) || listed(tree, "lateral_views"@).len() > 0 || listed(
        tree,
        "cluster_by"@,
    ).len() > 0 || listed(tree, "distribute_by"@).len() > 0 || listed(tree, "sort_by"@).len() > 0 || listed(
        tree,
        "named_window"@,
    ).len() > 0 || given(tree, "qualify"@)
}

/// A `SELECT`.
pub open spec fn select_of(tree: TreeView) -> SelectView {
    SelectView {
        distinct: distinct_of(tree),
        advanced: advanced_of(tree),
        projection: items_made(listed(tree, "projection"@)),
        from: sources_of(listed(tree, "from"@)),
        selection: optional_phrase(tree, "selection"@),
        group_by: group_of(tree),
        having: optional_phrase(tree, "having"@),
    }
}

fn make_select(json: &Syntax) -> (select: Select)
    ensures
        select@ == select_of(json@),
{
    let entries = take_entries(json);
    let ghost tree = json@;
    let advanced = is_given(&entries, "top") || is_given(&entries, "into") || has_items(&entries, "lateral_views", Ghost(tree))
        || has_items(&entries, "cluster_by", Ghost(tree)) || has_items(&entries, "distribute_by", Ghost(tree)) || has_items(
        &entries,
        "sort_by",
        Ghost(tree),
    ) || has_items(&entries, "named_window", Ghost(tree)) || is_given(&entries, "qualify");
    let projection = take_listed(&entries, "projection");
    let from = take_listed(&entries, "from");
    Select {
        distinct: find_distinct(&entries, Ghost(tree)),
        advanced,
        projection: make_items(&projection),
        from: make_sources(&from),
        selection: make_optional_phrase(&entries, "selection", Ghost(tree)),
        group_by: make_group(&entries, Ghost(tree)),
        having: make_optional_phrase(&entries, "having", Ghost(tree)),
    }
}

/// A row of `VALUES`.
pub open spec fn value_row(tree: TreeView) -> Seq<ExprView> {
    items_of(tree).map_values(|item: TreeView| expr_of(item))
}

/// The rows of `VALUES`.
pub open spec fn value_rows(items: Seq<TreeView>) -> Seq<Seq<ExprView>> {
    items.map_values(|item: TreeView| value_row(item))
}

fn make_value_row(json: &Syntax) -> (row: Vec<Expr>)
    ensures
        views(row@) == value_row(json@),
{
    let items = take_items(json);
    let mut out: Vec<Expr> = Vec::new();
    let mut index: usize = 0;
    while index < items.len()
        invariant
            index <= items@.len(),
            out@.len() == index,
            forall|i: int| 0 <= i < index ==> (#[trigger] out@[i])@ == expr_of(items@[i]@),
        decreases items@.len() - index,
    {
        let expression = make_expr(&items[index]);
        out.push(expression);
        index = index + 1;
    }
    assert(views(out@) =~= value_row(json@)) by {
        assert(views(items@) == items_of(json@));
    }
    out
}

fn make_value_rows(items: &Vec<Syntax>) -> (rows: Vec<Vec<Expr>>)
    ensures
        rows@.map_values(|row: Vec<Expr>| views(row@)) == value_rows(views(items@)),
{
    let mut out: Vec<Vec<Expr>> = Vec::new();
    let mut index: usize = 0;
    while index < items.len()
        invariant
            index <= items@.len(),
            out@.len() == index,
            forall|i: int| 0 <= i < index ==> views((#[trigger] out@[i])@) == value_row(items@[i]@),
        decreases items@.len() - index,
    {
        let row = make_value_row(&items[index]);
        out.push(row);
        index = index + 1;
    }
    assert(out@.map_values(|row: Vec<Expr>| views(row@)) =~= value_rows(views(items@)));
    out
}

/// The body of a query.
pub open spec fn body_of(tree: TreeView) -> BodyView {
    match variant(tree) {
        (form, Some(held)) => if form == "Select"@ {
            BodyView::Select(select_of(held))
        } else if form == "Values"@ {
            BodyView::Values(value_rows(listed(held, "rows"@)))
        } else {
            BodyView::Other
        },
        _ => BodyView::Other,
    }
}

fn make_body(json: &Syntax) -> (body: Body)
    ensures
        body@ == body_of(json@),
{
    let (form, held) = take_variant(json);
    match held {
        Some(held) => if same_text(form.as_str(), "Select") {
            Body::Select(make_select(&held))
        } else if same_text(form.as_str(), "Values") {
            let entries = take_entries(&held);
            let rows = take_listed(&entries, "rows");
            Body::Values(make_value_rows(&rows))
        } else {
            Body::Other
        },
        None => Body::Other,
    }
}

/// The offset of a query.
pub open spec fn offset_of(tree: TreeView) -> Option<ExprView> {
    match optional_part(tree, "offset"@) {
        Some(value) => Some(required_expr(value, "value"@)),
        None => None,
    }
}

fn make_offset(entries: &Vec<(String, Syntax)>, Ghost(tree): Ghost<TreeView>) -> (result: Option<Expr>)
    requires
        entry_views(entries@) == entries_of(tree),
    ensures
        optional(result) == offset_of(tree),
{
    match find_optional(entries, "offset", Ghost(tree)) {
        Some(found) => {
            let inner = take_entries(found);
            Some(make_required_expr(&inner, "value", Ghost(found@)))
        },
        None => None,
    }
}

/// A query.
pub open spec fn query_of(tree: TreeView) -> QueryView {
    QueryView {
        extended: given(tree, "with"@) || listed(tree, "limit_by"@).len() > 0 || given(tree, "fetch"@) || listed(
            tree,
            "locks"@,
        ).len() > 0 || given(tree, "for_clause"@),
        body: match part(tree, "body"@) {
            Some(value) => body_of(value),
            None => BodyView::Other,
        },
        order_by: orders_of(listed(tree, "order_by"@)),
        limit: optional_expr(tree, "limit"@),
        offset: offset_of(tree),
    }
}

fn make_query(json: &Syntax) -> (query: Query)
    ensures
        query@ == query_of(json@),
{
    let entries = take_entries(json);
    let ghost tree = json@;
    let extended = is_given(&entries, "with") || has_items(&entries, "limit_by", Ghost(tree)) || is_given(&entries, "fetch")
        || has_items(&entries, "locks", Ghost(tree)) || is_given(&entries, "for_clause");
    let body = match find_entry(&entries, "body") {
        Some(found) => make_body(found),
        None => Body::Other,
    };
    let orders = take_listed(&entries, "order_by");
    Query {
        extended,
        body,
        order_by: make_orders(&orders),
        limit: make_optional_expr(&entries, "limit", Ghost(tree)),
        offset: make_offset(&entries, Ghost(tree)),
    }
}

/// An assignment.
pub open spec fn assignment_of(tree: TreeView) -> AssignmentView {
    AssignmentView { target: idents_of(listed(tree, "id"@)), value: required_expr(tree, "value"@) }
}

fn make_assignment(json: &Syntax) -> (assignment: Assignment)
    ensures
        assignment@ == assignment_of(json@),
{
    let entries = take_entries(json);
    let names = take_listed(&entries, "id");
    Assignment { target: make_idents(&names), value: make_required_expr(&entries, "value", Ghost(json@)) }
}

pub open spec fn assignments_of(items: Seq<TreeView>) -> Seq<AssignmentView> {
    items.map_values(|item: TreeView| assignment_of(item))
}

fn make_assignments(items: &Vec<Syntax>) -> (result: Vec<Assignment>)
    ensures
        views(result@) == assignments_of(views(items@)),
{
    let mut out: Vec<Assignment> = Vec::new();
    let mut index: usize = 0;
    while index < items.len()
        invariant
            index <= items@.len(),
            out@.len() == index,
            forall|i: int| 0 <= i < index ==> (#[trigger] out@[i])@ == assignment_of(items@[i]@),
        decreases items@.len() - index,
    {
        let made = make_assignment(&items[index]);
        out.push(made);
        index = index + 1;
    }
    assert(views(out@) =~= assignments_of(views(items@)));
    out
}

/// What a conflict clause names.
pub open spec fn conflict_target_of(tree: TreeView) -> Option<ConflictTargetView> {
    match optional_part(tree, "conflict_target"@) {
        Some(value) => match variant(value) {
            (form, Some(held)) => if form == "Columns"@ {
                Some(ConflictTargetView::Columns(idents_of(items_of(held))))
            } else {
                Some(ConflictTargetView::Constraint)
            },
            _ => Some(ConflictTargetView::Constraint),
        },
        None => None,
    }
}

fn make_conflict_target(entries: &Vec<(String, Syntax)>, Ghost(tree): Ghost<TreeView>) -> (result: Option<ConflictTarget>)
    requires
        entry_views(entries@) == entries_of(tree),
    ensures
        optional(result) == conflict_target_of(tree),
{
    match find_optional(entries, "conflict_target", Ghost(tree)) {
        Some(found) => {
            let (form, held) = take_variant(found);
            match held {
                Some(held) => if same_text(form.as_str(), "Columns") {
                    Some(ConflictTarget::Columns(make_name(&held)))
                } else {
                    Some(ConflictTarget::Constraint)
                },
                None => Some(ConflictTarget::Constraint),
            }
        },
        None => None,
    }
}

/// What is done on a conflict.
pub open spec fn conflict_of(tree: TreeView) -> OnInsertView {
    match part(tree, "action"@) {
        Some(value) => match variant(value) {
            (form, Some(held)) => OnInsertView::DoUpdate(
                conflict_target_of(tree),
                DoUpdateView {
                    assignments: assignments_of(listed(held, "assignments"@)),
                    selection: optional_expr(held, "selection"@),
                },
            ),
            _ => OnInsertView::DoNothing(conflict_target_of(tree)),
        },
        None => OnInsertView::DoNothing(conflict_target_of(tree)),
    }
}

fn make_conflict(json: &Syntax) -> (conflict: OnInsert)
    ensures
        conflict@ == conflict_of(json@),
{
    let entries = take_entries(json);
    let target = make_conflict_target(&entries, Ghost(json@));
    match find_entry(&entries, "action") {
        Some(found) => {
            let (form, held) = take_variant(found);
            match held {
                Some(held) => {
                    let inner = take_entries(&held);
                    let assignments = take_listed(&inner, "assignments");
                    let update = DoUpdate {
                        assignments: make_assignments(&assignments),
                        selection: make_optional_expr(&inner, "selection", Ghost(held@)),
                    };
                    OnInsert::DoUpdate(target, update)
                },
                None => OnInsert::DoNothing(target),
            }
        },
        None => OnInsert::DoNothing(target),
    }
}

/// The conflict clause of an `INSERT`.
pub open spec fn on_insert_of(tree: TreeView) -> Option<OnInsertView> {
    match optional_part(tree, "on"@) {
        Some(value) => match variant(value) {
            (form, Some(held)) => if form == "OnConflict"@ {
                Some(conflict_of(held))
            } else {
                Some(OnInsertView::DuplicateKeyUpdate)
            },
            _ => Some(OnInsertView::DuplicateKeyUpdate),
        },
        None => None,
    }
}

fn make_on_insert(entries: &Vec<(String, Syntax)>, Ghost(tree): Ghost<TreeView>) -> (result: Option<OnInsert>)
    requires
        entry_views(entries@) == entries_of(tree),
    ensures
        optional(result) == on_insert_of(tree),
{
    match find_optional(entries, "on", Ghost(tree)) {
        Some(found) => {
            let (form, held) = take_variant(found);
            match held {
                Some(held) => if same_text(form.as_str(), "OnConflict") {
                    Some(make_conflict(&held))
                } else {
                    Some(OnInsert::DuplicateKeyUpdate)
                },
                None => Some(OnInsert::DuplicateKeyUpdate),
            }
        },
        None => None,
    }
}

/// An option of a column.
pub open spec fn option_of(tree: TreeView) -> ColumnOptionView {
    match part(tree, "option"@) {
        Some(value) => {
            let (form, held) = variant(value);
            match held {
                None => if form == "Null"@ {
                    ColumnOptionView::Null
                } else if form == "NotNull"@ {
                    ColumnOptionView::NotNull
                } else {
                    ColumnOptionView::Other(option_notation(value))
                },
                Some(held) => if form == "Unique"@ {
                    ColumnOptionView::Unique { is_primary: marked(held, "is_primary"@) }
                } else if form == "Comment"@ {
                    ColumnOptionView::Comment
                } else {
                    ColumnOptionView::Other(option_notation(value))
                },
            }
        },
        None => ColumnOptionView::Other(""@),
    }
}

fn make_option(json: &Syntax) -> (option: ColumnOption)
    ensures
        option@ == option_of(json@),
{
    let entries = take_entries(json);
    match find_entry(&entries, "option") {
        Some(found) => {
            let (form, held) = take_variant(found);
            match held {
                None => if same_text(form.as_str(), "Null") {
                    ColumnOption::Null
                } else if same_text(form.as_str(), "NotNull") {
                    ColumnOption::NotNull
                } else {
                    ColumnOption::Other(option_text(found))
                },
                Some(held) => if same_text(form.as_str(), "Unique") {
                    let inner = take_entries(&held);
                    ColumnOption::Unique { is_primary: is_marked(&inner, "is_primary") }
                } else if same_text(form.as_str(), "Comment") {
                    ColumnOption::Comment
                } else {
                    ColumnOption::Other(option_text(found))
                },
            }
        },
        None => ColumnOption::Other("".to_owned()),
    }
}

pub open spec fn options_of(items: Seq<TreeView>) -> Seq<ColumnOptionView> {
    items.map_values(|item: TreeView| option_of(item))
}

fn make_options(items: &Vec<Syntax>) -> (result: Vec<ColumnOption>)
    ensures
        views(result@) == options_of(views(items@)),
{
    let mut out: Vec<ColumnOption> = Vec::new();
    let mut index: usize = 0;
    while index < items.len()
        invariant
            index <= items@.len(),
            out@.len() == index,
            forall|i: int| 0 <= i < index ==> (#[trigger] out@[i])@ == option_of(items@[i]@),
        decreases items@.len() - index,
    {
        let made = make_option(&items[index]);
        out.push(made);
        index = index + 1;
    }
    assert(views(out@) =~= options_of(views(items@)));
    out
}

/// A column of `CREATE TABLE`.
pub open spec fn definition_of(tree: TreeView) -> ColumnDefView {
    ColumnDefView {
        name: ident_part(tree, "name"@),
        data_type: type_part(tree),
        options: options_of(listed(tree, "options"@)),
    }
}

fn make_definition(json: &Syntax) -> (definition: ColumnDef)
    ensures
        definition@ == definition_of(json@),
{
    let entries = take_entries(json);
    let options = take_listed(&entries, "options");
    ColumnDef {
        name: make_ident_part(&entries, "name", Ghost(json@)),
        data_type: make_type_part(&entries, Ghost(json@)),
        options: make_options(&options),
    }
}

pub open spec fn definitions_of(items: Seq<TreeView>) -> Seq<ColumnDefView> {
    items.map_values(|item: TreeView| definition_of(item))
}

fn make_definitions(items: &Vec<Syntax>) -> (result: Vec<ColumnDef>)
    ensures
        views(result@) == definitions_of(views(items@)),
{
    let mut out: Vec<ColumnDef> = Vec::new();
    let mut index: usize = 0;
    while index < items.len()
        invariant
            index <= items@.len(),
            out@.len() == index,
            forall|i: int| 0 <= i < index ==> (#[trigger] out@[i])@ == definition_of(items@[i]@),
        decreases items@.len() - index,
    {
        let made = make_definition(&items[index]);
        out.push(made);
        index = index + 1;
    }
    assert(views(out@) =~= definitions_of(views(items@)));
    out
}

/// A constraint of `CREATE TABLE`.
pub open spec fn constraint_of(tree: TreeView) -> TableConstraintView {
    match variant(tree) {
        (form, Some(held)) => if form == "Unique"@ {
            TableConstraintView::Unique {
                columns: idents_of(listed(held, "columns"@)),
                is_primary: marked(held, "is_primary"@),
            }
        } else {
            TableConstraintView::Other(constraint_notation(tree))
        },
        _ => TableConstraintView::Other(constraint_notation(tree)),
    }
}

fn make_constraint(json: &Syntax) -> (constraint: TableConstraint)
    ensures
        constraint@ == constraint_of(json@),
{
    let (form, held) = take_variant(json);
    if let Some(held) = held {
        if same_text(form.as_str(), "Unique") {
            let entries = take_entries(&held);
            let columns = take_listed(&entries, "columns");
            return TableConstraint::Unique {
                columns: make_idents(&columns),
                is_primary: is_marked(&entries, "is_primary"),
            };
        }
    }
    TableConstraint::Other(constraint_text(json))
}

pub open spec fn constraints_of(items: Seq<TreeView>) -> Seq<TableConstraintView> {
    items.map_values(|item: TreeView| constraint_of(item))
}

fn make_constraints(items: &Vec<Syntax>) -> (result: Vec<TableConstraint>)
    ensures
        views(result@) == constraints_of(views(items@)),
{
    let mut out: Vec<TableConstraint> = Vec::new();
    let mut index: usize = 0;
    while index < items.len()
        invariant
            index <= items@.len(),
            out@.len() == index,
            forall|i: int| 0 <= i < index ==> (#[trigger] out@[i])@ == constraint_of(items@[i]@),
        decreases items@.len() - index,
    {
        let made = make_constraint(&items[index]);
        out.push(made);
        index = index + 1;
    }
    assert(views(out@) =~= constraints_of(views(items@)));
    out
}

/// Dotted names.
pub open spec fn names_of(items: Seq<TreeView>) -> Seq<Seq<IdentView>> {
    items.map_values(|item: TreeView| idents_of(items_of(item)))
}

fn make_names(items: &Vec<Syntax>) -> (names: Vec<Vec<Ident>>)
    ensures
        name_lists(names@) == names_of(views(items@)),
{
    let mut out: Vec<Vec<Ident>> = Vec::new();
    let mut index: usize = 0;
    while index < items.len()
        invariant
            index <= items@.len(),
            out@.len() == index,
            forall|i: int| 0 <= i < index ==> views((#[trigger] out@[i])@) == idents_of(items_of(items@[i]@)),
        decreases items@.len() - index,
    {
        let name = make_name(&items[index]);
        out.push(name);
        index = index + 1;
    }
    assert(name_lists(out@) =~= names_of(views(items@)));
    out
}

pub open spec fn optional_name_of(tree: TreeView, name: Seq<char>) -> Option<Seq<IdentView>> {
    match optional_part(tree, name) {
        Some(value) => Some(idents_of(items_of(value))),
        None => None,
    }
}

fn make_optional_name(entries: &Vec<(String, Syntax)>, name: &str, Ghost(tree): Ghost<TreeView>) -> (result: Option<Vec<Ident>>)
    requires
        entry_views(entries@) == entries_of(tree),
    ensures
        optional_name(result) == optional_name_of(tree, name@),
{
    match find_optional(entries, name, Ghost(tree)) {
        Some(found) => Some(make_name(found)),
        None => None,
    }
}

pub open spec fn optional_ident_of(tree: TreeView, name: Seq<char>) -> Option<IdentView> {
    match optional_part(tree, name) {
        Some(value) => Some(ident_of(value)),
        None => None,
    }
}

fn make_optional_ident(entries: &Vec<(String, Syntax)>, name: &str, Ghost(tree): Ghost<TreeView>) -> (result: Option<Ident>)
    requires
        entry_views(entries@) == entries_of(tree),
    ensures
        optional(result) == optional_ident_of(tree, name@),
{
    match find_optional(entries, name, Ghost(tree)) {
        Some(found) => Some(make_ident(found)),
        None => None,
    }
}

pub open spec fn optional_query_of(tree: TreeView, name: Seq<char>) -> Option<QueryView> {
    match optional_part(tree, name) {
        Some(value) => Some(query_of(value)),
        None => None,
    }
}

fn make_optional_query(entries: &Vec<(String, Syntax)>, name: &str, Ghost(tree): Ghost<TreeView>) -> (result: Option<Query>)
    requires
        entry_views(entries@) == entries_of(tree),
    ensures
        optional(result) == optional_query_of(tree, name@),
{
    match find_optional(entries, name, Ghost(tree)) {
        Some(found) => Some(make_query(found)),
        None => None,
    }
}

/// `CREATE TABLE`.
pub open spec fn create_table_of(tree: TreeView) -> StatementView {
    StatementView::CreateTable {
        name: idents_of(listed(tree, "name"@)),
        columns: definitions_of(listed(tree, "columns"@)),
        constraints: constraints_of(listed(tree, "constraints"@)),
        if_not_exists: marked(tree, "if_not_exists"@),
        from_query: given(tree, "query"@),
    }
}

fn make_create_table(json: &Syntax) -> (statement: Statement)
    ensures
        statement@ == create_table_of(json@),
{
    let entries = take_entries(json);
    let names = take_listed(&entries, "name");
    let columns = take_listed(&entries, "columns");
    let constraints = take_listed(&entries, "constraints");
    Statement::CreateTable {
        name: make_idents(&names),
        columns: make_definitions(&columns),
        constraints: make_constraints(&constraints),
        if_not_exists: is_marked(&entries, "if_not_exists"),
        from_query: is_given(&entries, "query"),
    }
}

/// `INSERT`.
pub open spec fn insert_of(tree: TreeView) -> StatementView {
    StatementView::Insert {
        table_name: idents_of(listed(tree, "table_name"@)),
        columns: idents_of(listed(tree, "columns"@)),
        source: optional_query_of(tree, "source"@),
        on_insert: on_insert_of(tree),
        returning: given(tree, "returning"@),
    }
}

fn make_insert(json: &Syntax) -> (statement: Statement)
    ensures
        statement@ == insert_of(json@),
{
    let entries = take_entries(json);
    let names = take_listed(&entries, "table_name");
    let columns = take_listed(&entries, "columns");
    Statement::Insert {
        table_name: make_idents(&names),
        columns: make_idents(&columns),
        source: make_optional_query(&entries, "source", Ghost(json@)),
        on_insert: make_on_insert(&entries, Ghost(json@)),
        returning: is_given(&entries, "returning"),
    }
}

/// The query that a statement is.
pub open spec fn statement_query(tree: TreeView) -> Option<QueryView> {
    match variant(tree) {
        (form, Some(held)) => if form == "Query"@ {
            Some(query_of(held))
        } else {
            None
        },
        _ => None,
    }
}

fn make_statement_query(json: &Syntax) -> (result: Option<Query>)
    ensures
        optional(result) == statement_query(json@),
{
    let (form, held) = take_variant(json);
    match held {
        Some(held) => if same_text(form.as_str(), "Query") {
            Some(make_query(&held))
        } else {
            None
        },
        None => None,
    }
}

/// `EXPLAIN`.
pub open spec fn explain_of(tree: TreeView) -> StatementView {
    StatementView::Explain {
        analyze: marked(tree, "analyze"@),
        verbose: marked(tree, "verbose"@),
        formatted: given(tree, "format"@),
        query: match part(tree, "statement"@) {
            Some(value) => statement_query(value),
            None => None,
        },
    }
}

fn make_explain(json: &Syntax) -> (statement: Statement)
    ensures
        statement@ == explain_of(json@),
{
    let entries = take_entries(json);
    let query = match find_entry(&entries, "statement") {
        Some(found) => make_statement_query(found),
        None => None,
    };
    Statement::Explain {
        analyze: is_marked(&entries, "analyze"),
        verbose: is_marked(&entries, "verbose"),
        formatted: is_given(&entries, "format"),
        query,
    }
}

/// `CREATE INDEX`.
pub open spec fn create_index_of(tree: TreeView) -> StatementView {
    StatementView::CreateIndex {
        name: optional_name_of(tree, "name"@),
        table_name: idents_of(listed(tree, "table_name"@)),
        method: optional_ident_of(tree, "using"@),
        columns: orders_of(listed(tree, "columns"@)),
        if_not_exists: marked(tree, "if_not_exists"@),
        special: marked(tree, "unique"@) || marked(tree, "concurrently"@) || listed(tree, "include"@).len() > 0 || given(
            tree,
            "nulls_distinct"@,
        ) || given(tree, "predicate"@),
    }
}

fn make_create_index(json: &Syntax) -> (statement: Statement)
    ensures
        statement@ == create_index_of(json@),
{
    let entries = take_entries(json);
    let ghost tree = json@;
    let names = take_listed(&entries, "table_name");
    let columns = take_listed(&entries, "columns");
    let special = is_marked(&entries, "unique") || is_marked(&entries, "concurrently") || has_items(
        &entries,
        "include",
        Ghost(tree),
    ) || is_given(&entries, "nulls_distinct") || is_given(&entries, "predicate");
    Statement::CreateIndex {
        name: make_optional_name(&entries, "name", Ghost(tree)),
        table_name: make_idents(&names),
        method: make_optional_ident(&entries, "using", Ghost(tree)),
        columns: make_orders(&columns),
        if_not_exists: is_marked(&entries, "if_not_exists"),
        special,
    }
}

/// `UPDATE`.
pub open spec fn update_of(tree: TreeView) -> StatementView {
    StatementView::Update {
        table: match part(tree, "table"@) {
            Some(value) => source_of(value),
            None => TableWithJoinsView { relation: RelationView::Other(""@), joins: Seq::empty() },
        },
        assignments: assignments_of(listed(tree, "assignments"@)),
        selection: optional_expr(tree, "selection"@),
        extended: given(tree, "from"@) || given(tree, "returning"@),
    }
}

fn make_update(json: &Syntax) -> (statement: Statement)
    ensures
        statement@ == update_of(json@),
{
    let entries = take_entries(json);
    let table = match find_entry(&entries, "table") {
        Some(found) => make_source(found),
        None => {
            let joins: Vec<Join> = Vec::new();
            assert(views(joins@) =~= Seq::<JoinView>::empty());
            TableWithJoins { relation: Relation::Other("".to_owned()), joins }
        },
    };
    let assignments = take_listed(&entries, "assignments");
    let extended = is_given(&entries, "from") || is_given(&entries, "returning");
    Statement::Update {
        table,
        assignments: make_assignments(&assignments),
        selection: make_optional_expr(&entries, "selection", Ghost(json@)),
        extended,
    }
}

/// `DELETE`.
pub open spec fn delete_of(tree: TreeView) -> StatementView {
    StatementView::Delete {
        from: sources_of(listed(tree, "from"@)),
        selection: optional_expr(tree, "selection"@),
        extended: listed(tree, "tables"@).len() > 0 || given(tree, "using"@) || given(tree, "returning"@) || listed(
            tree,
            "order_by"@,
        ).len() > 0 || given(tree, "limit"@),
    }
}

fn make_delete(json: &Syntax) -> (statement: Statement)
    ensures
        statement@ == delete_of(json@),
{
    let entries = take_entries(json);
    let ghost tree = json@;
    let from = take_listed(&entries, "from");
    let extended = has_items(&entries, "tables", Ghost(tree)) || is_given(&entries, "using") || is_given(&entries, "returning")
        || has_items(&entries, "order_by", Ghost(tree)) || is_given(&entries, "limit");
    Statement::Delete {
        from: make_sources(&from),
        selection: make_optional_expr(&entries, "selection", Ghost(tree)),
        extended,
    }
}

/// What a `DROP` drops.
pub open spec fn drop_kind_of(tree: TreeView) -> DropKindView {
    match part(tree, "object_type"@) {
        Some(value) => if value == TreeView::Text("Table"@) {
            DropKindView::Table
        } else if value == TreeView::Text("Index"@) {
            DropKindView::Index
        } else {
            DropKindView::Other(object_notation(value))
        },
        None => DropKindView::Other(""@),
    }
}

fn make_drop_kind(entries: &Vec<(String, Syntax)>, Ghost(tree): Ghost<TreeView>) -> (kind: DropKind)
    requires
        entry_views(entries@) == entries_of(tree),
    ensures
        kind@ == drop_kind_of(tree),
{
    match find_entry(entries, "object_type") {
        Some(found) => {
            if let Some(text) = take_text(found) {
                if same_text(text.as_str(), "Table") {
                    return DropKind::Table;
                }
                if same_text(text.as_str(), "Index") {
                    return DropKind::Index;
                }
            }
            DropKind::Other(object_text(found))
        },
        None => DropKind::Other("".to_owned()),
    }
}

/// `DROP`.
pub open spec fn drop_of(tree: TreeView) -> StatementView {
    StatementView::Drop {
        kind: drop_kind_of(tree),
        names: names_of(listed(tree, "names"@)),
        if_exists: marked(tree, "if_exists"@),
        modified: marked(tree, "cascade"@) || marked(tree, "restrict"@) || marked(tree, "purge"@) || marked(
            tree,
            "temporary"@,
        ),
    }
}

fn make_drop(json: &Syntax) -> (statement: Statement)
    ensures
        statement@ == drop_of(json@),
{
    let entries = take_entries(json);
    let names = take_listed(&entries, "names");
    let modified = is_marked(&entries, "cascade") || is_marked(&entries, "restrict") || is_marked(&entries, "purge")
        || is_marked(&entries, "temporary");
    Statement::Drop {
        kind: make_drop_kind(&entries, Ghost(json@)),
        names: make_names(&names),
        if_exists: is_marked(&entries, "if_exists"),
        modified,
    }
}

/// A statement that is only named. One with an external table that has no format or no location cannot
/// be written.
pub open spec fn other_of(tree: TreeView) -> StatementView {
    if unwritable(tree) {
        StatementView::Other("a statement with an external table that has no format or no location"@)
    } else {
        StatementView::Other(statement_notation(tree))
    }
}

fn make_other(json: &Syntax) -> (statement: Statement)
    ensures
        statement@ == other_of(json@),
{
    if is_unwritable(json) {
        Statement::Other("a statement with an external table that has no format or no location".to_owned())
    } else {
        Statement::Other(statement_text(json))
    }
}

/// A statement.
pub open spec fn statement_of(tree: TreeView) -> StatementView {
    match variant(tree) {
        (form, Some(held)) => if form == "CreateTable"@ {
            create_table_of(held)
        } else if form == "Insert"@ {
            insert_of(held)
        } else if form == "Query"@ {
            StatementView::Query(query_of(held))
        } else if form == "Explain"@ {
            explain_of(held)
        } else if form == "CreateIndex"@ {
            create_index_of(held)
        } else if form == "Update"@ {
            update_of(held)
        } else if form == "Delete"@ {
            delete_of(held)
        } else if form == "Drop"@ {
            drop_of(held)
        } else {
            other_of(tree)
        },
        _ => other_of(tree),
    }
}

fn make_statement(json: &Syntax) -> (statement: Statement)
    ensures
        statement@ == statement_of(json@),
{
    let (form, held) = take_variant(json);
    let held = match held {
        Some(held) => held,
        None => {
            return make_other(json);
        },
    };
    if same_text(form.as_str(), "CreateTable") {
        make_create_table(&held)
    } else if same_text(form.as_str(), "Insert") {
        make_insert(&held)
    } else if same_text(form.as_str(), "Query") {
        Statement::Query(make_query(&held))
    } else if same_text(form.as_str(), "Explain") {
        make_explain(&held)
    } else if same_text(form.as_str(), "CreateIndex") {
        make_create_index(&held)
    } else if same_text(form.as_str(), "Update") {
        make_update(&held)
    } else if same_text(form.as_str(), "Delete") {
        make_delete(&held)
    } else if same_text(form.as_str(), "Drop") {
        make_drop(&held)
    } else {
        make_other(json)
    }
}

pub open spec fn statements_of(items: Seq<TreeView>) -> Seq<StatementView> {
    items.map_values(|item: TreeView| statement_of(item))
}

pub fn make_statements(items: &Vec<Syntax>) -> (result: Vec<Statement>)
    ensures
        views(result@) == statements_of(views(items@)),
{
    let mut out: Vec<Statement> = Vec::new();
    let mut index: usize = 0;
    while index < items.len()
        invariant
            index <= items@.len(),
            out@.len() == index,
            forall|i: int| 0 <= i < index ==> (#[trigger] out@[i])@ == statement_of(items@[i]@),
        decreases items@.len() - index,
    {
        let made = make_statement(&items[index]);
        out.push(made);
        index = index + 1;
    }
    assert(views(out@) =~= statements_of(views(items@)));
    out
}

} // verus!
