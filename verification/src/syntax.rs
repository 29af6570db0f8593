//! The syntax of SQL text, as the parser gives it.

use vstd::prelude::*;
use crate::ast::optional;
use crate::error::{Error, ErrorView};
use crate::json::{
    entries_of, entry, entry_position, entry_views as json_entries, items_of, json_node, text_of, Json, JsonNode, TreeView,
};
use crate::parseable::{is_parseable, suitable};
use crate::text::{lemma_views_push, views};
use crate::tokens::tokenize;

verus! {

broadcast use {vstd::string::group_string_axioms, lemma_views_push};

/// The statements that SQL text holds, as a tree, or what is wrong with the text.
pub uninterp spec fn sql_tree(sql: Seq<char>) -> Result<TreeView, Seq<char>>;

/// `sqlparser::parser::Parser::parse_sql` under the generic dialect, with the statements in the
/// form that their `serde` implementation gives them. What the statements of a text are is not
/// said, only that they depend on the text alone. The parser panics on some texts, such as a
/// statement that is the word `REPLACE` alone, and nests without a limit on others: these are not
/// suitable. On a suitable text the call returns where the stack has two mebibytes.
#[verifier::external_body]
fn parse_sql(sql: &str) -> (result: Result<Json, String>)
    requires
        suitable(sql@),
    ensures
        match result {
            Ok(json) => sql_tree(sql@) == Ok::<TreeView, Seq<char>>(json@),
            Err(text) => sql_tree(sql@) == Err::<TreeView, Seq<char>>(text@),
        },
{
    let parsed = sqlparser::parser::Parser::parse_sql(&sqlparser::dialect::GenericDialect {}, sql);
    let statements = parsed.map_err(|error| error.to_string())?;
    serde_json::to_value(statements).map(|value| Json { value }).map_err(|error| error.to_string())
}

/// The part of a tree at a position.
pub open spec fn child(tree: TreeView, index: nat) -> Option<TreeView> {
    match tree {
        TreeView::List(items) => if index < items.len() {
            Some(items[index as int])
        } else {
            None
        },
        TreeView::Record(entries) => if index < entries.len() {
            Some(entries[index as int].1)
        } else {
            None
        },
        _ => None,
    }
}

/// The part of a tree that positions lead to, one after another.
pub open spec fn at_path(tree: TreeView, path: Seq<nat>) -> Option<TreeView>
    decreases path.len(),
{
    if path.len() == 0 {
        Some(tree)
    } else {
        match at_path(tree, path.drop_last()) {
            Some(above) => child(above, path.last()),
            None => None,
        }
    }
}

/// A part of what the parser makes of a text.
pub open spec fn parsed_part(sql: Seq<char>, path: Seq<nat>) -> Option<TreeView> {
    match sql_tree(sql) {
        Ok(tree) => if suitable(sql) {
            at_path(tree, path)
        } else {
            None
        },
        Err(_) => None,
    }
}

/// Whether a tree is a part of what the parser makes of some text.
pub open spec fn from_parser(tree: TreeView) -> bool {
    exists|sql: Seq<char>, path: Seq<nat>| #[trigger] parsed_part(sql, path) == Some(tree)
}

proof fn lemma_child(tree: TreeView, index: nat)
    requires
        from_parser(tree),
    ensures
        child(tree, index) matches Some(below) ==> from_parser(below),
{
    let (sql, path) = choose|sql: Seq<char>, path: Seq<nat>| #[trigger] parsed_part(sql, path) == Some(tree);
    let longer = path.push(index);
    assert(longer.drop_last() =~= path);
    assert(parsed_part(sql, longer) == child(tree, index));
}

/// A part of what the parser makes of SQL text.
pub struct Syntax {
    json: Json,
}

impl View for Syntax {
    type V = TreeView;

    closed spec fn view(&self) -> TreeView {
        self.json@
    }
}

impl Syntax {
    #[verifier::type_invariant]
    spec fn inv(self) -> bool {
        from_parser(self.json@)
    }
}

/// One layer of a part.
pub enum SyntaxNode {
    Null,
    Boolean(bool),
    Number(String),
    Text(String),
    List(Vec<Syntax>),
    Record(Vec<(String, Syntax)>),
}

pub open spec fn entry_views(entries: Seq<(String, Syntax)>) -> Seq<(Seq<char>, TreeView)> {
    entries.map_values(|entry: (String, Syntax)| (entry.0@, entry.1@))
}

impl View for SyntaxNode {
    type V = TreeView;

    open spec fn view(&self) -> TreeView {
        match self {
            SyntaxNode::Null => TreeView::Null,
            SyntaxNode::Boolean(value) => TreeView::Boolean(*value),
            SyntaxNode::Number(text) => TreeView::Number(text@),
            SyntaxNode::Text(text) => TreeView::Text(text@),
            SyntaxNode::List(items) => TreeView::List(views(items@)),
            SyntaxNode::Record(entries) => TreeView::Record(entry_views(entries@)),
        }
    }
}

/// The items from the last to the first.
fn turned<T>(items: Vec<T>) -> (result: Vec<T>)
    ensures
        result@ == items@.reverse(),
{
    let mut rest = items;
    let mut out: Vec<T> = Vec::new();
    while rest.len() > 0
        invariant
            rest@.len() + out@.len() == items@.len(),
            rest@ == items@.take(rest@.len() as int),
            forall|i: int| 0 <= i < out@.len() ==> #[trigger] out@[i] == items@[items@.len() - 1 - i],
        decreases rest@.len(),
    {
        let ghost before = rest@;
        if let Some(item) = rest.pop() {
            assert(item == before.last());
            out.push(item);
            assert(rest@ =~= items@.take(rest@.len() as int));
        }
    }
    assert(out@ =~= items@.reverse());
    out
}

/// The items of a list.
fn wrap_items(items: Vec<Json>, Ghost(tree): Ghost<TreeView>) -> (result: Vec<Syntax>)
    requires
        from_parser(tree),
        tree == TreeView::List(views(items@)),
    ensures
        views(result@) == views(items@),
{
    let ghost all = items@;
    let mut rest = turned(items);
    let mut out: Vec<Syntax> = Vec::new();
    while rest.len() > 0
        invariant
            from_parser(tree),
            tree == TreeView::List(views(all)),
            rest@.len() + out@.len() == all.len(),
            rest@ == all.reverse().take(rest@.len() as int),
            forall|i: int| 0 <= i < out@.len() ==> (#[trigger] out@[i])@ == all[i]@,
        decreases rest@.len(),
    {
        let ghost before = rest@;
        let ghost at = out@.len();
        if let Some(json) = rest.pop() {
            proof {
                assert(json == before.last());
                assert(json == all[at as int]);
                assert(views(all)[at as int] == all[at as int]@);
                lemma_child(tree, at);
                assert(rest@ =~= all.reverse().take(rest@.len() as int));
            }
            out.push(Syntax { json });
        }
    }
    assert(views(out@) =~= views(all));
    out
}

/// The entries of a record.
fn wrap_entries(entries: Vec<(String, Json)>, Ghost(tree): Ghost<TreeView>) -> (result: Vec<(String, Syntax)>)
    requires
        from_parser(tree),
        tree == TreeView::Record(json_entries(entries@)),
    ensures
        entry_views(result@) == json_entries(entries@),
{
    let ghost all = entries@;
    let mut rest = turned(entries);
    let mut out: Vec<(String, Syntax)> = Vec::new();
    while rest.len() > 0
        invariant
            from_parser(tree),
            tree == TreeView::Record(json_entries(all)),
            rest@.len() + out@.len() == all.len(),
            rest@ == all.reverse().take(rest@.len() as int),
            forall|i: int| 0 <= i < out@.len() ==> (#[trigger] out@[i]).0@ == all[i].0@ && out@[i].1@ == all[i].1@,
        decreases rest@.len(),
    {
        let ghost before = rest@;
        let ghost at = out@.len();
        if let Some(entry) = rest.pop() {
            proof {
                assert(entry == before.last());
                assert(entry == all[at as int]);
                assert(json_entries(all)[at as int] == (all[at as int].0@, all[at as int].1@));
                lemma_child(tree, at);
                assert(rest@ =~= all.reverse().take(rest@.len() as int));
            }
            let (name, json) = entry;
            out.push((name, Syntax { json }));
        }
    }
    assert(entry_views(out@) =~= json_entries(all));
    out
}

pub(crate) fn syntax_node(syntax: &Syntax) -> (node: SyntaxNode)
    ensures
        node@ == syntax@,
{
    proof {
        use_type_invariant(syntax);
    }
    match json_node(&syntax.json) {
        JsonNode::Null => SyntaxNode::Null,
        JsonNode::Boolean(value) => SyntaxNode::Boolean(value),
        JsonNode::Number(text) => SyntaxNode::Number(text),
        JsonNode::Text(text) => SyntaxNode::Text(text),
        JsonNode::List(items) => SyntaxNode::List(wrap_items(items, Ghost(syntax@))),
        JsonNode::Record(entries) => SyntaxNode::Record(wrap_entries(entries, Ghost(syntax@))),
    }
}

/// The entries of a record; none for other values.
pub(crate) fn take_entries(syntax: &Syntax) -> (entries: Vec<(String, Syntax)>)
    ensures
        entry_views(entries@) == entries_of(syntax@),
        forall|i: int| 0 <= i < entries@.len() ==> decreases_to!(syntax@ => (#[trigger] entries@[i]).1@),
{
    match syntax_node(syntax) {
        SyntaxNode::Record(entries) => {
            proof {
                let all = entry_views(entries@);
                assert forall|i: int| 0 <= i < entries@.len() implies decreases_to!(syntax@ => (#[trigger] entries@[i]).1@) by {
                    assert(all[i] == (entries@[i].0@, entries@[i].1@));
                    assert(syntax@ == TreeView::Record(all));
                    assert(decreases_to!(syntax@ => syntax@->Record_0));
                    assert(decreases_to!(all => all[i]));
                    assert(decreases_to!(all[i] => all[i].1));
                }
            }
            entries
        },
        _ => {
            let none: Vec<(String, Syntax)> = Vec::new();
            assert(entry_views(none@) =~= Seq::<(Seq<char>, TreeView)>::empty());
            none
        },
    }
}

/// The items of a list; none for other values.
pub(crate) fn take_items(syntax: &Syntax) -> (items: Vec<Syntax>)
    ensures
        views(items@) == items_of(syntax@),
        forall|i: int| 0 <= i < items@.len() ==> decreases_to!(syntax@ => (#[trigger] items@[i])@),
{
    match syntax_node(syntax) {
        SyntaxNode::List(items) => {
            proof {
                let all = views(items@);
                assert forall|i: int| 0 <= i < items@.len() implies decreases_to!(syntax@ => (#[trigger] items@[i])@) by {
                    assert(all[i] == items@[i]@);
                    assert(syntax@ == TreeView::List(all));
                    assert(decreases_to!(syntax@ => syntax@->List_0));
                    assert(decreases_to!(all => all[i]));
                }
            }
            items
        },
        _ => {
            let none: Vec<Syntax> = Vec::new();
            assert(views(none@) =~= Seq::<TreeView>::empty());
            none
        },
    }
}

/// The value of the first entry of this name.
pub(crate) fn find_entry<'a>(entries: &'a Vec<(String, Syntax)>, name: &str) -> (result: Option<&'a Syntax>)
    ensures
        match result {
            Some(found) => entry(entry_views(entries@), name@) == Some(found@) && exists|i: int|
                0 <= i < entries@.len() && (#[trigger] entries@[i]).1 == *found,
            None => entry(entry_views(entries@), name@) is None,
        },
{
    let ghost all = entry_views(entries@);
    let mut index: usize = 0;
    while index < entries.len()
        invariant
            all == entry_views(entries@),
            index <= entries@.len(),
            entry_position(all, name@, index as nat) == entry_position(all, name@, 0),
        decreases entries@.len() - index,
    {
        assert(all[index as int] == (entries@[index as int].0@, entries@[index as int].1@));
        if *entries[index].0.as_str() == *name {
            return Some(&entries[index].1);
        }
        index = index + 1;
    }
    None
}

/// The text of a text value.
pub(crate) fn take_text(syntax: &Syntax) -> (result: Option<String>)
    ensures
        optional(result) == text_of(syntax@),
{
    match syntax_node(syntax) {
        SyntaxNode::Text(text) => Some(text),
        _ => None,
    }
}

/// Whether a value is `true`.
pub(crate) fn is_true(syntax: &Syntax) -> (result: bool)
    ensures
        result == (syntax@ == TreeView::Boolean(true)),
{
    match syntax_node(syntax) {
        SyntaxNode::Boolean(value) => value,
        _ => false,
    }
}

/// Whether a value is `null`.
pub(crate) fn is_null(syntax: &Syntax) -> (result: bool)
    ensures
        result == (syntax@ is Null),
{
    match syntax_node(syntax) {
        SyntaxNode::Null => true,
        _ => false,
    }
}

/// How an expression is written.
pub uninterp spec fn expression_notation(tree: TreeView) -> Seq<char>;

/// The `to_string` of the `sqlparser::ast::Expr` that `serde_json::from_value` makes of the value,
/// or of its error. Only that it depends on what the value holds is said. Of a value that the
/// parser did not make it may panic.
#[verifier::external_body]
fn display_expression(json: &Json) -> (text: String)
    requires
        from_parser(json@),
    ensures
        text@ == expression_notation(json@),
{
    match serde_json::from_value::<sqlparser::ast::Expr>(json.value.clone()) {
        Ok(node) => node.to_string(),
        Err(error) => error.to_string(),
    }
}

pub(crate) fn expression_text(syntax: &Syntax) -> (text: String)
    ensures
        text@ == expression_notation(syntax@),
{
    proof {
        use_type_invariant(syntax);
    }
    display_expression(&syntax.json)
}

/// How an item of `ORDER BY` is written.
pub uninterp spec fn ordering_notation(tree: TreeView) -> Seq<char>;

/// The `to_string` of the `sqlparser::ast::OrderByExpr` that `serde_json::from_value` makes of the value,
/// or of its error. Only that it depends on what the value holds is said. Of a value that the
/// parser did not make it may panic.
#[verifier::external_body]
fn display_ordering(json: &Json) -> (text: String)
    requires
        from_parser(json@),
    ensures
        text@ == ordering_notation(json@),
{
    match serde_json::from_value::<sqlparser::ast::OrderByExpr>(json.value.clone()) {
        Ok(node) => node.to_string(),
        Err(error) => error.to_string(),
    }
}

pub(crate) fn ordering_text(syntax: &Syntax) -> (text: String)
    ensures
        text@ == ordering_notation(syntax@),
{
    proof {
        use_type_invariant(syntax);
    }
    display_ordering(&syntax.json)
}

/// How an item of a `SELECT` list is written.
pub uninterp spec fn selection_notation(tree: TreeView) -> Seq<char>;

/// The `to_string` of the `sqlparser::ast::SelectItem` that `serde_json::from_value` makes of the value,
/// or of its error. Only that it depends on what the value holds is said. Of a value that the
/// parser did not make it may panic.
#[verifier::external_body]
fn display_selection(json: &Json) -> (text: String)
    requires
        from_parser(json@),
    ensures
        text@ == selection_notation(json@),
{
    match serde_json::from_value::<sqlparser::ast::SelectItem>(json.value.clone()) {
        Ok(node) => node.to_string(),
        Err(error) => error.to_string(),
    }
}

pub(crate) fn selection_text(syntax: &Syntax) -> (text: String)
    ensures
        text@ == selection_notation(syntax@),
{
    proof {
        use_type_invariant(syntax);
    }
    display_selection(&syntax.json)
}

/// How a source of rows is written.
pub uninterp spec fn relation_notation(tree: TreeView) -> Seq<char>;

/// The `to_string` of the `sqlparser::ast::TableFactor` that `serde_json::from_value` makes of the value,
/// or of its error. Only that it depends on what the value holds is said. Of a value that the
/// parser did not make it may panic.
#[verifier::external_body]
fn display_relation(json: &Json) -> (text: String)
    requires
        from_parser(json@),
    ensures
        text@ == relation_notation(json@),
{
    match serde_json::from_value::<sqlparser::ast::TableFactor>(json.value.clone()) {
        Ok(node) => node.to_string(),
        Err(error) => error.to_string(),
    }
}

pub(crate) fn relation_text(syntax: &Syntax) -> (text: String)
    ensures
        text@ == relation_notation(syntax@),
{
    proof {
        use_type_invariant(syntax);
    }
    display_relation(&syntax.json)
}

/// How an option of a column is written.
pub uninterp spec fn option_notation(tree: TreeView) -> Seq<char>;

/// The `to_string` of the `sqlparser::ast::ColumnOption` that `serde_json::from_value` makes of the value,
/// or of its error. Only that it depends on what the value holds is said. Of a value that the
/// parser did not make it may panic.
#[verifier::external_body]
fn display_option(json: &Json) -> (text: String)
    requires
        from_parser(json@),
    ensures
        text@ == option_notation(json@),
{
    match serde_json::from_value::<sqlparser::ast::ColumnOption>(json.value.clone()) {
        Ok(node) => node.to_string(),
        Err(error) => error.to_string(),
    }
}

pub(crate) fn option_text(syntax: &Syntax) -> (text: String)
    ensures
        text@ == option_notation(syntax@),
{
    proof {
        use_type_invariant(syntax);
    }
    display_option(&syntax.json)
}

/// How a constraint of a table is written.
pub uninterp spec fn constraint_notation(tree: TreeView) -> Seq<char>;

/// The `to_string` of the `sqlparser::ast::TableConstraint` that `serde_json::from_value` makes of the value,
/// or of its error. Only that it depends on what the value holds is said. Of a value that the
/// parser did not make it may panic.
#[verifier::external_body]
fn display_constraint(json: &Json) -> (text: String)
    requires
        from_parser(json@),
    ensures
        text@ == constraint_notation(json@),
{
    match serde_json::from_value::<sqlparser::ast::TableConstraint>(json.value.clone()) {
        Ok(node) => node.to_string(),
        Err(error) => error.to_string(),
    }
}

pub(crate) fn constraint_text(syntax: &Syntax) -> (text: String)
    ensures
        text@ == constraint_notation(syntax@),
{
    proof {
        use_type_invariant(syntax);
    }
    display_constraint(&syntax.json)
}

/// How a type is written.
pub uninterp spec fn type_notation(tree: TreeView) -> Seq<char>;

/// The `to_string` of the `sqlparser::ast::DataType` that `serde_json::from_value` makes of the value,
/// or of its error. Only that it depends on what the value holds is said. Of a value that the
/// parser did not make it may panic.
#[verifier::external_body]
fn display_type(json: &Json) -> (text: String)
    requires
        from_parser(json@),
    ensures
        text@ == type_notation(json@),
{
    match serde_json::from_value::<sqlparser::ast::DataType>(json.value.clone()) {
        Ok(node) => node.to_string(),
        Err(error) => error.to_string(),
    }
}

pub(crate) fn type_text(syntax: &Syntax) -> (text: String)
    ensures
        text@ == type_notation(syntax@),
{
    proof {
        use_type_invariant(syntax);
    }
    display_type(&syntax.json)
}

/// How a literal is written.
pub uninterp spec fn literal_notation(tree: TreeView) -> Seq<char>;

/// The `to_string` of the `sqlparser::ast::Value` that `serde_json::from_value` makes of the value,
/// or of its error. Only that it depends on what the value holds is said. Of a value that the
/// parser did not make it may panic.
#[verifier::external_body]
fn display_literal(json: &Json) -> (text: String)
    requires
        from_parser(json@),
    ensures
        text@ == literal_notation(json@),
{
    match serde_json::from_value::<sqlparser::ast::Value>(json.value.clone()) {
        Ok(node) => node.to_string(),
        Err(error) => error.to_string(),
    }
}

pub(crate) fn literal_text(syntax: &Syntax) -> (text: String)
    ensures
        text@ == literal_notation(syntax@),
{
    proof {
        use_type_invariant(syntax);
    }
    display_literal(&syntax.json)
}

/// How a binary operator is written.
pub uninterp spec fn operator_notation(tree: TreeView) -> Seq<char>;

/// The `to_string` of the `sqlparser::ast::BinaryOperator` that `serde_json::from_value` makes of the value,
/// or of its error. Only that it depends on what the value holds is said. Of a value that the
/// parser did not make it may panic.
#[verifier::external_body]
fn display_operator(json: &Json) -> (text: String)
    requires
        from_parser(json@),
    ensures
        text@ == operator_notation(json@),
{
    match serde_json::from_value::<sqlparser::ast::BinaryOperator>(json.value.clone()) {
        Ok(node) => node.to_string(),
        Err(error) => error.to_string(),
    }
}

pub(crate) fn operator_text(syntax: &Syntax) -> (text: String)
    ensures
        text@ == operator_notation(syntax@),
{
    proof {
        use_type_invariant(syntax);
    }
    display_operator(&syntax.json)
}

/// How a unary operator is written.
pub uninterp spec fn sign_notation(tree: TreeView) -> Seq<char>;

/// The `to_string` of the `sqlparser::ast::UnaryOperator` that `serde_json::from_value` makes of the value,
/// or of its error. Only that it depends on what the value holds is said. Of a value that the
/// parser did not make it may panic.
#[verifier::external_body]
fn display_sign(json: &Json) -> (text: String)
    requires
        from_parser(json@),
    ensures
        text@ == sign_notation(json@),
{
    match serde_json::from_value::<sqlparser::ast::UnaryOperator>(json.value.clone()) {
        Ok(node) => node.to_string(),
        Err(error) => error.to_string(),
    }
}

pub(crate) fn sign_text(syntax: &Syntax) -> (text: String)
    ensures
        text@ == sign_notation(syntax@),
{
    proof {
        use_type_invariant(syntax);
    }
    display_sign(&syntax.json)
}

/// How a dotted name is written.
pub uninterp spec fn name_notation(tree: TreeView) -> Seq<char>;

/// The `to_string` of the `sqlparser::ast::ObjectName` that `serde_json::from_value` makes of the value,
/// or of its error. Only that it depends on what the value holds is said. Of a value that the
/// parser did not make it may panic.
#[verifier::external_body]
fn display_name(json: &Json) -> (text: String)
    requires
        from_parser(json@),
    ensures
        text@ == name_notation(json@),
{
    match serde_json::from_value::<sqlparser::ast::ObjectName>(json.value.clone()) {
        Ok(node) => node.to_string(),
        Err(error) => error.to_string(),
    }
}

pub(crate) fn name_text(syntax: &Syntax) -> (text: String)
    ensures
        text@ == name_notation(syntax@),
{
    proof {
        use_type_invariant(syntax);
    }
    display_name(&syntax.json)
}

/// How a kind of object is written.
pub uninterp spec fn object_notation(tree: TreeView) -> Seq<char>;

/// The `to_string` of the `sqlparser::ast::ObjectType` that `serde_json::from_value` makes of the value,
/// or of its error. Only that it depends on what the value holds is said. Of a value that the
/// parser did not make it may panic.
#[verifier::external_body]
fn display_object(json: &Json) -> (text: String)
    requires
        from_parser(json@),
    ensures
        text@ == object_notation(json@),
{
    match serde_json::from_value::<sqlparser::ast::ObjectType>(json.value.clone()) {
        Ok(node) => node.to_string(),
        Err(error) => error.to_string(),
    }
}

pub(crate) fn object_text(syntax: &Syntax) -> (text: String)
    ensures
        text@ == object_notation(syntax@),
{
    proof {
        use_type_invariant(syntax);
    }
    display_object(&syntax.json)
}

/// Whether an entry is there and is not `null`.
pub open spec fn holds_entry(tree: TreeView, name: Seq<char>) -> bool {
    entry(entries_of(tree), name) matches Some(value) && !(value is Null)
}

/// Whether a tree is an external table without a format or without a location.
pub open spec fn unplaced_table(tree: TreeView) -> bool {
    entry(entries_of(tree), "external"@) == Some(TreeView::Boolean(true)) && !(holds_entry(tree, "file_format"@)
        && holds_entry(tree, "location"@))
}

/// Whether there is an external table without a format or without a location in a tree, at any depth.
pub open spec fn unwritable(tree: TreeView) -> bool
    decreases tree,
{
    unplaced_table(tree) || match tree {
        TreeView::List(items) => exists|i: int| 0 <= i < items.len() && unwritable(#[trigger] items[i]),
        TreeView::Record(entries) => exists|i: int| 0 <= i < entries.len() && unwritable((#[trigger] entries[i]).1),
        _ => false,
    }
}

fn has_entry(entries: &Vec<(String, Syntax)>, name: &str) -> (result: bool)
    ensures
        result == (entry(entry_views(entries@), name@) matches Some(value) && !(value is Null)),
{
    match find_entry(entries, name) {
        Some(found) => !is_null(found),
        None => false,
    }
}

/// Whether there is an external table without a format or without a location.
pub(crate) fn is_unwritable(syntax: &Syntax) -> (result: bool)
    ensures
        result == unwritable(syntax@),
    decreases syntax@,
{
    let entries = take_entries(syntax);
    let ghost all = entry_views(entries@);
    let external = match find_entry(&entries, "external") {
        Some(found) => is_true(found),
        None => false,
    };
    if external && !(has_entry(&entries, "file_format") && has_entry(&entries, "location")) {
        return true;
    }
    assert(!unplaced_table(syntax@));
    let mut index: usize = 0;
    while index < entries.len()
        invariant
            index <= entries@.len(),
            all == entry_views(entries@),
            all == entries_of(syntax@),
            forall|i: int| 0 <= i < entries@.len() ==> decreases_to!(syntax@ => (#[trigger] entries@[i]).1@),
            forall|i: int| 0 <= i < index ==> !unwritable((#[trigger] all[i]).1),
        decreases entries@.len() - index,
    {
        assert(all[index as int] == (entries@[index as int].0@, entries@[index as int].1@));
        if is_unwritable(&entries[index].1) {
            assert(syntax@ is Record);
            assert(unwritable(syntax@->Record_0[index as int].1));
            return true;
        }
        index = index + 1;
    }
    let items = take_items(syntax);
    let ghost each = views(items@);
    let mut index: usize = 0;
    while index < items.len()
        invariant
            index <= items@.len(),
            each == views(items@),
            each == items_of(syntax@),
            forall|i: int| 0 <= i < items@.len() ==> decreases_to!(syntax@ => (#[trigger] items@[i])@),
            forall|i: int| 0 <= i < index ==> !unwritable(#[trigger] each[i]),
        decreases items@.len() - index,
    {
        assert(each[index as int] == items@[index as int]@);
        if is_unwritable(&items[index]) {
            assert(syntax@ is List);
            assert(unwritable(syntax@->List_0[index as int]));
            return true;
        }
        index = index + 1;
    }
    false
}

/// How a statement is written.
pub uninterp spec fn statement_notation(tree: TreeView) -> Seq<char>;

/// The `to_string` of the `sqlparser::ast::Statement` that `serde_json::from_value` makes of the value,
/// or of its error. Only that it depends on what the value holds is said. Of a value that the
/// parser did not make, and of an external table without a format or a location, it may panic.
#[verifier::external_body]
fn display_statement(json: &Json) -> (text: String)
    requires
        from_parser(json@),
        !unwritable(json@),
    ensures
        text@ == statement_notation(json@),
{
    match serde_json::from_value::<sqlparser::ast::Statement>(json.value.clone()) {
        Ok(node) => node.to_string(),
        Err(error) => error.to_string(),
    }
}

pub(crate) fn statement_text(syntax: &Syntax) -> (text: String)
    requires
        !unwritable(syntax@),
    ensures
        text@ == statement_notation(syntax@),
{
    proof {
        use_type_invariant(syntax);
    }
    display_statement(&syntax.json)
}

pub open spec fn unsuitable() -> Seq<char> {
    "SQL text is nested too deeply, or has a part that cannot be parsed"@
}

/// What the parser makes of a text.
pub open spec fn syntax_of(sql: Seq<char>) -> Result<TreeView, ErrorView> {
    if suitable(sql) {
        match sql_tree(sql) {
            Ok(tree) => Ok(tree),
            Err(text) => Err(ErrorView::Parse(text)),
        }
    } else {
        Err(ErrorView::Parse(unsuitable()))
    }
}

/// What the parser makes of a text; a text that it cannot be given is an error.
pub fn parse_syntax(sql: &str) -> (result: Result<Syntax, Error>)
    ensures
        match result {
            Ok(syntax) => syntax_of(sql@) == Ok::<TreeView, ErrorView>(syntax@),
            Err(error) => syntax_of(sql@) == Err::<TreeView, ErrorView>(error@),
        },
{
    if let Ok(tokens) = tokenize(sql) {
        if !is_parseable(&tokens) {
            return Err(Error::Parse("SQL text is nested too deeply, or has a part that cannot be parsed".to_owned()));
        }
    }
    match parse_sql(sql) {
        Ok(json) => {
            assert(parsed_part(sql@, Seq::empty()) == Some(json@));
            Ok(Syntax { json })
        },
        Err(text) => Err(Error::Parse(text)),
    }
}

} // verus!
